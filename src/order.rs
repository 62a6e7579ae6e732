//! The report order: larger sizes first, equal sizes by path bytes ascending.

use std::cmp::Ordering;
use vstd::prelude::*;
use vstd::utf8::encode_utf8;

verus! {

/// Strict lexicographic order on byte strings, as `Ord` compares `[u8]` and `str`.
pub open spec fn bytes_less(a: Seq<u8>, b: Seq<u8>) -> bool
    decreases a.len(),
{
    if a.len() == 0 {
        b.len() > 0
    } else if b.len() == 0 {
        false
    } else if a[0] != b[0] {
        a[0] < b[0]
    } else {
        bytes_less(a.drop_first(), b.drop_first())
    }
}

/// No byte string comes before itself.
pub proof fn lemma_bytes_less_irreflexive(a: Seq<u8>)
    ensures
        !bytes_less(a, a),
    decreases a.len(),
{
    if a.len() > 0 {
        lemma_bytes_less_irreflexive(a.drop_first());
    }
}

/// The byte order is transitive.
pub proof fn lemma_bytes_less_transitive(a: Seq<u8>, b: Seq<u8>, c: Seq<u8>)
    requires
        bytes_less(a, b),
        bytes_less(b, c),
    ensures
        bytes_less(a, c),
    decreases a.len(),
{
    if a.len() > 0 && b.len() > 0 && c.len() > 0 && a[0] == b[0] && b[0] == c[0] {
        lemma_bytes_less_transitive(a.drop_first(), b.drop_first(), c.drop_first());
    }
}

/// Any two distinct byte strings are ordered one way or the other.
pub proof fn lemma_bytes_less_total(a: Seq<u8>, b: Seq<u8>)
    ensures
        a == b || bytes_less(a, b) || bytes_less(b, a),
    decreases a.len(),
{
    if a.len() == 0 && b.len() == 0 {
        assert(a =~= b);
    } else if a.len() > 0 && b.len() > 0 && a[0] == b[0] {
        lemma_bytes_less_total(a.drop_first(), b.drop_first());
        if a.drop_first() == b.drop_first() {
            assert forall|i: int| 0 <= i < a.len() implies a[i] == b[i] by {
                if i > 0 {
                    assert(a[i] == a.drop_first()[i - 1]);
                    assert(b[i] == b.drop_first()[i - 1]);
                }
            }
            assert(a.len() == b.len());
            assert(a =~= b);
        }
    }
}

/// The byte order is asymmetric.
pub proof fn lemma_bytes_less_asymmetric(a: Seq<u8>, b: Seq<u8>)
    requires
        bytes_less(a, b),
    ensures
        !bytes_less(b, a),
{
    if bytes_less(b, a) {
        lemma_bytes_less_transitive(a, b, a);
        lemma_bytes_less_irreflexive(a);
    }
}

/// Compares two byte strings lexicographically.
pub fn compare_bytes(a: &[u8], b: &[u8]) -> (r: Ordering)
    ensures
        (r == Ordering::Less) == bytes_less(a@, b@),
        (r == Ordering::Greater) == bytes_less(b@, a@),
        (r == Ordering::Equal) == (a@ == b@),
{
    let mut i: usize = 0;
    assert(a@.skip(0) =~= a@);
    assert(b@.skip(0) =~= b@);
    while i < a.len() && i < b.len()
        invariant
            i <= a@.len(),
            i <= b@.len(),
            forall|j: int| 0 <= j < i ==> a@[j] == b@[j],
            bytes_less(a@, b@) == bytes_less(a@.skip(i as int), b@.skip(i as int)),
            bytes_less(b@, a@) == bytes_less(b@.skip(i as int), a@.skip(i as int)),
        decreases a@.len() - i,
    {
        if a[i] != b[i] {
            proof {
                assert(a@.skip(i as int)[0] == a@[i as int]);
                assert(b@.skip(i as int)[0] == b@[i as int]);
                if a@ == b@ {
                    assert(a@[i as int] == b@[i as int]);
                }
            }
            if a[i] < b[i] {
                return Ordering::Less;
            } else {
                return Ordering::Greater;
            }
        }
        proof {
            assert(a@.skip(i as int).drop_first() =~= a@.skip(i as int + 1));
            assert(b@.skip(i as int).drop_first() =~= b@.skip(i as int + 1));
        }
        i = i + 1;
    }
    if a.len() == b.len() {
        assert(a@ =~= b@);
        proof {
            lemma_bytes_less_irreflexive(a@);
        }
        Ordering::Equal
    } else if a.len() < b.len() {
        Ordering::Less
    } else {
        Ordering::Greater
    }
}

/// What an entry of the report is to the order: its size and the bytes of its path.
pub type EntryKey = (u64, Seq<u8>);

/// `a` comes strictly before `b` in the report: larger size first, then path bytes ascending.
pub open spec fn entry_before(a: EntryKey, b: EntryKey) -> bool {
    a.0 > b.0 || (a.0 == b.0 && bytes_less(a.1, b.1))
}

/// No entry comes before itself.
pub proof fn lemma_entry_before_irreflexive(a: EntryKey)
    ensures
        !entry_before(a, a),
{
    lemma_bytes_less_irreflexive(a.1);
}

/// The report order is transitive.
pub proof fn lemma_entry_before_transitive(a: EntryKey, b: EntryKey, c: EntryKey)
    requires
        entry_before(a, b),
        entry_before(b, c),
    ensures
        entry_before(a, c),
{
    if a.0 == b.0 && b.0 == c.0 {
        lemma_bytes_less_transitive(a.1, b.1, c.1);
    }
}

/// Of two distinct entries, exactly one comes first.
pub proof fn lemma_entry_before_total(a: EntryKey, b: EntryKey)
    ensures
        a == b || entry_before(a, b) || entry_before(b, a),
        !(entry_before(a, b) && entry_before(b, a)),
{
    lemma_bytes_less_total(a.1, b.1);
    if a.0 == b.0 && bytes_less(a.1, b.1) {
        lemma_bytes_less_asymmetric(a.1, b.1);
    }
}

/// A file or directory path together with the size attributed to it.
pub struct SizedPath {
    pub size: u64,
    pub path: String,
}

impl SizedPath {
    /// The key by which entries are ordered and told apart.
    pub open spec fn key(&self) -> EntryKey {
        (self.size, encode_utf8(self.path@))
    }

    /// `Less` when `self` comes first in the report, `Greater` when `other` does.
    pub fn cmp(&self, other: &SizedPath) -> (r: Ordering)
        ensures
            (r == Ordering::Less) == entry_before(self.key(), other.key()),
            (r == Ordering::Greater) == entry_before(other.key(), self.key()),
            (r == Ordering::Equal) == (self.key() == other.key()),
    {
        if self.size > other.size {
            Ordering::Less
        } else if self.size < other.size {
            Ordering::Greater
        } else {
            compare_bytes(self.path.as_str().as_bytes(), other.path.as_str().as_bytes())
        }
    }
}

} // verus!
