//! Running counters of a scan and the sorted collection of nontrivial entries.

use std::cmp::Ordering;
use vstd::prelude::*;
use vstd::utf8::encode_utf8;
use crate::report::{csv_line, csv_text, push_bytes, push_decimal};
use crate::order::{
    bytes_less, entry_before, lemma_entry_before_irreflexive,
    lemma_entry_before_transitive, EntryKey, SizedPath,
};

verus! {

/// Entries of at least this many bytes are nontrivial and go into the report.
pub const NONTRIVIAL_SIZE: u64 = 50_000_000;

/// A progress line is due each time the file count reaches a multiple of this.
pub const FILE_LOG_INTERVAL: u64 = 10_000;

/// The sum of a sequence of sizes.
pub open spec fn sum_sizes(s: Seq<u64>) -> int
    decreases s.len(),
{
    if s.len() == 0 {
        0
    } else {
        sum_sizes(s.drop_last()) + s.last()
    }
}

/// Each element comes strictly before every later one in the report order.
pub open spec fn strictly_sorted(s: Seq<EntryKey>) -> bool {
    forall|i: int, j: int| 0 <= i < j < s.len() ==> #[trigger] entry_before(s[i], s[j])
}

/// The keys of a sequence of sized paths.
pub open spec fn keys_of(s: Seq<SizedPath>) -> Seq<EntryKey> {
    s.map_values(|e: SizedPath| e.key())
}

/// The key under which a path of the given size is recorded.
pub open spec fn key_of(path: Seq<char>, size: u64) -> EntryKey {
    (size, encode_utf8(path))
}

/// Whether an entry of this size is nontrivial.
pub open spec fn is_nontrivial(size: u64) -> bool {
    size >= NONTRIVIAL_SIZE
}

/// Puts `x` into a strictly sorted vector at its place, unless an equal entry is there.
fn insert_sorted(v: &mut Vec<SizedPath>, x: SizedPath)
    requires
        strictly_sorted(keys_of(old(v)@)),
    ensures
        strictly_sorted(keys_of(final(v)@)),
        keys_of(final(v)@).to_set() == keys_of(old(v)@).to_set().insert(x.key()),
{
    let ghost k = x.key();
    let ghost ks = keys_of(v@);
    let mut i: usize = 0;
    while i < v.len()
        invariant
            i <= v@.len(),
            v@ == old(v)@,
            ks == keys_of(v@),
            k == x.key(),
            strictly_sorted(ks),
            forall|j: int| 0 <= j < i ==> #[trigger] entry_before(ks[j], k),
        ensures
            i <= v@.len(),
            v@ == old(v)@,
            forall|j: int| 0 <= j < i ==> #[trigger] entry_before(ks[j], k),
            i < v@.len() ==> entry_before(k, ks[i as int]),
        decreases v@.len() - i,
    {
        match v[i].cmp(&x) {
            Ordering::Less => {
                i = i + 1;
            },
            Ordering::Equal => {
                assert(ks[i as int] == k);
                assert(ks.to_set().insert(k) =~= ks.to_set());
                return;
            },
            Ordering::Greater => {
                break;
            },
        }
    }
    proof {
        assert forall|j: int| i <= j < ks.len() implies #[trigger] entry_before(k, ks[j]) by {
            assert(entry_before(k, ks[i as int]));
            if j > i {
                assert(entry_before(ks[i as int], ks[j]));
                lemma_entry_before_transitive(k, ks[i as int], ks[j]);
            }
        }
    }
    v.insert(i, x);
    proof {
        let nks = keys_of(v@);
        assert(nks =~= ks.insert(i as int, k));
        assert forall|a: int, b: int| 0 <= a < b < nks.len() implies #[trigger] entry_before(
            nks[a],
            nks[b],
        ) by {
            if b < i {
                assert(entry_before(ks[a], ks[b]));
            } else if b == i {
                assert(entry_before(ks[a], k));
            } else if a < i {
                assert(entry_before(ks[a], k));
                assert(entry_before(k, ks[b - 1]));
                lemma_entry_before_transitive(ks[a], k, ks[b - 1]);
            } else if a == i {
                assert(entry_before(k, ks[b - 1]));
            } else {
                assert(entry_before(ks[a - 1], ks[b - 1]));
            }
        }
        assert forall|e: EntryKey| nks.to_set().contains(e) <==> ks.to_set().insert(k).contains(e) by {
            if nks.contains(e) {
                let j = choose|j: int| 0 <= j < nks.len() && nks[j] == e;
                if j < i {
                    assert(ks[j] == e);
                } else if j > i {
                    assert(ks[j - 1] == e);
                }
            }
            if ks.contains(e) {
                let j = choose|j: int| 0 <= j < ks.len() && ks[j] == e;
                if j < i {
                    assert(nks[j] == e);
                } else {
                    assert(nks[j + 1] == e);
                }
            }
            if e == k {
                assert(nks[i as int] == e);
            }
        }
        assert(nks.to_set() =~= ks.to_set().insert(k));
    }
}

/// The collection holds an entry exactly when it was recorded with a size at or
/// above the threshold; nothing below the threshold is ever in it.
pub proof fn lemma_nontrivial_exactly(s: &Stats, e: EntryKey)
    requires
        s.wf(),
    ensures
        s.entries().contains(e) <==> (s.recorded().contains(e) && e.0 >= NONTRIVIAL_SIZE),
        forall|i: int| 0 <= i < s.entries().len() ==> #[trigger] s.entries()[i].0 >= NONTRIVIAL_SIZE,
{
    assert forall|i: int| 0 <= i < s.entries().len() implies #[trigger] s.entries()[i].0
        >= NONTRIVIAL_SIZE by {
        assert(s.entries().contains(s.entries()[i]));
    }
}

/// No (size, path) pair is in the collection twice.
pub proof fn lemma_no_duplicates(s: &Stats)
    requires
        s.wf(),
    ensures
        forall|i: int, j: int|
            0 <= i < s.entries().len() && 0 <= j < s.entries().len() && i != j ==> s.entries()[i]
                != s.entries()[j],
{
    assert forall|i: int, j: int|
        0 <= i < s.entries().len() && 0 <= j < s.entries().len() && i != j implies s.entries()[i]
        != s.entries()[j] by {
        if i < j {
            assert(entry_before(s.entries()[i], s.entries()[j]));
        } else {
            assert(entry_before(s.entries()[j], s.entries()[i]));
        }
        lemma_entry_before_irreflexive(s.entries()[i]);
    }
}

/// The report lists the entries by size descending and, for equal sizes, by path
/// bytes ascending, each line strictly before the next.
pub proof fn lemma_report_order(s: &Stats)
    requires
        s.wf(),
    ensures
        forall|i: int, j: int|
            0 <= i < j < s.entries().len() ==> {
                let a = #[trigger] s.entries()[i];
                let b = #[trigger] s.entries()[j];
                a.0 > b.0 || (a.0 == b.0 && bytes_less(a.1, b.1))
            },
{
    assert forall|i: int, j: int| 0 <= i < j < s.entries().len() implies {
        let a = #[trigger] s.entries()[i];
        let b = #[trigger] s.entries()[j];
        a.0 > b.0 || (a.0 == b.0 && bytes_less(a.1, b.1))
    } by {
        assert(entry_before(s.entries()[i], s.entries()[j]));
    }
}

/// The total size is the sum of the sizes of the files whose metadata was read,
/// nontrivial or not.
pub proof fn lemma_total_is_sum_of_read(s: &Stats)
    requires
        s.wf(),
    ensures
        s.spec_total_size() == sum_sizes(s.read_sizes()),
{
}

/// The aggregate state of one scan.
pub struct Stats {
    nontrivial: Vec<SizedPath>,
    num_files: u64,
    num_dirs: u64,
    num_errors: u64,
    total_size: u64,
    read_sizes: Ghost<Seq<u64>>,
    recorded: Ghost<Set<EntryKey>>,
}

impl Stats {
    /// The nontrivial entries, in report order.
    pub closed spec fn entries(&self) -> Seq<EntryKey> {
        keys_of(self.nontrivial@)
    }

    pub closed spec fn spec_num_files(&self) -> u64 {
        self.num_files
    }

    pub closed spec fn spec_num_dirs(&self) -> u64 {
        self.num_dirs
    }

    pub closed spec fn spec_num_errors(&self) -> u64 {
        self.num_errors
    }

    pub closed spec fn spec_total_size(&self) -> u64 {
        self.total_size
    }

    /// The sizes of the files whose metadata was read, in the order they were recorded.
    pub closed spec fn read_sizes(&self) -> Seq<u64> {
        self.read_sizes@
    }

    /// Every (size, path) that was recorded, files and directories, whatever its size.
    pub closed spec fn recorded(&self) -> Set<EntryKey> {
        self.recorded@
    }

    /// The collection is sorted without repeats and holds exactly the nontrivial
    /// recorded entries; the total is the sum of the sizes read.
    pub open spec fn wf(&self) -> bool {
        &&& strictly_sorted(self.entries())
        &&& forall|e: EntryKey| #[trigger]
            self.entries().contains(e) <==> (self.recorded().contains(e) && is_nontrivial(e.0))
        &&& self.spec_total_size() == sum_sizes(self.read_sizes())
    }

    /// `new` is `old` with one more (size, path) recorded, the collection updated to match.
    pub open spec fn records(old: &Stats, new: &Stats, key: EntryKey) -> bool {
        &&& new.recorded() == old.recorded().insert(key)
        &&& new.entries().to_set() == if is_nontrivial(key.0) {
            old.entries().to_set().insert(key)
        } else {
            old.entries().to_set()
        }
    }

    /// The counters do not overflow when a file with metadata `len` is recorded.
    pub open spec fn room_for_file(&self, len: Option<u64>) -> bool {
        &&& self.spec_num_files() < u64::MAX
        &&& len matches Some(n) ==> self.spec_total_size() + n <= u64::MAX
        &&& len is None ==> self.spec_num_errors() < u64::MAX
    }

    /// `new` is `old` after a directory was recorded with `size`.
    pub open spec fn logs_dir(old: &Stats, new: &Stats, dir: Seq<char>, size: u64) -> bool {
        &&& Stats::records(old, new, key_of(dir, size))
        &&& new.read_sizes() == old.read_sizes()
        &&& new.spec_num_files() == old.spec_num_files()
        &&& new.spec_num_dirs() == old.spec_num_dirs() + 1
        &&& new.spec_num_errors() == old.spec_num_errors()
        &&& new.spec_total_size() == old.spec_total_size()
    }

    /// `new` is `old` after a file with metadata `len` was recorded, `r` being the
    /// size it contributes.
    pub open spec fn logs_file(
        old: &Stats,
        new: &Stats,
        file: Seq<char>,
        len: Option<u64>,
        r: u64,
    ) -> bool {
        &&& new.spec_num_files() == old.spec_num_files() + 1
        &&& new.spec_num_dirs() == old.spec_num_dirs()
        &&& match len {
            Some(n) => {
                &&& r == n
                &&& Stats::records(old, new, key_of(file, n))
                &&& new.read_sizes() == old.read_sizes().push(n)
                &&& new.spec_total_size() == old.spec_total_size() + n
                &&& new.spec_num_errors() == old.spec_num_errors()
            },
            None => {
                &&& r == 0
                &&& new.entries() == old.entries()
                &&& new.recorded() == old.recorded()
                &&& new.read_sizes() == old.read_sizes()
                &&& new.spec_total_size() == old.spec_total_size()
                &&& new.spec_num_errors() == old.spec_num_errors() + 1
            },
        }
    }

    /// `new` is `old` with one more error counted and nothing else changed.
    pub open spec fn logs_error(old: &Stats, new: &Stats) -> bool {
        &&& new.spec_num_errors() == old.spec_num_errors() + 1
        &&& new.spec_num_files() == old.spec_num_files()
        &&& new.spec_num_dirs() == old.spec_num_dirs()
        &&& new.spec_total_size() == old.spec_total_size()
        &&& new.entries() == old.entries()
        &&& new.recorded() == old.recorded()
        &&& new.read_sizes() == old.read_sizes()
    }

    /// Nothing recorded yet: no entries and all counters zero.
    pub open spec fn is_fresh(&self) -> bool {
        &&& self.entries() == Seq::<EntryKey>::empty()
        &&& self.recorded() == Set::<EntryKey>::empty()
        &&& self.read_sizes() == Seq::<u64>::empty()
        &&& self.spec_num_files() == 0
        &&& self.spec_num_dirs() == 0
        &&& self.spec_num_errors() == 0
        &&& self.spec_total_size() == 0
    }

    /// An empty aggregate.
    pub fn new() -> (r: Self)
        ensures
            r.wf(),
            r.is_fresh(),
    {
        let r = Stats {
            nontrivial: Vec::new(),
            num_files: 0,
            num_dirs: 0,
            num_errors: 0,
            total_size: 0,
            read_sizes: Ghost(Seq::empty()),
            recorded: Ghost(Set::empty()),
        };
        assert(keys_of(r.nontrivial@) =~= Seq::<EntryKey>::empty());
        r
    }
    /// Records `path` with `size`: a nontrivial one joins the collection, once.
    pub fn log_path(&mut self, path: &str, size: u64)
        requires
            old(self).wf(),
        ensures
            final(self).wf(),
            Stats::records(old(self), final(self), key_of(path@, size)),
            final(self).read_sizes() == old(self).read_sizes(),
            final(self).spec_num_files() == old(self).spec_num_files(),
            final(self).spec_num_dirs() == old(self).spec_num_dirs(),
            final(self).spec_num_errors() == old(self).spec_num_errors(),
            final(self).spec_total_size() == old(self).spec_total_size(),
    {
        let ghost k = key_of(path@, size);
        let ghost before = self.entries();
        if size >= NONTRIVIAL_SIZE {
            let entry = SizedPath { size, path: path.to_owned() };
            assert(entry.key() == k);
            insert_sorted(&mut self.nontrivial, entry);
        }
        self.recorded = Ghost(self.recorded@.insert(k));
        proof {
            let after = self.entries();
            assert forall|e: EntryKey| #[trigger]
                after.contains(e) <==> (self.recorded().contains(e) && is_nontrivial(e.0)) by {
                assert(after.contains(e) <==> after.to_set().contains(e));
                assert(before.contains(e) <==> before.to_set().contains(e));
            }
        }
    }
    /// Records a directory whose subtree came to `size` bytes.
    pub fn log_dir(&mut self, dir: &str, size: u64)
        requires
            old(self).wf(),
            old(self).spec_num_dirs() < u64::MAX,
        ensures
            final(self).wf(),
            Stats::logs_dir(old(self), final(self), dir@, size),
    {
        self.num_dirs = self.num_dirs + 1;
        self.log_path(dir, size)
    }

    /// Records a file whose metadata gave `len` bytes, or could not be read (`None`),
    /// and returns what the file adds to its directory: its length, or 0.
    pub fn log_file(&mut self, file: &str, len: Option<u64>) -> (r: u64)
        requires
            old(self).wf(),
            old(self).room_for_file(len),
        ensures
            final(self).wf(),
            Stats::logs_file(old(self), final(self), file@, len, r),
    {
        self.num_files = self.num_files + 1;
        match len {
            Some(n) => {
                self.total_size = self.total_size + n;
                self.read_sizes = Ghost(self.read_sizes@.push(n));
                assert(self.read_sizes@.drop_last() =~= old(self).read_sizes@);
                self.log_path(file, n);
                n
            },
            None => {
                self.num_errors = self.num_errors + 1;
                0
            },
        }
    }

    /// Counts an entry that could not be read or a directory that could not be listed.
    pub fn log_error(&mut self)
        requires
            old(self).wf(),
            old(self).spec_num_errors() < u64::MAX,
        ensures
            final(self).wf(),
            Stats::logs_error(old(self), final(self)),
    {
        self.num_errors = self.num_errors + 1;
    }

    /// Whether a progress line is due: the file count is a multiple of the interval.
    pub fn progress_due(&self) -> (r: bool)
        ensures
            r == (self.spec_num_files() % FILE_LOG_INTERVAL == 0),
    {
        self.num_files % FILE_LOG_INTERVAL == 0
    }

    pub fn num_files(&self) -> (r: u64)
        ensures
            r == self.spec_num_files(),
    {
        self.num_files
    }

    pub fn num_dirs(&self) -> (r: u64)
        ensures
            r == self.spec_num_dirs(),
    {
        self.num_dirs
    }

    pub fn num_errors(&self) -> (r: u64)
        ensures
            r == self.spec_num_errors(),
    {
        self.num_errors
    }

    pub fn total_size(&self) -> (r: u64)
        ensures
            r == self.spec_total_size(),
    {
        self.total_size
    }

    /// How many nontrivial entries there are.
    pub fn nontrivial_count(&self) -> (r: usize)
        ensures
            r == self.entries().len(),
    {
        self.nontrivial.len()
    }
    /// The report: one line per nontrivial entry, in the collection's order.
    pub fn csv(&self) -> (r: Vec<u8>)
        ensures
            r@ == csv_text(self.entries()),
    {
        let mut out: Vec<u8> = Vec::new();
        let ghost ks = self.entries();
        let mut i: usize = 0;
        assert(ks.take(0) =~= Seq::<EntryKey>::empty());
        while i < self.nontrivial.len()
            invariant
                i <= ks.len(),
                ks == keys_of(self.nontrivial@),
                out@ == csv_text(ks.take(i as int)),
            decreases ks.len() - i,
        {
            let e = &self.nontrivial[i];
            push_decimal(&mut out, e.size);
            out.push(44u8);
            push_bytes(&mut out, e.path.as_str().as_bytes());
            out.push(10u8);
            proof {
                let t = ks.take(i as int + 1);
                assert(t.drop_last() =~= ks.take(i as int));
                assert(t.last() == ks[i as int]);
                assert(out@ =~= csv_text(ks.take(i as int)) + csv_line(ks[i as int]));
            }
            i = i + 1;
        }
        assert(ks.take(ks.len() as int) =~= ks);
        out
    }
}

} // verus!
