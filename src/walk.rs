//! The decisions of a depth-first scan, one event at a time.
//!
//! The caller lists directories and reads metadata; it reports each outcome
//! here. A directory's size is the sum of what its children contribute,
//! known when it is left, and added then to the directory that holds it.

use vstd::prelude::*;
use crate::stats::{sum_sizes, Stats};

verus! {

proof fn lemma_sum_push(s: Seq<u64>, x: u64)
    ensures
        sum_sizes(s.push(x)) == sum_sizes(s) + x,
{
    assert(s.push(x).drop_last() =~= s);
}

proof fn lemma_sum_nonneg(s: Seq<u64>)
    ensures
        sum_sizes(s) >= 0,
    decreases s.len(),
{
    if s.len() > 0 {
        lemma_sum_nonneg(s.drop_last());
    }
}

/// The state of a scan: the aggregate, and the directories entered and not yet left,
/// outermost first, each with the size gathered so far.
pub struct Walk {
    stats: Stats,
    dirs: Vec<String>,
    sizes: Vec<u64>,
    parts: Ghost<Seq<Seq<u64>>>,
}

impl Walk {
    pub closed spec fn spec_stats(&self) -> Stats {
        self.stats
    }

    /// The paths of the open directories, outermost first.
    pub closed spec fn open_dirs(&self) -> Seq<Seq<char>> {
        self.dirs@.map_values(|d: String| d@)
    }

    /// The size gathered so far by each open directory.
    pub closed spec fn open_sizes(&self) -> Seq<u64> {
        self.sizes@
    }

    /// For each open directory, what each child handled so far contributed, in order.
    pub closed spec fn parts(&self) -> Seq<Seq<u64>> {
        self.parts@
    }

    pub open spec fn spec_depth(&self) -> nat {
        self.open_sizes().len()
    }

    /// Each open directory's size is the sum of its children's contributions, and
    /// all of them together never exceed the total of the file sizes read.
    pub open spec fn wf(&self) -> bool {
        &&& self.spec_stats().wf()
        &&& self.open_dirs().len() == self.spec_depth()
        &&& self.parts().len() == self.spec_depth()
        &&& forall|k: int|
            0 <= k < self.spec_depth() ==> #[trigger] self.open_sizes()[k] == sum_sizes(
                self.parts()[k],
            )
        &&& sum_sizes(self.open_sizes()) <= self.spec_stats().spec_total_size()
    }

    /// `new` is `old` after its innermost directory gained a child contributing `c`.
    pub open spec fn adds_child(old: &Walk, new: &Walk, c: u64) -> bool {
        let top = old.spec_depth() - 1;
        &&& new.spec_depth() == old.spec_depth()
        &&& new.open_dirs() == old.open_dirs()
        &&& new.parts() == old.parts().update(top, old.parts()[top].push(c))
        &&& new.open_sizes() == old.open_sizes().update(top, (old.open_sizes()[top] + c) as u64)
    }

    /// A scan with nothing recorded and no directory open.
    pub fn new() -> (r: Self)
        ensures
            r.wf(),
            r.spec_depth() == 0,
            r.spec_stats().is_fresh(),
    {
        let stats = Stats::new();
        let r = Walk { stats, dirs: Vec::new(), sizes: Vec::new(), parts: Ghost(Seq::empty()) };
        assert(r.open_dirs() =~= Seq::<Seq<char>>::empty());
        r
    }
    /// The listing of `path` succeeded: it becomes the innermost open directory.
    pub fn enter_dir(&mut self, path: &str)
        requires
            old(self).wf(),
        ensures
            final(self).wf(),
            final(self).spec_stats() == old(self).spec_stats(),
            final(self).open_dirs() == old(self).open_dirs().push(path@),
            final(self).open_sizes() == old(self).open_sizes().push(0),
            final(self).parts() == old(self).parts().push(Seq::empty()),
    {
        self.dirs.push(path.to_owned());
        self.sizes.push(0);
        self.parts = Ghost(self.parts@.push(Seq::empty()));
        proof {
            lemma_sum_push(old(self).sizes@, 0);
            assert(self.open_dirs() =~= old(self).open_dirs().push(path@));
            assert(sum_sizes(Seq::<u64>::empty()) == 0);
        }
    }

    /// A file of the innermost open directory, whose metadata gave `len` bytes or
    /// could not be read; returns what it contributes to the directory.
    pub fn file(&mut self, path: &str, len: Option<u64>) -> (r: u64)
        requires
            old(self).wf(),
            old(self).spec_depth() > 0,
            old(self).spec_stats().room_for_file(len),
        ensures
            final(self).wf(),
            Stats::logs_file(&old(self).spec_stats(), &final(self).spec_stats(), path@, len, r),
            Walk::adds_child(old(self), final(self), r),
    {
        let r = self.stats.log_file(path, len);
        self.add_to_innermost(r);
        r
    }

    /// An entry of the innermost open directory could not be read, or a
    /// subdirectory of it could not be listed: it counts as an error and adds 0.
    pub fn unreadable(&mut self)
        requires
            old(self).wf(),
            old(self).spec_depth() > 0,
            old(self).spec_stats().spec_num_errors() < u64::MAX,
        ensures
            final(self).wf(),
            Stats::logs_error(&old(self).spec_stats(), &final(self).spec_stats()),
            Walk::adds_child(old(self), final(self), 0),
    {
        self.stats.log_error();
        self.add_to_innermost(0);
    }

    fn add_to_innermost(&mut self, c: u64)
        requires
            old(self).spec_stats().wf(),
            old(self).spec_depth() > 0,
            old(self).open_dirs().len() == old(self).spec_depth(),
            old(self).parts().len() == old(self).spec_depth(),
            forall|k: int|
                0 <= k < old(self).spec_depth() ==> #[trigger] old(self).open_sizes()[k]
                    == sum_sizes(old(self).parts()[k]),
            sum_sizes(old(self).open_sizes()) + c <= old(self).spec_stats().spec_total_size(),
        ensures
            final(self).wf(),
            final(self).spec_stats() == old(self).spec_stats(),
            Walk::adds_child(old(self), final(self), c),
    {
        let ghost s0 = self.sizes@;
        let ghost top = s0.len() - 1;
        let last = self.sizes.pop().unwrap();
        let ghost rest = self.sizes@;
        proof {
            lemma_sum_push(rest, last);
            assert(rest.push(last) =~= s0);
            lemma_sum_nonneg(rest);
        }
        self.sizes.push(last + c);
        self.parts = Ghost(self.parts@.update(top, self.parts@[top].push(c)));
        proof {
            lemma_sum_push(rest, (last + c) as u64);
            lemma_sum_push(old(self).parts@[top], c);
            assert(self.sizes@ =~= s0.update(top, (s0[top] + c) as u64));
            assert forall|k: int| 0 <= k < self.spec_depth() implies #[trigger] self.open_sizes()[k]
                == sum_sizes(self.parts()[k]) by {
                if k < top {
                    assert(self.open_sizes()[k] == old(self).open_sizes()[k]);
                    assert(self.parts()[k] == old(self).parts()[k]);
                }
            }
        }
    }

    /// The innermost open directory is done: it is recorded with the sum of its
    /// children's contributions, which is returned and, if a directory holds it,
    /// added to that directory.
    pub fn leave_dir(&mut self) -> (r: u64)
        requires
            old(self).wf(),
            old(self).spec_depth() > 0,
            old(self).spec_stats().spec_num_dirs() < u64::MAX,
        ensures
            final(self).wf(),
            r == old(self).open_sizes().last(),
            r == sum_sizes(old(self).parts().last()),
            Stats::logs_dir(
                &old(self).spec_stats(),
                &final(self).spec_stats(),
                old(self).open_dirs().last(),
                r,
            ),
            final(self).spec_depth() == old(self).spec_depth() - 1,
            final(self).open_dirs() == old(self).open_dirs().drop_last(),
            final(self).spec_depth() > 0 ==> {
                let top = final(self).spec_depth() - 1;
                &&& final(self).parts() == old(self).parts().drop_last().update(
                    top,
                    old(self).parts()[top].push(r),
                )
                &&& final(self).open_sizes() == old(self).open_sizes().drop_last().update(
                    top,
                    (old(self).open_sizes()[top] + r) as u64,
                )
            },
    {
        let ghost s0 = self.sizes@;
        let size = self.sizes.pop().unwrap();
        let dir = self.dirs.pop().unwrap();
        self.parts = Ghost(self.parts@.drop_last());
        proof {
            lemma_sum_push(self.sizes@, size);
            assert(self.sizes@.push(size) =~= s0);
            assert(old(self).dirs@.last() == dir);
        }
        self.stats.log_dir(dir.as_str(), size);
        proof {
            assert(self.open_dirs() =~= old(self).open_dirs().drop_last());
        }
        if self.sizes.len() > 0 {
            self.add_to_innermost(size);
        }
        size
    }

    pub fn depth(&self) -> (r: usize)
        ensures
            r == self.spec_depth(),
    {
        self.sizes.len()
    }

    /// The aggregate, for a look at the counters while the scan goes on.
    pub fn stats(&self) -> (r: &Stats)
        ensures
            *r == self.spec_stats(),
    {
        &self.stats
    }

    /// Ends the scan and hands over the aggregate.
    pub fn into_stats(self) -> (r: Stats)
        ensures
            r == self.spec_stats(),
    {
        self.stats
    }
}

/// The size of every open directory is the sum of what its children handled so
/// far contributed, an unreadable child contributing 0.
pub proof fn lemma_dir_size_is_sum_of_children(w: &Walk)
    requires
        w.wf(),
    ensures
        forall|k: int|
            0 <= k < w.spec_depth() ==> #[trigger] w.open_sizes()[k] == sum_sizes(w.parts()[k]),
{
}

} // verus!
