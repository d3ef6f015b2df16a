//! A binary search for the largest number of components that a reduction copes with.
//!
//! The caller tries a reduction to the number of components that the search asks for
//! and reports whether it worked.

use vstd::prelude::*;

verus! {

/// The numbers of components up to which nine tenths, taken in double precision and
/// rounded down, are nine tenths rounded down.
pub const EXACT_DIMS: u64 = 0x2_0000_0000_0000;

/// A search in the numbers from `lo` to `hi`, both included.
#[derive(Clone, Copy, PartialEq, Eq, Structural, Debug)]
pub struct DimSearch {
    pub lo: usize,
    pub hi: usize,
    /// The last number that worked; 2 before any did.
    pub last_good: usize,
}

/// The search over the reductions of `n_cols` columns.
pub open spec fn whole_range(n_cols: usize) -> DimSearch {
    DimSearch {
        lo: 2,
        hi: if n_cols == 0 {
            0
        } else {
            (n_cols - 1) as usize
        },
        last_good: 2,
    }
}

impl DimSearch {
    pub open spec fn wf(self) -> bool {
        &&& 2 <= self.lo <= usize::MAX / 2
        &&& self.hi < usize::MAX / 2
        &&& 2 <= self.last_good
    }

    pub open spec fn done(self) -> bool {
        self.lo > self.hi
    }

    /// The number in the middle.
    pub open spec fn mid(self) -> usize {
        ((self.lo + self.hi) / 2) as usize
    }

    /// The search after the middle was tried.
    pub open spec fn after(self, worked: bool) -> DimSearch {
        if worked {
            DimSearch { lo: (self.mid() + 1) as usize, hi: self.hi, last_good: self.mid() }
        } else {
            DimSearch { lo: self.lo, hi: (self.mid() - 1) as usize, last_good: self.last_good }
        }
    }

    pub fn new(n_cols: usize) -> (s: DimSearch)
        requires
            n_cols <= usize::MAX / 2,
        ensures
            s == whole_range(n_cols),
            s.wf(),
            s.lo == 2,
            s.last_good == 2,
            n_cols > 0 ==> s.hi == n_cols - 1,
            n_cols == 0 ==> s.hi == 0,
    {
        DimSearch { lo: 2, hi: n_cols.saturating_sub(1), last_good: 2 }
    }

    /// The number to try next, as long as there is one.
    pub fn next(&self) -> (dim: Option<usize>)
        requires
            self.wf(),
        ensures
            dim == (if self.done() {
                None
            } else {
                Some(self.mid())
            }),
            dim is None <==> self.lo > self.hi,
            dim matches Some(d) ==> d == (self.lo + self.hi) / 2,
    {
        if self.lo <= self.hi {
            Some((self.lo + self.hi) / 2)
        } else {
            None
        }
    }

    /// Takes note of whether the number that [`DimSearch::next`] gave worked.
    pub fn report(&mut self, worked: bool)
        requires
            old(self).wf(),
            !old(self).done(),
        ensures
            *final(self) == old(self).after(worked),
            final(self).wf(),
            worked ==> final(self).last_good == (old(self).lo + old(self).hi) / 2 && final(self).lo
                == (old(self).lo + old(self).hi) / 2 + 1 && final(self).hi == old(self).hi,
            !worked ==> final(self).last_good == old(self).last_good && final(self).lo == old(
                self,
            ).lo && final(self).hi == (old(self).lo + old(self).hi) / 2 - 1,
    {
        let mid: usize = (self.lo + self.hi) / 2;
        if worked {
            self.last_good = mid;
            self.lo = mid + 1;
        } else {
            self.hi = mid - 1;
        }
    }

    /// What the search came to, with a margin: nine tenths of the last number that
    /// worked.
    pub fn find_safe_pca_dim(&self) -> (dim: usize)
        requires
            self.last_good <= EXACT_DIMS,
        ensures
            dim == self.last_good as int * 9 / 10,
    {
        (self.last_good as u64 * 9 / 10) as usize
    }
}

/// The last number that worked when the search is run to its end, where `works` says
/// which numbers do.
pub open spec fn run_to_end(s: DimSearch, works: spec_fn(usize) -> bool) -> usize
    decreases s.hi - s.lo + 1,
    when s.wf()
{
    if s.done() {
        s.last_good
    } else {
        run_to_end(s.after(works(s.mid())), works)
    }
}

/// Where every number below one that works also works, the search finds the largest
/// that works: whatever `top` between 2 and the last number of columns but one works
/// while `top + 1` does not, `top` is found. Where not even 2 works, 2 is what remains.
pub proof fn lemma_search_finds_the_largest(n_cols: usize, works: spec_fn(usize) -> bool, top: usize)
    requires
        2 < n_cols <= usize::MAX / 2,
        1 <= top < n_cols,
        forall|d: usize| 2 <= d < n_cols ==> (#[trigger] works(d) <==> d <= top),
    ensures
        run_to_end(whole_range(n_cols), works) == (if top < 2 {
            2
        } else {
            top
        }),
{
    lemma_run_to_end(whole_range(n_cols), works, top, n_cols);
}

proof fn lemma_run_to_end(s: DimSearch, works: spec_fn(usize) -> bool, top: usize, n_cols: usize)
    requires
        s.wf(),
        s.hi < n_cols,
        s.lo <= top + 1 || s.lo == 2,
        s.hi >= top,
        s.last_good == (if s.lo == 2 {
            2int
        } else {
            s.lo - 1
        }),
        1 <= top < n_cols,
        forall|d: usize| 2 <= d < n_cols ==> (#[trigger] works(d) <==> d <= top),
    ensures
        run_to_end(s, works) == (if top < 2 {
            2
        } else {
            top
        }),
    decreases s.hi - s.lo + 1,
{
    if !s.done() {
        let mid = s.mid();
        assert(works(mid) <==> mid <= top);
        lemma_run_to_end(s.after(works(mid)), works, top, n_cols);
    }
}

} // verus!
