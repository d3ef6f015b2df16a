//! The search space and the book-keeping of the Bayesian parameter search.

use vstd::prelude::*;

use crate::ieee::{Real64, NEG_INFINITY_64};

verus! {

/// How many rows the search is meant to work on.
pub const TARGET_ROWS: usize = 2000;

pub open spec fn min_of(a: int, b: int) -> int {
    if a <= b {
        a
    } else {
        b
    }
}

pub open spec fn max_of(a: int, b: int) -> int {
    if a >= b {
        a
    } else {
        b
    }
}

/// The largest number of components worth trying: below the number of rows and of
/// columns.
pub open spec fn safe_max_pca_dim(n_rows: int, n_cols: int) -> int {
    min_of(n_rows - 1, n_cols - 1)
}

/// How many rows the search works on: the target, or more where that many components
/// need it, but never more than there are.
pub open spec fn working_rows(n_rows: int, n_cols: int) -> int {
    min_of(max_of(TARGET_ROWS as int, safe_max_pca_dim(n_rows, n_cols) + 1), n_rows)
}

/// `m` is half the square root of `n`, both rounded down, brought between 5 and 50.
pub open spec fn is_max_min_samples(n: int, m: int) -> bool {
    &&& 5 <= m <= 50
    &&& m > 5 ==> (2 * m) * (2 * m) <= n
    &&& m < 50 ==> n < (2 * m + 2) * (2 * m + 2)
}

/// The inclusive bounds of the three parameters.
#[derive(Clone, Copy, PartialEq, Eq, Debug)]
pub struct SearchSpace {
    pub pca_dim: (i32, i32),
    pub min_samples: (i32, i32),
    pub min_cluster_size: (i32, i32),
}

pub fn safe_pca_dim(n_rows: usize, n_cols: usize) -> (dim: usize)
    requires
        n_rows > 0,
        n_cols > 0,
    ensures
        dim == safe_max_pca_dim(n_rows as int, n_cols as int),
        dim < n_rows,
        dim < n_cols,
        dim + 1 == n_rows || dim + 1 == n_cols,
{
    if n_rows <= n_cols {
        n_rows - 1
    } else {
        n_cols - 1
    }
}

pub fn rows_to_work_on(n_rows: usize, n_cols: usize) -> (n: usize)
    requires
        n_rows > 0,
        n_cols > 0,
    ensures
        n == working_rows(n_rows as int, n_cols as int),
        0 < n <= n_rows,
        n_rows <= 2000 ==> n == n_rows,
        n_rows > 2000 && n_cols <= 2000 ==> n == 2000,
        n_rows > 2000 && n_cols > 2000 && n_cols <= n_rows ==> n == n_cols,
        n_cols >= n_rows ==> n == n_rows,
{
    let needed: usize = safe_pca_dim(n_rows, n_cols) + 1;
    let wanted: usize = if TARGET_ROWS >= needed {
        TARGET_ROWS
    } else {
        needed
    };
    if wanted <= n_rows {
        wanted
    } else {
        n_rows
    }
}

/// Whether the square root of `n`, rounded down, is at least `2 * m + 2`.
fn root_reaches(n: usize, m: usize) -> (b: bool)
    requires
        m < 50,
    ensures
        b == ((2 * m + 2) * (2 * m + 2) <= n),
{
    let side: usize = 2 * m + 2;
    assert(0 <= side * side <= 10000) by (nonlinear_arith)
        requires
            side <= 100,
    ;
    side * side <= n
}

/// The upper bound of the minimum samples and of the minimum cluster size, for a search
/// on `n` rows.
pub fn max_min_samples(n: usize) -> (m: usize)
    ensures
        is_max_min_samples(n as int, m as int),
        5 <= m <= 50,
        m > 5 ==> (2 * m) * (2 * m) <= n,
        m < 50 ==> n < (2 * m + 2) * (2 * m + 2),
{
    let mut m: usize = 5;
    while m < 50 && root_reaches(n, m)
        invariant
            5 <= m <= 50,
            m > 5 ==> (2 * m) * (2 * m) <= n,
        decreases 50 - m,
    {
        m = m + 1;
    }
    m
}

/// Every number of rows has one upper bound.
pub proof fn lemma_max_min_samples_is_the_one(n: int, a: int, b: int)
    requires
        is_max_min_samples(n, a),
        is_max_min_samples(n, b),
    ensures
        a == b,
{
    if a < b {
        assert((2 * a + 2) * (2 * a + 2) <= (2 * b) * (2 * b)) by (nonlinear_arith)
            requires
                5 <= a < b,
        ;
    }
    if b < a {
        assert((2 * b + 2) * (2 * b + 2) <= (2 * a) * (2 * a)) by (nonlinear_arith)
            requires
                5 <= b < a,
        ;
    }
}

/// The space that is searched, for `n_rows` by `n_cols` samples of which `sub_rows` rows
/// are worked on.
pub fn search_space(n_rows: usize, n_cols: usize, sub_rows: usize) -> (s: SearchSpace)
    requires
        n_rows > 0,
        n_cols > 0,
    ensures
        s.pca_dim == (50i32, safe_max_pca_dim(n_rows as int, n_cols as int) as i32),
        s.min_samples.0 == 2,
        is_max_min_samples(sub_rows as int, s.min_samples.1 as int),
        s.min_cluster_size == s.min_samples,
        n_rows <= n_cols && n_rows <= i32::MAX ==> s.pca_dim == (50i32, (n_rows - 1) as i32),
        n_cols <= n_rows && n_cols <= i32::MAX ==> s.pca_dim == (50i32, (n_cols - 1) as i32),
        5 <= s.min_samples.1 <= 50,
        s.min_samples.1 > 5 ==> (2 * s.min_samples.1) * (2 * s.min_samples.1) <= sub_rows,
        s.min_samples.1 < 50 ==> sub_rows < (2 * s.min_samples.1 + 2) * (2 * s.min_samples.1 + 2),
{
    let most: i32 = max_min_samples(sub_rows) as i32;
    SearchSpace {
        pca_dim: (50, #[verifier::truncate] (safe_pca_dim(n_rows, n_cols) as i32)),
        min_samples: (2, most),
        min_cluster_size: (2, most),
    }
}

/// Whether a reduction of `n_rows` samples to `pca_dim` components is worth trying.
pub fn is_valid_dim(n_rows: usize, pca_dim: usize) -> (b: bool)
    ensures
        b == (2 <= pca_dim < n_rows),
{
    !(n_rows <= pca_dim || pca_dim < 2)
}

/// The best score so far.
pub struct BestScore {
    pub best: Real64,
}

impl BestScore {
    pub fn new() -> (b: BestScore)
        ensures
            b.best.bits == NEG_INFINITY_64,
    {
        BestScore { best: Real64::from_bits(NEG_INFINITY_64) }
    }

    /// Takes note of a score, and says whether it is a new best.
    pub fn offer(&mut self, score: Real64) -> (improved: bool)
        ensures
            improved == old(self).best.below(score),
            final(self).best == (if improved {
                score
            } else {
                old(self).best
            }),
    {
        if self.best.is_below(score) {
            self.best = score;
            true
        } else {
            false
        }
    }
}

/// What the minimiser is given for a score: the lower, the better.
pub fn objective(score: Real64) -> (r: Real64)
    ensures
        r == score.negated(),
{
    score.negate()
}

/// The best after a run of scores.
pub open spec fn best_of(scores: Seq<Real64>) -> Real64
    decreases scores.len(),
{
    if scores.len() == 0 {
        Real64 { bits: NEG_INFINITY_64 }
    } else {
        let earlier = best_of(scores.drop_last());
        if earlier.below(scores.last()) {
            scores.last()
        } else {
            earlier
        }
    }
}

/// No score of the run is above the best that was kept, and the best is one of the
/// scores or negative infinity.
pub proof fn lemma_best_is_an_upper_bound(scores: Seq<Real64>)
    ensures
        !best_of(scores).nan(),
        forall|i: int| 0 <= i < scores.len() ==> !best_of(scores).below(#[trigger] scores[i]),
        best_of(scores).bits == NEG_INFINITY_64 || scores.contains(best_of(scores)),
    decreases scores.len(),
{
    if scores.len() > 0 {
        let shorter = scores.drop_last();
        lemma_best_is_an_upper_bound(shorter);
        assert forall|i: int| 0 <= i < scores.len() implies !best_of(scores).below(
            #[trigger] scores[i],
        ) by {
            if i < scores.len() - 1 {
                assert(shorter[i] == scores[i]);
            }
        }
        if best_of(shorter).below(scores.last()) {
            assert(scores[scores.len() - 1] == scores.last());
        } else if best_of(shorter).bits != NEG_INFINITY_64 {
            let p = choose|p: int| 0 <= p < shorter.len() && shorter[p] == best_of(shorter);
            assert(scores[p] == best_of(scores));
        }
    }
}

/// More rows never lower the upper bound, and four times the square of a bound that is no
/// limit of its own stays within the rows.
pub proof fn lemma_upper_bound_grows(few: usize, many: usize, a: usize, b: usize)
    requires
        few <= many,
        call_ensures(max_min_samples, (few,), a),
        call_ensures(max_min_samples, (many,), b),
    ensures
        a <= b,
        few < 144 ==> a == 5,
        many >= 10000 ==> b == 50,
{
    if b < a {
        assert((2 * b + 2) * (2 * b + 2) <= (2 * a) * (2 * a)) by (nonlinear_arith)
            requires
                5 <= b < a,
        ;
    }
    if few < 144 && a > 5 {
        assert(144 <= (2 * a) * (2 * a)) by (nonlinear_arith)
            requires
                a >= 6,
        ;
    }
    if many >= 10000 && b < 50 {
        assert((2 * b + 2) * (2 * b + 2) <= 10000) by (nonlinear_arith)
            requires
                5 <= b < 50,
        ;
    }
}

/// The best of a run of scores is the best of its two halves.
pub proof fn lemma_best_of_two_runs(a: Seq<Real64>, b: Seq<Real64>)
    ensures
        best_of(Seq::<Real64>::empty()).bits == 0xfff0_0000_0000_0000,
        best_of(a + b) == (if best_of(a).below(best_of(b)) {
            best_of(b)
        } else {
            best_of(a)
        }),
    decreases b.len(),
{
    lemma_best_is_an_upper_bound(a);
    lemma_best_is_an_upper_bound(b);
    if b.len() == 0 {
        assert(a + b =~= a);
    } else {
        lemma_best_of_two_runs(a, b.drop_last());
        lemma_best_is_an_upper_bound(b.drop_last());
        assert((a + b).drop_last() =~= a + b.drop_last());
        assert((a + b).last() == b.last());
    }
}

} // verus!
