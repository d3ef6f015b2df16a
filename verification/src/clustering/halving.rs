//! Parameter searches by successive halving.
//!
//! A search holds the surviving candidates. Each round they are scored on a larger
//! share of the data, and the best of them survive. Scoring is the caller's work: it
//! asks for the candidates, scores them, and hands the scores back.

use vstd::prelude::*;

use crate::clustering::ranking::{
    best, comparable, keep_best, lemma_best_are_distinct_candidates, lemma_ranking_is_the_one,
    ranking, ranks_above,
};
use crate::ieee::{Real32, HALF_32, NEG_INFINITY_32};

verus! {

/// How many rounds a search has.
pub const ROUNDS: usize = 3;

/// The row counts up to which scaling by a quarter, a half or one is exact in double
/// precision.
pub const EXACT_ROWS: u64 = 0x20_0000_0000_0000;

/// The score that a rejected candidate gets.
pub open spec fn rejected() -> Real32 {
    Real32 { bits: NEG_INFINITY_32 }
}

/// Whether a clustering is worth scoring: at least two clusters, and not more than half
/// of the samples left as noise.
pub open spec fn scorable(n_clusters: int, noise_ratio: Real32) -> bool {
    n_clusters >= 2 && !(Real32 { bits: HALF_32 }).below(noise_ratio)
}

/// Whether a clustering is worth scoring.
pub fn is_scorable(n_clusters: usize, noise_ratio: Real32) -> (b: bool)
    ensures
        b == scorable(n_clusters as int, noise_ratio),
        b == (n_clusters >= 2 && !(0x3f00_0000 < noise_ratio.bits <= 0x7f80_0000)),
{
    n_clusters >= 2 && !Real32::from_bits(HALF_32).is_below(noise_ratio)
}

/// The score of a clustering. `score` is what its quality was measured as, `None` where
/// that failed.
pub fn score_hdbscan(n_clusters: usize, noise_ratio: Real32, score: Option<Real32>) -> (r: Real32)
    ensures
        r == (if scorable(n_clusters as int, noise_ratio) && score is Some {
            score->0
        } else {
            rejected()
        }),
        n_clusters >= 2 && !(0x3f00_0000 < noise_ratio.bits <= 0x7f80_0000) && score is Some ==> r
            == score->0,
        n_clusters < 2 || 0x3f00_0000 < noise_ratio.bits <= 0x7f80_0000 || score is None ==> r.bits
            == 0xff80_0000,
{
    if is_scorable(n_clusters, noise_ratio) {
        match score {
            Some(s) => s,
            None => Real32::neg_infinity(),
        }
    } else {
        Real32::neg_infinity()
    }
}

/// Whether a reduction of `n_rows` samples to `dim` components is possible.
pub fn pca_is_possible(n_rows: usize, dim: usize) -> (b: bool)
    ensures
        b == (n_rows > dim),
{
    n_rows > dim
}

/// The score of a number of components. `score` is what the clustering of the reduced
/// samples was measured as, `None` where that failed.
pub fn score_pca_dim(n_rows: usize, dim: usize, score: Option<Real32>) -> (r: Real32)
    ensures
        r == (if n_rows > dim && score is Some {
            score->0
        } else {
            rejected()
        }),
        n_rows > dim && score is Some ==> r == score->0,
        n_rows <= dim || score is None ==> r.bits == 0xff80_0000,
{
    if pca_is_possible(n_rows, dim) {
        match score {
            Some(s) => s,
            None => Real32::neg_infinity(),
        }
    } else {
        Real32::neg_infinity()
    }
}

/// The values that each of the two parameters is tried with.
pub open spec fn grid_option(i: int) -> usize {
    if i == 0 {
        3
    } else if i == 1 {
        5
    } else if i == 2 {
        10
    } else if i == 3 {
        20
    } else {
        50
    }
}

/// Every pair of minimum samples and minimum cluster size, the second running faster.
pub open spec fn hdbscan_grid() -> Seq<(usize, usize)> {
    Seq::new(25, |i: int| (grid_option(i / 5), grid_option(i % 5)))
}

/// How many pairs survive a round.
pub open spec fn hdbscan_keep(round: int) -> int {
    if round == 0 {
        25
    } else if round == 1 {
        12
    } else {
        6
    }
}

/// A search for the minimum samples and the minimum cluster size.
pub struct HdbscanSearch {
    /// The surviving pairs, after the first round best first.
    pub candidates: Vec<(usize, usize)>,
    /// How many rounds are over.
    pub round: usize,
}

impl HdbscanSearch {
    pub open spec fn wf(self) -> bool {
        &&& self.round <= ROUNDS
        &&& self.candidates@.len() == (if self.round == 0 {
            25
        } else {
            hdbscan_keep(self.round - 1)
        })
        &&& self.candidates@.no_duplicates()
        &&& forall|a: int|
            0 <= a < self.candidates@.len() ==> hdbscan_grid().contains(
                #[trigger] self.candidates@[a],
            )
    }

    pub fn new() -> (s: HdbscanSearch)
        ensures
            s.wf(),
            s.round == 0,
            s.candidates@ == hdbscan_grid(),
            s.candidates@.len() == 25,
    {
        let options: [usize; 5] = [3, 5, 10, 20, 50];
        let mut candidates: Vec<(usize, usize)> = Vec::new();
        let mut i: usize = 0;
        while i < 25
            invariant
                i <= 25,
                options@ == seq![3usize, 5usize, 10usize, 20usize, 50usize],
                candidates@ == hdbscan_grid().take(i as int),
            decreases 25 - i,
        {
            assert(options@[i as int / 5] == grid_option(i as int / 5));
            assert(options@[i as int % 5] == grid_option(i as int % 5));
            candidates.push((options[i / 5], options[i % 5]));
            assert(candidates@ =~= hdbscan_grid().take(i + 1));
            i = i + 1;
        }
        assert(candidates@ =~= hdbscan_grid());
        assert forall|a: int, b: int| 0 <= a < 25 && 0 <= b < 25 && a != b implies hdbscan_grid()[a]
            != hdbscan_grid()[b] by {
            assert(a / 5 != b / 5 || a % 5 != b % 5);
        }
        assert forall|a: int| 0 <= a < candidates@.len() implies hdbscan_grid().contains(
            #[trigger] candidates@[a],
        ) by {
            assert(hdbscan_grid()[a] == candidates@[a]);
        }
        HdbscanSearch { candidates, round: 0 }
    }

    /// How many of the rows the current round scores on: a quarter, a half, all.
    pub fn sample_size(&self, n_rows: usize) -> (n: usize)
        requires
            self.wf(),
            self.round < ROUNDS,
            n_rows <= EXACT_ROWS,
        ensures
            n == (if self.round == 0 {
                n_rows as int / 4
            } else if self.round == 1 {
                n_rows as int / 2
            } else {
                n_rows as int
            }),
    {
        if self.round == 0 {
            n_rows / 4
        } else if self.round == 1 {
            n_rows / 2
        } else {
            n_rows
        }
    }

    /// Ends the round: the best of the candidates, by their scores, survive.
    pub fn finish_round(&mut self, scores: &Vec<Real32>)
        requires
            old(self).wf(),
            old(self).round < ROUNDS,
            scores@.len() == old(self).candidates@.len(),
            comparable(scores@),
        ensures
            final(self).wf(),
            final(self).round == old(self).round + 1,
            final(self).candidates@ == best(
                old(self).candidates@,
                scores@,
                hdbscan_keep(old(self).round as int) as nat,
            ),
            old(self).round == 0 ==> final(self).candidates@.len() == 25,
            old(self).round == 1 ==> final(self).candidates@.len() == 12,
            old(self).round == 2 ==> final(self).candidates@.len() == 6,
            forall|a: int|
                0 <= a < final(self).candidates@.len() ==> #[trigger] final(self).candidates@[a]
                    == old(self).candidates@[ranking(scores@)[a]],
            exists|i: int|
                0 <= i < scores@.len() && final(self).candidates@[0] == old(self).candidates@[i] && (
                forall|j: int|
                    0 <= j < scores@.len() ==> (#[trigger] scores@[j]).key() <= scores@[i].key())
                    && forall|j: int|
                    0 <= j < i ==> (#[trigger] scores@[j]).key() < scores@[i].key(),
    {
        let keep: usize = if self.round == 0 {
            25
        } else if self.round == 1 {
            12
        } else {
            6
        };
        let kept = keep_best(&self.candidates, scores, keep);
        proof {
            lemma_best_are_distinct_candidates(self.candidates@, scores@, keep as nat);
            assert forall|a: int| 0 <= a < kept@.len() implies hdbscan_grid().contains(
                #[trigger] kept@[a],
            ) by {
                assert(self.candidates@.contains(kept@[a]));
            }
        }
        self.candidates = kept;
        self.round = self.round + 1;
    }

    /// The pair that won: minimum samples, minimum cluster size.
    pub fn winner(&self) -> (w: (usize, usize))
        requires
            self.wf(),
            self.round == ROUNDS,
        ensures
            w == self.candidates@[0],
            hdbscan_grid().contains(w),
    {
        self.candidates[0]
    }
}

/// The numbers of components that are tried.
pub open spec fn pca_dims() -> Seq<usize> {
    seq![200usize, 256, 320, 400, 512, 640, 768]
}

/// Those of them that are below the number of columns.
pub open spec fn pca_candidates(n_cols: usize) -> Seq<usize> {
    pca_dims().filter(|d: usize| d < n_cols)
}

/// How many numbers of components survive a round, of `n` at the start.
pub open spec fn pca_keep(n: int, round: int) -> int {
    if round == 0 {
        n
    } else if round == 1 {
        n / 2
    } else {
        n / 4 + 1
    }
}

/// A search for the number of components.
pub struct PcaSearch {
    /// The surviving numbers, after the first round best first.
    pub candidates: Vec<usize>,
    /// How many numbers there were at the start.
    pub initial: usize,
    /// How many rounds are over.
    pub round: usize,
}

impl PcaSearch {
    pub open spec fn wf(self) -> bool {
        &&& self.round <= ROUNDS
        &&& 2 <= self.initial <= 7
        &&& self.candidates@.len() == (if self.round == 0 {
            self.initial as int
        } else {
            pca_keep(self.initial as int, self.round - 1)
        })
        &&& self.candidates@.no_duplicates()
        &&& forall|a: int|
            0 <= a < self.candidates@.len() ==> pca_dims().contains(#[trigger] self.candidates@[a])
    }

    /// A search over the numbers of components below `n_cols`. It takes two of them at
    /// the least to have somebody left for the last round.
    pub fn new(n_cols: usize) -> (s: PcaSearch)
        requires
            n_cols > 256,
        ensures
            s.wf(),
            s.round == 0,
            s.candidates@ == pca_candidates(n_cols),
            s.initial == s.candidates@.len(),
            s.candidates@ == seq![200usize, 256, 320, 400, 512, 640, 768].filter(
                |d: usize| d < n_cols,
            ),
            forall|a: int| 0 <= a < s.candidates@.len() ==> #[trigger] s.candidates@[a] < n_cols,
    {
        let dims: [usize; 7] = [200, 256, 320, 400, 512, 640, 768];
        let mut candidates: Vec<usize> = Vec::new();
        let mut i: usize = 0;
        let ghost below = |d: usize| d < n_cols;
        assert(pca_dims().take(0).filter(below) =~= Seq::<usize>::empty()) by {
            reveal(Seq::filter);
        }
        while i < 7
            invariant
                i <= 7,
                n_cols > 256,
                dims@ == pca_dims(),
                below == (|d: usize| d < n_cols),
                candidates@ == pca_dims().take(i as int).filter(below),
                candidates@.len() <= i,
                i >= 1 ==> candidates@.len() >= 1,
                i >= 2 ==> candidates@.len() >= 2,
                candidates@.no_duplicates(),
                forall|a: int|
                    0 <= a < candidates@.len() ==> {
                        &&& pca_dims().take(i as int).contains(#[trigger] candidates@[a])
                        &&& candidates@[a] < n_cols
                    },
            decreases 7 - i,
        {
            let d: usize = dims[i];
            let ghost earlier = candidates@;
            assert(pca_dims().take(i + 1).drop_last() =~= pca_dims().take(i as int));
            assert forall|a: int| 0 <= a < earlier.len() implies earlier[a] != d
                && pca_dims().take(i + 1).contains(#[trigger] earlier[a]) by {
                let p = choose|p: int|
                    0 <= p < pca_dims().take(i as int).len() && pca_dims().take(i as int)[p]
                        == earlier[a];
                assert(pca_dims().take(i + 1)[p] == earlier[a]);
            }
            assert(pca_dims().take(i + 1)[i as int] == d);
            proof {
                reveal(Seq::filter);
            }
            if d < n_cols {
                candidates.push(d);
            }
            i = i + 1;
        }
        assert(pca_dims().take(7) =~= pca_dims());
        let initial: usize = candidates.len();
        PcaSearch { candidates, initial, round: 0 }
    }

    /// Ends the round: the best of the candidates, by their scores, survive.
    pub fn finish_round(&mut self, scores: &Vec<Real32>)
        requires
            old(self).wf(),
            old(self).round < ROUNDS,
            scores@.len() == old(self).candidates@.len(),
            comparable(scores@),
        ensures
            final(self).wf(),
            final(self).round == old(self).round + 1,
            final(self).initial == old(self).initial,
            final(self).candidates@ == best(
                old(self).candidates@,
                scores@,
                pca_keep(old(self).initial as int, old(self).round as int) as nat,
            ),
            old(self).round == 0 ==> final(self).candidates@.len() == old(self).initial,
            old(self).round == 1 ==> final(self).candidates@.len() == old(self).initial as int / 2,
            old(self).round == 2 ==> final(self).candidates@.len() == old(self).initial as int / 4 + 1,
            forall|a: int|
                0 <= a < final(self).candidates@.len() ==> #[trigger] final(self).candidates@[a]
                    == old(self).candidates@[ranking(scores@)[a]],
            exists|i: int|
                0 <= i < scores@.len() && final(self).candidates@[0] == old(self).candidates@[i] && (
                forall|j: int|
                    0 <= j < scores@.len() ==> (#[trigger] scores@[j]).key() <= scores@[i].key())
                    && forall|j: int|
                    0 <= j < i ==> (#[trigger] scores@[j]).key() < scores@[i].key(),
    {
        let keep: usize = if self.round == 0 {
            self.initial
        } else if self.round == 1 {
            self.initial / 2
        } else {
            self.initial / 4 + 1
        };
        let kept = keep_best(&self.candidates, scores, keep);
        proof {
            lemma_best_are_distinct_candidates(self.candidates@, scores@, keep as nat);
            assert forall|a: int| 0 <= a < kept@.len() implies pca_dims().contains(
                #[trigger] kept@[a],
            ) by {
                assert(self.candidates@.contains(kept@[a]));
            }
        }
        self.candidates = kept;
        self.round = self.round + 1;
    }

    /// The number of components that won.
    pub fn winner(&self) -> (w: usize)
        requires
            self.wf(),
            self.round == ROUNDS,
        ensures
            w == self.candidates@[0],
            pca_dims().contains(w),
    {
        self.candidates[0]
    }
}

/// The survivors of three rounds, with the scores of each round and the number that each
/// round keeps.
pub open spec fn survivors<T>(
    candidates: Seq<T>,
    scores: Seq<Seq<Real32>>,
    keep: Seq<nat>,
    rounds: nat,
) -> Seq<T>
    decreases rounds,
{
    if rounds == 0 {
        candidates
    } else {
        let earlier = survivors(candidates, scores, keep, (rounds - 1) as nat);
        best(earlier, scores[rounds - 1], keep[rounds - 1])
    }
}

/// Whoever survives was a candidate from the start, whatever the scores; and whoever
/// leads after a round had the highest score of that round.
pub proof fn lemma_survivors_were_candidates<T>(
    candidates: Seq<T>,
    scores: Seq<Seq<Real32>>,
    keep: Seq<nat>,
    rounds: nat,
)
    requires
        rounds <= scores.len(),
        rounds <= keep.len(),
        forall|r: int|
            0 <= r < rounds ==> (#[trigger] scores[r]).len() == survivors(
                candidates,
                scores,
                keep,
                r as nat,
            ).len() && 0 < keep[r] <= scores[r].len(),
    ensures
        forall|a: int|
            0 <= a < survivors(candidates, scores, keep, rounds).len() ==> candidates.contains(
                #[trigger] survivors(candidates, scores, keep, rounds)[a],
            ),
        rounds > 0 ==> exists|i: int|
            #![trigger scores[rounds - 1][i]]
            {
                let earlier = survivors(candidates, scores, keep, (rounds - 1) as nat);
                &&& 0 <= i < earlier.len()
                &&& survivors(candidates, scores, keep, rounds)[0] == earlier[i]
                &&& forall|j: int|
                    0 <= j < earlier.len() ==> scores[rounds - 1][i].key() >= (
                    #[trigger] scores[rounds - 1][j]).key()
            },
    decreases rounds,
{
    if rounds > 0 {
        let last = rounds - 1;
        lemma_survivors_were_candidates(candidates, scores, keep, last as nat);
        let earlier = survivors(candidates, scores, keep, last as nat);
        let kept = survivors(candidates, scores, keep, rounds);
        assert(scores[last].len() == earlier.len());
        lemma_best_are_distinct_candidates(earlier, scores[last], keep[last]);
        assert forall|a: int| 0 <= a < kept.len() implies candidates.contains(#[trigger] kept[a]) by {
            assert(earlier.contains(kept[a]));
        }
        let order = ranking(scores[last]);
        lemma_ranking_is_the_one(scores[last], order);
        let i = order[0];
        assert(kept[0] == earlier[i]);
        assert forall|j: int| 0 <= j < earlier.len() implies scores[last][i].key() >= (
        #[trigger] scores[last][j]).key() by {
            assert(order.contains(j));
            let p = choose|p: int| 0 <= p < order.len() && order[p] == j;
            if p > 0 {
                assert(ranks_above(scores[last], order[0], order[p]));
            }
        }
        assert(scores[rounds - 1][i] == scores[last][i]);
    }
}

/// A clustering keeps its score whenever it has two clusters or more and not more than half
/// of the samples are noise, however many clusters it has.
pub proof fn lemma_sound_clusterings_keep_their_score(
    n_clusters: usize,
    noise_ratio: Real32,
    score: Real32,
    r: Real32,
)
    requires
        call_ensures(score_hdbscan, (n_clusters, noise_ratio, Some(score)), r),
        n_clusters >= 2,
        !(0x3f00_0000 < noise_ratio.bits <= 0x7f80_0000),
    ensures
        r == score,
{
}

/// More clusters, or less noise, never turn an accepted clustering into a rejected one.
pub proof fn lemma_acceptance_grows(
    a: usize,
    b: usize,
    more_noise: Real32,
    less_noise: Real32,
    accepted: bool,
    also: bool,
)
    requires
        call_ensures(is_scorable, (a, more_noise), accepted),
        call_ensures(is_scorable, (b, less_noise), also),
        accepted,
        a <= b,
        less_noise.bits <= more_noise.bits <= 0x7f80_0000,
    ensures
        also,
{
}

/// The values that a parameter is tried with.
pub open spec fn is_grid_value(v: usize) -> bool {
    v == 3 || v == 5 || v == 10 || v == 20 || v == 50
}

/// Every pair of the five values is tried, and no other, in ascending order.
pub proof fn lemma_grid_is_all_pairs(a: usize, b: usize)
    ensures
        hdbscan_grid().len() == 25,
        hdbscan_grid().contains((a, b)) <==> is_grid_value(a) && is_grid_value(b),
        forall|i: int, j: int|
            0 <= i < j < 25 ==> (#[trigger] hdbscan_grid()[i]).0 < (#[trigger] hdbscan_grid()[j]).0
                || (hdbscan_grid()[i].0 == hdbscan_grid()[j].0 && hdbscan_grid()[i].1
                < hdbscan_grid()[j].1),
{
    let grid = hdbscan_grid();
    if is_grid_value(a) && is_grid_value(b) {
        let p: int = if a == 3 {
            0
        } else if a == 5 {
            1
        } else if a == 10 {
            2
        } else if a == 20 {
            3
        } else {
            4
        };
        let q: int = if b == 3 {
            0
        } else if b == 5 {
            1
        } else if b == 10 {
            2
        } else if b == 20 {
            3
        } else {
            4
        };
        let k = 5 * p + q;
        assert(k / 5 == p && k % 5 == q);
        assert(grid[k] == (a, b));
    }
    if grid.contains((a, b)) {
        let k = choose|k: int| 0 <= k < grid.len() && grid[k] == (a, b);
        assert(grid[k] == (grid_option(k / 5), grid_option(k % 5)));
    }
    assert forall|i: int, j: int| 0 <= i < j < 25 implies (#[trigger] grid[i]).0 < (
    #[trigger] grid[j]).0 || (grid[i].0 == grid[j].0 && grid[i].1 < grid[j].1) by {
        assert(0 <= i / 5 <= j / 5 <= 4 && 0 <= i % 5 <= 4 && 0 <= j % 5 <= 4);
        assert(i / 5 == j / 5 ==> i % 5 < j % 5);
    }
}

/// A number of components is tried exactly if it is one of seven and below the number of
/// columns.
pub proof fn lemma_dimensions_below_the_columns_are_tried(n_cols: usize, d: usize)
    ensures
        pca_candidates(n_cols).contains(d) <==> d < n_cols && (d == 200 || d == 256 || d == 320 || d
            == 400 || d == 512 || d == 640 || d == 768),
{
    let dims = pca_dims();
    let below = |x: usize| x < n_cols;
    if pca_candidates(n_cols).contains(d) {
        dims.lemma_filter_contains_rev(below, d);
        let k = choose|k: int| 0 <= k < pca_candidates(n_cols).len() && pca_candidates(n_cols)[k] == d;
        dims.lemma_filter_pred(below, k);
        assert(below(d));
        let p = choose|p: int| 0 <= p < dims.len() && dims[p] == d;
        assert(dims[p] == d);
    }
    if d < n_cols && (d == 200 || d == 256 || d == 320 || d == 400 || d == 512 || d == 640 || d == 768) {
        let p: int = if d == 200 {
            0
        } else if d == 256 {
            1
        } else if d == 320 {
            2
        } else if d == 400 {
            3
        } else if d == 512 {
            4
        } else if d == 640 {
            5
        } else {
            6
        };
        assert(dims[p] == d);
        dims.lemma_filter_contains(below, p);
    }
}

/// How many survive each round.
pub proof fn lemma_survivors_of_each_round(n: int)
    ensures
        hdbscan_keep(0) == 25,
        hdbscan_keep(1) == 12,
        hdbscan_keep(2) == 6,
        pca_keep(n, 0) == n,
        pca_keep(n, 1) == n / 2,
        pca_keep(n, 2) == n / 4 + 1,
        rejected().bits == 0xff80_0000,
        ROUNDS == 3,
{
}

/// Rejected candidates never rank above scored ones.
pub proof fn lemma_rejected_rank_last(scores: Seq<Real32>, i: int, j: int)
    requires
        0 <= i < scores.len(),
        0 <= j < scores.len(),
        scores[i].bits == 0xff80_0000,
        !scores[j].nan(),
        scores[j].bits != 0xff80_0000,
    ensures
        !ranks_above(scores, i, j),
        ranks_above(scores, j, i),
{
}

} // verus!
