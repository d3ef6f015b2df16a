//! Picking rows at random: reservoir sampling, and Latin hypercube sampling.

use rand::seq::SliceRandom;
use rand::RngExt;
use vstd::prelude::*;

use crate::ieee::Real32;
use crate::matrix::{is_greatest, is_least, lemma_limits_of_a_column, Matrix};

verus! {

/// A number from 0 to `bound`, both included, drawn at random.
///
/// Trusted: `random_range` of the thread's generator, on an inclusive range that is never
/// empty, gives a number of that range. Which one is chance, and nothing is said of it.
#[verifier::external_body]
fn draw_up_to(bound: usize) -> (drawn: usize)
    ensures
        drawn <= bound,
{
    rand::rng().random_range(0..=bound)
}

/// The items in a random order.
///
/// Trusted: `shuffle` with the thread's generator moves the items of a slice and neither
/// adds, drops nor changes one. Which order comes out is chance.
#[verifier::external_body]
fn shuffled(items: Vec<usize>) -> (moved: Vec<usize>)
    ensures
        moved@.to_multiset() == items@.to_multiset(),
{
    let mut moved = items;
    moved.shuffle(&mut rand::rng());
    moved
}

/// Whether `drawn` is what a draw up to `bound` came to: the outcome of a call of
/// `draw_up_to`.
pub closed spec fn was_drawn(bound: usize, drawn: usize) -> bool {
    call_ensures(draw_up_to, (bound,), drawn)
}

/// Whether `perm` is what shuffling the numbers below `n` came to: the outcome of a call of
/// `shuffled` on them.
pub closed spec fn was_shuffled(n: nat, perm: Vec<usize>) -> bool {
    exists|plain: Vec<usize>|
        plain@ == Seq::new(n, |i: int| i as usize) && #[trigger] call_ensures(
            shuffled,
            (plain,),
            perm,
        )
}

/// Puts the items into ascending order.
///
/// Trusted: `sort_unstable` on a slice of numbers moves its items, neither adds, drops nor
/// changes one, and leaves them in ascending order.
#[verifier::external_body]
fn sort_ascending(items: &mut Vec<usize>)
    ensures
        final(items)@.to_multiset() == old(items)@.to_multiset(),
        forall|a: int, b: int|
            0 <= a <= b < final(items)@.len() ==> final(items)@[a] <= final(items)@[b],
{
    items.sort_unstable();
}

/// The reservoir of `k` rows after the rows from `k` on have each had their draw:
/// `draws[t]` is what was drawn for row `k + t`. A draw below `k` puts the row into that
/// place.
pub open spec fn reservoir(k: nat, draws: Seq<usize>) -> Seq<usize>
    decreases draws.len(),
{
    if draws.len() == 0 {
        Seq::new(k, |i: int| i as usize)
    } else {
        let earlier = reservoir(k, draws.drop_last());
        let j = draws.last();
        if j < k {
            earlier.update(j as int, (k + draws.len() - 1) as usize)
        } else {
            earlier
        }
    }
}

/// One draw for each row from `k` to `n_rows`, each drawn between 0 and the row itself.
pub open spec fn are_draws(n_rows: int, k: int, draws: Seq<usize>) -> bool {
    &&& draws.len() == (if n_rows > k {
        n_rows - k
    } else {
        0
    })
    &&& forall|t: int|
        0 <= t < draws.len() ==> #[trigger] draws[t] <= k + t && was_drawn(
            (k + t) as usize,
            draws[t],
        )
}

/// Whatever is drawn, the reservoir holds `k` different rows, none of them beyond the
/// rows that had their draw.
pub proof fn lemma_reservoir_rows_are_distinct(k: nat, draws: Seq<usize>)
    requires
        k + draws.len() <= usize::MAX,
    ensures
        reservoir(k, draws).len() == k,
        reservoir(k, draws).no_duplicates(),
        forall|i: int| 0 <= i < k ==> #[trigger] reservoir(k, draws)[i] < k + draws.len(),
    decreases draws.len(),
{
    if draws.len() > 0 {
        lemma_reservoir_rows_are_distinct(k, draws.drop_last());
    }
}

/// The reservoir that given draws lead to.
pub fn reservoir_from_draws(k: usize, draws: &Vec<usize>) -> (rows: Vec<usize>)
    requires
        k + draws@.len() <= usize::MAX,
    ensures
        rows@ == reservoir(k as nat, draws@),
{
    let mut rows: Vec<usize> = Vec::new();
    let mut i: usize = 0;
    while i < k
        invariant
            i <= k,
            rows@ == Seq::new(i as nat, |i: int| i as usize),
        decreases k - i,
    {
        rows.push(i);
        assert(rows@ =~= Seq::new((i + 1) as nat, |i: int| i as usize));
        i = i + 1;
    }
    let mut t: usize = 0;
    assert(draws@.take(0) =~= Seq::empty());
    while t < draws.len()
        invariant
            t <= draws@.len(),
            k + draws@.len() <= usize::MAX,
            rows@ == reservoir(k as nat, draws@.take(t as int)),
        decreases draws@.len() - t,
    {
        proof {
            assert(draws@.take(t + 1).drop_last() =~= draws@.take(t as int));
            lemma_reservoir_rows_are_distinct(k as nat, draws@.take(t as int));
        }
        let j: usize = draws[t];
        if j < k {
            rows.set(j, k + t);
        }
        t = t + 1;
    }
    assert(draws@.take(draws@.len() as int) =~= draws@);
    rows
}

/// `k` of the first `n_rows` rows, picked at random; where there are no more than `k`
/// rows, the numbers below `k`.
pub fn reservoir_sample(n_rows: usize, k: usize) -> (rows: Vec<usize>)
    ensures
        exists|draws: Seq<usize>|
            #[trigger] are_draws(n_rows as int, k as int, draws) && rows@ == reservoir(k as nat, draws),
        rows@.len() == k,
        rows@.no_duplicates(),
        k <= n_rows ==> forall|i: int| 0 <= i < k ==> #[trigger] rows@[i] < n_rows,
        k >= n_rows ==> rows@ == Seq::new(k as nat, |i: int| i as usize),
{
    let mut draws: Vec<usize> = Vec::new();
    let mut i: usize = k;
    while i < n_rows
        invariant
            k <= i,
            i <= n_rows || i == k,
            draws@.len() == i - k,
            forall|t: int|
                0 <= t < draws@.len() ==> #[trigger] draws@[t] <= k + t && was_drawn(
                    (k + t) as usize,
                    draws@[t],
                ),
        decreases n_rows - i,
    {
        let drawn: usize = draw_up_to(i);
        assert(was_drawn(i, drawn));
        draws.push(drawn);
        i = i + 1;
    }
    let rows = reservoir_from_draws(k, &draws);
    proof {
        assert(are_draws(n_rows as int, k as int, draws@));
        lemma_reservoir_rows_are_distinct(k as nat, draws@);
    }
    rows
}

/// `p` holds each number below `n` exactly once.
pub open spec fn is_permutation(p: Seq<usize>, n: int) -> bool {
    &&& p.len() == n
    &&& p.no_duplicates()
    &&& forall|i: int| 0 <= i < n ==> #[trigger] p[i] < n
    &&& forall|b: usize| b < n ==> #[trigger] p.contains(b)
}

/// Moving the numbers below `n` about leaves each of them in once.
proof fn lemma_moved_numbers(p: Seq<usize>, n: nat)
    requires
        n <= usize::MAX,
        p.to_multiset() == Seq::new(n, |i: int| i as usize).to_multiset(),
    ensures
        is_permutation(p, n as int),
{
    broadcast use {vstd::seq_lib::to_multiset_len, vstd::seq_lib::to_multiset_contains};

    let plain = Seq::new(n, |i: int| i as usize);
    assert(plain.to_multiset().len() == n);
    assert(p.to_multiset().len() == p.len());
    assert(plain.no_duplicates());
    plain.lemma_multiset_has_no_duplicates();
    p.lemma_multiset_has_no_duplicates_conv();
    assert forall|i: int| 0 <= i < n implies #[trigger] p[i] < n by {
        assert(p.contains(p[i]));
        assert(p.to_multiset().count(p[i]) > 0);
        assert(plain.contains(p[i]));
    }
    assert forall|b: usize| b < n implies #[trigger] p.contains(b) by {
        assert(plain[b as int] == b);
        assert(plain.contains(b));
        assert(p.to_multiset().count(b) > 0);
    }
}

/// A random order of the `n_samples` buckets for each of the `n_features` features: each
/// bucket is used exactly once per feature.
pub fn lhs_buckets(n_features: usize, n_samples: usize) -> (perms: Vec<Vec<usize>>)
    ensures
        perms@.len() == n_features,
        forall|f: int|
            0 <= f < n_features ==> is_permutation((#[trigger] perms@[f])@, n_samples as int)
                && was_shuffled(n_samples as nat, perms@[f]),
        forall|f: int|
            0 <= f < n_features ==> (#[trigger] perms@[f])@.len() == n_samples
                && perms@[f]@.no_duplicates(),
        forall|f: int, b: usize|
            0 <= f < n_features && b < n_samples ==> #[trigger] perms@[f]@.contains(b),
{
    let mut perms: Vec<Vec<usize>> = Vec::new();
    let mut f: usize = 0;
    while f < n_features
        invariant
            f <= n_features,
            perms@.len() == f,
            forall|g: int|
                0 <= g < f ==> is_permutation((#[trigger] perms@[g])@, n_samples as int)
                    && was_shuffled(n_samples as nat, perms@[g]),
        decreases n_features - f,
    {
        let mut plain: Vec<usize> = Vec::new();
        let mut i: usize = 0;
        while i < n_samples
            invariant
                i <= n_samples,
                plain@ == Seq::new(i as nat, |i: int| i as usize),
            decreases n_samples - i,
        {
            plain.push(i);
            assert(plain@ =~= Seq::new((i + 1) as nat, |i: int| i as usize));
            i = i + 1;
        }
        let ghost before = plain;
        let perm = shuffled(plain);
        proof {
            assert(call_ensures(shuffled, (before,), perm));
            lemma_moved_numbers(perm@, n_samples as nat);
        }
        perms.push(perm);
        f = f + 1;
    }
    perms
}

/// The least and the greatest number of each column.
pub fn column_ranges(x: &Matrix) -> (ranges: Vec<(Real32, Real32)>)
    requires
        x.wf(),
    ensures
        ranges@.len() == x.n_cols,
        forall|j: int|
            0 <= j < x.n_cols ==> {
                &&& is_least(x.column(j), (#[trigger] ranges@[j]).0)
                &&& is_greatest(x.column(j), ranges@[j].1)
            },
        forall|i: int, j: int|
            0 <= i < x.n_rows && 0 <= j < x.n_cols && !(#[trigger] x.row(i)[j]).nan()
                ==> ranges@[j].0.key() <= x.row(i)[j].key() <= ranges@[j].1.key(),
{
    let mut ranges: Vec<(Real32, Real32)> = Vec::new();
    let mut j: usize = 0;
    while j < x.n_cols
        invariant
            x.wf(),
            j <= x.n_cols,
            ranges@.len() == j,
            forall|c: int|
                0 <= c < j ==> {
                    &&& is_least(x.column(c), (#[trigger] ranges@[c]).0)
                    &&& is_greatest(x.column(c), ranges@[c].1)
                },
        decreases x.n_cols - j,
    {
        ranges.push((x.column_min(j), x.column_max(j)));
        j = j + 1;
    }
    assert forall|i: int, j: int|
        0 <= i < x.n_rows && 0 <= j < x.n_cols && !(#[trigger] x.row(i)[j]).nan() implies ranges@[j].0.key()
        <= x.row(i)[j].key() <= ranges@[j].1.key() by {
        let column = x.column(j);
        assert(column[i] == x.row(i)[j]);
        assert(is_least(column, ranges@[j].0));
        lemma_limits_of_a_column(column, ranges@[j].0, ranges@[j].1, i);
    }
    ranges
}

pub open spec fn strictly_ascending(s: Seq<usize>) -> bool {
    forall|a: int, b: int| 0 <= a < b < s.len() ==> s[a] < s[b]
}

/// The same numbers in ascending order, each once.
pub fn sorted_distinct(items: Vec<usize>) -> (kept: Vec<usize>)
    ensures
        strictly_ascending(kept@),
        forall|a: int, b: int| 0 <= a < b < kept@.len() ==> kept@[a] < kept@[b],
        forall|x: usize| #[trigger] kept@.contains(x) <==> items@.contains(x),
{
    let mut sorted = items;
    sort_ascending(&mut sorted);
    assert forall|x: usize| #[trigger] sorted@.contains(x) <==> items@.contains(x) by {
        broadcast use vstd::seq_lib::to_multiset_contains;

        assert(sorted@.contains(x) <==> sorted@.to_multiset().count(x) > 0);
        assert(items@.contains(x) <==> items@.to_multiset().count(x) > 0);
    }
    let mut kept: Vec<usize> = Vec::new();
    let mut i: usize = 0;
    while i < sorted.len()
        invariant
            i <= sorted@.len(),
            forall|a: int, b: int| 0 <= a <= b < sorted@.len() ==> sorted@[a] <= sorted@[b],
            strictly_ascending(kept@),
            i == 0 ==> kept@.len() == 0,
            i > 0 ==> kept@.len() > 0 && kept@.last() == sorted@[i - 1],
            forall|x: usize| #[trigger] kept@.contains(x) <==> sorted@.take(i as int).contains(x),
        decreases sorted@.len() - i,
    {
        let ghost before = kept@;
        let x: usize = sorted[i];
        let ghost seen = sorted@.take(i as int);
        let ghost wider = sorted@.take(i + 1);
        if i == 0 || x != sorted[i - 1] {
            kept.push(x);
            assert(forall|a: int| 0 <= a < before.len() ==> kept@[a] == before[a]);
            assert(kept@[before.len() as int] == x);
        }
        assert forall|y: usize| #[trigger] kept@.contains(y) <==> wider.contains(y) by {
            if wider.contains(y) {
                let p = choose|p: int| 0 <= p < wider.len() && wider[p] == y;
                if p < i {
                    assert(seen[p] == y);
                    assert(before.contains(y));
                    let q = choose|q: int| 0 <= q < before.len() && before[q] == y;
                    assert(kept@[q] == y);
                } else {
                    assert(kept@[kept@.len() - 1] == y);
                }
            }
            if kept@.contains(y) {
                let q = choose|q: int| 0 <= q < kept@.len() && kept@[q] == y;
                if q < before.len() {
                    assert(before[q] == y);
                    assert(before.contains(y));
                    let p = choose|p: int| 0 <= p < seen.len() && seen[p] == y;
                    assert(wider[p] == y);
                } else {
                    assert(wider[i as int] == y);
                }
            }
        }
        i = i + 1;
    }
    assert(sorted@.take(sorted@.len() as int) =~= sorted@);
    kept
}

/// The rows of `x` that are nearest to some point of the sample, each once, in their
/// order in `x`. `nearest` names the nearest row of each point.
pub fn lhs_subsample(x: &Matrix, nearest: Vec<usize>) -> (sample: (Vec<usize>, Matrix))
    requires
        x.wf(),
        nearest@.len() > 0,
        forall|k: int| 0 <= k < nearest@.len() ==> #[trigger] nearest@[k] < x.n_rows,
    ensures
        strictly_ascending(sample.0@),
        forall|a: int, b: int| 0 <= a < b < sample.0@.len() ==> sample.0@[a] < sample.0@[b],
        forall|i: usize| #[trigger] sample.0@.contains(i) <==> nearest@.contains(i),
        sample.1.wf(),
        sample.1.n_rows == sample.0@.len(),
        sample.1.n_cols == x.n_cols,
        sample.1.n_rows > 0,
        forall|k: int|
            0 <= k < sample.0@.len() ==> #[trigger] sample.1.row(k) == x.row(sample.0@[k] as int),
{
    let ghost named = nearest@;
    let rows = sorted_distinct(nearest);
    assert forall|k: int| 0 <= k < rows@.len() implies #[trigger] rows@[k] < x.n_rows by {
        assert(rows@.contains(rows@[k]));
        let p = choose|p: int| 0 <= p < named.len() && named[p] == rows@[k];
        assert(named[p] < x.n_rows);
    }
    assert(rows@.len() > 0) by {
        assert(named.contains(named[0]));
        assert(rows@.contains(named[0]));
    }
    let picked = x.select_rows(&rows);
    (rows, picked)
}

/// What stands at a place of the reservoir: the row whose draw was the last to name that
/// place, and the row of that number itself where no draw named it.
pub proof fn lemma_last_draw_holds_the_place(k: nat, draws: Seq<usize>, place: int, t: int)
    requires
        0 <= place < k,
        k + draws.len() <= usize::MAX,
    ensures
        reservoir(k, draws).len() == k,
        (forall|s: int| 0 <= s < draws.len() ==> (#[trigger] draws[s]) != place) ==> reservoir(
            k,
            draws,
        )[place] == place,
        0 <= t < draws.len() && draws[t] == place && (forall|s: int|
            t < s < draws.len() ==> (#[trigger] draws[s]) != place) ==> reservoir(k, draws)[place] == k
            + t,
    decreases draws.len(),
{
    lemma_reservoir_rows_are_distinct(k, draws);
    if draws.len() > 0 {
        let shorter = draws.drop_last();
        let last = draws.len() - 1;
        lemma_reservoir_rows_are_distinct(k, shorter);
        lemma_last_draw_holds_the_place(k, shorter, place, t);
        assert(draws[last] == draws.last());
        if forall|s: int| 0 <= s < draws.len() ==> (#[trigger] draws[s]) != place {
            assert forall|s: int| 0 <= s < shorter.len() implies (#[trigger] shorter[s]) != place by {
                assert(draws[s] != place);
            }
            assert(draws[last] != place);
        }
        if 0 <= t < draws.len() && draws[t] == place && forall|s: int|
            t < s < draws.len() ==> (#[trigger] draws[s]) != place {
            if t < last {
                assert(draws[last] != place);
                assert forall|s: int| t < s < shorter.len() implies (#[trigger] shorter[s]) != place by {
                    assert(draws[s] != place);
                }
                assert(shorter[t] == place);
            }
        }
    }
}

/// How many draws there are, and between which bounds.
pub proof fn lemma_one_draw_for_each_row_beyond(n_rows: int, k: int, draws: Seq<usize>, t: int)
    requires
        are_draws(n_rows, k, draws),
        0 <= k,
    ensures
        n_rows > k ==> draws.len() == n_rows - k,
        n_rows <= k ==> draws.len() == 0,
        0 <= t < draws.len() ==> draws[t] <= k + t && was_drawn((k + t) as usize, draws[t]),
{
}

/// What was drawn came from the generator.
proof fn lemma_draws_come_from_the_generator(bound: usize, drawn: usize)
    requires
        was_drawn(bound, drawn),
    ensures
        call_ensures(draw_up_to, (bound,), drawn),
        drawn <= bound,
{
}

/// What was shuffled came from the generator, out of the numbers in their order.
proof fn lemma_shuffles_come_from_the_generator(n: nat, perm: Vec<usize>)
    requires
        was_shuffled(n, perm),
    ensures
        exists|plain: Vec<usize>|
            plain@ == Seq::new(n, |i: int| i as usize) && #[trigger] call_ensures(
                shuffled,
                (plain,),
                perm,
            ),
{
}

/// The sample holds the row nearest to each point, and no row that is nearest to none.
pub proof fn lemma_sample_is_made_of_the_nearest_rows(
    x: Matrix,
    nearest: Vec<usize>,
    sample: (Vec<usize>, Matrix),
    k: int,
)
    requires
        x.wf(),
        nearest@.len() > 0,
        forall|k: int| 0 <= k < nearest@.len() ==> #[trigger] nearest@[k] < x.n_rows,
        call_ensures(lhs_subsample, (&x, nearest), sample),
        0 <= k < nearest@.len(),
    ensures
        sample.1.n_cols == x.n_cols,
        exists|r: int|
            0 <= r < sample.1.n_rows && sample.0@[r] == nearest@[k] && #[trigger] sample.1.row(r)
                == x.row(nearest@[k] as int),
        forall|r: int|
            0 <= r < sample.1.n_rows ==> nearest@.contains(#[trigger] sample.0@[r]),
{
    assert(nearest@.contains(nearest@[k]));
    assert(sample.0@.contains(nearest@[k]));
    let r = choose|r: int| 0 <= r < sample.0@.len() && sample.0@[r] == nearest@[k];
    assert(sample.1.row(r) == x.row(sample.0@[r] as int));
    assert forall|r: int| 0 <= r < sample.1.n_rows implies nearest@.contains(
        #[trigger] sample.0@[r],
    ) by {
        assert(sample.0@.contains(sample.0@[r]));
    }
}

} // verus!
