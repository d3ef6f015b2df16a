//! Picking among scored candidates.

use vstd::prelude::*;

use crate::ieee::Real32;

verus! {

/// Whether picking among `values` never meets a pair without an order. A single value
/// is never compared.
pub open spec fn comparable(values: Seq<Real32>) -> bool {
    values.len() <= 1 || forall|i: int| 0 <= i < values.len() ==> !(#[trigger] values[i]).nan()
}

/// The index of the first least value.
pub open spec fn is_first_smallest(values: Seq<Real32>, index: int) -> bool {
    &&& 0 <= index < values.len()
    &&& forall|j: int| 0 <= j < values.len() ==> values[index].key() <= (#[trigger] values[j]).key()
    &&& forall|j: int| 0 <= j < index ==> values[index].key() < (#[trigger] values[j]).key()
}

/// Whether candidate `i` ranks above candidate `j`: by the higher score, and among
/// equal scores by the lower index.
pub open spec fn ranks_above(scores: Seq<Real32>, i: int, j: int) -> bool {
    ||| scores[i].key() > scores[j].key()
    ||| scores[i].key() == scores[j].key() && i < j
}

/// `order` lists every index of `scores` once, from the highest rank down.
pub open spec fn is_ranking(scores: Seq<Real32>, order: Seq<int>) -> bool {
    &&& order.len() == scores.len()
    &&& forall|a: int| 0 <= a < order.len() ==> 0 <= #[trigger] order[a] < scores.len()
    &&& forall|i: int| 0 <= i < scores.len() ==> #[trigger] order.contains(i)
    &&& forall|a: int, b: int|
        0 <= a < b < order.len() ==> ranks_above(scores, #[trigger] order[a], #[trigger] order[b])
}

/// The one ranking of `scores`.
pub open spec fn ranking(scores: Seq<Real32>) -> Seq<int> {
    choose|order: Seq<int>| is_ranking(scores, order)
}

/// The `keep` highest ranked of `candidates`, best first.
pub open spec fn best<T>(candidates: Seq<T>, scores: Seq<Real32>, keep: nat) -> Seq<T> {
    Seq::new(keep, |a: int| candidates[ranking(scores)[a]])
}

/// Two rankings of the same scores agree.
proof fn lemma_ranking_prefix_agrees(scores: Seq<Real32>, x: Seq<int>, y: Seq<int>, n: int)
    requires
        is_ranking(scores, x),
        is_ranking(scores, y),
        0 <= n <= scores.len(),
    ensures
        forall|a: int| 0 <= a < n ==> x[a] == y[a],
    decreases n,
{
    if n > 0 {
        let k = n - 1;
        lemma_ranking_prefix_agrees(scores, x, y, k);
        if x[k] != y[k] {
            assert(y.contains(x[k]));
            let p = choose|p: int| 0 <= p < y.len() && y[p] == x[k];
            assert(x.contains(y[k]));
            let q = choose|q: int| 0 <= q < x.len() && x[q] == y[k];
            if p < k {
                assert(ranks_above(scores, x[p], x[k]));
            }
            if q < k {
                assert(ranks_above(scores, y[q], y[k]));
            }
            assert(ranks_above(scores, y[k], y[p]));
            assert(ranks_above(scores, x[k], x[q]));
        }
    }
}

proof fn lemma_rankings_agree(scores: Seq<Real32>, x: Seq<int>, y: Seq<int>)
    requires
        is_ranking(scores, x),
        is_ranking(scores, y),
    ensures
        x == y,
{
    lemma_ranking_prefix_agrees(scores, x, y, scores.len() as int);
    assert(x =~= y);
}

/// Where the last score goes in the ranking of the scores before it.
spec fn is_slot(scores: Seq<Real32>, order: Seq<int>, slot: int) -> bool {
    let last = scores.len() - 1;
    &&& 0 <= slot <= order.len()
    &&& forall|a: int| 0 <= a < slot ==> scores[#[trigger] order[a]].key() >= scores[last].key()
    &&& forall|a: int| slot <= a < order.len() ==> scores[#[trigger] order[a]].key() < scores[last].key()
}

/// Putting the last index into its slot extends a ranking by one score.
proof fn lemma_insert_extends_ranking(scores: Seq<Real32>, order: Seq<int>, slot: int)
    requires
        scores.len() > 0,
        is_ranking(scores.drop_last(), order),
        is_slot(scores, order, slot),
    ensures
        is_ranking(scores, order.insert(slot, scores.len() - 1)),
{
    let last = scores.len() - 1;
    let longer = order.insert(slot, last);
    assert forall|i: int| 0 <= i < scores.len() implies #[trigger] longer.contains(i) by {
        if i == last {
            assert(longer[slot] == i);
        } else {
            assert(order.contains(i));
            let p = choose|p: int| 0 <= p < order.len() && order[p] == i;
            if p < slot {
                assert(longer[p] == i);
            } else {
                assert(longer[p + 1] == i);
            }
        }
    }
    assert forall|a: int| 0 <= a < longer.len() implies 0 <= #[trigger] longer[a] < scores.len() by {
        if a < slot {
            assert(longer[a] == order[a]);
        } else if a > slot {
            assert(longer[a] == order[a - 1]);
        }
    }
    assert forall|a: int, b: int| 0 <= a < b < longer.len() implies ranks_above(
        scores,
        #[trigger] longer[a],
        #[trigger] longer[b],
    ) by {
        let a0 = if a < slot { a } else { a - 1 };
        let b0 = if b < slot { b } else { b - 1 };
        if a != slot {
            assert(longer[a] == order[a0]);
        }
        if b != slot {
            assert(longer[b] == order[b0]);
        }
        if a != slot && b != slot {
            assert(ranks_above(scores.drop_last(), order[a0], order[b0]));
        }
    }
}

/// Where the last score goes, counted from the front.
spec fn slot_from(scores: Seq<Real32>, order: Seq<int>, from: int) -> int
    decreases order.len() - from,
{
    if from >= order.len() || scores[order[from]].key() < scores.last().key() {
        from
    } else {
        slot_from(scores, order, from + 1)
    }
}

proof fn lemma_slot_from(scores: Seq<Real32>, order: Seq<int>, from: int)
    requires
        scores.len() > 0,
        is_ranking(scores.drop_last(), order),
        0 <= from <= order.len(),
        forall|a: int| 0 <= a < from ==> scores[#[trigger] order[a]].key() >= scores.last().key(),
    ensures
        is_slot(scores, order, slot_from(scores, order, from)),
    decreases order.len() - from,
{
    if from >= order.len() {
    } else if scores[order[from]].key() < scores.last().key() {
        assert forall|a: int| from <= a < order.len() implies scores[#[trigger] order[a]].key()
            < scores[scores.len() - 1].key() by {
            if a > from {
                assert(ranks_above(scores.drop_last(), order[from], order[a]));
            }
        }
    } else {
        lemma_slot_from(scores, order, from + 1);
    }
}

/// A ranking exists, whatever the scores.
proof fn lemma_some_ranking(scores: Seq<Real32>) -> (order: Seq<int>)
    ensures
        is_ranking(scores, order),
    decreases scores.len(),
{
    if scores.len() == 0 {
        Seq::<int>::empty()
    } else {
        let shorter = lemma_some_ranking(scores.drop_last());
        lemma_slot_from(scores, shorter, 0);
        let slot = slot_from(scores, shorter, 0);
        lemma_insert_extends_ranking(scores, shorter, slot);
        shorter.insert(slot, scores.len() - 1)
    }
}

/// Every list of scores has exactly one ranking.
pub proof fn lemma_ranking_is_the_one(scores: Seq<Real32>, order: Seq<int>)
    ensures
        is_ranking(scores, ranking(scores)),
        is_ranking(scores, order) ==> order == ranking(scores),
{
    let witness = lemma_some_ranking(scores);
    assert(is_ranking(scores, witness));
    if is_ranking(scores, order) {
        lemma_rankings_agree(scores, order, ranking(scores));
    }
}

/// Nobody who is dropped scored higher than somebody who is kept.
pub proof fn lemma_kept_outrank_dropped(scores: Seq<Real32>, keep: int, kept: int, dropped: int)
    requires
        0 <= kept < keep <= dropped < scores.len(),
    ensures
        scores[ranking(scores)[kept]].key() >= scores[ranking(scores)[dropped]].key(),
{
    let order = ranking(scores);
    lemma_ranking_is_the_one(scores, order);
    assert(ranks_above(scores, order[kept], order[dropped]));
}

/// Everybody who is kept is one of the candidates, and nobody is kept twice.
pub proof fn lemma_best_are_distinct_candidates<T>(
    candidates: Seq<T>,
    scores: Seq<Real32>,
    keep: nat,
)
    requires
        candidates.len() == scores.len(),
        keep <= scores.len(),
    ensures
        best(candidates, scores, keep).len() == keep,
        forall|a: int|
            0 <= a < keep ==> candidates.contains(#[trigger] best(candidates, scores, keep)[a]),
        candidates.no_duplicates() ==> best(candidates, scores, keep).no_duplicates(),
{
    let order = ranking(scores);
    lemma_ranking_is_the_one(scores, order);
    let kept = best(candidates, scores, keep);
    assert forall|a: int| 0 <= a < keep implies candidates.contains(#[trigger] kept[a]) by {
        assert(kept[a] == candidates[order[a]]);
    }
    if candidates.no_duplicates() {
        assert forall|a: int, b: int| 0 <= a < kept.len() && 0 <= b < kept.len() && a != b implies kept[a]
            != kept[b] by {
            if a < b {
                assert(ranks_above(scores, order[a], order[b]));
            } else {
                assert(ranks_above(scores, order[b], order[a]));
            }
        }
    }
}

/// Whether picking among `values` never meets a pair without an order.
pub fn is_comparable(values: &Vec<Real32>) -> (b: bool)
    ensures
        b == comparable(values@),
        b == (values@.len() <= 1 || forall|i: int|
            0 <= i < values@.len() ==> !(#[trigger] values@[i]).nan()),
{
    let mut i: usize = 0;
    while i < values.len()
        invariant
            i <= values@.len(),
            forall|j: int| 0 <= j < i ==> !(#[trigger] values@[j]).nan(),
        decreases values@.len() - i,
    {
        if values[i].is_nan() {
            return values.len() <= 1;
        }
        i = i + 1;
    }
    true
}

/// The index of the first least value.
pub fn first_smallest(values: &Vec<Real32>) -> (index: usize)
    requires
        values@.len() > 0,
        comparable(values@),
    ensures
        is_first_smallest(values@, index as int),
        index < values@.len(),
        forall|j: int|
            0 <= j < values@.len() ==> values@[index as int].key() <= (#[trigger] values@[j]).key(),
        forall|j: int| 0 <= j < index ==> values@[index as int].key() < (#[trigger] values@[j]).key(),
{
    let mut index: usize = 0;
    let mut i: usize = 1;
    while i < values.len()
        invariant
            1 <= i <= values@.len(),
            is_first_smallest(values@.take(i as int), index as int),
        decreases values@.len() - i,
    {
        assert(values@.take(i as int)[index as int] == values@[index as int]);
        if values[i].order_key() < values[index].order_key() {
            assert forall|j: int| 0 <= j < i implies values@[i as int].key()
                < (#[trigger] values@[j]).key() by {
                assert(values@.take(i as int)[j] == values@[j]);
            }
            index = i;
        }
        assert forall|j: int| 0 <= j < i + 1 implies values@[index as int].key() <= (
        #[trigger] values@.take(i + 1)[j]).key() by {
            if j < i {
                assert(values@.take(i as int)[j] == values@[j]);
            }
        }
        assert forall|j: int| 0 <= j < index implies values@[index as int].key() < (
        #[trigger] values@.take(i + 1)[j]).key() by {
            assert(values@.take(i as int)[j] == values@[j]);
        }
        i = i + 1;
    }
    assert(values@.take(values@.len() as int) =~= values@);
    index
}

/// The indices of `scores` from the highest rank down.
pub fn rank(scores: &Vec<Real32>) -> (order: Vec<usize>)
    requires
        comparable(scores@),
    ensures
        order@.map_values(|i: usize| i as int) == ranking(scores@),
        order@.len() == scores@.len(),
        forall|a: int| 0 <= a < order@.len() ==> (#[trigger] order@[a]) < scores@.len(),
        forall|a: int, b: int|
            0 <= a < b < order@.len() ==> {
                let x = scores@[#[trigger] order@[a] as int].key();
                let y = scores@[#[trigger] order@[b] as int].key();
                x > y || (x == y && order@[a] < order@[b])
            },
{
    let mut order: Vec<usize> = Vec::new();
    let mut i: usize = 0;
    proof {
        assert(is_ranking(scores@.take(0), order@.map_values(|i: usize| i as int)));
    }
    while i < scores.len()
        invariant
            i <= scores@.len(),
            is_ranking(scores@.take(i as int), order@.map_values(|i: usize| i as int)),
        decreases scores@.len() - i,
    {
        let ghost known = scores@.take(i as int);
        let ghost wider = scores@.take(i + 1);
        let ghost listed = order@.map_values(|i: usize| i as int);
        assert(wider.drop_last() =~= known);
        assert forall|a: int| 0 <= a < order@.len() implies (#[trigger] order@[a]) < scores@.len() by {
            assert(listed[a] == order@[a]);
        }
        let key: i64 = scores[i].order_key();
        let mut slot: usize = 0;
        while slot < order.len() && scores[order[slot]].order_key() >= key
            invariant
                i < scores@.len(),
                slot <= order@.len(),
                known == scores@.take(i as int),
                wider == scores@.take(i + 1),
                listed == order@.map_values(|i: usize| i as int),
                is_ranking(known, listed),
                key == scores@[i as int].key(),
                forall|a: int| 0 <= a < order@.len() ==> (#[trigger] order@[a]) < scores@.len(),
                forall|a: int|
                    0 <= a < slot ==> wider[#[trigger] listed[a]].key() >= wider[i as int].key(),
            decreases order@.len() - slot,
        {
            assert(listed[slot as int] == order@[slot as int]);
            assert(wider[listed[slot as int]] == scores@[order@[slot as int] as int]);
            slot = slot + 1;
        }
        proof {
            if slot < order@.len() {
                assert(listed[slot as int] == order@[slot as int]);
                assert(wider[listed[slot as int]] == scores@[order@[slot as int] as int]);
            }
            lemma_slot_from(wider, listed, slot as int);
            lemma_insert_extends_ranking(wider, listed, slot as int);
        }
        order.insert(slot, i);
        assert(order@.map_values(|i: usize| i as int) =~= listed.insert(slot as int, i as int));
        i = i + 1;
    }
    proof {
        assert(scores@.take(scores@.len() as int) =~= scores@);
        let listed = order@.map_values(|i: usize| i as int);
        lemma_ranking_is_the_one(scores@, listed);
        assert forall|a: int, b: int| 0 <= a < b < order@.len() implies {
            let x = scores@[#[trigger] order@[a] as int].key();
            let y = scores@[#[trigger] order@[b] as int].key();
            x > y || (x == y && order@[a] < order@[b])
        } by {
            assert(listed[a] == order@[a] && listed[b] == order@[b]);
            assert(ranks_above(scores@, listed[a], listed[b]));
        }
        assert forall|a: int| 0 <= a < order@.len() implies (#[trigger] order@[a]) < scores@.len() by {
            assert(listed[a] == order@[a]);
        }
    }
    order
}

/// The `keep` highest ranked of `candidates`, best first.
pub fn keep_best<T: Copy>(candidates: &Vec<T>, scores: &Vec<Real32>, keep: usize) -> (kept: Vec<T>)
    requires
        candidates@.len() == scores@.len(),
        comparable(scores@),
        keep <= candidates@.len(),
    ensures
        kept@ == best(candidates@, scores@, keep as nat),
        kept@.len() == keep,
        forall|a: int|
            0 <= a < keep ==> #[trigger] kept@[a] == candidates@[ranking(scores@)[a]],
        keep > 0 ==> exists|i: int|
            0 <= i < scores@.len() && kept@[0] == candidates@[i] && (forall|j: int|
                0 <= j < scores@.len() ==> (#[trigger] scores@[j]).key() <= scores@[i].key())
                && forall|j: int|
                0 <= j < i ==> (#[trigger] scores@[j]).key() < scores@[i].key(),
{
    let order = rank(scores);
    let ghost listed = order@.map_values(|i: usize| i as int);
    proof {
        lemma_ranking_is_the_one(scores@, listed);
    }
    let mut kept: Vec<T> = Vec::new();
    let mut a: usize = 0;
    while a < keep
        invariant
            a <= keep <= candidates@.len(),
            listed == order@.map_values(|i: usize| i as int),
            listed == ranking(scores@),
            is_ranking(scores@, listed),
            candidates@.len() == scores@.len(),
            kept@ == best(candidates@, scores@, a as nat),
        decreases keep - a,
    {
        assert(listed[a as int] == order@[a as int]);
        kept.push(candidates[order[a]]);
        assert(kept@ =~= best(candidates@, scores@, (a + 1) as nat));
        a = a + 1;
    }
    proof {
        if keep > 0 {
            lemma_first_of_a_ranking(scores@);
            assert(kept@[0] == candidates@[ranking(scores@)[0]]);
        }
    }
    kept
}

/// Whoever ranks first has the highest score, and is the first of those who have it.
pub proof fn lemma_first_of_a_ranking(scores: Seq<Real32>)
    requires
        scores.len() > 0,
    ensures
        0 <= ranking(scores)[0] < scores.len(),
        forall|j: int|
            0 <= j < scores.len() ==> (#[trigger] scores[j]).key() <= scores[ranking(scores)[0]].key(),
        forall|j: int|
            0 <= j < ranking(scores)[0] ==> (#[trigger] scores[j]).key()
                < scores[ranking(scores)[0]].key(),
{
    let order = ranking(scores);
    lemma_ranking_is_the_one(scores, order);
    assert forall|j: int| 0 <= j < scores.len() implies (#[trigger] scores[j]).key()
        <= scores[order[0]].key() && (j < order[0] ==> scores[j].key() < scores[order[0]].key()) by {
        assert(order.contains(j));
        let p = choose|p: int| 0 <= p < order.len() && order[p] == j;
        if p > 0 {
            assert(ranks_above(scores, order[0], order[p]));
        }
    }
}

/// A ranking lists every index once, the higher score before the lower, and among equal
/// scores the lower index before the higher. What is kept is read off it from the front.
pub proof fn lemma_rankings_descend<T>(candidates: Seq<T>, scores: Seq<Real32>, keep: nat)
    requires
        candidates.len() == scores.len(),
        keep <= scores.len(),
    ensures
        ranking(scores).len() == scores.len(),
        forall|a: int|
            0 <= a < scores.len() ==> 0 <= #[trigger] ranking(scores)[a] < scores.len(),
        forall|i: int| 0 <= i < scores.len() ==> #[trigger] ranking(scores).contains(i),
        forall|a: int, b: int|
            0 <= a < b < scores.len() ==> {
                let x = scores[#[trigger] ranking(scores)[a]].key();
                let y = scores[#[trigger] ranking(scores)[b]].key();
                x > y || (x == y && ranking(scores)[a] < ranking(scores)[b])
            },
        best(candidates, scores, keep).len() == keep,
        forall|a: int|
            0 <= a < keep ==> #[trigger] best(candidates, scores, keep)[a]
                == candidates[ranking(scores)[a]],
{
    let order = ranking(scores);
    lemma_ranking_is_the_one(scores, order);
    assert forall|a: int, b: int| 0 <= a < b < scores.len() implies {
        let x = scores[#[trigger] order[a]].key();
        let y = scores[#[trigger] order[b]].key();
        x > y || (x == y && order[a] < order[b])
    } by {
        assert(ranks_above(scores, order[a], order[b]));
    }
}

/// The nearest is found whole lists through: no value is below the one that is picked, and
/// none before it is as low.
pub proof fn lemma_nothing_is_below_the_picked(values: Vec<Real32>, index: usize, j: int)
    requires
        values@.len() > 0,
        comparable(values@),
        call_ensures(first_smallest, (&values,), index),
        0 <= j < values@.len(),
    ensures
        index < values@.len(),
        !values@[j].below(values@[index as int]),
        j < index && !values@[j].nan() && !values@[index as int].nan() ==> values@[index as int].below(
            values@[j],
        ),
{
}

} // verus!
