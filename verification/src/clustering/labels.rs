//! From clusters to labelled samples.

use std::collections::HashMap;
use std::collections::HashSet;

use vstd::prelude::*;

verus! {

broadcast use vstd::std_specs::hash::group_hash_axioms;

/// Clusters by their numbers, each with the indices of its samples.
pub type Clusters = Map<usize, Vec<usize>>;

/// Every index names one of `n_samples` samples.
pub open spec fn within(clusters: Clusters, n_samples: int) -> bool {
    forall|id: usize, k: int|
        clusters.contains_key(id) && 0 <= k < clusters[id]@.len() ==> #[trigger] clusters[id]@[k]
            < n_samples
}

/// Whether cluster `id` holds sample `i`.
pub open spec fn holds(clusters: Clusters, id: usize, i: int) -> bool {
    clusters.contains_key(id) && clusters[id]@.contains(i as usize)
}

/// No sample is in two clusters.
pub open spec fn disjoint(clusters: Clusters) -> bool {
    forall|a: usize, b: usize, i: int| #[trigger]
        holds(clusters, a, i) && #[trigger] holds(clusters, b, i) ==> a == b
}

/// `label` is right for sample `i`: the number of a cluster that holds it, or 0 where
/// none does.
pub open spec fn is_label(clusters: Clusters, i: int, label: usize) -> bool {
    if exists|id: usize| holds(clusters, id, i) {
        holds(clusters, label, i)
    } else {
        label == 0
    }
}

/// Puts `id` on each of the `members`.
pub fn stamp(labels: &mut Vec<usize>, id: usize, members: &Vec<usize>)
    requires
        forall|k: int| 0 <= k < members@.len() ==> #[trigger] members@[k] < old(labels)@.len(),
    ensures
        final(labels)@.len() == old(labels)@.len(),
        forall|i: int|
            0 <= i < old(labels)@.len() ==> #[trigger] final(labels)@[i] == (if members@.contains(
                i as usize,
            ) {
                id
            } else {
                old(labels)@[i]
            }),
{
    let len: usize = labels.len();
    let mut k: usize = 0;
    while k < members.len()
        invariant
            k <= members@.len(),
            len == old(labels)@.len(),
            labels@.len() == len,
            forall|k: int| 0 <= k < members@.len() ==> #[trigger] members@[k] < len,
            forall|i: int|
                0 <= i < len ==> #[trigger] labels@[i] == (if members@.take(k as int).contains(
                    i as usize,
                ) {
                    id
                } else {
                    old(labels)@[i]
                }),
        decreases members@.len() - k,
    {
        let ghost before = labels@;
        let m: usize = members[k];
        labels.set(m, id);
        let ghost seen = members@.take(k as int);
        let ghost wider = members@.take(k + 1);
        assert forall|i: int| 0 <= i < len implies #[trigger] labels@[i] == (if wider.contains(
            i as usize,
        ) {
            id
        } else {
            old(labels)@[i]
        }) by {
            if seen.contains(i as usize) {
                let p = choose|p: int| 0 <= p < seen.len() && seen[p] == i as usize;
                assert(wider[p] == i as usize);
            }
            if wider.contains(i as usize) && !seen.contains(i as usize) {
                let p = choose|p: int| 0 <= p < wider.len() && wider[p] == i as usize;
                assert(p < k ==> seen[p] == i as usize);
            }
            if i == m {
                assert(wider[k as int] == i as usize);
            }
        }
        k = k + 1;
    }
    assert(members@.take(members@.len() as int) =~= members@);
}

/// The label of each of `n_samples` samples. Where a sample is in two clusters, the walk
/// over the map decides which of the two numbers it gets.
pub fn sample_labels(n_samples: usize, clusters: &HashMap<usize, Vec<usize>>) -> (labels: Vec<usize>)
    requires
        within(clusters@, n_samples as int),
    ensures
        labels@.len() == n_samples,
        forall|i: int| 0 <= i < n_samples ==> is_label(clusters@, i, #[trigger] labels@[i]),
        disjoint(clusters@) ==> forall|id: usize, i: int|
            #![trigger holds(clusters@, id, i)]
            0 <= i < n_samples && holds(clusters@, id, i) ==> labels@[i] == id,
{
    let mut labels: Vec<usize> = Vec::new();
    let mut n: usize = 0;
    while n < n_samples
        invariant
            n <= n_samples,
            labels@.len() == n,
            forall|i: int| 0 <= i < n ==> #[trigger] labels@[i] == 0,
        decreases n_samples - n,
    {
        labels.push(0);
        n = n + 1;
    }
    for (id, members) in walk: clusters.iter()
        invariant
            within(clusters@, n_samples as int),
            labels@.len() == n_samples,
            walk.seq().len() == clusters@.dom().len(),
            forall|v: int|
                0 <= v < walk.seq().len() ==> clusters@.contains_key(*(#[trigger] walk.seq()[v]).0)
                    && clusters@[*walk.seq()[v].0] == *walk.seq()[v].1,
            forall|k: usize| #[trigger]
                clusters@.contains_key(k) ==> walk.seq().contains((&k, &clusters@[k])),
            forall|i: int, v: int|
                #![trigger labels@[i], walk.seq()[v]]
                0 <= i < n_samples && 0 <= v < walk.index() && walk.seq()[v].1@.contains(
                    i as usize,
                ) ==> holds(clusters@, labels@[i], i),
            forall|i: int|
                0 <= i < n_samples ==> #[trigger] labels@[i] == 0 || holds(
                    clusters@,
                    labels@[i],
                    i,
                ),
    {
        assert(*id == *walk.seq()[walk.index() as int].0);
        stamp(&mut labels, *id, members);
    }
    labels
}

/// Those of `n` samples that are no outliers, in their order.
pub open spec fn clean_rows(n: nat, outliers: Seq<usize>) -> Seq<usize>
    decreases n,
{
    if n == 0 {
        Seq::empty()
    } else {
        let last = (n - 1) as usize;
        let earlier = clean_rows((n - 1) as nat, outliers);
        if outliers.contains(last) {
            earlier
        } else {
            earlier.push(last)
        }
    }
}

/// Which samples are left depends on which samples are outliers, not on the order in which
/// the outliers are listed, nor on how often.
pub proof fn lemma_order_of_outliers_does_not_matter(n: nat, a: Seq<usize>, b: Seq<usize>)
    requires
        forall|i: usize| #[trigger] a.contains(i) <==> b.contains(i),
    ensures
        clean_rows(n, a) == clean_rows(n, b),
    decreases n,
{
    if n > 0 {
        lemma_order_of_outliers_does_not_matter((n - 1) as nat, a, b);
        let last = (n - 1) as usize;
        assert(a.contains(last) <==> b.contains(last));
    }
}

/// The samples that are left are samples, and none is an outlier.
pub proof fn lemma_clean_rows_are_no_outliers(n: nat, outliers: Seq<usize>)
    requires
        n <= usize::MAX + 1,
    ensures
        forall|k: int|
            0 <= k < clean_rows(n, outliers).len() ==> (#[trigger] clean_rows(n, outliers)[k]) < n
                && !outliers.contains(clean_rows(n, outliers)[k]),
    decreases n,
{
    if n > 0 {
        lemma_clean_rows_are_no_outliers((n - 1) as nat, outliers);
        let earlier = clean_rows((n - 1) as nat, outliers);
        assert forall|k: int| 0 <= k < clean_rows(n, outliers).len() implies (
        #[trigger] clean_rows(n, outliers)[k]) < n && !outliers.contains(
            clean_rows(n, outliers)[k],
        ) by {
            if k < earlier.len() {
                assert(clean_rows(n, outliers)[k] == earlier[k]);
            }
        }
    }
}

/// The samples that are no outliers, in their order, and their labels.
pub fn clean_samples(labels: &Vec<usize>, outliers: &Vec<usize>) -> (clean: (Vec<usize>, Vec<usize>))
    ensures
        clean.0@ == clean_rows(labels@.len(), outliers@),
        forall|a: int, b: int| 0 <= a < b < clean.0@.len() ==> clean.0@[a] < clean.0@[b],
        forall|i: usize| #[trigger]
            clean.0@.contains(i) <==> i < labels@.len() && !outliers@.contains(i),
        clean.1@.len() == clean.0@.len(),
        forall|k: int| 0 <= k < clean.0@.len() ==> #[trigger] clean.1@[k] == labels@[clean.0@[k] as int],
{
    let mut outside: HashSet<usize> = HashSet::new();
    let mut k: usize = 0;
    while k < outliers.len()
        invariant
            k <= outliers@.len(),
            forall|i: usize| #[trigger] outside@.contains(i) <==> outliers@.take(k as int).contains(i),
        decreases outliers@.len() - k,
    {
        let ghost before = outside@;
        outside.insert(outliers[k]);
        let ghost seen = outliers@.take(k as int);
        let ghost wider = outliers@.take(k + 1);
        assert forall|i: usize| #[trigger] outside@.contains(i) <==> wider.contains(i) by {
            if seen.contains(i) {
                let p = choose|p: int| 0 <= p < seen.len() && seen[p] == i;
                assert(wider[p] == i);
            }
            if wider.contains(i) && !seen.contains(i) {
                let p = choose|p: int| 0 <= p < wider.len() && wider[p] == i;
                assert(p < k ==> seen[p] == i);
            }
            if i == outliers@[k as int] {
                assert(wider[k as int] == i);
            }
            assert(before.contains(i) <==> seen.contains(i));
        }
        k = k + 1;
    }
    assert(outliers@.take(outliers@.len() as int) =~= outliers@);
    let mut rows: Vec<usize> = Vec::new();
    let mut kept: Vec<usize> = Vec::new();
    let mut i: usize = 0;
    while i < labels.len()
        invariant
            i <= labels@.len(),
            forall|i: usize| #[trigger] outside@.contains(i) <==> outliers@.contains(i),
            rows@ == clean_rows(i as nat, outliers@),
            forall|a: int| 0 <= a < rows@.len() ==> #[trigger] rows@[a] < i,
            forall|a: int, b: int| 0 <= a < b < rows@.len() ==> rows@[a] < rows@[b],
            forall|x: usize| #[trigger] rows@.contains(x) <==> x < i && !outliers@.contains(x),
            kept@.len() == rows@.len(),
            forall|k: int| 0 <= k < rows@.len() ==> #[trigger] kept@[k] == labels@[rows@[k] as int],
        decreases labels@.len() - i,
    {
        let ghost before = rows@;
        if !outside.contains(&i) {
            rows.push(i);
            kept.push(labels[i]);
            assert(rows@[before.len() as int] == i);
            assert forall|x: usize| #[trigger] rows@.contains(x) <==> x < i + 1
                && !outliers@.contains(x) by {
                if before.contains(x) {
                    let p = choose|p: int| 0 <= p < before.len() && before[p] == x;
                    assert(rows@[p] == x);
                }
                if rows@.contains(x) && x != i {
                    let p = choose|p: int| 0 <= p < rows@.len() && rows@[p] == x;
                    assert(before[p] == x);
                }
            }
        }
        i = i + 1;
    }
    (rows, kept)
}

/// A sample that is in one cluster carries the number of that cluster, wherever in its list
/// it stands; one that is in none carries 0.
pub proof fn lemma_members_carry_the_number_of_their_cluster(
    n_samples: usize,
    clusters: HashMap<usize, Vec<usize>>,
    labels: Vec<usize>,
    id: usize,
    k: int,
    lone: int,
)
    requires
        within(clusters@, n_samples as int),
        call_ensures(sample_labels, (n_samples, &clusters), labels),
        clusters@.contains_key(id),
        0 <= k < clusters@[id]@.len(),
        forall|other: usize| #[trigger]
            clusters@.contains_key(other) && clusters@[other]@.contains(clusters@[id]@[k]) ==> other
                == id,
        0 <= lone < n_samples,
        forall|other: usize| #[trigger]
            clusters@.contains_key(other) ==> !clusters@[other]@.contains(lone as usize),
    ensures
        labels@.len() == n_samples,
        clusters@[id]@[k] < n_samples,
        labels@[clusters@[id]@[k] as int] == id,
        labels@[lone] == 0,
{
    let i = clusters@[id]@[k] as int;
    assert(clusters@[id]@[k] < n_samples);
    assert(i as usize == clusters@[id]@[k]);
    assert(clusters@[id]@.contains(i as usize));
    assert(holds(clusters@, id, i));
    assert(is_label(clusters@, i, labels@[i]));
    assert(holds(clusters@, labels@[i], i));
    assert(is_label(clusters@, lone, labels@[lone]));
    if exists|other: usize| holds(clusters@, other, lone) {
        let other = choose|other: usize| holds(clusters@, other, lone);
        assert(clusters@.contains_key(other));
    }
}

/// The samples that are left are those that are no outliers, all of them, each once, in
/// ascending order.
pub proof fn lemma_clean_rows_are_all_but_the_outliers(n: nat, outliers: Seq<usize>, i: usize)
    requires
        n <= usize::MAX + 1,
    ensures
        clean_rows(n, outliers).contains(i) <==> i < n && !outliers.contains(i),
        forall|a: int, b: int|
            0 <= a < b < clean_rows(n, outliers).len() ==> clean_rows(n, outliers)[a] < clean_rows(
                n,
                outliers,
            )[b],
        clean_rows(n, outliers).len() <= n,
    decreases n,
{
    lemma_clean_rows_are_no_outliers(n, outliers);
    let rows = clean_rows(n, outliers);
    if n > 0 {
        let last = (n - 1) as usize;
        let earlier = clean_rows((n - 1) as nat, outliers);
        lemma_clean_rows_are_all_but_the_outliers((n - 1) as nat, outliers, i);
        lemma_clean_rows_are_no_outliers((n - 1) as nat, outliers);
        if !outliers.contains(last) {
            assert(rows == earlier.push(last));
            assert forall|a: int, b: int| 0 <= a < b < rows.len() implies rows[a] < rows[b] by {
                assert(rows[a] == earlier[a]);
                if b < earlier.len() {
                    assert(rows[b] == earlier[b]);
                }
            }
            if earlier.contains(i) {
                let p = choose|p: int| 0 <= p < earlier.len() && earlier[p] == i;
                assert(rows[p] == i);
            }
            if i == last {
                assert(rows[rows.len() - 1] == i);
            }
            if rows.contains(i) && i != last {
                let p = choose|p: int| 0 <= p < rows.len() && rows[p] == i;
                assert(earlier[p] == i);
            }
        }
    }
}

/// A sample that is in some cluster carries the number of a cluster that it is in.
pub proof fn lemma_labels_are_numbers_of_clusters(
    n_samples: usize,
    clusters: HashMap<usize, Vec<usize>>,
    labels: Vec<usize>,
    id: usize,
    i: usize,
)
    requires
        within(clusters@, n_samples as int),
        call_ensures(sample_labels, (n_samples, &clusters), labels),
        i < n_samples,
        clusters@.contains_key(id),
        clusters@[id]@.contains(i),
    ensures
        clusters@.contains_key(labels@[i as int]),
        clusters@[labels@[i as int]]@.contains(i),
{
    assert(i as int as usize == i);
    assert(holds(clusters@, id, i as int));
    assert(is_label(clusters@, i as int, labels@[i as int]));
}

} // verus!
