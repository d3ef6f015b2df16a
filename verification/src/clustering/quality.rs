//! What the quality of a clustering is measured on.

use std::collections::HashMap;

use vstd::prelude::*;

use crate::clustering::labels::{
    clean_rows, clean_samples, disjoint, holds, is_label,
    lemma_clean_rows_are_all_but_the_outliers, lemma_clean_rows_are_no_outliers,
    lemma_order_of_outliers_does_not_matter, sample_labels, within, Clusters,
};
use crate::ieee::{Real32, MAX_32, MINUS_ONE_32};
use crate::matrix::Matrix;

verus! {

/// What the quality of a clustering is measured on.
pub enum ScoreInput {
    /// There is nothing to measure, and this is the score.
    Fixed(Real32),
    /// The samples that are no outliers, and the numbers of their clusters.
    Measure { samples: Matrix, labels: Vec<usize> },
}

/// Whether the quality of `clusters` is measured on `input`: the samples that are no
/// outliers, in their order, with their labels. Where there are none, the score is minus
/// one.
pub open spec fn is_score_input(
    x: Matrix,
    clusters: Clusters,
    outliers: Seq<usize>,
    input: ScoreInput,
) -> bool {
    let rows = clean_rows(x.n_rows as nat, outliers);
    match input {
        ScoreInput::Fixed(score) => rows.len() == 0 && score.bits == MINUS_ONE_32,
        ScoreInput::Measure { samples, labels } => {
            &&& rows.len() > 0
            &&& samples.wf()
            &&& samples.n_rows == rows.len()
            &&& samples.n_cols == x.n_cols
            &&& forall|k: int|
                0 <= k < rows.len() ==> #[trigger] samples.row(k) == x.row(rows[k] as int)
            &&& labels@.len() == rows.len()
            &&& forall|k: int|
                0 <= k < rows.len() ==> is_label(clusters, rows[k] as int, #[trigger] labels@[k])
        },
    }
}

/// What the quality of a clustering of the rows of `x` is measured on.
pub fn score_input(
    x: &Matrix,
    clusters: &HashMap<usize, Vec<usize>>,
    outliers: &Vec<usize>,
) -> (input: ScoreInput)
    requires
        x.wf(),
        within(clusters@, x.n_rows as int),
    ensures
        is_score_input(*x, clusters@, outliers@, input),
{
    let all = sample_labels(x.n_rows, clusters);
    let (rows, labels) = clean_samples(&all, outliers);
    proof {
        lemma_clean_rows_are_no_outliers(x.n_rows as nat, outliers@);
    }
    if rows.len() == 0 {
        return ScoreInput::Fixed(Real32::from_bits(MINUS_ONE_32));
    }
    let samples = x.select_rows(&rows);
    assert forall|k: int| 0 <= k < rows@.len() implies is_label(
        clusters@,
        rows@[k] as int,
        #[trigger] labels@[k],
    ) by {
        assert(labels@[k] == all@[rows@[k] as int]);
    }
    ScoreInput::Measure { samples, labels }
}

/// Where the rows of two matrices of one shape agree, so do their numbers.
proof fn lemma_rows_determine_data(a: Matrix, b: Matrix)
    requires
        a.wf(),
        b.wf(),
        a.n_rows == b.n_rows,
        a.n_cols == b.n_cols,
        forall|k: int| 0 <= k < a.n_rows ==> #[trigger] a.row(k) == b.row(k),
    ensures
        a.data@ == b.data@,
{
    let n = a.n_cols as int;
    let rows = a.n_rows as int;
    assert forall|j: int| 0 <= j < a.data@.len() implies a.data@[j] == b.data@[j] by {
        let k = j / n;
        assert(n > 0 && 0 <= k < rows && j == k * n + j % n && 0 <= j % n < n && 0 <= k * n && k * n + n
            <= rows * n) by (nonlinear_arith)
            requires
                0 <= j < rows * n,
                0 <= n,
                0 <= rows,
                k == j / n,
        ;
        assert(a.row(k)[j % n] == a.data@[j]);
        assert(b.row(k)[j % n] == b.data@[j]);
    }
    assert(a.data@ =~= b.data@);
}

/// Outliers have no part in the quality of a clustering: neither their numbers nor their
/// clusters nor the order in which they are listed change what it is measured on.
pub proof fn lemma_outliers_do_not_matter(
    x: Matrix,
    y: Matrix,
    clusters_x: Clusters,
    clusters_y: Clusters,
    outliers_x: Seq<usize>,
    outliers_y: Seq<usize>,
    input_x: ScoreInput,
    input_y: ScoreInput,
)
    requires
        x.n_rows == y.n_rows,
        x.n_cols == y.n_cols,
        disjoint(clusters_x),
        disjoint(clusters_y),
        forall|i: usize| #[trigger] outliers_x.contains(i) <==> outliers_y.contains(i),
        forall|i: usize|
            i < x.n_rows && !(#[trigger] outliers_x.contains(i)) ==> x.row(i as int) == y.row(i as int),
        forall|i: usize, id: usize|
            i < x.n_rows && !outliers_x.contains(i) ==> (#[trigger] holds(clusters_x, id, i as int)
                <==> holds(clusters_y, id, i as int)),
        is_score_input(x, clusters_x, outliers_x, input_x),
        is_score_input(y, clusters_y, outliers_y, input_y),
    ensures
        match (input_x, input_y) {
            (ScoreInput::Fixed(a), ScoreInput::Fixed(b)) => a == b,
            (
                ScoreInput::Measure { samples: a, labels: l },
                ScoreInput::Measure { samples: b, labels: m },
            ) => {
                &&& a.n_rows == b.n_rows
                &&& a.n_cols == b.n_cols
                &&& a.data@ == b.data@
                &&& l@ == m@
            },
            _ => false,
        },
{
    lemma_order_of_outliers_does_not_matter(x.n_rows as nat, outliers_x, outliers_y);
    lemma_clean_rows_are_no_outliers(x.n_rows as nat, outliers_x);
    let rows = clean_rows(x.n_rows as nat, outliers_x);
    match (input_x, input_y) {
        (
            ScoreInput::Measure { samples: a, labels: l },
            ScoreInput::Measure { samples: b, labels: m },
        ) => {
            assert forall|k: int| 0 <= k < a.n_rows implies #[trigger] a.row(k) == b.row(k) by {
                assert(!outliers_x.contains(rows[k]));
                assert(b.row(k) == y.row(rows[k] as int));
            }
            lemma_rows_determine_data(a, b);
            assert forall|k: int| 0 <= k < rows.len() implies l@[k] == m@[k] by {
                let i = rows[k];
                assert(i < x.n_rows && !outliers_x.contains(i));
                assert(is_label(clusters_x, i as int, l@[k]));
                assert(is_label(clusters_y, i as int, m@[k]));
                assert forall|id: usize| holds(clusters_x, id, i as int) <==> holds(
                    clusters_y,
                    id,
                    i as int,
                ) by {
                    assert(holds(clusters_x, id, i as int) <==> holds(clusters_y, id, i as int));
                }
            }
            assert(l@ =~= m@);
        },
        _ => {},
    }
}

/// The three measures that the score is blended from.
#[derive(Clone, Copy, PartialEq, Eq, Structural, Debug)]
pub struct Metrics {
    pub density_validity: Real32,
    pub silhouette: Real32,
    pub davies_bouldin: Real32,
}

/// The measures, with the worst value for each that could not be taken: minus one for the
/// first two, the largest finite number for the third, which is better the lower it is.
pub fn metrics_or_worst(
    density_validity: Option<Real32>,
    silhouette: Option<Real32>,
    davies_bouldin: Option<Real32>,
) -> (m: Metrics)
    ensures
        m.density_validity == (match density_validity {
            Some(v) => v,
            None => (Real32 { bits: MINUS_ONE_32 }),
        }),
        m.silhouette == (match silhouette {
            Some(v) => v,
            None => (Real32 { bits: MINUS_ONE_32 }),
        }),
        m.davies_bouldin == (match davies_bouldin {
            Some(v) => v,
            None => (Real32 { bits: MAX_32 }),
        }),
{
    Metrics {
        density_validity: match density_validity {
            Some(v) => v,
            None => Real32::from_bits(MINUS_ONE_32),
        },
        silhouette: match silhouette {
            Some(v) => v,
            None => Real32::from_bits(MINUS_ONE_32),
        },
        davies_bouldin: match davies_bouldin {
            Some(v) => v,
            None => Real32::from_bits(MAX_32),
        },
    }
}

/// What is measured are the samples that are no outliers, all of them, in their order, each
/// with the number of the cluster that holds it; the score is fixed only where every sample
/// is an outlier.
pub proof fn lemma_all_clean_samples_are_measured(
    x: Matrix,
    clusters: HashMap<usize, Vec<usize>>,
    outliers: Vec<usize>,
    input: ScoreInput,
    rows: Seq<usize>,
    k: int,
    id: usize,
)
    requires
        x.wf(),
        within(clusters@, x.n_rows as int),
        call_ensures(score_input, (&x, &clusters, &outliers), input),
        forall|a: int, b: int| 0 <= a < b < rows.len() ==> rows[a] < rows[b],
        forall|i: usize| #[trigger] rows.contains(i) <==> i < x.n_rows && !outliers@.contains(i),
        0 <= k < rows.len(),
        clusters@.contains_key(id),
        clusters@[id]@.contains(rows[k]),
        forall|other: usize| #[trigger]
            clusters@.contains_key(other) && clusters@[other]@.contains(rows[k]) ==> other == id,
    ensures
        input is Measure,
        input->samples.n_rows == rows.len(),
        input->samples.n_cols == x.n_cols,
        input->samples.row(k) == x.row(rows[k] as int),
        input->labels@.len() == rows.len(),
        input->labels@[k] == id,
{
    let clean = clean_rows(x.n_rows as nat, outliers@);
    assert forall|i: usize| #[trigger] clean.contains(i) <==> rows.contains(i) by {
        lemma_clean_rows_are_all_but_the_outliers(x.n_rows as nat, outliers@, i);
    }
    lemma_clean_rows_are_all_but_the_outliers(x.n_rows as nat, outliers@, 0);
    lemma_ascending_lists_agree(clean, rows);
    assert(rows[k] as int as usize == rows[k]);
    assert(holds(clusters@, id, rows[k] as int));
    assert(is_label(clusters@, clean[k] as int, input->labels@[k]));
    assert(holds(clusters@, input->labels@[k], rows[k] as int));
}

/// Two ascending lists of the same numbers are the same.
proof fn lemma_ascending_lists_agree(a: Seq<usize>, b: Seq<usize>)
    requires
        forall|i: int, j: int| 0 <= i < j < a.len() ==> a[i] < a[j],
        forall|i: int, j: int| 0 <= i < j < b.len() ==> b[i] < b[j],
        forall|x: usize| #[trigger] a.contains(x) <==> b.contains(x),
    ensures
        a == b,
    decreases a.len(),
{
    if a.len() == 0 {
        if b.len() > 0 {
            assert(b.contains(b[0]));
            assert(a.contains(b[0]));
        }
        assert(a =~= b);
    } else {
        assert(a.contains(a.last()));
        assert(b.contains(a.last()));
        assert(b.contains(b.last()));
        assert(a.contains(b.last()));
        let p = choose|p: int| 0 <= p < b.len() && b[p] == a.last();
        let q = choose|q: int| 0 <= q < a.len() && a[q] == b.last();
        assert(a.last() == b.last());
        let x = a.drop_last();
        let y = b.drop_last();
        assert forall|v: usize| #[trigger] x.contains(v) <==> y.contains(v) by {
            if x.contains(v) {
                let i = choose|i: int| 0 <= i < x.len() && x[i] == v;
                assert(a[i] == v && a.contains(v));
                let j = choose|j: int| 0 <= j < b.len() && b[j] == v;
                assert(j < b.len() - 1);
                assert(y[j] == v);
            }
            if y.contains(v) {
                let j = choose|j: int| 0 <= j < y.len() && y[j] == v;
                assert(b[j] == v && b.contains(v));
                assert(a.contains(v));
                let i = choose|i: int| 0 <= i < a.len() && a[i] == v;
                assert(i < a.len() - 1);
                assert(x[i] == v);
            }
        }
        lemma_ascending_lists_agree(x, y);
        assert(x.push(a.last()) =~= a);
        assert(y.push(b.last()) =~= b);
    }
}

/// Where nothing but outliers is left, the score is minus one.
pub proof fn lemma_outliers_alone_score_minus_one(
    x: Matrix,
    clusters: HashMap<usize, Vec<usize>>,
    outliers: Vec<usize>,
    input: ScoreInput,
)
    requires
        x.wf(),
        within(clusters@, x.n_rows as int),
        call_ensures(score_input, (&x, &clusters, &outliers), input),
    ensures
        input is Fixed <==> forall|i: usize| i < x.n_rows ==> #[trigger] outliers@.contains(i),
        input matches ScoreInput::Fixed(score) ==> score.bits == 0xbf80_0000,
{
    let clean = clean_rows(x.n_rows as nat, outliers@);
    lemma_clean_rows_are_no_outliers(x.n_rows as nat, outliers@);
    if input is Fixed {
        assert forall|i: usize| i < x.n_rows implies #[trigger] outliers@.contains(i) by {
            lemma_clean_rows_are_all_but_the_outliers(x.n_rows as nat, outliers@, i);
        }
    } else {
        assert(clean[0] < x.n_rows && !outliers@.contains(clean[0]));
    }
}

/// Measures that were taken are kept, and those that were not count as the worst.
pub proof fn lemma_failed_measures_count_as_the_worst(v: Real32, failed: Metrics, taken: Metrics)
    requires
        call_ensures(
            metrics_or_worst,
            (None::<Real32>, None::<Real32>, None::<Real32>),
            failed,
        ),
        call_ensures(metrics_or_worst, (Some(v), Some(v), Some(v)), taken),
    ensures
        failed.density_validity.bits == 0xbf80_0000,
        failed.silhouette.bits == 0xbf80_0000,
        failed.davies_bouldin.bits == 0x7f7f_ffff,
        taken.density_validity == v,
        taken.silhouette == v,
        taken.davies_bouldin == v,
{
}

} // verus!
