//! What is printed of the clusters.

use vstd::prelude::*;

use crate::clustering::ranking::{comparable, first_smallest, is_first_smallest};
use crate::ieee::Real32;
use crate::text::{decimal, decimal_text};

verus! {

/// What is printed of a cluster: three texts for the heading, and the names.
pub struct ClusterReport {
    pub title: String,
    pub representative: String,
    pub count: String,
    pub names: Vec<String>,
}

/// The names at `indices`, in that order.
pub fn names_at(filenames: &Vec<String>, indices: &Vec<usize>) -> (names: Vec<String>)
    requires
        forall|k: int| 0 <= k < indices@.len() ==> #[trigger] indices@[k] < filenames@.len(),
    ensures
        names@.len() == indices@.len(),
        forall|k: int|
            0 <= k < indices@.len() ==> (#[trigger] names@[k])@ == filenames@[indices@[k] as int]@,
{
    let mut names: Vec<String> = Vec::new();
    let mut k: usize = 0;
    while k < indices.len()
        invariant
            k <= indices@.len(),
            forall|k: int| 0 <= k < indices@.len() ==> #[trigger] indices@[k] < filenames@.len(),
            names@.len() == k,
            forall|a: int|
                0 <= a < k ==> (#[trigger] names@[a])@ == filenames@[indices@[a] as int]@,
        decreases indices@.len() - k,
    {
        names.push(filenames[indices[k]].clone());
        k = k + 1;
    }
    names
}

/// The report on a cluster. Its representative is the first of the members that are
/// nearest to the centre; `distances` says how far each member is from it.
pub fn cluster_report(
    id: usize,
    members: &Vec<usize>,
    filenames: &Vec<String>,
    distances: &Vec<Real32>,
) -> (report: ClusterReport)
    requires
        members@.len() > 0,
        forall|k: int| 0 <= k < members@.len() ==> #[trigger] members@[k] < filenames@.len(),
        distances@.len() == members@.len(),
        comparable(distances@),
    ensures
        report.title@ == "Cluster "@ + decimal(id as nat),
        exists|m: int| #[trigger]
            is_first_smallest(distances@, m) && report.representative@ == "(representative: "@
                + filenames@[members@[m] as int]@ + ")"@,
        exists|m: int|
            #![trigger members@[m]]
            0 <= m < members@.len() && (forall|j: int|
                0 <= j < members@.len() ==> distances@[m].key() <= (#[trigger] distances@[j]).key())
                && (forall|j: int|
                0 <= j < m ==> distances@[m].key() < (#[trigger] distances@[j]).key())
                && report.representative@ == "(representative: "@ + filenames@[members@[m] as int]@
                + ")"@,
        report.count@ == "["@ + decimal(members@.len()) + " images]"@,
        report.names@.len() == members@.len(),
        forall|k: int|
            0 <= k < members@.len() ==> (#[trigger] report.names@[k])@
                == filenames@[members@[k] as int]@,
{
    let mut title = String::new();
    title.push_str("Cluster ");
    title.push_str(decimal_text(id).as_str());
    let m: usize = first_smallest(distances);
    let mut representative = String::new();
    representative.push_str("(representative: ");
    representative.push_str(filenames[members[m]].as_str());
    representative.push_str(")");
    assert(is_first_smallest(distances@, m as int));
    assert(representative@ =~= "(representative: "@ + filenames@[members@[m as int] as int]@ + ")"@);
    let mut count = String::new();
    count.push_str("[");
    count.push_str(decimal_text(members.len()).as_str());
    count.push_str(" images]");
    ClusterReport { title, representative, count, names: names_at(filenames, members) }
}

} // verus!
