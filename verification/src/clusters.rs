//! From fingerprint records to the clusters that are reported.

use crate::dedup::{
    deduplicate, deduplicated, deduplicated_buckets_are_reportable, deduplicated_records_less,
};
use crate::fingerprint::Fingerprint;
use crate::index::{records, BucketView, SimilarityIndex};
use crate::matcher::{
    group_similar, grouped, grouped_records_the_matches, is_edge, only_failed_at,
};
use vstd::prelude::*;

verus! {

/// The clusters among `prints`: the index of their matches after the
/// claim pass.
pub open spec fn clusters_of(prints: Seq<Fingerprint>, tolerance: u32) -> Seq<BucketView> {
    deduplicated(grouped(prints, tolerance))
}

/// Compares all records with each other and returns the clusters of
/// similar ones, each path a member of at most one of them.
pub fn find_clusters(prints: &Vec<Fingerprint>, tolerance: u32) -> (clusters: SimilarityIndex)
    ensures
        clusters@ == clusters_of(prints@, tolerance),
        forall|anchor: Seq<char>, matched: Seq<char>| #[trigger]
            records(clusters@, anchor, matched) ==> is_edge(prints@, tolerance, anchor, matched),
        forall|k: int| 0 <= k < clusters@.len() ==> (#[trigger] clusters@[k]).members.len() >= 2,
        forall|i: int, j: int, path: Seq<char>|
            #![trigger clusters@[i].members.contains(path), clusters@[j].members.contains(path)]
            0 <= i < j < clusters@.len() ==> !(clusters@[i].members.contains(path)
                && clusters@[j].members.contains(path)),
{
    let index = group_similar(prints, tolerance);
    let clusters = deduplicate(&index);
    proof {
        assert forall|anchor: Seq<char>, matched: Seq<char>| #[trigger]
            records(clusters@, anchor, matched) implies is_edge(
            prints@,
            tolerance,
            anchor,
            matched,
        ) by {
            clusters_hold_matches(prints@, tolerance, anchor, matched);
        }
    }
    clusters
}

/// A member of a cluster is the path of a record matched to a record at
/// the cluster's anchor.
pub proof fn clusters_hold_matches(
    prints: Seq<Fingerprint>,
    tolerance: u32,
    anchor: Seq<char>,
    matched: Seq<char>,
)
    requires
        records(clusters_of(prints, tolerance), anchor, matched),
    ensures
        is_edge(prints, tolerance, anchor, matched),
{
    deduplicated_records_less(grouped(prints, tolerance), anchor, matched);
    grouped_records_the_matches(prints, tolerance, anchor, matched);
}

/// A path at which every record failed extraction is no anchor of a
/// cluster and no member of one.
pub proof fn failed_paths_are_in_no_cluster(prints: Seq<Fingerprint>, tolerance: u32, path: Seq<char>)
    requires
        only_failed_at(prints, path),
    ensures
        forall|k: int|
            0 <= k < clusters_of(prints, tolerance).len() ==> (#[trigger] clusters_of(
                prints,
                tolerance,
            )[k]).anchor != path && !clusters_of(prints, tolerance)[k].members.contains(path),
{
    let clusters = clusters_of(prints, tolerance);
    assert forall|k: int| 0 <= k < clusters.len() implies (#[trigger] clusters[k]).anchor != path
        && !clusters[k].members.contains(path) by {
        deduplicated_buckets_are_reportable(grouped(prints, tolerance));
        let first = clusters[k].members[0];
        if clusters[k].anchor == path {
            clusters_hold_matches(prints, tolerance, path, first);
        }
        if clusters[k].members.contains(path) {
            clusters_hold_matches(prints, tolerance, clusters[k].anchor, path);
        }
    }
}

} // verus!
