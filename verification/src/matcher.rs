//! The pairwise comparison of fingerprint records, and the index of the
//! matches it finds.

use crate::fingerprint::{similarity_is_symmetric, Fingerprint};
use crate::index::{
    buckets_of, distinct_anchors, merged, merged_of_distinct_rows, merged_records, paths_of, records, some_row_holds, Bucket, BucketView,
    SimilarityIndex,
};
use vstd::prelude::*;

verus! {

/// Whether `candidate` is matched to `anchor` under `tolerance`: both were
/// extracted, they lie at different paths, and they are similar.
pub open spec fn is_match(anchor: Fingerprint, candidate: Fingerprint, tolerance: u32) -> bool {
    &&& !anchor.error
    &&& !candidate.error
    &&& anchor.path@ != candidate.path@
    &&& anchor.similar_to(&candidate, tolerance)
}

/// The paths of the candidates matched to `anchor`, in the candidates'
/// order.
pub open spec fn matches_of(anchor: Fingerprint, candidates: Seq<Fingerprint>, tolerance: u32) -> Seq<
    Seq<char>,
> {
    candidates.filter(|c: Fingerprint| is_match(anchor, c, tolerance)).map_values(
        |c: Fingerprint| c.path@,
    )
}

/// The row of `anchor`: its path with the paths matched to it.
pub open spec fn row_of(anchor: Fingerprint, candidates: Seq<Fingerprint>, tolerance: u32) -> BucketView {
    BucketView { anchor: anchor.path@, members: matches_of(anchor, candidates, tolerance) }
}

/// One row for each record, taken as anchor against all the records.
pub open spec fn rows_of(prints: Seq<Fingerprint>, tolerance: u32) -> Seq<BucketView> {
    Seq::new(prints.len(), |i: int| row_of(prints[i], prints, tolerance))
}

/// The index of all matches among `prints`.
pub open spec fn grouped(prints: Seq<Fingerprint>, tolerance: u32) -> Seq<BucketView> {
    merged(rows_of(prints, tolerance))
}

/// Whether some record at `anchor` is matched to some record at `matched`.
pub open spec fn is_edge(
    prints: Seq<Fingerprint>,
    tolerance: u32,
    anchor: Seq<char>,
    matched: Seq<char>,
) -> bool {
    exists|i: int, j: int|
        0 <= i < prints.len() && 0 <= j < prints.len() && #[trigger] is_match(
            prints[i],
            prints[j],
            tolerance,
        ) && prints[i].path@ == anchor && prints[j].path@ == matched
}

/// Whether every record that lies at `path` failed extraction.
pub open spec fn only_failed_at(prints: Seq<Fingerprint>, path: Seq<char>) -> bool {
    forall|i: int| 0 <= i < prints.len() && (#[trigger] prints[i]).path@ == path ==> prints[i].error
}

/// Whether no two records lie at the same path.
pub open spec fn distinct_paths(prints: Seq<Fingerprint>) -> bool {
    forall|i: int, j: int|
        0 <= i < j < prints.len() ==> (#[trigger] prints[i]).path@ != (#[trigger] prints[j]).path@
}

/// Tells whether `candidate` is matched to `anchor` under `tolerance`.
pub fn is_matched(anchor: &Fingerprint, candidate: &Fingerprint, tolerance: u32) -> (matched: bool)
    ensures
        matched == is_match(*anchor, *candidate, tolerance),
{
    !anchor.error && !candidate.error && !(anchor.path == candidate.path) && anchor.is_similar(
        candidate,
        tolerance,
    )
}

/// Compares `anchor` with every candidate and collects the paths of those
/// matched to it.
pub fn matches_for(anchor: &Fingerprint, candidates: &Vec<Fingerprint>, tolerance: u32) -> (row: Bucket)
    ensures
        row@ == row_of(*anchor, candidates@, tolerance),
{
    let ghost pred = |c: Fingerprint| is_match(*anchor, c, tolerance);
    let ghost path = |c: Fingerprint| c.path@;
    let mut members: Vec<String> = Vec::new();
    let mut j: usize = 0;
    while j < candidates.len()
        invariant
            j <= candidates.len(),
            pred == |c: Fingerprint| is_match(*anchor, c, tolerance),
            path == |c: Fingerprint| c.path@,
            paths_of(members@) == candidates@.take(j as int).filter(pred).map_values(path),
        decreases candidates.len() - j,
    {
        let candidate = &candidates[j];
        proof {
            let before = candidates@.take(j as int);
            assert(candidates@.take(j + 1) =~= before.push(*candidate));
            before.lemma_filter_push(*candidate, pred);
            if pred(*candidate) {
                assert(before.push(*candidate).filter(pred).map_values(path) =~= before.filter(
                    pred,
                ).map_values(path).push(candidate.path@));
            }
        }
        if is_matched(anchor, candidate, tolerance) {
            members.push(candidate.path.clone());
        }
        j = j + 1;
    }
    proof {
        assert(candidates@.take(candidates.len() as int) =~= candidates@);
    }
    Bucket { anchor: anchor.path.clone(), members }
}

/// Compares every record with every other and indexes the matches by
/// their anchors, in the records' order.
pub fn group_similar(prints: &Vec<Fingerprint>, tolerance: u32) -> (index: SimilarityIndex)
    ensures
        index@ == grouped(prints@, tolerance),
        forall|anchor: Seq<char>, matched: Seq<char>| #[trigger]
            records(index@, anchor, matched) <==> is_edge(prints@, tolerance, anchor, matched),
{
    let mut rows: Vec<Bucket> = Vec::new();
    let mut i: usize = 0;
    while i < prints.len()
        invariant
            i <= prints.len(),
            rows@.len() == i,
            forall|k: int| 0 <= k < i ==> (#[trigger] rows[k])@ == row_of(prints[k], prints@, tolerance),
        decreases prints.len() - i,
    {
        let row = matches_for(&prints[i], prints, tolerance);
        rows.push(row);
        i = i + 1;
    }
    proof {
        assert(buckets_of(rows@) =~= rows_of(prints@, tolerance));
        assert forall|anchor: Seq<char>, matched: Seq<char>| #[trigger]
            records(grouped(prints@, tolerance), anchor, matched) <==> is_edge(
                prints@,
                tolerance,
                anchor,
                matched,
            ) by {
            grouped_records_the_matches(prints@, tolerance, anchor, matched);
        }
    }
    SimilarityIndex::from_rows(rows)
}

/// Whether a record is matched to another does not depend on which of
/// them is the anchor.
pub proof fn matching_is_symmetric(a: Fingerprint, b: Fingerprint, tolerance: u32)
    ensures
        is_match(a, b, tolerance) == is_match(b, a, tolerance),
{
    similarity_is_symmetric(a, b, tolerance);
}

/// The paths matched to an anchor are those of the candidates that match
/// it.
pub proof fn matches_of_holds(
    anchor: Fingerprint,
    candidates: Seq<Fingerprint>,
    tolerance: u32,
    path: Seq<char>,
)
    ensures
        matches_of(anchor, candidates, tolerance).contains(path) <==> exists|j: int|
            0 <= j < candidates.len() && #[trigger] is_match(anchor, candidates[j], tolerance)
                && candidates[j].path@ == path,
{
    let pred = |c: Fingerprint| is_match(anchor, c, tolerance);
    let filtered = candidates.filter(pred);
    let found = matches_of(anchor, candidates, tolerance);
    if found.contains(path) {
        let i = choose|i: int| 0 <= i < found.len() && found[i] == path;
        candidates.lemma_filter_pred(pred, i);
        candidates.lemma_filter_contains_rev(pred, filtered[i]);
        let j = choose|j: int| 0 <= j < candidates.len() && candidates[j] == filtered[i];
        assert(is_match(anchor, candidates[j], tolerance) && candidates[j].path@ == path);
    }
    if exists|j: int|
        0 <= j < candidates.len() && #[trigger] is_match(anchor, candidates[j], tolerance)
            && candidates[j].path@ == path {
        let j = choose|j: int|
            0 <= j < candidates.len() && #[trigger] is_match(anchor, candidates[j], tolerance)
                && candidates[j].path@ == path;
        candidates.lemma_filter_contains(pred, j);
        let i = choose|i: int| 0 <= i < filtered.len() && filtered[i] == candidates[j];
        assert(found[i] == path);
    }
}

/// The index records `matched` under `anchor` exactly when a record at
/// `anchor` is matched to a record at `matched`. So no record that failed
/// extraction stands behind an anchor or a member, and nothing is matched
/// to itself.
pub proof fn grouped_records_the_matches(
    prints: Seq<Fingerprint>,
    tolerance: u32,
    anchor: Seq<char>,
    matched: Seq<char>,
)
    ensures
        records(grouped(prints, tolerance), anchor, matched) <==> is_edge(
            prints,
            tolerance,
            anchor,
            matched,
        ),
{
    let rows = rows_of(prints, tolerance);
    merged_records(rows, anchor, matched);
    if some_row_holds(rows, anchor, matched) {
        let r = choose|r: int|
            0 <= r < rows.len() && (#[trigger] rows[r]).anchor == anchor && rows[r].members.contains(
                matched,
            );
        matches_of_holds(prints[r], prints, tolerance, matched);
        let j = choose|j: int|
            0 <= j < prints.len() && #[trigger] is_match(prints[r], prints[j], tolerance)
                && prints[j].path@ == matched;
        assert(is_match(prints[r], prints[j], tolerance) && prints[r].path@ == anchor);
    }
    if is_edge(prints, tolerance, anchor, matched) {
        let (i, j) = choose|i: int, j: int|
            0 <= i < prints.len() && 0 <= j < prints.len() && #[trigger] is_match(
                prints[i],
                prints[j],
                tolerance,
            ) && prints[i].path@ == anchor && prints[j].path@ == matched;
        matches_of_holds(prints[i], prints, tolerance, matched);
        assert(rows[i].anchor == anchor && rows[i].members.contains(matched));
    }
}

/// Where the index records one path under another, it records the other
/// under the one.
pub proof fn grouped_is_symmetric(
    prints: Seq<Fingerprint>,
    tolerance: u32,
    anchor: Seq<char>,
    matched: Seq<char>,
)
    ensures
        records(grouped(prints, tolerance), anchor, matched) == records(
            grouped(prints, tolerance),
            matched,
            anchor,
        ),
{
    grouped_records_the_matches(prints, tolerance, anchor, matched);
    grouped_records_the_matches(prints, tolerance, matched, anchor);
    if is_edge(prints, tolerance, anchor, matched) {
        let (i, j) = choose|i: int, j: int|
            0 <= i < prints.len() && 0 <= j < prints.len() && #[trigger] is_match(
                prints[i],
                prints[j],
                tolerance,
            ) && prints[i].path@ == anchor && prints[j].path@ == matched;
        matching_is_symmetric(prints[i], prints[j], tolerance);
        assert(is_match(prints[j], prints[i], tolerance));
    }
    if is_edge(prints, tolerance, matched, anchor) {
        let (i, j) = choose|i: int, j: int|
            0 <= i < prints.len() && 0 <= j < prints.len() && #[trigger] is_match(
                prints[i],
                prints[j],
                tolerance,
            ) && prints[i].path@ == matched && prints[j].path@ == anchor;
        matching_is_symmetric(prints[i], prints[j], tolerance);
        assert(is_match(prints[j], prints[i], tolerance));
    }
}

/// A path at which every record failed extraction is no anchor of the
/// index and no member of any of its buckets.
pub proof fn failed_paths_are_not_grouped(prints: Seq<Fingerprint>, tolerance: u32, path: Seq<char>)
    requires
        only_failed_at(prints, path),
    ensures
        forall|k: int|
            0 <= k < grouped(prints, tolerance).len() ==> (#[trigger] grouped(
                prints,
                tolerance,
            )[k]).anchor != path && !grouped(prints, tolerance)[k].members.contains(path),
{
    let index = grouped(prints, tolerance);
    assert forall|k: int| 0 <= k < index.len() implies (#[trigger] index[k]).anchor != path
        && !index[k].members.contains(path) by {
        merged_records(rows_of(prints, tolerance), path, path);
        let first = index[k].members[0];
        if index[k].anchor == path {
            grouped_records_the_matches(prints, tolerance, path, first);
        }
        if index[k].members.contains(path) {
            grouped_records_the_matches(prints, tolerance, index[k].anchor, path);
        }
    }
}

/// The anchors of the index are distinct, each has at least one member,
/// and none is a member of its own bucket.
pub proof fn grouped_is_a_mapping(prints: Seq<Fingerprint>, tolerance: u32)
    ensures
        distinct_anchors(grouped(prints, tolerance)),
        forall|k: int|
            0 <= k < grouped(prints, tolerance).len() ==> (#[trigger] grouped(
                prints,
                tolerance,
            )[k]).members.len() > 0 && !grouped(prints, tolerance)[k].members.contains(
                grouped(prints, tolerance)[k].anchor,
            ),
{
    let index = grouped(prints, tolerance);
    merged_records(rows_of(prints, tolerance), Seq::empty(), Seq::empty());
    assert forall|k: int| 0 <= k < index.len() implies !(#[trigger] index[k]).members.contains(
        index[k].anchor,
    ) by {
        grouped_records_the_matches(prints, tolerance, index[k].anchor, index[k].anchor);
    }
}

/// Where no two records lie at the same path, the index holds the row of
/// each record that has a match, in the records' order.
pub proof fn grouped_of_distinct_paths(prints: Seq<Fingerprint>, tolerance: u32)
    requires
        distinct_paths(prints),
    ensures
        grouped(prints, tolerance) == rows_of(prints, tolerance).filter(
            |row: BucketView| row.members.len() > 0,
        ),
{
    let rows = rows_of(prints, tolerance);
    assert forall|i: int, j: int| 0 <= i < j < rows.len() implies (#[trigger] rows[i]).anchor != (
    #[trigger] rows[j]).anchor by {
        assert(prints[i].path@ != prints[j].path@);
    }
    merged_of_distinct_rows(rows);
}

} // verus!
