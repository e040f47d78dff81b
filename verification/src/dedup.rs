//! The claim pass over an index: every path stays a member of the first
//! bucket that holds it, and buckets left with fewer than two members go.

use crate::index::{
    buckets_of, distinct_anchors, paths_of, records, Bucket, BucketView, SimilarityIndex,
};
use vstd::hash_set::StringHashSet;
use vstd::prelude::*;

verus! {

/// Whether `path` is a member of one of the first `k` buckets.
pub open spec fn claimed_before(buckets: Seq<BucketView>, k: int, path: Seq<char>) -> bool {
    exists|j: int| 0 <= j < k && j < buckets.len() && (#[trigger] buckets[j]).members.contains(path)
}

/// The members of bucket `k` that no earlier bucket holds, in their order.
pub open spec fn kept_members(buckets: Seq<BucketView>, k: int) -> Seq<Seq<char>> {
    buckets[k].members.filter(|path: Seq<char>| !claimed_before(buckets, k, path))
}

/// The buckets after each has lost the members that an earlier one holds.
pub open spec fn claim_pass(buckets: Seq<BucketView>) -> Seq<BucketView> {
    Seq::new(
        buckets.len(),
        |k: int| BucketView { anchor: buckets[k].anchor, members: kept_members(buckets, k) },
    )
}

/// Whether a bucket has enough members to be reported.
pub open spec fn is_reportable(bucket: BucketView) -> bool {
    bucket.members.len() >= 2
}

/// The reportable buckets of the claim pass, in their order.
pub open spec fn deduplicated(buckets: Seq<BucketView>) -> Seq<BucketView> {
    claim_pass(buckets).filter(|bucket: BucketView| is_reportable(bucket))
}

/// The members of `bucket` that are not in `claimed`, in their order.
fn unclaimed(bucket: &Bucket, claimed: &StringHashSet, Ghost(all): Ghost<Seq<BucketView>>, Ghost(k): Ghost<
    int,
>) -> (members: Vec<String>)
    requires
        0 <= k < all.len(),
        all[k] == bucket@,
        forall|path: Seq<char>| claimed@.contains(path) <==> claimed_before(all, k, path),
    ensures
        paths_of(members@) == kept_members(all, k),
{
    let ghost free = |path: Seq<char>| !claimed_before(all, k, path);
    let ghost paths = paths_of(bucket.members@);
    let mut members: Vec<String> = Vec::new();
    let mut m: usize = 0;
    proof {
        paths.take(0).lemma_filter_len(free);
    }
    while m < bucket.members.len()
        invariant
            m <= bucket.members.len(),
            paths == paths_of(bucket.members@),
            free == |path: Seq<char>| !claimed_before(all, k, path),
            forall|path: Seq<char>| claimed@.contains(path) <==> claimed_before(all, k, path),
            paths_of(members@) == paths.take(m as int).filter(free),
        decreases bucket.members.len() - m,
    {
        let member = &bucket.members[m];
        proof {
            assert(paths.take(m + 1) =~= paths.take(m as int).push(member@));
            paths.take(m as int).lemma_filter_push(member@, free);
        }
        if !claimed.contains(member.as_str()) {
            members.push(member.clone());
        }
        m = m + 1;
    }
    proof {
        assert(paths.take(paths.len() as int) =~= paths);
    }
    members
}

/// Adds every path of `members` to `claimed`.
fn claim(claimed: &mut StringHashSet, members: &Vec<String>)
    ensures
        forall|path: Seq<char>|
            final(claimed)@.contains(path) <==> old(claimed)@.contains(path) || paths_of(
                members@,
            ).contains(path),
{
    let ghost paths = paths_of(members@);
    let mut m: usize = 0;
    while m < members.len()
        invariant
            m <= members.len(),
            paths == paths_of(members@),
            forall|path: Seq<char>|
                claimed@.contains(path) <==> old(claimed)@.contains(path) || paths.take(
                    m as int,
                ).contains(path),
        decreases members.len() - m,
    {
        claimed.insert(members[m].clone());
        proof {
            let taken = paths.take(m as int);
            let next = paths.take(m + 1);
            assert forall|path: Seq<char>|
                claimed@.contains(path) <==> old(claimed)@.contains(path) || next.contains(
                    path,
                ) by {
                if taken.contains(path) {
                    let i = choose|i: int| 0 <= i < taken.len() && taken[i] == path;
                    assert(next[i] == path);
                }
                if path == paths[m as int] {
                    assert(next[m as int] == path);
                }
            }
        }
        m = m + 1;
    }
    proof {
        assert(paths.take(paths.len() as int) =~= paths);
    }
}

/// Once the members that bucket `k` keeps are claimed, all of its members
/// are: those it lost were claimed before.
pub proof fn claiming_what_is_kept(buckets: Seq<BucketView>, k: int, path: Seq<char>)
    requires
        0 <= k < buckets.len(),
    ensures
        claimed_before(buckets, k + 1, path) <==> claimed_before(buckets, k, path) || kept_members(
            buckets,
            k,
        ).contains(path),
{
    let free = |p: Seq<char>| !claimed_before(buckets, k, p);
    let members = buckets[k].members;
    if kept_members(buckets, k).contains(path) {
        members.lemma_filter_contains_rev(free, path);
        assert(buckets[k].members.contains(path));
    }
    if claimed_before(buckets, k, path) {
        let j = choose|j: int|
            0 <= j < k && j < buckets.len() && (#[trigger] buckets[j]).members.contains(path);
        assert(buckets[j].members.contains(path));
    }
    if claimed_before(buckets, k + 1, path) && !claimed_before(buckets, k, path) {
        let j = choose|j: int|
            0 <= j < k + 1 && j < buckets.len() && (#[trigger] buckets[j]).members.contains(path);
        assert(j == k);
        let i = choose|i: int| 0 <= i < members.len() && members[i] == path;
        members.lemma_filter_contains(free, i);
    }
}

/// Removes from each bucket, in order, the paths that an earlier bucket
/// holds, and keeps the buckets that are left with at least two members.
pub fn deduplicate(index: &SimilarityIndex) -> (groups: SimilarityIndex)
    ensures
        groups@ == deduplicated(index@),
        forall|k: int| 0 <= k < groups@.len() ==> (#[trigger] groups@[k]).members.len() >= 2,
        forall|i: int, j: int, path: Seq<char>|
            #![trigger groups@[i].members.contains(path), groups@[j].members.contains(path)]
            0 <= i < j < groups@.len() ==> !(groups@[i].members.contains(path)
                && groups@[j].members.contains(path)),
{
    let buckets = index.buckets();
    let ghost all = index@;
    let ghost passed = claim_pass(all);
    let ghost reportable = |bucket: BucketView| is_reportable(bucket);
    let mut claimed = StringHashSet::new();
    let mut kept: Vec<Bucket> = Vec::new();
    let mut k: usize = 0;
    proof {
        passed.take(0).lemma_filter_len(reportable);
    }
    while k < buckets.len()
        invariant
            k <= buckets.len(),
            all == buckets_of(buckets@),
            passed == claim_pass(all),
            reportable == |bucket: BucketView| is_reportable(bucket),
            forall|path: Seq<char>| claimed@.contains(path) <==> claimed_before(all, k as int, path),
            buckets_of(kept@) == passed.take(k as int).filter(reportable),
        decreases buckets.len() - k,
    {
        let bucket = &buckets[k];
        let members = unclaimed(bucket, &claimed, Ghost(all), Ghost(k as int));
        claim(&mut claimed, &members);
        proof {
            assert forall|path: Seq<char>| claimed@.contains(path) <==> claimed_before(
                all,
                k + 1,
                path,
            ) by {
                claiming_what_is_kept(all, k as int, path);
            }
            assert(passed.take(k + 1) =~= passed.take(k as int).push(passed[k as int]));
            passed.take(k as int).lemma_filter_push(passed[k as int], reportable);
        }
        if members.len() >= 2 {
            let ghost before = kept@;
            kept.push(Bucket { anchor: bucket.anchor.clone(), members });
            proof {
                assert(buckets_of(kept@) =~= buckets_of(before).push(passed[k as int]));
            }
        }
        k = k + 1;
    }
    proof {
        assert(passed.take(passed.len() as int) =~= passed);
        deduplicated_anchors_are_distinct(all);
        deduplicated_buckets_are_reportable(all);
        deduplicated_members_have_one_bucket(all);
    }
    SimilarityIndex::from_distinct(kept)
}

/// What a filter keeps came from the sequence.
proof fn filtered_origin<A>(s: Seq<A>, pred: spec_fn(A) -> bool, i: int) -> (a: int)
    requires
        0 <= i < s.filter(pred).len(),
    ensures
        0 <= a < s.len(),
        s[a] == s.filter(pred)[i],
{
    let kept = s.filter(pred);
    s.lemma_filter_contains_rev(pred, kept[i]);
    choose|a: int| 0 <= a < s.len() && s[a] == kept[i]
}

/// A filter keeps the order of what it keeps.
proof fn filtered_origins<A>(s: Seq<A>, pred: spec_fn(A) -> bool, i: int, j: int) -> (places: (
    int,
    int,
))
    requires
        0 <= i < j < s.filter(pred).len(),
    ensures
        0 <= places.0 < places.1 < s.len(),
        s[places.0] == s.filter(pred)[i],
        s[places.1] == s.filter(pred)[j],
    decreases s.len(),
{
    reveal(Seq::filter);
    let rest = s.drop_last();
    if pred(s.last()) && j == rest.filter(pred).len() {
        let a = filtered_origin(rest, pred, i);
        (a, s.len() - 1)
    } else {
        filtered_origins(rest, pred, i, j)
    }
}

/// Every bucket that is left has at least two members.
pub proof fn deduplicated_buckets_are_reportable(buckets: Seq<BucketView>)
    ensures
        forall|k: int|
            0 <= k < deduplicated(buckets).len() ==> (#[trigger] deduplicated(
                buckets,
            )[k]).members.len() >= 2,
{
    let reportable = |bucket: BucketView| is_reportable(bucket);
    assert forall|k: int| 0 <= k < deduplicated(buckets).len() implies (#[trigger] deduplicated(
        buckets,
    )[k]).members.len() >= 2 by {
        claim_pass(buckets).lemma_filter_pred(reportable, k);
    }
}

/// No path is a member of two of the buckets that are left.
pub proof fn deduplicated_members_have_one_bucket(buckets: Seq<BucketView>)
    ensures
        forall|i: int, j: int, path: Seq<char>|
            #![trigger deduplicated(buckets)[i].members.contains(path), deduplicated(buckets)[j].members.contains(path)]
            0 <= i < j < deduplicated(buckets).len() ==> !(deduplicated(buckets)[i].members.contains(
                path,
            ) && deduplicated(buckets)[j].members.contains(path)),
{
    let reportable = |bucket: BucketView| is_reportable(bucket);
    let passed = claim_pass(buckets);
    let left = deduplicated(buckets);
    assert forall|i: int, j: int, path: Seq<char>|
        #![trigger left[i].members.contains(path), left[j].members.contains(path)]
        0 <= i < j < left.len() implies !(left[i].members.contains(path) && left[j].members.contains(
        path,
    )) by {
        if left[i].members.contains(path) && left[j].members.contains(path) {
            let (a, b) = filtered_origins(passed, reportable, i, j);
            let free_a = |p: Seq<char>| !claimed_before(buckets, a, p);
            let free_b = |p: Seq<char>| !claimed_before(buckets, b, p);
            buckets[a].members.lemma_filter_contains_rev(free_a, path);
            let m = choose|m: int|
                0 <= m < kept_members(buckets, b).len() && kept_members(buckets, b)[m] == path;
            buckets[b].members.lemma_filter_pred(free_b, m);
            assert(buckets[a].members.contains(path) && !claimed_before(buckets, b, path));
        }
    }
}

/// The first bucket that holds a path keeps it in the claim pass, and no
/// later bucket does.
pub proof fn first_bucket_keeps_a_path(buckets: Seq<BucketView>, k: int, path: Seq<char>)
    requires
        0 <= k < buckets.len(),
        buckets[k].members.contains(path),
        !claimed_before(buckets, k, path),
    ensures
        claim_pass(buckets)[k].members.contains(path),
        forall|j: int|
            k < j < buckets.len() ==> !(#[trigger] claim_pass(buckets)[j]).members.contains(path),
{
    let free = |p: Seq<char>| !claimed_before(buckets, k, p);
    let i = choose|i: int| 0 <= i < buckets[k].members.len() && buckets[k].members[i] == path;
    buckets[k].members.lemma_filter_contains(free, i);
    assert forall|j: int| k < j < buckets.len() implies !(#[trigger] claim_pass(
        buckets,
    )[j]).members.contains(path) by {
        let later = |p: Seq<char>| !claimed_before(buckets, j, p);
        let kept = kept_members(buckets, j);
        if kept.contains(path) {
            let m = choose|m: int| 0 <= m < kept.len() && kept[m] == path;
            buckets[j].members.lemma_filter_pred(later, m);
            assert(claimed_before(buckets, j, path));
        }
    }
}

/// Buckets with distinct anchors are left with distinct anchors.
pub proof fn deduplicated_anchors_are_distinct(buckets: Seq<BucketView>)
    requires
        distinct_anchors(buckets),
    ensures
        distinct_anchors(deduplicated(buckets)),
{
    let reportable = |bucket: BucketView| is_reportable(bucket);
    let left = deduplicated(buckets);
    assert forall|i: int, j: int| 0 <= i < j < left.len() implies (#[trigger] left[i]).anchor != (
    #[trigger] left[j]).anchor by {
        let (a, b) = filtered_origins(claim_pass(buckets), reportable, i, j);
        assert(buckets[a].anchor != buckets[b].anchor);
    }
}

/// What is left records only what the index recorded.
pub proof fn deduplicated_records_less(buckets: Seq<BucketView>, anchor: Seq<char>, matched: Seq<char>)
    requires
        records(deduplicated(buckets), anchor, matched),
    ensures
        records(buckets, anchor, matched),
{
    let reportable = |bucket: BucketView| is_reportable(bucket);
    let left = deduplicated(buckets);
    let k = choose|k: int|
        0 <= k < left.len() && (#[trigger] left[k]).anchor == anchor && left[k].members.contains(matched);
    let a = filtered_origin(claim_pass(buckets), reportable, k);
    let free = |p: Seq<char>| !claimed_before(buckets, a, p);
    buckets[a].members.lemma_filter_contains_rev(free, matched);
    assert(buckets[a].anchor == anchor && buckets[a].members.contains(matched));
}

} // verus!
