//! The text of the report: one line for each bucket.

use crate::index::{buckets_of, paths_of, Bucket, BucketView, SimilarityIndex};
use vstd::prelude::*;
use vstd::string::StringExecFns;

verus! {

/// The members of a bucket, each behind a tab.
pub open spec fn tabbed(members: Seq<Seq<char>>) -> Seq<char>
    decreases members.len(),
{
    if members.len() == 0 {
        Seq::empty()
    } else {
        tabbed(members.drop_last()) + seq!['\t'] + members.last()
    }
}

/// The line of a bucket: its anchor, its members each behind a tab, and
/// a line feed.
pub open spec fn line_of(bucket: BucketView) -> Seq<char> {
    bucket.anchor + tabbed(bucket.members) + seq!['\n']
}

/// The lines of the buckets, one after the other.
pub open spec fn report_of(buckets: Seq<BucketView>) -> Seq<char>
    decreases buckets.len(),
{
    if buckets.len() == 0 {
        Seq::empty()
    } else {
        report_of(buckets.drop_last()) + line_of(buckets.last())
    }
}

/// Writes the line of one bucket.
pub fn report_line(bucket: &Bucket) -> (line: String)
    ensures
        line@ == line_of(bucket@),
{
    let ghost members = paths_of(bucket.members@);
    let mut line = bucket.anchor.clone();
    let mut m: usize = 0;
    proof {
        reveal_strlit("\t");
        reveal_strlit("\n");
    }
    while m < bucket.members.len()
        invariant
            m <= bucket.members.len(),
            members == paths_of(bucket.members@),
            "\t"@ == seq!['\t'],
            line@ == bucket@.anchor + tabbed(members.take(m as int)),
        decreases bucket.members.len() - m,
    {
        line.append("\t");
        line.append(bucket.members[m].as_str());
        proof {
            assert(members.take(m + 1).drop_last() =~= members.take(m as int));
        }
        m = m + 1;
    }
    line.append("\n");
    proof {
        assert(members.take(members.len() as int) =~= members);
    }
    line
}

/// Writes the report of an index: the line of each bucket, in the
/// buckets' order.
pub fn report(index: &SimilarityIndex) -> (text: String)
    ensures
        text@ == report_of(index@),
{
    let buckets = index.buckets();
    let ghost all = index@;
    let mut text = String::new();
    let mut k: usize = 0;
    while k < buckets.len()
        invariant
            k <= buckets.len(),
            all == buckets_of(buckets@),
            text@ == report_of(all.take(k as int)),
        decreases buckets.len() - k,
    {
        let line = report_line(&buckets[k]);
        text.append(line.as_str());
        proof {
            assert(all.take(k + 1).drop_last() =~= all.take(k as int));
        }
        k = k + 1;
    }
    proof {
        assert(all.take(all.len() as int) =~= all);
    }
    text
}

} // verus!
