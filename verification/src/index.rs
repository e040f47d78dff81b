//! The similarity index: for each anchor path, the paths found similar to it.

use vstd::prelude::*;

verus! {

/// The content of one bucket: the anchor's path and, in the order in which
/// they were recorded, the paths matched to it.
pub struct BucketView {
    pub anchor: Seq<char>,
    pub members: Seq<Seq<char>>,
}

/// The paths that a sequence of strings stands for.
pub open spec fn paths_of(strings: Seq<String>) -> Seq<Seq<char>> {
    strings.map_values(|s: String| s@)
}

/// One anchor with the paths matched to it.
pub struct Bucket {
    pub anchor: String,
    pub members: Vec<String>,
}

impl View for Bucket {
    type V = BucketView;

    open spec fn view(&self) -> BucketView {
        BucketView { anchor: self.anchor@, members: paths_of(self.members@) }
    }
}

/// The contents of a sequence of buckets.
pub open spec fn buckets_of(buckets: Seq<Bucket>) -> Seq<BucketView> {
    buckets.map_values(|b: Bucket| b@)
}

/// Whether no two buckets share an anchor.
pub open spec fn distinct_anchors(buckets: Seq<BucketView>) -> bool {
    forall|i: int, j: int|
        0 <= i < j < buckets.len() ==> (#[trigger] buckets[i]).anchor != (#[trigger] buckets[j]).anchor
}

/// Whether some bucket is kept under `anchor`.
pub open spec fn has_anchor(buckets: Seq<BucketView>, anchor: Seq<char>) -> bool {
    exists|k: int| 0 <= k < buckets.len() && (#[trigger] buckets[k]).anchor == anchor
}

/// The place of the bucket kept under `anchor`, where there is one.
pub open spec fn place_of(buckets: Seq<BucketView>, anchor: Seq<char>) -> int {
    choose|k: int| 0 <= k < buckets.len() && (#[trigger] buckets[k]).anchor == anchor
}

/// The buckets after `paths` were recorded under `anchor`: appended to the
/// anchor's bucket where it has one, else in a new bucket at the end.
/// Recording no path changes nothing.
pub open spec fn extended(buckets: Seq<BucketView>, anchor: Seq<char>, paths: Seq<Seq<char>>) -> Seq<BucketView> {
    if paths.len() == 0 {
        buckets
    } else if has_anchor(buckets, anchor) {
        let k = place_of(buckets, anchor);
        buckets.update(k, BucketView { anchor, members: buckets[k].members + paths })
    } else {
        buckets.push(BucketView { anchor, members: paths })
    }
}

/// Whether `matched` is recorded under `anchor`.
pub open spec fn records(buckets: Seq<BucketView>, anchor: Seq<char>, matched: Seq<char>) -> bool {
    exists|k: int|
        0 <= k < buckets.len() && (#[trigger] buckets[k]).anchor == anchor && buckets[k].members.contains(
            matched,
        )
}

/// The buckets that a sequence of rows merges into: each row's paths are
/// recorded under its anchor, row after row.
pub open spec fn merged(rows: Seq<BucketView>) -> Seq<BucketView>
    decreases rows.len(),
{
    if rows.len() == 0 {
        Seq::empty()
    } else {
        extended(merged(rows.drop_last()), rows.last().anchor, rows.last().members)
    }
}

/// A mapping from anchor paths to the paths matched to them. Buckets stand
/// in the order in which their anchors were first recorded.
pub struct SimilarityIndex {
    buckets: Vec<Bucket>,
}

impl View for SimilarityIndex {
    type V = Seq<BucketView>;

    closed spec fn view(&self) -> Seq<BucketView> {
        buckets_of(self.buckets@)
    }
}

impl SimilarityIndex {
    #[verifier::type_invariant]
    spec fn anchors_differ(&self) -> bool {
        distinct_anchors(self@)
    }

    /// An index without buckets.
    pub fn new() -> (index: SimilarityIndex)
        ensures
            index@ == Seq::<BucketView>::empty(),
    {
        SimilarityIndex { buckets: Vec::new() }
    }

    /// The number of buckets.
    pub fn len(&self) -> (n: usize)
        ensures
            n == self@.len(),
    {
        self.buckets.len()
    }

    /// The buckets, in the order in which their anchors were first recorded.
    pub fn buckets(&self) -> (buckets: &Vec<Bucket>)
        ensures
            buckets_of(buckets@) == self@,
            distinct_anchors(self@),
    {
        proof {
            use_type_invariant(self);
        }
        &self.buckets
    }

    /// An index of the given buckets, which must not share an anchor.
    pub(crate) fn from_distinct(buckets: Vec<Bucket>) -> (index: SimilarityIndex)
        requires
            distinct_anchors(buckets_of(buckets@)),
        ensures
            index@ == buckets_of(buckets@),
    {
        SimilarityIndex { buckets }
    }

    /// The paths recorded under `anchor`, if it has a bucket.
    pub fn get(&self, anchor: &str) -> (members: Option<&Vec<String>>)
        ensures
            (members is Some) == has_anchor(self@, anchor@),
            members matches Some(found) ==> paths_of(found@) == self@[place_of(
                self@,
                anchor@,
            )].members,
    {
        proof {
            use_type_invariant(self);
        }
        match find_bucket(&self.buckets, anchor) {
            Some(k) => {
                proof {
                    assert(self@[k as int].anchor == anchor@);
                    assert(place_of(self@, anchor@) == k);
                }
                Some(&self.buckets[k].members)
            },
            None => {
                proof {
                    assert forall|k: int| 0 <= k < self@.len() implies (#[trigger] self@[k]).anchor
                        != anchor@ by {
                        assert(self.buckets[k].anchor@ != anchor@);
                    }
                }
                None
            },
        }
    }

    /// Records every path of `row` under the row's anchor.
    pub fn absorb(&mut self, row: Bucket)
        ensures
            final(self)@ == extended(old(self)@, row@.anchor, row@.members),
    {
        proof {
            use_type_invariant(&*self);
        }
        if row.members.len() == 0 {
            return ;
        }
        let mut row = row;
        let ghost anchor = row@.anchor;
        let ghost paths = row@.members;
        let mut buckets: Vec<Bucket> = Vec::new();
        std::mem::swap(&mut buckets, &mut self.buckets);
        let ghost before = buckets_of(buckets@);
        match find_bucket(&buckets, row.anchor.as_str()) {
            Some(k) => {
                let ghost members = buckets[k as int].members@;
                buckets[k].members.append(&mut row.members);
                proof {
                    assert(before[k as int].anchor == anchor);
                    assert(place_of(before, anchor) == k);
                    assert(paths_of(buckets[k as int].members@) =~= paths_of(members) + paths);
                    assert(buckets_of(buckets@) =~= extended(before, anchor, paths));
                }
            },
            None => {
                buckets.push(row);
                proof {
                    assert forall|k: int| 0 <= k < before.len() implies (#[trigger] before[k]).anchor
                        != anchor by {
                        assert(buckets[k].anchor@ != anchor);
                    }
                    assert(buckets_of(buckets@) =~= extended(before, anchor, paths));
                }
            },
        }
        self.buckets = buckets;
    }

    /// Merges rows into an index, row after row.
    pub fn from_rows(rows: Vec<Bucket>) -> (index: SimilarityIndex)
        ensures
            index@ == merged(buckets_of(rows@)),
    {
        let mut index = SimilarityIndex::new();
        let ghost all = buckets_of(rows@);
        proof {
            assert(all.take(0) =~= Seq::<BucketView>::empty());
        }
        for row in it: rows
            invariant
                buckets_of(it.seq()) == all,
                index@ == merged(all.take(it.index() as int)),
        {
            proof {
                let done = it.index() as int;
                assert(all[done] == row@);
                assert(all.take(done + 1).drop_last() =~= all.take(done));
            }
            index.absorb(row);
        }
        proof {
            assert(all.take(all.len() as int) =~= all);
        }
        index
    }

    /// Records `matched` under `anchor`: in the anchor's bucket, behind
    /// what it holds, or in a new bucket where the anchor has none.
    pub fn insert(&mut self, anchor: &str, matched: &str)
        ensures
            final(self)@ == extended(old(self)@, anchor@, seq![matched@]),
    {
        let mut members: Vec<String> = Vec::new();
        members.push(matched.to_owned());
        proof {
            assert(paths_of(members@) =~= seq![matched@]);
        }
        self.absorb(Bucket { anchor: anchor.to_owned(), members });
    }
}

/// Looks for the first bucket kept under `anchor`.
fn find_bucket(buckets: &Vec<Bucket>, anchor: &str) -> (place: Option<usize>)
    ensures
        match place {
            Some(k) => k < buckets.len() && buckets[k as int].anchor@ == anchor@ && forall|i: int|
                0 <= i < k ==> (#[trigger] buckets[i]).anchor@ != anchor@,
            None => forall|i: int| 0 <= i < buckets.len() ==> (#[trigger] buckets[i]).anchor@ != anchor@,
        },
{
    let wanted: String = anchor.to_owned();
    let mut k: usize = 0;
    while k < buckets.len()
        invariant
            k <= buckets.len(),
            wanted@ == anchor@,
            forall|i: int| 0 <= i < k ==> (#[trigger] buckets[i]).anchor@ != anchor@,
        decreases buckets.len() - k,
    {
        if buckets[k].anchor == wanted {
            return Some(k);
        }
        k = k + 1;
    }
    None
}

/// A path is in the concatenation of two sequences exactly when it is in
/// one of them.
proof fn concat_contains(front: Seq<Seq<char>>, back: Seq<Seq<char>>, path: Seq<char>)
    ensures
        (front + back).contains(path) <==> front.contains(path) || back.contains(path),
{
    let both = front + back;
    if front.contains(path) {
        let i = choose|i: int| 0 <= i < front.len() && front[i] == path;
        assert(both[i] == path);
    }
    if back.contains(path) {
        let i = choose|i: int| 0 <= i < back.len() && back[i] == path;
        assert(both[front.len() + i] == path);
    }
    if both.contains(path) {
        let i = choose|i: int| 0 <= i < both.len() && both[i] == path;
        if i < front.len() {
            assert(front[i] == path);
        } else {
            assert(back[i - front.len()] == path);
        }
    }
}

/// Recording paths under an anchor keeps the anchors distinct and leaves
/// no bucket empty that was not. Afterwards `y` is recorded under `x`
/// exactly when it was before, or is one of the paths and `x` the anchor.
pub proof fn extended_records(
    buckets: Seq<BucketView>,
    anchor: Seq<char>,
    paths: Seq<Seq<char>>,
    x: Seq<char>,
    y: Seq<char>,
)
    requires
        distinct_anchors(buckets),
    ensures
        distinct_anchors(extended(buckets, anchor, paths)),
        records(extended(buckets, anchor, paths), x, y) <==> records(buckets, x, y) || (x == anchor
            && paths.contains(y)),
        (forall|k: int| 0 <= k < buckets.len() ==> (#[trigger] buckets[k]).members.len() > 0)
            ==> forall|k: int|
            0 <= k < extended(buckets, anchor, paths).len() ==> (#[trigger] extended(
                buckets,
                anchor,
                paths,
            )[k]).members.len() > 0,
{
    let after = extended(buckets, anchor, paths);
    if paths.len() == 0 {
    } else if has_anchor(buckets, anchor) {
        let k = place_of(buckets, anchor);
        concat_contains(buckets[k].members, paths, y);
        assert forall|i: int, j: int| 0 <= i < j < after.len() implies (#[trigger] after[i]).anchor != (
        #[trigger] after[j]).anchor by {
            assert(after[i].anchor == buckets[i].anchor);
            assert(after[j].anchor == buckets[j].anchor);
        }
        if records(after, x, y) {
            let i = choose|i: int|
                0 <= i < after.len() && (#[trigger] after[i]).anchor == x && after[i].members.contains(y);
            if i != k {
                assert(buckets[i] == after[i]);
            } else if buckets[k].members.contains(y) {
                assert(buckets[k].anchor == x);
            }
        }
        if records(buckets, x, y) {
            let i = choose|i: int|
                0 <= i < buckets.len() && (#[trigger] buckets[i]).anchor == x
                    && buckets[i].members.contains(y);
            assert(after[i].anchor == x && after[i].members.contains(y));
        }
        if x == anchor && paths.contains(y) {
            assert(after[k].anchor == x && after[k].members.contains(y));
        }
    } else {
        let last = buckets.len() as int;
        assert forall|i: int, j: int| 0 <= i < j < after.len() implies (#[trigger] after[i]).anchor != (
        #[trigger] after[j]).anchor by {
            assert(after[i] == buckets[i]);
            if j < last {
                assert(after[j] == buckets[j]);
            }
        }
        if records(after, x, y) {
            let i = choose|i: int|
                0 <= i < after.len() && (#[trigger] after[i]).anchor == x && after[i].members.contains(y);
            if i < last {
                assert(buckets[i] == after[i]);
            }
        }
        if records(buckets, x, y) {
            let i = choose|i: int|
                0 <= i < buckets.len() && (#[trigger] buckets[i]).anchor == x
                    && buckets[i].members.contains(y);
            assert(after[i].anchor == x && after[i].members.contains(y));
        }
        if x == anchor && paths.contains(y) {
            assert(after[last].anchor == x && after[last].members.contains(y));
        }
    }
}

/// Recording one more path under an anchor comes to the same as recording
/// it together with the paths before it.
pub proof fn recording_one_more(
    buckets: Seq<BucketView>,
    anchor: Seq<char>,
    paths: Seq<Seq<char>>,
    path: Seq<char>,
)
    requires
        distinct_anchors(buckets),
    ensures
        extended(extended(buckets, anchor, paths), anchor, seq![path]) == extended(
            buckets,
            anchor,
            paths.push(path),
        ),
{
    let first = extended(buckets, anchor, paths);
    let both = extended(buckets, anchor, paths.push(path));
    extended_records(buckets, anchor, paths, anchor, path);
    if paths.len() == 0 {
        assert(paths.push(path) =~= seq![path]);
    } else if has_anchor(buckets, anchor) {
        let k = place_of(buckets, anchor);
        assert(first[k].anchor == anchor);
        assert(place_of(first, anchor) == k);
        assert(buckets[k].members + paths + seq![path] =~= buckets[k].members + paths.push(path));
        assert(extended(first, anchor, seq![path]) =~= both);
    } else {
        let last = buckets.len() as int;
        assert(first[last].anchor == anchor);
        assert(place_of(first, anchor) == last);
        assert(paths + seq![path] =~= paths.push(path));
        assert(extended(first, anchor, seq![path]) =~= both);
    }
}

/// Whether some row of `rows` has the anchor `anchor` and holds `matched`.
pub open spec fn some_row_holds(rows: Seq<BucketView>, anchor: Seq<char>, matched: Seq<char>) -> bool {
    exists|r: int|
        0 <= r < rows.len() && (#[trigger] rows[r]).anchor == anchor && rows[r].members.contains(matched)
}

/// Merged rows have distinct anchors and no empty bucket, and record `y`
/// under `x` exactly when some row of anchor `x` holds `y`.
pub proof fn merged_records(rows: Seq<BucketView>, x: Seq<char>, y: Seq<char>)
    ensures
        distinct_anchors(merged(rows)),
        forall|k: int| 0 <= k < merged(rows).len() ==> (#[trigger] merged(rows)[k]).members.len() > 0,
        records(merged(rows), x, y) <==> some_row_holds(rows, x, y),
    decreases rows.len(),
{
    if rows.len() > 0 {
        let rest = rows.drop_last();
        let last = rows.last();
        merged_records(rest, x, y);
        extended_records(merged(rest), last.anchor, last.members, x, y);
        if some_row_holds(rest, x, y) {
            let r = choose|r: int|
                0 <= r < rest.len() && (#[trigger] rest[r]).anchor == x && rest[r].members.contains(y);
            assert(rows[r] == rest[r]);
        }
        if x == last.anchor && last.members.contains(y) {
            assert(rows[rows.len() - 1] == last);
        }
        if some_row_holds(rows, x, y) {
            let r = choose|r: int|
                0 <= r < rows.len() && (#[trigger] rows[r]).anchor == x && rows[r].members.contains(y);
            if r < rest.len() {
                assert(rest[r] == rows[r]);
            }
        }
    }
}

/// Rows with distinct anchors merge into themselves, without the rows that
/// hold nothing.
pub proof fn merged_of_distinct_rows(rows: Seq<BucketView>)
    requires
        distinct_anchors(rows),
    ensures
        merged(rows) == rows.filter(|row: BucketView| row.members.len() > 0),
    decreases rows.len(),
{
    reveal(Seq::filter);
    let filled = |row: BucketView| row.members.len() > 0;
    if rows.len() > 0 {
        let rest = rows.drop_last();
        let last = rows.last();
        merged_of_distinct_rows(rest);
        if last.members.len() > 0 {
            let before = merged(rest);
            assert forall|k: int| 0 <= k < before.len() implies (#[trigger] before[k]).anchor
                != last.anchor by {
                assert(rest.filter(filled).contains(before[k]));
                rest.lemma_filter_contains_rev(filled, before[k]);
                let r = choose|r: int| 0 <= r < rest.len() && rest[r] == before[k];
                assert(rows[r].anchor != rows[rows.len() - 1].anchor);
            }
        }
    }
}

} // verus!
