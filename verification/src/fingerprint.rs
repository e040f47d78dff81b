//! A fingerprint record and the distance between two of them.

use vstd::prelude::*;

verus! {

/// The number of positions in a feature vector.
pub const VECTOR_LEN: usize = 48;

/// What the extractor knows of one file: where it lies, the feature vector
/// of its image, and whether extraction failed.
pub struct Fingerprint {
    /// The path of the file, by which the record is known.
    pub path: String,
    /// The feature vector; it means nothing where `error` is set.
    pub fingerprint: [u8; VECTOR_LEN],
    /// Whether extraction failed.
    pub error: bool,
}

/// The absolute difference of two byte values.
pub open spec fn gap(a: u8, b: u8) -> nat {
    if a >= b {
        (a - b) as nat
    } else {
        (b - a) as nat
    }
}

/// The sum of the gaps over the first `n` positions of two vectors.
pub open spec fn distance_upto(a: Seq<u8>, b: Seq<u8>, n: nat) -> nat
    decreases n,
{
    if n == 0 {
        0
    } else {
        distance_upto(a, b, (n - 1) as nat) + gap(a[n - 1], b[n - 1])
    }
}

/// The largest distance below which two vectors count as similar.
pub open spec fn cutoff(tolerance: u32) -> nat {
    VECTOR_LEN as nat * (tolerance as nat)
}

impl PartialEq for Fingerprint {
    /// Two records are the same record when they have the same path,
    /// whatever their vectors hold.
    fn eq(&self, other: &Fingerprint) -> (same: bool) {
        self.path == other.path
    }
}

impl vstd::std_specs::cmp::PartialEqSpecImpl for Fingerprint {
    open spec fn obeys_eq_spec() -> bool {
        true
    }

    open spec fn eq_spec(&self, other: &Fingerprint) -> bool {
        self.path@ == other.path@
    }
}

impl Fingerprint {
    /// The L1 distance between the feature vectors of two records.
    pub open spec fn distance(&self, o: &Fingerprint) -> nat {
        distance_upto(self.fingerprint@, o.fingerprint@, VECTOR_LEN as nat)
    }

    /// Whether two records lie closer than the cutoff of `tolerance`.
    pub open spec fn similar_to(&self, o: &Fingerprint, tolerance: u32) -> bool {
        self.distance(o) < cutoff(tolerance)
    }

    /// Builds the record of the file at `filename` from what the extractor
    /// reported for it: the vector it wrote and its status, which is
    /// negative where extraction failed.
    pub fn load(filename: &str, buffer: [u8; VECTOR_LEN], result: i32) -> (record: Fingerprint)
        ensures
            record.path@ == filename@,
            record.fingerprint == buffer,
            record.error == (result < 0),
    {
        Fingerprint { path: filename.to_owned(), fingerprint: buffer, error: result < 0 }
    }

    /// Sums the absolute differences of the two feature vectors.
    pub fn difference(&self, o: &Fingerprint) -> (total: u32)
        ensures
            total == self.distance(o),
    {
        let mut total: u32 = 0;
        let mut i: usize = 0;
        while i < VECTOR_LEN
            invariant
                i <= VECTOR_LEN,
                total == distance_upto(self.fingerprint@, o.fingerprint@, i as nat),
                total <= 255 * i,
            decreases VECTOR_LEN - i,
        {
            let v1: i32 = self.fingerprint[i] as i32;
            let v2: i32 = o.fingerprint[i] as i32;
            let signed: i32 = v1 - v2;
            let step: i32 = if signed < 0 {
                -signed
            } else {
                signed
            };
            total = total + step as u32;
            i = i + 1;
        }
        total
    }

    /// Tells whether the distance to `o` is below the cutoff of `tolerance`.
    pub fn is_similar(&self, o: &Fingerprint, tolerance: u32) -> (similar: bool)
        ensures
            similar == self.similar_to(o, tolerance),
    {
        let limit: u64 = VECTOR_LEN as u64 * (tolerance as u64);
        (self.difference(o) as u64) < limit
    }
}

/// The records among the outcomes of loading, in their order: a file whose
/// path could not be read has none.
pub open spec fn loaded_of(outcomes: Seq<Option<Fingerprint>>) -> Seq<Fingerprint> {
    outcomes.filter(|o: Option<Fingerprint>| o is Some).map_values(|o: Option<Fingerprint>| o->0)
}

/// Collects the records of the files that were loaded and passes over
/// the files that were not.
pub fn loaded(outcomes: Vec<Option<Fingerprint>>) -> (records: Vec<Fingerprint>)
    ensures
        records@ == loaded_of(outcomes@),
{
    let ghost present = |o: Option<Fingerprint>| o is Some;
    let ghost record = |o: Option<Fingerprint>| o->0;
    let ghost all = outcomes@;
    let mut records: Vec<Fingerprint> = Vec::new();
    proof {
        all.take(0).lemma_filter_len(present);
    }
    for outcome in it: outcomes
        invariant
            it.seq() == all,
            present == |o: Option<Fingerprint>| o is Some,
            record == |o: Option<Fingerprint>| o->0,
            records@ == all.take(it.index() as int).filter(present).map_values(record),
    {
        proof {
            let done = all.take(it.index() as int);
            assert(all.take(it.index() + 1) =~= done.push(outcome));
            done.lemma_filter_push(outcome, present);
        }
        match outcome {
            Some(found) => {
                records.push(found);
            },
            None => {},
        }
    }
    proof {
        assert(all.take(all.len() as int) =~= all);
    }
    records
}

/// Two vectors that agree on their first `n` positions are at distance 0
/// over them.
pub proof fn equal_prefixes_are_at_distance_zero(a: Seq<u8>, b: Seq<u8>, n: nat)
    requires
        forall|i: int| 0 <= i < n ==> a[i] == b[i],
    ensures
        distance_upto(a, b, n) == 0,
    decreases n,
{
    if n > 0 {
        equal_prefixes_are_at_distance_zero(a, b, (n - 1) as nat);
    }
}

/// The distance over the first `n` positions does not depend on the order
/// of the two vectors.
pub proof fn distance_upto_is_symmetric(a: Seq<u8>, b: Seq<u8>, n: nat)
    ensures
        distance_upto(a, b, n) == distance_upto(b, a, n),
    decreases n,
{
    if n > 0 {
        distance_upto_is_symmetric(a, b, (n - 1) as nat);
    }
}

/// The distance over the first `n` positions is at most 255 for each of
/// them.
pub proof fn distance_upto_is_bounded(a: Seq<u8>, b: Seq<u8>, n: nat)
    ensures
        distance_upto(a, b, n) <= 255 * n,
    decreases n,
{
    if n > 0 {
        distance_upto_is_bounded(a, b, (n - 1) as nat);
    }
}

/// Records with identical vectors are at distance 0, and similar under
/// every tolerance above 0.
pub proof fn identical_vectors_are_similar(a: Fingerprint, b: Fingerprint, tolerance: u32)
    requires
        a.fingerprint@ == b.fingerprint@,
    ensures
        a.distance(&b) == 0,
        tolerance > 0 ==> a.similar_to(&b, tolerance),
{
    equal_prefixes_are_at_distance_zero(a.fingerprint@, b.fingerprint@, VECTOR_LEN as nat);
}

/// The distance from `a` to `b` is the distance from `b` to `a`.
pub proof fn distance_is_symmetric(a: Fingerprint, b: Fingerprint)
    ensures
        a.distance(&b) == b.distance(&a),
{
    distance_upto_is_symmetric(a.fingerprint@, b.fingerprint@, VECTOR_LEN as nat);
}

/// Similarity does not depend on which of the two records is the anchor.
pub proof fn similarity_is_symmetric(a: Fingerprint, b: Fingerprint, tolerance: u32)
    ensures
        a.similar_to(&b, tolerance) == b.similar_to(&a, tolerance),
{
    distance_is_symmetric(a, b);
}

/// A record is at distance 0 from itself.
pub proof fn distance_to_self_is_zero(a: Fingerprint)
    ensures
        a.distance(&a) == 0,
{
    equal_prefixes_are_at_distance_zero(a.fingerprint@, a.fingerprint@, VECTOR_LEN as nat);
}

/// No two records are further apart than 255 in each position.
pub proof fn distance_is_bounded(a: Fingerprint, b: Fingerprint)
    ensures
        a.distance(&b) <= 255 * VECTOR_LEN as nat,
{
    distance_upto_is_bounded(a.fingerprint@, b.fingerprint@, VECTOR_LEN as nat);
}

} // verus!
