use similar_images::clusters::find_clusters;
use similar_images::dedup::deduplicate;
use similar_images::fingerprint::Fingerprint;
use similar_images::index::{Bucket, SimilarityIndex};

fn record(path: &str, fill: u8) -> Fingerprint {
    Fingerprint { path: path.to_string(), fingerprint: [fill; 48], error: false }
}

fn failed(path: &str, fill: u8) -> Fingerprint {
    Fingerprint { path: path.to_string(), fingerprint: [fill; 48], error: true }
}

fn index_of(rows: &[(&str, &[&str])]) -> SimilarityIndex {
    SimilarityIndex::from_rows(
        rows.iter()
            .map(|(a, ms)| Bucket {
                anchor: a.to_string(),
                members: ms.iter().map(|m| m.to_string()).collect(),
            })
            .collect(),
    )
}

fn contents(index: &SimilarityIndex) -> Vec<(String, Vec<String>)> {
    index.buckets().iter().map(|b| (b.anchor.clone(), b.members.clone())).collect()
}

fn expected(rows: &[(&str, &[&str])]) -> Vec<(String, Vec<String>)> {
    rows.iter()
        .map(|(a, ms)| (a.to_string(), ms.iter().map(|m| m.to_string()).collect()))
        .collect()
}

#[test]
fn the_first_bucket_keeps_a_contested_path() {
    let index = index_of(&[("a", &["b", "c"]), ("b", &["a", "c"]), ("c", &["a", "b"])]);
    let groups = deduplicate(&index);
    assert_eq!(contents(&groups), expected(&[("a", &["b", "c"])]));
}

#[test]
fn three_mutually_similar_images_make_one_cluster() {
    let prints = vec![record("A", 10), record("B", 11), record("C", 12)];
    let clusters = find_clusters(&prints, 5);
    assert_eq!(contents(&clusters), expected(&[("A", &["B", "C"])]));
}

#[test]
fn a_file_that_failed_extraction_is_in_no_cluster() {
    let prints = vec![
        record("a", 10),
        failed("broken", 10),
        record("b", 11),
        record("c", 12),
    ];
    let clusters = find_clusters(&prints, 5);
    assert_eq!(contents(&clusters), expected(&[("a", &["b", "c"])]));
    for bucket in clusters.buckets() {
        assert_ne!(bucket.anchor, "broken");
        assert!(!bucket.members.contains(&"broken".to_string()));
    }
}

#[test]
fn only_a_failed_file_gives_no_cluster() {
    let clusters = find_clusters(&vec![failed("broken", 10)], 5);
    assert_eq!(clusters.len(), 0);
}

#[test]
fn a_bucket_with_one_member_is_dropped() {
    let index = index_of(&[("a", &["b"]), ("c", &["d", "e"])]);
    let groups = deduplicate(&index);
    assert_eq!(contents(&groups), expected(&[("c", &["d", "e"])]));
}

#[test]
fn a_bucket_left_with_one_member_is_dropped() {
    let index = index_of(&[("a", &["b", "c"]), ("d", &["c", "e"]), ("f", &["g", "h", "b"])]);
    let groups = deduplicate(&index);
    assert_eq!(contents(&groups), expected(&[("a", &["b", "c"]), ("f", &["g", "h"])]));
}

#[test]
fn a_dropped_bucket_still_claims_its_members() {
    // The second bucket keeps only "x" and is dropped; "x" stays claimed.
    let index = index_of(&[("a", &["b", "c"]), ("d", &["b", "x"]), ("e", &["x", "y", "z"])]);
    let groups = deduplicate(&index);
    assert_eq!(contents(&groups), expected(&[("a", &["b", "c"]), ("e", &["y", "z"])]));
}

#[test]
fn a_path_twice_in_its_first_bucket_stays_twice() {
    let index = index_of(&[("a", &["b", "b"]), ("c", &["b", "d", "e"])]);
    let groups = deduplicate(&index);
    assert_eq!(contents(&groups), expected(&[("a", &["b", "b"]), ("c", &["d", "e"])]));
}

#[test]
fn an_anchor_may_be_a_member_elsewhere() {
    let index = index_of(&[("a", &["b", "c"]), ("b", &["d", "e"])]);
    let groups = deduplicate(&index);
    assert_eq!(contents(&groups), expected(&[("a", &["b", "c"]), ("b", &["d", "e"])]));
}

#[test]
fn no_path_is_a_member_of_two_clusters() {
    let mut prints = Vec::new();
    for i in 0..12u8 {
        prints.push(record(&format!("img{}", i), i * 3));
    }
    let clusters = find_clusters(&prints, 5);
    let buckets = clusters.buckets();
    assert!(!buckets.is_empty());
    for (i, first) in buckets.iter().enumerate() {
        assert!(first.members.len() >= 2);
        for second in buckets.iter().skip(i + 1) {
            for member in &first.members {
                assert!(!second.members.contains(member));
            }
        }
    }
}

#[test]
fn an_empty_index_stays_empty() {
    let groups = deduplicate(&SimilarityIndex::new());
    assert_eq!(groups.len(), 0);
}

#[test]
fn two_similar_images_alone_make_no_cluster() {
    // Each bucket holds one member, which is fewer than two.
    let prints = vec![record("a", 10), record("b", 10)];
    let clusters = find_clusters(&prints, 5);
    assert_eq!(clusters.len(), 0);
}
