use similar_images::fingerprint::Fingerprint;
use similar_images::index::SimilarityIndex;
use similar_images::matcher::{group_similar, is_matched, matches_for};

fn record(path: &str, fill: u8) -> Fingerprint {
    Fingerprint { path: path.to_string(), fingerprint: [fill; 48], error: false }
}

fn failed(path: &str, fill: u8) -> Fingerprint {
    Fingerprint { path: path.to_string(), fingerprint: [fill; 48], error: true }
}

fn contents(index: &SimilarityIndex) -> Vec<(String, Vec<String>)> {
    index.buckets().iter().map(|b| (b.anchor.clone(), b.members.clone())).collect()
}

fn expected(rows: &[(&str, &[&str])]) -> Vec<(String, Vec<String>)> {
    rows.iter()
        .map(|(a, ms)| (a.to_string(), ms.iter().map(|m| m.to_string()).collect()))
        .collect()
}

#[test]
fn close_records_at_different_paths_match() {
    assert!(is_matched(&record("a", 10), &record("b", 11), 5));
    assert!(is_matched(&record("b", 11), &record("a", 10), 5));
}

#[test]
fn distant_records_do_not_match() {
    assert!(!is_matched(&record("a", 0), &record("b", 255), 5));
    // Five in every position is the cutoff itself.
    assert!(!is_matched(&record("a", 0), &record("b", 5), 5));
    assert!(is_matched(&record("a", 0), &record("b", 4), 5));
}

#[test]
fn a_failed_record_matches_in_neither_role() {
    assert!(!is_matched(&failed("a", 10), &record("b", 10), 5));
    assert!(!is_matched(&record("a", 10), &failed("b", 10), 5));
    assert!(!is_matched(&failed("a", 10), &failed("b", 10), 5));
}

#[test]
fn a_record_does_not_match_its_own_path() {
    let a = record("a", 10);
    assert!(!is_matched(&a, &a, 5));
    assert!(!is_matched(&a, &record("a", 11), 5));
}

#[test]
fn matches_for_collects_the_matched_paths_in_order() {
    let prints = vec![
        record("a", 10),
        record("b", 11),
        record("far", 200),
        failed("broken", 10),
        record("c", 12),
    ];
    let row = matches_for(&prints[0], &prints, 5);
    assert_eq!(row.anchor, "a");
    assert_eq!(row.members, vec!["b".to_string(), "c".to_string()]);
    let far = matches_for(&prints[2], &prints, 5);
    assert_eq!(far.anchor, "far");
    assert!(far.members.is_empty());
    let broken = matches_for(&prints[3], &prints, 5);
    assert_eq!(broken.anchor, "broken");
    assert!(broken.members.is_empty());
}

#[test]
fn group_similar_indexes_every_match_under_its_anchor() {
    let prints = vec![record("a", 10), record("far", 200), record("b", 11), record("c", 12)];
    let index = group_similar(&prints, 5);
    assert_eq!(
        contents(&index),
        expected(&[("a", &["b", "c"]), ("b", &["a", "c"]), ("c", &["a", "b"])])
    );
}

#[test]
fn group_similar_of_nothing_is_empty() {
    let index = group_similar(&Vec::new(), 5);
    assert_eq!(index.len(), 0);
    let alone = group_similar(&vec![record("a", 1)], 5);
    assert_eq!(alone.len(), 0);
}

#[test]
fn group_similar_leaves_failed_records_out() {
    let prints = vec![record("a", 10), failed("broken", 10), record("b", 10)];
    let index = group_similar(&prints, 5);
    assert_eq!(contents(&index), expected(&[("a", &["b"]), ("b", &["a"])]));
}

#[test]
fn records_at_one_path_share_a_bucket() {
    let prints = vec![record("a", 10), record("b", 11), record("a", 12), record("c", 13)];
    let index = group_similar(&prints, 5);
    assert_eq!(
        contents(&index),
        expected(&[("a", &["b", "c", "b", "c"]), ("b", &["a", "a", "c"]), ("c", &["a", "b", "a"])])
    );
}
