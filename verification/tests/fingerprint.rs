use similar_images::fingerprint::Fingerprint;

fn record(path: &str, fill: u8) -> Fingerprint {
    Fingerprint { path: path.to_string(), fingerprint: [fill; 48], error: false }
}

#[test]
fn test_identical_prints() {
    let data: [u8; 48] = [
        0xa5, 0xce, 0xb8, 0x94, 0x73, 0x84, 0xd2, 0xe3, 0xe0, 0xb6, 0xb6, 0xd1, 0x6f, 0x80,
        0x3c, 0x63, 0x2f, 0x30, 0x72, 0x84, 0x74, 0x64, 0x58, 0x69, 0x37, 0x43, 0x3b, 0x2a,
        0x2a, 0x30, 0x8c, 0xb2, 0x88, 0x7a, 0x65, 0x71, 0x89, 0x93, 0x7d, 0x7a, 0x6e, 0x75,
        0x4f, 0x4f, 0x91, 0x59, 0x80, 0x89,
    ];
    let print1 = Fingerprint {
        path: "first".to_string(),
        fingerprint: data,
        error: false,
    };
    let print2 = Fingerprint {
        path: "second".to_string(),
        fingerprint: data,
        error: false,
    };
    assert!(print1.is_similar(&print2, 5));
    assert_eq!(print1.difference(&print2), 0);
}

#[test]
fn differing_by_one_everywhere_is_similar_at_five() {
    let a = record("a", 10);
    let b = record("b", 11);
    assert_eq!(a.difference(&b), 48);
    assert!(a.is_similar(&b, 5));
}

#[test]
fn differing_by_255_everywhere_is_not_similar_at_five() {
    let a = record("a", 0);
    let b = record("b", 255);
    assert_eq!(a.difference(&b), 12240);
    assert!(!a.is_similar(&b, 5));
}

#[test]
fn distance_does_not_depend_on_the_order() {
    let mut first = [0u8; 48];
    let mut second = [0u8; 48];
    for i in 0..48 {
        first[i] = (i * 5) as u8;
        second[i] = (200 - i * 3) as u8;
    }
    let a = Fingerprint { path: "a".to_string(), fingerprint: first, error: false };
    let b = Fingerprint { path: "b".to_string(), fingerprint: second, error: false };
    assert_eq!(a.difference(&b), b.difference(&a));
    assert_eq!(a.is_similar(&b, 100), b.is_similar(&a, 100));
}

#[test]
fn distance_to_itself_is_zero() {
    let a = record("a", 77);
    assert_eq!(a.difference(&a), 0);
    assert!(a.is_similar(&a, 1));
}

#[test]
fn identical_vectors_are_similar_at_every_tolerance_above_zero() {
    let a = record("a", 200);
    let b = record("b", 200);
    assert_eq!(a.difference(&b), 0);
    for tolerance in [1, 2, 5, 255, 256, 89478485, 89478486, u32::MAX] {
        assert!(a.is_similar(&b, tolerance));
    }
}

#[test]
fn nothing_is_similar_at_tolerance_zero() {
    let a = record("a", 3);
    let b = record("b", 3);
    assert_eq!(a.difference(&b), 0);
    assert!(!a.is_similar(&b, 0));
}

#[test]
fn the_cutoff_is_strict() {
    // One position differs by 240, the others agree: the distance is the
    // cutoff of tolerance 5 itself.
    let a = record("a", 0);
    let mut b = record("b", 0);
    b.fingerprint[7] = 240;
    assert_eq!(a.difference(&b), 240);
    assert!(!a.is_similar(&b, 5));
    b.fingerprint[7] = 239;
    assert!(a.is_similar(&b, 5));
}

#[test]
fn a_large_tolerance_does_not_overflow() {
    let a = record("a", 0);
    let b = record("b", 255);
    assert!(a.is_similar(&b, u32::MAX));
    assert!(a.is_similar(&b, 256));
    assert!(!a.is_similar(&b, 255));
}

#[test]
fn records_are_equal_by_path_alone() {
    let a = record("same", 1);
    let b = record("same", 200);
    let c = record("other", 1);
    assert!(a == b);
    assert!(a != c);
}

#[test]
fn load_keeps_the_vector_and_reads_the_status() {
    let mut buffer = [0u8; 48];
    buffer[0] = 9;
    buffer[47] = 200;
    let ok = Fingerprint::load("dir/a.png", buffer, 0);
    assert_eq!(ok.path, "dir/a.png");
    assert_eq!(ok.fingerprint, buffer);
    assert!(!ok.error);
    let positive = Fingerprint::load("dir/b.png", buffer, 3);
    assert!(!positive.error);
    let failed = Fingerprint::load("dir/c.png", buffer, -1);
    assert_eq!(failed.path, "dir/c.png");
    assert!(failed.error);
}

#[test]
fn loaded_passes_over_the_files_that_were_not_loaded() {
    let outcomes = vec![
        Some(record("a", 1)),
        None,
        Some(Fingerprint::load("b", [2; 48], -1)),
        None,
        Some(record("c", 3)),
    ];
    let records = similar_images::fingerprint::loaded(outcomes);
    let paths: Vec<&str> = records.iter().map(|r| r.path.as_str()).collect();
    assert_eq!(paths, vec!["a", "b", "c"]);
    assert!(records[1].error);
    assert_eq!(records[2].fingerprint, [3; 48]);
    assert!(similar_images::fingerprint::loaded(vec![None, None]).is_empty());
    assert!(similar_images::fingerprint::loaded(Vec::new()).is_empty());
}
