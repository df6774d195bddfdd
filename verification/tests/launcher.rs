use exercises::launcher::{exercise_binary, normalize_target};

#[test]
fn normalize_targets() {
    assert_eq!(normalize_target("E03"), "e03");
    assert_eq!(normalize_target("./E03/"), "e03");
    assert_eq!(normalize_target("  exercises/s01-rust/E04//  "), "e04");
    assert_eq!(normalize_target("///"), "");
    assert_eq!(normalize_target("ŻÓŁW"), "ŻÓŁw");
}

#[test]
fn normalize_matches_std_steps() {
    for t in ["E01", "/a/B/", " x/Y ", "", "a//", "/"] {
        let expected = t.trim().trim_matches('/').rsplit('/').next().unwrap_or(t).to_ascii_lowercase();
        assert_eq!(normalize_target(t), expected, "target {t:?}");
    }
}

#[test]
fn known_exercises() {
    assert_eq!(exercise_binary("e01"), Some("e01"));
    assert_eq!(exercise_binary("e05"), Some("e05"));
    assert_eq!(exercise_binary("e06"), None);
    assert_eq!(exercise_binary("E01"), None);
}
