use ddh::config::parse_min_size;
use ddh::engine::Candidate;
use ddh::filter::{is_ignored, meets_minimum, path_is_under, screen_candidates};

fn cand(path: &str, length: u64) -> Candidate {
    Candidate { file_path: String::from(path), file_length: length }
}

#[test]
fn subtree_prefix_matching() {
    assert!(path_is_under("A/sub", "A/sub"));
    assert!(path_is_under("A/sub/file", "A/sub"));
    assert!(path_is_under("A/sub/deep/file", "A/sub"));
    assert!(!path_is_under("A/subX/file", "A/sub"));
    assert!(!path_is_under("A/su", "A/sub"));
    assert!(!path_is_under("B/sub/file", "A/sub"));
}

#[test]
fn ignore_list_matches_any_entry() {
    let ignores = vec![String::from("A/sub"), String::from("B/cache")];
    assert!(is_ignored("A/sub/f", &ignores));
    assert!(is_ignored("B/cache", &ignores));
    assert!(!is_ignored("A/other/f", &ignores));
    assert!(!is_ignored("A/sub2/f", &ignores));
    let none: Vec<String> = vec![];
    assert!(!is_ignored("A/sub/f", &none));
}

#[test]
fn minimum_size_is_inclusive() {
    assert!(meets_minimum(10, 10));
    assert!(meets_minimum(11, 10));
    assert!(!meets_minimum(9, 10));
    assert!(meets_minimum(0, 0));
}

#[test]
fn screen_drops_small_and_ignored_candidates() {
    let cands = vec![
        cand("A/a/x", 3),
        cand("A/sub/y", 3),
        cand("A/b/z", 1),
        cand("A/c/w", 5),
    ];
    let ignores = vec![String::from("A/sub")];
    let kept = screen_candidates(cands, &ignores, 2);
    let names: Vec<&str> = kept.iter().map(|c| c.file_path.as_str()).collect();
    assert_eq!(names, vec!["A/a/x", "A/c/w"]);
}

#[test]
fn screen_keeps_everything_when_nothing_applies() {
    let cands = vec![cand("x", 4), cand("y", 9)];
    let ignores: Vec<String> = vec![];
    let kept = screen_candidates(cands, &ignores, 0);
    assert_eq!(kept.len(), 2);
}

#[test]
fn parse_min_size_accepts_decimal_values() {
    assert_eq!(parse_min_size("0"), Some(0));
    assert_eq!(parse_min_size("123"), Some(123));
    assert_eq!(parse_min_size("18446744073709551615"), Some(u64::MAX));
}

#[test]
fn parse_min_size_rejects_bad_input() {
    assert_eq!(parse_min_size(""), None);
    assert_eq!(parse_min_size("12a"), None);
    assert_eq!(parse_min_size("-1"), None);
    assert_eq!(parse_min_size(" 5"), None);
    assert_eq!(parse_min_size("18446744073709551616"), None);
}
