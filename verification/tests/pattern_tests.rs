use hyper_fs::pattern::extract_prefix;
use hyper_fs::pattern::Matcher;
use hyper_fs::MatchRule;
use hyper_fs::Polarity;
use hyper_fs::Verdict;

fn rule(p: &str, pol: Polarity) -> MatchRule {
    MatchRule { pattern: String::from(p), polarity: pol }
}

#[test]
fn single_include_rule_matches_and_rejects() {
    let m = Matcher::compile(&vec![rule("a/*.txt", Polarity::Include)]).unwrap();
    assert!(matches!(m.test("a/b.txt", false), Verdict::Included));
    assert!(matches!(m.test("a/b.md", false), Verdict::Excluded));
    assert!(matches!(m.test("c/b.txt", false), Verdict::Excluded));
}

#[test]
fn star_stays_within_one_segment() {
    let m = Matcher::compile(&vec![rule("a/*", Polarity::Include)]).unwrap();
    assert!(matches!(m.test("a/b", false), Verdict::Included));
    assert!(matches!(m.test("a/b/c", false), Verdict::Excluded));
}

#[test]
fn last_matching_rule_wins() {
    let m = Matcher::compile(&vec![
        rule("**/*.txt", Polarity::Include),
        rule("a/*", Polarity::Exclude),
    ])
    .unwrap();
    assert!(matches!(m.test("a/b.txt", false), Verdict::Excluded));
    assert!(matches!(m.test("c/d.txt", false), Verdict::Included));
}

#[test]
fn later_include_overrides_earlier_exclude() {
    let m = Matcher::compile(&vec![
        rule("**", Polarity::Include),
        rule("a/*", Polarity::Exclude),
        rule("a/keep.txt", Polarity::Include),
    ])
    .unwrap();
    assert!(matches!(m.test("a/keep.txt", false), Verdict::Included));
    assert!(matches!(m.test("a/drop.txt", false), Verdict::Excluded));
    assert!(matches!(m.test("b", false), Verdict::Included));
}

#[test]
fn unmatched_path_is_excluded() {
    let m = Matcher::compile(&vec![rule("x/y", Polarity::Include)]).unwrap();
    assert!(matches!(m.test("z", false), Verdict::Excluded));
}

#[test]
fn invalid_pattern_is_refused() {
    let e = match Matcher::compile(&vec![rule("a[", Polarity::Include)]) {
        Err(e) => e,
        Ok(_) => panic!("expected a refusal"),
    };
    assert!(matches!(e.kind, hyper_fs::errors::FsErrorKind::InvalidPattern));
    assert_eq!(e.message, "EINVAL: invalid pattern, glob 'a['");
}

#[test]
fn invalid_exclude_is_refused() {
    let e = match Matcher::compile(&vec![
        rule("**", Polarity::Include),
        rule("b[", Polarity::Exclude),
    ]) {
        Err(e) => e,
        Ok(_) => panic!("expected a refusal"),
    };
    assert!(matches!(e.kind, hyper_fs::errors::FsErrorKind::InvalidPattern));
}

fn prefix_of(pattern: &str) -> Vec<String> {
    extract_prefix(pattern)
}

#[test]
fn prefix_stops_before_first_wildcard_segment() {
    assert_eq!(prefix_of("a/**/*.txt"), vec!["a".to_string()]);
    assert_eq!(prefix_of("dir/*"), vec!["dir".to_string()]);
    assert_eq!(prefix_of("a/b/c*"), vec!["a".to_string(), "b".to_string()]);
}

#[test]
fn prefix_of_pure_wildcard_is_empty() {
    assert_eq!(prefix_of("**"), Vec::<String>::new());
    assert_eq!(prefix_of("*.txt"), Vec::<String>::new());
}

#[test]
fn prefix_of_literal_pattern_keeps_match_target_out() {
    assert_eq!(prefix_of("a/b.txt"), vec!["a".to_string()]);
    assert_eq!(prefix_of("file.txt"), Vec::<String>::new());
}

#[test]
fn dot_prefix_counts_as_none() {
    assert_eq!(prefix_of("./x*"), Vec::<String>::new());
}

#[test]
fn question_mark_and_bracket_open_a_wildcard_segment() {
    assert_eq!(prefix_of("a/b?c/d"), vec!["a".to_string()]);
    assert_eq!(prefix_of("a/[bc]/d"), vec!["a".to_string()]);
}
