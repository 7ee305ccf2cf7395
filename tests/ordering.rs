use check_versions::ordering::{order_versions, DEFAULT_LIMIT};
use check_versions::ecosystem::FetchError;
use check_versions::registry::finish_lookup;
use check_versions::response::lookup_response;
use check_versions::version::{compare_versions, parse_version, VersionComponent};
use std::cmp::Ordering;

fn strings(v: &[&str]) -> Vec<String> {
    v.iter().map(|s| s.to_string()).collect()
}

fn cmp(a: &str, b: &str) -> Ordering {
    compare_versions(&parse_version(a), &parse_version(b))
}

#[test]
fn numeric_components_compare_by_value() {
    assert_eq!(cmp("2.0.0", "1.9.9"), Ordering::Greater);
    assert_eq!(cmp("1.10.0", "1.9.0"), Ordering::Greater);
    assert_eq!(cmp("1.9.0", "1.10.0"), Ordering::Less);
    assert_eq!(cmp("1.2.3", "1.2.3"), Ordering::Equal);
}

#[test]
fn leading_v_is_ignored() {
    assert_eq!(cmp("v1.2.0", "1.2.0"), Ordering::Equal);
    assert_eq!(cmp("v1.2.0", "1.1.9"), Ordering::Greater);
    assert_eq!(parse_version("v1.2.0"), parse_version("1.2.0"));
}

#[test]
fn prefix_sorts_older() {
    assert_eq!(cmp("1.0", "1.0.0"), Ordering::Less);
    assert_eq!(cmp("1.0.0", "1.0.0.1"), Ordering::Less);
    let out = order_versions(&strings(&["1.0.0", "1.0.0.1", "1.0"]), 10);
    assert_eq!(out, strings(&["1.0.0.1", "1.0.0", "1.0"]));
}

#[test]
fn tokenizer_splits_on_separators() {
    assert_eq!(
        parse_version("v1.2-rc.3"),
        vec![
            VersionComponent::Numeric(1),
            VersionComponent::Numeric(2),
            VersionComponent::Lexical(vec!['r', 'c']),
            VersionComponent::Numeric(3),
        ]
    );
    assert_eq!(
        parse_version("1..2__beta"),
        vec![
            VersionComponent::Numeric(1),
            VersionComponent::Numeric(2),
            VersionComponent::Lexical(vec!['b', 'e', 't', 'a']),
        ]
    );
    assert_eq!(parse_version("vv1"), vec![VersionComponent::Lexical(vec!['v', '1'])]);
}

#[test]
fn empty_and_separator_only_versions_are_oldest() {
    assert_eq!(parse_version(""), vec![]);
    assert_eq!(parse_version("-._"), vec![]);
    assert_eq!(cmp("", "0"), Ordering::Less);
    assert_eq!(cmp("...", "a"), Ordering::Less);
    assert_eq!(cmp("", "--"), Ordering::Equal);
}

#[test]
fn huge_numbers_saturate_without_overflow() {
    assert_eq!(
        parse_version("99999999999999999999999"),
        vec![VersionComponent::Numeric(u64::MAX)]
    );
    assert_eq!(
        parse_version("18446744073709551615"),
        vec![VersionComponent::Numeric(u64::MAX)]
    );
    assert_eq!(
        parse_version("18446744073709551614"),
        vec![VersionComponent::Numeric(u64::MAX - 1)]
    );
    assert_eq!(cmp("1.20240101123456789", "1.5"), Ordering::Greater);
}

#[test]
fn numbers_order_above_words() {
    assert_eq!(cmp("1.0.0.1", "1.0.0-rc1"), Ordering::Greater);
    assert_eq!(cmp("1.0.0", "1.0.0-rc1"), Ordering::Less);
    assert_eq!(cmp("1", "latest"), Ordering::Greater);
    assert_eq!(cmp("latest", "alpine"), Ordering::Greater);
    assert_eq!(cmp("alpha", "alphabet"), Ordering::Less);
}

#[test]
fn sort_is_idempotent_and_stable() {
    let input = strings(&["1.0", "v1.0", "2.0", "1-0", "0.1"]);
    let once = order_versions(&input, 10);
    assert_eq!(once, strings(&["2.0", "1.0", "v1.0", "1-0", "0.1"]));
    let twice = order_versions(&once, 10);
    assert_eq!(twice, once);
    let other = order_versions(&strings(&["1-0", "v1.0", "1.0"]), 10);
    assert_eq!(other, strings(&["1-0", "v1.0", "1.0"]));
}

#[test]
fn truncation_keeps_prefix_of_full_sort() {
    let input = strings(&["0.1", "0.3", "0.2", "0.5", "0.4"]);
    let full = order_versions(&input, 5);
    assert_eq!(full, strings(&["0.5", "0.4", "0.3", "0.2", "0.1"]));
    let two = order_versions(&input, 2);
    assert_eq!(two, strings(&["0.5", "0.4"]));
    assert_eq!(order_versions(&input, 9), full);
    assert_eq!(order_versions(&input, 0), Vec::<String>::new());
    assert_eq!(order_versions(&Vec::new(), 3), Vec::<String>::new());
}

#[test]
fn end_to_end_limit_two() {
    let out = order_versions(&strings(&["1.0.0", "1.0.1", "0.9.0"]), 2);
    assert_eq!(out, strings(&["1.0.1", "1.0.0"]));
}

#[test]
fn end_to_end_numeric_above_lexical() {
    let out = order_versions(&strings(&["latest", "1.0.0", "alpine"]), 25);
    assert_eq!(out, strings(&["1.0.0", "latest", "alpine"]));
}

#[test]
fn lookup_uses_default_limit() {
    let many: Vec<String> = (0..30).map(|i| format!("1.{}", i)).collect();
    let out = finish_lookup(Ok(many), None).unwrap();
    assert_eq!(out.len(), DEFAULT_LIMIT);
    assert_eq!(out[0], "1.29");
    assert_eq!(out[24], "1.5");
    let three = finish_lookup(Ok(strings(&["3", "1", "2"])), Some(2)).unwrap();
    assert_eq!(three, strings(&["3", "2"]));
}

#[test]
fn non_ascii_letters_are_word_characters() {
    assert_eq!(
        parse_version("1.é"),
        vec![VersionComponent::Numeric(1), VersionComponent::Lexical(vec!['é'])]
    );
    assert_eq!(parse_version("1—2"), vec![VersionComponent::Numeric(1), VersionComponent::Numeric(2)]);
}

#[test]
fn response_is_json_array_newest_first() {
    let text = lookup_response(Ok(strings(&["1.0", "2.0", "1.5"])), Some(2)).unwrap();
    assert_eq!(text, r#"["2.0","1.5"]"#);
    assert_eq!(lookup_response(Ok(Vec::new()), None).unwrap(), "[]");
    let quoted = lookup_response(Ok(strings(&["a\"b"])), None).unwrap();
    assert_eq!(quoted, r#"["a\"b"]"#);
    match lookup_response(Err(FetchError::NotFound("x".to_string())), None) {
        Err(FetchError::NotFound(n)) => assert_eq!(n, "x"),
        other => panic!("unexpected: {:?}", other),
    }
}
