use cfdb_petgraph::signature::{normalize_signature, signatures_differ_modulo_whitespace};

#[test]
fn trim_outer_whitespace() {
    assert_eq!(normalize_signature("  fn() -> ()  "), "fn() -> ()");
}

#[test]
fn collapse_internal_whitespace() {
    assert_eq!(
        normalize_signature("fn(i32,   String)  ->  bool"),
        "fn(i32, String) -> bool"
    );
}

#[test]
fn identical_normalized_strings_are_not_divergent() {
    let a = normalize_signature("fn(i32) -> bool");
    let b = normalize_signature("fn(i32) -> bool");
    assert_eq!(a, b);
}

#[test]
fn whitespace_only_difference_is_not_divergent() {
    let a = normalize_signature("fn(i32) -> bool");
    let b = normalize_signature("fn(i32)  ->   bool");
    assert_eq!(a, b);
}

#[test]
fn different_types_are_divergent() {
    let a = normalize_signature("fn() -> f64");
    let b = normalize_signature("fn() -> (f64, f64)");
    assert_ne!(a, b);
}

#[test]
fn normalize_collapses_tabs_and_newlines_to_one_space() {
    assert_eq!(normalize_signature("\tfn(a,\n\n b)\r\n"), "fn(a, b)");
}

#[test]
fn normalize_of_blank_is_empty() {
    assert_eq!(normalize_signature(" \t\n "), "");
    assert_eq!(normalize_signature(""), "");
}

#[test]
fn normalize_treats_unicode_whitespace_as_whitespace() {
    assert_eq!(normalize_signature("fn(a,\u{3000}b)\u{2003}"), "fn(a, b)");
}

#[test]
fn divergence_ignores_whitespace_only() {
    assert!(!signatures_differ_modulo_whitespace("fn(i32) -> bool", " fn(i32)\t->  bool "));
    assert!(signatures_differ_modulo_whitespace("fn(i32) -> bool", "fn(i64) -> bool"));
}

#[test]
fn divergence_is_symmetric_on_examples() {
    let pairs = [("fn()", "fn ()"), ("a b", "a  b"), ("x", "y")];
    for (a, b) in pairs {
        assert_eq!(
            signatures_differ_modulo_whitespace(a, b),
            signatures_differ_modulo_whitespace(b, a)
        );
    }
}

#[test]
fn normalizing_twice_is_normalizing_once() {
    let once = normalize_signature("  fn  f (\n x: u8 ,\ty: u8 )  ");
    assert_eq!(normalize_signature(&once), once);
    assert_eq!(once, "fn f ( x: u8 , y: u8 )");
}
