use cfdb_petgraph::fact::PropValue;
use cfdb_petgraph::query::Expr;
use cfdb_petgraph::entries::{entries_jaccard_counts, entries_subset_impl, overlap_verdict_impl};

fn jaccard(a: &str, b: &str) -> f64 {
    let (inter, union) = entries_jaccard_counts(a, b);
    if union == 0 {
        0.0
    } else {
        inter as f64 / union as f64
    }
}

#[test]
fn empty_is_subset_of_anything_str() {
    assert!(entries_subset_impl("[]", r#"["EUR","USD"]"#));
}

#[test]
fn empty_is_subset_of_empty() {
    assert!(entries_subset_impl("[]", "[]"));
}

#[test]
fn equal_str_sets_are_subsets_of_each_other() {
    let a = r#"["EUR","GBP","USD"]"#;
    let b = r#"["EUR","GBP","USD"]"#;
    assert!(entries_subset_impl(a, b));
    assert!(entries_subset_impl(b, a));
}

#[test]
fn strict_subset_str_returns_true_one_way() {
    let small = r#"["EUR","USD"]"#;
    let big = r#"["EUR","GBP","USD"]"#;
    assert!(entries_subset_impl(small, big));
    assert!(!entries_subset_impl(big, small));
}

#[test]
fn strict_subset_int_returns_true_one_way() {
    let small = "[1,2]";
    let big = "[1,2,3]";
    assert!(entries_subset_impl(small, big));
    assert!(!entries_subset_impl(big, small));
}

#[test]
fn disjoint_str_sets_are_not_subsets() {
    let a = r#"["EUR","USD"]"#;
    let b = r#"["JPY","CHF"]"#;
    assert!(!entries_subset_impl(a, b));
    assert!(!entries_subset_impl(b, a));
}

#[test]
fn mixed_element_type_is_not_subset_either_way() {
    let strs = r#"["1","2"]"#;
    let ints = "[1,2]";
    assert!(!entries_subset_impl(strs, ints));
    assert!(!entries_subset_impl(ints, strs));
}

#[test]
fn invalid_json_is_not_subset_either_way() {
    assert!(!entries_subset_impl("not json", r#"["a"]"#));
    assert!(!entries_subset_impl(r#"["a"]"#, "not json"));
}

#[test]
fn mixed_inside_one_array_is_invalid() {
    assert!(!entries_subset_impl(r#"["a",1]"#, r#"["a",1]"#));
    assert!(!entries_subset_impl("[1.5]", "[1.5]"));
    assert!(!entries_subset_impl("{}", "{}"));
}

#[test]
fn populated_is_not_subset_of_empty() {
    assert!(!entries_subset_impl(r#"["a"]"#, "[]"));
    assert!(!entries_subset_impl("[1]", "[]"));
}

#[test]
fn duplicates_inside_an_array_do_not_matter() {
    assert!(entries_subset_impl(r#"["a","a"]"#, r#"["a"]"#));
    assert_eq!(entries_jaccard_counts(r#"["a","a","b"]"#, r#"["b"]"#), (1, 2));
}

#[test]
fn jaccard_of_two_empty_sets_is_zero() {
    assert_eq!(jaccard("[]", "[]"), 0.0);
}

#[test]
fn jaccard_of_identical_str_sets_is_one() {
    let a = r#"["EUR","GBP","USD"]"#;
    let b = r#"["EUR","GBP","USD"]"#;
    assert_eq!(jaccard(a, b), 1.0);
}

#[test]
fn jaccard_of_identical_int_sets_is_one() {
    assert_eq!(jaccard("[1,2,3]", "[1,2,3]"), 1.0);
}

#[test]
fn jaccard_half_overlap_str_is_one_third() {
    let j = jaccard(r#"["a","b"]"#, r#"["b","c"]"#);
    assert!((j - (1.0 / 3.0)).abs() < 1e-12, "got {j}");
}

#[test]
fn jaccard_half_overlap_str_at_threshold() {
    let j = jaccard(r#"["a","b","c"]"#, r#"["b","c","d"]"#);
    assert!((j - 0.5).abs() < 1e-12, "got {j}");
    assert!(j >= 0.5);
}

#[test]
fn jaccard_disjoint_sets_is_zero() {
    assert_eq!(jaccard(r#"["EUR","USD"]"#, r#"["JPY","CHF"]"#), 0.0);
}

#[test]
fn jaccard_subset_int_is_ratio_of_sizes() {
    let j = jaccard("[1,2]", "[1,2,3,4]");
    assert!((j - 0.5).abs() < 1e-12, "got {j}");
}

#[test]
fn jaccard_mixed_element_types_is_zero() {
    let strs = r#"["1","2"]"#;
    let ints = "[1,2]";
    assert_eq!(jaccard(strs, ints), 0.0);
    assert_eq!(jaccard(ints, strs), 0.0);
}

#[test]
fn jaccard_invalid_json_is_zero() {
    assert_eq!(jaccard("not json", r#"["a"]"#), 0.0);
    assert_eq!(jaccard(r#"["a"]"#, "not json"), 0.0);
}

#[test]
fn jaccard_empty_vs_populated_is_zero() {
    assert_eq!(jaccard("[]", r#"["a","b"]"#), 0.0);
    assert_eq!(jaccard(r#"["a","b"]"#, "[]"), 0.0);
}

#[test]
fn jaccard_counts_are_exact() {
    assert_eq!(entries_jaccard_counts(r#"["a","b","c"]"#, r#"["b","c","d"]"#), (2, 4));
    assert_eq!(entries_jaccard_counts("[1,2]", "[2,3,4]"), (1, 4));
}

#[test]
fn overlap_verdict_duplicate_when_hashes_equal() {
    let v = overlap_verdict_impl(r#"["a"]"#, r#"["a"]"#, "deadbeef", "deadbeef");
    assert_eq!(v, "CONST_TABLE_DUPLICATE");
}

#[test]
fn overlap_verdict_subset_when_strict_subset_and_hashes_differ() {
    let v = overlap_verdict_impl(r#"["a","b"]"#, r#"["a","b","c"]"#, "h_small", "h_big");
    assert_eq!(v, "CONST_TABLE_SUBSET");
}

#[test]
fn overlap_verdict_subset_in_either_order() {
    let v = overlap_verdict_impl(r#"["a","b","c"]"#, r#"["a","b"]"#, "h_big", "h_small");
    assert_eq!(v, "CONST_TABLE_SUBSET");
}

#[test]
fn overlap_verdict_intersection_high_when_jaccard_at_threshold() {
    let v = overlap_verdict_impl(r#"["a","b","c"]"#, r#"["b","c","d"]"#, "h_left", "h_right");
    assert_eq!(v, "CONST_TABLE_INTERSECTION_HIGH");
}

#[test]
fn overlap_verdict_none_when_jaccard_below_threshold() {
    let v = overlap_verdict_impl(
        r#"["a","b","c","d"]"#,
        r#"["c","e","f","g"]"#,
        "h_left",
        "h_right",
    );
    assert_eq!(v, "CONST_TABLE_NONE");
}

#[test]
fn overlap_verdict_none_when_disjoint() {
    let v = overlap_verdict_impl(r#"["EUR","USD"]"#, r#"["JPY","CHF"]"#, "h_left", "h_right");
    assert_eq!(v, "CONST_TABLE_NONE");
}

#[test]
fn overlap_verdict_is_symmetric_on_the_pair() {
    let cases = [
        (r#"["a","b"]"#, r#"["a","b","c"]"#),
        (r#"["a","b","c"]"#, r#"["b","c","d"]"#),
        ("[1,2,3,4]", "[3,5,6,7]"),
        ("not json", "[]"),
    ];
    for (a, b) in cases {
        assert_eq!(overlap_verdict_impl(a, b, "h1", "h2"), overlap_verdict_impl(b, a, "h2", "h1"));
    }
}

#[test]
fn overlap_verdict_empty_side_is_subset() {
    assert_eq!(overlap_verdict_impl("[]", r#"["x"]"#, "h1", "h2"), "CONST_TABLE_SUBSET");
}

fn call_subset(a: &str, b: &str) -> Option<PropValue> {
    let st = cfdb_petgraph::graph::KeyspaceState::new();
    let params = cfdb_petgraph::sorted::SortedMap::new();
    let row = cfdb_petgraph::sorted::SortedMap::new();
    let e = Expr::Call {
        name: "entries_subset".to_string(),
        args: vec![Expr::Literal(PropValue::Str(a.to_string())), Expr::Literal(PropValue::Str(b.to_string()))],
    };
    cfdb_petgraph::expr::eval_expr(&st, &params, &row, &e)
}

#[test]
fn entries_subset_call_on_non_array_text_has_no_value() {
    assert!(call_subset("not json", r#"["a"]"#).is_none());
    assert!(call_subset(r#"["a"]"#, r#"{"a":1}"#).is_none());
    assert!(matches!(call_subset(r#"["a"]"#, r#"["a","b"]"#), Some(cfdb_petgraph::fact::PropValue::Bool(true))));
    assert!(matches!(call_subset(r#"["a",1]"#, r#"["a"]"#), Some(cfdb_petgraph::fact::PropValue::Bool(false))));
}
