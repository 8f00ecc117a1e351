use cfdb_petgraph::fact::{Edge, Node, PropValue, WarningKind};
use cfdb_petgraph::graph::{classify_reingest, detect_contention, ReingestClass, CONTENTION_SUGGESTION, CONTENTION_WARNING_CAP};
use cfdb_petgraph::store::PetgraphStore;

fn s(x: &str) -> PropValue {
    PropValue::Str(x.to_string())
}

fn item_in_file(id: &str, qname: &str, file: &str) -> Node {
    Node::new(id, "Item").with_prop("qname", s(qname)).with_prop("file", s(file))
}

fn item_no_file(id: &str, qname: &str) -> Node {
    Node::new(id, "Item").with_prop("qname", s(qname))
}

#[test]
fn identical_node_reingest_is_silent() {
    let a = item_in_file("item:x::main", "x::main", "src/bin/a.rs");
    assert_eq!(classify_reingest(&a, &a.duplicate()), ReingestClass::Silent);
}

#[test]
fn same_file_prop_update_is_silent() {
    let a = item_in_file("item:x::main", "x::main", "src/bin/a.rs");
    let updated = a.duplicate().with_prop("reachable", s("true"));
    assert_eq!(classify_reingest(&a, &updated), ReingestClass::Silent);
}

#[test]
fn different_file_is_contention() {
    let a = item_in_file("item:x::main", "x::main", "src/bin/a.rs");
    let b = item_in_file("item:x::main", "x::main", "src/bin/b.rs");
    assert_eq!(classify_reingest(&a, &b), ReingestClass::Contention);
}

#[test]
fn missing_file_falls_back_to_prop_equality_silent() {
    let a = item_no_file("item:x::T", "x::T");
    assert_eq!(classify_reingest(&a, &a.duplicate()), ReingestClass::Silent);
}

#[test]
fn missing_file_falls_back_to_prop_inequality_contention() {
    let a = item_no_file("item:x::T", "x::T");
    let b = item_no_file("item:x::T", "x::T").with_prop("kind", s("struct"));
    assert_eq!(classify_reingest(&a, &b), ReingestClass::Contention);
}

#[test]
fn one_sided_file_with_differing_props_is_contention() {
    let a = item_no_file("item:x::main", "x::main");
    let b = item_in_file("item:x::main", "x::main", "src/bin/b.rs");
    assert_eq!(classify_reingest(&a, &b), ReingestClass::Contention);
}

#[test]
fn one_sided_file_reverse_direction_is_contention() {
    let a = item_in_file("item:x::main", "x::main", "src/bin/a.rs");
    let b = item_no_file("item:x::main", "x::main");
    assert_eq!(classify_reingest(&a, &b), ReingestClass::Contention);
}

#[test]
fn contention_warning_is_identity_contention_variant_naming_both_files() {
    let a = item_in_file("item:x::main", "x::main", "src/bin/a.rs");
    let b = item_in_file("item:x::main", "x::main", "src/bin/b.rs");
    let w = detect_contention(&a, &b).expect("differing files are a contention");
    assert_eq!(w.kind, WarningKind::IdentityContention);
    assert!(
        w.message.contains("identity contention")
            && w.message.contains("item:x::main")
            && w.message.contains("src/bin/a.rs")
            && w.message.contains("src/bin/b.rs"),
        "message must name the id and both files, got: {}",
        w.message
    );
    assert_eq!(
        w.message,
        "identity contention on `item:x::main`: `src/bin/a.rs` replaced by `src/bin/b.rs` — the earlier node was dropped"
    );
    assert!(w.suggestion.is_none());
}

#[test]
fn non_string_file_prop_renders_distinctly_from_absence() {
    let a = item_no_file("item:x::T", "x::T").with_prop("file", PropValue::Null);
    let b = item_in_file("item:x::T", "x::T", "src/a.rs");
    let w = detect_contention(&a, &b).expect("Null vs Str file props differ");
    assert!(!w.message.contains("(no file prop)"), "Null must render as a value, not as absence: {}", w.message);
    assert!(w.message.contains("`Null`"), "got: {}", w.message);
}

#[test]
fn int_file_prop_renders_with_its_debug_form() {
    let a = item_no_file("item:x::T", "x::T").with_prop("file", PropValue::Int(-7));
    let b = item_no_file("item:x::T", "x::T");
    let w = detect_contention(&a, &b).expect("props differ");
    assert_eq!(
        w.message,
        "identity contention on `item:x::T`: `Int(-7)` replaced by `(no file prop)` — the earlier node was dropped"
    );
}

#[test]
fn ingest_of_contending_nodes_records_identity_contention_warning() {
    let mut store = PetgraphStore::new();
    store
        .ingest_nodes(
            "t",
            vec![
                item_in_file("item:x::main", "x::main", "src/bin/a.rs"),
                item_in_file("item:x::main", "x::main", "src/bin/b.rs"),
            ],
        )
        .expect("ingest");
    let warnings = store.ingest_warnings("t");
    assert!(warnings.iter().any(|w| w.kind == WarningKind::IdentityContention), "expected an IdentityContention warning, got: {warnings:?}");
}

#[test]
fn ingest_of_identical_reemit_stays_silent() {
    let mut store = PetgraphStore::new();
    let n = item_in_file("item:x::main", "x::main", "src/bin/a.rs");
    store.ingest_nodes("t", vec![n.duplicate(), n]).expect("ingest");
    assert!(store.ingest_warnings("t").is_empty(), "identical re-emit must not warn");
}

#[test]
fn suggestion_rides_only_the_first_recorded_contention() {
    let mut store = PetgraphStore::new();
    let mut nodes = Vec::new();
    for i in 0..3 {
        nodes.push(item_in_file("item:x::main", "x::main", &format!("src/bin/{i}.rs")));
    }
    store.ingest_nodes("t", nodes).expect("ingest");
    let warnings = store.ingest_warnings("t");
    let with_suggestion = warnings.iter().filter(|w| w.suggestion.is_some()).count();
    assert_eq!(with_suggestion, 1, "exactly the first warning carries it");
    assert_eq!(warnings[0].suggestion.as_deref(), Some(CONTENTION_SUGGESTION));
}

#[test]
fn contentions_past_the_cap_collapse_into_one_summary_row() {
    let mut store = PetgraphStore::new();
    let over = 7usize;
    let mut nodes = Vec::new();
    for i in 0..(CONTENTION_WARNING_CAP + over + 1) {
        nodes.push(item_in_file("item:x::main", "x::main", &format!("f{i}.rs")));
    }
    store.ingest_nodes("t", nodes).expect("ingest");
    let warnings = store.ingest_warnings("t");
    assert_eq!(warnings.len(), CONTENTION_WARNING_CAP + 1, "cap + one summary row");
    let summary = warnings.last().expect("summary row present");
    assert_eq!(summary.kind, WarningKind::IdentityContention);
    assert!(
        summary.message.contains(&over.to_string()) && summary.message.contains("suppressed"),
        "summary names the suppressed count, got: {}",
        summary.message
    );
    assert_eq!(summary.message, "and 7 further identity contention(s) suppressed (cap 50)");
}

#[test]
fn exactly_the_cap_has_no_summary_row() {
    let mut store = PetgraphStore::new();
    let mut nodes = Vec::new();
    for i in 0..(CONTENTION_WARNING_CAP + 1) {
        nodes.push(item_in_file("item:x::main", "x::main", &format!("f{i}.rs")));
    }
    store.ingest_nodes("t", nodes).expect("ingest");
    let warnings = store.ingest_warnings("t");
    assert_eq!(warnings.len(), CONTENTION_WARNING_CAP);
    assert!(warnings.iter().all(|w| !w.message.contains("suppressed")));
}

#[test]
fn edge_drop_warnings_are_reported_in_process() {
    let mut store = PetgraphStore::new();
    store.ingest_nodes("t", vec![item_in_file("item:a", "a", "src/a.rs")]).expect("ingest");
    store.ingest_edges("t", vec![Edge::new("item:a", "item:missing", "CALLS")]).expect("edge ingest");
    let warnings = store.ingest_warnings("t");
    assert_eq!(warnings.len(), 1);
    assert_eq!(warnings[0].kind, WarningKind::EmptyResult);
}

fn float(x: f64) -> PropValue {
    PropValue::Float { bits: x.to_bits(), text: format!("{x:?}"), json: None, fixed: String::new() }
}

#[test]
fn nan_file_prop_reingest_is_contention() {
    let a = Node::new("item:x", "Item").with_prop("file", float(f64::NAN));
    let b = Node::new("item:x", "Item").with_prop("file", float(f64::NAN));
    assert_eq!(classify_reingest(&a, &b), ReingestClass::Contention, "NaN equals nothing");
}

#[test]
fn nan_prop_without_file_reingest_is_contention() {
    let a = Node::new("item:x", "Item").with_prop("score", float(f64::NAN));
    let b = Node::new("item:x", "Item").with_prop("score", float(f64::NAN));
    assert!(detect_contention(&a, &b).is_some());
}

#[test]
fn signed_zero_reingest_is_silent() {
    let a = Node::new("item:x", "Item").with_prop("score", float(0.0));
    let b = Node::new("item:x", "Item").with_prop("score", float(-0.0));
    assert_eq!(classify_reingest(&a, &b), ReingestClass::Silent, "0.0 == -0.0");
}
