use cfdb_petgraph::eval::eval_predicate;
use cfdb_petgraph::expr::eval_expr;
use cfdb_petgraph::explain::ExplainRow;
use cfdb_petgraph::fact::{Edge, Node, PropValue, WarningKind};
use cfdb_petgraph::graph::KeyspaceState;
use cfdb_petgraph::index_spec::{ComputedKey, IndexEntry, IndexSpec};
use cfdb_petgraph::pattern::{candidate_nodes, node_props_match};
use cfdb_petgraph::query::{
    Aggregation, CompareOp, Direction, EdgePattern, Expr, NodePattern, ParamBinding, PathPattern, Pattern, Predicate,
    Projection, ProjectionValue, Query, ReturnClause,
};
use cfdb_petgraph::sorted::SortedMap;
use cfdb_petgraph::store::PetgraphStore;
use cfdb_petgraph::value::{Binding, Bindings, Row, RowValue};
use std::collections::BTreeSet;

// ---------------------------------------------------------------------
// Query builders
// ---------------------------------------------------------------------

fn np(var: Option<&str>, label: Option<&str>) -> NodePattern {
    NodePattern { var: var.map(|v| v.to_string()), label: label.map(|l| l.to_string()), props: SortedMap::new() }
}

fn np_with_prop(var: &str, label: &str, prop: &str, value: &str) -> NodePattern {
    let mut props = SortedMap::new();
    props.insert(prop.to_string(), PropValue::Str(value.to_string()));
    NodePattern { var: Some(var.to_string()), label: Some(label.to_string()), props }
}

fn edge(var: Option<&str>, label: Option<&str>) -> EdgePattern {
    EdgePattern {
        var: var.map(|v| v.to_string()),
        label: label.map(|l| l.to_string()),
        direction: Direction::Out,
        var_length: None,
    }
}

fn path(from: NodePattern, e: EdgePattern, to: NodePattern) -> Pattern {
    Pattern::Path(PathPattern { from, edge: e, to })
}

fn prop(var: &str, p: &str) -> Expr {
    Expr::Property { var: var.to_string(), prop: p.to_string() }
}

fn var(v: &str) -> Expr {
    Expr::Var(v.to_string())
}

fn agg(a: Aggregation) -> Projection {
    Projection { value: ProjectionValue::Aggregation(a), alias: None }
}

fn col(e: Expr, alias: Option<&str>) -> Projection {
    Projection { value: ProjectionValue::Expr(e), alias: alias.map(|a| a.to_string()) }
}

fn ret(projections: Vec<Projection>, limit: Option<u64>) -> ReturnClause {
    ReturnClause { projections, distinct: false, order_by: vec![], limit }
}

fn query(match_clauses: Vec<Pattern>, where_clause: Option<Predicate>, return_clause: ReturnClause) -> Query {
    Query { match_clauses, where_clause, with_clause: None, return_clause, params: SortedMap::new() }
}

fn eq(left: Expr, right: Expr) -> Predicate {
    Predicate::Compare { left, op: CompareOp::Eq, right }
}

fn and(a: Predicate, b: Predicate) -> Predicate {
    Predicate::And(Box::new(a), Box::new(b))
}

fn scalar_int(row: &Row, key: &str) -> i64 {
    match row.get(&key.to_string()).expect("column present") {
        RowValue::Scalar(PropValue::Int(n)) => *n,
        other => panic!("expected Int, got {:?}", other),
    }
}

fn scalar_str(row: &Row, key: &str) -> String {
    match row.get(&key.to_string()).expect("column present") {
        RowValue::Scalar(PropValue::Str(s)) => s.clone(),
        other => panic!("expected Str, got {:?}", other),
    }
}

fn s(x: &str) -> PropValue {
    PropValue::Str(x.to_string())
}

// ---------------------------------------------------------------------
// Edge-variable matching
// ---------------------------------------------------------------------

fn edge_ks() -> &'static str {
    "edge_match_242"
}

fn minimal_fixture() -> (Vec<Node>, Vec<Edge>) {
    let nodes = vec![
        Node::new("nA", "N").with_prop("qname", s("alpha")),
        Node::new("nB", "N").with_prop("qname", s("beta")),
    ];
    let mut e = Edge::new("nA", "nB", "REL");
    e.props.insert("weight".to_string(), PropValue::Int(7));
    (nodes, vec![e])
}

fn fresh_store_with_fixture() -> (PetgraphStore, &'static str) {
    let (nodes, edges) = minimal_fixture();
    let mut store = PetgraphStore::new();
    let k = edge_ks();
    store.ingest_nodes(k, nodes).expect("ingest nodes");
    store.ingest_edges(k, edges).expect("ingest edges");
    (store, k)
}

fn roundtripped_store() -> (PetgraphStore, &'static str) {
    let (source, k) = fresh_store_with_fixture();
    let file = source.keyspace_file(k).expect("save");
    let mut dest = PetgraphStore::new();
    dest.load_keyspace_file(k, file).expect("load");
    (dest, k)
}

fn count_query(pattern: Pattern, counted: Aggregation) -> Query {
    query(vec![pattern], None, ret(vec![agg(counted)], None))
}

#[test]
fn count_named_edge_var_anonymous_label() {
    let (store, k) = fresh_store_with_fixture();
    let q = count_query(path(np(Some("a"), None), edge(Some("r"), None), np(Some("b"), None)), Aggregation::Count(var("r")));
    let r = store.execute(k, &q).expect("exec");
    assert_eq!(scalar_int(&r.rows[0], "count"), 1, "rows={:?}", r.rows);
}

#[test]
fn count_named_edge_var_with_label() {
    let (store, k) = fresh_store_with_fixture();
    let q = count_query(path(np(Some("a"), None), edge(Some("r"), Some("REL")), np(Some("b"), None)), Aggregation::Count(var("r")));
    let r = store.execute(k, &q).expect("exec");
    assert_eq!(scalar_int(&r.rows[0], "count"), 1);
}

#[test]
fn count_named_edge_var_with_typed_endpoints() {
    let (store, k) = fresh_store_with_fixture();
    let q = count_query(
        path(np(Some("a"), Some("N")), edge(Some("r"), Some("REL")), np(Some("b"), Some("N"))),
        Aggregation::Count(var("r")),
    );
    let r = store.execute(k, &q).expect("exec");
    assert_eq!(scalar_int(&r.rows[0], "count"), 1);
}

#[test]
fn count_star_also_works_as_control() {
    let (store, k) = fresh_store_with_fixture();
    let q = count_query(path(np(Some("a"), None), edge(Some("r"), None), np(Some("b"), None)), Aggregation::CountStar);
    let r = store.execute(k, &q).expect("exec");
    assert_eq!(scalar_int(&r.rows[0], "count"), 1);
}

#[test]
fn count_from_node_var_also_works_as_control() {
    let (store, k) = fresh_store_with_fixture();
    let q = count_query(path(np(Some("a"), None), edge(Some("r"), None), np(Some("b"), None)), Aggregation::Count(var("a")));
    let r = store.execute(k, &q).expect("exec");
    assert_eq!(scalar_int(&r.rows[0], "count"), 1);
}

#[test]
fn edge_var_property_access_label() {
    let (store, k) = fresh_store_with_fixture();
    let q = query(
        vec![path(np(Some("a"), None), edge(Some("r"), Some("REL")), np(Some("b"), None))],
        None,
        ret(vec![col(prop("r", "label"), None)], None),
    );
    let r = store.execute(k, &q).expect("exec");
    assert_eq!(scalar_str(&r.rows[0], "r.label"), "REL");
}

#[test]
fn edge_var_property_access_custom_prop() {
    let (store, k) = fresh_store_with_fixture();
    let q = query(
        vec![path(np(Some("a"), None), edge(Some("r"), Some("REL")), np(Some("b"), None))],
        None,
        ret(vec![col(prop("r", "weight"), None)], None),
    );
    let r = store.execute(k, &q).expect("exec");
    assert_eq!(scalar_int(&r.rows[0], "r.weight"), 7);
}

#[test]
fn count_chained_edges() {
    let mut store = PetgraphStore::new();
    let k = edge_ks();
    store.ingest_nodes(k, vec![Node::new("a", "N"), Node::new("b", "N"), Node::new("c", "N")]).expect("ingest nodes");
    store.ingest_edges(k, vec![Edge::new("a", "b", "R1"), Edge::new("b", "c", "R2")]).expect("ingest edges");

    let chain = || {
        vec![
            path(np(Some("a"), None), edge(Some("r1"), Some("R1")), np(Some("b"), None)),
            path(np(Some("b"), None), edge(Some("r2"), Some("R2")), np(Some("c"), None)),
        ]
    };
    let q = query(chain(), None, ret(vec![agg(Aggregation::Count(var("r1")))], None));
    let r = store.execute(k, &q).expect("exec");
    assert_eq!(scalar_int(&r.rows[0], "count"), 1);

    let q2 = query(chain(), None, ret(vec![agg(Aggregation::Count(var("r2")))], None));
    let r2 = store.execute(k, &q2).expect("exec");
    assert_eq!(scalar_int(&r2.rows[0], "count"), 1);
}

#[test]
fn roundtrip_count_named_edge_var() {
    let (store, k) = roundtripped_store();
    let q = count_query(path(np(Some("a"), None), edge(Some("r"), Some("REL")), np(Some("b"), None)), Aggregation::Count(var("r")));
    let r = store.execute(k, &q).expect("exec");
    assert_eq!(scalar_int(&r.rows[0], "count"), 1, "rows={:?}", r.rows);
}

#[test]
fn roundtrip_edge_property_access() {
    let (store, k) = roundtripped_store();
    let q = query(
        vec![path(np(Some("a"), None), edge(Some("r"), Some("REL")), np(Some("b"), None))],
        None,
        ret(vec![col(prop("r", "label"), None)], None),
    );
    let r = store.execute(k, &q).expect("exec");
    assert_eq!(scalar_str(&r.rows[0], "r.label"), "REL");
}

#[test]
fn anonymous_edge_pattern_still_works() {
    let (store, k) = fresh_store_with_fixture();
    let q = count_query(path(np(Some("a"), Some("N")), edge(None, Some("REL")), np(Some("b"), Some("N"))), Aggregation::Count(var("a")));
    let r = store.execute(k, &q).expect("exec");
    assert_eq!(scalar_int(&r.rows[0], "count"), 1);
}

#[test]
fn unknown_edge_label_still_warns() {
    let (store, k) = fresh_store_with_fixture();
    let q = count_query(path(np(Some("a"), None), edge(Some("r"), Some("NOSUCH")), np(Some("b"), None)), Aggregation::Count(var("r")));
    let r = store.execute(k, &q).expect("exec");
    assert!(
        r.warnings.iter().any(|w| matches!(w.kind, WarningKind::UnknownEdgeLabel)),
        "UnknownEdgeLabel warning must fire; warnings={:?}",
        r.warnings
    );
}

// ---------------------------------------------------------------------
// Cross-MATCH homonym join
// ---------------------------------------------------------------------

const FIXTURE_SIZE: usize = 1_000;
const HOMONYM_PAIR_COUNT: usize = 10;

fn slice6_spec() -> IndexSpec {
    IndexSpec {
        entries: vec![
            IndexEntry::Prop { label: "Item".into(), prop: "qname".into(), notes: "slice-6 test".into() },
            IndexEntry::Prop { label: "Item".into(), prop: "bounded_context".into(), notes: "slice-6 test".into() },
            IndexEntry::Computed {
                label: "Item".into(),
                computed: ComputedKey::LastSegment,
                notes: "slice-6 test — homonym bucket key".into(),
            },
        ],
    }
}

fn build_fixture_nodes() -> Vec<Node> {
    let mut out: Vec<Node> = Vec::with_capacity(FIXTURE_SIZE);
    for i in 0..HOMONYM_PAIR_COUNT {
        let name = format!("shared_{i}");
        out.push(
            Node::new(&format!("item:a:{i}"), "Item")
                .with_prop("qname", s(&format!("ctx_a::mod::{name}")))
                .with_prop("bounded_context", s("A")),
        );
        out.push(
            Node::new(&format!("item:b:{i}"), "Item")
                .with_prop("qname", s(&format!("ctx_b::mod::{name}")))
                .with_prop("bounded_context", s("B")),
        );
    }
    let noise_start = 2 * HOMONYM_PAIR_COUNT;
    for i in noise_start..FIXTURE_SIZE {
        let ctx = if i % 3 == 0 { "A" } else { "B" };
        out.push(
            Node::new(&format!("item:n:{i}"), "Item")
                .with_prop("qname", s(&format!("ctx_{}::mod::uniq_{i}", ctx.to_lowercase())))
                .with_prop("bounded_context", s(ctx)),
        );
    }
    out
}

fn build_store(spec: IndexSpec) -> (PetgraphStore, &'static str) {
    let ks = "slice6-cross-match";
    let mut store = PetgraphStore::new();
    store.keyspaces.insert(ks.to_string(), KeyspaceState::new_with_spec(spec));
    store.ingest_nodes(ks, build_fixture_nodes()).expect("ingest");
    (store, ks)
}

fn build_homonym_query(ctx: &str) -> Query {
    let call_last_segment = |v: &str| Expr::Call { name: "last_segment".into(), args: vec![prop(v, "qname")] };
    let ctx_eq = Predicate::Compare { left: prop("a", "bounded_context"), op: CompareOp::Eq, right: Expr::Param("ctx".into()) };
    let ctx_ne = Predicate::Compare { left: prop("b", "bounded_context"), op: CompareOp::Ne, right: Expr::Param("ctx".into()) };
    let last_seg_eq = Predicate::Compare { left: call_last_segment("a"), op: CompareOp::Eq, right: call_last_segment("b") };
    let qname_ne = Predicate::Compare { left: prop("a", "qname"), op: CompareOp::Ne, right: prop("b", "qname") };
    let where_clause = and(and(ctx_eq, ctx_ne), and(last_seg_eq, qname_ne));
    let mut params = SortedMap::new();
    params.insert("ctx".to_string(), ParamBinding::Scalar(s(ctx)));
    Query {
        match_clauses: vec![Pattern::Node(np(Some("a"), Some("Item"))), Pattern::Node(np(Some("b"), Some("Item")))],
        where_clause: Some(where_clause),
        with_clause: None,
        return_clause: ret(vec![col(prop("a", "qname"), Some("aqn")), col(prop("b", "qname"), Some("bqn"))], None),
        params,
    }
}

fn collect_aqn(store: &PetgraphStore, ks: &str, ctx: &str) -> BTreeSet<String> {
    let q = build_homonym_query(ctx);
    let result = store.execute(ks, &q).expect("execute");
    result
        .rows
        .iter()
        .filter_map(|row| match row.get(&"aqn".to_string()) {
            Some(RowValue::Scalar(PropValue::Str(x))) => Some(x.clone()),
            _ => None,
        })
        .collect()
}

#[test]
fn cross_match_returns_exactly_ten_homonym_pairs_on_indexed_keyspace() {
    let (store, ks) = build_store(slice6_spec());
    let got = collect_aqn(&store, ks, "A");
    assert_eq!(got.len(), HOMONYM_PAIR_COUNT);
    for i in 0..HOMONYM_PAIR_COUNT {
        let expected = format!("ctx_a::mod::shared_{i}");
        assert!(got.contains(&expected), "missing expected a-qname in result: {expected}");
    }
}

#[test]
fn cross_match_matches_full_scan_fallback_byte_for_byte() {
    let (indexed_store, indexed_ks) = build_store(slice6_spec());
    let (bare_store, bare_ks) = build_store(IndexSpec::empty());
    let via_index = collect_aqn(&indexed_store, indexed_ks, "A");
    let via_scan = collect_aqn(&bare_store, bare_ks, "A");
    assert_eq!(via_index, via_scan);
}

#[test]
fn cross_match_indexed_completes_under_100ms() {
    let (store, ks) = build_store(slice6_spec());
    let q = build_homonym_query("A");
    let _ = store.execute(ks, &q).expect("warm-up");
    let start = std::time::Instant::now();
    let _ = store.execute(ks, &q).expect("timed run");
    let elapsed = start.elapsed();
    assert!(elapsed.as_millis() < 100, "indexed cross-MATCH exceeded 100 ms budget: {elapsed:?}");
}

// ---------------------------------------------------------------------
// Index fast paths against the full scan
// ---------------------------------------------------------------------

fn qname_indexed_spec() -> IndexSpec {
    IndexSpec { entries: vec![IndexEntry::Prop { label: "Item".into(), prop: "qname".into(), notes: "test".into() }] }
}

fn fast_path_nodes() -> Vec<Node> {
    (0..FIXTURE_SIZE)
        .map(|i| {
            Node::new(&format!("item:{i}"), "Item")
                .with_prop("qname", s(&format!("item::{i}")))
                .with_prop("name", s(if i % 3 == 0 { "triple" } else { "other" }))
        })
        .collect()
}

fn build_state(spec: IndexSpec) -> KeyspaceState {
    let mut state = KeyspaceState::new_with_spec(spec);
    state.ingest_nodes(fast_path_nodes());
    state
}

fn where_eq(p: &str, value: &str) -> Predicate {
    eq(prop("a", p), Expr::Literal(s(value)))
}

fn final_set(state: &KeyspaceState, pattern: &NodePattern, where_clause: Option<&Predicate>) -> BTreeSet<usize> {
    let params = SortedMap::new();
    let empty: Bindings = SortedMap::new();
    let mut warnings = Vec::new();
    let mut explain = Vec::new();
    candidate_nodes(state, &params, pattern, where_clause, &empty, &mut warnings, &mut explain)
        .into_iter()
        .filter(|idx| node_props_match(state, *idx, pattern))
        .collect()
}

fn one_row_with_a(idx: usize) -> Bindings {
    let mut row = SortedMap::new();
    row.insert("a".to_string(), Binding::NodeRef(idx));
    row
}

#[test]
fn label_plus_literal_fast_path_matches_full_scan() {
    let indexed = build_state(qname_indexed_spec());
    let bare = build_state(IndexSpec::empty());
    let pattern = np_with_prop("a", "Item", "qname", "item::42");
    let via_index = final_set(&indexed, &pattern, None);
    let via_scan = final_set(&bare, &pattern, None);
    assert_eq!(via_index, via_scan);
    assert_eq!(via_index.len(), 1, "exactly one node matches item::42");
}

#[test]
fn label_plus_where_eq_fast_path_matches_full_scan() {
    let indexed = build_state(qname_indexed_spec());
    let bare = build_state(IndexSpec::empty());
    let pattern = np(Some("a"), Some("Item"));
    let pred = where_eq("qname", "item::17");
    let params = SortedMap::new();
    let via_index: BTreeSet<usize> = final_set(&indexed, &pattern, Some(&pred))
        .into_iter()
        .filter(|idx| eval_predicate(&indexed, &params, &one_row_with_a(*idx), &pred))
        .collect();
    let via_scan: BTreeSet<usize> = final_set(&bare, &pattern, Some(&pred))
        .into_iter()
        .filter(|idx| eval_predicate(&bare, &params, &one_row_with_a(*idx), &pred))
        .collect();
    assert_eq!(via_index, via_scan);
    assert_eq!(via_index.len(), 1);
}

#[test]
fn non_indexed_prop_falls_back_to_label_scan() {
    let indexed = build_state(qname_indexed_spec());
    let bare = build_state(IndexSpec::empty());
    let pattern = np_with_prop("a", "Item", "name", "triple");
    let via_index = final_set(&indexed, &pattern, None);
    let via_scan = final_set(&bare, &pattern, None);
    assert_eq!(via_index, via_scan);
    let expected = (0..FIXTURE_SIZE).filter(|i| i % 3 == 0).count();
    assert_eq!(via_index.len(), expected, "every third fixture node has name='triple'");
}

// ---------------------------------------------------------------------
// The last_segment function
// ---------------------------------------------------------------------

#[test]
fn tests_call_last_segment_agrees_with_canonical_owner_byte_for_byte() {
    let state = KeyspaceState::new();
    let params = SortedMap::new();
    let bindings: Bindings = SortedMap::new();
    let cases = [
        ("foo::bar::baz", "baz"),
        ("foo", "foo"),
        ("", ""),
        ("cfdb_extractor::item_visitor::ItemVisitor::emit_item", "emit_item"),
        ("single_segment", "single_segment"),
        ("::leading_separator", "leading_separator"),
        ("trailing_separator::", ""),
        ("cfdb_core::qname::last_segment", "last_segment"),
    ];
    for (input, expected) in cases {
        let e = Expr::Call { name: "last_segment".into(), args: vec![Expr::Literal(s(input))] };
        let actual = eval_expr(&state, &params, &bindings, &e);
        match actual {
            Some(PropValue::Str(got)) => assert_eq!(got, expected, "last_segment diverged on input {input:?}"),
            other => panic!("last_segment on {input:?} gave {other:?}"),
        }
    }
}

#[test]
fn tests_call_last_segment_returns_none_on_non_string_input() {
    let state = KeyspaceState::new();
    let params = SortedMap::new();
    let bindings: Bindings = SortedMap::new();
    let e = Expr::Call { name: "last_segment".into(), args: vec![Expr::Literal(PropValue::Int(42))] };
    assert!(eval_expr(&state, &params, &bindings, &e).is_none());
}

// ---------------------------------------------------------------------
// Candidate lookups of a cartesian product
// ---------------------------------------------------------------------

fn item_node(qname: &str, kind: &str) -> Node {
    Node::new(&format!("item:{qname}"), "Item").with_prop("qname", s(qname)).with_prop("kind", s(kind))
}

fn ingest_items(store: &mut PetgraphStore, ks: &str, count: usize) {
    let nodes: Vec<Node> = (0..count)
        .map(|i| {
            let kind = if i % 2 == 0 { "fn" } else { "method" };
            item_node(&format!("mod::item_{i}"), kind)
        })
        .collect();
    store.ingest_nodes(ks, nodes).expect("ingest");
}

fn count_lookups_for(explain: &[ExplainRow], pattern_marker: &str) -> usize {
    explain.iter().filter(|row| row.pattern.contains(pattern_marker)).count()
}

fn cartesian_query(where_clause: Option<Predicate>) -> Query {
    query(
        vec![Pattern::Node(np(Some("a"), Some("Item"))), Pattern::Node(np(Some("b"), Some("Item")))],
        where_clause,
        ret(vec![col(var("a"), Some("a"))], Some(1)),
    )
}

#[test]
fn issue_409_pure_cartesian_b_resolved_once_not_per_outer_row() {
    let mut store = PetgraphStore::new();
    let ks = "test";
    ingest_items(&mut store, ks, 50);
    let q = cartesian_query(None);
    let (_result, explain) = store.execute_explained(ks, &q).expect("execute");
    assert_eq!(count_lookups_for(&explain, "(a:"), 1, "outer (a:Item) resolved once: {explain:?}");
    assert_eq!(count_lookups_for(&explain, "(b:"), 1, "inner (b:Item) resolved once: {explain:?}");
}

#[test]
fn issue_409_own_var_where_predicates_stay_cached() {
    let mut store = PetgraphStore::new();
    let ks = "test";
    ingest_items(&mut store, ks, 50);
    let a_kind_eq = eq(prop("a", "kind"), Expr::Literal(s("fn")));
    let b_kind_eq = eq(prop("b", "kind"), Expr::Literal(s("fn")));
    let q = cartesian_query(Some(and(a_kind_eq, b_kind_eq)));
    let (_result, explain) = store.execute_explained(ks, &q).expect("execute");
    assert_eq!(count_lookups_for(&explain, "(a:"), 1, "outer (a:Item) resolved once");
    assert_eq!(count_lookups_for(&explain, "(b:"), 1, "own-var WHERE keeps b cached: {explain:?}");
}

#[test]
fn cross_binding_predicate_still_iterates_per_outer_row() {
    let mut store = PetgraphStore::new();
    let ks = "test";
    ingest_items(&mut store, ks, 5);
    let cross = eq(prop("a", "kind"), prop("b", "kind"));
    let q = cartesian_query(Some(cross));
    let (result, explain) = store.execute_explained(ks, &q).expect("execute");
    assert!(result.rows.len() >= 1, "cross-binding query must still produce results; explain = {explain:?}");
}

#[test]
fn predicate_call_last_segment_agrees_with_canonical_owner_byte_for_byte() {
    let state = KeyspaceState::new();
    let params = SortedMap::new();
    let bindings: Bindings = SortedMap::new();
    let cases = [("foo::bar::baz", "baz"), ("foo", "foo"), ("", ""), ("::leading_separator", "leading_separator"), ("trailing_separator::", "")];
    for (input, expected) in cases {
        let e = Expr::Call { name: "last_segment".into(), args: vec![Expr::Literal(s(input))] };
        match eval_expr(&state, &params, &bindings, &e) {
            Some(PropValue::Str(got)) => assert_eq!(got, expected, "last_segment diverged on input {input:?}"),
            other => panic!("last_segment on {input:?} gave {other:?}"),
        }
    }
}

#[test]
fn predicate_call_last_segment_returns_none_on_non_string_input() {
    let state = KeyspaceState::new();
    let params = SortedMap::new();
    let bindings: Bindings = SortedMap::new();
    let e = Expr::Call { name: "last_segment".into(), args: vec![Expr::Literal(PropValue::Bool(true))] };
    assert!(eval_expr(&state, &params, &bindings, &e).is_none());
}

#[test]
fn return_without_order_by_ignores_ingestion_order() {
    let names = ["gamma", "alpha", "beta"];
    let build = |order: &[usize]| {
        let mut store = PetgraphStore::new();
        let nodes: Vec<Node> = order.iter().map(|&i| Node::new(&format!("n:{}", names[i]), "N").with_prop("qname", s(names[i]))).collect();
        store.ingest_nodes("k", nodes).expect("ingest");
        store
    };
    let q = query(vec![Pattern::Node(np(Some("n"), Some("N")))], None, ret(vec![col(prop("n", "qname"), Some("q"))], None));
    let a = build(&[0, 1, 2]).execute("k", &q).expect("run");
    let b = build(&[2, 0, 1]).execute("k", &q).expect("run");
    let qa: Vec<String> = a.rows.iter().map(|r| scalar_str(r, "q")).collect();
    let qb: Vec<String> = b.rows.iter().map(|r| scalar_str(r, "q")).collect();
    assert_eq!(qa, qb);
    assert_eq!(qa, vec!["alpha".to_string(), "beta".to_string(), "gamma".to_string()]);
}
