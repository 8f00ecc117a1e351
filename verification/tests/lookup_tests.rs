use cfdb_petgraph::fact::{Node, PropValue};
use cfdb_petgraph::graph::KeyspaceState;
use cfdb_petgraph::index_spec::{ComputedKey, IndexEntry, IndexSpec, CONVERSION_PREFIX_PATTERN};
use cfdb_petgraph::keys::VarProp;
use cfdb_petgraph::lookup::{candidates_from_index, BoundProps, Params};
use cfdb_petgraph::query::{CompareOp, Expr, NodePattern, ParamBinding, Predicate};
use cfdb_petgraph::sorted::SortedMap;

fn s(x: &str) -> PropValue {
    PropValue::Str(x.to_string())
}

fn no_params() -> Params {
    SortedMap::new()
}

fn no_bound() -> BoundProps {
    SortedMap::new()
}

fn bound(pairs: &[(&str, &str, &str)]) -> BoundProps {
    let mut m: BoundProps = SortedMap::new();
    for (v, p, value) in pairs {
        m.insert(VarProp { var: v.to_string(), prop: p.to_string() }, value.to_string());
    }
    m
}

fn qname_spec() -> IndexSpec {
    IndexSpec {
        entries: vec![
            IndexEntry::Prop { label: "Item".into(), prop: "qname".into(), notes: "test".into() },
            IndexEntry::Prop { label: "Item".into(), prop: "bounded_context".into(), notes: "test".into() },
            IndexEntry::Computed { label: "Item".into(), computed: ComputedKey::LastSegment, notes: "test".into() },
        ],
    }
}

fn state_with_nodes(spec: IndexSpec, nodes: Vec<Node>) -> KeyspaceState {
    let mut state = KeyspaceState::new_with_spec(spec);
    state.ingest_nodes(nodes);
    state
}

fn item(id: &str, qname: &str, ctx: &str) -> Node {
    Node::new(id, "Item").with_prop("qname", s(qname)).with_prop("bounded_context", s(ctx))
}

fn item_named(id: &str, name: &str, ctx: &str) -> Node {
    Node::new(id, "Item").with_prop("name", s(name)).with_prop("bounded_context", s(ctx))
}

fn np_item(var: &str) -> NodePattern {
    NodePattern { var: Some(var.into()), label: Some("Item".into()), props: SortedMap::new() }
}

fn np_item_with_qname(qname: &str) -> NodePattern {
    let mut np = np_item("a");
    np.props.insert("qname".to_string(), s(qname));
    np
}

fn prop(var: &str, p: &str) -> Expr {
    Expr::Property { var: var.into(), prop: p.into() }
}

fn where_a_prop_eq_literal(p: &str, value: &str) -> Predicate {
    Predicate::Compare { left: prop("a", p), op: CompareOp::Eq, right: Expr::Literal(s(value)) }
}

fn call(name: &str, var: &str, p: &str) -> Expr {
    Expr::Call { name: name.into(), args: vec![prop(var, p)] }
}

fn where_computed_eq(f: &str, lv: &str, lp: &str, rv: &str, rp: &str) -> Predicate {
    Predicate::Compare { left: call(f, lv, lp), op: CompareOp::Eq, right: call(f, rv, rp) }
}

fn where_prop_eq(lv: &str, lp: &str, rv: &str, rp: &str) -> Predicate {
    Predicate::Compare { left: prop(lv, lp), op: CompareOp::Eq, right: prop(rv, rp) }
}

fn call_regexp(var: &str, p: &str, pattern: &str) -> Expr {
    Expr::Call { name: "regexp_extract".into(), args: vec![prop(var, p), Expr::Literal(s(pattern))] }
}

fn where_regexp_eq(lv: &str, lp: &str, rv: &str, rp: &str, pattern: &str) -> Predicate {
    Predicate::Compare { left: call_regexp(lv, lp, pattern), op: CompareOp::Eq, right: call_regexp(rv, rp, pattern) }
}

#[test]
fn returns_none_when_spec_is_empty() {
    let state = state_with_nodes(IndexSpec::empty(), vec![item("i:1", "foo::a", "ctx")]);
    let np = np_item_with_qname("foo::a");
    assert!(candidates_from_index(&state, &np, None, &no_params(), &no_bound()).is_none());
}

#[test]
fn returns_none_when_label_missing_on_pattern() {
    let state = state_with_nodes(qname_spec(), vec![item("i:1", "foo::a", "ctx")]);
    let mut np = np_item_with_qname("foo::a");
    np.label = None;
    assert!(candidates_from_index(&state, &np, None, &no_params(), &no_bound()).is_none());
}

#[test]
fn returns_none_when_no_hints_match_spec() {
    let state = state_with_nodes(qname_spec(), vec![item("i:1", "foo::a", "ctx")]);
    let mut np = np_item("a");
    np.props.insert("name".into(), s("anything"));
    assert!(candidates_from_index(&state, &np, None, &no_params(), &no_bound()).is_none());
}

#[test]
fn pattern_literal_hits_posting_list() {
    let state = state_with_nodes(
        qname_spec(),
        vec![item("i:1", "foo::a", "ctx"), item("i:2", "foo::b", "ctx"), item("i:3", "foo::a", "other")],
    );
    let np = np_item_with_qname("foo::a");
    let got = candidates_from_index(&state, &np, None, &no_params(), &no_bound()).expect("indexed path");
    assert_eq!(got, vec![0, 2]);
}

#[test]
fn pattern_literal_miss_returns_empty_vec() {
    let state = state_with_nodes(qname_spec(), vec![item("i:1", "foo::a", "ctx")]);
    let np = np_item_with_qname("does::not::exist");
    let got = candidates_from_index(&state, &np, None, &no_params(), &no_bound()).expect("indexed path");
    assert!(got.is_empty(), "an indexed miss is still an indexed answer, not a fallback");
}

#[test]
fn where_eq_literal_becomes_a_hint() {
    let state = state_with_nodes(qname_spec(), vec![item("i:1", "foo::a", "ctx"), item("i:2", "foo::b", "ctx")]);
    let pred = where_a_prop_eq_literal("qname", "foo::a");
    let got = candidates_from_index(&state, &np_item("a"), Some(&pred), &no_params(), &no_bound()).expect("indexed path");
    assert_eq!(got, vec![0]);
}

#[test]
fn where_eq_param_becomes_a_hint() {
    let state = state_with_nodes(qname_spec(), vec![item("i:1", "foo::a", "ctx"), item("i:2", "foo::b", "ctx")]);
    let pred = Predicate::Compare { left: prop("a", "qname"), op: CompareOp::Eq, right: Expr::Param("q".into()) };
    let mut params = no_params();
    params.insert("q".to_string(), ParamBinding::Scalar(s("foo::b")));
    let got = candidates_from_index(&state, &np_item("a"), Some(&pred), &params, &no_bound()).expect("indexed path");
    assert_eq!(got, vec![1]);
}

#[test]
fn where_eq_list_param_contributes_no_hint() {
    let state = state_with_nodes(qname_spec(), vec![item("i:1", "foo::a", "ctx")]);
    let pred = Predicate::Compare { left: prop("a", "qname"), op: CompareOp::Eq, right: Expr::Param("q".into()) };
    let mut params = no_params();
    params.insert("q".to_string(), ParamBinding::List(vec![s("foo::a")]));
    assert!(candidates_from_index(&state, &np_item("a"), Some(&pred), &params, &no_bound()).is_none());
}

#[test]
fn where_eq_commuted_literal_prop_hits() {
    let state = state_with_nodes(qname_spec(), vec![item("i:1", "foo::a", "ctx"), item("i:2", "foo::b", "ctx")]);
    let pred = Predicate::Compare { left: Expr::Literal(s("foo::a")), op: CompareOp::Eq, right: prop("a", "qname") };
    let got = candidates_from_index(&state, &np_item("a"), Some(&pred), &no_params(), &no_bound()).expect("indexed path");
    assert_eq!(got, vec![0]);
}

#[test]
fn where_and_conjunction_intersects_posting_lists() {
    let state = state_with_nodes(
        qname_spec(),
        vec![item("i:1", "foo::a", "ctx1"), item("i:2", "foo::a", "ctx2"), item("i:3", "foo::b", "ctx1")],
    );
    let pred = Predicate::And(
        Box::new(where_a_prop_eq_literal("qname", "foo::a")),
        Box::new(where_a_prop_eq_literal("bounded_context", "ctx1")),
    );
    let got = candidates_from_index(&state, &np_item("a"), Some(&pred), &no_params(), &no_bound()).expect("indexed path");
    assert_eq!(got, vec![0]);
}

#[test]
fn where_or_alone_contributes_no_hint() {
    let state = state_with_nodes(qname_spec(), vec![item("i:1", "foo::a", "ctx"), item("i:2", "foo::b", "ctx")]);
    let pred = Predicate::Or(
        Box::new(where_a_prop_eq_literal("qname", "foo::a")),
        Box::new(where_a_prop_eq_literal("qname", "foo::b")),
    );
    assert!(candidates_from_index(&state, &np_item("a"), Some(&pred), &no_params(), &no_bound()).is_none());
}

#[test]
fn where_not_alone_contributes_no_hint() {
    let state = state_with_nodes(qname_spec(), vec![item("i:1", "foo::a", "ctx")]);
    let pred = Predicate::Not(Box::new(where_a_prop_eq_literal("qname", "foo::a")));
    assert!(candidates_from_index(&state, &np_item("a"), Some(&pred), &no_params(), &no_bound()).is_none());
}

#[test]
fn where_or_inside_and_does_not_invalidate_sibling_hint() {
    let state = state_with_nodes(
        qname_spec(),
        vec![item("i:1", "foo::a", "x"), item("i:2", "foo::a", "z"), item("i:3", "foo::b", "x")],
    );
    let pred = Predicate::And(
        Box::new(where_a_prop_eq_literal("qname", "foo::a")),
        Box::new(Predicate::Or(
            Box::new(where_a_prop_eq_literal("bounded_context", "x")),
            Box::new(where_a_prop_eq_literal("bounded_context", "y")),
        )),
    );
    let got = candidates_from_index(&state, &np_item("a"), Some(&pred), &no_params(), &no_bound()).expect("qname hint still valid");
    assert_eq!(got.len(), 2);
}

#[test]
fn where_non_eq_compare_is_ignored_not_fatal() {
    let state = state_with_nodes(qname_spec(), vec![item("i:1", "foo::a", "ctx"), item("i:2", "foo::b", "ctx")]);
    let np = np_item_with_qname("foo::a");
    let pred = Predicate::Compare { left: prop("a", "qname"), op: CompareOp::Lt, right: Expr::Literal(s("zzz")) };
    let got = candidates_from_index(&state, &np, Some(&pred), &no_params(), &no_bound()).expect("indexed via pattern literal");
    assert_eq!(got.len(), 1);
}

#[test]
fn where_eq_for_unrelated_var_is_ignored() {
    let state = state_with_nodes(qname_spec(), vec![item("i:1", "foo::a", "ctx"), item("i:2", "foo::b", "ctx")]);
    let np = np_item_with_qname("foo::a");
    let pred = Predicate::Compare { left: prop("b", "qname"), op: CompareOp::Eq, right: Expr::Literal(s("foo::b")) };
    let got = candidates_from_index(&state, &np, Some(&pred), &no_params(), &no_bound()).expect("indexed via pattern literal");
    assert_eq!(got.len(), 1);
}

#[test]
fn where_clause_ignored_for_anonymous_pattern() {
    let state = state_with_nodes(qname_spec(), vec![item("i:1", "foo::a", "ctx")]);
    let mut np = np_item("a");
    np.var = None;
    let pred = where_a_prop_eq_literal("qname", "foo::a");
    assert!(candidates_from_index(&state, &np, Some(&pred), &no_params(), &no_bound()).is_none());
}

#[test]
fn integer_literal_matches_by_index_key() {
    let spec = IndexSpec { entries: vec![IndexEntry::Prop { label: "Item".into(), prop: "arity".into(), notes: "t".into() }] };
    let state = state_with_nodes(
        spec,
        vec![Node::new("i:1", "Item").with_prop("arity", PropValue::Int(2)), Node::new("i:2", "Item").with_prop("arity", PropValue::Int(3))],
    );
    let mut np = np_item("a");
    np.props.insert("arity".to_string(), PropValue::Int(3));
    assert_eq!(candidates_from_index(&state, &np, None, &no_params(), &no_bound()), Some(vec![1]));
}

fn slice6_spec() -> IndexSpec {
    qname_spec()
}

#[test]
fn cross_match_resolves_target_b_against_bound_a() {
    let state = state_with_nodes(
        slice6_spec(),
        vec![item("i:1", "other::path::Foo", "ctx1"), item("i:2", "mod::Foo", "ctx2"), item("i:3", "mod::Bar", "ctx3")],
    );
    let pred = where_computed_eq("last_segment", "a", "qname", "b", "qname");
    let got = candidates_from_index(&state, &np_item("b"), Some(&pred), &no_params(), &bound(&[("a", "qname", "some::path::Foo")]))
        .expect("indexed path");
    assert_eq!(got.len(), 2);
}

#[test]
fn cross_match_resolves_target_a_against_bound_b_commuted() {
    let state = state_with_nodes(
        slice6_spec(),
        vec![item("i:1", "x::Foo", "ctx1"), item("i:2", "y::Foo", "ctx2"), item("i:3", "z::Bar", "ctx3")],
    );
    let pred = where_computed_eq("last_segment", "a", "qname", "b", "qname");
    let got = candidates_from_index(&state, &np_item("a"), Some(&pred), &no_params(), &bound(&[("b", "qname", "q::r::Bar")]))
        .expect("indexed path");
    assert_eq!(got, vec![2]);
}

#[test]
fn cross_match_falls_through_when_bound_var_unresolved() {
    let state = state_with_nodes(slice6_spec(), vec![item("i:1", "x::Foo", "ctx")]);
    let pred = where_computed_eq("last_segment", "a", "qname", "b", "qname");
    assert!(candidates_from_index(&state, &np_item("b"), Some(&pred), &no_params(), &no_bound()).is_none());
}

#[test]
fn cross_match_skips_unknown_call_name() {
    let state = state_with_nodes(slice6_spec(), vec![item("i:1", "x::Foo", "ctx")]);
    let pred = where_computed_eq("not_a_computed_key", "a", "qname", "b", "qname");
    assert!(candidates_from_index(&state, &np_item("b"), Some(&pred), &no_params(), &bound(&[("a", "qname", "x::Foo")])).is_none());
}

#[test]
fn cross_match_skips_when_spec_lacks_computed_entry() {
    let spec = IndexSpec { entries: vec![IndexEntry::Prop { label: "Item".into(), prop: "qname".into(), notes: "test".into() }] };
    let state = state_with_nodes(spec, vec![item("i:1", "x::Foo", "ctx")]);
    let pred = where_computed_eq("last_segment", "a", "qname", "b", "qname");
    assert!(candidates_from_index(&state, &np_item("b"), Some(&pred), &no_params(), &bound(&[("a", "qname", "x::Foo")])).is_none());
}

#[test]
fn cross_match_skips_when_both_sides_are_target_var() {
    let state = state_with_nodes(slice6_spec(), vec![item("i:1", "x::Foo", "ctx")]);
    let pred = where_computed_eq("last_segment", "b", "qname", "b", "name");
    assert!(candidates_from_index(&state, &np_item("b"), Some(&pred), &no_params(), &bound(&[("b", "qname", "x::Foo")])).is_none());
}

#[test]
fn cross_match_skips_when_neither_side_is_target_var() {
    let state = state_with_nodes(slice6_spec(), vec![item("i:1", "x::Foo", "ctx")]);
    let pred = where_computed_eq("last_segment", "a", "qname", "c", "qname");
    assert!(candidates_from_index(
        &state,
        &np_item("b"),
        Some(&pred),
        &no_params(),
        &bound(&[("a", "qname", "x::Foo"), ("c", "qname", "y::Foo")])
    )
    .is_none());
}

fn name_indexed_spec() -> IndexSpec {
    IndexSpec {
        entries: vec![
            IndexEntry::Prop { label: "Item".into(), prop: "name".into(), notes: "test".into() },
            IndexEntry::Prop { label: "Item".into(), prop: "bounded_context".into(), notes: "test".into() },
        ],
    }
}

#[test]
fn cross_match_prop_eq_resolves_target_b_against_bound_a() {
    let state = state_with_nodes(
        name_indexed_spec(),
        vec![
            item_named("i:1", "Foo", "ctx_a"),
            item_named("i:2", "Bar", "ctx_a"),
            item_named("i:3", "Foo", "ctx_b"),
            item_named("i:4", "Baz", "ctx_c"),
        ],
    );
    let pred = where_prop_eq("a", "name", "b", "name");
    let got = candidates_from_index(&state, &np_item("b"), Some(&pred), &no_params(), &bound(&[("a", "name", "Foo")]))
        .expect("indexed prop-to-prop path");
    assert_eq!(got, vec![0, 2]);
}

#[test]
fn cross_match_prop_eq_resolves_target_a_against_bound_b_commuted() {
    let state = state_with_nodes(
        name_indexed_spec(),
        vec![item_named("i:1", "Foo", "ctx_a"), item_named("i:2", "Bar", "ctx_a"), item_named("i:3", "Foo", "ctx_b")],
    );
    let pred = where_prop_eq("a", "name", "b", "name");
    let got = candidates_from_index(&state, &np_item("a"), Some(&pred), &no_params(), &bound(&[("b", "name", "Bar")]))
        .expect("indexed prop-to-prop path");
    assert_eq!(got, vec![1]);
}

#[test]
fn cross_match_prop_eq_falls_through_when_bound_var_unresolved() {
    let state = state_with_nodes(name_indexed_spec(), vec![item_named("i:1", "Foo", "ctx")]);
    let pred = where_prop_eq("a", "name", "b", "name");
    assert!(candidates_from_index(&state, &np_item("b"), Some(&pred), &no_params(), &no_bound()).is_none());
}

#[test]
fn cross_match_prop_eq_skips_when_prop_not_indexed() {
    let spec = IndexSpec { entries: vec![IndexEntry::Prop { label: "Item".into(), prop: "bounded_context".into(), notes: "test".into() }] };
    let state = state_with_nodes(spec, vec![item_named("i:1", "Foo", "ctx")]);
    let pred = where_prop_eq("a", "name", "b", "name");
    assert!(candidates_from_index(&state, &np_item("b"), Some(&pred), &no_params(), &bound(&[("a", "name", "Foo")])).is_none());
}

#[test]
fn cross_match_prop_eq_skips_when_props_differ() {
    let spec = IndexSpec {
        entries: vec![
            IndexEntry::Prop { label: "Item".into(), prop: "name".into(), notes: "test".into() },
            IndexEntry::Prop { label: "Item".into(), prop: "crate".into(), notes: "test".into() },
        ],
    };
    let state = state_with_nodes(spec, vec![item_named("i:1", "Foo", "ctx")]);
    let pred = where_prop_eq("a", "name", "b", "crate");
    assert!(candidates_from_index(&state, &np_item("b"), Some(&pred), &no_params(), &bound(&[("a", "name", "Foo")])).is_none());
}

#[test]
fn cross_match_prop_eq_skips_when_both_sides_are_target_var() {
    let state = state_with_nodes(name_indexed_spec(), vec![item_named("i:1", "Foo", "ctx")]);
    let pred = where_prop_eq("b", "name", "b", "name");
    assert!(candidates_from_index(&state, &np_item("b"), Some(&pred), &no_params(), &bound(&[("b", "name", "Foo")])).is_none());
}

#[test]
fn cross_match_prop_eq_skips_when_neither_side_is_target_var() {
    let state = state_with_nodes(name_indexed_spec(), vec![item_named("i:1", "Foo", "ctx")]);
    let pred = where_prop_eq("a", "name", "c", "name");
    assert!(candidates_from_index(
        &state,
        &np_item("b"),
        Some(&pred),
        &no_params(),
        &bound(&[("a", "name", "Foo"), ("c", "name", "Foo")])
    )
    .is_none());
}

fn conversion_prefix_spec() -> IndexSpec {
    IndexSpec { entries: vec![IndexEntry::Computed { label: "Item".into(), computed: ComputedKey::ConversionPrefix, notes: "test".into() }] }
}

#[test]
fn cross_match_conversion_prefix_resolves_target_b_against_bound_a() {
    let state = state_with_nodes(
        conversion_prefix_spec(),
        vec![
            item_named("i:1", "compute_0_from_bps", "ctx"),
            item_named("i:2", "compute_0_from_pct", "ctx"),
            item_named("i:3", "compute_1_from_bps", "ctx"),
            item_named("i:4", "uniq_9", "ctx"),
        ],
    );
    let pred = where_regexp_eq("a", "name", "b", "name", CONVERSION_PREFIX_PATTERN);
    let got = candidates_from_index(&state, &np_item("b"), Some(&pred), &no_params(), &bound(&[("a", "name", "compute_0_from_bps")]))
        .expect("indexed conversion-prefix path");
    assert_eq!(got, vec![0, 1]);
}

#[test]
fn cross_match_conversion_prefix_resolves_target_a_against_bound_b_commuted() {
    let state = state_with_nodes(
        conversion_prefix_spec(),
        vec![item_named("i:1", "qty_to_notional", "ctx"), item_named("i:2", "qty_to_base", "ctx"), item_named("i:3", "price_for_side", "ctx")],
    );
    let pred = where_regexp_eq("a", "name", "b", "name", CONVERSION_PREFIX_PATTERN);
    let got = candidates_from_index(&state, &np_item("a"), Some(&pred), &no_params(), &bound(&[("b", "name", "qty_to_notional")]))
        .expect("indexed conversion-prefix path");
    assert_eq!(got.len(), 2);
}

#[test]
fn cross_match_conversion_prefix_non_matching_bound_narrows_to_empty() {
    let state = state_with_nodes(
        conversion_prefix_spec(),
        vec![item_named("i:1", "compute_0_from_bps", "ctx"), item_named("i:2", "compute_0_from_pct", "ctx")],
    );
    let pred = where_regexp_eq("a", "name", "b", "name", CONVERSION_PREFIX_PATTERN);
    let got = candidates_from_index(&state, &np_item("b"), Some(&pred), &no_params(), &bound(&[("a", "name", "uniq_9")]))
        .expect("provably-empty commits to an empty answer, not a fallback");
    assert!(got.is_empty());
}

#[test]
fn cross_match_conversion_prefix_empty_narrow_gated_on_index_present() {
    let spec = IndexSpec { entries: vec![IndexEntry::Prop { label: "Item".into(), prop: "name".into(), notes: "test".into() }] };
    let state = state_with_nodes(spec, vec![item_named("i:1", "compute_0_from_bps", "ctx")]);
    let pred = where_regexp_eq("a", "name", "b", "name", CONVERSION_PREFIX_PATTERN);
    assert!(candidates_from_index(&state, &np_item("b"), Some(&pred), &no_params(), &bound(&[("a", "name", "uniq_9")])).is_none());
}

#[test]
fn cross_match_conversion_prefix_wrong_literal_no_hint() {
    let state = state_with_nodes(conversion_prefix_spec(), vec![item_named("i:1", "compute_0_from_bps", "ctx")]);
    let pred = where_regexp_eq("a", "name", "b", "name", r"^(\w+)_(?:via)_");
    assert!(candidates_from_index(&state, &np_item("b"), Some(&pred), &no_params(), &bound(&[("a", "name", "compute_0_from_bps")])).is_none());
}

#[test]
fn cross_match_conversion_prefix_skips_when_call_reads_wrong_prop() {
    let state = state_with_nodes(conversion_prefix_spec(), vec![item_named("i:1", "compute_0_from_bps", "ctx")]);
    let pred = where_regexp_eq("a", "qname", "b", "qname", CONVERSION_PREFIX_PATTERN);
    assert!(candidates_from_index(&state, &np_item("b"), Some(&pred), &no_params(), &bound(&[("a", "qname", "crate::compute_0_from_bps")])).is_none());
}

#[test]
fn cross_match_conversion_prefix_falls_through_when_bound_var_unresolved() {
    let state = state_with_nodes(conversion_prefix_spec(), vec![item_named("i:1", "compute_0_from_bps", "ctx")]);
    let pred = where_regexp_eq("a", "name", "b", "name", CONVERSION_PREFIX_PATTERN);
    assert!(candidates_from_index(&state, &np_item("b"), Some(&pred), &no_params(), &no_bound()).is_none());
}
