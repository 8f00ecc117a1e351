use cfdb_petgraph::fact::{Edge, Node, PropValue, Props};
use cfdb_petgraph::graph::KeyspaceState;
use cfdb_petgraph::reachability::resolve_callee_to_item;
use cfdb_petgraph::store::PetgraphStore;

fn s(x: &str) -> PropValue {
    PropValue::Str(x.to_string())
}

fn item_node(qname: &str, crate_name: &str) -> Node {
    Node::new(&format!("item:{qname}"), "Item")
        .with_prop("qname", s(qname))
        .with_prop("name", s(qname))
        .with_prop("crate", s(crate_name))
        .with_prop("file", s("src/lib.rs"))
}

fn entry_point_node(id: &str) -> Node {
    entry_point_node_kind(id, "cli_command")
}

fn entry_point_node_kind(id: &str, kind: &str) -> Node {
    Node::new(id, "EntryPoint").with_prop("kind", s(kind))
}

fn calls_edge(src: &str, dst: &str) -> Edge {
    Edge::new(src, dst, "CALLS")
}

fn exposes_edge(src: &str, dst: &str) -> Edge {
    Edge::new(src, dst, "EXPOSES")
}

fn invokes_at_edge(src: &str, dst: &str) -> Edge {
    Edge::new(src, dst, "INVOKES_AT")
}

fn get_item_props(store: &PetgraphStore, keyspace: &str, qname: &str) -> Props {
    let (nodes, _) = store.export(keyspace).expect("export");
    nodes
        .into_iter()
        .find(|n| n.props.get(&"qname".to_string()).and_then(|v| v.as_str()).is_some_and(|q| q == qname))
        .unwrap_or_else(|| panic!(":Item {qname} not found"))
        .props
}

fn read_reach_pair(store: &PetgraphStore, keyspace: &str, qname: &str, reach_attr: &str, count_attr: &str) -> (bool, i64) {
    let props = get_item_props(store, keyspace, qname);
    let r = match props.get(&reach_attr.to_string()) {
        Some(PropValue::Bool(b)) => *b,
        _ => panic!("{reach_attr} must be Bool on item {qname}"),
    };
    let c = match props.get(&count_attr.to_string()) {
        Some(PropValue::Int(i)) => *i,
        _ => panic!("{count_attr} must be Int on item {qname}"),
    };
    (r, c)
}

fn get_reachability(store: &PetgraphStore, keyspace: &str, qname: &str) -> (bool, i64) {
    read_reach_pair(store, keyspace, qname, "reachable_from_entry", "reachable_entry_count")
}

fn get_production_reachability(store: &PetgraphStore, keyspace: &str, qname: &str) -> (bool, i64) {
    read_reach_pair(store, keyspace, qname, "reachable_from_production_entry", "reachable_production_entry_count")
}

fn store_with(nodes: Vec<Node>, edges: Vec<Edge>) -> PetgraphStore {
    let mut store = PetgraphStore::new();
    store.ingest_nodes("test", nodes).expect("ingest nodes");
    store.ingest_edges("test", edges).expect("ingest edges");
    store
}

#[test]
fn ac1_three_item_fixture_reachability() {
    let mut store = store_with(
        vec![entry_point_node("ep:E"), item_node("A", "x"), item_node("B", "x"), item_node("C", "x")],
        vec![exposes_edge("ep:E", "item:A"), calls_edge("item:A", "item:B")],
    );
    let report = store.enrich_reachability("test").expect("pass");
    assert!(report.ran);
    assert_eq!(report.facts_scanned, 1, "one entry point");
    assert_eq!(report.attrs_written, 12, "3 items × 4 attrs");
    assert_eq!(get_reachability(&store, "test", "A"), (true, 1), "A self-seeded");
    assert_eq!(get_reachability(&store, "test", "B"), (true, 1), "B reachable via A");
    assert_eq!(get_reachability(&store, "test", "C"), (false, 0), "C unreachable from any entry point");
}

#[test]
fn ac2_multi_entry_attribution_counts_distinct_origins() {
    let mut store = store_with(
        vec![
            entry_point_node("ep:E1"),
            entry_point_node("ep:E2"),
            item_node("A1", "x"),
            item_node("A2", "x"),
            item_node("Shared", "x"),
        ],
        vec![
            exposes_edge("ep:E1", "item:A1"),
            exposes_edge("ep:E2", "item:A2"),
            calls_edge("item:A1", "item:Shared"),
            calls_edge("item:A2", "item:Shared"),
        ],
    );
    store.enrich_reachability("test").expect("pass");
    assert_eq!(get_reachability(&store, "test", "A1"), (true, 1));
    assert_eq!(get_reachability(&store, "test", "A2"), (true, 1));
    assert_eq!(get_reachability(&store, "test", "Shared"), (true, 2), "Shared reached by both E1 and E2");
}

#[test]
fn ac3_zero_entry_points_returns_ran_false_with_warning() {
    let mut store = store_with(vec![item_node("A", "x"), item_node("B", "x")], vec![]);
    let report = store.enrich_reachability("test").expect("pass");
    assert!(!report.ran, "zero entry points → ran=false");
    assert_eq!(report.attrs_written, 0, "no items touched");
    assert!(
        report.warnings.iter().any(|w| w.contains("features hir")),
        "warning must point at `cfdb extract --features hir`: {:?}",
        report.warnings
    );
    let props_a = get_item_props(&store, "test", "A");
    assert!(!props_a.contains_key(&"reachable_from_entry".to_string()));
    assert!(!props_a.contains_key(&"reachable_entry_count".to_string()));
}

#[test]
fn ac5_call_cycle_does_not_loop_forever() {
    let mut store = store_with(
        vec![entry_point_node("ep:E"), item_node("A", "x"), item_node("B", "x")],
        vec![exposes_edge("ep:E", "item:A"), calls_edge("item:A", "item:B"), calls_edge("item:B", "item:A")],
    );
    let report = store.enrich_reachability("test").expect("pass");
    assert!(report.ran);
    assert_eq!(get_reachability(&store, "test", "A"), (true, 1));
    assert_eq!(get_reachability(&store, "test", "B"), (true, 1));
}

#[test]
fn tests_ac6_two_runs_produce_identical_canonical_dumps() {
    fn build() -> PetgraphStore {
        store_with(
            vec![
                entry_point_node("ep:E1"),
                entry_point_node("ep:E2"),
                item_node("A", "x"),
                item_node("B", "x"),
                item_node("C", "x"),
            ],
            vec![
                exposes_edge("ep:E1", "item:A"),
                exposes_edge("ep:E2", "item:B"),
                calls_edge("item:A", "item:C"),
                calls_edge("item:B", "item:C"),
            ],
        )
    }
    let mut s1 = build();
    s1.enrich_reachability("test").expect("run 1");
    let mut s2 = build();
    s2.enrich_reachability("test").expect("run 2");
    let d1 = s1.canonical_dump("test").expect("dump 1");
    let d2 = s2.canonical_dump("test").expect("dump 2");
    assert_eq!(d1, d2, "two runs must be byte-identical");
}

#[test]
fn entry_point_without_exposes_is_ignored() {
    let mut store = store_with(vec![entry_point_node("ep:E"), item_node("A", "x")], vec![]);
    let report = store.enrich_reachability("test").expect("pass");
    assert!(report.ran, "pass still runs when EP is dangling");
    assert_eq!(get_reachability(&store, "test", "A"), (false, 0));
}

#[test]
fn bfs_ignores_non_calls_edges() {
    let mut store = store_with(
        vec![entry_point_node("ep:E"), item_node("A", "x"), item_node("B", "x")],
        vec![exposes_edge("ep:E", "item:A"), Edge::new("item:A", "item:B", "REFERENCED_BY")],
    );
    store.enrich_reachability("test").expect("pass");
    assert_eq!(get_reachability(&store, "test", "A"), (true, 1));
    assert_eq!(get_reachability(&store, "test", "B"), (false, 0), "REFERENCED_BY is not a call path");
}

#[test]
fn tests_unknown_keyspace_returns_err() {
    let mut store = PetgraphStore::new();
    let err = store.enrich_reachability("never").expect_err("unknown keyspace must err");
    assert!(format!("{err:?}").contains("UnknownKeyspace"));
}

#[test]
fn prod1_test_entry_excluded_from_production_pass() {
    let mut store = store_with(
        vec![
            entry_point_node_kind("ep:Mcp", "mcp_tool"),
            entry_point_node_kind("ep:Test", "test"),
            item_node("A", "x"),
            item_node("T", "x"),
        ],
        vec![exposes_edge("ep:Mcp", "item:A"), exposes_edge("ep:Test", "item:T")],
    );
    let report = store.enrich_reachability("test").expect("pass");
    assert!(report.ran);
    assert_eq!(report.attrs_written, 8, "2 items × 4 attrs");
    assert_eq!(get_reachability(&store, "test", "A"), (true, 1));
    assert_eq!(get_reachability(&store, "test", "T"), (true, 1));
    assert_eq!(get_production_reachability(&store, "test", "A"), (true, 1));
    assert_eq!(get_production_reachability(&store, "test", "T"), (false, 0));
}

#[test]
fn prod2_bench_entry_excluded_from_production_pass() {
    let mut store = store_with(
        vec![
            entry_point_node_kind("ep:Cli", "cli_command"),
            entry_point_node_kind("ep:Bench", "bench"),
            item_node("A", "x"),
            item_node("B", "x"),
        ],
        vec![exposes_edge("ep:Cli", "item:A"), exposes_edge("ep:Bench", "item:B")],
    );
    store.enrich_reachability("test").expect("pass");
    assert_eq!(get_reachability(&store, "test", "A"), (true, 1));
    assert_eq!(get_reachability(&store, "test", "B"), (true, 1));
    assert_eq!(get_production_reachability(&store, "test", "A"), (true, 1));
    assert_eq!(get_production_reachability(&store, "test", "B"), (false, 0));
}

#[test]
fn prod3_shared_item_counts_only_production_entries_in_prod_pass() {
    let mut store = store_with(
        vec![
            entry_point_node_kind("ep:Http", "http_route"),
            entry_point_node_kind("ep:Test", "test"),
            item_node("A1", "x"),
            item_node("T1", "x"),
            item_node("Shared", "x"),
        ],
        vec![
            exposes_edge("ep:Http", "item:A1"),
            exposes_edge("ep:Test", "item:T1"),
            calls_edge("item:A1", "item:Shared"),
            calls_edge("item:T1", "item:Shared"),
        ],
    );
    store.enrich_reachability("test").expect("pass");
    assert_eq!(get_reachability(&store, "test", "Shared"), (true, 2));
    assert_eq!(get_production_reachability(&store, "test", "Shared"), (true, 1));
    assert_eq!(get_reachability(&store, "test", "T1"), (true, 1));
    assert_eq!(get_production_reachability(&store, "test", "T1"), (false, 0));
}

#[test]
fn prod4_all_test_entries_writes_explicit_false_for_all_items() {
    let mut store = store_with(
        vec![
            entry_point_node_kind("ep:T1", "test"),
            entry_point_node_kind("ep:T2", "test"),
            item_node("A", "x"),
            item_node("B", "x"),
        ],
        vec![exposes_edge("ep:T1", "item:A"), exposes_edge("ep:T2", "item:B")],
    );
    let report = store.enrich_reachability("test").expect("pass");
    assert!(report.ran, "pass still runs — unfiltered EP set is non-empty");
    assert_eq!(get_reachability(&store, "test", "A"), (true, 1));
    assert_eq!(get_reachability(&store, "test", "B"), (true, 1));
    assert_eq!(get_production_reachability(&store, "test", "A"), (false, 0));
    assert_eq!(get_production_reachability(&store, "test", "B"), (false, 0));
}

#[test]
fn prod5_two_runs_with_mixed_kinds_are_byte_identical() {
    fn build() -> PetgraphStore {
        store_with(
            vec![
                entry_point_node_kind("ep:Mcp", "mcp_tool"),
                entry_point_node_kind("ep:Test", "test"),
                entry_point_node_kind("ep:Bench", "bench"),
                item_node("A", "x"),
                item_node("B", "x"),
                item_node("C", "x"),
            ],
            vec![
                exposes_edge("ep:Mcp", "item:A"),
                exposes_edge("ep:Test", "item:B"),
                exposes_edge("ep:Bench", "item:C"),
                calls_edge("item:A", "item:C"),
            ],
        )
    }
    let mut s1 = build();
    s1.enrich_reachability("test").expect("run 1");
    let mut s2 = build();
    s2.enrich_reachability("test").expect("run 2");
    let d1 = s1.canonical_dump("test").expect("dump 1");
    let d2 = s2.canonical_dump("test").expect("dump 2");
    assert_eq!(d1, d2, "dual-pass writes must be byte-identical across runs");
}

fn serde_default_callsite(parent_qname: &str, field: &str, callee_path: &str) -> Node {
    Node::new(&format!("callsite:{parent_qname}.{field}:{callee_path}:0"), "CallSite")
        .with_prop("kind", s("serde_default"))
        .with_prop("callee_path", s(callee_path))
        .with_prop("caller_qname", s(parent_qname))
        .with_prop("field", s(field))
}

#[test]
fn issue_396_serde_default_callee_with_exact_qname_match_becomes_reachable() {
    let mut store = store_with(
        vec![
            entry_point_node("ep:E"),
            item_node("myapp::load_config", "myapp"),
            item_node("myapp::config::AppConfig", "myapp"),
            item_node("myapp::config::default_url", "myapp"),
            serde_default_callsite("myapp::config::AppConfig", "url", "myapp::config::default_url"),
        ],
        vec![
            exposes_edge("ep:E", "item:myapp::load_config"),
            invokes_at_edge(
                "item:myapp::config::AppConfig",
                "callsite:myapp::config::AppConfig.url:myapp::config::default_url:0",
            ),
        ],
    );
    store.enrich_reachability("test").expect("pass");
    assert_eq!(get_reachability(&store, "test", "myapp::load_config"), (true, 1));
    assert_eq!(get_reachability(&store, "test", "myapp::config::AppConfig"), (false, 0));
    let (reachable, count) = get_reachability(&store, "test", "myapp::config::default_url");
    assert!(reachable, "default_url must be reachable through the serde_default resolution");
    assert_eq!(count, 0, "reachable_entry_count stays at 0");
}

#[test]
fn issue_396_serde_default_callee_with_same_module_short_form_becomes_reachable() {
    let mut store = store_with(
        vec![
            entry_point_node("ep:E"),
            item_node("myapp::load_config", "myapp"),
            item_node("myapp::config::AppConfig", "myapp"),
            item_node("myapp::config::default_url", "myapp"),
            serde_default_callsite("myapp::config::AppConfig", "url", "default_url"),
        ],
        vec![
            exposes_edge("ep:E", "item:myapp::load_config"),
            invokes_at_edge("item:myapp::config::AppConfig", "callsite:myapp::config::AppConfig.url:default_url:0"),
        ],
    );
    store.enrich_reachability("test").expect("pass");
    let (reachable, _) = get_reachability(&store, "test", "myapp::config::default_url");
    assert!(reachable, "same-module short-form resolution");
}

#[test]
fn issue_396_serde_default_callee_unresolvable_does_not_panic() {
    let mut store = store_with(
        vec![
            entry_point_node("ep:E"),
            item_node("myapp::load_config", "myapp"),
            item_node("myapp::config::AppConfig", "myapp"),
            serde_default_callsite("myapp::config::AppConfig", "timestamp", "chrono::Utc::now"),
        ],
        vec![
            exposes_edge("ep:E", "item:myapp::load_config"),
            invokes_at_edge(
                "item:myapp::config::AppConfig",
                "callsite:myapp::config::AppConfig.timestamp:chrono::Utc::now:0",
            ),
        ],
    );
    store.enrich_reachability("test").expect("pass");
    assert_eq!(get_reachability(&store, "test", "myapp::config::AppConfig"), (false, 0));
}

#[test]
fn issue_396_non_serde_default_callsite_is_ignored() {
    let callsite = Node::new("callsite:myapp::load_config:myapp::dead_fn:0", "CallSite")
        .with_prop("kind", s("call"))
        .with_prop("callee_path", s("myapp::dead_fn"))
        .with_prop("caller_qname", s("myapp::load_config"));
    let mut store = store_with(
        vec![entry_point_node("ep:E"), item_node("myapp::load_config", "myapp"), item_node("myapp::dead_fn", "myapp"), callsite],
        vec![exposes_edge("ep:E", "item:myapp::load_config")],
    );
    store.enrich_reachability("test").expect("pass");
    assert_eq!(get_reachability(&store, "test", "myapp::dead_fn"), (false, 0));
}

fn make_item(qname: &str) -> Node {
    Node::new(&format!("item:{qname}"), "Item").with_prop("qname", s(qname))
}

#[test]
fn resolver_prefers_exact_over_same_module() {
    let mut state = KeyspaceState::new();
    state.ingest_nodes(vec![make_item("myapp::config::default_url"), make_item("myapp::other::config::default_url")]);
    let resolved = resolve_callee_to_item(&state, "myapp::config::default_url", "myapp::other::config::AppConfig");
    let idx = resolved.expect("exact match must win");
    let node = state.node(idx);
    assert_eq!(node.props.get(&"qname".to_string()).and_then(|v| v.as_str()), Some("myapp::config::default_url"));
}

#[test]
fn resolver_falls_back_to_same_module() {
    let mut state = KeyspaceState::new();
    state.ingest_nodes(vec![make_item("myapp::config::default_url")]);
    let resolved = resolve_callee_to_item(&state, "default_url", "myapp::config::AppConfig");
    assert!(resolved.is_some(), "same-module resolution must succeed");
}

#[test]
fn resolver_falls_back_to_same_crate() {
    let mut state = KeyspaceState::new();
    state.ingest_nodes(vec![make_item("myapp::config::default_url")]);
    let resolved = resolve_callee_to_item(&state, "config::default_url", "myapp::main::AppConfig");
    assert!(resolved.is_some(), "same-crate resolution must succeed");
}

#[test]
fn resolver_returns_none_for_unknown_path() {
    let state = KeyspaceState::new();
    assert!(resolve_callee_to_item(&state, "nowhere::fn", "myapp::AppConfig").is_none());
}

#[test]
fn serde_default_resolution_counts_in_attrs_written() {
    let mut store = store_with(
        vec![
            entry_point_node("ep:E"),
            item_node("myapp::load_config", "myapp"),
            item_node("myapp::config::default_url", "myapp"),
            serde_default_callsite("myapp::config::AppConfig", "url", "default_url"),
        ],
        vec![exposes_edge("ep:E", "item:myapp::load_config")],
    );
    let report = store.enrich_reachability("test").expect("pass");
    assert_eq!(report.attrs_written, 2 * 4 + 2, "two items × four attrs, plus both flags for one resolution");
    assert_eq!(get_production_reachability(&store, "test", "myapp::config::default_url"), (true, 0));
}

#[test]
fn item_exposed_twice_counts_once() {
    let mut store = store_with(
        vec![entry_point_node("ep:E1"), entry_point_node("ep:E2"), item_node("A", "x")],
        vec![exposes_edge("ep:E1", "item:A"), exposes_edge("ep:E2", "item:A")],
    );
    let report = store.enrich_reachability("test").expect("pass");
    assert_eq!(report.facts_scanned, 2);
    assert_eq!(get_reachability(&store, "test", "A"), (true, 1), "one seed, however many entry points expose it");
}

#[test]
fn invokes_at_hop_through_call_site_is_followed() {
    let mut store = store_with(
        vec![entry_point_node("ep:E"), item_node("A", "x"), Node::new("cs:1", "CallSite"), item_node("B", "x")],
        vec![exposes_edge("ep:E", "item:A"), invokes_at_edge("item:A", "cs:1"), calls_edge("cs:1", "item:B")],
    );
    let report = store.enrich_reachability("test").expect("pass");
    assert_eq!(report.attrs_written, 8, "call sites get no attributes");
    assert_eq!(get_reachability(&store, "test", "B"), (true, 1));
}
