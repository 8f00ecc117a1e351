use cfdb_petgraph::fact::{Edge, Node, PropValue};
use cfdb_petgraph::graph::KeyspaceState;
use cfdb_petgraph::index_spec::{IndexEntry, IndexSpec};
use cfdb_petgraph::lookup::candidates_from_index;
use cfdb_petgraph::pattern::bound_props;
use cfdb_petgraph::query::{CompareOp, Direction, Expr, NodePattern, Predicate};
use cfdb_petgraph::sorted::SortedMap;
use cfdb_petgraph::store::PetgraphStore;
use cfdb_petgraph::value::{Binding, Bindings};

fn s(x: &str) -> PropValue {
    PropValue::Str(x.to_string())
}

fn t(x: &str) -> String {
    x.to_string()
}

// ---------------------------------------------------------------------
// Reading and writing by node id
// ---------------------------------------------------------------------

fn id_fixture() -> (PetgraphStore, &'static str) {
    let ks = "test";
    let mut store = PetgraphStore::new();
    store.ingest_nodes(ks, vec![Node::new("a", "Item"), Node::new("b", "Fn"), Node::new("c", "Fn")]).expect("ingest nodes");
    store.ingest_edges(ks, vec![Edge::new("a", "b", "CALLS"), Edge::new("a", "c", "USES")]).expect("ingest edges");
    (store, ks)
}

#[test]
fn node_by_id_matches_direct_lookup() {
    let (store, ks) = id_fixture();
    let view = store.graph_reader(ks).expect("known keyspace");
    assert_eq!(view.node_by_id("a").map(|n| n.id.as_str()), Some("a"));
    assert!(view.node_by_id("nope").is_none());
}

#[test]
fn nodes_with_label_matches_sorted_ids() {
    let (store, ks) = id_fixture();
    let view = store.graph_reader(ks).expect("known keyspace");
    let mut fn_ids = view.node_ids_with_label(&t("Fn"));
    fn_ids.sort();
    assert_eq!(fn_ids, vec![t("b"), t("c")]);
}

#[test]
fn neighbors_outgoing_returns_both_edge_labels() {
    let (store, ks) = id_fixture();
    let view = store.graph_reader(ks).expect("known keyspace");
    let mut neighbors = view.neighbors("a", Direction::Out);
    neighbors.sort();
    assert_eq!(neighbors, vec![(t("CALLS"), t("b")), (t("USES"), t("c"))]);
}

#[test]
fn neighbors_incoming_from_the_far_endpoint() {
    let (store, ks) = id_fixture();
    let view = store.graph_reader(ks).expect("known keyspace");
    assert_eq!(view.neighbors("b", Direction::In), vec![(t("CALLS"), t("a"))]);
}

#[test]
fn neighbors_undirected_unions_both_directions() {
    let (store, ks) = id_fixture();
    let view = store.graph_reader(ks).expect("known keyspace");
    let mut neighbors = view.neighbors("a", Direction::Undirected);
    neighbors.sort();
    assert_eq!(neighbors, vec![(t("CALLS"), t("b")), (t("USES"), t("c"))]);
}

#[test]
fn set_attr_writes_through_to_node_by_id() {
    let (mut store, ks) = id_fixture();
    assert!(store.set_attr(ks, "a", "bounded_context", s("x")).expect("known keyspace"));
    let view = store.graph_reader(ks).expect("known keyspace");
    assert_eq!(
        view.node_by_id("a").and_then(|n| n.props.get(&t("bounded_context"))).and_then(|v| v.as_str()),
        Some("x")
    );
    assert!(!store.set_attr(ks, "nope", "k", s("v")).expect("known keyspace"));
}

#[test]
fn ingest_nodes_and_edges_are_visible_through_the_view() {
    let (mut store, ks) = id_fixture();
    store.ingest_nodes(ks, vec![Node::new("d", "Item")]).expect("ingest");
    assert!(store.graph_reader(ks).expect("known").node_by_id("d").is_some());
    store.ingest_edges(ks, vec![Edge::new("a", "d", "USES")]).expect("ingest");
    assert!(store.graph_reader(ks).expect("known").neighbors("a", Direction::Out).contains(&(t("USES"), t("d"))));
}

#[test]
fn graph_view_unknown_keyspace_returns_err() {
    let mut store = PetgraphStore::new();
    let Err(err) = store.set_attr("never", "a", "k", s("v")) else {
        panic!("unknown keyspace must err");
    };
    assert!(format!("{err:?}").contains("UnknownKeyspace"));
}

#[test]
fn workspace_root_matches_direct_accessor() {
    let store = PetgraphStore::new().with_workspace("/tmp/some-workspace".to_string());
    assert_eq!(store.workspace_root(), Some("/tmp/some-workspace"));
}

fn _assert_send_sync<T: Send + Sync>() {}

#[test]
fn petgraph_store_is_send_sync_as_a_graph_backend() {
    _assert_send_sync::<PetgraphStore>();
}

// ---------------------------------------------------------------------
// Reading by node index
// ---------------------------------------------------------------------

fn qname_spec() -> IndexSpec {
    IndexSpec { entries: vec![IndexEntry::Prop { label: "Item".into(), prop: "qname".into(), notes: "test".into() }] }
}

fn item(id: &str, qname: &str) -> Node {
    Node::new(id, "Item").with_prop("qname", s(qname))
}

fn reader_fixture() -> (PetgraphStore, &'static str) {
    let ks = "test";
    let mut store = PetgraphStore::new().with_indexes(qname_spec());
    store
        .ingest_nodes(ks, vec![item("i1", "foo::a"), item("i2", "foo::b"), item("i3", "foo::a"), Node::new("f1", "Fn"), Node::new("f2", "Fn")])
        .expect("ingest nodes");
    store
        .ingest_edges(
            ks,
            vec![Edge::new("i1", "f1", "CALLS"), Edge::new("i1", "f2", "USES"), Edge::new("i2", "f1", "CALLS"), Edge::new("i3", "nope", "CALLS")],
        )
        .expect("ingest edges");
    (store, ks)
}

fn state<'s>(store: &'s PetgraphStore, ks: &str) -> &'s KeyspaceState {
    store.graph_reader(ks).expect("known keyspace")
}

fn idx_of(st: &KeyspaceState, id: &str) -> usize {
    st.index_of_id(id).expect("known id")
}

#[test]
fn nodes_with_label_is_the_direct_accessor_in_the_same_order() {
    let (store, ks) = reader_fixture();
    let st = state(&store, ks);
    let got = st.nodes_with_label(&t("Item"));
    let ids: Vec<String> = got.iter().map(|i| st.node(*i).id.clone()).collect();
    assert_eq!(ids, st.node_ids_with_label(&t("Item")));
    assert_eq!(got.len(), 3);
    assert!(got.windows(2).all(|w| w[0] < w[1]), "handle order is index order");
}

#[test]
fn all_nodes_sorted_is_the_direct_accessor_in_the_same_order() {
    let (store, ks) = reader_fixture();
    let st = state(&store, ks);
    let got = st.all_nodes_sorted();
    assert_eq!(got.len(), 5);
}

#[test]
fn vocabulary_probes_match_the_raw_indexes() {
    let (store, ks) = reader_fixture();
    let st = state(&store, ks);
    assert!(st.has_label(&t("Item")));
    assert!(st.has_label(&t("Fn")));
    assert!(!st.has_label(&t("Nope")));
    assert_eq!(st.labels(), vec![t("Fn"), t("Item")]);
    assert!(st.has_edge_label(&t("CALLS")));
    assert!(!st.has_edge_label(&t("NOPE")));
    assert_eq!(st.edge_label_list(), vec![t("CALLS"), t("USES")]);
    assert_eq!(st.edge_label_list().len(), 2);
}

#[test]
fn node_and_edge_dereference_the_underlying_weights() {
    let (store, ks) = reader_fixture();
    let st = state(&store, ks);
    for h in st.all_nodes_sorted() {
        assert_eq!(st.node_at(h).map(|n| &n.id), Some(&st.node(h).id));
    }
    let i1 = idx_of(st, "i1");
    let (eh, _) = st.edges_out(i1)[0];
    assert_eq!(st.edge_at(eh).map(|e| e.label.clone()), Some(t("USES")), "the latest edge comes first");
    assert!(st.node_at(u32::MAX as usize).is_none());
}

#[test]
fn adjacency_matches_edges_directed_in_the_same_order() {
    let (store, ks) = reader_fixture();
    let st = state(&store, ks);
    let i1 = idx_of(st, "i1");
    let i2 = idx_of(st, "i2");
    let f1 = idx_of(st, "f1");
    let f2 = idx_of(st, "f2");
    let out_got = st.edges_out(i1);
    assert_eq!(out_got, vec![(1, f2), (0, f1)]);
    assert_eq!(out_got.len(), 2, "i1 has two outgoing edges (CALLS + USES)");
    let in_got = st.edges_in(f1);
    assert_eq!(in_got, vec![(2, i2), (0, i1)]);
    assert_eq!(in_got.len(), 2, "f1 is called from i1 and i2");
    assert!(st.edges_out(f1).is_empty());
}

fn np_item(qname: Option<&str>) -> NodePattern {
    let mut props = SortedMap::new();
    if let Some(q) = qname {
        props.insert(t("qname"), s(q));
    }
    NodePattern { var: Some(t("a")), label: Some(t("Item")), props }
}

#[test]
fn index_candidates_matches_candidates_from_index() {
    let (store, ks) = reader_fixture();
    let st = state(&store, ks);
    let params = SortedMap::new();
    let none: Bindings = SortedMap::new();
    let bound = bound_props(st, &none);
    let np = np_item(Some("foo::a"));
    let got = candidates_from_index(st, &np, None, &params, &bound);
    assert_eq!(got.as_ref().map(Vec::len), Some(2), "two :Item share qname foo::a");
    let empty = np_item(Some("does::not::exist"));
    assert_eq!(candidates_from_index(st, &empty, None, &params, &bound), Some(vec![]));
    let unhinted = np_item(None);
    assert_eq!(candidates_from_index(st, &unhinted, None, &params, &bound), None);
}

#[test]
fn index_candidates_routes_bound_var_values_through_index_key_of() {
    let (store, ks) = reader_fixture();
    let st = state(&store, ks);
    let params = SortedMap::new();
    let mut row: Bindings = SortedMap::new();
    row.insert(t("b"), Binding::NodeRef(idx_of(st, "i2")));
    let bound = bound_props(st, &row);
    let np = np_item(None);
    let pred = Predicate::Compare {
        left: Expr::Property { var: t("a"), prop: t("qname") },
        op: CompareOp::Eq,
        right: Expr::Property { var: t("b"), prop: t("qname") },
    };
    let got = candidates_from_index(st, &np, Some(&pred), &params, &bound);
    assert_eq!(got.as_ref().map(Vec::len), Some(1), "only i2 carries foo::b");
}

#[test]
fn indexed_prop_is_populated_matches_the_by_prop_probe() {
    let (store, ks) = reader_fixture();
    let st = state(&store, ks);
    assert!(st.indexed_prop_is_populated("Item", "qname"));
    assert!(!st.indexed_prop_is_populated("Item", "bounded_context"));
    assert!(!st.indexed_prop_is_populated("Fn", "qname"));
}

#[test]
fn ingest_warnings_are_the_materialized_set() {
    let (store, ks) = reader_fixture();
    let st = state(&store, ks);
    let expected = st.materialized_ingest_warnings();
    assert!(!expected.is_empty(), "the unknown-dst edge records a warning");
    let got = store.ingest_warnings(ks);
    assert_eq!(got.len(), expected.len());
    for (a, b) in got.iter().zip(expected.iter()) {
        assert_eq!(a.message, b.message);
    }
}

#[test]
fn graph_reader_resolves_known_keyspace_and_rejects_unknown() {
    let (store, ks) = reader_fixture();
    let reader = store.graph_reader(ks).expect("known keyspace");
    assert_eq!(reader.all_nodes_sorted().len(), 5);
    let err = store.graph_reader("missing").err().expect("unknown keyspace is an error");
    assert!(format!("{err:?}").contains("UnknownKeyspace"));
}

#[test]
fn neighbors_of_unknown_id_are_empty() {
    let (store, ks) = id_fixture();
    let view = store.graph_reader(ks).expect("known keyspace");
    assert!(view.neighbors("nope", Direction::Undirected).is_empty());
}

#[test]
fn neighbors_list_the_latest_edge_first() {
    let (store, ks) = id_fixture();
    let view = store.graph_reader(ks).expect("known keyspace");
    assert_eq!(view.neighbors("a", Direction::Out), vec![(t("USES"), t("c")), (t("CALLS"), t("b"))]);
}
