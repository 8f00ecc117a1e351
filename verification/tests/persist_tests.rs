use cfdb_petgraph::fact::{Edge, Node, PropValue, WarningKind};
use cfdb_petgraph::graph::KeyspaceState;
use cfdb_petgraph::index_spec::{ComputedKey, IndexEntry, IndexSpec};
use cfdb_petgraph::persist::KeyspaceFile;
use cfdb_petgraph::store::{PetgraphStore, SchemaVersion, StoreError};

fn s(x: &str) -> PropValue {
    PropValue::Str(x.to_string())
}

fn sample_nodes_edges() -> (Vec<Node>, Vec<Edge>) {
    let nodes = vec![
        Node::new("crate:qbot-domain", "Crate").with_prop("name", s("qbot-domain")),
        Node::new("item:qbot_domain::Order", "Item")
            .with_prop("qname", s("qbot_domain::Order"))
            .with_prop("kind", s("struct"))
            .with_prop("crate", s("qbot-domain"))
            .with_prop("line", PropValue::Int(42)),
        Node::new("item:qbot_domain::now_utc", "Item")
            .with_prop("qname", s("qbot_domain::now_utc"))
            .with_prop("kind", s("fn"))
            .with_prop("crate", s("qbot-domain")),
    ];
    let edges = vec![
        Edge::new("item:qbot_domain::Order", "crate:qbot-domain", "IN_CRATE"),
        Edge::new("item:qbot_domain::now_utc", "crate:qbot-domain", "IN_CRATE"),
    ];
    (nodes, edges)
}

#[test]
fn save_then_load_preserves_canonical_dump() {
    let ks = "test-ks";
    let mut store_a = PetgraphStore::new();
    let (nodes, edges) = sample_nodes_edges();
    store_a.ingest_nodes(ks, nodes).expect("ingest into fresh store is infallible");
    store_a.ingest_edges(ks, edges).expect("ingest into fresh store is infallible");
    let file = store_a.keyspace_file(ks).expect("save");
    let dump_before = store_a.canonical_dump(ks).expect("dump");

    let mut store_b = PetgraphStore::new();
    store_b.load_keyspace_file(ks, file).expect("load");
    let dump_after = store_b.canonical_dump(ks).expect("dump");
    assert_eq!(dump_before, dump_after, "canonical dump differs after save/load round-trip");
}

#[test]
fn load_rejects_incompatible_schema_version() {
    let bad = KeyspaceFile {
        schema_version: SchemaVersion { major: 99, minor: 0, patch: 0 },
        nodes: vec![],
        edges: vec![],
        contention_warnings: vec![],
    };
    let mut store = PetgraphStore::new();
    let err = store.load_keyspace_file("x", bad);
    assert!(matches!(err, Err(StoreError::SchemaMismatch { .. })), "expected SchemaMismatch, got {:?}", err);
    assert!(store.list_keyspaces().is_empty(), "a refused load leaves the store unchanged");
}

#[test]
fn load_accepts_legacy_v0_2_keyspace_with_no_index_fields() {
    let legacy = KeyspaceFile {
        schema_version: SchemaVersion { major: 0, minor: 2, patch: 2 },
        nodes: vec![
            Node::new("item:legacy_crate::Foo", "Item")
                .with_prop("qname", s("legacy_crate::Foo"))
                .with_prop("kind", s("struct"))
                .with_prop("crate", s("legacy-crate")),
            Node::new("item:legacy_crate::bar", "Item")
                .with_prop("qname", s("legacy_crate::bar"))
                .with_prop("kind", s("fn"))
                .with_prop("crate", s("legacy-crate")),
        ],
        edges: vec![],
        contention_warnings: vec![],
    };
    let mut store = PetgraphStore::new();
    store.load_keyspace_file("legacy", legacy).expect("legacy v0.2 keyspace must load");
    let (nodes, edges) = store.export("legacy").expect("export legacy keyspace");
    assert_eq!(nodes.len(), 2, "both legacy nodes must round-trip");
    assert_eq!(edges.len(), 0, "no edges in fixture");
    let dump = store.canonical_dump("legacy").expect("dump");
    assert!(!dump.is_empty());
    assert!(dump.contains("legacy_crate::Foo"));
}

fn item_in_file(id: &str, qname: &str, file: &str) -> Node {
    Node::new(id, "Item").with_prop("qname", s(qname)).with_prop("file", s(file))
}

#[test]
fn contention_warnings_survive_persist_round_trip() {
    let ks = "t";
    let mut store = PetgraphStore::new();
    store
        .ingest_nodes(ks, vec![item_in_file("item:x::main", "x::main", "src/bin/a.rs"), item_in_file("item:x::main", "x::main", "src/bin/b.rs")])
        .expect("ingest");
    let file = store.keyspace_file(ks).expect("save");
    let mut reloaded = PetgraphStore::new();
    reloaded.load_keyspace_file(ks, file).expect("load");
    let warnings = reloaded.ingest_warnings(ks);
    assert!(
        warnings.iter().any(|w| w.kind == WarningKind::IdentityContention),
        "persisted contention warning lost on round-trip: {warnings:?}"
    );
}

#[test]
fn edge_drop_warnings_stay_transient_across_persist() {
    let ks = "t";
    let mut store = PetgraphStore::new();
    store.ingest_nodes(ks, vec![item_in_file("item:a", "a", "src/a.rs")]).expect("ingest");
    store.ingest_edges(ks, vec![Edge::new("item:a", "item:missing", "CALLS")]).expect("edge ingest");
    assert!(!store.ingest_warnings(ks).is_empty(), "edge drop warns in-process");
    let file = store.keyspace_file(ks).expect("save");
    let mut reloaded = PetgraphStore::new();
    reloaded.load_keyspace_file(ks, file).expect("load");
    assert!(
        reloaded.ingest_warnings(ks).iter().all(|w| w.kind == WarningKind::IdentityContention),
        "only contention diagnostics persist"
    );
}

#[test]
fn pre_rfc054_keyspace_file_without_warnings_field_loads() {
    let legacy = KeyspaceFile { schema_version: SchemaVersion::current(), nodes: vec![], edges: vec![], contention_warnings: vec![] };
    let mut store = PetgraphStore::new();
    store.load_keyspace_file("legacy", legacy).expect("legacy file must load");
    assert!(store.ingest_warnings("legacy").is_empty());
}

fn three_index_spec() -> IndexSpec {
    IndexSpec {
        entries: vec![
            IndexEntry::Prop { label: "Item".into(), prop: "qname".into(), notes: "test".into() },
            IndexEntry::Prop { label: "Item".into(), prop: "bounded_context".into(), notes: "test".into() },
            IndexEntry::Computed { label: "Item".into(), computed: ComputedKey::LastSegment, notes: "test".into() },
        ],
    }
}

fn ctx_item(id: &str, qname: &str, ctx: &str) -> Node {
    Node::new(id, "Item").with_prop("qname", s(qname)).with_prop("bounded_context", s(ctx))
}

#[test]
fn by_prop_rebuilt_on_load_matches_ingest_time_state() {
    let ks = "rt-rebuild";
    let nodes = || {
        vec![
            ctx_item("item:a", "alpha::foo_1", "context_a"),
            ctx_item("item:b", "beta::bar_2", "context_b"),
            ctx_item("item:c", "gamma::baz_3", "context_c"),
            ctx_item("item:d", "delta::qux_4", "context_a"),
            ctx_item("item:e", "alpha::quux_5", "context_b"),
        ]
    };
    let mut store_a = PetgraphStore::new();
    store_a.keyspaces.insert(ks.to_string(), KeyspaceState::new_with_spec(three_index_spec()));
    store_a.ingest_nodes(ks, nodes()).expect("ingest");
    let by_prop_before = format!("{:?}", store_a.graph_reader(ks).expect("present").by_prop);
    assert!(!store_a.graph_reader(ks).expect("present").by_prop.entries.is_empty());

    let file = store_a.keyspace_file(ks).expect("save");
    let mut store_b = PetgraphStore::new();
    store_b.keyspaces.insert(ks.to_string(), KeyspaceState::new_with_spec(three_index_spec()));
    store_b.load_keyspace_file(ks, file).expect("load");
    let by_prop_after = format!("{:?}", store_b.graph_reader(ks).expect("present").by_prop);
    assert_eq!(by_prop_before, by_prop_after, "by_prop after load must match ingest-time by_prop");
    assert_eq!(store_a.canonical_dump(ks).expect("dump a"), store_b.canonical_dump(ks).expect("dump b"));
}

#[test]
fn save_is_byte_identical_across_two_calls() {
    let ks = "det";
    let mut store = PetgraphStore::new();
    let (nodes, edges) = sample_nodes_edges();
    store.ingest_nodes(ks, nodes).expect("ingest");
    store.ingest_edges(ks, edges).expect("ingest");
    let a = store.keyspace_file(ks).expect("save a");
    let b = store.keyspace_file(ks).expect("save b");
    assert_eq!(format!("{a:?}"), format!("{b:?}"), "two saves must be identical");
}

#[test]
fn schema_reader_accepts_older_minor_and_rejects_newer() {
    let current = SchemaVersion::current();
    assert!(current.can_read(&SchemaVersion { major: 0, minor: 2, patch: 3 }));
    assert!(current.can_read(&SchemaVersion { major: 0, minor: 1, patch: 9 }));
    assert!(!current.can_read(&SchemaVersion { major: 0, minor: 3, patch: 0 }));
    assert!(!current.can_read(&SchemaVersion { major: 1, minor: 0, patch: 0 }));
}

#[test]
fn saved_image_is_in_dump_order() {
    let mut store = PetgraphStore::new();
    let nodes = vec![
        Node::new("item:b", "Item").with_prop("qname", s("crate::b")),
        Node::new("file:z", "File"),
        Node::new("item:a", "Item").with_prop("qname", s("crate::a")),
    ];
    store.ingest_nodes("k", nodes).expect("ingest");
    let edges = vec![
        Edge::new("item:b", "item:a", "CALLS"),
        Edge::new("item:a", "item:b", "CALLS"),
        Edge::new("item:a", "file:z", "IN_FILE"),
    ];
    store.ingest_edges("k", edges).expect("ingest");
    let file = store.keyspace_file("k").expect("save");
    let ids: Vec<&str> = file.nodes.iter().map(|n| n.id.as_str()).collect();
    assert_eq!(ids, vec!["file:z", "item:a", "item:b"]);
    let es: Vec<(&str, &str, &str)> = file.edges.iter().map(|e| (e.label.as_str(), e.src.as_str(), e.dst.as_str())).collect();
    assert_eq!(es, vec![("CALLS", "item:a", "item:b"), ("CALLS", "item:b", "item:a"), ("IN_FILE", "item:a", "file:z")]);
}
