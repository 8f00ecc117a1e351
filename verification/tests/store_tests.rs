use cfdb_petgraph::dump::node_line_text;
use cfdb_petgraph::fact::{Edge, Node, PropValue};
use cfdb_petgraph::index_spec::{ComputedKey, IndexEntry, IndexSpec};
use cfdb_petgraph::store::{PetgraphStore, SchemaVersion, StoreError, DEPRECATION_NOTE};

fn ks() -> &'static str {
    "test"
}

fn s(x: &str) -> PropValue {
    PropValue::Str(x.to_string())
}

fn item(id: &str, qname: &str, krate: &str) -> Node {
    Node::new(id, "Item").with_prop("qname", s(qname)).with_prop("crate", s(krate))
}

fn call_site(id: &str) -> Node {
    Node::new(id, "CallSite")
}

fn parse_dump_lines(dump: &str) -> Vec<(String, serde_json::Value)> {
    dump.lines()
        .map(|line| {
            let parsed: serde_json::Value =
                serde_json::from_str(line).unwrap_or_else(|e| panic!("dump line is not pure JSON: {line:?}: {e}"));
            assert!(parsed.is_object(), "dump line must be a JSON object, got: {line}");
            (line.to_string(), parsed)
        })
        .collect()
}

#[test]
fn ingest_round_trip_via_canonical_dump() {
    let mut store = PetgraphStore::new();
    let nodes = vec![item("item:a", "foo::bar", "c1"), item("item:b", "baz::bar", "c2"), call_site("cs:1")];
    let edges = vec![Edge::new("cs:1", "item:a", "CALLS")];
    store.ingest_nodes(ks(), nodes).expect("ingest into fresh in-memory store never fails");
    store.ingest_edges(ks(), edges).expect("ingest into fresh in-memory store never fails");
    let dump = store.canonical_dump(ks()).expect("canonical_dump over an ingested keyspace is infallible");
    assert!(dump.contains("item:a"));
    assert!(dump.contains("item:b"));
    assert!(dump.contains("cs:1"));
    assert!(dump.contains("CALLS"));
}

#[test]
fn canonical_dump_is_deterministic() {
    let mut store = PetgraphStore::new();
    let nodes: Vec<Node> = (0..20).map(|i| item(&format!("item:n{}", i), &format!("mod::f{}", i), "c1")).collect();
    let edges: Vec<Edge> =
        (0..19).map(|i| Edge::new(&format!("item:n{}", i), &format!("item:n{}", i + 1), "CALLS")).collect();
    store.ingest_nodes(ks(), nodes).expect("ingest");
    store.ingest_edges(ks(), edges).expect("ingest");
    let d1 = store.canonical_dump(ks()).expect("dump");
    let d2 = store.canonical_dump(ks()).expect("dump");
    assert_eq!(d1.as_bytes(), d2.as_bytes(), "G1: canonical dump must be byte-identical across calls");
}

#[test]
fn canonical_dump_lines_are_pure_jsonl() {
    let mut store = PetgraphStore::new();
    store
        .ingest_nodes(ks(), vec![item("item:a", "foo::bar", "c1"), item("item:b", "baz::qux", "c2")])
        .expect("ingest");
    store.ingest_edges(ks(), vec![Edge::new("item:a", "item:b", "CALLS")]).expect("ingest");
    let dump = store.canonical_dump(ks()).expect("dump");
    for line in dump.lines() {
        assert!(!line.starts_with("N\t"), "line uses old tab-prefix format: {line}");
        assert!(!line.starts_with("E\t"), "line uses old tab-prefix format: {line}");
    }
    let parsed = parse_dump_lines(&dump);
    assert_eq!(parsed.len(), 3, "2 nodes + 1 edge = 3 lines");
}

#[test]
fn canonical_dump_kind_discriminator_present() {
    let mut store = PetgraphStore::new();
    store.ingest_nodes(ks(), vec![item("item:a", "foo::a", "c1"), call_site("cs:1")]).expect("ingest");
    store.ingest_edges(ks(), vec![Edge::new("cs:1", "item:a", "CALLS")]).expect("ingest");
    let dump = store.canonical_dump(ks()).expect("dump");
    let parsed = parse_dump_lines(&dump);
    let kinds: Vec<&str> =
        parsed.iter().map(|(_, v)| v.get("kind").and_then(|k| k.as_str()).unwrap_or("")).collect();
    assert_eq!(kinds.iter().filter(|k| **k == "node").count(), 2, "expected 2 node lines: {kinds:?}");
    assert_eq!(kinds.iter().filter(|k| **k == "edge").count(), 1, "expected 1 edge line: {kinds:?}");
}

#[test]
fn canonical_dump_field_order_is_alphabetical() {
    let mut store = PetgraphStore::new();
    store.ingest_nodes(ks(), vec![item("item:a", "foo::bar", "c1")]).expect("ingest");
    store.ingest_nodes(ks(), vec![call_site("cs:1")]).expect("ingest");
    store.ingest_edges(ks(), vec![Edge::new("cs:1", "item:a", "CALLS")]).expect("ingest");
    let dump = store.canonical_dump(ks()).expect("dump");
    let lines: Vec<&str> = dump.lines().collect();
    assert_eq!(
        lines[0],
        r#"{"id":"cs:1","kind":"node","label":"CallSite"}"#
    );
    assert_eq!(
        lines[1],
        r#"{"id":"item:a","kind":"node","label":"Item","props":{"crate":"c1","qname":"foo::bar"}}"#
    );
    assert_eq!(
        lines[2],
        r#"{"dst_qname":"foo::bar","kind":"edge","label":"CALLS","src_qname":"cs:1"}"#
    );
}

#[test]
fn canonical_dump_node_sort_uses_label_then_qname() {
    let mut store = PetgraphStore::new();
    store
        .ingest_nodes(ks(), vec![item("item:a", "foo::bar", "c1"), item("item:b", "baz::qux", "c2")])
        .expect("ingest");
    let dump = store.canonical_dump(ks()).expect("dump");
    let parsed = parse_dump_lines(&dump);
    assert_eq!(parsed.len(), 2);
    let qnames: Vec<&str> = parsed
        .iter()
        .map(|(_, v)| v.get("props").and_then(|p| p.get("qname")).and_then(|q| q.as_str()).unwrap_or(""))
        .collect();
    assert_eq!(qnames, vec!["baz::qux", "foo::bar"], "nodes must sort by (label, qname), not by id");
}

#[test]
fn canonical_dump_edge_sort_uses_label_then_src_qname_then_dst_qname() {
    let mut store = PetgraphStore::new();
    store
        .ingest_nodes(
            ks(),
            vec![item("item:a", "alpha", "c1"), item("item:b", "bravo", "c1"), item("item:c", "charlie", "c1")],
        )
        .expect("ingest");
    store
        .ingest_edges(ks(), vec![Edge::new("item:b", "item:c", "CALLS"), Edge::new("item:a", "item:c", "CALLS")])
        .expect("ingest");
    let dump = store.canonical_dump(ks()).expect("dump");
    let parsed = parse_dump_lines(&dump);
    let edge_lines: Vec<&serde_json::Value> = parsed
        .iter()
        .filter_map(|(_, v)| if v.get("kind").and_then(|k| k.as_str()) == Some("edge") { Some(v) } else { None })
        .collect();
    assert_eq!(edge_lines.len(), 2);
    let src_qnames: Vec<&str> =
        edge_lines.iter().map(|v| v.get("src_qname").and_then(|s| s.as_str()).unwrap_or("")).collect();
    assert_eq!(src_qnames, vec!["alpha", "bravo"], "edges must sort by (label, src_qname, dst_qname)");
}

#[test]
fn canonical_dump_edge_sort_fallback_when_src_qname_absent() {
    let mut store = PetgraphStore::new();
    store
        .ingest_nodes(
            ks(),
            vec![call_site("cs:zebra"), call_site("cs:apple"), item("item:target", "target_qname", "c1")],
        )
        .expect("ingest");
    store
        .ingest_edges(
            ks(),
            vec![Edge::new("cs:zebra", "item:target", "CALLS"), Edge::new("cs:apple", "item:target", "CALLS")],
        )
        .expect("ingest");
    let dump = store.canonical_dump(ks()).expect("dump");
    let parsed = parse_dump_lines(&dump);
    let edge_lines: Vec<&serde_json::Value> = parsed
        .iter()
        .filter_map(|(_, v)| if v.get("kind").and_then(|k| k.as_str()) == Some("edge") { Some(v) } else { None })
        .collect();
    assert_eq!(edge_lines.len(), 2);
    let src_qnames: Vec<&str> =
        edge_lines.iter().map(|v| v.get("src_qname").and_then(|s| s.as_str()).unwrap_or("")).collect();
    assert_eq!(src_qnames, vec!["cs:apple", "cs:zebra"], "fallback to id when qname prop is absent");
}

#[test]
fn canonical_dump_lf_separated_no_trailing_newline() {
    let mut store = PetgraphStore::new();
    store.ingest_nodes(ks(), vec![item("item:a", "foo::a", "c1")]).expect("ingest");
    let dump = store.canonical_dump(ks()).expect("dump");
    assert!(!dump.is_empty());
    assert!(!dump.ends_with('\n'), "canonical_dump output must NOT have a trailing newline");
    assert!(!dump.contains('\r'), "canonical_dump must use LF, not CRLF");
}

#[test]
fn canonical_dump_byte_identity_across_two_calls() {
    let mut store = PetgraphStore::new();
    store
        .ingest_nodes(
            ks(),
            vec![item("item:a", "foo::a", "c1"), item("item:b", "foo::b", "c1"), item("item:c", "foo::c", "c2")],
        )
        .expect("ingest");
    store
        .ingest_edges(ks(), vec![Edge::new("item:a", "item:b", "CALLS"), Edge::new("item:b", "item:c", "CALLS")])
        .expect("ingest");
    let d1 = store.canonical_dump(ks()).expect("dump");
    let d2 = store.canonical_dump(ks()).expect("dump");
    assert_eq!(d1.as_bytes(), d2.as_bytes(), "G1 byte identity must hold");
}

#[test]
fn canonical_dump_of_unknown_keyspace_is_an_error() {
    let store = PetgraphStore::new();
    match store.canonical_dump("nope") {
        Err(StoreError::UnknownKeyspace(k)) => assert_eq!(k, "nope"),
        other => panic!("expected UnknownKeyspace, got {other:?}"),
    }
}

#[test]
fn canonical_dump_of_empty_keyspace_is_empty() {
    let mut store = PetgraphStore::new();
    store.ingest_nodes(ks(), vec![]).expect("ingest");
    assert_eq!(store.canonical_dump(ks()).expect("dump"), "");
}

#[test]
fn canonical_dump_escapes_json_strings_and_renders_scalars() {
    let mut store = PetgraphStore::new();
    let n = Node::new("item:\"q\"", "Item")
        .with_prop("qname", s("a\\b\n\t\u{1}"))
        .with_prop("n", PropValue::Int(-42))
        .with_prop("b", PropValue::Bool(true))
        .with_prop("z", PropValue::Null)
        .with_prop("f", PropValue::Float { bits: 1.5f64.to_bits(), text: "1.5".to_string(), json: Some("1.5".to_string()), fixed: format!("{:020.10}", 1.5f64) })
        .with_prop("nan", PropValue::Float { bits: f64::NAN.to_bits(), text: "NaN".to_string(), json: None, fixed: format!("{:020.10}", f64::NAN) });
    store.ingest_nodes(ks(), vec![n]).expect("ingest");
    let dump = store.canonical_dump(ks()).expect("dump");
    assert_eq!(
        dump,
        r#"{"id":"item:\"q\"","kind":"node","label":"Item","props":{"b":true,"f":1.5,"n":-42,"nan":null,"qname":"a\\b\n\t\u0001","z":null}}"#
    );
    let parsed: serde_json::Value = serde_json::from_str(&dump).expect("valid JSON");
    assert_eq!(parsed["props"]["qname"].as_str(), Some("a\\b\n\t\u{1}"));
}

#[test]
fn g1_excluded_attr_absent_from_node_dump() {
    let node = Node::new("item:demo::f", "Item")
        .with_prop("qname", s("demo::f"))
        .with_prop("test_coverage", s("{\"lines\":42}"))
        .with_prop("visibility", s("pub"));
    let json = node_line_text(&node);
    assert!(!json.contains("test_coverage"), "G1-excluded attr `test_coverage` must NOT appear: {json}");
    assert!(json.contains("visibility"), "non-excluded attr `visibility` MUST still appear: {json}");
}

#[test]
fn populating_g1_excluded_attr_does_not_change_node_dump() {
    let base = Node::new("item:demo::f", "Item").with_prop("qname", s("demo::f"));
    let with_cov = base.duplicate().with_prop("test_coverage", s("{\"lines\":42}"));
    assert_eq!(node_line_text(&base), node_line_text(&with_cov));
}

#[test]
fn node_with_only_g1_excluded_props_elides_props_key() {
    let node = Node::new("item:demo::g", "Item").with_prop("test_coverage", s("{\"lines\":1}"));
    let json = node_line_text(&node);
    assert!(!json.contains("\"props\""), "a node whose only attr is G1-excluded must omit the props key: {json}");
}

#[test]
fn cfdb_dump_excludes_test_coverage_and_stays_byte_stable() {
    let dump_of = |nodes: Vec<Node>| {
        let mut store = PetgraphStore::new();
        store.ingest_nodes("g1_excluded", nodes).expect("ingest nodes");
        store.canonical_dump("g1_excluded").expect("canonical_dump")
    };
    let base = || Node::new("item:demo::f", "Item").with_prop("qname", s("demo::f")).with_prop("kind", s("fn"));
    let plain = dump_of(vec![base()]);
    let covered = dump_of(vec![base().with_prop("test_coverage", s("{\"lines\":42,\"covered\":7}"))]);
    assert!(!covered.contains("test_coverage"), "dump must exclude the G1 attr `test_coverage`: {covered}");
    assert_eq!(plain, covered);
}

fn slice7_spec() -> IndexSpec {
    IndexSpec {
        entries: vec![
            IndexEntry::Prop { label: "Item".into(), prop: "qname".into(), notes: "slice-7 propagation".into() },
            IndexEntry::Computed {
                label: "Item".into(),
                computed: ComputedKey::LastSegment,
                notes: "slice-7 propagation".into(),
            },
        ],
    }
}

#[test]
fn with_indexes_stores_spec_on_store() {
    let spec = slice7_spec();
    let store = PetgraphStore::new().with_indexes(spec.clone());
    assert_eq!(store.index_spec, spec);
    assert_eq!(store.index_spec(), &spec);
}

#[test]
fn default_store_has_empty_index_spec() {
    let store = PetgraphStore::new();
    assert!(store.index_spec.is_empty());
}

#[test]
fn keyspace_mut_propagates_spec_to_auto_created_keyspaces() {
    let mut store = PetgraphStore::new().with_indexes(slice7_spec());
    store
        .ingest_nodes("slice7-propagation", vec![Node::new("item:a", "Item").with_prop("qname", s("foo::bar"))])
        .expect("ingest");
    let state = store.keyspaces.get(&"slice7-propagation".to_string()).expect("keyspace was auto-created");
    assert!(!state.by_prop.entries.is_empty());
    let qname_postings: Vec<_> =
        state.by_prop.entries.iter().filter(|(k, _)| k.label == "Item" && k.tag == "qname").collect();
    assert_eq!(qname_postings.len(), 1);
    assert_eq!(qname_postings[0].0.value, "foo::bar");
    let last_seg: Vec<_> = state
        .by_prop
        .entries
        .iter()
        .filter(|(k, _)| k.label == "Item" && k.tag == "last_segment(qname)")
        .collect();
    assert_eq!(last_seg.len(), 1);
    assert_eq!(last_seg[0].0.value, "bar");
}

#[test]
fn default_store_leaves_by_prop_empty_after_ingest() {
    let mut store = PetgraphStore::new();
    store
        .ingest_nodes("slice7-propagation", vec![Node::new("item:a", "Item").with_prop("qname", s("foo::bar"))])
        .expect("ingest");
    let state = store.keyspaces.get(&"slice7-propagation".to_string()).expect("keyspace auto-created on ingest");
    assert!(state.by_prop.entries.is_empty());
}

#[test]
fn store_accessors_and_builders() {
    let store = PetgraphStore::new();
    assert_eq!(store.workspace_root(), None);
    let store = store.with_workspace("/ws".to_string());
    assert_eq!(store.workspace_root(), Some("/ws"));
    assert_eq!(store.schema_version, SchemaVersion { major: 0, minor: 2, patch: 3 });
}

#[test]
fn has_node_after_ingest_and_last_write_wins() {
    let mut store = PetgraphStore::new();
    assert!(!store.has_node(ks(), "item:a"));
    store
        .ingest_nodes(ks(), vec![item("item:a", "first", "c1"), item("item:b", "b", "c1"), item("item:a", "second", "c1")])
        .expect("ingest");
    assert!(store.has_node(ks(), "item:a"));
    assert!(store.has_node(ks(), "item:b"));
    assert!(!store.has_node(ks(), "item:c"));
    assert!(!store.has_node("other", "item:a"));
    let (nodes, edges) = store.export(ks()).expect("export");
    assert_eq!(nodes.len(), 2);
    assert!(edges.is_empty());
    assert_eq!(nodes[0].id, "item:a");
    assert_eq!(cfdb_petgraph::dump::qname_or_id_text(&nodes[0]), "second");
    assert_eq!(nodes[1].id, "item:b");
}

#[test]
fn export_of_unknown_keyspace_is_an_error() {
    let store = PetgraphStore::new();
    assert!(matches!(store.export("nope"), Err(StoreError::UnknownKeyspace(_))));
}

#[test]
fn export_lists_edges_in_insertion_order_and_skips_dangling_ones() {
    let mut store = PetgraphStore::new();
    store.ingest_nodes(ks(), vec![item("item:a", "a", "c"), item("item:b", "b", "c")]).expect("ingest");
    store
        .ingest_edges(
            ks(),
            vec![
                Edge::new("item:b", "item:a", "CALLS"),
                Edge::new("item:a", "item:missing", "CALLS"),
                Edge::new("item:a", "item:b", "USES"),
            ],
        )
        .expect("ingest");
    let (_, edges) = store.export(ks()).expect("export");
    assert_eq!(edges.len(), 2);
    assert_eq!((edges[0].src.as_str(), edges[0].dst.as_str(), edges[0].label.as_str()), ("item:b", "item:a", "CALLS"));
    assert_eq!((edges[1].src.as_str(), edges[1].dst.as_str(), edges[1].label.as_str()), ("item:a", "item:b", "USES"));
    let warnings = store.ingest_warnings(ks());
    assert_eq!(warnings.len(), 1);
    assert_eq!(warnings[0].message, "edge item:a -[CALLS]-> item:missing: unknown dst id, edge skipped");
}

#[test]
fn dangling_source_is_reported_as_src() {
    let mut store = PetgraphStore::new();
    store.ingest_nodes(ks(), vec![item("item:a", "a", "c")]).expect("ingest");
    store.ingest_edges(ks(), vec![Edge::new("item:ghost", "item:a", "CALLS")]).expect("ingest");
    let warnings = store.ingest_warnings(ks());
    assert_eq!(warnings[0].message, "edge item:ghost -[CALLS]-> item:a: unknown src id, edge skipped");
}

#[test]
fn schema_version_list_and_drop() {
    let mut store = PetgraphStore::new();
    assert!(matches!(store.schema_version("b"), Err(StoreError::UnknownKeyspace(_))));
    store.ingest_nodes("b", vec![]).expect("ingest");
    store.ingest_nodes("a", vec![]).expect("ingest");
    assert_eq!(store.schema_version("b").expect("known"), store.schema_version);
    assert_eq!(store.list_keyspaces(), vec!["a".to_string(), "b".to_string()]);
    store.drop_keyspace("a").expect("drop");
    store.drop_keyspace("never").expect("dropping an unknown keyspace is fine");
    assert_eq!(store.list_keyspaces(), vec!["b".to_string()]);
}

#[test]
fn ingest_warnings_of_unknown_keyspace_are_empty() {
    let store = PetgraphStore::new();
    assert!(store.ingest_warnings("nope").is_empty());
}

#[test]
fn deprecation_pins_fixed_report_shape() {
    let mut store = PetgraphStore::new();
    store.ingest_nodes("test", vec![]).expect("register keyspace");
    let report = store.enrich_deprecation("test").expect("pass");
    assert!(report.ran);
    assert_eq!(report.verb, "enrich_deprecation");
    assert_eq!(report.facts_scanned, 0);
    assert_eq!(report.attrs_written, 0);
    assert_eq!(report.edges_written, 0);
    assert_eq!(
        report.warnings,
        vec!["enrich_deprecation: facts populated at extraction time by \
             cfdb-extractor::extract_deprecated_attr (#43-C / RFC \
             addendum §A2.2 row 3); no enrichment work to do"
            .to_string()]
    );
    assert_eq!(report.warnings[0], DEPRECATION_NOTE);
}

#[test]
fn deprecation_unknown_keyspace_returns_err() {
    let mut store = PetgraphStore::new();
    let err = store.enrich_deprecation("never").err().expect("unknown keyspace must err");
    assert!(format!("{err:?}").contains("UnknownKeyspace"));
}

#[test]
fn canonical_dump_ignores_ingestion_order() {
    let node = |id: &str, q: &str| Node::new(id, "Item").with_prop("qname", PropValue::Str(q.to_string()));
    let mut a = PetgraphStore::new();
    a.ingest_nodes("k", vec![node("item:x", "crate::x"), node("item:y", "crate::y"), node("item:z", "crate::z")]).expect("ingest");
    a.ingest_edges("k", vec![Edge::new("item:x", "item:y", "CALLS"), Edge::new("item:y", "item:z", "CALLS")]).expect("ingest");
    let mut b = PetgraphStore::new();
    b.ingest_nodes("k", vec![node("item:z", "crate::z"), node("item:x", "crate::x"), node("item:y", "crate::y")]).expect("ingest");
    b.ingest_edges("k", vec![Edge::new("item:y", "item:z", "CALLS"), Edge::new("item:x", "item:y", "CALLS")]).expect("ingest");
    assert_eq!(a.canonical_dump("k").expect("dump"), b.canonical_dump("k").expect("dump"));
}
