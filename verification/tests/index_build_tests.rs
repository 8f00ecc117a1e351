use std::collections::BTreeSet;

use cfdb_petgraph::dump::canonical_dump;
use cfdb_petgraph::fact::{index_key_of, Node, PropValue};
use cfdb_petgraph::graph::{compute_index_entries, entry_value_for_node, KeyspaceState};
use cfdb_petgraph::index_spec::{last_segment, ComputedKey, IndexEntry, IndexSpec};

fn s(x: &str) -> PropValue {
    PropValue::Str(x.to_string())
}

fn three_index_spec() -> IndexSpec {
    IndexSpec {
        entries: vec![
            IndexEntry::Prop { label: "Item".into(), prop: "qname".into(), notes: "test".into() },
            IndexEntry::Prop { label: "Item".into(), prop: "bounded_context".into(), notes: "test".into() },
            IndexEntry::Computed { label: "Item".into(), computed: ComputedKey::LastSegment, notes: "test".into() },
        ],
    }
}

fn item(id: &str, qname: &str, ctx: &str) -> Node {
    Node::new(id, "Item").with_prop("qname", s(qname)).with_prop("bounded_context", s(ctx))
}

fn postings(state: &KeyspaceState, label: &str, tag: &str, value: &str) -> BTreeSet<usize> {
    state
        .by_prop
        .entries
        .iter()
        .filter(|(k, _)| k.label == label && k.tag == tag && k.value == value)
        .map(|(k, _)| k.node)
        .collect()
}

fn values(state: &KeyspaceState, label: &str, tag: &str) -> BTreeSet<String> {
    state.by_prop.entries.iter().filter(|(k, _)| k.label == label && k.tag == tag).map(|(k, _)| k.value.clone()).collect()
}

fn full_scan(state: &KeyspaceState, label: &str, key: &str, value: &str) -> BTreeSet<usize> {
    (0..state.node_count())
        .filter(|&idx| {
            let node = state.node(idx);
            if node.label != label {
                return false;
            }
            let prop = |k: &str| node.props.entries.iter().find(|(kk, _)| kk == k).and_then(|(_, v)| v.as_str());
            match key {
                "last_segment(qname)" => prop("qname").map(|q| last_segment(q) == value).unwrap_or(false),
                other => prop(other).is_some_and(|s| s == value),
            }
        })
        .collect()
}

#[test]
fn recall_matches_full_scan_on_1000_item_fixture() {
    let contexts = ["context_a", "context_b", "context_c", "context_d"];
    let roots = ["alpha", "beta", "gamma", "delta", "epsilon"];
    let leaves = ["foo", "bar", "baz", "qux", "quux", "corge", "grault", "xyzzy"];
    let mut nodes = Vec::with_capacity(1000);
    for i in 0..1000 {
        let ctx = contexts[i % contexts.len()];
        let root = roots[(i / contexts.len()) % roots.len()];
        let leaf = leaves[(i / (contexts.len() * roots.len())) % leaves.len()];
        let qname = format!("{root}::{leaf}_{i}");
        nodes.push(item(&format!("item:{i}"), &qname, ctx));
    }
    let mut state = KeyspaceState::new_with_spec(three_index_spec());
    state.ingest_nodes(nodes);
    assert_eq!(state.node_count(), 1000);
    let keys: BTreeSet<(String, String, String)> =
        state.by_prop.entries.iter().map(|(k, _)| (k.label.clone(), k.tag.clone(), k.value.clone())).collect();
    for (label, tag, value) in &keys {
        assert_eq!(postings(&state, label, tag, value), full_scan(&state, label, tag, value));
    }
    let ctx_values = values(&state, "Item", "bounded_context");
    assert_eq!(ctx_values.len(), contexts.len());
    for ctx in &ctx_values {
        assert_eq!(postings(&state, "Item", "bounded_context", ctx).len(), 250);
    }
    assert_eq!(values(&state, "Item", "last_segment(qname)").len(), 1000);
}

#[test]
fn stale_entry_removed_on_reingest_with_changed_prop() {
    let mut state = KeyspaceState::new_with_spec(three_index_spec());
    state.ingest_nodes(vec![item("item:a", "mod::foo", "context_a")]);
    let idx = 0usize;
    assert!(postings(&state, "Item", "qname", "mod::foo").contains(&idx));
    assert!(postings(&state, "Item", "bounded_context", "context_a").contains(&idx));
    assert!(postings(&state, "Item", "last_segment(qname)", "foo").contains(&idx));
    state.ingest_nodes(vec![item("item:a", "mod::bar", "context_b")]);
    assert!(postings(&state, "Item", "qname", "mod::foo").is_empty());
    assert!(postings(&state, "Item", "bounded_context", "context_a").is_empty());
    assert!(postings(&state, "Item", "last_segment(qname)", "foo").is_empty());
    assert!(postings(&state, "Item", "qname", "mod::bar").contains(&idx));
    assert!(postings(&state, "Item", "bounded_context", "context_b").contains(&idx));
    assert!(postings(&state, "Item", "last_segment(qname)", "bar").contains(&idx));
    assert_eq!(state.node_count(), 1);
    assert_eq!(state.by_prop.entries.len(), 3);
}

#[test]
fn canonical_dump_unaffected_by_by_prop() {
    let nodes = || vec![item("item:a", "mod::foo", "context_a"), item("item:b", "mod::bar", "context_b"), item("item:c", "other::foo", "context_a")];
    let mut indexed = KeyspaceState::new_with_spec(three_index_spec());
    indexed.ingest_nodes(nodes());
    let mut plain = KeyspaceState::new_with_spec(IndexSpec::empty());
    plain.ingest_nodes(nodes());
    assert_eq!(canonical_dump(&indexed), canonical_dump(&plain));
    assert!(!indexed.by_prop.entries.is_empty());
    assert!(plain.by_prop.entries.is_empty());
}

#[test]
fn empty_spec_skips_build_pass_entirely() {
    let mut state = KeyspaceState::new_with_spec(IndexSpec::empty());
    state.ingest_nodes(vec![item("item:a", "mod::foo", "context_a")]);
    assert!(state.by_prop.entries.is_empty());
}

#[test]
fn label_change_on_reingest_drops_old_label_entries() {
    let mut state = KeyspaceState::new_with_spec(three_index_spec());
    state.ingest_nodes(vec![item("item:a", "mod::foo", "context_a")]);
    assert!(postings(&state, "Item", "qname", "mod::foo").contains(&0));
    let changed = Node::new("item:a", "CallSite").with_prop("qname", s("mod::foo")).with_prop("bounded_context", s("context_a"));
    state.ingest_nodes(vec![changed]);
    assert!(postings(&state, "Item", "qname", "mod::foo").is_empty());
    assert!(state.by_prop.entries.is_empty());
    assert_eq!(state.nodes_with_label(&"Item".to_string()), Vec::<usize>::new());
    assert_eq!(state.nodes_with_label(&"CallSite".to_string()), vec![0]);
    assert!(state.has_label(&"Item".to_string()), "a label stays known once carried");
}

#[test]
fn index_key_of_accepts_scalar_shapes() {
    assert_eq!(index_key_of(&s("foo")).as_deref(), Some("foo"));
    assert_eq!(index_key_of(&PropValue::Int(42)).as_deref(), Some("42"));
    assert_eq!(index_key_of(&PropValue::Int(-9)).as_deref(), Some("-9"));
    assert_eq!(index_key_of(&PropValue::Int(i64::MIN)).as_deref(), Some("-9223372036854775808"));
    assert_eq!(index_key_of(&PropValue::Bool(true)).as_deref(), Some("true"));
    assert_eq!(index_key_of(&PropValue::Bool(false)).as_deref(), Some("false"));
}

#[test]
fn index_key_of_rejects_float_and_null() {
    let f = PropValue::Float { bits: 1.5f64.to_bits(), text: "1.5".to_string(), json: Some("1.5".to_string()), fixed: format!("{:020.10}", 1.5f64) };
    assert_eq!(index_key_of(&f), None);
    assert_eq!(index_key_of(&PropValue::Null), None);
}

#[test]
fn entry_value_for_node_skips_label_mismatch() {
    let entry = IndexEntry::Prop { label: "Item".into(), prop: "qname".into(), notes: "test".into() };
    let n = Node::new("a", "CallSite").with_prop("qname", s("foo"));
    assert!(entry_value_for_node(&entry, &n).is_none());
}

#[test]
fn entry_value_for_node_prop_returns_tag_and_value() {
    let entry = IndexEntry::Prop { label: "Item".into(), prop: "qname".into(), notes: "test".into() };
    let n = Node::new("a", "Item").with_prop("qname", s("foo::bar"));
    let k = entry_value_for_node(&entry, &n).expect("matched");
    assert_eq!((k.label.as_str(), k.tag.as_str(), k.value.as_str()), ("Item", "qname", "foo::bar"));
}

#[test]
fn entry_value_for_node_computed_evaluates_last_segment() {
    let entry = IndexEntry::Computed { label: "Item".into(), computed: ComputedKey::LastSegment, notes: "test".into() };
    let n = Node::new("a", "Item").with_prop("qname", s("foo::bar::baz"));
    let k = entry_value_for_node(&entry, &n).expect("matched");
    assert_eq!((k.label.as_str(), k.tag.as_str(), k.value.as_str()), ("Item", "last_segment(qname)", "baz"));
}

#[test]
fn entry_value_for_node_computed_evaluates_conversion_prefix_from_name() {
    let entry = IndexEntry::Computed { label: "Item".into(), computed: ComputedKey::ConversionPrefix, notes: "test".into() };
    let n = Node::new("a", "Item")
        .with_prop("qname", s("crate_a::infra::compute_0_from_bps"))
        .with_prop("name", s("compute_0_from_bps"));
    let k = entry_value_for_node(&entry, &n).expect("matched");
    assert_eq!((k.label.as_str(), k.tag.as_str(), k.value.as_str()), ("Item", "conversion_prefix(name)", "compute_0_from_"));
}

#[test]
fn entry_value_for_node_computed_conversion_prefix_non_match_contributes_nothing() {
    let entry = IndexEntry::Computed { label: "Item".into(), computed: ComputedKey::ConversionPrefix, notes: "test".into() };
    let n = Node::new("a", "Item").with_prop("qname", s("crate_a::infra::uniq_5")).with_prop("name", s("uniq_5"));
    assert!(entry_value_for_node(&entry, &n).is_none());
}

#[test]
fn entry_value_for_node_computed_conversion_prefix_absent_name_contributes_nothing() {
    let entry = IndexEntry::Computed { label: "Item".into(), computed: ComputedKey::ConversionPrefix, notes: "test".into() };
    let n = Node::new("a", "Item").with_prop("qname", s("crate_a::infra::thing"));
    assert!(entry_value_for_node(&entry, &n).is_none());
}

#[test]
fn entry_value_for_node_returns_none_when_prop_absent() {
    let entry = IndexEntry::Prop { label: "Item".into(), prop: "qname".into(), notes: "test".into() };
    let n = Node::new("a", "Item");
    assert!(entry_value_for_node(&entry, &n).is_none());
}

#[test]
fn computed_key_on_non_string_source_contributes_nothing() {
    let entry = IndexEntry::Computed { label: "Item".into(), computed: ComputedKey::LastSegment, notes: "test".into() };
    let n = Node::new("a", "Item").with_prop("qname", PropValue::Int(3));
    assert!(entry_value_for_node(&entry, &n).is_none());
}

#[test]
fn compute_index_entries_drops_repeats() {
    let spec = IndexSpec {
        entries: vec![
            IndexEntry::Prop { label: "Item".into(), prop: "qname".into(), notes: "a".into() },
            IndexEntry::Prop { label: "Item".into(), prop: "qname".into(), notes: "b".into() },
        ],
    };
    let n = Node::new("a", "Item").with_prop("qname", s("x::y"));
    let keys = compute_index_entries(&spec, &n);
    assert_eq!(keys.len(), 1);
    assert_eq!(keys[0].value, "x::y");
}

#[test]
fn all_nodes_sorted_orders_by_id() {
    let mut state = KeyspaceState::new_with_spec(IndexSpec::empty());
    state.ingest_nodes(vec![Node::new("c", "X"), Node::new("a", "X"), Node::new("b", "Y")]);
    assert_eq!(state.all_nodes_sorted(), vec![1, 2, 0]);
}
