use cfdb_petgraph::bounded_context::NO_BC_ITEMS_WARNING;
use cfdb_petgraph::concepts::{ConceptOverrides, ContextMeta};
use cfdb_petgraph::fact::{Node, PropValue};
use cfdb_petgraph::rfc_docs::{contains_whole_word, extract_title, ScannedFile};
use cfdb_petgraph::sorted::SortedMap;
use cfdb_petgraph::store::PetgraphStore;

const WORKSPACE: &str = "/work/space";

fn s(x: &str) -> PropValue {
    PropValue::Str(x.to_string())
}

fn meta(name: &str, canonical: Option<&str>) -> ContextMeta {
    ContextMeta { name: name.to_string(), canonical_crate: canonical.map(|c| c.to_string()) }
}

/// The overrides one declaration file per `(name, canonical crate, crates)`
/// gives.
fn overrides(decls: &[(&str, Option<&str>, &[&str])]) -> ConceptOverrides {
    let mut declared = SortedMap::new();
    let mut crate_assignments = SortedMap::new();
    for (name, canonical, crates) in decls {
        declared.insert(name.to_string(), meta(name, *canonical));
        for c in crates.iter() {
            crate_assignments.insert(c.to_string(), meta(name, *canonical));
        }
    }
    ConceptOverrides { declared, crate_assignments }
}

fn empty_overrides() -> ConceptOverrides {
    ConceptOverrides { declared: SortedMap::new(), crate_assignments: SortedMap::new() }
}

fn concept_store(items: &[(&str, &str)]) -> PetgraphStore {
    let mut store = PetgraphStore::new().with_workspace(WORKSPACE.to_string());
    let nodes: Vec<Node> = items
        .iter()
        .map(|(q, c)| {
            Node::new(&format!("item:{q}"), "Item")
                .with_prop("qname", s(q))
                .with_prop("name", s(q))
                .with_prop("crate", s(c))
                .with_prop("file", s("src/lib.rs"))
        })
        .collect();
    store.ingest_nodes("test", nodes).expect("ingest");
    store
}

fn count_nodes(store: &PetgraphStore, label: &str) -> usize {
    let (nodes, _) = store.export("test").expect("export");
    nodes.iter().filter(|n| n.label == label).count()
}

fn count_edges(store: &PetgraphStore, label: &str) -> usize {
    let (_, edges) = store.export("test").expect("export");
    edges.iter().filter(|e| e.label == label).count()
}

fn trading() -> ConceptOverrides {
    overrides(&[("trading", Some("domain-trading"), &["domain-trading", "ports-trading"])])
}

#[test]
fn ac1_toml_emits_concept_plus_labeled_as_plus_canonical_for() {
    let mut store = concept_store(&[("A", "domain-trading"), ("B", "domain-trading"), ("C", "ports-trading"), ("D", "application-x")]);
    let report = store.enrich_concepts("test", Ok(trading())).expect("pass");
    assert!(report.ran);
    assert_eq!(report.facts_scanned, 1, "one declared concept");
    assert_eq!(count_nodes(&store, "Concept"), 1);
    assert_eq!(count_edges(&store, "LABELED_AS"), 3, "3 items in listed crates → 3 LABELED_AS edges");
    assert_eq!(count_edges(&store, "CANONICAL_FOR"), 2, "2 items in canonical_crate → 2 CANONICAL_FOR edges");
}

#[test]
fn ac2_empty_concepts_dir_is_graceful_noop() {
    let mut store = concept_store(&[("A", "domain-x")]);
    let report = store.enrich_concepts("test", Ok(empty_overrides())).expect("pass");
    assert!(report.ran, "empty concepts dir is a valid workspace shape");
    assert_eq!(report.facts_scanned, 0);
    assert_eq!(report.attrs_written, 0);
    assert_eq!(report.edges_written, 0);
    assert!(report.warnings.is_empty(), "no warning expected for empty concepts dir");
}

#[test]
fn no_concepts_dir_is_graceful_noop() {
    let mut store = concept_store(&[("A", "domain-x")]);
    let report = store.enrich_concepts("test", Ok(empty_overrides())).expect("pass");
    assert!(report.ran);
    assert_eq!(report.facts_scanned, 0);
    assert_eq!(report.edges_written, 0);
}

#[test]
fn ac3_malformed_toml_returns_ran_false_with_warning() {
    let mut store = concept_store(&[("A", "domain-x")]);
    let msg = "enrich_concepts: failed to load `.cfdb/concepts/*.toml`: broken.toml: expected `]`".to_string();
    let report = store.enrich_concepts("test", Err(msg)).expect("pass");
    assert!(!report.ran, "TOML load error → ran=false");
    assert_eq!(report.edges_written, 0);
    assert!(
        report.warnings.iter().any(|w| w.contains("concepts") || w.contains("toml") || w.contains("broken")),
        "warning must name the problem file: {:?}",
        report.warnings
    );
    assert_eq!(count_nodes(&store, "Concept"), 0);
}

fn concepts_two_runs_check() {
    let decls = || overrides(&[
        ("trading", Some("domain-trading"), &["domain-trading", "ports-trading"]),
        ("risk", None, &["domain-risk"]),
    ]);
    let build = || concept_store(&[("A", "domain-trading"), ("B", "ports-trading"), ("C", "domain-risk")]);
    let mut s1 = build();
    s1.enrich_concepts("test", Ok(decls())).expect("run 1");
    let mut s2 = build();
    s2.enrich_concepts("test", Ok(decls())).expect("run 2");
    assert_eq!(s1.canonical_dump("test").expect("dump 1"), s2.canonical_dump("test").expect("dump 2"));
}

fn rfc_two_runs_check() {
    let files = || {
        vec![
            scanned("docs/RFC-a.md", "# RFC A\n\nFooBarService and BazQuuxService.\n"),
            scanned("docs/RFC-b.md", "# RFC B\n\nOnly BazQuuxService.\n"),
        ]
    };
    let build = || {
        let mut store = PetgraphStore::new().with_workspace(WORKSPACE.to_string());
        for (n, q) in [("FooBarService", "crate::FooBarService"), ("BazQuuxService", "crate::BazQuuxService")] {
            let node = Node::new(&format!("item:{q}"), "Item").with_prop("qname", s(q)).with_prop("name", s(n)).with_prop("file", s("src/lib.rs"));
            store.ingest_nodes("test", vec![node]).expect("ingest");
        }
        store
    };
    let mut s1 = build();
    s1.enrich_rfc_docs("test", files(), Vec::new()).expect("run 1");
    let mut s2 = build();
    s2.enrich_rfc_docs("test", files(), Vec::new()).expect("run 2");
    assert_eq!(s1.canonical_dump("test").expect("dump 1"), s2.canonical_dump("test").expect("dump 2"));
    assert_eq!(count_nodes(&s1, "RfcDoc"), 2);
    assert_eq!(count_edges(&s1, "REFERENCED_BY"), 3);
}

#[test]
fn tests_ac5_two_runs_produce_identical_canonical_dumps() {
    concepts_two_runs_check();
    rfc_two_runs_check();
}

#[test]
fn ac7_three_toml_files_emit_three_concept_nodes() {
    let mut store = concept_store(&[("A", "domain-trading"), ("B", "domain-risk"), ("C", "domain-ledger")]);
    let decls = overrides(&[
        ("trading", None, &["domain-trading"]),
        ("risk", None, &["domain-risk"]),
        ("ledger", None, &["domain-ledger"]),
    ]);
    store.enrich_concepts("test", Ok(decls)).expect("pass");
    assert_eq!(count_nodes(&store, "Concept"), 3, "3 TOML files → 3 :Concept nodes");
    assert_eq!(count_edges(&store, "LABELED_AS"), 3);
}

#[test]
fn concept_nodes_have_assigned_by_manual() {
    let mut store = concept_store(&[("A", "domain-trading")]);
    let report = store.enrich_concepts("test", Ok(overrides(&[("trading", None, &["domain-trading"])]))).expect("pass");
    assert_eq!(report.attrs_written, 2);
    let (nodes, edges) = store.export("test").expect("export");
    let concept = nodes.iter().find(|n| n.label == "Concept").expect(":Concept node must exist");
    assert_eq!(concept.id, "concept:trading");
    assert_eq!(concept.props.get(&"assigned_by".to_string()).and_then(|v| v.as_str()), Some("manual"));
    assert_eq!(concept.props.get(&"name".to_string()).and_then(|v| v.as_str()), Some("trading"));
    assert!(edges.iter().any(|e| e.src == "item:A" && e.dst == "concept:trading" && e.label == "LABELED_AS"));
}

#[test]
fn items_without_crate_prop_are_ignored() {
    let mut store = PetgraphStore::new().with_workspace(WORKSPACE.to_string());
    let node = Node::new("item:NoCrate", "Item").with_prop("qname", s("NoCrate"));
    store.ingest_nodes("test", vec![node]).expect("ingest");
    let report = store.enrich_concepts("test", Ok(overrides(&[("trading", None, &["domain-trading"])]))).expect("pass");
    assert!(report.ran);
    assert_eq!(report.edges_written, 0);
    assert_eq!(count_nodes(&store, "Concept"), 1);
}

#[test]
fn concepts_and_rfc_docs_unknown_keyspace_returns_err() {
    let mut store = PetgraphStore::new().with_workspace(WORKSPACE.to_string());
    let err = store.enrich_concepts("never", Ok(empty_overrides())).expect_err("unknown keyspace must err");
    assert!(format!("{err:?}").contains("UnknownKeyspace"));
    let err = store.enrich_rfc_docs("never", Vec::new(), Vec::new()).expect_err("unknown keyspace must err");
    assert!(format!("{err:?}").contains("UnknownKeyspace"));
}

#[test]
fn concepts_and_rfc_docs_no_workspace_root_returns_degraded_report() {
    let mut store = PetgraphStore::new();
    let node = Node::new("item:A", "Item").with_prop("qname", s("A")).with_prop("name", s("A")).with_prop("crate", s("domain-x"));
    store.ingest_nodes("test", vec![node]).expect("ingest");
    let report = store.enrich_concepts("test", Ok(empty_overrides())).expect("pass");
    assert!(!report.ran);
    assert!(report.warnings.iter().any(|w| w.contains("workspace_root")));
    let report = store.enrich_rfc_docs("test", vec![scanned("docs/a.md", "mentions A\n")], Vec::new()).expect("pass");
    assert!(!report.ran, "no workspace_root → ran=false");
    assert!(report.warnings.iter().any(|w| w.contains("workspace_root")), "warning must name the missing root");
    assert_eq!(count_edges(&store, "REFERENCED_BY"), 0);
}

// ---------------------------------------------------------------------
// Bounded contexts
// ---------------------------------------------------------------------

fn bc_store(workspace: Option<&str>, items: &[(&str, &str, &str)]) -> PetgraphStore {
    let mut store = match workspace {
        Some(w) => PetgraphStore::new().with_workspace(w.to_string()),
        None => PetgraphStore::new(),
    };
    let nodes: Vec<Node> = items
        .iter()
        .map(|(q, c, ctx)| {
            Node::new(&format!("item:{q}"), "Item")
                .with_prop("qname", s(q))
                .with_prop("name", s(q))
                .with_prop("crate", s(c))
                .with_prop("bounded_context", s(ctx))
                .with_prop("file", s("src/lib.rs"))
        })
        .collect();
    store.ingest_nodes("test", nodes).expect("ingest");
    store
}

fn context_of(store: &PetgraphStore, qname: &str) -> String {
    let (nodes, _) = store.export("test").expect("export");
    nodes
        .iter()
        .find(|n| n.props.get(&"qname".to_string()).and_then(|v| v.as_str()) == Some(qname))
        .and_then(|n| n.props.get(&"bounded_context".to_string()).and_then(|v| v.as_str()))
        .map(|x| x.to_string())
        .unwrap_or_else(|| panic!("item {qname} or its bounded_context missing"))
}

#[test]
fn ac1_toml_override_patches_mismatched_items() {
    let mut store = bc_store(Some(WORKSPACE), &[("crate::A", "domain-trading", "trading"), ("crate::B", "domain-trading", "trading")]);
    let report = store.enrich_bounded_context("test", Ok(overrides(&[("custom-trading", None, &["domain-trading"])]))).expect("pass");
    assert!(report.ran);
    assert_eq!(report.facts_scanned, 2);
    assert_eq!(report.attrs_written, 2, "both items patched");
    assert_eq!(context_of(&store, "crate::A"), "custom-trading");
    assert_eq!(context_of(&store, "crate::B"), "custom-trading");
}

#[test]
fn ac2_no_toml_is_noop_on_items_that_match_heuristic() {
    let mut store = bc_store(Some(WORKSPACE), &[("crate::A", "domain-trading", "trading")]);
    let before = store.canonical_dump("test").expect("dump");
    let report = store.enrich_bounded_context("test", Ok(empty_overrides())).expect("pass");
    assert!(report.ran);
    assert_eq!(report.facts_scanned, 1);
    assert_eq!(report.attrs_written, 0, "no-op on fresh-extract values");
    assert_eq!(store.canonical_dump("test").expect("dump"), before);
}

#[test]
fn ac3_only_mismatched_crates_patched() {
    let mut store = bc_store(
        Some(WORKSPACE),
        &[("crate::A", "domain-trading", "trading"), ("crate::B", "domain-trading", "trading"), ("crate::C", "ports-trading", "trading")],
    );
    let report = store
        .enrich_bounded_context("test", Ok(overrides(&[("trading-v2", None, &["domain-trading"])])))
        .expect("pass");
    assert!(report.ran);
    assert_eq!(report.attrs_written, 2, "two domain-trading items patched");
    assert_eq!(context_of(&store, "crate::A"), "trading-v2");
    assert_eq!(context_of(&store, "crate::B"), "trading-v2");
    assert_eq!(context_of(&store, "crate::C"), "trading");
}

#[test]
fn ac7_two_runs_produce_identical_canonical_dumps() {
    let build = || bc_store(Some(WORKSPACE), &[("crate::A", "domain-trading", "trading"), ("crate::B", "ports-trading", "trading")]);
    let exp = || Ok(overrides(&[("custom-trading", None, &["domain-trading"]), ("trading", None, &["ports-trading"])]));
    let mut s1 = build();
    s1.enrich_bounded_context("test", exp()).expect("run 1");
    let mut s2 = build();
    s2.enrich_bounded_context("test", exp()).expect("run 2");
    assert_eq!(s1.canonical_dump("test").expect("dump 1"), s2.canonical_dump("test").expect("dump 2"));
}

#[test]
fn malformed_toml_returns_ran_false_with_warning() {
    let mut store = bc_store(Some(WORKSPACE), &[("crate::A", "domain-trading", "trading")]);
    let msg = "enrich_bounded_context: failed to load `.cfdb/concepts/*.toml`: broken.toml: expected `]`".to_string();
    let report = store.enrich_bounded_context("test", Err(msg)).expect("pass");
    assert!(!report.ran, "TOML load error → ran=false");
    assert_eq!(report.attrs_written, 0);
    assert!(report.warnings.iter().any(|w| w.contains("concepts") || w.contains("toml")), "{:?}", report.warnings);
    assert_eq!(context_of(&store, "crate::A"), "trading");
}

#[test]
fn bounded_context_empty_keyspace_returns_ran_true_with_zero_counters() {
    let mut store = PetgraphStore::new().with_workspace(WORKSPACE.to_string());
    store.ingest_nodes("test", Vec::new()).expect("ingest empty");
    let report = store.enrich_bounded_context("test", Ok(empty_overrides())).expect("pass");
    assert!(report.ran);
    assert_eq!(report.facts_scanned, 0);
    assert_eq!(report.attrs_written, 0);
    assert_eq!(report.warnings, vec![NO_BC_ITEMS_WARNING.to_string()]);
}

#[test]
fn bounded_context_unknown_keyspace_returns_err() {
    let mut store = PetgraphStore::new().with_workspace(WORKSPACE.to_string());
    let err = store.enrich_bounded_context("never", Ok(empty_overrides())).expect_err("unknown keyspace must err");
    assert!(format!("{err:?}").contains("UnknownKeyspace"));
}

#[test]
fn bounded_context_no_workspace_root_returns_degraded_report() {
    let mut store = bc_store(None, &[("crate::A", "domain-x", "x")]);
    let report = store.enrich_bounded_context("test", Ok(overrides(&[("y", None, &["domain-x"])]))).expect("pass");
    assert!(!report.ran);
    assert!(report.warnings.iter().any(|w| w.contains("workspace_root")));
    assert_eq!(context_of(&store, "crate::A"), "x");
}

#[test]
fn bounded_context_absent_context_is_written() {
    let mut store = PetgraphStore::new().with_workspace(WORKSPACE.to_string());
    let node = Node::new("item:crate::A", "Item").with_prop("qname", s("crate::A")).with_prop("crate", s("domain-a"));
    let other = Node::new("item:crate::B", "Item").with_prop("qname", s("crate::B")).with_prop("crate", s("unlisted")).with_prop("bounded_context", s("b"));
    store.ingest_nodes("test", vec![node, other]).expect("ingest");
    let report = store.enrich_bounded_context("test", Ok(overrides(&[("a", None, &["domain-a"])]))).expect("pass");
    assert_eq!(report.facts_scanned, 2);
    assert_eq!(report.attrs_written, 1);
    assert_eq!(context_of(&store, "crate::A"), "a");
    assert_eq!(context_of(&store, "crate::B"), "b", "a crate without an expected context is left alone");
}

// ---------------------------------------------------------------------
// Document references
// ---------------------------------------------------------------------

fn scanned(path: &str, content: &str) -> ScannedFile {
    ScannedFile { path: path.to_string(), title: extract_title(content), content: content.to_string() }
}

fn rfc_store(name: &str, qname: &str) -> PetgraphStore {
    let mut store = PetgraphStore::new().with_workspace(WORKSPACE.to_string());
    let node = Node::new(&format!("item:{qname}"), "Item").with_prop("qname", s(qname)).with_prop("name", s(name)).with_prop("file", s("src/lib.rs"));
    store.ingest_nodes("test", vec![node]).expect("ingest");
    store
}

#[test]
fn ac1_match_emits_one_rfc_doc_and_one_edge() {
    let mut store = rfc_store("FooBarService", "crate::FooBarService");
    let files = vec![scanned("docs/RFC-example.md", "# Example RFC\n\nRefers to FooBarService here.\n")];
    let report = store.enrich_rfc_docs("test", files, Vec::new()).expect("pass");
    assert!(report.ran);
    assert_eq!(report.facts_scanned, 1, "one RFC file scanned");
    assert_eq!(report.edges_written, 1, "one REFERENCED_BY edge");
    assert_eq!(count_nodes(&store, "RfcDoc"), 1);
    assert_eq!(count_edges(&store, "REFERENCED_BY"), 1);
}

#[test]
fn ac2_no_rfc_files_returns_zeroed_report() {
    let mut store = rfc_store("FooBarService", "crate::FooBarService");
    let report = store.enrich_rfc_docs("test", Vec::new(), Vec::new()).expect("pass");
    assert!(report.ran);
    assert_eq!(report.facts_scanned, 0);
    assert_eq!(report.attrs_written, 0);
    assert_eq!(report.edges_written, 0);
}

#[test]
fn ac6_empty_file_and_no_heading_do_not_panic() {
    let mut store = rfc_store("FooBarService", "crate::FooBarService");
    let files = vec![
        scanned("docs/empty.md", ""),
        scanned("docs/has-heading.md", "# Real Heading\n\nMentions FooBarService.\n"),
        scanned("docs/no-heading.md", "just text, no heading\nand another line\n"),
    ];
    let report = store.enrich_rfc_docs("test", files, Vec::new()).expect("pass");
    assert!(report.ran);
    assert_eq!(report.facts_scanned, 3);
    assert_eq!(report.edges_written, 1, "only has-heading.md has the match");
}

#[test]
fn whole_word_matching_rejects_substring_matches() {
    let mut store = rfc_store("Timer", "crate::Timer");
    let files = vec![scanned("docs/RFC-example.md", "# Example\n\nMentions Timers and preTimer and TimerService and TimerXyz.\n")];
    let report = store.enrich_rfc_docs("test", files, Vec::new()).expect("pass");
    assert_eq!(report.edges_written, 0, "substring matches rejected");
}

#[test]
fn whole_word_matching_accepts_punctuation_neighbours() {
    let mut store = rfc_store("Timer", "crate::Timer");
    let files = vec![scanned("docs/RFC-example.md", "# Example\n\nUse `Timer`, then Timer. Also Timer's behavior.\n")];
    let report = store.enrich_rfc_docs("test", files, Vec::new()).expect("pass");
    assert_eq!(report.edges_written, 1, "backticks/commas/apostrophes are word boundaries");
}

#[test]
fn qname_match_triggers_reference_when_name_absent() {
    let mut store = rfc_store("NotMentionedHere", "cfdb_core::enrich::EnrichBackend");
    let files = vec![scanned("docs/RFC-example.md", "# Example\n\nThe cfdb_core::enrich::EnrichBackend trait.\n")];
    let report = store.enrich_rfc_docs("test", files, Vec::new()).expect("pass");
    assert_eq!(report.edges_written, 1);
}

#[test]
fn rfc_file_with_no_matches_is_not_emitted_as_node() {
    let mut store = rfc_store("FooBarService", "crate::FooBarService");
    let files = vec![scanned("docs/unrelated.md", "# Meta\n\nNothing to see.\n")];
    let report = store.enrich_rfc_docs("test", files, Vec::new()).expect("pass");
    assert_eq!(report.facts_scanned, 1);
    assert_eq!(report.attrs_written, 0, "no :RfcDoc emitted for orphan file");
    assert_eq!(report.edges_written, 0);
    assert_eq!(count_nodes(&store, "RfcDoc"), 0);
}

#[test]
fn rfc_doc_node_carries_path_and_title() {
    let mut store = rfc_store("FooBarService", "crate::FooBarService");
    let files = vec![scanned("docs/RFC-example.md", "# Example RFC\n\nRefers to FooBarService here.\n")];
    let report = store.enrich_rfc_docs("test", files, vec!["a read warning".to_string()]).expect("pass");
    assert_eq!(report.warnings, vec!["a read warning".to_string()]);
    let (nodes, edges) = store.export("test").expect("export");
    let doc = nodes.iter().find(|n| n.label == "RfcDoc").expect("doc node");
    assert_eq!(doc.props.get(&"path".to_string()).and_then(|v| v.as_str()), Some("docs/RFC-example.md"));
    assert_eq!(doc.props.get(&"title".to_string()).and_then(|v| v.as_str()), Some("Example RFC"));
    assert!(edges.iter().any(|e| e.src == "item:crate::FooBarService" && e.dst == doc.id && e.label == "REFERENCED_BY"));
}

#[test]
fn bounded_context_second_pass_patches_nothing() {
    let mut store = bc_store(Some(WORKSPACE), &[("crate::A", "domain-trading", "trading"), ("crate::B", "ports-trading", "old")]);
    let exp = || Ok(overrides(&[("custom-trading", None, &["domain-trading"]), ("trading", None, &["ports-trading"])]));
    let first = store.enrich_bounded_context("test", exp()).expect("run 1");
    assert_eq!(first.attrs_written, 2);
    let dump = store.canonical_dump("test").expect("dump");
    let second = store.enrich_bounded_context("test", exp()).expect("run 2");
    assert_eq!(second.attrs_written, 0, "a patched keyspace needs no patch");
    assert_eq!(store.canonical_dump("test").expect("dump"), dump);
}

#[test]
fn whole_word_search_answers_on_multibyte_needles() {
    assert!(contains_whole_word("éx é", "é"));
    assert!(!contains_whole_word("aé", "é"));
    assert!(contains_whole_word("aé é.", "é"));
    assert!(!contains_whole_word("anything", ""));
}
