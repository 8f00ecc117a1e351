use cfdb_petgraph::fact::{Node, PropValue, Props};
use cfdb_petgraph::history::{upsert, GitHistory, ATTR_AUTHOR, ATTR_COUNT, ATTR_TS};
use cfdb_petgraph::metrics::AstSignals;
use cfdb_petgraph::sorted::SortedMap;
use cfdb_petgraph::store::PetgraphStore;

fn s(x: &str) -> PropValue {
    PropValue::Str(x.to_string())
}

const WORKSPACE: &str = "/work/space";

/// The history a repository gives: commits folded newest first, as
/// `(path, unix time)` pairs, each by `test@example.com`.
fn history_of_commits(newest_first: &[(&str, i64)]) -> GitHistory {
    let mut info = SortedMap::new();
    for (path, ts) in newest_first {
        upsert(&mut info, path, *ts, "test@example.com");
    }
    info
}

fn store_with_item(workspace: &str, file_path: &str, item_qname: &str) -> PetgraphStore {
    let mut store = PetgraphStore::new().with_workspace(workspace.to_string());
    let node = Node::new(&format!("item:{item_qname}"), "Item").with_prop("qname", s(item_qname)).with_prop("file", s(file_path));
    store.ingest_nodes("test", vec![node]).expect("ingest_nodes");
    store
}

fn get_item_props(store: &PetgraphStore, qname: &str) -> Props {
    let (nodes, _) = store.export("test").expect("export");
    nodes
        .into_iter()
        .find(|n| n.props.get(&"qname".to_string()).and_then(|v| v.as_str()).is_some_and(|q| q == qname))
        .unwrap_or_else(|| panic!("item {qname} not found"))
        .props
}

fn prop<'a>(props: &'a Props, k: &str) -> Option<&'a PropValue> {
    props.get(&k.to_string())
}

fn two_commit_check() {
    let history = history_of_commits(&[("src/lib.rs", 1_700_000_100), ("src/lib.rs", 1_700_000_000)]);
    let mut store = store_with_item(WORKSPACE, "src/lib.rs", "crate::v2");
    let report = store.enrich_git_history("test", Ok(history)).expect("pass");
    assert!(report.ran, "pass should run: {:?}", report.warnings);
    assert_eq!(report.attrs_written, 3, "one :Item × three attrs");
    let props = get_item_props(&store, "crate::v2");
    assert!(matches!(prop(&props, ATTR_TS), Some(PropValue::Int(1_700_000_100))), "most recent commit timestamp");
    assert!(matches!(prop(&props, ATTR_AUTHOR), Some(PropValue::Str(a)) if a == "test@example.com"), "committer email");
    assert!(matches!(prop(&props, ATTR_COUNT), Some(PropValue::Int(2))), "two commits touched src/lib.rs");
}

#[test]
fn git_history_ac2_two_commit_fixture_writes_correct_attrs() {
    two_commit_check();
}

#[test]
fn tests_ac2_two_commit_fixture_writes_correct_attrs() {
    two_commit_check();
}

#[test]
fn absolute_file_path_strips_workspace_prefix_and_matches_git_info() {
    let history = history_of_commits(&[("src/lib.rs", 1_700_000_000)]);
    let absolute_file = format!("{WORKSPACE}/src/lib.rs");
    let mut store = store_with_item(WORKSPACE, &absolute_file, "crate::v1");
    let report = store.enrich_git_history("test", Ok(history)).expect("pass");
    assert!(report.ran);
    let props = get_item_props(&store, "crate::v1");
    assert!(
        matches!(prop(&props, ATTR_TS), Some(PropValue::Int(1_700_000_000))),
        "absolute :Item.file path must match git_info after workspace_root strip"
    );
}

fn untracked_check() {
    let history = history_of_commits(&[("src/tracked.rs", 1_700_000_000)]);
    let mut store = store_with_item(WORKSPACE, "src/untracked.rs", "crate::untracked");
    let report = store.enrich_git_history("test", Ok(history)).expect("pass");
    assert!(report.ran);
    let props = get_item_props(&store, "crate::untracked");
    assert!(matches!(prop(&props, ATTR_TS), Some(PropValue::Null)));
    assert!(matches!(prop(&props, ATTR_AUTHOR), Some(PropValue::Null)));
    assert!(matches!(prop(&props, ATTR_COUNT), Some(PropValue::Null)));
}

#[test]
fn git_history_ac3_untracked_file_gets_null_attrs() {
    untracked_check();
}

#[test]
fn tests_ac3_untracked_file_gets_null_attrs() {
    untracked_check();
}

fn two_runs_check() {
    let history = || history_of_commits(&[("src/a.rs", 1_700_000_200), ("src/b.rs", 1_700_000_100), ("src/a.rs", 1_700_000_000)]);
    let mut store1 = store_with_item(WORKSPACE, "src/a.rs", "crate::a");
    let mut store2 = store_with_item(WORKSPACE, "src/a.rs", "crate::a");
    store1.enrich_git_history("test", Ok(history())).expect("run 1");
    store2.enrich_git_history("test", Ok(history())).expect("run 2");
    assert_eq!(store1.canonical_dump("test").expect("dump 1"), store2.canonical_dump("test").expect("dump 2"));
}

#[test]
fn git_history_ac6_two_runs_produce_identical_canonical_dumps() {
    two_runs_check();
}

fn not_a_repo_check() {
    let mut store = store_with_item(WORKSPACE, "src/lib.rs", "crate::x");
    let failure = format!(
        "enrich_git_history: workspace_root={WORKSPACE:?} is not inside a git repository (could not find repository); writing Null for all items"
    );
    let report = store.enrich_git_history("test", Err(failure)).expect("pass");
    assert!(report.ran, "still ran — not an error, just degraded");
    assert!(report.warnings.iter().any(|w| w.contains("not inside a git repository")), "{:?}", report.warnings);
    let props = get_item_props(&store, "crate::x");
    assert!(matches!(prop(&props, ATTR_TS), Some(PropValue::Null)));
}

#[test]
fn git_history_workspace_not_a_git_repo_writes_nulls_with_warning() {
    not_a_repo_check();
}

#[test]
fn tests_workspace_not_a_git_repo_writes_nulls_with_warning() {
    not_a_repo_check();
}

fn empty_keyspace_check() {
    let history = history_of_commits(&[("src/lib.rs", 1_700_000_000)]);
    let mut store = PetgraphStore::new().with_workspace(WORKSPACE.to_string());
    store.ingest_nodes("test", Vec::new()).expect("ingest empty");
    let report = store.enrich_git_history("test", Ok(history)).expect("pass");
    assert!(report.ran);
    assert_eq!(report.attrs_written, 0);
    assert_eq!(report.facts_scanned, 0);
}

#[test]
fn git_history_empty_keyspace_returns_ran_true_with_zero_counters() {
    empty_keyspace_check();
}

#[test]
fn tests_empty_keyspace_returns_ran_true_with_zero_counters() {
    empty_keyspace_check();
}

#[test]
fn git_history_unknown_keyspace_returns_err() {
    let mut store = PetgraphStore::new().with_workspace(WORKSPACE.to_string());
    let err = store.enrich_git_history("never_ingested", Ok(SortedMap::new())).expect_err("unknown keyspace must error");
    assert!(format!("{err:?}").contains("UnknownKeyspace"));
}

#[test]
fn git_history_no_workspace_root_returns_degraded_report() {
    let mut store = PetgraphStore::new();
    let node = Node::new("item:crate::y", "Item").with_prop("qname", s("crate::y")).with_prop("file", s("src/lib.rs"));
    store.ingest_nodes("test", vec![node]).expect("ingest");
    let report = store.enrich_git_history("test", Ok(SortedMap::new())).expect("pass");
    assert!(!report.ran, "no workspace_root → ran=false");
    assert!(report.warnings.iter().any(|w| w.contains("workspace_root")), "{:?}", report.warnings);
}

#[test]
fn git_history_commit_fold_keeps_newest_commit() {
    let mut info: GitHistory = SortedMap::new();
    upsert(&mut info, "a.rs", 300, "new@x");
    upsert(&mut info, "a.rs", 200, "old@x");
    upsert(&mut info, "b.rs", 100, "b@x");
    let a = info.get(&"a.rs".to_string()).expect("a");
    assert_eq!((a.last_commit_unix_ts, a.last_author.as_str(), a.commit_count), (300, "new@x", 2));
    let b = info.get(&"b.rs".to_string()).expect("b");
    assert_eq!((b.last_commit_unix_ts, b.commit_count), (100, 1));
}

// ---------------------------------------------------------------------
// Metrics
// ---------------------------------------------------------------------

#[test]
fn metrics_unknown_keyspace_returns_err() {
    let mut store = PetgraphStore::new().with_workspace(WORKSPACE.to_string());
    let err = store
        .enrich_metrics("never", &SortedMap::new(), &SortedMap::new(), &SortedMap::new(), Vec::new())
        .expect_err("unknown keyspace must err");
    assert!(format!("{err:?}").contains("UnknownKeyspace"));
}

#[test]
fn tests_no_workspace_root_returns_degraded_report() {
    let mut store = PetgraphStore::new();
    store.ingest_nodes("test", vec![]).expect("register keyspace");
    let report = store.enrich_metrics("test", &SortedMap::new(), &SortedMap::new(), &SortedMap::new(), Vec::new()).expect("pass");
    assert!(!report.ran, "no workspace_root → ran=false");
    assert_eq!(report.facts_scanned, 0);
    assert_eq!(report.attrs_written, 0);
    assert_eq!(report.edges_written, 0);
    assert_eq!(
        report.warnings,
        vec!["enrich_metrics: no workspace_root attached to PetgraphStore — \
             construct via `PetgraphStore::new().with_workspace(root)` so \
             the pass can re-parse source files referenced by \
             :Item{kind:Fn}.file"
            .to_string()]
    );
}

fn fn_item(qname: &str) -> Node {
    Node::new(&format!("item:{qname}"), "Item")
        .with_prop("qname", s(qname))
        .with_prop("name", s(qname.rsplit("::").next().expect("name")))
        .with_prop("file", s("src/lib.rs"))
        .with_prop("kind", s("fn"))
}

#[test]
fn metrics_pass_writes_signals_and_clusters_to_fn_items() {
    let mut store = PetgraphStore::new().with_workspace(WORKSPACE.to_string());
    let structure = Node::new("item:crate::S", "Item").with_prop("qname", s("crate::S")).with_prop("kind", s("struct"));
    store.ingest_nodes("test", vec![fn_item("crate::b"), fn_item("crate::a"), structure]).expect("ingest");
    let items = store.fn_items("test").expect("items");
    let names: Vec<&str> = items.iter().map(|i| i.qname.as_str()).collect();
    assert_eq!(names, vec!["crate::a", "crate::b"], "function items sorted by qualified name");

    let mut sig = SortedMap::new();
    sig.insert("crate::a".to_string(), AstSignals::from_counts(2, 3));
    let mut clu = SortedMap::new();
    clu.insert("crate::b".to_string(), "cluster-1".to_string());
    let report = store.enrich_metrics("test", &sig, &SortedMap::new(), &clu, vec!["w".to_string()]).expect("pass");
    assert!(report.ran);
    assert_eq!(report.facts_scanned, 2);
    assert_eq!(report.attrs_written, 3, "two signals for a, one cluster id for b");
    assert_eq!(report.warnings, vec!["w".to_string()]);
    let a = get_item_props(&store, "crate::a");
    assert!(matches!(prop(&a, "unwrap_count"), Some(PropValue::Int(2))));
    assert!(matches!(prop(&a, "cyclomatic"), Some(PropValue::Int(4))));
    assert!(prop(&a, "dup_cluster_id").is_none());
    let b = get_item_props(&store, "crate::b");
    assert!(matches!(prop(&b, "dup_cluster_id"), Some(PropValue::Str(c)) if c == "cluster-1"));
    let st = get_item_props(&store, "crate::S");
    assert!(prop(&st, "unwrap_count").is_none(), "non-fn items are left alone");
}

#[test]
fn metrics_pass_without_fn_items_warns() {
    let mut store = PetgraphStore::new().with_workspace(WORKSPACE.to_string());
    store.ingest_nodes("test", vec![Node::new("x", "Item").with_prop("kind", s("struct"))]).expect("ingest");
    let report = store.enrich_metrics("test", &SortedMap::new(), &SortedMap::new(), &SortedMap::new(), Vec::new()).expect("pass");
    assert!(report.ran);
    assert_eq!(report.facts_scanned, 0);
    assert_eq!(report.warnings, vec!["enrich_metrics: no :Item{kind:Fn} nodes in keyspace — nothing to enrich".to_string()]);
}
