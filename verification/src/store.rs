//! The in-memory store: named keyspaces, each holding one graph.
use vstd::prelude::*;

use crate::clause::{row_maps, rows_wf};
use crate::dump::{canonical_dump, is_canonical_dump};
use crate::eval::{query_rows, run_query, QueryResult};
use crate::explain::ExplainRow;
use crate::history::{enrich_git_history_state, history_written, GitHistory, GIT_HISTORY_VERB, NO_ITEMS_WARNING, NO_WORKSPACE_ROOT_WARNING};
use crate::metrics::{collect_fn_items, enrich_metrics_state, fn_item_at, fn_items, fn_items_upto, metrics_count_upto, metrics_written, AstSignals, FnItem, METRICS_NO_WORKSPACE_WARNING, METRICS_VERB, NO_FN_ITEMS_WARNING};
use crate::query::Query;
use crate::reachability::{enrich_reachability_state, labelled, reachability_written, resolving_upto, ENTRY_POINT_LABEL, NO_ENTRY_POINTS_WARNING, REACHABILITY_VERB};
use crate::fact::{props_view, Edge, Node, PropValue, Warning, WarningKind};
use crate::graph::{applied_edges, apply_nodes, has_id, id_index, prop_written, lemma_ingest_keeps_other_ids, lemma_ingest_last_write_wins, suppressed_message, unique_ids, KeyspaceState};
use crate::graph_api::{id_map_entries, id_map_get};
use crate::index_spec::IndexSpec;
use crate::rfc_docs::{ITEM_LABEL, emitted_edges_for, emitted_nodes_for, enrich_rfc_docs, has_matchable, rfc_ref_pairs, EnrichReport, ScannedFile, RFC_DOCS_VERB};
use crate::sorted::{Keyed, SortedMap};
use crate::bounded_context::{context_patched, enrich_bounded_context_state, assigned_contexts, patch_count_upto, BOUNDED_CONTEXT_VERB, NO_BC_ITEMS_WARNING};
use crate::concepts::{concept_edges, edge_views, enrich_concepts_state, is_concept_node, ConceptOverrides, CONCEPTS_VERB};

verus! {

/// A schema version, `major.minor.patch`.
#[derive(Clone, Copy, Debug, PartialEq, Eq, Structural)]
pub struct SchemaVersion {
    pub major: u32,
    pub minor: u32,
    pub patch: u32,
}

impl SchemaVersion {
    /// The schema version this store writes.
    pub fn current() -> (r: SchemaVersion)
        ensures
            r == (SchemaVersion { major: 0, minor: 2, patch: 3 }),
    {
        SchemaVersion { major: 0, minor: 2, patch: 3 }
    }
}

/// Why a store operation failed.
#[derive(Debug)]
pub enum StoreError {
    /// The named keyspace holds nothing.
    UnknownKeyspace(String),
    /// A graph written under a schema the reader cannot read.
    SchemaMismatch { reader: SchemaVersion, graph: SchemaVersion },
    /// Any other failure, described.
    Other(String),
}

/// The warning of the document-reference pass on a store without a workspace.
pub const RFC_NO_WORKSPACE_WARNING: &'static str = "enrich_rfc_docs: no workspace_root set on the store — nothing to scan";
/// The warning of the concepts pass on a store without a workspace.
pub const CONCEPTS_NO_WORKSPACE_WARNING: &'static str = "enrich_concepts: no workspace_root set on the store — nothing to read concepts from";
/// The warning of the bounded-context pass on a store without a workspace.
pub const BC_NO_WORKSPACE_WARNING: &'static str = "enrich_bounded_context: no workspace_root set on the store — nothing to read concepts from";

/// The note of the deprecation pass.
pub const DEPRECATION_NOTE: &'static str = "enrich_deprecation: facts populated at extraction time by cfdb-extractor::extract_deprecated_attr (#43-C / RFC addendum §A2.2 row 3); no enrichment work to do";

/// A store of named keyspaces.
pub struct PetgraphStore {
    pub keyspaces: SortedMap<String, KeyspaceState>,
    pub schema_version: SchemaVersion,
    /// The workspace the facts were extracted from, if known.
    pub workspace_root: Option<String>,
    /// The indexes that keyspaces created from now on keep.
    pub index_spec: IndexSpec,
}

impl PetgraphStore {
    pub open spec fn wf(&self) -> bool {
        &&& self.keyspaces.wf()
        &&& forall|k: Seq<char>| #[trigger] self.keyspaces.has(k) ==> self.keyspaces.lookup(k)->0.wf()
    }

    /// The keyspace named `k`, if it exists.
    pub open spec fn keyspace(&self, k: Seq<char>) -> Option<KeyspaceState> {
        self.keyspaces.lookup(k)
    }

    /// The nodes of keyspace `k` (none when it does not exist).
    pub open spec fn nodes_in(&self, k: Seq<char>) -> Seq<Node> {
        match self.keyspace(k) {
            Some(s) => s.nodes(),
            None => Seq::empty(),
        }
    }

    /// The edges of keyspace `k` (none when it does not exist).
    pub open spec fn edges_in(&self, k: Seq<char>) -> Seq<(usize, usize, Edge)> {
        match self.keyspace(k) {
            Some(s) => s.edges(),
            None => Seq::empty(),
        }
    }

    /// Every keyspace but `k` is as in `other`.
    pub open spec fn others_unchanged(&self, other: PetgraphStore, k: Seq<char>) -> bool {
        forall|q: Seq<char>| q != k ==> (#[trigger] self.keyspaces.has(q) == other.keyspaces.has(q)
            && self.keyspace(q) == other.keyspace(q))
    }

    /// An empty store with no indexes.
    pub fn new() -> (r: PetgraphStore)
        ensures
            r.wf(),
            r.keyspaces.entries@.len() == 0,
            r.workspace_root is None,
            r.index_spec.entries@.len() == 0,
            r.schema_version == (SchemaVersion { major: 0, minor: 2, patch: 3 }),
    {
        PetgraphStore {
            keyspaces: SortedMap::new(),
            schema_version: SchemaVersion::current(),
            workspace_root: None,
            index_spec: IndexSpec::empty(),
        }
    }

    /// The store, remembering `root` as its workspace.
    pub fn with_workspace(self, root: String) -> (r: PetgraphStore)
        ensures
            r.workspace_root == Some(root),
            r.keyspaces == self.keyspaces,
            r.index_spec == self.index_spec,
            r.schema_version == self.schema_version,
    {
        PetgraphStore { workspace_root: Some(root), ..self }
    }

    /// The store, keeping the indexes of `spec` in the keyspaces it
    /// creates from now on.
    pub fn with_indexes(self, spec: IndexSpec) -> (r: PetgraphStore)
        ensures
            r.index_spec == spec,
            r.keyspaces == self.keyspaces,
            r.workspace_root == self.workspace_root,
            r.schema_version == self.schema_version,
    {
        PetgraphStore { index_spec: spec, ..self }
    }

    /// The workspace root, if one was given.
    pub fn workspace_root(&self) -> (r: Option<&str>)
        ensures
            match r {
                Some(s) => self.workspace_root is Some && s@ == self.workspace_root->0@,
                None => self.workspace_root is None,
            },
    {
        match &self.workspace_root {
            Some(s) => Some(s.as_str()),
            None => None,
        }
    }

    /// The declared indexes.
    pub fn index_spec(&self) -> (r: &IndexSpec)
        ensures
            *r == self.index_spec,
    {
        &self.index_spec
    }

    /// Takes keyspace `name` out of the store, or makes a fresh one with
    /// the store's indexes.
    pub(crate) fn take_keyspace(&mut self, name: &String) -> (r: KeyspaceState)
        requires
            old(self).wf(),
        ensures
            final(self).wf(),
            !final(self).keyspaces.has(name@),
            final(self).others_unchanged(*old(self), name@),
            final(self).index_spec == old(self).index_spec,
            final(self).schema_version == old(self).schema_version,
            final(self).workspace_root == old(self).workspace_root,
            r.wf(),
            old(self).keyspaces.has(name@) ==> Some(r) == old(self).keyspace(name@),
            !old(self).keyspaces.has(name@) ==> r.nodes().len() == 0 && r.edges().len() == 0
                && r.ingest_warnings@.len() == 0 && r.suppressed_contentions == 0
                && r.index_spec.entries@ == old(self).index_spec.entries@,
    {
        let ghost pre = *self;
        let r = match self.keyspaces.remove(name) {
            Some(s) => {
                proof {
                    assert(pre.keyspaces.has(name@));
                }
                s
            },
            None => KeyspaceState::new_with_spec(self.index_spec.duplicate()),
        };
        proof {
            assert forall|k: Seq<char>| #[trigger] self.keyspaces.has(k) implies self.keyspaces.lookup(k)->0.wf() by {
                assert(pre.keyspaces.has(k));
            }
        }
        r
    }

    /// Puts keyspace `state` back under `name`.
    pub(crate) fn put_keyspace(&mut self, name: String, state: KeyspaceState)
        requires
            old(self).wf(),
            state.wf(),
        ensures
            final(self).wf(),
            final(self).keyspace(name@) == Some(state),
            final(self).keyspaces.has(name@),
            final(self).others_unchanged(*old(self), name@),
            final(self).index_spec == old(self).index_spec,
            final(self).schema_version == old(self).schema_version,
            final(self).workspace_root == old(self).workspace_root,
    {
        let ghost pre = *self;
        let ghost k0 = name@;
        self.keyspaces.insert(name, state);
        proof {
            assert forall|k: Seq<char>| #[trigger] self.keyspaces.has(k) implies self.keyspaces.lookup(k)->0.wf() by {
                if k != k0 {
                    assert(pre.keyspaces.has(k));
                }
            }
        }
    }

    /// Ingests `nodes` into keyspace `keyspace` (created if needed): each
    /// node replaces the node with its id, or is added.
    pub fn ingest_nodes(&mut self, keyspace: &str, nodes: Vec<Node>) -> (r: Result<(), StoreError>)
        requires
            old(self).wf(),
            forall|i: int| 0 <= i < nodes@.len() ==> (#[trigger] nodes@[i]).props.wf(),
            old(self).nodes_in(keyspace@).len() + nodes@.len() + 1 < 0xffff_ffff,
        ensures
            r is Ok,
            final(self).wf(),
            final(self).keyspaces.has(keyspace@),
            final(self).nodes_in(keyspace@) == apply_nodes(old(self).nodes_in(keyspace@), nodes@),
            final(self).edges_in(keyspace@) == old(self).edges_in(keyspace@),
            final(self).others_unchanged(*old(self), keyspace@),
            final(self).index_spec == old(self).index_spec,
    {
        let name = keyspace.to_owned();
        let mut state = self.take_keyspace(&name);
        proof {
            assert(state.nodes() =~= old(self).nodes_in(keyspace@));
            assert(state.edges() =~= old(self).edges_in(keyspace@));
        }
        state.ingest_nodes(nodes);
        self.put_keyspace(name, state);
        Ok(())
    }

    /// Ingests `edges` into keyspace `keyspace` (created if needed); an
    /// edge naming an unknown node id is skipped with a warning.
    pub fn ingest_edges(&mut self, keyspace: &str, edges: Vec<Edge>) -> (r: Result<(), StoreError>)
        requires
            old(self).wf(),
            old(self).edges_in(keyspace@).len() + edges@.len() + 1 < 0xffff_ffff,
        ensures
            r is Ok,
            final(self).wf(),
            final(self).keyspaces.has(keyspace@),
            final(self).nodes_in(keyspace@) == old(self).nodes_in(keyspace@),
            final(self).edges_in(keyspace@) == old(self).edges_in(keyspace@) + applied_edges(old(self).nodes_in(keyspace@), edges@),
            final(self).others_unchanged(*old(self), keyspace@),
            final(self).index_spec == old(self).index_spec,
    {
        let name = keyspace.to_owned();
        let mut state = self.take_keyspace(&name);
        proof {
            assert(state.nodes() =~= old(self).nodes_in(keyspace@));
            assert(state.edges() =~= old(self).edges_in(keyspace@));
        }
        state.ingest_edges(edges);
        self.put_keyspace(name, state);
        Ok(())
    }

    /// Whether keyspace `keyspace` holds a node with id `id`.
    pub fn has_node(&self, keyspace: &str, id: &str) -> (r: bool)
        requires
            self.wf(),
        ensures
            r == (self.keyspaces.has(keyspace@) && has_id(self.nodes_in(keyspace@), id@)),
    {
        let name = keyspace.to_owned();
        match self.keyspaces.get(&name) {
            Some(state) => {
                proof {
                    assert(self.keyspaces.has(keyspace@));
                    if has_id(state.nodes(), id@) {
                        let i = choose|i: int| 0 <= i < state.nodes().len() && #[trigger] state.nodes()[i].id@ == id@;
                        assert(id_map_entries(state.id_to_idx).contains_key(state.nodes()[i].id@));
                    }
                    if id_map_entries(state.id_to_idx).contains_key(id@) {
                        let x = id_map_entries(state.id_to_idx)[id@];
                        assert(state.nodes()[x as int].id@ == id@);
                    }
                }
                id_map_get(&state.id_to_idx, id).is_some()
            },
            None => false,
        }
    }

    /// Copies of the nodes and edges of keyspace `keyspace`, in insertion
    /// order.
    pub fn export(&self, keyspace: &str) -> (r: Result<(Vec<Node>, Vec<Edge>), StoreError>)
        requires
            self.wf(),
        ensures
            match r {
                Ok((ns, es)) => {
                    &&& self.keyspaces.has(keyspace@)
                    &&& ns@.len() == self.nodes_in(keyspace@).len()
                    &&& forall|i: int| 0 <= i < ns@.len() ==> (#[trigger] ns@[i]).same_node(&self.nodes_in(keyspace@)[i])
                        && ns@[i].props.wf()
                    &&& es@.len() == self.edges_in(keyspace@).len()
                    &&& forall|j: int| 0 <= j < es@.len() ==> (#[trigger] es@[j]).src@ == self.edges_in(keyspace@)[j].2.src@
                        && es@[j].dst@ == self.edges_in(keyspace@)[j].2.dst@
                        && es@[j].label@ == self.edges_in(keyspace@)[j].2.label@
                        && props_view(es@[j].props) == props_view(self.edges_in(keyspace@)[j].2.props)
                },
                Err(e) => !self.keyspaces.has(keyspace@) && (e matches StoreError::UnknownKeyspace(k) && k@ == keyspace@),
            },
    {
        let name = keyspace.to_owned();
        let state = match self.keyspaces.get(&name) {
            Some(s) => s,
            None => return Err(StoreError::UnknownKeyspace(name)),
        };
        proof {
            assert(self.keyspaces.has(keyspace@));
        }
        let n = state.node_count();
        let mut ns: Vec<Node> = Vec::new();
        let mut i: usize = 0;
        while i < n
            invariant
                i <= n,
                n == state.nodes().len(),
                state.wf(),
                ns@.len() == i,
                forall|x: int| 0 <= x < i ==> (#[trigger] ns@[x]).same_node(&state.nodes()[x]) && ns@[x].props.wf(),
            decreases n - i,
        {
            let node = state.node(i);
            ns.push(node.duplicate());
            i = i + 1;
        }
        let m = state.edge_count();
        let mut es: Vec<Edge> = Vec::new();
        let mut j: usize = 0;
        while j < m
            invariant
                j <= m,
                m == state.edges().len(),
                state.wf(),
                es@.len() == j,
                forall|x: int| 0 <= x < j ==> (#[trigger] es@[x]).src@ == state.edges()[x].2.src@
                    && es@[x].dst@ == state.edges()[x].2.dst@
                    && es@[x].label@ == state.edges()[x].2.label@
                    && props_view(es@[x].props) == props_view(state.edges()[x].2.props),
            decreases m - j,
        {
            let edge = state.edge(j);
            es.push(edge.duplicate());
            j = j + 1;
        }
        Ok((ns, es))
    }

    /// The ingest diagnostics of keyspace `keyspace` (none when it does not
    /// exist), with the summary row for suppressed contentions.
    pub fn ingest_warnings(&self, keyspace: &str) -> (r: Vec<Warning>)
        requires
            self.wf(),
        ensures
            !self.keyspaces.has(keyspace@) ==> r@.len() == 0,
            self.keyspaces.has(keyspace@) ==> ({
                let s = self.keyspace(keyspace@)->0;
                &&& r@.len() == s.ingest_warnings@.len() + (if s.suppressed_contentions > 0 { 1int } else { 0int })
                &&& forall|k: int| 0 <= k < s.ingest_warnings@.len() ==> #[trigger] r@[k].kind == s.ingest_warnings@[k].kind
                    && r@[k].message@ == s.ingest_warnings@[k].message@
                    && r@[k].suggestion is Some == s.ingest_warnings@[k].suggestion is Some
                    && (r@[k].suggestion is Some ==> r@[k].suggestion->0@ == s.ingest_warnings@[k].suggestion->0@)
                &&& s.suppressed_contentions > 0 ==> {
                    &&& r@.last().kind == WarningKind::IdentityContention
                    &&& r@.last().message@ == suppressed_message(s.suppressed_contentions as nat)
                    &&& r@.last().suggestion is None
                }
            }),
    {
        let name = keyspace.to_owned();
        match self.keyspaces.get(&name) {
            Some(state) => {
                proof {
                    assert(self.keyspaces.has(keyspace@));
                }
                state.materialized_ingest_warnings()
            },
            None => Vec::new(),
        }
    }

    /// The schema version of keyspace `keyspace`.
    pub fn schema_version(&self, keyspace: &str) -> (r: Result<SchemaVersion, StoreError>)
        requires
            self.wf(),
        ensures
            match r {
                Ok(v) => self.keyspaces.has(keyspace@) && v == self.schema_version,
                Err(e) => !self.keyspaces.has(keyspace@) && (e matches StoreError::UnknownKeyspace(k) && k@ == keyspace@),
            },
    {
        let name = keyspace.to_owned();
        if !self.keyspaces.contains_key(&name) {
            return Err(StoreError::UnknownKeyspace(name));
        }
        Ok(self.schema_version)
    }

    /// The names of the keyspaces, ascending.
    pub fn list_keyspaces(&self) -> (r: Vec<String>)
        requires
            self.wf(),
        ensures
            r@.len() == self.keyspaces.entries@.len(),
            forall|a: int| 0 <= a < r@.len() ==> (#[trigger] r@[a])@ == self.keyspaces.entries@[a].0@,
            forall|k: Seq<char>| self.keyspaces.has(k) <==> exists|a: int| 0 <= a < r@.len() && (#[trigger] r@[a])@ == k,
            forall|a: int, b: int| 0 <= a < b < r@.len() ==> crate::order::lex_lt((#[trigger] r@[a])@, (#[trigger] r@[b])@),
    {
        let mut out: Vec<String> = Vec::new();
        let mut j: usize = 0;
        while j < self.keyspaces.entries.len()
            invariant
                j <= self.keyspaces.entries@.len(),
                out@.len() == j,
                forall|a: int| 0 <= a < j ==> (#[trigger] out@[a])@ == self.keyspaces.entries@[a].0@,
            decreases self.keyspaces.entries@.len() - j,
        {
            out.push(self.keyspaces.entries[j].0.clone());
            j = j + 1;
        }
        proof {
            assert forall|k: Seq<char>| self.keyspaces.has(k) <==> exists|a: int| 0 <= a < out@.len() && (#[trigger] out@[a])@ == k by {
                if self.keyspaces.has(k) {
                    let e = choose|e: int| 0 <= e < self.keyspaces.entries@.len() && #[trigger] self.keyspaces.entries@[e].0.kv() == k;
                    assert(out@[e]@ == k);
                }
                if exists|a: int| 0 <= a < out@.len() && (#[trigger] out@[a])@ == k {
                    let a = choose|a: int| 0 <= a < out@.len() && (#[trigger] out@[a])@ == k;
                    assert(self.keyspaces.entries@[a].0.kv() == k);
                }
            }
            assert forall|a: int, b: int| 0 <= a < b < out@.len() implies crate::order::lex_lt((#[trigger] out@[a])@, (#[trigger] out@[b])@) by {
                assert(String::key_lt(self.keyspaces.entries@[a].0.kv(), self.keyspaces.entries@[b].0.kv()));
            }
        }
        out
    }

    /// The canonical dump of keyspace `keyspace`.
    pub fn canonical_dump(&self, keyspace: &str) -> (r: Result<String, StoreError>)
        requires
            self.wf(),
        ensures
            match r {
                Ok(t) => self.keyspaces.has(keyspace@) && is_canonical_dump(self.keyspace(keyspace@)->0, t@),
                Err(e) => !self.keyspaces.has(keyspace@) && (e matches StoreError::UnknownKeyspace(k) && k@ == keyspace@),
            },
    {
        let name = keyspace.to_owned();
        match self.keyspaces.get(&name) {
            Some(state) => {
                proof {
                    assert(self.keyspaces.has(keyspace@));
                }
                Ok(canonical_dump(state))
            },
            None => Err(StoreError::UnknownKeyspace(name)),
        }
    }

    /// Runs query `q` against keyspace `keyspace`, with the query's own
    /// parameters.
    pub fn execute(&self, keyspace: &str, q: &Query) -> (r: Result<QueryResult, StoreError>)
        requires
            self.wf(),
            q.params.wf(),
        ensures
            match r {
                Ok(res) => self.keyspaces.has(keyspace@)
                    && rows_wf(res.rows@)
                    && row_maps(res.rows@) == query_rows(self.keyspace(keyspace@)->0, q.params, *q),
                Err(e) => !self.keyspaces.has(keyspace@) && (e matches StoreError::UnknownKeyspace(k) && k@ == keyspace@),
            },
    {
        let name = keyspace.to_owned();
        match self.keyspaces.get(&name) {
            Some(state) => Ok(run_query(state, &q.params, q)),
            None => Err(StoreError::UnknownKeyspace(name)),
        }
    }

    /// The graph of keyspace `keyspace`, for reading.
    pub fn graph_reader(&self, keyspace: &str) -> (r: Result<&KeyspaceState, StoreError>)
        requires
            self.wf(),
        ensures
            match r {
                Ok(st) => self.keyspaces.has(keyspace@) && Some(*st) == self.keyspace(keyspace@) && st.wf(),
                Err(e) => !self.keyspaces.has(keyspace@) && (e matches StoreError::UnknownKeyspace(k) && k@ == keyspace@),
            },
    {
        let name = keyspace.to_owned();
        match self.keyspaces.get(&name) {
            Some(state) => Ok(state),
            None => Err(StoreError::UnknownKeyspace(name)),
        }
    }

    /// Sets property `key` of the node with id `id` in keyspace
    /// `keyspace`: `Ok(false)`, with nothing changed, when there is no such
    /// node.
    pub fn set_attr(&mut self, keyspace: &str, id: &str, key: &str, value: PropValue) -> (r: Result<bool, StoreError>)
        requires
            old(self).wf(),
        ensures
            final(self).wf(),
            final(self).others_unchanged(*old(self), keyspace@),
            match r {
                Ok(found) => {
                    let pre = old(self).keyspace(keyspace@)->0;
                    let post = final(self).keyspace(keyspace@)->0;
                    &&& old(self).keyspaces.has(keyspace@)
                    &&& final(self).keyspaces.has(keyspace@)
                    &&& found == has_id(pre.nodes(), id@)
                    &&& !found ==> post == pre
                    &&& found ==> {
                        let i = id_index(pre.nodes(), id@);
                        &&& post.nodes().len() == pre.nodes().len()
                        &&& prop_written(pre.nodes()[i], post.nodes()[i], key@, value.pv())
                        &&& forall|j: int| 0 <= j < pre.nodes().len() && j != i ==> #[trigger] post.nodes()[j] == pre.nodes()[j]
                        &&& post.edges() == pre.edges()
                    }
                },
                Err(e) => !old(self).keyspaces.has(keyspace@) && *final(self) == *old(self)
                    && (e matches StoreError::UnknownKeyspace(k) && k@ == keyspace@),
            },
    {
        match self.require_keyspace(keyspace) {
            Ok(()) => {},
            Err(e) => return Err(e),
        }
        let name = keyspace.to_owned();
        let mut state = self.take_keyspace(&name);
        let found = state.set_attr(id, key, value);
        self.put_keyspace(name, state);
        Ok(found)
    }

    /// Runs query `q` against keyspace `keyspace` and hands back, apart from
    /// the result, how each node pattern's candidates were found.
    pub fn execute_explained(&self, keyspace: &str, q: &Query) -> (r: Result<(QueryResult, Vec<ExplainRow>), StoreError>)
        requires
            self.wf(),
            q.params.wf(),
        ensures
            match r {
                Ok((res, ex)) => self.keyspaces.has(keyspace@)
                    && rows_wf(res.rows@)
                    && row_maps(res.rows@) == query_rows(self.keyspace(keyspace@)->0, q.params, *q)
                    && res.explain@.len() == 0,
                Err(e) => !self.keyspaces.has(keyspace@) && (e matches StoreError::UnknownKeyspace(k) && k@ == keyspace@),
            },
    {
        match self.execute(keyspace, q) {
            Ok(res) => {
                let QueryResult { rows, warnings, explain } = res;
                Ok((QueryResult { rows, warnings, explain: Vec::new() }, explain))
            },
            Err(e) => Err(e),
        }
    }

    /// `Err(UnknownKeyspace)` unless keyspace `keyspace` exists.
    pub fn require_keyspace(&self, keyspace: &str) -> (r: Result<(), StoreError>)
        requires
            self.wf(),
        ensures
            match r {
                Ok(()) => self.keyspaces.has(keyspace@),
                Err(e) => !self.keyspaces.has(keyspace@) && (e matches StoreError::UnknownKeyspace(k) && k@ == keyspace@),
            },
    {
        let name = keyspace.to_owned();
        if !self.keyspaces.contains_key(&name) {
            return Err(StoreError::UnknownKeyspace(name));
        }
        Ok(())
    }

    /// The deprecation pass: its facts come with extraction, so there is
    /// nothing to do beyond saying so.
    pub fn enrich_deprecation(&mut self, keyspace: &str) -> (r: Result<EnrichReport, StoreError>)
        requires
            old(self).wf(),
        ensures
            *final(self) == *old(self),
            match r {
                Ok(rep) => old(self).keyspaces.has(keyspace@) && rep.verb@ == "enrich_deprecation"@ && rep.ran
                    && rep.facts_scanned == 0 && rep.attrs_written == 0 && rep.edges_written == 0
                    && rep.warnings@.len() == 1 && rep.warnings@[0]@ == DEPRECATION_NOTE@,
                Err(e) => !old(self).keyspaces.has(keyspace@) && (e matches StoreError::UnknownKeyspace(k) && k@ == keyspace@),
            },
    {
        match self.require_keyspace(keyspace) {
            Ok(()) => {},
            Err(e) => return Err(e),
        }
        let mut warnings: Vec<String> = Vec::new();
        warnings.push(DEPRECATION_NOTE.to_owned());
        Ok(EnrichReport {
            verb: "enrich_deprecation".to_owned(),
            ran: true,
            facts_scanned: 0,
            attrs_written: 0,
            edges_written: 0,
            warnings,
        })
    }

    /// The document-reference pass on keyspace `keyspace`, over the
    /// documents read from the workspace (`scanned`, with the warnings of
    /// reading them). A store that does not know its workspace reports that
    /// the pass did not run.
    pub fn enrich_rfc_docs(&mut self, keyspace: &str, scanned: Vec<ScannedFile>, warnings: Vec<String>) -> (r: Result<EnrichReport, StoreError>)
        requires
            old(self).wf(),
            old(self).keyspaces.has(keyspace@) ==> {
                let s = old(self).keyspace(keyspace@)->0;
                &&& s.nodes().len() + scanned@.len() + 1 < 0xffff_ffff
                &&& s.edges().len() + rfc_ref_pairs(s, scanned@).len() + 1 < 0xffff_ffff
            },
        ensures
            final(self).wf(),
            final(self).others_unchanged(*old(self), keyspace@),
            match r {
                Ok(rep) => {
                    &&& old(self).keyspaces.has(keyspace@)
                    &&& final(self).keyspaces.has(keyspace@)
                    &&& rep.verb@ == RFC_DOCS_VERB@
                    &&& (old(self).workspace_root is None ==> {
                        &&& *final(self) == *old(self)
                        &&& !rep.ran
                        &&& rep.facts_scanned == 0 && rep.attrs_written == 0 && rep.edges_written == 0
                        &&& rep.warnings@.len() == 1
                        &&& rep.warnings@[0]@ == RFC_NO_WORKSPACE_WARNING@
                    })
                    &&& (old(self).workspace_root is Some ==> {
                        let pre = old(self).keyspace(keyspace@)->0;
                        let post = final(self).keyspace(keyspace@)->0;
                        let pairs = rfc_ref_pairs(pre, scanned@);
                        &&& rep.ran
                        &&& rep.facts_scanned == scanned@.len()
                        &&& rep.warnings == warnings
                        &&& ((!has_matchable(pre) || scanned@.len() == 0) ==> post == pre && rep.attrs_written == 0
                            && rep.edges_written == 0)
                        &&& ((has_matchable(pre) && scanned@.len() > 0) ==> exists|ns: Seq<Node>, es: Seq<Edge>| {
                            &&& emitted_nodes_for(ns, scanned@, pairs)
                            &&& emitted_edges_for(es, scanned@, pairs)
                            &&& post.nodes() == apply_nodes(pre.nodes(), ns)
                            &&& post.edges() == pre.edges() + applied_edges(post.nodes(), es)
                            &&& rep.attrs_written == 2 * ns.len()
                            &&& rep.edges_written == es.len()
                        })
                    })
                },
                Err(e) => !old(self).keyspaces.has(keyspace@) && *final(self) == *old(self)
                    && (e matches StoreError::UnknownKeyspace(k) && k@ == keyspace@),
            },
    {
        match self.require_keyspace(keyspace) {
            Ok(()) => {},
            Err(e) => return Err(e),
        }
        if self.workspace_root.is_none() {
            return Ok(EnrichReport {
                verb: RFC_DOCS_VERB.to_owned(),
                ran: false,
                facts_scanned: 0,
                attrs_written: 0,
                edges_written: 0,
                warnings: vec![RFC_NO_WORKSPACE_WARNING.to_owned()],
            });
        }
        let name = keyspace.to_owned();
        let mut state = self.take_keyspace(&name);
        let report = enrich_rfc_docs(&mut state, scanned, warnings);
        self.put_keyspace(name, state);
        Ok(report)
    }

    /// The concepts pass on keyspace `keyspace`, given the declared
    /// contexts read from the workspace (or why they could not be read):
    /// what `enrich_concepts_state` does to it, the other keyspaces
    /// unchanged. A store that does not know its workspace reports that the
    /// pass did not run.
    pub fn enrich_concepts(&mut self, keyspace: &str, overrides: Result<ConceptOverrides, String>) -> (r: Result<EnrichReport, StoreError>)
        requires
            old(self).wf(),
            overrides matches Ok(ov) ==> {
                &&& ov.declared.wf()
                &&& ov.crate_assignments.wf()
                &&& old(self).keyspaces.has(keyspace@) ==> {
                    let s = old(self).keyspace(keyspace@)->0;
                    &&& s.nodes().len() + ov.declared.entries@.len() + 1 < 0xffff_ffff
                    &&& s.edges().len() + concept_edges(s, ov).len() + 1 < 0xffff_ffff
                }
            },
        ensures
            final(self).wf(),
            final(self).others_unchanged(*old(self), keyspace@),
            match r {
                Ok(rep) => {
                    let pre = old(self).keyspace(keyspace@)->0;
                    let post = final(self).keyspace(keyspace@)->0;
                    &&& old(self).keyspaces.has(keyspace@)
                    &&& final(self).keyspaces.has(keyspace@)
                    &&& rep.verb@ == CONCEPTS_VERB@
                    &&& (old(self).workspace_root is None ==> {
                        &&& *final(self) == *old(self)
                        &&& !rep.ran
                        &&& rep.facts_scanned == 0 && rep.attrs_written == 0 && rep.edges_written == 0
                        &&& rep.warnings@.len() == 1
                        &&& rep.warnings@[0]@ == CONCEPTS_NO_WORKSPACE_WARNING@
                    })
                    &&& (old(self).workspace_root is Some ==> match overrides {
                        Err(m) => post == pre && !rep.ran && rep.facts_scanned == 0 && rep.attrs_written == 0
                            && rep.edges_written == 0 && rep.warnings@ == seq![m],
                        Ok(ov) => {
                            &&& rep.ran
                            &&& rep.warnings@.len() == 0
                            &&& rep.facts_scanned == ov.declared.entries@.len()
                            &&& (ov.declared.entries@.len() == 0 ==> post == pre && rep.attrs_written == 0 && rep.edges_written == 0)
                            &&& (ov.declared.entries@.len() > 0 ==> exists|ns: Seq<Node>, es: Seq<Edge>| {
                                &&& ns.len() == ov.declared.entries@.len()
                                &&& (forall|k: int| 0 <= k < ns.len() ==> is_concept_node(#[trigger] ns[k], ov.declared.entries@[k].1.name@))
                                &&& edge_views(es) == concept_edges(pre, ov)
                                &&& post.nodes() == apply_nodes(pre.nodes(), ns)
                                &&& post.edges() == pre.edges() + applied_edges(post.nodes(), es)
                                &&& rep.attrs_written == 2 * ns.len()
                                &&& rep.edges_written == es.len()
                            })
                        },
                    })
                },
                Err(e) => !old(self).keyspaces.has(keyspace@) && *final(self) == *old(self)
                    && (e matches StoreError::UnknownKeyspace(k) && k@ == keyspace@),
            },
    {
        match self.require_keyspace(keyspace) {
            Ok(()) => {},
            Err(e) => return Err(e),
        }
        if self.workspace_root.is_none() {
            return Ok(EnrichReport {
                verb: CONCEPTS_VERB.to_owned(),
                ran: false,
                facts_scanned: 0,
                attrs_written: 0,
                edges_written: 0,
                warnings: vec![CONCEPTS_NO_WORKSPACE_WARNING.to_owned()],
            });
        }
        let name = keyspace.to_owned();
        let mut state = self.take_keyspace(&name);
        let report = enrich_concepts_state(&mut state, overrides);
        self.put_keyspace(name, state);
        Ok(report)
    }

    /// The bounded-context pass on keyspace `keyspace`, given the declared
    /// concepts read from the workspace (or why they could not be read):
    /// what `enrich_bounded_context_state` does to it, the other keyspaces
    /// unchanged. A store that does not know its workspace reports that the
    /// pass did not run.
    pub fn enrich_bounded_context(&mut self, keyspace: &str, overrides: Result<ConceptOverrides, String>) -> (r: Result<EnrichReport, StoreError>)
        requires
            old(self).wf(),
            overrides matches Ok(ov) ==> ov.crate_assignments.wf(),
        ensures
            final(self).wf(),
            final(self).others_unchanged(*old(self), keyspace@),
            match r {
                Ok(rep) => {
                    let pre = old(self).keyspace(keyspace@)->0;
                    let post = final(self).keyspace(keyspace@)->0;
                    &&& old(self).keyspaces.has(keyspace@)
                    &&& final(self).keyspaces.has(keyspace@)
                    &&& rep.verb@ == BOUNDED_CONTEXT_VERB@
                    &&& rep.edges_written == 0
                    &&& (old(self).workspace_root is None ==> {
                        &&& *final(self) == *old(self)
                        &&& !rep.ran
                        &&& rep.facts_scanned == 0 && rep.attrs_written == 0
                        &&& rep.warnings@.len() == 1
                        &&& rep.warnings@[0]@ == BC_NO_WORKSPACE_WARNING@
                    })
                    &&& (old(self).workspace_root is Some ==> match overrides {
                        Err(m) => post == pre && !rep.ran && rep.facts_scanned == 0 && rep.attrs_written == 0
                            && rep.warnings@ == seq![m],
                        Ok(ov) => {
                            &&& rep.ran
                            &&& (labelled(pre, ITEM_LABEL@).len() == 0 ==> post == pre && rep.facts_scanned == 0
                                && rep.attrs_written == 0 && rep.warnings@.len() == 1 && rep.warnings@[0]@ == NO_BC_ITEMS_WARNING@)
                            &&& (labelled(pre, ITEM_LABEL@).len() > 0 ==> {
                                &&& rep.facts_scanned == labelled(pre, ITEM_LABEL@).len()
                                &&& rep.attrs_written == patch_count_upto(pre, assigned_contexts(ov), pre.nodes().len())
                                &&& rep.warnings@.len() == 0
                                &&& post.nodes().len() == pre.nodes().len()
                                &&& post.edges() == pre.edges()
                                &&& forall|i: int| 0 <= i < pre.nodes().len() ==> context_patched(#[trigger] pre.nodes()[i],
                                    post.nodes()[i], assigned_contexts(ov))
                            })
                        },
                    })
                },
                Err(e) => !old(self).keyspaces.has(keyspace@) && *final(self) == *old(self)
                    && (e matches StoreError::UnknownKeyspace(k) && k@ == keyspace@),
            },
    {
        match self.require_keyspace(keyspace) {
            Ok(()) => {},
            Err(e) => return Err(e),
        }
        if self.workspace_root.is_none() {
            return Ok(EnrichReport {
                verb: BOUNDED_CONTEXT_VERB.to_owned(),
                ran: false,
                facts_scanned: 0,
                attrs_written: 0,
                edges_written: 0,
                warnings: vec![BC_NO_WORKSPACE_WARNING.to_owned()],
            });
        }
        let name = keyspace.to_owned();
        let mut state = self.take_keyspace(&name);
        let report = enrich_bounded_context_state(&mut state, overrides);
        self.put_keyspace(name, state);
        Ok(report)
    }

    /// The reachability pass on keyspace `keyspace`: what
    /// `enrich_reachability_state` does to it, the other keyspaces
    /// unchanged.
    pub fn enrich_reachability(&mut self, keyspace: &str) -> (r: Result<EnrichReport, StoreError>)
        requires
            old(self).wf(),
        ensures
            final(self).wf(),
            final(self).others_unchanged(*old(self), keyspace@),
            match r {
                Ok(rep) => {
                    let pre = old(self).keyspace(keyspace@)->0;
                    let post = final(self).keyspace(keyspace@)->0;
                    &&& old(self).keyspaces.has(keyspace@)
                    &&& final(self).keyspaces.has(keyspace@)
                    &&& post.nodes().len() == pre.nodes().len()
                    &&& post.edges() == pre.edges()
                    &&& rep.verb@ == REACHABILITY_VERB@
                    &&& rep.edges_written == 0
                    &&& labelled(pre, ENTRY_POINT_LABEL@).len() == 0 ==> {
                        &&& post == pre
                        &&& !rep.ran
                        &&& rep.facts_scanned == 0
                        &&& rep.attrs_written == 0
                        &&& rep.warnings@.len() == 1
                        &&& rep.warnings@[0]@ == NO_ENTRY_POINTS_WARNING@
                    }
                    &&& labelled(pre, ENTRY_POINT_LABEL@).len() > 0 ==> {
                        &&& rep.ran
                        &&& rep.facts_scanned == labelled(pre, ENTRY_POINT_LABEL@).len()
                        &&& rep.attrs_written == 4 * labelled(pre, ITEM_LABEL@).len() + 2 * resolving_upto(pre, pre.nodes().len())
                        &&& rep.warnings@.len() == 0
                        &&& forall|i: int| 0 <= i < pre.nodes().len() ==> reachability_written(pre, i as usize,
                            #[trigger] pre.nodes()[i], post.nodes()[i])
                    }
                },
                Err(e) => !old(self).keyspaces.has(keyspace@) && *final(self) == *old(self)
                    && (e matches StoreError::UnknownKeyspace(k) && k@ == keyspace@),
            },
    {
        match self.require_keyspace(keyspace) {
            Ok(()) => {},
            Err(e) => return Err(e),
        }
        let name = keyspace.to_owned();
        let mut state = self.take_keyspace(&name);
        let report = enrich_reachability_state(&mut state);
        self.put_keyspace(name, state);
        Ok(report)
    }

    /// The commit-history pass on keyspace `keyspace`, given the history
    /// read from the workspace's repository (or why it could not be read).
    /// A store that does not know its workspace reports that the pass did
    /// not run.
    pub fn enrich_git_history(&mut self, keyspace: &str, history: Result<GitHistory, String>) -> (r: Result<EnrichReport, StoreError>)
        requires
            old(self).wf(),
            history matches Ok(h) ==> h.wf(),
        ensures
            final(self).wf(),
            final(self).others_unchanged(*old(self), keyspace@),
            match r {
                Ok(rep) => {
                    let pre = old(self).keyspace(keyspace@)->0;
                    let post = final(self).keyspace(keyspace@)->0;
                    &&& old(self).keyspaces.has(keyspace@)
                    &&& final(self).keyspaces.has(keyspace@)
                    &&& rep.verb@ == GIT_HISTORY_VERB@
                    &&& rep.edges_written == 0
                    &&& (old(self).workspace_root is None ==> {
                        &&& post == pre
                        &&& !rep.ran
                        &&& rep.facts_scanned == 0
                        &&& rep.attrs_written == 0
                        &&& rep.warnings@.len() == 1
                        &&& rep.warnings@[0]@ == NO_WORKSPACE_ROOT_WARNING@
                    })
                    &&& (old(self).workspace_root matches Some(root) ==> {
                        &&& rep.ran
                        &&& post.nodes().len() == pre.nodes().len()
                        &&& post.edges() == pre.edges()
                        &&& (labelled(pre, ITEM_LABEL@).len() == 0 ==> post == pre && rep.attrs_written == 0
                            && rep.warnings@.len() == 1 && rep.warnings@[0]@ == NO_ITEMS_WARNING@)
                        &&& (labelled(pre, ITEM_LABEL@).len() > 0 ==> {
                            &&& rep.facts_scanned == labelled(pre, ITEM_LABEL@).len()
                            &&& rep.attrs_written == 3 * labelled(pre, ITEM_LABEL@).len()
                            &&& rep.warnings@.len() == (if history is Err { 1int } else { 0int })
                            &&& forall|i: int| 0 <= i < pre.nodes().len() ==> if pre.nodes()[i].label@ == ITEM_LABEL@ {
                                history_written(history, root@, #[trigger] pre.nodes()[i], post.nodes()[i])
                            } else {
                                post.nodes()[i] == pre.nodes()[i]
                            }
                        })
                    })
                },
                Err(e) => !old(self).keyspaces.has(keyspace@) && *final(self) == *old(self)
                    && (e matches StoreError::UnknownKeyspace(k) && k@ == keyspace@),
            },
    {
        match self.require_keyspace(keyspace) {
            Ok(()) => {},
            Err(e) => return Err(e),
        }
        let root = match &self.workspace_root {
            Some(r) => r.clone(),
            None => {
                return Ok(EnrichReport {
                    verb: GIT_HISTORY_VERB.to_owned(),
                    ran: false,
                    facts_scanned: 0,
                    attrs_written: 0,
                    edges_written: 0,
                    warnings: vec![NO_WORKSPACE_ROOT_WARNING.to_owned()],
                });
            },
        };
        let name = keyspace.to_owned();
        let mut state = self.take_keyspace(&name);
        let report = enrich_git_history_state(&mut state, root.as_str(), history);
        self.put_keyspace(name, state);
        Ok(report)
    }

    /// The function items of keyspace `keyspace`, sorted by qualified
    /// name: what the metrics pass reads source files for.
    pub fn fn_items(&self, keyspace: &str) -> (r: Result<Vec<FnItem>, StoreError>)
        requires
            self.wf(),
        ensures
            match r {
                Ok(v) => self.keyspaces.has(keyspace@) && v@.map_values(|it: FnItem| it.fv()) == fn_items(self.keyspace(keyspace@)->0),
                Err(e) => !self.keyspaces.has(keyspace@) && (e matches StoreError::UnknownKeyspace(k) && k@ == keyspace@),
            },
    {
        match self.graph_reader(keyspace) {
            Ok(st) => Ok(collect_fn_items(st)),
            Err(e) => Err(e),
        }
    }

    /// The metrics pass on keyspace `keyspace`, given the signals,
    /// coverage ratios and duplicate-cluster ids by qualified name, and the
    /// warnings of computing them. A store that does not know its workspace
    /// reports that the pass did not run.
    pub fn enrich_metrics(&mut self, keyspace: &str, sig: &SortedMap<String, AstSignals>, cov: &SortedMap<String, PropValue>,
        clu: &SortedMap<String, String>, warnings: Vec<String>) -> (r: Result<EnrichReport, StoreError>)
        requires
            old(self).wf(),
            sig.wf(),
            cov.wf(),
            clu.wf(),
        ensures
            final(self).wf(),
            final(self).others_unchanged(*old(self), keyspace@),
            match r {
                Ok(rep) => {
                    let pre = old(self).keyspace(keyspace@)->0;
                    let post = final(self).keyspace(keyspace@)->0;
                    let n = fn_items_upto(pre, pre.nodes().len()).len();
                    &&& old(self).keyspaces.has(keyspace@)
                    &&& final(self).keyspaces.has(keyspace@)
                    &&& rep.verb@ == METRICS_VERB@
                    &&& rep.edges_written == 0
                    &&& (old(self).workspace_root is None ==> {
                        &&& post == pre
                        &&& !rep.ran
                        &&& rep.facts_scanned == 0
                        &&& rep.attrs_written == 0
                        &&& rep.warnings@.len() == 1
                        &&& rep.warnings@[0]@ == METRICS_NO_WORKSPACE_WARNING@
                    })
                    &&& (old(self).workspace_root is Some ==> {
                        &&& rep.ran
                        &&& post.nodes().len() == pre.nodes().len()
                        &&& post.edges() == pre.edges()
                        &&& (n == 0 ==> post == pre && rep.attrs_written == 0 && rep.warnings@.len() == 1
                            && rep.warnings@[0]@ == NO_FN_ITEMS_WARNING@)
                        &&& (n > 0 ==> {
                            &&& rep.facts_scanned == n
                            &&& rep.attrs_written == metrics_count_upto(pre, pre.nodes().len(), *sig, *cov, *clu)
                            &&& rep.warnings == warnings
                            &&& forall|i: int| 0 <= i < pre.nodes().len() ==> match fn_item_at(pre, i as usize) {
                                Some(v) => metrics_written(#[trigger] pre.nodes()[i], post.nodes()[i], v.0, *sig, *cov, *clu),
                                None => post.nodes()[i] == pre.nodes()[i],
                            }
                        })
                    })
                },
                Err(e) => !old(self).keyspaces.has(keyspace@) && *final(self) == *old(self)
                    && (e matches StoreError::UnknownKeyspace(k) && k@ == keyspace@),
            },
    {
        match self.require_keyspace(keyspace) {
            Ok(()) => {},
            Err(e) => return Err(e),
        }
        if self.workspace_root.is_none() {
            return Ok(EnrichReport {
                verb: METRICS_VERB.to_owned(),
                ran: false,
                facts_scanned: 0,
                attrs_written: 0,
                edges_written: 0,
                warnings: vec![METRICS_NO_WORKSPACE_WARNING.to_owned()],
            });
        }
        let name = keyspace.to_owned();
        let mut state = self.take_keyspace(&name);
        let report = enrich_metrics_state(&mut state, sig, cov, clu, warnings);
        self.put_keyspace(name, state);
        Ok(report)
    }

    /// Removes keyspace `keyspace`, if present.
    pub fn drop_keyspace(&mut self, keyspace: &str) -> (r: Result<(), StoreError>)
        requires
            old(self).wf(),
        ensures
            r is Ok,
            final(self).wf(),
            !final(self).keyspaces.has(keyspace@),
            final(self).others_unchanged(*old(self), keyspace@),
    {
        let ghost pre = *self;
        let name = keyspace.to_owned();
        let _ = self.keyspaces.remove(&name);
        proof {
            assert forall|k: Seq<char>| #[trigger] self.keyspaces.has(k) implies self.keyspaces.lookup(k)->0.wf() by {
                assert(pre.keyspaces.has(k));
            }
        }
        Ok(())
    }
}

/// Node ids are distinct within each keyspace.
pub proof fn lemma_store_unique_ids(s: PetgraphStore, ks: Seq<char>)
    requires
        s.wf(),
    ensures
        unique_ids(s.nodes_in(ks)),
{
    if s.keyspaces.has(ks) {
        s.keyspace(ks)->0.lemma_unique_ids();
    }
}

/// What a read gives back of a write: after `ingest_nodes` of `batch`
/// into keyspace `ks` (taking the store from `before` to `after`), the id
/// of `batch[i]` is present and holds `batch[i]` unless a later node of
/// the batch has the same id; every id present before is still present.
pub proof fn lemma_read_after_ingest(before: PetgraphStore, after: PetgraphStore, ks: Seq<char>, batch: Seq<Node>, i: int, id: Seq<char>)
    requires
        before.wf(),
        after.nodes_in(ks) == apply_nodes(before.nodes_in(ks), batch),
        0 <= i < batch.len(),
        forall|j: int| i < j < batch.len() ==> (#[trigger] batch[j]).id@ != batch[i].id@,
    ensures
        has_id(after.nodes_in(ks), batch[i].id@),
        after.nodes_in(ks)[id_index(after.nodes_in(ks), batch[i].id@)] == batch[i],
        has_id(before.nodes_in(ks), id) ==> has_id(after.nodes_in(ks), id),
{
    lemma_store_unique_ids(before, ks);
    lemma_ingest_last_write_wins(before.nodes_in(ks), batch, i);
    if has_id(before.nodes_in(ks), id) {
        lemma_ingest_keeps_other_ids(before.nodes_in(ks), batch, id);
    }
}

} // verus!
