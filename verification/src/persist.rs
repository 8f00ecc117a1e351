//! The file image of a keyspace, and loading one back: what a saved
//! keyspace holds, and the schema check that guards a load.
use vstd::prelude::*;

use crate::dump::{distinct_key_texts, dump_text, edge_dump_line, edge_sort_key, endpoint_qname, is_canonical_dump, is_sort_order, key_text, lemma_props_view_facts, lemma_sorted_lines_equal, node_line, node_sort_key, qname_or_id, save_edge_keys, save_edge_order, save_node_keys, save_node_order};
use crate::fact::{prop_of, props_view, Edge, Node, Warning, WarningKind};
use crate::keys::LineKey;
use crate::sorted::Keyed;
use crate::graph::{lemma_id_index_unique, applied_edges, apply_nodes, edge_applies, has_id, id_index, suppressed_message, unique_ids, KeyspaceState};
use crate::store::{PetgraphStore, SchemaVersion, StoreError};

verus! {

/// What a saved keyspace holds.
#[derive(Debug)]
pub struct KeyspaceFile {
    pub schema_version: SchemaVersion,
    pub nodes: Vec<Node>,
    pub edges: Vec<Edge>,
    /// The identity-contention diagnostics of the keyspace.
    pub contention_warnings: Vec<Warning>,
}

impl SchemaVersion {
    /// Whether a reader at this version reads a graph written at
    /// `graph`: same major version, and not newer than the reader.
    pub open spec fn reads(self, graph: SchemaVersion) -> bool {
        &&& graph.major == self.major
        &&& (graph.minor < self.minor || (graph.minor == self.minor && graph.patch <= self.patch))
    }

    /// Whether a reader at this version reads a graph written at `graph`.
    pub fn can_read(&self, graph: &SchemaVersion) -> (r: bool)
        ensures
            r == self.reads(*graph),
    {
        graph.major == self.major && (graph.minor < self.minor || (graph.minor == self.minor && graph.patch <= self.patch))
    }
}

impl KeyspaceState {
    /// Appends diagnostics to the keyspace's ingest diagnostics.
    pub fn add_ingest_warnings(&mut self, ws: Vec<Warning>)
        requires
            old(self).wf(),
        ensures
            final(self).wf(),
            final(self).ingest_warnings@ == old(self).ingest_warnings@ + ws@,
            final(self).nodes() == old(self).nodes(),
            final(self).edges() == old(self).edges(),
    {
        let ghost start = self.ingest_warnings@;
        let mut ws = ws;
        let ghost all = ws@;
        let mut rev: Vec<Warning> = Vec::new();
        while ws.len() > 0
            invariant
                rev@.len() + ws@.len() == all.len(),
                ws@ == all.take(ws@.len() as int),
                forall|q: int| 0 <= q < rev@.len() ==> #[trigger] rev@[q] == all[all.len() - 1 - q],
            decreases ws@.len(),
        {
            let w = ws.pop().unwrap();
            rev.push(w);
            proof {
                assert(ws@ =~= all.take(ws@.len() as int));
            }
        }
        while rev.len() > 0
            invariant
                self.wf(),
                rev@.len() <= all.len(),
                forall|q: int| 0 <= q < rev@.len() ==> #[trigger] rev@[q] == all[all.len() - 1 - q],
                self.ingest_warnings@ == start + all.take(all.len() - rev@.len()),
                self.nodes() == old(self).nodes(),
                self.edges() == old(self).edges(),
            decreases rev@.len(),
        {
            let ghost m: int = all.len() - rev@.len();
            let w = rev.pop().unwrap();
            proof {
                assert(w == all[m]);
                assert(all.take(m + 1) =~= all.take(m).push(w));
            }
            let ghost before = *self;
            self.ingest_warnings.push(w);
            proof {
                assert(self.ingest_warnings@ =~= start + all.take(m + 1));
                crate::graph::lemma_wf_same_content(before, *self);
            }
        }
        proof {
            assert(all.take(all.len() as int) =~= all);
        }
    }
}

/// The content of a diagnostic: kind, message and suggestion.
pub open spec fn warning_view(w: Warning) -> (WarningKind, Seq<char>, Option<Seq<char>>) {
    (w.kind, w.message@, match w.suggestion {
        Some(x) => Some(x@),
        None => None,
    })
}

/// The ingest diagnostics of keyspace `s` as the store reports them: its
/// recorded ones, then the summary of suppressed contentions, if any.
pub open spec fn diagnostics_of(s: KeyspaceState) -> Seq<(WarningKind, Seq<char>, Option<Seq<char>>)> {
    s.ingest_warnings@.map_values(|w: Warning| warning_view(w)) + if s.suppressed_contentions > 0 {
        seq![(WarningKind::IdentityContention, suppressed_message(s.suppressed_contentions as nat), None::<Seq<char>>)]
    } else {
        Seq::empty()
    }
}

/// The identity contentions among the first `k` of `vs`, in order.
pub open spec fn contentions_upto(vs: Seq<(WarningKind, Seq<char>, Option<Seq<char>>)>, k: nat) -> Seq<(WarningKind, Seq<char>, Option<Seq<char>>)>
    decreases k,
{
    if k == 0 {
        Seq::empty()
    } else {
        let r = contentions_upto(vs, (k - 1) as nat);
        if vs[k - 1].0 == WarningKind::IdentityContention {
            r.push(vs[k - 1])
        } else {
            r
        }
    }
}

/// The diagnostics a saved keyspace keeps: its identity contentions.
pub open spec fn saved_contentions(s: KeyspaceState) -> Seq<(WarningKind, Seq<char>, Option<Seq<char>>)> {
    contentions_upto(diagnostics_of(s), diagnostics_of(s).len())
}

/// `nodes` and `edges` are those of `s` in saving order: node `i` is node
/// `no[i]` of `s`, edge `j` is edge `eo[j]`, with `no` and `eo` ordering
/// the nodes by `(label, id)` and the edges by `(label, source id, target
/// id)`, ties by index.
pub open spec fn saved_in_order(s: KeyspaceState, nodes: Seq<Node>, edges: Seq<Edge>, no: Seq<usize>, eo: Seq<usize>) -> bool {
    &&& is_sort_order(save_node_keys(s), no)
    &&& is_sort_order(save_edge_keys(s), eo)
    &&& nodes.len() == no.len()
    &&& forall|i: int| 0 <= i < nodes.len() ==> (#[trigger] nodes[i]).same_node(&s.nodes()[no[i] as int]) && nodes[i].props.wf()
    &&& edges.len() == eo.len()
    &&& forall|j: int| 0 <= j < edges.len() ==> (#[trigger] edges[j]).src@ == s.edges()[eo[j] as int].2.src@
        && edges[j].dst@ == s.edges()[eo[j] as int].2.dst@
        && edges[j].label@ == s.edges()[eo[j] as int].2.label@
        && props_view(edges[j].props) == props_view(s.edges()[eo[j] as int].2.props)
}

/// `f` is a file image of keyspace `s`: its nodes and edges in saving
/// order, and the identity contentions among its diagnostics, in order.
pub open spec fn is_file_image(s: KeyspaceState, f: KeyspaceFile) -> bool {
    &&& exists|no: Seq<usize>, eo: Seq<usize>| #[trigger] saved_in_order(s, f.nodes@, f.edges@, no, eo)
    &&& f.contention_warnings@.map_values(|w: Warning| warning_view(w)) == saved_contentions(s)
}

impl PetgraphStore {
    /// The file image of keyspace `keyspace`: the store's schema version,
    /// the nodes and edges in saving order, and the identity contentions
    /// among the keyspace's ingest diagnostics, in order.
    #[verifier::spinoff_prover]
    pub fn keyspace_file(&self, keyspace: &str) -> (r: Result<KeyspaceFile, StoreError>)
        requires
            self.wf(),
        ensures
            match r {
                Ok(f) => {
                    &&& self.keyspaces.has(keyspace@)
                    &&& f.schema_version == self.schema_version
                    &&& is_file_image(self.keyspace(keyspace@)->0, f)
                },
                Err(e) => !self.keyspaces.has(keyspace@) && (e matches StoreError::UnknownKeyspace(k) && k@ == keyspace@),
            },
    {
        let state = match self.graph_reader(keyspace) {
            Ok(st) => st,
            Err(e) => return Err(e),
        };
        let ghost s = *state;
        let no = save_node_order(state);
        let eo = save_edge_order(state);
        let mut nodes: Vec<Node> = Vec::new();
        let mut i: usize = 0;
        while i < no.len()
            invariant
                state.wf(),
                s == *state,
                is_sort_order(save_node_keys(s), no@),
                i <= no@.len(),
                nodes@.len() == i,
                forall|x: int| 0 <= x < i ==> (#[trigger] nodes@[x]).same_node(&s.nodes()[no@[x] as int]) && nodes@[x].props.wf(),
            decreases no@.len() - i,
        {
            let node = state.node(no[i]);
            proof {
                assert(node.props.wf());
            }
            nodes.push(node.duplicate());
            i = i + 1;
        }
        let mut edges: Vec<Edge> = Vec::new();
        let mut j: usize = 0;
        while j < eo.len()
            invariant
                state.wf(),
                s == *state,
                is_sort_order(save_edge_keys(s), eo@),
                j <= eo@.len(),
                edges@.len() == j,
                forall|x: int| 0 <= x < j ==> (#[trigger] edges@[x]).src@ == s.edges()[eo@[x] as int].2.src@
                    && edges@[x].dst@ == s.edges()[eo@[x] as int].2.dst@
                    && edges@[x].label@ == s.edges()[eo@[x] as int].2.label@
                    && props_view(edges@[x].props) == props_view(s.edges()[eo@[x] as int].2.props),
            decreases eo@.len() - j,
        {
            let edge = state.edge(eo[j]);
            edges.push(edge.duplicate());
            j = j + 1;
        }
        proof {
            assert(saved_in_order(s, nodes@, edges@, no@, eo@));
        }
        let all = self.ingest_warnings(keyspace);
        let ghost dv = diagnostics_of(s);
        proof {
            assert(all@.map_values(|w: Warning| warning_view(w)) =~= dv) by {
                assert forall|k: int| 0 <= k < s.ingest_warnings@.len() implies warning_view(#[trigger] all@[k])
                    == warning_view(s.ingest_warnings@[k]) by {
                    assert(all@[k].kind == s.ingest_warnings@[k].kind);
                }
            }
        }
        let mut contention_warnings: Vec<Warning> = Vec::new();
        let mut k: usize = 0;
        while k < all.len()
            invariant
                k <= all@.len(),
                dv == all@.map_values(|w: Warning| warning_view(w)),
                contention_warnings@.map_values(|w: Warning| warning_view(w)) == contentions_upto(dv, k as nat),
            decreases all@.len() - k,
        {
            let ghost before = contention_warnings@;
            match all[k].kind {
                WarningKind::IdentityContention => {
                    let w = all[k].duplicate();
                    contention_warnings.push(w);
                    proof {
                        assert(warning_view(w) == warning_view(all@[k as int]));
                        assert(contention_warnings@.map_values(|w: Warning| warning_view(w))
                            =~= before.map_values(|w: Warning| warning_view(w)).push(warning_view(w)));
                    }
                },
                _ => {},
            }
            k = k + 1;
        }
        proof {
            assert(dv.len() == all@.len());
            assert(s == self.keyspace(keyspace@)->0);
            assert(contention_warnings@.map_values(|w: Warning| warning_view(w)) == saved_contentions(s));
        }
        let f = KeyspaceFile { schema_version: self.schema_version, nodes, edges, contention_warnings };
        proof {
            assert(saved_in_order(s, f.nodes@, f.edges@, no@, eo@));
            assert(exists|no: Seq<usize>, eo: Seq<usize>| #[trigger] saved_in_order(s, f.nodes@, f.edges@, no, eo));
            assert(f.contention_warnings@.map_values(|w: Warning| warning_view(w)) == saved_contentions(s));
            assert(is_file_image(s, f));
        }
        Ok(f)
    }

    /// Loads a file image into keyspace `keyspace` (created if needed): a
    /// graph written under a schema this store cannot read is refused;
    /// otherwise the file's diagnostics are added to the keyspace's, then
    /// its nodes and then its edges are ingested.
    pub fn load_keyspace_file(&mut self, keyspace: &str, file: KeyspaceFile) -> (r: Result<(), StoreError>)
        requires
            old(self).wf(),
            forall|i: int| 0 <= i < file.nodes@.len() ==> (#[trigger] file.nodes@[i]).props.wf(),
            old(self).nodes_in(keyspace@).len() + file.nodes@.len() + 1 < 0xffff_ffff,
            old(self).edges_in(keyspace@).len() + file.edges@.len() + 1 < 0xffff_ffff,
        ensures
            final(self).wf(),
            match r {
                Ok(()) => {
                    &&& (SchemaVersion { major: 0, minor: 2, patch: 3 }).reads(file.schema_version)
                    &&& final(self).keyspaces.has(keyspace@)
                    &&& final(self).nodes_in(keyspace@) == apply_nodes(old(self).nodes_in(keyspace@), file.nodes@)
                    &&& final(self).edges_in(keyspace@) == old(self).edges_in(keyspace@)
                        + applied_edges(final(self).nodes_in(keyspace@), file.edges@)
                    &&& final(self).others_unchanged(*old(self), keyspace@)
                },
                Err(e) => {
                    &&& !(SchemaVersion { major: 0, minor: 2, patch: 3 }).reads(file.schema_version)
                    &&& *final(self) == *old(self)
                    &&& e == (StoreError::SchemaMismatch { reader: SchemaVersion { major: 0, minor: 2, patch: 3 }, graph: file.schema_version })
                },
            },
    {
        let current = SchemaVersion::current();
        if !current.can_read(&file.schema_version) {
            return Err(StoreError::SchemaMismatch { reader: current, graph: file.schema_version });
        }
        let KeyspaceFile { schema_version: _, nodes, edges, contention_warnings } = file;
        let name = keyspace.to_owned();
        let mut state = self.take_keyspace(&name);
        proof {
            assert(state.nodes() =~= old(self).nodes_in(keyspace@));
            assert(state.edges() =~= old(self).edges_in(keyspace@));
        }
        state.add_ingest_warnings(contention_warnings);
        self.put_keyspace(name, state);
        let ghost mid = *self;
        proof {
            assert(mid.nodes_in(keyspace@) == old(self).nodes_in(keyspace@));
            assert(mid.edges_in(keyspace@) == old(self).edges_in(keyspace@));
        }
        let _ = self.ingest_nodes(keyspace, nodes);
        let _ = self.ingest_edges(keyspace, edges);
        Ok(())
    }
}

/// Every edge joins the nodes whose ids it names: its endpoint indexes are
/// nodes, holding the edge's source and target ids.
pub open spec fn edges_join_ids(ns: Seq<Node>, es: Seq<(usize, usize, Edge)>) -> bool {
    forall|j: int| 0 <= j < es.len() ==> {
        &&& (#[trigger] es[j]).0 < ns.len()
        &&& es[j].1 < ns.len()
        &&& ns[es[j].0 as int].id@ == es[j].2.src@
        &&& ns[es[j].1 as int].id@ == es[j].2.dst@
    }
}

proof fn lemma_fresh_apply_nodes(fns: Seq<Node>)
    requires
        unique_ids(fns),
    ensures
        apply_nodes(Seq::empty(), fns) == fns,
    decreases fns.len(),
{
    if fns.len() > 0 {
        let rest = fns.drop_last();
        assert(unique_ids(rest)) by {
            assert forall|i: int, j: int| 0 <= i < j < rest.len() implies #[trigger] rest[i].id@ != #[trigger] rest[j].id@ by {
                assert(fns[i].id@ != fns[j].id@);
            }
        }
        lemma_fresh_apply_nodes(rest);
        assert(!has_id(rest, fns.last().id@)) by {
            if has_id(rest, fns.last().id@) {
                let i = choose|i: int| 0 <= i < rest.len() && #[trigger] rest[i].id@ == fns.last().id@;
                assert(fns[i].id@ != fns[fns.len() - 1].id@);
            }
        }
        assert(rest.push(fns.last()) =~= fns);
    }
}

proof fn lemma_all_applied(ns: Seq<Node>, fes: Seq<Edge>)
    requires
        forall|j: int| 0 <= j < fes.len() ==> edge_applies(ns, #[trigger] fes[j]),
    ensures
        applied_edges(ns, fes).len() == fes.len(),
        forall|j: int| 0 <= j < fes.len() ==> #[trigger] applied_edges(ns, fes)[j]
            == (id_index(ns, fes[j].src@) as usize, id_index(ns, fes[j].dst@) as usize, fes[j]),
    decreases fes.len(),
{
    if fes.len() > 0 {
        let rest = fes.drop_last();
        assert forall|j: int| 0 <= j < rest.len() implies edge_applies(ns, #[trigger] rest[j]) by {
            assert(rest[j] == fes[j]);
        }
        lemma_all_applied(ns, rest);
        assert(edge_applies(ns, fes[fes.len() - 1]));
        assert forall|j: int| 0 <= j < fes.len() implies #[trigger] applied_edges(ns, fes)[j]
            == (id_index(ns, fes[j].src@) as usize, id_index(ns, fes[j].dst@) as usize, fes[j]) by {
            if j < fes.len() - 1 {
                assert(rest[j] == fes[j]);
            }
        }
    }
}

/// The node of `fns` holding the id of node `a` of `ns` is the same node.
proof fn lemma_saved_endpoint(ns: Seq<Node>, fns: Seq<Node>, no: Seq<usize>, a: usize)
    requires
        unique_ids(ns),
        unique_ids(fns),
        fns.len() == no.len(),
        forall|x: int| 0 <= x < no.len() ==> #[trigger] no[x] < ns.len(),
        forall|i: int| 0 <= i < fns.len() ==> (#[trigger] fns[i]).same_node(&ns[no[i] as int]),
        no.contains(a),
        a < ns.len(),
    ensures
        has_id(fns, ns[a as int].id@),
        fns[id_index(fns, ns[a as int].id@)].same_node(&ns[a as int]),
{
    let p = choose|p: int| 0 <= p < no.len() && no[p] == a;
    assert(fns[p].same_node(&ns[a as int]));
    lemma_id_index_unique(fns, p);
}

/// Loading the file image of a keyspace into a store without that keyspace
/// gives the keyspace back: the saved nodes come back, in the saved
/// order, each the same node as before, and every saved edge joins the
/// same two nodes as before.
pub proof fn lemma_reload_gives_back_the_keyspace(s: KeyspaceState, fns: Seq<Node>, fes: Seq<Edge>, no: Seq<usize>, eo: Seq<usize>)
    requires
        s.wf(),
        unique_ids(s.nodes()),
        edges_join_ids(s.nodes(), s.edges()),
        saved_in_order(s, fns, fes, no, eo),
    ensures
        apply_nodes(Seq::empty(), fns) == fns,
        unique_ids(fns),
        fns.len() == s.nodes().len(),
        applied_edges(fns, fes).len() == s.edges().len(),
        forall|j: int| 0 <= j < fes.len() ==> {
            let r = #[trigger] applied_edges(fns, fes)[j];
            let old_e = s.edges()[eo[j] as int];
            &&& r.2 == fes[j]
            &&& fns[r.0 as int].same_node(&s.nodes()[old_e.0 as int])
            &&& fns[r.1 as int].same_node(&s.nodes()[old_e.1 as int])
        },
{
    let ns = s.nodes();
    let es = s.edges();
    let nk = save_node_keys(s);
    assert(ns.len() < 0xffff_ffff);
    assert forall|x: int, y: int| 0 <= x < y < no.len() implies #[trigger] no[x] != #[trigger] no[y] by {
        assert(LineKey::key_lt(nk[no[x] as int], nk[no[y] as int]));
        if no[x] == no[y] {
            LineKey::lemma_key_irreflexive(nk[no[x] as int]);
        }
    }
    assert(unique_ids(fns)) by {
        assert forall|i: int, j: int| 0 <= i < j < fns.len() implies #[trigger] fns[i].id@ != #[trigger] fns[j].id@ by {
            assert(fns[i].same_node(&ns[no[i] as int]));
            assert(fns[j].same_node(&ns[no[j] as int]));
            assert(no[i] != no[j]);
            if no[i] < no[j] {
                assert(ns[no[i] as int].id@ != ns[no[j] as int].id@);
            } else {
                assert(ns[no[j] as int].id@ != ns[no[i] as int].id@);
            }
        }
    }
    lemma_fresh_apply_nodes(fns);
    assert forall|x: int| 0 <= x < no.len() implies #[trigger] no[x] < ns.len() by {}
    let ek = save_edge_keys(s);
    assert forall|j: int| 0 <= j < fes.len() implies edge_applies(fns, #[trigger] fes[j]) by {
        let k = eo[j] as int;
        assert(eo[j] < ek.len());
        assert(es[k].0 < ns.len() && es[k].1 < ns.len());
        assert(no.contains(es[k].0));
        assert(no.contains(es[k].1));
        lemma_saved_endpoint(ns, fns, no, es[k].0);
        lemma_saved_endpoint(ns, fns, no, es[k].1);
    }
    lemma_all_applied(fns, fes);
    assert forall|j: int| 0 <= j < fes.len() implies {
        let r = #[trigger] applied_edges(fns, fes)[j];
        let old_e = s.edges()[eo[j] as int];
        &&& r.2 == fes[j]
        &&& fns[r.0 as int].same_node(&s.nodes()[old_e.0 as int])
        &&& fns[r.1 as int].same_node(&s.nodes()[old_e.1 as int])
    } by {
        let k = eo[j] as int;
        assert(eo[j] < ek.len());
        assert(no.contains(es[k].0));
        assert(no.contains(es[k].1));
        lemma_saved_endpoint(ns, fns, no, es[k].0);
        lemma_saved_endpoint(ns, fns, no, es[k].1);
    }
}

/// No two nodes of `s` share a dump key (label and qname), and no two
/// edges do (label and end qnames).
pub open spec fn dump_keys_distinct(s: KeyspaceState) -> bool {
    &&& distinct_key_texts(Seq::new(s.nodes().len(), |i: int| node_sort_key(s.nodes(), i)))
    &&& distinct_key_texts(Seq::new(s.edges().len(), |j: int| edge_sort_key(s, j)))
}

proof fn lemma_sort_order_injective(keys: Seq<(Seq<char>, Seq<char>, Seq<char>, usize)>, o: Seq<usize>)
    requires
        is_sort_order(keys, o),
    ensures
        forall|p: int, q: int| 0 <= p < q < o.len() ==> #[trigger] o[p] != #[trigger] o[q],
{
    assert forall|p: int, q: int| 0 <= p < q < o.len() implies #[trigger] o[p] != #[trigger] o[q] by {
        assert(LineKey::key_lt(keys[o[p] as int], keys[o[q] as int]));
        if o[p] == o[q] {
            LineKey::lemma_key_irreflexive(keys[o[p] as int]);
        }
    }
}

proof fn lemma_same_node_dumps_alike(a: Node, b: Node)
    requires
        a.props.wf(),
        b.props.wf(),
        a.same_node(&b),
    ensures
        qname_or_id(a) == qname_or_id(b),
        node_line(a) == node_line(b),
{
    lemma_props_view_facts(a.props);
    lemma_props_view_facts(b.props);
    match prop_of(a.props, "qname"@) {
        Some(v) => {
            assert(props_view(a.props).contains(("qname"@, v)));
        },
        None => {
            if let Some(w) = prop_of(b.props, "qname"@) {
                assert(props_view(b.props).contains(("qname"@, w)));
            }
        },
    }
}

proof fn lemma_saved_endpoint_qname(ns: Seq<Node>, fns: Seq<Node>, no: Seq<usize>, id: Seq<char>)
    requires
        unique_ids(ns),
        unique_ids(fns),
        fns.len() == no.len(),
        no.len() == ns.len(),
        ns.len() <= usize::MAX,
        forall|i: int| 0 <= i < ns.len() ==> (#[trigger] ns[i]).props.wf(),
        forall|x: int| 0 <= x < no.len() ==> #[trigger] no[x] < ns.len(),
        forall|i: usize| i < ns.len() ==> #[trigger] no.contains(i),
        forall|i: int| 0 <= i < fns.len() ==> (#[trigger] fns[i]).same_node(&ns[no[i] as int]) && fns[i].props.wf(),
    ensures
        endpoint_qname(fns, id) == endpoint_qname(ns, id),
{
    if has_id(ns, id) {
        let a = choose|a: int| 0 <= a < ns.len() && #[trigger] ns[a].id@ == id;
        lemma_id_index_unique(ns, a);
        assert(no.contains(a as usize));
        lemma_saved_endpoint(ns, fns, no, a as usize);
        let p = id_index(fns, id);
        lemma_same_node_dumps_alike(fns[p], ns[a]);
    } else {
        if has_id(fns, id) {
            let p = choose|p: int| 0 <= p < fns.len() && #[trigger] fns[p].id@ == id;
            assert(fns[p].same_node(&ns[no[p] as int]));
            assert(ns[no[p] as int].id@ == id);
        }
    }
}

/// Saving a keyspace and loading the image into a keyspace of its own
/// keeps the canonical dump, when no two nodes and no two edges share a
/// dump key (otherwise the dump orders them by position, which the
/// image does not keep).
pub proof fn lemma_reload_keeps_dump(s: KeyspaceState, s2: KeyspaceState, fns: Seq<Node>, fes: Seq<Edge>, no: Seq<usize>,
    eo: Seq<usize>, t1: Seq<char>, t2: Seq<char>)
    requires
        s.wf(),
        unique_ids(s.nodes()),
        edges_join_ids(s.nodes(), s.edges()),
        saved_in_order(s, fns, fes, no, eo),
        s2.nodes() == fns,
        s2.edges() == applied_edges(fns, fes),
        dump_keys_distinct(s),
        is_canonical_dump(s, t1),
        is_canonical_dump(s2, t2),
    ensures
        t1 == t2,
{
    lemma_reload_gives_back_the_keyspace(s, fns, fes, no, eo);
    let ns = s.nodes();
    let es = s.edges();
    assert(ns.len() < 0xffff_ffff);
    assert(es.len() < 0xffff_ffff);
    lemma_sort_order_injective(save_node_keys(s), no);
    lemma_sort_order_injective(save_edge_keys(s), eo);
    assert forall|x: int| 0 <= x < no.len() implies #[trigger] no[x] < ns.len() by {}
    assert forall|x: int| 0 <= x < eo.len() implies #[trigger] eo[x] < es.len() by {}
    assert forall|i: int| 0 <= i < ns.len() implies (#[trigger] ns[i]).props.wf() by {}
    let nk1 = Seq::new(ns.len(), |i: int| node_sort_key(ns, i));
    let nk2 = Seq::new(fns.len(), |i: int| node_sort_key(fns, i));
    let ek1 = Seq::new(es.len(), |j: int| edge_sort_key(s, j));
    let ek2 = Seq::new(s2.edges().len(), |j: int| edge_sort_key(s2, j));
    let (o1, f1) = choose|n: Seq<usize>, e: Seq<usize>| is_sort_order(nk1, n) && is_sort_order(ek1, e) && #[trigger] dump_text(s, n, e) == t1;
    let (o2, f2) = choose|n: Seq<usize>, e: Seq<usize>| is_sort_order(nk2, n) && is_sort_order(ek2, e) && #[trigger] dump_text(s2, n, e) == t2;
    // nodes
    let nl1 = Seq::new(ns.len(), |i: int| node_line(ns[i]));
    let nl2 = Seq::new(fns.len(), |i: int| node_line(fns[i]));
    assert forall|p: int| 0 <= p < no.len() implies key_text(#[trigger] nk2[p]) == key_text(nk1[no[p] as int])
        && nl2[p] == nl1[no[p] as int] by {
        lemma_same_node_dumps_alike(fns[p], ns[no[p] as int]);
    }
    lemma_sorted_lines_equal(nk1, nl1, o1, nk2, nl2, o2, no);
    assert(o1.map_values(|i: usize| node_line(s.nodes()[i as int])) =~= o1.map_values(|i: usize| nl1[i as int]));
    assert(o2.map_values(|i: usize| node_line(s2.nodes()[i as int])) =~= o2.map_values(|i: usize| nl2[i as int]));
    // edges
    let el1 = Seq::new(es.len(), |j: int| edge_dump_line(s, j));
    let el2 = Seq::new(s2.edges().len(), |j: int| edge_dump_line(s2, j));
    assert forall|q: int| 0 <= q < eo.len() implies key_text(#[trigger] ek2[q]) == key_text(ek1[eo[q] as int])
        && el2[q] == el1[eo[q] as int] by {
        let e2 = s2.edges()[q].2;
        let e1 = es[eo[q] as int].2;
        assert(e2 == fes[q]);
        lemma_saved_endpoint_qname(ns, fns, no, e1.src@);
        lemma_saved_endpoint_qname(ns, fns, no, e1.dst@);
    }
    lemma_sorted_lines_equal(ek1, el1, f1, ek2, el2, f2, eo);
    assert(f1.map_values(|j: usize| edge_dump_line(s, j as int)) =~= f1.map_values(|j: usize| el1[j as int]));
    assert(f2.map_values(|j: usize| edge_dump_line(s2, j as int)) =~= f2.map_values(|j: usize| el2[j as int]));
}

/// `perm` lists `0..n` once each.
pub open spec fn is_permutation(perm: Seq<usize>, n: nat) -> bool {
    &&& perm.len() == n
    &&& forall|p: int| 0 <= p < perm.len() ==> #[trigger] perm[p] < n
    &&& forall|p: int, q: int| 0 <= p < q < perm.len() ==> #[trigger] perm[p] != #[trigger] perm[q]
    &&& forall|i: usize| i < n ==> #[trigger] perm.contains(i)
}

/// The canonical dump does not depend on the order nodes and edges are
/// held in: two keyspaces whose nodes and edges are the same up to a
/// permutation dump alike, when no two nodes and no two edges share a dump
/// key.
pub proof fn lemma_dump_permutation_invariant(s1: KeyspaceState, s2: KeyspaceState, np: Seq<usize>, ep: Seq<usize>,
    t1: Seq<char>, t2: Seq<char>)
    requires
        s1.wf(),
        s2.wf(),
        s2.nodes().len() == s1.nodes().len(),
        s2.edges().len() == s1.edges().len(),
        is_permutation(np, s1.nodes().len()),
        is_permutation(ep, s1.edges().len()),
        forall|p: int| 0 <= p < np.len() ==> (#[trigger] s2.nodes()[p]).same_node(&s1.nodes()[np[p] as int]),
        forall|q: int| 0 <= q < ep.len() ==> (#[trigger] s2.edges()[q]).2.src@ == s1.edges()[ep[q] as int].2.src@
            && s2.edges()[q].2.dst@ == s1.edges()[ep[q] as int].2.dst@
            && s2.edges()[q].2.label@ == s1.edges()[ep[q] as int].2.label@
            && props_view(s2.edges()[q].2.props) == props_view(s1.edges()[ep[q] as int].2.props),
        dump_keys_distinct(s1),
        is_canonical_dump(s1, t1),
        is_canonical_dump(s2, t2),
    ensures
        t1 == t2,
{
    s1.lemma_unique_ids();
    s2.lemma_unique_ids();
    let ns = s1.nodes();
    let fns = s2.nodes();
    assert(ns.len() < 0xffff_ffff);
    assert forall|i: int| 0 <= i < ns.len() implies (#[trigger] ns[i]).props.wf() by {}
    assert forall|i: int| 0 <= i < fns.len() implies (#[trigger] fns[i]).same_node(&ns[np[i] as int]) && fns[i].props.wf() by {}
    let nk1 = Seq::new(ns.len(), |i: int| node_sort_key(ns, i));
    let nk2 = Seq::new(fns.len(), |i: int| node_sort_key(fns, i));
    let ek1 = Seq::new(s1.edges().len(), |j: int| edge_sort_key(s1, j));
    let ek2 = Seq::new(s2.edges().len(), |j: int| edge_sort_key(s2, j));
    let (o1, f1) = choose|n: Seq<usize>, e: Seq<usize>| is_sort_order(nk1, n) && is_sort_order(ek1, e) && #[trigger] dump_text(s1, n, e) == t1;
    let (o2, f2) = choose|n: Seq<usize>, e: Seq<usize>| is_sort_order(nk2, n) && is_sort_order(ek2, e) && #[trigger] dump_text(s2, n, e) == t2;
    let nl1 = Seq::new(ns.len(), |i: int| node_line(ns[i]));
    let nl2 = Seq::new(fns.len(), |i: int| node_line(fns[i]));
    assert forall|p: int| 0 <= p < np.len() implies key_text(#[trigger] nk2[p]) == key_text(nk1[np[p] as int])
        && nl2[p] == nl1[np[p] as int] by {
        lemma_same_node_dumps_alike(fns[p], ns[np[p] as int]);
    }
    lemma_sorted_lines_equal(nk1, nl1, o1, nk2, nl2, o2, np);
    assert(o1.map_values(|i: usize| node_line(s1.nodes()[i as int])) =~= o1.map_values(|i: usize| nl1[i as int]));
    assert(o2.map_values(|i: usize| node_line(s2.nodes()[i as int])) =~= o2.map_values(|i: usize| nl2[i as int]));
    let el1 = Seq::new(s1.edges().len(), |j: int| edge_dump_line(s1, j));
    let el2 = Seq::new(s2.edges().len(), |j: int| edge_dump_line(s2, j));
    assert forall|q: int| 0 <= q < ep.len() implies key_text(#[trigger] ek2[q]) == key_text(ek1[ep[q] as int])
        && el2[q] == el1[ep[q] as int] by {
        let e1 = s1.edges()[ep[q] as int].2;
        lemma_saved_endpoint_qname(ns, fns, np, e1.src@);
        lemma_saved_endpoint_qname(ns, fns, np, e1.dst@);
    }
    lemma_sorted_lines_equal(ek1, el1, f1, ek2, el2, f2, ep);
    assert(f1.map_values(|j: usize| edge_dump_line(s1, j as int)) =~= f1.map_values(|j: usize| el1[j as int]));
    assert(f2.map_values(|j: usize| edge_dump_line(s2, j as int)) =~= f2.map_values(|j: usize| el2[j as int]));
}

/// Ingesting nodes keeps every edge joining the nodes its ids name.
pub proof fn lemma_ingest_nodes_keeps_edges_joined(ns: Seq<Node>, es: Seq<(usize, usize, Edge)>, incoming: Seq<Node>)
    requires
        unique_ids(ns),
        edges_join_ids(ns, es),
    ensures
        edges_join_ids(apply_nodes(ns, incoming), es),
    decreases incoming.len(),
{
    if incoming.len() > 0 {
        lemma_ingest_nodes_keeps_edges_joined(ns, es, incoming.drop_last());
        let mid = apply_nodes(ns, incoming.drop_last());
        crate::graph::lemma_apply_nodes_unique(ns, incoming.drop_last());
        let n = incoming.last();
        let r = apply_nodes(ns, incoming);
        assert(r == crate::graph::apply_node(mid, n));
        assert forall|j: int| 0 <= j < es.len() implies {
            &&& (#[trigger] es[j]).0 < r.len()
            &&& es[j].1 < r.len()
            &&& r[es[j].0 as int].id@ == es[j].2.src@
            &&& r[es[j].1 as int].id@ == es[j].2.dst@
        } by {
            if has_id(mid, n.id@) {
                let x = id_index(mid, n.id@);
                assert(mid[x].id@ == n.id@);
            }
        }
    }
}

/// Ingesting edges keeps every edge joining the nodes its ids name.
pub proof fn lemma_ingest_edges_keeps_edges_joined(ns: Seq<Node>, es: Seq<(usize, usize, Edge)>, incoming: Seq<Edge>)
    requires
        ns.len() < 0xffff_ffff,
        edges_join_ids(ns, es),
    ensures
        edges_join_ids(ns, es + applied_edges(ns, incoming)),
    decreases incoming.len(),
{
    if incoming.len() > 0 {
        lemma_ingest_edges_keeps_edges_joined(ns, es, incoming.drop_last());
        let prev = es + applied_edges(ns, incoming.drop_last());
        let e = incoming.last();
        if edge_applies(ns, e) {
            let a = id_index(ns, e.src@);
            let b = id_index(ns, e.dst@);
            assert(0 <= a < ns.len() && ns[a].id@ == e.src@);
            assert(0 <= b < ns.len() && ns[b].id@ == e.dst@);
            assert(es + applied_edges(ns, incoming) =~= prev.push((a as usize, b as usize, e)));
        } else {
            assert(es + applied_edges(ns, incoming) =~= prev);
        }
    }
}

} // verus!
