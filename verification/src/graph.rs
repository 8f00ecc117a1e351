//! One keyspace: the node/edge graph with its id map, label buckets,
//! posting lists and ingest diagnostics.
use vstd::prelude::*;

use indexmap::IndexMap;
use petgraph::stable_graph::StableGraph;
use petgraph::Directed;

use crate::elems::{kseq, vec_contains};
use crate::fact::{props_view, index_key_of, index_key_spec, get_prop, prop_of, Edge, Node, PropView, PropValue, Warning, WarningKind};
use crate::graph_api::{graph_add_edge, graph_add_node, graph_edges, graph_new, graph_node, graph_nodes, graph_set_node, id_map_entries, id_map_get, id_map_insert, id_map_new};
use crate::index_spec::{computed_key_name, computed_key_source, computed_key_value, IndexEntry, IndexSpec};
use crate::keys::{IndexKey, LabelTag, PostingKey};
use crate::sorted::{Keyed, SortedMap};
use crate::value::{entry_eq, is_nan_value, node_eq, nodes_equal, value_eq, values_equal};

verus! {

/// The keys of a sorted map, as a set.
pub open spec fn key_set<K: Keyed, V>(m: SortedMap<K, V>) -> Set<K::KeyView> {
    Set::new(|k: K::KeyView| m.has(k))
}

/// The index key that `e` gives node `n`, if any: the node must carry the
/// entry's label, and the property (or the computed key's source string
/// property) must be present and yield a key.
pub open spec fn entry_key(e: IndexEntry, n: Node) -> Option<(Seq<char>, Seq<char>, Seq<char>)> {
    match e {
        IndexEntry::Prop { label, prop, .. } => if n.label@ != label@ {
            None
        } else {
            match prop_of(n.props, prop@) {
                Some(v) => match index_key_spec(v) {
                    Some(k) => Some((label@, prop@, k)),
                    None => None,
                },
                None => None,
            }
        },
        IndexEntry::Computed { label, computed, .. } => if n.label@ != label@ {
            None
        } else {
            match prop_of(n.props, computed_key_source(computed)) {
                Some(PropView::Str(s)) => match computed_key_value(computed, s) {
                    Some(v) => Some((label@, computed_key_name(computed), v)),
                    None => None,
                },
                _ => None,
            }
        },
    }
}

/// All index keys that the declared entries give node `n`.
pub open spec fn node_keys(spec: Seq<IndexEntry>, n: Node) -> Set<(Seq<char>, Seq<char>, Seq<char>)> {
    Set::new(|t: (Seq<char>, Seq<char>, Seq<char>)| exists|i: int| 0 <= i < spec.len() && #[trigger] entry_key(spec[i], n) == Some(t))
}

/// The postings a node sequence calls for: `(label, tag, value, i)` for
/// every index key of node `i`.
pub open spec fn postings_of(spec: Seq<IndexEntry>, nodes: Seq<Node>) -> Set<(Seq<char>, Seq<char>, Seq<char>, usize)> {
    Set::new(|p: (Seq<char>, Seq<char>, Seq<char>, usize)|
        p.3 < nodes.len() && node_keys(spec, nodes[p.3 as int]).contains((p.0, p.1, p.2)))
}

/// The `(label, tag)` pairs that the declared entries name.
pub open spec fn declared_pairs(spec: Seq<IndexEntry>) -> Set<(Seq<char>, Seq<char>)> {
    Set::new(|p: (Seq<char>, Seq<char>)| exists|i: int| 0 <= i < spec.len() && #[trigger] spec[i].label_spec() == p.0 && spec[i].tag_spec() == p.1)
}

/// The index key that `entry` gives `node`, if any.
pub fn entry_value_for_node(entry: &IndexEntry, node: &Node) -> (r: Option<IndexKey>)
    requires
        node.props.wf(),
    ensures
        match r {
            Some(k) => entry_key(*entry, *node) == Some(k.kv()),
            None => entry_key(*entry, *node) == None::<(Seq<char>, Seq<char>, Seq<char>)>,
        },
{
    match entry {
        IndexEntry::Prop { label, prop, .. } => {
            if !(node.label == *label) {
                return None;
            }
            let v = match get_prop(&node.props, prop.as_str()) {
                Some(v) => v,
                None => return None,
            };
            match index_key_of(v) {
                Some(value) => Some(IndexKey { label: label.clone(), tag: prop.clone(), value }),
                None => None,
            }
        },
        IndexEntry::Computed { label, computed, .. } => {
            if !(node.label == *label) {
                return None;
            }
            let raw = match get_prop(&node.props, computed.source_prop()) {
                Some(v) => v,
                None => return None,
            };
            let source = match raw.as_str() {
                Some(s) => s,
                None => return None,
            };
            match computed.evaluate(source) {
                Some(value) => Some(IndexKey { label: label.clone(), tag: computed.as_str().to_owned(), value }),
                None => None,
            }
        },
    }
}

/// The index keys that `spec` gives `node`, without repeats.
pub fn compute_index_entries(spec: &IndexSpec, node: &Node) -> (r: Vec<IndexKey>)
    requires
        node.props.wf(),
    ensures
        forall|t: (Seq<char>, Seq<char>, Seq<char>)| #[trigger] kseq(r@).contains(t) <==> node_keys(spec.entries@, *node).contains(t),
        kseq(r@).no_duplicates(),
{
    let mut out: Vec<IndexKey> = Vec::new();
    let mut i: usize = 0;
    while i < spec.entries.len()
        invariant
            i <= spec.entries@.len(),
            node.props.wf(),
            kseq(out@).no_duplicates(),
            forall|t: (Seq<char>, Seq<char>, Seq<char>)| #[trigger] kseq(out@).contains(t) <==>
                exists|k: int| 0 <= k < i && #[trigger] entry_key(spec.entries@[k], *node) == Some(t),
        decreases spec.entries@.len() - i,
    {
        let ghost before = out@;
        match entry_value_for_node(&spec.entries[i], node) {
            Some(k) => {
                if !vec_contains(&out, &k) {
                    out.push(k);
                    proof {
                        assert(kseq(out@) =~= kseq(before).push(k.kv()));
                        crate::elems::lemma_push_contains(kseq(before), k.kv());
                        assert forall|a: int, b: int| 0 <= a < b < kseq(out@).len() implies kseq(out@)[a] != kseq(out@)[b] by {
                            if b == kseq(out@).len() - 1 {
                                assert(kseq(before).contains(kseq(before)[a]));
                            }
                        }
                    }
                }
            },
            None => {},
        }
        proof {
            assert forall|t: (Seq<char>, Seq<char>, Seq<char>)| #[trigger] kseq(out@).contains(t) <==>
                exists|k: int| 0 <= k < i + 1 && #[trigger] entry_key(spec.entries@[k], *node) == Some(t) by {
                if exists|k: int| 0 <= k < i + 1 && #[trigger] entry_key(spec.entries@[k], *node) == Some(t) {
                    let k = choose|k: int| 0 <= k < i + 1 && #[trigger] entry_key(spec.entries@[k], *node) == Some(t);
                    if k < i {
                        assert(kseq(before).contains(t));
                    }
                }
            }
        }
        i = i + 1;
    }
    proof {
        assert forall|t: (Seq<char>, Seq<char>, Seq<char>)| #[trigger] kseq(out@).contains(t) <==> node_keys(spec.entries@, *node).contains(t) by {
        }
    }
    out
}

/// The state of one keyspace.
pub struct KeyspaceState {
    pub graph: StableGraph<Node, Edge, Directed, u32>,
    /// Node id → node index.
    pub id_to_idx: IndexMap<String, usize>,
    /// Label → the indexes of the nodes carrying it. A label stays listed
    /// (possibly with no node) once a node carried it.
    pub by_label: SortedMap<String, SortedMap<usize, ()>>,
    /// The labels of ingested edges.
    pub edge_labels: SortedMap<String, ()>,
    pub ingest_warnings: Vec<Warning>,
    pub recorded_contentions: usize,
    pub suppressed_contentions: usize,
    pub index_spec: IndexSpec,
    /// The posting lists: `(label, tag, value, node)`.
    pub by_prop: SortedMap<PostingKey, ()>,
    /// The declared `(label, tag)` pairs.
    pub indexed_pairs: SortedMap<LabelTag, ()>,
}

/// How many identity contentions are reported one by one.
pub const CONTENTION_WARNING_CAP: usize = 50;

impl KeyspaceState {
    /// The nodes, by index.
    pub open spec fn nodes(&self) -> Seq<Node> {
        graph_nodes(self.graph).map_values(|o: Option<Node>| o.unwrap())
    }

    /// The edges with their endpoints, by index.
    pub open spec fn edges(&self) -> Seq<(usize, usize, Edge)> {
        graph_edges(self.graph).map_values(|o: Option<(usize, usize, Edge)>| o.unwrap())
    }

    /// The node indexes of the nodes labelled `l`.
    pub open spec fn label_members(&self, l: Seq<char>) -> Set<usize> {
        Set::new(|i: usize| i < self.nodes().len() && self.nodes()[i as int].label@ == l)
    }

    pub open spec fn wf(&self) -> bool {
        let ns = graph_nodes(self.graph);
        let es = graph_edges(self.graph);
        &&& ns.len() < 0xffff_ffff
        &&& es.len() < 0xffff_ffff
        &&& forall|i: int| 0 <= i < ns.len() ==> #[trigger] ns[i] is Some
        &&& forall|i: int| 0 <= i < es.len() ==> #[trigger] es[i] is Some
        &&& forall|i: int| 0 <= i < ns.len() ==> (#[trigger] self.nodes()[i]).props.wf()
        // id map: a bijection between ids and node indexes
        &&& forall|i: int| 0 <= i < ns.len() ==> id_map_entries(self.id_to_idx).contains_key(#[trigger] self.nodes()[i].id@)
            && id_map_entries(self.id_to_idx)[self.nodes()[i].id@] == i
        &&& forall|k: Seq<char>| #[trigger] id_map_entries(self.id_to_idx).contains_key(k) ==>
            id_map_entries(self.id_to_idx)[k] < ns.len() && self.nodes()[id_map_entries(self.id_to_idx)[k] as int].id@ == k
        // label buckets
        &&& self.by_label.wf()
        &&& forall|i: int| 0 <= i < ns.len() ==> self.by_label.has(#[trigger] self.nodes()[i].label@)
        &&& forall|l: Seq<char>| #[trigger] self.by_label.has(l) ==> self.by_label.lookup(l).unwrap().wf()
            && key_set(self.by_label.lookup(l).unwrap()) == self.label_members(l)
        // postings
        &&& self.by_prop.wf()
        &&& key_set(self.by_prop) == postings_of(self.index_spec.entries@, self.nodes())
        &&& self.indexed_pairs.wf()
        &&& key_set(self.indexed_pairs) == declared_pairs(self.index_spec.entries@)
        // edges
        &&& forall|j: int| 0 <= j < es.len() ==> (#[trigger] self.edges()[j]).0 < ns.len() && self.edges()[j].1 < ns.len()
        &&& self.edge_labels.wf()
        &&& forall|l: Seq<char>| #[trigger] self.edge_labels.has(l) <==> exists|j: int| 0 <= j < es.len() && #[trigger] self.edges()[j].2.label@ == l
        // contention accounting
        &&& self.recorded_contentions <= CONTENTION_WARNING_CAP
        &&& self.suppressed_contentions > 0 ==> self.recorded_contentions == CONTENTION_WARNING_CAP
    }
}

/// The declared `(label, tag)` pairs of `spec`.
pub fn indexed_pairs_for(spec: &IndexSpec) -> (r: SortedMap<LabelTag, ()>)
    ensures
        r.wf(),
        key_set(r) == declared_pairs(spec.entries@),
{
    let mut out: SortedMap<LabelTag, ()> = SortedMap::new();
    let mut i: usize = 0;
    while i < spec.entries.len()
        invariant
            i <= spec.entries@.len(),
            out.wf(),
            forall|p: (Seq<char>, Seq<char>)| #[trigger] out.has(p) <==>
                exists|k: int| 0 <= k < i && #[trigger] spec.entries@[k].label_spec() == p.0 && spec.entries@[k].tag_spec() == p.1,
        decreases spec.entries@.len() - i,
    {
        let key = match &spec.entries[i] {
            IndexEntry::Prop { label, prop, .. } => LabelTag { label: label.clone(), tag: prop.clone() },
            IndexEntry::Computed { label, computed, .. } => LabelTag { label: label.clone(), tag: computed.as_str().to_owned() },
        };
        let ghost before = out;
        let ghost kk = key.kv();
        proof {
            assert(kk == (spec.entries@[i as int].label_spec(), spec.entries@[i as int].tag_spec()));
        }
        out.insert(key, ());
        proof {
            assert forall|p: (Seq<char>, Seq<char>)| #[trigger] out.has(p) <==>
                exists|k: int| 0 <= k < i + 1 && #[trigger] spec.entries@[k].label_spec() == p.0 && spec.entries@[k].tag_spec() == p.1 by {
                if p != kk {
                    assert(out.has(p) == before.has(p));
                } else {
                    assert(spec.entries@[i as int].label_spec() == p.0 && spec.entries@[i as int].tag_spec() == p.1);
                }
            }
        }
        i = i + 1;
    }
    proof {
        assert(key_set(out) =~= declared_pairs(spec.entries@));
    }
    out
}

impl KeyspaceState {
    /// An empty keyspace indexing per `spec`.
    pub fn new_with_spec(spec: IndexSpec) -> (r: KeyspaceState)
        ensures
            r.wf(),
            r.nodes().len() == 0,
            r.edges().len() == 0,
            r.index_spec == spec,
            r.ingest_warnings@.len() == 0,
            r.recorded_contentions == 0,
            r.suppressed_contentions == 0,
    {
        let indexed_pairs = indexed_pairs_for(&spec);
        let r = KeyspaceState {
            graph: graph_new(),
            id_to_idx: id_map_new(),
            by_label: SortedMap::new(),
            edge_labels: SortedMap::new(),
            ingest_warnings: Vec::new(),
            recorded_contentions: 0,
            suppressed_contentions: 0,
            index_spec: spec,
            by_prop: SortedMap::new(),
            indexed_pairs,
        };
        proof {
            assert(key_set(r.by_prop) =~= postings_of(r.index_spec.entries@, r.nodes()));
        }
        r
    }

    /// An empty keyspace without indexes.
    pub fn new() -> (r: KeyspaceState)
        ensures
            r.wf(),
            r.nodes().len() == 0,
            r.edges().len() == 0,
            r.index_spec.entries@.len() == 0,
            r.ingest_warnings@.len() == 0,
    {
        KeyspaceState::new_with_spec(IndexSpec::empty())
    }
}

} // verus!

verus! {

/// The posting of index key `t` for node `i`.
pub open spec fn posting(t: (Seq<char>, Seq<char>, Seq<char>), i: usize) -> (Seq<char>, Seq<char>, Seq<char>, usize) {
    (t.0, t.1, t.2, i)
}

/// Lists node `idx` under index key `k`.
pub fn insert_posting(by_prop: &mut SortedMap<PostingKey, ()>, k: &IndexKey, idx: usize)
    requires
        old(by_prop).wf(),
    ensures
        final(by_prop).wf(),
        key_set(*final(by_prop)) == key_set(*old(by_prop)).insert(posting(k.kv(), idx)),
{
    let ghost pre = *by_prop;
    let key = PostingKey { label: k.label.clone(), tag: k.tag.clone(), value: k.value.clone(), node: idx };
    by_prop.insert(key, ());
    proof {
        assert forall|q: (Seq<char>, Seq<char>, Seq<char>, usize)| #[trigger] key_set(*by_prop).contains(q) == key_set(pre).insert(posting(k.kv(), idx)).contains(q) by {
            if q != posting(k.kv(), idx) {
                assert(by_prop.has(q) == pre.has(q));
            }
        }
        assert(key_set(*by_prop) =~= key_set(pre).insert(posting(k.kv(), idx)));
    }
}

/// Removes node `idx` from the postings of index key `k`.
pub fn remove_posting(by_prop: &mut SortedMap<PostingKey, ()>, k: &IndexKey, idx: usize)
    requires
        old(by_prop).wf(),
    ensures
        final(by_prop).wf(),
        key_set(*final(by_prop)) == key_set(*old(by_prop)).remove(posting(k.kv(), idx)),
{
    let ghost pre = *by_prop;
    let key = PostingKey { label: k.label.clone(), tag: k.tag.clone(), value: k.value.clone(), node: idx };
    let _ = by_prop.remove(&key);
    proof {
        assert forall|q: (Seq<char>, Seq<char>, Seq<char>, usize)| #[trigger] key_set(*by_prop).contains(q) == key_set(pre).remove(posting(k.kv(), idx)).contains(q) by {
            if q != posting(k.kv(), idx) {
                assert(by_prop.has(q) == pre.has(q));
            }
        }
        assert(key_set(*by_prop) =~= key_set(pre).remove(posting(k.kv(), idx)));
    }
}

/// Moves the postings of node `idx` from index keys `before` to index keys
/// `after`: drops those only in `before`, adds those only in `after`.
pub fn reconcile_index_entries(by_prop: &mut SortedMap<PostingKey, ()>, idx: usize, before: &Vec<IndexKey>, after: &Vec<IndexKey>)
    requires
        old(by_prop).wf(),
    ensures
        final(by_prop).wf(),
        forall|p: (Seq<char>, Seq<char>, Seq<char>, usize)| #[trigger] key_set(*final(by_prop)).contains(p) <==> (
            if p.3 == idx {
                let t = (p.0, p.1, p.2);
                (key_set(*old(by_prop)).contains(p) && (kseq(after@).contains(t) || !kseq(before@).contains(t)))
                    || (kseq(after@).contains(t) && !kseq(before@).contains(t))
            } else {
                key_set(*old(by_prop)).contains(p)
            }),
{
    let ghost pre = *by_prop;
    let mut i: usize = 0;
    while i < before.len()
        invariant
            i <= before@.len(),
            by_prop.wf(),
            forall|p: (Seq<char>, Seq<char>, Seq<char>, usize)| #[trigger] key_set(*by_prop).contains(p) <==> (
                key_set(pre).contains(p) && !(p.3 == idx && kseq(before@.take(i as int)).contains((p.0, p.1, p.2))
                    && !kseq(after@).contains((p.0, p.1, p.2)))),
        decreases before@.len() - i,
    {
        proof {
            assert(before@.take(i + 1) =~= before@.take(i as int).push(before@[i as int]));
            assert(kseq(before@.take(i + 1)) =~= kseq(before@.take(i as int)).push(before@[i as int].kv()));
            crate::elems::lemma_push_contains(kseq(before@.take(i as int)), before@[i as int].kv());
        }
        if !vec_contains(after, &before[i]) {
            remove_posting(by_prop, &before[i], idx);
        }
        i = i + 1;
    }
    proof {
        assert(before@.take(i as int) =~= before@);
    }
    let ghost mid = *by_prop;
    let mut j: usize = 0;
    while j < after.len()
        invariant
            j <= after@.len(),
            by_prop.wf(),
            forall|p: (Seq<char>, Seq<char>, Seq<char>, usize)| #[trigger] key_set(*by_prop).contains(p) <==> (
                key_set(mid).contains(p) || (p.3 == idx && kseq(after@.take(j as int)).contains((p.0, p.1, p.2))
                    && !kseq(before@).contains((p.0, p.1, p.2)))),
        decreases after@.len() - j,
    {
        proof {
            assert(after@.take(j + 1) =~= after@.take(j as int).push(after@[j as int]));
            assert(kseq(after@.take(j + 1)) =~= kseq(after@.take(j as int)).push(after@[j as int].kv()));
            crate::elems::lemma_push_contains(kseq(after@.take(j as int)), after@[j as int].kv());
        }
        if !vec_contains(before, &after[j]) {
            insert_posting(by_prop, &after[j], idx);
        }
        j = j + 1;
    }
    proof {
        assert(after@.take(j as int) =~= after@);
    }
}

/// Adds node `idx` to the bucket of `label`, creating the bucket if needed.
pub fn label_bucket_insert(by_label: &mut SortedMap<String, SortedMap<usize, ()>>, label: &String, idx: usize)
    requires
        old(by_label).wf(),
        forall|l: Seq<char>| #[trigger] old(by_label).has(l) ==> old(by_label).lookup(l).unwrap().wf(),
    ensures
        final(by_label).wf(),
        forall|l: Seq<char>| #[trigger] final(by_label).has(l) ==> final(by_label).lookup(l).unwrap().wf(),
        final(by_label).has(label@),
        key_set(final(by_label).lookup(label@).unwrap()) == (if old(by_label).has(label@) {
            key_set(old(by_label).lookup(label@).unwrap())
        } else {
            Set::empty()
        }).insert(idx),
        forall|l: Seq<char>| l != label@ ==> (#[trigger] final(by_label).has(l) == old(by_label).has(l)
            && final(by_label).lookup(l) == old(by_label).lookup(l)),
{
    let ghost pre = *by_label;
    let mut bucket = match by_label.remove(label) {
        Some(b) => b,
        None => SortedMap::new(),
    };
    let ghost bpre = bucket;
    proof {
        if pre.has(label@) {
            assert(bpre == pre.lookup(label@).unwrap());
        } else {
            assert(key_set(bpre) =~= Set::<usize>::empty());
        }
    }
    bucket.insert(idx, ());
    proof {
        assert forall|q: usize| #[trigger] key_set(bucket).contains(q) == key_set(bpre).insert(idx).contains(q) by {
            if q != idx {
                assert(bucket.has(q) == bpre.has(q));
            }
        }
        assert(key_set(bucket) =~= key_set(bpre).insert(idx));
    }
    let ghost b2 = bucket;
    by_label.insert(label.clone(), bucket);
    proof {
        assert(by_label.lookup(label@) == Some(b2));
    }
}

/// Removes node `idx` from the bucket of `label`, keeping the bucket.
pub fn label_bucket_remove(by_label: &mut SortedMap<String, SortedMap<usize, ()>>, label: &String, idx: usize)
    requires
        old(by_label).wf(),
        forall|l: Seq<char>| #[trigger] old(by_label).has(l) ==> old(by_label).lookup(l).unwrap().wf(),
    ensures
        final(by_label).wf(),
        forall|l: Seq<char>| #[trigger] final(by_label).has(l) ==> final(by_label).lookup(l).unwrap().wf(),
        final(by_label).has(label@) == old(by_label).has(label@),
        old(by_label).has(label@) ==> key_set(final(by_label).lookup(label@).unwrap()) == key_set(old(by_label).lookup(label@).unwrap()).remove(idx),
        forall|l: Seq<char>| l != label@ ==> (#[trigger] final(by_label).has(l) == old(by_label).has(l)
            && final(by_label).lookup(l) == old(by_label).lookup(l)),
{
    let ghost pre = *by_label;
    match by_label.remove(label) {
        Some(b) => {
            let mut bucket = b;
            let ghost bpre = bucket;
            let _ = bucket.remove(&idx);
            proof {
                assert forall|q: usize| #[trigger] key_set(bucket).contains(q) == key_set(bpre).remove(idx).contains(q) by {
                    if q != idx {
                        assert(bucket.has(q) == bpre.has(q));
                    }
                }
                assert(key_set(bucket) =~= key_set(bpre).remove(idx));
            }
            let ghost b2 = bucket;
            by_label.insert(label.clone(), bucket);
            proof {
                assert(by_label.lookup(label@) == Some(b2));
            }
        },
        None => {},
    }
}

} // verus!

verus! {

/// Shown with the first recorded identity contention of a keyspace.
pub const CONTENTION_SUGGESTION: &'static str = "distinct source constructs are contending for one node identity; the earlier one is absent from this graph (RFC-054)";

/// The `file` property of a node.
pub open spec fn file_prop(n: Node) -> Option<PropView> {
    prop_of(n.props, "file"@)
}

/// Re-ingesting a node id is a contention when the two nodes name
/// different `file`s, or, when either lacks a `file`, when they differ at
/// all.
pub open spec fn is_contention(existing: Node, incoming: Node) -> bool {
    match (file_prop(existing), file_prop(incoming)) {
        (Some(a), Some(b)) => !value_eq(a, b),
        _ => !node_eq(existing, incoming),
    }
}

/// The `{:?}` rendering of a non-string property value.
pub open spec fn debug_text(v: PropView) -> Seq<char> {
    match v {
        PropView::Str(s) => "Str(..)"@,
        PropView::Int(n) => "Int("@ + crate::fact::int_text(n as int) + ")"@,
        PropView::Float(_, t, _, _) => "Float("@ + t + ")"@,
        PropView::Bool(b) => if b { "Bool(true)"@ } else { "Bool(false)"@ },
        PropView::Null => "Null"@,
    }
}

/// How a node's `file` is named in a contention report.
pub open spec fn file_text(n: Node) -> Seq<char> {
    match file_prop(n) {
        Some(PropView::Str(s)) => s,
        Some(v) => debug_text(v),
        None => "(no file prop)"@,
    }
}

/// The report of an identity contention.
pub open spec fn contention_message(existing: Node, incoming: Node) -> Seq<char> {
    "identity contention on `"@ + incoming.id@ + "`: `"@ + file_text(existing) + "` replaced by `"@
        + file_text(incoming) + "` — the earlier node was dropped"@
}

/// Whether a re-ingest is silent or a contention.
#[derive(Debug, PartialEq, Eq, Structural)]
pub enum ReingestClass {
    Silent,
    Contention,
}

pub fn classify_reingest(existing: &Node, incoming: &Node) -> (r: ReingestClass)
    requires
        existing.props.wf(),
        incoming.props.wf(),
    ensures
        (r == ReingestClass::Contention) == is_contention(*existing, *incoming),
{
    match (get_prop(&existing.props, "file"), get_prop(&incoming.props, "file")) {
        (Some(a), Some(b)) => if values_equal(a, b) {
            ReingestClass::Silent
        } else {
            ReingestClass::Contention
        },
        _ => if nodes_equal(existing, incoming) {
            ReingestClass::Silent
        } else {
            ReingestClass::Contention
        },
    }
}

fn push_debug(out: &mut String, v: &PropValue)
    ensures
        final(out)@ == old(out)@ + debug_text(v.pv()),
{
    match v {
        PropValue::Str(_) => crate::text::push_str(out, "Str(..)"),
        PropValue::Int(n) => {
            crate::text::push_str(out, "Int(");
            crate::fact::push_int(out, *n);
            crate::text::push_str(out, ")");
        },
        PropValue::Float { text, .. } => {
            crate::text::push_str(out, "Float(");
            crate::text::push_str(out, text.as_str());
            crate::text::push_str(out, ")");
        },
        PropValue::Bool(b) => crate::text::push_str(out, if *b { "Bool(true)" } else { "Bool(false)" }),
        PropValue::Null => crate::text::push_str(out, "Null"),
    }
}

/// Appends how `n`'s `file` is named in a contention report.
fn push_file_of(out: &mut String, n: &Node)
    requires
        n.props.wf(),
    ensures
        final(out)@ == old(out)@ + file_text(*n),
{
    match get_prop(&n.props, "file") {
        Some(v) => match v.as_str() {
            Some(s) => crate::text::push_str(out, s),
            None => push_debug(out, v),
        },
        None => crate::text::push_str(out, "(no file prop)"),
    }
}

/// The identity-contention warning for replacing `existing` by `incoming`.
pub fn contention_warning(existing: &Node, incoming: &Node) -> (w: Warning)
    requires
        existing.props.wf(),
        incoming.props.wf(),
    ensures
        w.kind == WarningKind::IdentityContention,
        w.message@ == contention_message(*existing, *incoming),
        w.suggestion is None,
{
    let mut m = String::new();
    crate::text::push_str(&mut m, "identity contention on `");
    crate::text::push_str(&mut m, incoming.id.as_str());
    crate::text::push_str(&mut m, "`: `");
    push_file_of(&mut m, existing);
    crate::text::push_str(&mut m, "` replaced by `");
    push_file_of(&mut m, incoming);
    crate::text::push_str(&mut m, "` — the earlier node was dropped");
    Warning { kind: WarningKind::IdentityContention, message: m, suggestion: None }
}

/// The warning for a contention, or `None` for a silent re-ingest.
pub fn detect_contention(existing: &Node, incoming: &Node) -> (r: Option<Warning>)
    requires
        existing.props.wf(),
        incoming.props.wf(),
    ensures
        r is Some == is_contention(*existing, *incoming),
        r is Some ==> r->0.kind == WarningKind::IdentityContention
            && r->0.message@ == contention_message(*existing, *incoming) && r->0.suggestion is None,
{
    match classify_reingest(existing, incoming) {
        ReingestClass::Contention => Some(contention_warning(existing, incoming)),
        ReingestClass::Silent => None,
    }
}

} // verus!

verus! {

/// The effect of one re-ingest on the contention diagnostics of a keyspace
/// (`pre` before, `post` after): nothing for a silent re-ingest; below the
/// cap, one more warning (the first one carrying the suggestion); at the
/// cap, one more suppressed contention.
pub open spec fn contention_recorded(pre: KeyspaceState, post: KeyspaceState, existing: Node, incoming: Node) -> bool {
    if !is_contention(existing, incoming) {
        &&& post.ingest_warnings@ == pre.ingest_warnings@
        &&& post.recorded_contentions == pre.recorded_contentions
        &&& post.suppressed_contentions == pre.suppressed_contentions
    } else if pre.recorded_contentions >= CONTENTION_WARNING_CAP {
        &&& post.ingest_warnings@ == pre.ingest_warnings@
        &&& post.recorded_contentions == pre.recorded_contentions
        &&& post.suppressed_contentions == (if pre.suppressed_contentions < usize::MAX {
            pre.suppressed_contentions + 1
        } else {
            pre.suppressed_contentions as int
        })
    } else {
        let w = post.ingest_warnings@.last();
        &&& post.ingest_warnings@.len() == pre.ingest_warnings@.len() + 1
        &&& post.ingest_warnings@.drop_last() == pre.ingest_warnings@
        &&& w.kind == WarningKind::IdentityContention
        &&& w.message@ == contention_message(existing, incoming)
        &&& (w.suggestion is Some) == (pre.recorded_contentions == 0)
        &&& w.suggestion is Some ==> w.suggestion->0@ == CONTENTION_SUGGESTION@
        &&& post.recorded_contentions == pre.recorded_contentions + 1
        &&& post.suppressed_contentions == pre.suppressed_contentions
    }
}

/// Everything but the contention diagnostics is unchanged.
pub open spec fn same_content(a: KeyspaceState, b: KeyspaceState) -> bool {
    &&& a.graph == b.graph
    &&& a.id_to_idx == b.id_to_idx
    &&& a.by_label == b.by_label
    &&& a.edge_labels == b.edge_labels
    &&& a.index_spec == b.index_spec
    &&& a.by_prop == b.by_prop
    &&& a.indexed_pairs == b.indexed_pairs
}

/// The invariant does not depend on the diagnostics beyond the counters.
pub proof fn lemma_wf_same_content(a: KeyspaceState, b: KeyspaceState)
    requires
        a.wf(),
        same_content(a, b),
        b.recorded_contentions <= CONTENTION_WARNING_CAP,
        b.suppressed_contentions > 0 ==> b.recorded_contentions == CONTENTION_WARNING_CAP,
    ensures
        b.wf(),
{
    assert(a.nodes() == b.nodes());
    assert(a.edges() == b.edges());
    assert forall|l: Seq<char>| #[trigger] b.by_label.has(l) implies b.by_label.lookup(l).unwrap().wf()
        && key_set(b.by_label.lookup(l).unwrap()) == b.label_members(l) by {
        assert(a.by_label.has(l));
        assert(a.label_members(l) == b.label_members(l));
    }
    assert forall|l: Seq<char>| #[trigger] b.edge_labels.has(l) <==> exists|j: int| 0 <= j < graph_edges(b.graph).len() && #[trigger] b.edges()[j].2.label@ == l by {
        assert(a.edge_labels.has(l) <==> exists|j: int| 0 <= j < graph_edges(a.graph).len() && #[trigger] a.edges()[j].2.label@ == l);
    }
}

impl KeyspaceState {
    /// Records the contention, if any, of re-ingesting node `idx` as
    /// `incoming`.
    pub fn record_contention(&mut self, idx: usize, incoming: &Node)
        requires
            old(self).wf(),
            idx < old(self).nodes().len(),
            incoming.props.wf(),
        ensures
            final(self).wf(),
            same_content(*final(self), *old(self)),
            contention_recorded(*old(self), *final(self), old(self).nodes()[idx as int], *incoming),
    {
        proof {
            assert(graph_nodes(self.graph)[idx as int] is Some);
        }
        let w = match graph_node(&self.graph, idx) {
            Some(existing) => {
                proof {
                    assert(*existing == self.nodes()[idx as int]);
                    assert(self.nodes()[idx as int].props.wf());
                }
                detect_contention(existing, incoming)
            },
            None => {
                return;
            },
        };
        let mut w = match w {
            Some(w) => w,
            None => {
                return;
            },
        };
        let ghost pre = *self;
        if self.recorded_contentions >= CONTENTION_WARNING_CAP {
            if self.suppressed_contentions < usize::MAX {
                self.suppressed_contentions = self.suppressed_contentions + 1;
            }
            proof {
                lemma_wf_same_content(pre, *self);
            }
            return;
        }
        if self.recorded_contentions == 0 {
            w.suggestion = Some(CONTENTION_SUGGESTION.to_owned());
        }
        self.recorded_contentions = self.recorded_contentions + 1;
        self.ingest_warnings.push(w);
        proof {
            lemma_wf_same_content(pre, *self);
            assert(self.ingest_warnings@.drop_last() =~= pre.ingest_warnings@);
        }
    }
}

} // verus!

verus! {

/// The postings for a node sequence with node `idx` replaced.
pub proof fn lemma_postings_update(spec: Seq<IndexEntry>, nodes: Seq<Node>, idx: int, n: Node)
    requires
        0 <= idx < nodes.len(),
    ensures
        forall|p: (Seq<char>, Seq<char>, Seq<char>, usize)| #[trigger] postings_of(spec, nodes.update(idx, n)).contains(p) <==> (
            if p.3 == idx {
                node_keys(spec, n).contains((p.0, p.1, p.2))
            } else {
                postings_of(spec, nodes).contains(p)
            }),
{
    assert forall|p: (Seq<char>, Seq<char>, Seq<char>, usize)| #[trigger] postings_of(spec, nodes.update(idx, n)).contains(p) <==> (
            if p.3 == idx {
                node_keys(spec, n).contains((p.0, p.1, p.2))
            } else {
                postings_of(spec, nodes).contains(p)
            }) by {
        if p.3 < nodes.len() && p.3 != idx {
            assert(nodes.update(idx, n)[p.3 as int] == nodes[p.3 as int]);
        }
    }
}

/// The postings for a node sequence with node `n` appended.
pub proof fn lemma_postings_push(spec: Seq<IndexEntry>, nodes: Seq<Node>, n: Node)
    ensures
        forall|p: (Seq<char>, Seq<char>, Seq<char>, usize)| #[trigger] postings_of(spec, nodes.push(n)).contains(p) <==> (
            if p.3 == nodes.len() {
                node_keys(spec, n).contains((p.0, p.1, p.2))
            } else {
                postings_of(spec, nodes).contains(p)
            }),
{
    assert forall|p: (Seq<char>, Seq<char>, Seq<char>, usize)| #[trigger] postings_of(spec, nodes.push(n)).contains(p) <==> (
            if p.3 == nodes.len() {
                node_keys(spec, n).contains((p.0, p.1, p.2))
            } else {
                postings_of(spec, nodes).contains(p)
            }) by {
        if p.3 < nodes.len() {
            assert(nodes.push(n)[p.3 as int] == nodes[p.3 as int]);
        }
    }
}

impl KeyspaceState {
    /// Replaces node `idx` (same id) by `node`, moving its label bucket and
    /// postings.
    fn replace_node(&mut self, idx: usize, node: Node)
        requires
            old(self).wf(),
            idx < old(self).nodes().len(),
            node.props.wf(),
            node.id@ == old(self).nodes()[idx as int].id@,
        ensures
            final(self).wf(),
            final(self).nodes() == old(self).nodes().update(idx as int, node),
            final(self).edges() == old(self).edges(),
            final(self).edge_labels == old(self).edge_labels,
            final(self).index_spec == old(self).index_spec,
            final(self).ingest_warnings == old(self).ingest_warnings,
            final(self).recorded_contentions == old(self).recorded_contentions,
            final(self).suppressed_contentions == old(self).suppressed_contentions,
    {
        let ghost pre = *self;
        proof {
            assert(graph_nodes(self.graph)[idx as int] is Some);
        }
        let existing = match graph_node(&self.graph, idx) {
            Some(e) => e,
            None => {
                proof {
                    assert(false);
                }
                return;
            },
        };
        proof {
            assert(*existing == pre.nodes()[idx as int]);
            assert(existing.props.wf());
        }
        let before = compute_index_entries(&self.index_spec, existing);
        let old_label = existing.label.clone();
        if !(old_label == node.label) {
            proof {
                assert(self.by_label.has(pre.nodes()[idx as int].label@));
            }
            label_bucket_remove(&mut self.by_label, &old_label, idx);
            label_bucket_insert(&mut self.by_label, &node.label, idx);
        }
        let after = compute_index_entries(&self.index_spec, &node);
        let ghost n = node;
        graph_set_node(&mut self.graph, idx, node);
        reconcile_index_entries(&mut self.by_prop, idx, &before, &after);
        proof {
            let ns = pre.nodes().update(idx as int, n);
            assert(self.nodes() =~= ns);
            assert(graph_edges(self.graph) == graph_edges(pre.graph));
            assert(self.edges() =~= pre.edges());
            // ids
            assert forall|i: int| 0 <= i < ns.len() implies id_map_entries(self.id_to_idx).contains_key(#[trigger] self.nodes()[i].id@)
                && id_map_entries(self.id_to_idx)[self.nodes()[i].id@] == i by {
                assert(pre.nodes()[i].id@ == self.nodes()[i].id@);
            }
            assert forall|k: Seq<char>| #[trigger] id_map_entries(self.id_to_idx).contains_key(k) implies
                id_map_entries(self.id_to_idx)[k] < ns.len() && self.nodes()[id_map_entries(self.id_to_idx)[k] as int].id@ == k by {
                let j = id_map_entries(pre.id_to_idx)[k] as int;
                assert(pre.nodes()[j].id@ == self.nodes()[j].id@);
            }
            assert forall|i: int| 0 <= i < graph_nodes(self.graph).len() implies #[trigger] graph_nodes(self.graph)[i] is Some by {
                assert(graph_nodes(pre.graph)[i] is Some);
            }
            assert forall|i: int| 0 <= i < graph_nodes(self.graph).len() implies (#[trigger] self.nodes()[i]).props.wf() by {
                if i != idx {
                    assert(pre.nodes()[i].props.wf());
                }
            }
            // labels
            assert forall|i: int| 0 <= i < ns.len() implies self.by_label.has(#[trigger] self.nodes()[i].label@) by {
                if i != idx {
                    assert(pre.by_label.has(pre.nodes()[i].label@));
                }
            }
            assert forall|l: Seq<char>| #[trigger] self.by_label.has(l) implies self.by_label.lookup(l).unwrap().wf()
                && key_set(self.by_label.lookup(l).unwrap()) == self.label_members(l) by {
                assert forall|q: usize| q != idx implies #[trigger] self.label_members(l).contains(q) == pre.label_members(l).contains(q) by {
                    if q < ns.len() {
                        assert(self.nodes()[q as int] == pre.nodes()[q as int]);
                    }
                }
                assert(self.label_members(l).contains(idx) == (n.label@ == l));
                assert(pre.label_members(l).contains(idx) == (pre.nodes()[idx as int].label@ == l));
                if pre.by_label.has(l) {
                    assert(key_set(self.by_label.lookup(l).unwrap()) =~= self.label_members(l));
                } else {
                    assert forall|q: usize| !(#[trigger] pre.label_members(l).contains(q)) by {
                        if q < pre.nodes().len() && pre.nodes()[q as int].label@ == l {
                            assert(pre.by_label.has(pre.nodes()[q as int].label@));
                        }
                    }
                    assert(key_set(self.by_label.lookup(l).unwrap()) =~= self.label_members(l));
                }
            }
            // postings
            lemma_postings_update(pre.index_spec.entries@, pre.nodes(), idx as int, n);
            assert forall|p: (Seq<char>, Seq<char>, Seq<char>, usize)| #[trigger] key_set(self.by_prop).contains(p) ==
                postings_of(self.index_spec.entries@, self.nodes()).contains(p) by {
                if p.3 == idx {
                    let t = (p.0, p.1, p.2);
                    assert(key_set(pre.by_prop).contains(p) == node_keys(pre.index_spec.entries@, pre.nodes()[idx as int]).contains(t));
                }
            }
            assert(key_set(self.by_prop) =~= postings_of(self.index_spec.entries@, self.nodes()));
            assert forall|j: int| 0 <= j < graph_edges(self.graph).len() implies #[trigger] graph_edges(self.graph)[j] is Some by {
                assert(graph_edges(pre.graph)[j] is Some);
            }
            assert forall|j: int| 0 <= j < graph_edges(self.graph).len() implies (#[trigger] self.edges()[j]).0 < ns.len() && self.edges()[j].1 < ns.len() by {
                assert(pre.edges()[j] == self.edges()[j]);
            }
            assert forall|l: Seq<char>| #[trigger] self.edge_labels.has(l) <==> exists|j: int| 0 <= j < graph_edges(self.graph).len() && #[trigger] self.edges()[j].2.label@ == l by {
                assert(pre.edge_labels.has(l) <==> exists|j: int| 0 <= j < graph_edges(pre.graph).len() && #[trigger] pre.edges()[j].2.label@ == l);
            }
        }
    }
}

} // verus!

verus! {

impl KeyspaceState {
    /// Adds `node`, whose id is new, at the next index.
    fn add_new_node(&mut self, node: Node)
        requires
            old(self).wf(),
            node.props.wf(),
            !id_map_entries(old(self).id_to_idx).contains_key(node.id@),
            old(self).nodes().len() + 1 < 0xffff_ffff,
        ensures
            final(self).wf(),
            final(self).nodes() == old(self).nodes().push(node),
            final(self).edges() == old(self).edges(),
            final(self).edge_labels == old(self).edge_labels,
            final(self).index_spec == old(self).index_spec,
            final(self).ingest_warnings == old(self).ingest_warnings,
            final(self).recorded_contentions == old(self).recorded_contentions,
            final(self).suppressed_contentions == old(self).suppressed_contentions,
    {
        let ghost pre = *self;
        let entries = compute_index_entries(&self.index_spec, &node);
        let id = node.id.clone();
        let label = node.label.clone();
        let ghost n = node;
        let idx = graph_add_node(&mut self.graph, node);
        proof {
            if idx < graph_nodes(pre.graph).len() {
                assert(graph_nodes(pre.graph)[idx as int] is Some);
            }
            assert(idx == pre.nodes().len());
            assert(self.nodes() =~= pre.nodes().push(n));
        }
        id_map_insert(&mut self.id_to_idx, id, idx);
        label_bucket_insert(&mut self.by_label, &label, idx);
        let ghost mid = *self;
        let mut k: usize = 0;
        while k < entries.len()
            invariant
                k <= entries@.len(),
                self.graph == mid.graph,
                self.id_to_idx == mid.id_to_idx,
                self.by_label == mid.by_label,
                self.edge_labels == mid.edge_labels,
                self.ingest_warnings == mid.ingest_warnings,
                self.recorded_contentions == mid.recorded_contentions,
                self.suppressed_contentions == mid.suppressed_contentions,
                self.index_spec == mid.index_spec,
                self.indexed_pairs == mid.indexed_pairs,
                self.by_prop.wf(),
                forall|p: (Seq<char>, Seq<char>, Seq<char>, usize)| #[trigger] key_set(self.by_prop).contains(p) <==> (
                    key_set(pre.by_prop).contains(p) || (p.3 == idx && kseq(entries@.take(k as int)).contains((p.0, p.1, p.2)))),
            decreases entries@.len() - k,
        {
            proof {
                assert(entries@.take(k + 1) =~= entries@.take(k as int).push(entries@[k as int]));
                assert(kseq(entries@.take(k + 1)) =~= kseq(entries@.take(k as int)).push(entries@[k as int].kv()));
                crate::elems::lemma_push_contains(kseq(entries@.take(k as int)), entries@[k as int].kv());
            }
            insert_posting(&mut self.by_prop, &entries[k], idx);
            k = k + 1;
        }
        proof {
            assert(entries@.take(k as int) =~= entries@);
            let ns = pre.nodes().push(n);
            assert(graph_edges(self.graph) == graph_edges(pre.graph));
            assert(self.edges() =~= pre.edges());
            // ids
            assert forall|i: int| 0 <= i < ns.len() implies id_map_entries(self.id_to_idx).contains_key(#[trigger] self.nodes()[i].id@)
                && id_map_entries(self.id_to_idx)[self.nodes()[i].id@] == i by {
                if i < pre.nodes().len() {
                    assert(self.nodes()[i] == pre.nodes()[i]);
                    assert(id_map_entries(pre.id_to_idx).contains_key(pre.nodes()[i].id@));
                    assert(pre.nodes()[i].id@ != n.id@);
                }
            }
            assert forall|q: Seq<char>| #[trigger] id_map_entries(self.id_to_idx).contains_key(q) implies
                id_map_entries(self.id_to_idx)[q] < ns.len() && self.nodes()[id_map_entries(self.id_to_idx)[q] as int].id@ == q by {
                if q != n.id@ {
                    let j = id_map_entries(pre.id_to_idx)[q] as int;
                    assert(self.nodes()[j] == pre.nodes()[j]);
                }
            }
            assert forall|i: int| 0 <= i < graph_nodes(self.graph).len() implies #[trigger] graph_nodes(self.graph)[i] is Some by {
                if i < pre.nodes().len() {
                    assert(graph_nodes(pre.graph)[i] is Some);
                }
            }
            assert forall|i: int| 0 <= i < graph_nodes(self.graph).len() implies (#[trigger] self.nodes()[i]).props.wf() by {
                if i < pre.nodes().len() {
                    assert(self.nodes()[i] == pre.nodes()[i]);
                }
            }
            // labels
            assert forall|i: int| 0 <= i < ns.len() implies self.by_label.has(#[trigger] self.nodes()[i].label@) by {
                if i < pre.nodes().len() {
                    assert(self.nodes()[i] == pre.nodes()[i]);
                    assert(pre.by_label.has(pre.nodes()[i].label@));
                }
            }
            assert forall|l: Seq<char>| #[trigger] self.by_label.has(l) implies self.by_label.lookup(l).unwrap().wf()
                && key_set(self.by_label.lookup(l).unwrap()) == self.label_members(l) by {
                assert forall|q: usize| q != idx implies #[trigger] self.label_members(l).contains(q) == pre.label_members(l).contains(q) by {
                    if q < pre.nodes().len() {
                        assert(self.nodes()[q as int] == pre.nodes()[q as int]);
                    }
                }
                assert(self.label_members(l).contains(idx) == (n.label@ == l));
                assert(!pre.label_members(l).contains(idx));
                if pre.by_label.has(l) {
                    assert(key_set(self.by_label.lookup(l).unwrap()) =~= self.label_members(l));
                } else {
                    assert forall|q: usize| !(#[trigger] pre.label_members(l).contains(q)) by {
                        if q < pre.nodes().len() && pre.nodes()[q as int].label@ == l {
                            assert(pre.by_label.has(pre.nodes()[q as int].label@));
                        }
                    }
                    assert(key_set(self.by_label.lookup(l).unwrap()) =~= self.label_members(l));
                }
            }
            // postings
            lemma_postings_push(pre.index_spec.entries@, pre.nodes(), n);
            assert forall|p: (Seq<char>, Seq<char>, Seq<char>, usize)| #[trigger] key_set(self.by_prop).contains(p) ==
                postings_of(self.index_spec.entries@, self.nodes()).contains(p) by {
                if p.3 == idx {
                    assert(!key_set(pre.by_prop).contains(p));
                }
            }
            assert(key_set(self.by_prop) =~= postings_of(self.index_spec.entries@, self.nodes()));
            assert forall|j: int| 0 <= j < graph_edges(self.graph).len() implies #[trigger] graph_edges(self.graph)[j] is Some by {
                assert(graph_edges(pre.graph)[j] is Some);
            }
            assert forall|j: int| 0 <= j < graph_edges(self.graph).len() implies (#[trigger] self.edges()[j]).0 < ns.len() && self.edges()[j].1 < ns.len() by {
                assert(pre.edges()[j] == self.edges()[j]);
            }
            assert forall|l: Seq<char>| #[trigger] self.edge_labels.has(l) <==> exists|j: int| 0 <= j < graph_edges(self.graph).len() && #[trigger] self.edges()[j].2.label@ == l by {
                assert(pre.edge_labels.has(l) <==> exists|j: int| 0 <= j < graph_edges(pre.graph).len() && #[trigger] pre.edges()[j].2.label@ == l);
            }
        }
    }
}

} // verus!

verus! {

/// Whether some node of `ns` has id `id`.
pub open spec fn has_id(ns: Seq<Node>, id: Seq<char>) -> bool {
    exists|i: int| 0 <= i < ns.len() && #[trigger] ns[i].id@ == id
}

/// The index of the node with id `id` (meaningful when `has_id`).
pub open spec fn id_index(ns: Seq<Node>, id: Seq<char>) -> int {
    choose|i: int| 0 <= i < ns.len() && #[trigger] ns[i].id@ == id
}

/// Node ids are pairwise distinct.
pub open spec fn unique_ids(ns: Seq<Node>) -> bool {
    forall|i: int, j: int| 0 <= i < j < ns.len() ==> #[trigger] ns[i].id@ != #[trigger] ns[j].id@
}

/// Ingesting one node: it replaces the node with the same id, or is
/// appended.
pub open spec fn apply_node(ns: Seq<Node>, n: Node) -> Seq<Node> {
    if has_id(ns, n.id@) {
        ns.update(id_index(ns, n.id@), n)
    } else {
        ns.push(n)
    }
}

/// Ingesting a sequence of nodes, in order.
pub open spec fn apply_nodes(ns: Seq<Node>, incoming: Seq<Node>) -> Seq<Node>
    decreases incoming.len(),
{
    if incoming.len() == 0 {
        ns
    } else {
        apply_node(apply_nodes(ns, incoming.drop_last()), incoming.last())
    }
}

pub proof fn lemma_id_index_unique(ns: Seq<Node>, i: int)
    requires
        unique_ids(ns),
        0 <= i < ns.len(),
    ensures
        has_id(ns, ns[i].id@),
        id_index(ns, ns[i].id@) == i,
{
    let id = ns[i].id@;
    assert(has_id(ns, id));
    let j = id_index(ns, id);
    if j < i {
        assert(ns[j].id@ != ns[i].id@);
    } else if j > i {
        assert(ns[i].id@ != ns[j].id@);
    }
}

impl KeyspaceState {
    pub proof fn lemma_unique_ids(&self)
        requires
            self.wf(),
        ensures
            unique_ids(self.nodes()),
    {
        assert forall|i: int, j: int| 0 <= i < j < self.nodes().len() implies #[trigger] self.nodes()[i].id@ != #[trigger] self.nodes()[j].id@ by {
            assert(id_map_entries(self.id_to_idx)[self.nodes()[i].id@] == i);
            assert(id_map_entries(self.id_to_idx)[self.nodes()[j].id@] == j);
        }
    }

    /// Ingests one node: a new id is appended; a known id has its node
    /// replaced (with its label bucket and postings moved), after the
    /// re-ingest is checked for an identity contention.
    pub fn ingest_one_node(&mut self, node: Node)
        requires
            old(self).wf(),
            node.props.wf(),
            old(self).nodes().len() + 1 < 0xffff_ffff,
        ensures
            final(self).wf(),
            final(self).nodes() == apply_node(old(self).nodes(), node),
            final(self).edges() == old(self).edges(),
            final(self).edge_labels == old(self).edge_labels,
            final(self).index_spec == old(self).index_spec,
            has_id(old(self).nodes(), node.id@) ==> contention_recorded(*old(self), *final(self),
                old(self).nodes()[id_index(old(self).nodes(), node.id@)], node),
            !has_id(old(self).nodes(), node.id@) ==> final(self).ingest_warnings == old(self).ingest_warnings
                && final(self).recorded_contentions == old(self).recorded_contentions
                && final(self).suppressed_contentions == old(self).suppressed_contentions,
    {
        let ghost pre = *self;
        proof {
            self.lemma_unique_ids();
        }
        match id_map_get(&self.id_to_idx, node.id.as_str()) {
            Some(idx) => {
                proof {
                    lemma_id_index_unique(pre.nodes(), idx as int);
                }
                self.record_contention(idx, &node);
                let ghost mid = *self;
                proof {
                    assert(mid.nodes() == pre.nodes());
                }
                self.replace_node(idx, node);
            },
            None => {
                proof {
                    if has_id(pre.nodes(), node.id@) {
                        let i = id_index(pre.nodes(), node.id@);
                        assert(id_map_entries(pre.id_to_idx).contains_key(pre.nodes()[i].id@));
                    }
                }
                self.add_new_node(node);
            },
        }
    }

    /// Ingests nodes in order.
    pub fn ingest_nodes(&mut self, nodes: Vec<Node>)
        requires
            old(self).wf(),
            forall|i: int| 0 <= i < nodes@.len() ==> (#[trigger] nodes@[i]).props.wf(),
            old(self).nodes().len() + nodes@.len() + 1 < 0xffff_ffff,
        ensures
            final(self).wf(),
            final(self).nodes() == apply_nodes(old(self).nodes(), nodes@),
            final(self).edges() == old(self).edges(),
            final(self).index_spec == old(self).index_spec,
            final(self).ingest_warnings@.len() >= old(self).ingest_warnings@.len(),
            final(self).ingest_warnings@.take(old(self).ingest_warnings@.len() as int) == old(self).ingest_warnings@,
            forall|k: int| old(self).ingest_warnings@.len() <= k < final(self).ingest_warnings@.len() ==>
                (#[trigger] final(self).ingest_warnings@[k]).kind == WarningKind::IdentityContention,
    {
        let ghost pre = *self;
        let mut i: usize = 0;
        proof {
            assert(nodes@.take(0) =~= Seq::<Node>::empty());
            assert(pre.ingest_warnings@.take(pre.ingest_warnings@.len() as int) =~= pre.ingest_warnings@);
        }
        let mut rest = nodes;
        let ghost all = rest@;
        // Taken from the back, so reverse first to keep the input order.
        let mut pending: Vec<Node> = Vec::new();
        while rest.len() > 0
            invariant
                pending@.len() + rest@.len() == all.len(),
                rest@ == all.take(rest@.len() as int),
                forall|k: int| 0 <= k < pending@.len() ==> #[trigger] pending@[k] == all[all.len() - 1 - k],
            decreases rest@.len(),
        {
            let n = rest.pop().unwrap();
            pending.push(n);
            proof {
                assert(rest@ =~= all.take(rest@.len() as int));
            }
        }
        while pending.len() > 0
            invariant
                i <= all.len(),
                pending@.len() + i == all.len(),
                forall|k: int| 0 <= k < pending@.len() ==> #[trigger] pending@[k] == all[all.len() - 1 - k],
                forall|k: int| 0 <= k < all.len() ==> (#[trigger] all[k]).props.wf(),
                pre.nodes().len() + all.len() + 1 < 0xffff_ffff,
                self.wf(),
                self.nodes() == apply_nodes(pre.nodes(), all.take(i as int)),
                self.nodes().len() <= pre.nodes().len() + i,
                self.edges() == pre.edges(),
                self.index_spec == pre.index_spec,
                self.ingest_warnings@.len() >= pre.ingest_warnings@.len(),
                self.ingest_warnings@.take(pre.ingest_warnings@.len() as int) == pre.ingest_warnings@,
                forall|k: int| pre.ingest_warnings@.len() <= k < self.ingest_warnings@.len() ==>
                    (#[trigger] self.ingest_warnings@[k]).kind == WarningKind::IdentityContention,
            decreases pending@.len(),
        {
            let n = pending.pop().unwrap();
            let ghost before = *self;
            proof {
                assert(n == all[i as int]);
                assert(all.take(i + 1).drop_last() =~= all.take(i as int));
                assert(all.take(i + 1).last() == all[i as int]);
            }
            self.ingest_one_node(n);
            proof {
                assert(self.ingest_warnings@.take(pre.ingest_warnings@.len() as int) =~= pre.ingest_warnings@) by {
                    if self.ingest_warnings@.len() > before.ingest_warnings@.len() {
                        assert(self.ingest_warnings@.drop_last() == before.ingest_warnings@);
                        assert(self.ingest_warnings@.take(pre.ingest_warnings@.len() as int) =~= before.ingest_warnings@.take(pre.ingest_warnings@.len() as int));
                    }
                }
                assert forall|k: int| pre.ingest_warnings@.len() <= k < self.ingest_warnings@.len() implies
                    (#[trigger] self.ingest_warnings@[k]).kind == WarningKind::IdentityContention by {
                    if self.ingest_warnings@.len() > before.ingest_warnings@.len() && k < before.ingest_warnings@.len() {
                        assert(self.ingest_warnings@.drop_last()[k] == before.ingest_warnings@[k]);
                    }
                }
            }
            i = i + 1;
        }
        proof {
            assert(all.take(i as int) =~= all);
        }
    }
}

} // verus!

verus! {

/// The warning text for an edge whose `end` (`src` or `dst`) id is unknown.
pub open spec fn dropped_edge_message(e: Edge, end: Seq<char>) -> Seq<char> {
    "edge "@ + e.src@ + " -["@ + e.label@ + "]-> "@ + e.dst@ + ": unknown "@ + end + " id, edge skipped"@
}

/// Both ends of `e` name nodes of `ns`.
pub open spec fn edge_applies(ns: Seq<Node>, e: Edge) -> bool {
    has_id(ns, e.src@) && has_id(ns, e.dst@)
}

/// The edges that ingesting `es` into a graph with nodes `ns` adds, with
/// their endpoint indexes: those whose both ends are known.
pub open spec fn applied_edges(ns: Seq<Node>, es: Seq<Edge>) -> Seq<(usize, usize, Edge)>
    decreases es.len(),
{
    if es.len() == 0 {
        Seq::empty()
    } else {
        let rest = applied_edges(ns, es.drop_last());
        let e = es.last();
        if edge_applies(ns, e) {
            rest.push((id_index(ns, e.src@) as usize, id_index(ns, e.dst@) as usize, e))
        } else {
            rest
        }
    }
}

/// The end a skipped edge is reported for: `src` when its source is
/// unknown, else `dst`.
pub open spec fn dropped_end(ns: Seq<Node>, e: Edge) -> Seq<char> {
    if has_id(ns, e.src@) {
        "dst"@
    } else {
        "src"@
    }
}

/// The warnings that ingesting `es` into a graph with nodes `ns` gives:
/// one per skipped edge, in order.
pub open spec fn dropped_messages(ns: Seq<Node>, es: Seq<Edge>) -> Seq<Seq<char>>
    decreases es.len(),
{
    if es.len() == 0 {
        Seq::empty()
    } else {
        let rest = dropped_messages(ns, es.drop_last());
        let e = es.last();
        if edge_applies(ns, e) {
            rest
        } else {
            rest.push(dropped_edge_message(e, dropped_end(ns, e)))
        }
    }
}

fn dropped_edge_warning(e: &Edge, end: &str) -> (w: Warning)
    ensures
        w.kind == WarningKind::EmptyResult,
        w.message@ == dropped_edge_message(*e, end@),
        w.suggestion is None,
{
    let mut m = String::new();
    crate::text::push_str(&mut m, "edge ");
    crate::text::push_str(&mut m, e.src.as_str());
    crate::text::push_str(&mut m, " -[");
    crate::text::push_str(&mut m, e.label.as_str());
    crate::text::push_str(&mut m, "]-> ");
    crate::text::push_str(&mut m, e.dst.as_str());
    crate::text::push_str(&mut m, ": unknown ");
    crate::text::push_str(&mut m, end);
    crate::text::push_str(&mut m, " id, edge skipped");
    Warning { kind: WarningKind::EmptyResult, message: m, suggestion: None }
}

impl KeyspaceState {
    /// Ingests one edge between known node ids; an edge naming an unknown
    /// id is skipped with an `EmptyResult` warning.
    pub fn ingest_one_edge(&mut self, edge: Edge)
        requires
            old(self).wf(),
            old(self).edges().len() + 1 < 0xffff_ffff,
        ensures
            final(self).wf(),
            final(self).nodes() == old(self).nodes(),
            final(self).index_spec == old(self).index_spec,
            final(self).recorded_contentions == old(self).recorded_contentions,
            final(self).suppressed_contentions == old(self).suppressed_contentions,
            (has_id(old(self).nodes(), edge.src@) && has_id(old(self).nodes(), edge.dst@)) ==> {
                &&& final(self).edges() == old(self).edges().push((
                    id_index(old(self).nodes(), edge.src@) as usize,
                    id_index(old(self).nodes(), edge.dst@) as usize,
                    edge,
                ))
                &&& final(self).ingest_warnings == old(self).ingest_warnings
            },
            !(has_id(old(self).nodes(), edge.src@) && has_id(old(self).nodes(), edge.dst@)) ==> {
                &&& final(self).edges() == old(self).edges()
                &&& final(self).ingest_warnings@.len() == old(self).ingest_warnings@.len() + 1
                &&& final(self).ingest_warnings@.drop_last() == old(self).ingest_warnings@
                &&& final(self).ingest_warnings@.last().kind == WarningKind::EmptyResult
                &&& final(self).ingest_warnings@.last().suggestion is None
                &&& final(self).ingest_warnings@.last().message@ == dropped_edge_message(edge,
                    if has_id(old(self).nodes(), edge.src@) { "dst"@ } else { "src"@ })
            },
    {
        let ghost pre = *self;
        proof {
            self.lemma_unique_ids();
            if has_id(pre.nodes(), edge.src@) {
                let i = id_index(pre.nodes(), edge.src@);
                assert(id_map_entries(pre.id_to_idx).contains_key(pre.nodes()[i].id@));
            }
            if has_id(pre.nodes(), edge.dst@) {
                let i = id_index(pre.nodes(), edge.dst@);
                assert(id_map_entries(pre.id_to_idx).contains_key(pre.nodes()[i].id@));
            }
        }
        let src_idx = match id_map_get(&self.id_to_idx, edge.src.as_str()) {
            Some(i) => i,
            None => {
                let w = dropped_edge_warning(&edge, "src");
                self.ingest_warnings.push(w);
                proof {
                    lemma_wf_same_content(pre, *self);
                    assert(self.ingest_warnings@.drop_last() =~= pre.ingest_warnings@);
                }
                return;
            },
        };
        let dst_idx = match id_map_get(&self.id_to_idx, edge.dst.as_str()) {
            Some(i) => i,
            None => {
                let w = dropped_edge_warning(&edge, "dst");
                self.ingest_warnings.push(w);
                proof {
                    lemma_wf_same_content(pre, *self);
                    assert(self.ingest_warnings@.drop_last() =~= pre.ingest_warnings@);
                    lemma_id_index_unique(pre.nodes(), src_idx as int);
                }
                return;
            },
        };
        proof {
            lemma_id_index_unique(pre.nodes(), src_idx as int);
            lemma_id_index_unique(pre.nodes(), dst_idx as int);
            assert(graph_nodes(self.graph)[src_idx as int] is Some);
            assert(graph_nodes(self.graph)[dst_idx as int] is Some);
        }
        let lbl = edge.label.clone();
        let ghost e = edge;
        let ghost el_pre = self.edge_labels;
        self.edge_labels.insert(lbl, ());
        let eidx = graph_add_edge(&mut self.graph, src_idx, dst_idx, edge);
        proof {
            if eidx < graph_edges(pre.graph).len() {
                assert(graph_edges(pre.graph)[eidx as int] is Some);
            }
            assert(self.edges() =~= pre.edges().push((src_idx, dst_idx, e)));
            assert(self.nodes() =~= pre.nodes());
            let es = graph_edges(self.graph);
            assert forall|j: int| 0 <= j < es.len() implies #[trigger] es[j] is Some by {
                if j < graph_edges(pre.graph).len() {
                    assert(graph_edges(pre.graph)[j] is Some);
                }
            }
            assert forall|j: int| 0 <= j < es.len() implies (#[trigger] self.edges()[j]).0 < self.nodes().len() && self.edges()[j].1 < self.nodes().len() by {
                if j < graph_edges(pre.graph).len() {
                    assert(self.edges()[j] == pre.edges()[j]);
                }
            }
            assert forall|l: Seq<char>| #[trigger] self.edge_labels.has(l) <==> exists|j: int| 0 <= j < es.len() && #[trigger] self.edges()[j].2.label@ == l by {
                assert(pre.edge_labels.has(l) <==> exists|j: int| 0 <= j < graph_edges(pre.graph).len() && #[trigger] pre.edges()[j].2.label@ == l);
                let n0 = graph_edges(pre.graph).len();
                assert(es.len() == n0 + 1);
                assert(self.edges().len() == es.len());
                if l != e.label@ {
                    assert(self.edge_labels.has(l) == el_pre.has(l));
                    assert(el_pre == pre.edge_labels);
                    if exists|j: int| 0 <= j < es.len() && #[trigger] self.edges()[j].2.label@ == l {
                        let j = choose|j: int| 0 <= j < es.len() && #[trigger] self.edges()[j].2.label@ == l;
                        assert(self.edges()[n0 as int].2 == e);
                        assert(j < n0);
                        assert(pre.edges()[j] == self.edges()[j]);
                        assert(pre.edges()[j].2.label@ == l);
                    }
                    if exists|j: int| 0 <= j < n0 && #[trigger] pre.edges()[j].2.label@ == l {
                        let j = choose|j: int| 0 <= j < n0 && #[trigger] pre.edges()[j].2.label@ == l;
                        assert(pre.edges()[j] == self.edges()[j]);
                        assert(self.edges()[j].2.label@ == l);
                    }
                } else {
                    assert(lbl@ == e.label@);
                    assert(self.edge_labels.has(l));
                    assert(self.edges()[es.len() - 1].2.label@ == l);
                }
            }
            assert forall|i: int| 0 <= i < graph_nodes(self.graph).len() implies #[trigger] graph_nodes(self.graph)[i] is Some by {
                assert(graph_nodes(pre.graph)[i] is Some);
            }
            assert forall|l: Seq<char>| #[trigger] self.by_label.has(l) implies self.by_label.lookup(l).unwrap().wf()
                && key_set(self.by_label.lookup(l).unwrap()) == self.label_members(l) by {
                assert(pre.label_members(l) == self.label_members(l));
            }
        }
    }

    /// Ingests edges in order; an edge naming an unknown node id is
    /// skipped with an `EmptyResult` warning.
    pub fn ingest_edges(&mut self, edges: Vec<Edge>)
        requires
            old(self).wf(),
            old(self).edges().len() + edges@.len() + 1 < 0xffff_ffff,
        ensures
            final(self).wf(),
            final(self).nodes() == old(self).nodes(),
            final(self).index_spec == old(self).index_spec,
            final(self).recorded_contentions == old(self).recorded_contentions,
            final(self).suppressed_contentions == old(self).suppressed_contentions,
            final(self).edges() == old(self).edges() + applied_edges(old(self).nodes(), edges@),
            final(self).ingest_warnings@.len() == old(self).ingest_warnings@.len() + dropped_messages(old(self).nodes(), edges@).len(),
            final(self).ingest_warnings@.take(old(self).ingest_warnings@.len() as int) == old(self).ingest_warnings@,
            forall|k: int| old(self).ingest_warnings@.len() <= k < final(self).ingest_warnings@.len() ==> {
                &&& (#[trigger] final(self).ingest_warnings@[k]).kind == WarningKind::EmptyResult
                &&& final(self).ingest_warnings@[k].suggestion is None
                &&& final(self).ingest_warnings@[k].message@ == dropped_messages(old(self).nodes(), edges@)[k - old(self).ingest_warnings@.len()]
            },
    {
        let ghost pre = *self;
        let mut rest = edges;
        let ghost all = rest@;
        let mut pending: Vec<Edge> = Vec::new();
        while rest.len() > 0
            invariant
                pending@.len() + rest@.len() == all.len(),
                rest@ == all.take(rest@.len() as int),
                forall|k: int| 0 <= k < pending@.len() ==> #[trigger] pending@[k] == all[all.len() - 1 - k],
            decreases rest@.len(),
        {
            let e = rest.pop().unwrap();
            pending.push(e);
            proof {
                assert(rest@ =~= all.take(rest@.len() as int));
            }
        }
        proof {
            assert(all.take(0) =~= Seq::<Edge>::empty());
            assert(pre.edges() + applied_edges(pre.nodes(), all.take(0)) =~= pre.edges());
            assert(pre.ingest_warnings@.take(pre.ingest_warnings@.len() as int) =~= pre.ingest_warnings@);
        }
        let mut i: usize = 0;
        while pending.len() > 0
            invariant
                i <= all.len(),
                pending@.len() + i == all.len(),
                forall|k: int| 0 <= k < pending@.len() ==> #[trigger] pending@[k] == all[all.len() - 1 - k],
                pre.edges().len() + all.len() + 1 < 0xffff_ffff,
                self.wf(),
                self.nodes() == pre.nodes(),
                self.index_spec == pre.index_spec,
                self.recorded_contentions == pre.recorded_contentions,
                self.suppressed_contentions == pre.suppressed_contentions,
                self.edges() == pre.edges() + applied_edges(pre.nodes(), all.take(i as int)),
                applied_edges(pre.nodes(), all.take(i as int)).len() <= i,
                self.ingest_warnings@.len() == pre.ingest_warnings@.len() + dropped_messages(pre.nodes(), all.take(i as int)).len(),
                self.ingest_warnings@.take(pre.ingest_warnings@.len() as int) == pre.ingest_warnings@,
                forall|k: int| pre.ingest_warnings@.len() <= k < self.ingest_warnings@.len() ==> {
                    &&& (#[trigger] self.ingest_warnings@[k]).kind == WarningKind::EmptyResult
                    &&& self.ingest_warnings@[k].suggestion is None
                    &&& self.ingest_warnings@[k].message@ == dropped_messages(pre.nodes(), all.take(i as int))[k - pre.ingest_warnings@.len()]
                },
            decreases pending@.len(),
        {
            let e = pending.pop().unwrap();
            let ghost before = *self;
            proof {
                assert(e == all[i as int]);
                assert(all.take(i + 1).drop_last() =~= all.take(i as int));
                assert(all.take(i + 1).last() == all[i as int]);
            }
            self.ingest_one_edge(e);
            proof {
                let ws = self.ingest_warnings@;
                let n0 = pre.ingest_warnings@.len();
                if edge_applies(pre.nodes(), e) {
                    assert(self.edges() =~= pre.edges() + applied_edges(pre.nodes(), all.take(i + 1)));
                } else {
                    assert(self.edges() =~= pre.edges() + applied_edges(pre.nodes(), all.take(i + 1)));
                    assert(ws.take(n0 as int) =~= before.ingest_warnings@.take(n0 as int)) by {
                        assert forall|k: int| 0 <= k < n0 implies ws[k] == before.ingest_warnings@[k] by {
                            assert(ws.drop_last()[k] == ws[k]);
                        }
                    }
                    assert forall|k: int| n0 <= k < ws.len() implies {
                        &&& (#[trigger] ws[k]).kind == WarningKind::EmptyResult
                        &&& ws[k].suggestion is None
                        &&& ws[k].message@ == dropped_messages(pre.nodes(), all.take(i + 1))[k - n0]
                    } by {
                        if k < ws.len() - 1 {
                            assert(ws.drop_last()[k] == ws[k]);
                            assert(before.ingest_warnings@[k] == ws[k]);
                        }
                    }
                }
            }
            i = i + 1;
        }
        proof {
            assert(all.take(i as int) =~= all);
        }
    }
}

} // verus!

verus! {

/// The summary row for contentions past the cap.
pub open spec fn suppressed_message(n: nat) -> Seq<char> {
    "and "@ + crate::fact::decimal(n) + " further identity contention(s) suppressed (cap "@
        + crate::fact::decimal(CONTENTION_WARNING_CAP as nat) + ")"@
}

/// Whether `v` is strictly increasing.
pub open spec fn increasing(v: Seq<usize>) -> bool {
    forall|a: int, b: int| 0 <= a < b < v.len() ==> v[a] < v[b]
}

impl KeyspaceState {
    /// The number of nodes.
    pub fn node_count(&self) -> (r: usize)
        requires
            self.wf(),
        ensures
            r == self.nodes().len(),
    {
        proof {
            assert forall|k: Seq<char>| #[trigger] id_map_entries(self.id_to_idx).contains_key(k) implies
                id_map_entries(self.id_to_idx)[k] < graph_nodes(self.graph).len() by {
            }
        }
        let mut n: usize = 0;
        // Count the occupied prefix of node slots.
        while n < 0xffff_fffe && graph_node(&self.graph, n).is_some()
            invariant
                self.wf(),
                n <= self.nodes().len(),
            decreases 0xffff_fffe - n,
        {
            n = n + 1;
        }
        proof {
            if n < self.nodes().len() {
                assert(graph_nodes(self.graph)[n as int] is Some);
            }
        }
        n
    }

    /// Node `i`.
    pub fn node(&self, i: usize) -> (r: &Node)
        requires
            self.wf(),
            i < self.nodes().len(),
        ensures
            *r == self.nodes()[i as int],
    {
        proof {
            assert(graph_nodes(self.graph)[i as int] is Some);
        }
        graph_node(&self.graph, i).unwrap()
    }

    /// The indexes of the nodes labelled `label`, ascending.
    pub fn nodes_with_label(&self, label: &String) -> (r: Vec<usize>)
        requires
            self.wf(),
        ensures
            increasing(r@),
            forall|i: usize| #[trigger] r@.contains(i) <==> self.label_members(label@).contains(i),
    {
        match self.by_label.get(label) {
            None => {
                proof {
                    assert forall|i: usize| !#[trigger] self.label_members(label@).contains(i) by {
                        if i < self.nodes().len() && self.nodes()[i as int].label@ == label@ {
                            assert(self.by_label.has(self.nodes()[i as int].label@));
                        }
                    }
                }
                Vec::new()
            },
            Some(bucket) => {
                proof {
                    assert(self.by_label.has(label@));
                }
                let mut out: Vec<usize> = Vec::new();
                let mut k: usize = 0;
                while k < bucket.entries.len()
                    invariant
                        k <= bucket.entries@.len(),
                        bucket.wf(),
                        out@.len() == k,
                        forall|a: int| 0 <= a < k ==> #[trigger] out@[a] == bucket.entries@[a].0,
                    decreases bucket.entries@.len() - k,
                {
                    out.push(bucket.entries[k].0);
                    k = k + 1;
                }
                proof {
                    assert forall|a: int, b: int| 0 <= a < b < out@.len() implies out@[a] < out@[b] by {
                        assert(usize::key_lt(bucket.entries@[a].0.kv(), bucket.entries@[b].0.kv()));
                    }
                    assert forall|i: usize| #[trigger] out@.contains(i) <==> self.label_members(label@).contains(i) by {
                        assert(key_set(*bucket).contains(i) == bucket.has(i));
                        if bucket.has(i) {
                            let j = choose|j: int| 0 <= j < bucket.entries@.len() && #[trigger] bucket.entries@[j].0.kv() == i;
                            assert(out@[j] == i);
                        }
                        if out@.contains(i) {
                            let j = choose|j: int| 0 <= j < out@.len() && out@[j] == i;
                            assert(bucket.entries@[j].0.kv() == i);
                        }
                    }
                }
                out
            },
        }
    }

    /// Whether some node ever carried `label`.
    pub fn has_label(&self, label: &String) -> (r: bool)
        requires
            self.wf(),
        ensures
            r == self.by_label.has(label@),
            self.label_members(label@).len() > 0 ==> r,
    {
        proof {
            if self.label_members(label@).len() > 0 {
                let i = self.label_members(label@).choose();
                if !self.label_members(label@).contains(i) {
                    assert(self.label_members(label@) =~= Set::<usize>::empty());
                }
                assert(self.by_label.has(self.nodes()[i as int].label@));
            }
        }
        self.by_label.contains_key(label)
    }

    /// Whether some ingested edge carries `label`.
    pub fn has_edge_label(&self, label: &String) -> (r: bool)
        requires
            self.wf(),
        ensures
            r == exists|j: int| 0 <= j < self.edges().len() && #[trigger] self.edges()[j].2.label@ == label@,
    {
        self.edge_labels.contains_key(label)
    }

    /// The ingest diagnostics, with one summary row appended when
    /// contentions past the cap were suppressed.
    pub fn materialized_ingest_warnings(&self) -> (r: Vec<Warning>)
        ensures
            r@.len() == self.ingest_warnings@.len() + (if self.suppressed_contentions > 0 { 1int } else { 0int }),
            forall|k: int| 0 <= k < self.ingest_warnings@.len() ==> #[trigger] r@[k].kind == self.ingest_warnings@[k].kind
                && r@[k].message@ == self.ingest_warnings@[k].message@
                && r@[k].suggestion is Some == self.ingest_warnings@[k].suggestion is Some
                && (r@[k].suggestion is Some ==> r@[k].suggestion->0@ == self.ingest_warnings@[k].suggestion->0@),
            self.suppressed_contentions > 0 ==> {
                &&& r@.last().kind == WarningKind::IdentityContention
                &&& r@.last().message@ == suppressed_message(self.suppressed_contentions as nat)
                &&& r@.last().suggestion is None
            },
    {
        let mut out: Vec<Warning> = Vec::new();
        let mut k: usize = 0;
        while k < self.ingest_warnings.len()
            invariant
                k <= self.ingest_warnings@.len(),
                out@.len() == k,
                forall|a: int| 0 <= a < k ==> #[trigger] out@[a].kind == self.ingest_warnings@[a].kind
                    && out@[a].message@ == self.ingest_warnings@[a].message@
                    && out@[a].suggestion is Some == self.ingest_warnings@[a].suggestion is Some
                    && (out@[a].suggestion is Some ==> out@[a].suggestion->0@ == self.ingest_warnings@[a].suggestion->0@),
            decreases self.ingest_warnings@.len() - k,
        {
            out.push(self.ingest_warnings[k].duplicate());
            k = k + 1;
        }
        if self.suppressed_contentions > 0 {
            let mut m = String::new();
            crate::text::push_str(&mut m, "and ");
            crate::fact::push_decimal(&mut m, self.suppressed_contentions as u64);
            crate::text::push_str(&mut m, " further identity contention(s) suppressed (cap ");
            crate::fact::push_decimal(&mut m, CONTENTION_WARNING_CAP as u64);
            crate::text::push_str(&mut m, ")");
            out.push(Warning { kind: WarningKind::IdentityContention, message: m, suggestion: None });
        }
        out
    }
}

} // verus!

verus! {

/// Whether `v` lists node indexes whose ids strictly increase.
pub open spec fn ascending_ids(nodes: Seq<Node>, v: Seq<usize>) -> bool {
    forall|a: int, b: int| 0 <= a < b < v.len() ==> crate::order::lex_lt(nodes[v[a] as int].id@, #[trigger] nodes[v[b] as int].id@)
        && #[trigger] v[a] < nodes.len()
}

impl KeyspaceState {
    /// The number of edges.
    pub fn edge_count(&self) -> (r: usize)
        requires
            self.wf(),
        ensures
            r == self.edges().len(),
    {
        let mut n: usize = 0;
        // Count the occupied prefix of edge slots.
        while n < 0xffff_fffe && crate::graph_api::graph_edge_weight(&self.graph, n).is_some()
            invariant
                self.wf(),
                n <= self.edges().len(),
            decreases 0xffff_fffe - n,
        {
            n = n + 1;
        }
        proof {
            if n < self.edges().len() {
                assert(graph_edges(self.graph)[n as int] is Some);
            }
        }
        n
    }

    /// Edge `j`.
    pub fn edge(&self, j: usize) -> (r: &Edge)
        requires
            self.wf(),
            j < self.edges().len(),
        ensures
            *r == self.edges()[j as int].2,
    {
        proof {
            assert(graph_edges(self.graph)[j as int] is Some);
        }
        crate::graph_api::graph_edge_weight(&self.graph, j).unwrap()
    }

    /// The source and target node indexes of edge `j`.
    pub fn edge_endpoints(&self, j: usize) -> (r: (usize, usize))
        requires
            self.wf(),
            j < self.edges().len(),
        ensures
            r.0 == self.edges()[j as int].0,
            r.1 == self.edges()[j as int].1,
    {
        proof {
            assert(graph_edges(self.graph)[j as int] is Some);
        }
        crate::graph_api::graph_edge_endpoints(&self.graph, j).unwrap()
    }

    /// Every node index, ordered by node id.
    pub fn all_nodes_sorted(&self) -> (r: Vec<usize>)
        requires
            self.wf(),
        ensures
            ascending_ids(self.nodes(), r@),
            forall|i: usize| #[trigger] r@.contains(i) <==> i < self.nodes().len(),
    {
        proof {
            self.lemma_unique_ids();
        }
        let n = self.node_count();
        let ghost ns = self.nodes();
        let mut by_id: SortedMap<String, usize> = SortedMap::new();
        let mut i: usize = 0;
        while i < n
            invariant
                i <= n,
                n == ns.len(),
                ns == self.nodes(),
                self.wf(),
                unique_ids(ns),
                by_id.wf(),
                forall|k: Seq<char>| #[trigger] by_id.has(k) ==> exists|x: int| 0 <= x < i && by_id.lookup(k) == Some(x as usize)
                    && #[trigger] ns[x].id@ == k,
                forall|x: int| 0 <= x < i ==> by_id.has(#[trigger] ns[x].id@) && by_id.lookup(ns[x].id@) == Some(x as usize),
            decreases n - i,
        {
            let id = self.node(i).id.clone();
            let ghost before = by_id;
            by_id.insert(id, i);
            proof {
                assert forall|x: int| 0 <= x < i + 1 implies by_id.has(#[trigger] ns[x].id@) && by_id.lookup(ns[x].id@) == Some(x as usize) by {
                    if x < i {
                        assert(ns[x].id@ != ns[i as int].id@);
                    }
                }
                assert forall|k: Seq<char>| #[trigger] by_id.has(k) implies exists|x: int| 0 <= x < i + 1 && by_id.lookup(k) == Some(x as usize)
                    && #[trigger] ns[x].id@ == k by {
                    if k != ns[i as int].id@ {
                        assert(before.has(k));
                        let x = choose|x: int| 0 <= x < i && before.lookup(k) == Some(x as usize) && #[trigger] ns[x].id@ == k;
                        assert(by_id.lookup(k) == Some(x as usize));
                    } else {
                        assert(by_id.lookup(k) == Some(i));
                    }
                }
            }
            i = i + 1;
        }
        let mut out: Vec<usize> = Vec::new();
        let mut j: usize = 0;
        while j < by_id.entries.len()
            invariant
                j <= by_id.entries@.len(),
                n == ns.len(),
                by_id.wf(),
                out@.len() == j,
                forall|a: int| 0 <= a < j ==> #[trigger] out@[a] == by_id.entries@[a].1,
            decreases by_id.entries@.len() - j,
        {
            out.push(by_id.entries[j].1);
            j = j + 1;
        }
        proof {
            let es = by_id.entries@;
            assert forall|e: int| 0 <= e < es.len() implies (#[trigger] es[e]).1 < ns.len() && ns[es[e].1 as int].id@ == es[e].0@ by {
                by_id.lemma_lookup_at(e);
                let x = choose|x: int| 0 <= x < n && by_id.lookup(es[e].0@) == Some(x as usize) && #[trigger] ns[x].id@ == es[e].0@;
            }
            assert forall|a: int, b: int| 0 <= a < b < out@.len() implies crate::order::lex_lt(ns[out@[a] as int].id@, #[trigger] ns[out@[b] as int].id@)
                && #[trigger] out@[a] < ns.len() by {
                assert(es[a].1 < ns.len());
                assert(es[b].1 < ns.len());
                assert(String::key_lt(es[a].0.kv(), es[b].0.kv()));
            }
            assert forall|i: usize| #[trigger] out@.contains(i) <==> i < ns.len() by {
                if out@.contains(i) {
                    let a = choose|a: int| 0 <= a < out@.len() && out@[a] == i;
                    assert(es[a].1 < ns.len());
                }
                if i < ns.len() {
                    assert(by_id.has(ns[i as int].id@));
                    let e = choose|e: int| 0 <= e < es.len() && #[trigger] es[e].0.kv() == ns[i as int].id@;
                    by_id.lemma_lookup_at(e);
                    assert(out@[e] == i);
                }
            }
        }
        out
    }
}

} // verus!

verus! {

/// Ingesting a node keeps node ids pairwise distinct.
pub proof fn lemma_apply_node_unique(ns: Seq<Node>, n: Node)
    requires
        unique_ids(ns),
    ensures
        unique_ids(apply_node(ns, n)),
{
    let r = apply_node(ns, n);
    if has_id(ns, n.id@) {
        let x = id_index(ns, n.id@);
        assert forall|i: int, j: int| 0 <= i < j < r.len() implies #[trigger] r[i].id@ != #[trigger] r[j].id@ by {
            assert(r[i].id@ == ns[i].id@);
            assert(r[j].id@ == ns[j].id@);
        }
    } else {
        assert forall|i: int, j: int| 0 <= i < j < r.len() implies #[trigger] r[i].id@ != #[trigger] r[j].id@ by {
            if j == ns.len() {
                assert(ns[i].id@ != n.id@);
            }
        }
    }
}

/// After ingesting `n`, its id is present and holds `n`.
pub proof fn lemma_apply_node_holds(ns: Seq<Node>, n: Node)
    requires
        unique_ids(ns),
    ensures
        has_id(apply_node(ns, n), n.id@),
        apply_node(ns, n)[id_index(apply_node(ns, n), n.id@)] == n,
{
    lemma_apply_node_unique(ns, n);
    let r = apply_node(ns, n);
    let pos = if has_id(ns, n.id@) { id_index(ns, n.id@) } else { ns.len() as int };
    assert(r[pos] == n);
    lemma_id_index_unique(r, pos);
}

/// Ingesting `n` leaves every other id where it was, with its node.
pub proof fn lemma_apply_node_keeps(ns: Seq<Node>, n: Node, id: Seq<char>)
    requires
        unique_ids(ns),
        id != n.id@,
    ensures
        has_id(apply_node(ns, n), id) == has_id(ns, id),
        has_id(ns, id) ==> apply_node(ns, n)[id_index(apply_node(ns, n), id)] == ns[id_index(ns, id)],
{
    lemma_apply_node_unique(ns, n);
    let r = apply_node(ns, n);
    if has_id(ns, id) {
        let x = id_index(ns, id);
        assert(r[x] == ns[x]);
        lemma_id_index_unique(r, x);
    }
    if has_id(r, id) {
        let y = id_index(r, id);
        assert(y < ns.len());
        assert(r[y].id@ == ns[y].id@);
    }
}

/// Ingesting nodes keeps node ids pairwise distinct.
pub proof fn lemma_apply_nodes_unique(ns: Seq<Node>, incoming: Seq<Node>)
    requires
        unique_ids(ns),
    ensures
        unique_ids(apply_nodes(ns, incoming)),
    decreases incoming.len(),
{
    if incoming.len() > 0 {
        lemma_apply_nodes_unique(ns, incoming.drop_last());
        lemma_apply_node_unique(apply_nodes(ns, incoming.drop_last()), incoming.last());
    }
}

/// Last write wins: after ingesting `incoming`, the id of `incoming[i]`
/// is present and holds `incoming[i]`, when no later node of the batch has
/// that id.
pub proof fn lemma_ingest_last_write_wins(ns: Seq<Node>, incoming: Seq<Node>, i: int)
    requires
        unique_ids(ns),
        0 <= i < incoming.len(),
        forall|j: int| i < j < incoming.len() ==> (#[trigger] incoming[j]).id@ != incoming[i].id@,
    ensures
        has_id(apply_nodes(ns, incoming), incoming[i].id@),
        apply_nodes(ns, incoming)[id_index(apply_nodes(ns, incoming), incoming[i].id@)] == incoming[i],
    decreases incoming.len(),
{
    let pre = incoming.drop_last();
    lemma_apply_nodes_unique(ns, pre);
    let mid = apply_nodes(ns, pre);
    if i == incoming.len() - 1 {
        lemma_apply_node_holds(mid, incoming.last());
    } else {
        assert forall|j: int| i < j < pre.len() implies (#[trigger] pre[j]).id@ != pre[i].id@ by {
            assert(pre[j] == incoming[j]);
        }
        lemma_ingest_last_write_wins(ns, pre, i);
        assert(pre[i] == incoming[i]);
        lemma_apply_node_keeps(mid, incoming.last(), incoming[i].id@);
    }
}

/// Nothing is lost: an id present before ingesting is present after, and
/// keeps its node when the batch does not name it.
pub proof fn lemma_ingest_keeps_other_ids(ns: Seq<Node>, incoming: Seq<Node>, id: Seq<char>)
    requires
        unique_ids(ns),
        has_id(ns, id),
    ensures
        has_id(apply_nodes(ns, incoming), id),
        (forall|j: int| 0 <= j < incoming.len() ==> (#[trigger] incoming[j]).id@ != id)
            ==> apply_nodes(ns, incoming)[id_index(apply_nodes(ns, incoming), id)] == ns[id_index(ns, id)],
    decreases incoming.len(),
{
    if incoming.len() > 0 {
        let pre = incoming.drop_last();
        lemma_ingest_keeps_other_ids(ns, pre, id);
        lemma_apply_nodes_unique(ns, pre);
        let mid = apply_nodes(ns, pre);
        if incoming.last().id@ != id {
            lemma_apply_node_keeps(mid, incoming.last(), id);
            if forall|j: int| 0 <= j < incoming.len() ==> (#[trigger] incoming[j]).id@ != id {
                assert forall|j: int| 0 <= j < pre.len() implies (#[trigger] pre[j]).id@ != id by {
                    assert(pre[j] == incoming[j]);
                }
            }
        } else {
            lemma_apply_node_holds(mid, incoming.last());
            assert(incoming[incoming.len() - 1].id@ == id);
        }
    }
}

/// Re-ingesting a node identical to the stored one is never a contention,
/// unless a property is a NaN double (a NaN equals nothing, itself
/// included).
pub proof fn lemma_identical_reingest_is_silent(n: Node)
    requires
        forall|i: int| 0 <= i < props_view(n.props).len() ==> !is_nan_value(#[trigger] props_view(n.props)[i].1),
    ensures
        !is_contention(n, n),
{
    assert forall|i: int| 0 <= i < props_view(n.props).len() implies #[trigger] entry_eq(props_view(n.props)[i], props_view(n.props)[i]) by {
        assert(!is_nan_value(props_view(n.props)[i].1));
    }
    match file_prop(n) {
        Some(a) => {
            reveal_strlit("file");
            let j = choose|j: int| 0 <= j < n.props.entries@.len() && #[trigger] n.props.entries@[j].0.kv() == "file"@;
            assert(props_view(n.props)[j].1 == a);
            assert(!is_nan_value(props_view(n.props)[j].1));
        },
        None => {},
    }
}

} // verus!

verus! {

/// `post` is `pre` with property `k` set to `v`: the same id and label, and
/// the same value under every other property.
pub open spec fn prop_written(pre: Node, post: Node, k: Seq<char>, v: PropView) -> bool {
    &&& post.id@ == pre.id@
    &&& post.label@ == pre.label@
    &&& post.props.wf()
    &&& prop_of(post.props, k) == Some(v)
    &&& forall|q: Seq<char>| q != k ==> #[trigger] prop_of(post.props, q) == prop_of(pre.props, q)
}

impl KeyspaceState {
    /// Sets property `key` of node `idx` to `value`; the label bucket and
    /// the posting lists follow the new value.
    pub fn set_prop(&mut self, idx: usize, key: &str, value: PropValue)
        requires
            old(self).wf(),
            idx < old(self).nodes().len(),
        ensures
            final(self).wf(),
            final(self).nodes().len() == old(self).nodes().len(),
            prop_written(old(self).nodes()[idx as int], final(self).nodes()[idx as int], key@, value.pv()),
            forall|j: int| 0 <= j < old(self).nodes().len() && j != idx ==> #[trigger] final(self).nodes()[j] == old(self).nodes()[j],
            final(self).edges() == old(self).edges(),
            final(self).edge_labels == old(self).edge_labels,
            final(self).index_spec == old(self).index_spec,
            final(self).ingest_warnings == old(self).ingest_warnings,
            final(self).recorded_contentions == old(self).recorded_contentions,
            final(self).suppressed_contentions == old(self).suppressed_contentions,
    {
        let n = self.node(idx).duplicate();
        let n = n.with_prop(key, value);
        self.replace_node(idx, n);
    }
}

} // verus!
