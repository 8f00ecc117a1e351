//! Declared concepts: a `:Concept` node per declared context, `LABELED_AS`
//! edges from the items of each assigned crate, and `CANONICAL_FOR`
//! edges from the items of each context's canonical crate.
use vstd::prelude::*;

use crate::clause::{lemma_sorted_entries, sorted_entries, by_name, holds_entries};
use crate::fact::{get_prop, prop_of, props_view, Edge, Node, PropValue, PropView};
use crate::graph::{applied_edges, apply_nodes, KeyspaceState};
use crate::order::lex_lt;
use crate::rfc_docs::{EnrichReport, ITEM_LABEL};
use crate::sorted::{Keyed, SortedMap};
use crate::text::{push_str, str_eq};

verus! {

/// The verb of the concepts pass.
pub const CONCEPTS_VERB: &'static str = "enrich_concepts";
/// The label of concept nodes.
pub const CONCEPT_LABEL: &'static str = "Concept";
/// The label of the edge from an item to the concept its crate is assigned.
pub const LABELED_AS_LABEL: &'static str = "LABELED_AS";
/// The label of the edge from an item of a canonical crate to its concept.
pub const CANONICAL_FOR_LABEL: &'static str = "CANONICAL_FOR";
/// Who assigned the declared concepts.
pub const ASSIGNED_BY_MANUAL: &'static str = "manual";

/// A declared context: its name, and the crate that is canonical for it.
#[derive(Debug)]
pub struct ContextMeta {
    pub name: String,
    pub canonical_crate: Option<String>,
}

/// The declared contexts, by name, and the context each listed crate is
/// assigned to, by crate.
#[derive(Debug)]
pub struct ConceptOverrides {
    pub declared: SortedMap<String, ContextMeta>,
    pub crate_assignments: SortedMap<String, ContextMeta>,
}

/// The id of the `:Concept` node named `name`: `concept:<name>`.
pub fn concept_node_id(name: &str) -> (r: String)
    ensures
        r@ == "concept:"@ + name@,
{
    let mut out = String::new();
    push_str(&mut out, "concept:");
    push_str(&mut out, name);
    out
}

/// The crate an item node names, if it is a string.
pub open spec fn crate_of(n: Node) -> Option<Seq<char>> {
    match prop_of(n.props, "crate"@) {
        Some(PropView::Str(c)) => Some(c),
        _ => None,
    }
}

/// The ids of the items of crate `c` among the first `n` nodes, by index.
pub open spec fn crate_items_upto(st: KeyspaceState, c: Seq<char>, n: nat) -> Seq<Seq<char>>
    decreases n,
{
    if n == 0 {
        Seq::empty()
    } else {
        let r = crate_items_upto(st, c, (n - 1) as nat);
        let x = st.nodes()[n - 1];
        if x.label@ == ITEM_LABEL@ && crate_of(x) == Some(c) {
            r.push(x.id@)
        } else {
            r
        }
    }
}

/// The ids of the items of crate `c`, by index.
pub open spec fn crate_items(st: KeyspaceState, c: Seq<char>) -> Seq<Seq<char>> {
    crate_items_upto(st, c, st.nodes().len())
}

/// The abstract content of a context: name and canonical crate.
pub open spec fn meta_view(m: ContextMeta) -> (Seq<char>, Option<Seq<char>>) {
    (m.name@, match m.canonical_crate {
        Some(c) => Some(c@),
        None => None,
    })
}

/// The crate assignments: `(crate, context name, canonical crate)`, by
/// crate.
pub open spec fn assignments(ov: ConceptOverrides) -> Seq<(Seq<char>, Seq<char>, Option<Seq<char>>)> {
    ov.crate_assignments.entries@.map_values(|e: (String, ContextMeta)| (e.0@, meta_view(e.1).0, meta_view(e.1).1))
}

/// An edge `(source id, target id, label)` from each of `ids` to the
/// concept named `concept`.
pub open spec fn edges_to(ids: Seq<Seq<char>>, concept: Seq<char>, label: Seq<char>) -> Seq<(Seq<char>, Seq<char>, Seq<char>)> {
    ids.map_values(|id: Seq<char>| (id, "concept:"@ + concept, label))
}

/// The `LABELED_AS` edges of the assignments: for each in turn, from the
/// items of its crate to its context.
pub open spec fn labeled_edges(st: KeyspaceState, a: Seq<(Seq<char>, Seq<char>, Option<Seq<char>>)>) -> Seq<(Seq<char>, Seq<char>, Seq<char>)>
    decreases a.len(),
{
    if a.len() == 0 {
        Seq::empty()
    } else {
        labeled_edges(st, a.drop_last()) + edges_to(crate_items(st, a.last().0), a.last().1, LABELED_AS_LABEL@)
    }
}

/// The canonical crate of each context: the first one an assignment to it
/// names.
pub open spec fn canonical_map(a: Seq<(Seq<char>, Seq<char>, Option<Seq<char>>)>) -> Map<Seq<char>, Seq<char>>
    decreases a.len(),
{
    if a.len() == 0 {
        Map::empty()
    } else {
        let m = canonical_map(a.drop_last());
        match a.last().2 {
            Some(c) => if m.contains_key(a.last().1) { m } else { m.insert(a.last().1, c) },
            None => m,
        }
    }
}

/// The `CANONICAL_FOR` edges: for each `(context, canonical crate)` in
/// turn, from the items of the crate to the context.
pub open spec fn canonical_edges(st: KeyspaceState, s: Seq<(Seq<char>, Seq<char>)>) -> Seq<(Seq<char>, Seq<char>, Seq<char>)>
    decreases s.len(),
{
    if s.len() == 0 {
        Seq::empty()
    } else {
        canonical_edges(st, s.drop_last()) + edges_to(crate_items(st, s.last().1), s.last().0, CANONICAL_FOR_LABEL@)
    }
}

/// The edges the concepts pass adds: `LABELED_AS` ones, then
/// `CANONICAL_FOR` ones by context name.
pub open spec fn concept_edges(st: KeyspaceState, ov: ConceptOverrides) -> Seq<(Seq<char>, Seq<char>, Seq<char>)> {
    labeled_edges(st, assignments(ov)) + canonical_edges(st, sorted_entries(canonical_map(assignments(ov))))
}

/// The abstract content of edges: source, target and label.
pub open spec fn edge_views(es: Seq<Edge>) -> Seq<(Seq<char>, Seq<char>, Seq<char>)> {
    es.map_values(|e: Edge| (e.src@, e.dst@, e.label@))
}

/// Whether `n` is the `:Concept` node of the context named `name`.
pub open spec fn is_concept_node(n: Node, name: Seq<char>) -> bool {
    &&& n.id@ == "concept:"@ + name
    &&& n.label@ == CONCEPT_LABEL@
    &&& n.props.wf()
    &&& props_view(n.props) == seq![("assigned_by"@, PropView::Str(ASSIGNED_BY_MANUAL@)), ("name"@, PropView::Str(name))]
}

/// The ids of the items of crate `c`, by index.
fn items_in_crate(st: &KeyspaceState, c: &String) -> (r: Vec<String>)
    requires
        st.wf(),
    ensures
        r@.map_values(|s: String| s@) == crate_items(*st, c@),
{
    let n = st.node_count();
    let mut out: Vec<String> = Vec::new();
    let mut i: usize = 0;
    while i < n
        invariant
            st.wf(),
            n == st.nodes().len(),
            i <= n,
            out@.map_values(|s: String| s@) == crate_items_upto(*st, c@, i as nat),
        decreases n - i,
    {
        let x = st.node(i);
        proof {
            assert(x.props.wf());
            reveal_strlit("crate");
        }
        let in_crate = str_eq(x.label.as_str(), ITEM_LABEL) && match get_prop(&x.props, "crate") {
            Some(PropValue::Str(k)) => *k == *c,
            _ => false,
        };
        if in_crate {
            let ghost before = out@.map_values(|s: String| s@);
            out.push(x.id.clone());
            proof {
                assert(out@.map_values(|s: String| s@) =~= before.push(x.id@));
            }
        }
        i = i + 1;
    }
    out
}

/// Appends an edge from each of `ids` to the concept named `concept`.
fn push_edges_to(out: &mut Vec<Edge>, ids: &Vec<String>, concept: &String, label: &str)
    requires
        forall|k: int| 0 <= k < old(out)@.len() ==> (#[trigger] old(out)@[k]).props.wf(),
    ensures
        edge_views(final(out)@) == edge_views(old(out)@) + edges_to(ids@.map_values(|s: String| s@), concept@, label@),
        forall|k: int| 0 <= k < final(out)@.len() ==> (#[trigger] final(out)@[k]).props.wf(),
{
    let ghost start = edge_views(out@);
    let ghost idv = ids@.map_values(|s: String| s@);
    let mut k: usize = 0;
    while k < ids.len()
        invariant
            k <= ids@.len(),
            idv == ids@.map_values(|s: String| s@),
            edge_views(out@) == start + edges_to(idv.take(k as int), concept@, label@),
            forall|q: int| 0 <= q < out@.len() ==> (#[trigger] out@[q]).props.wf(),
        decreases ids@.len() - k,
    {
        let dst = concept_node_id(concept.as_str());
        let e = Edge { src: ids[k].clone(), dst, label: label.to_owned(), props: SortedMap::new() };
        let ghost before = edge_views(out@);
        out.push(e);
        proof {
            assert(idv.take(k + 1) =~= idv.take(k as int).push(idv[k as int]));
            assert(edges_to(idv.take(k + 1), concept@, label@) =~= edges_to(idv.take(k as int), concept@, label@).push((idv[k as int], "concept:"@ + concept@, label@)));
            assert(edge_views(out@) =~= before.push((ids@[k as int]@, "concept:"@ + concept@, label@)));
        }
        k = k + 1;
    }
    proof {
        assert(idv.take(k as int) =~= idv);
    }
}

/// The canonical crate of each context, by context name.
fn canonical_crates(ov: &ConceptOverrides) -> (r: SortedMap<String, String>)
    requires
        ov.crate_assignments.wf(),
    ensures
        r.wf(),
        r.entries@.map_values(|e: (String, String)| (e.0@, e.1@)) == sorted_entries(canonical_map(assignments(*ov))),
{
    let mut out: SortedMap<String, String> = SortedMap::new();
    let ghost a = assignments(*ov);
    let mut k: usize = 0;
    while k < ov.crate_assignments.entries.len()
        invariant
            k <= ov.crate_assignments.entries@.len(),
            a == assignments(*ov),
            out.wf(),
            forall|q: Seq<char>| #[trigger] out.has(q) == canonical_map(a.take(k as int)).contains_key(q),
            forall|q: Seq<char>| out.has(q) ==> (#[trigger] out.lookup(q)).unwrap()@ == canonical_map(a.take(k as int))[q],
        decreases ov.crate_assignments.entries@.len() - k,
    {
        let meta = &ov.crate_assignments.entries[k].1;
        proof {
            assert(a.take(k + 1).drop_last() =~= a.take(k as int));
            assert(a.take(k + 1).last() == a[k as int]);
        }
        match &meta.canonical_crate {
            Some(c) => {
                if !out.contains_key(&meta.name) {
                    out.insert(meta.name.clone(), c.clone());
                }
            },
            None => {},
        }
        k = k + 1;
    }
    proof {
        assert(a.take(k as int) =~= a);
        let m = canonical_map(a);
        let s = out.entries@.map_values(|e: (String, String)| (e.0@, e.1@));
        assert(by_name(s)) by {
            assert forall|x: int, y: int| 0 <= x < y < s.len() implies #[trigger] lex_lt(s[x].0, s[y].0) by {
                assert(String::key_lt(out.entries@[x].0.kv(), out.entries@[y].0.kv()));
            }
        }
        assert(holds_entries(s, m)) by {
            assert forall|e: (Seq<char>, Seq<char>)| #[trigger] s.contains(e) <==> (m.contains_key(e.0) && m[e.0] == e.1) by {
                if s.contains(e) {
                    let i = choose|i: int| 0 <= i < s.len() && s[i] == e;
                    out.lemma_lookup_at(i);
                }
                if m.contains_key(e.0) && m[e.0] == e.1 {
                    assert(out.has(e.0));
                    let i = choose|i: int| 0 <= i < out.entries@.len() && #[trigger] out.entries@[i].0.kv() == e.0;
                    out.lemma_lookup_at(i);
                    assert(s[i] == e);
                }
            }
        }
        lemma_sorted_entries(s, m);
    }
    out
}

/// The `:Concept` node of the context named `name`.
fn build_one_concept_node(name: &String) -> (r: Node)
    ensures
        is_concept_node(r, name@),
{
    let mut props: SortedMap<String, PropValue> = SortedMap::new();
    props.insert("name".to_owned(), PropValue::Str(name.clone()));
    props.insert("assigned_by".to_owned(), PropValue::Str(ASSIGNED_BY_MANUAL.to_owned()));
    proof {
        reveal_strlit("name");
        reveal_strlit("assigned_by");
        assert(lex_lt("assigned_by"@, "name"@)) by {
            assert("assigned_by"@[0] == 'a');
            assert("name"@[0] == 'n');
        }
        let pv = props_view(props);
        assert(props.entries@.len() == 2);
        assert(props.has("assigned_by"@) && props.has("name"@));
        let i0 = choose|i: int| 0 <= i < props.entries@.len() && #[trigger] props.entries@[i].0.kv() == "assigned_by"@;
        let i1 = choose|i: int| 0 <= i < props.entries@.len() && #[trigger] props.entries@[i].0.kv() == "name"@;
        props.lemma_lookup_at(i0);
        props.lemma_lookup_at(i1);
        if i0 == 1 {
            assert(String::key_lt(props.entries@[0].0.kv(), props.entries@[1].0.kv()));
            crate::order::lemma_lex_asymmetric("assigned_by"@, "name"@);
        }
        assert(i0 == 0 && i1 == 1);
        assert(pv =~= seq![("assigned_by"@, PropView::Str(ASSIGNED_BY_MANUAL@)), ("name"@, PropView::Str(name@))]);
    }
    Node { id: concept_node_id(name.as_str()), label: CONCEPT_LABEL.to_owned(), props }
}

/// The edges the concepts pass adds.
fn build_edges(st: &KeyspaceState, ov: &ConceptOverrides) -> (r: Vec<Edge>)
    requires
        st.wf(),
        ov.crate_assignments.wf(),
    ensures
        edge_views(r@) == concept_edges(*st, *ov),
        forall|k: int| 0 <= k < r@.len() ==> (#[trigger] r@[k]).props.wf(),
{
    let mut out: Vec<Edge> = Vec::new();
    let ghost a = assignments(*ov);
    let mut k: usize = 0;
    proof {
        assert(edge_views(out@) =~= labeled_edges(*st, a.take(0)));
    }
    while k < ov.crate_assignments.entries.len()
        invariant
            st.wf(),
            k <= ov.crate_assignments.entries@.len(),
            a == assignments(*ov),
            edge_views(out@) == labeled_edges(*st, a.take(k as int)),
            forall|q: int| 0 <= q < out@.len() ==> (#[trigger] out@[q]).props.wf(),
        decreases ov.crate_assignments.entries@.len() - k,
    {
        let (c, meta) = (&ov.crate_assignments.entries[k].0, &ov.crate_assignments.entries[k].1);
        let ids = items_in_crate(st, c);
        push_edges_to(&mut out, &ids, &meta.name, LABELED_AS_LABEL);
        proof {
            assert(a.take(k + 1).drop_last() =~= a.take(k as int));
            assert(a.take(k + 1).last() == a[k as int]);
        }
        k = k + 1;
    }
    proof {
        assert(a.take(k as int) =~= a);
    }
    let ghost lab = edge_views(out@);
    let canon = canonical_crates(ov);
    let ghost cs = canon.entries@.map_values(|e: (String, String)| (e.0@, e.1@));
    let mut j: usize = 0;
    proof {
        assert(edge_views(out@) =~= lab + canonical_edges(*st, cs.take(0)));
    }
    while j < canon.entries.len()
        invariant
            st.wf(),
            j <= canon.entries@.len(),
            cs == canon.entries@.map_values(|e: (String, String)| (e.0@, e.1@)),
            edge_views(out@) == lab + canonical_edges(*st, cs.take(j as int)),
            forall|q: int| 0 <= q < out@.len() ==> (#[trigger] out@[q]).props.wf(),
        decreases canon.entries@.len() - j,
    {
        let ids = items_in_crate(st, &canon.entries[j].1);
        push_edges_to(&mut out, &ids, &canon.entries[j].0, CANONICAL_FOR_LABEL);
        proof {
            assert(cs.take(j + 1).drop_last() =~= cs.take(j as int));
            assert(cs.take(j + 1).last() == cs[j as int]);
        }
        j = j + 1;
    }
    proof {
        assert(cs.take(j as int) =~= cs);
    }
    out
}

/// The concepts pass on one keyspace, given the declared contexts (or why
/// they could not be read). A reading failure is reported with the pass
/// not run; without declared contexts nothing is written; otherwise a
/// `:Concept` node per declared context is ingested, then the edges of
/// `concept_edges`, computed over the keyspace as it was.
pub fn enrich_concepts_state(st: &mut KeyspaceState, overrides: Result<ConceptOverrides, String>) -> (r: EnrichReport)
    requires
        old(st).wf(),
        overrides matches Ok(ov) ==> {
            &&& ov.declared.wf()
            &&& ov.crate_assignments.wf()
            &&& old(st).nodes().len() + ov.declared.entries@.len() + 1 < 0xffff_ffff
            &&& old(st).edges().len() + concept_edges(*old(st), ov).len() + 1 < 0xffff_ffff
        },
    ensures
        final(st).wf(),
        r.verb@ == CONCEPTS_VERB@,
        match overrides {
            Err(m) => {
                &&& *final(st) == *old(st)
                &&& !r.ran
                &&& r.facts_scanned == 0 && r.attrs_written == 0 && r.edges_written == 0
                &&& r.warnings@ == seq![m]
            },
            Ok(ov) => {
                &&& r.ran
                &&& r.warnings@.len() == 0
                &&& r.facts_scanned == ov.declared.entries@.len()
                &&& (ov.declared.entries@.len() == 0 ==> *final(st) == *old(st) && r.attrs_written == 0 && r.edges_written == 0)
                &&& (ov.declared.entries@.len() > 0 ==> exists|ns: Seq<Node>, es: Seq<Edge>| {
                    &&& ns.len() == ov.declared.entries@.len()
                    &&& (forall|k: int| 0 <= k < ns.len() ==> is_concept_node(#[trigger] ns[k], ov.declared.entries@[k].1.name@))
                    &&& edge_views(es) == concept_edges(*old(st), ov)
                    &&& final(st).nodes() == apply_nodes(old(st).nodes(), ns)
                    &&& final(st).edges() == old(st).edges() + applied_edges(final(st).nodes(), es)
                    &&& r.attrs_written == 2 * ns.len()
                    &&& r.edges_written == es.len()
                })
            },
        },
{
    let ov = match overrides {
        Ok(ov) => ov,
        Err(m) => {
            return EnrichReport {
                verb: CONCEPTS_VERB.to_owned(),
                ran: false,
                facts_scanned: 0,
                attrs_written: 0,
                edges_written: 0,
                warnings: vec![m],
            };
        },
    };
    let n = ov.declared.entries.len();
    if n == 0 {
        return EnrichReport {
            verb: CONCEPTS_VERB.to_owned(),
            ran: true,
            facts_scanned: 0,
            attrs_written: 0,
            edges_written: 0,
            warnings: Vec::new(),
        };
    }
    let ghost st0 = *st;
    let edges = build_edges(st, &ov);
    let mut nodes: Vec<Node> = Vec::new();
    let mut k: usize = 0;
    while k < n
        invariant
            n == ov.declared.entries@.len(),
            k <= n,
            nodes@.len() == k,
            forall|q: int| 0 <= q < k ==> is_concept_node(#[trigger] nodes@[q], ov.declared.entries@[q].1.name@),
        decreases n - k,
    {
        nodes.push(build_one_concept_node(&ov.declared.entries[k].1.name));
        k = k + 1;
    }
    let ghost ns = nodes@;
    let ghost es = edges@;
    let attrs: u64 = 2 * (n as u64);
    let edges_written = edges.len() as u64;
    st.ingest_nodes(nodes);
    st.ingest_edges(edges);
    proof {
        assert(ns.len() == n);
    }
    EnrichReport {
        verb: CONCEPTS_VERB.to_owned(),
        ran: true,
        facts_scanned: n as u64,
        attrs_written: attrs,
        edges_written,
        warnings: Vec::new(),
    }
}

} // verus!
