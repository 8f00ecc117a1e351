//! Re-enrichment of `:Item.bounded_context`: given the context each crate
//! is expected to belong to, patch the items whose stored context differs.
use vstd::prelude::*;

use crate::concepts::{crate_of, ConceptOverrides};
use crate::fact::{get_prop, prop_of, Node, PropValue, PropView};
use crate::graph::{prop_written, KeyspaceState};
use crate::reachability::{labelled, lemma_labelled};
use crate::rfc_docs::{prop_text, EnrichReport, ITEM_LABEL};
use crate::sorted::{Keyed, SortedMap};
use crate::text::str_eq;

verus! {

/// The verb of the bounded-context pass.
pub const BOUNDED_CONTEXT_VERB: &'static str = "enrich_bounded_context";
/// The property the pass patches.
pub const BOUNDED_CONTEXT_ATTR: &'static str = "bounded_context";
/// The warning of a keyspace without items.
pub const NO_BC_ITEMS_WARNING: &'static str = "enrich_bounded_context: no :Item nodes in keyspace — nothing to enrich";

/// The context node `n` must be patched to: for an item whose crate has
/// an expected context that differs from its stored one (an absent or
/// non-string `bounded_context` reads as empty).
pub open spec fn patch_for(n: Node, expected: Map<Seq<char>, Seq<char>>) -> Option<Seq<char>> {
    if n.label@ == ITEM_LABEL@ {
        match crate_of(n) {
            Some(c) => if expected.contains_key(c) && prop_text(n, BOUNDED_CONTEXT_ATTR@) != expected[c] {
                Some(expected[c])
            } else {
                None
            },
            None => None,
        }
    } else {
        None
    }
}

/// The context each declared crate is assigned, by crate.
pub open spec fn assigned_contexts(ov: ConceptOverrides) -> Map<Seq<char>, Seq<char>> {
    Map::new(|c: Seq<char>| ov.crate_assignments.has(c), |c: Seq<char>| ov.crate_assignments.lookup(c)->0.name@)
}

/// The map a sorted map of strings stands for.
pub open spec fn text_map(m: SortedMap<String, String>) -> Map<Seq<char>, Seq<char>> {
    Map::new(|c: Seq<char>| m.has(c), |c: Seq<char>| m.lookup(c)->0@)
}

/// The context each declared crate is assigned, computed.
fn expected_contexts(ov: &ConceptOverrides) -> (m: SortedMap<String, String>)
    requires
        ov.crate_assignments.wf(),
    ensures
        m.wf(),
        text_map(m) == assigned_contexts(*ov),
{
    let ca = &ov.crate_assignments;
    let mut entries: Vec<(String, String)> = Vec::new();
    let mut k: usize = 0;
    while k < ca.entries.len()
        invariant
            ca.wf(),
            k <= ca.entries@.len(),
            entries@.len() == k,
            forall|q: int| 0 <= q < k ==> #[trigger] entries@[q].0@ == ca.entries@[q].0@
                && entries@[q].1@ == ca.entries@[q].1.name@,
        decreases ca.entries@.len() - k,
    {
        entries.push((ca.entries[k].0.clone(), ca.entries[k].1.name.clone()));
        k = k + 1;
    }
    let m = SortedMap { entries };
    proof {
        assert(m.wf()) by {
            assert forall|x: int, y: int| 0 <= x < y < m.entries@.len() implies #[trigger] String::key_lt(
                m.entries@[x].0.kv(), m.entries@[y].0.kv()) by {
                assert(String::key_lt(ca.entries@[x].0.kv(), ca.entries@[y].0.kv()));
            }
        }
        assert forall|c: Seq<char>| #[trigger] m.has(c) == ca.has(c) by {
            if m.has(c) {
                let i = choose|i: int| 0 <= i < m.entries@.len() && #[trigger] m.entries@[i].0.kv() == c;
                assert(ca.entries@[i].0.kv() == c);
            }
            if ca.has(c) {
                let i = choose|i: int| 0 <= i < ca.entries@.len() && #[trigger] ca.entries@[i].0.kv() == c;
                assert(m.entries@[i].0.kv() == c);
            }
        }
        assert forall|c: Seq<char>| m.has(c) implies #[trigger] m.lookup(c)->0@ == ca.lookup(c)->0.name@ by {
            let i = choose|i: int| 0 <= i < m.entries@.len() && #[trigger] m.entries@[i].0.kv() == c;
            m.lemma_lookup_at(i);
            ca.lemma_lookup_at(i);
        }
        assert(text_map(m) =~= assigned_contexts(*ov));
    }
    m
}

/// How many of the first `k` nodes of `st` must be patched.
pub open spec fn patch_count_upto(st: KeyspaceState, expected: Map<Seq<char>, Seq<char>>, k: nat) -> nat
    decreases k,
{
    if k == 0 {
        0
    } else {
        patch_count_upto(st, expected, (k - 1) as nat) + if patch_for(st.nodes()[k - 1], expected) is Some { 1nat } else { 0nat }
    }
}

/// `post` is `pre` with its context patched, if it had to be.
pub open spec fn context_patched(pre: Node, post: Node, expected: Map<Seq<char>, Seq<char>>) -> bool {
    match patch_for(pre, expected) {
        Some(x) => prop_written(pre, post, BOUNDED_CONTEXT_ATTR@, PropView::Str(x)),
        None => post == pre,
    }
}

proof fn lemma_patch_count_bound(st: KeyspaceState, expected: Map<Seq<char>, Seq<char>>, k: nat)
    ensures
        patch_count_upto(st, expected, k) <= k,
    decreases k,
{
    if k > 0 {
        lemma_patch_count_bound(st, expected, (k - 1) as nat);
    }
}

/// Patching is idempotent: on a keyspace the pass has patched against
/// `expected`, a second pass against the same contexts finds nothing to
/// patch.
pub proof fn lemma_patch_idempotent(pre: KeyspaceState, post: KeyspaceState, expected: Map<Seq<char>, Seq<char>>)
    requires
        post.nodes().len() == pre.nodes().len(),
        forall|i: int| 0 <= i < pre.nodes().len() ==> context_patched(#[trigger] pre.nodes()[i], post.nodes()[i], expected),
    ensures
        forall|i: int| 0 <= i < post.nodes().len() ==> patch_for(#[trigger] post.nodes()[i], expected) is None,
        patch_count_upto(post, expected, post.nodes().len()) == 0,
{
    assert forall|i: int| 0 <= i < post.nodes().len() implies patch_for(#[trigger] post.nodes()[i], expected) is None by {
        let a = pre.nodes()[i];
        let b = post.nodes()[i];
        assert(context_patched(a, b, expected));
        if let Some(x) = patch_for(a, expected) {
            reveal_strlit("crate");
            reveal_strlit("bounded_context");
            assert("crate"@ != BOUNDED_CONTEXT_ATTR@) by {
                assert("crate"@[0] != BOUNDED_CONTEXT_ATTR@[0]);
            }
            assert(prop_of(b.props, "crate"@) == prop_of(a.props, "crate"@));
            assert(crate_of(b) == crate_of(a));
            assert(prop_text(b, BOUNDED_CONTEXT_ATTR@) == x);
        }
    }
    lemma_zero_count(post, expected, post.nodes().len());
}

proof fn lemma_zero_count(st: KeyspaceState, expected: Map<Seq<char>, Seq<char>>, k: nat)
    requires
        k <= st.nodes().len(),
        forall|i: int| 0 <= i < st.nodes().len() ==> patch_for(#[trigger] st.nodes()[i], expected) is None,
    ensures
        patch_count_upto(st, expected, k) == 0,
    decreases k,
{
    if k > 0 {
        lemma_zero_count(st, expected, (k - 1) as nat);
        assert(patch_for(st.nodes()[k - 1], expected) is None);
    }
}

/// The context node `idx` must be patched to, computed.
fn patch_of(st: &KeyspaceState, idx: usize, expected: &SortedMap<String, String>) -> (r: Option<String>)
    requires
        st.wf(),
        idx < st.nodes().len(),
        expected.wf(),
    ensures
        match r {
            Some(s) => patch_for(st.nodes()[idx as int], text_map(*expected)) == Some(s@),
            None => patch_for(st.nodes()[idx as int], text_map(*expected)) is None,
        },
{
    let x = st.node(idx);
    proof {
        assert(x.props.wf());
        reveal_strlit("crate");
    }
    if !str_eq(x.label.as_str(), ITEM_LABEL) {
        return None;
    }
    let c = match get_prop(&x.props, "crate") {
        Some(PropValue::Str(c)) => c,
        _ => return None,
    };
    let e = match expected.get(c) {
        Some(e) => e,
        None => return None,
    };
    let current: String = match get_prop(&x.props, BOUNDED_CONTEXT_ATTR) {
        Some(PropValue::Str(s)) => s.clone(),
        _ => String::new(),
    };
    if str_eq(current.as_str(), e.as_str()) {
        None
    } else {
        Some(e.clone())
    }
}

/// The bounded-context pass on one keyspace, given the declared concepts
/// (or why they could not be read). A reading failure is reported with
/// the pass not run; a keyspace without items is left as it was, with a
/// warning; otherwise each item whose crate is assigned a context different
/// from its stored one gets it written, and the pass counts them.
pub fn enrich_bounded_context_state(st: &mut KeyspaceState, overrides: Result<ConceptOverrides, String>) -> (r: EnrichReport)
    requires
        old(st).wf(),
        overrides matches Ok(ov) ==> ov.crate_assignments.wf(),
    ensures
        final(st).wf(),
        r.verb@ == BOUNDED_CONTEXT_VERB@,
        r.edges_written == 0,
        match overrides {
            Err(m) => {
                &&& *final(st) == *old(st)
                &&& !r.ran
                &&& r.facts_scanned == 0 && r.attrs_written == 0
                &&& r.warnings@ == seq![m]
            },
            Ok(ov) => {
                &&& r.ran
                &&& (labelled(*old(st), ITEM_LABEL@).len() == 0 ==> {
                    &&& *final(st) == *old(st)
                    &&& r.facts_scanned == 0
                    &&& r.attrs_written == 0
                    &&& r.warnings@.len() == 1
                    &&& r.warnings@[0]@ == NO_BC_ITEMS_WARNING@
                })
                &&& (labelled(*old(st), ITEM_LABEL@).len() > 0 ==> {
                    &&& r.facts_scanned == labelled(*old(st), ITEM_LABEL@).len()
                    &&& r.attrs_written == patch_count_upto(*old(st), assigned_contexts(ov), old(st).nodes().len())
                    &&& r.warnings@.len() == 0
                    &&& final(st).nodes().len() == old(st).nodes().len()
                    &&& final(st).edges() == old(st).edges()
                    &&& forall|i: int| 0 <= i < old(st).nodes().len() ==> context_patched(#[trigger] old(st).nodes()[i],
                        final(st).nodes()[i], assigned_contexts(ov))
                })
            },
        },
{
    let ov = match overrides {
        Ok(ov) => ov,
        Err(e) => {
            return EnrichReport {
                verb: BOUNDED_CONTEXT_VERB.to_owned(),
                ran: false,
                facts_scanned: 0,
                attrs_written: 0,
                edges_written: 0,
                warnings: vec![e],
            };
        },
    };
    let m = expected_contexts(&ov);
    let ghost ctx = assigned_contexts(ov);
    let ghost st0 = *st;
    let items = st.nodes_with_label(&ITEM_LABEL.to_owned());
    proof {
        lemma_labelled(st0, ITEM_LABEL@);
        crate::order::lemma_sorted_unique(items@, labelled(st0, ITEM_LABEL@), |a: usize, b: usize| a < b);
    }
    if items.len() == 0 {
        return EnrichReport {
            verb: BOUNDED_CONTEXT_VERB.to_owned(),
            ran: true,
            facts_scanned: 0,
            attrs_written: 0,
            edges_written: 0,
            warnings: vec![NO_BC_ITEMS_WARNING.to_owned()],
        };
    }
    let n = st.node_count();
    let mut written: u64 = 0;
    let mut i: usize = 0;
    while i < n
        invariant
            st.wf(),
            st0.wf(),
            m.wf(),
            n == st0.nodes().len(),
            st.nodes().len() == n,
            st.edges() == st0.edges(),
            i <= n,
            written == patch_count_upto(st0, ctx, i as nat),
            text_map(m) == ctx,
            forall|j: int| 0 <= j < i ==> context_patched(#[trigger] st0.nodes()[j], st.nodes()[j], ctx),
            forall|j: int| i <= j < n ==> #[trigger] st.nodes()[j] == st0.nodes()[j],
        decreases n - i,
    {
        proof {
            assert(st.nodes()[i as int] == st0.nodes()[i as int]);
            lemma_patch_count_bound(st0, ctx, (i + 1) as nat);
        }
        match patch_of(st, i, &m) {
            Some(x) => {
                let ghost pre = *st;
                st.set_prop(i, BOUNDED_CONTEXT_ATTR, PropValue::Str(x));
                written = written + 1;
                proof {
                    assert forall|j: int| i < j < n implies #[trigger] st.nodes()[j] == st0.nodes()[j] by {
                        assert(st.nodes()[j] == pre.nodes()[j]);
                    }
                    assert forall|j: int| 0 <= j < i + 1 implies context_patched(#[trigger] st0.nodes()[j], st.nodes()[j], ctx) by {
                        if j < i {
                            assert(st.nodes()[j] == pre.nodes()[j]);
                        }
                    }
                }
            },
            None => {
                proof {
                    assert forall|j: int| 0 <= j < i + 1 implies context_patched(#[trigger] st0.nodes()[j], st.nodes()[j], ctx) by {
                    }
                }
            },
        }
        i = i + 1;
    }
    EnrichReport {
        verb: BOUNDED_CONTEXT_VERB.to_owned(),
        ran: true,
        facts_scanned: items.len() as u64,
        attrs_written: written,
        edges_written: 0,
        warnings: Vec::new(),
    }
}

} // verus!
