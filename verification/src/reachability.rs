//! Reachability from entry points: a breadth-first walk over `CALLS` and
//! `INVOKES_AT` edges from every item an `:EntryPoint` `EXPOSES`, counting
//! for each `:Item` how many distinct exposed items reach it.
use vstd::prelude::*;

use crate::fact::{get_prop, prop_of, Node, PropValue, PropView};
use crate::graph::{has_id, increasing, KeyspaceState};
use crate::path::marked;
use crate::rfc_docs::{EnrichReport, ITEM_LABEL};
use crate::order::lemma_sorted_unique;
use crate::text::{push_char, push_str, str_eq};

verus! {

/// The label of entry-point nodes.
pub const ENTRY_POINT_LABEL: &'static str = "EntryPoint";
/// The label of the edge from an entry point to the item it exposes.
pub const EXPOSES_LABEL: &'static str = "EXPOSES";
/// The label of a call edge.
pub const CALLS_LABEL: &'static str = "CALLS";
/// The label of the edge from an item to a call site it invokes.
pub const INVOKES_AT_LABEL: &'static str = "INVOKES_AT";
/// The verb of the reachability pass.
pub const REACHABILITY_VERB: &'static str = "enrich_reachability";
/// The warning of a keyspace without entry points.
pub const NO_ENTRY_POINTS_WARNING: &'static str = "enrich_reachability: no :EntryPoint nodes in keyspace — run `cfdb extract --features hir` first to populate entry points before reachability enrichment";
/// Whether an item is reached from some entry point.
pub const ATTR_REACHABLE: &'static str = "reachable_from_entry";
/// How many exposed items reach an item.
pub const ATTR_REACH_COUNT: &'static str = "reachable_entry_count";
/// Whether an item is reached from some production entry point.
pub const ATTR_PROD_REACHABLE: &'static str = "reachable_from_production_entry";
/// How many items exposed by production entry points reach an item.
pub const ATTR_PROD_REACH_COUNT: &'static str = "reachable_production_entry_count";

/// Which entry points seed the walk.
#[derive(Clone, Copy, Debug, PartialEq, Eq, Structural)]
pub enum ReachabilityFilter {
    /// Every entry point.
    All,
    /// Entry points whose `kind` is neither `test` nor `bench`.
    ProductionOnly,
}

/// Whether an edge label is followed by the walk.
pub open spec fn is_call_label(l: Seq<char>) -> bool {
    l == CALLS_LABEL@ || l == INVOKES_AT_LABEL@
}

/// Whether a node's `kind` marks it as test or bench code.
pub open spec fn is_test_or_bench(n: Node) -> bool {
    prop_of(n.props, "kind"@) == Some(PropView::Str("test"@)) || prop_of(n.props, "kind"@) == Some(PropView::Str("bench"@))
}

/// Whether node `i` is an entry point the filter keeps.
pub open spec fn entry_ok(st: KeyspaceState, f: ReachabilityFilter, i: usize) -> bool {
    &&& i < st.nodes().len()
    &&& st.nodes()[i as int].label@ == ENTRY_POINT_LABEL@
    &&& (f == ReachabilityFilter::ProductionOnly ==> !is_test_or_bench(st.nodes()[i as int]))
}

/// Whether node `t` is exposed by an entry point the filter keeps.
pub open spec fn is_seed(st: KeyspaceState, f: ReachabilityFilter, t: usize) -> bool {
    exists|j: int| 0 <= j < st.edges().len() && #[trigger] st.edges()[j].2.label@ == EXPOSES_LABEL@
        && entry_ok(st, f, st.edges()[j].0) && st.edges()[j].1 == t
}

/// The seeds among the first `n` nodes, ascending.
pub open spec fn seeds_upto(st: KeyspaceState, f: ReachabilityFilter, n: nat) -> Seq<usize>
    decreases n,
{
    if n == 0 {
        Seq::empty()
    } else {
        let r = seeds_upto(st, f, (n - 1) as nat);
        if is_seed(st, f, (n - 1) as usize) {
            r.push((n - 1) as usize)
        } else {
            r
        }
    }
}

/// The seeds of the walk, ascending.
pub open spec fn seed_list(st: KeyspaceState, f: ReachabilityFilter) -> Seq<usize> {
    seeds_upto(st, f, st.nodes().len())
}

/// The nodes one call edge from some node of `s`.
pub open spec fn call_steps(st: KeyspaceState, s: Set<usize>) -> Set<usize> {
    Set::new(|t: usize| exists|j: int| 0 <= j < st.edges().len() && #[trigger] is_call_label(st.edges()[j].2.label@)
        && s.contains(st.edges()[j].0) && st.edges()[j].1 == t)
}

/// The nodes within `k` call edges of `seed`.
pub open spec fn calls_within(st: KeyspaceState, seed: usize, k: nat) -> Set<usize>
    decreases k,
{
    if k == 0 {
        set![seed]
    } else {
        let r = calls_within(st, seed, (k - 1) as nat);
        r.union(call_steps(st, r))
    }
}

/// The nodes the walk from `seed` visits: those within as many call edges
/// as the graph has nodes, which is every node a path of call edges
/// leads to.
pub open spec fn reached_from(st: KeyspaceState, seed: usize) -> Set<usize> {
    calls_within(st, seed, st.nodes().len())
}

/// How many of `seeds` reach node `i`.
pub open spec fn reach_count(st: KeyspaceState, seeds: Seq<usize>, i: usize) -> nat
    decreases seeds.len(),
{
    if seeds.len() == 0 {
        0
    } else {
        reach_count(st, seeds.drop_last(), i) + if reached_from(st, seeds.last()).contains(i) { 1nat } else { 0nat }
    }
}

/// The number of entry points of a keyspace.
pub open spec fn entry_point_count(st: KeyspaceState) -> nat {
    st.label_members(ENTRY_POINT_LABEL@).len()
}

/// Whether node `post` is node `pre` with the four reachability
/// attributes written: whether and by how many seeds it is reached, over
/// all entry points (`ca`) and over production ones (`cp`); an item an
/// attribute-driven call resolves to (`m`) counts as reached either way.
pub open spec fn reach_attrs_written(pre: Node, post: Node, ca: nat, cp: nat, m: bool) -> bool {
    &&& post.id@ == pre.id@
    &&& post.label@ == pre.label@
    &&& post.props.wf()
    &&& prop_of(post.props, ATTR_REACHABLE@) == Some(PropView::Bool(ca > 0 || m))
    &&& prop_of(post.props, ATTR_REACH_COUNT@) == Some(PropView::Int(ca as i64))
    &&& prop_of(post.props, ATTR_PROD_REACHABLE@) == Some(PropView::Bool(cp > 0 || m))
    &&& prop_of(post.props, ATTR_PROD_REACH_COUNT@) == Some(PropView::Int(cp as i64))
    &&& forall|q: Seq<char>| q != ATTR_REACHABLE@ && q != ATTR_REACH_COUNT@ && q != ATTR_PROD_REACHABLE@
        && q != ATTR_PROD_REACH_COUNT@ ==> #[trigger] prop_of(post.props, q) == prop_of(pre.props, q)
}

/// The indexes of the first `n` nodes labelled `l`, ascending.
pub open spec fn labelled_upto(st: KeyspaceState, l: Seq<char>, n: nat) -> Seq<usize>
    decreases n,
{
    if n == 0 {
        Seq::empty()
    } else {
        let r = labelled_upto(st, l, (n - 1) as nat);
        if st.nodes()[n - 1].label@ == l {
            r.push((n - 1) as usize)
        } else {
            r
        }
    }
}

/// The indexes of the nodes labelled `l`, ascending.
pub open spec fn labelled(st: KeyspaceState, l: Seq<char>) -> Seq<usize> {
    labelled_upto(st, l, st.nodes().len())
}

/// The indexes of the nodes labelled `l` are ascending, and exactly
/// those of the nodes labelled `l`.
pub proof fn lemma_labelled(st: KeyspaceState, l: Seq<char>)
    requires
        st.wf(),
    ensures
        increasing(labelled(st, l)),
        forall|i: usize| #[trigger] labelled(st, l).contains(i) <==> (i < st.nodes().len() && st.nodes()[i as int].label@ == l),
        labelled(st, l).len() <= st.nodes().len(),
{
    lemma_labelled_upto(st, l, st.nodes().len());
}

proof fn lemma_labelled_upto(st: KeyspaceState, l: Seq<char>, n: nat)
    requires
        st.wf(),
        n <= st.nodes().len(),
    ensures
        increasing(labelled_upto(st, l, n)),
        forall|i: usize| #[trigger] labelled_upto(st, l, n).contains(i) <==> (i < n && st.nodes()[i as int].label@ == l),
        labelled_upto(st, l, n).len() <= n,
    decreases n,
{
    if n > 0 {
        lemma_labelled_upto(st, l, (n - 1) as nat);
        let r = labelled_upto(st, l, (n - 1) as nat);
        if st.nodes()[n - 1].label@ == l {
            let rp = r.push((n - 1) as usize);
            assert forall|i: usize| #[trigger] rp.contains(i) <==> (i < n && st.nodes()[i as int].label@ == l) by {
                if rp.contains(i) && i != n - 1 {
                    let k = choose|k: int| 0 <= k < rp.len() && rp[k] == i;
                    assert(r[k] == i);
                }
                if r.contains(i) {
                    let k = choose|k: int| 0 <= k < r.len() && r[k] == i;
                    assert(rp[k] == i);
                }
                if i == n - 1 {
                    assert(rp[r.len() as int] == i);
                }
            }
            assert forall|a: int, b: int| 0 <= a < b < rp.len() implies #[trigger] rp[a] < #[trigger] rp[b] by {
                if b == r.len() {
                    assert(r.contains(r[a]));
                }
            }
        }
    }
}

/// The value of a node's `kind`, when it is `test` or `bench`.
fn test_or_bench(n: &Node) -> (r: bool)
    requires
        n.props.wf(),
    ensures
        r == is_test_or_bench(*n),
{
    match get_prop(&n.props, "kind") {
        Some(PropValue::Str(s)) => {
            proof {
                reveal_strlit("test");
                reveal_strlit("bench");
            }
            str_eq(s.as_str(), "test") || str_eq(s.as_str(), "bench")
        },
        _ => false,
    }
}

/// Whether node `i` is an entry point the filter keeps.
fn is_entry(st: &KeyspaceState, f: ReachabilityFilter, i: usize) -> (r: bool)
    requires
        st.wf(),
        i < st.nodes().len(),
    ensures
        r == entry_ok(*st, f, i),
{
    let n = st.node(i);
    proof {
        assert(n.props.wf());
    }
    if !str_eq(n.label.as_str(), ENTRY_POINT_LABEL) {
        return false;
    }
    match f {
        ReachabilityFilter::All => true,
        ReachabilityFilter::ProductionOnly => !test_or_bench(n),
    }
}

/// The seeds of the walk, ascending.
pub fn collect_seeds(st: &KeyspaceState, f: ReachabilityFilter) -> (r: Vec<usize>)
    requires
        st.wf(),
    ensures
        r@ == seed_list(*st, f),
{
    let n = st.node_count();
    let m = st.edge_count();
    let mut is: Vec<bool> = vec![false; n];
    let mut j: usize = 0;
    while j < m
        invariant
            st.wf(),
            n == st.nodes().len(),
            m == st.edges().len(),
            j <= m,
            is@.len() == n,
            forall|t: usize| t < n ==> (#[trigger] is@[t as int] <==> exists|i: int| 0 <= i < j
                && #[trigger] st.edges()[i].2.label@ == EXPOSES_LABEL@ && entry_ok(*st, f, st.edges()[i].0) && st.edges()[i].1 == t),
        decreases m - j,
    {
        let (a, b) = st.edge_endpoints(j);
        proof {
            assert(a < n && b < n);
        }
        if str_eq(st.edge(j).label.as_str(), EXPOSES_LABEL) && is_entry(st, f, a) {
            is.set(b, true);
        }
        proof {
            assert forall|t: usize| t < n implies (#[trigger] is@[t as int] <==> exists|i: int| 0 <= i < j + 1
                && #[trigger] st.edges()[i].2.label@ == EXPOSES_LABEL@ && entry_ok(*st, f, st.edges()[i].0) && st.edges()[i].1 == t) by {
                if exists|i: int| 0 <= i < j + 1 && #[trigger] st.edges()[i].2.label@ == EXPOSES_LABEL@ && entry_ok(*st, f, st.edges()[i].0) && st.edges()[i].1 == t {
                    let i = choose|i: int| 0 <= i < j + 1 && #[trigger] st.edges()[i].2.label@ == EXPOSES_LABEL@ && entry_ok(*st, f, st.edges()[i].0) && st.edges()[i].1 == t;
                    if i < j {
                        assert(exists|i2: int| 0 <= i2 < j && #[trigger] st.edges()[i2].2.label@ == EXPOSES_LABEL@ && entry_ok(*st, f, st.edges()[i2].0) && st.edges()[i2].1 == t);
                    }
                }
            }
        }
        j = j + 1;
    }
    let mut out: Vec<usize> = Vec::new();
    let mut t: usize = 0;
    while t < n
        invariant
            st.wf(),
            n == st.nodes().len(),
            m == st.edges().len(),
            t <= n,
            is@.len() == n,
            forall|u: usize| u < n ==> (#[trigger] is@[u as int] <==> is_seed(*st, f, u)),
            out@ == seeds_upto(*st, f, t as nat),
        decreases n - t,
    {
        if is[t] {
            out.push(t);
        }
        t = t + 1;
    }
    out
}

proof fn lemma_marked_insert(v: Seq<bool>, i: usize)
    requires
        i < v.len(),
    ensures
        marked(v.update(i as int, true)) == marked(v).insert(i),
{
    assert(marked(v.update(i as int, true)) =~= marked(v).insert(i));
}

/// One step of the walk: the marked nodes and the nodes one call edge
/// from them.
fn step_calls(st: &KeyspaceState, reached: &Vec<bool>) -> (r: Vec<bool>)
    requires
        st.wf(),
        reached@.len() == st.nodes().len(),
    ensures
        r@.len() == reached@.len(),
        marked(r@) == marked(reached@).union(call_steps(*st, marked(reached@))),
{
    let ghost s = marked(reached@);
    let m = st.edge_count();
    let mut next = reached.clone();
    proof {
        assert(next@ =~= reached@);
    }
    let mut j: usize = 0;
    while j < m
        invariant
            st.wf(),
            m == st.edges().len(),
            reached@.len() == st.nodes().len(),
            next@.len() == reached@.len(),
            s == marked(reached@),
            j <= m,
            marked(next@) == s.union(Set::new(|t: usize| exists|i: int| 0 <= i < j && #[trigger] is_call_label(st.edges()[i].2.label@)
                && s.contains(st.edges()[i].0) && st.edges()[i].1 == t)),
        decreases m - j,
    {
        let (a, b) = st.edge_endpoints(j);
        let ghost before = marked(next@);
        proof {
            assert(a < st.nodes().len() && b < st.nodes().len());
            assert(s.contains(a) == reached@[a as int]);
        }
        let l = st.edge(j).label.as_str();
        let ok = str_eq(l, CALLS_LABEL) || str_eq(l, INVOKES_AT_LABEL);
        let c = ok && reached[a];
        if c {
            proof {
                lemma_marked_insert(next@, b);
            }
            next.set(b, true);
        }
        proof {
            let prev = Set::new(|t: usize| exists|i: int| 0 <= i < j && #[trigger] is_call_label(st.edges()[i].2.label@)
                && s.contains(st.edges()[i].0) && st.edges()[i].1 == t);
            let now = Set::new(|t: usize| exists|i: int| 0 <= i < j + 1 && #[trigger] is_call_label(st.edges()[i].2.label@)
                && s.contains(st.edges()[i].0) && st.edges()[i].1 == t);
            assert(before == s.union(prev));
            assert(marked(next@) == if c { before.insert(b) } else { before });
            assert forall|t: usize| marked(next@).contains(t) <==> s.union(now).contains(t) by {
                if prev.contains(t) {
                    let i = choose|i: int| 0 <= i < j && #[trigger] is_call_label(st.edges()[i].2.label@)
                        && s.contains(st.edges()[i].0) && st.edges()[i].1 == t;
                    assert(now.contains(t));
                }
                if now.contains(t) && !prev.contains(t) {
                    let i = choose|i: int| 0 <= i < j + 1 && #[trigger] is_call_label(st.edges()[i].2.label@)
                        && s.contains(st.edges()[i].0) && st.edges()[i].1 == t;
                    assert(i == j);
                }
                if c && t == b {
                    assert(now.contains(t)) by {
                        assert(is_call_label(st.edges()[j as int].2.label@));
                    }
                }
            }
            assert(marked(next@) =~= s.union(now));
        }
        j = j + 1;
    }
    proof {
        assert(marked(next@) =~= s.union(call_steps(*st, s)));
    }
    next
}

proof fn lemma_calls_stable(st: KeyspaceState, seed: usize, d: nat, k: nat)
    requires
        calls_within(st, seed, d + 1) == calls_within(st, seed, d),
        d <= k,
    ensures
        calls_within(st, seed, k) == calls_within(st, seed, d),
    decreases k,
{
    if k > d + 1 {
        lemma_calls_stable(st, seed, d, (k - 1) as nat);
        assert(calls_within(st, seed, k) == calls_within(st, seed, (k - 1) as nat).union(
            call_steps(st, calls_within(st, seed, (k - 1) as nat)),
        ));
    }
}

fn same_marks(a: &Vec<bool>, b: &Vec<bool>) -> (r: bool)
    requires
        a@.len() == b@.len(),
    ensures
        r == (marked(a@) == marked(b@)),
{
    let mut i: usize = 0;
    while i < a.len()
        invariant
            a@.len() == b@.len(),
            i <= a@.len(),
            forall|k: int| 0 <= k < i ==> a@[k] == b@[k],
        decreases a@.len() - i,
    {
        if a[i] != b[i] {
            proof {
                assert(marked(a@).contains(i) != marked(b@).contains(i));
            }
            return false;
        }
        i = i + 1;
    }
    proof {
        assert(marked(a@) =~= marked(b@));
    }
    true
}

/// The nodes the walk from `seed` visits, as marks by node index.
pub fn bfs_call_graph(st: &KeyspaceState, seed: usize) -> (r: Vec<bool>)
    requires
        st.wf(),
        seed < st.nodes().len(),
    ensures
        r@.len() == st.nodes().len(),
        marked(r@) == reached_from(*st, seed),
{
    let n = st.node_count();
    let mut reached: Vec<bool> = vec![false; n];
    reached.set(seed, true);
    proof {
        assert(marked(reached@) =~= calls_within(*st, seed, 0));
    }
    let mut d: usize = 0;
    let mut stable = false;
    while d < n && !stable
        invariant
            st.wf(),
            n == st.nodes().len(),
            seed < n,
            reached@.len() == n,
            d <= n,
            marked(reached@) == calls_within(*st, seed, d as nat),
            stable ==> calls_within(*st, seed, d as nat + 1) == calls_within(*st, seed, d as nat),
        decreases n - d,
    {
        let next = step_calls(st, &reached);
        stable = same_marks(&next, &reached);
        reached = next;
        d = d + 1;
        proof {
            if stable {
                lemma_calls_stable(*st, seed, (d - 1) as nat, d as nat + 1);
            }
        }
    }
    proof {
        if stable {
            lemma_calls_stable(*st, seed, d as nat, n as nat);
        }
    }
    reached
}

proof fn lemma_seeds_upto(st: KeyspaceState, f: ReachabilityFilter, n: nat)
    requires
        st.wf(),
        n <= st.nodes().len(),
    ensures
        seeds_upto(st, f, n).len() <= n,
        forall|k: int| 0 <= k < seeds_upto(st, f, n).len() ==> #[trigger] seeds_upto(st, f, n)[k] < n,
    decreases n,
{
    if n > 0 {
        lemma_seeds_upto(st, f, (n - 1) as nat);
    }
}

proof fn lemma_reach_count_bound(st: KeyspaceState, seeds: Seq<usize>, i: usize)
    ensures
        reach_count(st, seeds, i) <= seeds.len(),
    decreases seeds.len(),
{
    if seeds.len() > 0 {
        lemma_reach_count_bound(st, seeds.drop_last(), i);
    }
}

/// For each node, by index, how many of `seeds` reach it.
pub fn accumulate_reach_counts(st: &KeyspaceState, seeds: &Vec<usize>) -> (r: Vec<u64>)
    requires
        st.wf(),
        forall|k: int| 0 <= k < seeds@.len() ==> #[trigger] seeds@[k] < st.nodes().len(),
    ensures
        r@.len() == st.nodes().len(),
        forall|i: int| 0 <= i < r@.len() ==> #[trigger] r@[i] == reach_count(*st, seeds@, i as usize),
{
    let n = st.node_count();
    let mut counts: Vec<u64> = vec![0u64; n];
    let mut k: usize = 0;
    proof {
        assert(seeds@.take(0) =~= Seq::<usize>::empty());
    }
    while k < seeds.len()
        invariant
            st.wf(),
            n == st.nodes().len(),
            forall|q: int| 0 <= q < seeds@.len() ==> #[trigger] seeds@[q] < n,
            k <= seeds@.len(),
            counts@.len() == n,
            forall|i: int| 0 <= i < n ==> #[trigger] counts@[i] == reach_count(*st, seeds@.take(k as int), i as usize),
        decreases seeds@.len() - k,
    {
        let marks = bfs_call_graph(st, seeds[k]);
        let ghost pre = counts@;
        proof {
            assert(seeds@.take(k + 1).drop_last() =~= seeds@.take(k as int));
            assert(seeds@.take(k + 1).last() == seeds@[k as int]);
        }
        let mut i: usize = 0;
        while i < n
            invariant
                st.wf(),
                n == st.nodes().len(),
                k < seeds@.len(),
                k < seeds.len(),
                marks@.len() == n,
                marked(marks@) == reached_from(*st, seeds@[k as int]),
                seeds@.take(k + 1).drop_last() == seeds@.take(k as int),
                seeds@.take(k + 1).last() == seeds@[k as int],
                i <= n,
                counts@.len() == n,
                pre.len() == n,
                forall|j: int| 0 <= j < n ==> #[trigger] pre[j] == reach_count(*st, seeds@.take(k as int), j as usize),
                forall|j: int| 0 <= j < i ==> #[trigger] counts@[j] == reach_count(*st, seeds@.take(k + 1), j as usize),
                forall|j: int| i <= j < n ==> #[trigger] counts@[j] == pre[j],
            decreases n - i,
        {
            proof {
                lemma_reach_count_bound(*st, seeds@.take(k as int), i);
                assert(seeds@.take(k as int).len() == k);
                assert(counts@[i as int] == pre[i as int]);
                assert(pre[i as int] <= k);
                assert(marked(marks@).contains(i) == marks@[i as int]);
            }
            if marks[i] {
                let c = counts[i];
                counts.set(i, c + 1);
            }
            i = i + 1;
        }
        k = k + 1;
    }
    proof {
        assert(seeds@.take(k as int) =~= seeds@);
    }
    counts
}

/// Writes the four reachability attributes of node `idx`.
fn write_reach_attrs(st: &mut KeyspaceState, idx: usize, ca: u64, cp: u64)
    requires
        old(st).wf(),
        idx < old(st).nodes().len(),
        ca <= 0x7fff_ffff_ffff_ffff,
        cp <= 0x7fff_ffff_ffff_ffff,
    ensures
        final(st).wf(),
        final(st).nodes().len() == old(st).nodes().len(),
        reach_attrs_written(old(st).nodes()[idx as int], final(st).nodes()[idx as int], ca as nat, cp as nat, false),
        forall|j: int| 0 <= j < old(st).nodes().len() && j != idx ==> #[trigger] final(st).nodes()[j] == old(st).nodes()[j],
        final(st).edges() == old(st).edges(),
        final(st).edge_labels == old(st).edge_labels,
        final(st).index_spec == old(st).index_spec,
        final(st).ingest_warnings == old(st).ingest_warnings,
{
    let ghost n0 = old(st).nodes()[idx as int];
    proof {
        reveal_strlit("reachable_from_entry");
        reveal_strlit("reachable_entry_count");
        reveal_strlit("reachable_from_production_entry");
        reveal_strlit("reachable_production_entry_count");
    }
    st.set_prop(idx, ATTR_REACHABLE, PropValue::Bool(ca > 0));
    let ghost n1 = st.nodes()[idx as int];
    st.set_prop(idx, ATTR_REACH_COUNT, PropValue::Int(ca as i64));
    let ghost n2 = st.nodes()[idx as int];
    st.set_prop(idx, ATTR_PROD_REACHABLE, PropValue::Bool(cp > 0));
    let ghost n3 = st.nodes()[idx as int];
    st.set_prop(idx, ATTR_PROD_REACH_COUNT, PropValue::Int(cp as i64));
    proof {
        let n4 = st.nodes()[idx as int];
        assert(ATTR_REACHABLE@.len() == 20);
        assert(ATTR_REACH_COUNT@.len() == 21);
        assert(ATTR_PROD_REACHABLE@.len() == 31);
        assert(ATTR_PROD_REACH_COUNT@.len() == 32);
        assert(ATTR_REACHABLE@ != ATTR_REACH_COUNT@);
        assert(ATTR_REACHABLE@ != ATTR_PROD_REACHABLE@);
        assert(ATTR_REACHABLE@ != ATTR_PROD_REACH_COUNT@);
        assert(ATTR_REACH_COUNT@ != ATTR_PROD_REACHABLE@);
        assert(ATTR_REACH_COUNT@ != ATTR_PROD_REACH_COUNT@);
        assert(ATTR_PROD_REACHABLE@ != ATTR_PROD_REACH_COUNT@);
        assert(prop_of(n4.props, ATTR_REACHABLE@) == prop_of(n1.props, ATTR_REACHABLE@));
        assert(prop_of(n4.props, ATTR_REACH_COUNT@) == prop_of(n2.props, ATTR_REACH_COUNT@));
        assert(prop_of(n4.props, ATTR_PROD_REACHABLE@) == prop_of(n3.props, ATTR_PROD_REACHABLE@));
    }
}

/// Whether node `post` is node `pre` with both reachability flags set,
/// and nothing else changed.
pub open spec fn flags_set(pre: Node, post: Node) -> bool {
    &&& post.id@ == pre.id@
    &&& post.label@ == pre.label@
    &&& post.props.wf()
    &&& prop_of(post.props, ATTR_REACHABLE@) == Some(PropView::Bool(true))
    &&& prop_of(post.props, ATTR_PROD_REACHABLE@) == Some(PropView::Bool(true))
    &&& forall|q: Seq<char>| q != ATTR_REACHABLE@ && q != ATTR_PROD_REACHABLE@ ==> #[trigger] prop_of(post.props, q) == prop_of(pre.props, q)
}

proof fn lemma_resolving_bound(st: KeyspaceState, n: nat)
    ensures
        resolving_upto(st, n) <= n,
    decreases n,
{
    if n > 0 {
        lemma_resolving_bound(st, (n - 1) as nat);
    }
}

/// The index of the node the attribute-driven call of call site `c`
/// resolves to, if any.
fn call_site_target_of(st: &KeyspaceState, c: usize) -> (r: Option<usize>)
    requires
        st.wf(),
        c < st.nodes().len(),
    ensures
        match r {
            Some(i) => i < st.nodes().len() && call_site_target(*st, c as int) == Some(st.nodes()[i as int].id@),
            None => call_site_target(*st, c as int) is None,
        },
{
    let node = st.node(c);
    proof {
        assert(node.props.wf());
        reveal_strlit("kind");
        reveal_strlit("callee_path");
        reveal_strlit("caller_qname");
    }
    if !str_eq(node.label.as_str(), CALL_SITE_LABEL) {
        return None;
    }
    let kind_ok = match get_prop(&node.props, "kind") {
        Some(PropValue::Str(k)) => str_eq(k.as_str(), SERDE_DEFAULT_KIND),
        _ => false,
    };
    if !kind_ok {
        return None;
    }
    match (get_prop(&node.props, "callee_path"), get_prop(&node.props, "caller_qname")) {
        (Some(PropValue::Str(callee)), Some(PropValue::Str(caller))) => resolve_callee_to_item(st, callee.as_str(), caller.as_str()),
        _ => None,
    }
}

/// The nodes the attribute-driven calls resolve to, one per resolving
/// call site, by call site.
pub fn collect_resolutions(st: &KeyspaceState) -> (r: Vec<usize>)
    requires
        st.wf(),
    ensures
        r@.len() == resolving_upto(*st, st.nodes().len()),
        forall|q: int| 0 <= q < r@.len() ==> #[trigger] r@[q] < st.nodes().len(),
        forall|i: usize| i < st.nodes().len() ==> (#[trigger] r@.contains(i) <==> is_attr_call_target(*st, i)),
{
    proof {
        st.lemma_unique_ids();
    }
    let n = st.node_count();
    let mut out: Vec<usize> = Vec::new();
    let mut c: usize = 0;
    while c < n
        invariant
            st.wf(),
            crate::graph::unique_ids(st.nodes()),
            n == st.nodes().len(),
            c <= n,
            out@.len() == resolving_upto(*st, c as nat),
            forall|q: int| 0 <= q < out@.len() ==> #[trigger] out@[q] < n,
            forall|i: usize| i < n ==> (#[trigger] out@.contains(i) <==> exists|c2: int| 0 <= c2 < c
                && #[trigger] call_site_target(*st, c2) == Some(st.nodes()[i as int].id@)),
        decreases n - c,
    {
        let ghost before = out@;
        match call_site_target_of(st, c) {
            Some(j) => {
                out.push(j);
                proof {
                    assert forall|i: usize| i < n implies (#[trigger] out@.contains(i) <==> exists|c2: int| 0 <= c2 < c + 1
                        && #[trigger] call_site_target(*st, c2) == Some(st.nodes()[i as int].id@)) by {
                        if out@.contains(i) {
                            let q = choose|q: int| 0 <= q < out@.len() && out@[q] == i;
                            if q < before.len() {
                                assert(before.contains(i));
                            } else {
                                assert(call_site_target(*st, c as int) == Some(st.nodes()[i as int].id@));
                            }
                        }
                        if exists|c2: int| 0 <= c2 < c + 1 && #[trigger] call_site_target(*st, c2) == Some(st.nodes()[i as int].id@) {
                            let c2 = choose|c2: int| 0 <= c2 < c + 1 && #[trigger] call_site_target(*st, c2) == Some(st.nodes()[i as int].id@);
                            if c2 < c {
                                assert(before.contains(i));
                                let q = choose|q: int| 0 <= q < before.len() && before[q] == i;
                                assert(out@[q] == i);
                            } else {
                                assert(st.nodes()[i as int].id@ == st.nodes()[j as int].id@);
                                if i != j {
                                    if i < j {
                                        assert(st.nodes()[i as int].id@ != st.nodes()[j as int].id@);
                                    } else {
                                        assert(st.nodes()[j as int].id@ != st.nodes()[i as int].id@);
                                    }
                                }
                                assert(out@[before.len() as int] == i);
                            }
                        }
                    }
                }
            },
            None => {
                proof {
                    assert forall|i: usize| i < n implies (#[trigger] out@.contains(i) <==> exists|c2: int| 0 <= c2 < c + 1
                        && #[trigger] call_site_target(*st, c2) == Some(st.nodes()[i as int].id@)) by {
                        if exists|c2: int| 0 <= c2 < c + 1 && #[trigger] call_site_target(*st, c2) == Some(st.nodes()[i as int].id@) {
                            let c2 = choose|c2: int| 0 <= c2 < c + 1 && #[trigger] call_site_target(*st, c2) == Some(st.nodes()[i as int].id@);
                            assert(c2 < c);
                        }
                    }
                }
            },
        }
        c = c + 1;
    }
    out
}

/// Sets both reachability flags of node `idx`.
fn set_flags(st: &mut KeyspaceState, idx: usize)
    requires
        old(st).wf(),
        idx < old(st).nodes().len(),
    ensures
        final(st).wf(),
        final(st).nodes().len() == old(st).nodes().len(),
        flags_set(old(st).nodes()[idx as int], final(st).nodes()[idx as int]),
        forall|j: int| 0 <= j < old(st).nodes().len() && j != idx ==> #[trigger] final(st).nodes()[j] == old(st).nodes()[j],
        final(st).edges() == old(st).edges(),
{
    proof {
        reveal_strlit("reachable_from_entry");
        reveal_strlit("reachable_from_production_entry");
    }
    let ghost n1 = st.nodes()[idx as int];
    st.set_prop(idx, ATTR_REACHABLE, PropValue::Bool(true));
    let ghost n2 = st.nodes()[idx as int];
    st.set_prop(idx, ATTR_PROD_REACHABLE, PropValue::Bool(true));
    proof {
        assert(ATTR_REACHABLE@.len() == 20);
        assert(ATTR_PROD_REACHABLE@.len() == 31);
        assert(ATTR_REACHABLE@ != ATTR_PROD_REACHABLE@);
        assert(prop_of(st.nodes()[idx as int].props, ATTR_REACHABLE@) == prop_of(n2.props, ATTR_REACHABLE@));
    }
}

/// Whether node `post` is node `i` of keyspace `st` (`pre`) after the
/// reachability pass: an item gets its four attributes; any other node an
/// attribute-driven call resolves to gets both flags; the rest are
/// unchanged.
pub open spec fn reachability_written(st: KeyspaceState, i: usize, pre: Node, post: Node) -> bool {
    if pre.label@ == ITEM_LABEL@ {
        reach_attrs_written(pre, post, reach_count(st, seed_list(st, ReachabilityFilter::All), i),
            reach_count(st, seed_list(st, ReachabilityFilter::ProductionOnly), i), is_attr_call_target(st, i))
    } else if is_attr_call_target(st, i) {
        flags_set(pre, post)
    } else {
        post == pre
    }
}

/// The item stage of the pass: items get their four attributes, the other
/// nodes are unchanged.
pub open spec fn item_stage(st: KeyspaceState, i: usize, pre: Node, post: Node) -> bool {
    if pre.label@ == ITEM_LABEL@ {
        reach_attrs_written(pre, post, reach_count(st, seed_list(st, ReachabilityFilter::All), i),
            reach_count(st, seed_list(st, ReachabilityFilter::ProductionOnly), i), false)
    } else {
        post == pre
    }
}

/// The reachability pass on one keyspace. Without entry points nothing is
/// written and the report says the pass did not run; otherwise every item
/// gets, over all entry points and over production ones, whether and by
/// how many exposed items it is reached.
pub fn enrich_reachability_state(st: &mut KeyspaceState) -> (r: EnrichReport)
    requires
        old(st).wf(),
    ensures
        final(st).wf(),
        final(st).nodes().len() == old(st).nodes().len(),
        final(st).edges() == old(st).edges(),
        r.verb@ == REACHABILITY_VERB@,
        r.edges_written == 0,
        labelled(*old(st), ENTRY_POINT_LABEL@).len() == 0 ==> {
            &&& *final(st) == *old(st)
            &&& !r.ran
            &&& r.facts_scanned == 0
            &&& r.attrs_written == 0
            &&& r.warnings@.len() == 1
            &&& r.warnings@[0]@ == NO_ENTRY_POINTS_WARNING@
        },
        labelled(*old(st), ENTRY_POINT_LABEL@).len() > 0 ==> {
            &&& r.ran
            &&& r.facts_scanned == labelled(*old(st), ENTRY_POINT_LABEL@).len()
            &&& r.attrs_written == 4 * labelled(*old(st), ITEM_LABEL@).len() + 2 * resolving_upto(*old(st), old(st).nodes().len())
            &&& r.warnings@.len() == 0
            &&& forall|i: int| 0 <= i < old(st).nodes().len() ==> reachability_written(*old(st), i as usize,
                #[trigger] old(st).nodes()[i], final(st).nodes()[i])
        },
{
    let ghost st0 = *st;
    let eps = st.nodes_with_label(&ENTRY_POINT_LABEL.to_owned());
    proof {
        lemma_labelled_upto(st0, ENTRY_POINT_LABEL@, st0.nodes().len());
        lemma_sorted_unique(eps@, labelled(st0, ENTRY_POINT_LABEL@), |a: usize, b: usize| a < b);
    }
    if eps.len() == 0 {
        return EnrichReport {
            verb: REACHABILITY_VERB.to_owned(),
            ran: false,
            facts_scanned: 0,
            attrs_written: 0,
            edges_written: 0,
            warnings: vec![NO_ENTRY_POINTS_WARNING.to_owned()],
        };
    }
    let seeds_all = collect_seeds(st, ReachabilityFilter::All);
    let seeds_prod = collect_seeds(st, ReachabilityFilter::ProductionOnly);
    proof {
        lemma_seeds_upto(st0, ReachabilityFilter::All, st0.nodes().len());
        lemma_seeds_upto(st0, ReachabilityFilter::ProductionOnly, st0.nodes().len());
    }
    let ca = accumulate_reach_counts(st, &seeds_all);
    let cp = accumulate_reach_counts(st, &seeds_prod);
    let items = st.nodes_with_label(&ITEM_LABEL.to_owned());
    proof {
        lemma_labelled_upto(st0, ITEM_LABEL@, st0.nodes().len());
        lemma_sorted_unique(items@, labelled(st0, ITEM_LABEL@), |a: usize, b: usize| a < b);
    }
    let targets = collect_resolutions(st);
    let n = st.node_count();
    let mut written: u64 = 0;
    let mut k: usize = 0;
    while k < items.len()
        invariant
            st.wf(),
            st0.wf(),
            n == st0.nodes().len(),
            st.nodes().len() == n,
            st.edges() == st0.edges(),
            items@ == labelled(st0, ITEM_LABEL@),
            increasing(items@),
            items@.len() <= n,
            forall|i: usize| #[trigger] items@.contains(i) <==> (i < n && st0.nodes()[i as int].label@ == ITEM_LABEL@),
            ca@.len() == n,
            cp@.len() == n,
            forall|i: int| 0 <= i < n ==> #[trigger] ca@[i] == reach_count(st0, seed_list(st0, ReachabilityFilter::All), i as usize),
            forall|i: int| 0 <= i < n ==> #[trigger] cp@[i] == reach_count(st0, seed_list(st0, ReachabilityFilter::ProductionOnly), i as usize),
            seed_list(st0, ReachabilityFilter::All).len() <= n,
            seed_list(st0, ReachabilityFilter::ProductionOnly).len() <= n,
            k <= items@.len(),
            written == 4 * k,
            forall|i: int| 0 <= i < n && items@.take(k as int).contains(i as usize) ==> item_stage(st0, i as usize,
                #[trigger] st0.nodes()[i], st.nodes()[i]),
            forall|i: int| 0 <= i < n && !items@.take(k as int).contains(i as usize) ==> #[trigger] st.nodes()[i] == st0.nodes()[i],
        decreases items@.len() - k,
    {
        let idx = items[k];
        proof {
            assert(items@.contains(idx));
            lemma_reach_count_bound(st0, seed_list(st0, ReachabilityFilter::All), idx);
            lemma_reach_count_bound(st0, seed_list(st0, ReachabilityFilter::ProductionOnly), idx);
            assert(!items@.take(k as int).contains(idx)) by {
                if items@.take(k as int).contains(idx) {
                    let q = choose|q: int| 0 <= q < k && items@.take(k as int)[q] == idx;
                    assert(items@[q] < items@[k as int]);
                }
            }
        }
        let ghost pre = *st;
        write_reach_attrs(st, idx, ca[idx], cp[idx]);
        proof {
            let t1 = items@.take(k + 1);
            let t0 = items@.take(k as int);
            assert(t1 =~= t0.push(idx));
            assert forall|i: int| 0 <= i < n && t1.contains(i as usize) implies item_stage(st0, i as usize,
                #[trigger] st0.nodes()[i], st.nodes()[i]) by {
                if i as usize != idx {
                    let q = choose|q: int| 0 <= q < t1.len() && t1[q] == i as usize;
                    assert(q != k);
                    assert(t0[q] == i as usize);
                }
            }
            assert forall|i: int| 0 <= i < n && !t1.contains(i as usize) implies #[trigger] st.nodes()[i] == st0.nodes()[i] by {
                assert(t1[k as int] == idx);
                if t0.contains(i as usize) {
                    let q = choose|q: int| 0 <= q < t0.len() && t0[q] == i as usize;
                    assert(t1[q] == i as usize);
                }
            }
        }
        written = written + 4;
        k = k + 1;
    }
    proof {
        assert(items@.take(k as int) =~= items@);
        assert forall|i: int| 0 <= i < n implies item_stage(st0, i as usize, #[trigger] st0.nodes()[i], st.nodes()[i]) by {
            if st0.nodes()[i].label@ == ITEM_LABEL@ {
                assert(items@.contains(i as usize));
            } else {
                assert(!items@.contains(i as usize));
            }
        }
    }
    let ghost st1 = *st;
    let mut t: usize = 0;
    proof {
        lemma_resolving_bound(st0, n as nat);
    }
    while t < targets.len()
        invariant
            st.wf(),
            st0.wf(),
            n == st0.nodes().len(),
            st.nodes().len() == n,
            st1.nodes().len() == n,
            st.edges() == st0.edges(),
            forall|q: int| 0 <= q < targets@.len() ==> #[trigger] targets@[q] < n,
            targets@.len() == resolving_upto(st0, n as nat),
            resolving_upto(st0, n as nat) <= n,
            items@.len() <= n,
            t <= targets@.len(),
            written == 4 * items@.len() + 2 * t,
            forall|i: int| 0 <= i < n && targets@.take(t as int).contains(i as usize) ==> flags_set(#[trigger] st1.nodes()[i], st.nodes()[i]),
            forall|i: int| 0 <= i < n && !targets@.take(t as int).contains(i as usize) ==> #[trigger] st.nodes()[i] == st1.nodes()[i],
        decreases targets@.len() - t,
    {
        let idx = targets[t];
        let ghost pre = st.nodes()[idx as int];
        set_flags(st, idx);
        proof {
            let t1 = targets@.take(t + 1);
            let t0 = targets@.take(t as int);
            assert(t1 =~= t0.push(idx));
            assert(flags_set(st1.nodes()[idx as int], st.nodes()[idx as int])) by {
                if !t0.contains(idx) {
                    assert(pre == st1.nodes()[idx as int]);
                }
            }
            assert forall|i: int| 0 <= i < n && t1.contains(i as usize) implies flags_set(#[trigger] st1.nodes()[i], st.nodes()[i]) by {
                if i as usize != idx {
                    let q = choose|q: int| 0 <= q < t1.len() && t1[q] == i as usize;
                    assert(t0[q] == i as usize);
                }
            }
            assert forall|i: int| 0 <= i < n && !t1.contains(i as usize) implies #[trigger] st.nodes()[i] == st1.nodes()[i] by {
                assert(t1[t as int] == idx);
                if t0.contains(i as usize) {
                    let q = choose|q: int| 0 <= q < t0.len() && t0[q] == i as usize;
                    assert(t1[q] == i as usize);
                }
            }
        }
        written = written + 2;
        t = t + 1;
    }
    proof {
        assert(targets@.take(t as int) =~= targets@);
        assert forall|i: int| 0 <= i < n implies reachability_written(st0, i as usize, #[trigger] st0.nodes()[i], st.nodes()[i]) by {
            assert(item_stage(st0, i as usize, st0.nodes()[i], st1.nodes()[i]));
            if targets@.contains(i as usize) {
                assert(is_attr_call_target(st0, i as usize));
                let a = st0.nodes()[i];
                let b = st1.nodes()[i];
                let c = st.nodes()[i];
                assert(flags_set(b, c));
                if a.label@ == ITEM_LABEL@ {
                    assert forall|q: Seq<char>| q != ATTR_REACHABLE@ && q != ATTR_REACH_COUNT@ && q != ATTR_PROD_REACHABLE@
                        && q != ATTR_PROD_REACH_COUNT@ implies #[trigger] prop_of(c.props, q) == prop_of(a.props, q) by {
                        assert(prop_of(c.props, q) == prop_of(b.props, q));
                    }
                    assert(prop_of(c.props, ATTR_REACH_COUNT@) == prop_of(b.props, ATTR_REACH_COUNT@));
                    assert(prop_of(c.props, ATTR_PROD_REACH_COUNT@) == prop_of(b.props, ATTR_PROD_REACH_COUNT@));
                }
            } else {
                assert(!is_attr_call_target(st0, i as usize));
            }
        }
    }
    EnrichReport {
        verb: REACHABILITY_VERB.to_owned(),
        ran: true,
        facts_scanned: eps.len() as u64,
        attrs_written: written,
        edges_written: 0,
        warnings: Vec::new(),
    }
}

/// The walk from a node visits that node.
pub proof fn lemma_walk_visits_start(st: KeyspaceState, seed: usize, k: nat)
    ensures
        calls_within(st, seed, k).contains(seed),
    decreases k,
{
    if k > 0 {
        lemma_walk_visits_start(st, seed, (k - 1) as nat);
    }
}

/// A node's reach count is positive exactly when some seed's walk visits
/// it.
pub proof fn lemma_reach_count_positive(st: KeyspaceState, seeds: Seq<usize>, i: usize)
    ensures
        reach_count(st, seeds, i) > 0 <==> exists|k: int| 0 <= k < seeds.len() && #[trigger] reached_from(st, seeds[k]).contains(i),
    decreases seeds.len(),
{
    if seeds.len() > 0 {
        let rest = seeds.drop_last();
        lemma_reach_count_positive(st, rest, i);
        if exists|k: int| 0 <= k < rest.len() && #[trigger] reached_from(st, rest[k]).contains(i) {
            let k = choose|k: int| 0 <= k < rest.len() && #[trigger] reached_from(st, rest[k]).contains(i);
            assert(seeds[k] == rest[k]);
        }
        if exists|k: int| 0 <= k < seeds.len() && #[trigger] reached_from(st, seeds[k]).contains(i) {
            let k = choose|k: int| 0 <= k < seeds.len() && #[trigger] reached_from(st, seeds[k]).contains(i);
            if k < rest.len() {
                assert(rest[k] == seeds[k]);
            }
        }
    }
}

proof fn lemma_seeds_upto_contains(st: KeyspaceState, f: ReachabilityFilter, n: nat, t: usize)
    requires
        st.wf(),
        n <= st.nodes().len(),
        t < n,
        is_seed(st, f, t),
    ensures
        seeds_upto(st, f, n).contains(t),
    decreases n,
{
    let r = seeds_upto(st, f, (n - 1) as nat);
    if t == n - 1 {
        assert(r.push(t)[r.len() as int] == t);
    } else {
        lemma_seeds_upto_contains(st, f, (n - 1) as nat, t);
        if is_seed(st, f, (n - 1) as usize) {
            let k = choose|k: int| 0 <= k < r.len() && r[k] == t;
            assert(r.push((n - 1) as usize)[k] == t);
        }
    }
}

/// Every item an entry point the filter keeps exposes is reached by at
/// least one seed: itself.
pub proof fn lemma_exposed_item_is_reached(st: KeyspaceState, f: ReachabilityFilter, i: usize)
    requires
        st.wf(),
        i < st.nodes().len(),
        is_seed(st, f, i),
    ensures
        reach_count(st, seed_list(st, f), i) >= 1,
{
    let seeds = seed_list(st, f);
    lemma_seeds_upto_contains(st, f, st.nodes().len(), i);
    let k = choose|k: int| 0 <= k < seeds.len() && seeds[k] == i;
    lemma_walk_visits_start(st, i, st.nodes().len());
    assert(reached_from(st, seeds[k]).contains(i));
    lemma_reach_count_positive(st, seeds, i);
}

proof fn lemma_production_upto(st: KeyspaceState, n: nat, i: usize)
    ensures
        reach_count(st, seeds_upto(st, ReachabilityFilter::ProductionOnly, n), i)
            <= reach_count(st, seeds_upto(st, ReachabilityFilter::All, n), i),
    decreases n,
{
    if n > 0 {
        lemma_production_upto(st, (n - 1) as nat, i);
        let t = (n - 1) as usize;
        let p = seeds_upto(st, ReachabilityFilter::ProductionOnly, (n - 1) as nat);
        let a = seeds_upto(st, ReachabilityFilter::All, (n - 1) as nat);
        if is_seed(st, ReachabilityFilter::ProductionOnly, t) {
            let j = choose|j: int| 0 <= j < st.edges().len() && #[trigger] st.edges()[j].2.label@ == EXPOSES_LABEL@
                && entry_ok(st, ReachabilityFilter::ProductionOnly, st.edges()[j].0) && st.edges()[j].1 == t;
            assert(entry_ok(st, ReachabilityFilter::All, st.edges()[j].0));
            assert(is_seed(st, ReachabilityFilter::All, t));
            assert(p.push(t).drop_last() =~= p);
        }
        if is_seed(st, ReachabilityFilter::All, t) {
            assert(a.push(t).drop_last() =~= a);
        }
    }
}

/// Counting over production entry points never gives more than counting
/// over all of them.
pub proof fn lemma_production_count_at_most_all(st: KeyspaceState, i: usize)
    ensures
        reach_count(st, seed_list(st, ReachabilityFilter::ProductionOnly), i)
            <= reach_count(st, seed_list(st, ReachabilityFilter::All), i),
{
    lemma_production_upto(st, st.nodes().len(), i);
}

/// The label of call-site nodes.
pub const CALL_SITE_LABEL: &'static str = "CallSite";
/// The `kind` of a call site a `#[serde(default = "..")]` attribute makes.
pub const SERDE_DEFAULT_KIND: &'static str = "serde_default";

/// Whether `::` starts at position `i` of `s`.
pub open spec fn is_sep_at(s: Seq<char>, i: int) -> bool {
    0 <= i && i + 1 < s.len() && s[i] == ':' && s[i + 1] == ':'
}

/// The last position before `n` where `::` starts, if any.
pub open spec fn sep_before(s: Seq<char>, n: nat) -> Option<int>
    decreases n,
{
    if n == 0 {
        None
    } else if is_sep_at(s, n - 1) {
        Some(n - 1)
    } else {
        sep_before(s, (n - 1) as nat)
    }
}

/// The first position from `i` on where `::` starts, if any.
pub open spec fn sep_from(s: Seq<char>, i: nat) -> Option<int>
    decreases s.len() - i,
{
    if i >= s.len() {
        None
    } else if is_sep_at(s, i as int) {
        Some(i as int)
    } else {
        sep_from(s, i + 1)
    }
}

/// The node id of the item with qualified name `path`.
pub open spec fn item_id(path: Seq<char>) -> Seq<char> {
    "item:"@ + path
}

/// The id the callee of an attribute-driven call resolves to: the path
/// as written, else the path in the module of the caller (its qualified
/// name up to the last `::`), else the path in the crate of the caller
/// (up to the first `::`); the first of these that is a node's id.
pub open spec fn resolve_callee(ns: Seq<Node>, callee: Seq<char>, caller: Seq<char>) -> Option<Seq<char>> {
    let exact = item_id(callee);
    let same_module = match sep_before(caller, caller.len()) {
        Some(i) => Some(item_id(caller.take(i) + "::"@ + callee)),
        None => None,
    };
    let same_crate = match sep_from(caller, 0) {
        Some(i) => Some(item_id(caller.take(i) + "::"@ + callee)),
        None => None,
    };
    if has_id(ns, exact) {
        Some(exact)
    } else if same_module is Some && has_id(ns, same_module->0) {
        same_module
    } else if same_crate is Some && has_id(ns, same_crate->0) {
        same_crate
    } else {
        None
    }
}

/// The id the attribute-driven call of call site `c` resolves to: for a
/// `serde_default` call site with string `callee_path` and `caller_qname`.
pub open spec fn call_site_target(st: KeyspaceState, c: int) -> Option<Seq<char>> {
    let n = st.nodes()[c];
    if n.label@ == CALL_SITE_LABEL@ && prop_of(n.props, "kind"@) == Some(PropView::Str(SERDE_DEFAULT_KIND@)) {
        match (prop_of(n.props, "callee_path"@), prop_of(n.props, "caller_qname"@)) {
            (Some(PropView::Str(callee)), Some(PropView::Str(caller))) => resolve_callee(st.nodes(), callee, caller),
            _ => None,
        }
    } else {
        None
    }
}

/// Whether some call site resolves to node `i`.
pub open spec fn is_attr_call_target(st: KeyspaceState, i: usize) -> bool {
    exists|c: int| 0 <= c < st.nodes().len() && #[trigger] call_site_target(st, c) == Some(st.nodes()[i as int].id@)
}

/// The number of call sites among the first `n` nodes that resolve.
pub open spec fn resolving_upto(st: KeyspaceState, n: nat) -> nat
    decreases n,
{
    if n == 0 {
        0
    } else {
        resolving_upto(st, (n - 1) as nat) + if call_site_target(st, n - 1) is Some { 1nat } else { 0nat }
    }
}

/// The last position before `n` in `v` where `::` starts.
fn find_sep_before(v: &Vec<char>, n: usize) -> (r: Option<usize>)
    requires
        n <= v@.len(),
    ensures
        match r {
            Some(i) => sep_before(v@, n as nat) == Some(i as int),
            None => sep_before(v@, n as nat) == None::<int>,
        },
    decreases n,
{
    if n == 0 {
        None
    } else if n < v.len() && v[n - 1] == ':' && v[n] == ':' {
        Some(n - 1)
    } else {
        find_sep_before(v, n - 1)
    }
}

/// The first position from `i` on in `v` where `::` starts.
fn find_sep_from(v: &Vec<char>, i: usize) -> (r: Option<usize>)
    requires
        i <= v@.len(),
    ensures
        match r {
            Some(j) => sep_from(v@, i as nat) == Some(j as int),
            None => sep_from(v@, i as nat) == None::<int>,
        },
    decreases v@.len() - i,
{
    if i >= v.len() {
        None
    } else if i + 1 < v.len() && v[i] == ':' && v[i + 1] == ':' {
        Some(i)
    } else {
        find_sep_from(v, i + 1)
    }
}

/// `item:` followed by the first `k` characters of `caller`, `::` and
/// `callee`.
fn joined_item_id(caller: &Vec<char>, k: usize, callee: &str) -> (r: String)
    requires
        k <= caller@.len(),
    ensures
        r@ == item_id(caller@.take(k as int) + "::"@ + callee@),
{
    let mut out = String::new();
    push_str(&mut out, "item:");
    let mut i: usize = 0;
    proof {
        reveal_strlit("item:");
        reveal_strlit("::");
    }
    while i < k
        invariant
            k <= caller@.len(),
            i <= k,
            out@ == "item:"@ + caller@.take(i as int),
        decreases k - i,
    {
        push_char(&mut out, caller[i]);
        proof {
            assert(caller@.take(i + 1) =~= caller@.take(i as int).push(caller@[i as int]));
            assert(out@ =~= "item:"@ + caller@.take(i + 1));
        }
        i = i + 1;
    }
    push_str(&mut out, "::");
    push_str(&mut out, callee);
    proof {
        assert(out@ =~= item_id(caller@.take(k as int) + "::"@ + callee@));
    }
    out
}

/// The index of the item the attribute-driven call to `callee_path` made
/// from `caller_qname` resolves to: as written, else in the caller's
/// module, else in the caller's crate.
pub fn resolve_callee_to_item(st: &KeyspaceState, callee_path: &str, caller_qname: &str) -> (r: Option<usize>)
    requires
        st.wf(),
    ensures
        match r {
            Some(i) => resolve_callee(st.nodes(), callee_path@, caller_qname@) == Some(st.nodes()[i as int].id@)
                && i < st.nodes().len(),
            None => resolve_callee(st.nodes(), callee_path@, caller_qname@) is None,
        },
{
    let mut exact = String::new();
    push_str(&mut exact, "item:");
    push_str(&mut exact, callee_path);
    proof {
        reveal_strlit("item:");
        assert(exact@ == item_id(callee_path@));
    }
    match st.index_of_id(exact.as_str()) {
        Some(i) => {
            return Some(i);
        },
        None => {},
    }
    let cv = crate::text::chars_of(caller_qname);
    match find_sep_before(&cv, cv.len()) {
        Some(k) => {
            proof {
                lemma_sep_before_in(cv@, cv@.len());
            }
            let cand = joined_item_id(&cv, k, callee_path);
            match st.index_of_id(cand.as_str()) {
                Some(i) => {
                    return Some(i);
                },
                None => {},
            }
        },
        None => {},
    }
    match find_sep_from(&cv, 0) {
        Some(k) => {
            proof {
                if sep_from(cv@, 0) is Some {
                    lemma_sep_from_in(cv@, 0);
                }
            }
            let cand = joined_item_id(&cv, k, callee_path);
            match st.index_of_id(cand.as_str()) {
                Some(i) => {
                    return Some(i);
                },
                None => {},
            }
        },
        None => {},
    }
    None
}

proof fn lemma_sep_from_in(s: Seq<char>, i: nat)
    requires
        sep_from(s, i) is Some,
    ensures
        i <= sep_from(s, i)->0 < s.len(),
    decreases s.len() - i,
{
    if i < s.len() && !is_sep_at(s, i as int) {
        lemma_sep_from_in(s, i + 1);
    }
}

proof fn lemma_sep_before_in(s: Seq<char>, n: nat)
    requires
        sep_before(s, n) is Some,
    ensures
        0 <= sep_before(s, n)->0 < n,
    decreases n,
{
    if n > 0 && !is_sep_at(s, n - 1) {
        lemma_sep_before_in(s, (n - 1) as nat);
    }
}

} // verus!
