//! Path patterns `(from)-[edge]->(to)`: following edges one hop, or a
//! variable number of hops breadth first.
use vstd::prelude::*;

use crate::fact::Edge;
use crate::graph::KeyspaceState;
use crate::query::{Direction, EdgePattern};
use crate::text::str_eq;

verus! {

/// Whether an edge carries the pattern's label (any edge, for a pattern
/// without one).
pub open spec fn label_ok(ep: EdgePattern, e: Edge) -> bool {
    match ep.label {
        Some(l) => e.label@ == l@,
        None => true,
    }
}

/// Whether the pattern follows edges forwards.
pub open spec fn goes_out(d: Direction) -> bool {
    d == Direction::Out || d == Direction::Undirected
}

/// Whether the pattern follows edges backwards.
pub open spec fn goes_in(d: Direction) -> bool {
    d == Direction::In || d == Direction::Undirected
}

/// The `(target, edge)` pairs of the first `n` edges leaving `x` with the
/// pattern's label, by edge index.
pub open spec fn out_pairs(st: KeyspaceState, x: usize, ep: EdgePattern, n: nat) -> Seq<(usize, usize)>
    decreases n,
{
    if n == 0 {
        Seq::empty()
    } else {
        let r = out_pairs(st, x, ep, (n - 1) as nat);
        let e = st.edges()[n - 1];
        if e.0 == x && label_ok(ep, e.2) {
            r.push((e.1, (n - 1) as usize))
        } else {
            r
        }
    }
}

/// The `(source, edge)` pairs of the first `n` edges entering `x` with the
/// pattern's label, by edge index.
pub open spec fn in_pairs(st: KeyspaceState, x: usize, ep: EdgePattern, n: nat) -> Seq<(usize, usize)>
    decreases n,
{
    if n == 0 {
        Seq::empty()
    } else {
        let r = in_pairs(st, x, ep, (n - 1) as nat);
        let e = st.edges()[n - 1];
        if e.1 == x && label_ok(ep, e.2) {
            r.push((e.0, (n - 1) as usize))
        } else {
            r
        }
    }
}

/// The `(neighbour, edge)` pairs one hop from `x`: outgoing edges, then
/// incoming ones, as the direction asks.
pub open spec fn hop_pairs(st: KeyspaceState, x: usize, ep: EdgePattern) -> Seq<(usize, usize)> {
    let m = st.edges().len();
    (if goes_out(ep.direction) { out_pairs(st, x, ep, m) } else { Seq::empty() })
        + (if goes_in(ep.direction) { in_pairs(st, x, ep, m) } else { Seq::empty() })
}

/// The order of `(node, edge)` pairs: by node, then by edge.
pub open spec fn pair_lt(a: (usize, usize), b: (usize, usize)) -> bool {
    a.0 < b.0 || (a.0 == b.0 && a.1 < b.1)
}

/// `x` inserted before the first pair it sorts before.
pub open spec fn insert_pair(sorted: Seq<(usize, usize)>, x: (usize, usize)) -> Seq<(usize, usize)>
    decreases sorted.len(),
{
    if sorted.len() == 0 {
        seq![x]
    } else if pair_lt(x, sorted[0]) {
        seq![x] + sorted
    } else {
        seq![sorted[0]] + insert_pair(sorted.drop_first(), x)
    }
}

/// The pairs sorted by node, then by edge.
pub open spec fn sort_pairs(s: Seq<(usize, usize)>) -> Seq<(usize, usize)>
    decreases s.len(),
{
    if s.len() == 0 {
        Seq::empty()
    } else {
        insert_pair(sort_pairs(s.drop_last()), s.last())
    }
}

/// The nodes one step from some node of `s` along an edge the pattern
/// follows.
pub open spec fn steps_from(st: KeyspaceState, ep: EdgePattern, s: Set<usize>) -> Set<usize> {
    Set::new(|t: usize| exists|j: int| 0 <= j < st.edges().len() && #[trigger] label_ok(ep, st.edges()[j].2) && (
        (goes_out(ep.direction) && s.contains(st.edges()[j].0) && st.edges()[j].1 == t)
        || (goes_in(ep.direction) && s.contains(st.edges()[j].1) && st.edges()[j].0 == t)))
}

/// The nodes within `k` steps of `src`.
pub open spec fn reach(st: KeyspaceState, ep: EdgePattern, src: usize, k: nat) -> Set<usize>
    decreases k,
{
    if k == 0 {
        set![src]
    } else {
        let r = reach(st, ep, src, (k - 1) as nat);
        r.union(steps_from(st, ep, r))
    }
}

/// The depth bounds of a variable-length pattern: at least one hop and at
/// least the given minimum; at most the given maximum, and at most five
/// hops unless the minimum asks for more.
pub open spec fn depth_bounds(ep: EdgePattern) -> (nat, nat) {
    let (mn, mx) = match ep.var_length {
        Some(b) => b,
        None => (1u32, 1u32),
    };
    let lo: nat = if mn >= 1 { mn as nat } else { 1 };
    let top: nat = if mx >= mn { mx as nat } else { mn as nat };
    let cap: nat = if mn >= 5 { mn as nat } else { 5 };
    let hi: nat = if top <= cap { top } else { cap };
    (lo, hi)
}

/// The nodes a variable-length pattern reaches from `src`: other than
/// `src`, at a shortest distance between the depth bounds.
pub open spec fn far_nodes(st: KeyspaceState, ep: EdgePattern, src: usize) -> Set<usize> {
    let (lo, hi) = depth_bounds(ep);
    Set::new(|t: usize| t != src && reach(st, ep, src, hi).contains(t) && !reach(st, ep, src, (lo - 1) as nat).contains(t))
}

/// A variable-length pattern `*m..n` (with `1 <= m`) reaches exactly the
/// nodes other than the source at a shortest distance of at least `m`
/// and at most `n` hops (`n` at most five here): every node it returns lies
/// beyond `m - 1` hops and within `n`, and every such node is returned.
pub proof fn lemma_var_length_distance(st: KeyspaceState, ep: EdgePattern, src: usize, m: u32, n: u32, t: usize)
    requires
        ep.var_length == Some((m, n)),
        1 <= m <= n <= 5,
    ensures
        far_nodes(st, ep, src).contains(t) <==> {
            &&& t != src
            &&& reach(st, ep, src, n as nat).contains(t)
            &&& !reach(st, ep, src, (m - 1) as nat).contains(t)
        },
{
}

/// Whatever its bounds, a variable-length pattern never returns a node
/// within fewer hops than its minimum asks: for `*m..` with `m >= 1`, no
/// node reachable in `m - 1` hops is returned.
pub proof fn lemma_var_length_minimum(st: KeyspaceState, ep: EdgePattern, src: usize, m: u32, n: u32, t: usize)
    requires
        ep.var_length == Some((m, n)),
        m >= 1,
        far_nodes(st, ep, src).contains(t),
    ensures
        !reach(st, ep, src, (m - 1) as nat).contains(t),
        t != src,
{
}

/// The set a vector of flags marks.
pub open spec fn marked(v: Seq<bool>) -> Set<usize> {
    Set::new(|t: usize| t < v.len() && v[t as int])
}

/// Whether edge `e` carries the pattern's label.
pub fn edge_label_ok(ep: &EdgePattern, e: &Edge) -> (r: bool)
    ensures
        r == label_ok(*ep, *e),
{
    match &ep.label {
        Some(l) => str_eq(e.label.as_str(), l.as_str()),
        None => true,
    }
}

fn dir_out(d: Direction) -> (r: bool)
    ensures
        r == goes_out(d),
{
    match d {
        Direction::Out => true,
        Direction::In => false,
        Direction::Undirected => true,
    }
}

fn dir_in(d: Direction) -> (r: bool)
    ensures
        r == goes_in(d),
{
    match d {
        Direction::Out => false,
        Direction::In => true,
        Direction::Undirected => true,
    }
}

proof fn lemma_insert_pair_at(sorted: Seq<(usize, usize)>, x: (usize, usize), p: int)
    requires
        0 <= p <= sorted.len(),
        forall|j: int| 0 <= j < p ==> !pair_lt(x, #[trigger] sorted[j]),
        p < sorted.len() ==> pair_lt(x, sorted[p]),
    ensures
        insert_pair(sorted, x) == sorted.insert(p, x),
    decreases sorted.len(),
{
    if sorted.len() == 0 {
        assert(sorted.insert(p, x) =~= seq![x]);
    } else if p == 0 {
        assert(sorted.insert(0, x) =~= seq![x] + sorted);
    } else {
        let rest = sorted.drop_first();
        assert forall|j: int| 0 <= j < p - 1 implies !pair_lt(x, #[trigger] rest[j]) by {
            assert(rest[j] == sorted[j + 1]);
        }
        lemma_insert_pair_at(rest, x, p - 1);
        assert(seq![sorted[0]] + rest.insert(p - 1, x) =~= sorted.insert(p, x));
    }
}

/// The `(neighbour, edge)` pairs one hop from node `x`, sorted by
/// neighbour, then edge.
pub fn traverse_single_hop(st: &KeyspaceState, x: usize, ep: &EdgePattern) -> (r: Vec<(usize, usize)>)
    requires
        st.wf(),
    ensures
        r@ == sort_pairs(hop_pairs(*st, x, *ep)),
        forall|k: int| 0 <= k < r@.len() ==> (#[trigger] r@[k]).0 < st.nodes().len() && r@[k].1 < st.edges().len(),
{
    let m = st.edge_count();
    let mut pairs: Vec<(usize, usize)> = Vec::new();
    let outgoing = dir_out(ep.direction);
    let incoming = dir_in(ep.direction);
    let mut j: usize = 0;
    while j < m
        invariant
            st.wf(),
            m == st.edges().len(),
            j <= m,
            outgoing == goes_out(ep.direction),
            pairs@ == if outgoing { out_pairs(*st, x, *ep, j as nat) } else { Seq::<(usize, usize)>::empty() },
            forall|k: int| 0 <= k < pairs@.len() ==> (#[trigger] pairs@[k]).0 < st.nodes().len() && pairs@[k].1 < st.edges().len(),
        decreases m - j,
    {
        if outgoing {
            let (s, t) = st.edge_endpoints(j);
            if s == x && edge_label_ok(ep, st.edge(j)) {
                pairs.push((t, j));
            }
        }
        j = j + 1;
    }
    let ghost outs = pairs@;
    let mut j: usize = 0;
    while j < m
        invariant
            st.wf(),
            m == st.edges().len(),
            j <= m,
            incoming == goes_in(ep.direction),
            pairs@ == outs + if incoming { in_pairs(*st, x, *ep, j as nat) } else { Seq::<(usize, usize)>::empty() },
            forall|k: int| 0 <= k < pairs@.len() ==> (#[trigger] pairs@[k]).0 < st.nodes().len() && pairs@[k].1 < st.edges().len(),
        decreases m - j,
    {
        if incoming {
            let (s, t) = st.edge_endpoints(j);
            if t == x && edge_label_ok(ep, st.edge(j)) {
                pairs.push((s, j));
                proof {
                    assert(in_pairs(*st, x, *ep, (j + 1) as nat) == in_pairs(*st, x, *ep, j as nat).push((s, j)));
                }
            }
        }
        proof {
            if incoming {
                assert(pairs@ =~= outs + in_pairs(*st, x, *ep, (j + 1) as nat));
            } else {
                assert(pairs@ =~= outs + Seq::<(usize, usize)>::empty());
            }
        }
        j = j + 1;
    }
    proof {
        assert(pairs@ == hop_pairs(*st, x, *ep));
    }
    // Insertion sort, stable.
    let ghost all = pairs@;
    let mut sorted: Vec<(usize, usize)> = Vec::new();
    let mut i: usize = 0;
    proof {
        assert(all.take(0) =~= Seq::<(usize, usize)>::empty());
    }
    while i < pairs.len()
        invariant
            st.wf(),
            all == pairs@,
            i <= all.len(),
            sorted@ == sort_pairs(all.take(i as int)),
            forall|k: int| 0 <= k < all.len() ==> (#[trigger] all[k]).0 < st.nodes().len() && all[k].1 < st.edges().len(),
            forall|k: int| 0 <= k < sorted@.len() ==> (#[trigger] sorted@[k]).0 < st.nodes().len() && sorted@[k].1 < st.edges().len(),
        decreases all.len() - i,
    {
        let xp = pairs[i];
        let mut p: usize = 0;
        while p < sorted.len() && !(xp.0 < sorted[p].0 || (xp.0 == sorted[p].0 && xp.1 < sorted[p].1))
            invariant
                p <= sorted@.len(),
                forall|k: int| 0 <= k < p ==> !pair_lt(xp, #[trigger] sorted@[k]),
            decreases sorted@.len() - p,
        {
            p = p + 1;
        }
        proof {
            lemma_insert_pair_at(sorted@, xp, p as int);
            assert(all.take(i + 1).drop_last() =~= all.take(i as int));
            assert(all.take(i + 1).last() == xp);
        }
        sorted.insert(p, xp);
        i = i + 1;
    }
    proof {
        assert(all.take(i as int) =~= all);
    }
    sorted
}

proof fn lemma_reach_mono(st: KeyspaceState, ep: EdgePattern, src: usize, a: nat, b: nat)
    requires
        a <= b,
    ensures
        reach(st, ep, src, a).subset_of(reach(st, ep, src, b)),
    decreases b,
{
    if a < b {
        lemma_reach_mono(st, ep, src, a, (b - 1) as nat);
    }
}

proof fn lemma_reach_stable(st: KeyspaceState, ep: EdgePattern, src: usize, d: nat, k: nat)
    requires
        reach(st, ep, src, d + 1) == reach(st, ep, src, d),
        d <= k,
    ensures
        reach(st, ep, src, k) == reach(st, ep, src, d),
    decreases k,
{
    if k > d + 1 {
        lemma_reach_stable(st, ep, src, d, (k - 1) as nat);
        assert(reach(st, ep, src, k) == reach(st, ep, src, (k - 1) as nat).union(
            steps_from(st, ep, reach(st, ep, src, (k - 1) as nat)),
        ));
    }
}

proof fn lemma_reach_in_range(st: KeyspaceState, ep: EdgePattern, src: usize, k: nat)
    requires
        st.wf(),
        src < st.nodes().len(),
    ensures
        forall|t: usize| #[trigger] reach(st, ep, src, k).contains(t) ==> t < st.nodes().len(),
    decreases k,
{
    if k > 0 {
        let r = reach(st, ep, src, (k - 1) as nat);
        lemma_reach_in_range(st, ep, src, (k - 1) as nat);
        assert forall|t: usize| #[trigger] reach(st, ep, src, k).contains(t) implies t < st.nodes().len() by {
            if !r.contains(t) {
                assert(steps_from(st, ep, r).contains(t));
                let j = choose|j: int| 0 <= j < st.edges().len() && #[trigger] label_ok(ep, st.edges()[j].2) && (
                    (goes_out(ep.direction) && r.contains(st.edges()[j].0) && st.edges()[j].1 == t)
                    || (goes_in(ep.direction) && r.contains(st.edges()[j].1) && st.edges()[j].0 == t));
                assert(st.edges()[j].0 < st.nodes().len() && st.edges()[j].1 < st.nodes().len());
            }
        }
    } else {
        assert forall|t: usize| #[trigger] reach(st, ep, src, k).contains(t) implies t < st.nodes().len() by {
            assert(reach(st, ep, src, 0) == set![src]);
        }
    }
}

proof fn lemma_marked_set(v: Seq<bool>, i: usize)
    requires
        i < v.len(),
    ensures
        marked(v.update(i as int, true)) == marked(v).insert(i),
{
    assert(marked(v.update(i as int, true)) =~= marked(v).insert(i));
}

/// One breadth-first step: the marked nodes and their neighbours.
fn step_marked(st: &KeyspaceState, ep: &EdgePattern, reached: &Vec<bool>) -> (r: Vec<bool>)
    requires
        st.wf(),
        reached@.len() == st.nodes().len(),
    ensures
        r@.len() == reached@.len(),
        marked(r@) == marked(reached@).union(steps_from(*st, *ep, marked(reached@))),
{
    let ghost s = marked(reached@);
    let m = st.edge_count();
    let outgoing = dir_out(ep.direction);
    let incoming = dir_in(ep.direction);
    let mut next = reached.clone();
    proof {
        assert(next@ =~= reached@);
    }
    let mut j: usize = 0;
    while j < m
        invariant
            st.wf(),
            m == st.edges().len(),
            reached@.len() == st.nodes().len(),
            next@.len() == reached@.len(),
            s == marked(reached@),
            outgoing == goes_out(ep.direction),
            incoming == goes_in(ep.direction),
            j <= m,
            marked(next@) == s.union(Set::new(|t: usize| exists|i: int| 0 <= i < j && #[trigger] label_ok(*ep, st.edges()[i].2) && (
                (outgoing && s.contains(st.edges()[i].0) && st.edges()[i].1 == t)
                || (incoming && s.contains(st.edges()[i].1) && st.edges()[i].0 == t)))),
        decreases m - j,
    {
        let (a, b) = st.edge_endpoints(j);
        let ok = edge_label_ok(ep, st.edge(j));
        let ghost before = marked(next@);
        let ghost e = st.edges()[j as int];
        proof {
            assert(e.0 < st.nodes().len() && e.1 < st.nodes().len());
            assert(s.contains(a) == reached@[a as int]);
            assert(s.contains(b) == reached@[b as int]);
        }
        let c1 = ok && outgoing && reached[a];
        if c1 {
            proof {
                lemma_marked_set(next@, b);
            }
            next.set(b, true);
        }
        let ghost mid = marked(next@);
        let c2 = ok && incoming && reached[b];
        if c2 {
            proof {
                lemma_marked_set(next@, a);
            }
            next.set(a, true);
        }
        proof {
            let prev = Set::new(|t: usize| exists|i: int| 0 <= i < j && #[trigger] label_ok(*ep, st.edges()[i].2) && (
                (outgoing && s.contains(st.edges()[i].0) && st.edges()[i].1 == t)
                || (incoming && s.contains(st.edges()[i].1) && st.edges()[i].0 == t)));
            let now = Set::new(|t: usize| exists|i: int| 0 <= i < j + 1 && #[trigger] label_ok(*ep, st.edges()[i].2) && (
                (outgoing && s.contains(st.edges()[i].0) && st.edges()[i].1 == t)
                || (incoming && s.contains(st.edges()[i].1) && st.edges()[i].0 == t)));
            assert(before == s.union(prev));
            assert(mid == if c1 { before.insert(b) } else { before });
            assert(marked(next@) == if c2 { mid.insert(a) } else { mid });
            assert forall|t: usize| marked(next@).contains(t) <==> s.union(now).contains(t) by {
                if prev.contains(t) {
                    let i = choose|i: int| 0 <= i < j && #[trigger] label_ok(*ep, st.edges()[i].2) && (
                        (outgoing && s.contains(st.edges()[i].0) && st.edges()[i].1 == t)
                        || (incoming && s.contains(st.edges()[i].1) && st.edges()[i].0 == t));
                    assert(now.contains(t));
                }
                if now.contains(t) && !prev.contains(t) {
                    let i = choose|i: int| 0 <= i < j + 1 && #[trigger] label_ok(*ep, st.edges()[i].2) && (
                        (outgoing && s.contains(st.edges()[i].0) && st.edges()[i].1 == t)
                        || (incoming && s.contains(st.edges()[i].1) && st.edges()[i].0 == t));
                    assert(i == j);
                }
                if c1 && t == b {
                    assert(now.contains(t)) by {
                        assert(label_ok(*ep, st.edges()[j as int].2));
                    }
                }
                if c2 && t == a {
                    assert(now.contains(t)) by {
                        assert(label_ok(*ep, st.edges()[j as int].2));
                    }
                }
            }
            assert(marked(next@) =~= s.union(now));
        }
        j = j + 1;
    }
    proof {
        assert forall|t: usize| marked(next@).contains(t) <==> s.union(steps_from(*st, *ep, s)).contains(t) by {
        }
        assert(marked(next@) =~= s.union(steps_from(*st, *ep, s)));
    }
    next
}

fn same_marks(a: &Vec<bool>, b: &Vec<bool>) -> (r: bool)
    requires
        a@.len() == b@.len(),
    ensures
        r == (marked(a@) == marked(b@)),
{
    let mut i: usize = 0;
    while i < a.len()
        invariant
            a@.len() == b@.len(),
            i <= a@.len(),
            forall|k: int| 0 <= k < i ==> a@[k] == b@[k],
        decreases a@.len() - i,
    {
        if a[i] != b[i] {
            proof {
                assert(marked(a@).contains(i) != marked(b@).contains(i));
            }
            return false;
        }
        i = i + 1;
    }
    proof {
        assert(marked(a@) =~= marked(b@));
    }
    true
}

/// The depth bounds of a variable-length pattern.
fn depth_bounds_of(ep: &EdgePattern) -> (r: (u32, u32))
    ensures
        r.0 as nat == depth_bounds(*ep).0,
        r.1 as nat == depth_bounds(*ep).1,
{
    let (mn, mx) = match ep.var_length {
        Some(b) => b,
        None => (1u32, 1u32),
    };
    let lo: u32 = if mn >= 1 { mn } else { 1 };
    let top: u32 = if mx >= mn { mx } else { mn };
    let cap: u32 = if mn >= 5 { mn } else { 5 };
    let hi: u32 = if top <= cap { top } else { cap };
    (lo, hi)
}

/// The nodes a variable-length pattern reaches from `src`, ascending.
pub fn traverse_bfs(st: &KeyspaceState, src: usize, ep: &EdgePattern) -> (r: Vec<usize>)
    requires
        st.wf(),
        src < st.nodes().len(),
    ensures
        crate::graph::increasing(r@),
        forall|t: usize| #[trigger] r@.contains(t) <==> far_nodes(*st, *ep, src).contains(t),
        forall|k: int| 0 <= k < r@.len() ==> #[trigger] r@[k] < st.nodes().len(),
{
    let (lo, hi) = depth_bounds_of(ep);
    let n = st.node_count();
    let mut reached: Vec<bool> = vec![false; n];
    reached.set(src, true);
    proof {
        assert(marked(reached@) =~= reach(*st, *ep, src, 0));
    }
    let lo1: u32 = lo - 1;
    let mut snap: Vec<bool> = reached.clone();
    proof {
        assert(snap@ =~= reached@);
    }
    let mut d: u32 = 0;
    let mut stable = false;
    while d < hi && !stable
        invariant
            st.wf(),
            n == st.nodes().len(),
            src < n,
            reached@.len() == n,
            snap@.len() == n,
            lo as nat == depth_bounds(*ep).0,
            hi as nat == depth_bounds(*ep).1,
            lo1 == lo - 1,
            d <= hi,
            marked(reached@) == reach(*st, *ep, src, d as nat),
            d <= lo1 ==> marked(snap@) == reach(*st, *ep, src, d as nat),
            d > lo1 ==> marked(snap@) == reach(*st, *ep, src, lo1 as nat),
            stable ==> reach(*st, *ep, src, d as nat + 1) == reach(*st, *ep, src, d as nat),
        decreases hi - d,
    {
        let next = step_marked(st, ep, &reached);
        stable = same_marks(&next, &reached);
        proof {
            assert(marked(next@) == reach(*st, *ep, src, d as nat + 1));
        }
        reached = next;
        d = d + 1;
        if d <= lo1 {
            snap = reached.clone();
            proof {
                assert(snap@ =~= reached@);
            }
        }
        proof {
            if stable {
                lemma_reach_stable(*st, *ep, src, (d - 1) as nat, d as nat + 1);
            }
        }
    }
    proof {
        let (lo_s, hi_s) = depth_bounds(*ep);
        if stable {
            lemma_reach_stable(*st, *ep, src, d as nat, hi_s);
            if (d as nat) < lo1 as nat {
                lemma_reach_stable(*st, *ep, src, d as nat, lo1 as nat);
            }
        }
    }
    if stable && d < lo1 {
        snap = reached.clone();
        proof {
            assert(snap@ =~= reached@);
        }
    }
    proof {
        let (lo_s, hi_s) = depth_bounds(*ep);
        assert(marked(reached@) == reach(*st, *ep, src, hi_s));
        assert(marked(snap@) == reach(*st, *ep, src, (lo_s - 1) as nat));
        lemma_reach_in_range(*st, *ep, src, hi_s);
    }
    let mut out: Vec<usize> = Vec::new();
    let mut t: usize = 0;
    while t < n
        invariant
            st.wf(),
            n == st.nodes().len(),
            reached@.len() == n,
            snap@.len() == n,
            marked(reached@) == reach(*st, *ep, src, depth_bounds(*ep).1),
            marked(snap@) == reach(*st, *ep, src, (depth_bounds(*ep).0 - 1) as nat),
            t <= n,
            crate::graph::increasing(out@),
            forall|k: int| 0 <= k < out@.len() ==> #[trigger] out@[k] < t,
            forall|x: usize| #[trigger] out@.contains(x) <==> x < t && far_nodes(*st, *ep, src).contains(x),
        decreases n - t,
    {
        let ghost old_out = out@;
        let keep = reached[t] && !snap[t] && t != src;
        if keep {
            out.push(t);
        }
        proof {
            assert(marked(reached@).contains(t) == reached@[t as int]);
            assert(marked(snap@).contains(t) == snap@[t as int]);
            assert(keep == far_nodes(*st, *ep, src).contains(t));
            assert forall|x: usize| #[trigger] out@.contains(x) <==> x < t + 1 && far_nodes(*st, *ep, src).contains(x) by {
                if keep {
                    assert(out@ == old_out.push(t));
                    if out@.contains(x) && x != t {
                        let k = choose|k: int| 0 <= k < out@.len() && out@[k] == x;
                        assert(old_out[k] == x);
                    }
                    if old_out.contains(x) {
                        let k = choose|k: int| 0 <= k < old_out.len() && old_out[k] == x;
                        assert(out@[k] == x);
                    }
                    if x == t {
                        assert(out@[old_out.len() as int] == t);
                    }
                }
            }
        }
        t = t + 1;
    }
    proof {
        assert forall|x: usize| #[trigger] out@.contains(x) <==> far_nodes(*st, *ep, src).contains(x) by {
            if far_nodes(*st, *ep, src).contains(x) {
                assert(reach(*st, *ep, src, depth_bounds(*ep).1).contains(x));
            }
        }
        assert forall|k: int| 0 <= k < out@.len() implies #[trigger] out@[k] < st.nodes().len() by {}
    }
    out
}

} // verus!
