//! Reading and writing one keyspace's graph by node id: node lookup,
//! neighbours, attribute writes, and the label and edge listings.
use vstd::prelude::*;

use crate::clause::texts_of;
use crate::fact::{Edge, Node, PropValue};
use crate::graph::{has_id, id_index, prop_written, KeyspaceState};
use crate::graph_api::{id_map_entries, id_map_get};
use crate::pattern::{pair_populated, populated};
use crate::path::{goes_in, goes_out};
use crate::query::Direction;
use crate::reachability::labelled;

verus! {

/// The `(edge label, neighbour id)` pairs of the first `m` edges leaving
/// node `x`, latest edge first.
pub open spec fn out_neighbors(st: KeyspaceState, x: usize, m: nat) -> Seq<(Seq<char>, Seq<char>)>
    decreases m,
{
    if m == 0 {
        Seq::empty()
    } else {
        let e = st.edges()[m - 1];
        (if e.0 == x { seq![(e.2.label@, st.nodes()[e.1 as int].id@)] } else { Seq::empty() })
            + out_neighbors(st, x, (m - 1) as nat)
    }
}

/// The `(edge label, neighbour id)` pairs of the first `m` edges entering
/// node `x`, latest edge first.
pub open spec fn in_neighbors(st: KeyspaceState, x: usize, m: nat) -> Seq<(Seq<char>, Seq<char>)>
    decreases m,
{
    if m == 0 {
        Seq::empty()
    } else {
        let e = st.edges()[m - 1];
        (if e.1 == x { seq![(e.2.label@, st.nodes()[e.0 as int].id@)] } else { Seq::empty() })
            + in_neighbors(st, x, (m - 1) as nat)
    }
}

/// The neighbours of the node with id `id`: along edges leaving it, then
/// along edges entering it, as the direction asks; none for an unknown id.
pub open spec fn neighbors_of(st: KeyspaceState, id: Seq<char>, d: Direction) -> Seq<(Seq<char>, Seq<char>)> {
    if has_id(st.nodes(), id) {
        let x = id_index(st.nodes(), id) as usize;
        let m = st.edges().len();
        (if goes_out(d) { out_neighbors(st, x, m) } else { Seq::empty() })
            + (if goes_in(d) { in_neighbors(st, x, m) } else { Seq::empty() })
    } else {
        Seq::empty()
    }
}

/// The `(edge, target)` index pairs of the first `m` edges leaving node
/// `x`, latest edge first.
pub open spec fn out_edges(st: KeyspaceState, x: usize, m: nat) -> Seq<(usize, usize)>
    decreases m,
{
    if m == 0 {
        Seq::empty()
    } else {
        let e = st.edges()[m - 1];
        (if e.0 == x { seq![((m - 1) as usize, e.1)] } else { Seq::empty() }) + out_edges(st, x, (m - 1) as nat)
    }
}

/// The `(edge, source)` index pairs of the first `m` edges entering node
/// `x`, latest edge first.
pub open spec fn in_edges(st: KeyspaceState, x: usize, m: nat) -> Seq<(usize, usize)>
    decreases m,
{
    if m == 0 {
        Seq::empty()
    } else {
        let e = st.edges()[m - 1];
        (if e.1 == x { seq![((m - 1) as usize, e.0)] } else { Seq::empty() }) + in_edges(st, x, (m - 1) as nat)
    }
}

/// The texts of a list of string pairs.
pub open spec fn pairs_view(s: Seq<(String, String)>) -> Seq<(Seq<char>, Seq<char>)> {
    s.map_values(|p: (String, String)| (p.0@, p.1@))
}

/// The ids of the nodes at indexes `idx`.
pub open spec fn ids_at(st: KeyspaceState, idx: Seq<usize>) -> Seq<Seq<char>> {
    idx.map_values(|i: usize| st.nodes()[i as int].id@)
}

impl KeyspaceState {
    /// The index of the node with id `id`, if there is one.
    pub fn index_of_id(&self, id: &str) -> (r: Option<usize>)
        requires
            self.wf(),
        ensures
            match r {
                Some(i) => has_id(self.nodes(), id@) && i as int == id_index(self.nodes(), id@) && i < self.nodes().len(),
                None => !has_id(self.nodes(), id@),
            },
    {
        proof {
            self.lemma_unique_ids();
        }
        match id_map_get(&self.id_to_idx, id) {
            Some(i) => {
                proof {
                    assert(self.nodes()[i as int].id@ == id@);
                    crate::graph::lemma_id_index_unique(self.nodes(), i as int);
                }
                Some(i)
            },
            None => {
                proof {
                    if has_id(self.nodes(), id@) {
                        let i = choose|i: int| 0 <= i < self.nodes().len() && #[trigger] self.nodes()[i].id@ == id@;
                        assert(id_map_entries(self.id_to_idx).contains_key(self.nodes()[i].id@));
                    }
                }
                None
            },
        }
    }

    /// The node with id `id`, if there is one.
    pub fn node_by_id(&self, id: &str) -> (r: Option<&Node>)
        requires
            self.wf(),
        ensures
            match r {
                Some(n) => has_id(self.nodes(), id@) && *n == self.nodes()[id_index(self.nodes(), id@)],
                None => !has_id(self.nodes(), id@),
            },
    {
        match self.index_of_id(id) {
            Some(i) => Some(self.node(i)),
            None => None,
        }
    }

    /// The ids of the nodes labelled `label`, by node index.
    pub fn node_ids_with_label(&self, label: &String) -> (r: Vec<String>)
        requires
            self.wf(),
        ensures
            texts_of(r@) == ids_at(*self, labelled(*self, label@)),
    {
        let idx = self.nodes_with_label(label);
        proof {
            crate::reachability::lemma_labelled(*self, label@);
            crate::order::lemma_sorted_unique(idx@, labelled(*self, label@), |a: usize, b: usize| a < b);
            assert forall|q: int| 0 <= q < idx@.len() implies #[trigger] idx@[q] < self.nodes().len() by {
                assert(idx@.contains(idx@[q]));
            }
        }
        let mut out: Vec<String> = Vec::new();
        let mut k: usize = 0;
        proof {
            assert(texts_of(out@) =~= ids_at(*self, idx@.take(0)));
        }
        while k < idx.len()
            invariant
                self.wf(),
                idx@ == labelled(*self, label@),
                forall|q: int| 0 <= q < idx@.len() ==> #[trigger] idx@[q] < self.nodes().len(),
                k <= idx@.len(),
                texts_of(out@) == ids_at(*self, idx@.take(k as int)),
            decreases idx@.len() - k,
        {
            let n = self.node(idx[k]);
            let ghost before = out@;
            out.push(n.id.clone());
            proof {
                assert(idx@.take(k + 1) =~= idx@.take(k as int).push(idx@[k as int]));
                assert(ids_at(*self, idx@.take(k + 1)) =~= ids_at(*self, idx@.take(k as int)).push(self.nodes()[idx@[k as int] as int].id@));
                assert(texts_of(out@) =~= texts_of(before).push(out@.last()@));
            }
            k = k + 1;
        }
        proof {
            assert(idx@.take(k as int) =~= idx@);
        }
        out
    }

    /// The `(edge label, neighbour id)` pairs of the node with id `id`,
    /// latest edge first: leaving it, then entering it, as `dir` asks.
    pub fn neighbors(&self, id: &str, dir: Direction) -> (r: Vec<(String, String)>)
        requires
            self.wf(),
        ensures
            pairs_view(r@) == neighbors_of(*self, id@, dir),
    {
        let mut out: Vec<(String, String)> = Vec::new();
        let x = match self.index_of_id(id) {
            Some(x) => x,
            None => {
                proof {
                    assert(pairs_view(out@) =~= Seq::<(Seq<char>, Seq<char>)>::empty());
                }
                return out;
            },
        };
        let m = self.edge_count();
        let outgoing = match dir {
            Direction::Out => true,
            Direction::In => false,
            Direction::Undirected => true,
        };
        let incoming = match dir {
            Direction::Out => false,
            Direction::In => true,
            Direction::Undirected => true,
        };
        if outgoing {
            let mut j: usize = m;
            proof {
                assert(pairs_view(out@) =~= Seq::<(Seq<char>, Seq<char>)>::empty());
            }
            while j > 0
                invariant
                    self.wf(),
                    m == self.edges().len(),
                    x < self.nodes().len(),
                    j <= m,
                    pairs_view(out@) + out_neighbors(*self, x, j as nat) == out_neighbors(*self, x, m as nat),
                decreases j,
            {
                let (a, b) = self.edge_endpoints(j - 1);
                let ghost before = pairs_view(out@);
                if a == x {
                    let lbl = self.edge(j - 1).label.clone();
                    let other = self.node(b).id.clone();
                    out.push((lbl, other));
                    proof {
                        assert(pairs_view(out@) =~= before.push((lbl@, other@)));
                        let e = self.edges()[j - 1];
                        assert(e.0 == a && e.1 == b && e.2.label@ == lbl@);
                        assert(self.nodes()[e.1 as int].id@ == other@);
                        assert(out_neighbors(*self, x, j as nat) == seq![(lbl@, other@)] + out_neighbors(*self, x, (j - 1) as nat));
                        assert(before + out_neighbors(*self, x, j as nat) =~= pairs_view(out@) + out_neighbors(*self, x, (j - 1) as nat));
                    }
                } else {
                    proof {
                        assert(out_neighbors(*self, x, j as nat) =~= out_neighbors(*self, x, (j - 1) as nat));
                    }
                }
                j = j - 1;
            }
        }
        let ghost outs = pairs_view(out@);
        proof {
            assert(outs =~= if goes_out(dir) { out_neighbors(*self, x, m as nat) } else { Seq::<(Seq<char>, Seq<char>)>::empty() });
        }
        if incoming {
            let mut j: usize = m;
            while j > 0
                invariant
                    self.wf(),
                    m == self.edges().len(),
                    x < self.nodes().len(),
                    j <= m,
                    pairs_view(out@) + in_neighbors(*self, x, j as nat) == outs + in_neighbors(*self, x, m as nat),
                decreases j,
            {
                let (a, b) = self.edge_endpoints(j - 1);
                let ghost before = pairs_view(out@);
                if b == x {
                    let lbl = self.edge(j - 1).label.clone();
                    let other = self.node(a).id.clone();
                    out.push((lbl, other));
                    proof {
                        assert(pairs_view(out@) =~= before.push((lbl@, other@)));
                        let e = self.edges()[j - 1];
                        assert(e.0 == a && e.1 == b && e.2.label@ == lbl@);
                        assert(self.nodes()[e.0 as int].id@ == other@);
                        assert(in_neighbors(*self, x, j as nat) == seq![(lbl@, other@)] + in_neighbors(*self, x, (j - 1) as nat));
                        assert(before + in_neighbors(*self, x, j as nat) =~= pairs_view(out@) + in_neighbors(*self, x, (j - 1) as nat));
                    }
                } else {
                    proof {
                        assert(in_neighbors(*self, x, j as nat) =~= in_neighbors(*self, x, (j - 1) as nat));
                    }
                }
                j = j - 1;
            }
            proof {
                assert(pairs_view(out@) =~= outs + in_neighbors(*self, x, m as nat));
            }
        } else {
            proof {
                assert(pairs_view(out@) =~= outs + Seq::<(Seq<char>, Seq<char>)>::empty());
            }
        }
        out
    }

    /// Sets property `key` of the node with id `id`; false, with nothing
    /// changed, when there is no such node.
    pub fn set_attr(&mut self, id: &str, key: &str, value: PropValue) -> (r: bool)
        requires
            old(self).wf(),
        ensures
            final(self).wf(),
            r == has_id(old(self).nodes(), id@),
            !r ==> *final(self) == *old(self),
            r ==> {
                let i = id_index(old(self).nodes(), id@);
                &&& final(self).nodes().len() == old(self).nodes().len()
                &&& prop_written(old(self).nodes()[i], final(self).nodes()[i], key@, value.pv())
                &&& forall|j: int| 0 <= j < old(self).nodes().len() && j != i ==> #[trigger] final(self).nodes()[j] == old(self).nodes()[j]
                &&& final(self).edges() == old(self).edges()
            },
    {
        match self.index_of_id(id) {
            Some(i) => {
                self.set_prop(i, key, value);
                true
            },
            None => false,
        }
    }

    /// The labels nodes have carried, in order.
    pub fn labels(&self) -> (r: Vec<String>)
        ensures
            texts_of(r@) == self.by_label.entries@.map_values(|e: (String, crate::sorted::SortedMap<usize, ()>)| e.0@),
    {
        let mut out: Vec<String> = Vec::new();
        let mut k: usize = 0;
        while k < self.by_label.entries.len()
            invariant
                k <= self.by_label.entries@.len(),
                texts_of(out@) == self.by_label.entries@.take(k as int).map_values(|e: (String, crate::sorted::SortedMap<usize, ()>)| e.0@),
            decreases self.by_label.entries@.len() - k,
        {
            let ghost before = out@;
            out.push(self.by_label.entries[k].0.clone());
            proof {
                assert(self.by_label.entries@.take(k + 1) =~= self.by_label.entries@.take(k as int).push(self.by_label.entries@[k as int]));
                assert(texts_of(out@) =~= texts_of(before).push(out@.last()@));
                assert(texts_of(out@) =~= self.by_label.entries@.take(k + 1).map_values(|e: (String, crate::sorted::SortedMap<usize, ()>)| e.0@));
            }
            k = k + 1;
        }
        proof {
            assert(self.by_label.entries@.take(k as int) =~= self.by_label.entries@);
        }
        out
    }

    /// The labels of ingested edges, in order.
    pub fn edge_label_list(&self) -> (r: Vec<String>)
        ensures
            texts_of(r@) == self.edge_labels.entries@.map_values(|e: (String, ())| e.0@),
    {
        let mut out: Vec<String> = Vec::new();
        let mut k: usize = 0;
        while k < self.edge_labels.entries.len()
            invariant
                k <= self.edge_labels.entries@.len(),
                texts_of(out@) == self.edge_labels.entries@.take(k as int).map_values(|e: (String, ())| e.0@),
            decreases self.edge_labels.entries@.len() - k,
        {
            let ghost before = out@;
            out.push(self.edge_labels.entries[k].0.clone());
            proof {
                assert(self.edge_labels.entries@.take(k + 1) =~= self.edge_labels.entries@.take(k as int).push(self.edge_labels.entries@[k as int]));
                assert(texts_of(out@) =~= texts_of(before).push(out@.last()@));
                assert(texts_of(out@) =~= self.edge_labels.entries@.take(k + 1).map_values(|e: (String, ())| e.0@));
            }
            k = k + 1;
        }
        proof {
            assert(self.edge_labels.entries@.take(k as int) =~= self.edge_labels.entries@);
        }
        out
    }

    /// The `(edge, target)` pairs of the edges leaving node `h`, latest
    /// edge first.
    pub fn edges_out(&self, h: usize) -> (r: Vec<(usize, usize)>)
        requires
            self.wf(),
        ensures
            r@ == out_edges(*self, h, self.edges().len()),
    {
        let m = self.edge_count();
        let mut out: Vec<(usize, usize)> = Vec::new();
        let mut j: usize = m;
        proof {
            assert(out@ + out_edges(*self, h, m as nat) =~= out_edges(*self, h, m as nat));
        }
        while j > 0
            invariant
                self.wf(),
                m == self.edges().len(),
                j <= m,
                out@ + out_edges(*self, h, j as nat) == out_edges(*self, h, m as nat),
            decreases j,
        {
            let (a, b) = self.edge_endpoints(j - 1);
            let ghost before = out@;
            if a == h {
                out.push((j - 1, b));
                proof {
                    assert(before + out_edges(*self, h, j as nat) =~= out@ + out_edges(*self, h, (j - 1) as nat));
                }
            } else {
                proof {
                    assert(out_edges(*self, h, j as nat) =~= out_edges(*self, h, (j - 1) as nat));
                }
            }
            j = j - 1;
        }
        proof {
            assert(out@ =~= out@ + out_edges(*self, h, 0));
        }
        out
    }

    /// The `(edge, source)` pairs of the edges entering node `h`, latest
    /// edge first.
    pub fn edges_in(&self, h: usize) -> (r: Vec<(usize, usize)>)
        requires
            self.wf(),
        ensures
            r@ == in_edges(*self, h, self.edges().len()),
    {
        let m = self.edge_count();
        let mut out: Vec<(usize, usize)> = Vec::new();
        let mut j: usize = m;
        proof {
            assert(out@ + in_edges(*self, h, m as nat) =~= in_edges(*self, h, m as nat));
        }
        while j > 0
            invariant
                self.wf(),
                m == self.edges().len(),
                j <= m,
                out@ + in_edges(*self, h, j as nat) == in_edges(*self, h, m as nat),
            decreases j,
        {
            let (a, b) = self.edge_endpoints(j - 1);
            let ghost before = out@;
            if b == h {
                out.push((j - 1, a));
                proof {
                    assert(before + in_edges(*self, h, j as nat) =~= out@ + in_edges(*self, h, (j - 1) as nat));
                }
            } else {
                proof {
                    assert(in_edges(*self, h, j as nat) =~= in_edges(*self, h, (j - 1) as nat));
                }
            }
            j = j - 1;
        }
        proof {
            assert(out@ =~= out@ + in_edges(*self, h, 0));
        }
        out
    }

    /// Node `i`, if there is one.
    pub fn node_at(&self, i: usize) -> (r: Option<&Node>)
        requires
            self.wf(),
        ensures
            match r {
                Some(n) => i < self.nodes().len() && *n == self.nodes()[i as int],
                None => i >= self.nodes().len(),
            },
    {
        if i < self.node_count() {
            Some(self.node(i))
        } else {
            None
        }
    }

    /// Edge `j`, if there is one.
    pub fn edge_at(&self, j: usize) -> (r: Option<&Edge>)
        requires
            self.wf(),
        ensures
            match r {
                Some(e) => j < self.edges().len() && *e == self.edges()[j as int].2,
                None => j >= self.edges().len(),
            },
    {
        if j < self.edge_count() {
            Some(self.edge(j))
        } else {
            None
        }
    }

    /// Whether the postings hold some value of property `tag` under label
    /// `label`.
    pub fn indexed_prop_is_populated(&self, label: &str, tag: &str) -> (r: bool)
        requires
            self.wf(),
        ensures
            r == pair_populated(*self, label@, tag@),
    {
        populated(self, label, tag)
    }
}

} // verus!
