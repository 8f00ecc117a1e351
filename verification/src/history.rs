//! Per-file commit history and the attributes it gives `:Item` nodes.
use vstd::prelude::*;

use crate::fact::{get_prop, prop_of, Node, PropValue, PropView};
use crate::graph::{increasing, prop_written, KeyspaceState};
use crate::order::lemma_sorted_unique;
use crate::reachability::{labelled, lemma_labelled};
use crate::rfc_docs::{EnrichReport, ITEM_LABEL};
use crate::sorted::{Keyed, SortedMap};

verus! {

/// The commit history of one file: its newest commit's time and author,
/// and how many commits touched it.
pub struct GitInfo {
    pub last_commit_unix_ts: i64,
    pub last_author: String,
    pub commit_count: i64,
}

/// Commit history by workspace-relative path.
pub type GitHistory = SortedMap<String, GitInfo>;

/// Folds one commit touching `path` into `info`. Commits arrive newest
/// first: the first commit seen for a path fixes its time and author; a
/// later one only counts.
pub fn upsert(info: &mut GitHistory, path: &str, commit_ts: i64, author: &str)
    requires
        old(info).wf(),
        old(info).has(path@) ==> old(info).lookup(path@).unwrap().commit_count < i64::MAX,
    ensures
        final(info).wf(),
        final(info).has(path@),
        old(info).has(path@) ==> {
            let was = old(info).lookup(path@).unwrap();
            let now = final(info).lookup(path@).unwrap();
            &&& now.last_commit_unix_ts == was.last_commit_unix_ts
            &&& now.last_author@ == was.last_author@
            &&& now.commit_count == was.commit_count + 1
        },
        !old(info).has(path@) ==> {
            let now = final(info).lookup(path@).unwrap();
            &&& now.last_commit_unix_ts == commit_ts
            &&& now.last_author@ == author@
            &&& now.commit_count == 1
        },
        forall|q: Seq<char>| q != path@ ==> #[trigger] final(info).has(q) == old(info).has(q)
            && final(info).lookup(q) == old(info).lookup(q),
{
    let key = path.to_owned();
    let entry = match info.get(&key) {
        Some(e) => GitInfo {
            last_commit_unix_ts: e.last_commit_unix_ts,
            last_author: e.last_author.clone(),
            commit_count: e.commit_count + 1,
        },
        None => GitInfo { last_commit_unix_ts: commit_ts, last_author: author.to_owned(), commit_count: 1 },
    };
    info.insert(key, entry);
}

/// The name of the attribute holding the newest commit's time.
pub const ATTR_TS: &'static str = "git_last_commit_unix_ts";

/// The name of the attribute holding the newest commit's author.
pub const ATTR_AUTHOR: &'static str = "git_last_author";

/// The name of the attribute holding the number of commits.
pub const ATTR_COUNT: &'static str = "git_commit_count";

/// A path made relative to the workspace root: with the root and the
/// separator after it taken off when it starts with them, as it is
/// otherwise.
pub open spec fn relative_path(p: Seq<char>, root: Seq<char>) -> Seq<char> {
    if root.len() > 0 && p.len() >= root.len() && p.take(root.len() as int) == root {
        let rest = p.skip(root.len() as int);
        if root.last() == '/' {
            rest
        } else if rest.len() > 0 && rest[0] == '/' {
            rest.skip(1)
        } else {
            p
        }
    } else {
        p
    }
}

/// The history entry for the file a node's `file` property names, taken
/// relative to the workspace root.
pub open spec fn history_of(info: GitHistory, file: Option<PropView>, root: Seq<char>) -> Option<GitInfo> {
    match file {
        Some(PropView::Str(p)) => info.lookup(relative_path(p, root)),
        _ => None,
    }
}

/// The path `p` relative to the workspace root `root`.
pub fn relative_to_root(p: &str, root: &str) -> (r: String)
    ensures
        r@ == relative_path(p@, root@),
{
    let pv = crate::text::chars_of(p);
    let rv = crate::text::chars_of(root);
    let n = rv.len();
    if n == 0 || pv.len() < n {
        return p.to_owned();
    }
    let mut i: usize = 0;
    while i < n
        invariant
            pv@ == p@,
            rv@ == root@,
            n == rv@.len(),
            n <= pv@.len(),
            i <= n,
            forall|j: int| 0 <= j < i ==> pv@[j] == rv@[j],
        decreases n - i,
    {
        if pv[i] != rv[i] {
            proof {
                assert(pv@.take(n as int)[i as int] != rv@[i as int]);
            }
            return p.to_owned();
        }
        i = i + 1;
    }
    proof {
        assert(pv@.take(n as int) =~= rv@);
    }
    proof {
        assert(rv@.last() == rv@[n - 1]);
        assert(pv@.skip(n as int).len() > 0 ==> pv@.skip(n as int)[0] == pv@[n as int]);
    }
    let start: usize = if rv[n - 1] == '/' {
        n
    } else if n < pv.len() && pv[n] == '/' {
        n + 1
    } else {
        return p.to_owned();
    };
    let mut out = String::new();
    let mut k: usize = start;
    while k < pv.len()
        invariant
            start <= k <= pv@.len(),
            out@ == pv@.subrange(start as int, k as int),
        decreases pv@.len() - k,
    {
        crate::text::push_char(&mut out, pv[k]);
        proof {
            assert(pv@.subrange(start as int, k + 1) =~= pv@.subrange(start as int, k as int).push(pv@[k as int]));
        }
        k = k + 1;
    }
    proof {
        let rest = pv@.skip(n as int);
        if start == n {
            assert(out@ =~= rest);
        } else {
            assert(out@ =~= rest.skip(1));
        }
    }
    out
}

/// The three values written for a node: time, author and count from its
/// file's history, or three nulls where there is none.
pub open spec fn history_values(h: Option<GitInfo>) -> (PropView, PropView, PropView) {
    match h {
        Some(g) => (PropView::Int(g.last_commit_unix_ts), PropView::Str(g.last_author@), PropView::Int(g.commit_count)),
        None => (PropView::Null, PropView::Null, PropView::Null),
    }
}

impl KeyspaceState {
    /// Writes the three history attributes to node `idx` and returns how
    /// many were written (always 3: a null is written too).
    pub fn write_history_attrs(&mut self, idx: usize, info: &GitHistory, root: &str) -> (r: u64)
        requires
            old(self).wf(),
            idx < old(self).nodes().len(),
            info.wf(),
        ensures
            r == 3,
            final(self).wf(),
            final(self).nodes().len() == old(self).nodes().len(),
            ({
                let pre = old(self).nodes()[idx as int];
                let post = final(self).nodes()[idx as int];
                let vals = history_values(history_of(*info, prop_of(pre.props, "file"@), root@));
                &&& post.id@ == pre.id@
                &&& post.label@ == pre.label@
                &&& prop_of(post.props, ATTR_TS@) == Some(vals.0)
                &&& prop_of(post.props, ATTR_AUTHOR@) == Some(vals.1)
                &&& prop_of(post.props, ATTR_COUNT@) == Some(vals.2)
                &&& forall|q: Seq<char>| q != ATTR_TS@ && q != ATTR_AUTHOR@ && q != ATTR_COUNT@
                    ==> #[trigger] prop_of(post.props, q) == prop_of(pre.props, q)
            }),
            forall|j: int| 0 <= j < old(self).nodes().len() && j != idx ==> #[trigger] final(self).nodes()[j] == old(self).nodes()[j],
            final(self).edges() == old(self).edges(),
            final(self).edge_labels == old(self).edge_labels,
            final(self).index_spec == old(self).index_spec,
            final(self).ingest_warnings == old(self).ingest_warnings,
            final(self).recorded_contentions == old(self).recorded_contentions,
            final(self).suppressed_contentions == old(self).suppressed_contentions,
    {
        let ghost pre = *self;
        let ghost n0 = pre.nodes()[idx as int];
        let file = match get_prop(&self.node(idx).props, "file") {
            Some(PropValue::Str(p)) => Some(p.clone()),
            _ => None,
        };
        let found = match file {
            Some(p) => info.get(&relative_to_root(p.as_str(), root)),
            None => None,
        };
        let (ts, author, count) = match found {
            Some(g) => (PropValue::Int(g.last_commit_unix_ts), PropValue::Str(g.last_author.clone()), PropValue::Int(g.commit_count)),
            None => (PropValue::Null, PropValue::Null, PropValue::Null),
        };
        proof {
            reveal_strlit("git_last_commit_unix_ts");
            reveal_strlit("git_last_author");
            reveal_strlit("git_commit_count");
            reveal_strlit("file");
            assert(ATTR_TS@.len() == 23);
            assert(ATTR_AUTHOR@.len() == 15);
            assert(ATTR_COUNT@.len() == 16);
            assert(ATTR_TS@ != ATTR_AUTHOR@);
            assert(ATTR_TS@ != ATTR_COUNT@);
            assert(ATTR_AUTHOR@ != ATTR_COUNT@);
        }
        self.set_prop(idx, ATTR_TS, ts);
        let ghost s1 = *self;
        self.set_prop(idx, ATTR_AUTHOR, author);
        let ghost s2 = *self;
        self.set_prop(idx, ATTR_COUNT, count);
        proof {
            let n1 = s1.nodes()[idx as int];
            let n2 = s2.nodes()[idx as int];
            let n3 = self.nodes()[idx as int];
            assert(prop_written(n0, n1, ATTR_TS@, history_values(history_of(*info, prop_of(n0.props, "file"@), root@)).0));
            assert(prop_of(n3.props, ATTR_TS@) == prop_of(n2.props, ATTR_TS@));
            assert(prop_of(n2.props, ATTR_TS@) == prop_of(n1.props, ATTR_TS@));
            assert(prop_of(n3.props, ATTR_AUTHOR@) == prop_of(n2.props, ATTR_AUTHOR@));
            assert forall|j: int| 0 <= j < pre.nodes().len() && j != idx implies #[trigger] self.nodes()[j] == pre.nodes()[j] by {
                assert(s1.nodes()[j] == pre.nodes()[j]);
                assert(s2.nodes()[j] == s1.nodes()[j]);
            }
            assert forall|q: Seq<char>| q != ATTR_TS@ && q != ATTR_AUTHOR@ && q != ATTR_COUNT@
                implies #[trigger] prop_of(n3.props, q) == prop_of(n0.props, q) by {
                assert(prop_of(n3.props, q) == prop_of(n2.props, q));
                assert(prop_of(n2.props, q) == prop_of(n1.props, q));
            }
        }
        3
    }
}

/// The verb of the commit-history pass.
pub const GIT_HISTORY_VERB: &'static str = "enrich_git_history";

/// The warning of a store that does not know its workspace.
pub const NO_WORKSPACE_ROOT_WARNING: &'static str = "enrich_git_history: no workspace_root set on the store — nothing to read history from";

/// The warning of a keyspace without items.
pub const NO_ITEMS_WARNING: &'static str = "enrich_git_history: no :Item nodes in keyspace — nothing to enrich";

/// The history entry a node's file has in the history read, if it could be
/// read.
pub open spec fn read_history_of(h: Result<GitHistory, String>, file: Option<PropView>, root: Seq<char>) -> Option<GitInfo> {
    match h {
        Ok(info) => history_of(info, file, root),
        Err(_) => None,
    }
}

/// Whether node `post` is node `pre` with the history attributes of its
/// file written.
pub open spec fn history_written(h: Result<GitHistory, String>, root: Seq<char>, pre: Node, post: Node) -> bool {
    let vals = history_values(read_history_of(h, prop_of(pre.props, "file"@), root));
    &&& post.id@ == pre.id@
    &&& post.label@ == pre.label@
    &&& prop_of(post.props, ATTR_TS@) == Some(vals.0)
    &&& prop_of(post.props, ATTR_AUTHOR@) == Some(vals.1)
    &&& prop_of(post.props, ATTR_COUNT@) == Some(vals.2)
    &&& forall|q: Seq<char>| q != ATTR_TS@ && q != ATTR_AUTHOR@ && q != ATTR_COUNT@
        ==> #[trigger] prop_of(post.props, q) == prop_of(pre.props, q)
}

/// The commit-history pass on one keyspace, given the history read from
/// the repository (or why it could not be read). Without items it writes
/// nothing and warns; otherwise every item gets the three attributes of
/// its file (nulls where the history has none, or none could be read),
/// with the reading failure, if any, as the one warning.
pub fn enrich_git_history_state(st: &mut KeyspaceState, root: &str, history: Result<GitHistory, String>) -> (r: EnrichReport)
    requires
        old(st).wf(),
        history matches Ok(h) ==> h.wf(),
    ensures
        final(st).wf(),
        final(st).nodes().len() == old(st).nodes().len(),
        final(st).edges() == old(st).edges(),
        r.verb@ == GIT_HISTORY_VERB@,
        r.ran,
        r.edges_written == 0,
        labelled(*old(st), ITEM_LABEL@).len() == 0 ==> {
            &&& *final(st) == *old(st)
            &&& r.facts_scanned == 0
            &&& r.attrs_written == 0
            &&& r.warnings@.len() == 1
            &&& r.warnings@[0]@ == NO_ITEMS_WARNING@
        },
        labelled(*old(st), ITEM_LABEL@).len() > 0 ==> {
            &&& r.facts_scanned == labelled(*old(st), ITEM_LABEL@).len()
            &&& r.attrs_written == 3 * labelled(*old(st), ITEM_LABEL@).len()
            &&& r.warnings@.len() == (if history is Err { 1int } else { 0int })
            &&& (history matches Err(m) ==> r.warnings@[0] == m)
            &&& forall|i: int| 0 <= i < old(st).nodes().len() ==> if old(st).nodes()[i].label@ == ITEM_LABEL@ {
                history_written(history, root@, #[trigger] old(st).nodes()[i], final(st).nodes()[i])
            } else {
                final(st).nodes()[i] == old(st).nodes()[i]
            }
        },
{
    let ghost st0 = *st;
    let items = st.nodes_with_label(&ITEM_LABEL.to_owned());
    proof {
        lemma_labelled(st0, ITEM_LABEL@);
        lemma_sorted_unique(items@, labelled(st0, ITEM_LABEL@), |a: usize, b: usize| a < b);
    }
    if items.len() == 0 {
        return EnrichReport {
            verb: GIT_HISTORY_VERB.to_owned(),
            ran: true,
            facts_scanned: 0,
            attrs_written: 0,
            edges_written: 0,
            warnings: vec![NO_ITEMS_WARNING.to_owned()],
        };
    }
    let ghost hist = history;
    let mut warnings: Vec<String> = Vec::new();
    let info = match history {
        Ok(h) => h,
        Err(m) => {
            warnings.push(m);
            SortedMap::new()
        },
    };
    proof {
        assert forall|f: Option<PropView>| #[trigger] history_of(info, f, root@) == read_history_of(hist, f, root@) by {
            if hist is Err {
                match f {
                    Some(PropView::Str(p)) => {
                        assert(!info.has(relative_path(p, root@)));
                    },
                    _ => {},
                }
            }
        }
    }
    let n = st.node_count();
    let mut written: u64 = 0;
    let mut k: usize = 0;
    while k < items.len()
        invariant
            st.wf(),
            st0.wf(),
            info.wf(),
            forall|f: Option<PropView>| #[trigger] history_of(info, f, root@) == read_history_of(hist, f, root@),
            n == st0.nodes().len(),
            st.nodes().len() == n,
            st.edges() == st0.edges(),
            items@ == labelled(st0, ITEM_LABEL@),
            increasing(items@),
            items@.len() <= n,
            forall|i: usize| #[trigger] items@.contains(i) <==> (i < n && st0.nodes()[i as int].label@ == ITEM_LABEL@),
            k <= items@.len(),
            written == 3 * k,
            forall|i: int| 0 <= i < n && items@.take(k as int).contains(i as usize) ==> history_written(hist, root@,
                #[trigger] st0.nodes()[i], st.nodes()[i]),
            forall|i: int| 0 <= i < n && !items@.take(k as int).contains(i as usize) ==> #[trigger] st.nodes()[i] == st0.nodes()[i],
        decreases items@.len() - k,
    {
        let idx = items[k];
        proof {
            assert(items@.contains(idx));
            assert(!items@.take(k as int).contains(idx)) by {
                if items@.take(k as int).contains(idx) {
                    let q = choose|q: int| 0 <= q < k && items@.take(k as int)[q] == idx;
                    assert(items@[q] < items@[k as int]);
                }
            }
        }
        let c = st.write_history_attrs(idx, &info, root);
        proof {
            let t1 = items@.take(k + 1);
            let t0 = items@.take(k as int);
            assert(t1 =~= t0.push(idx));
            assert forall|i: int| 0 <= i < n && t1.contains(i as usize) implies history_written(hist, root@,
                #[trigger] st0.nodes()[i], st.nodes()[i]) by {
                if i as usize != idx {
                    let q = choose|q: int| 0 <= q < t1.len() && t1[q] == i as usize;
                    assert(t0[q] == i as usize);
                }
            }
            assert forall|i: int| 0 <= i < n && !t1.contains(i as usize) implies #[trigger] st.nodes()[i] == st0.nodes()[i] by {
                assert(t1[k as int] == idx);
                if t0.contains(i as usize) {
                    let q = choose|q: int| 0 <= q < t0.len() && t0[q] == i as usize;
                    assert(t1[q] == i as usize);
                }
            }
        }
        written = written + c;
        k = k + 1;
    }
    proof {
        assert(items@.take(k as int) =~= items@);
        assert forall|i: int| 0 <= i < n implies if st0.nodes()[i].label@ == ITEM_LABEL@ {
            history_written(hist, root@, #[trigger] st0.nodes()[i], st.nodes()[i])
        } else {
            st.nodes()[i] == st0.nodes()[i]
        } by {
            if st0.nodes()[i].label@ == ITEM_LABEL@ {
                assert(items@.contains(i as usize));
            } else {
                assert(!items@.contains(i as usize));
            }
        }
    }
    EnrichReport {
        verb: GIT_HISTORY_VERB.to_owned(),
        ran: true,
        facts_scanned: items.len() as u64,
        attrs_written: written,
        edges_written: 0,
        warnings,
    }
}

} // verus!
