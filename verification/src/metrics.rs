//! Per-function code signals, and the metrics pass that writes them,
//! with line coverage and duplicate-cluster ids, to `:Item{kind:fn}`.
use vstd::prelude::*;

use crate::fact::{get_prop, prop_of, Node, PropValue, PropView};
use crate::graph::{prop_written, KeyspaceState};
use crate::order::lex_lt;

use crate::rfc_docs::{EnrichReport, ITEM_LABEL};
use crate::sorted::{Keyed, SortedMap};

verus! {

/// Signals read off a function body: how many `.unwrap()` / `.expect()`
/// calls it makes, and its McCabe cyclomatic complexity (branches + 1).
#[derive(Clone, Copy, Debug, PartialEq, Eq, Structural)]
pub struct AstSignals {
    pub unwrap_count: usize,
    pub cyclomatic: usize,
}

impl Default for AstSignals {
    fn default() -> (r: AstSignals)
        ensures
            r.unwrap_count == 0,
            r.cyclomatic == 0,
    {
        AstSignals { unwrap_count: 0, cyclomatic: 0 }
    }
}

impl AstSignals {
    /// The signals of a body with `unwraps` unwrap/expect calls and
    /// `branches` branch points: cyclomatic complexity is `branches + 1`.
    pub fn from_counts(unwraps: usize, branches: usize) -> (r: AstSignals)
        requires
            branches < usize::MAX,
        ensures
            r.unwrap_count == unwraps,
            r.cyclomatic == branches + 1,
    {
        AstSignals { unwrap_count: unwraps, cyclomatic: branches + 1 }
    }
}

/// Settings of the metrics pass: where a line-coverage report lies, if
/// one is to be read.
#[derive(Clone, Debug)]
pub struct Config {
    pub coverage_json: Option<String>,
}

impl Default for Config {
    fn default() -> (r: Config)
        ensures
            r.coverage_json is None,
    {
        Config { coverage_json: None }
    }
}

/// The verb of the metrics pass.
pub const METRICS_VERB: &'static str = "enrich_metrics";
/// The warning of a keyspace without function items.
pub const NO_FN_ITEMS_WARNING: &'static str = "enrich_metrics: no :Item{kind:Fn} nodes in keyspace — nothing to enrich";
/// The warning of a store that does not know its workspace.
pub const METRICS_NO_WORKSPACE_WARNING: &'static str = "enrich_metrics: no workspace_root attached to PetgraphStore — construct via `PetgraphStore::new().with_workspace(root)` so the pass can re-parse source files referenced by :Item{kind:Fn}.file";

/// A function item: its qualified name, name, file and signature hash,
/// and its node.
#[derive(Debug)]
pub struct FnItem {
    pub qname: String,
    pub name: String,
    pub file: String,
    pub signature_hash: Option<String>,
    pub node_idx: usize,
}

/// The abstract content of a function item.
pub type FnItemView = (Seq<char>, Seq<char>, Seq<char>, Option<Seq<char>>, usize);

impl FnItem {
    pub open spec fn fv(&self) -> FnItemView {
        (self.qname@, self.name@, self.file@, match self.signature_hash {
            Some(h) => Some(h@),
            None => None,
        }, self.node_idx)
    }
}

/// The function item node `i` makes: an `:Item` whose `kind` is `fn` and
/// which has string `qname`, `name` and `file` properties.
pub open spec fn fn_item_at(st: KeyspaceState, i: usize) -> Option<FnItemView> {
    let n = st.nodes()[i as int];
    if n.label@ == ITEM_LABEL@ && prop_of(n.props, "kind"@) == Some(PropView::Str("fn"@)) {
        match (prop_of(n.props, "qname"@), prop_of(n.props, "name"@), prop_of(n.props, "file"@)) {
            (Some(PropView::Str(q)), Some(PropView::Str(nm)), Some(PropView::Str(f))) => Some((q, nm, f,
                match prop_of(n.props, "signature_hash"@) {
                    Some(PropView::Str(h)) => Some(h),
                    _ => None,
                }, i)),
            _ => None,
        }
    } else {
        None
    }
}

/// The function items among the first `n` nodes, by node index.
pub open spec fn fn_items_upto(st: KeyspaceState, n: nat) -> Seq<FnItemView>
    decreases n,
{
    if n == 0 {
        Seq::empty()
    } else {
        let r = fn_items_upto(st, (n - 1) as nat);
        match fn_item_at(st, (n - 1) as usize) {
            Some(v) => r.push(v),
            None => r,
        }
    }
}

/// `x` inserted before the first item whose qualified name sorts after
/// its own.
pub open spec fn insert_by_qname(sorted: Seq<FnItemView>, x: FnItemView) -> Seq<FnItemView>
    decreases sorted.len(),
{
    if sorted.len() == 0 {
        seq![x]
    } else if lex_lt(x.0, sorted[0].0) {
        seq![x] + sorted
    } else {
        seq![sorted[0]] + insert_by_qname(sorted.drop_first(), x)
    }
}

/// Items stably sorted by qualified name.
pub open spec fn sort_by_qname(s: Seq<FnItemView>) -> Seq<FnItemView>
    decreases s.len(),
{
    if s.len() == 0 {
        Seq::empty()
    } else {
        insert_by_qname(sort_by_qname(s.drop_last()), s.last())
    }
}

/// The function items of a keyspace, sorted by qualified name.
pub open spec fn fn_items(st: KeyspaceState) -> Seq<FnItemView> {
    sort_by_qname(fn_items_upto(st, st.nodes().len()))
}

/// The function item node `i` makes, if any.
fn fn_item_of(st: &KeyspaceState, i: usize) -> (r: Option<FnItem>)
    requires
        st.wf(),
        i < st.nodes().len(),
    ensures
        match r {
            Some(it) => fn_item_at(*st, i) == Some(it.fv()),
            None => fn_item_at(*st, i) is None,
        },
{
    let n = st.node(i);
    proof {
        assert(n.props.wf());
        reveal_strlit("kind");
        reveal_strlit("fn");
        reveal_strlit("qname");
        reveal_strlit("name");
        reveal_strlit("file");
        reveal_strlit("signature_hash");
    }
    if !crate::text::str_eq(n.label.as_str(), ITEM_LABEL) {
        return None;
    }
    let kind_ok = match get_prop(&n.props, "kind") {
        Some(PropValue::Str(k)) => crate::text::str_eq(k.as_str(), "fn"),
        _ => false,
    };
    if !kind_ok {
        return None;
    }
    match (get_prop(&n.props, "qname"), get_prop(&n.props, "name"), get_prop(&n.props, "file")) {
        (Some(PropValue::Str(q)), Some(PropValue::Str(nm)), Some(PropValue::Str(f))) => {
            let signature_hash = match get_prop(&n.props, "signature_hash") {
                Some(PropValue::Str(h)) => Some(h.clone()),
                _ => None,
            };
            Some(FnItem { qname: q.clone(), name: nm.clone(), file: f.clone(), signature_hash, node_idx: i })
        },
        _ => None,
    }
}

/// Whether name `a` sorts before name `b`.
fn name_before(a: &String, b: &String) -> (r: bool)
    ensures
        r == lex_lt(a@, b@),
{
    match a.compare_key(b) {
        crate::order::Cmp::Less => true,
        _ => false,
    }
}

proof fn lemma_insert_by_qname_at(sorted: Seq<FnItemView>, x: FnItemView, p: int)
    requires
        0 <= p <= sorted.len(),
        forall|j: int| 0 <= j < p ==> !lex_lt(x.0, #[trigger] sorted[j].0),
        p < sorted.len() ==> lex_lt(x.0, sorted[p].0),
    ensures
        insert_by_qname(sorted, x) == sorted.insert(p, x),
    decreases sorted.len(),
{
    if sorted.len() == 0 {
        assert(sorted.insert(p, x) =~= seq![x]);
    } else if p == 0 {
        assert(sorted.insert(0, x) =~= seq![x] + sorted);
    } else {
        let rest = sorted.drop_first();
        assert forall|j: int| 0 <= j < p - 1 implies !lex_lt(x.0, #[trigger] rest[j].0) by {
            assert(rest[j] == sorted[j + 1]);
        }
        lemma_insert_by_qname_at(rest, x, p - 1);
        assert(seq![sorted[0]] + rest.insert(p - 1, x) =~= sorted.insert(p, x));
    }
}

/// The function items of a keyspace, sorted by qualified name (items with
/// equal names in node order).
pub fn collect_fn_items(st: &KeyspaceState) -> (r: Vec<FnItem>)
    requires
        st.wf(),
    ensures
        r@.map_values(|it: FnItem| it.fv()) == fn_items(*st),
        forall|k: int| 0 <= k < r@.len() ==> #[trigger] r@[k].node_idx < st.nodes().len(),
{
    let n = st.node_count();
    let mut out: Vec<FnItem> = Vec::new();
    let mut i: usize = 0;
    let ghost mut seen: Seq<FnItemView> = Seq::empty();
    while i < n
        invariant
            st.wf(),
            n == st.nodes().len(),
            i <= n,
            seen == fn_items_upto(*st, i as nat),
            out@.map_values(|it: FnItem| it.fv()) == sort_by_qname(seen),
            forall|k: int| 0 <= k < out@.len() ==> #[trigger] out@[k].node_idx < n,
        decreases n - i,
    {
        match fn_item_of(st, i) {
            Some(it) => {
                let ghost before = out@.map_values(|it: FnItem| it.fv());
                let mut p: usize = 0;
                while p < out.len() && !name_before(&it.qname, &out[p].qname)
                    invariant
                        p <= out@.len(),
                        forall|j: int| 0 <= j < p ==> !lex_lt(it.qname@, #[trigger] out@[j].qname@),
                    decreases out@.len() - p,
                {
                    p = p + 1;
                }
                proof {
                    assert forall|j: int| 0 <= j < p implies !lex_lt(it.fv().0, #[trigger] before[j].0) by {
                        assert(before[j] == out@[j].fv());
                    }
                    if p < out@.len() {
                        assert(before[p as int] == out@[p as int].fv());
                    }
                    lemma_insert_by_qname_at(before, it.fv(), p as int);
                    assert(seen.push(it.fv()).drop_last() =~= seen);
                    seen = seen.push(it.fv());
                }
                out.insert(p, it);
                proof {
                    assert(out@.map_values(|it: FnItem| it.fv()) =~= before.insert(p as int, seen.last()));
                }
            },
            None => {},
        }
        i = i + 1;
    }
    out
}

/// A count as a property value: capped at the largest `i64`.
pub open spec fn capped(x: usize) -> i64 {
    if x > 0x7fff_ffff_ffff_ffff { 0x7fff_ffff_ffff_ffff } else { x as i64 }
}

/// What the pass writes to a property of a function item named `q`: the
/// value the signals, coverage and cluster maps hold for it, if any.
pub open spec fn metric_value(k: Seq<char>, q: Seq<char>, sig: SortedMap<String, AstSignals>,
    cov: SortedMap<String, PropValue>, clu: SortedMap<String, String>) -> Option<PropView> {
    if k == "unwrap_count"@ {
        match sig.lookup(q) {
            Some(a) => Some(PropView::Int(capped(a.unwrap_count))),
            None => None,
        }
    } else if k == "cyclomatic"@ {
        match sig.lookup(q) {
            Some(a) => Some(PropView::Int(capped(a.cyclomatic))),
            None => None,
        }
    } else if k == "test_coverage"@ {
        match cov.lookup(q) {
            Some(v) => Some(v.pv()),
            None => None,
        }
    } else if k == "dup_cluster_id"@ {
        match clu.lookup(q) {
            Some(c) => Some(PropView::Str(c@)),
            None => None,
        }
    } else {
        None
    }
}

/// How many properties the pass writes to a function item named `q`.
pub open spec fn metric_count(q: Seq<char>, sig: SortedMap<String, AstSignals>,
    cov: SortedMap<String, PropValue>, clu: SortedMap<String, String>) -> nat {
    (if sig.has(q) { 2nat } else { 0nat }) + (if cov.has(q) { 1nat } else { 0nat }) + (if clu.has(q) { 1nat } else { 0nat })
}

/// Whether node `post` is function item `pre`, named `q`, with its metrics
/// written.
pub open spec fn metrics_written(pre: Node, post: Node, q: Seq<char>, sig: SortedMap<String, AstSignals>,
    cov: SortedMap<String, PropValue>, clu: SortedMap<String, String>) -> bool {
    &&& post.id@ == pre.id@
    &&& post.label@ == pre.label@
    &&& post.props.wf()
    &&& forall|k: Seq<char>| #[trigger] prop_of(post.props, k) == match metric_value(k, q, sig, cov, clu) {
        Some(v) => Some(v),
        None => prop_of(pre.props, k),
    }
}

/// The number of properties the pass writes over the first `n` nodes.
pub open spec fn metrics_count_upto(st: KeyspaceState, n: nat, sig: SortedMap<String, AstSignals>,
    cov: SortedMap<String, PropValue>, clu: SortedMap<String, String>) -> nat
    decreases n,
{
    if n == 0 {
        0
    } else {
        metrics_count_upto(st, (n - 1) as nat, sig, cov, clu) + match fn_item_at(st, (n - 1) as usize) {
            Some(v) => metric_count(v.0, sig, cov, clu),
            None => 0,
        }
    }
}

fn capped_int(x: usize) -> (r: i64)
    ensures
        r == capped(x),
{
    if x as u64 > 0x7fff_ffff_ffff_ffffu64 {
        0x7fff_ffff_ffff_ffff
    } else {
        x as i64
    }
}

/// Sets property `key` of node `idx` when a value is given.
fn put_if(st: &mut KeyspaceState, idx: usize, key: &str, v: Option<PropValue>)
    requires
        old(st).wf(),
        idx < old(st).nodes().len(),
    ensures
        final(st).wf(),
        final(st).nodes().len() == old(st).nodes().len(),
        match v {
            Some(x) => prop_written(old(st).nodes()[idx as int], final(st).nodes()[idx as int], key@, x.pv()),
            None => final(st).nodes()[idx as int] == old(st).nodes()[idx as int],
        },
        forall|j: int| 0 <= j < old(st).nodes().len() && j != idx ==> #[trigger] final(st).nodes()[j] == old(st).nodes()[j],
        final(st).edges() == old(st).edges(),
{
    match v {
        Some(x) => st.set_prop(idx, key, x),
        None => {},
    }
}

/// Writes the metrics of function item `idx`, named `q`; returns how many
/// properties it wrote.
fn write_metrics(st: &mut KeyspaceState, idx: usize, q: &String, sig: &SortedMap<String, AstSignals>,
    cov: &SortedMap<String, PropValue>, clu: &SortedMap<String, String>) -> (r: u64)
    requires
        old(st).wf(),
        idx < old(st).nodes().len(),
        old(st).nodes()[idx as int].props.wf(),
        sig.wf(),
        cov.wf(),
        clu.wf(),
    ensures
        final(st).wf(),
        final(st).nodes().len() == old(st).nodes().len(),
        metrics_written(old(st).nodes()[idx as int], final(st).nodes()[idx as int], q@, *sig, *cov, *clu),
        r == metric_count(q@, *sig, *cov, *clu),
        forall|j: int| 0 <= j < old(st).nodes().len() && j != idx ==> #[trigger] final(st).nodes()[j] == old(st).nodes()[j],
        final(st).edges() == old(st).edges(),
{
    proof {
        reveal_strlit("unwrap_count");
        reveal_strlit("cyclomatic");
        reveal_strlit("test_coverage");
        reveal_strlit("dup_cluster_id");
    }
    let ghost n0 = st.nodes()[idx as int];
    let (u, c) = match sig.get(q) {
        Some(a) => (Some(PropValue::Int(capped_int(a.unwrap_count))), Some(PropValue::Int(capped_int(a.cyclomatic)))),
        None => (None, None),
    };
    let cv = match cov.get(q) {
        Some(v) => Some(v.duplicate()),
        None => None,
    };
    let cl = match clu.get(q) {
        Some(x) => Some(PropValue::Str(x.clone())),
        None => None,
    };
    let r: u64 = (if u.is_some() { 2u64 } else { 0u64 }) + (if cv.is_some() { 1u64 } else { 0u64 }) + (if cl.is_some() { 1u64 } else { 0u64 });
    put_if(st, idx, "unwrap_count", u);
    let ghost n1 = st.nodes()[idx as int];
    put_if(st, idx, "cyclomatic", c);
    let ghost n2 = st.nodes()[idx as int];
    put_if(st, idx, "test_coverage", cv);
    let ghost n3 = st.nodes()[idx as int];
    put_if(st, idx, "dup_cluster_id", cl);
    proof {
        let n4 = st.nodes()[idx as int];
        assert(n4.props.wf()) by {
            if cl is None {
                if cv is None {
                    if c is None {
                        if u is None {
                            assert(n4 == n0);
                        }
                    }
                }
            }
        }
        assert forall|k: Seq<char>| #[trigger] prop_of(n4.props, k) == match metric_value(k, q@, *sig, *cov, *clu) {
            Some(v) => Some(v),
            None => prop_of(n0.props, k),
        } by {
            assert("unwrap_count"@.len() == 12);
            assert("cyclomatic"@.len() == 10);
            assert("test_coverage"@.len() == 13);
            assert("dup_cluster_id"@.len() == 14);
        }
    }
    r
}

proof fn lemma_metrics_count_bound(st: KeyspaceState, n: nat, sig: SortedMap<String, AstSignals>,
    cov: SortedMap<String, PropValue>, clu: SortedMap<String, String>)
    ensures
        metrics_count_upto(st, n, sig, cov, clu) <= 4 * n,
        fn_items_upto(st, n).len() <= n,
    decreases n,
{
    if n > 0 {
        lemma_metrics_count_bound(st, (n - 1) as nat, sig, cov, clu);
    }
}

/// The metrics pass on one keyspace, given the signals, coverage ratios
/// and duplicate-cluster ids by qualified name, and the warnings of
/// computing them. Without function items it writes nothing and warns;
/// otherwise each function item gets what the maps hold for its name.
pub fn enrich_metrics_state(st: &mut KeyspaceState, sig: &SortedMap<String, AstSignals>, cov: &SortedMap<String, PropValue>,
    clu: &SortedMap<String, String>, warnings: Vec<String>) -> (r: EnrichReport)
    requires
        old(st).wf(),
        sig.wf(),
        cov.wf(),
        clu.wf(),
    ensures
        final(st).wf(),
        final(st).nodes().len() == old(st).nodes().len(),
        final(st).edges() == old(st).edges(),
        r.verb@ == METRICS_VERB@,
        r.ran,
        r.edges_written == 0,
        fn_items_upto(*old(st), old(st).nodes().len()).len() == 0 ==> {
            &&& *final(st) == *old(st)
            &&& r.facts_scanned == 0
            &&& r.attrs_written == 0
            &&& r.warnings@.len() == 1
            &&& r.warnings@[0]@ == NO_FN_ITEMS_WARNING@
        },
        fn_items_upto(*old(st), old(st).nodes().len()).len() > 0 ==> {
            &&& r.facts_scanned == fn_items_upto(*old(st), old(st).nodes().len()).len()
            &&& r.attrs_written == metrics_count_upto(*old(st), old(st).nodes().len(), *sig, *cov, *clu)
            &&& r.warnings == warnings
            &&& forall|i: int| 0 <= i < old(st).nodes().len() ==> match fn_item_at(*old(st), i as usize) {
                Some(v) => metrics_written(#[trigger] old(st).nodes()[i], final(st).nodes()[i], v.0, *sig, *cov, *clu),
                None => final(st).nodes()[i] == old(st).nodes()[i],
            }
        },
{
    let ghost st0 = *st;
    let n = st.node_count();
    proof {
        lemma_metrics_count_bound(st0, n as nat, *sig, *cov, *clu);
    }
    let mut items: u64 = 0;
    let mut i: usize = 0;
    while i < n
        invariant
            st.wf(),
            n == st.nodes().len(),
            i <= n,
            items == fn_items_upto(*st, i as nat).len(),
            fn_items_upto(*st, n as nat).len() <= n,
        decreases n - i,
    {
        proof {
            lemma_metrics_count_bound(*st, i as nat, *sig, *cov, *clu);
        }
        match fn_item_of(st, i) {
            Some(_) => {
                items = items + 1;
            },
            None => {},
        }
        i = i + 1;
    }
    if items == 0 {
        return EnrichReport {
            verb: METRICS_VERB.to_owned(),
            ran: true,
            facts_scanned: 0,
            attrs_written: 0,
            edges_written: 0,
            warnings: vec![NO_FN_ITEMS_WARNING.to_owned()],
        };
    }
    let mut written: u64 = 0;
    let mut i: usize = 0;
    while i < n
        invariant
            st.wf(),
            st0.wf(),
            sig.wf(),
            cov.wf(),
            clu.wf(),
            n == st0.nodes().len(),
            st.nodes().len() == n,
            st.edges() == st0.edges(),
            i <= n,
            written == metrics_count_upto(st0, i as nat, *sig, *cov, *clu),
            metrics_count_upto(st0, i as nat, *sig, *cov, *clu) <= 4 * i,
            forall|j: int| 0 <= j < i ==> match fn_item_at(st0, j as usize) {
                Some(v) => metrics_written(#[trigger] st0.nodes()[j], st.nodes()[j], v.0, *sig, *cov, *clu),
                None => st.nodes()[j] == st0.nodes()[j],
            },
            forall|j: int| i <= j < n ==> #[trigger] st.nodes()[j] == st0.nodes()[j],
        decreases n - i,
    {
        proof {
            assert(st.nodes()[i as int] == st0.nodes()[i as int]);
            assert(fn_item_at(*st, i) == fn_item_at(st0, i));
            lemma_metrics_count_bound(st0, (i + 1) as nat, *sig, *cov, *clu);
        }
        match fn_item_of(st, i) {
            Some(it) => {
                let ghost pre = *st;
                let c = write_metrics(st, i, &it.qname, sig, cov, clu);
                written = written + c;
                proof {
                    assert forall|j: int| i < j < n implies #[trigger] st.nodes()[j] == st0.nodes()[j] by {
                        assert(st.nodes()[j] == pre.nodes()[j]);
                    }
                    assert forall|j: int| 0 <= j < i + 1 implies match fn_item_at(st0, j as usize) {
                        Some(v) => metrics_written(#[trigger] st0.nodes()[j], st.nodes()[j], v.0, *sig, *cov, *clu),
                        None => st.nodes()[j] == st0.nodes()[j],
                    } by {
                        if j < i {
                            assert(st.nodes()[j] == pre.nodes()[j]);
                        }
                    }
                }
            },
            None => {
                proof {
                    assert forall|j: int| 0 <= j < i + 1 implies match fn_item_at(st0, j as usize) {
                        Some(v) => metrics_written(#[trigger] st0.nodes()[j], st.nodes()[j], v.0, *sig, *cov, *clu),
                        None => st.nodes()[j] == st0.nodes()[j],
                    } by {
                    }
                }
            },
        }
        i = i + 1;
    }
    EnrichReport {
        verb: METRICS_VERB.to_owned(),
        ran: true,
        facts_scanned: items,
        attrs_written: written,
        edges_written: 0,
        warnings,
    }
}

} // verus!
