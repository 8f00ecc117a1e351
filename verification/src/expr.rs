//! Expressions and the functions a query may call: what an expression
//! evaluates to under a row of bindings.
use vstd::prelude::*;

use crate::entries::{entries_of, is_json_array, json_array_text, entries_subset_impl, overlap_verdict_impl, subset_model, verdict_model};
use crate::fact::{get_prop, prop_of, props_view, PropValue, PropView, Props};
use crate::graph::KeyspaceState;
use crate::index_spec::{last_segment, last_segment_of};
use crate::lookup::Params;
use crate::query::{Expr, ParamBinding};
use crate::signature::{normalized_signature, signatures_differ_modulo_whitespace};
use crate::text::{chars_of, str_eq};
use crate::value::{opt_pv, opt_ref_pv, pvs, duplicate_values, BindView, Binding, Bindings, Env, RowValue, RowView, env_of};

verus! {

// ---------------------------------------------------------------------
// Regular expressions
// ---------------------------------------------------------------------

/// The leftmost-first match of regular expression `pattern` in `text`, as
/// the `regex` crate finds it; `None` when `pattern` does not compile.
pub uninterp spec fn regex_first_match(pattern: Seq<char>, text: Seq<char>) -> Option<Option<Seq<char>>>;

/// Whether regular expression `pattern` matches somewhere in `text`, as the
/// `regex` crate decides; `None` when `pattern` does not compile.
pub uninterp spec fn regex_matches(pattern: Seq<char>, text: Seq<char>) -> Option<bool>;

/// Compiles `pattern` with `regex::Regex::new` and, if it compiles, calls
/// `Regex::find` on `text`. The contract claims only that the result is
/// the one `regex_first_match` names for these two inputs.
#[verifier::external_body]
pub(crate) fn regex_find(pattern: &str, text: &str) -> (r: Option<Option<String>>)
    ensures
        match r {
            None => regex_first_match(pattern@, text@) == None::<Option<Seq<char>>>,
            Some(None) => regex_first_match(pattern@, text@) == Some(None::<Seq<char>>),
            Some(Some(m)) => regex_first_match(pattern@, text@) == Some(Some(m@)),
        },
{
    match regex::Regex::new(pattern) {
        Ok(re) => match re.find(text) {
            Some(m) => Some(Some(m.as_str().to_owned())),
            None => Some(None),
        },
        Err(_) => None,
    }
}

/// Compiles `pattern` with `regex::Regex::new` and, if it compiles, calls
/// `Regex::is_match` on `text`. The contract claims only that the result
/// is the one `regex_matches` names for these two inputs.
#[verifier::external_body]
fn regex_is_match(pattern: &str, text: &str) -> (r: Option<bool>)
    ensures
        r == regex_matches(pattern@, text@),
{
    match regex::Regex::new(pattern) {
        Ok(re) => Some(re.is_match(text)),
        Err(_) => None,
    }
}

/// Whether `pattern` matches somewhere in `text`: false also when the
/// pattern does not compile.
pub open spec fn regex_holds(pattern: Seq<char>, text: Seq<char>) -> bool {
    regex_matches(pattern, text) == Some(true)
}

/// Whether regular expression `pattern` matches somewhere in `text`; a
/// pattern that does not compile matches nothing.
pub fn regex_match_text(pattern: &str, text: &str) -> (r: bool)
    ensures
        r == regex_holds(pattern@, text@),
{
    match regex_is_match(pattern, text) {
        Some(b) => b,
        None => false,
    }
}

// ---------------------------------------------------------------------
// The meaning of an expression
// ---------------------------------------------------------------------

/// Whether every node and edge a row refers to exists.
pub open spec fn env_valid(st: KeyspaceState, env: Env) -> bool {
    forall|k: Seq<char>| #[trigger] env.contains_key(k) ==> match env[k] {
        BindView::Node(i) => i < st.nodes().len(),
        BindView::Edge(j) => j < st.edges().len(),
        _ => true,
    }
}

/// Property `prop` of node `i`.
pub open spec fn node_prop(st: KeyspaceState, i: usize, prop: Seq<char>) -> Option<PropView> {
    if i < st.nodes().len() {
        prop_of(st.nodes()[i as int].props, prop)
    } else {
        None
    }
}

/// The value under the first entry named `k`.
pub open spec fn first_value(entries: Seq<(Seq<char>, PropView)>, k: Seq<char>) -> Option<PropView>
    decreases entries.len(),
{
    if entries.len() == 0 {
        None
    } else if entries[0].0 == k {
        Some(entries[0].1)
    } else {
        first_value(entries.drop_first(), k)
    }
}

/// The value of property `k` of a property map read front to back (for a
/// well-formed map, the one value under `k`).
pub open spec fn scan_prop(p: Props, k: Seq<char>) -> Option<PropView> {
    first_value(props_view(p), k)
}

/// Looks up property `k` by reading the entries front to back.
pub fn scan_get<'a>(p: &'a Props, k: &str) -> (r: Option<&'a PropValue>)
    ensures
        opt_ref_pv(r) == scan_prop(*p, k@),
{
    let ghost pv = props_view(*p);
    let mut i: usize = 0;
    proof {
        assert(pv.skip(0) =~= pv);
    }
    while i < p.entries.len()
        invariant
            i <= p.entries@.len(),
            pv == props_view(*p),
            first_value(pv, k@) == first_value(pv.skip(i as int), k@),
        decreases p.entries@.len() - i,
    {
        proof {
            assert(pv.skip(i as int).drop_first() =~= pv.skip(i + 1));
            assert(pv.skip(i as int)[0] == pv[i as int]);
        }
        if str_eq(p.entries[i].0.as_str(), k) {
            return Some(&p.entries[i].1);
        }
        i = i + 1;
    }
    proof {
        assert(pv.skip(i as int).len() == 0);
    }
    None
}

/// Field `prop` of edge `j`: its `label`, `src` or `dst`, else one of its
/// properties.
pub open spec fn edge_field(st: KeyspaceState, j: usize, prop: Seq<char>) -> Option<PropView> {
    if j < st.edges().len() {
        let e = st.edges()[j as int].2;
        if prop == "label"@ {
            Some(PropView::Str(e.label@))
        } else if prop == "src"@ {
            Some(PropView::Str(e.src@))
        } else if prop == "dst"@ {
            Some(PropView::Str(e.dst@))
        } else {
            scan_prop(e.props, prop)
        }
    } else {
        None
    }
}

/// The scalar bound to parameter `name`.
pub open spec fn param_scalar(params: Params, name: Seq<char>) -> Option<PropView> {
    match params.lookup(name) {
        Some(ParamBinding::Scalar(p)) => Some(p.pv()),
        _ => None,
    }
}

/// `var.prop` under `env`.
pub open spec fn property_val(st: KeyspaceState, env: Env, var: Seq<char>, prop: Seq<char>) -> Option<PropView> {
    if env.contains_key(var) {
        match env[var] {
            BindView::Node(i) => node_prop(st, i, prop),
            BindView::Edge(j) => edge_field(st, j, prop),
            BindView::Val(RowView::Scalar(p)) => if prop.len() == 0 { Some(p) } else { None },
            _ => None,
        }
    } else {
        None
    }
}

/// A bare variable under `env`: a scalar as itself, a node as its id, an
/// edge as its label.
pub open spec fn var_val(st: KeyspaceState, env: Env, name: Seq<char>) -> Option<PropView> {
    if env.contains_key(name) {
        match env[name] {
            BindView::Val(RowView::Scalar(p)) => Some(p),
            BindView::Node(i) => if i < st.nodes().len() { Some(PropView::Str(st.nodes()[i as int].id@)) } else { None },
            BindView::Edge(j) => if j < st.edges().len() { Some(PropView::Str(st.edges()[j as int].2.label@)) } else { None },
            _ => None,
        }
    } else {
        None
    }
}

/// The length of the list bound to a bare variable argument, if the
/// argument is one.
pub open spec fn bound_list_len(env: Env, args: Seq<Expr>) -> Option<nat> {
    if args.len() > 0 {
        match args[0] {
            Expr::Var(name) => if env.contains_key(name@) {
                match env[name@] {
                    BindView::Val(RowView::List(items)) => Some(items.len()),
                    _ => None,
                }
            } else {
                None
            },
            _ => None,
        }
    } else {
        None
    }
}

/// The result of calling function `name` on arguments whose values are
/// `a` (`None` for an argument missing or without a value).
pub open spec fn call_result(name: Seq<char>, list_len: Option<nat>, a: Seq<Option<PropView>>) -> Option<PropView> {
    if name == "regexp_extract"@ {
        match (a[0], a[1]) {
            (Some(PropView::Str(t)), Some(PropView::Str(p))) => match regex_first_match(p, t) {
                Some(Some(m)) => Some(PropView::Str(m)),
                _ => None,
            },
            _ => None,
        }
    } else if name == "size"@ {
        match list_len {
            Some(n) => Some(PropView::Int(n as i64)),
            None => match a[0] {
                Some(PropView::Str(s)) => Some(PropView::Int(s.len() as i64)),
                _ => None,
            },
        }
    } else if name == "starts_with"@ {
        match (a[0], a[1]) {
            (Some(PropView::Str(t)), Some(PropView::Str(p))) => Some(PropView::Bool(p.is_prefix_of(t))),
            _ => None,
        }
    } else if name == "ends_with"@ {
        match (a[0], a[1]) {
            (Some(PropView::Str(t)), Some(PropView::Str(p))) => Some(PropView::Bool(p.is_suffix_of(t))),
            _ => None,
        }
    } else if name == "last_segment"@ {
        match a[0] {
            Some(PropView::Str(t)) => Some(PropView::Str(last_segment_of(t))),
            _ => None,
        }
    } else if name == "signature_divergent"@ {
        match (a[0], a[1]) {
            (Some(PropView::Str(x)), Some(PropView::Str(y))) => Some(
                PropView::Bool(normalized_signature(x) != normalized_signature(y)),
            ),
            _ => None,
        }
    } else if name == "entries_subset"@ {
        match (a[0], a[1]) {
            (Some(PropView::Str(x)), Some(PropView::Str(y))) => if json_array_text(x) && json_array_text(y) {
                Some(PropView::Bool(subset_model(entries_of(x), entries_of(y))))
            } else {
                None
            },
            _ => None,
        }
    } else if name == "overlap_verdict"@ {
        match (a[0], a[1], a[2], a[3]) {
            (Some(PropView::Str(an)), Some(PropView::Str(bn)), Some(PropView::Str(ah)), Some(PropView::Str(bh))) => Some(
                PropView::Str(verdict_model(ah == bh, entries_of(an), entries_of(bn))),
            ),
            _ => None,
        }
    } else {
        None
    }
}

/// The value of expression `e` under `env`, if it has one. A list literal
/// has no scalar value.
pub open spec fn expr_val(st: KeyspaceState, params: Params, env: Env, e: Expr) -> Option<PropView>
    decreases e,
{
    match e {
        Expr::Property { var, prop } => property_val(st, env, var@, prop@),
        Expr::Var(name) => var_val(st, env, name@),
        Expr::Literal(p) => Some(p.pv()),
        Expr::Param(name) => param_scalar(params, name@),
        Expr::List(_) => None,
        Expr::Call { name, args } => {
            let a0 = if args@.len() > 0 { expr_val(st, params, env, args@[0]) } else { None };
            let a1 = if args@.len() > 1 { expr_val(st, params, env, args@[1]) } else { None };
            let a2 = if args@.len() > 2 { expr_val(st, params, env, args@[2]) } else { None };
            let a3 = if args@.len() > 3 { expr_val(st, params, env, args@[3]) } else { None };
            call_result(name@, bound_list_len(env, args@), seq![a0, a1, a2, a3])
        },
    }
}

/// The values of the expressions that have one, in order.
pub open spec fn vals_of(st: KeyspaceState, params: Params, env: Env, items: Seq<Expr>) -> Seq<PropView>
    decreases items.len(),
{
    if items.len() == 0 {
        Seq::empty()
    } else {
        let rest = vals_of(st, params, env, items.drop_last());
        match expr_val(st, params, env, items.last()) {
            Some(p) => rest.push(p),
            None => rest,
        }
    }
}

/// The list an expression denotes on the right of `IN`: a list literal's
/// values, a list parameter, a scalar parameter or value as a one-element
/// list.
pub open spec fn list_val(st: KeyspaceState, params: Params, env: Env, e: Expr) -> Option<Seq<PropView>> {
    match e {
        Expr::List(items) => Some(vals_of(st, params, env, items@)),
        Expr::Param(name) => match params.lookup(name@) {
            Some(ParamBinding::List(v)) => Some(pvs(v@)),
            Some(ParamBinding::Scalar(p)) => Some(seq![p.pv()]),
            None => None,
        },
        _ => match expr_val(st, params, env, e) {
            Some(p) => Some(seq![p]),
            None => None,
        },
    }
}

// ---------------------------------------------------------------------
// Evaluation
// ---------------------------------------------------------------------

proof fn lemma_env_get(b: Bindings, k: Seq<char>)
    requires
        b.wf(),
    ensures
        env_of(b).contains_key(k) == b.has(k),
        b.has(k) ==> env_of(b)[k] == b.lookup(k).unwrap().bv(),
{
}

fn text_len(s: &str) -> (n: usize)
    ensures
        n as nat == s@.len(),
{
    chars_of(s).len()
}

/// Whether `p` is a prefix of `t`.
pub fn has_prefix(t: &str, p: &str) -> (r: bool)
    ensures
        r == p@.is_prefix_of(t@),
{
    let tv = chars_of(t);
    let pv = chars_of(p);
    if pv.len() > tv.len() {
        return false;
    }
    let mut i: usize = 0;
    while i < pv.len()
        invariant
            pv@ == p@,
            tv@ == t@,
            pv.len() <= tv.len(),
            i <= pv@.len(),
            forall|k: int| 0 <= k < i ==> pv@[k] == tv@[k],
        decreases pv@.len() - i,
    {
        if pv[i] != tv[i] {
            proof {
                assert(pv@[i as int] != tv@.subrange(0, pv@.len() as int)[i as int]);
                assert(!(pv@ =~= tv@.subrange(0, pv@.len() as int)));
            }
            return false;
        }
        i = i + 1;
    }
    proof {
        assert(pv@ =~= tv@.subrange(0, pv@.len() as int));
    }
    true
}

/// Whether `p` is a suffix of `t`.
pub fn has_suffix(t: &str, p: &str) -> (r: bool)
    ensures
        r == p@.is_suffix_of(t@),
{
    let tv = chars_of(t);
    let pv = chars_of(p);
    if pv.len() > tv.len() {
        return false;
    }
    let off = tv.len() - pv.len();
    let mut i: usize = 0;
    while i < pv.len()
        invariant
            pv@ == p@,
            tv@ == t@,
            pv.len() <= tv.len(),
            off == tv.len() - pv.len(),
            i <= pv@.len(),
            forall|k: int| 0 <= k < i ==> pv@[k] == tv@[off + k],
        decreases pv@.len() - i,
    {
        if pv[i] != tv[off + i] {
            proof {
                assert(pv@[i as int] != tv@.subrange(off as int, tv@.len() as int)[i as int]);
                assert(!(pv@ =~= tv@.subrange(off as int, tv@.len() as int)));
            }
            return false;
        }
        i = i + 1;
    }
    proof {
        assert(pv@ =~= tv@.subrange(off as int, tv@.len() as int));
    }
    true
}

/// The value of `var.prop` under `b`.
fn eval_property(st: &KeyspaceState, b: &Bindings, var: &String, prop: &String) -> (r: Option<PropValue>)
    requires
        st.wf(),
        b.wf(),
        env_valid(*st, env_of(*b)),
    ensures
        opt_pv(r) == property_val(*st, env_of(*b), var@, prop@),
{
    proof {
        lemma_env_get(*b, var@);
        reveal_strlit("label");
        reveal_strlit("src");
        reveal_strlit("dst");
    }
    match b.get(var) {
        Some(Binding::NodeRef(i)) => {
            let n = st.node(*i);
            match get_prop(&n.props, prop.as_str()) {
                Some(v) => Some(v.duplicate()),
                None => None,
            }
        },
        Some(Binding::EdgeRef(j)) => {
            let e = st.edge(*j);
            if str_eq(prop.as_str(), "label") {
                Some(PropValue::Str(e.label.clone()))
            } else if str_eq(prop.as_str(), "src") {
                Some(PropValue::Str(e.src.clone()))
            } else if str_eq(prop.as_str(), "dst") {
                Some(PropValue::Str(e.dst.clone()))
            } else {
                match scan_get(&e.props, prop.as_str()) {
                    Some(v) => Some(v.duplicate()),
                    None => None,
                }
            }
        },
        Some(Binding::Value(RowValue::Scalar(p))) => {
            if text_len(prop.as_str()) == 0 {
                Some(p.duplicate())
            } else {
                None
            }
        },
        _ => None,
    }
}

/// The value of bare variable `name` under `b`.
fn eval_var(st: &KeyspaceState, b: &Bindings, name: &String) -> (r: Option<PropValue>)
    requires
        st.wf(),
        b.wf(),
        env_valid(*st, env_of(*b)),
    ensures
        opt_pv(r) == var_val(*st, env_of(*b), name@),
{
    proof {
        lemma_env_get(*b, name@);
    }
    match b.get(name) {
        Some(Binding::Value(RowValue::Scalar(p))) => Some(p.duplicate()),
        Some(Binding::NodeRef(i)) => Some(PropValue::Str(st.node(*i).id.clone())),
        Some(Binding::EdgeRef(j)) => Some(PropValue::Str(st.edge(*j).label.clone())),
        _ => None,
    }
}

/// The length of the list bound to the first argument, if that is a bare
/// variable bound to a list.
fn first_arg_list_len(b: &Bindings, args: &Vec<Expr>) -> (r: Option<usize>)
    requires
        b.wf(),
    ensures
        match r {
            Some(n) => bound_list_len(env_of(*b), args@) == Some(n as nat),
            None => bound_list_len(env_of(*b), args@) == None::<nat>,
        },
{
    if args.len() == 0 {
        return None;
    }
    match &args[0] {
        Expr::Var(name) => {
            proof {
                lemma_env_get(*b, name@);
            }
            match b.get(name) {
                Some(Binding::Value(RowValue::List(items))) => {
                    proof {
                        assert(pvs(items@).len() == items@.len());
                    }
                    Some(items.len())
                },
                _ => None,
            }
        },
        _ => None,
    }
}

/// The string value of an optional argument value.
fn as_text(v: &Option<PropValue>) -> (r: Option<&String>)
    ensures
        match r {
            Some(s) => opt_pv(*v) == Some(PropView::Str(s@)),
            None => !(opt_pv(*v) matches Some(PropView::Str(_))),
        },
{
    match v {
        Some(PropValue::Str(s)) => Some(s),
        _ => None,
    }
}

/// The value of expression `e` under the row `b`.
pub fn eval_expr(st: &KeyspaceState, params: &Params, b: &Bindings, e: &Expr) -> (r: Option<PropValue>)
    requires
        st.wf(),
        params.wf(),
        b.wf(),
        env_valid(*st, env_of(*b)),
    ensures
        opt_pv(r) == expr_val(*st, *params, env_of(*b), *e),
    decreases e,
{
    match e {
        Expr::Property { var, prop } => eval_property(st, b, var, prop),
        Expr::Var(name) => eval_var(st, b, name),
        Expr::Literal(p) => Some(p.duplicate()),
        Expr::Param(name) => match params.get(name) {
            Some(ParamBinding::Scalar(p)) => Some(p.duplicate()),
            _ => None,
        },
        Expr::List(_) => None,
        Expr::Call { name, args } => {
            let a0 = if args.len() > 0 { eval_expr(st, params, b, &args[0]) } else { None };
            let a1 = if args.len() > 1 { eval_expr(st, params, b, &args[1]) } else { None };
            let a2 = if args.len() > 2 { eval_expr(st, params, b, &args[2]) } else { None };
            let a3 = if args.len() > 3 { eval_expr(st, params, b, &args[3]) } else { None };
            let list_len = first_arg_list_len(b, args);
            let ghost av = seq![opt_pv(a0), opt_pv(a1), opt_pv(a2), opt_pv(a3)];
            let r = eval_call(name, list_len, &a0, &a1, &a2, &a3);
            proof {
                assert(av[0] == opt_pv(a0));
            }
            r
        },
    }
}

/// Calls function `name` on already evaluated arguments.
fn eval_call(
    name: &String,
    list_len: Option<usize>,
    a0: &Option<PropValue>,
    a1: &Option<PropValue>,
    a2: &Option<PropValue>,
    a3: &Option<PropValue>,
) -> (r: Option<PropValue>)
    ensures
        opt_pv(r) == call_result(
            name@,
            match list_len { Some(n) => Some(n as nat), None => None },
            seq![opt_pv(*a0), opt_pv(*a1), opt_pv(*a2), opt_pv(*a3)],
        ),
{
    let ghost a = seq![opt_pv(*a0), opt_pv(*a1), opt_pv(*a2), opt_pv(*a3)];
    proof {
        reveal_strlit("regexp_extract");
        reveal_strlit("size");
        reveal_strlit("starts_with");
        reveal_strlit("ends_with");
        reveal_strlit("last_segment");
        reveal_strlit("signature_divergent");
        reveal_strlit("entries_subset");
        reveal_strlit("overlap_verdict");
        assert(a[0] == opt_pv(*a0));
        assert(a[1] == opt_pv(*a1));
        assert(a[2] == opt_pv(*a2));
        assert(a[3] == opt_pv(*a3));
    }
    let n = name.as_str();
    if str_eq(n, "regexp_extract") {
        match (as_text(a0), as_text(a1)) {
            (Some(t), Some(p)) => match regex_find(p.as_str(), t.as_str()) {
                Some(Some(m)) => Some(PropValue::Str(m)),
                _ => None,
            },
            _ => None,
        }
    } else if str_eq(n, "size") {
        match list_len {
            Some(k) => Some(PropValue::Int(k as i64)),
            None => match as_text(a0) {
                Some(s) => Some(PropValue::Int(text_len(s.as_str()) as i64)),
                None => None,
            },
        }
    } else if str_eq(n, "starts_with") {
        match (as_text(a0), as_text(a1)) {
            (Some(t), Some(p)) => Some(PropValue::Bool(has_prefix(t.as_str(), p.as_str()))),
            _ => None,
        }
    } else if str_eq(n, "ends_with") {
        match (as_text(a0), as_text(a1)) {
            (Some(t), Some(p)) => Some(PropValue::Bool(has_suffix(t.as_str(), p.as_str()))),
            _ => None,
        }
    } else if str_eq(n, "last_segment") {
        match as_text(a0) {
            Some(t) => Some(PropValue::Str(last_segment(t.as_str()))),
            None => None,
        }
    } else if str_eq(n, "signature_divergent") {
        match (as_text(a0), as_text(a1)) {
            (Some(x), Some(y)) => Some(PropValue::Bool(signatures_differ_modulo_whitespace(x.as_str(), y.as_str()))),
            _ => None,
        }
    } else if str_eq(n, "entries_subset") {
        match (as_text(a0), as_text(a1)) {
            (Some(x), Some(y)) => if is_json_array(x.as_str()) && is_json_array(y.as_str()) {
                Some(PropValue::Bool(entries_subset_impl(x.as_str(), y.as_str())))
            } else {
                None
            },
            _ => None,
        }
    } else if str_eq(n, "overlap_verdict") {
        match (as_text(a0), as_text(a1), as_text(a2), as_text(a3)) {
            (Some(an), Some(bn), Some(ah), Some(bh)) => Some(
                PropValue::Str(overlap_verdict_impl(an.as_str(), bn.as_str(), ah.as_str(), bh.as_str()).to_owned()),
            ),
            _ => None,
        }
    } else {
        None
    }
}

/// The list expression `e` denotes on the right of `IN`.
pub fn eval_expr_list(st: &KeyspaceState, params: &Params, b: &Bindings, e: &Expr) -> (r: Option<Vec<PropValue>>)
    requires
        st.wf(),
        params.wf(),
        b.wf(),
        env_valid(*st, env_of(*b)),
    ensures
        match r {
            Some(v) => list_val(*st, *params, env_of(*b), *e) == Some(pvs(v@)),
            None => list_val(*st, *params, env_of(*b), *e) == None::<Seq<PropView>>,
        },
{
    match e {
        Expr::List(items) => {
            let mut out: Vec<PropValue> = Vec::new();
            let mut i: usize = 0;
            while i < items.len()
                invariant
                    st.wf(),
                    params.wf(),
                    b.wf(),
                    env_valid(*st, env_of(*b)),
                    i <= items@.len(),
                    pvs(out@) == vals_of(*st, *params, env_of(*b), items@.take(i as int)),
                decreases items@.len() - i,
            {
                let v = eval_expr(st, params, b, &items[i]);
                proof {
                    assert(items@.take(i + 1).drop_last() =~= items@.take(i as int));
                    assert(items@.take(i + 1).last() == items@[i as int]);
                }
                match v {
                    Some(p) => {
                        out.push(p);
                        proof {
                            assert(pvs(out@) =~= pvs(out@.drop_last()).push(out@.last().pv()));
                        }
                    },
                    None => {},
                }
                i = i + 1;
            }
            proof {
                assert(items@.take(i as int) =~= items@);
            }
            Some(out)
        },
        Expr::Param(name) => match params.get(name) {
            Some(ParamBinding::List(v)) => Some(duplicate_values(v)),
            Some(ParamBinding::Scalar(p)) => {
                let out = vec![p.duplicate()];
                proof {
                    assert(pvs(out@) =~= seq![p.pv()]);
                }
                Some(out)
            },
            None => None,
        },
        _ => match eval_expr(st, params, b, e) {
            Some(p) => {
                let out = vec![p];
                proof {
                    assert(pvs(out@) =~= seq![out@[0].pv()]);
                }
                Some(out)
            },
            None => None,
        },
    }
}

} // verus!
