//! Candidate resolution through the posting lists: the equality hints a
//! node pattern and its `WHERE` clause give, and the intersection of their
//! posting lists.
use vstd::prelude::*;

use crate::fact::{index_key_of, index_key_spec, prop_of, props_view, Node, PropValue, PropView};
use crate::graph::{declared_pairs, entry_key, increasing, key_set, node_keys, postings_of, KeyspaceState};
use crate::index_spec::{computed_key_name, computed_key_source, computed_key_value, ComputedKey, IndexEntry, CONVERSION_PREFIX_PATTERN};
use crate::keys::{LabelTag, PostingKey, VarProp};
use crate::query::{CompareOp, Expr, NodePattern, ParamBinding, Predicate};
use crate::sorted::{Keyed, SortedMap};
use crate::text::str_eq;

verus! {

/// The values of the variables bound by earlier patterns: the index key
/// of property `prop` of the node bound to `var`.
pub type BoundProps = SortedMap<VarProp, String>;

/// The parameters of a query, by name.
pub type Params = SortedMap<String, ParamBinding>;

/// A hint: the index tag and the index value a candidate must be listed
/// under.
pub type Hint = (String, String);

/// The abstract hints.
pub open spec fn hints_view(v: Seq<Hint>) -> Seq<(Seq<char>, Seq<char>)> {
    v.map_values(|h: Hint| (h.0@, h.1@))
}

/// The index key bound to `var.prop`, if any.
pub open spec fn bound_value(b: BoundProps, var: Seq<char>, prop: Seq<char>) -> Option<Seq<char>> {
    match b.lookup((var, prop)) {
        Some(s) => Some(s@),
        None => None,
    }
}

/// The index key of a literal, or of a scalar parameter.
pub open spec fn literal_key(e: Expr, params: Params) -> Option<Seq<char>> {
    match e {
        Expr::Literal(pv) => index_key_spec(pv.pv()),
        Expr::Param(name) => match params.lookup(name@) {
            Some(ParamBinding::Scalar(pv)) => index_key_spec(pv.pv()),
            _ => None,
        },
        _ => None,
    }
}

/// `target.prop = <literal or parameter>` (either side): the hint
/// `(prop, key)`.
pub open spec fn eq_hint(target: Seq<char>, left: Expr, right: Expr, params: Params) -> Option<(Seq<char>, Seq<char>)> {
    match left {
        Expr::Property { var, prop } if var@ == target => match literal_key(right, params) {
            Some(v) => Some((prop@, v)),
            None => None,
        },
        _ => match right {
            Expr::Property { var, prop } if var@ == target => match literal_key(left, params) {
                Some(v) => Some((prop@, v)),
                None => None,
            },
            _ => None,
        },
    }
}

/// `var.prop` as `(var, prop)`.
pub open spec fn property_of(e: Expr) -> Option<(Seq<char>, Seq<char>)> {
    match e {
        Expr::Property { var, prop } => Some((var@, prop@)),
        _ => None,
    }
}

/// `name(var.prop)` or `name(var.prop, '<literal>')` as
/// `(name, var, prop, literal)`.
pub open spec fn computed_call_of(e: Expr) -> Option<(Seq<char>, Seq<char>, Seq<char>, Option<Seq<char>>)> {
    match e {
        Expr::Call { name, args } => if args@.len() == 1 {
            match args@[0] {
                Expr::Property { var, prop } => Some((name@, var@, prop@, None)),
                _ => None,
            }
        } else if args@.len() == 2 {
            match args@[0] {
                Expr::Property { var, prop } => match args@[1] {
                    Expr::Literal(PropValue::Str(lit)) => Some((name@, var@, prop@, Some(lit@))),
                    _ => None,
                },
                _ => None,
            }
        } else {
            None
        },
        _ => None,
    }
}

/// The computed key a call names: `last_segment(x)`, or
/// `regexp_extract(x, <the conversion prefix pattern>)`.
pub open spec fn computed_key_of_call(name: Seq<char>, literal: Option<Seq<char>>) -> Option<ComputedKey> {
    if name == "last_segment"@ && literal is None {
        Some(ComputedKey::LastSegment)
    } else if name == "regexp_extract"@ && literal == Some(CONVERSION_PREFIX_PATTERN@) {
        Some(ComputedKey::ConversionPrefix)
    } else {
        None
    }
}

/// What a cross-pattern equality of computed calls tells about the target.
pub enum ComputedHint {
    /// The target must be listed under `(tag, value)`.
    Bucket(String, String),
    /// The bound side has no value for the key: no node can match.
    ProvablyEmpty(String),
    NoHint,
}

/// The abstract [`ComputedHint`].
pub enum ComputedHintView {
    Bucket(Seq<char>, Seq<char>),
    ProvablyEmpty(Seq<char>),
    NoHint,
}

impl ComputedHint {
    pub open spec fn view(&self) -> ComputedHintView {
        match self {
            ComputedHint::Bucket(t, v) => ComputedHintView::Bucket(t@, v@),
            ComputedHint::ProvablyEmpty(t) => ComputedHintView::ProvablyEmpty(t@),
            ComputedHint::NoHint => ComputedHintView::NoHint,
        }
    }
}

/// `f(a.p) = f(b.p)` for a computed key `f` of source property `p`,
/// with exactly one side the target and the other side bound: the bucket
/// of the bound side's value.
pub open spec fn computed_hint(target: Seq<char>, left: Expr, right: Expr, bound: BoundProps) -> ComputedHintView {
    match (computed_call_of(left), computed_call_of(right)) {
        (Some(l), Some(r)) => if l.0 != r.0 || l.2 != r.2 || l.3 != r.3 {
            ComputedHintView::NoHint
        } else {
            match computed_key_of_call(l.0, l.3) {
                None => ComputedHintView::NoHint,
                Some(k) => if l.2 != computed_key_source(k) || (l.1 == target) == (r.1 == target) {
                    ComputedHintView::NoHint
                } else {
                    match bound_value(bound, if l.1 == target { r.1 } else { l.1 }, l.2) {
                        None => ComputedHintView::NoHint,
                        Some(val) => match computed_key_value(k, val) {
                            Some(b) => ComputedHintView::Bucket(computed_key_name(k), b),
                            None => ComputedHintView::ProvablyEmpty(computed_key_name(k)),
                        },
                    }
                },
            }
        },
        _ => ComputedHintView::NoHint,
    }
}

/// `a.p = b.p` with exactly one side the target and the other bound: the
/// hint `(p, <the bound value>)`.
pub open spec fn prop_hint(target: Seq<char>, left: Expr, right: Expr, bound: BoundProps) -> Option<(Seq<char>, Seq<char>)> {
    match (property_of(left), property_of(right)) {
        (Some(l), Some(r)) => if l.1 != r.1 || (l.0 == target) == (r.0 == target) {
            None
        } else {
            match bound_value(bound, if l.0 == target { r.0 } else { l.0 }, l.1) {
                Some(v) => Some((l.1, v)),
                None => None,
            }
        },
        _ => None,
    }
}

/// Whether `(label, tag)` is declared.
pub fn is_indexed_pair(pairs: &SortedMap<LabelTag, ()>, label: &str, tag: &str) -> (r: bool)
    requires
        pairs.wf(),
    ensures
        r == pairs.has((label@, tag@)),
{
    let key = LabelTag { label: label.to_owned(), tag: tag.to_owned() };
    pairs.contains_key(&key)
}

/// The index key of a literal or of a scalar parameter.
pub fn resolve_literal_value(e: &Expr, params: &Params) -> (r: Option<String>)
    requires
        params.wf(),
    ensures
        match r {
            Some(s) => literal_key(*e, *params) == Some(s@),
            None => literal_key(*e, *params) == None::<Seq<char>>,
        },
{
    match e {
        Expr::Literal(pv) => index_key_of(pv),
        Expr::Param(name) => match params.get(name) {
            Some(ParamBinding::Scalar(pv)) => index_key_of(pv),
            _ => None,
        },
        _ => None,
    }
}

/// The hint of `target.prop = <literal or parameter>`, either side.
pub fn resolve_eq_hint(target: &str, left: &Expr, right: &Expr, params: &Params) -> (r: Option<Hint>)
    requires
        params.wf(),
    ensures
        match r {
            Some(h) => eq_hint(target@, *left, *right, *params) == Some((h.0@, h.1@)),
            None => eq_hint(target@, *left, *right, *params) == None::<(Seq<char>, Seq<char>)>,
        },
{
    match left {
        Expr::Property { var, prop } => {
            if str_eq(var.as_str(), target) {
                return match resolve_literal_value(right, params) {
                    Some(v) => Some((prop.clone(), v)),
                    None => None,
                };
            }
        },
        _ => {},
    }
    match right {
        Expr::Property { var, prop } => {
            if str_eq(var.as_str(), target) {
                match resolve_literal_value(left, params) {
                    Some(v) => Some((prop.clone(), v)),
                    None => None,
                }
            } else {
                None
            }
        },
        _ => None,
    }
}

/// `var.prop` as `(var, prop)`.
pub fn unwrap_property(e: &Expr) -> (r: Option<(&str, &str)>)
    ensures
        match r {
            Some(p) => property_of(*e) == Some((p.0@, p.1@)),
            None => property_of(*e) is None,
        },
{
    match e {
        Expr::Property { var, prop } => Some((var.as_str(), prop.as_str())),
        _ => None,
    }
}

/// `name(var.prop)` or `name(var.prop, '<literal>')`.
pub fn unwrap_computed_call(e: &Expr) -> (r: Option<(&str, &str, &str, Option<&str>)>)
    ensures
        match r {
            Some(c) => computed_call_of(*e) == Some((c.0@, c.1@, c.2@, match c.3 {
                Some(l) => Some(l@),
                None => None,
            })),
            None => computed_call_of(*e) is None,
        },
{
    match e {
        Expr::Call { name, args } => {
            if args.len() == 1 {
                match &args[0] {
                    Expr::Property { var, prop } => Some((name.as_str(), var.as_str(), prop.as_str(), None)),
                    _ => None,
                }
            } else if args.len() == 2 {
                match &args[0] {
                    Expr::Property { var, prop } => match &args[1] {
                        Expr::Literal(PropValue::Str(lit)) => Some((name.as_str(), var.as_str(), prop.as_str(), Some(lit.as_str()))),
                        _ => None,
                    },
                    _ => None,
                }
            } else {
                None
            }
        },
        _ => None,
    }
}

/// The computed key a call names, if any.
pub fn match_computed_call(name: &str, literal: Option<&str>) -> (r: Option<ComputedKey>)
    ensures
        r == computed_key_of_call(name@, match literal {
            Some(l) => Some(l@),
            None => None,
        }),
{
    proof {
        reveal_strlit("last_segment");
        reveal_strlit("regexp_extract");
    }
    match literal {
        None => if str_eq(name, "last_segment") {
            Some(ComputedKey::LastSegment)
        } else {
            None
        },
        Some(pat) => if str_eq(name, "regexp_extract") && str_eq(pat, CONVERSION_PREFIX_PATTERN) {
            Some(ComputedKey::ConversionPrefix)
        } else {
            None
        },
    }
}

fn opt_str_eq(a: Option<&str>, b: Option<&str>) -> (r: bool)
    ensures
        r == ((match a {
            Some(x) => Some(x@),
            None => None::<Seq<char>>,
        }) == (match b {
            Some(x) => Some(x@),
            None => None::<Seq<char>>,
        })),
{
    match (a, b) {
        (Some(x), Some(y)) => str_eq(x, y),
        (None, None) => true,
        _ => false,
    }
}

/// The bound value of `var.prop`, if any.
pub fn lookup_bound(bound: &BoundProps, var: &str, prop: &str) -> (r: Option<String>)
    requires
        bound.wf(),
    ensures
        match r {
            Some(s) => bound_value(*bound, var@, prop@) == Some(s@),
            None => bound_value(*bound, var@, prop@) is None,
        },
{
    let key = VarProp { var: var.to_owned(), prop: prop.to_owned() };
    match bound.get(&key) {
        Some(v) => Some(v.clone()),
        None => None,
    }
}

/// What `f(a.p) = f(b.p)` tells about the target.
pub fn resolve_cross_ref_computed_hint(target: &str, left: &Expr, right: &Expr, bound: &BoundProps) -> (r: ComputedHint)
    requires
        bound.wf(),
    ensures
        r.view() == computed_hint(target@, *left, *right, *bound),
{
    let (l_name, l_var, l_prop, l_lit) = match unwrap_computed_call(left) {
        Some(c) => c,
        None => return ComputedHint::NoHint,
    };
    let (r_name, r_var, r_prop, r_lit) = match unwrap_computed_call(right) {
        Some(c) => c,
        None => return ComputedHint::NoHint,
    };
    if !str_eq(l_name, r_name) || !str_eq(l_prop, r_prop) || !opt_str_eq(l_lit, r_lit) {
        return ComputedHint::NoHint;
    }
    let computed_key = match match_computed_call(l_name, l_lit) {
        Some(k) => k,
        None => return ComputedHint::NoHint,
    };
    if !str_eq(l_prop, computed_key.source_prop()) {
        return ComputedHint::NoHint;
    }
    let l_is_target = str_eq(l_var, target);
    let r_is_target = str_eq(r_var, target);
    if l_is_target == r_is_target {
        return ComputedHint::NoHint;
    }
    let bound_var = if l_is_target { r_var } else { l_var };
    let bound_value = match lookup_bound(bound, bound_var, l_prop) {
        Some(v) => v,
        None => return ComputedHint::NoHint,
    };
    match computed_key.evaluate(bound_value.as_str()) {
        Some(bucket) => ComputedHint::Bucket(computed_key.as_str().to_owned(), bucket),
        None => ComputedHint::ProvablyEmpty(computed_key.as_str().to_owned()),
    }
}

/// The hint of `a.p = b.p` with one side the target and the other bound.
pub fn resolve_cross_ref_prop_hint(target: &str, left: &Expr, right: &Expr, bound: &BoundProps) -> (r: Option<Hint>)
    requires
        bound.wf(),
    ensures
        match r {
            Some(h) => prop_hint(target@, *left, *right, *bound) == Some((h.0@, h.1@)),
            None => prop_hint(target@, *left, *right, *bound) is None,
        },
{
    let (l_var, l_prop) = match unwrap_property(left) {
        Some(p) => p,
        None => return None,
    };
    let (r_var, r_prop) = match unwrap_property(right) {
        Some(p) => p,
        None => return None,
    };
    if !str_eq(l_prop, r_prop) {
        return None;
    }
    let l_is_target = str_eq(l_var, target);
    let r_is_target = str_eq(r_var, target);
    if l_is_target == r_is_target {
        return None;
    }
    let bound_var = if l_is_target { r_var } else { l_var };
    match lookup_bound(bound, bound_var, l_prop) {
        Some(v) => Some((l_prop.to_owned(), v)),
        None => None,
    }
}

} // verus!

verus! {

/// A hint, kept only when its `(label, tag)` pair is declared.
pub open spec fn declared_hint(label: Seq<char>, pairs: Set<(Seq<char>, Seq<char>)>, h: Option<(Seq<char>, Seq<char>)>) -> Seq<(Seq<char>, Seq<char>)> {
    match h {
        Some(x) => if pairs.contains((label, x.0)) {
            seq![x]
        } else {
            Seq::empty()
        },
        None => Seq::empty(),
    }
}

/// The hints of one equality `left = right`, and whether it rules every
/// node out.
pub open spec fn eq_compare_hints(
    label: Seq<char>,
    pairs: Set<(Seq<char>, Seq<char>)>,
    target: Seq<char>,
    left: Expr,
    right: Expr,
    params: Params,
    bound: BoundProps,
) -> (Seq<(Seq<char>, Seq<char>)>, bool) {
    let h1 = declared_hint(label, pairs, eq_hint(target, left, right, params));
    let h3 = declared_hint(label, pairs, prop_hint(target, left, right, bound));
    match computed_hint(target, left, right, bound) {
        ComputedHintView::Bucket(t, v) => (h1 + declared_hint(label, pairs, Some((t, v))) + h3, false),
        ComputedHintView::ProvablyEmpty(t) => if pairs.contains((label, t)) {
            (h1, true)
        } else {
            (h1 + h3, false)
        },
        ComputedHintView::NoHint => (h1 + h3, false),
    }
}

/// The hints a `WHERE` predicate gives for the node bound to `target`
/// (conjunctions are followed, other connectives give none), and whether
/// it rules every node out.
pub open spec fn where_hints(
    label: Seq<char>,
    pairs: Set<(Seq<char>, Seq<char>)>,
    target: Seq<char>,
    pred: Predicate,
    params: Params,
    bound: BoundProps,
) -> (Seq<(Seq<char>, Seq<char>)>, bool)
    decreases pred,
{
    match pred {
        Predicate::And(a, b) => {
            let ra = where_hints(label, pairs, target, *a, params, bound);
            if ra.1 {
                ra
            } else {
                let rb = where_hints(label, pairs, target, *b, params, bound);
                (ra.0 + rb.0, rb.1)
            }
        },
        Predicate::Compare { left, op, right } => if op == CompareOp::Eq {
            eq_compare_hints(label, pairs, target, left, right, params, bound)
        } else {
            (Seq::empty(), false)
        },
        _ => (Seq::empty(), false),
    }
}

/// Whether a `WHERE` predicate rules every node out.
#[derive(Debug, PartialEq, Eq, Structural)]
pub enum HintOutcome {
    Collected,
    ProvablyEmpty,
}

fn push_declared(out: &mut Vec<Hint>, pairs: &SortedMap<LabelTag, ()>, label: &str, h: Option<Hint>)
    requires
        pairs.wf(),
    ensures
        hints_view(final(out)@) == hints_view(old(out)@) + declared_hint(label@, key_set(*pairs), match h {
            Some(x) => Some((x.0@, x.1@)),
            None => None,
        }),
{
    match h {
        Some(x) => {
            if is_indexed_pair(pairs, label, x.0.as_str()) {
                let ghost xv = (x.0@, x.1@);
                let ghost pre = out@;
                out.push(x);
                proof {
                    assert(hints_view(out@) =~= hints_view(pre) + seq![xv]);
                }
            } else {
                proof {
                    assert(hints_view(out@) =~= hints_view(out@) + Seq::<(Seq<char>, Seq<char>)>::empty());
                }
            }
        },
        None => {
            proof {
                assert(hints_view(out@) =~= hints_view(out@) + Seq::<(Seq<char>, Seq<char>)>::empty());
            }
        },
    }
}

/// Collects the hints `WHERE` gives for the node bound to `target`.
pub fn collect_where_hints(
    label: &str,
    pairs: &SortedMap<LabelTag, ()>,
    target: &str,
    pred: &Predicate,
    params: &Params,
    bound: &BoundProps,
    out: &mut Vec<Hint>,
) -> (r: HintOutcome)
    requires
        pairs.wf(),
        params.wf(),
        bound.wf(),
    ensures
        ({
            let w = where_hints(label@, key_set(*pairs), target@, *pred, *params, *bound);
            &&& hints_view(final(out)@) == hints_view(old(out)@) + w.0
            &&& (r == HintOutcome::ProvablyEmpty) == w.1
        }),
    decreases pred,
{
    let ghost pset = key_set(*pairs);
    let ghost pre = out@;
    match pred {
        Predicate::And(a, b) => {
            let left_outcome = collect_where_hints(label, pairs, target, a, params, bound, out);
            if left_outcome == HintOutcome::ProvablyEmpty {
                return HintOutcome::ProvablyEmpty;
            }
            let ghost mid = out@;
            let r = collect_where_hints(label, pairs, target, b, params, bound, out);
            proof {
                let ra = where_hints(label@, pset, target@, **a, *params, *bound);
                let rb = where_hints(label@, pset, target@, **b, *params, *bound);
                assert(hints_view(out@) =~= hints_view(pre) + (ra.0 + rb.0));
            }
            r
        },
        Predicate::Compare { left, op, right } => {
            if *op != CompareOp::Eq {
                proof {
                    assert(hints_view(out@) =~= hints_view(pre) + Seq::<(Seq<char>, Seq<char>)>::empty());
                }
                return HintOutcome::Collected;
            }
            let h1 = resolve_eq_hint(target, left, right, params);
            push_declared(out, pairs, label, h1);
            let ghost after1 = out@;
            match resolve_cross_ref_computed_hint(target, left, right, bound) {
                ComputedHint::Bucket(tag, value) => {
                    push_declared(out, pairs, label, Some((tag, value)));
                },
                ComputedHint::ProvablyEmpty(tag) => {
                    if is_indexed_pair(pairs, label, tag.as_str()) {
                        return HintOutcome::ProvablyEmpty;
                    }
                },
                ComputedHint::NoHint => {},
            }
            let ghost after2 = out@;
            let h3 = resolve_cross_ref_prop_hint(target, left, right, bound);
            push_declared(out, pairs, label, h3);
            proof {
                assert(hints_view(out@) =~= hints_view(pre) + (hints_view(after1).skip(hints_view(pre).len() as int)
                    + hints_view(after2).skip(hints_view(after1).len() as int)
                    + hints_view(out@).skip(hints_view(after2).len() as int)));
            }
            HintOutcome::Collected
        },
        _ => {
            proof {
                assert(hints_view(out@) =~= hints_view(pre) + Seq::<(Seq<char>, Seq<char>)>::empty());
            }
            HintOutcome::Collected
        },
    }
}

} // verus!

verus! {

/// The hints of a pattern's inline properties (in key order): each
/// property of a declared pair whose value has an index key.
pub open spec fn pattern_hints(label: Seq<char>, pairs: Set<(Seq<char>, Seq<char>)>, props: Seq<(Seq<char>, PropView)>) -> Seq<(Seq<char>, Seq<char>)>
    decreases props.len(),
{
    if props.len() == 0 {
        Seq::empty()
    } else {
        let p = props.last();
        pattern_hints(label, pairs, props.drop_last()) + declared_hint(label, pairs, match index_key_spec(p.1) {
            Some(k) => Some((p.0, k)),
            None => None,
        })
    }
}

/// Collects the hints of the pattern's inline properties.
pub fn collect_pattern_hints(label: &str, pairs: &SortedMap<LabelTag, ()>, np: &NodePattern, out: &mut Vec<Hint>)
    requires
        pairs.wf(),
    ensures
        hints_view(final(out)@) == hints_view(old(out)@) + pattern_hints(label@, key_set(*pairs), props_view(np.props)),
{
    let ghost pre = out@;
    let ghost pv = props_view(np.props);
    let mut i: usize = 0;
    while i < np.props.entries.len()
        invariant
            i <= np.props.entries@.len(),
            pairs.wf(),
            pv == props_view(np.props),
            hints_view(out@) == hints_view(pre) + pattern_hints(label@, key_set(*pairs), pv.take(i as int)),
        decreases np.props.entries@.len() - i,
    {
        let ghost before = out@;
        let (prop, value) = (&np.props.entries[i].0, &np.props.entries[i].1);
        let h = match index_key_of(value) {
            Some(k) => Some((prop.clone(), k)),
            None => None,
        };
        push_declared(out, pairs, label, h);
        proof {
            assert(pv.take(i + 1).drop_last() =~= pv.take(i as int));
            assert(pv.take(i + 1).last() == pv[i as int]);
            assert(hints_view(out@) =~= hints_view(pre) + pattern_hints(label@, key_set(*pairs), pv.take(i + 1)));
        }
        i = i + 1;
    }
    proof {
        assert(pv.take(i as int) =~= pv);
    }
}

/// Whether node `i` is listed under `(label, tag, value)` for every hint.
pub open spec fn listed_under_all(state: KeyspaceState, label: Seq<char>, hints: Seq<(Seq<char>, Seq<char>)>, i: usize) -> bool {
    forall|k: int| 0 <= k < hints.len() ==> #[trigger] key_set(state.by_prop).contains((label, hints[k].0, hints[k].1, i))
}

/// The nodes listed under `(label, tag, value)`, ascending.
pub fn lookup_posting(state: &KeyspaceState, label: &str, tag: &str, value: &str) -> (r: Vec<usize>)
    requires
        state.by_prop.wf(),
    ensures
        increasing(r@),
        forall|i: usize| #[trigger] r@.contains(i) <==> key_set(state.by_prop).contains((label@, tag@, value@, i)),
{
    let es = &state.by_prop.entries;
    let ghost want = (label@, tag@, value@);
    let label_s = label.to_owned();
    let tag_s = tag.to_owned();
    let value_s = value.to_owned();
    let mut out: Vec<usize> = Vec::new();
    // `src[a]` is the entry that `out[a]` came from.
    let ghost mut src: Seq<int> = Seq::empty();
    let mut j: usize = 0;
    while j < es.len()
        invariant
            j <= es@.len(),
            es == &state.by_prop.entries,
            want == (label@, tag@, value@),
            label_s@ == label@,
            tag_s@ == tag@,
            value_s@ == value@,
            state.by_prop.wf(),
            increasing(out@),
            src.len() == out@.len(),
            forall|a: int| 0 <= a < out@.len() ==> 0 <= #[trigger] src[a] < j
                && es@[src[a]].0.kv() == (want.0, want.1, want.2, out@[a]),
            forall|e: int| 0 <= e < j && (es@[e].0.label@, es@[e].0.tag@, es@[e].0.value@) == want
                ==> out@.contains(#[trigger] es@[e].0.node),
        decreases es@.len() - j,
    {
        let pk = &es[j].0;
        let m = pk.label == label_s && pk.tag == tag_s && pk.value == value_s;
        proof {
            assert(*pk == es@[j as int].0);
            assert(m == ((es@[j as int].0.label@, es@[j as int].0.tag@, es@[j as int].0.value@) == want));
        }
        if m {
            let ghost before = out@;
            proof {
                assert forall|a: int| 0 <= a < before.len() implies before[a] < pk.node by {
                    let e = src[a];
                    assert(PostingKey::key_lt(es@[e].0.kv(), es@[j as int].0.kv()));
                    crate::keys::lemma_lex3_irreflexive(want);
                }
            }
            out.push(pk.node);
            proof {
                src = src.push(j as int);
                assert forall|e: int| 0 <= e < j + 1 && (es@[e].0.label@, es@[e].0.tag@, es@[e].0.value@) == want
                    implies out@.contains(#[trigger] es@[e].0.node) by {
                    if e < j {
                        assert(before.contains(es@[e].0.node));
                        let a = choose|a: int| 0 <= a < before.len() && before[a] == es@[e].0.node;
                        assert(out@[a] == es@[e].0.node);
                    } else {
                        assert(out@[before.len() as int] == es@[e].0.node);
                    }
                }
            }
        }
        j = j + 1;
    }
    proof {
        assert forall|i: usize| #[trigger] out@.contains(i) <==> key_set(state.by_prop).contains((label@, tag@, value@, i)) by {
            if out@.contains(i) {
                let a = choose|a: int| 0 <= a < out@.len() && out@[a] == i;
                let e = src[a];
                assert(es@[e].0.kv() == (label@, tag@, value@, i));
                assert(state.by_prop.has((label@, tag@, value@, i)));
            }
            if key_set(state.by_prop).contains((label@, tag@, value@, i)) {
                let e = choose|e: int| 0 <= e < es@.len() && #[trigger] es@[e].0.kv() == (label@, tag@, value@, i);
                assert(out@.contains(es@[e].0.node));
            }
        }
    }
    out
}

/// Whether node `i` is listed under every hint.
fn listed_under_every(state: &KeyspaceState, label: &str, hints: &Vec<Hint>, i: usize) -> (r: bool)
    requires
        state.by_prop.wf(),
    ensures
        r == listed_under_all(*state, label@, hints_view(hints@), i),
{
    let mut k: usize = 0;
    while k < hints.len()
        invariant
            k <= hints@.len(),
            state.by_prop.wf(),
            forall|x: int| 0 <= x < k ==> #[trigger] key_set(state.by_prop).contains((label@, hints_view(hints@)[x].0, hints_view(hints@)[x].1, i)),
        decreases hints@.len() - k,
    {
        let key = PostingKey { label: label.to_owned(), tag: hints[k].0.clone(), value: hints[k].1.clone(), node: i };
        if !state.by_prop.contains_key(&key) {
            proof {
                assert(!key_set(state.by_prop).contains((label@, hints_view(hints@)[k as int].0, hints_view(hints@)[k as int].1, i)));
            }
            return false;
        }
        k = k + 1;
    }
    true
}

/// The nodes listed under every hint, ascending; none for no hint.
pub fn intersect(state: &KeyspaceState, label: &str, hints: &Vec<Hint>) -> (r: Vec<usize>)
    requires
        state.by_prop.wf(),
    ensures
        hints@.len() == 0 ==> r@.len() == 0,
        increasing(r@),
        hints@.len() > 0 ==> forall|i: usize| #[trigger] r@.contains(i) <==> listed_under_all(*state, label@, hints_view(hints@), i),
{
    if hints.len() == 0 {
        return Vec::new();
    }
    let first = lookup_posting(state, label, hints[0].0.as_str(), hints[0].1.as_str());
    let mut acc: Vec<usize> = Vec::new();
    let mut j: usize = 0;
    while j < first.len()
        invariant
            j <= first@.len(),
            hints@.len() > 0,
            state.by_prop.wf(),
            increasing(first@),
            forall|i: usize| #[trigger] first@.contains(i) <==> key_set(state.by_prop).contains((label@, hints@[0].0@, hints@[0].1@, i)),
            increasing(acc@),
            forall|a: int| #![trigger acc@[a]] 0 <= a < acc@.len() ==> exists|e: int| 0 <= e < j && #[trigger] first@[e] == acc@[a],
            forall|i: usize| #[trigger] acc@.contains(i) <==> (exists|e: int| 0 <= e < j && first@[e] == i) && listed_under_all(*state, label@, hints_view(hints@), i),
        decreases first@.len() - j,
    {
        let x = first[j];
        let ghost before = acc@;
        if listed_under_every(state, label, hints, x) {
            proof {
                assert forall|a: int| 0 <= a < before.len() implies before[a] < x by {
                    let e = choose|e: int| 0 <= e < j && #[trigger] first@[e] == before[a];
                }
            }
            acc.push(x);
            proof {
                assert forall|a: int| #![trigger acc@[a]] 0 <= a < acc@.len() implies exists|e: int| 0 <= e < j + 1 && #[trigger] first@[e] == acc@[a] by {
                    if a < before.len() {
                        let e = choose|e: int| 0 <= e < j && #[trigger] first@[e] == before[a];
                        assert(first@[e] == acc@[a]);
                    } else {
                        assert(first@[j as int] == acc@[a]);
                    }
                }
            }
        }
        proof {
            assert forall|a: int| #![trigger acc@[a]] 0 <= a < acc@.len() implies exists|e: int| 0 <= e < j + 1 && #[trigger] first@[e] == acc@[a] by {
                if a < before.len() {
                    let e = choose|e: int| 0 <= e < j && #[trigger] first@[e] == before[a];
                    assert(first@[e] == acc@[a]);
                } else {
                    assert(first@[j as int] == acc@[a]);
                }
            }
            assert forall|i: usize| #[trigger] acc@.contains(i) <==> (exists|e: int| 0 <= e < j + 1 && first@[e] == i) && listed_under_all(*state, label@, hints_view(hints@), i) by {
                if acc@.contains(i) && !before.contains(i) {
                    assert(acc@.last() == i);
                }
                if before.contains(i) {
                    let a = choose|a: int| 0 <= a < before.len() && before[a] == i;
                    assert(acc@[a] == i);
                }
                if (exists|e: int| 0 <= e < j + 1 && first@[e] == i) && listed_under_all(*state, label@, hints_view(hints@), i) {
                    let e = choose|e: int| 0 <= e < j + 1 && first@[e] == i;
                    if e == j {
                        assert(acc@.last() == i);
                    }
                }
            }
        }
        j = j + 1;
    }
    proof {
        assert forall|i: usize| #[trigger] acc@.contains(i) <==> listed_under_all(*state, label@, hints_view(hints@), i) by {
            if listed_under_all(*state, label@, hints_view(hints@), i) {
                assert(key_set(state.by_prop).contains((label@, hints_view(hints@)[0].0, hints_view(hints@)[0].1, i)));
                assert(first@.contains(i));
                let e = choose|e: int| 0 <= e < first@.len() && first@[e] == i;
            }
        }
    }
    acc
}

} // verus!

verus! {

/// The clause behind an optional reference.
pub open spec fn opt_pred(p: Option<&Predicate>) -> Option<Predicate> {
    match p {
        Some(x) => Some(*x),
        None => None,
    }
}

/// The hints candidate resolution uses for pattern `np` (with `WHERE`
/// clause `wc`, read only when the pattern binds a variable), and whether
/// the clause rules every node out.
pub open spec fn candidate_hints(state: KeyspaceState, np: NodePattern, wc: Option<Predicate>, params: Params, bound: BoundProps) -> (Seq<(Seq<char>, Seq<char>)>, bool) {
    let label = np.label->0@;
    let pairs = declared_pairs(state.index_spec.entries@);
    let ph = pattern_hints(label, pairs, props_view(np.props));
    match wc {
        Some(p) => match np.var {
            Some(v) => {
                let w = where_hints(label, pairs, v@, p, params, bound);
                (ph + w.0, w.1)
            },
            None => (ph, false),
        },
        None => (ph, false),
    }
}

/// Node `i` carries, for each hint `(tag, value)`, the index key
/// `(label, tag, value)`.
pub open spec fn matches_hints(state: KeyspaceState, label: Seq<char>, hints: Seq<(Seq<char>, Seq<char>)>, i: usize) -> bool {
    &&& i < state.nodes().len()
    &&& forall|k: int| 0 <= k < hints.len() ==> #[trigger] node_keys(state.index_spec.entries@, state.nodes()[i as int]).contains((label, hints[k].0, hints[k].1))
}

/// No declared index, no declared pair.
proof fn lemma_pairs_empty(state: KeyspaceState)
    requires
        state.wf(),
    ensures
        (state.indexed_pairs.entries@.len() == 0) == (state.index_spec.entries@.len() == 0),
{
    let spec = state.index_spec.entries@;
    if spec.len() > 0 {
        assert(declared_pairs(spec).contains((spec[0].label_spec(), spec[0].tag_spec())));
        assert(state.indexed_pairs.has((spec[0].label_spec(), spec[0].tag_spec())));
    }
    if state.indexed_pairs.entries@.len() > 0 {
        let k = state.indexed_pairs.entries@[0].0.kv();
        assert(state.indexed_pairs.has(k));
        assert(declared_pairs(spec).contains(k));
    }
}

/// The candidates of pattern `np` from the posting lists: `None` when the
/// pattern has no label, nothing is indexed, or no hint applies (a label
/// scan is needed); otherwise the nodes carrying every hinted index key,
/// ascending, or none at all when the `WHERE` clause rules every node out.
pub fn candidates_from_index(state: &KeyspaceState, np: &NodePattern, where_clause: Option<&Predicate>, params: &Params, bound: &BoundProps) -> (r: Option<Vec<usize>>)
    requires
        state.wf(),
        params.wf(),
        bound.wf(),
    ensures
        (np.label is None || state.index_spec.entries@.len() == 0) ==> r is None,
        (np.label is Some && state.index_spec.entries@.len() > 0) ==> ({
            let ch = candidate_hints(*state, *np, opt_pred(where_clause), *params, *bound);
            &&& ch.1 ==> r is Some && r->0@.len() == 0
            &&& (!ch.1 && ch.0.len() == 0) ==> r is None
            &&& (!ch.1 && ch.0.len() > 0) ==> r is Some && increasing(r->0@)
                && forall|i: usize| #[trigger] r->0@.contains(i) <==> matches_hints(*state, np.label->0@, ch.0, i)
        }),
{
    proof {
        lemma_pairs_empty(*state);
    }
    let label = match &np.label {
        Some(l) => l,
        None => return None,
    };
    if state.indexed_pairs.entries.len() == 0 {
        return None;
    }
    let mut hints: Vec<Hint> = Vec::new();
    collect_pattern_hints(label.as_str(), &state.indexed_pairs, np, &mut hints);
    let ghost ph = hints_view(hints@);
    proof {
        assert(ph =~= pattern_hints(label@, declared_pairs(state.index_spec.entries@), props_view(np.props)));
    }
    match where_clause {
        Some(pred) => match &np.var {
            Some(var) => {
                if collect_where_hints(label.as_str(), &state.indexed_pairs, var.as_str(), pred, params, bound, &mut hints)
                    == HintOutcome::ProvablyEmpty {
                    return Some(Vec::new());
                }
            },
            None => {},
        },
        None => {},
    }
    if hints.len() == 0 {
        return None;
    }
    let r = intersect(state, label.as_str(), &hints);
    proof {
        let h = hints_view(hints@);
        assert forall|i: usize| #[trigger] r@.contains(i) <==> matches_hints(*state, label@, h, i) by {
            if listed_under_all(*state, label@, h, i) {
                assert(key_set(state.by_prop).contains((label@, h[0].0, h[0].1, i)));
                assert(postings_of(state.index_spec.entries@, state.nodes()).contains((label@, h[0].0, h[0].1, i)));
                assert forall|k: int| 0 <= k < h.len() implies #[trigger] node_keys(state.index_spec.entries@, state.nodes()[i as int]).contains((label@, h[k].0, h[k].1)) by {
                    assert(key_set(state.by_prop).contains((label@, h[k].0, h[k].1, i)));
                    assert(postings_of(state.index_spec.entries@, state.nodes()).contains((label@, h[k].0, h[k].1, i)));
                }
            }
            if matches_hints(*state, label@, h, i) {
                assert forall|k: int| 0 <= k < h.len() implies #[trigger] key_set(state.by_prop).contains((label@, h[k].0, h[k].1, i)) by {
                    assert(node_keys(state.index_spec.entries@, state.nodes()[i as int]).contains((label@, h[k].0, h[k].1)));
                    assert(postings_of(state.index_spec.entries@, state.nodes()).contains((label@, h[k].0, h[k].1, i)));
                }
            }
        }
    }
    Some(r)
}

} // verus!

verus! {

/// Whether `spec` declares a property index on `(label, prop)` and no
/// computed key of `label` is named `prop`.
pub open spec fn plain_prop_index(spec: Seq<IndexEntry>, label: Seq<char>, prop: Seq<char>) -> bool {
    &&& exists|i: int| 0 <= i < spec.len() && (#[trigger] spec[i]) is Prop && spec[i].label_spec() == label && spec[i].tag_spec() == prop
    &&& forall|i: int| 0 <= i < spec.len() && (#[trigger] spec[i]) is Computed && spec[i].label_spec() == label ==> spec[i].tag_spec() != prop
}

/// The value of `n`'s property `prop` has index key `k`.
pub open spec fn prop_key_is(n: Node, prop: Seq<char>, k: Seq<char>) -> bool {
    match prop_of(n.props, prop) {
        Some(v) => index_key_spec(v) == Some(k),
        None => false,
    }
}

/// A declared property index lists a node under `(label, prop, k)` exactly
/// when the node carries `label` and the index key of its `prop` value is
/// `k`.
pub proof fn lemma_prop_index_is_equality(spec: Seq<IndexEntry>, n: Node, label: Seq<char>, prop: Seq<char>, k: Seq<char>)
    requires
        plain_prop_index(spec, label, prop),
    ensures
        node_keys(spec, n).contains((label, prop, k)) <==> (n.label@ == label && prop_key_is(n, prop, k)),
{
    if node_keys(spec, n).contains((label, prop, k)) {
        let i = choose|i: int| 0 <= i < spec.len() && #[trigger] entry_key(spec[i], n) == Some((label, prop, k));
        if spec[i] is Computed {
            assert(spec[i].label_spec() == label && spec[i].tag_spec() == prop);
        }
    }
    if n.label@ == label && prop_key_is(n, prop, k) {
        let i = choose|i: int| 0 <= i < spec.len() && (#[trigger] spec[i]) is Prop && spec[i].label_spec() == label && spec[i].tag_spec() == prop;
        assert(entry_key(spec[i], n) == Some((label, prop, k)));
    }
}

/// For one hint on a plain property index, the posting-list candidates
/// are exactly the nodes that a label scan filtered on that property (by
/// index key) keeps.
pub proof fn lemma_single_hint_is_scan(state: KeyspaceState, label: Seq<char>, prop: Seq<char>, k: Seq<char>, i: usize)
    requires
        state.wf(),
        plain_prop_index(state.index_spec.entries@, label, prop),
    ensures
        matches_hints(state, label, seq![(prop, k)], i) <==> (i < state.nodes().len()
            && state.nodes()[i as int].label@ == label && prop_key_is(state.nodes()[i as int], prop, k)),
{
    if i < state.nodes().len() {
        lemma_prop_index_is_equality(state.index_spec.entries@, state.nodes()[i as int], label, prop, k);
        let h = seq![(prop, k)];
        if state.nodes()[i as int].label@ == label && prop_key_is(state.nodes()[i as int], prop, k) {
            assert forall|x: int| 0 <= x < h.len() implies #[trigger] node_keys(state.index_spec.entries@, state.nodes()[i as int]).contains((label, h[x].0, h[x].1)) by {
                assert(h[x] == (prop, k));
            }
        }
        if matches_hints(state, label, h, i) {
            assert(node_keys(state.index_spec.entries@, state.nodes()[i as int]).contains((label, h[0].0, h[0].1)));
        }
    }
}

} // verus!
