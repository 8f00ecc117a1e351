//! Matching one `MATCH` / `UNWIND` clause against the graph: candidate
//! nodes, node and path patterns, `OPTIONAL MATCH`, and `UNWIND`.
use vstd::prelude::*;

use crate::clause::{envs, lemma_env_insert, row_ok, table_ok};
use crate::explain::{ExplainHit, ExplainRow};
use crate::expr::env_valid;
use crate::fact::{get_prop, index_key_of, index_key_spec, prop_of, props_view, PropView, Warning, WarningKind};
use crate::graph::{ascending_ids, key_set, increasing, KeyspaceState};
use crate::keys::VarProp;
use crate::lookup::{bound_value, candidate_hints, candidates_from_index, computed_hint, eq_compare_hints, matches_hints, opt_pred, prop_hint, where_hints, BoundProps, Params};
use crate::order::{lemma_lex_asymmetric, lemma_lex_irreflexive, lemma_lex_total, lemma_sorted_unique, lex_lt, sorted_by, strict_total_on};
use crate::path::{far_nodes, hop_pairs, sort_pairs, traverse_bfs, traverse_single_hop};
use crate::query::{EdgePattern, Expr, NodePattern, ParamBinding, PathPattern, Pattern, Predicate};
use crate::sorted::{Keyed, SortedMap};
use crate::suggest::{better, is_suggestion, lev, suggest_label, suggestion_text};
use crate::text::{chars_of, push_str, str_eq};
use crate::value::{env_of, value_eq, values_equal, BindView, Binding, Bindings, Env, RowValue, RowView};

verus! {

// ---------------------------------------------------------------------
// Whether a node pattern's candidates depend on the incoming row
// ---------------------------------------------------------------------

/// Whether expression `e` refers to variable `v`.
pub open spec fn mentions(e: Expr, v: Seq<char>) -> bool
    decreases e,
{
    match e {
        Expr::Property { var, .. } => var@ == v,
        Expr::Var(x) => x@ == v,
        Expr::Literal(_) => false,
        Expr::Param(_) => false,
        Expr::List(items) => mentions_any(items@, v),
        Expr::Call { args, .. } => mentions_any(args@, v),
    }
}

/// Whether one of the expressions refers to variable `v`.
pub open spec fn mentions_any(items: Seq<Expr>, v: Seq<char>) -> bool
    decreases items,
{
    if items.len() == 0 {
        false
    } else {
        mentions(items.last(), v) || mentions_any(items.drop_last(), v)
    }
}

/// Whether expression `e` refers to a variable other than `own`.
pub open spec fn mentions_foreign(e: Expr, own: Option<Seq<char>>) -> bool
    decreases e,
{
    match e {
        Expr::Property { var, .. } => own != Some(var@),
        Expr::Var(x) => own != Some(x@),
        Expr::Literal(_) => false,
        Expr::Param(_) => false,
        Expr::List(items) => foreign_any(items@, own),
        Expr::Call { args, .. } => foreign_any(args@, own),
    }
}

/// Whether one of the expressions refers to a variable other than `own`.
pub open spec fn foreign_any(items: Seq<Expr>, own: Option<Seq<char>>) -> bool
    decreases items,
{
    if items.len() == 0 {
        false
    } else {
        mentions_foreign(items.last(), own) || foreign_any(items.drop_last(), own)
    }
}

/// A comparison couples the pattern's own variable to another: between
/// its two sides it names both.
pub open spec fn leaf_couples(a: Expr, b: Expr, own: Option<Seq<char>>) -> bool {
    &&& own is Some && (mentions(a, own->0) || mentions(b, own->0))
    &&& mentions_foreign(a, own) || mentions_foreign(b, own)
}

/// The index tags a side of a comparison could narrow the own variable's
/// candidates on: `own.prop` gives `prop`, `f(own.prop)` gives `f(prop)`.
pub open spec fn narrow_tags(e: Expr, own: Seq<char>) -> Seq<Seq<char>> {
    match e {
        Expr::Property { var, prop } => if var@ == own { seq![prop@] } else { Seq::empty() },
        Expr::Call { name, args } => if args@.len() == 1 {
            match args@[0] {
                Expr::Property { var, prop } => if var@ == own {
                    seq![name@ + "("@ + prop@ + ")"@]
                } else {
                    Seq::empty()
                },
                _ => Seq::empty(),
            }
        } else {
            Seq::empty()
        },
        _ => Seq::empty(),
    }
}

/// Whether the posting lists hold some key `(label, tag, _)`.
pub open spec fn pair_populated(st: KeyspaceState, label: Seq<char>, tag: Seq<char>) -> bool {
    exists|p: (Seq<char>, Seq<char>, Seq<char>, usize)| #[trigger] key_set(st.by_prop).contains(p) && p.0 == label && p.1 == tag
}

/// Whether one of the tags has postings under `label`.
pub open spec fn some_tag_populated(st: KeyspaceState, label: Seq<char>, tags: Seq<Seq<char>>) -> bool {
    exists|i: int| 0 <= i < tags.len() && pair_populated(st, label, #[trigger] tags[i])
}

/// Whether a coupling comparison could narrow the candidates in this
/// keyspace: one of its own-variable tags has postings (always, for an
/// anonymous pattern).
pub open spec fn coupling_populated(a: Expr, b: Expr, own: Option<Seq<char>>, label: Seq<char>, st: KeyspaceState) -> bool {
    match own {
        None => true,
        Some(o) => some_tag_populated(st, label, narrow_tags(a, o) + narrow_tags(b, o)),
    }
}

/// Whether some comparison in the predicate couples the own variable to
/// another and could narrow in this keyspace (`NOT EXISTS` counts as one).
pub open spec fn active_coupling(p: Predicate, own: Option<Seq<char>>, label: Seq<char>, st: KeyspaceState) -> bool
    decreases p,
{
    match p {
        Predicate::And(a, b) => active_coupling(*a, own, label, st) || active_coupling(*b, own, label, st),
        Predicate::Or(a, b) => active_coupling(*a, own, label, st) || active_coupling(*b, own, label, st),
        Predicate::Not(inner) => active_coupling(*inner, own, label, st),
        Predicate::Compare { left, right, .. } => leaf_couples(left, right, own) && coupling_populated(left, right, own, label, st),
        Predicate::In { left, right } => leaf_couples(left, right, own) && coupling_populated(left, right, own, label, st),
        Predicate::Ne { left, right } => leaf_couples(left, right, own) && coupling_populated(left, right, own, label, st),
        Predicate::Regex { left, pattern } => leaf_couples(left, pattern, own) && coupling_populated(left, pattern, own, label, st),
        Predicate::NotExists { .. } => true,
    }
}

/// Whether some comparison in the predicate couples the own variable to
/// another (`NOT EXISTS` counts as one).
pub open spec fn couples(p: Predicate, own: Option<Seq<char>>) -> bool
    decreases p,
{
    match p {
        Predicate::And(a, b) => couples(*a, own) || couples(*b, own),
        Predicate::Or(a, b) => couples(*a, own) || couples(*b, own),
        Predicate::Not(inner) => couples(*inner, own),
        Predicate::Compare { left, right, .. } => leaf_couples(left, right, own),
        Predicate::In { left, right } => leaf_couples(left, right, own),
        Predicate::Ne { left, right } => leaf_couples(left, right, own),
        Predicate::Regex { left, pattern } => leaf_couples(left, pattern, own),
        Predicate::NotExists { .. } => true,
    }
}

/// The view of an optional name.
pub open spec fn opt_name(s: Option<String>) -> Option<Seq<char>> {
    match s {
        Some(x) => Some(x@),
        None => None,
    }
}

/// Whether a node pattern's candidates are the same for every incoming
/// row, so they may be resolved once: no `WHERE`, or no comparison in it
/// that couples the pattern's variable to another and (for a labelled
/// pattern) could narrow in this keyspace.
pub open spec fn binding_independent(np: NodePattern, wc: Option<Predicate>, st: KeyspaceState) -> bool {
    let own = opt_name(np.var);
    match np.label {
        None => match wc {
            None => true,
            Some(p) => !couples(p, own),
        },
        Some(l) => match wc {
            None => true,
            Some(p) => !active_coupling(p, own, l@, st),
        },
    }
}

fn opt_str(s: &Option<String>) -> (r: Option<&str>)
    ensures
        match r {
            Some(x) => opt_name(*s) == Some(x@),
            None => opt_name(*s) == None::<Seq<char>>,
        },
{
    match s {
        Some(x) => Some(x.as_str()),
        None => None,
    }
}

fn expr_mentions(e: &Expr, v: &str) -> (r: bool)
    ensures
        r == mentions(*e, v@),
    decreases e,
{
    match e {
        Expr::Property { var, .. } => str_eq(var.as_str(), v),
        Expr::Var(x) => str_eq(x.as_str(), v),
        Expr::Literal(_) => false,
        Expr::Param(_) => false,
        Expr::List(items) => exprs_mention(items, v),
        Expr::Call { args, .. } => exprs_mention(args, v),
    }
}

fn exprs_mention(items: &Vec<Expr>, v: &str) -> (r: bool)
    ensures
        r == mentions_any(items@, v@),
    decreases items@,
{
    let mut i: usize = 0;
    let mut found = false;
    while i < items.len()
        invariant
            i <= items@.len(),
            found == mentions_any(items@.take(i as int), v@),
        decreases items@.len() - i,
    {
        proof {
            assert(items@.take(i + 1).drop_last() =~= items@.take(i as int));
            assert(items@.take(i + 1).last() == items@[i as int]);
            assert(decreases_to!(items@ => items@[i as int]));
        }
        if expr_mentions(&items[i], v) {
            found = true;
        }
        i = i + 1;
    }
    proof {
        assert(items@.take(i as int) =~= items@);
    }
    found
}

fn is_own(own: Option<&str>, x: &str) -> (r: bool)
    ensures
        r == (match own {
            Some(o) => Some(o@),
            None => None::<Seq<char>>,
        } == Some(x@)),
{
    match own {
        Some(o) => str_eq(o, x),
        None => false,
    }
}

fn expr_mentions_foreign(e: &Expr, own: Option<&str>) -> (r: bool)
    ensures
        r == mentions_foreign(*e, match own {
            Some(o) => Some(o@),
            None => None,
        }),
    decreases e,
{
    match e {
        Expr::Property { var, .. } => !is_own(own, var.as_str()),
        Expr::Var(x) => !is_own(own, x.as_str()),
        Expr::Literal(_) => false,
        Expr::Param(_) => false,
        Expr::List(items) => exprs_foreign(items, own),
        Expr::Call { args, .. } => exprs_foreign(args, own),
    }
}

fn exprs_foreign(items: &Vec<Expr>, own: Option<&str>) -> (r: bool)
    ensures
        r == foreign_any(items@, match own {
            Some(o) => Some(o@),
            None => None,
        }),
    decreases items@,
{
    let ghost ov = match own {
        Some(o) => Some(o@),
        None => None::<Seq<char>>,
    };
    let mut i: usize = 0;
    let mut found = false;
    while i < items.len()
        invariant
            i <= items@.len(),
            ov == match own {
                Some(o) => Some(o@),
                None => None::<Seq<char>>,
            },
            found == foreign_any(items@.take(i as int), ov),
        decreases items@.len() - i,
    {
        proof {
            assert(items@.take(i + 1).drop_last() =~= items@.take(i as int));
            assert(items@.take(i + 1).last() == items@[i as int]);
            assert(decreases_to!(items@ => items@[i as int]));
        }
        if expr_mentions_foreign(&items[i], own) {
            found = true;
        }
        i = i + 1;
    }
    proof {
        assert(items@.take(i as int) =~= items@);
    }
    found
}

fn leaf_couples_exec(a: &Expr, b: &Expr, own: Option<&str>) -> (r: bool)
    ensures
        r == leaf_couples(*a, *b, match own {
            Some(o) => Some(o@),
            None => None,
        }),
{
    let mentions_own = match own {
        Some(o) => expr_mentions(a, o) || expr_mentions(b, o),
        None => false,
    };
    mentions_own && (expr_mentions_foreign(a, own) || expr_mentions_foreign(b, own))
}

fn push_narrow_tags(e: &Expr, own: &str, out: &mut Vec<String>)
    ensures
        crate::clause::texts_of(final(out)@) == crate::clause::texts_of(old(out)@) + narrow_tags(*e, own@),
{
    proof {
        reveal_strlit("(");
        reveal_strlit(")");
    }
    let ghost pre = crate::clause::texts_of(out@);
    match e {
        Expr::Property { var, prop } => {
            if str_eq(var.as_str(), own) {
                out.push(prop.clone());
                proof {
                    assert(crate::clause::texts_of(out@) =~= pre + seq![prop@]);
                }
                return;
            }
        },
        Expr::Call { name, args } => {
            if args.len() == 1 {
                match &args[0] {
                    Expr::Property { var, prop } => {
                        if str_eq(var.as_str(), own) {
                            let mut t = name.clone();
                            push_str(&mut t, "(");
                            push_str(&mut t, prop.as_str());
                            push_str(&mut t, ")");
                            out.push(t);
                            proof {
                                assert(crate::clause::texts_of(out@) =~= pre + seq![name@ + "("@ + prop@ + ")"@]);
                            }
                            return;
                        }
                    },
                    _ => {},
                }
            }
        },
        _ => {},
    }
    proof {
        assert(pre + narrow_tags(*e, own@) =~= pre);
    }
}

/// Whether the posting lists hold some key `(label, tag, _)`.
pub fn populated(st: &KeyspaceState, label: &str, tag: &str) -> (r: bool)
    requires
        st.wf(),
    ensures
        r == pair_populated(*st, label@, tag@),
{
    let mut i: usize = 0;
    while i < st.by_prop.entries.len()
        invariant
            st.wf(),
            i <= st.by_prop.entries@.len(),
            forall|j: int| 0 <= j < i ==> !((#[trigger] st.by_prop.entries@[j]).0.label@ == label@ && st.by_prop.entries@[j].0.tag@ == tag@),
        decreases st.by_prop.entries@.len() - i,
    {
        if str_eq(st.by_prop.entries[i].0.label.as_str(), label) && str_eq(st.by_prop.entries[i].0.tag.as_str(), tag) {
            proof {
                let p = st.by_prop.entries@[i as int].0.kv();
                assert(key_set(st.by_prop).contains(p));
            }
            return true;
        }
        i = i + 1;
    }
    proof {
        assert forall|p: (Seq<char>, Seq<char>, Seq<char>, usize)| #[trigger] key_set(st.by_prop).contains(p) && p.0 == label@
            implies p.1 != tag@ by {
            let j = choose|j: int| 0 <= j < st.by_prop.entries@.len() && #[trigger] st.by_prop.entries@[j].0.kv() == p;
        }
    }
    false
}

fn coupling_populated_exec(a: &Expr, b: &Expr, own: Option<&str>, label: &str, st: &KeyspaceState) -> (r: bool)
    requires
        st.wf(),
    ensures
        r == coupling_populated(*a, *b, match own {
            Some(o) => Some(o@),
            None => None,
        }, label@, *st),
{
    let o = match own {
        Some(o) => o,
        None => return true,
    };
    let mut tags: Vec<String> = Vec::new();
    push_narrow_tags(a, o, &mut tags);
    push_narrow_tags(b, o, &mut tags);
    let ghost tv = crate::clause::texts_of(tags@);
    proof {
        assert(tv =~= narrow_tags(*a, o@) + narrow_tags(*b, o@));
    }
    let mut i: usize = 0;
    while i < tags.len()
        invariant
            st.wf(),
            i <= tags@.len(),
            tv == crate::clause::texts_of(tags@),
            tv == narrow_tags(*a, o@) + narrow_tags(*b, o@),
            own == Some(o),
            forall|j: int| 0 <= j < i ==> !pair_populated(*st, label@, #[trigger] tv[j]),
        decreases tags@.len() - i,
    {
        if populated(st, label, tags[i].as_str()) {
            proof {
                assert(tv[i as int] == tags@[i as int]@);
                let tg = narrow_tags(*a, o@) + narrow_tags(*b, o@);
                assert(tg[i as int] == tv[i as int]);
                assert(0 <= i < tg.len() && pair_populated(*st, label@, tg[i as int]));
                assert(some_tag_populated(*st, label@, tg));
            }
            return true;
        }
        i = i + 1;
    }
    false
}

fn active_coupling_exec(p: &Predicate, own: Option<&str>, label: &str, st: &KeyspaceState) -> (r: bool)
    requires
        st.wf(),
    ensures
        r == active_coupling(*p, match own {
            Some(o) => Some(o@),
            None => None,
        }, label@, *st),
    decreases p,
{
    match p {
        Predicate::And(a, b) => active_coupling_exec(a, own, label, st) || active_coupling_exec(b, own, label, st),
        Predicate::Or(a, b) => active_coupling_exec(a, own, label, st) || active_coupling_exec(b, own, label, st),
        Predicate::Not(inner) => active_coupling_exec(inner, own, label, st),
        Predicate::Compare { left, right, .. } => leaf_couples_exec(left, right, own) && coupling_populated_exec(left, right, own, label, st),
        Predicate::In { left, right } => leaf_couples_exec(left, right, own) && coupling_populated_exec(left, right, own, label, st),
        Predicate::Ne { left, right } => leaf_couples_exec(left, right, own) && coupling_populated_exec(left, right, own, label, st),
        Predicate::Regex { left, pattern } => leaf_couples_exec(left, pattern, own) && coupling_populated_exec(left, pattern, own, label, st),
        Predicate::NotExists { .. } => true,
    }
}

fn couples_exec(p: &Predicate, own: Option<&str>) -> (r: bool)
    ensures
        r == couples(*p, match own {
            Some(o) => Some(o@),
            None => None,
        }),
    decreases p,
{
    match p {
        Predicate::And(a, b) => couples_exec(a, own) || couples_exec(b, own),
        Predicate::Or(a, b) => couples_exec(a, own) || couples_exec(b, own),
        Predicate::Not(inner) => couples_exec(inner, own),
        Predicate::Compare { left, right, .. } => leaf_couples_exec(left, right, own),
        Predicate::In { left, right } => leaf_couples_exec(left, right, own),
        Predicate::Ne { left, right } => leaf_couples_exec(left, right, own),
        Predicate::Regex { left, pattern } => leaf_couples_exec(left, pattern, own),
        Predicate::NotExists { .. } => true,
    }
}

/// Whether node pattern `np`'s candidates are the same for every incoming
/// row (so they may be resolved once).
pub fn is_binding_independent_pattern(np: &NodePattern, where_clause: Option<&Predicate>, st: &KeyspaceState) -> (r: bool)
    requires
        st.wf(),
    ensures
        r == binding_independent(*np, opt_pred(where_clause), *st),
{
    let own = opt_str(&np.var);
    match &np.label {
        None => match where_clause {
            None => true,
            Some(p) => !couples_exec(p, own),
        },
        Some(l) => match where_clause {
            None => true,
            Some(p) => !active_coupling_exec(p, own, l.as_str(), st),
        },
    }
}

// ---------------------------------------------------------------------
// Candidate nodes
// ---------------------------------------------------------------------

/// `v` holds the elements of `s` in ascending order.
pub open spec fn enumerates(v: Seq<usize>, s: Set<usize>) -> bool {
    sorted_by(v, |a: usize, b: usize| a < b) && forall|i: usize| #[trigger] v.contains(i) <==> s.contains(i)
}

/// The elements of `s` in ascending order.
pub open spec fn ascending(s: Set<usize>) -> Seq<usize> {
    choose|v: Seq<usize>| #[trigger] enumerates(v, s)
}

/// `v` holds every node index, ordered by node id.
pub open spec fn enumerates_by_id(st: KeyspaceState, v: Seq<usize>) -> bool {
    ascending_ids(st.nodes(), v) && forall|i: usize| #[trigger] v.contains(i) <==> i < st.nodes().len()
}

/// Every node index, ordered by node id.
pub open spec fn by_id(st: KeyspaceState) -> Seq<usize> {
    choose|v: Seq<usize>| #[trigger] enumerates_by_id(st, v)
}

proof fn lemma_ascending(v: Seq<usize>, s: Set<usize>)
    requires
        increasing(v),
        forall|i: usize| #[trigger] v.contains(i) <==> s.contains(i),
    ensures
        ascending(s) == v,
{
    let lt = |a: usize, b: usize| a < b;
    assert(sorted_by(v, lt));
    assert(enumerates(v, s));
    let w = ascending(s);
    assert(enumerates(w, s));
    assert forall|x: usize| v.contains(x) <==> w.contains(x) by {}
    lemma_sorted_unique(v, w, lt);
}

proof fn lemma_by_id(st: KeyspaceState, v: Seq<usize>)
    requires
        st.wf(),
        ascending_ids(st.nodes(), v),
        forall|i: usize| #[trigger] v.contains(i) <==> i < st.nodes().len(),
    ensures
        by_id(st) == v,
{
    st.lemma_unique_ids();
    let ns = st.nodes();
    let lt = |a: usize, b: usize| lex_lt(ns[a as int].id@, ns[b as int].id@);
    assert(enumerates_by_id(st, v));
    let w = by_id(st);
    assert(enumerates_by_id(st, w));
    assert(sorted_by(v, lt)) by {
        assert forall|a: int, b: int| 0 <= a < b < v.len() implies #[trigger] lt(v[a], v[b]) by {
            assert(lex_lt(ns[v[a] as int].id@, ns[v[b] as int].id@));
        }
    }
    assert(sorted_by(w, lt)) by {
        assert forall|a: int, b: int| 0 <= a < b < w.len() implies #[trigger] lt(w[a], w[b]) by {
            assert(lex_lt(ns[w[a] as int].id@, ns[w[b] as int].id@));
        }
    }
    assert(strict_total_on(v, lt)) by {
        assert forall|x: usize| #[trigger] v.contains(x) implies !lt(x, x) by {
            lemma_lex_irreflexive(ns[x as int].id@);
        }
        assert forall|x: usize, y: usize| v.contains(x) && v.contains(y) && #[trigger] lt(x, y) implies !lt(y, x) by {
            lemma_lex_asymmetric(ns[x as int].id@, ns[y as int].id@);
        }
        assert forall|x: usize, y: usize| #[trigger] v.contains(x) && #[trigger] v.contains(y) implies lt(x, y) || lt(y, x) || x == y by {
            lemma_lex_total(ns[x as int].id@, ns[y as int].id@);
            if x != y {
                assert(ns[x as int].id@ != ns[y as int].id@);
            }
        }
    }
    assert forall|x: usize| v.contains(x) <==> w.contains(x) by {}
    lemma_sorted_unique(v, w, lt);
}

/// The index key bound to `var.prop` by a row: the key of property `prop`
/// of the node bound to `var`.
pub open spec fn env_bound(st: KeyspaceState, env: Env, v: Seq<char>, p: Seq<char>) -> Option<Seq<char>> {
    if env.contains_key(v) && env[v] is Node && (env[v]->Node_0) < st.nodes().len() {
        match prop_of(st.nodes()[(env[v]->Node_0) as int].props, p) {
            Some(pv) => index_key_spec(pv),
            None => None,
        }
    } else {
        None
    }
}

/// `b` holds exactly the index keys a row binds.
pub open spec fn binds_as(b: BoundProps, st: KeyspaceState, env: Env) -> bool {
    b.wf() && forall|v: Seq<char>, p: Seq<char>| #[trigger] bound_value(b, v, p) == env_bound(st, env, v, p)
}

/// The bound index keys of a row, as a map.
pub open spec fn bound_for(st: KeyspaceState, env: Env) -> BoundProps {
    choose|b: BoundProps| #[trigger] binds_as(b, st, env)
}

proof fn lemma_where_hints_congruent(
    label: Seq<char>,
    pairs: Set<(Seq<char>, Seq<char>)>,
    target: Seq<char>,
    pred: Predicate,
    params: Params,
    b1: BoundProps,
    b2: BoundProps,
)
    requires
        forall|v: Seq<char>, p: Seq<char>| #[trigger] bound_value(b1, v, p) == bound_value(b2, v, p),
    ensures
        where_hints(label, pairs, target, pred, params, b1) == where_hints(label, pairs, target, pred, params, b2),
    decreases pred,
{
    match pred {
        Predicate::And(a, b) => {
            lemma_where_hints_congruent(label, pairs, target, *a, params, b1, b2);
            lemma_where_hints_congruent(label, pairs, target, *b, params, b1, b2);
        },
        Predicate::Compare { left, op, right } => {
            assert(prop_hint(target, left, right, b1) == prop_hint(target, left, right, b2));
            assert(computed_hint(target, left, right, b1) == computed_hint(target, left, right, b2));
            assert(eq_compare_hints(label, pairs, target, left, right, params, b1)
                == eq_compare_hints(label, pairs, target, left, right, params, b2));
        },
        _ => {},
    }
}

proof fn lemma_hints_congruent(st: KeyspaceState, np: NodePattern, wc: Option<Predicate>, params: Params, b1: BoundProps, b2: BoundProps)
    requires
        forall|v: Seq<char>, p: Seq<char>| #[trigger] bound_value(b1, v, p) == bound_value(b2, v, p),
    ensures
        candidate_hints(st, np, wc, params, b1) == candidate_hints(st, np, wc, params, b2),
{
    match wc {
        Some(p) => match np.var {
            Some(v) => {
                lemma_where_hints_congruent(np.label->0@, crate::graph::declared_pairs(st.index_spec.entries@), v@, p, params, b1, b2);
            },
            None => {},
        },
        None => {},
    }
}

/// The candidate nodes of pattern `np` for a row: none for an unknown
/// label; else the nodes the posting lists give for the pattern's (and
/// the `WHERE` clause's) hints, or every node of the label where no hint
/// applies, ascending; every node ordered by id for a pattern without a
/// label.
pub open spec fn node_candidates(st: KeyspaceState, params: Params, np: NodePattern, wc: Option<Predicate>, env: Env) -> Seq<usize> {
    match np.label {
        None => by_id(st),
        Some(l) => if !st.by_label.has(l@) {
            Seq::empty()
        } else {
            let ch = candidate_hints(st, np, wc, params, bound_for(st, env));
            if st.index_spec.entries@.len() > 0 && ch.1 {
                Seq::empty()
            } else if st.index_spec.entries@.len() > 0 && ch.0.len() > 0 {
                ascending(Set::new(|i: usize| matches_hints(st, l@, ch.0, i)))
            } else {
                ascending(st.label_members(l@))
            }
        },
    }
}

/// Whether resolving `np`'s candidates uses the posting lists.
pub open spec fn resolved_by_index(st: KeyspaceState, params: Params, np: NodePattern, wc: Option<Predicate>, env: Env) -> bool {
    match np.label {
        None => false,
        Some(l) => {
            let ch = candidate_hints(st, np, wc, params, bound_for(st, env));
            st.index_spec.entries@.len() > 0 && (ch.1 || ch.0.len() > 0)
        },
    }
}

/// The short rendering of a node pattern: `()`, `(:Label)`, `(var)` or
/// `(var:Label)`.
pub open spec fn pattern_text(np: NodePattern) -> Seq<char> {
    let v = match np.var {
        Some(x) => x@,
        None => Seq::empty(),
    };
    let l = match np.label {
        Some(x) => x@,
        None => Seq::empty(),
    };
    if v.len() == 0 && l.len() == 0 {
        "()"@
    } else if v.len() == 0 {
        "(:"@ + l + ")"@
    } else if l.len() == 0 {
        "("@ + v + ")"@
    } else {
        "("@ + v + ":"@ + l + ")"@
    }
}

/// The message of the warning for an unknown node label.
pub open spec fn unknown_label_message(l: Seq<char>) -> Seq<char> {
    "unknown node label: "@ + l
}

/// Renders a node pattern as `()`, `(:Label)`, `(var)` or `(var:Label)`.
pub fn format_node_pattern(np: &NodePattern) -> (r: String)
    ensures
        r@ == pattern_text(*np),
{
    let v: &str = match &np.var {
        Some(x) => x.as_str(),
        None => "",
    };
    let l: &str = match &np.label {
        Some(x) => x.as_str(),
        None => "",
    };
    proof {
        reveal_strlit("");
        reveal_strlit("()");
        reveal_strlit("(:");
        reveal_strlit("(");
        reveal_strlit(")");
        reveal_strlit(":");
    }
    let vl = chars_of(v).len();
    let ll = chars_of(l).len();
    let mut out = String::new();
    if vl == 0 && ll == 0 {
        push_str(&mut out, "()");
    } else if vl == 0 {
        push_str(&mut out, "(:");
        push_str(&mut out, l);
        push_str(&mut out, ")");
    } else if ll == 0 {
        push_str(&mut out, "(");
        push_str(&mut out, v);
        push_str(&mut out, ")");
    } else {
        push_str(&mut out, "(");
        push_str(&mut out, v);
        push_str(&mut out, ":");
        push_str(&mut out, l);
        push_str(&mut out, ")");
    }
    out
}

/// Whether one of the first `i` entries of `b` is named `v`.
pub open spec fn named_before(b: Bindings, i: int, v: Seq<char>) -> bool {
    exists|j: int| 0 <= j < i && #[trigger] b.entries@[j].0@ == v
}

/// Whether one of the first `k` properties is named `p`.
pub open spec fn prop_before(props: crate::fact::Props, k: int, p: Seq<char>) -> bool {
    exists|j: int| 0 <= j < k && #[trigger] props.entries@[j].0@ == p
}

/// The index key of an optional property value.
pub open spec fn opt_key(v: Option<PropView>) -> Option<Seq<char>> {
    match v {
        Some(pv) => index_key_spec(pv),
        None => None,
    }
}

/// The index keys bound by row `b`: for each variable bound to a node,
/// the index key of each of its properties that has one.
pub fn bound_props(st: &KeyspaceState, b: &Bindings) -> (r: BoundProps)
    requires
        st.wf(),
        row_ok(*st, *b),
    ensures
        binds_as(r, *st, env_of(*b)),
{
    let ghost env = env_of(*b);
    let mut out: BoundProps = SortedMap::new();
    let mut i: usize = 0;
    while i < b.entries.len()
        invariant
            st.wf(),
            row_ok(*st, *b),
            env == env_of(*b),
            i <= b.entries@.len(),
            out.wf(),
            forall|v: Seq<char>, p: Seq<char>| #[trigger] bound_value(out, v, p) == if named_before(*b, i as int, v) {
                env_bound(*st, env, v, p)
            } else {
                None
            },
        decreases b.entries@.len() - i,
    {
        let ghost var = b.entries@[i as int].0@;
        let ghost start = out;
        proof {
            b.lemma_lookup_at(i as int);
            assert(env.contains_key(var));
            assert(env[var] == b.entries@[i as int].1.bv());
            assert(!named_before(*b, i as int, var)) by {
                if named_before(*b, i as int, var) {
                    let j = choose|j: int| 0 <= j < i && #[trigger] b.entries@[j].0@ == var;
                    assert(String::key_lt(b.entries@[j].0.kv(), b.entries@[i as int].0.kv()));
                    lemma_lex_irreflexive(var);
                }
            }
        }
        match &b.entries[i].1 {
            Binding::NodeRef(n) => {
                let node = st.node(*n);
                let mut k: usize = 0;
                while k < node.props.entries.len()
                    invariant
                        st.wf(),
                        out.wf(),
                        i < b.entries@.len(),
                        var == b.entries@[i as int].0@,
                        k <= node.props.entries@.len(),
                        node.props.wf(),
                        forall|v: Seq<char>, p: Seq<char>| v != var ==> #[trigger] bound_value(out, v, p) == bound_value(start, v, p),
                        forall|p: Seq<char>| #[trigger] bound_value(start, var, p) == None::<Seq<char>>,
                        forall|p: Seq<char>| #[trigger] bound_value(out, var, p) == if prop_before(node.props, k as int, p) {
                            opt_key(prop_of(node.props, p))
                        } else {
                            None
                        },
                    decreases node.props.entries@.len() - k,
                {
                    let ghost pk = node.props.entries@[k as int].0@;
                    proof {
                        node.props.lemma_lookup_at(k as int);
                        assert(!prop_before(node.props, k as int, pk)) by {
                            if prop_before(node.props, k as int, pk) {
                                let j = choose|j: int| 0 <= j < k && #[trigger] node.props.entries@[j].0@ == pk;
                                assert(String::key_lt(node.props.entries@[j].0.kv(), node.props.entries@[k as int].0.kv()));
                                lemma_lex_irreflexive(pk);
                            }
                        }
                    }
                    let ghost before_k = out;
                    match index_key_of(&node.props.entries[k].1) {
                        Some(key) => {
                            let vp = VarProp { var: b.entries[i].0.clone(), prop: node.props.entries[k].0.clone() };
                            proof {
                                assert(vp.kv() == (var, pk));
                            }
                            out.insert(vp, key);
                            proof {
                                assert forall|v: Seq<char>, p: Seq<char>| (v, p) != (var, pk)
                                    implies #[trigger] bound_value(out, v, p) == bound_value(before_k, v, p) by {
                                    assert(out.has((v, p)) == before_k.has((v, p)));
                                }
                            }
                        },
                        None => {},
                    }
                    proof {
                        assert forall|p: Seq<char>| #[trigger] bound_value(out, var, p) == if prop_before(node.props, k + 1, p) {
                            opt_key(prop_of(node.props, p))
                        } else {
                            None
                        } by {
                            if p == pk {
                                assert(prop_before(node.props, k + 1, p));
                            } else {
                                if prop_before(node.props, k + 1, p) {
                                    let j = choose|j: int| 0 <= j < k + 1 && #[trigger] node.props.entries@[j].0@ == p;
                                    assert(j < k);
                                    assert(prop_before(node.props, k as int, p));
                                }
                            }
                        }
                    }
                    k = k + 1;
                }
                proof {
                    assert forall|p: Seq<char>| #[trigger] bound_value(out, var, p) == env_bound(*st, env, var, p) by {
                        if !prop_before(node.props, k as int, p) {
                            assert(!node.props.has(p));
                        }
                    }
                }
            },
            _ => {},
        }
        proof {
            assert forall|v: Seq<char>, p: Seq<char>| #[trigger] bound_value(out, v, p) == if named_before(*b, i + 1, v) {
                env_bound(*st, env, v, p)
            } else {
                None
            } by {
                if v == var {
                    assert(named_before(*b, i + 1, v));
                } else {
                    if named_before(*b, i + 1, v) {
                        let j = choose|j: int| 0 <= j < i + 1 && #[trigger] b.entries@[j].0@ == v;
                        assert(j < i);
                        assert(named_before(*b, i as int, v));
                    }
                }
            }
        }
        i = i + 1;
    }
    proof {
        assert forall|v: Seq<char>, p: Seq<char>| #[trigger] bound_value(out, v, p) == env_bound(*st, env, v, p) by {
            if !named_before(*b, i as int, v) {
                if b.has(v) {
                    let j = choose|j: int| 0 <= j < b.entries@.len() && #[trigger] b.entries@[j].0.kv() == v;
                    assert(named_before(*b, i as int, v));
                }
            }
        }
    }
    out
}

/// The names of the labels the keyspace holds, in order.
fn label_names(st: &KeyspaceState) -> (r: Vec<String>)
    ensures
        r@.map_values(|s: String| s@) == st.by_label.keys(),
{
    let mut out: Vec<String> = Vec::new();
    let mut i: usize = 0;
    while i < st.by_label.entries.len()
        invariant
            i <= st.by_label.entries@.len(),
            out@.map_values(|s: String| s@) == st.by_label.keys().take(i as int),
        decreases st.by_label.entries@.len() - i,
    {
        out.push(st.by_label.entries[i].0.clone());
        proof {
            assert(st.by_label.keys().take(i + 1) =~= st.by_label.keys().take(i as int).push(st.by_label.entries@[i as int].0@));
            assert(out@.map_values(|s: String| s@) =~= st.by_label.keys().take(i + 1));
        }
        i = i + 1;
    }
    proof {
        assert(st.by_label.keys().take(i as int) =~= st.by_label.keys());
    }
    out
}

/// The text an optional string holds.
pub open spec fn opt_text(r: Option<String>) -> Option<Seq<char>> {
    match r {
        Some(s) => Some(s@),
        None => None,
    }
}

/// `r` is the did-you-mean suggestion for `query` among `names`: the one
/// `is_suggestion` describes, when no text is `usize::MAX` characters
/// long; none otherwise.
pub open spec fn suggestion_for(query: Seq<char>, names: Seq<Seq<char>>, r: Option<Seq<char>>) -> bool {
    if query.len() < usize::MAX && forall|k: int| 0 <= k < names.len() ==> #[trigger] names[k].len() < usize::MAX {
        is_suggestion(query, names, r)
    } else {
        r is None
    }
}

/// The did-you-mean suggestion for `query` among `names`.
fn suggest_for(query: &str, names: &Vec<String>) -> (r: Option<String>)
    ensures
        suggestion_for(query@, names@.map_values(|s: String| s@), opt_text(r)),
{
    if chars_of(query).len() == usize::MAX {
        return None;
    }
    let mut i: usize = 0;
    while i < names.len()
        invariant
            i <= names@.len(),
            query@.len() < usize::MAX,
            forall|k: int| 0 <= k < i ==> #[trigger] names@[k]@.len() < usize::MAX,
        decreases names@.len() - i,
    {
        if chars_of(names[i].as_str()).len() == usize::MAX {
            proof {
                let ks = names@.map_values(|s: String| s@);
                assert(ks[i as int] == names@[i as int]@);
                assert(!(ks[i as int].len() < usize::MAX));
            }
            return None;
        }
        i = i + 1;
    }
    let r = suggest_label(query, names);
    proof {
        let ks = names@.map_values(|s: String| s@);
        assert forall|k: int| 0 <= k < ks.len() implies #[trigger] ks[k] == names@[k]@ by {}
        let ghost rr = r;
        match rr {
            Some(s) => {
                let i = choose|i: int|
                    0 <= i < names@.len() && #[trigger] names@[i]@ == names@[i]@ && {
                        let best = names@[i]@;
                        &&& s@ == suggestion_text(best)
                        &&& lev(query@, best) <= 2
                        &&& forall|j: int|
                            0 <= j < names@.len() && lev(query@, #[trigger] names@[j]@) <= 2 ==> names@[j]@
                                == best || better(query@, best, names@[j]@)
                    };
                assert(ks[i] == names@[i]@);
                assert forall|j: int| 0 <= j < ks.len() && lev(query@, #[trigger] ks[j]) <= 2 implies ks[j] == ks[i]
                    || better(query@, ks[i], ks[j]) by {
                    assert(ks[j] == names@[j]@);
                }
            },
            None => {
                assert forall|j: int| 0 <= j < ks.len() implies lev(query@, #[trigger] ks[j]) > 2 by {
                    assert(ks[j] == names@[j]@);
                }
            },
        }
    }
    r
}

/// The effect of resolving candidates on the warnings: one unknown-label
/// warning for a label the keyspace lacks, none otherwise.
pub open spec fn candidate_warnings(st: KeyspaceState, np: NodePattern, before: Seq<Warning>, after: Seq<Warning>) -> bool {
    if np.label is Some && !st.by_label.has(np.label->0@) {
        &&& after.len() == before.len() + 1
        &&& after.drop_last() == before
        &&& after.last().kind == WarningKind::UnknownLabel
        &&& after.last().message@ == unknown_label_message(np.label->0@)
        &&& suggestion_for(np.label->0@, st.by_label.keys(), opt_text(after.last().suggestion))
    } else {
        after == before
    }
}

/// The effect of resolving candidates on the explain trace: for a known
/// (or absent) label, one row naming the pattern and whether the posting
/// lists answered.
pub open spec fn candidate_explain(
    st: KeyspaceState,
    params: Params,
    np: NodePattern,
    wc: Option<Predicate>,
    env: Env,
    before: Seq<ExplainRow>,
    after: Seq<ExplainRow>,
) -> bool {
    if np.label is Some && !st.by_label.has(np.label->0@) {
        after == before
    } else {
        &&& after.len() == before.len() + 1
        &&& after.drop_last() == before
        &&& after.last().pattern@ == pattern_text(np)
        &&& after.last().hit == if resolved_by_index(st, params, np, wc, env) { ExplainHit::Indexed } else { ExplainHit::Fallback }
    }
}

/// Every candidate is a node.
pub open spec fn all_nodes(st: KeyspaceState, v: Seq<usize>) -> bool {
    forall|k: int| 0 <= k < v.len() ==> #[trigger] v[k] < st.nodes().len()
}

/// The candidate nodes of pattern `np` for row `b`; warns of an unknown
/// label and records how the candidates were found.
pub fn candidate_nodes(
    st: &KeyspaceState,
    params: &Params,
    np: &NodePattern,
    where_clause: Option<&Predicate>,
    b: &Bindings,
    warnings: &mut Vec<Warning>,
    explain: &mut Vec<ExplainRow>,
) -> (r: Vec<usize>)
    requires
        st.wf(),
        params.wf(),
        row_ok(*st, *b),
    ensures
        r@ == node_candidates(*st, *params, *np, opt_pred(where_clause), env_of(*b)),
        all_nodes(*st, r@),
        candidate_warnings(*st, *np, old(warnings)@, final(warnings)@),
        candidate_explain(*st, *params, *np, opt_pred(where_clause), env_of(*b), old(explain)@, final(explain)@),
{
    let ghost env = env_of(*b);
    let ghost wc = opt_pred(where_clause);
    match &np.label {
        Some(l) => {
            if !st.has_label(l) {
                let names = label_names(st);
                let suggestion = suggest_for(l.as_str(), &names);
                let mut msg = String::new();
                push_str(&mut msg, "unknown node label: ");
                push_str(&mut msg, l.as_str());
                proof {
                    reveal_strlit("unknown node label: ");
                }
                warnings.push(Warning { kind: WarningKind::UnknownLabel, message: msg, suggestion });
                proof {
                    assert(final(warnings)@.drop_last() =~= old(warnings)@);
                    assert(Seq::<usize>::empty() == node_candidates(*st, *params, *np, wc, env));
                }
                return Vec::new();
            }
            let bound = bound_props(st, b);
            let ghost canon = bound_for(*st, env);
            proof {
                assert(binds_as(canon, *st, env));
                assert forall|v: Seq<char>, p: Seq<char>| #[trigger] bound_value(bound, v, p) == bound_value(canon, v, p) by {
                    assert(bound_value(bound, v, p) == env_bound(*st, env, v, p));
                    assert(bound_value(canon, v, p) == env_bound(*st, env, v, p));
                }
                lemma_hints_congruent(*st, *np, wc, *params, bound, canon);
            }
            let ghost ch = candidate_hints(*st, *np, wc, *params, canon);
            let pattern = format_node_pattern(np);
            match candidates_from_index(st, np, where_clause, params, &bound) {
                Some(v) => {
                    explain.push(ExplainRow { pattern, hit: ExplainHit::Indexed });
                    proof {
                        assert(final(explain)@.drop_last() =~= old(explain)@);
                        if ch.1 {
                            assert(v@ =~= Seq::<usize>::empty());
                        } else {
                            lemma_ascending(v@, Set::new(|i: usize| matches_hints(*st, l@, ch.0, i)));
                        }
                        assert forall|k: int| 0 <= k < v@.len() implies #[trigger] v@[k] < st.nodes().len() by {
                            assert(v@.contains(v@[k]));
                        }
                    }
                    v
                },
                None => {
                    explain.push(ExplainRow { pattern, hit: ExplainHit::Fallback });
                    let v = st.nodes_with_label(l);
                    proof {
                        assert(final(explain)@.drop_last() =~= old(explain)@);
                        lemma_ascending(v@, st.label_members(l@));
                        assert forall|k: int| 0 <= k < v@.len() implies #[trigger] v@[k] < st.nodes().len() by {
                            assert(v@.contains(v@[k]));
                        }
                    }
                    v
                },
            }
        },
        None => {
            let pattern = format_node_pattern(np);
            explain.push(ExplainRow { pattern, hit: ExplainHit::Fallback });
            let v = st.all_nodes_sorted();
            proof {
                assert(final(explain)@.drop_last() =~= old(explain)@);
                lemma_by_id(*st, v@);
                assert forall|k: int| 0 <= k < v@.len() implies #[trigger] v@[k] < st.nodes().len() by {
                    assert(v@.contains(v@[k]));
                }
            }
            v
        },
    }
}

// ---------------------------------------------------------------------
// Node patterns
// ---------------------------------------------------------------------

/// Whether node `i` carries every inline property of the pattern, each
/// equal to the pattern's value.
pub open spec fn props_match(st: KeyspaceState, i: usize, np: NodePattern) -> bool {
    let req = props_view(np.props);
    &&& i < st.nodes().len()
    &&& forall|t: int| 0 <= t < req.len() ==> match prop_of(st.nodes()[i as int].props, #[trigger] req[t].0) {
        Some(a) => value_eq(a, req[t].1),
        None => false,
    }
}

/// An anonymous pattern: one copy of the row per matching candidate.
pub open spec fn expand_anon(st: KeyspaceState, np: NodePattern, e: Env, cands: Seq<usize>) -> Seq<Env>
    decreases cands.len(),
{
    if cands.len() == 0 {
        Seq::empty()
    } else {
        let r = expand_anon(st, np, e, cands.drop_last());
        if props_match(st, cands.last(), np) {
            r.push(e)
        } else {
            r
        }
    }
}

/// A fresh variable: the row extended with the variable bound to each
/// matching candidate.
pub open spec fn expand_new(st: KeyspaceState, np: NodePattern, e: Env, v: Seq<char>, cands: Seq<usize>) -> Seq<Env>
    decreases cands.len(),
{
    if cands.len() == 0 {
        Seq::empty()
    } else {
        let r = expand_new(st, np, e, v, cands.drop_last());
        if props_match(st, cands.last(), np) {
            r.push(e.insert(v, BindView::Node(cands.last())))
        } else {
            r
        }
    }
}

/// An already bound variable: the row once, if some matching candidate is
/// the node it is bound to.
pub open spec fn expand_bound(st: KeyspaceState, np: NodePattern, e: Env, v: Seq<char>, cands: Seq<usize>) -> Seq<Env> {
    if exists|k: int| 0 <= k < cands.len() && e[v] == BindView::Node(#[trigger] cands[k]) && props_match(st, cands[k], np) {
        seq![e]
    } else {
        Seq::empty()
    }
}

/// The rows node pattern `np` makes of row `e` given its candidates.
pub open spec fn expand_node(st: KeyspaceState, np: NodePattern, e: Env, cands: Seq<usize>) -> Seq<Env> {
    match np.var {
        None => expand_anon(st, np, e, cands),
        Some(v) => if e.contains_key(v@) {
            expand_bound(st, np, e, v@, cands)
        } else {
            expand_new(st, np, e, v@, cands)
        },
    }
}

/// The rows node pattern `np` makes of a table: each row expanded in turn
/// against the pattern's candidates, resolved once (for no row) when they
/// do not depend on the row, else for each row.
pub open spec fn node_rows(st: KeyspaceState, params: Params, table: Seq<Env>, np: NodePattern, wc: Option<Predicate>) -> Seq<Env>
    decreases table.len(),
{
    if table.len() == 0 {
        Seq::empty()
    } else {
        let cands = node_candidates(st, params, np, wc, if binding_independent(np, wc, st) { Map::empty() } else { table.last() });
        node_rows(st, params, table.drop_last(), np, wc) + expand_node(st, np, table.last(), cands)
    }
}

/// `after` is `before` followed by `n` unknown-label warnings for `label`.
pub open spec fn unknown_label_warnings(before: Seq<Warning>, after: Seq<Warning>, label: Seq<char>, n: nat) -> bool {
    &&& after.len() == before.len() + n
    &&& after.take(before.len() as int) == before
    &&& forall|k: int| before.len() <= k < after.len() ==> (#[trigger] after[k]).kind == WarningKind::UnknownLabel
        && after[k].message@ == unknown_label_message(label)
}

/// The warnings applying node pattern `np` to a table of `rows` rows adds:
/// for a label the keyspace lacks, one unknown-label warning per
/// resolution (once, or once per row).
pub open spec fn node_pattern_warnings(st: KeyspaceState, np: NodePattern, wc: Option<Predicate>, rows: nat, before: Seq<Warning>, after: Seq<Warning>) -> bool {
    if np.label is Some && !st.by_label.has(np.label->0@) {
        unknown_label_warnings(before, after, np.label->0@, if binding_independent(np, wc, st) { 1 } else { rows })
    } else {
        after == before
    }
}

/// A copy of a row of bindings.
pub fn duplicate_bindings(b: &Bindings) -> (r: Bindings)
    requires
        b.wf(),
    ensures
        r.wf(),
        env_of(r) == env_of(*b),
{
    let mut out: Vec<(String, Binding)> = Vec::new();
    let mut i: usize = 0;
    while i < b.entries.len()
        invariant
            b.wf(),
            i <= b.entries@.len(),
            out@.len() == i,
            forall|k: int| 0 <= k < i ==> (#[trigger] out@[k]).0@ == b.entries@[k].0@ && out@[k].1.bv() == b.entries@[k].1.bv(),
        decreases b.entries@.len() - i,
    {
        out.push((b.entries[i].0.clone(), b.entries[i].1.duplicate()));
        i = i + 1;
    }
    let r = SortedMap { entries: out };
    proof {
        assert(r.wf()) by {
            assert forall|x: int, y: int| 0 <= x < y < r.entries@.len() implies #[trigger] String::key_lt(
                r.entries@[x].0.kv(),
                r.entries@[y].0.kv(),
            ) by {
                assert(String::key_lt(b.entries@[x].0.kv(), b.entries@[y].0.kv()));
            }
        }
        assert forall|k: Seq<char>| #[trigger] r.has(k) == b.has(k) by {
            if r.has(k) {
                let j = choose|j: int| 0 <= j < r.entries@.len() && #[trigger] r.entries@[j].0.kv() == k;
                assert(b.entries@[j].0.kv() == k);
            }
            if b.has(k) {
                let j = choose|j: int| 0 <= j < b.entries@.len() && #[trigger] b.entries@[j].0.kv() == k;
                assert(r.entries@[j].0.kv() == k);
            }
        }
        assert forall|k: Seq<char>| r.has(k) implies r.lookup(k).unwrap().bv() == b.lookup(k).unwrap().bv() by {
            let j = choose|j: int| 0 <= j < r.entries@.len() && #[trigger] r.entries@[j].0.kv() == k;
            r.lemma_lookup_at(j);
            b.lemma_lookup_at(j);
        }
        assert(env_of(r) =~= env_of(*b));
    }
    r
}

/// Whether node `idx` carries every inline property of `np`.
pub fn node_props_match(st: &KeyspaceState, idx: usize, np: &NodePattern) -> (r: bool)
    requires
        st.wf(),
        idx < st.nodes().len(),
    ensures
        r == props_match(*st, idx, *np),
{
    let node = st.node(idx);
    let ghost req = props_view(np.props);
    let mut t: usize = 0;
    while t < np.props.entries.len()
        invariant
            st.wf(),
            idx < st.nodes().len(),
            *node == st.nodes()[idx as int],
            req == props_view(np.props),
            t <= req.len(),
            forall|u: int| 0 <= u < t ==> match prop_of(st.nodes()[idx as int].props, #[trigger] req[u].0) {
                Some(a) => value_eq(a, req[u].1),
                None => false,
            },
        decreases req.len() - t,
    {
        let (k, v) = &np.props.entries[t];
        let ok = match get_prop(&node.props, k.as_str()) {
            Some(actual) => values_equal(actual, v),
            None => false,
        };
        proof {
            assert(req[t as int] == (k@, v.pv()));
        }
        if !ok {
            proof {
                assert(!(match prop_of(st.nodes()[idx as int].props, req[t as int].0) {
                    Some(a) => value_eq(a, req[t as int].1),
                    None => false,
                }));
            }
            return false;
        }
        t = t + 1;
    }
    true
}

/// Whether every row of the table refers only to existing nodes and edges.
pub open spec fn envs_valid(st: KeyspaceState, rows: Seq<Env>) -> bool {
    forall|i: int| 0 <= i < rows.len() ==> env_valid(st, #[trigger] rows[i])
}

/// Appends the rows node pattern `np` makes of row `b`.
fn emit_node_bindings(st: &KeyspaceState, out: &mut Vec<Bindings>, b: &Bindings, cands: &Vec<usize>, np: &NodePattern)
    requires
        st.wf(),
        row_ok(*st, *b),
        all_nodes(*st, cands@),
        table_ok(*st, old(out)@),
    ensures
        table_ok(*st, final(out)@),
        envs(final(out)@) == envs(old(out)@) + expand_node(*st, *np, env_of(*b), cands@),
{
    let ghost e = env_of(*b);
    let ghost start = envs(out@);
    match &np.var {
        None => {
            let mut k: usize = 0;
            while k < cands.len()
                invariant
                    st.wf(),
                    row_ok(*st, *b),
                    e == env_of(*b),
                    all_nodes(*st, cands@),
                    k <= cands@.len(),
                    table_ok(*st, out@),
                    envs(out@) == start + expand_anon(*st, *np, e, cands@.take(k as int)),
                decreases cands@.len() - k,
            {
                proof {
                    assert(cands@.take(k + 1).drop_last() =~= cands@.take(k as int));
                    assert(cands@.take(k + 1).last() == cands@[k as int]);
                }
                if node_props_match(st, cands[k], np) {
                    let d = duplicate_bindings(b);
                    let ghost before = envs(out@);
                    out.push(d);
                    proof {
                        assert(envs(out@) =~= before.push(e));
                    }
                }
                k = k + 1;
            }
            proof {
                assert(cands@.take(k as int) =~= cands@);
            }
        },
        Some(var) => {
            proof {
                assert(e.contains_key(var@) == b.has(var@));
            }
            if b.contains_key(var) {
                let existing = b.get(var);
                let mut k: usize = 0;
                let mut hit = false;
                while k < cands.len()
                    invariant
                        st.wf(),
                        row_ok(*st, *b),
                        e == env_of(*b),
                        b.has(var@),
                        all_nodes(*st, cands@),
                        k <= cands@.len(),
                        match existing {
                            Some(x) => e[var@] == x.bv(),
                            None => false,
                        },
                        hit == exists|j: int| 0 <= j < k && e[var@] == BindView::Node(#[trigger] cands@[j]) && props_match(*st, cands@[j], *np),
                    decreases cands@.len() - k,
                {
                    let same = match existing {
                        Some(Binding::NodeRef(i)) => *i == cands[k],
                        _ => false,
                    };
                    if same && node_props_match(st, cands[k], np) {
                        hit = true;
                    }
                    k = k + 1;
                }
                if hit {
                    let d = duplicate_bindings(b);
                    out.push(d);
                    proof {
                        assert(envs(out@) =~= start + seq![e]);
                    }
                } else {
                    proof {
                        assert(envs(out@) =~= start + Seq::<Env>::empty());
                    }
                }
            } else {
                let mut k: usize = 0;
                while k < cands.len()
                    invariant
                        st.wf(),
                        row_ok(*st, *b),
                        e == env_of(*b),
                        !e.contains_key(var@),
                        all_nodes(*st, cands@),
                        k <= cands@.len(),
                        table_ok(*st, out@),
                        envs(out@) == start + expand_new(*st, *np, e, var@, cands@.take(k as int)),
                    decreases cands@.len() - k,
                {
                    proof {
                        assert(cands@.take(k + 1).drop_last() =~= cands@.take(k as int));
                        assert(cands@.take(k + 1).last() == cands@[k as int]);
                    }
                    let c = cands[k];
                    if node_props_match(st, c, np) {
                        let mut d = duplicate_bindings(b);
                        let ghost dd = d;
                        d.insert(var.clone(), Binding::NodeRef(c));
                        proof {
                            lemma_env_insert(d, dd, var@, BindView::Node(c));
                            assert(env_valid(*st, env_of(d))) by {
                                assert forall|x: Seq<char>| #[trigger] env_of(d).contains_key(x) implies match env_of(d)[x] {
                                    BindView::Node(i) => i < st.nodes().len(),
                                    BindView::Edge(j) => j < st.edges().len(),
                                    _ => true,
                                } by {
                                    if x != var@ {
                                        assert(e.contains_key(x));
                                    }
                                }
                            }
                        }
                        let ghost before = envs(out@);
                        out.push(d);
                        proof {
                            assert(envs(out@) =~= before.push(e.insert(var@, BindView::Node(c))));
                        }
                    }
                    k = k + 1;
                }
                proof {
                    assert(cands@.take(k as int) =~= cands@);
                }
            }
        },
    }
}

/// Applies node pattern `np` to every row of `table`.
pub fn apply_node_pattern(
    st: &KeyspaceState,
    params: &Params,
    table: &Vec<Bindings>,
    np: &NodePattern,
    where_clause: Option<&Predicate>,
    warnings: &mut Vec<Warning>,
    explain: &mut Vec<ExplainRow>,
) -> (r: Vec<Bindings>)
    requires
        st.wf(),
        params.wf(),
        table_ok(*st, table@),
    ensures
        table_ok(*st, r@),
        envs(r@) == node_rows(*st, *params, envs(table@), *np, opt_pred(where_clause)),
        node_pattern_warnings(*st, *np, opt_pred(where_clause), table@.len(), old(warnings)@, final(warnings)@),
        final(explain)@.len() >= old(explain)@.len(),
        final(explain)@.take(old(explain)@.len() as int) == old(explain)@,
{
    let ghost wc = opt_pred(where_clause);
    let ghost tab = envs(table@);
    let ghost w0 = warnings@;
    let ghost x0 = explain@;
    let independent = is_binding_independent_pattern(np, where_clause, st);
    let empty: Bindings = SortedMap::new();
    proof {
        assert(env_of(empty) =~= Map::<Seq<char>, BindView>::empty());
    }
    let cached = if independent {
        candidate_nodes(st, params, np, where_clause, &empty, warnings, explain)
    } else {
        Vec::new()
    };
    proof {
        assert(explain@.take(x0.len() as int) =~= x0);
        assert(w0.take(w0.len() as int) =~= w0);
        if independent && np.label is Some && !st.by_label.has(np.label->0@) {
            assert(warnings@.drop_last() == w0);
            assert(warnings@.take(w0.len() as int) =~= w0);
            assert(warnings@[w0.len() as int] == warnings@.last());
        }
    }
    let mut out: Vec<Bindings> = Vec::new();
    let mut t: usize = 0;
    proof {
        assert(tab.take(0) =~= Seq::<Env>::empty());
    }
    while t < table.len()
        invariant
            st.wf(),
            params.wf(),
            table_ok(*st, table@),
            tab == envs(table@),
            wc == opt_pred(where_clause),
            independent == binding_independent(*np, wc, *st),
            independent ==> cached@ == node_candidates(*st, *params, *np, wc, Map::empty()) && all_nodes(*st, cached@),
            t <= table@.len(),
            table_ok(*st, out@),
            envs(out@) == node_rows(*st, *params, tab.take(t as int), *np, wc),
            explain@.len() >= x0.len(),
            explain@.take(x0.len() as int) == x0,
            if np.label is Some && !st.by_label.has(np.label->0@) {
                unknown_label_warnings(w0, warnings@, np.label->0@, if independent { 1 } else { t as nat })
            } else {
                warnings@ == w0
            },
        decreases table@.len() - t,
    {
        let b = &table[t];
        proof {
            assert(tab.take(t + 1).drop_last() =~= tab.take(t as int));
            assert(tab.take(t + 1).last() == env_of(*b));
        }
        if independent {
            emit_node_bindings(st, &mut out, b, &cached, np);
        } else {
            let ghost wb = warnings@;
            let ghost xb = explain@;
            let cands = candidate_nodes(st, params, np, where_clause, b, warnings, explain);
            proof {
                assert(explain@.take(x0.len() as int) =~= x0) by {
                    if explain@.len() > xb.len() {
                        assert(explain@.drop_last() == xb);
                        assert(explain@.take(x0.len() as int) =~= xb.take(x0.len() as int));
                    }
                }
                if np.label is Some && !st.by_label.has(np.label->0@) {
                    assert(warnings@.drop_last() == wb);
                    assert(warnings@.take(w0.len() as int) =~= wb.take(w0.len() as int));
                    assert forall|k: int| w0.len() <= k < warnings@.len() implies (#[trigger] warnings@[k]).kind == WarningKind::UnknownLabel
                        && warnings@[k].message@ == unknown_label_message(np.label->0@) by {
                        if k < wb.len() {
                            assert(warnings@[k] == wb[k]);
                        }
                    }
                }
            }
            emit_node_bindings(st, &mut out, b, &cands, np);
        }
        t = t + 1;
    }
    proof {
        assert(tab.take(t as int) =~= tab);
    }
    out
}

/// The rows `UNWIND $list AS var` makes of a table: each row extended with
/// `var` bound to each item of the list parameter, in order; none when the
/// parameter is missing or not a list.
pub open spec fn unwind_rows(params: Params, table: Seq<Env>, list_param: Seq<char>, var: Seq<char>) -> Seq<Env>
    decreases table.len(),
{
    match params.lookup(list_param) {
        Some(ParamBinding::List(items)) => if table.len() == 0 {
            Seq::empty()
        } else {
            unwind_rows(params, table.drop_last(), list_param, var) + Seq::new(
                items@.len(),
                |k: int| table.last().insert(var, BindView::Val(RowView::Scalar(items@[k].pv()))),
            )
        },
        _ => Seq::empty(),
    }
}

/// The message of the warning for an `UNWIND` over a missing list.
pub open spec fn unwind_message(list_param: Seq<char>) -> Seq<char> {
    "UNWIND $"@ + list_param + ": parameter missing or not a list"@
}

/// Applies `UNWIND $list_param AS var` to every row of `table`; warns when
/// the parameter is missing or not a list.
pub fn apply_unwind(
    st: &KeyspaceState,
    params: &Params,
    table: &Vec<Bindings>,
    list_param: &String,
    var: &String,
    warnings: &mut Vec<Warning>,
) -> (r: Vec<Bindings>)
    requires
        st.wf(),
        params.wf(),
        table_ok(*st, table@),
    ensures
        table_ok(*st, r@),
        envs(r@) == unwind_rows(*params, envs(table@), list_param@, var@),
        match params.lookup(list_param@) {
            Some(ParamBinding::List(_)) => final(warnings)@ == old(warnings)@,
            _ => {
                &&& final(warnings)@.len() == old(warnings)@.len() + 1
                &&& final(warnings)@.drop_last() == old(warnings)@
                &&& final(warnings)@.last().kind == WarningKind::EmptyResult
                &&& final(warnings)@.last().message@ == unwind_message(list_param@)
            },
        },
{
    let ghost tab = envs(table@);
    let items = match params.get(list_param) {
        Some(ParamBinding::List(items)) => items,
        _ => {
            let mut msg = String::new();
            push_str(&mut msg, "UNWIND $");
            push_str(&mut msg, list_param.as_str());
            push_str(&mut msg, ": parameter missing or not a list");
            proof {
                reveal_strlit("UNWIND $");
                reveal_strlit(": parameter missing or not a list");
            }
            warnings.push(Warning { kind: WarningKind::EmptyResult, message: msg, suggestion: None });
            proof {
                assert(final(warnings)@.drop_last() =~= old(warnings)@);
                if tab.len() > 0 {
                    assert(unwind_rows(*params, tab, list_param@, var@) == Seq::<Env>::empty());
                }
            }
            let none: Vec<Bindings> = Vec::new();
            proof {
                assert(envs(none@) =~= unwind_rows(*params, tab, list_param@, var@));
            }
            return none;
        },
    };
    let mut out: Vec<Bindings> = Vec::new();
    let mut t: usize = 0;
    proof {
        assert(tab.take(0) =~= Seq::<Env>::empty());
    }
    while t < table.len()
        invariant
            st.wf(),
            table_ok(*st, table@),
            tab == envs(table@),
            params.lookup(list_param@) == Some(ParamBinding::List(*items)),
            t <= table@.len(),
            table_ok(*st, out@),
            envs(out@) == unwind_rows(*params, tab.take(t as int), list_param@, var@),
        decreases table@.len() - t,
    {
        let b = &table[t];
        let ghost e = env_of(*b);
        let ghost start = envs(out@);
        proof {
            assert(tab.take(t + 1).drop_last() =~= tab.take(t as int));
            assert(tab.take(t + 1).last() == e);
        }
        let mut k: usize = 0;
        while k < items.len()
            invariant
                st.wf(),
                row_ok(*st, *b),
                e == env_of(*b),
                k <= items@.len(),
                table_ok(*st, out@),
                envs(out@) == start + Seq::new(
                    k as nat,
                    |j: int| e.insert(var@, BindView::Val(RowView::Scalar(items@[j].pv()))),
                ),
            decreases items@.len() - k,
        {
            let mut d = duplicate_bindings(b);
            let ghost dd = d;
            let item = items[k].duplicate();
            let ghost iv = item.pv();
            d.insert(var.clone(), Binding::Value(RowValue::Scalar(item)));
            proof {
                lemma_env_insert(d, dd, var@, BindView::Val(RowView::Scalar(iv)));
                assert(env_valid(*st, env_of(d))) by {
                    assert forall|x: Seq<char>| #[trigger] env_of(d).contains_key(x) implies match env_of(d)[x] {
                        BindView::Node(i) => i < st.nodes().len(),
                        BindView::Edge(j) => j < st.edges().len(),
                        _ => true,
                    } by {
                        if x != var@ {
                            assert(e.contains_key(x));
                        }
                    }
                }
            }
            let ghost before = envs(out@);
            let ghost de = env_of(d);
            out.push(d);
            proof {
                let f = |j: int| e.insert(var@, BindView::Val(RowView::Scalar(items@[j].pv())));
                assert(iv == items@[k as int].pv());
                assert(de == f(k as int));
                assert(envs(out@) =~= before.push(de));
                assert(Seq::new((k + 1) as nat, f) =~= Seq::new(k as nat, f).push(f(k as int)));
                assert(envs(out@) =~= start + Seq::new((k + 1) as nat, f));
            }
            k = k + 1;
        }
        t = t + 1;
    }
    proof {
        assert(tab.take(t as int) =~= tab);
    }
    out
}

// ---------------------------------------------------------------------
// Path patterns
// ---------------------------------------------------------------------

/// The `(destination, edge)` pairs a path's edge pattern reaches from
/// node `x`: one hop, each edge its own pair, sorted by destination then
/// edge; or, for a variable-length pattern, the reached nodes ascending,
/// with no edge.
pub open spec fn traverse_spec(st: KeyspaceState, x: usize, ep: EdgePattern) -> Seq<(usize, Option<usize>)> {
    if ep.var_length is None {
        sort_pairs(hop_pairs(st, x, ep)).map_values(|p: (usize, usize)| (p.0, Some(p.1)))
    } else {
        ascending(far_nodes(st, ep, x)).map_values(|t: usize| (t, None::<usize>))
    }
}

/// The row with the edge variable bound, for a one-hop match.
pub open spec fn with_edge(ep: EdgePattern, m: Env, eidx: Option<usize>) -> Env {
    match (ep.var, eidx) {
        (Some(v), Some(j)) => m.insert(v@, BindView::Edge(j)),
        _ => m,
    }
}

/// The row a path match `src → dst` makes of row `e`, if the destination
/// passes the `to` pattern and agrees with an earlier binding of its
/// variable.
pub open spec fn path_binding(st: KeyspaceState, e: Env, src: usize, dst: usize, eidx: Option<usize>, pp: PathPattern) -> Option<Env> {
    if (pp.to.label is Some && st.nodes()[dst as int].label@ != pp.to.label->0@) || !props_match(st, dst, pp.to) {
        None
    } else {
        let e1 = match pp.from.var {
            Some(v) => e.insert(v@, BindView::Node(src)),
            None => e,
        };
        match pp.to.var {
            Some(v) => if e1.contains_key(v@) {
                if e1[v@] == BindView::Node(dst) {
                    Some(with_edge(pp.edge, e1, eidx))
                } else {
                    None
                }
            } else {
                Some(with_edge(pp.edge, e1.insert(v@, BindView::Node(dst)), eidx))
            },
            None => Some(with_edge(pp.edge, e1, eidx)),
        }
    }
}

/// The rows the matches from `src` to each reached pair make of row `e`.
pub open spec fn path_targets(st: KeyspaceState, e: Env, pp: PathPattern, src: usize, ts: Seq<(usize, Option<usize>)>) -> Seq<Env>
    decreases ts.len(),
{
    if ts.len() == 0 {
        Seq::empty()
    } else {
        let r = path_targets(st, e, pp, src, ts.drop_last());
        match path_binding(st, e, src, ts.last().0, ts.last().1, pp) {
            Some(n) => r.push(n),
            None => r,
        }
    }
}

/// The source nodes of a path for row `e`: the node its variable is
/// already bound to, else the `from` pattern's candidates.
pub open spec fn endpoint_candidates(st: KeyspaceState, params: Params, np: NodePattern, wc: Option<Predicate>, e: Env) -> Seq<usize> {
    if np.var is Some && e.contains_key(np.var->0@) && e[np.var->0@] is Node {
        seq![e[np.var->0@]->Node_0]
    } else {
        node_candidates(st, params, np, wc, e)
    }
}

/// The rows path pattern `pp` makes of row `e` from the given sources.
pub open spec fn path_from(st: KeyspaceState, pp: PathPattern, e: Env, srcs: Seq<usize>) -> Seq<Env>
    decreases srcs.len(),
{
    if srcs.len() == 0 {
        Seq::empty()
    } else {
        let r = path_from(st, pp, e, srcs.drop_last());
        let src = srcs.last();
        if props_match(st, src, pp.from) {
            r + path_targets(st, e, pp, src, traverse_spec(st, src, pp.edge))
        } else {
            r
        }
    }
}

/// Whether some edge carries label `l`.
pub open spec fn has_edge_label_spec(st: KeyspaceState, l: Seq<char>) -> bool {
    exists|j: int| 0 <= j < st.edges().len() && #[trigger] st.edges()[j].2.label@ == l
}

/// The rows path pattern `pp` makes of a table: none when its edge label
/// is absent from the keyspace; else each row's matches in turn.
pub open spec fn path_rows(st: KeyspaceState, params: Params, table: Seq<Env>, pp: PathPattern, wc: Option<Predicate>) -> Seq<Env>
    decreases table.len(),
{
    if pp.edge.label is Some && !has_edge_label_spec(st, pp.edge.label->0@) {
        Seq::empty()
    } else if table.len() == 0 {
        Seq::empty()
    } else {
        let e = table.last();
        path_rows(st, params, table.drop_last(), pp, wc) + path_from(st, pp, e, endpoint_candidates(st, params, pp.from, wc, e))
    }
}

/// The message of the warning for an unknown edge label.
pub open spec fn unknown_edge_label_message(l: Seq<char>) -> Seq<char> {
    "unknown edge label: "@ + l
}

/// Whether `after` extends `before`.
pub open spec fn extends<T>(before: Seq<T>, after: Seq<T>) -> bool {
    after.len() >= before.len() && after.take(before.len() as int) == before
}

proof fn lemma_extends_trans<T>(a: Seq<T>, b: Seq<T>, c: Seq<T>)
    requires
        extends(a, b),
        extends(b, c),
    ensures
        extends(a, c),
{
    assert(c.take(a.len() as int) =~= b.take(a.len() as int));
}

/// The empty-result warning a query run ends with when nothing matched.
pub open spec fn is_no_rows_warning(w: Warning) -> bool {
    w.kind == WarningKind::EmptyResult && w.message@ == "query matched no rows"@
}

/// `after` extends `before` by warnings none of which is the empty-result
/// warning of a whole run.
pub open spec fn quiet_growth(before: Seq<Warning>, after: Seq<Warning>) -> bool {
    &&& extends(before, after)
    &&& forall|k: int| before.len() <= k < after.len() ==> !is_no_rows_warning(#[trigger] after[k])
}

proof fn lemma_quiet_trans(a: Seq<Warning>, b: Seq<Warning>, c: Seq<Warning>)
    requires
        quiet_growth(a, b),
        quiet_growth(b, c),
    ensures
        quiet_growth(a, c),
{
    lemma_extends_trans(a, b, c);
    assert forall|k: int| a.len() <= k < c.len() implies !is_no_rows_warning(#[trigger] c[k]) by {
        if k < b.len() {
            assert(c.take(b.len() as int)[k] == c[k]);
            assert(b[k] == c[k]);
        }
    }
}

proof fn lemma_quiet_refl(a: Seq<Warning>)
    ensures
        quiet_growth(a, a),
{
    assert(a.take(a.len() as int) =~= a);
}

proof fn lemma_quiet_push(a: Seq<Warning>, w: Warning)
    requires
        !is_no_rows_warning(w),
    ensures
        quiet_growth(a, a.push(w)),
{
    assert(a.push(w).take(a.len() as int) =~= a);
}

/// The pairs a path's edge pattern reaches from node `x`.
fn traverse(st: &KeyspaceState, x: usize, ep: &EdgePattern) -> (r: Vec<(usize, Option<usize>)>)
    requires
        st.wf(),
        x < st.nodes().len(),
    ensures
        r@ == traverse_spec(*st, x, *ep),
        forall|k: int| 0 <= k < r@.len() ==> (#[trigger] r@[k]).0 < st.nodes().len() && match r@[k].1 {
            Some(j) => j < st.edges().len(),
            None => true,
        },
{
    if ep.var_length.is_none() {
        let pairs = traverse_single_hop(st, x, ep);
        let mut out: Vec<(usize, Option<usize>)> = Vec::new();
        let mut i: usize = 0;
        while i < pairs.len()
            invariant
                i <= pairs@.len(),
                forall|k: int| 0 <= k < pairs@.len() ==> (#[trigger] pairs@[k]).0 < st.nodes().len() && pairs@[k].1 < st.edges().len(),
                out@ == pairs@.take(i as int).map_values(|p: (usize, usize)| (p.0, Some(p.1))),
            decreases pairs@.len() - i,
        {
            out.push((pairs[i].0, Some(pairs[i].1)));
            proof {
                assert(pairs@.take(i + 1).map_values(|p: (usize, usize)| (p.0, Some(p.1)))
                    =~= pairs@.take(i as int).map_values(|p: (usize, usize)| (p.0, Some(p.1))).push((pairs@[i as int].0, Some(pairs@[i as int].1))));
            }
            i = i + 1;
        }
        proof {
            assert(pairs@.take(i as int) =~= pairs@);
        }
        out
    } else {
        let nodes = traverse_bfs(st, x, ep);
        proof {
            lemma_ascending(nodes@, far_nodes(*st, *ep, x));
        }
        let mut out: Vec<(usize, Option<usize>)> = Vec::new();
        let mut i: usize = 0;
        while i < nodes.len()
            invariant
                i <= nodes@.len(),
                forall|k: int| 0 <= k < nodes@.len() ==> #[trigger] nodes@[k] < st.nodes().len(),
                out@ == nodes@.take(i as int).map_values(|t: usize| (t, None::<usize>)),
            decreases nodes@.len() - i,
        {
            out.push((nodes[i], None));
            proof {
                assert(nodes@.take(i + 1).map_values(|t: usize| (t, None::<usize>))
                    =~= nodes@.take(i as int).map_values(|t: usize| (t, None::<usize>)).push((nodes@[i as int], None::<usize>)));
            }
            i = i + 1;
        }
        proof {
            assert(nodes@.take(i as int) =~= nodes@);
        }
        out
    }
}

proof fn lemma_env_valid_insert(st: KeyspaceState, e: Env, k: Seq<char>, v: BindView)
    requires
        env_valid(st, e),
        match v {
            BindView::Node(i) => i < st.nodes().len(),
            BindView::Edge(j) => j < st.edges().len(),
            _ => true,
        },
    ensures
        env_valid(st, e.insert(k, v)),
{
    assert forall|x: Seq<char>| #[trigger] e.insert(k, v).contains_key(x) implies match e.insert(k, v)[x] {
        BindView::Node(i) => i < st.nodes().len(),
        BindView::Edge(j) => j < st.edges().len(),
        _ => true,
    } by {
        if x != k {
            assert(e.contains_key(x));
        }
    }
}

/// The row a path match makes of row `b`, if any.
fn build_path_binding(st: &KeyspaceState, b: &Bindings, src: usize, dst: usize, eidx: Option<usize>, pp: &PathPattern) -> (r: Option<Bindings>)
    requires
        st.wf(),
        row_ok(*st, *b),
        src < st.nodes().len(),
        dst < st.nodes().len(),
        match eidx {
            Some(j) => j < st.edges().len(),
            None => true,
        },
    ensures
        match r {
            Some(n) => row_ok(*st, n) && path_binding(*st, env_of(*b), src, dst, eidx, *pp) == Some(env_of(n)),
            None => path_binding(*st, env_of(*b), src, dst, eidx, *pp) is None,
        },
{
    let ghost e = env_of(*b);
    match &pp.to.label {
        Some(l) => {
            if !str_eq(st.node(dst).label.as_str(), l.as_str()) {
                return None;
            }
        },
        None => {},
    }
    if !node_props_match(st, dst, &pp.to) {
        return None;
    }
    let mut next = duplicate_bindings(b);
    match &pp.from.var {
        Some(v) => {
            let ghost before = next;
            next.insert(v.clone(), Binding::NodeRef(src));
            proof {
                lemma_env_insert(next, before, v@, BindView::Node(src));
                lemma_env_valid_insert(*st, env_of(before), v@, BindView::Node(src));
            }
        },
        None => {},
    }
    let ghost e1 = env_of(next);
    match &pp.to.var {
        Some(v) => {
            proof {
                assert(e1.contains_key(v@) == next.has(v@));
            }
            match next.get(v) {
                Some(existing) => {
                    let same = match existing {
                        Binding::NodeRef(i) => *i == dst,
                        _ => false,
                    };
                    if !same {
                        return None;
                    }
                },
                None => {
                    let ghost before = next;
                    next.insert(v.clone(), Binding::NodeRef(dst));
                    proof {
                        lemma_env_insert(next, before, v@, BindView::Node(dst));
                        lemma_env_valid_insert(*st, env_of(before), v@, BindView::Node(dst));
                    }
                },
            }
        },
        None => {},
    }
    match (&pp.edge.var, eidx) {
        (Some(v), Some(j)) => {
            let ghost before = next;
            next.insert(v.clone(), Binding::EdgeRef(j));
            proof {
                lemma_env_insert(next, before, v@, BindView::Edge(j));
                lemma_env_valid_insert(*st, env_of(before), v@, BindView::Edge(j));
            }
        },
        _ => {},
    }
    Some(next)
}

/// Applies path pattern `pp` to every row of `table`.
pub fn apply_path_pattern(
    st: &KeyspaceState,
    params: &Params,
    table: &Vec<Bindings>,
    pp: &PathPattern,
    where_clause: Option<&Predicate>,
    warnings: &mut Vec<Warning>,
    explain: &mut Vec<ExplainRow>,
) -> (r: Vec<Bindings>)
    requires
        st.wf(),
        params.wf(),
        table_ok(*st, table@),
    ensures
        table_ok(*st, r@),
        envs(r@) == path_rows(*st, *params, envs(table@), *pp, opt_pred(where_clause)),
        quiet_growth(old(warnings)@, final(warnings)@),
        extends(old(explain)@, final(explain)@),
{
    let ghost wc = opt_pred(where_clause);
    let ghost tab = envs(table@);
    proof {
        lemma_quiet_refl(warnings@);
        assert(extends(explain@, explain@)) by {
            assert(explain@.take(explain@.len() as int) =~= explain@);
        }
    }
    match &pp.edge.label {
        Some(l) => {
            if !st.has_edge_label(l) {
                let mut names: Vec<String> = Vec::new();
                let mut i: usize = 0;
                while i < st.edge_labels.entries.len()
                    decreases st.edge_labels.entries@.len() - i,
                {
                    names.push(st.edge_labels.entries[i].0.clone());
                    i = i + 1;
                }
                let suggestion = suggest_for(l.as_str(), &names);
                let mut msg = String::new();
                push_str(&mut msg, "unknown edge label: ");
                push_str(&mut msg, l.as_str());
                let ghost w0 = warnings@;
                warnings.push(Warning { kind: WarningKind::UnknownEdgeLabel, message: msg, suggestion });
                let none: Vec<Bindings> = Vec::new();
                proof {
                    assert(warnings@.take(w0.len() as int) =~= w0);
                    lemma_quiet_push(w0, warnings@.last());
                    assert(warnings@ == w0.push(warnings@.last()));
                    if tab.len() > 0 {
                        assert(path_rows(*st, *params, tab, *pp, wc) == Seq::<Env>::empty());
                    }
                    assert(envs(none@) =~= path_rows(*st, *params, tab, *pp, wc));
                }
                return none;
            }
        },
        None => {},
    }
    let ghost w0 = warnings@;
    let ghost x0 = explain@;
    let mut out: Vec<Bindings> = Vec::new();
    let mut t: usize = 0;
    proof {
        assert(tab.take(0) =~= Seq::<Env>::empty());
    }
    while t < table.len()
        invariant
            st.wf(),
            params.wf(),
            table_ok(*st, table@),
            tab == envs(table@),
            wc == opt_pred(where_clause),
            !(pp.edge.label is Some && !has_edge_label_spec(*st, pp.edge.label->0@)),
            t <= table@.len(),
            table_ok(*st, out@),
            envs(out@) == path_rows(*st, *params, tab.take(t as int), *pp, wc),
            quiet_growth(w0, warnings@),
            extends(x0, explain@),
        decreases table@.len() - t,
    {
        let b = &table[t];
        let ghost e = env_of(*b);
        proof {
            assert(tab.take(t + 1).drop_last() =~= tab.take(t as int));
            assert(tab.take(t + 1).last() == e);
            assert(row_ok(*st, *b));
        }
        // The sources.
        let pinned: Option<usize> = match &pp.from.var {
            Some(v) => match b.get(v) {
                Some(Binding::NodeRef(i)) => Some(*i),
                _ => None,
            },
            None => None,
        };
        let ghost w1 = warnings@;
        let ghost x1 = explain@;
        let srcs: Vec<usize> = match pinned {
            Some(i) => {
                proof {
                    let v = pp.from.var->0;
                    assert(e.contains_key(v@));
                }
                vec![i]
            },
            None => candidate_nodes(st, params, &pp.from, where_clause, b, warnings, explain),
        };
        proof {
            assert(srcs@ == endpoint_candidates(*st, *params, pp.from, wc, e));
            assert(all_nodes(*st, srcs@)) by {
                if pinned is Some {
                    let v = pp.from.var->0;
                    assert(e.contains_key(v@));
                    assert(srcs@[0] == pinned->0);
                }
            }
            if !(pinned is Some) {
                if pp.from.label is Some && !st.by_label.has(pp.from.label->0@) {
                    assert(warnings@.drop_last() == w1);
                    assert(warnings@.take(w1.len() as int) =~= w1);
                    assert(warnings@ == w1.push(warnings@.last()));
                    lemma_quiet_push(w1, warnings@.last());
                } else {
                    lemma_quiet_refl(w1);
                    assert(warnings@.take(w1.len() as int) =~= w1);
                    assert(explain@.drop_last() == x1);
                    assert(explain@.take(x1.len() as int) =~= x1);
                }
                if pp.from.label is Some && !st.by_label.has(pp.from.label->0@) {
                    assert(explain@.take(x1.len() as int) =~= x1);
                }
            } else {
                assert(warnings@.take(w1.len() as int) =~= w1);
                assert(explain@.take(x1.len() as int) =~= x1);
                lemma_quiet_refl(w1);
            }
            lemma_quiet_trans(w0, w1, warnings@);
            lemma_extends_trans(x0, x1, explain@);
        }
        let ghost start = envs(out@);
        let mut k: usize = 0;
        proof {
            assert(srcs@.take(0) =~= Seq::<usize>::empty());
        }
        while k < srcs.len()
            invariant
                st.wf(),
                row_ok(*st, *b),
                e == env_of(*b),
                all_nodes(*st, srcs@),
                k <= srcs@.len(),
                table_ok(*st, out@),
                envs(out@) == start + path_from(*st, *pp, e, srcs@.take(k as int)),
            decreases srcs@.len() - k,
        {
            let src = srcs[k];
            proof {
                assert(srcs@.take(k + 1).drop_last() =~= srcs@.take(k as int));
                assert(srcs@.take(k + 1).last() == src);
            }
            if node_props_match(st, src, &pp.from) {
                let reached = traverse(st, src, &pp.edge);
                let ghost mid = envs(out@);
                let mut q: usize = 0;
                proof {
                    assert(reached@.take(0) =~= Seq::<(usize, Option<usize>)>::empty());
                }
                while q < reached.len()
                    invariant
                        st.wf(),
                        row_ok(*st, *b),
                        e == env_of(*b),
                        src < st.nodes().len(),
                        forall|kk: int| 0 <= kk < reached@.len() ==> (#[trigger] reached@[kk]).0 < st.nodes().len() && match reached@[kk].1 {
                            Some(j) => j < st.edges().len(),
                            None => true,
                        },
                        q <= reached@.len(),
                        table_ok(*st, out@),
                        envs(out@) == mid + path_targets(*st, e, *pp, src, reached@.take(q as int)),
                    decreases reached@.len() - q,
                {
                    let (dst, eidx) = reached[q];
                    proof {
                        assert(reached@.take(q + 1).drop_last() =~= reached@.take(q as int));
                        assert(reached@.take(q + 1).last() == (dst, eidx));
                    }
                    match build_path_binding(st, b, src, dst, eidx, pp) {
                        Some(n) => {
                            let ghost before = envs(out@);
                            let ghost ne = env_of(n);
                            out.push(n);
                            proof {
                                assert(envs(out@) =~= before.push(ne));
                            }
                        },
                        None => {},
                    }
                    q = q + 1;
                }
                proof {
                    assert(reached@.take(q as int) =~= reached@);
                    assert(envs(out@) =~= start + path_from(*st, *pp, e, srcs@.take(k + 1)));
                }
            }
            k = k + 1;
        }
        proof {
            assert(srcs@.take(k as int) =~= srcs@);
            assert(envs(out@) =~= path_rows(*st, *params, tab.take(t as int), *pp, wc)
                + path_from(*st, *pp, e, endpoint_candidates(*st, *params, pp.from, wc, e)));
        }
        t = t + 1;
    }
    proof {
        assert(tab.take(t as int) =~= tab);
    }
    out
}

// ---------------------------------------------------------------------
// OPTIONAL MATCH, and one clause of any kind
// ---------------------------------------------------------------------

/// The variables a pattern binds, in order.
pub open spec fn pattern_vars(p: Pattern) -> Seq<Seq<char>>
    decreases p,
{
    match p {
        Pattern::Node(np) => match np.var {
            Some(v) => seq![v@],
            None => Seq::empty(),
        },
        Pattern::Path(pp) => (match pp.from.var {
            Some(v) => seq![v@],
            None => Seq::empty(),
        }) + (match pp.to.var {
            Some(v) => seq![v@],
            None => Seq::empty(),
        }) + (match pp.edge.var {
            Some(v) => seq![v@],
            None => Seq::empty(),
        }),
        Pattern::Optional(inner) => pattern_vars(*inner),
        Pattern::Unwind { var, .. } => seq![var@],
    }
}

/// The row with each of `vars` it does not bind set to null.
pub open spec fn null_fill(e: Env, vars: Seq<Seq<char>>) -> Env
    decreases vars.len(),
{
    if vars.len() == 0 {
        e
    } else {
        let m = null_fill(e, vars.drop_last());
        if m.contains_key(vars.last()) {
            m
        } else {
            m.insert(vars.last(), BindView::Null)
        }
    }
}

/// The rows one clause makes of a table. `OPTIONAL MATCH` keeps a row its
/// inner pattern does not match, with the pattern's variables null.
pub open spec fn pattern_rows(st: KeyspaceState, params: Params, table: Seq<Env>, p: Pattern, wc: Option<Predicate>) -> Seq<Env>
    decreases p, table.len(),
{
    match p {
        Pattern::Node(np) => node_rows(st, params, table, np, wc),
        Pattern::Path(pp) => path_rows(st, params, table, pp, wc),
        Pattern::Unwind { list_param, var } => unwind_rows(params, table, list_param@, var@),
        Pattern::Optional(inner) => if table.len() == 0 {
            Seq::empty()
        } else {
            let ex = pattern_rows(st, params, seq![table.last()], *inner, wc);
            pattern_rows(st, params, table.drop_last(), p, wc) + if ex.len() == 0 {
                seq![null_fill(table.last(), pattern_vars(*inner))]
            } else {
                ex
            }
        },
    }
}

/// The variables pattern `p` binds.
fn collect_pattern_vars(p: &Pattern) -> (r: Vec<String>)
    ensures
        crate::clause::texts_of(r@) == pattern_vars(*p),
    decreases p,
{
    match p {
        Pattern::Node(np) => {
            let mut out: Vec<String> = Vec::new();
            match &np.var {
                Some(v) => out.push(v.clone()),
                None => {},
            }
            proof {
                assert(crate::clause::texts_of(out@) =~= pattern_vars(*p));
            }
            out
        },
        Pattern::Path(pp) => {
            let mut out: Vec<String> = Vec::new();
            match &pp.from.var {
                Some(v) => out.push(v.clone()),
                None => {},
            }
            match &pp.to.var {
                Some(v) => out.push(v.clone()),
                None => {},
            }
            match &pp.edge.var {
                Some(v) => out.push(v.clone()),
                None => {},
            }
            proof {
                assert(crate::clause::texts_of(out@) =~= pattern_vars(*p));
            }
            out
        },
        Pattern::Optional(inner) => collect_pattern_vars(inner),
        Pattern::Unwind { var, .. } => {
            let out = vec![var.clone()];
            proof {
                assert(crate::clause::texts_of(out@) =~= pattern_vars(*p));
            }
            out
        },
    }
}

/// Applies one clause to every row of `table`.
pub fn apply_pattern(
    st: &KeyspaceState,
    params: &Params,
    table: &Vec<Bindings>,
    p: &Pattern,
    where_clause: Option<&Predicate>,
    warnings: &mut Vec<Warning>,
    explain: &mut Vec<ExplainRow>,
) -> (r: Vec<Bindings>)
    requires
        st.wf(),
        params.wf(),
        table_ok(*st, table@),
    ensures
        table_ok(*st, r@),
        envs(r@) == pattern_rows(*st, *params, envs(table@), *p, opt_pred(where_clause)),
        quiet_growth(old(warnings)@, final(warnings)@),
        extends(old(explain)@, final(explain)@),
    decreases p,
{
    let ghost w0 = warnings@;
    let ghost x0 = explain@;
    let ghost wc = opt_pred(where_clause);
    let ghost tab = envs(table@);
    match p {
        Pattern::Node(np) => {
            let r = apply_node_pattern(st, params, table, np, where_clause, warnings, explain);
            proof {
                if np.label is Some && !st.by_label.has(np.label->0@) {
                    assert(warnings@.take(w0.len() as int) =~= w0);
                } else {
                    assert(warnings@.take(w0.len() as int) =~= w0);
                }
            }
            r
        },
        Pattern::Path(pp) => apply_path_pattern(st, params, table, pp, where_clause, warnings, explain),
        Pattern::Unwind { list_param, var } => {
            let r = apply_unwind(st, params, table, list_param, var, warnings);
            proof {
                assert(warnings@.take(w0.len() as int) =~= w0) by {
                    if warnings@.len() > w0.len() {
                        assert(warnings@.drop_last() == w0);
                    }
                }
                if warnings@.len() > w0.len() {
                    reveal_strlit("query matched no rows");
                    reveal_strlit("UNWIND $");
                    assert(warnings@.last().message@[0] != "query matched no rows"@[0]);
                }
                assert(explain@.take(x0.len() as int) =~= x0);
            }
            r
        },
        Pattern::Optional(inner) => {
            let vars = collect_pattern_vars(inner);
            let ghost vs = pattern_vars(**inner);
            let mut out: Vec<Bindings> = Vec::new();
            let mut t: usize = 0;
            proof {
                assert(tab.take(0) =~= Seq::<Env>::empty());
                assert(warnings@.take(w0.len() as int) =~= w0);
                assert(explain@.take(x0.len() as int) =~= x0);
            }
            while t < table.len()
                invariant
                    st.wf(),
                    params.wf(),
                    table_ok(*st, table@),
                    tab == envs(table@),
                    wc == opt_pred(where_clause),
                    *p == Pattern::Optional(*inner),
                    crate::clause::texts_of(vars@) == vs,
                    vs == pattern_vars(**inner),
                    t <= table@.len(),
                    table_ok(*st, out@),
                    envs(out@) == pattern_rows(*st, *params, tab.take(t as int), *p, wc),
                    quiet_growth(w0, warnings@),
                    extends(x0, explain@),
                decreases table@.len() - t,
            {
                let b = &table[t];
                let ghost e = env_of(*b);
                proof {
                    assert(tab.take(t + 1).drop_last() =~= tab.take(t as int));
                    assert(tab.take(t + 1).last() == e);
                }
                let seed = vec![duplicate_bindings(b)];
                proof {
                    assert(envs(seed@) =~= seq![e]);
                }
                let ghost w1 = warnings@;
                let ghost x1 = explain@;
                let expanded = apply_pattern(st, params, &seed, inner, where_clause, warnings, explain);
                proof {
                    lemma_quiet_trans(w0, w1, warnings@);
                    lemma_extends_trans(x0, x1, explain@);
                }
                let ghost start = envs(out@);
                if expanded.len() == 0 {
                    let mut filled = duplicate_bindings(b);
                    let mut k: usize = 0;
                    while k < vars.len()
                        invariant
                            st.wf(),
                            row_ok(*st, filled),
                            crate::clause::texts_of(vars@) == vs,
                            k <= vars@.len(),
                            env_of(filled) == null_fill(e, vs.take(k as int)),
                        decreases vars@.len() - k,
                    {
                        proof {
                            assert(vs.take(k + 1).drop_last() =~= vs.take(k as int));
                            assert(vs.take(k + 1).last() == vars@[k as int]@);
                            assert(env_of(filled).contains_key(vars@[k as int]@) == filled.has(vars@[k as int]@));
                        }
                        if !filled.contains_key(&vars[k]) {
                            let ghost before = filled;
                            filled.insert(vars[k].clone(), Binding::Null);
                            proof {
                                lemma_env_insert(filled, before, vars@[k as int]@, BindView::Null);
                                lemma_env_valid_insert(*st, env_of(before), vars@[k as int]@, BindView::Null);
                            }
                        }
                        k = k + 1;
                    }
                    proof {
                        assert(vs.take(k as int) =~= vs);
                    }
                    let ghost fe = env_of(filled);
                    out.push(filled);
                    proof {
                        assert(envs(out@) =~= start + seq![fe]);
                    }
                } else {
                    let mut rest = expanded;
                    let ghost all = rest@;
                    let mut pending: Vec<Bindings> = Vec::new();
                    while rest.len() > 0
                        invariant
                            pending@.len() + rest@.len() == all.len(),
                            rest@ == all.take(rest@.len() as int),
                            forall|kk: int| 0 <= kk < pending@.len() ==> #[trigger] pending@[kk] == all[all.len() - 1 - kk],
                        decreases rest@.len(),
                    {
                        let x = rest.pop().unwrap();
                        pending.push(x);
                        proof {
                            assert(rest@ =~= all.take(rest@.len() as int));
                        }
                    }
                    while pending.len() > 0
                        invariant
                            table_ok(*st, all),
                            pending@.len() <= all.len(),
                            forall|kk: int| 0 <= kk < pending@.len() ==> #[trigger] pending@[kk] == all[all.len() - 1 - kk],
                            out@.len() == start.len() + (all.len() - pending@.len()),
                            table_ok(*st, out@),
                            envs(out@) == start + envs(all).take(all.len() - pending@.len()),
                        decreases pending@.len(),
                    {
                        let ghost n: int = all.len() - pending@.len();
                        let x = pending.pop().unwrap();
                        proof {
                            assert(x == all[n]);
                        }
                        let ghost before = envs(out@);
                        let ghost xe = env_of(x);
                        out.push(x);
                        proof {
                            assert(envs(out@) =~= before.push(xe));
                            assert(envs(all).take(n + 1) =~= envs(all).take(n).push(env_of(all[n])));
                            assert(envs(out@) =~= start + envs(all).take(n + 1));
                        }
                    }
                    proof {
                        assert(envs(all).take(all.len() as int) =~= envs(all));
                    }
                }
                t = t + 1;
            }
            proof {
                assert(tab.take(t as int) =~= tab);
            }
            out
        },
    }
}

/// The rows a sequence of clauses makes of a table, clause by clause.
pub open spec fn patterns_rows(st: KeyspaceState, params: Params, table: Seq<Env>, ps: Seq<Pattern>, wc: Option<Predicate>) -> Seq<Env>
    decreases ps.len(),
{
    if ps.len() == 0 {
        table
    } else {
        pattern_rows(st, params, patterns_rows(st, params, table, ps.drop_last(), wc), ps.last(), wc)
    }
}

} // verus!
