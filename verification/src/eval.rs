//! Query evaluation: `WHERE` predicates and the pipeline `MATCH` →
//! `WHERE` → `WITH` → `RETURN`.
use vstd::prelude::*;

use crate::clause::{apply_return, envs, project_with, return_rows, row_maps, row_ok, rows_wf, table_ok, with_projected, RowMap};
use crate::explain::ExplainRow;
use crate::expr::{eval_expr, eval_expr_list, expr_val, list_val, regex_holds, regex_match_text};
use crate::fact::{PropValue, PropView, Warning, WarningKind};
use crate::graph::KeyspaceState;
use crate::lookup::{opt_pred, Params};
use crate::pattern::{apply_pattern, is_no_rows_warning, patterns_rows};
use crate::query::{CompareOp, Predicate, Query};
use crate::sorted::SortedMap;
use crate::value::{compare_holds, compare_propvalues, env_of, pvs, value_eq, values_equal, BindView, Bindings, Env, Row};

verus! {

/// Whether a value is equal to an item of a list (false when either is
/// missing).
pub open spec fn in_holds(v: Option<PropView>, items: Option<Seq<PropView>>) -> bool {
    match (v, items) {
        (Some(x), Some(s)) => has_equal(s, x),
        _ => false,
    }
}

/// Whether some item of `s` equals `x`.
pub open spec fn has_equal(s: Seq<PropView>, x: PropView) -> bool {
    exists|i: int| 0 <= i < s.len() && value_eq(#[trigger] s[i], x)
}

/// Whether predicate `p` holds of a row. A comparison needs both sides to
/// have comparable values; `IN` needs the value equal to a list item;
/// `=~` needs two strings, the pattern matching the text; `NOT EXISTS`
/// holds when its subquery yields no row.
pub open spec fn pred_holds(st: KeyspaceState, params: Params, env: Env, p: Predicate) -> bool
    decreases p, 0nat,
{
    match p {
        Predicate::Compare { left, op, right } => compare_holds(op, expr_val(st, params, env, left), expr_val(st, params, env, right)),
        Predicate::Ne { left, right } => compare_holds(CompareOp::Ne, expr_val(st, params, env, left), expr_val(st, params, env, right)),
        Predicate::In { left, right } => in_holds(expr_val(st, params, env, left), list_val(st, params, env, right)),
        Predicate::Regex { left, pattern } => match (expr_val(st, params, env, left), expr_val(st, params, env, pattern)) {
            (Some(PropView::Str(s)), Some(PropView::Str(pt))) => regex_holds(pt, s),
            _ => false,
        },
        Predicate::NotExists { inner } => query_rows(st, params, *inner).len() == 0,
        Predicate::And(a, b) => pred_holds(st, params, env, *a) && pred_holds(st, params, env, *b),
        Predicate::Or(a, b) => pred_holds(st, params, env, *a) || pred_holds(st, params, env, *b),
        Predicate::Not(inner) => !pred_holds(st, params, env, *inner),
    }
}

/// The rows of a table `p` holds of, in order.
pub open spec fn filter_rows(st: KeyspaceState, params: Params, table: Seq<Env>, p: Predicate) -> Seq<Env>
    decreases p, table.len(),
{
    if table.len() == 0 {
        Seq::empty()
    } else {
        let r = filter_rows(st, params, table.drop_last(), p);
        if pred_holds(st, params, table.last(), p) {
            r.push(table.last())
        } else {
            r
        }
    }
}

/// `WHERE p` keeps exactly the rows `p` holds of: a row is in the result
/// if and only if it is a row of the table and `p` holds of it; the result
/// is never longer than the table.
pub proof fn lemma_where_keeps_matching_rows(st: KeyspaceState, params: Params, table: Seq<Env>, p: Predicate, row: Env)
    ensures
        filter_rows(st, params, table, p).contains(row) <==> (table.contains(row) && pred_holds(st, params, row, p)),
        filter_rows(st, params, table, p).len() <= table.len(),
    decreases table.len(),
{
    if table.len() > 0 {
        let rest = table.drop_last();
        let x = table.last();
        lemma_where_keeps_matching_rows(st, params, rest, p, row);
        assert(table =~= rest.push(x));
        let r = filter_rows(st, params, rest, p);
        assert(table.contains(row) <==> (rest.contains(row) || row == x)) by {
            if table.contains(row) {
                let i = choose|i: int| 0 <= i < table.len() && table[i] == row;
                if i < rest.len() {
                    assert(rest[i] == row);
                }
            }
            if rest.contains(row) {
                let i = choose|i: int| 0 <= i < rest.len() && rest[i] == row;
                assert(table[i] == row);
            }
            if row == x {
                assert(table[table.len() - 1] == row);
            }
        }
        if pred_holds(st, params, x, p) {
            assert(r.push(x).contains(row) <==> (r.contains(row) || row == x)) by {
                if r.push(x).contains(row) {
                    let i = choose|i: int| 0 <= i < r.push(x).len() && r.push(x)[i] == row;
                    if i < r.len() {
                        assert(r[i] == row);
                    }
                }
                if r.contains(row) {
                    let i = choose|i: int| 0 <= i < r.len() && r[i] == row;
                    assert(r.push(x)[i] == row);
                }
                if row == x {
                    assert(r.push(x)[r.len() as int] == row);
                }
            }
        }
    }
}

/// `WHERE a AND b` keeps the same rows, in the same order, as filtering
/// by `a` and then by `b`.
pub proof fn lemma_where_and_is_successive(st: KeyspaceState, params: Params, table: Seq<Env>, a: Predicate, b: Predicate)
    ensures
        filter_rows(st, params, table, Predicate::And(Box::new(a), Box::new(b)))
            == filter_rows(st, params, filter_rows(st, params, table, a), b),
    decreases table.len(),
{
    if table.len() > 0 {
        let rest = table.drop_last();
        let x = table.last();
        lemma_where_and_is_successive(st, params, rest, a, b);
        let fa = filter_rows(st, params, rest, a);
        let ab = Predicate::And(Box::new(a), Box::new(b));
        assert(pred_holds(st, params, x, ab) == (pred_holds(st, params, x, a) && pred_holds(st, params, x, b)));
        if pred_holds(st, params, x, a) {
            assert(filter_rows(st, params, table, a) == fa.push(x));
            assert(fa.push(x).drop_last() =~= fa);
            assert(fa.push(x).last() == x);
            assert(filter_rows(st, params, fa.push(x), b) == if pred_holds(st, params, x, b) {
                filter_rows(st, params, fa, b).push(x)
            } else {
                filter_rows(st, params, fa, b)
            });
        } else {
            assert(filter_rows(st, params, table, a) == fa);
        }
    }
}

/// The rows a query yields: from one empty row, each `MATCH` clause in
/// turn (the `WHERE` clause narrowing candidates), then the `WHERE`
/// filter, then `WITH` and its filter, then `RETURN`.
pub open spec fn query_rows(st: KeyspaceState, params: Params, q: Query) -> Seq<RowMap>
    decreases q, 0nat,
{
    let t0 = patterns_rows(st, params, seq![Map::empty()], q.match_clauses@, q.where_clause);
    let t1 = match q.where_clause {
        Some(p) => filter_rows(st, params, t0, p),
        None => t0,
    };
    let t2 = match q.with_clause {
        Some(w) => {
            let g = with_projected(st, params, t1, w.projections@);
            match w.where_clause {
                Some(p) => filter_rows(st, params, g, p),
                None => g,
            }
        },
        None => t1,
    };
    return_rows(st, params, t2, q.return_clause)
}

/// What a query yields: its rows, its diagnostics, and how each node
/// pattern's candidates were found.
pub struct QueryResult {
    pub rows: Vec<Row>,
    pub warnings: Vec<Warning>,
    pub explain: Vec<ExplainRow>,
}

/// The message of the warning for a query that matched nothing.
pub open spec fn empty_result_message() -> Seq<char> {
    "query matched no rows"@
}

/// Whether a warning is about an unknown node or edge label.
pub open spec fn names_unknown_label(w: Warning) -> bool {
    w.kind == WarningKind::UnknownLabel || w.kind == WarningKind::UnknownEdgeLabel
}

/// Whether predicate `p` holds of row `b`.
pub fn eval_predicate(st: &KeyspaceState, params: &Params, b: &Bindings, p: &Predicate) -> (r: bool)
    requires
        st.wf(),
        params.wf(),
        row_ok(*st, *b),
    ensures
        r == pred_holds(*st, *params, env_of(*b), *p),
    decreases p, 0nat,
{
    match p {
        Predicate::Compare { left, op, right } => {
            let lv = eval_expr(st, params, b, left);
            let rv = eval_expr(st, params, b, right);
            compare_propvalues(*op, lv.as_ref(), rv.as_ref())
        },
        Predicate::Ne { left, right } => {
            let lv = eval_expr(st, params, b, left);
            let rv = eval_expr(st, params, b, right);
            compare_propvalues(CompareOp::Ne, lv.as_ref(), rv.as_ref())
        },
        Predicate::In { left, right } => {
            let lv = eval_expr(st, params, b, left);
            let list = eval_expr_list(st, params, b, right);
            match (lv, list) {
                (Some(v), Some(items)) => {
                    let ghost iv = pvs(items@);
                    let mut i: usize = 0;
                    while i < items.len()
                        invariant
                            i <= items@.len(),
                            iv == pvs(items@),
                            iv.len() == items@.len(),
                            expr_val(*st, *params, env_of(*b), *left) == Some(v.pv()),
                            list_val(*st, *params, env_of(*b), *right) == Some(iv),
                            *p == (Predicate::In { left: *left, right: *right }),
                            forall|k: int| 0 <= k < i ==> !value_eq(#[trigger] iv[k], v.pv()),
                        decreases items@.len() - i,
                    {
                        if values_equal(&items[i], &v) {
                            proof {
                                assert(value_eq(iv[i as int], v.pv()));
                                let j: int = i as int;
                                assert(0 <= j < iv.len() && value_eq(iv[j], v.pv()));
                                assert(has_equal(iv, v.pv()));
                            }
                            return true;
                        }
                        i = i + 1;
                    }
                    false
                },
                _ => false,
            }
        },
        Predicate::Regex { left, pattern } => {
            let lv = eval_expr(st, params, b, left);
            let pv = eval_expr(st, params, b, pattern);
            match (lv, pv) {
                (Some(PropValue::Str(s)), Some(PropValue::Str(pt))) => regex_match_text(pt.as_str(), s.as_str()),
                _ => false,
            }
        },
        Predicate::NotExists { inner } => {
            let sub = run_query(st, params, inner);
            proof {
                assert(row_maps(sub.rows@).len() == sub.rows@.len());
            }
            sub.rows.len() == 0
        },
        Predicate::And(a, c) => eval_predicate(st, params, b, a) && eval_predicate(st, params, b, c),
        Predicate::Or(a, c) => eval_predicate(st, params, b, a) || eval_predicate(st, params, b, c),
        Predicate::Not(inner) => !eval_predicate(st, params, b, inner),
    }
}

/// The rows of `table` that `p` holds of, in order.
pub fn filter_table(st: &KeyspaceState, params: &Params, table: Vec<Bindings>, p: &Predicate) -> (r: Vec<Bindings>)
    requires
        st.wf(),
        params.wf(),
        table_ok(*st, table@),
    ensures
        table_ok(*st, r@),
        envs(r@) == filter_rows(*st, *params, envs(table@), *p),
    decreases p, 1nat,
{
    let ghost all = table@;
    let ghost tab = envs(all);
    let mut rest = table;
    let mut pending: Vec<Bindings> = Vec::new();
    while rest.len() > 0
        invariant
            pending@.len() + rest@.len() == all.len(),
            rest@ == all.take(rest@.len() as int),
            forall|k: int| 0 <= k < pending@.len() ==> #[trigger] pending@[k] == all[all.len() - 1 - k],
        decreases rest@.len(),
    {
        let x = rest.pop().unwrap();
        pending.push(x);
        proof {
            assert(rest@ =~= all.take(rest@.len() as int));
        }
    }
    let mut out: Vec<Bindings> = Vec::new();
    proof {
        assert(tab.take(0) =~= Seq::<Env>::empty());
    }
    while pending.len() > 0
        invariant
            st.wf(),
            params.wf(),
            table_ok(*st, all),
            tab == envs(all),
            pending@.len() <= all.len(),
            forall|k: int| 0 <= k < pending@.len() ==> #[trigger] pending@[k] == all[all.len() - 1 - k],
            table_ok(*st, out@),
            envs(out@) == filter_rows(*st, *params, tab.take(all.len() - pending@.len()), *p),
        decreases pending@.len(),
    {
        let ghost n: int = all.len() - pending@.len();
        let x = pending.pop().unwrap();
        proof {
            assert(x == all[n]);
            assert(tab.take(n + 1).drop_last() =~= tab.take(n));
            assert(tab.take(n + 1).last() == env_of(x));
            assert(row_ok(*st, x));
        }
        if eval_predicate(st, params, &x, p) {
            let ghost before = envs(out@);
            let ghost xe = env_of(x);
            out.push(x);
            proof {
                assert(envs(out@) =~= before.push(xe));
            }
        }
    }
    proof {
        assert(tab.take(all.len() as int) =~= tab);
    }
    out
}

/// Runs query `q` against the keyspace: its rows (as `query_rows` says),
/// the diagnostics of its patterns, then, when no row came back and no
/// label was unknown, an empty-result warning.
pub fn run_query(st: &KeyspaceState, params: &Params, q: &Query) -> (r: QueryResult)
    requires
        st.wf(),
        params.wf(),
    ensures
        rows_wf(r.rows@),
        row_maps(r.rows@) == query_rows(*st, *params, *q),
        (r.rows@.len() == 0 && forall|k: int| 0 <= k < r.warnings@.len() ==> !names_unknown_label(#[trigger] r.warnings@[k])) ==> {
            &&& r.warnings@.len() > 0
            &&& r.warnings@.last().kind == WarningKind::EmptyResult
            &&& r.warnings@.last().message@ == empty_result_message()
        },
        (r.warnings@.len() > 0 && is_no_rows_warning(r.warnings@.last())) ==> (r.rows@.len() == 0
            && forall|k: int| 0 <= k < r.warnings@.len() ==> !names_unknown_label(#[trigger] r.warnings@[k])),
    decreases q, 0nat,
{
    let mut warnings: Vec<Warning> = Vec::new();
    let mut explain: Vec<ExplainRow> = Vec::new();
    let wc = q.where_clause.as_ref();
    let ghost wcs = opt_pred(wc);
    proof {
        assert(wcs == q.where_clause);
    }
    let mut table: Vec<Bindings> = vec![SortedMap::new()];
    proof {
        assert(env_of(table@[0]) =~= Map::<Seq<char>, BindView>::empty());
        assert(envs(table@) =~= seq![Map::<Seq<char>, BindView>::empty()]);
        assert(table_ok(*st, table@));
    }
    let ghost seed = envs(table@);
    let mut i: usize = 0;
    proof {
        assert(q.match_clauses@.take(0) =~= Seq::empty());
    }
    while i < q.match_clauses.len()
        invariant
            st.wf(),
            params.wf(),
            wcs == opt_pred(wc),
            wcs == q.where_clause,
            i <= q.match_clauses@.len(),
            table_ok(*st, table@),
            envs(table@) == patterns_rows(*st, *params, seed, q.match_clauses@.take(i as int), wcs),
            forall|k: int| 0 <= k < warnings@.len() ==> !is_no_rows_warning(#[trigger] warnings@[k]),
        decreases q.match_clauses@.len() - i,
    {
        proof {
            assert(q.match_clauses@.take(i + 1).drop_last() =~= q.match_clauses@.take(i as int));
            assert(q.match_clauses@.take(i + 1).last() == q.match_clauses@[i as int]);
        }
        let ghost wb = warnings@;
        table = apply_pattern(st, params, &table, &q.match_clauses[i], wc, &mut warnings, &mut explain);
        proof {
            assert forall|k: int| 0 <= k < warnings@.len() implies !is_no_rows_warning(#[trigger] warnings@[k]) by {
                if k < wb.len() {
                    assert(warnings@.take(wb.len() as int)[k] == warnings@[k]);
                }
            }
        }
        i = i + 1;
    }
    proof {
        assert(q.match_clauses@.take(i as int) =~= q.match_clauses@);
    }
    let table = match &q.where_clause {
        Some(p) => filter_table(st, params, table, p),
        None => table,
    };
    let table = match &q.with_clause {
        Some(w) => {
            let g = project_with(st, params, &table, &w.projections);
            match &w.where_clause {
                Some(p) => filter_table(st, params, g, p),
                None => g,
            }
        },
        None => table,
    };
    let rows = apply_return(st, params, &table, &q.return_clause);
    let mut unknown = false;
    let mut k: usize = 0;
    while k < warnings.len()
        invariant
            k <= warnings@.len(),
            forall|k: int| 0 <= k < warnings@.len() ==> !is_no_rows_warning(#[trigger] warnings@[k]),
            unknown == exists|j: int| 0 <= j < k && names_unknown_label(#[trigger] warnings@[j]),
        decreases warnings@.len() - k,
    {
        match warnings[k].kind {
            WarningKind::UnknownLabel => {
                unknown = true;
            },
            WarningKind::UnknownEdgeLabel => {
                unknown = true;
            },
            _ => {},
        }
        k = k + 1;
    }
    if rows.len() == 0 && !unknown {
        let ghost w0 = warnings@;
        warnings.push(Warning { kind: WarningKind::EmptyResult, message: "query matched no rows".to_owned(), suggestion: None });
        proof {
            reveal_strlit("query matched no rows");
            assert forall|j: int| 0 <= j < warnings@.len() implies !names_unknown_label(#[trigger] warnings@[j]) by {
                if j < w0.len() {
                    assert(warnings@[j] == w0[j]);
                }
            }
        }
    } else {
        proof {
            if rows@.len() == 0 {
                let j = choose|j: int| 0 <= j < k && names_unknown_label(#[trigger] warnings@[j]);
                assert(names_unknown_label(warnings@[j]));
            }
            if warnings@.len() > 0 {
                assert(!is_no_rows_warning(warnings@[warnings@.len() - 1]));
            }
        }
    }
    QueryResult { rows, warnings, explain }
}

} // verus!
