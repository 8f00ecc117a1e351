//! Projection: column names, result rows, grouping and aggregation.
use vstd::prelude::*;

use crate::dump::join_with;
use crate::expr::{env_valid, eval_expr, expr_val};
use crate::fact::{PropValue, PropView};
use crate::graph::KeyspaceState;
use crate::lookup::Params;
use crate::order::{lemma_lex_asymmetric, lemma_lex_irreflexive, lemma_lex_total, lemma_lex_transitive, lemma_sorted_unique, lex_lt, sorted_by, strict_total_on};
use crate::query::{Aggregation, Expr, Projection, ProjectionValue, ReturnClause};
use crate::sorted::{Keyed, SortedMap};
use crate::text::{push_str, str_eq};
use crate::order::Cmp;
use crate::value::{row_sort_key, row_value_compare, row_value_order, env_of, pvs, push_value_key, value_key, value_keys, value_sort_key, BindView, Binding, Bindings, Env, Row, RowValue, RowView, row_view};

verus! {

// ---------------------------------------------------------------------
// Column names
// ---------------------------------------------------------------------

/// The column name of an unaliased expression.
pub open spec fn alias_of_expr(e: Expr) -> Seq<char> {
    match e {
        Expr::Property { var, prop } => var@ + "."@ + prop@,
        Expr::Var(v) => v@,
        Expr::Literal(_) => "literal"@,
        Expr::Param(p) => "$"@ + p@,
        Expr::List(_) => "list"@,
        Expr::Call { name, .. } => name@,
    }
}

/// The column name of an unaliased aggregation.
pub open spec fn alias_of_aggregation(a: Aggregation) -> Seq<char> {
    match a {
        Aggregation::CountStar => "count"@,
        Aggregation::Count(_) => "count"@,
        Aggregation::CountDistinct(_) => "count_distinct"@,
        Aggregation::Collect(_) => "collect"@,
        Aggregation::CollectDistinct(_) => "collect_distinct"@,
        Aggregation::Size(_) => "size"@,
    }
}

/// The column name of a projection: its alias, else the name of what it
/// projects.
pub open spec fn alias_of_projection(p: Projection) -> Seq<char> {
    match p.alias {
        Some(a) => a@,
        None => match p.value {
            ProjectionValue::Expr(e) => alias_of_expr(e),
            ProjectionValue::Aggregation(a) => alias_of_aggregation(a),
        },
    }
}

/// The column name of an unaliased expression.
pub fn expr_alias(e: &Expr) -> (r: String)
    ensures
        r@ == alias_of_expr(*e),
{
    proof {
        reveal_strlit(".");
        reveal_strlit("literal");
        reveal_strlit("$");
        reveal_strlit("list");
    }
    match e {
        Expr::Property { var, prop } => {
            let mut out = var.clone();
            push_str(&mut out, ".");
            push_str(&mut out, prop.as_str());
            out
        },
        Expr::Var(v) => v.clone(),
        Expr::Literal(_) => "literal".to_owned(),
        Expr::Param(p) => {
            let mut out = "$".to_owned();
            push_str(&mut out, p.as_str());
            out
        },
        Expr::List(_) => "list".to_owned(),
        Expr::Call { name, .. } => name.clone(),
    }
}

/// The column name of an unaliased aggregation.
pub fn aggregation_alias(a: &Aggregation) -> (r: String)
    ensures
        r@ == alias_of_aggregation(*a),
{
    match a {
        Aggregation::CountStar => "count".to_owned(),
        Aggregation::Count(_) => "count".to_owned(),
        Aggregation::CountDistinct(_) => "count_distinct".to_owned(),
        Aggregation::Collect(_) => "collect".to_owned(),
        Aggregation::CollectDistinct(_) => "collect_distinct".to_owned(),
        Aggregation::Size(_) => "size".to_owned(),
    }
}

/// The column name of a projection.
pub fn projection_alias(p: &Projection) -> (r: String)
    ensures
        r@ == alias_of_projection(*p),
{
    match &p.alias {
        Some(a) => a.clone(),
        None => match &p.value {
            ProjectionValue::Expr(e) => expr_alias(e),
            ProjectionValue::Aggregation(a) => aggregation_alias(a),
        },
    }
}

// ---------------------------------------------------------------------
// Rows as maps, and their entries in name order
// ---------------------------------------------------------------------

/// The abstract content of a result row, by column name.
pub type RowMap = Map<Seq<char>, RowView>;

/// The abstract content of `r`.
pub open spec fn row_map(r: Row) -> RowMap {
    Map::new(|k: Seq<char>| r.has(k), |k: Seq<char>| r.lookup(k).unwrap().rv())
}

/// Entries ordered by name.
pub open spec fn by_name<V>(s: Seq<(Seq<char>, V)>) -> bool {
    sorted_by(s, |a: (Seq<char>, V), b: (Seq<char>, V)| lex_lt(a.0, b.0))
}

/// `s` holds exactly the entries of `m`.
pub open spec fn holds_entries<V>(s: Seq<(Seq<char>, V)>, m: Map<Seq<char>, V>) -> bool {
    forall|e: (Seq<char>, V)| #[trigger] s.contains(e) <==> (m.contains_key(e.0) && m[e.0] == e.1)
}

/// The entries of a map in name order.
pub open spec fn sorted_entries<V>(m: Map<Seq<char>, V>) -> Seq<(Seq<char>, V)> {
    choose|s: Seq<(Seq<char>, V)>| by_name(s) && holds_entries(s, m)
}

/// Any name-ordered sequence of exactly a map's entries is its
/// `sorted_entries`.
pub proof fn lemma_sorted_entries<V>(s: Seq<(Seq<char>, V)>, m: Map<Seq<char>, V>)
    requires
        by_name(s),
        holds_entries(s, m),
    ensures
        sorted_entries(m) == s,
{
    let t = sorted_entries(m);
    assert(by_name(t) && holds_entries(t, m));
    let lt = |a: (Seq<char>, V), b: (Seq<char>, V)| lex_lt(a.0, b.0);
    assert(strict_total_on(s, lt)) by {
        assert forall|x: (Seq<char>, V)| #[trigger] s.contains(x) implies !lt(x, x) by {
            lemma_lex_irreflexive(x.0);
        }
        assert forall|x: (Seq<char>, V), y: (Seq<char>, V)| s.contains(x) && s.contains(y) && #[trigger] lt(x, y)
            implies !lt(y, x) by {
            lemma_lex_asymmetric(x.0, y.0);
        }
        assert forall|x: (Seq<char>, V), y: (Seq<char>, V)| #[trigger] s.contains(x) && #[trigger] s.contains(y)
            implies lt(x, y) || lt(y, x) || x == y by {
            lemma_lex_total(x.0, y.0);
        }
    }
    assert forall|x: (Seq<char>, V)| s.contains(x) <==> t.contains(x) by {
    }
    lemma_sorted_unique(s, t, lt);
}

/// A well-formed row's entries are its map's entries in name order.
pub proof fn lemma_row_entries(r: Row)
    requires
        r.wf(),
    ensures
        row_view(r) == sorted_entries(row_map(r)),
{
    let s = row_view(r);
    let m = row_map(r);
    assert(by_name(s)) by {
        assert forall|a: int, b: int| 0 <= a < b < s.len() implies #[trigger] lex_lt(s[a].0, s[b].0) by {
            assert(String::key_lt(r.entries@[a].0.kv(), r.entries@[b].0.kv()));
        }
    }
    assert(holds_entries(s, m)) by {
        assert forall|e: (Seq<char>, RowView)| #[trigger] s.contains(e) <==> (m.contains_key(e.0) && m[e.0] == e.1) by {
            if s.contains(e) {
                let i = choose|i: int| 0 <= i < s.len() && s[i] == e;
                r.lemma_lookup_at(i);
            }
            if m.contains_key(e.0) && m[e.0] == e.1 {
                let i = choose|i: int| 0 <= i < r.entries@.len() && #[trigger] r.entries@[i].0.kv() == e.0;
                r.lemma_lookup_at(i);
                assert(s[i] == e);
            }
        }
    }
    lemma_sorted_entries(s, m);
}

/// The sort text of a row given as a map.
pub open spec fn map_row_key(m: RowMap) -> Seq<char> {
    crate::value::row_key(sorted_entries(m))
}

// ---------------------------------------------------------------------
// Projection without aggregation
// ---------------------------------------------------------------------

/// A present value as a scalar, a missing one as null.
pub open spec fn scalar_or_null(v: Option<PropView>) -> RowView {
    match v {
        Some(p) => RowView::Scalar(p),
        None => RowView::Scalar(PropView::Null),
    }
}

/// What `RETURN e` yields for one row: a bare variable bound to a list
/// yields the list; anything else its value, or null.
pub open spec fn returned_value(st: KeyspaceState, params: Params, env: Env, e: Expr) -> RowView {
    match e {
        Expr::Var(name) => if env.contains_key(name@) && env[name@] is Val && env[name@]->Val_0 is List {
            env[name@]->Val_0
        } else {
            scalar_or_null(expr_val(st, params, env, e))
        },
        _ => scalar_or_null(expr_val(st, params, env, e)),
    }
}

/// The result row `RETURN projs` makes of one row (no aggregation): each
/// expression under its column name, a later column replacing an earlier
/// one of the same name.
pub open spec fn returned_row(st: KeyspaceState, params: Params, env: Env, projs: Seq<Projection>) -> RowMap
    decreases projs.len(),
{
    if projs.len() == 0 {
        Map::empty()
    } else {
        let m = returned_row(st, params, env, projs.drop_last());
        match projs.last().value {
            ProjectionValue::Expr(e) => m.insert(alias_of_projection(projs.last()), returned_value(st, params, env, e)),
            ProjectionValue::Aggregation(_) => m,
        }
    }
}

/// The row of bindings `WITH projs` makes of one row (no aggregation):
/// each expression's value under its column name, or null.
pub open spec fn with_row(st: KeyspaceState, params: Params, env: Env, projs: Seq<Projection>) -> Env
    decreases projs.len(),
{
    if projs.len() == 0 {
        Map::empty()
    } else {
        let m = with_row(st, params, env, projs.drop_last());
        match projs.last().value {
            ProjectionValue::Expr(e) => m.insert(
                alias_of_projection(projs.last()),
                match expr_val(st, params, env, e) {
                    Some(v) => BindView::Val(RowView::Scalar(v)),
                    None => BindView::Null,
                },
            ),
            ProjectionValue::Aggregation(_) => m,
        }
    }
}

pub proof fn lemma_env_insert(b: Bindings, old_b: Bindings, k: Seq<char>, v: BindView)
    requires
        forall|q: Seq<char>| q != k ==> #[trigger] b.has(q) == old_b.has(q) && b.lookup(q) == old_b.lookup(q),
        b.has(k),
        b.lookup(k).unwrap().bv() == v,
    ensures
        env_of(b) == env_of(old_b).insert(k, v),
{
    assert(env_of(b) =~= env_of(old_b).insert(k, v));
}

proof fn lemma_row_insert(r: Row, old_r: Row, k: Seq<char>, v: RowView)
    requires
        forall|q: Seq<char>| q != k ==> #[trigger] r.has(q) == old_r.has(q) && r.lookup(q) == old_r.lookup(q),
        r.has(k),
        r.lookup(k).unwrap().rv() == v,
    ensures
        row_map(r) == row_map(old_r).insert(k, v),
{
    assert(row_map(r) =~= row_map(old_r).insert(k, v));
}

/// Whether a row and all the nodes and edges it refers to are well formed.
pub open spec fn row_ok(st: KeyspaceState, b: Bindings) -> bool {
    b.wf() && env_valid(st, env_of(b))
}

/// What `RETURN e` yields for row `b`.
pub fn return_value(st: &KeyspaceState, params: &Params, b: &Bindings, e: &Expr) -> (r: RowValue)
    requires
        st.wf(),
        params.wf(),
        row_ok(*st, *b),
    ensures
        r.rv() == returned_value(*st, *params, env_of(*b), *e),
{
    match e {
        Expr::Var(name) => {
            match b.get(name) {
                Some(Binding::Value(RowValue::List(items))) => {
                    return RowValue::List(crate::value::duplicate_values(items));
                },
                _ => {},
            }
        },
        _ => {},
    }
    match eval_expr(st, params, b, e) {
        Some(v) => RowValue::Scalar(v),
        None => RowValue::Scalar(PropValue::Null),
    }
}

/// The result row `RETURN projs` makes of row `b`.
pub fn return_row(st: &KeyspaceState, params: &Params, b: &Bindings, projs: &Vec<Projection>) -> (r: Row)
    requires
        st.wf(),
        params.wf(),
        row_ok(*st, *b),
    ensures
        r.wf(),
        row_map(r) == returned_row(*st, *params, env_of(*b), projs@),
{
    let mut row: Row = SortedMap::new();
    let mut i: usize = 0;
    proof {
        assert(row_map(row) =~= returned_row(*st, *params, env_of(*b), projs@.take(0)));
    }
    while i < projs.len()
        invariant
            st.wf(),
            params.wf(),
            row_ok(*st, *b),
            i <= projs@.len(),
            row.wf(),
            row_map(row) == returned_row(*st, *params, env_of(*b), projs@.take(i as int)),
        decreases projs@.len() - i,
    {
        let p = &projs[i];
        proof {
            assert(projs@.take(i + 1).drop_last() =~= projs@.take(i as int));
            assert(projs@.take(i + 1).last() == projs@[i as int]);
        }
        match &p.value {
            ProjectionValue::Expr(e) => {
                let alias = projection_alias(p);
                let v = return_value(st, params, b, e);
                let ghost before = row;
                let ghost k = alias@;
                let ghost vv = v.rv();
                row.insert(alias, v);
                proof {
                    lemma_row_insert(row, before, k, vv);
                }
            },
            ProjectionValue::Aggregation(_) => {},
        }
        i = i + 1;
    }
    proof {
        assert(projs@.take(i as int) =~= projs@);
    }
    row
}

/// The row of bindings `WITH projs` makes of row `b`.
pub fn project_with_row(st: &KeyspaceState, params: &Params, b: &Bindings, projs: &Vec<Projection>) -> (r: Bindings)
    requires
        st.wf(),
        params.wf(),
        row_ok(*st, *b),
    ensures
        r.wf(),
        env_of(r) == with_row(*st, *params, env_of(*b), projs@),
{
    let mut row: Bindings = SortedMap::new();
    let mut i: usize = 0;
    proof {
        assert(env_of(row) =~= with_row(*st, *params, env_of(*b), projs@.take(0)));
    }
    while i < projs.len()
        invariant
            st.wf(),
            params.wf(),
            row_ok(*st, *b),
            i <= projs@.len(),
            row.wf(),
            env_of(row) == with_row(*st, *params, env_of(*b), projs@.take(i as int)),
        decreases projs@.len() - i,
    {
        let p = &projs[i];
        proof {
            assert(projs@.take(i + 1).drop_last() =~= projs@.take(i as int));
            assert(projs@.take(i + 1).last() == projs@[i as int]);
        }
        match &p.value {
            ProjectionValue::Expr(e) => {
                let alias = projection_alias(p);
                let v = match eval_expr(st, params, b, e) {
                    Some(v) => Binding::Value(RowValue::Scalar(v)),
                    None => Binding::Null,
                };
                let ghost before = row;
                let ghost k = alias@;
                let ghost vv = v.bv();
                row.insert(alias, v);
                proof {
                    lemma_env_insert(row, before, k, vv);
                }
            },
            ProjectionValue::Aggregation(_) => {},
        }
        i = i + 1;
    }
    proof {
        assert(projs@.take(i as int) =~= projs@);
    }
    row
}

// ---------------------------------------------------------------------
// Grouping and aggregation
// ---------------------------------------------------------------------

/// The projections that are expressions (the grouping keys), in order.
pub open spec fn key_projections(projs: Seq<Projection>) -> Seq<Projection>
    decreases projs.len(),
{
    if projs.len() == 0 {
        Seq::empty()
    } else {
        let r = key_projections(projs.drop_last());
        if projs.last().value is Expr {
            r.push(projs.last())
        } else {
            r
        }
    }
}

/// The projections that are aggregations, in order.
pub open spec fn agg_projections(projs: Seq<Projection>) -> Seq<Projection>
    decreases projs.len(),
{
    if projs.len() == 0 {
        Seq::empty()
    } else {
        let r = agg_projections(projs.drop_last());
        if projs.last().value is Aggregation {
            r.push(projs.last())
        } else {
            r
        }
    }
}

/// The value of a grouping key for one row (null if it has none).
pub open spec fn key_value(st: KeyspaceState, params: Params, env: Env, p: Projection) -> PropView {
    match p.value {
        ProjectionValue::Expr(e) => match expr_val(st, params, env, e) {
            Some(v) => v,
            None => PropView::Null,
        },
        _ => PropView::Null,
    }
}

/// The grouping-key values of one row.
pub open spec fn key_values(st: KeyspaceState, params: Params, env: Env, kp: Seq<Projection>) -> Seq<PropView> {
    Seq::new(kp.len(), |i: int| key_value(st, params, env, kp[i]))
}

/// The text a row is grouped by: its key values' sort texts joined by the
/// unit separator.
pub open spec fn group_key(st: KeyspaceState, params: Params, env: Env, kp: Seq<Projection>) -> Seq<char> {
    join_with(value_keys(key_values(st, params, env, kp)), seq!['\u{1f}'])
}

/// The group texts of all rows.
pub open spec fn group_keys(st: KeyspaceState, params: Params, rows: Seq<Env>, kp: Seq<Projection>) -> Seq<Seq<char>> {
    Seq::new(rows.len(), |i: int| group_key(st, params, rows[i], kp))
}

/// The distinct texts in order of first appearance.
pub open spec fn first_appearances(keys: Seq<Seq<char>>) -> Seq<Seq<char>>
    decreases keys.len(),
{
    if keys.len() == 0 {
        Seq::empty()
    } else {
        let r = first_appearances(keys.drop_last());
        if r.contains(keys.last()) {
            r
        } else {
            r.push(keys.last())
        }
    }
}

/// The rows whose text (in `keys`, position for position) is `k`, in
/// order.
pub open spec fn rows_with_key(rows: Seq<Env>, keys: Seq<Seq<char>>, k: Seq<char>) -> Seq<Env>
    decreases rows.len(),
{
    if rows.len() == 0 || keys.len() == 0 {
        Seq::empty()
    } else {
        let r = rows_with_key(rows.drop_last(), keys.drop_last(), k);
        if keys.last() == k {
            r.push(rows.last())
        } else {
            r
        }
    }
}

/// How many rows give `e` a value that is not null.
pub open spec fn count_present(st: KeyspaceState, params: Params, rows: Seq<Env>, e: Expr) -> nat
    decreases rows.len(),
{
    if rows.len() == 0 {
        0
    } else {
        count_present(st, params, rows.drop_last(), e) + match expr_val(st, params, rows.last(), e) {
            Some(v) => if v is Null { 0nat } else { 1nat },
            None => 0nat,
        }
    }
}

/// The values `e` takes over the rows, where it has one, in order.
pub open spec fn present_values(st: KeyspaceState, params: Params, rows: Seq<Env>, e: Expr) -> Seq<PropView>
    decreases rows.len(),
{
    if rows.len() == 0 {
        Seq::empty()
    } else {
        let r = present_values(st, params, rows.drop_last(), e);
        match expr_val(st, params, rows.last(), e) {
            Some(v) => r.push(v),
            None => r,
        }
    }
}

/// The non-null values `e` takes over the rows, in order.
pub open spec fn nonnull_values(st: KeyspaceState, params: Params, rows: Seq<Env>, e: Expr) -> Seq<PropView>
    decreases rows.len(),
{
    if rows.len() == 0 {
        Seq::empty()
    } else {
        let r = nonnull_values(st, params, rows.drop_last(), e);
        match expr_val(st, params, rows.last(), e) {
            Some(v) => if v is Null { r } else { r.push(v) },
            None => r,
        }
    }
}

/// The first value of each sort text, by sort text.
pub open spec fn first_by_key(vals: Seq<PropView>) -> Map<Seq<char>, PropView>
    decreases vals.len(),
{
    if vals.len() == 0 {
        Map::empty()
    } else {
        let m = first_by_key(vals.drop_last());
        let k = value_key(vals.last());
        if m.contains_key(k) {
            m
        } else {
            m.insert(k, vals.last())
        }
    }
}

/// The value of an aggregation over a group of rows.
pub open spec fn agg_value(st: KeyspaceState, params: Params, rows: Seq<Env>, a: Aggregation) -> RowView {
    match a {
        Aggregation::CountStar => RowView::Scalar(PropView::Int(rows.len() as i64)),
        Aggregation::Count(e) => RowView::Scalar(PropView::Int(count_present(st, params, rows, e) as i64)),
        Aggregation::CountDistinct(e) => RowView::Scalar(
            PropView::Int(first_appearances(value_keys(nonnull_values(st, params, rows, e))).len() as i64),
        ),
        Aggregation::Collect(e) => RowView::List(present_values(st, params, rows, e)),
        Aggregation::CollectDistinct(e) => RowView::List(
            sorted_entries(first_by_key(present_values(st, params, rows, e))).map_values(|x: (Seq<char>, PropView)| x.1),
        ),
        Aggregation::Size(e) => if rows.len() > 0 {
            match expr_val(st, params, rows[0], e) {
                Some(PropView::Str(s)) => RowView::Scalar(PropView::Int(s.len() as i64)),
                _ => RowView::Scalar(PropView::Null),
            }
        } else {
            RowView::Scalar(PropView::Null)
        },
    }
}

/// The key columns of a group: each key under its column name.
pub open spec fn with_key_columns(m: Env, kp: Seq<Projection>, kv: Seq<PropView>) -> Env
    decreases kp.len(),
{
    if kp.len() == 0 {
        m
    } else {
        with_key_columns(m, kp.drop_last(), kv).insert(
            alias_of_projection(kp.last()),
            BindView::Val(RowView::Scalar(kv[kp.len() - 1])),
        )
    }
}

/// The aggregate columns of a group: each aggregation under its column
/// name.
pub open spec fn with_agg_columns(st: KeyspaceState, params: Params, m: Env, ap: Seq<Projection>, rows: Seq<Env>) -> Env
    decreases ap.len(),
{
    if ap.len() == 0 {
        m
    } else {
        let m2 = with_agg_columns(st, params, m, ap.drop_last(), rows);
        match ap.last().value {
            ProjectionValue::Aggregation(a) => m2.insert(alias_of_projection(ap.last()), BindView::Val(agg_value(st, params, rows, a))),
            _ => m2,
        }
    }
}

/// The row a group becomes: its key values (read off its first row), then
/// its aggregates.
pub open spec fn group_row(st: KeyspaceState, params: Params, rows: Seq<Env>, kp: Seq<Projection>, ap: Seq<Projection>) -> Env {
    with_agg_columns(st, params, with_key_columns(Map::empty(), kp, key_values(st, params, rows[0], kp)), ap, rows)
}

/// Grouping `rows` by the expression projections and aggregating each
/// group: one row per distinct key, in order of the key's first row.
pub open spec fn grouped_rows(st: KeyspaceState, params: Params, rows: Seq<Env>, projs: Seq<Projection>) -> Seq<Env> {
    let kp = key_projections(projs);
    let ap = agg_projections(projs);
    let keys = group_keys(st, params, rows, kp);
    let order = first_appearances(keys);
    Seq::new(order.len(), |g: int| group_row(st, params, rows_with_key(rows, keys, order[g]), kp, ap))
}

/// The environments of the rows at the given positions.
pub open spec fn envs_at(table: Seq<Bindings>, idx: Seq<usize>) -> Seq<Env> {
    idx.map_values(|j: usize| env_of(table[j as int]))
}

/// The environments of a table's rows.
pub open spec fn envs(table: Seq<Bindings>) -> Seq<Env> {
    table.map_values(|b: Bindings| env_of(b))
}

/// Every row of the table is well formed.
pub open spec fn table_ok(st: KeyspaceState, table: Seq<Bindings>) -> bool {
    forall|i: int| 0 <= i < table.len() ==> row_ok(st, #[trigger] table[i])
}

/// Every position is a row of the table.
pub open spec fn idx_in(idx: Seq<usize>, n: int) -> bool {
    forall|k: int| 0 <= k < idx.len() ==> #[trigger] idx[k] < n
}

proof fn lemma_envs_at_push(table: Seq<Bindings>, idx: Seq<usize>, j: usize)
    ensures
        envs_at(table, idx.push(j)) == envs_at(table, idx).push(env_of(table[j as int])),
{
    assert(envs_at(table, idx.push(j)) =~= envs_at(table, idx).push(env_of(table[j as int])));
}

/// The value of aggregation `a` over the rows of `table` at `members`.
pub fn eval_aggregation(st: &KeyspaceState, params: &Params, table: &Vec<Bindings>, members: &Vec<usize>, a: &Aggregation) -> (r: RowValue)
    requires
        st.wf(),
        params.wf(),
        table_ok(*st, table@),
        idx_in(members@, table@.len() as int),
    ensures
        r.rv() == agg_value(*st, *params, envs_at(table@, members@), *a),
{
    let ghost rows = envs_at(table@, members@);
    match a {
        Aggregation::CountStar => RowValue::Scalar(PropValue::Int(members.len() as i64)),
        Aggregation::Count(e) => {
            let mut n: usize = 0;
            let mut i: usize = 0;
            while i < members.len()
                invariant
                    st.wf(),
                    params.wf(),
                    table_ok(*st, table@),
                    idx_in(members@, table@.len() as int),
                    rows == envs_at(table@, members@),
                    i <= members@.len(),
                    n == count_present(*st, *params, rows.take(i as int), *e),
                    n <= i,
                decreases members@.len() - i,
            {
                let b = &table[members[i]];
                proof {
                    assert(rows.take(i + 1).drop_last() =~= rows.take(i as int));
                    assert(rows.take(i + 1).last() == env_of(*b));
                }
                match eval_expr(st, params, b, e) {
                    Some(PropValue::Null) => {},
                    Some(_) => {
                        n = n + 1;
                    },
                    None => {},
                }
                i = i + 1;
            }
            proof {
                assert(rows.take(i as int) =~= rows);
            }
            RowValue::Scalar(PropValue::Int(n as i64))
        },
        Aggregation::CountDistinct(e) => {
            let mut seen: Vec<String> = Vec::new();
            let mut i: usize = 0;
            while i < members.len()
                invariant
                    st.wf(),
                    params.wf(),
                    table_ok(*st, table@),
                    idx_in(members@, table@.len() as int),
                    rows == envs_at(table@, members@),
                    i <= members@.len(),
                    texts_of(seen@) == first_appearances(value_keys(nonnull_values(*st, *params, rows.take(i as int), *e))),
                decreases members@.len() - i,
            {
                let b = &table[members[i]];
                let ghost before = nonnull_values(*st, *params, rows.take(i as int), *e);
                proof {
                    assert(rows.take(i + 1).drop_last() =~= rows.take(i as int));
                    assert(rows.take(i + 1).last() == env_of(*b));
                }
                match eval_expr(st, params, b, e) {
                    Some(PropValue::Null) => {},
                    Some(v) => {
                        let k = value_sort_key(&v);
                        proof {
                            let after = before.push(v.pv());
                            assert(value_keys(after).drop_last() =~= value_keys(before));
                            assert(value_keys(after).last() == value_key(v.pv()));
                        }
                        if !contains_text(&seen, &k) {
                            seen.push(k);
                            proof {
                                assert(texts_of(seen@) =~= texts_of(seen@.drop_last()).push(k@));
                            }
                        }
                    },
                    None => {},
                }
                i = i + 1;
            }
            proof {
                assert(rows.take(i as int) =~= rows);
            }
            RowValue::Scalar(PropValue::Int(seen.len() as i64))
        },
        Aggregation::Collect(e) => {
            let mut out: Vec<PropValue> = Vec::new();
            let mut i: usize = 0;
            while i < members.len()
                invariant
                    st.wf(),
                    params.wf(),
                    table_ok(*st, table@),
                    idx_in(members@, table@.len() as int),
                    rows == envs_at(table@, members@),
                    i <= members@.len(),
                    pvs(out@) == present_values(*st, *params, rows.take(i as int), *e),
                decreases members@.len() - i,
            {
                let b = &table[members[i]];
                proof {
                    assert(rows.take(i + 1).drop_last() =~= rows.take(i as int));
                    assert(rows.take(i + 1).last() == env_of(*b));
                }
                match eval_expr(st, params, b, e) {
                    Some(v) => {
                        out.push(v);
                        proof {
                            assert(pvs(out@) =~= pvs(out@.drop_last()).push(out@.last().pv()));
                        }
                    },
                    None => {},
                }
                i = i + 1;
            }
            proof {
                assert(rows.take(i as int) =~= rows);
            }
            RowValue::List(out)
        },
        Aggregation::CollectDistinct(e) => {
            let mut seen: SortedMap<String, PropValue> = SortedMap::new();
            let mut i: usize = 0;
            while i < members.len()
                invariant
                    st.wf(),
                    params.wf(),
                    table_ok(*st, table@),
                    idx_in(members@, table@.len() as int),
                    rows == envs_at(table@, members@),
                    i <= members@.len(),
                    seen.wf(),
                    value_map(seen) == first_by_key(present_values(*st, *params, rows.take(i as int), *e)),
                decreases members@.len() - i,
            {
                let b = &table[members[i]];
                proof {
                    assert(rows.take(i + 1).drop_last() =~= rows.take(i as int));
                    assert(rows.take(i + 1).last() == env_of(*b));
                }
                let ghost pv_before = present_values(*st, *params, rows.take(i as int), *e);
                match eval_expr(st, params, b, e) {
                    Some(v) => {
                        let k = value_sort_key(&v);
                        proof {
                            assert(present_values(*st, *params, rows.take(i + 1), *e) == pv_before.push(v.pv()));
                            assert(pv_before.push(v.pv()).drop_last() =~= pv_before);
                            assert(value_key(pv_before.push(v.pv()).last()) == k@);
                        }
                        if !seen.contains_key(&k) {
                            let ghost before = seen;
                            let ghost kk = k@;
                            let ghost vv = v.pv();
                            seen.insert(k, v);
                            proof {
                                assert(value_map(seen) =~= value_map(before).insert(kk, vv));
                            }
                        }
                    },
                    None => {},
                }
                i = i + 1;
            }
            proof {
                assert(rows.take(i as int) =~= rows);
            }
            let mut out: Vec<PropValue> = Vec::new();
            let mut j: usize = 0;
            while j < seen.entries.len()
                invariant
                    j <= seen.entries@.len(),
                    pvs(out@) == seen.entries@.take(j as int).map_values(|x: (String, PropValue)| x.1.pv()),
                decreases seen.entries@.len() - j,
            {
                out.push(seen.entries[j].1.duplicate());
                proof {
                    assert(seen.entries@.take(j + 1).map_values(|x: (String, PropValue)| x.1.pv())
                        =~= seen.entries@.take(j as int).map_values(|x: (String, PropValue)| x.1.pv()).push(seen.entries@[j as int].1.pv()));
                    assert(pvs(out@) =~= pvs(out@.drop_last()).push(out@.last().pv()));
                }
                j = j + 1;
            }
            proof {
                assert(seen.entries@.take(j as int) =~= seen.entries@);
                let s = seen.entries@.map_values(|x: (String, PropValue)| (x.0@, x.1.pv()));
                lemma_value_entries(seen);
                assert(s.map_values(|x: (Seq<char>, PropView)| x.1) =~= seen.entries@.map_values(|x: (String, PropValue)| x.1.pv()));
            }
            RowValue::List(out)
        },
        Aggregation::Size(e) => {
            if members.len() > 0 {
                match eval_expr(st, params, &table[members[0]], e) {
                    Some(PropValue::Str(s)) => RowValue::Scalar(PropValue::Int(crate::text::chars_of(s.as_str()).len() as i64)),
                    _ => RowValue::Scalar(PropValue::Null),
                }
            } else {
                RowValue::Scalar(PropValue::Null)
            }
        },
    }
}

/// The abstract content of a map from sort texts to values.
pub open spec fn value_map(m: SortedMap<String, PropValue>) -> Map<Seq<char>, PropView> {
    Map::new(|k: Seq<char>| m.has(k), |k: Seq<char>| m.lookup(k).unwrap().pv())
}

proof fn lemma_value_entries(m: SortedMap<String, PropValue>)
    requires
        m.wf(),
    ensures
        m.entries@.map_values(|x: (String, PropValue)| (x.0@, x.1.pv())) == sorted_entries(value_map(m)),
{
    let s = m.entries@.map_values(|x: (String, PropValue)| (x.0@, x.1.pv()));
    let vm = value_map(m);
    assert(by_name(s)) by {
        assert forall|a: int, b: int| 0 <= a < b < s.len() implies #[trigger] lex_lt(s[a].0, s[b].0) by {
            assert(String::key_lt(m.entries@[a].0.kv(), m.entries@[b].0.kv()));
        }
    }
    assert(holds_entries(s, vm)) by {
        assert forall|e: (Seq<char>, PropView)| #[trigger] s.contains(e) <==> (vm.contains_key(e.0) && vm[e.0] == e.1) by {
            if s.contains(e) {
                let i = choose|i: int| 0 <= i < s.len() && s[i] == e;
                m.lemma_lookup_at(i);
            }
            if vm.contains_key(e.0) && vm[e.0] == e.1 {
                let i = choose|i: int| 0 <= i < m.entries@.len() && #[trigger] m.entries@[i].0.kv() == e.0;
                m.lemma_lookup_at(i);
                assert(s[i] == e);
            }
        }
    }
    lemma_sorted_entries(s, vm);
}

/// The texts of a list of strings.
pub open spec fn texts_of(v: Seq<String>) -> Seq<Seq<char>> {
    v.map_values(|s: String| s@)
}

/// Whether `v` holds a string equal to `k`.
pub fn contains_text(v: &Vec<String>, k: &String) -> (r: bool)
    ensures
        r == texts_of(v@).contains(k@),
{
    let mut i: usize = 0;
    while i < v.len()
        invariant
            i <= v@.len(),
            forall|j: int| 0 <= j < i ==> v@[j]@ != k@,
        decreases v@.len() - i,
    {
        if str_eq(v[i].as_str(), k.as_str()) {
            proof {
                assert(texts_of(v@)[i as int] == k@);
            }
            return true;
        }
        i = i + 1;
    }
    proof {
        let vs = texts_of(v@);
        if vs.contains(k@) {
            let j = choose|j: int| 0 <= j < vs.len() && #[trigger] vs[j] == k@;
            assert(v@[j]@ == k@);
        }
    }
    false
}

/// The projections at the given positions.
pub open spec fn projs_at(projs: Seq<Projection>, idx: Seq<usize>) -> Seq<Projection> {
    idx.map_values(|j: usize| projs[j as int])
}

/// The positions of the expression projections and of the aggregation
/// projections.
fn split_projections(projs: &Vec<Projection>) -> (r: (Vec<usize>, Vec<usize>))
    ensures
        idx_in(r.0@, projs@.len() as int),
        idx_in(r.1@, projs@.len() as int),
        projs_at(projs@, r.0@) == key_projections(projs@),
        projs_at(projs@, r.1@) == agg_projections(projs@),
{
    let mut k: Vec<usize> = Vec::new();
    let mut a: Vec<usize> = Vec::new();
    let mut i: usize = 0;
    while i < projs.len()
        invariant
            i <= projs@.len(),
            idx_in(k@, projs@.len() as int),
            idx_in(a@, projs@.len() as int),
            projs_at(projs@, k@) == key_projections(projs@.take(i as int)),
            projs_at(projs@, a@) == agg_projections(projs@.take(i as int)),
        decreases projs@.len() - i,
    {
        proof {
            assert(projs@.take(i + 1).drop_last() =~= projs@.take(i as int));
            assert(projs@.take(i + 1).last() == projs@[i as int]);
        }
        match &projs[i].value {
            ProjectionValue::Expr(_) => {
                k.push(i);
                proof {
                    assert(projs_at(projs@, k@) =~= projs_at(projs@, k@.drop_last()).push(projs@[i as int]));
                }
            },
            ProjectionValue::Aggregation(_) => {
                a.push(i);
                proof {
                    assert(projs_at(projs@, a@) =~= projs_at(projs@, a@.drop_last()).push(projs@[i as int]));
                }
            },
        }
        i = i + 1;
    }
    proof {
        assert(projs@.take(i as int) =~= projs@);
    }
    (k, a)
}

/// The grouping-key values of row `b`.
fn row_key_values(st: &KeyspaceState, params: &Params, b: &Bindings, projs: &Vec<Projection>, kidx: &Vec<usize>) -> (r: Vec<PropValue>)
    requires
        st.wf(),
        params.wf(),
        row_ok(*st, *b),
        idx_in(kidx@, projs@.len() as int),
    ensures
        pvs(r@) == key_values(*st, *params, env_of(*b), projs_at(projs@, kidx@)),
{
    let ghost kp = projs_at(projs@, kidx@);
    let mut out: Vec<PropValue> = Vec::new();
    let mut q: usize = 0;
    while q < kidx.len()
        invariant
            st.wf(),
            params.wf(),
            row_ok(*st, *b),
            idx_in(kidx@, projs@.len() as int),
            kp == projs_at(projs@, kidx@),
            q <= kidx@.len(),
            out@.len() == q,
            forall|t: int| 0 <= t < q ==> (#[trigger] out@[t]).pv() == key_value(*st, *params, env_of(*b), kp[t]),
        decreases kidx@.len() - q,
    {
        let v = match &projs[kidx[q]].value {
            ProjectionValue::Expr(e) => match eval_expr(st, params, b, e) {
                Some(v) => v,
                None => PropValue::Null,
            },
            _ => PropValue::Null,
        };
        out.push(v);
        q = q + 1;
    }
    proof {
        assert(pvs(out@) =~= key_values(*st, *params, env_of(*b), kp));
    }
    out
}

/// The group text of a row's key values.
fn group_key_text(vals: &Vec<PropValue>) -> (r: String)
    ensures
        r@ == join_with(value_keys(pvs(vals@)), seq!['\u{1f}']),
{
    let ghost keys = value_keys(pvs(vals@));
    let mut out = String::new();
    let mut i: usize = 0;
    proof {
        assert(join_with(keys.take(0), seq!['\u{1f}']) =~= Seq::<char>::empty());
    }
    while i < vals.len()
        invariant
            i <= vals@.len(),
            keys == value_keys(pvs(vals@)),
            out@ == join_with(keys.take(i as int), seq!['\u{1f}']),
        decreases vals@.len() - i,
    {
        proof {
            assert(keys.take(i + 1).drop_last() =~= keys.take(i as int));
            assert(keys.take(i + 1).last() == keys[i as int]);
            if i == 0 {
                assert(keys.take(1).len() == 1);
            }
        }
        if i > 0 {
            crate::text::push_char(&mut out, '\u{1f}');
        }
        push_value_key(&mut out, &vals[i]);
        proof {
            assert(keys[i as int] == value_key(vals@[i as int].pv()));
            if i > 0 {
                assert(out@ =~= join_with(keys.take(i as int), seq!['\u{1f}']) + seq!['\u{1f}'] + keys[i as int]);
            }
        }
        i = i + 1;
    }
    proof {
        assert(keys.take(i as int) =~= keys);
    }
    out
}

proof fn lemma_first_appearances_in(keys: Seq<Seq<char>>, k: Seq<char>)
    requires
        first_appearances(keys).contains(k),
    ensures
        keys.contains(k),
    decreases keys.len(),
{
    if keys.len() > 0 {
        let r = first_appearances(keys.drop_last());
        if r.contains(k) {
            lemma_first_appearances_in(keys.drop_last(), k);
            let j = choose|j: int| 0 <= j < keys.drop_last().len() && keys.drop_last()[j] == k;
            assert(keys[j] == k);
        } else {
            assert(keys.last() == k);
            assert(keys[keys.len() - 1] == k);
        }
    }
}

proof fn lemma_rows_with_key_nonempty(rows: Seq<Env>, keys: Seq<Seq<char>>, k: Seq<char>)
    requires
        rows.len() == keys.len(),
        keys.contains(k),
    ensures
        rows_with_key(rows, keys, k).len() > 0,
    decreases rows.len(),
{
    if keys.last() != k {
        let j = choose|j: int| 0 <= j < keys.len() && keys[j] == k;
        assert(keys.drop_last()[j] == k);
        lemma_rows_with_key_nonempty(rows.drop_last(), keys.drop_last(), k);
    }
}

/// Groups `table` by the expression projections of `projs` and aggregates
/// each group: one row of bindings per distinct key, in order of the key's
/// first row.
pub fn group_and_aggregate(st: &KeyspaceState, params: &Params, table: &Vec<Bindings>, projs: &Vec<Projection>) -> (r: Vec<Bindings>)
    requires
        st.wf(),
        params.wf(),
        table_ok(*st, table@),
    ensures
        table_ok(*st, r@),
        envs(r@) == grouped_rows(*st, *params, envs(table@), projs@),
{
    let ghost rows = envs(table@);
    let (kidx, aidx) = split_projections(projs);
    let ghost kp = key_projections(projs@);
    let ghost ap = agg_projections(projs@);
    let ghost keys = group_keys(*st, *params, rows, kp);
    // The key values and group texts of every row.
    let mut kvals: Vec<Vec<PropValue>> = Vec::new();
    let mut texts: Vec<String> = Vec::new();
    let mut t: usize = 0;
    while t < table.len()
        invariant
            st.wf(),
            params.wf(),
            table_ok(*st, table@),
            rows == envs(table@),
            kp == projs_at(projs@, kidx@),
            idx_in(kidx@, projs@.len() as int),
            keys == group_keys(*st, *params, rows, kp),
            t <= table@.len(),
            kvals@.len() == t,
            texts@.len() == t,
            forall|u: int| 0 <= u < t ==> pvs(#[trigger] kvals@[u]@) == key_values(*st, *params, rows[u], kp),
            forall|u: int| 0 <= u < t ==> (#[trigger] texts@[u])@ == keys[u],
        decreases table@.len() - t,
    {
        let vals = row_key_values(st, params, &table[t], projs, &kidx);
        let text = group_key_text(&vals);
        proof {
            assert(rows[t as int] == env_of(table@[t as int]));
        }
        kvals.push(vals);
        texts.push(text);
        t = t + 1;
    }
    let ghost tv = texts_of(texts@);
    proof {
        assert(tv =~= keys);
    }
    // The distinct texts, in order of first appearance.
    let mut order: Vec<String> = Vec::new();
    let mut u: usize = 0;
    while u < texts.len()
        invariant
            u <= texts@.len(),
            tv == texts_of(texts@),
            texts_of(order@) == first_appearances(tv.take(u as int)),
        decreases texts@.len() - u,
    {
        proof {
            assert(tv.take(u + 1).drop_last() =~= tv.take(u as int));
            assert(tv.take(u + 1).last() == texts@[u as int]@);
        }
        if !contains_text(&order, &texts[u]) {
            order.push(texts[u].clone());
            proof {
                assert(texts_of(order@) =~= texts_of(order@.drop_last()).push(texts@[u as int]@));
            }
        }
        u = u + 1;
    }
    proof {
        assert(tv.take(u as int) =~= tv);
    }
    let ghost ov = texts_of(order@);
    let ghost spec_rows = grouped_rows(*st, *params, rows, projs@);
    let mut out: Vec<Bindings> = Vec::new();
    let mut g: usize = 0;
    while g < order.len()
        invariant
            st.wf(),
            params.wf(),
            table_ok(*st, table@),
            rows == envs(table@),
            kp == projs_at(projs@, kidx@),
            ap == projs_at(projs@, aidx@),
            kp == key_projections(projs@),
            ap == agg_projections(projs@),
            idx_in(kidx@, projs@.len() as int),
            idx_in(aidx@, projs@.len() as int),
            keys == group_keys(*st, *params, rows, kp),
            tv == keys,
            tv == texts_of(texts@),
            kvals@.len() == table@.len(),
            forall|w: int| 0 <= w < table@.len() ==> pvs(#[trigger] kvals@[w]@) == key_values(*st, *params, rows[w], kp),
            ov == texts_of(order@),
            ov == first_appearances(keys),
            spec_rows == grouped_rows(*st, *params, rows, projs@),
            g <= order@.len(),
            out@.len() == g,
            table_ok(*st, out@),
            forall|w: int| 0 <= w < g ==> env_of(#[trigger] out@[w]) == spec_rows[w],
        decreases order@.len() - g,
    {
        // The members of group `g`.
        let ghost k = ov[g as int];
        let mut members: Vec<usize> = Vec::new();
        let mut w: usize = 0;
        while w < texts.len()
            invariant
                w <= texts@.len(),
                texts@.len() == table@.len(),
                tv == texts_of(texts@),
                rows == envs(table@),
                k == order@[g as int]@,
                g < order@.len(),
                idx_in(members@, table@.len() as int),
                envs_at(table@, members@) == rows_with_key(rows.take(w as int), tv.take(w as int), k),
            decreases texts@.len() - w,
        {
            proof {
                assert(rows.take(w + 1).drop_last() =~= rows.take(w as int));
                assert(tv.take(w + 1).drop_last() =~= tv.take(w as int));
                assert(tv.take(w + 1).last() == texts@[w as int]@);
                assert(rows.take(w + 1).last() == env_of(table@[w as int]));
            }
            if str_eq(texts[w].as_str(), order[g].as_str()) {
                members.push(w);
                proof {
                    lemma_envs_at_push(table@, members@.drop_last(), w);
                    assert(members@.drop_last().push(w) =~= members@);
                }
            }
            w = w + 1;
        }
        let ghost grp = rows_with_key(rows, keys, k);
        proof {
            assert(rows.take(w as int) =~= rows);
            assert(tv.take(w as int) =~= tv);
            assert(ov.contains(k)) by {
                assert(ov[g as int] == k);
            }
            lemma_first_appearances_in(keys, k);
            lemma_rows_with_key_nonempty(rows, keys, k);
            assert(envs_at(table@, members@) == grp);
        }
        let first = members[0];
        let ghost kv = key_values(*st, *params, grp[0], kp);
        proof {
            assert(grp[0] == env_of(table@[first as int]));
            assert(rows[first as int] == env_of(table@[first as int]));
        }
        // Key columns.
        let mut row: Bindings = SortedMap::new();
        let mut q: usize = 0;
        proof {
            assert(env_of(row) =~= with_key_columns(Map::empty(), kp.take(0), kv));
        }
        while q < kidx.len()
            invariant
                kp == projs_at(projs@, kidx@),
                idx_in(kidx@, projs@.len() as int),
                first < kvals@.len(),
                pvs(kvals@[first as int]@) == kv,
                kv.len() == kp.len(),
                q <= kidx@.len(),
                row.wf(),
                env_of(row) == with_key_columns(Map::empty(), kp.take(q as int), kv),
                forall|x: Seq<char>| #[trigger] row.has(x) ==> row.lookup(x).unwrap().bv() is Val,
            decreases kidx@.len() - q,
        {
            let alias = projection_alias(&projs[kidx[q]]);
            let v = kvals[first][q].duplicate();
            let ghost before = row;
            let ghost ka = alias@;
            let b = Binding::Value(RowValue::Scalar(v));
            let ghost bv = b.bv();
            row.insert(alias, b);
            proof {
                lemma_env_insert(row, before, ka, bv);
                assert(kp.take(q + 1).drop_last() =~= kp.take(q as int));
                assert(kp.take(q + 1).last() == kp[q as int]);
                assert(pvs(kvals@[first as int]@)[q as int] == kv[q as int]);
            }
            q = q + 1;
        }
        proof {
            assert(kp.take(q as int) =~= kp);
        }
        let ghost base = env_of(row);
        // Aggregate columns.
        let mut q2: usize = 0;
        proof {
            assert(ap.take(0) =~= Seq::<Projection>::empty());
        }
        while q2 < aidx.len()
            invariant
                st.wf(),
                params.wf(),
                table_ok(*st, table@),
                ap == projs_at(projs@, aidx@),
                idx_in(aidx@, projs@.len() as int),
                idx_in(members@, table@.len() as int),
                envs_at(table@, members@) == grp,
                q2 <= aidx@.len(),
                row.wf(),
                env_of(row) == with_agg_columns(*st, *params, base, ap.take(q2 as int), grp),
                forall|x: Seq<char>| #[trigger] row.has(x) ==> row.lookup(x).unwrap().bv() is Val,
            decreases aidx@.len() - q2,
        {
            let p = &projs[aidx[q2]];
            proof {
                assert(ap.take(q2 + 1).drop_last() =~= ap.take(q2 as int));
                assert(ap.take(q2 + 1).last() == ap[q2 as int]);
            }
            match &p.value {
                ProjectionValue::Aggregation(a) => {
                    let alias = projection_alias(p);
                    let v = eval_aggregation(st, params, table, &members, a);
                    let ghost before = row;
                    let ghost ka = alias@;
                    let b = Binding::Value(v);
                    let ghost bv = b.bv();
                    row.insert(alias, b);
                    proof {
                        lemma_env_insert(row, before, ka, bv);
                    }
                },
                _ => {},
            }
            q2 = q2 + 1;
        }
        proof {
            assert(ap.take(q2 as int) =~= ap);
            assert(env_of(row) == spec_rows[g as int]);
            assert(env_valid(*st, env_of(row))) by {
                assert forall|x: Seq<char>| #[trigger] env_of(row).contains_key(x) implies match env_of(row)[x] {
                    BindView::Node(i) => i < st.nodes().len(),
                    BindView::Edge(j) => j < st.edges().len(),
                    _ => true,
                } by {
                    assert(row.lookup(x).unwrap().bv() is Val);
                }
            }
        }
        out.push(row);
        proof {
            assert forall|w: int| 0 <= w < g + 1 implies env_of(#[trigger] out@[w]) == spec_rows[w] by {
            }
        }
        g = g + 1;
    }
    proof {
        assert(envs(out@) =~= spec_rows);
    }
    out
}

// ---------------------------------------------------------------------
// RETURN
// ---------------------------------------------------------------------

/// Whether some projection is an aggregation.
pub open spec fn has_aggregation(projs: Seq<Projection>) -> bool {
    exists|i: int| 0 <= i < projs.len() && (#[trigger] projs[i]).value is Aggregation
}

/// The result row made of a grouped row of bindings: each column's value,
/// or null where the column holds no value.
pub open spec fn binding_row(env: Env, projs: Seq<Projection>) -> RowMap
    decreases projs.len(),
{
    if projs.len() == 0 {
        Map::empty()
    } else {
        let a = alias_of_projection(projs.last());
        binding_row(env, projs.drop_last()).insert(
            a,
            if env.contains_key(a) && env[a] is Val { env[a]->Val_0 } else { RowView::Scalar(PropView::Null) },
        )
    }
}

/// The rows `RETURN` projects, before `DISTINCT`, ordering and limit.
pub open spec fn projected_rows(st: KeyspaceState, params: Params, table: Seq<Env>, projs: Seq<Projection>) -> Seq<RowMap> {
    if has_aggregation(projs) {
        let g = grouped_rows(st, params, table, projs);
        Seq::new(g.len(), |i: int| binding_row(g[i], projs))
    } else {
        Seq::new(table.len(), |i: int| returned_row(st, params, table[i], projs))
    }
}

/// The rows with a sort text no earlier row has.
pub open spec fn distinct_rows(rows: Seq<RowMap>) -> Seq<RowMap>
    decreases rows.len(),
{
    if rows.len() == 0 {
        Seq::empty()
    } else {
        let r = distinct_rows(rows.drop_last());
        if exists|j: int| 0 <= j < rows.len() - 1 && #[trigger] map_row_key(rows[j]) == map_row_key(rows.last()) {
            r
        } else {
            r.push(rows.last())
        }
    }
}

/// `x` inserted into `sorted` before the first row it sorts before.
pub open spec fn insert_sorted(sorted: Seq<RowMap>, x: RowMap, less: spec_fn(RowMap, RowMap) -> bool) -> Seq<RowMap>
    decreases sorted.len(),
{
    if sorted.len() == 0 {
        seq![x]
    } else if less(x, sorted[0]) {
        seq![x] + sorted
    } else {
        seq![sorted[0]] + insert_sorted(sorted.drop_first(), x, less)
    }
}

/// The rows stably sorted by `less`: rows that neither sorts before keep
/// their order.
pub open spec fn sort_rows(rows: Seq<RowMap>, less: spec_fn(RowMap, RowMap) -> bool) -> Seq<RowMap>
    decreases rows.len(),
{
    if rows.len() == 0 {
        Seq::empty()
    } else {
        insert_sorted(sort_rows(rows.drop_last(), less), rows.last(), less)
    }
}

/// The reverse of an order.
pub open spec fn reversed(c: Cmp) -> Cmp {
    match c {
        Cmp::Less => Cmp::Greater,
        Cmp::Equal => Cmp::Equal,
        Cmp::Greater => Cmp::Less,
    }
}

/// The order of two optional column values: a missing value first.
pub open spec fn column_order(a: Option<RowView>, b: Option<RowView>) -> Cmp {
    match (a, b) {
        (Some(x), Some(y)) => row_value_order(x, y),
        (Some(_), None) => Cmp::Greater,
        (None, Some(_)) => Cmp::Less,
        (None, None) => Cmp::Equal,
    }
}

/// The value of column `k` of a row, if present.
pub open spec fn column(m: RowMap, k: Seq<char>) -> Option<RowView> {
    if m.contains_key(k) {
        Some(m[k])
    } else {
        None
    }
}

/// The order of two rows under `ORDER BY` keys `(column, descending)`: the
/// first key on which they differ decides.
pub open spec fn rows_order_by(keys: Seq<(Seq<char>, bool)>, a: RowMap, b: RowMap) -> Cmp
    decreases keys.len(),
{
    if keys.len() == 0 {
        Cmp::Equal
    } else {
        let c0 = column_order(column(a, keys[0].0), column(b, keys[0].0));
        let c = if keys[0].1 { reversed(c0) } else { c0 };
        if c != Cmp::Equal {
            c
        } else {
            rows_order_by(keys.drop_first(), a, b)
        }
    }
}

/// The `ORDER BY` keys of a `RETURN` clause: column name and direction.
pub open spec fn order_keys(ret: ReturnClause) -> Seq<(Seq<char>, bool)> {
    Seq::new(ret.order_by@.len(), |i: int| (alias_of_expr(ret.order_by@[i].expr), ret.order_by@[i].descending))
}

/// The order rows are returned in: by the `ORDER BY` keys, or, without
/// any, by their sort texts.
pub open spec fn return_less(ret: ReturnClause) -> spec_fn(RowMap, RowMap) -> bool {
    if ret.order_by@.len() > 0 {
        |a: RowMap, b: RowMap| rows_order_by(order_keys(ret), a, b) == Cmp::Less
    } else {
        |a: RowMap, b: RowMap| lex_lt(map_row_key(a), map_row_key(b))
    }
}

/// The rows `RETURN` yields: projected, deduplicated under `DISTINCT`,
/// stably ordered, and cut to `LIMIT`.
pub open spec fn return_rows(st: KeyspaceState, params: Params, table: Seq<Env>, ret: ReturnClause) -> Seq<RowMap> {
    let p = projected_rows(st, params, table, ret.projections@);
    let d = if ret.distinct { distinct_rows(p) } else { p };
    let s = sort_rows(d, return_less(ret));
    match ret.limit {
        Some(n) => if (n as usize) < s.len() { s.take((n as usize) as int) } else { s },
        None => s,
    }
}

/// `DISTINCT` keeps one row per sort text: no two kept rows share one,
/// every kept row is one of the input rows, and every input row's sort
/// text is that of a kept row.
pub proof fn lemma_distinct_rows_unique(rows: Seq<RowMap>)
    ensures
        forall|i: int, j: int| 0 <= i < j < distinct_rows(rows).len()
            ==> map_row_key(#[trigger] distinct_rows(rows)[i]) != map_row_key(#[trigger] distinct_rows(rows)[j]),
        forall|i: int| 0 <= i < distinct_rows(rows).len() ==> rows.contains(#[trigger] distinct_rows(rows)[i]),
        forall|i: int| 0 <= i < rows.len() ==> exists|j: int| 0 <= j < distinct_rows(rows).len()
            && #[trigger] map_row_key(distinct_rows(rows)[j]) == map_row_key(#[trigger] rows[i]),
    decreases rows.len(),
{
    if rows.len() > 0 {
        let rest = rows.drop_last();
        let x = rows.last();
        lemma_distinct_rows_unique(rest);
        let r = distinct_rows(rest);
        let d = distinct_rows(rows);
        assert forall|i: int| 0 <= i < r.len() implies rows.contains(#[trigger] r[i]) by {
            let k = choose|k: int| 0 <= k < rest.len() && rest[k] == r[i];
            assert(rows[k] == r[i]);
        }
        if exists|j: int| 0 <= j < rows.len() - 1 && #[trigger] map_row_key(rows[j]) == map_row_key(rows.last()) {
            assert(d == r);
            let j0 = choose|j: int| 0 <= j < rows.len() - 1 && #[trigger] map_row_key(rows[j]) == map_row_key(rows.last());
            assert forall|i: int| 0 <= i < rows.len() implies exists|j: int| 0 <= j < d.len()
                && #[trigger] map_row_key(d[j]) == map_row_key(#[trigger] rows[i]) by {
                if i < rows.len() - 1 {
                    assert(rest[i] == rows[i]);
                } else {
                    assert(rest[j0] == rows[j0]);
                }
            }
        } else {
            assert(d == r.push(x));
            assert forall|i: int, j: int| 0 <= i < j < d.len()
                implies map_row_key(#[trigger] d[i]) != map_row_key(#[trigger] d[j]) by {
                if j == d.len() - 1 {
                    let k = choose|k: int| 0 <= k < rest.len() && rest[k] == r[i];
                    assert(rows[k] == rest[k]);
                }
            }
            assert forall|i: int| 0 <= i < d.len() implies rows.contains(#[trigger] d[i]) by {
                if i == d.len() - 1 {
                    assert(rows[rows.len() - 1] == d[i]);
                }
            }
            assert forall|i: int| 0 <= i < rows.len() implies exists|j: int| 0 <= j < d.len()
                && #[trigger] map_row_key(d[j]) == map_row_key(#[trigger] rows[i]) by {
                if i < rows.len() - 1 {
                    assert(rest[i] == rows[i]);
                    let j = choose|j: int| 0 <= j < r.len() && #[trigger] map_row_key(r[j]) == map_row_key(rest[i]);
                    assert(d[j] == r[j]);
                } else {
                    assert(d[d.len() - 1] == x);
                }
            }
        }
    }
}

proof fn lemma_insert_sorted_multiset(sorted: Seq<RowMap>, x: RowMap, less: spec_fn(RowMap, RowMap) -> bool)
    ensures
        insert_sorted(sorted, x, less).to_multiset() =~= sorted.to_multiset().insert(x),
    decreases sorted.len(),
{
    broadcast use vstd::seq_lib::group_to_multiset_ensures;
    if sorted.len() == 0 {
        assert(seq![x] =~= Seq::<RowMap>::empty().push(x));
    } else if less(x, sorted[0]) {
        vstd::seq_lib::lemma_multiset_commutative(seq![x], sorted);
        assert(seq![x] =~= Seq::<RowMap>::empty().push(x));
    } else {
        lemma_insert_sorted_multiset(sorted.drop_first(), x, less);
        vstd::seq_lib::lemma_multiset_commutative(seq![sorted[0]], insert_sorted(sorted.drop_first(), x, less));
        vstd::seq_lib::lemma_multiset_commutative(seq![sorted[0]], sorted.drop_first());
        assert(seq![sorted[0]] + sorted.drop_first() =~= sorted);
        assert(seq![sorted[0]] =~= Seq::<RowMap>::empty().push(sorted[0]));
    }
}

/// Ordering the rows only reorders them: the sorted rows are the input
/// rows, each as many times.
pub proof fn lemma_sort_rows_permutes(rows: Seq<RowMap>, less: spec_fn(RowMap, RowMap) -> bool)
    ensures
        sort_rows(rows, less).to_multiset() =~= rows.to_multiset(),
    decreases rows.len(),
{
    broadcast use vstd::seq_lib::group_to_multiset_ensures;
    if rows.len() > 0 {
        lemma_sort_rows_permutes(rows.drop_last(), less);
        lemma_insert_sorted_multiset(sort_rows(rows.drop_last(), less), rows.last(), less);
        assert(rows.drop_last().push(rows.last()) =~= rows);
    }
}

/// `LIMIT n` yields at most `n` rows, and exactly `n` when there are
/// more.
pub proof fn lemma_limit_caps_rows(st: KeyspaceState, params: Params, table: Seq<Env>, ret: ReturnClause)
    requires
        ret.limit is Some,
        ret.limit->0 <= usize::MAX,
    ensures
        return_rows(st, params, table, ret).len() <= ret.limit->0,
        ({
            let p = projected_rows(st, params, table, ret.projections@);
            let d = if ret.distinct { distinct_rows(p) } else { p };
            sort_rows(d, return_less(ret)).len() >= ret.limit->0 ==> return_rows(st, params, table, ret).len() == ret.limit->0
        }),
{
}

/// The abstract content of a list of rows.
pub open spec fn row_maps(rows: Seq<Row>) -> Seq<RowMap> {
    rows.map_values(|r: Row| row_map(r))
}

/// Every row is well formed.
pub open spec fn rows_wf(rows: Seq<Row>) -> bool {
    forall|i: int| 0 <= i < rows.len() ==> (#[trigger] rows[i]).wf()
}

/// The result row made of a grouped row of bindings.
fn bindings_to_row(b: &Bindings, projs: &Vec<Projection>) -> (r: Row)
    requires
        b.wf(),
    ensures
        r.wf(),
        row_map(r) == binding_row(env_of(*b), projs@),
{
    let mut row: Row = SortedMap::new();
    let mut i: usize = 0;
    proof {
        assert(row_map(row) =~= binding_row(env_of(*b), projs@.take(0)));
    }
    while i < projs.len()
        invariant
            b.wf(),
            i <= projs@.len(),
            row.wf(),
            row_map(row) == binding_row(env_of(*b), projs@.take(i as int)),
        decreases projs@.len() - i,
    {
        let alias = projection_alias(&projs[i]);
        proof {
            assert(projs@.take(i + 1).drop_last() =~= projs@.take(i as int));
            assert(projs@.take(i + 1).last() == projs@[i as int]);
            assert(env_of(*b).contains_key(alias@) == b.has(alias@));
        }
        let v = match b.get(&alias) {
            Some(Binding::Value(v)) => v.duplicate(),
            _ => RowValue::Scalar(PropValue::Null),
        };
        let ghost before = row;
        let ghost k = alias@;
        let ghost vv = v.rv();
        row.insert(alias, v);
        proof {
            lemma_row_insert(row, before, k, vv);
        }
        i = i + 1;
    }
    proof {
        assert(projs@.take(i as int) =~= projs@);
    }
    row
}

/// Compares two rows under `ORDER BY` keys.
fn rows_compare(keys: &Vec<(String, bool)>, a: &Row, b: &Row) -> (r: Cmp)
    requires
        a.wf(),
        b.wf(),
    ensures
        r == rows_order_by(keys@.map_values(|k: (String, bool)| (k.0@, k.1)), row_map(*a), row_map(*b)),
{
    let ghost kv = keys@.map_values(|k: (String, bool)| (k.0@, k.1));
    let mut i: usize = 0;
    proof {
        assert(kv.skip(0) =~= kv);
    }
    while i < keys.len()
        invariant
            a.wf(),
            b.wf(),
            i <= keys@.len(),
            kv == keys@.map_values(|k: (String, bool)| (k.0@, k.1)),
            rows_order_by(kv, row_map(*a), row_map(*b)) == rows_order_by(kv.skip(i as int), row_map(*a), row_map(*b)),
        decreases keys@.len() - i,
    {
        let key = &keys[i].0;
        let desc = keys[i].1;
        proof {
            assert(kv.skip(i as int)[0] == (key@, desc));
            assert(kv.skip(i as int).drop_first() =~= kv.skip(i + 1));
            assert(row_map(*a).contains_key(key@) == a.has(key@));
            assert(row_map(*b).contains_key(key@) == b.has(key@));
        }
        let c0 = match (a.get(key), b.get(key)) {
            (Some(x), Some(y)) => row_value_compare(x, y),
            (Some(_), None) => Cmp::Greater,
            (None, Some(_)) => Cmp::Less,
            (None, None) => Cmp::Equal,
        };
        let c = if desc {
            match c0 {
                Cmp::Less => Cmp::Greater,
                Cmp::Equal => Cmp::Equal,
                Cmp::Greater => Cmp::Less,
            }
        } else {
            c0
        };
        if c != Cmp::Equal {
            return c;
        }
        i = i + 1;
    }
    proof {
        assert(kv.skip(i as int).len() == 0);
    }
    Cmp::Equal
}

/// Whether the row (with its sort text) sorts strictly before the other
/// under the `RETURN` clause's order.
fn return_before(keys: &Vec<(String, bool)>, ret: &ReturnClause, a: &(String, Row), b: &(String, Row)) -> (r: bool)
    requires
        a.1.wf(),
        b.1.wf(),
        a.0@ == map_row_key(row_map(a.1)),
        b.0@ == map_row_key(row_map(b.1)),
        keys@.map_values(|k: (String, bool)| (k.0@, k.1)) == order_keys(*ret),
    ensures
        r == (return_less(*ret))(row_map(a.1), row_map(b.1)),
{
    if ret.order_by.len() > 0 {
        rows_compare(keys, &a.1, &b.1) == Cmp::Less
    } else {
        let ac = crate::text::chars_of(a.0.as_str());
        let bc = crate::text::chars_of(b.0.as_str());
        crate::order::compare_chars(&ac, &bc) == Cmp::Less
    }
}

/// The rows (with sort texts) in their abstract form.
pub open spec fn keyed_maps(v: Seq<(String, Row)>) -> Seq<RowMap> {
    v.map_values(|x: (String, Row)| row_map(x.1))
}

/// Each row is well formed and carries its sort text.
pub open spec fn keyed_ok(v: Seq<(String, Row)>) -> bool {
    forall|i: int| 0 <= i < v.len() ==> (#[trigger] v[i]).1.wf() && v[i].0@ == map_row_key(row_map(v[i].1))
}

proof fn lemma_insert_sorted_at(sorted: Seq<RowMap>, x: RowMap, less: spec_fn(RowMap, RowMap) -> bool, p: int)
    requires
        0 <= p <= sorted.len(),
        forall|j: int| 0 <= j < p ==> !less(x, #[trigger] sorted[j]),
        p < sorted.len() ==> less(x, sorted[p]),
    ensures
        insert_sorted(sorted, x, less) == sorted.insert(p, x),
    decreases sorted.len(),
{
    if sorted.len() == 0 {
        assert(sorted.insert(p, x) =~= seq![x]);
    } else if p == 0 {
        assert(sorted.insert(0, x) =~= seq![x] + sorted);
    } else {
        assert(!less(x, sorted[0]));
        let rest = sorted.drop_first();
        assert forall|j: int| 0 <= j < p - 1 implies !less(x, #[trigger] rest[j]) by {
            assert(rest[j] == sorted[j + 1]);
        }
        lemma_insert_sorted_at(rest, x, less, p - 1);
        assert(seq![sorted[0]] + rest.insert(p - 1, x) =~= sorted.insert(p, x));
    }
}

/// Stably sorts rows under the `RETURN` clause's order.
fn sort_returned(keys: &Vec<(String, bool)>, ret: &ReturnClause, rows: Vec<(String, Row)>) -> (r: Vec<(String, Row)>)
    requires
        keyed_ok(rows@),
        keys@.map_values(|k: (String, bool)| (k.0@, k.1)) == order_keys(*ret),
    ensures
        keyed_ok(r@),
        keyed_maps(r@) == sort_rows(keyed_maps(rows@), return_less(*ret)),
{
    let ghost all = rows@;
    let ghost less = return_less(*ret);
    let total = rows.len();
    assert(all.len() == total);
    let mut rest = rows;
    let mut pending: Vec<(String, Row)> = Vec::new();
    while rest.len() > 0
        invariant
            pending@.len() + rest@.len() == all.len(),
            rest@ == all.take(rest@.len() as int),
            forall|k: int| 0 <= k < pending@.len() ==> #[trigger] pending@[k] == all[all.len() - 1 - k],
        decreases rest@.len(),
    {
        let x = rest.pop().unwrap();
        pending.push(x);
        proof {
            assert(rest@ =~= all.take(rest@.len() as int));
        }
    }
    let mut sorted: Vec<(String, Row)> = Vec::new();
    let mut i: usize = 0;
    proof {
        assert(keyed_maps(all.take(0)) =~= Seq::<RowMap>::empty());
    }
    while pending.len() > 0
        invariant
            keyed_ok(all),
            all.len() <= usize::MAX,
            keys@.map_values(|k: (String, bool)| (k.0@, k.1)) == order_keys(*ret),
            less == return_less(*ret),
            i <= all.len(),
            pending@.len() + i == all.len(),
            forall|k: int| 0 <= k < pending@.len() ==> #[trigger] pending@[k] == all[all.len() - 1 - k],
            keyed_ok(sorted@),
            keyed_maps(sorted@) == sort_rows(keyed_maps(all.take(i as int)), less),
        decreases pending@.len(),
    {
        let x = pending.pop().unwrap();
        proof {
            assert(x == all[i as int]);
        }
        let mut p: usize = 0;
        while p < sorted.len() && !return_before(keys, ret, &x, &sorted[p])
            invariant
                keyed_ok(sorted@),
                x.1.wf(),
                x.0@ == map_row_key(row_map(x.1)),
                keys@.map_values(|k: (String, bool)| (k.0@, k.1)) == order_keys(*ret),
                less == return_less(*ret),
                p <= sorted@.len(),
                forall|j: int| 0 <= j < p ==> !less(row_map(x.1), #[trigger] keyed_maps(sorted@)[j]),
            decreases sorted@.len() - p,
        {
            p = p + 1;
        }
        let ghost before = keyed_maps(sorted@);
        let ghost xm = row_map(x.1);
        proof {
            if p < sorted@.len() {
                assert(less(xm, before[p as int]));
            }
            lemma_insert_sorted_at(before, xm, less, p as int);
            assert(keyed_maps(all.take(i + 1)).drop_last() =~= keyed_maps(all.take(i as int)));
            assert(keyed_maps(all.take(i + 1)).last() == xm);
        }
        sorted.insert(p, x);
        proof {
            assert(keyed_maps(sorted@) =~= before.insert(p as int, xm));
            assert forall|j: int| 0 <= j < sorted@.len() implies (#[trigger] sorted@[j]).1.wf() && sorted@[j].0@ == map_row_key(row_map(sorted@[j].1)) by {
            }
        }
        i = i + 1;
    }
    proof {
        assert(all.take(i as int) =~= all);
    }
    sorted
}

proof fn lemma_sort_key(row: Row)
    requires
        row.wf(),
    ensures
        crate::value::row_key(row_view(row)) == map_row_key(row_map(row)),
{
    lemma_row_entries(row);
}

/// The rows `RETURN ret` yields from `table`.
pub fn apply_return(st: &KeyspaceState, params: &Params, table: &Vec<Bindings>, ret: &ReturnClause) -> (r: Vec<Row>)
    requires
        st.wf(),
        params.wf(),
        table_ok(*st, table@),
    ensures
        rows_wf(r@),
        row_maps(r@) == return_rows(*st, *params, envs(table@), *ret),
{
    let projs = &ret.projections;
    let mut has_agg = false;
    let mut i: usize = 0;
    while i < projs.len()
        invariant
            i <= projs@.len(),
            has_agg == exists|j: int| 0 <= j < i && (#[trigger] projs@[j]).value is Aggregation,
        decreases projs@.len() - i,
    {
        match &projs[i].value {
            ProjectionValue::Aggregation(_) => {
                has_agg = true;
            },
            _ => {},
        }
        i = i + 1;
    }
    let ghost tab = envs(table@);
    let ghost projected = projected_rows(*st, *params, tab, projs@);
    proof {
        assert(has_agg == has_aggregation(projs@));
    }
    // Projection, each row with its sort text.
    let mut rows: Vec<(String, Row)> = Vec::new();
    if has_agg {
        let grouped = group_and_aggregate(st, params, table, projs);
        let mut g: usize = 0;
        while g < grouped.len()
            invariant
                table_ok(*st, grouped@),
                envs(grouped@) == grouped_rows(*st, *params, tab, projs@),
                has_aggregation(projs@),
                projected == projected_rows(*st, *params, tab, projs@),
                g <= grouped@.len(),
                keyed_ok(rows@),
                keyed_maps(rows@) == projected.take(g as int),
            decreases grouped@.len() - g,
        {
            let row = bindings_to_row(&grouped[g], projs);
            let text = row_sort_key(&row);
            proof {
                lemma_sort_key(row);
                assert(env_of(grouped@[g as int]) == envs(grouped@)[g as int]);
            }
            let ghost rm = row_map(row);
            let ghost before = keyed_maps(rows@);
            proof {
                assert(projected[g as int] == binding_row(env_of(grouped@[g as int]), projs@));
                assert(projected.len() == grouped@.len());
            }
            rows.push((text, row));
            proof {
                assert(keyed_maps(rows@) =~= before.push(rm));
                assert(projected.take(g + 1) =~= projected.take(g as int).push(projected[g as int]));
            }
            g = g + 1;
        }
        proof {
            assert(projected.take(g as int) =~= projected);
        }
    } else {
        let mut t: usize = 0;
        while t < table.len()
            invariant
                st.wf(),
                params.wf(),
                table_ok(*st, table@),
                tab == envs(table@),
                !has_aggregation(projs@),
                projected == projected_rows(*st, *params, tab, projs@),
                t <= table@.len(),
                keyed_ok(rows@),
                keyed_maps(rows@) == projected.take(t as int),
            decreases table@.len() - t,
        {
            let row = return_row(st, params, &table[t], projs);
            let text = row_sort_key(&row);
            proof {
                lemma_sort_key(row);
            }
            let ghost rm = row_map(row);
            let ghost before = keyed_maps(rows@);
            proof {
                assert(tab[t as int] == env_of(table@[t as int]));
                assert(projected[t as int] == returned_row(*st, *params, tab[t as int], projs@));
                assert(projected.len() == table@.len());
            }
            rows.push((text, row));
            proof {
                assert(keyed_maps(rows@) =~= before.push(rm));
                assert(projected.take(t + 1) =~= projected.take(t as int).push(projected[t as int]));
            }
            t = t + 1;
        }
        proof {
            assert(projected.take(t as int) =~= projected);
        }
    }
    // DISTINCT.
    let ghost deduped = if ret.distinct { distinct_rows(projected) } else { projected };
    let kept = if ret.distinct {
        let mut seen: Vec<String> = Vec::new();
        let mut kept: Vec<(String, Row)> = Vec::new();
        let mut rest = rows;
        let ghost all = rest@;
        assert(all.len() <= usize::MAX);
        let mut pending: Vec<(String, Row)> = Vec::new();
        while rest.len() > 0
            invariant
                pending@.len() + rest@.len() == all.len(),
                rest@ == all.take(rest@.len() as int),
                forall|k: int| 0 <= k < pending@.len() ==> #[trigger] pending@[k] == all[all.len() - 1 - k],
            decreases rest@.len(),
        {
            let x = rest.pop().unwrap();
            pending.push(x);
            proof {
                assert(rest@ =~= all.take(rest@.len() as int));
            }
        }
        let mut u: usize = 0;
        proof {
            assert(keyed_maps(all.take(0)) =~= Seq::<RowMap>::empty());
        }
        while pending.len() > 0
            invariant
                keyed_ok(all),
                all.len() <= usize::MAX,
                keyed_maps(all) == projected,
                u <= all.len(),
                pending@.len() + u == all.len(),
                forall|k: int| 0 <= k < pending@.len() ==> #[trigger] pending@[k] == all[all.len() - 1 - k],
                keyed_ok(kept@),
                keyed_maps(kept@) == distinct_rows(projected.take(u as int)),
                forall|s: Seq<char>| #[trigger] texts_of(seen@).contains(s) <==>
                    exists|j: int| 0 <= j < u && #[trigger] map_row_key(projected[j]) == s,
            decreases pending@.len(),
        {
            let x = pending.pop().unwrap();
            let ghost pt = projected.take(u + 1);
            proof {
                assert(x == all[u as int]);
                assert(pt.drop_last() =~= projected.take(u as int));
                assert(pt.last() == projected[u as int]);
                assert(projected[u as int] == row_map(x.1));
                assert((exists|j: int| 0 <= j < pt.len() - 1 && #[trigger] map_row_key(pt[j]) == map_row_key(pt.last()))
                    == (exists|j: int| 0 <= j < u && #[trigger] map_row_key(projected[j]) == map_row_key(projected[u as int]))) by {
                    if exists|j: int| 0 <= j < pt.len() - 1 && #[trigger] map_row_key(pt[j]) == map_row_key(pt.last()) {
                        let j = choose|j: int| 0 <= j < pt.len() - 1 && #[trigger] map_row_key(pt[j]) == map_row_key(pt.last());
                        assert(pt[j] == projected[j]);
                    }
                    if exists|j: int| 0 <= j < u && #[trigger] map_row_key(projected[j]) == map_row_key(projected[u as int]) {
                        let j = choose|j: int| 0 <= j < u && #[trigger] map_row_key(projected[j]) == map_row_key(projected[u as int]);
                        assert(pt[j] == projected[j]);
                    }
                }
            }
            let ghost ks = x.0@;
            let ghost old_texts = texts_of(seen@);
            let fresh = !contains_text(&seen, &x.0);
            if fresh {
                seen.push(x.0.clone());
                kept.push(x);
                proof {
                    assert(texts_of(seen@) =~= old_texts.push(ks));
                    assert(keyed_maps(kept@) =~= keyed_maps(kept@.drop_last()).push(projected[u as int]));
                }
            }
            proof {
                assert(map_row_key(projected[u as int]) == ks);
                assert forall|s: Seq<char>| #[trigger] texts_of(seen@).contains(s) <==>
                    exists|j: int| 0 <= j < u + 1 && #[trigger] map_row_key(projected[j]) == s by {
                    if s == ks {
                        if fresh {
                            assert(texts_of(seen@)[old_texts.len() as int] == ks);
                        } else {
                            assert(old_texts.contains(ks));
                        }
                    } else {
                        if fresh {
                            if texts_of(seen@).contains(s) {
                                let k = choose|k: int| 0 <= k < texts_of(seen@).len() && texts_of(seen@)[k] == s;
                                assert(k < old_texts.len());
                                assert(old_texts[k] == s);
                            }
                            if old_texts.contains(s) {
                                let k = choose|k: int| 0 <= k < old_texts.len() && old_texts[k] == s;
                                assert(texts_of(seen@)[k] == s);
                            }
                        }
                        if exists|j: int| 0 <= j < u + 1 && #[trigger] map_row_key(projected[j]) == s {
                            let j = choose|j: int| 0 <= j < u + 1 && #[trigger] map_row_key(projected[j]) == s;
                            assert(j < u);
                        }
                    }
                }
            }
            u = u + 1;
        }
        proof {
            assert(all.take(u as int) =~= all);
            assert(projected.take(u as int) =~= projected);
        }
        kept
    } else {
        rows
    };
    // ORDER BY.
    let mut keys: Vec<(String, bool)> = Vec::new();
    let mut o: usize = 0;
    while o < ret.order_by.len()
        invariant
            o <= ret.order_by@.len(),
            keys@.map_values(|k: (String, bool)| (k.0@, k.1)) == order_keys(*ret).take(o as int),
        decreases ret.order_by@.len() - o,
    {
        let a = expr_alias(&ret.order_by[o].expr);
        proof {
            assert(order_keys(*ret)[o as int] == (a@, ret.order_by@[o as int].descending));
        }
        let ghost before = keys@.map_values(|k: (String, bool)| (k.0@, k.1));
        keys.push((a, ret.order_by[o].descending));
        proof {
            assert(keys@.map_values(|k: (String, bool)| (k.0@, k.1)) =~= before.push(order_keys(*ret)[o as int]));
            assert(order_keys(*ret).take(o + 1) =~= order_keys(*ret).take(o as int).push(order_keys(*ret)[o as int]));
        }
        o = o + 1;
    }
    proof {
        assert(order_keys(*ret).take(o as int) =~= order_keys(*ret));
    }
    let mut sorted = sort_returned(&keys, ret, kept);
    // LIMIT.
    match ret.limit {
        Some(n) => {
            sorted.truncate(n as usize);
        },
        None => {},
    }
    let mut out: Vec<Row> = Vec::new();
    let mut rest = sorted;
    let ghost all = rest@;
    let mut pending: Vec<(String, Row)> = Vec::new();
    while rest.len() > 0
        invariant
            pending@.len() + rest@.len() == all.len(),
            rest@ == all.take(rest@.len() as int),
            forall|k: int| 0 <= k < pending@.len() ==> #[trigger] pending@[k] == all[all.len() - 1 - k],
        decreases rest@.len(),
    {
        let x = rest.pop().unwrap();
        pending.push(x);
        proof {
            assert(rest@ =~= all.take(rest@.len() as int));
        }
    }
    while pending.len() > 0
        invariant
            keyed_ok(all),
            out@.len() + pending@.len() == all.len(),
            forall|k: int| 0 <= k < pending@.len() ==> #[trigger] pending@[k] == all[all.len() - 1 - k],
            rows_wf(out@),
            row_maps(out@) == keyed_maps(all).take(out@.len() as int),
        decreases pending@.len(),
    {
        let x = pending.pop().unwrap();
        let ghost n = out@.len();
        proof {
            assert(x == all[n as int]);
        }
        out.push(x.1);
        proof {
            assert(row_maps(out@) =~= keyed_maps(all).take(n as int + 1));
        }
    }
    proof {
        assert(keyed_maps(all).take(out@.len() as int) =~= keyed_maps(all));
    }
    out
}

/// Whether some projection is an aggregation.
pub fn projections_aggregate(projs: &Vec<Projection>) -> (r: bool)
    ensures
        r == has_aggregation(projs@),
{
    let mut i: usize = 0;
    while i < projs.len()
        invariant
            i <= projs@.len(),
            forall|j: int| 0 <= j < i ==> !((#[trigger] projs@[j]).value is Aggregation),
        decreases projs@.len() - i,
    {
        match &projs[i].value {
            ProjectionValue::Aggregation(_) => {
                return true;
            },
            _ => {},
        }
        i = i + 1;
    }
    false
}

/// The rows of bindings `WITH projs` makes of a table, before its
/// trailing `WHERE`: grouped and aggregated when some projection
/// aggregates, else each row projected.
pub open spec fn with_projected(st: KeyspaceState, params: Params, table: Seq<Env>, projs: Seq<Projection>) -> Seq<Env> {
    if has_aggregation(projs) {
        grouped_rows(st, params, table, projs)
    } else {
        Seq::new(table.len(), |i: int| with_row(st, params, table[i], projs))
    }
}

/// Projects a table through `WITH projs` (before its trailing `WHERE`).
pub fn project_with(st: &KeyspaceState, params: &Params, table: &Vec<Bindings>, projs: &Vec<Projection>) -> (r: Vec<Bindings>)
    requires
        st.wf(),
        params.wf(),
        table_ok(*st, table@),
    ensures
        table_ok(*st, r@),
        envs(r@) == with_projected(*st, *params, envs(table@), projs@),
{
    if projections_aggregate(projs) {
        return group_and_aggregate(st, params, table, projs);
    }
    let ghost tab = envs(table@);
    let mut out: Vec<Bindings> = Vec::new();
    let mut t: usize = 0;
    while t < table.len()
        invariant
            st.wf(),
            params.wf(),
            table_ok(*st, table@),
            tab == envs(table@),
            t <= table@.len(),
            table_ok(*st, out@),
            envs(out@) == Seq::new(t as nat, |i: int| with_row(*st, *params, tab[i], projs@)),
        decreases table@.len() - t,
    {
        let row = project_with_row(st, params, &table[t], projs);
        proof {
            assert(env_valid(*st, env_of(row))) by {
                lemma_with_row_values(*st, *params, env_of(table@[t as int]), projs@);
            }
        }
        let ghost before = envs(out@);
        let ghost re = env_of(row);
        out.push(row);
        proof {
            assert(envs(out@) =~= before.push(re));
            assert(tab[t as int] == env_of(table@[t as int]));
            assert(Seq::new((t + 1) as nat, |i: int| with_row(*st, *params, tab[i], projs@))
                =~= Seq::new(t as nat, |i: int| with_row(*st, *params, tab[i], projs@)).push(re));
        }
        t = t + 1;
    }
    out
}

proof fn lemma_with_row_values(st: KeyspaceState, params: Params, env: Env, projs: Seq<Projection>)
    ensures
        env_valid(st, with_row(st, params, env, projs)),
    decreases projs.len(),
{
    if projs.len() > 0 {
        lemma_with_row_values(st, params, env, projs.drop_last());
        let m = with_row(st, params, env, projs.drop_last());
        assert forall|x: Seq<char>| #[trigger] with_row(st, params, env, projs).contains_key(x) implies match with_row(st, params, env, projs)[x] {
            BindView::Node(i) => i < st.nodes().len(),
            BindView::Edge(j) => j < st.edges().len(),
            _ => true,
        } by {
            if m.contains_key(x) {
                assert(env_valid(st, m));
            }
        }
    }
}


/// The default row order: by sort text.
pub open spec fn by_sort_text() -> spec_fn(RowMap, RowMap) -> bool {
    |a: RowMap, b: RowMap| lex_lt(map_row_key(a), map_row_key(b))
}

/// Rows strictly increasing by sort text.
pub open spec fn keys_increasing(rows: Seq<RowMap>) -> bool {
    forall|a: int, b: int| 0 <= a < b < rows.len() ==> lex_lt(map_row_key(#[trigger] rows[a]), map_row_key(#[trigger] rows[b]))
}

/// No two rows share a sort text.
pub open spec fn keys_distinct(rows: Seq<RowMap>) -> bool {
    forall|a: int, b: int| 0 <= a < b < rows.len() ==> map_row_key(#[trigger] rows[a]) != map_row_key(#[trigger] rows[b])
}

proof fn lemma_insert_sorted_increasing(sorted: Seq<RowMap>, x: RowMap)
    requires
        keys_increasing(sorted),
        forall|j: int| 0 <= j < sorted.len() ==> map_row_key(#[trigger] sorted[j]) != map_row_key(x),
    ensures
        keys_increasing(insert_sorted(sorted, x, by_sort_text())),
        forall|y: RowMap| #[trigger] insert_sorted(sorted, x, by_sort_text()).contains(y)
            <==> sorted.contains(y) || y == x,
    decreases sorted.len(),
{
    let less = by_sort_text();
    let r = insert_sorted(sorted, x, less);
    if sorted.len() == 0 {
        assert(r =~= seq![x]);
        assert forall|y: RowMap| #[trigger] r.contains(y) <==> sorted.contains(y) || y == x by {
            if r.contains(y) {
                let k = choose|k: int| 0 <= k < r.len() && r[k] == y;
            }
            if y == x {
                assert(r[0] == x);
            }
        }
    } else if less(x, sorted[0]) {
        assert(r =~= seq![x] + sorted);
        assert forall|a: int, b: int| 0 <= a < b < r.len() implies lex_lt(map_row_key(#[trigger] r[a]), map_row_key(#[trigger] r[b])) by {
            if a == 0 && b > 1 {
                lemma_lex_transitive(map_row_key(x), map_row_key(sorted[0]), map_row_key(sorted[b - 1]));
            }
            if a > 0 {
                assert(r[a] == sorted[a - 1] && r[b] == sorted[b - 1]);
            }
        }
        assert forall|y: RowMap| #[trigger] r.contains(y) <==> sorted.contains(y) || y == x by {
            if r.contains(y) && y != x {
                let k = choose|k: int| 0 <= k < r.len() && r[k] == y;
                assert(sorted[k - 1] == y);
            }
            if sorted.contains(y) {
                let k = choose|k: int| 0 <= k < sorted.len() && sorted[k] == y;
                assert(r[k + 1] == y);
            }
            if y == x {
                assert(r[0] == x);
            }
        }
    } else {
        let rest = sorted.drop_first();
        assert(keys_increasing(rest)) by {
            assert forall|a: int, b: int| 0 <= a < b < rest.len() implies lex_lt(map_row_key(#[trigger] rest[a]), map_row_key(#[trigger] rest[b])) by {
                assert(rest[a] == sorted[a + 1] && rest[b] == sorted[b + 1]);
            }
        }
        assert forall|j: int| 0 <= j < rest.len() implies map_row_key(#[trigger] rest[j]) != map_row_key(x) by {
            assert(rest[j] == sorted[j + 1]);
        }
        lemma_insert_sorted_increasing(rest, x);
        let t = insert_sorted(rest, x, less);
        assert(r =~= seq![sorted[0]] + t);
        lemma_lex_total(map_row_key(x), map_row_key(sorted[0]));
        assert(lex_lt(map_row_key(sorted[0]), map_row_key(x)));
        assert forall|a: int, b: int| 0 <= a < b < r.len() implies lex_lt(map_row_key(#[trigger] r[a]), map_row_key(#[trigger] r[b])) by {
            if a == 0 {
                let y = t[b - 1];
                assert(r[b] == y);
                assert(t.contains(y));
                if y != x {
                    assert(rest.contains(y));
                    let k = choose|k: int| 0 <= k < rest.len() && rest[k] == y;
                    assert(sorted[k + 1] == y);
                }
            } else {
                assert(r[a] == t[a - 1] && r[b] == t[b - 1]);
            }
        }
        assert forall|y: RowMap| #[trigger] r.contains(y) <==> sorted.contains(y) || y == x by {
            if r.contains(y) {
                let k = choose|k: int| 0 <= k < r.len() && r[k] == y;
                if k > 0 {
                    assert(t[k - 1] == y);
                    assert(t.contains(y));
                    if y != x {
                        assert(rest.contains(y));
                        let m = choose|m: int| 0 <= m < rest.len() && rest[m] == y;
                        assert(sorted[m + 1] == y);
                    }
                }
            }
            if sorted.contains(y) {
                let k = choose|k: int| 0 <= k < sorted.len() && sorted[k] == y;
                if k == 0 {
                    assert(r[0] == y);
                } else {
                    assert(rest[k - 1] == y);
                    assert(t.contains(y));
                    let m = choose|m: int| 0 <= m < t.len() && t[m] == y;
                    assert(r[m + 1] == y);
                }
            }
            if y == x {
                assert(t.contains(x));
                let m = choose|m: int| 0 <= m < t.len() && t[m] == x;
                assert(r[m + 1] == x);
            }
        }
    }
}

proof fn lemma_sort_rows_increasing(rows: Seq<RowMap>)
    requires
        keys_distinct(rows),
    ensures
        keys_increasing(sort_rows(rows, by_sort_text())),
        forall|y: RowMap| #[trigger] sort_rows(rows, by_sort_text()).contains(y)
            <==> rows.contains(y),
    decreases rows.len(),
{
    let less = by_sort_text();
    if rows.len() > 0 {
        let pre = rows.drop_last();
        assert(keys_distinct(pre)) by {
            assert forall|a: int, b: int| 0 <= a < b < pre.len() implies map_row_key(#[trigger] pre[a]) != map_row_key(#[trigger] pre[b]) by {
                assert(pre[a] == rows[a] && pre[b] == rows[b]);
            }
        }
        lemma_sort_rows_increasing(pre);
        let sp = sort_rows(pre, less);
        assert forall|j: int| 0 <= j < sp.len() implies map_row_key(#[trigger] sp[j]) != map_row_key(rows.last()) by {
            assert(sp.contains(sp[j]));
            assert(pre.contains(sp[j]));
            let k = choose|k: int| 0 <= k < pre.len() && pre[k] == sp[j];
            assert(rows[k] == sp[j]);
        }
        lemma_insert_sorted_increasing(sp, rows.last());
        assert forall|y: RowMap| #[trigger] sort_rows(rows, less).contains(y) <==> rows.contains(y) by {
            if rows.contains(y) {
                let k = choose|k: int| 0 <= k < rows.len() && rows[k] == y;
                if k < rows.len() - 1 {
                    assert(pre[k] == y);
                }
            }
            if pre.contains(y) {
                let k = choose|k: int| 0 <= k < pre.len() && pre[k] == y;
                assert(rows[k] == y);
            }
        }
    }
}

proof fn lemma_distinct_rows_identity(rows: Seq<RowMap>)
    requires
        keys_distinct(rows),
    ensures
        distinct_rows(rows) == rows,
    decreases rows.len(),
{
    if rows.len() > 0 {
        let pre = rows.drop_last();
        assert(keys_distinct(pre)) by {
            assert forall|a: int, b: int| 0 <= a < b < pre.len() implies map_row_key(#[trigger] pre[a]) != map_row_key(#[trigger] pre[b]) by {
                assert(pre[a] == rows[a] && pre[b] == rows[b]);
            }
        }
        lemma_distinct_rows_identity(pre);
        assert(!exists|j: int| 0 <= j < rows.len() - 1 && #[trigger] map_row_key(rows[j]) == map_row_key(rows.last()));
        assert(pre.push(rows.last()) =~= rows);
    }
}

/// Without `ORDER BY` and aggregation, `RETURN` does not depend on the
/// order of the rows it reads: rows come out by their sort text, so a
/// permuted table gives the same rows, when no two rows project to the
/// same sort text.
pub proof fn lemma_return_ignores_row_order(st: KeyspaceState, params: Params, table: Seq<Env>, perm: Seq<usize>, ret: ReturnClause)
    requires
        ret.order_by@.len() == 0,
        !has_aggregation(ret.projections@),
        perm.len() == table.len(),
        table.len() <= usize::MAX,
        forall|p: int| 0 <= p < perm.len() ==> #[trigger] perm[p] < table.len(),
        forall|p: int, q: int| 0 <= p < q < perm.len() ==> #[trigger] perm[p] != #[trigger] perm[q],
        forall|i: usize| i < table.len() ==> #[trigger] perm.contains(i),
        keys_distinct(projected_rows(st, params, table, ret.projections@)),
    ensures
        return_rows(st, params, Seq::new(table.len(), |p: int| table[perm[p] as int]), ret) == return_rows(st, params, table, ret),
        keys_increasing(return_rows(st, params, table, ret)),
{
    let t2 = Seq::new(table.len(), |p: int| table[perm[p] as int]);
    let projs = ret.projections@;
    let r1 = projected_rows(st, params, table, projs);
    let r2 = projected_rows(st, params, t2, projs);
    assert forall|p: int| 0 <= p < r2.len() implies #[trigger] r2[p] == r1[perm[p] as int] by {}
    assert(keys_distinct(r2)) by {
        assert forall|a: int, b: int| 0 <= a < b < r2.len() implies map_row_key(#[trigger] r2[a]) != map_row_key(#[trigger] r2[b]) by {
            let i = perm[a] as int;
            let j = perm[b] as int;
            if i < j {
            } else {
                assert(map_row_key(r1[j]) != map_row_key(r1[i]));
            }
        }
    }
    let (d1, d2) = if ret.distinct {
        lemma_distinct_rows_identity(r1);
        lemma_distinct_rows_identity(r2);
        (distinct_rows(r1), distinct_rows(r2))
    } else {
        (r1, r2)
    };
    assert(d1 == r1 && d2 == r2);
    let less = by_sort_text();
    assert(return_less(ret) =~= less);
    lemma_sort_rows_increasing(r1);
    lemma_sort_rows_increasing(r2);
    let s1 = sort_rows(r1, less);
    let s2 = sort_rows(r2, less);
    assert forall|y: RowMap| s1.contains(y) <==> s2.contains(y) by {
        if r1.contains(y) {
            let k = choose|k: int| 0 <= k < r1.len() && r1[k] == y;
            assert(perm.contains(k as usize));
            let p = choose|p: int| 0 <= p < perm.len() && perm[p] == k as usize;
            assert(r2[p] == y);
        }
        if r2.contains(y) {
            let p = choose|p: int| 0 <= p < r2.len() && r2[p] == y;
            assert(r1[perm[p] as int] == y);
        }
    }
    assert(sorted_by(s1, less)) by {
        assert forall|a: int, b: int| 0 <= a < b < s1.len() implies #[trigger] less(s1[a], s1[b]) by {
            assert(lex_lt(map_row_key(s1[a]), map_row_key(s1[b])));
        }
    }
    assert(sorted_by(s2, less)) by {
        assert forall|a: int, b: int| 0 <= a < b < s2.len() implies #[trigger] less(s2[a], s2[b]) by {
            assert(lex_lt(map_row_key(s2[a]), map_row_key(s2[b])));
        }
    }
    assert(strict_total_on(s1, less)) by {
        assert forall|x: RowMap| #[trigger] s1.contains(x) implies !less(x, x) by {
            lemma_lex_irreflexive(map_row_key(x));
        }
        assert forall|x: RowMap, y: RowMap| s1.contains(x) && s1.contains(y) && #[trigger] less(x, y) implies !less(y, x) by {
            lemma_lex_asymmetric(map_row_key(x), map_row_key(y));
        }
        assert forall|x: RowMap, y: RowMap| #[trigger] s1.contains(x) && #[trigger] s1.contains(y) implies less(x, y) || less(y, x) || x == y by {
            lemma_lex_total(map_row_key(x), map_row_key(y));
            if map_row_key(x) == map_row_key(y) {
                let a = choose|a: int| 0 <= a < r1.len() && r1[a] == x;
                let b = choose|b: int| 0 <= b < r1.len() && r1[b] == y;
                if a < b {
                    assert(map_row_key(r1[a]) != map_row_key(r1[b]));
                } else if b < a {
                    assert(map_row_key(r1[b]) != map_row_key(r1[a]));
                }
            }
        }
    }
    lemma_sorted_unique(s1, s2, less);
}

/// `e` has a value on row `env`, and it is not null.
pub open spec fn has_nonnull_value(st: KeyspaceState, params: Params, env: Env, e: Expr) -> bool {
    match expr_val(st, params, env, e) {
        Some(PropView::Null) => false,
        Some(_) => true,
        None => false,
    }
}

/// `count(e)` counts the rows on which `e` has a non-null value, and no
/// others: it is at most `count(*)`; it is 0 when `e` is null or missing on
/// every row; it is `count(*)` when `e` is non-null on every row; and
/// adding a row on which `e` is null or missing leaves it unchanged.
pub proof fn lemma_count_skips_nulls(st: KeyspaceState, params: Params, rows: Seq<Env>, e: Expr, extra: Env)
    ensures
        count_present(st, params, rows, e) <= rows.len(),
        (forall|i: int| 0 <= i < rows.len() ==> !has_nonnull_value(st, params, #[trigger] rows[i], e))
            ==> agg_value(st, params, rows, Aggregation::Count(e)) == RowView::Scalar(PropView::Int(0)),
        (forall|i: int| 0 <= i < rows.len() ==> has_nonnull_value(st, params, #[trigger] rows[i], e))
            ==> count_present(st, params, rows, e) == rows.len(),
        !has_nonnull_value(st, params, extra, e) ==> count_present(st, params, rows.push(extra), e)
            == count_present(st, params, rows, e),
        has_nonnull_value(st, params, extra, e) ==> count_present(st, params, rows.push(extra), e)
            == count_present(st, params, rows, e) + 1,
    decreases rows.len(),
{
    let r2 = rows.push(extra);
    assert(r2.drop_last() =~= rows);
    if rows.len() > 0 {
        let pre = rows.drop_last();
        lemma_count_skips_nulls(st, params, pre, e, rows.last());
        if forall|i: int| 0 <= i < rows.len() ==> !has_nonnull_value(st, params, #[trigger] rows[i], e) {
            assert forall|i: int| 0 <= i < pre.len() implies !has_nonnull_value(st, params, #[trigger] pre[i], e) by {
                assert(pre[i] == rows[i]);
            }
            assert(!has_nonnull_value(st, params, rows[rows.len() - 1], e));
        }
        if forall|i: int| 0 <= i < rows.len() ==> has_nonnull_value(st, params, #[trigger] rows[i], e) {
            assert forall|i: int| 0 <= i < pre.len() implies has_nonnull_value(st, params, #[trigger] pre[i], e) by {
                assert(pre[i] == rows[i]);
            }
            assert(has_nonnull_value(st, params, rows[rows.len() - 1], e));
        }
    }
}
} // verus!
