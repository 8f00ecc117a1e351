//! The query language: patterns, `WHERE` predicates, expressions,
//! projections and parameter bindings.
use vstd::prelude::*;

use crate::fact::PropValue;
use crate::sorted::SortedMap;

verus! {

/// A comparison operator.
#[derive(Clone, Copy, Debug, PartialEq, Eq, Structural)]
pub enum CompareOp {
    Eq,
    Ne,
    Lt,
    Le,
    Gt,
    Ge,
}

/// An expression.
#[derive(Debug)]
pub enum Expr {
    /// `var.prop`
    Property { var: String, prop: String },
    /// A bound variable.
    Var(String),
    /// A literal value.
    Literal(PropValue),
    /// `$name`
    Param(String),
    /// A function call.
    Call { name: String, args: Vec<Expr> },
    /// A list literal.
    List(Vec<Expr>),
}

/// A node pattern `(var:Label {prop: value, ..})`.
#[derive(Debug)]
pub struct NodePattern {
    pub var: Option<String>,
    pub label: Option<String>,
    /// Inline property equalities, keyed by property name.
    pub props: SortedMap<String, PropValue>,
}

/// A `WHERE` predicate.
#[derive(Debug)]
pub enum Predicate {
    Compare { left: Expr, op: CompareOp, right: Expr },
    In { left: Expr, right: Expr },
    Regex { left: Expr, pattern: Expr },
    /// `NOT EXISTS { <subquery> }`: the subquery yields no row.
    NotExists { inner: Box<Query> },
    Ne { left: Expr, right: Expr },
    And(Box<Predicate>, Box<Predicate>),
    Or(Box<Predicate>, Box<Predicate>),
    Not(Box<Predicate>),
}

/// The direction an edge pattern is followed in.
#[derive(Clone, Copy, Debug, PartialEq, Eq, Structural)]
pub enum Direction {
    Out,
    In,
    Undirected,
}

/// An edge pattern `-[var:LABEL*min..max]->`.
#[derive(Debug)]
pub struct EdgePattern {
    pub var: Option<String>,
    pub label: Option<String>,
    pub direction: Direction,
    /// The hop range of a variable-length pattern.
    pub var_length: Option<(u32, u32)>,
}

/// A path pattern `(from)-[edge]->(to)`.
#[derive(Debug)]
pub struct PathPattern {
    pub from: NodePattern,
    pub edge: EdgePattern,
    pub to: NodePattern,
}

/// One `MATCH` / `OPTIONAL MATCH` / `UNWIND` clause.
#[derive(Debug)]
pub enum Pattern {
    Node(NodePattern),
    Path(PathPattern),
    Optional(Box<Pattern>),
    /// `UNWIND $list_param AS var`
    Unwind { list_param: String, var: String },
}

/// An aggregation.
#[derive(Debug)]
pub enum Aggregation {
    /// `count(*)`
    CountStar,
    Count(Expr),
    CountDistinct(Expr),
    Collect(Expr),
    CollectDistinct(Expr),
    Size(Expr),
}

/// What a projection yields.
#[derive(Debug)]
pub enum ProjectionValue {
    Expr(Expr),
    Aggregation(Aggregation),
}

/// One projected column, with its optional `AS` alias.
#[derive(Debug)]
pub struct Projection {
    pub value: ProjectionValue,
    pub alias: Option<String>,
}

/// One `ORDER BY` key.
#[derive(Debug)]
pub struct OrderBy {
    pub expr: Expr,
    pub descending: bool,
}

/// The `RETURN` clause.
#[derive(Debug)]
pub struct ReturnClause {
    pub projections: Vec<Projection>,
    pub distinct: bool,
    pub order_by: Vec<OrderBy>,
    pub limit: Option<u64>,
}

/// The `WITH` clause, with its trailing `WHERE`.
#[derive(Debug)]
pub struct WithClause {
    pub projections: Vec<Projection>,
    pub where_clause: Option<Predicate>,
}

/// A query.
#[derive(Debug)]
pub struct Query {
    pub match_clauses: Vec<Pattern>,
    pub where_clause: Option<Predicate>,
    pub with_clause: Option<WithClause>,
    pub return_clause: ReturnClause,
    /// The values of the query's `$name` parameters.
    pub params: SortedMap<String, ParamBinding>,
}

/// The value bound to a query parameter.
#[derive(Debug)]
pub enum ParamBinding {
    Scalar(PropValue),
    List(Vec<PropValue>),
}

} // verus!
