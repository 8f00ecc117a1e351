use vstd::prelude::*;

pub mod bounded_context;
pub mod dump;
pub mod clause;
pub mod concepts;
pub mod elems;
pub mod entries;
pub mod eval;
pub mod explain;
pub mod expr;
pub mod fact;
pub mod graph;
pub mod graph_api;
pub mod history;
pub mod index_spec;
pub mod keys;
pub mod lookup;
pub mod metrics;
pub mod order;
pub mod path;
pub mod persist;
pub mod pattern;
pub mod query;
pub mod reachability;
pub mod rfc_docs;
pub mod signature;
pub mod sorted;
pub mod store;
pub mod suggest;
pub mod text;
pub mod value;
pub mod view;

verus! {
}
