use crate::model::term::{Quad, Term, Variable};
use vstd::prelude::*;

verus! {

/// Why a query could not be prepared or evaluated.
///
/// An error in an expression on one row is no such reason: the row is
/// dropped by `FILTER`, or the variable of `BIND` is left unbound.
#[derive(Clone, Copy, PartialEq, Eq, Structural, Debug, Hash)]
pub enum Error {
    /// The query text is no query, at the given character; or the query
    /// holds an aggregate that the planner cannot lower.
    MalformedQuery { position: usize },
    /// A constant of the query cannot be interned.
    EncodingFailure,
    /// The query holds a built-in function that the planner cannot lower.
    UnsupportedFeature,
    /// A `SERVICE` that is not silent was declined or failed.
    ServiceUnavailable,
}

/// The result of a query.
#[derive(PartialEq, Eq, Debug)]
pub enum QueryResult {
    /// The solutions of a `SELECT`: the output variables in their order,
    /// and one row for each solution, with one term or `None` for each
    /// variable.
    Bindings { variables: Vec<Variable>, rows: Vec<Vec<Option<Term>>> },
    /// The answer of an `ASK`.
    Boolean(bool),
    /// The quads of a `CONSTRUCT` or a `DESCRIBE`.
    Graph(Vec<Quad>),
}

} // verus!
