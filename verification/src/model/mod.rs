//! RDF terms as plain values.
pub mod blank_node;
pub mod term;

pub use blank_node::BlankNode;
pub use term::{Literal, NamedNode, Quad, QuadView, Term, TermView, Variable};
