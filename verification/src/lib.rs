//! An embeddable RDF quad store with a SPARQL query engine.
//!
//! `model` holds the RDF terms. `sparql` holds the query engine: the parser
//! and the algebra that it gives, the plan builder that lowers the algebra
//! over the string store of a dataset view, the evaluator that interprets
//! plans, the federation of `SERVICE` patterns through a service handler,
//! and the prepared-query handle.
//!
//! `STR`, `LANG`, `DATATYPE`, `CONCAT`, `SUBSTR`, `UCASE`, `LCASE`,
//! `SECONDS`, division and the aggregates `AVG` and `GROUP_CONCAT` give
//! terms whose text the string store need not hold: a string, or the
//! lexical form of a decimal number. `exec` interns each such text, so the
//! store grows while a query runs; `sparql::finish` says which texts are
//! interned and proves that the result is that of the plan over the store
//! as the call leaves it, which holds each of them.
//!
//! What is refused when a query is prepared. A call of one of those
//! functions, or one of those aggregates, in the condition that the algebra
//! can give an optional join, which is evaluated over a store that does not
//! change (the grammar gives no such condition: a `FILTER` in an `OPTIONAL`
//! stays in its group). `REGEX` and `REPLACE`, which need a
//! regular-expression engine. `NOW`, which needs a clock.
//! `sparql::algebra::Function` and `sparql::placing` say more.
//!
//! The only numbers that take part in arithmetic and in comparisons by
//! value are the 64-bit integers. What `AVG`, `SECONDS` and division give
//! is a literal of the datatype of decimal numbers, and so is a decimal
//! number that a query or the data writes: it is equal to the literals of
//! the same lexical form, and `SUM` and `AVG` pass it over.
//!
//! Evaluation is stated over mathematical models: `sparql::semantics::rows`
//! says what a plan yields from a row, and the laws of joins, optional joins,
//! `DISTINCT` and `ORDER BY` are proved of it. A result can be had whole, or
//! row by row from a cursor that hands out those same rows in order.
//!
//! The grammar of query texts is a function of its own,
//! `sparql::grammar::parse_spec`, and the parser gives what it gives. It
//! reads the prologue, the four shapes of a query, groups with `OPTIONAL`,
//! `UNION`, `MINUS`, `GRAPH`, `SERVICE`, `FILTER` and `BIND`, lists of
//! predicates and objects, blank node labels, strings in either quotes
//! with their escapes, comments, expressions, aggregates with `GROUP BY`,
//! `ORDER BY`, `LIMIT` and `OFFSET`. It does not read `[]` and collections,
//! strings in three quotes, numbers with a sign or an exponent, property
//! paths, subqueries, `VALUES`, `HAVING`, `IN`, nor `FROM`.
pub mod model;
pub mod sparql;
