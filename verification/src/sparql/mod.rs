//! The SPARQL query engine: the algebra of a parsed query, the plan builder
//! that lowers it over the string store of a dataset view, the evaluator
//! that interprets plans, the cursors that hand out the rows of a plan one
//! by one, and the prepared-query handle.
pub mod aggregate;
pub mod algebra;
pub mod algebra_view;
pub mod ask;
pub mod canonical;
pub mod cursor;
pub mod dataset;
pub mod display;
pub mod eval;
pub mod evaluator;
pub mod finish;
pub mod frame;
pub mod grammar;
pub mod iri;
pub mod laws;
pub mod lexer;
pub mod lowering;
pub mod model;
pub mod names;
pub mod numeric;
pub mod order_laws;
pub mod parser;
pub mod placing;
pub mod plan;
pub mod plan_builder;
pub mod results;
pub mod select_laws;
pub mod semantics;
pub mod service;
pub mod solutions;
pub mod sort;
pub mod stable;
pub mod stream_laws;
pub mod text;
pub mod texts;
pub mod triples;

pub use crate::sparql::dataset::{DatasetView, EncodedQuad, EncodedTerm};
pub use crate::sparql::evaluator::SimpleEvaluator;
pub use crate::sparql::model::{Error, QueryResult};
pub use crate::sparql::plan_builder::PlanBuilder;
pub use crate::sparql::service::{NoneService, ServiceAnswer, ServiceHandler};

use crate::model::term::Variable;
use crate::sparql::algebra::{GraphPattern, QueryVariants, TriplePattern};
use crate::sparql::algebra_view::{copy_variants, QueryView};
use crate::sparql::canonical::{
    dataset_held, is_distinct_plan, lemma_distinct_output_differs, lemma_plan_held_later,
    lemma_rows_held, plan_held, row_held, rows_held,
};
use crate::sparql::dataset::Dataset;
use crate::sparql::finish::{complete, is_text_free, lemma_text_free_complete, placed};
use crate::sparql::placing::build_defect;
use crate::sparql::plan::rows_view;
use crate::sparql::stable::{lemma_extends_itself, text_free};
use crate::sparql::display::{query_text, query_to_string};
use crate::sparql::grammar::parse_spec;
use crate::sparql::lowering::{
    lowers, names_of, pattern_state, triples_defect, triples_state, BuildState,
};
use crate::sparql::parser::{base_view, read_sparql_query};
use crate::sparql::plan::{
    is_unavailable, unbound_row, PatternValue, PlanNode, ServiceRequest, TripleTemplate,
};
use crate::sparql::plan_builder::{error_of, lowers_template};
use crate::sparql::results::{
    all_values, construct_all, describe_terms, is_bindings, names_columns, output_slots,
    quads_view, term_view,
};
use crate::sparql::solutions::Solutions;
use crate::sparql::triples::Triples;
use crate::sparql::semantics::{distinct_terms, present, rows};
use crate::sparql::service::answered;
use vstd::prelude::*;

verus! {

/// A parsed SPARQL query.
#[derive(Eq, PartialEq, Debug, Hash)]
pub struct Query(pub QueryVariants);

impl Clone for Query {
    fn clone(&self) -> (copy: Self)
        ensures
            copy.0@ == self.0@,
    {
        Query(copy_variants(&self.0))
    }
}

impl Query {
    /// The text of the query: its base IRI, the word of its shape, and its
    /// algebra, each pattern as its name and its parts.
    pub fn to_string(&self) -> (text: String)
        ensures
            text@ == query_text(self.0),
    {
        query_to_string(&self.0)
    }

    /// Parses a SPARQL query: gives the query that the grammar defines for
    /// the text, and fails with `MalformedQuery` and the place that the
    /// grammar defines for every other text.
    pub fn parse(query: &str, base_iri: Option<&str>) -> (parsed: Result<Self, Error>)
        ensures
            match parsed {
                Ok(read) => parse_spec(query@, base_view(base_iri)) == Ok::<QueryView, usize>(
                    read.0@,
                ),
                Err(error) => error matches Error::MalformedQuery { position } && parse_spec(
                    query@,
                    base_view(base_iri),
                ) == Err::<QueryView, usize>(position),
            },
    {
        match read_sparql_query(query, base_iri) {
            Ok(variants) => Ok(Query(variants)),
            Err(error) => Err(error),
        }
    }
}

/// A prepared SPARQL query.
pub trait PreparedQuery {
    /// Whether the query is as its constructor left it.
    spec fn well_formed(&self) -> bool;

    /// Evaluates the query and returns its results.
    fn exec(&mut self) -> (result: Result<QueryResult, Error>)
        requires
            old(self).well_formed(),
        ensures
            final(self).well_formed(),
    ;
}

/// The four shapes of a prepared query.
#[derive(PartialEq, Eq, Debug)]
pub enum SimplePreparedQueryOptions {
    Select,
    Ask,
    Construct { construct: Vec<TripleTemplate> },
    Describe,
}

/// A query compiled against one dataset view, with the handler of its
/// federated patterns.
pub struct SimplePreparedQuery<H: ServiceHandler> {
    options: SimplePreparedQueryOptions,
    plan: PlanNode,
    variables: Vec<Variable>,
    services: Vec<ServiceRequest>,
    evaluator: SimpleEvaluator,
    handler: H,
}

/// Whether `result` is what a query of the given shape yields over a
/// dataset: the solutions of a `SELECT` over its output slots, whether an
/// `ASK` has a solution, the quads that the templates of a `CONSTRUCT` give,
/// or the quads that describe what the solutions of a `DESCRIBE` bind.
pub open spec fn is_result(
    result: QueryResult,
    options: SimplePreparedQueryOptions,
    plan: PlanNode,
    variables: Seq<Variable>,
    dataset: Dataset,
) -> bool {
    let solutions = rows(plan, dataset, unbound_row(variables.len()));
    match options {
        SimplePreparedQueryOptions::Select => is_bindings(
            result,
            dataset.strings,
            names_of(variables),
            output_slots(plan, variables.len()),
            solutions,
        ),
        SimplePreparedQueryOptions::Ask => result == QueryResult::Boolean(solutions.len() > 0),
        SimplePreparedQueryOptions::Construct { construct } => result matches QueryResult::Graph(
            quads,
        ) && quads_view(quads@) == construct_all(dataset.strings, construct@, solutions),
        SimplePreparedQueryOptions::Describe => result matches QueryResult::Graph(quads)
            && quads_view(quads@) == describe_terms(
            dataset,
            distinct_terms(present(all_values(solutions, output_slots(plan, variables.len())))),
        ),
    }
}

/// The graph pattern of a query.
pub open spec fn algebra_of(variants: QueryVariants) -> GraphPattern {
    match variants {
        QueryVariants::Select { algebra, .. } => algebra,
        QueryVariants::Ask { algebra, .. } => algebra,
        QueryVariants::Construct { algebra, .. } => algebra,
        QueryVariants::Describe { algebra, .. } => algebra,
    }
}

/// The template of a `CONSTRUCT`, empty for the other shapes.
pub open spec fn template_of(variants: QueryVariants) -> Seq<TriplePattern> {
    match variants {
        QueryVariants::Construct { construct, .. } => construct@,
        _ => Seq::empty(),
    }
}

/// The error that preparing a query gives, `None` where it can be prepared:
/// that of the worst defect of its pattern, as `build_defect` tells; else
/// `EncodingFailure` where a constant of its template cannot be interned.
pub open spec fn defect_of(variants: QueryVariants) -> Option<Error> {
    if build_defect(algebra_of(variants)) > 0 {
        Some(error_of(build_defect(algebra_of(variants))))
    } else if triples_defect(template_of(variants), template_of(variants).len() as int) > 0 {
        Some(Error::EncodingFailure)
    } else {
        None
    }
}

impl<H: ServiceHandler> SimplePreparedQuery<H> {
    /// The shape of the query, with the template of a `CONSTRUCT`.
    pub closed spec fn options(&self) -> SimplePreparedQueryOptions {
        self.options
    }

    /// The plan of the query.
    pub closed spec fn plan(&self) -> PlanNode {
        self.plan
    }

    /// The variable of each slot.
    pub closed spec fn variables(&self) -> Seq<Variable> {
        self.variables@
    }

    /// The federated patterns of the plan.
    pub closed spec fn services(&self) -> Seq<ServiceRequest> {
        self.services@
    }

    /// The handler of the federated patterns.
    pub closed spec fn handler(&self) -> H {
        self.handler
    }

    /// What the query is evaluated over: the dataset, and what its services
    /// answered when it was last evaluated.
    pub closed spec fn dataset(&self) -> Dataset {
        self.evaluator@
    }

    /// Whether `self` is `variants` compiled over the dataset `before`: its
    /// plan is the plan of the pattern, its template is that of the query,
    /// its variable table and its string store are those that lowering
    /// leaves, and its quads are those of the dataset.
    pub open spec fn prepares(&self, variants: QueryVariants, before: Dataset) -> bool {
        let start = BuildState { variables: Seq::empty(), strings: before.strings, services: 0 };
        let built = pattern_state(algebra_of(variants), start);
        let after = triples_state(
            template_of(variants),
            template_of(variants).len() as int,
            BuildState { variables: built.variables, strings: built.strings, services: 0 },
        );
        &&& lowers(
            algebra_of(variants),
            self.plan(),
            start,
            PatternValue::Constant(EncodedTerm::DefaultGraph),
            self.services(),
        )
        &&& self.services().len() == built.services
        &&& names_of(self.variables()) == after.variables
        &&& self.dataset().strings == after.strings
        &&& self.dataset().quads == before.quads
        &&& self.dataset().answers.len() == 0
        &&& match variants {
            QueryVariants::Select { .. } => self.options() is Select,
            QueryVariants::Ask { .. } => self.options() is Ask,
            QueryVariants::Describe { .. } => self.options() is Describe,
            QueryVariants::Construct { construct, .. } => self.options() matches SimplePreparedQueryOptions::Construct {
                construct: triples,
            } && triples@.len() == construct@.len() && forall|i: int|
                0 <= i < construct@.len() ==> lowers_template(
                    construct@,
                    i,
                    #[trigger] triples@[i],
                    BuildState {
                        variables: built.variables,
                        strings: built.strings,
                        services: 0,
                    },
                ),
        }
    }

    /// Compiles a parsed query against a dataset view.
    ///
    /// Fails exactly where `defect_of` gives an error, with that error.
    pub fn from_variants(connection: DatasetView, variants: QueryVariants, handler: H) -> (prepared:
        Result<Self, Error>)
        requires
            connection@.well_formed(),
        ensures
            match prepared {
                Ok(query) => defect_of(variants) is None && query.prepares(variants, connection@)
                    && query.well_formed() && query.handler() == handler && plan_held(
                    query.dataset().strings,
                    query.plan(),
                ) && connection@.strings.is_prefix_of(query.dataset().strings),
                Err(error) => defect_of(variants) == Some(error),
            },
    {
        let mut dataset = connection;
        match variants {
            QueryVariants::Select { algebra, .. } => {
                let built = match PlanBuilder::build(&mut dataset, algebra) {
                    Ok(built) => built,
                    Err(error) => {
                        return Err(error);
                    },
                };
                Ok(
                    SimplePreparedQuery {
                        options: SimplePreparedQueryOptions::Select,
                        plan: built.plan,
                        variables: built.variables,
                        services: built.services,
                        evaluator: SimpleEvaluator::new(dataset),
                        handler,
                    },
                )
            },
            QueryVariants::Ask { algebra, .. } => {
                let built = match PlanBuilder::build(&mut dataset, algebra) {
                    Ok(built) => built,
                    Err(error) => {
                        return Err(error);
                    },
                };
                Ok(
                    SimplePreparedQuery {
                        options: SimplePreparedQueryOptions::Ask,
                        plan: built.plan,
                        variables: built.variables,
                        services: built.services,
                        evaluator: SimpleEvaluator::new(dataset),
                        handler,
                    },
                )
            },
            QueryVariants::Describe { algebra, .. } => {
                let built = match PlanBuilder::build(&mut dataset, algebra) {
                    Ok(built) => built,
                    Err(error) => {
                        return Err(error);
                    },
                };
                Ok(
                    SimplePreparedQuery {
                        options: SimplePreparedQueryOptions::Describe,
                        plan: built.plan,
                        variables: built.variables,
                        services: built.services,
                        evaluator: SimpleEvaluator::new(dataset),
                        handler,
                    },
                )
            },
            QueryVariants::Construct { construct, algebra, .. } => {
                let built = match PlanBuilder::build(&mut dataset, algebra) {
                    Ok(built) => built,
                    Err(error) => {
                        return Err(error);
                    },
                };
                let ghost held = dataset@.strings;
                let (triples, table) = match PlanBuilder::build_graph_template(
                    &mut dataset,
                    &construct,
                    built.variables,
                ) {
                    Ok(found) => found,
                    Err(error) => {
                        return Err(error);
                    },
                };
                proof {
                    lemma_plan_held_later(held, dataset@.strings, built.plan);
                    crate::sparql::dataset::lemma_prefix_transitive(
                        connection@.strings,
                        held,
                        dataset@.strings,
                    );
                }
                Ok(
                    SimplePreparedQuery {
                        options: SimplePreparedQueryOptions::Construct { construct: triples },
                        plan: built.plan,
                        variables: table,
                        services: built.services,
                        evaluator: SimpleEvaluator::new(dataset),
                        handler,
                    },
                )
            },
        }
    }

    /// Compiles a query text against a dataset view.
    ///
    /// Fails with `MalformedQuery` where the text is no query, and else
    /// exactly where `defect_of` gives an error for the query that the text
    /// stands for, with that error.
    pub fn new(connection: DatasetView, query: &str, base_iri: Option<&str>, handler: H) -> (prepared:
        Result<Self, Error>)
        requires
            connection@.well_formed(),
        ensures
            match parse_spec(query@, base_view(base_iri)) {
                Err(position) => prepared == Err::<Self, Error>(
                    Error::MalformedQuery { position },
                ),
                Ok(view) => exists|variants: QueryVariants|
                    #![trigger defect_of(variants)]
                    variants@ == view && match prepared {
                        Ok(query) => defect_of(variants) is None && query.prepares(
                            variants,
                            connection@,
                        ) && query.well_formed() && query.handler() == handler && plan_held(
                            query.dataset().strings,
                            query.plan(),
                        ) && connection@.strings.is_prefix_of(query.dataset().strings),
                        Err(error) => defect_of(variants) == Some(error),
                    },
            },
    {
        let variants = match read_sparql_query(query, base_iri) {
            Ok(variants) => variants,
            Err(error) => {
                return Err(error);
            },
        };
        let ghost read = variants;
        let prepared = Self::from_variants(connection, variants, handler);
        assert(read@ == parse_spec(query@, base_view(base_iri))->Ok_0 && match prepared {
            Ok(query) => defect_of(read) is None && query.prepares(read, connection@)
                && query.well_formed() && query.handler() == handler && plan_held(
                query.dataset().strings,
                query.plan(),
            ) && connection@.strings.is_prefix_of(query.dataset().strings),
            Err(error) => defect_of(read) == Some(error),
        });
        prepared
    }

    /// Compiles a bare graph pattern against a dataset view, as a `SELECT`.
    pub fn new_from_pattern(connection: DatasetView, pattern: GraphPattern, handler: H) -> (prepared:
        Result<Self, Error>)
        requires
            connection@.well_formed(),
        ensures
            match prepared {
                Ok(query) => build_defect(pattern) == 0 && query.prepares(
                    QueryVariants::Select { algebra: pattern, base_iri: None },
                    connection@,
                ) && query.well_formed() && query.handler() == handler && plan_held(
                    query.dataset().strings,
                    query.plan(),
                ) && connection@.strings.is_prefix_of(query.dataset().strings),
                Err(error) => build_defect(pattern) > 0 && error == error_of(
                    build_defect(pattern),
                ),
            },
    {
        Self::from_variants(
            connection,
            QueryVariants::Select { algebra: pattern, base_iri: None },
            handler,
        )
    }
}

impl<H: ServiceHandler> SimplePreparedQuery<H> {
    /// Asks the handler for each federated pattern of the plan and keeps
    /// the answers for the evaluations that follow.
    ///
    /// Fails with `ServiceUnavailable` exactly where a federated pattern
    /// that is not silent got no answer.
    pub fn ask_services(&mut self) -> (asked: Result<(), Error>)
        requires
            old(self).well_formed(),
        ensures
            final(self).well_formed(),
            final(self).options() == old(self).options(),
            final(self).plan() == old(self).plan(),
            final(self).variables() == old(self).variables(),
            final(self).services() == old(self).services(),
            final(self).dataset().quads == old(self).dataset().quads,
            old(self).dataset().strings.is_prefix_of(final(self).dataset().strings),
            final(self).dataset().answers.len() == final(self).services().len(),
            old(self).services().len() == 0 ==> final(self).dataset().strings == old(
                self,
            ).dataset().strings,
            final(self).handler() == old(self).handler(),
            answered(
                final(self).handler(),
                final(self).services(),
                final(self).dataset().answers,
                final(self).dataset().strings,
                final(self).variables().len() as usize,
            ),
            match asked {
                Ok(done) => !is_unavailable(final(self).services(), final(self).dataset().answers),
                Err(error) => error == Error::ServiceUnavailable && is_unavailable(
                    final(self).services(),
                    final(self).dataset().answers,
                ),
            },
    {
        let width = self.variables.len();
        let ghost before = self.evaluator@.strings;
        self.evaluator.ask_services(&self.handler, &self.services, width);
        proof {
            lemma_plan_held_later(before, self.evaluator@.strings, self.plan);
        }
        if self.evaluator.unavailable(&self.services) {
            Err(Error::ServiceUnavailable)
        } else {
            Ok(())
        }
    }

    /// Asks the services, then interns each text that the plan builds.
    /// Gives the solutions of the plan where it had to evaluate the plan for
    /// that, and `None` for a plan that builds no text.
    fn settle(&mut self) -> (settled: Result<Option<Vec<crate::sparql::plan::EncodedTuple>>, Error>)
        requires
            old(self).well_formed(),
        ensures
            final(self).well_formed(),
            final(self).options() == old(self).options(),
            final(self).plan() == old(self).plan(),
            final(self).variables() == old(self).variables(),
            final(self).services() == old(self).services(),
            final(self).dataset().quads == old(self).dataset().quads,
            old(self).dataset().strings.is_prefix_of(final(self).dataset().strings),
            final(self).dataset().answers.len() == final(self).services().len(),
            (old(self).services().len() == 0 && text_free(old(self).plan())) ==> final(self).dataset().strings
                == old(self).dataset().strings,
            final(self).handler() == old(self).handler(),
            answered(
                final(self).handler(),
                final(self).services(),
                final(self).dataset().answers,
                final(self).dataset().strings,
                final(self).variables().len() as usize,
            ),
            match settled {
                Ok(found) => !is_unavailable(
                    final(self).services(),
                    final(self).dataset().answers,
                ) && complete(
                    final(self).plan(),
                    final(self).dataset(),
                    unbound_row(final(self).variables().len()),
                ) && match found {
                    Some(solutions) => rows_view(solutions@) == rows(
                        final(self).plan(),
                        final(self).dataset(),
                        unbound_row(final(self).variables().len()),
                    ),
                    None => true,
                },
                Err(error) => error == Error::ServiceUnavailable && is_unavailable(
                    final(self).services(),
                    final(self).dataset().answers,
                ),
            },
    {
        let width = self.variables.len();
        match self.ask_services() {
            Ok(()) => {},
            Err(error) => {
                return Err(error);
            },
        }
        if is_text_free(&self.plan) {
            proof {
                lemma_text_free_complete(self.plan, self.evaluator@, unbound_row(width as nat));
            }
            return Ok(None);
        }
        let ghost asked = self.evaluator@;
        proof {
            lemma_answers_held(
                self.handler,
                self.services@,
                asked.answers,
                asked.strings,
                width,
            );
            assert(dataset_held(asked)) by {
                assert forall|k: int| 0 <= k < asked.quads.len() implies crate::sparql::canonical::quad_held(
                    asked.strings,
                    #[trigger] asked.quads[k],
                ) by {
                    assert(asked.well_formed());
                }
            }
        }
        let start = crate::sparql::eval::new_row(width);
        let solutions = self.evaluator.finish(&self.plan, &start);
        proof {
            let after = self.evaluator@;
            lemma_extends_itself(after);
            lemma_plan_held_later(asked.strings, after.strings, self.plan);
            crate::sparql::dataset::lemma_prefix_transitive(
                old(self).evaluator@.strings,
                asked.strings,
                after.strings,
            );
            assert forall|i: int| 0 <= i < self.services@.len() implies #[trigger] crate::sparql::service::answer_for(
                self.handler,
                self.services@[i],
                after.answers[i],
                after.strings,
                width,
            ) by {
                assert(crate::sparql::service::answer_for(
                    self.handler,
                    self.services@[i],
                    asked.answers[i],
                    asked.strings,
                    width,
                ));
                crate::sparql::service::lemma_answer_in_larger_store(
                    self.handler,
                    self.services@[i],
                    asked.answers[i],
                    asked.strings,
                    after.strings,
                    width,
                );
            }
        }
        Ok(Some(solutions))
    }

    /// Asks the handler for each federated pattern of the plan, then
    /// interns each text that a function of the plan builds, as `exec`
    /// does, without building a result: the streams of `solutions` and
    /// `triples` read the dataset as it is, and hand out what `exec` gives
    /// once the store holds those texts.
    ///
    /// Fails with `ServiceUnavailable` exactly where a federated pattern
    /// that is not silent got no answer.
    pub fn prepare(&mut self) -> (prepared: Result<(), Error>)
        requires
            old(self).well_formed(),
        ensures
            final(self).well_formed(),
            final(self).options() == old(self).options(),
            final(self).plan() == old(self).plan(),
            final(self).variables() == old(self).variables(),
            final(self).services() == old(self).services(),
            final(self).dataset().quads == old(self).dataset().quads,
            old(self).dataset().strings.is_prefix_of(final(self).dataset().strings),
            final(self).dataset().answers.len() == final(self).services().len(),
            (old(self).services().len() == 0 && text_free(old(self).plan())) ==> final(self).dataset().strings
                == old(self).dataset().strings,
            final(self).handler() == old(self).handler(),
            answered(
                final(self).handler(),
                final(self).services(),
                final(self).dataset().answers,
                final(self).dataset().strings,
                final(self).variables().len() as usize,
            ),
            match prepared {
                Ok(done) => !is_unavailable(
                    final(self).services(),
                    final(self).dataset().answers,
                ) && complete(
                    final(self).plan(),
                    final(self).dataset(),
                    unbound_row(final(self).variables().len()),
                ),
                Err(error) => error == Error::ServiceUnavailable && is_unavailable(
                    final(self).services(),
                    final(self).dataset().answers,
                ),
            },
    {
        match self.settle() {
            Ok(_) => Ok(()),
            Err(error) => Err(error),
        }
    }

    /// Gives back the dataset view that the query was compiled against,
    /// with the strings that the query and its services added.
    pub fn into_dataset(self) -> (dataset: DatasetView)
        ensures
            dataset@.strings == self.dataset().strings,
            dataset@.quads == self.dataset().quads,
            self.well_formed() ==> dataset@.well_formed(),
    {
        self.evaluator.into_dataset()
    }

    /// The solutions of the plan as a stream, over the dataset as it is and
    /// what the services answered when they were last asked. Nothing is
    /// evaluated until a solution is asked for, and nothing is interned: a
    /// function whose text the store does not hold gives an error, so call
    /// `prepare` first where the plan builds texts.
    pub fn solutions(&self) -> (stream: Solutions<'_>)
        ensures
            stream.dataset() == self.dataset(),
            stream.slots() == output_slots(self.plan(), self.variables().len()),
            names_columns(stream.names(), names_of(self.variables()), stream.slots()),
            stream.remaining() == rows(
                self.plan(),
                self.dataset(),
                unbound_row(self.variables().len()),
            ),
    {
        self.evaluator.solutions(&self.plan, &self.variables)
    }

    /// The quads of a `CONSTRUCT` as a stream, over the dataset as it is and
    /// what the services answered when they were last asked; `None` for a
    /// query of another shape. Nothing is evaluated until a quad is asked
    /// for, and nothing is interned, as with `solutions`.
    pub fn triples(&self) -> (stream: Option<Triples<'_>>)
        ensures
            match stream {
                Some(quads) => self.options() matches SimplePreparedQueryOptions::Construct {
                    construct,
                } && quads.dataset() == self.dataset() && quads.remaining()
                    == construct_all(
                    self.dataset().strings,
                    construct@,
                    rows(self.plan(), self.dataset(), unbound_row(self.variables().len())),
                ),
                None => !(self.options() is Construct),
            },
    {
        match &self.options {
            SimplePreparedQueryOptions::Construct { construct } => Some(
                self.evaluator.triples(&self.plan, construct, self.variables.len()),
            ),
            _ => None,
        }
    }
}

impl<H: ServiceHandler> PreparedQuery for SimplePreparedQuery<H> {
    closed spec fn well_formed(&self) -> bool {
        &&& self.evaluator@.well_formed()
        &&& placed(self.plan)
        &&& plan_held(self.evaluator@.strings, self.plan)
    }

    /// Asks the handler for each federated pattern of the plan, then
    /// evaluates the plan over the dataset and the answers.
    ///
    /// Fails with `ServiceUnavailable` exactly where a federated pattern
    /// that is not silent got no answer; so a query whose federated patterns
    /// are all silent, or that has none, succeeds. Each text that a function
    /// of the plan builds is interned, so the string store may grow; the
    /// result is that of the plan over the dataset as the call leaves it,
    /// which holds each of those texts.
    fn exec(&mut self) -> (result: Result<QueryResult, Error>)
        ensures
            final(self).options() == old(self).options(),
            final(self).plan() == old(self).plan(),
            final(self).variables() == old(self).variables(),
            final(self).services() == old(self).services(),
            final(self).dataset().quads == old(self).dataset().quads,
            old(self).dataset().strings.is_prefix_of(final(self).dataset().strings),
            final(self).dataset().answers.len() == final(self).services().len(),
            (old(self).services().len() == 0 && text_free(old(self).plan())) ==> final(self).dataset().strings
                == old(self).dataset().strings,
            final(self).handler() == old(self).handler(),
            answered(
                final(self).handler(),
                final(self).services(),
                final(self).dataset().answers,
                final(self).dataset().strings,
                final(self).variables().len() as usize,
            ),
            match result {
                Ok(found) => !is_unavailable(
                    final(self).services(),
                    final(self).dataset().answers,
                ) && is_result(
                    found,
                    final(self).options(),
                    final(self).plan(),
                    final(self).variables(),
                    final(self).dataset(),
                ) && complete(
                    final(self).plan(),
                    final(self).dataset(),
                    unbound_row(final(self).variables().len()),
                ),
                Err(error) => error == Error::ServiceUnavailable && is_unavailable(
                    final(self).services(),
                    final(self).dataset().answers,
                ),
            },
    {
        let width = self.variables.len();
        let settled = match self.settle() {
            Ok(settled) => settled,
            Err(error) => {
                return Err(error);
            },
        };
        let found = match settled {
            None => match &self.options {
                SimplePreparedQueryOptions::Select => self.evaluator.evaluate_select_plan(
                    &self.plan,
                    &self.variables,
                ),
                SimplePreparedQueryOptions::Ask => self.evaluator.evaluate_ask_plan(
                    &self.plan,
                    width,
                ),
                SimplePreparedQueryOptions::Construct { construct } => self.evaluator.evaluate_construct_plan(
                    &self.plan,
                    construct,
                    width,
                ),
                SimplePreparedQueryOptions::Describe => self.evaluator.evaluate_describe_plan(
                    &self.plan,
                    width,
                ),
            },
            Some(solutions) => {
                proof {
                    assert(rows_view(solutions@).len() == solutions@.len());
                }
                match &self.options {
                    SimplePreparedQueryOptions::Select => self.evaluator.bindings_of(
                        &self.plan,
                        &self.variables,
                        &solutions,
                    ),
                    SimplePreparedQueryOptions::Ask => QueryResult::Boolean(solutions.len() > 0),
                    SimplePreparedQueryOptions::Construct { construct } => self.evaluator.graph_of(
                        construct,
                        &solutions,
                    ),
                    SimplePreparedQueryOptions::Describe => self.evaluator.description_of(
                        &self.plan,
                        width,
                        &solutions,
                    ),
                }
            },
        };
        Ok(found)
    }
}

/// A query whose federated patterns are all silent is never unavailable.
pub proof fn lemma_silent_services_are_available(
    services: Seq<ServiceRequest>,
    answers: Seq<Option<Seq<crate::sparql::plan::Row>>>,
)
    requires
        forall|i: int| 0 <= i < services.len() ==> (#[trigger] services[i]).silent,
    ensures
        !is_unavailable(services, answers),
{
}

/// The answers of the services hold the one surrogate of each of their
/// terms: each was interned when it was given.
pub proof fn lemma_answers_held<H: ServiceHandler>(
    handler: H,
    services: Seq<ServiceRequest>,
    answers: Seq<Option<Seq<crate::sparql::plan::Row>>>,
    strings: Seq<Seq<char>>,
    width: usize,
)
    requires
        answered(handler, services, answers, strings, width),
    ensures
        forall|id: int|
            0 <= id < answers.len() ==> ((#[trigger] answers[id]) matches Some(tuples)
                ==> rows_held(strings, tuples)),
{
    assert forall|id: int| 0 <= id < answers.len() implies ((#[trigger] answers[id]) matches Some(
        tuples,
    ) ==> rows_held(strings, tuples)) by {
        if let Some(tuples) = answers[id] {
            assert(crate::sparql::service::answer_for(
                handler,
                services[id],
                answers[id],
                strings,
                width,
            ));
            let answer = choose|answer: ServiceAnswer| #[trigger]
                call_ensures(
                    H::handle,
                    (&handler, &services[id].endpoint, &services[id].pattern),
                    answer,
                ) && crate::sparql::service::gives(
                    answers[id],
                    answer,
                    services[id],
                    strings,
                    width,
                );
            let given = answer->rows@;
            assert forall|i: int| 0 <= i < tuples.len() implies row_held(
                strings,
                #[trigger] tuples[i],
            ) by {
                assert(crate::sparql::service::encodes_row(
                    strings,
                    tuples[i],
                    answer->variables@,
                    given[i]@,
                    services[id].variables@,
                    width,
                ));
                assert forall|k: int| 0 <= k < tuples[i].len() implies crate::sparql::canonical::value_held(
                    strings,
                    #[trigger] tuples[i][k],
                ) by {
                    let slot = k as usize;
                    assert(tuples[i][slot as int] == tuples[i][k]);
                }
            }
        }
    }
}

/// Every solution of a prepared query holds the one surrogate of each of
/// its terms, so that solutions that differ decode to different terms: the
/// dataset holds such surrogates, the plan builder gave the plan such
/// constants, and the answers of the services were interned.
pub proof fn lemma_solutions_held<H: ServiceHandler>(query: SimplePreparedQuery<H>)
    requires
        query.well_formed(),
        plan_held(query.dataset().strings, query.plan()),
        query.variables().len() <= usize::MAX,
        answered(
            query.handler(),
            query.services(),
            query.dataset().answers,
            query.dataset().strings,
            query.variables().len() as usize,
        ) || query.dataset().answers.len() == 0,
    ensures
        rows_held(
            query.dataset().strings,
            rows(query.plan(), query.dataset(), unbound_row(query.variables().len())),
        ),
{
    let dataset = query.dataset();
    if dataset.answers.len() > 0 {
        lemma_answers_held(
            query.handler(),
            query.services(),
            dataset.answers,
            dataset.strings,
            query.variables().len() as usize,
        );
    }
    assert(dataset_held(dataset)) by {
        assert forall|i: int| 0 <= i < dataset.quads.len() implies crate::sparql::canonical::quad_held(
            dataset.strings,
            #[trigger] dataset.quads[i],
        ) by {
            assert(dataset.well_formed());
        }
    }
    lemma_rows_held(query.plan(), dataset, unbound_row(query.variables().len()));
}

/// No two rows of the result of a `SELECT DISTINCT` are equal in every
/// output position: some column holds different terms in the two, or a
/// term in one and none in the other.
pub proof fn lemma_distinct_result<H: ServiceHandler>(
    query: SimplePreparedQuery<H>,
    result: QueryResult,
    i: int,
    j: int,
)
    requires
        query.well_formed(),
        plan_held(query.dataset().strings, query.plan()),
        query.variables().len() <= usize::MAX,
        answered(
            query.handler(),
            query.services(),
            query.dataset().answers,
            query.dataset().strings,
            query.variables().len() as usize,
        ) || query.dataset().answers.len() == 0,
        query.options() is Select,
        is_distinct_plan(query.plan()),
        is_result(result, query.options(), query.plan(), query.variables(), query.dataset()),
        0 <= i < j < result->rows@.len(),
    ensures
        result is Bindings,
        exists|c: int|
            0 <= c < result->rows@[i]@.len() && c < result->rows@[j]@.len() && term_view(
                #[trigger] result->rows@[i]@[c],
            ) != term_view(result->rows@[j]@[c]),
{
    let dataset = query.dataset();
    let width = query.variables().len();
    if dataset.answers.len() > 0 {
        lemma_answers_held(
            query.handler(),
            query.services(),
            dataset.answers,
            dataset.strings,
            width as usize,
        );
    }
    assert(dataset_held(dataset)) by {
        assert forall|k: int| 0 <= k < dataset.quads.len() implies crate::sparql::canonical::quad_held(
            dataset.strings,
            #[trigger] dataset.quads[k],
        ) by {
            assert(dataset.well_formed());
        }
    }
    lemma_distinct_output_differs(query.plan(), dataset, width, i, j);
    let slots = output_slots(query.plan(), width);
    let solutions = rows(query.plan(), dataset, unbound_row(width));
    let c = choose|c: int|
        0 <= c < slots.len() && crate::sparql::results::decoded(
            dataset.strings,
            solutions[i],
            #[trigger] slots[c],
        ) != crate::sparql::results::decoded(dataset.strings, solutions[j], slots[c]);
    let out = result->rows@;
    assert(out[i]@.len() == slots.len());
    assert(out[j]@.len() == slots.len());
    assert(term_view(out[i]@[c]) == crate::sparql::results::decoded(
        dataset.strings,
        solutions[i],
        slots[c],
    ));
    assert(term_view(out[j]@[c]) == crate::sparql::results::decoded(
        dataset.strings,
        solutions[j],
        slots[c],
    ));
}

} // verus!
