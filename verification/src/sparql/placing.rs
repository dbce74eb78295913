use crate::sparql::algebra::{AggregateFunction, Expression, GraphPattern};
use crate::sparql::finish::{expression_placed, placed};
use crate::sparql::lowering::{
    aggregates_state, arguments_state, comparators_state, expression_state, lowers,
    lowers_aggregate, lowers_comparator, lowers_expression, lowers_triples, pattern_state,
    position_state, lower_position, variables_state, BuildState,
};
use crate::sparql::plan::{PatternValue, PlanExpression, PlanNode, ServiceRequest};
use crate::sparql::stable::{text_free, text_free_expression};
use crate::sparql::algebra::TriplePattern;
use vstd::prelude::*;

verus! {

/// Whether an expression holds no call of a function that builds a text.
pub open spec fn call_free_expression(expression: Expression) -> bool
    decreases expression,
{
    match expression {
        Expression::Constant(_) => true,
        Expression::Variable(_) => true,
        Expression::Bound(_) => true,
        Expression::Unary(_, a) => call_free_expression(*a),
        Expression::Binary(_, a, b) => call_free_expression(*a) && call_free_expression(*b),
        Expression::If(condition, a, b) => call_free_expression(*condition)
            && call_free_expression(*a) && call_free_expression(*b),
        Expression::Coalesce(arguments) => forall|i: int|
            0 <= i < arguments.len() ==> call_free_expression(#[trigger] arguments[i]),
        Expression::Exists(pattern) => call_free(*pattern),
        Expression::FunctionCall(_, _) => false,
    }
}

/// Whether a pattern holds no call of a function that builds a text, and
/// no aggregate that does. What a federated pattern holds is handed to its
/// service and is not looked into.
pub open spec fn call_free(pattern: GraphPattern) -> bool
    decreases pattern,
{
    match pattern {
        GraphPattern::Bgp(_) => true,
        GraphPattern::Join(left, right) => call_free(*left) && call_free(*right),
        GraphPattern::LeftJoin(left, right, expression) => call_free(*left) && call_free(*right)
            && (expression matches Some(condition) ==> call_free_expression(condition)),
        GraphPattern::Filter(expression, inner) => call_free(*inner) && call_free_expression(
            expression,
        ),
        GraphPattern::Union(left, right) => call_free(*left) && call_free(*right),
        GraphPattern::Graph(_, inner) => call_free(*inner),
        GraphPattern::Extend(inner, _, expression) => call_free(*inner) && call_free_expression(
            expression,
        ),
        GraphPattern::Minus(left, right) => call_free(*left) && call_free(*right),
        GraphPattern::Service(_, _, _) => true,
        GraphPattern::Group(inner, _, aggregates) => call_free(*inner) && forall|j: int|
            0 <= j < aggregates.len() ==> (#[trigger] aggregates[j]).0.function
                != AggregateFunction::GroupConcat && aggregates[j].0.function
                != AggregateFunction::Avg && (aggregates[j].0.argument matches Some(
                argument,
            ) ==> call_free_expression(argument)),
        GraphPattern::Project(inner, _) => call_free(*inner),
        GraphPattern::Distinct(inner) => call_free(*inner),
        GraphPattern::Reduced(inner) => call_free(*inner),
        GraphPattern::OrderBy(inner, comparators) => call_free(*inner) && forall|j: int|
            0 <= j < comparators.len() ==> call_free_expression(
                (#[trigger] comparators[j]).expression,
            ),
        GraphPattern::Slice(inner, _, _) => call_free(*inner),
    }
}

/// Whether the calls of an expression that build texts stand where
/// evaluation can intern what they build, those of the pattern of an
/// `EXISTS` too.
pub open spec fn well_placed_expression(expression: Expression) -> bool
    decreases expression,
{
    match expression {
        Expression::Constant(_) => true,
        Expression::Variable(_) => true,
        Expression::Bound(_) => true,
        Expression::Unary(_, a) => well_placed_expression(*a),
        Expression::Binary(_, a, b) => well_placed_expression(*a) && well_placed_expression(*b),
        Expression::If(condition, a, b) => well_placed_expression(*condition)
            && well_placed_expression(*a) && well_placed_expression(*b),
        Expression::Coalesce(arguments) => forall|i: int|
            0 <= i < arguments.len() ==> well_placed_expression(#[trigger] arguments[i]),
        Expression::Exists(pattern) => well_placed(*pattern),
        Expression::FunctionCall(_, arguments) => forall|i: int|
            0 <= i < arguments.len() ==> well_placed_expression(#[trigger] arguments[i]),
    }
}

/// Whether the calls of a pattern that build texts, and its aggregates
/// that do, stand where evaluation can intern what they build: anywhere
/// but in the condition of an optional join.
pub open spec fn well_placed(pattern: GraphPattern) -> bool
    decreases pattern,
{
    match pattern {
        GraphPattern::Project(inner, _) => well_placed(*inner),
        GraphPattern::Distinct(inner) => well_placed(*inner),
        GraphPattern::Reduced(inner) => well_placed(*inner),
        GraphPattern::Slice(inner, _, _) => well_placed(*inner),
        GraphPattern::OrderBy(inner, comparators) => well_placed(*inner) && forall|j: int|
            0 <= j < comparators.len() ==> well_placed_expression(
                (#[trigger] comparators[j]).expression,
            ),
        GraphPattern::Filter(expression, inner) => well_placed(*inner) && well_placed_expression(
            expression,
        ),
        GraphPattern::Extend(inner, _, expression) => well_placed(*inner)
            && well_placed_expression(expression),
        GraphPattern::Group(inner, _, aggregates) => well_placed(*inner) && forall|j: int|
            0 <= j < aggregates.len() ==> ((#[trigger] aggregates[j]).0.argument matches Some(
                argument,
            ) ==> well_placed_expression(argument)),
        GraphPattern::Join(left, right) => well_placed(*left) && well_placed(*right),
        GraphPattern::LeftJoin(left, right, expression) => well_placed(*left) && well_placed(
            *right,
        ) && (expression matches Some(condition) ==> call_free_expression(condition)),
        GraphPattern::Union(left, right) => well_placed(*left) && well_placed(*right),
        GraphPattern::Minus(left, right) => well_placed(*left) && well_placed(*right),
        GraphPattern::Graph(_, inner) => well_placed(*inner),
        _ => call_free(pattern),
    }
}

/// How severe the worst defect of a pattern is for the plan builder: that
/// of `pattern_defect`; and 2, as of a function that cannot be lowered,
/// where the pattern has no other defect and a call that builds a text
/// does not stand well.
pub open spec fn build_defect(pattern: GraphPattern) -> nat {
    if crate::sparql::lowering::pattern_defect(pattern) == 0 && !well_placed(pattern) {
        2
    } else {
        crate::sparql::lowering::pattern_defect(pattern)
    }
}

/// An expression that builds no text stands well.
pub proof fn lemma_free_expression_is_placed(expression: PlanExpression)
    requires
        text_free_expression(expression),
    ensures
        expression_placed(expression),
    decreases expression,
{
    match expression {
        PlanExpression::Unary(_, a) => {
            lemma_free_expression_is_placed(*a);
        },
        PlanExpression::Binary(_, a, b) => {
            lemma_free_expression_is_placed(*a);
            lemma_free_expression_is_placed(*b);
        },
        PlanExpression::If(condition, a, b) => {
            lemma_free_expression_is_placed(*condition);
            lemma_free_expression_is_placed(*a);
            lemma_free_expression_is_placed(*b);
        },
        PlanExpression::Coalesce(arguments) => {
            assert forall|i: int| 0 <= i < arguments.len() implies expression_placed(
                #[trigger] arguments[i],
            ) by {
                assert(text_free_expression(arguments[i]));
                lemma_free_expression_is_placed(arguments[i]);
            }
        },
        PlanExpression::Exists(pattern) => {
            lemma_free_is_placed(*pattern);
        },
        _ => {},
    }
}

/// A plan that builds no text stands well.
pub proof fn lemma_free_is_placed(node: PlanNode)
    requires
        text_free(node),
    ensures
        placed(node),
    decreases node,
{
    match node {
        PlanNode::Project { child, .. } => {
            lemma_free_is_placed(*child);
        },
        PlanNode::Distinct { child } => {
            lemma_free_is_placed(*child);
        },
        PlanNode::Reduced { child } => {
            lemma_free_is_placed(*child);
        },
        PlanNode::Slice { child, .. } => {
            lemma_free_is_placed(*child);
        },
        PlanNode::Sort { child, by } => {
            lemma_free_is_placed(*child);
            assert forall|j: int| 0 <= j < by.len() implies expression_placed(
                (#[trigger] by[j]).expression,
            ) by {
                lemma_free_expression_is_placed(by[j].expression);
            }
        },
        PlanNode::Filter { child, expression } => {
            lemma_free_is_placed(*child);
            lemma_free_expression_is_placed(expression);
        },
        PlanNode::Extend { child, expression, .. } => {
            lemma_free_is_placed(*child);
            lemma_free_expression_is_placed(expression);
        },
        PlanNode::Group { child, aggregates, .. } => {
            lemma_free_is_placed(*child);
            assert forall|j: int| 0 <= j < aggregates.len() implies ((
            #[trigger] aggregates[j]).parameter matches Some(argument) ==> expression_placed(
                argument,
            )) by {
                if let Some(argument) = aggregates[j].parameter {
                    lemma_free_expression_is_placed(argument);
                }
            }
        },
        PlanNode::QuadPatternJoin { child, .. } => {
            lemma_free_is_placed(*child);
        },
        PlanNode::Join { left, right } => {
            lemma_free_is_placed(*left);
            lemma_free_is_placed(*right);
        },
        PlanNode::LeftJoin { left, right, .. } => {
            lemma_free_is_placed(*left);
            lemma_free_is_placed(*right);
        },
        PlanNode::Union { left, right } => {
            lemma_free_is_placed(*left);
            lemma_free_is_placed(*right);
        },
        PlanNode::Minus { left, right } => {
            lemma_free_is_placed(*left);
            lemma_free_is_placed(*right);
        },
        _ => {},
    }
}

proof fn lemma_lowered_triples_free(
    patterns: Seq<TriplePattern>,
    n: int,
    plan: PlanNode,
    state: BuildState,
    graph: PatternValue,
)
    requires
        lowers_triples(patterns, n, plan, state, graph),
    ensures
        text_free(plan),
    decreases n,
{
    if 0 < n <= patterns.len() {
        lemma_lowered_triples_free(patterns, n - 1, *plan->QuadPatternJoin_child, state, graph);
    }
}

/// What an expression without calls is lowered to builds no text.
pub proof fn lemma_lowered_expression_free(
    expression: Expression,
    lowered: PlanExpression,
    state: BuildState,
    graph: PatternValue,
    services: Seq<ServiceRequest>,
)
    requires
        lowers_expression(expression, lowered, state, graph, services),
        call_free_expression(expression),
    ensures
        text_free_expression(lowered),
    decreases expression, 1int, 0int,
{
    match expression {
        Expression::Unary(_, a) => {
            lemma_lowered_expression_free(*a, *lowered->Unary_1, state, graph, services);
        },
        Expression::Binary(_, a, b) => {
            lemma_lowered_expression_free(*a, *lowered->Binary_1, state, graph, services);
            lemma_lowered_expression_free(
                *b,
                *lowered->Binary_2,
                expression_state(*a, state),
                graph,
                services,
            );
        },
        Expression::If(condition, a, b) => {
            lemma_lowered_expression_free(*condition, *lowered->If_0, state, graph, services);
            lemma_lowered_expression_free(
                *a,
                *lowered->If_1,
                expression_state(*condition, state),
                graph,
                services,
            );
            lemma_lowered_expression_free(
                *b,
                *lowered->If_2,
                expression_state(*a, expression_state(*condition, state)),
                graph,
                services,
            );
        },
        Expression::Coalesce(arguments) => {
            let items = lowered->Coalesce_0;
            assert forall|i: int| 0 <= i < items.len() implies text_free_expression(
                #[trigger] items[i],
            ) by {
                assert(call_free_expression(arguments[i]));
                lemma_lowered_expression_free(
                    arguments[i],
                    items[i],
                    arguments_state(expression, i, state),
                    graph,
                    services,
                );
            }
        },
        Expression::Exists(pattern) => {
            lemma_lowered_free(*pattern, *lowered->Exists_0, state, graph, services);
        },
        _ => {},
    }
}

/// What a pattern without calls is lowered to builds no text.
pub proof fn lemma_lowered_free(
    pattern: GraphPattern,
    plan: PlanNode,
    state: BuildState,
    graph: PatternValue,
    services: Seq<ServiceRequest>,
)
    requires
        lowers(pattern, plan, state, graph, services),
        call_free(pattern),
    ensures
        text_free(plan),
    decreases pattern, 1int, 0int,
{
    match pattern {
        GraphPattern::Bgp(patterns) => {
            lemma_lowered_triples_free(patterns@, patterns.len() as int, plan, state, graph);
        },
        GraphPattern::Join(left, right) => {
            lemma_lowered_free(*left, *plan->Join_left, state, graph, services);
            lemma_lowered_free(
                *right,
                *plan->Join_right,
                pattern_state(*left, state),
                graph,
                services,
            );
        },
        GraphPattern::LeftJoin(left, right, expression) => {
            lemma_lowered_free(*left, *plan->LeftJoin_left, state, graph, services);
            lemma_lowered_free(
                *right,
                *plan->LeftJoin_right,
                pattern_state(*left, state),
                graph,
                services,
            );
            if let Some(condition) = expression {
                lemma_lowered_expression_free(
                    condition,
                    plan->LeftJoin_expression->0,
                    pattern_state(*right, pattern_state(*left, state)),
                    graph,
                    services,
                );
            }
        },
        GraphPattern::Filter(expression, inner) => {
            lemma_lowered_free(*inner, *plan->Filter_child, state, graph, services);
            lemma_lowered_expression_free(
                expression,
                plan->Filter_expression,
                pattern_state(*inner, state),
                graph,
                services,
            );
        },
        GraphPattern::Union(left, right) => {
            lemma_lowered_free(*left, *plan->Union_left, state, graph, services);
            lemma_lowered_free(
                *right,
                *plan->Union_right,
                pattern_state(*left, state),
                graph,
                services,
            );
        },
        GraphPattern::Graph(name, inner) => {
            lemma_lowered_free(
                *inner,
                plan,
                position_state(name, state),
                lower_position(name, state),
                services,
            );
        },
        GraphPattern::Extend(inner, _, expression) => {
            lemma_lowered_free(*inner, *plan->Extend_child, state, graph, services);
            lemma_lowered_expression_free(
                expression,
                plan->Extend_expression,
                pattern_state(*inner, state),
                graph,
                services,
            );
        },
        GraphPattern::Minus(left, right) => {
            lemma_lowered_free(*left, *plan->Minus_left, state, graph, services);
            lemma_lowered_free(
                *right,
                *plan->Minus_right,
                pattern_state(*left, state),
                graph,
                services,
            );
        },
        GraphPattern::Service(_, _, _) => {},
        GraphPattern::Group(inner, keys, aggregates) => {
            lemma_lowered_free(*inner, *plan->Group_child, state, graph, services);
            lemma_lowered_aggregates_free(pattern, plan, state, graph, services);
        },
        GraphPattern::Project(inner, _) => {
            lemma_lowered_free(*inner, *plan->Project_child, state, graph, services);
        },
        GraphPattern::Distinct(inner) => {
            lemma_lowered_free(*inner, *plan->Distinct_child, state, graph, services);
        },
        GraphPattern::Reduced(inner) => {
            lemma_lowered_free(*inner, *plan->Reduced_child, state, graph, services);
        },
        GraphPattern::OrderBy(inner, _) => {
            lemma_lowered_free(*inner, *plan->Sort_child, state, graph, services);
            lemma_lowered_keys_free(pattern, plan, state, graph, services);
        },
        GraphPattern::Slice(inner, _, _) => {
            lemma_lowered_free(*inner, *plan->Slice_child, state, graph, services);
        },
    }
}

proof fn lemma_lowered_aggregates_free(
    pattern: GraphPattern,
    plan: PlanNode,
    state: BuildState,
    graph: PatternValue,
    services: Seq<ServiceRequest>,
)
    requires
        pattern is Group,
        lowers(pattern, plan, state, graph, services),
        forall|j: int|
            0 <= j < pattern->Group_2.len() ==> ((#[trigger] pattern->Group_2[j]).0.argument matches Some(
                argument,
            ) ==> call_free_expression(argument)),
    ensures
        plan is Group,
        forall|j: int|
            0 <= j < plan->Group_aggregates.len() ==> ((
            #[trigger] plan->Group_aggregates[j]).parameter matches Some(argument)
                ==> text_free_expression(argument)),
        (forall|j: int|
            0 <= j < pattern->Group_2.len() ==> (#[trigger] pattern->Group_2[j]).0.function
                != AggregateFunction::GroupConcat && pattern->Group_2[j].0.function
                != AggregateFunction::Avg) ==> crate::sparql::stable::no_joins(plan),
    decreases pattern, 0int, 2int,
{
    let aggregates = pattern->Group_2;
    let keys = pattern->Group_1;
    let lowered = plan->Group_aggregates;
    let s2 = variables_state(keys@, keys.len() as int, pattern_state(*pattern->Group_0, state));
    assert forall|j: int| 0 <= j < lowered.len() implies ((#[trigger] lowered[j]).parameter matches Some(
        argument,
    ) ==> text_free_expression(argument)) && ((aggregates[j].0.function
        != AggregateFunction::GroupConcat && aggregates[j].0.function != AggregateFunction::Avg)
        ==> !crate::sparql::stable::joins(lowered[j].function)) by {
        assert(lowers_aggregate(pattern, j, lowered[j], s2, graph, services));
        assert(lowered[j].function == crate::sparql::lowering::lower_function(
            aggregates[j].0.function,
        ));
        if let Some(parameter) = lowered[j].parameter {
            let argument = aggregates[j].0.argument->0;
            assert(call_free_expression(argument));
            lemma_lowered_expression_free(
                argument,
                parameter,
                aggregates_state(pattern, j, s2),
                graph,
                services,
            );
        }
    }
}

proof fn lemma_lowered_keys_free(
    pattern: GraphPattern,
    plan: PlanNode,
    state: BuildState,
    graph: PatternValue,
    services: Seq<ServiceRequest>,
)
    requires
        pattern is OrderBy,
        lowers(pattern, plan, state, graph, services),
        forall|j: int|
            0 <= j < pattern->OrderBy_1.len() ==> call_free_expression(
                (#[trigger] pattern->OrderBy_1[j]).expression,
            ),
    ensures
        plan is Sort,
        forall|j: int|
            0 <= j < plan->Sort_by.len() ==> text_free_expression(
                (#[trigger] plan->Sort_by[j]).expression,
            ),
    decreases pattern, 0int, 2int,
{
    let comparators = pattern->OrderBy_1;
    let by = plan->Sort_by;
    let s1 = pattern_state(*pattern->OrderBy_0, state);
    assert forall|j: int| 0 <= j < by.len() implies text_free_expression(
        (#[trigger] by[j]).expression,
    ) by {
        assert(lowers_comparator(pattern, j, by[j], s1, graph, services));
        assert(call_free_expression(comparators[j].expression));
        lemma_lowered_expression_free(
            comparators[j].expression,
            by[j].expression,
            comparators_state(pattern, j, s1),
            graph,
            services,
        );
    }
}

proof fn lemma_lowered_aggregates_placed(
    pattern: GraphPattern,
    plan: PlanNode,
    state: BuildState,
    graph: PatternValue,
    services: Seq<ServiceRequest>,
)
    requires
        pattern is Group,
        lowers(pattern, plan, state, graph, services),
        forall|j: int|
            0 <= j < pattern->Group_2.len() ==> ((#[trigger] pattern->Group_2[j]).0.argument matches Some(
                argument,
            ) ==> well_placed_expression(argument)),
    ensures
        plan is Group,
        forall|j: int|
            0 <= j < plan->Group_aggregates.len() ==> ((
            #[trigger] plan->Group_aggregates[j]).parameter matches Some(argument)
                ==> expression_placed(argument)),
    decreases pattern, 0int, 2int,
{
    let aggregates = pattern->Group_2;
    let keys = pattern->Group_1;
    let lowered = plan->Group_aggregates;
    let s2 = variables_state(keys@, keys.len() as int, pattern_state(*pattern->Group_0, state));
    assert forall|j: int| 0 <= j < lowered.len() implies ((#[trigger] lowered[j]).parameter matches Some(
        argument,
    ) ==> expression_placed(argument)) by {
        assert(lowers_aggregate(pattern, j, lowered[j], s2, graph, services));
        if let Some(parameter) = lowered[j].parameter {
            let argument = aggregates[j].0.argument->0;
            assert(well_placed_expression(argument));
            lemma_lowered_expression_placed(
                argument,
                parameter,
                aggregates_state(pattern, j, s2),
                graph,
                services,
            );
        }
    }
}

proof fn lemma_lowered_keys_placed(
    pattern: GraphPattern,
    plan: PlanNode,
    state: BuildState,
    graph: PatternValue,
    services: Seq<ServiceRequest>,
)
    requires
        pattern is OrderBy,
        lowers(pattern, plan, state, graph, services),
        forall|j: int|
            0 <= j < pattern->OrderBy_1.len() ==> well_placed_expression(
                (#[trigger] pattern->OrderBy_1[j]).expression,
            ),
    ensures
        plan is Sort,
        forall|j: int|
            0 <= j < plan->Sort_by.len() ==> expression_placed(
                (#[trigger] plan->Sort_by[j]).expression,
            ),
    decreases pattern, 0int, 2int,
{
    let comparators = pattern->OrderBy_1;
    let by = plan->Sort_by;
    let s1 = pattern_state(*pattern->OrderBy_0, state);
    assert forall|j: int| 0 <= j < by.len() implies expression_placed(
        (#[trigger] by[j]).expression,
    ) by {
        assert(lowers_comparator(pattern, j, by[j], s1, graph, services));
        assert(well_placed_expression(comparators[j].expression));
        lemma_lowered_expression_placed(
            comparators[j].expression,
            by[j].expression,
            comparators_state(pattern, j, s1),
            graph,
            services,
        );
    }
}

/// What an expression whose calls stand well is lowered to has its
/// functions that build texts where evaluation can intern what they
/// build.
pub proof fn lemma_lowered_expression_placed(
    expression: Expression,
    lowered: PlanExpression,
    state: BuildState,
    graph: PatternValue,
    services: Seq<ServiceRequest>,
)
    requires
        lowers_expression(expression, lowered, state, graph, services),
        well_placed_expression(expression),
    ensures
        expression_placed(lowered),
    decreases expression, 1int, 0int,
{
    match expression {
        Expression::Unary(_, a) => {
            lemma_lowered_expression_placed(*a, *lowered->Unary_1, state, graph, services);
        },
        Expression::Binary(_, a, b) => {
            lemma_lowered_expression_placed(*a, *lowered->Binary_1, state, graph, services);
            lemma_lowered_expression_placed(
                *b,
                *lowered->Binary_2,
                expression_state(*a, state),
                graph,
                services,
            );
        },
        Expression::If(condition, a, b) => {
            lemma_lowered_expression_placed(*condition, *lowered->If_0, state, graph, services);
            lemma_lowered_expression_placed(
                *a,
                *lowered->If_1,
                expression_state(*condition, state),
                graph,
                services,
            );
            lemma_lowered_expression_placed(
                *b,
                *lowered->If_2,
                expression_state(*a, expression_state(*condition, state)),
                graph,
                services,
            );
        },
        Expression::Coalesce(arguments) => {
            let items = lowered->Coalesce_0;
            assert forall|i: int| 0 <= i < items.len() implies expression_placed(
                #[trigger] items[i],
            ) by {
                assert(well_placed_expression(arguments[i]));
                lemma_lowered_expression_placed(
                    arguments[i],
                    items[i],
                    arguments_state(expression, i, state),
                    graph,
                    services,
                );
            }
        },
        Expression::Exists(pattern) => {
            lemma_lowered_placed(*pattern, *lowered->Exists_0, state, graph, services);
        },
        Expression::FunctionCall(_, arguments) => {
            let items = lowered->Call_1;
            assert forall|i: int| 0 <= i < items.len() implies expression_placed(
                #[trigger] items[i],
            ) by {
                assert(well_placed_expression(arguments[i]));
                lemma_lowered_expression_placed(
                    arguments[i],
                    items[i],
                    arguments_state(expression, i, state),
                    graph,
                    services,
                );
            }
        },
        _ => {},
    }
}

/// What a pattern whose calls stand well is lowered to has its functions
/// that build texts where evaluation can intern what they build.
pub proof fn lemma_lowered_placed(
    pattern: GraphPattern,
    plan: PlanNode,
    state: BuildState,
    graph: PatternValue,
    services: Seq<ServiceRequest>,
)
    requires
        lowers(pattern, plan, state, graph, services),
        well_placed(pattern),
    ensures
        placed(plan),
    decreases pattern, 1int, 0int,
{
    match pattern {
        GraphPattern::Project(inner, _) => {
            lemma_lowered_placed(*inner, *plan->Project_child, state, graph, services);
        },
        GraphPattern::Distinct(inner) => {
            lemma_lowered_placed(*inner, *plan->Distinct_child, state, graph, services);
        },
        GraphPattern::Reduced(inner) => {
            lemma_lowered_placed(*inner, *plan->Reduced_child, state, graph, services);
        },
        GraphPattern::Slice(inner, _, _) => {
            lemma_lowered_placed(*inner, *plan->Slice_child, state, graph, services);
        },
        GraphPattern::OrderBy(inner, _) => {
            lemma_lowered_placed(*inner, *plan->Sort_child, state, graph, services);
            lemma_lowered_keys_placed(pattern, plan, state, graph, services);
        },
        GraphPattern::Filter(expression, inner) => {
            lemma_lowered_placed(*inner, *plan->Filter_child, state, graph, services);
            lemma_lowered_expression_placed(
                expression,
                plan->Filter_expression,
                pattern_state(*inner, state),
                graph,
                services,
            );
        },
        GraphPattern::Extend(inner, _, expression) => {
            lemma_lowered_placed(*inner, *plan->Extend_child, state, graph, services);
            lemma_lowered_expression_placed(
                expression,
                plan->Extend_expression,
                pattern_state(*inner, state),
                graph,
                services,
            );
        },
        GraphPattern::Group(inner, _, _) => {
            lemma_lowered_placed(*inner, *plan->Group_child, state, graph, services);
            lemma_lowered_aggregates_placed(pattern, plan, state, graph, services);
        },
        GraphPattern::Join(left, right) => {
            lemma_lowered_placed(*left, *plan->Join_left, state, graph, services);
            lemma_lowered_placed(
                *right,
                *plan->Join_right,
                pattern_state(*left, state),
                graph,
                services,
            );
        },
        GraphPattern::LeftJoin(left, right, expression) => {
            lemma_lowered_placed(*left, *plan->LeftJoin_left, state, graph, services);
            lemma_lowered_placed(
                *right,
                *plan->LeftJoin_right,
                pattern_state(*left, state),
                graph,
                services,
            );
            if let Some(condition) = expression {
                lemma_lowered_expression_free(
                    condition,
                    plan->LeftJoin_expression->0,
                    pattern_state(*right, pattern_state(*left, state)),
                    graph,
                    services,
                );
            }
        },
        GraphPattern::Union(left, right) => {
            lemma_lowered_placed(*left, *plan->Union_left, state, graph, services);
            lemma_lowered_placed(
                *right,
                *plan->Union_right,
                pattern_state(*left, state),
                graph,
                services,
            );
        },
        GraphPattern::Minus(left, right) => {
            lemma_lowered_placed(*left, *plan->Minus_left, state, graph, services);
            lemma_lowered_placed(
                *right,
                *plan->Minus_right,
                pattern_state(*left, state),
                graph,
                services,
            );
        },
        GraphPattern::Graph(name, inner) => {
            lemma_lowered_placed(
                *inner,
                plan,
                position_state(name, state),
                lower_position(name, state),
                services,
            );
        },
        _ => {
            lemma_lowered_free(pattern, plan, state, graph, services);
            lemma_free_is_placed(plan);
        },
    }
}

/// Whether an expression holds no call of a function that builds a text.
#[verifier::loop_isolation(false)]
pub fn is_call_free_expression(expression: &Expression) -> (free: bool)
    ensures
        free == call_free_expression(*expression),
    decreases *expression,
{
    match expression {
        Expression::Constant(_) => true,
        Expression::Variable(_) => true,
        Expression::Bound(_) => true,
        Expression::Unary(_, a) => is_call_free_expression(a),
        Expression::Binary(_, a, b) => is_call_free_expression(a) && is_call_free_expression(b),
        Expression::If(condition, a, b) => is_call_free_expression(condition)
            && is_call_free_expression(a) && is_call_free_expression(b),
        Expression::Coalesce(arguments) => {
            let mut i: usize = 0;
            while i < arguments.len()
                invariant
                    i <= arguments@.len(),
                    forall|k: int| 0 <= k < i ==> call_free_expression(#[trigger] arguments@[k]),
                decreases arguments@.len() - i,
            {
                if !is_call_free_expression(&arguments[i]) {
                    return false;
                }
                i = i + 1;
            }
            true
        },
        Expression::Exists(pattern) => is_call_free(pattern),
        Expression::FunctionCall(_, _) => false,
    }
}

/// Whether a pattern holds no call of a function that builds a text, and
/// no aggregate that does.
#[verifier::loop_isolation(false)]
pub fn is_call_free(pattern: &GraphPattern) -> (free: bool)
    ensures
        free == call_free(*pattern),
    decreases *pattern,
{
    match pattern {
        GraphPattern::Bgp(_) => true,
        GraphPattern::Join(left, right) => is_call_free(left) && is_call_free(right),
        GraphPattern::LeftJoin(left, right, expression) => is_call_free(left) && is_call_free(
            right,
        ) && match expression {
            Some(condition) => is_call_free_expression(condition),
            None => true,
        },
        GraphPattern::Filter(expression, inner) => is_call_free(inner) && is_call_free_expression(
            expression,
        ),
        GraphPattern::Union(left, right) => is_call_free(left) && is_call_free(right),
        GraphPattern::Graph(_, inner) => is_call_free(inner),
        GraphPattern::Extend(inner, _, expression) => is_call_free(inner)
            && is_call_free_expression(expression),
        GraphPattern::Minus(left, right) => is_call_free(left) && is_call_free(right),
        GraphPattern::Service(_, _, _) => true,
        GraphPattern::Group(inner, _, aggregates) => {
            if !is_call_free(inner) {
                return false;
            }
            let mut j: usize = 0;
            while j < aggregates.len()
                invariant
                    j <= aggregates@.len(),
                    forall|k: int|
                        0 <= k < j ==> (#[trigger] aggregates@[k]).0.function
                            != AggregateFunction::GroupConcat && aggregates@[k].0.function
                            != AggregateFunction::Avg && (aggregates@[k].0.argument matches Some(
                            argument,
                        ) ==> call_free_expression(argument)),
                decreases aggregates@.len() - j,
            {
                match aggregates[j].0.function {
                    AggregateFunction::GroupConcat => {
                        return false;
                    },
                    AggregateFunction::Avg => {
                        return false;
                    },
                    _ => {},
                }
                match &aggregates[j].0.argument {
                    Some(argument) => {
                        if !is_call_free_expression(argument) {
                            return false;
                        }
                    },
                    None => {},
                }
                j = j + 1;
            }
            true
        },
        GraphPattern::Project(inner, _) => is_call_free(inner),
        GraphPattern::Distinct(inner) => is_call_free(inner),
        GraphPattern::Reduced(inner) => is_call_free(inner),
        GraphPattern::OrderBy(inner, comparators) => {
            if !is_call_free(inner) {
                return false;
            }
            let mut j: usize = 0;
            while j < comparators.len()
                invariant
                    j <= comparators@.len(),
                    forall|k: int|
                        0 <= k < j ==> call_free_expression((#[trigger] comparators@[k]).expression),
                decreases comparators@.len() - j,
            {
                if !is_call_free_expression(&comparators[j].expression) {
                    return false;
                }
                j = j + 1;
            }
            true
        },
        GraphPattern::Slice(inner, _, _) => is_call_free(inner),
    }
}

/// Whether the calls of an expression that build texts stand well.
#[verifier::loop_isolation(false)]
pub fn is_well_placed_expression(expression: &Expression) -> (well: bool)
    ensures
        well == well_placed_expression(*expression),
    decreases *expression,
{
    match expression {
        Expression::Constant(_) => true,
        Expression::Variable(_) => true,
        Expression::Bound(_) => true,
        Expression::Unary(_, a) => is_well_placed_expression(a),
        Expression::Binary(_, a, b) => is_well_placed_expression(a) && is_well_placed_expression(
            b,
        ),
        Expression::If(condition, a, b) => is_well_placed_expression(condition)
            && is_well_placed_expression(a) && is_well_placed_expression(b),
        Expression::Coalesce(arguments) => {
            let mut i: usize = 0;
            while i < arguments.len()
                invariant
                    i <= arguments@.len(),
                    forall|k: int| 0 <= k < i ==> well_placed_expression(#[trigger] arguments@[k]),
                decreases arguments@.len() - i,
            {
                if !is_well_placed_expression(&arguments[i]) {
                    return false;
                }
                i = i + 1;
            }
            true
        },
        Expression::Exists(pattern) => is_well_placed(pattern),
        Expression::FunctionCall(_, arguments) => {
            let mut i: usize = 0;
            while i < arguments.len()
                invariant
                    i <= arguments@.len(),
                    forall|k: int| 0 <= k < i ==> well_placed_expression(#[trigger] arguments@[k]),
                decreases arguments@.len() - i,
            {
                if !is_well_placed_expression(&arguments[i]) {
                    return false;
                }
                i = i + 1;
            }
            true
        },
    }
}

/// Whether the calls of a pattern that build texts stand well.
#[verifier::loop_isolation(false)]
pub fn is_well_placed(pattern: &GraphPattern) -> (well: bool)
    ensures
        well == well_placed(*pattern),
    decreases *pattern,
{
    match pattern {
        GraphPattern::Project(inner, _) => is_well_placed(inner),
        GraphPattern::Distinct(inner) => is_well_placed(inner),
        GraphPattern::Reduced(inner) => is_well_placed(inner),
        GraphPattern::Slice(inner, _, _) => is_well_placed(inner),
        GraphPattern::OrderBy(inner, comparators) => {
            if !is_well_placed(inner) {
                return false;
            }
            let mut j: usize = 0;
            while j < comparators.len()
                invariant
                    j <= comparators@.len(),
                    forall|k: int|
                        0 <= k < j ==> well_placed_expression(
                            (#[trigger] comparators@[k]).expression,
                        ),
                decreases comparators@.len() - j,
            {
                if !is_well_placed_expression(&comparators[j].expression) {
                    return false;
                }
                j = j + 1;
            }
            true
        },
        GraphPattern::Filter(expression, inner) => is_well_placed(inner)
            && is_well_placed_expression(expression),
        GraphPattern::Extend(inner, _, expression) => is_well_placed(inner)
            && is_well_placed_expression(expression),
        GraphPattern::Group(inner, _, aggregates) => {
            if !is_well_placed(inner) {
                return false;
            }
            let mut j: usize = 0;
            while j < aggregates.len()
                invariant
                    j <= aggregates@.len(),
                    forall|k: int|
                        0 <= k < j ==> ((#[trigger] aggregates@[k]).0.argument matches Some(
                            argument,
                        ) ==> well_placed_expression(argument)),
                decreases aggregates@.len() - j,
            {
                match &aggregates[j].0.argument {
                    Some(argument) => {
                        if !is_well_placed_expression(argument) {
                            return false;
                        }
                    },
                    None => {},
                }
                j = j + 1;
            }
            true
        },
        GraphPattern::Join(left, right) => is_well_placed(left) && is_well_placed(right),
        GraphPattern::LeftJoin(left, right, expression) => is_well_placed(left) && is_well_placed(
            right,
        ) && match expression {
            Some(condition) => is_call_free_expression(condition),
            None => true,
        },
        GraphPattern::Union(left, right) => is_well_placed(left) && is_well_placed(right),
        GraphPattern::Minus(left, right) => is_well_placed(left) && is_well_placed(right),
        GraphPattern::Graph(_, inner) => is_well_placed(inner),
        _ => is_call_free(pattern),
    }
}

} // verus!
