use crate::model::term::{Term, TermView, Variable};
use crate::sparql::algebra::{
    AggregateFunction, Aggregation, Expression, Function, GraphPattern, TermOrVariable,
    TriplePattern,
};
use crate::sparql::dataset::{encode_spec, intern, is_encodable};
use crate::sparql::plan::{
    Comparator, PatternValue, PlanAggregation, PlanAggregationFunction, PlanExpression, PlanNode,
    ServiceRequest,
};
use vstd::prelude::*;

verus! {

/// What a plan is built over: the names of the variables, each at the
/// position that is its slot; the texts of the string store; and how many
/// federated patterns were numbered.
pub struct BuildState {
    pub variables: Seq<Seq<char>>,
    pub strings: Seq<Seq<char>>,
    pub services: nat,
}

/// The names of a table of variables.
pub open spec fn names_of(variables: Seq<Variable>) -> Seq<Seq<char>> {
    Seq::new(variables.len(), |i: int| variables[i]@)
}

/// The variables among the first `n` of `own` that the table `known`
/// holds, each with its slot there, in their order.
pub open spec fn own_slots(known: Seq<Seq<char>>, own: Seq<Seq<char>>, n: int) -> Seq<
    (Seq<char>, usize),
>
    decreases n,
{
    if n <= 0 || n > own.len() {
        Seq::empty()
    } else {
        let rest = own_slots(known, own, n - 1);
        if known.contains(own[n - 1]) {
            rest.push((own[n - 1], slot_in(known, own[n - 1])))
        } else {
            rest
        }
    }
}

/// The names and slots of the slot table of a federated pattern.
pub open spec fn table_view(table: Seq<(Variable, usize)>) -> Seq<(Seq<char>, usize)> {
    Seq::new(table.len(), |i: int| (table[i].0@, table[i].1))
}

/// The slots of the slot table of a federated pattern.
pub open spec fn table_slots(table: Seq<(Variable, usize)>) -> Seq<usize> {
    Seq::new(table.len(), |i: int| table[i].1)
}

/// The slot of the variable `name` in a table that holds it.
pub open spec fn slot_in(variables: Seq<Seq<char>>, name: Seq<char>) -> usize {
    variables.index_of(name) as usize
}

/// The state after the variable `name` was met: it takes the next free slot
/// unless it has one.
pub open spec fn with_variable(state: BuildState, name: Seq<char>) -> BuildState {
    BuildState {
        variables: intern(state.variables, name),
        strings: state.strings,
        services: state.services,
    }
}

/// The state after the constant `term` was encoded.
pub open spec fn with_term(state: BuildState, term: TermView) -> BuildState {
    BuildState {
        variables: state.variables,
        strings: encode_spec(state.strings, term).0,
        services: state.services,
    }
}

/// The state after a pattern position was lowered.
pub open spec fn position_state(position: TermOrVariable, state: BuildState) -> BuildState {
    match position {
        TermOrVariable::Term(term) => with_term(state, term@),
        TermOrVariable::Variable(variable) => with_variable(state, variable@),
    }
}

/// What a pattern position is lowered to: the encoded constant, or the slot
/// of the variable.
pub open spec fn lower_position(position: TermOrVariable, state: BuildState) -> PatternValue {
    match position {
        TermOrVariable::Term(term) => PatternValue::Constant(
            encode_spec(state.strings, term@).1,
        ),
        TermOrVariable::Variable(variable) => PatternValue::Variable(
            slot_in(intern(state.variables, variable@), variable@),
        ),
    }
}

/// The state after a triple pattern was lowered: subject, predicate, then
/// object.
pub open spec fn triple_state(pattern: TriplePattern, state: BuildState) -> BuildState {
    position_state(
        pattern.object,
        position_state(pattern.predicate, position_state(pattern.subject, state)),
    )
}

/// The state after the first `n` triple patterns were lowered.
pub open spec fn triples_state(patterns: Seq<TriplePattern>, n: int, state: BuildState) -> BuildState
    decreases n,
{
    if n <= 0 || n > patterns.len() {
        state
    } else {
        triple_state(patterns[n - 1], triples_state(patterns, n - 1, state))
    }
}

/// The state after the first `n` variables were met.
pub open spec fn variables_state(variables: Seq<Variable>, n: int, state: BuildState) -> BuildState {
    BuildState {
        variables: listed_names(variables, n, state.variables),
        strings: state.strings,
        services: state.services,
    }
}

/// The slot of variable `i` of a list, in the state after it was met.
pub open spec fn slot_of_listed(variables: Seq<Variable>, i: int, state: BuildState) -> usize {
    slot_in(variables_state(variables, i + 1, state).variables, variables[i]@)
}

/// The variable table after a pattern position was met, constants passed
/// over.
pub open spec fn position_names(position: TermOrVariable, names: Seq<Seq<char>>) -> Seq<Seq<char>> {
    match position {
        TermOrVariable::Term(_) => names,
        TermOrVariable::Variable(variable) => intern(names, variable@),
    }
}

/// The variable table after the first `n` triple patterns were met.
pub open spec fn triples_names(patterns: Seq<TriplePattern>, n: int, names: Seq<Seq<char>>) -> Seq<
    Seq<char>,
>
    decreases n,
{
    if n <= 0 || n > patterns.len() {
        names
    } else {
        position_names(
            patterns[n - 1].object,
            position_names(
                patterns[n - 1].predicate,
                position_names(patterns[n - 1].subject, triples_names(patterns, n - 1, names)),
            ),
        )
    }
}

/// The variable table after the first `n` variables of a list were met.
pub open spec fn listed_names(variables: Seq<Variable>, n: int, names: Seq<Seq<char>>) -> Seq<
    Seq<char>,
>
    decreases n,
{
    if n <= 0 || n > variables.len() {
        names
    } else {
        intern(listed_names(variables, n - 1, names), variables[n - 1]@)
    }
}

/// The variable table after the result variables of the first `n`
/// aggregates were met.
pub open spec fn aggregate_names(
    aggregates: Seq<(Aggregation, Variable)>,
    n: int,
    names: Seq<Seq<char>>,
) -> Seq<Seq<char>>
    decreases n,
{
    if n <= 0 || n > aggregates.len() {
        names
    } else {
        intern(aggregate_names(aggregates, n - 1, names), aggregates[n - 1].1@)
    }
}

/// The variable table after the variables that a pattern can bind were met,
/// in the order of a depth-first walk: those of its triple patterns and
/// graph names, and those that `BIND`, `GROUP` and a projection let out.
pub open spec fn pattern_names(pattern: GraphPattern, names: Seq<Seq<char>>) -> Seq<Seq<char>>
    decreases pattern,
{
    match pattern {
        GraphPattern::Bgp(patterns) => triples_names(patterns@, patterns.len() as int, names),
        GraphPattern::Join(left, right) => pattern_names(*right, pattern_names(*left, names)),
        GraphPattern::LeftJoin(left, right, _) => pattern_names(
            *right,
            pattern_names(*left, names),
        ),
        GraphPattern::Filter(_, inner) => pattern_names(*inner, names),
        GraphPattern::Union(left, right) => pattern_names(*right, pattern_names(*left, names)),
        GraphPattern::Graph(name, inner) => pattern_names(*inner, position_names(name, names)),
        GraphPattern::Extend(inner, variable, _) => intern(
            pattern_names(*inner, names),
            variable@,
        ),
        GraphPattern::Minus(left, _) => pattern_names(*left, names),
        GraphPattern::Service(_, inner, _) => pattern_names(*inner, names),
        GraphPattern::Group(_, keys, aggregates) => aggregate_names(
            aggregates@,
            aggregates.len() as int,
            listed_names(keys@, keys.len() as int, names),
        ),
        GraphPattern::Project(_, variables) => listed_names(
            variables@,
            variables.len() as int,
            names,
        ),
        GraphPattern::Distinct(inner) => pattern_names(*inner, names),
        GraphPattern::Reduced(inner) => pattern_names(*inner, names),
        GraphPattern::OrderBy(inner, _) => pattern_names(*inner, names),
        GraphPattern::Slice(inner, _, _) => pattern_names(*inner, names),
    }
}

/// The state after an expression was lowered.
pub open spec fn expression_state(expression: Expression, state: BuildState) -> BuildState
    decreases expression, 1int, 0int,
{
    match expression {
        Expression::Constant(term) => with_term(state, term@),
        Expression::Variable(variable) => with_variable(state, variable@),
        Expression::Bound(variable) => with_variable(state, variable@),
        Expression::Unary(_, a) => expression_state(*a, state),
        Expression::Binary(_, a, b) => expression_state(*b, expression_state(*a, state)),
        Expression::If(condition, a, b) => expression_state(
            *b,
            expression_state(*a, expression_state(*condition, state)),
        ),
        Expression::Coalesce(arguments) => arguments_state(
            expression,
            arguments.len() as int,
            state,
        ),
        Expression::Exists(pattern) => pattern_state(*pattern, state),
        Expression::FunctionCall(_, arguments) => arguments_state(
            expression,
            arguments.len() as int,
            state,
        ),
    }
}

/// The arguments of a `COALESCE` or of a call.
pub open spec fn arguments_of(expression: Expression) -> Seq<Expression> {
    match expression {
        Expression::Coalesce(arguments) => arguments@,
        Expression::FunctionCall(_, arguments) => arguments@,
        _ => Seq::empty(),
    }
}

/// Whether a function builds a text, or reads one off a term, that
/// evaluation interns.
pub open spec fn builds_text(function: Function) -> bool {
    function is Str || function is Lang || function is Datatype || function is Concat
        || function is SubStr || function is UCase || function is LCase || function is Divide
        || function is Seconds
}

/// The state after the first `n` arguments of a `COALESCE` or of a call
/// were lowered.
pub open spec fn arguments_state(expression: Expression, n: int, state: BuildState) -> BuildState
    decreases expression, 0int, n,
{
    match expression {
        Expression::Coalesce(arguments) => if n <= 0 || n > arguments.len() {
            state
        } else {
            expression_state(arguments[n - 1], arguments_state(expression, n - 1, state))
        },
        Expression::FunctionCall(_, arguments) => if n <= 0 || n > arguments.len() {
            state
        } else {
            expression_state(arguments[n - 1], arguments_state(expression, n - 1, state))
        },
        _ => state,
    }
}

/// The state after the first `n` aggregates of a `GROUP` were lowered: the
/// argument of each, then the variable that takes its result.
pub open spec fn aggregates_state(pattern: GraphPattern, n: int, state: BuildState) -> BuildState
    decreases pattern, 0int, n,
{
    match pattern {
        GraphPattern::Group(_, _, aggregates) => if n <= 0 || n > aggregates.len() {
            state
        } else {
            let before = aggregates_state(pattern, n - 1, state);
            let after = match aggregates[n - 1].0.argument {
                Some(argument) => expression_state(argument, before),
                None => before,
            };
            with_variable(after, aggregates[n - 1].1@)
        },
        _ => state,
    }
}

/// The state after the first `n` keys of an `ORDER BY` were lowered.
pub open spec fn comparators_state(pattern: GraphPattern, n: int, state: BuildState) -> BuildState
    decreases pattern, 0int, n,
{
    match pattern {
        GraphPattern::OrderBy(_, comparators) => if n <= 0 || n > comparators.len() {
            state
        } else {
            expression_state(
                comparators[n - 1].expression,
                comparators_state(pattern, n - 1, state),
            )
        },
        _ => state,
    }
}

/// The state after a graph pattern was lowered: variables take slots in the
/// order in which a depth-first walk first meets them, and constants are
/// interned in the order in which it meets them.
pub open spec fn pattern_state(pattern: GraphPattern, state: BuildState) -> BuildState
    decreases pattern, 1int, 0int,
{
    match pattern {
        GraphPattern::Bgp(patterns) => triples_state(patterns@, patterns.len() as int, state),
        GraphPattern::Join(left, right) => pattern_state(*right, pattern_state(*left, state)),
        GraphPattern::LeftJoin(left, right, expression) => {
            let after = pattern_state(*right, pattern_state(*left, state));
            match expression {
                Some(condition) => expression_state(condition, after),
                None => after,
            }
        },
        GraphPattern::Filter(expression, inner) => expression_state(
            expression,
            pattern_state(*inner, state),
        ),
        GraphPattern::Union(left, right) => pattern_state(*right, pattern_state(*left, state)),
        GraphPattern::Graph(name, inner) => pattern_state(*inner, position_state(name, state)),
        GraphPattern::Extend(inner, variable, expression) => with_variable(
            expression_state(expression, pattern_state(*inner, state)),
            variable@,
        ),
        GraphPattern::Minus(left, right) => pattern_state(*right, pattern_state(*left, state)),
        GraphPattern::Service(_, inner, _) => BuildState {
            variables: pattern_names(*inner, state.variables),
            strings: state.strings,
            services: state.services + 1,
        },
        GraphPattern::Group(inner, keys, aggregates) => aggregates_state(
            pattern,
            aggregates.len() as int,
            variables_state(keys@, keys.len() as int, pattern_state(*inner, state)),
        ),
        GraphPattern::Project(inner, variables) => variables_state(
            variables@,
            variables.len() as int,
            pattern_state(*inner, state),
        ),
        GraphPattern::Distinct(inner) => pattern_state(*inner, state),
        GraphPattern::Reduced(inner) => pattern_state(*inner, state),
        GraphPattern::OrderBy(inner, comparators) => comparators_state(
            pattern,
            comparators.len() as int,
            pattern_state(*inner, state),
        ),
        GraphPattern::Slice(inner, _, _) => pattern_state(*inner, state),
    }
}

/// How severe the worst defect of a pattern position is: 1 for a constant
/// that cannot be interned, 0 for none.
pub open spec fn position_defect(position: TermOrVariable) -> nat {
    match position {
        TermOrVariable::Term(term) => if is_encodable(term@) {
            0
        } else {
            1
        },
        TermOrVariable::Variable(_) => 0,
    }
}

/// The more severe of two defects.
pub open spec fn worse(a: nat, b: nat) -> nat {
    if a >= b {
        a
    } else {
        b
    }
}

/// How severe the worst defect of a triple pattern is.
pub open spec fn triple_defect(pattern: TriplePattern) -> nat {
    worse(
        position_defect(pattern.subject),
        worse(position_defect(pattern.predicate), position_defect(pattern.object)),
    )
}

/// The worst defect among the first `n` triple patterns.
pub open spec fn triples_defect(patterns: Seq<TriplePattern>, n: int) -> nat
    decreases n,
{
    if n <= 0 || n > patterns.len() {
        0
    } else {
        worse(triples_defect(patterns, n - 1), triple_defect(patterns[n - 1]))
    }
}

/// How severe the defect of an aggregate itself is: 3 for a function other
/// than `COUNT` without an argument, and for `COUNT(DISTINCT *)`.
pub open spec fn aggregate_defect(aggregation: Aggregation) -> nat {
    if aggregation.argument is None && (aggregation.function != AggregateFunction::Count
        || aggregation.distinct) {
        3
    } else {
        0
    }
}

/// How severe the worst defect of an expression is: 3 for an aggregate that
/// the planner cannot lower, 2 for a built-in function that it cannot
/// lower, 1 for a constant that cannot be interned, 0 for none.
pub open spec fn expression_defect(expression: Expression) -> nat
    decreases expression, 1int, 0int,
{
    match expression {
        Expression::Constant(term) => if is_encodable(term@) {
            0
        } else {
            1
        },
        Expression::Variable(_) => 0,
        Expression::Bound(_) => 0,
        Expression::Unary(_, a) => expression_defect(*a),
        Expression::Binary(_, a, b) => worse(expression_defect(*a), expression_defect(*b)),
        Expression::If(condition, a, b) => worse(
            expression_defect(*condition),
            worse(expression_defect(*a), expression_defect(*b)),
        ),
        Expression::Coalesce(arguments) => arguments_defect(expression, arguments.len() as int),
        Expression::Exists(pattern) => pattern_defect(*pattern),
        Expression::FunctionCall(function, arguments) => if builds_text(function) {
            arguments_defect(expression, arguments.len() as int)
        } else {
            2
        },
    }
}

/// The worst defect among the first `n` arguments of a `COALESCE` or of a
/// call.
pub open spec fn arguments_defect(expression: Expression, n: int) -> nat
    decreases expression, 0int, n,
{
    match expression {
        Expression::Coalesce(arguments) => if n <= 0 || n > arguments.len() {
            0
        } else {
            worse(arguments_defect(expression, n - 1), expression_defect(arguments[n - 1]))
        },
        Expression::FunctionCall(_, arguments) => if n <= 0 || n > arguments.len() {
            0
        } else {
            worse(arguments_defect(expression, n - 1), expression_defect(arguments[n - 1]))
        },
        _ => 0,
    }
}

/// The worst defect among the first `n` aggregates of a `GROUP`.
pub open spec fn aggregates_defect(pattern: GraphPattern, n: int) -> nat
    decreases pattern, 0int, n,
{
    match pattern {
        GraphPattern::Group(_, _, aggregates) => if n <= 0 || n > aggregates.len() {
            0
        } else {
            worse(
                aggregates_defect(pattern, n - 1),
                worse(
                    aggregate_defect(aggregates[n - 1].0),
                    match aggregates[n - 1].0.argument {
                        Some(argument) => expression_defect(argument),
                        None => 0,
                    },
                ),
            )
        },
        _ => 0,
    }
}

/// The worst defect among the first `n` keys of an `ORDER BY`.
pub open spec fn comparators_defect(pattern: GraphPattern, n: int) -> nat
    decreases pattern, 0int, n,
{
    match pattern {
        GraphPattern::OrderBy(_, comparators) => if n <= 0 || n > comparators.len() {
            0
        } else {
            worse(
                comparators_defect(pattern, n - 1),
                expression_defect(comparators[n - 1].expression),
            )
        },
        _ => 0,
    }
}

/// How severe the worst defect of a graph pattern is: 3 for an aggregate
/// that the planner cannot lower, 2 for a built-in function that it cannot
/// lower, 1 for a constant that cannot be interned, 0 for a pattern that can
/// be lowered.
pub open spec fn pattern_defect(pattern: GraphPattern) -> nat
    decreases pattern, 1int, 0int,
{
    match pattern {
        GraphPattern::Bgp(patterns) => triples_defect(patterns@, patterns.len() as int),
        GraphPattern::Join(left, right) => worse(pattern_defect(*left), pattern_defect(*right)),
        GraphPattern::LeftJoin(left, right, expression) => worse(
            pattern_defect(*left),
            worse(
                pattern_defect(*right),
                match expression {
                    Some(condition) => expression_defect(condition),
                    None => 0,
                },
            ),
        ),
        GraphPattern::Filter(expression, inner) => worse(
            pattern_defect(*inner),
            expression_defect(expression),
        ),
        GraphPattern::Union(left, right) => worse(pattern_defect(*left), pattern_defect(*right)),
        GraphPattern::Graph(name, inner) => worse(position_defect(name), pattern_defect(*inner)),
        GraphPattern::Extend(inner, _, expression) => worse(
            pattern_defect(*inner),
            expression_defect(expression),
        ),
        GraphPattern::Minus(left, right) => worse(pattern_defect(*left), pattern_defect(*right)),
        GraphPattern::Service(_, _, _) => 0,
        GraphPattern::Group(inner, _, aggregates) => worse(
            pattern_defect(*inner),
            aggregates_defect(pattern, aggregates.len() as int),
        ),
        GraphPattern::Project(inner, _) => pattern_defect(*inner),
        GraphPattern::Distinct(inner) => pattern_defect(*inner),
        GraphPattern::Reduced(inner) => pattern_defect(*inner),
        GraphPattern::OrderBy(inner, comparators) => worse(
            pattern_defect(*inner),
            comparators_defect(pattern, comparators.len() as int),
        ),
        GraphPattern::Slice(inner, _, _) => pattern_defect(*inner),
    }
}

/// The plan of the first `n` triple patterns of a basic graph pattern in a
/// graph: a chain of quad patterns over `Init`, the last pattern outermost.
pub open spec fn lowers_triples(
    patterns: Seq<TriplePattern>,
    n: int,
    plan: PlanNode,
    state: BuildState,
    graph: PatternValue,
) -> bool
    decreases n,
{
    if n <= 0 || n > patterns.len() {
        plan is Init
    } else {
        let before = triples_state(patterns, n - 1, state);
        let s1 = position_state(patterns[n - 1].subject, before);
        let s2 = position_state(patterns[n - 1].predicate, s1);
        &&& plan matches PlanNode::QuadPatternJoin { child, subject, predicate, object, graph_name }
        &&& lowers_triples(patterns, n - 1, *child, state, graph)
        &&& subject == lower_position(patterns[n - 1].subject, before)
        &&& predicate == lower_position(patterns[n - 1].predicate, s1)
        &&& object == lower_position(patterns[n - 1].object, s2)
        &&& graph_name == graph
    }
}

/// The aggregate function of a plan for one of the algebra.
pub open spec fn lower_function(function: AggregateFunction) -> PlanAggregationFunction {
    match function {
        AggregateFunction::Count => PlanAggregationFunction::Count,
        AggregateFunction::Sum => PlanAggregationFunction::Sum,
        AggregateFunction::Min => PlanAggregationFunction::Min,
        AggregateFunction::Max => PlanAggregationFunction::Max,
        AggregateFunction::GroupConcat => PlanAggregationFunction::GroupConcat,
        AggregateFunction::Avg => PlanAggregationFunction::Avg,
        _ => PlanAggregationFunction::Sample,
    }
}

/// What `GROUP_CONCAT` puts between two texts: the separator that the
/// aggregate names, a single space where it names none.
pub open spec fn separator_of(aggregation: Aggregation) -> Seq<char> {
    match aggregation.separator {
        Some(text) => text@,
        None => seq![' '],
    }
}

/// Whether `lowered` is the expression `expression` over slots and encoded
/// constants, built from `state`.
pub open spec fn lowers_expression(
    expression: Expression,
    lowered: PlanExpression,
    state: BuildState,
    graph: PatternValue,
    services: Seq<ServiceRequest>,
) -> bool
    decreases expression, 1int, 0int,
{
    match expression {
        Expression::Constant(term) => lowered == PlanExpression::Constant(
            encode_spec(state.strings, term@).1,
        ),
        Expression::Variable(variable) => lowered == PlanExpression::Variable(
            slot_in(intern(state.variables, variable@), variable@),
        ),
        Expression::Bound(variable) => lowered == PlanExpression::Bound(
            slot_in(intern(state.variables, variable@), variable@),
        ),
        Expression::Unary(operator, a) => {
            &&& lowered matches PlanExpression::Unary(op, x)
            &&& op == operator
            &&& lowers_expression(*a, *x, state, graph, services)
        },
        Expression::Binary(operator, a, b) => {
            &&& lowered matches PlanExpression::Binary(op, x, y)
            &&& op == operator
            &&& lowers_expression(*a, *x, state, graph, services)
            &&& lowers_expression(*b, *y, expression_state(*a, state), graph, services)
        },
        Expression::If(condition, a, b) => {
            &&& lowered matches PlanExpression::If(c, x, y)
            &&& lowers_expression(*condition, *c, state, graph, services)
            &&& lowers_expression(*a, *x, expression_state(*condition, state), graph, services)
            &&& lowers_expression(
                *b,
                *y,
                expression_state(*a, expression_state(*condition, state)),
                graph,
            services,
            )
        },
        Expression::Coalesce(arguments) => {
            &&& lowered matches PlanExpression::Coalesce(items)
            &&& items.len() == arguments.len()
            &&& forall|j: int|
                0 <= j < arguments.len() ==> lowers_expression(
                    #[trigger] arguments[j],
                    items[j],
                    arguments_state(expression, j, state),
                    graph,
                services,
                )
        },
        Expression::Exists(pattern) => {
            &&& lowered matches PlanExpression::Exists(plan)
            &&& lowers(*pattern, *plan, state, graph, services)
        },
        Expression::FunctionCall(function, arguments) => {
            &&& lowered matches PlanExpression::Call(named, items)
            &&& named == function
            &&& items.len() == arguments.len()
            &&& forall|j: int|
                0 <= j < arguments.len() ==> lowers_expression(
                    #[trigger] arguments[j],
                    items[j],
                    arguments_state(expression, j, state),
                    graph,
                    services,
                )
        },
    }
}

/// Whether `plan` is the plan of `pattern`, built from `state`, with its
/// triple patterns read in the graph `graph`.
pub open spec fn lowers(
    pattern: GraphPattern,
    plan: PlanNode,
    state: BuildState,
    graph: PatternValue,
    services: Seq<ServiceRequest>,
) -> bool
    decreases pattern, 1int, 0int,
{
    match pattern {
        GraphPattern::Bgp(patterns) => lowers_triples(
            patterns@,
            patterns.len() as int,
            plan,
            state,
            graph,
        ),
        GraphPattern::Join(left, right) => {
            &&& plan matches PlanNode::Join { left: l, right: r }
            &&& lowers(*left, *l, state, graph, services)
            &&& lowers(*right, *r, pattern_state(*left, state), graph, services)
        },
        GraphPattern::LeftJoin(left, right, expression) => {
            &&& plan matches PlanNode::LeftJoin { left: l, right: r, expression: e }
            &&& lowers(*left, *l, state, graph, services)
            &&& lowers(*right, *r, pattern_state(*left, state), graph, services)
            &&& match (expression, e) {
                (Some(condition), Some(lowered)) => lowers_expression(
                    condition,
                    lowered,
                    pattern_state(*right, pattern_state(*left, state)),
                    graph,
                services,
                ),
                (None, None) => true,
                _ => false,
            }
        },
        GraphPattern::Filter(expression, inner) => {
            &&& plan matches PlanNode::Filter { child, expression: e }
            &&& lowers(*inner, *child, state, graph, services)
            &&& lowers_expression(expression, e, pattern_state(*inner, state), graph, services)
        },
        GraphPattern::Union(left, right) => {
            &&& plan matches PlanNode::Union { left: l, right: r }
            &&& lowers(*left, *l, state, graph, services)
            &&& lowers(*right, *r, pattern_state(*left, state), graph, services)
        },
        GraphPattern::Graph(name, inner) => lowers(
            *inner,
            plan,
            position_state(name, state),
            lower_position(name, state),
            services,
        ),
        GraphPattern::Extend(inner, variable, expression) => {
            let s1 = pattern_state(*inner, state);
            let s2 = expression_state(expression, s1);
            &&& plan matches PlanNode::Extend { child, slot, expression: e }
            &&& lowers(*inner, *child, state, graph, services)
            &&& lowers_expression(expression, e, s1, graph, services)
            &&& slot == slot_in(intern(s2.variables, variable@), variable@)
        },
        GraphPattern::Minus(left, right) => {
            &&& plan matches PlanNode::Minus { left: l, right: r }
            &&& lowers(*left, *l, state, graph, services)
            &&& lowers(*right, *r, pattern_state(*left, state), graph, services)
        },
        GraphPattern::Service(name, inner, silent) => {
            let after = pattern_names(*inner, state.variables);
            let own = pattern_names(*inner, Seq::empty());
            &&& plan matches PlanNode::Service { id, slots }
            &&& id == state.services
            &&& state.services < services.len()
            &&& services[state.services as int].endpoint@ == name@
            &&& services[state.services as int].pattern == *inner
            &&& services[state.services as int].silent == silent
            &&& table_view(services[state.services as int].variables@) == own_slots(
                after,
                own,
                own.len() as int,
            )
            &&& slots@ == table_slots(services[state.services as int].variables@)
        },
        GraphPattern::Group(inner, keys, aggregates) => {
            let s1 = pattern_state(*inner, state);
            let s2 = variables_state(keys@, keys.len() as int, s1);
            &&& plan matches PlanNode::Group { child, keys: slots, aggregates: lowered }
            &&& lowers(*inner, *child, state, graph, services)
            &&& slots.len() == keys.len()
            &&& forall|i: int|
                0 <= i < keys.len() ==> #[trigger] slots[i] == slot_of_listed(keys@, i, s1)
            &&& lowered.len() == aggregates.len()
            &&& forall|j: int|
                0 <= j < aggregates.len() ==> lowers_aggregate(
                    pattern,
                    j,
                    #[trigger] lowered[j],
                    s2,
                    graph,
                services,
                )
        },
        GraphPattern::Project(inner, variables) => {
            let s1 = pattern_state(*inner, state);
            &&& plan matches PlanNode::Project { child, slots }
            &&& lowers(*inner, *child, state, graph, services)
            &&& slots.len() == variables.len()
            &&& forall|i: int|
                0 <= i < variables.len() ==> #[trigger] slots[i] == slot_of_listed(
                    variables@,
                    i,
                    s1,
                )
        },
        GraphPattern::Distinct(inner) => {
            &&& plan matches PlanNode::Distinct { child }
            &&& lowers(*inner, *child, state, graph, services)
        },
        GraphPattern::Reduced(inner) => {
            &&& plan matches PlanNode::Reduced { child }
            &&& lowers(*inner, *child, state, graph, services)
        },
        GraphPattern::OrderBy(inner, comparators) => {
            let s1 = pattern_state(*inner, state);
            &&& plan matches PlanNode::Sort { child, by }
            &&& lowers(*inner, *child, state, graph, services)
            &&& by.len() == comparators.len()
            &&& forall|j: int|
                0 <= j < comparators.len() ==> lowers_comparator(
                    pattern,
                    j,
                    #[trigger] by[j],
                    s1,
                    graph,
                services,
                )
        },
        GraphPattern::Slice(inner, start, length) => {
            &&& plan matches PlanNode::Slice { child, start: s, length: l }
            &&& s == start
            &&& l == length
            &&& lowers(*inner, *child, state, graph, services)
        },
    }
}

/// Whether `lowered` is aggregate `j` of a `GROUP`, built from the state
/// after the aggregates before it.
pub open spec fn lowers_aggregate(
    pattern: GraphPattern,
    j: int,
    lowered: PlanAggregation,
    state: BuildState,
    graph: PatternValue,
    services: Seq<ServiceRequest>,
) -> bool
    decreases pattern, 0int, 1int,
{
    match pattern {
        GraphPattern::Group(_, _, aggregates) => if 0 <= j < aggregates.len() {
            let before = aggregates_state(pattern, j, state);
            let after = aggregates_state(pattern, j + 1, state);
            &&& lowered.function == lower_function(aggregates[j].0.function)
            &&& lowered.distinct == aggregates[j].0.distinct
            &&& lowered.separator@ == separator_of(aggregates[j].0)
            &&& lowered.slot == slot_in(after.variables, aggregates[j].1@)
            &&& match (aggregates[j].0.argument, lowered.parameter) {
                (Some(argument), Some(parameter)) => lowers_expression(
                    argument,
                    parameter,
                    before,
                    graph,
                services,
                ),
                (None, None) => true,
                _ => false,
            }
        } else {
            false
        },
        _ => false,
    }
}

/// Whether `lowered` is key `j` of an `ORDER BY`, built from the state
/// after the keys before it.
pub open spec fn lowers_comparator(
    pattern: GraphPattern,
    j: int,
    lowered: Comparator,
    state: BuildState,
    graph: PatternValue,
    services: Seq<ServiceRequest>,
) -> bool
    decreases pattern, 0int, 1int,
{
    match pattern {
        GraphPattern::OrderBy(_, comparators) => if 0 <= j < comparators.len() {
            &&& lowered.descending == comparators[j].descending
            &&& lowers_expression(
                comparators[j].expression,
                lowered.expression,
                comparators_state(pattern, j, state),
                graph,
            services,
            )
        } else {
            false
        },
        _ => false,
    }
}

/// Whether `later` holds the federated patterns of `table`, at the same
/// numbers.
pub open spec fn holds_table(later: Seq<ServiceRequest>, table: Seq<ServiceRequest>) -> bool {
    &&& table.len() <= later.len()
    &&& forall|i: int| 0 <= i < table.len() ==> later[i] == #[trigger] table[i]
}

/// An expression that is lowered over a table of federated patterns is
/// lowered over every table that holds it.
pub proof fn lemma_lowers_expression_later(
    expression: Expression,
    lowered: PlanExpression,
    state: BuildState,
    graph: PatternValue,
    table: Seq<ServiceRequest>,
    later: Seq<ServiceRequest>,
)
    requires
        lowers_expression(expression, lowered, state, graph, table),
        holds_table(later, table),
    ensures
        lowers_expression(expression, lowered, state, graph, later),
    decreases expression, 1int, 0int,
{
    match expression {
        Expression::Unary(_, a) => {
            lemma_lowers_expression_later(*a, *lowered->Unary_1, state, graph, table, later);
        },
        Expression::Binary(_, a, b) => {
            lemma_lowers_expression_later(*a, *lowered->Binary_1, state, graph, table, later);
            lemma_lowers_expression_later(
                *b,
                *lowered->Binary_2,
                expression_state(*a, state),
                graph,
                table,
                later,
            );
        },
        Expression::If(condition, a, b) => {
            lemma_lowers_expression_later(*condition, *lowered->If_0, state, graph, table, later);
            lemma_lowers_expression_later(
                *a,
                *lowered->If_1,
                expression_state(*condition, state),
                graph,
                table,
                later,
            );
            lemma_lowers_expression_later(
                *b,
                *lowered->If_2,
                expression_state(*a, expression_state(*condition, state)),
                graph,
                table,
                later,
            );
        },
        Expression::Coalesce(arguments) => {
            let items = lowered->Coalesce_0;
            assert forall|j: int| 0 <= j < arguments.len() implies lowers_expression(
                #[trigger] arguments[j],
                items[j],
                arguments_state(expression, j, state),
                graph,
                later,
            ) by {
                lemma_lowers_expression_later(
                    arguments[j],
                    items[j],
                    arguments_state(expression, j, state),
                    graph,
                    table,
                    later,
                );
            }
        },
        Expression::Exists(pattern) => {
            lemma_lowers_later(*pattern, *lowered->Exists_0, state, graph, table, later);
        },
        Expression::FunctionCall(_, arguments) => {
            let items = lowered->Call_1;
            assert forall|j: int| 0 <= j < arguments.len() implies lowers_expression(
                #[trigger] arguments[j],
                items[j],
                arguments_state(expression, j, state),
                graph,
                later,
            ) by {
                lemma_lowers_expression_later(
                    arguments[j],
                    items[j],
                    arguments_state(expression, j, state),
                    graph,
                    table,
                    later,
                );
            }
        },
        _ => {},
    }
}

/// A pattern that is lowered over a table of federated patterns is lowered
/// over every table that holds it.
pub proof fn lemma_lowers_later(
    pattern: GraphPattern,
    plan: PlanNode,
    state: BuildState,
    graph: PatternValue,
    table: Seq<ServiceRequest>,
    later: Seq<ServiceRequest>,
)
    requires
        lowers(pattern, plan, state, graph, table),
        holds_table(later, table),
    ensures
        lowers(pattern, plan, state, graph, later),
    decreases pattern, 1int, 0int,
{
    match pattern {
        GraphPattern::Bgp(_) => {},
        GraphPattern::Join(left, right) => {
            lemma_lowers_later(*left, *plan->Join_left, state, graph, table, later);
            lemma_lowers_later(
                *right,
                *plan->Join_right,
                pattern_state(*left, state),
                graph,
                table,
                later,
            );
        },
        GraphPattern::LeftJoin(left, right, expression) => {
            lemma_lowers_later(*left, *plan->LeftJoin_left, state, graph, table, later);
            lemma_lowers_later(
                *right,
                *plan->LeftJoin_right,
                pattern_state(*left, state),
                graph,
                table,
                later,
            );
            if let Some(condition) = expression {
                lemma_lowers_expression_later(
                    condition,
                    plan->LeftJoin_expression->0,
                    pattern_state(*right, pattern_state(*left, state)),
                    graph,
                    table,
                    later,
                );
            }
        },
        GraphPattern::Filter(expression, inner) => {
            lemma_lowers_later(*inner, *plan->Filter_child, state, graph, table, later);
            lemma_lowers_expression_later(
                expression,
                plan->Filter_expression,
                pattern_state(*inner, state),
                graph,
                table,
                later,
            );
        },
        GraphPattern::Union(left, right) => {
            lemma_lowers_later(*left, *plan->Union_left, state, graph, table, later);
            lemma_lowers_later(
                *right,
                *plan->Union_right,
                pattern_state(*left, state),
                graph,
                table,
                later,
            );
        },
        GraphPattern::Graph(name, inner) => {
            lemma_lowers_later(
                *inner,
                plan,
                position_state(name, state),
                lower_position(name, state),
                table,
                later,
            );
        },
        GraphPattern::Extend(inner, _, expression) => {
            lemma_lowers_later(*inner, *plan->Extend_child, state, graph, table, later);
            lemma_lowers_expression_later(
                expression,
                plan->Extend_expression,
                pattern_state(*inner, state),
                graph,
                table,
                later,
            );
        },
        GraphPattern::Minus(left, right) => {
            lemma_lowers_later(*left, *plan->Minus_left, state, graph, table, later);
            lemma_lowers_later(
                *right,
                *plan->Minus_right,
                pattern_state(*left, state),
                graph,
                table,
                later,
            );
        },
        GraphPattern::Service(_, _, _) => {
            assert(later[state.services as int] == table[state.services as int]);
        },
        GraphPattern::Group(inner, keys, aggregates) => {
            lemma_lowers_later(*inner, *plan->Group_child, state, graph, table, later);
            let s2 = variables_state(keys@, keys.len() as int, pattern_state(*inner, state));
            let lowered = plan->Group_aggregates;
            assert forall|j: int| 0 <= j < aggregates.len() implies lowers_aggregate(
                pattern,
                j,
                #[trigger] lowered[j],
                s2,
                graph,
                later,
            ) by {
                assert(lowers_aggregate(pattern, j, lowered[j], s2, graph, table));
                if let Some(argument) = aggregates[j].0.argument {
                    lemma_lowers_expression_later(
                        argument,
                        lowered[j].parameter->0,
                        aggregates_state(pattern, j, s2),
                        graph,
                        table,
                        later,
                    );
                }
            }
        },
        GraphPattern::Project(inner, _) => {
            lemma_lowers_later(*inner, *plan->Project_child, state, graph, table, later);
        },
        GraphPattern::Distinct(inner) => {
            lemma_lowers_later(*inner, *plan->Distinct_child, state, graph, table, later);
        },
        GraphPattern::Reduced(inner) => {
            lemma_lowers_later(*inner, *plan->Reduced_child, state, graph, table, later);
        },
        GraphPattern::OrderBy(inner, comparators) => {
            lemma_lowers_later(*inner, *plan->Sort_child, state, graph, table, later);
            let s1 = pattern_state(*inner, state);
            let by = plan->Sort_by;
            assert forall|j: int| 0 <= j < comparators.len() implies lowers_comparator(
                pattern,
                j,
                #[trigger] by[j],
                s1,
                graph,
                later,
            ) by {
                assert(lowers_comparator(pattern, j, by[j], s1, graph, table));
                lemma_lowers_expression_later(
                    comparators[j].expression,
                    by[j].expression,
                    comparators_state(pattern, j, s1),
                    graph,
                    table,
                    later,
                );
            }
        },
        GraphPattern::Slice(inner, _, _) => {
            lemma_lowers_later(*inner, *plan->Slice_child, state, graph, table, later);
        },
    }
}

} // verus!
