use crate::model::term::{Term, Variable};
use crate::sparql::algebra::{
    AggregateFunction, Aggregation, Expression, Function, GraphPattern, OrderComparator,
    TermOrVariable, TriplePattern,
};
use crate::sparql::canonical::{
    expression_held, lemma_expression_held_later, lemma_plan_held_later, plan_held,
};
use crate::sparql::dataset::{
    check_term, intern, lemma_encode_round_trip, lemma_prefix_transitive, Dataset, DatasetView,
    EncodedTerm,
};
use crate::sparql::lowering::{
    holds_table, lemma_lowers_expression_later, lemma_lowers_later, aggregate_defect,
    aggregate_names, aggregates_defect, aggregates_state, arguments_defect, arguments_state,
    comparators_defect, comparators_state, expression_defect, expression_state, listed_names,
    lower_function, lower_position, lowers, lowers_aggregate, lowers_comparator, lowers_expression,
    lowers_triples, names_of, pattern_defect, pattern_names, pattern_state, position_defect,
    position_names, position_state, slot_in, triple_defect, triples_defect, triples_names,
    triples_state, worse, BuildState, own_slots, table_slots, table_view, arguments_of,
    builds_text,
};
use crate::sparql::finish::placed;
use crate::sparql::model::Error;
use crate::sparql::placing::{build_defect, is_well_placed, lemma_lowered_placed};
use crate::sparql::plan::{
    Comparator, PatternValue, PlanAggregation, PlanAggregationFunction, PlanExpression, PlanNode,
    ServiceRequest, TripleTemplate,
};
use vstd::prelude::*;

verus! {

/// The build state that a variable table and a dataset view stand for.
pub open spec fn state_of(variables: Seq<Variable>, dataset: Dataset, services: nat) -> BuildState {
    BuildState { variables: names_of(variables), strings: dataset.strings, services }
}

/// Whether a variable table names no variable twice.
pub open spec fn is_table(variables: Seq<Variable>) -> bool {
    names_of(variables).no_duplicates()
}

/// The slot of `name`, which takes the next free slot unless it has one.
pub fn slot_for(variables: &mut Vec<Variable>, name: &Variable) -> (slot: usize)
    requires
        is_table(old(variables)@),
    ensures
        is_table(final(variables)@),
        names_of(final(variables)@) == intern(names_of(old(variables)@), name@),
        slot == slot_in(names_of(final(variables)@), name@),
        slot < final(variables)@.len(),
        names_of(final(variables)@)[slot as int] == name@,
{
    let ghost before = names_of(variables@);
    let mut i: usize = 0;
    while i < variables.len()
        invariant
            i <= variables@.len(),
            variables@ == old(variables)@,
            before == names_of(variables@),
            is_table(variables@),
            forall|k: int| 0 <= k < i ==> before[k] != name@,
        decreases variables@.len() - i,
    {
        if variables[i].name == name.name {
            proof {
                assert(before[i as int] == name@);
                let k = before.index_of(name@);
                assert(0 <= k < before.len() && before[k] == name@);
            }
            return i;
        }
        i = i + 1;
    }
    variables.push(name.clone());
    proof {
        let after = names_of(variables@);
        assert(after =~= before.push(name@));
        assert(after.no_duplicates()) by {
            assert forall|x: int, y: int|
                0 <= x < after.len() && 0 <= y < after.len() && x != y implies after[x]
                != after[y] by {
                if x < before.len() {
                    assert(after[x] == before[x]);
                }
                if y < before.len() {
                    assert(after[y] == before[y]);
                }
            }
        }
        assert(after[i as int] == name@);
        let k = after.index_of(name@);
        assert(0 <= k < after.len() && after[k] == name@);
    }
    i
}

proof fn lemma_triples_defect(patterns: Seq<TriplePattern>, n: int, k: int)
    requires
        0 <= k < n <= patterns.len(),
        triples_defect(patterns, n) == 0,
    ensures
        triple_defect(patterns[k]) == 0,
        triples_defect(patterns, k) == 0,
    decreases n,
{
    if k < n - 1 {
        lemma_triples_defect(patterns, n - 1, k);
    }
}

proof fn lemma_arguments_defect(expression: Expression, n: int, k: int)
    requires
        expression is Coalesce || expression is FunctionCall,
        0 <= k < n <= arguments_of(expression).len(),
        arguments_defect(expression, n) == 0,
    ensures
        expression_defect(arguments_of(expression)[k]) == 0,
    decreases n,
{
    if k < n - 1 {
        lemma_arguments_defect(expression, n - 1, k);
    }
}

proof fn lemma_aggregates_defect(pattern: GraphPattern, n: int, k: int)
    requires
        pattern is Group,
        0 <= k < n <= pattern->Group_2.len(),
        aggregates_defect(pattern, n) == 0,
    ensures
        aggregate_defect(pattern->Group_2[k].0) == 0,
        pattern->Group_2[k].0.argument matches Some(argument) ==> expression_defect(argument) == 0,
    decreases n,
{
    if k < n - 1 {
        lemma_aggregates_defect(pattern, n - 1, k);
    }
}

proof fn lemma_comparators_defect(pattern: GraphPattern, n: int, k: int)
    requires
        pattern is OrderBy,
        0 <= k < n <= pattern->OrderBy_1.len(),
        comparators_defect(pattern, n) == 0,
    ensures
        expression_defect(pattern->OrderBy_1[k].expression) == 0,
    decreases n,
{
    if k < n - 1 {
        lemma_comparators_defect(pattern, n - 1, k);
    }
}

fn worse_of(a: u8, b: u8) -> (w: u8)
    ensures
        w == worse(a as nat, b as nat),
{
    if a >= b {
        a
    } else {
        b
    }
}

fn position_defect_of(position: &TermOrVariable) -> (level: u8)
    ensures
        level == position_defect(*position),
{
    match position {
        TermOrVariable::Term(term) => if check_term(term) {
            0
        } else {
            1
        },
        TermOrVariable::Variable(_) => 0,
    }
}

fn aggregate_defect_of(aggregation: &Aggregation) -> (level: u8)
    ensures
        level == aggregate_defect(*aggregation),
{
    match aggregation.function {
        AggregateFunction::Count => if aggregation.argument.is_none() && aggregation.distinct {
            3
        } else {
            0
        },
        _ => if aggregation.argument.is_none() {
            3
        } else {
            0
        },
    }
}

/// How severe the worst defect of an expression is.
#[verifier::loop_isolation(false)]
pub fn expression_defect_of(expression: &Expression) -> (level: u8)
    ensures
        level == expression_defect(*expression),
    decreases *expression, 1int, 0int,
{
    match expression {
        Expression::Constant(term) => if check_term(term) {
            0
        } else {
            1
        },
        Expression::Variable(_) => 0,
        Expression::Bound(_) => 0,
        Expression::Unary(_, a) => expression_defect_of(a),
        Expression::Binary(_, a, b) => worse_of(expression_defect_of(a), expression_defect_of(b)),
        Expression::If(condition, a, b) => worse_of(
            expression_defect_of(condition),
            worse_of(expression_defect_of(a), expression_defect_of(b)),
        ),
        Expression::Coalesce(arguments) => {
            let mut level: u8 = 0;
            let mut i: usize = 0;
            while i < arguments.len()
                invariant
                    i <= arguments@.len(),
                    level == arguments_defect(*expression, i as int),
                decreases arguments@.len() - i,
            {
                level = worse_of(level, expression_defect_of(&arguments[i]));
                i = i + 1;
            }
            level
        },
        Expression::Exists(pattern) => pattern_defect_of(pattern),
        Expression::FunctionCall(function, arguments) => {
            if !builds_text_of(*function) {
                return 2;
            }
            let mut level: u8 = 0;
            let mut i: usize = 0;
            while i < arguments.len()
                invariant
                    i <= arguments@.len(),
                    level == arguments_defect(*expression, i as int),
                decreases arguments@.len() - i,
            {
                level = worse_of(level, expression_defect_of(&arguments[i]));
                i = i + 1;
            }
            level
        },
    }
}

/// Whether a function builds a text that evaluation interns.
pub fn builds_text_of(function: Function) -> (builds: bool)
    ensures
        builds == builds_text(function),
{
    match function {
        Function::Str => true,
        Function::Lang => true,
        Function::Datatype => true,
        Function::Concat => true,
        Function::SubStr => true,
        Function::UCase => true,
        Function::LCase => true,
        Function::Divide => true,
        Function::Seconds => true,
        _ => false,
    }
}

/// How severe the worst defect of a graph pattern is.
#[verifier::rlimit(40)]
#[verifier::loop_isolation(false)]
pub fn pattern_defect_of(pattern: &GraphPattern) -> (level: u8)
    ensures
        level == pattern_defect(*pattern),
    decreases *pattern, 1int, 0int,
{
    match pattern {
        GraphPattern::Bgp(patterns) => {
            let mut level: u8 = 0;
            let mut i: usize = 0;
            while i < patterns.len()
                invariant
                    i <= patterns@.len(),
                    level == triples_defect(patterns@, i as int),
                decreases patterns@.len() - i,
            {
                let triple = worse_of(
                    position_defect_of(&patterns[i].subject),
                    worse_of(
                        position_defect_of(&patterns[i].predicate),
                        position_defect_of(&patterns[i].object),
                    ),
                );
                level = worse_of(level, triple);
                i = i + 1;
            }
            level
        },
        GraphPattern::Join(left, right) => worse_of(
            pattern_defect_of(left),
            pattern_defect_of(right),
        ),
        GraphPattern::LeftJoin(left, right, expression) => {
            let e = match expression {
                Some(condition) => expression_defect_of(condition),
                None => 0,
            };
            worse_of(pattern_defect_of(left), worse_of(pattern_defect_of(right), e))
        },
        GraphPattern::Filter(expression, inner) => worse_of(
            pattern_defect_of(inner),
            expression_defect_of(expression),
        ),
        GraphPattern::Union(left, right) => worse_of(
            pattern_defect_of(left),
            pattern_defect_of(right),
        ),
        GraphPattern::Graph(name, inner) => worse_of(
            position_defect_of(name),
            pattern_defect_of(inner),
        ),
        GraphPattern::Extend(inner, _, expression) => worse_of(
            pattern_defect_of(inner),
            expression_defect_of(expression),
        ),
        GraphPattern::Minus(left, right) => worse_of(
            pattern_defect_of(left),
            pattern_defect_of(right),
        ),
        GraphPattern::Service(_, _, _) => 0,
        GraphPattern::Group(inner, _, aggregates) => {
            let mut level: u8 = 0;
            let mut i: usize = 0;
            while i < aggregates.len()
                invariant
                    i <= aggregates@.len(),
                    level == aggregates_defect(*pattern, i as int),
                decreases aggregates@.len() - i,
            {
                let argument = match &aggregates[i].0.argument {
                    Some(argument) => expression_defect_of(argument),
                    None => 0,
                };
                level = worse_of(
                    level,
                    worse_of(aggregate_defect_of(&aggregates[i].0), argument),
                );
                i = i + 1;
            }
            worse_of(pattern_defect_of(inner), level)
        },
        GraphPattern::Project(inner, _) => pattern_defect_of(inner),
        GraphPattern::Distinct(inner) => pattern_defect_of(inner),
        GraphPattern::Reduced(inner) => pattern_defect_of(inner),
        GraphPattern::OrderBy(inner, comparators) => {
            let mut level: u8 = 0;
            let mut i: usize = 0;
            while i < comparators.len()
                invariant
                    i <= comparators@.len(),
                    level == comparators_defect(*pattern, i as int),
                decreases comparators@.len() - i,
            {
                level = worse_of(level, expression_defect_of(&comparators[i].expression));
                i = i + 1;
            }
            worse_of(pattern_defect_of(inner), level)
        },
        GraphPattern::Slice(inner, _, _) => pattern_defect_of(inner),
    }
}

/// Gives slots to the first `n` variables of a list, and their slots.
pub fn list_slots(variables: &mut Vec<Variable>, listed: &Vec<Variable>) -> (slots: Vec<usize>)
    requires
        is_table(old(variables)@),
    ensures
        is_table(final(variables)@),
        names_of(final(variables)@) == listed_names(
            listed@,
            listed@.len() as int,
            names_of(old(variables)@),
        ),
        slots@.len() == listed@.len(),
        forall|i: int|
            0 <= i < listed@.len() ==> #[trigger] slots@[i] == slot_in(
                listed_names(listed@, i + 1, names_of(old(variables)@)),
                listed@[i]@,
            ),
{
    let ghost start = names_of(variables@);
    let mut slots: Vec<usize> = Vec::new();
    let mut i: usize = 0;
    while i < listed.len()
        invariant
            i <= listed@.len(),
            is_table(variables@),
            names_of(variables@) == listed_names(listed@, i as int, start),
            slots@.len() == i,
            forall|k: int|
                0 <= k < i ==> #[trigger] slots@[k] == slot_in(
                    listed_names(listed@, k + 1, start),
                    listed@[k]@,
                ),
        decreases listed@.len() - i,
    {
        let slot = slot_for(variables, &listed[i]);
        slots.push(slot);
        i = i + 1;
    }
    slots
}

/// Gives a slot to the variable of a pattern position, if it is one.
fn collect_position(variables: &mut Vec<Variable>, position: &TermOrVariable)
    requires
        is_table(old(variables)@),
    ensures
        is_table(final(variables)@),
        names_of(final(variables)@) == position_names(*position, names_of(old(variables)@)),
{
    match position {
        TermOrVariable::Term(_) => {},
        TermOrVariable::Variable(variable) => {
            let _ = slot_for(variables, variable);
        },
    }
}

/// Gives slots to the variables that a pattern can bind.
#[verifier::rlimit(40)]
#[verifier::loop_isolation(false)]
pub fn collect_pattern(variables: &mut Vec<Variable>, pattern: &GraphPattern)
    requires
        is_table(old(variables)@),
    ensures
        is_table(final(variables)@),
        names_of(final(variables)@) == pattern_names(*pattern, names_of(old(variables)@)),
    decreases *pattern,
{
    let ghost start = names_of(variables@);
    match pattern {
        GraphPattern::Bgp(patterns) => {
            let mut i: usize = 0;
            while i < patterns.len()
                invariant
                    i <= patterns@.len(),
                    is_table(variables@),
                    names_of(variables@) == triples_names(patterns@, i as int, start),
                decreases patterns@.len() - i,
            {
                collect_position(variables, &patterns[i].subject);
                collect_position(variables, &patterns[i].predicate);
                collect_position(variables, &patterns[i].object);
                i = i + 1;
            }
        },
        GraphPattern::Join(left, right) => {
            collect_pattern(variables, left);
            collect_pattern(variables, right);
        },
        GraphPattern::LeftJoin(left, right, _) => {
            collect_pattern(variables, left);
            collect_pattern(variables, right);
        },
        GraphPattern::Filter(_, inner) => {
            collect_pattern(variables, inner);
        },
        GraphPattern::Union(left, right) => {
            collect_pattern(variables, left);
            collect_pattern(variables, right);
        },
        GraphPattern::Graph(name, inner) => {
            collect_position(variables, name);
            collect_pattern(variables, inner);
        },
        GraphPattern::Extend(inner, variable, _) => {
            collect_pattern(variables, inner);
            let _ = slot_for(variables, variable);
        },
        GraphPattern::Minus(left, _) => {
            collect_pattern(variables, left);
        },
        GraphPattern::Service(_, inner, _) => {
            collect_pattern(variables, inner);
        },
        GraphPattern::Group(_, keys, aggregates) => {
            let _ = list_slots(variables, keys);
            let ghost middle = names_of(variables@);
            let mut i: usize = 0;
            while i < aggregates.len()
                invariant
                    i <= aggregates@.len(),
                    is_table(variables@),
                    names_of(variables@) == aggregate_names(aggregates@, i as int, middle),
                decreases aggregates@.len() - i,
            {
                let _ = slot_for(variables, &aggregates[i].1);
                i = i + 1;
            }
        },
        GraphPattern::Project(_, listed) => {
            let _ = list_slots(variables, listed);
        },
        GraphPattern::Distinct(inner) => {
            collect_pattern(variables, inner);
        },
        GraphPattern::Reduced(inner) => {
            collect_pattern(variables, inner);
        },
        GraphPattern::OrderBy(inner, _) => {
            collect_pattern(variables, inner);
        },
        GraphPattern::Slice(inner, _, _) => {
            collect_pattern(variables, inner);
        },
    }
}

proof fn lemma_prefix_self(strings: Seq<Seq<char>>)
    ensures
        strings.is_prefix_of(strings),
{
    assert(strings =~= strings.subrange(0, strings.len() as int));
}

/// Lowers a pattern position: encodes the constant, or gives the variable
/// its slot.
fn lower_position_in(
    dataset: &mut DatasetView,
    variables: &mut Vec<Variable>,
    position: &TermOrVariable,
    Ghost(count): Ghost<nat>,
) -> (lowered: PatternValue)
    requires
        position_defect(*position) == 0,
        old(dataset)@.well_formed(),
        is_table(old(variables)@),
    ensures
        lowered == lower_position(*position, state_of(old(variables)@, old(dataset)@, count)),
        state_of(final(variables)@, final(dataset)@, count) == position_state(
            *position,
            state_of(old(variables)@, old(dataset)@, count),
        ),
        final(dataset)@.quads == old(dataset)@.quads,
        final(dataset)@.well_formed(),
        is_table(final(variables)@),
        old(dataset)@.strings.is_prefix_of(final(dataset)@.strings),
{
    let ghost before = dataset@.strings;
    match position {
        TermOrVariable::Term(term) => {
            let found = dataset.encode_term(term);
            proof {
                lemma_prefix_self(dataset@.strings);
                if found is Ok {
                    lemma_encode_round_trip(before, term@, dataset@.strings);
                }
            }
            match found {
                Ok(encoded) => PatternValue::Constant(encoded),
                Err(_) => PatternValue::Constant(EncodedTerm::DefaultGraph),
            }
        },
        TermOrVariable::Variable(variable) => {
            proof {
                lemma_prefix_self(before);
            }
            PatternValue::Variable(slot_for(variables, variable))
        },
    }
}

/// What `GROUP_CONCAT` puts between two texts.
fn separator_in(separator: Option<String>) -> (text: String)
    ensures
        text@ == match separator {
            Some(named) => named@,
            None => seq![' '],
        },
{
    match separator {
        Some(named) => named,
        None => {
            proof {
                reveal_strlit(" ");
            }
            let text = " ".to_owned();
            assert(text@ =~= seq![' ']);
            text
        },
    }
}

fn lower_function_of(function: AggregateFunction) -> (lowered: PlanAggregationFunction)
    ensures
        lowered == lower_function(function),
{
    match function {
        AggregateFunction::Count => PlanAggregationFunction::Count,
        AggregateFunction::Sum => PlanAggregationFunction::Sum,
        AggregateFunction::Min => PlanAggregationFunction::Min,
        AggregateFunction::Max => PlanAggregationFunction::Max,
        AggregateFunction::GroupConcat => PlanAggregationFunction::GroupConcat,
        AggregateFunction::Avg => PlanAggregationFunction::Avg,
        _ => PlanAggregationFunction::Sample,
    }
}

/// The variables of `own` that the table holds, each with its slot there.
#[verifier::loop_isolation(false)]
fn own_table(variables: &Vec<Variable>, own: &Vec<Variable>) -> (table: Vec<(Variable, usize)>)
    requires
        is_table(variables@),
    ensures
        table_view(table@) == own_slots(
            names_of(variables@),
            names_of(own@),
            own@.len() as int,
        ),
{
    let ghost known = names_of(variables@);
    let ghost names = names_of(own@);
    let mut table: Vec<(Variable, usize)> = Vec::new();
    let mut i: usize = 0;
    assert(table_view(table@) =~= own_slots(known, names, 0));
    while i < own.len()
        invariant
            i <= own@.len(),
            table_view(table@) == own_slots(known, names, i as int),
        decreases own@.len() - i,
    {
        let ghost before = table_view(table@);
        let mut k: usize = 0;
        let mut found = false;
        while k < variables.len() && !found
            invariant
                k <= variables@.len(),
                !found ==> forall|j: int| 0 <= j < k ==> known[j] != names[i as int],
                found ==> k < variables@.len() && known[k as int] == names[i as int],
            decreases variables@.len() - k, (if found { 0int } else { 1int }),
        {
            if variables[k].name == own[i].name {
                found = true;
            } else {
                k = k + 1;
            }
        }
        if found {
            proof {
                let at = known.index_of(names[i as int]);
                assert(0 <= at < known.len() && known[at] == names[i as int]);
            }
            table.push((own[i].clone(), k));
            assert(table_view(table@) =~= before.push((names[i as int], k)));
        }
        i = i + 1;
    }
    table
}

/// The slots of the slot table of a federated pattern.
fn slots_of_table(table: &Vec<(Variable, usize)>) -> (slots: Vec<usize>)
    ensures
        slots@ == table_slots(table@),
{
    let mut slots: Vec<usize> = Vec::new();
    let mut i: usize = 0;
    while i < table.len()
        invariant
            i <= table@.len(),
            slots@.len() == i,
            forall|k: int| 0 <= k < i ==> slots@[k] == table@[k].1,
        decreases table@.len() - i,
    {
        slots.push(table[i].1);
        i = i + 1;
    }
    assert(slots@ =~= table_slots(table@));
    slots
}

/// Lowers an expression over the variable table, the dataset view and the
/// table of federated patterns: each variable takes its slot, each constant
/// is interned, each federated pattern takes the next number.
#[verifier::rlimit(40)]
#[verifier::loop_isolation(false)]
pub fn lower_expression(
    dataset: &mut DatasetView,
    variables: &mut Vec<Variable>,
    services: &mut Vec<ServiceRequest>,
    expression: Expression,
    graph: PatternValue,
) -> (lowered: PlanExpression)
    requires
        expression_defect(expression) == 0,
        old(dataset)@.well_formed(),
        is_table(old(variables)@),
    ensures
        lowers_expression(
            expression,
            lowered,
            state_of(old(variables)@, old(dataset)@, old(services)@.len()),
            graph,
            final(services)@,
        ),
        state_of(final(variables)@, final(dataset)@, final(services)@.len()) == expression_state(
            expression,
            state_of(old(variables)@, old(dataset)@, old(services)@.len()),
        ),
        holds_table(final(services)@, old(services)@),
        final(dataset)@.quads == old(dataset)@.quads,
        final(dataset)@.well_formed(),
        is_table(final(variables)@),
        old(dataset)@.strings.is_prefix_of(final(dataset)@.strings),
        expression_held(final(dataset)@.strings, lowered),
    decreases expression, 1int, 0int,
{
    let ghost whole = expression;
    let ghost start = state_of(variables@, dataset@, services@.len());
    let ghost base = services@;
    let ghost quads = dataset@.quads;
    let ghost s0 = dataset@.strings;
    proof {
        lemma_prefix_self(s0);
    }
    match expression {
        Expression::Constant(term) => {
            let found = dataset.encode_term(&term);
            proof {
                lemma_prefix_self(dataset@.strings);
                if found is Ok {
                    lemma_encode_round_trip(s0, term@, dataset@.strings);
                }
            }
            match found {
                Ok(encoded) => PlanExpression::Constant(encoded),
                Err(_) => PlanExpression::Constant(EncodedTerm::DefaultGraph),
            }
        },
        Expression::Variable(variable) => PlanExpression::Variable(
            slot_for(variables, &variable),
        ),
        Expression::Bound(variable) => PlanExpression::Bound(slot_for(variables, &variable)),
        Expression::Unary(operator, a) => {
            let x = lower_expression(dataset, variables, services, *a, graph);
            PlanExpression::Unary(operator, Box::new(x))
        },
        Expression::Binary(operator, a, b) => {
            let x = lower_expression(dataset, variables, services, *a, graph);
            let ghost t1 = services@;
            let ghost s1 = dataset@.strings;
            let y = lower_expression(dataset, variables, services, *b, graph);
            proof {
                lemma_lowers_expression_later(*a, x, start, graph, t1, services@);
                lemma_expression_held_later(s1, dataset@.strings, x);
                lemma_prefix_transitive(s0, s1, dataset@.strings);
            }
            PlanExpression::Binary(operator, Box::new(x), Box::new(y))
        },
        Expression::If(condition, a, b) => {
            let c = lower_expression(dataset, variables, services, *condition, graph);
            let ghost t1 = services@;
            let ghost s1 = dataset@.strings;
            let x = lower_expression(dataset, variables, services, *a, graph);
            let ghost t2 = services@;
            let ghost s2 = dataset@.strings;
            let y = lower_expression(dataset, variables, services, *b, graph);
            proof {
                lemma_expression_held_later(s2, dataset@.strings, x);
                lemma_prefix_transitive(s0, s1, s2);
                lemma_prefix_transitive(s0, s2, dataset@.strings);
                lemma_prefix_transitive(s1, s2, dataset@.strings);
                lemma_expression_held_later(s1, dataset@.strings, c);
                lemma_lowers_expression_later(*condition, c, start, graph, t1, services@);
                lemma_lowers_expression_later(
                    *a,
                    x,
                    expression_state(*condition, start),
                    graph,
                    t2,
                    services@,
                );
            }
            PlanExpression::If(Box::new(c), Box::new(x), Box::new(y))
        },
        Expression::Coalesce(arguments) => {
            let items = lower_arguments(
                dataset,
                variables,
                services,
                arguments,
                graph,
                Ghost(whole),
            );
            PlanExpression::Coalesce(items)
        },
        Expression::Exists(pattern) => {
            let plan = lower_pattern(dataset, variables, services, *pattern, graph);
            PlanExpression::Exists(Box::new(plan))
        },
        Expression::FunctionCall(function, arguments) => {
            let items = lower_arguments(
                dataset,
                variables,
                services,
                arguments,
                graph,
                Ghost(whole),
            );
            PlanExpression::Call(function, items)
        },
    }
}

/// Lowers the arguments of a `COALESCE` or of a call in turn.
#[verifier::rlimit(100)]
#[verifier::loop_isolation(false)]
fn lower_arguments(
    dataset: &mut DatasetView,
    variables: &mut Vec<Variable>,
    services: &mut Vec<ServiceRequest>,
    arguments: Vec<Expression>,
    graph: PatternValue,
    Ghost(whole): Ghost<Expression>,
) -> (items: Vec<PlanExpression>)
    requires
        whole is Coalesce || whole is FunctionCall,
        arguments_of(whole) == arguments@,
        arguments_defect(whole, arguments@.len() as int) == 0,
        old(dataset)@.well_formed(),
        is_table(old(variables)@),
    ensures
        items@.len() == arguments@.len(),
        forall|k: int|
            0 <= k < arguments@.len() ==> lowers_expression(
                #[trigger] arguments@[k],
                items@[k],
                arguments_state(
                    whole,
                    k,
                    state_of(old(variables)@, old(dataset)@, old(services)@.len()),
                ),
                graph,
                final(services)@,
            ),
        state_of(final(variables)@, final(dataset)@, final(services)@.len()) == arguments_state(
            whole,
            arguments@.len() as int,
            state_of(old(variables)@, old(dataset)@, old(services)@.len()),
        ),
        holds_table(final(services)@, old(services)@),
        final(dataset)@.quads == old(dataset)@.quads,
        final(dataset)@.well_formed(),
        is_table(final(variables)@),
        old(dataset)@.strings.is_prefix_of(final(dataset)@.strings),
        forall|k: int|
            0 <= k < items@.len() ==> expression_held(final(dataset)@.strings, #[trigger] items@[k]),
    decreases whole, 0int, 0int,
{
    let ghost start = state_of(variables@, dataset@, services@.len());
    let ghost base = services@;
    let ghost quads = dataset@.quads;
    let ghost s0 = dataset@.strings;
    proof {
        lemma_prefix_self(s0);
    }
    let ghost all = arguments@;
    let mut rest = arguments;
    let mut items: Vec<PlanExpression> = Vec::new();
    let mut j: usize = 0;
    assert(rest@ =~= all.subrange(0, all.len() as int));
    while rest.len() > 0
        invariant
            j + rest@.len() == all.len(),
            rest@ == all.subrange(j as int, all.len() as int),
            items@.len() == j,
            state_of(variables@, dataset@, services@.len()) == arguments_state(
                whole,
                j as int,
                start,
            ),
            forall|k: int|
                0 <= k < j ==> lowers_expression(
                    #[trigger] all[k],
                    items@[k],
                    arguments_state(whole, k, start),
                    graph,
                    services@,
                ),
            holds_table(services@, base),
            dataset@.quads == quads,
            dataset@.well_formed(),
            is_table(variables@),
            s0.is_prefix_of(dataset@.strings),
            forall|k: int|
                0 <= k < j ==> expression_held(dataset@.strings, #[trigger] items@[k]),
        decreases rest@.len(),
    {
        let e = rest.remove(0);
        proof {
            lemma_arguments_defect(whole, all.len() as int, j as int);
            assert(e == all[j as int]);
        }
        let ghost before = services@;
        let ghost done = items@;
        let ghost held = dataset@.strings;
        let item = lower_expression(dataset, variables, services, e, graph);
        items.push(item);
        proof {
            lemma_prefix_transitive(s0, held, dataset@.strings);
            assert forall|k: int| 0 <= k < j + 1 implies expression_held(
                dataset@.strings,
                #[trigger] items@[k],
            ) by {
                if k < j {
                    assert(items@[k] == done[k]);
                    lemma_expression_held_later(held, dataset@.strings, done[k]);
                }
            }
            assert forall|k: int| 0 <= k < j + 1 implies lowers_expression(
                #[trigger] all[k],
                items@[k],
                arguments_state(whole, k, start),
                graph,
                services@,
            ) by {
                if k < j {
                    assert(items@[k] == done[k]);
                    lemma_lowers_expression_later(
                        all[k],
                        done[k],
                        arguments_state(whole, k, start),
                        graph,
                        before,
                        services@,
                    );
                }
            }
        }
        j = j + 1;
        assert(rest@ =~= all.subrange(j as int, all.len() as int));
    }
    assert(all =~= arguments_of(whole));
    items
}

/// Lowers a graph pattern over the variable table, the dataset view and the
/// table of federated patterns. Triple patterns are read in the graph
/// `graph`.
#[verifier::rlimit(40)]
#[verifier::loop_isolation(false)]
pub fn lower_pattern(
    dataset: &mut DatasetView,
    variables: &mut Vec<Variable>,
    services: &mut Vec<ServiceRequest>,
    pattern: GraphPattern,
    graph: PatternValue,
) -> (plan: PlanNode)
    requires
        pattern_defect(pattern) == 0,
        old(dataset)@.well_formed(),
        is_table(old(variables)@),
    ensures
        lowers(
            pattern,
            plan,
            state_of(old(variables)@, old(dataset)@, old(services)@.len()),
            graph,
            final(services)@,
        ),
        state_of(final(variables)@, final(dataset)@, final(services)@.len()) == pattern_state(
            pattern,
            state_of(old(variables)@, old(dataset)@, old(services)@.len()),
        ),
        holds_table(final(services)@, old(services)@),
        final(dataset)@.quads == old(dataset)@.quads,
        final(dataset)@.well_formed(),
        is_table(final(variables)@),
        old(dataset)@.strings.is_prefix_of(final(dataset)@.strings),
        plan_held(final(dataset)@.strings, plan),
    decreases pattern, 1int, 0int,
{
    let ghost whole = pattern;
    let ghost start = state_of(variables@, dataset@, services@.len());
    let ghost base = services@;
    let ghost quads = dataset@.quads;
    let ghost s0 = dataset@.strings;
    proof {
        lemma_prefix_self(s0);
    }
    match pattern {
        GraphPattern::Bgp(patterns) => {
            let mut plan = PlanNode::Init;
            let mut i: usize = 0;
            while i < patterns.len()
                invariant
                    i <= patterns@.len(),
                    s0.is_prefix_of(dataset@.strings),
                    plan_held(dataset@.strings, plan),
                    lowers_triples(patterns@, i as int, plan, start, graph),
                    state_of(variables@, dataset@, services@.len()) == triples_state(
                        patterns@,
                        i as int,
                        start,
                    ),
                    services@ == base,
                    dataset@.quads == quads,
                    dataset@.well_formed(),
                    is_table(variables@),
                decreases patterns@.len() - i,
            {
                proof {
                    lemma_triples_defect(patterns@, patterns@.len() as int, i as int);
                }
                let ghost count = services@.len();
                let ghost h0 = dataset@.strings;
                let subject = lower_position_in(
                    dataset,
                    variables,
                    &patterns[i].subject,
                    Ghost(count),
                );
                let ghost h1 = dataset@.strings;
                let predicate = lower_position_in(
                    dataset,
                    variables,
                    &patterns[i].predicate,
                    Ghost(count),
                );
                let ghost h2 = dataset@.strings;
                let object = lower_position_in(
                    dataset,
                    variables,
                    &patterns[i].object,
                    Ghost(count),
                );
                proof {
                    lemma_prefix_transitive(h0, h1, h2);
                    lemma_prefix_transitive(h0, h2, dataset@.strings);
                    lemma_prefix_transitive(s0, h0, dataset@.strings);
                    lemma_plan_held_later(h0, dataset@.strings, plan);
                }
                plan =
                PlanNode::QuadPatternJoin {
                    child: Box::new(plan),
                    subject,
                    predicate,
                    object,
                    graph_name: graph,
                };
                i = i + 1;
            }
            plan
        },
        GraphPattern::Join(left, right) => {
            let l = lower_pattern(dataset, variables, services, *left, graph);
            let ghost t1 = services@;
            let ghost s1 = dataset@.strings;
            let r = lower_pattern(dataset, variables, services, *right, graph);
            proof {
                lemma_lowers_later(*left, l, start, graph, t1, services@);
                lemma_plan_held_later(s1, dataset@.strings, l);
                lemma_prefix_transitive(s0, s1, dataset@.strings);
            }
            PlanNode::Join { left: Box::new(l), right: Box::new(r) }
        },
        GraphPattern::LeftJoin(left, right, expression) => {
            let l = lower_pattern(dataset, variables, services, *left, graph);
            let ghost t1 = services@;
            let ghost s1 = dataset@.strings;
            let r = lower_pattern(dataset, variables, services, *right, graph);
            let ghost t2 = services@;
            let ghost s2 = dataset@.strings;
            let e = match expression {
                Some(condition) => Some(
                    lower_expression(dataset, variables, services, condition, graph),
                ),
                None => {
                    proof {
                        lemma_prefix_self(s2);
                    }
                    None
                },
            };
            proof {
                lemma_prefix_transitive(s1, s2, dataset@.strings);
                lemma_prefix_transitive(s0, s1, dataset@.strings);
                lemma_plan_held_later(s1, dataset@.strings, l);
                lemma_plan_held_later(s2, dataset@.strings, r);
                lemma_lowers_later(*left, l, start, graph, t1, services@);
                lemma_lowers_later(*right, r, pattern_state(*left, start), graph, t2, services@);
            }
            PlanNode::LeftJoin { left: Box::new(l), right: Box::new(r), expression: e }
        },
        GraphPattern::Filter(expression, inner) => {
            let child = lower_pattern(dataset, variables, services, *inner, graph);
            let ghost t1 = services@;
            let ghost s1 = dataset@.strings;
            let e = lower_expression(dataset, variables, services, expression, graph);
            proof {
                lemma_plan_held_later(s1, dataset@.strings, child);
                lemma_prefix_transitive(s0, s1, dataset@.strings);
                lemma_lowers_later(*inner, child, start, graph, t1, services@);
            }
            PlanNode::Filter { child: Box::new(child), expression: e }
        },
        GraphPattern::Union(left, right) => {
            let l = lower_pattern(dataset, variables, services, *left, graph);
            let ghost t1 = services@;
            let ghost s1 = dataset@.strings;
            let r = lower_pattern(dataset, variables, services, *right, graph);
            proof {
                lemma_plan_held_later(s1, dataset@.strings, l);
                lemma_prefix_transitive(s0, s1, dataset@.strings);
                lemma_lowers_later(*left, l, start, graph, t1, services@);
            }
            PlanNode::Union { left: Box::new(l), right: Box::new(r) }
        },
        GraphPattern::Graph(name, inner) => {
            let inner_graph = lower_position_in(
                dataset,
                variables,
                &name,
                Ghost(services@.len()),
            );
            let ghost s1 = dataset@.strings;
            let plan = lower_pattern(dataset, variables, services, *inner, inner_graph);
            proof {
                lemma_prefix_transitive(s0, s1, dataset@.strings);
            }
            plan
        },
        GraphPattern::Extend(inner, variable, expression) => {
            let child = lower_pattern(dataset, variables, services, *inner, graph);
            let ghost t1 = services@;
            let ghost s1 = dataset@.strings;
            let e = lower_expression(dataset, variables, services, expression, graph);
            let slot = slot_for(variables, &variable);
            proof {
                lemma_plan_held_later(s1, dataset@.strings, child);
                lemma_prefix_transitive(s0, s1, dataset@.strings);
                lemma_lowers_later(*inner, child, start, graph, t1, services@);
            }
            PlanNode::Extend { child: Box::new(child), slot, expression: e }
        },
        GraphPattern::Minus(left, right) => {
            let l = lower_pattern(dataset, variables, services, *left, graph);
            let ghost t1 = services@;
            let ghost s1 = dataset@.strings;
            let r = lower_pattern(dataset, variables, services, *right, graph);
            proof {
                lemma_plan_held_later(s1, dataset@.strings, l);
                lemma_prefix_transitive(s0, s1, dataset@.strings);
                lemma_lowers_later(*left, l, start, graph, t1, services@);
            }
            PlanNode::Minus { left: Box::new(l), right: Box::new(r) }
        },
        GraphPattern::Service(name, inner, silent) => {
            collect_pattern(variables, &*inner);
            let mut own: Vec<Variable> = Vec::new();
            assert(names_of(own@) =~= Seq::<Seq<char>>::empty());
            collect_pattern(&mut own, &*inner);
            let table = own_table(variables, &own);
            let slots = slots_of_table(&table);
            let id = services.len();
            services.push(ServiceRequest { endpoint: name, pattern: *inner, silent, variables: table });
            PlanNode::Service { id, slots }
        },
        GraphPattern::Group(inner, keys, aggregates) => lower_group(
            dataset,
            variables,
            services,
            inner,
            keys,
            aggregates,
            graph,
            Ghost(whole),
        ),
        GraphPattern::Project(inner, listed) => {
            let child = lower_pattern(dataset, variables, services, *inner, graph);
            let slots = list_slots(variables, &listed);
            PlanNode::Project { child: Box::new(child), slots }
        },
        GraphPattern::Distinct(inner) => {
            let child = lower_pattern(dataset, variables, services, *inner, graph);
            PlanNode::Distinct { child: Box::new(child) }
        },
        GraphPattern::Reduced(inner) => {
            let child = lower_pattern(dataset, variables, services, *inner, graph);
            PlanNode::Reduced { child: Box::new(child) }
        },
        GraphPattern::OrderBy(inner, comparators) => lower_order(
            dataset,
            variables,
            services,
            inner,
            comparators,
            graph,
            Ghost(whole),
        ),
        GraphPattern::Slice(inner, start_at, length) => {
            let child = lower_pattern(dataset, variables, services, *inner, graph);
            PlanNode::Slice { child: Box::new(child), start: start_at, length }
        },
    }
}

/// Lowers a `GROUP`: its pattern, its keys, then its aggregates in turn.
#[verifier::rlimit(40)]
#[verifier::loop_isolation(false)]
fn lower_group(
    dataset: &mut DatasetView,
    variables: &mut Vec<Variable>,
    services: &mut Vec<ServiceRequest>,
    inner: Box<GraphPattern>,
    keys: Vec<Variable>,
    aggregates: Vec<(Aggregation, Variable)>,
    graph: PatternValue,
    Ghost(whole): Ghost<GraphPattern>,
) -> (plan: PlanNode)
    requires
        whole == GraphPattern::Group(inner, keys, aggregates),
        pattern_defect(whole) == 0,
        old(dataset)@.well_formed(),
        is_table(old(variables)@),
    ensures
        lowers(
            whole,
            plan,
            state_of(old(variables)@, old(dataset)@, old(services)@.len()),
            graph,
            final(services)@,
        ),
        state_of(final(variables)@, final(dataset)@, final(services)@.len()) == pattern_state(
            whole,
            state_of(old(variables)@, old(dataset)@, old(services)@.len()),
        ),
        holds_table(final(services)@, old(services)@),
        final(dataset)@.quads == old(dataset)@.quads,
        final(dataset)@.well_formed(),
        is_table(final(variables)@),
        old(dataset)@.strings.is_prefix_of(final(dataset)@.strings),
        plan_held(final(dataset)@.strings, plan),
    decreases whole, 0int, 0int,
{
    let ghost start = state_of(variables@, dataset@, services@.len());
    let ghost base = services@;
    let ghost quads = dataset@.quads;
    let ghost h0 = dataset@.strings;
    let child = lower_pattern(dataset, variables, services, *inner, graph);
    let ghost t1 = services@;
    let ghost s1 = state_of(variables@, dataset@, services@.len());
    let slots = list_slots(variables, &keys);
    let ghost s2 = state_of(variables@, dataset@, services@.len());
    let ghost all = aggregates@;
    let mut rest = aggregates;
    let mut lowered: Vec<PlanAggregation> = Vec::new();
    let mut j: usize = 0;
    assert(rest@ =~= all.subrange(0, all.len() as int));
    while rest.len() > 0
        invariant
            j + rest@.len() == all.len(),
            rest@ == all.subrange(j as int, all.len() as int),
            lowered@.len() == j,
            state_of(variables@, dataset@, services@.len()) == aggregates_state(
                whole,
                j as int,
                s2,
            ),
            forall|k: int|
                0 <= k < j ==> lowers_aggregate(
                    whole,
                    k,
                    #[trigger] lowered@[k],
                    s2,
                    graph,
                    services@,
                ),
            holds_table(services@, t1),
            dataset@.quads == quads,
            dataset@.well_formed(),
            is_table(variables@),
            h0.is_prefix_of(dataset@.strings),
            plan_held(dataset@.strings, child),
            forall|k: int|
                0 <= k < j ==> ((#[trigger] lowered@[k]).parameter matches Some(argument)
                    ==> expression_held(dataset@.strings, argument)),
        decreases rest@.len(),
    {
        let (aggregation, variable) = rest.remove(0);
        proof {
            lemma_aggregates_defect(whole, all.len() as int, j as int);
            assert((aggregation, variable) == all[j as int]);
        }
        let ghost before = services@;
        let ghost done = lowered@;
        let ghost held = dataset@.strings;
        let function = lower_function_of(aggregation.function);
        let distinct = aggregation.distinct;
        let separator = separator_in(aggregation.separator);
        let parameter = match aggregation.argument {
            Some(argument) => Some(
                lower_expression(dataset, variables, services, argument, graph),
            ),
            None => {
                proof {
                    lemma_prefix_self(held);
                }
                None
            },
        };
        let slot = slot_for(variables, &variable);
        lowered.push(PlanAggregation { function, parameter, distinct, slot, separator });
        proof {
            lemma_prefix_transitive(h0, held, dataset@.strings);
            lemma_plan_held_later(held, dataset@.strings, child);
            assert forall|k: int| 0 <= k < j + 1 implies ((
            #[trigger] lowered@[k]).parameter matches Some(argument) ==> expression_held(
                dataset@.strings,
                argument,
            )) by {
                if k < j {
                    assert(lowered@[k] == done[k]);
                    if let Some(argument) = done[k].parameter {
                        lemma_expression_held_later(held, dataset@.strings, argument);
                    }
                }
            }
            assert forall|k: int| 0 <= k < j + 1 implies lowers_aggregate(
                whole,
                k,
                #[trigger] lowered@[k],
                s2,
                graph,
                services@,
            ) by {
                if k < j {
                    assert(lowered@[k] == done[k]);
                    assert(lowers_aggregate(whole, k, done[k], s2, graph, before));
                    if let Some(argument) = all[k].0.argument {
                        lemma_lowers_expression_later(
                            argument,
                            done[k].parameter->0,
                            aggregates_state(whole, k, s2),
                            graph,
                            before,
                            services@,
                        );
                    }
                }
            }
        }
        j = j + 1;
        assert(rest@ =~= all.subrange(j as int, all.len() as int));
    }
    proof {
        lemma_lowers_later(*inner, child, start, graph, t1, services@);
    }
    PlanNode::Group { child: Box::new(child), keys: slots, aggregates: lowered }
}

/// Lowers an `ORDER BY`: its pattern, then its sort keys in turn.
#[verifier::rlimit(40)]
#[verifier::loop_isolation(false)]
fn lower_order(
    dataset: &mut DatasetView,
    variables: &mut Vec<Variable>,
    services: &mut Vec<ServiceRequest>,
    inner: Box<GraphPattern>,
    comparators: Vec<OrderComparator>,
    graph: PatternValue,
    Ghost(whole): Ghost<GraphPattern>,
) -> (plan: PlanNode)
    requires
        whole == GraphPattern::OrderBy(inner, comparators),
        pattern_defect(whole) == 0,
        old(dataset)@.well_formed(),
        is_table(old(variables)@),
    ensures
        lowers(
            whole,
            plan,
            state_of(old(variables)@, old(dataset)@, old(services)@.len()),
            graph,
            final(services)@,
        ),
        state_of(final(variables)@, final(dataset)@, final(services)@.len()) == pattern_state(
            whole,
            state_of(old(variables)@, old(dataset)@, old(services)@.len()),
        ),
        holds_table(final(services)@, old(services)@),
        final(dataset)@.quads == old(dataset)@.quads,
        final(dataset)@.well_formed(),
        is_table(final(variables)@),
        old(dataset)@.strings.is_prefix_of(final(dataset)@.strings),
        plan_held(final(dataset)@.strings, plan),
    decreases whole, 0int, 0int,
{
    let ghost start = state_of(variables@, dataset@, services@.len());
    let ghost base = services@;
    let ghost quads = dataset@.quads;
    let ghost h0 = dataset@.strings;
    let child = lower_pattern(dataset, variables, services, *inner, graph);
    let ghost t1 = services@;
    let ghost s1 = state_of(variables@, dataset@, services@.len());
    let ghost all = comparators@;
    let mut rest = comparators;
    let mut by: Vec<Comparator> = Vec::new();
    let mut j: usize = 0;
    assert(rest@ =~= all.subrange(0, all.len() as int));
    while rest.len() > 0
        invariant
            j + rest@.len() == all.len(),
            rest@ == all.subrange(j as int, all.len() as int),
            by@.len() == j,
            state_of(variables@, dataset@, services@.len()) == comparators_state(
                whole,
                j as int,
                s1,
            ),
            forall|k: int|
                0 <= k < j ==> lowers_comparator(
                    whole,
                    k,
                    #[trigger] by@[k],
                    s1,
                    graph,
                    services@,
                ),
            holds_table(services@, t1),
            dataset@.quads == quads,
            dataset@.well_formed(),
            is_table(variables@),
            h0.is_prefix_of(dataset@.strings),
            plan_held(dataset@.strings, child),
            forall|k: int|
                0 <= k < j ==> expression_held(dataset@.strings, (#[trigger] by@[k]).expression),
        decreases rest@.len(),
    {
        let comparator = rest.remove(0);
        proof {
            lemma_comparators_defect(whole, all.len() as int, j as int);
            assert(comparator == all[j as int]);
        }
        let ghost before = services@;
        let ghost done = by@;
        let ghost held = dataset@.strings;
        let descending = comparator.descending;
        let e = lower_expression(
            dataset,
            variables,
            services,
            comparator.expression,
            graph,
        );
        by.push(Comparator { expression: e, descending });
        proof {
            lemma_prefix_transitive(h0, held, dataset@.strings);
            lemma_plan_held_later(held, dataset@.strings, child);
            assert forall|k: int| 0 <= k < j + 1 implies expression_held(
                dataset@.strings,
                (#[trigger] by@[k]).expression,
            ) by {
                if k < j {
                    assert(by@[k] == done[k]);
                    lemma_expression_held_later(held, dataset@.strings, done[k].expression);
                }
            }
            assert forall|k: int| 0 <= k < j + 1 implies lowers_comparator(
                whole,
                k,
                #[trigger] by@[k],
                s1,
                graph,
                services@,
            ) by {
                if k < j {
                    assert(by@[k] == done[k]);
                    assert(lowers_comparator(whole, k, done[k], s1, graph, before));
                    lemma_lowers_expression_later(
                        all[k].expression,
                        done[k].expression,
                        comparators_state(whole, k, s1),
                        graph,
                        before,
                        services@,
                    );
                }
            }
        }
        j = j + 1;
        assert(rest@ =~= all.subrange(j as int, all.len() as int));
    }
    proof {
        lemma_lowers_later(*inner, child, start, graph, t1, services@);
    }
    PlanNode::Sort { child: Box::new(child), by }
}

/// What is wrong with a pattern whose worst defect has the given severity.
pub open spec fn error_of(level: nat) -> Error {
    if level >= 3 {
        Error::MalformedQuery { position: 0 }
    } else if level == 2 {
        Error::UnsupportedFeature
    } else {
        Error::EncodingFailure
    }
}

/// What a graph pattern is compiled into: the plan, the variable of each
/// slot in the order of first occurrence, and the federated patterns of the
/// plan, each at the position that is its number.
#[derive(PartialEq, Eq, Debug)]
pub struct BuiltPlan {
    pub plan: PlanNode,
    pub variables: Vec<Variable>,
    pub services: Vec<ServiceRequest>,
}

/// Compiles algebra into plans bound to the string store of a dataset view.
pub struct PlanBuilder;

impl PlanBuilder {
    /// Lowers `pattern` into a plan. Every constant of the plan that a
    /// row can come to hold is the one surrogate of its term.
    ///
    /// Fails, leaving the view as it was: with `MalformedQuery` where the
    /// pattern holds an aggregate that cannot be lowered; else with
    /// `UnsupportedFeature` where it holds a built-in function that cannot
    /// be lowered; else with `EncodingFailure` where one of its constants
    /// cannot be interned; else with `UnsupportedFeature` where a call that
    /// builds a text does not stand where evaluation can intern what it
    /// builds. What a federated pattern holds is handed to its
    /// service as it is, and is not looked into.
    pub fn build(dataset: &mut DatasetView, pattern: GraphPattern) -> (built: Result<
        BuiltPlan,
        Error,
    >)
        requires
            old(dataset)@.well_formed(),
        ensures
            final(dataset)@.quads == old(dataset)@.quads,
            final(dataset)@.well_formed(),
            old(dataset)@.strings.is_prefix_of(final(dataset)@.strings),
            match built {
                Ok(compiled) => {
                    let start = BuildState {
                        variables: Seq::empty(),
                        strings: old(dataset)@.strings,
                        services: 0,
                    };
                    &&& plan_held(final(dataset)@.strings, compiled.plan)
                    &&& placed(compiled.plan)
                    &&& build_defect(pattern) == 0
                    &&& pattern_defect(pattern) == 0
                    &&& lowers(
                        pattern,
                        compiled.plan,
                        start,
                        PatternValue::Constant(EncodedTerm::DefaultGraph),
                        compiled.services@,
                    )
                    &&& state_of(
                        compiled.variables@,
                        final(dataset)@,
                        compiled.services@.len(),
                    ) == pattern_state(pattern, start)
                    &&& is_table(compiled.variables@)
                },
                Err(error) => {
                    &&& build_defect(pattern) > 0
                    &&& error == error_of(build_defect(pattern))
                    &&& final(dataset)@ == old(dataset)@
                },
            },
    {
        proof {
            lemma_prefix_self(dataset@.strings);
        }
        let level = pattern_defect_of(&pattern);
        if level >= 3 {
            return Err(Error::MalformedQuery { position: 0 });
        }
        if level == 2 {
            return Err(Error::UnsupportedFeature);
        }
        if level == 1 {
            return Err(Error::EncodingFailure);
        }
        if !is_well_placed(&pattern) {
            return Err(Error::UnsupportedFeature);
        }
        let ghost start = state_of(Seq::<Variable>::empty(), dataset@, 0);
        let mut variables: Vec<Variable> = Vec::new();
        let mut services: Vec<ServiceRequest> = Vec::new();
        assert(names_of(variables@) =~= Seq::<Seq<char>>::empty());
        let plan = lower_pattern(
            dataset,
            &mut variables,
            &mut services,
            pattern,
            PatternValue::Constant(EncodedTerm::DefaultGraph),
        );
        proof {
            lemma_lowered_placed(
                pattern,
                plan,
                start,
                PatternValue::Constant(EncodedTerm::DefaultGraph),
                services@,
            );
        }
        Ok(BuiltPlan { plan, variables, services })
    }

    /// Lowers the triples of a `CONSTRUCT` template over the variable table
    /// of the `WHERE` clause, and gives the table back: a variable of the
    /// template that the clause does not hold takes a new slot, which no
    /// solution binds.
    ///
    /// Fails with `EncodingFailure`, leaving the view as it was, exactly
    /// where a constant of the template cannot be interned.
    pub fn build_graph_template(
        dataset: &mut DatasetView,
        template: &Vec<TriplePattern>,
        variables: Vec<Variable>,
    ) -> (built: Result<(Vec<TripleTemplate>, Vec<Variable>), Error>)
        requires
            old(dataset)@.well_formed(),
            is_table(variables@),
        ensures
            final(dataset)@.quads == old(dataset)@.quads,
            final(dataset)@.well_formed(),
            old(dataset)@.strings.is_prefix_of(final(dataset)@.strings),
            match built {
                Ok((triples, table)) => {
                    let start = state_of(variables@, old(dataset)@, 0);
                    &&& triples_defect(template@, template@.len() as int) == 0
                    &&& triples@.len() == template@.len()
                    &&& forall|i: int|
                        0 <= i < template@.len() ==> lowers_template(
                            template@,
                            i,
                            #[trigger] triples@[i],
                            start,
                        )
                    &&& state_of(table@, final(dataset)@, 0) == triples_state(
                        template@,
                        template@.len() as int,
                        start,
                    )
                    &&& is_table(table@)
                },
                Err(error) => {
                    &&& triples_defect(template@, template@.len() as int) > 0
                    &&& error == Error::EncodingFailure
                    &&& final(dataset)@ == old(dataset)@
                },
            },
    {
        let ghost s0 = dataset@.strings;
        proof {
            lemma_prefix_self(s0);
        }
        let mut level: u8 = 0;
        let mut i: usize = 0;
        while i < template.len()
            invariant
                i <= template@.len(),
                level == triples_defect(template@, i as int),
            decreases template@.len() - i,
        {
            let triple = worse_of(
                position_defect_of(&template[i].subject),
                worse_of(
                    position_defect_of(&template[i].predicate),
                    position_defect_of(&template[i].object),
                ),
            );
            level = worse_of(level, triple);
            i = i + 1;
        }
        if level > 0 {
            return Err(Error::EncodingFailure);
        }
        let ghost start = state_of(variables@, dataset@, 0);
        let ghost quads = dataset@.quads;
        let mut table = variables;
        let mut triples: Vec<TripleTemplate> = Vec::new();
        let mut j: usize = 0;
        while j < template.len()
            invariant
                j <= template@.len(),
                triples_defect(template@, template@.len() as int) == 0,
                triples@.len() == j,
                forall|k: int|
                    0 <= k < j ==> lowers_template(template@, k, #[trigger] triples@[k], start),
                state_of(table@, dataset@, 0) == triples_state(template@, j as int, start),
                dataset@.quads == quads,
                dataset@.well_formed(),
                is_table(table@),
                s0.is_prefix_of(dataset@.strings),
            decreases template@.len() - j,
        {
            proof {
                lemma_triples_defect(template@, template@.len() as int, j as int);
            }
            let ghost h0 = dataset@.strings;
            let subject = lower_position_in(dataset, &mut table, &template[j].subject, Ghost(0));
            let ghost h1 = dataset@.strings;
            let predicate = lower_position_in(
                dataset,
                &mut table,
                &template[j].predicate,
                Ghost(0),
            );
            let ghost h2 = dataset@.strings;
            let object = lower_position_in(dataset, &mut table, &template[j].object, Ghost(0));
            proof {
                lemma_prefix_transitive(h0, h1, h2);
                lemma_prefix_transitive(h0, h2, dataset@.strings);
                lemma_prefix_transitive(s0, h0, dataset@.strings);
            }
            triples.push(TripleTemplate { subject, predicate, object });
            j = j + 1;
        }
        Ok((triples, table))
    }
}

/// Whether `lowered` is triple `i` of a template, built from the state
/// after the triples before it.
pub open spec fn lowers_template(
    template: Seq<TriplePattern>,
    i: int,
    lowered: TripleTemplate,
    state: BuildState,
) -> bool {
    let before = triples_state(template, i, state);
    let s1 = position_state(template[i].subject, before);
    let s2 = position_state(template[i].predicate, s1);
    &&& lowered.subject == lower_position(template[i].subject, before)
    &&& lowered.predicate == lower_position(template[i].predicate, s1)
    &&& lowered.object == lower_position(template[i].object, s2)
}

} // verus!
