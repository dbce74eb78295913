use crate::sparql::algebra::{BinaryOperator, UnaryOperator};
use crate::sparql::canonical::{
    dataset_held, expression_held, lemma_expression_held, lemma_rows_held, plan_held, row_held,
    rows_held, term_held, value_held,
};
use crate::sparql::dataset::{lemma_position_in_larger_store, position_of, Dataset, EncodedTerm};
use crate::sparql::texts::joined_text;
use crate::sparql::plan::{
    distinct_rows, overlay, restrict, unbound_row, PlanAggregationFunction, PlanExpression,
    PlanNode, Row,
};
use crate::sparql::semantics::{
    aggregate_of, aggregate_row, aggregate_values, apply_binary, apply_unary, coalesce_from,
    distinct_terms, effective_boolean, eval_expression, extend_each, extend_row, filter_each,
    greatest_of, group_each, holds, insert_sorted, integers_in, join_each, keys_of, least_of,
    left_join_each, mean_text, members_of, optional_matches, present, row_precedes, rows,
    slot_precedes, sort_rows,
};
use vstd::prelude::*;

verus! {

/// Whether `b` is `a` after its store grew: it holds the texts of `a` at
/// their places, and the same quads and answers.
pub open spec fn grows(a: Dataset, b: Dataset) -> bool {
    a.strings.is_prefix_of(b.strings) && a.quads == b.quads && a.answers == b.answers
}

/// Whether no function of an expression builds a text.
pub open spec fn text_free_expression(expression: PlanExpression) -> bool
    decreases expression,
{
    match expression {
        PlanExpression::Constant(_) => true,
        PlanExpression::Variable(_) => true,
        PlanExpression::Bound(_) => true,
        PlanExpression::Unary(_, a) => text_free_expression(*a),
        PlanExpression::Binary(_, a, b) => text_free_expression(*a) && text_free_expression(*b),
        PlanExpression::If(condition, a, b) => text_free_expression(*condition)
            && text_free_expression(*a) && text_free_expression(*b),
        PlanExpression::Coalesce(arguments) => forall|i: int|
            0 <= i < arguments.len() ==> text_free_expression(#[trigger] arguments[i]),
        PlanExpression::Exists(pattern) => text_free(*pattern),
        PlanExpression::Call(_, _) => false,
    }
}

/// Whether no function and no aggregate of a plan builds a text.
pub open spec fn text_free(node: PlanNode) -> bool
    decreases node,
{
    match node {
        PlanNode::Init => true,
        PlanNode::StaticBindings { .. } => true,
        PlanNode::Service { .. } => true,
        PlanNode::QuadPatternJoin { child, .. } => text_free(*child),
        PlanNode::Join { left, right } => text_free(*left) && text_free(*right),
        PlanNode::LeftJoin { left, right, expression } => text_free(*left) && text_free(*right)
            && (expression matches Some(condition) ==> text_free_expression(condition)),
        PlanNode::Union { left, right } => text_free(*left) && text_free(*right),
        PlanNode::Minus { left, right } => text_free(*left) && text_free(*right),
        PlanNode::Filter { child, expression } => text_free(*child) && text_free_expression(
            expression,
        ),
        PlanNode::Extend { child, expression, .. } => text_free(*child) && text_free_expression(
            expression,
        ),
        PlanNode::Project { child, .. } => text_free(*child),
        PlanNode::Group { child, aggregates, .. } => text_free(*child) && no_joins(node)
            && forall|j: int|
            0 <= j < aggregates.len() ==> ((#[trigger] aggregates[j]).parameter matches Some(
                argument,
            ) ==> text_free_expression(argument)),
        PlanNode::Sort { child, by } => text_free(*child) && forall|j: int|
            0 <= j < by.len() ==> text_free_expression((#[trigger] by[j]).expression),
        PlanNode::Distinct { child } => text_free(*child),
        PlanNode::Reduced { child } => text_free(*child),
        PlanNode::Slice { child, .. } => text_free(*child),
    }
}

/// Whether `b` is `a` after its store grew, and its store is no longer
/// than identifiers can tell.
pub open spec fn extends(a: Dataset, b: Dataset) -> bool {
    grows(a, b) && b.strings.len() <= u64::MAX
}

/// Whether `value` is the value of an expression on a row over a dataset
/// and over every dataset that it grows into.
pub open spec fn value_settled(
    expression: PlanExpression,
    dataset: Dataset,
    row: Row,
    value: Option<EncodedTerm>,
) -> bool {
    forall|later: Dataset| #[trigger]
        extends(dataset, later) ==> eval_expression(expression, later, row) == value
}

/// Whether `out` is what a plan yields from a row over a dataset and over
/// every dataset that it grows into.
pub open spec fn rows_settled(node: PlanNode, dataset: Dataset, from: Row, out: Seq<Row>) -> bool {
    forall|later: Dataset| #[trigger] extends(dataset, later) ==> rows(node, later, from) == out
}

/// Extending is transitive.
pub proof fn lemma_extends_transitive(a: Dataset, b: Dataset, c: Dataset)
    requires
        grows(a, b),
        extends(b, c),
    ensures
        extends(a, c),
{
    lemma_grows_transitive(a, b, c);
}

/// A dataset whose store is not too long extends itself.
pub proof fn lemma_extends_itself(a: Dataset)
    requires
        a.strings.len() <= u64::MAX,
    ensures
        extends(a, a),
{
    assert(a.strings =~= a.strings.subrange(0, a.strings.len() as int));
}

/// A held row is held after the store grew.
pub proof fn lemma_row_held_later(a: Seq<Seq<char>>, b: Seq<Seq<char>>, row: Row)
    requires
        a.is_prefix_of(b),
        row_held(a, row),
    ensures
        row_held(b, row),
{
    assert forall|k: int| 0 <= k < row.len() implies value_held(b, #[trigger] row[k]) by {
        assert(value_held(a, row[k]));
        if let Some(encoded) = row[k] {
            crate::sparql::canonical::lemma_term_held_later(a, b, encoded);
        }
    }
}

/// Held rows are held after the store grew.
pub proof fn lemma_rows_held_later(a: Seq<Seq<char>>, b: Seq<Seq<char>>, input: Seq<Row>)
    requires
        a.is_prefix_of(b),
        rows_held(a, input),
    ensures
        rows_held(b, input),
{
    assert forall|i: int| 0 <= i < input.len() implies row_held(b, #[trigger] input[i]) by {
        assert(row_held(a, input[i]));
        lemma_row_held_later(a, b, input[i]);
    }
}

/// A held dataset is held after its store grew.
pub proof fn lemma_dataset_held_later(a: Dataset, b: Dataset)
    requires
        grows(a, b),
        dataset_held(a),
    ensures
        dataset_held(b),
{
    assert forall|i: int| 0 <= i < b.quads.len() implies crate::sparql::canonical::quad_held(
        b.strings,
        #[trigger] b.quads[i],
    ) by {
        assert(crate::sparql::canonical::quad_held(a.strings, a.quads[i]));
        crate::sparql::canonical::lemma_term_held_later(a.strings, b.strings, a.quads[i].subject);
        crate::sparql::canonical::lemma_term_held_later(a.strings, b.strings, a.quads[i].predicate);
        crate::sparql::canonical::lemma_term_held_later(a.strings, b.strings, a.quads[i].object);
        crate::sparql::dataset::lemma_canonical_in_larger_store(
            a.strings,
            b.strings,
            a.quads[i].graph_name,
        );
    }
    assert forall|id: int| 0 <= id < b.answers.len() implies ((
    #[trigger] b.answers[id]) matches Some(tuples) ==> rows_held(b.strings, tuples)) by {
        if let Some(tuples) = a.answers[id] {
            lemma_rows_held_later(a.strings, b.strings, tuples);
        }
    }
}

/// Whether the sort keys of a `Sort` build no text and hold the one
/// surrogate of each of their constants.
pub open spec fn keys_settled(strings: Seq<Seq<char>>, node: PlanNode) -> bool {
    node matches PlanNode::Sort { by, .. } && forall|j: int|
        0 <= j < by.len() ==> text_free_expression((#[trigger] by[j]).expression)
            && expression_held(strings, by[j].expression)
}

/// Whether the arguments of the aggregates of a `Group` build no text and
/// hold the one surrogate of each of their constants.
pub open spec fn params_settled(strings: Seq<Seq<char>>, node: PlanNode) -> bool {
    node matches PlanNode::Group { aggregates, .. } && forall|j: int|
        0 <= j < aggregates.len() ==> ((#[trigger] aggregates[j]).parameter matches Some(
            argument,
        ) ==> text_free_expression(argument) && expression_held(strings, argument))
}

/// Whether no aggregate of a `Group` joins texts.
pub open spec fn no_joins(node: PlanNode) -> bool {
    node matches PlanNode::Group { aggregates, .. } ==> forall|j: int|
        0 <= j < aggregates.len() ==> !joins((#[trigger] aggregates[j]).function)
}

/// Whether an aggregate builds a text that the store need not hold.
pub open spec fn joins(function: PlanAggregationFunction) -> bool {
    function == PlanAggregationFunction::GroupConcat || function == PlanAggregationFunction::Avg
}

/// The terms that an aggregate reads of the values of its argument.
pub open spec fn terms_of(distinct: bool, values: Seq<Option<EncodedTerm>>) -> Seq<EncodedTerm> {
    if distinct {
        distinct_terms(present(values))
    } else {
        present(values)
    }
}

/// Whether the store `b` holds the text that an aggregate builds over the
/// store `a` from the values of its argument: what `GROUP_CONCAT` joins,
/// and the lexical form of what `AVG` gives with the datatype of decimal
/// numbers.
pub open spec fn built_present(
    function: PlanAggregationFunction,
    a: Seq<Seq<char>>,
    b: Seq<Seq<char>>,
    distinct: bool,
    separator: Seq<char>,
    values: Seq<Option<EncodedTerm>>,
) -> bool {
    let terms = terms_of(distinct, values);
    match function {
        PlanAggregationFunction::GroupConcat => joined_text(
            a,
            separator,
            terms,
            terms.len() as int,
        ) matches Some(text) ==> position_of(b, text) is Some,
        PlanAggregationFunction::Avg => integers_in(terms) > 0 ==> position_of(
            b,
            crate::sparql::grammar::xsd_decimal(),
        ) is Some && (mean_text(terms) matches Some(text) ==> position_of(b, text) is Some),
        _ => true,
    }
}

/// Whether the store holds the text that an aggregate builds from the
/// values of its argument.
pub open spec fn joined_present(
    function: PlanAggregationFunction,
    strings: Seq<Seq<char>>,
    distinct: bool,
    separator: Seq<char>,
    values: Seq<Option<EncodedTerm>>,
) -> bool {
    built_present(function, strings, strings, distinct, separator, values)
}

/// Whether the store holds the text of each of the first `n` aggregates
/// of a `Group` that joins texts, for the rows of one group.
pub open spec fn joins_present(node: PlanNode, d: Dataset, members: Seq<Row>, n: int) -> bool {
    node matches PlanNode::Group { aggregates, .. } ==> forall|j: int|
        0 <= j < n && j < aggregates.len() ==> joined_present(
            (#[trigger] aggregates[j]).function,
            d.strings,
            aggregates[j].distinct,
            aggregates[j].separator@,
            aggregate_values(node, d, members, j),
        )
}

/// Whether the store holds the texts that the aggregates of a `Group`
/// join for each of the groups with the given keys.
pub open spec fn group_present(node: PlanNode, d: Dataset, input: Seq<Row>, group_keys: Seq<Row>) -> bool {
    node matches PlanNode::Group { keys, aggregates, .. } ==> forall|g: int|
        0 <= g < group_keys.len() ==> joins_present(
            node,
            d,
            members_of(input, keys@, #[trigger] group_keys[g]),
            aggregates.len() as int,
        )
}

/// A store that grew holds every text of the store at its place.
pub proof fn lemma_same_texts(a: Seq<Seq<char>>, b: Seq<Seq<char>>)
    requires
        a.is_prefix_of(b),
    ensures
        a.len() <= b.len(),
        forall|i: int| 0 <= i < a.len() ==> a[i] == #[trigger] b[i],
{
    assert(a == b.subrange(0, a.len() as int));
    assert forall|i: int| 0 <= i < a.len() implies a[i] == #[trigger] b[i] by {
        assert(a[i] == b.subrange(0, a.len() as int)[i]);
    }
}

/// Growing is transitive, and every dataset grows into itself.
pub proof fn lemma_grows_transitive(a: Dataset, b: Dataset, c: Dataset)
    requires
        grows(a, b),
        grows(b, c),
    ensures
        grows(a, c),
        grows(a, a),
{
    crate::sparql::dataset::lemma_prefix_transitive(a.strings, b.strings, c.strings);
    assert(a.strings =~= a.strings.subrange(0, a.strings.len() as int));
}

/// The effective boolean value of a held value is the same after the store
/// grew.
pub proof fn lemma_boolean_stable(a: Seq<Seq<char>>, b: Seq<Seq<char>>, value: Option<EncodedTerm>)
    requires
        a.is_prefix_of(b),
        value_held(a, value),
    ensures
        effective_boolean(b, value) == effective_boolean(a, value),
{
    lemma_same_texts(a, b);
}

/// Whether a slot comes before another is the same after the store grew.
pub proof fn lemma_precedes_stable(
    a: Seq<Seq<char>>,
    b: Seq<Seq<char>>,
    x: Option<EncodedTerm>,
    y: Option<EncodedTerm>,
)
    requires
        a.is_prefix_of(b),
        value_held(a, x),
        value_held(a, y),
    ensures
        slot_precedes(b, x, y) == slot_precedes(a, x, y),
{
    lemma_same_texts(a, b);
}

/// What an operator with one operand gives on a held value is the same
/// after the store grew.
pub proof fn lemma_unary_stable(
    operator: UnaryOperator,
    a: Seq<Seq<char>>,
    b: Seq<Seq<char>>,
    value: Option<EncodedTerm>,
)
    requires
        a.is_prefix_of(b),
        value_held(a, value),
    ensures
        apply_unary(operator, b, value) == apply_unary(operator, a, value),
{
    lemma_same_texts(a, b);
}

/// What an operator with two operands gives on held values is the same
/// after the store grew.
pub proof fn lemma_binary_stable(
    operator: BinaryOperator,
    a: Seq<Seq<char>>,
    b: Seq<Seq<char>>,
    x: Option<EncodedTerm>,
    y: Option<EncodedTerm>,
)
    requires
        a.is_prefix_of(b),
        value_held(a, x),
        value_held(a, y),
    ensures
        apply_binary(operator, b, x, y) == apply_binary(operator, a, x, y),
{
    lemma_same_texts(a, b);
}

/// The value of an expression that builds no text is the same after the
/// store grew.
pub proof fn lemma_expression_stable(
    expression: PlanExpression,
    a: Dataset,
    b: Dataset,
    row: Row,
)
    requires
        grows(a, b),
        dataset_held(a),
        text_free_expression(expression),
        expression_held(a.strings, expression),
        row_held(a.strings, row),
    ensures
        eval_expression(expression, b, row) == eval_expression(expression, a, row),
    decreases expression, 3int, 0int,
{
    match expression {
        PlanExpression::Unary(operator, x) => {
            lemma_expression_stable(*x, a, b, row);
            lemma_expression_held(*x, a, row);
            lemma_unary_stable(operator, a.strings, b.strings, eval_expression(*x, a, row));
        },
        PlanExpression::Binary(operator, x, y) => {
            lemma_expression_stable(*x, a, b, row);
            lemma_expression_stable(*y, a, b, row);
            lemma_expression_held(*x, a, row);
            lemma_expression_held(*y, a, row);
            lemma_binary_stable(
                operator,
                a.strings,
                b.strings,
                eval_expression(*x, a, row),
                eval_expression(*y, a, row),
            );
        },
        PlanExpression::If(condition, x, y) => {
            lemma_expression_stable(*condition, a, b, row);
            lemma_expression_stable(*x, a, b, row);
            lemma_expression_stable(*y, a, b, row);
            lemma_expression_held(*condition, a, row);
            lemma_boolean_stable(a.strings, b.strings, eval_expression(*condition, a, row));
        },
        PlanExpression::Coalesce(_) => {
            lemma_coalesce_stable(expression, a, b, row, 0);
        },
        PlanExpression::Exists(pattern) => {
            lemma_rows_stable(*pattern, a, b, row);
        },
        _ => {},
    }
}

proof fn lemma_coalesce_stable(expression: PlanExpression, a: Dataset, b: Dataset, row: Row, i: int)
    requires
        expression is Coalesce,
        grows(a, b),
        dataset_held(a),
        text_free_expression(expression),
        expression_held(a.strings, expression),
        row_held(a.strings, row),
        0 <= i,
    ensures
        coalesce_from(expression, b, row, i) == coalesce_from(expression, a, row, i),
    decreases expression, 2int, expression->Coalesce_0.len() - i,
{
    let arguments = expression->Coalesce_0;
    if i < arguments.len() {
        assert(text_free_expression(arguments[i]));
        assert(expression_held(a.strings, arguments[i]));
        lemma_expression_stable(arguments[i], a, b, row);
        lemma_coalesce_stable(expression, a, b, row, i + 1);
    }
}

/// Whether an expression holds on a row is the same after the store grew.
pub proof fn lemma_holds_stable(expression: PlanExpression, a: Dataset, b: Dataset, row: Row)
    requires
        grows(a, b),
        dataset_held(a),
        text_free_expression(expression),
        expression_held(a.strings, expression),
        row_held(a.strings, row),
    ensures
        holds(expression, b, row) == holds(expression, a, row),
    decreases expression, 4int, 0int,
{
    lemma_expression_stable(expression, a, b, row);
    lemma_expression_held(expression, a, row);
    lemma_boolean_stable(a.strings, b.strings, eval_expression(expression, a, row));
}

pub proof fn lemma_held_drop_last(strings: Seq<Seq<char>>, input: Seq<Row>)
    requires
        rows_held(strings, input),
        input.len() > 0,
    ensures
        rows_held(strings, input.drop_last()),
        row_held(strings, input.last()),
{
    assert forall|i: int| 0 <= i < input.drop_last().len() implies row_held(
        strings,
        #[trigger] input.drop_last()[i],
    ) by {
        assert(input.drop_last()[i] == input[i]);
    }
    assert(input.last() == input[input.len() - 1]);
}

/// Whether the right side of a join, and the condition of an optional
/// one, build no text.
pub open spec fn right_free(node: PlanNode) -> bool {
    match node {
        PlanNode::Join { right, .. } => text_free(*right),
        PlanNode::LeftJoin { right, expression, .. } => text_free(*right) && (
        expression matches Some(condition) ==> text_free_expression(condition)),
        _ => true,
    }
}

/// Whether the condition of an optional join builds no text.
pub open spec fn condition_free(node: PlanNode) -> bool {
    node matches PlanNode::LeftJoin { expression, .. } ==> (expression matches Some(condition)
        ==> text_free_expression(condition))
}

pub proof fn lemma_join_each_stable(node: PlanNode, a: Dataset, b: Dataset, lefts: Seq<Row>)
    requires
        node is Join,
        grows(a, b),
        dataset_held(a),
        right_free(node),
        plan_held(a.strings, node),
        rows_held(a.strings, lefts),
    ensures
        join_each(node, b, lefts) == join_each(node, a, lefts),
    decreases node, 2int, lefts.len(),
{
    if lefts.len() > 0 {
        lemma_held_drop_last(a.strings, lefts);
        lemma_join_each_stable(node, a, b, lefts.drop_last());
        lemma_rows_stable(*node->Join_right, a, b, lefts.last());
    }
}

pub proof fn lemma_optional_matches_stable(
    node: PlanNode,
    a: Dataset,
    b: Dataset,
    candidates: Seq<Row>,
)
    requires
        node is LeftJoin,
        grows(a, b),
        dataset_held(a),
        condition_free(node),
        plan_held(a.strings, node),
        rows_held(a.strings, candidates),
    ensures
        optional_matches(node, b, candidates) == optional_matches(node, a, candidates),
    decreases node, 1int, candidates.len(),
{
    if candidates.len() > 0 {
        lemma_held_drop_last(a.strings, candidates);
        lemma_optional_matches_stable(node, a, b, candidates.drop_last());
        if let Some(condition) = node->LeftJoin_expression {
            lemma_holds_stable(condition, a, b, candidates.last());
        }
    }
}

pub proof fn lemma_left_join_each_stable(node: PlanNode, a: Dataset, b: Dataset, lefts: Seq<Row>)
    requires
        node is LeftJoin,
        grows(a, b),
        dataset_held(a),
        right_free(node),
        plan_held(a.strings, node),
        rows_held(a.strings, lefts),
    ensures
        left_join_each(node, b, lefts) == left_join_each(node, a, lefts),
    decreases node, 2int, lefts.len(),
{
    if lefts.len() > 0 {
        lemma_held_drop_last(a.strings, lefts);
        lemma_left_join_each_stable(node, a, b, lefts.drop_last());
        lemma_rows_stable(*node->LeftJoin_right, a, b, lefts.last());
        lemma_rows_held(*node->LeftJoin_right, a, lefts.last());
        lemma_optional_matches_stable(
            node,
            a,
            b,
            rows(*node->LeftJoin_right, a, lefts.last()),
        );
    }
}

pub proof fn lemma_filter_each_stable(node: PlanNode, a: Dataset, b: Dataset, input: Seq<Row>)
    requires
        node is Filter,
        grows(a, b),
        dataset_held(a),
        text_free(node),
        plan_held(a.strings, node),
        rows_held(a.strings, input),
    ensures
        filter_each(node, b, input) == filter_each(node, a, input),
    decreases node, 2int, input.len(),
{
    if input.len() > 0 {
        lemma_held_drop_last(a.strings, input);
        lemma_filter_each_stable(node, a, b, input.drop_last());
        lemma_holds_stable(node->Filter_expression, a, b, input.last());
    }
}

pub proof fn lemma_extend_each_stable(node: PlanNode, a: Dataset, b: Dataset, input: Seq<Row>)
    requires
        node is Extend,
        grows(a, b),
        dataset_held(a),
        text_free(node),
        plan_held(a.strings, node),
        rows_held(a.strings, input),
    ensures
        extend_each(node, b, input) == extend_each(node, a, input),
    decreases node, 2int, input.len(),
{
    if input.len() > 0 {
        lemma_held_drop_last(a.strings, input);
        lemma_extend_each_stable(node, a, b, input.drop_last());
        lemma_expression_stable(node->Extend_expression, a, b, input.last());
        assert(extend_row(node, b, input.last()) == extend_row(node, a, input.last()));
    }
}

proof fn lemma_extremes_stable(a: Seq<Seq<char>>, b: Seq<Seq<char>>, terms: Seq<EncodedTerm>)
    requires
        a.is_prefix_of(b),
        forall|i: int| 0 <= i < terms.len() ==> term_held(a, #[trigger] terms[i]),
    ensures
        least_of(b, terms) == least_of(a, terms),
        greatest_of(b, terms) == greatest_of(a, terms),
        least_of(a, terms) matches Some(term) ==> term_held(a, term),
        greatest_of(a, terms) matches Some(term) ==> term_held(a, term),
    decreases terms.len(),
{
    if terms.len() > 0 {
        assert forall|i: int| 0 <= i < terms.drop_last().len() implies term_held(
            a,
            #[trigger] terms.drop_last()[i],
        ) by {
            assert(terms.drop_last()[i] == terms[i]);
        }
        lemma_extremes_stable(a, b, terms.drop_last());
        assert(term_held(a, terms[terms.len() - 1]));
        lemma_precedes_stable(
            a,
            b,
            Some(terms.last()),
            least_of(a, terms.drop_last()),
        );
        lemma_precedes_stable(
            a,
            b,
            greatest_of(a, terms.drop_last()),
            Some(terms.last()),
        );
    }
}

proof fn lemma_present_terms_held(strings: Seq<Seq<char>>, values: Seq<Option<EncodedTerm>>)
    requires
        forall|i: int| 0 <= i < values.len() ==> value_held(strings, #[trigger] values[i]),
    ensures
        forall|i: int|
            0 <= i < present(values).len() ==> term_held(strings, #[trigger] present(values)[i]),
        forall|i: int|
            0 <= i < distinct_terms(present(values)).len() ==> term_held(
                strings,
                #[trigger] distinct_terms(present(values))[i],
            ),
{
    lemma_present_held(strings, values);
    lemma_distinct_terms_held(strings, present(values));
}

proof fn lemma_present_held(strings: Seq<Seq<char>>, values: Seq<Option<EncodedTerm>>)
    requires
        forall|i: int| 0 <= i < values.len() ==> value_held(strings, #[trigger] values[i]),
    ensures
        forall|i: int|
            0 <= i < present(values).len() ==> term_held(strings, #[trigger] present(values)[i]),
    decreases values.len(),
{
    if values.len() > 0 {
        assert forall|i: int| 0 <= i < values.drop_last().len() implies value_held(
            strings,
            #[trigger] values.drop_last()[i],
        ) by {
            assert(values.drop_last()[i] == values[i]);
        }
        lemma_present_held(strings, values.drop_last());
        assert(value_held(strings, values[values.len() - 1]));
        let rest = present(values.drop_last());
        assert forall|i: int| 0 <= i < present(values).len() implies term_held(
            strings,
            #[trigger] present(values)[i],
        ) by {
            if i < rest.len() {
                assert(present(values)[i] == rest[i]);
            }
        }
    }
}

proof fn lemma_distinct_terms_held(strings: Seq<Seq<char>>, terms: Seq<EncodedTerm>)
    requires
        forall|i: int| 0 <= i < terms.len() ==> term_held(strings, #[trigger] terms[i]),
    ensures
        forall|i: int|
            0 <= i < distinct_terms(terms).len() ==> term_held(
                strings,
                #[trigger] distinct_terms(terms)[i],
            ),
    decreases terms.len(),
{
    if terms.len() > 0 {
        assert forall|i: int| 0 <= i < terms.drop_last().len() implies term_held(
            strings,
            #[trigger] terms.drop_last()[i],
        ) by {
            assert(terms.drop_last()[i] == terms[i]);
        }
        lemma_distinct_terms_held(strings, terms.drop_last());
        assert(term_held(strings, terms[terms.len() - 1]));
        let rest = distinct_terms(terms.drop_last());
        assert forall|i: int| 0 <= i < distinct_terms(terms).len() implies term_held(
            strings,
            #[trigger] distinct_terms(terms)[i],
        ) by {
            if i < rest.len() {
                assert(distinct_terms(terms)[i] == rest[i]);
            }
        }
    }
}

/// What an aggregate gives on held values is the same after the store
/// grew.
pub proof fn lemma_aggregate_stable(
    function: PlanAggregationFunction,
    distinct: bool,
    separator: Seq<char>,
    a: Seq<Seq<char>>,
    b: Seq<Seq<char>>,
    values: Seq<Option<EncodedTerm>>,
)
    requires
        a.is_prefix_of(b),
        forall|i: int| 0 <= i < values.len() ==> value_held(a, #[trigger] values[i]),
        joins(function) ==> b.len() <= u64::MAX && joined_present(
            function,
            a,
            distinct,
            separator,
            values,
        ),
    ensures
        aggregate_of(function, distinct, separator, b, values) == aggregate_of(
            function,
            distinct,
            separator,
            a,
            values,
        ),
        joined_present(function, b, distinct, separator, values),
{
    lemma_present_terms_held(a, values);
    let terms = if distinct {
        distinct_terms(present(values))
    } else {
        present(values)
    };
    lemma_extremes_stable(a, b, terms);
    if function == PlanAggregationFunction::GroupConcat {
        lemma_joined_stable(a, b, separator, terms, terms.len() as int);
        if let Some(text) = joined_text(a, separator, terms, terms.len() as int) {
            lemma_position_in_larger_store(a, b, text);
        }
    }
    if function == PlanAggregationFunction::Avg && integers_in(terms) > 0 {
        lemma_position_in_larger_store(a, b, crate::sparql::grammar::xsd_decimal());
        if let Some(text) = mean_text(terms) {
            lemma_position_in_larger_store(a, b, text);
        }
    }
}

/// The text that `GROUP_CONCAT` joins from held terms is the same after
/// the store grew.
pub proof fn lemma_joined_stable(
    a: Seq<Seq<char>>,
    b: Seq<Seq<char>>,
    separator: Seq<char>,
    terms: Seq<EncodedTerm>,
    n: int,
)
    requires
        a.is_prefix_of(b),
        forall|i: int| 0 <= i < terms.len() ==> term_held(a, #[trigger] terms[i]),
    ensures
        joined_text(b, separator, terms, n) == joined_text(a, separator, terms, n),
    decreases n,
{
    lemma_same_texts(a, b);
    if 0 < n <= terms.len() {
        lemma_joined_stable(a, b, separator, terms, n - 1);
        assert(term_held(a, terms[n - 1]));
    }
}

/// A store that holds the text that aggregate `j` of a `Group` joins for
/// one group, beside those of the aggregates before it, holds those of the
/// first `j + 1`.
pub proof fn lemma_joined_kept(node: PlanNode, a: Dataset, b: Dataset, members: Seq<Row>, j: int)
    requires
        node is Group,
        0 <= j < node->Group_aggregates.len(),
        grows(a, b),
        b.strings.len() <= u64::MAX,
        params_same(node, a, b, members),
        joins_present(node, a, members, j),
        built_present(
            node->Group_aggregates[j].function,
            a.strings,
            b.strings,
            node->Group_aggregates[j].distinct,
            node->Group_aggregates[j].separator@,
            aggregate_values(node, a, members, j),
        ),
    ensures
        joins_present(node, b, members, j + 1),
{
    let aggregates = node->Group_aggregates;
    lemma_joins_present_later(node, a, b, members, j);
    lemma_aggregate_values_stable(node, a, b, members, j);
    let values = aggregate_values(node, a, members, j);
    lemma_present_terms_held(a.strings, values);
    let terms = terms_of(aggregates[j].distinct, values);
    lemma_joined_stable(a.strings, b.strings, aggregates[j].separator@, terms, terms.len() as int);
}

/// Where a store holds the texts that the aggregates of a `Group` join
/// for one group, the store that it grows into holds them.
pub proof fn lemma_joins_present_later(node: PlanNode, a: Dataset, b: Dataset, members: Seq<Row>, n: int)
    requires
        node is Group,
        grows(a, b),
        b.strings.len() <= u64::MAX,
        params_same(node, a, b, members),
        joins_present(node, a, members, n),
    ensures
        joins_present(node, b, members, n),
{
    let aggregates = node->Group_aggregates;
    assert forall|j: int| 0 <= j < n && j < aggregates.len() implies joined_present(
        (#[trigger] aggregates[j]).function,
        b.strings,
        aggregates[j].distinct,
        aggregates[j].separator@,
        aggregate_values(node, b, members, j),
    ) by {
        {
            lemma_aggregate_values_stable(node, a, b, members, j);
            lemma_aggregate_stable(
                aggregates[j].function,
                aggregates[j].distinct,
                aggregates[j].separator@,
                a.strings,
                b.strings,
                aggregate_values(node, a, members, j),
            );
        }
    }
}

/// Where a store holds the texts that the aggregates of a `Group` join
/// for some groups, the store that it grows into holds them.
pub proof fn lemma_group_present_later(
    node: PlanNode,
    a: Dataset,
    b: Dataset,
    input: Seq<Row>,
    group_keys: Seq<Row>,
)
    requires
        node is Group,
        grows(a, b),
        b.strings.len() <= u64::MAX,
        params_same(node, a, b, input),
        group_present(node, a, input, group_keys),
    ensures
        group_present(node, b, input, group_keys),
{
    let keys = node->Group_keys;
    let aggregates = node->Group_aggregates;
    assert forall|g: int| 0 <= g < group_keys.len() implies joins_present(
        node,
        b,
        members_of(input, keys@, #[trigger] group_keys[g]),
        aggregates.len() as int,
    ) by {
        lemma_members_same(node, a, b, input, keys@, group_keys[g]);
        lemma_joins_present_later(
            node,
            a,
            b,
            members_of(input, keys@, group_keys[g]),
            aggregates.len() as int,
        );
    }
}

proof fn lemma_aggregate_values_stable(
    node: PlanNode,
    a: Dataset,
    b: Dataset,
    members: Seq<Row>,
    j: int,
)
    requires
        node is Group,
        grows(a, b),
        params_same(node, a, b, members),
    ensures
        aggregate_values(node, b, members, j) == aggregate_values(node, a, members, j),
        forall|i: int|
            0 <= i < aggregate_values(node, a, members, j).len() ==> value_held(
                a.strings,
                #[trigger] aggregate_values(node, a, members, j)[i],
            ),
    decreases node, 0int, members.len(),
{
    let aggregates = node->Group_aggregates;
    if members.len() > 0 && 0 <= j < aggregates.len() {
        lemma_same_drop_last(node, a, b, members);
        lemma_aggregate_values_stable(node, a, b, members.drop_last(), j);
        assert(param_same(node, a, b, members.last())) by {
            assert(members.last() == members[members.len() - 1]);
        }
        let rest = aggregate_values(node, a, members.drop_last(), j);
        let out = aggregate_values(node, a, members, j);
        assert forall|i: int| 0 <= i < out.len() implies value_held(a.strings, #[trigger] out[i]) by {
            if i < rest.len() {
                assert(out[i] == rest[i]);
            }
        }
    }
}

proof fn lemma_aggregate_row_stable(
    node: PlanNode,
    a: Dataset,
    b: Dataset,
    members: Seq<Row>,
    base: Row,
    j: int,
)
    requires
        node is Group,
        grows(a, b),
        params_same(node, a, b, members),
        no_joins(node) || (b.strings.len() <= u64::MAX && joins_present(
            node,
            a,
            members,
            node->Group_aggregates.len() as int,
        )),
    ensures
        aggregate_row(node, b, members, base, j) == aggregate_row(node, a, members, base, j),
    decreases node, 1int, j,
{
    let aggregates = node->Group_aggregates;
    if 0 < j <= aggregates.len() {
        lemma_aggregate_row_stable(node, a, b, members, base, j - 1);
        lemma_aggregate_values_stable(node, a, b, members, j - 1);
        lemma_aggregate_stable(
            aggregates[j - 1].function,
            aggregates[j - 1].distinct,
            aggregates[j - 1].separator@,
            a.strings,
            b.strings,
            aggregate_values(node, a, members, j - 1),
        );
    }
}

/// Whether the argument of each aggregate of a `Group` has on a row the
/// same held value over `a` and over `b`.
pub open spec fn param_same(node: PlanNode, a: Dataset, b: Dataset, row: Row) -> bool {
    node matches PlanNode::Group { aggregates, .. } ==> forall|j: int|
        0 <= j < aggregates.len() ==> ((#[trigger] aggregates[j]).parameter matches Some(
            argument,
        ) ==> eval_expression(argument, b, row) == eval_expression(argument, a, row)
            && value_held(a.strings, eval_expression(argument, a, row)))
}

/// Whether the argument of each aggregate of a `Group` has on each row the
/// same held value over `a` and over `b`.
pub open spec fn params_same(node: PlanNode, a: Dataset, b: Dataset, input: Seq<Row>) -> bool {
    forall|i: int| 0 <= i < input.len() ==> param_same(node, a, b, #[trigger] input[i])
}

proof fn lemma_same_drop_last(node: PlanNode, a: Dataset, b: Dataset, input: Seq<Row>)
    requires
        input.len() > 0,
        params_same(node, a, b, input),
    ensures
        params_same(node, a, b, input.drop_last()),
{
    assert forall|i: int| 0 <= i < input.drop_last().len() implies param_same(
        node,
        a,
        b,
        #[trigger] input.drop_last()[i],
    ) by {
        assert(input.drop_last()[i] == input[i]);
    }
}

/// The arguments of aggregates that build no text have on held rows the
/// same held values after the store grew.
pub proof fn lemma_params_same(node: PlanNode, a: Dataset, b: Dataset, input: Seq<Row>)
    requires
        node is Group,
        grows(a, b),
        dataset_held(a),
        params_settled(a.strings, node),
        rows_held(a.strings, input),
    ensures
        params_same(node, a, b, input),
    decreases node, 0int, 0int,
{
    let aggregates = node->Group_aggregates;
    assert forall|i: int| 0 <= i < input.len() implies param_same(node, a, b, #[trigger] input[i]) by {
        assert forall|j: int| 0 <= j < aggregates.len() implies ((
        #[trigger] aggregates[j]).parameter matches Some(argument) ==> eval_expression(
            argument,
            b,
            input[i],
        ) == eval_expression(argument, a, input[i]) && value_held(
            a.strings,
            eval_expression(argument, a, input[i]),
        )) by {
            if let Some(argument) = aggregates[j].parameter {
                assert(row_held(a.strings, input[i]));
                lemma_expression_stable(argument, a, b, input[i]);
                lemma_expression_held(argument, a, input[i]);
            }
        }
    }
}

/// The rows of one group are among the rows that were grouped.
pub proof fn lemma_members_same(
    node: PlanNode,
    a: Dataset,
    b: Dataset,
    input: Seq<Row>,
    keys: Seq<usize>,
    key: Row,
)
    requires
        params_same(node, a, b, input),
    ensures
        params_same(node, a, b, members_of(input, keys, key)),
    decreases input.len(),
{
    if input.len() > 0 {
        lemma_same_drop_last(node, a, b, input);
        lemma_members_same(node, a, b, input.drop_last(), keys, key);
        let rest = members_of(input.drop_last(), keys, key);
        let out = members_of(input, keys, key);
        assert forall|i: int| 0 <= i < out.len() implies param_same(node, a, b, #[trigger] out[i]) by {
            if i < rest.len() {
                assert(out[i] == rest[i]);
            } else {
                assert(input.last() == input[input.len() - 1]);
            }
        }
    }
}

pub proof fn lemma_group_each_stable(
    node: PlanNode,
    a: Dataset,
    b: Dataset,
    from: Row,
    input: Seq<Row>,
    group_keys: Seq<Row>,
)
    requires
        node is Group,
        grows(a, b),
        params_same(node, a, b, input),
        no_joins(node) || (b.strings.len() <= u64::MAX && group_present(
            node,
            a,
            input,
            group_keys,
        )),
    ensures
        group_each(node, b, from, input, group_keys) == group_each(
            node,
            a,
            from,
            input,
            group_keys,
        ),
    decreases node, 2int, group_keys.len(),
{
    if group_keys.len() > 0 {
        let keys = node->Group_keys;
        let aggregates = node->Group_aggregates;
        assert forall|g: int| 0 <= g < group_keys.drop_last().len() implies group_keys[g]
            == #[trigger] group_keys.drop_last()[g] by {}
        assert(no_joins(node) || group_present(node, a, input, group_keys.drop_last())) by {
            if !no_joins(node) {
                assert forall|g: int| 0 <= g < group_keys.drop_last().len() implies joins_present(
                    node,
                    a,
                    members_of(input, keys@, #[trigger] group_keys.drop_last()[g]),
                    aggregates.len() as int,
                ) by {
                    assert(group_keys.drop_last()[g] == group_keys[g]);
                }
            }
        }
        lemma_group_each_stable(node, a, b, from, input, group_keys.drop_last());
        let members = members_of(input, keys@, group_keys.last());
        assert(no_joins(node) || joins_present(node, a, members, aggregates.len() as int)) by {
            if !no_joins(node) {
                assert(group_keys.last() == group_keys[group_keys.len() - 1]);
            }
        }
        lemma_members_same(node, a, b, input, keys@, group_keys.last());
        let base = if members.len() > 0 {
            overlay(from, members[0], keys@)
        } else {
            from
        };
        lemma_aggregate_row_stable(node, a, b, members, base, aggregates.len() as int);
    }
}

proof fn lemma_row_precedes_stable(node: PlanNode, a: Dataset, b: Dataset, x: Row, y: Row, j: int)
    requires
        node is Sort,
        grows(a, b),
        dataset_held(a),
        keys_settled(a.strings, node),
        row_held(a.strings, x),
        row_held(a.strings, y),
        0 <= j,
    ensures
        row_precedes(node, b, x, y, j) == row_precedes(node, a, x, y, j),
    decreases node, 0int, node->Sort_by.len() - j,
{
    let by = node->Sort_by;
    if j < by.len() {
        assert(text_free_expression(by[j].expression));
        assert(expression_held(a.strings, by[j].expression));
        lemma_expression_stable(by[j].expression, a, b, x);
        lemma_expression_stable(by[j].expression, a, b, y);
        lemma_expression_held(by[j].expression, a, x);
        lemma_expression_held(by[j].expression, a, y);
        let vx = eval_expression(by[j].expression, a, x);
        let vy = eval_expression(by[j].expression, a, y);
        lemma_precedes_stable(a.strings, b.strings, vx, vy);
        lemma_precedes_stable(a.strings, b.strings, vy, vx);
        lemma_row_precedes_stable(node, a, b, x, y, j + 1);
    }
}

proof fn lemma_insert_sorted_stable(
    node: PlanNode,
    a: Dataset,
    b: Dataset,
    sorted: Seq<Row>,
    row: Row,
)
    requires
        node is Sort,
        grows(a, b),
        dataset_held(a),
        keys_settled(a.strings, node),
        rows_held(a.strings, sorted),
        row_held(a.strings, row),
    ensures
        insert_sorted(node, b, sorted, row) == insert_sorted(node, a, sorted, row),
        rows_held(a.strings, insert_sorted(node, a, sorted, row)),
    decreases node, 1int, sorted.len(),
{
    if sorted.len() == 0 {
        assert(seq![row][0] == row);
    } else {
        lemma_held_drop_last(a.strings, sorted);
        lemma_row_precedes_stable(node, a, b, row, sorted.last(), 0);
        if row_precedes(node, a, row, sorted.last(), 0) {
            lemma_insert_sorted_stable(node, a, b, sorted.drop_last(), row);
            let rest = insert_sorted(node, a, sorted.drop_last(), row);
            let out = rest.push(sorted.last());
            assert forall|i: int| 0 <= i < out.len() implies row_held(a.strings, #[trigger] out[i]) by {
                if i < rest.len() {
                    assert(out[i] == rest[i]);
                }
            }
        } else {
            let out = sorted.push(row);
            assert forall|i: int| 0 <= i < out.len() implies row_held(a.strings, #[trigger] out[i]) by {
                if i < sorted.len() {
                    assert(out[i] == sorted[i]);
                }
            }
        }
    }
}

/// Sorting held rows by keys that build no text gives the same after the
/// store grew.
pub proof fn lemma_sort_rows_stable(node: PlanNode, a: Dataset, b: Dataset, input: Seq<Row>)
    requires
        node is Sort,
        grows(a, b),
        dataset_held(a),
        keys_settled(a.strings, node),
        rows_held(a.strings, input),
    ensures
        sort_rows(node, b, input) == sort_rows(node, a, input),
        rows_held(a.strings, sort_rows(node, a, input)),
    decreases node, 2int, input.len(),
{
    if input.len() > 0 {
        lemma_held_drop_last(a.strings, input);
        lemma_sort_rows_stable(node, a, b, input.drop_last());
        lemma_insert_sorted_stable(node, a, b, sort_rows(node, a, input.drop_last()), input.last());
    }
}

pub proof fn lemma_restrict_held(strings: Seq<Seq<char>>, from: Row, slots: Seq<usize>)
    requires
        row_held(strings, from),
    ensures
        row_held(strings, restrict(from, slots)),
{
    let start = restrict(from, slots);
    assert forall|k: int| 0 <= k < start.len() implies value_held(strings, #[trigger] start[k]) by {
        assert(value_held(strings, from[k]));
    }
}

/// What a plan that builds no text yields is the same after the store
/// grew, where the dataset, the plan and the input row hold the one
/// surrogate of each of their terms.
pub proof fn lemma_rows_stable(node: PlanNode, a: Dataset, b: Dataset, from: Row)
    requires
        grows(a, b),
        dataset_held(a),
        text_free(node),
        plan_held(a.strings, node),
        row_held(a.strings, from),
    ensures
        rows(node, b, from) == rows(node, a, from),
    decreases node, 3int, 0int,
{
    match node {
        PlanNode::Init => {},
        PlanNode::StaticBindings { .. } => {},
        PlanNode::Service { .. } => {},
        PlanNode::QuadPatternJoin { child, .. } => {
            lemma_rows_stable(*child, a, b, from);
        },
        PlanNode::Join { left, .. } => {
            lemma_rows_stable(*left, a, b, from);
            lemma_rows_held(*left, a, from);
            lemma_join_each_stable(node, a, b, rows(*left, a, from));
        },
        PlanNode::LeftJoin { left, .. } => {
            lemma_rows_stable(*left, a, b, from);
            lemma_rows_held(*left, a, from);
            lemma_left_join_each_stable(node, a, b, rows(*left, a, from));
        },
        PlanNode::Union { left, right } => {
            lemma_rows_stable(*left, a, b, from);
            lemma_rows_stable(*right, a, b, from);
        },
        PlanNode::Minus { left, right } => {
            lemma_rows_stable(*left, a, b, from);
            assert(row_held(a.strings, unbound_row(from.len())));
            lemma_rows_stable(*right, a, b, unbound_row(from.len()));
        },
        PlanNode::Filter { child, .. } => {
            lemma_rows_stable(*child, a, b, from);
            lemma_rows_held(*child, a, from);
            lemma_filter_each_stable(node, a, b, rows(*child, a, from));
        },
        PlanNode::Extend { child, .. } => {
            lemma_rows_stable(*child, a, b, from);
            lemma_rows_held(*child, a, from);
            lemma_extend_each_stable(node, a, b, rows(*child, a, from));
        },
        PlanNode::Project { child, slots } => {
            lemma_restrict_held(a.strings, from, slots@);
            lemma_rows_stable(*child, a, b, restrict(from, slots@));
        },
        PlanNode::Group { child, keys, .. } => {
            assert(params_settled(a.strings, node));
            let start = restrict(from, keys@);
            lemma_restrict_held(a.strings, from, keys@);
            lemma_rows_stable(*child, a, b, start);
            lemma_rows_held(*child, a, start);
            let input = rows(*child, a, start);
            lemma_params_same(node, a, b, input);
            lemma_group_each_stable(node, a, b, from, input, distinct_rows(keys_of(input, keys@)));
        },
        PlanNode::Sort { child, .. } => {
            assert(keys_settled(a.strings, node));
            lemma_rows_stable(*child, a, b, from);
            lemma_rows_held(*child, a, from);
            lemma_sort_rows_stable(node, a, b, rows(*child, a, from));
        },
        PlanNode::Distinct { child } => {
            lemma_rows_stable(*child, a, b, from);
        },
        PlanNode::Reduced { child } => {
            lemma_rows_stable(*child, a, b, from);
        },
        PlanNode::Slice { child, .. } => {
            lemma_rows_stable(*child, a, b, from);
        },
    }
}

} // verus!
