use crate::sparql::algebra::Function;
use crate::sparql::canonical::{
    dataset_held, expression_held, lemma_expression_held, lemma_expression_held_later,
    lemma_plan_held_later, lemma_rows_held, plan_held, row_held, rows_held, value_held,
};
use crate::sparql::dataset::{
    id_of, lemma_intern, lemma_position_in_larger_store, lemma_position_is_id, Dataset,
    EncodedTerm,
};
use crate::sparql::eval::{
    append_rows, bind_slot_in, copy_row, distinct, new_row, push_row, restrict_row, slice,
};
use crate::sparql::evaluator::{overlay_all, SimpleEvaluator};
use crate::sparql::grammar::xsd_decimal;
use crate::sparql::plan::{
    all_width, bind_slot, overlay_each, restrict, rows_view, unbound_row, EncodedTuple,
    PlanAggregationFunction, PlanExpression, PlanNode, Row,
};
use crate::sparql::semantics::{
    apply_binary, apply_unary, call_values, coalesce_from, effective_boolean, eval_expression,
    extend_each, extend_row, filter_each, holds, rows,
};
use crate::sparql::stable::{
    extends, group_present, grows, joins_present, lemma_binary_stable, lemma_boolean_stable,
    lemma_dataset_held_later, lemma_extends_itself, lemma_extends_transitive,
    lemma_group_each_stable, lemma_grows_transitive, lemma_row_held_later,
    lemma_rows_held_later, lemma_rows_stable, lemma_same_texts, lemma_unary_stable,
    rows_settled, text_free, text_free_expression, value_settled,
};
use crate::sparql::texts::{built_text, call_text, concat_texts, needs_decimal, BuiltKind};
use vstd::prelude::*;

verus! {

/// Whether the functions of an expression that build texts stand where
/// evaluation can intern what they build, those of the pattern of an
/// `EXISTS` too.
pub open spec fn expression_placed(expression: PlanExpression) -> bool
    decreases expression,
{
    match expression {
        PlanExpression::Constant(_) => true,
        PlanExpression::Variable(_) => true,
        PlanExpression::Bound(_) => true,
        PlanExpression::Unary(_, a) => expression_placed(*a),
        PlanExpression::Binary(_, a, b) => expression_placed(*a) && expression_placed(*b),
        PlanExpression::If(condition, a, b) => expression_placed(*condition) && expression_placed(
            *a,
        ) && expression_placed(*b),
        PlanExpression::Coalesce(arguments) => forall|i: int|
            0 <= i < arguments.len() ==> expression_placed(#[trigger] arguments[i]),
        PlanExpression::Exists(pattern) => placed(*pattern),
        PlanExpression::Call(_, arguments) => forall|i: int|
            0 <= i < arguments.len() ==> expression_placed(#[trigger] arguments[i]),
    }
}

/// Whether the functions of a plan that build texts stand where evaluation
/// can intern what they build: in the expressions of `FILTER` and `BIND`,
/// in the keys of `ORDER BY` and in the arguments of aggregates, anywhere
/// but in the condition of an optional join.
pub open spec fn placed(node: PlanNode) -> bool
    decreases node,
{
    match node {
        PlanNode::Project { child, .. } => placed(*child),
        PlanNode::Distinct { child } => placed(*child),
        PlanNode::Reduced { child } => placed(*child),
        PlanNode::Slice { child, .. } => placed(*child),
        PlanNode::Sort { child, by } => placed(*child) && forall|j: int|
            0 <= j < by.len() ==> expression_placed((#[trigger] by[j]).expression),
        PlanNode::Filter { child, expression } => placed(*child) && expression_placed(expression),
        PlanNode::Extend { child, expression, .. } => placed(*child) && expression_placed(
            expression,
        ),
        PlanNode::Group { child, aggregates, .. } => placed(*child) && forall|j: int|
            0 <= j < aggregates.len() ==> ((#[trigger] aggregates[j]).parameter matches Some(
                argument,
            ) ==> expression_placed(argument)),
        PlanNode::QuadPatternJoin { child, .. } => placed(*child),
        PlanNode::Join { left, right } => placed(*left) && placed(*right),
        PlanNode::LeftJoin { left, right, .. } => placed(*left) && placed(*right)
            && crate::sparql::stable::condition_free(node),
        PlanNode::Union { left, right } => placed(*left) && placed(*right),
        PlanNode::Minus { left, right } => placed(*left) && placed(*right),
        _ => text_free(node),
    }
}

/// Whether the store holds every text that the evaluation of an
/// expression on a row builds, so that each call of the expression gives
/// the term of its text.
pub open spec fn expression_complete(expression: PlanExpression, dataset: Dataset, row: Row) -> bool
    decreases expression, 1int, 0int,
{
    match expression {
        PlanExpression::Constant(_) => true,
        PlanExpression::Variable(_) => true,
        PlanExpression::Bound(_) => true,
        PlanExpression::Unary(_, a) => expression_complete(*a, dataset, row),
        PlanExpression::Binary(_, a, b) => expression_complete(*a, dataset, row)
            && expression_complete(*b, dataset, row),
        PlanExpression::If(condition, a, b) => expression_complete(*condition, dataset, row)
            && match effective_boolean(
            dataset.strings,
            eval_expression(*condition, dataset, row),
        ) {
            Some(true) => expression_complete(*a, dataset, row),
            Some(false) => expression_complete(*b, dataset, row),
            None => true,
        },
        PlanExpression::Coalesce(_) => coalesce_complete(expression, dataset, row, 0),
        PlanExpression::Exists(pattern) => complete(*pattern, dataset, row),
        PlanExpression::Call(function, arguments) => arguments_complete(
            expression,
            dataset,
            row,
            arguments.len() as int,
        ) && decimal_ready(function, dataset.strings) && (call_text(
            function,
            dataset.strings,
            call_values(expression, dataset, row, arguments.len() as int),
        ) matches Some(built) ==> crate::sparql::dataset::position_of(dataset.strings, built.text)
            is Some),
    }
}

/// Whether the store holds every text that the arguments of a `COALESCE`
/// build from argument `i` up to the first that gives a value.
pub open spec fn coalesce_complete(expression: PlanExpression, dataset: Dataset, row: Row, i: int) -> bool
    decreases expression, 0int, expression->Coalesce_0.len() - i,
{
    match expression {
        PlanExpression::Coalesce(arguments) => if 0 <= i < arguments.len() {
            expression_complete(arguments[i], dataset, row) && (eval_expression(
                arguments[i],
                dataset,
                row,
            ) is None ==> coalesce_complete(expression, dataset, row, i + 1))
        } else {
            true
        },
        _ => true,
    }
}

/// Whether the store holds every text that the first `n` arguments of a
/// call build.
pub open spec fn arguments_complete(expression: PlanExpression, dataset: Dataset, row: Row, n: int) -> bool
    decreases expression, 0int, n,
{
    match expression {
        PlanExpression::Call(_, arguments) => if 0 < n <= arguments.len() {
            arguments_complete(expression, dataset, row, n - 1) && expression_complete(
                arguments[n - 1],
                dataset,
                row,
            )
        } else {
            true
        },
        _ => true,
    }
}

/// Whether an expression is complete on a row over a dataset and over
/// every dataset that it grows into.
pub open spec fn complete_settled(expression: PlanExpression, dataset: Dataset, row: Row) -> bool {
    forall|later: Dataset| #[trigger]
        extends(dataset, later) ==> expression_complete(expression, later, row)
}

proof fn lemma_complete_later(expression: PlanExpression, a: Dataset, b: Dataset, row: Row)
    requires
        complete_settled(expression, a, row),
        grows(a, b),
    ensures
        complete_settled(expression, b, row),
{
    assert forall|later: Dataset| #[trigger] extends(b, later) implies expression_complete(
        expression,
        later,
        row,
    ) by {
        lemma_extends_transitive(a, b, later);
    }
}

proof fn lemma_if_complete(
    expression: PlanExpression,
    d: Dataset,
    row: Row,
    vc: Option<EncodedTerm>,
)
    requires
        expression is If,
        value_settled(*expression->If_0, d, row, vc),
        value_held(d.strings, vc),
        complete_settled(*expression->If_0, d, row),
        match effective_boolean(d.strings, vc) {
            Some(true) => complete_settled(*expression->If_1, d, row),
            Some(false) => complete_settled(*expression->If_2, d, row),
            None => true,
        },
    ensures
        complete_settled(expression, d, row),
{
    assert forall|later: Dataset| #[trigger] extends(d, later) implies expression_complete(
        expression,
        later,
        row,
    ) by {
        lemma_boolean_stable(d.strings, later.strings, vc);
    }
}

/// Whether the first `i` arguments of a `COALESCE` are complete, over a
/// dataset and over every dataset that it grows into, so that the whole is
/// complete where the rest is.
pub open spec fn coalesce_complete_so_far(expression: PlanExpression, d: Dataset, row: Row, i: int) -> bool {
    forall|later: Dataset| #[trigger]
        extends(d, later) ==> (coalesce_complete(expression, later, row, i)
            ==> coalesce_complete(expression, later, row, 0))
}

proof fn lemma_coalesce_complete_step(
    expression: PlanExpression,
    before: Dataset,
    d: Dataset,
    row: Row,
    i: int,
    value: Option<EncodedTerm>,
)
    requires
        expression is Coalesce,
        0 <= i < expression->Coalesce_0.len(),
        coalesce_complete_so_far(expression, before, row, i),
        grows(before, d),
        value_settled(expression->Coalesce_0[i], d, row, value),
        complete_settled(expression->Coalesce_0[i], d, row),
    ensures
        value is None ==> coalesce_complete_so_far(expression, d, row, i + 1),
        value is Some ==> complete_settled(expression, d, row),
{
    assert forall|later: Dataset| #[trigger] extends(d, later) implies (value is None ==> (
    coalesce_complete(expression, later, row, i + 1) ==> coalesce_complete(
        expression,
        later,
        row,
        0,
    ))) && (value is Some ==> expression_complete(expression, later, row)) by {
        lemma_extends_transitive(before, d, later);
        assert(coalesce_complete(expression, later, row, i) ==> coalesce_complete(
            expression,
            later,
            row,
            0,
        ));
    }
}

/// Whether the first `i` arguments of a call are complete over a dataset
/// and over every dataset that it grows into.
pub open spec fn arguments_settled(expression: PlanExpression, d: Dataset, row: Row, i: int) -> bool {
    forall|later: Dataset| #[trigger]
        extends(d, later) ==> arguments_complete(expression, later, row, i)
}

proof fn lemma_arguments_step(
    expression: PlanExpression,
    before: Dataset,
    d: Dataset,
    row: Row,
    i: int,
)
    requires
        expression is Call,
        0 <= i < expression->Call_1.len(),
        arguments_settled(expression, before, row, i),
        grows(before, d),
        complete_settled(expression->Call_1[i], d, row),
    ensures
        arguments_settled(expression, d, row, i + 1),
{
    assert forall|later: Dataset| #[trigger] extends(d, later) implies arguments_complete(
        expression,
        later,
        row,
        i + 1,
    ) by {
        lemma_extends_transitive(before, d, later);
        assert(arguments_complete(expression, later, row, i));
    }
}

proof fn lemma_call_complete(
    expression: PlanExpression,
    before: Dataset,
    d: Dataset,
    row: Row,
    values: Seq<Option<EncodedTerm>>,
)
    requires
        expression is Call,
        values_settled(expression, before, row, values, expression->Call_1.len() as int),
        arguments_settled(expression, before, row, expression->Call_1.len() as int),
        forall|i: int| 0 <= i < values.len() ==> value_held(before.strings, #[trigger] values[i]),
        grows(before, d),
        d.well_formed(),
        decimal_ready(expression->Call_0, before.strings),
        call_text(expression->Call_0, before.strings, values) matches Some(built)
            ==> d.strings.contains(built.text),
    ensures
        complete_settled(expression, d, row),
{
    let function = expression->Call_0;
    assert forall|later: Dataset| #[trigger] extends(d, later) implies expression_complete(
        expression,
        later,
        row,
    ) by {
        lemma_extends_transitive(before, d, later);
        assert(call_values(expression, later, row, expression->Call_1.len() as int) == values);
        assert(arguments_complete(expression, later, row, expression->Call_1.len() as int));
        lemma_call_text_stable(function, before.strings, later.strings, values);
        if let Some(built) = call_text(function, before.strings, values) {
            lemma_position_is_id(d.strings, built.text);
            lemma_position_in_larger_store(d.strings, later.strings, built.text);
        }
    }
}

/// Whether the store holds every text that the expressions of `FILTER`
/// and `BIND`, the keys of `ORDER BY`, the arguments of the aggregates, and
/// the aggregates `GROUP_CONCAT` and `AVG` build on the rows that reach
/// them, wherever in a plan evaluation interns what they build.
pub open spec fn complete(node: PlanNode, dataset: Dataset, from: Row) -> bool
    decreases node, 0int, 0int,
{
    match node {
        PlanNode::Project { child, slots } => complete(*child, dataset, restrict(from, slots@)),
        PlanNode::Distinct { child } => complete(*child, dataset, from),
        PlanNode::Reduced { child } => complete(*child, dataset, from),
        PlanNode::Slice { child, .. } => complete(*child, dataset, from),
        PlanNode::Sort { child, by } => complete(*child, dataset, from) && forall|j: int|
            0 <= j < by.len() ==> each_complete(
                (#[trigger] by[j]).expression,
                dataset,
                rows(*child, dataset, from),
            ),
        PlanNode::Group { child, keys, aggregates } => {
            let input = rows(*child, dataset, restrict(from, keys@));
            complete(*child, dataset, restrict(from, keys@)) && group_present(
                node,
                dataset,
                input,
                crate::sparql::plan::distinct_rows(crate::sparql::semantics::keys_of(input, keys@)),
            ) && forall|j: int|
                0 <= j < aggregates.len() ==> ((#[trigger] aggregates[j]).parameter matches Some(
                    argument,
                ) ==> each_complete(argument, dataset, input))
        },
        PlanNode::Filter { child, expression } => complete(*child, dataset, from) && each_complete(
            expression,
            dataset,
            rows(*child, dataset, from),
        ),
        PlanNode::Extend { child, expression, .. } => complete(*child, dataset, from)
            && each_complete(expression, dataset, rows(*child, dataset, from)),
        PlanNode::QuadPatternJoin { child, .. } => complete(*child, dataset, from),
        PlanNode::Join { left, right } => complete(*left, dataset, from) && each_row_complete(
            *right,
            dataset,
            rows(*left, dataset, from),
        ),
        PlanNode::LeftJoin { left, right, .. } => complete(*left, dataset, from)
            && each_row_complete(*right, dataset, rows(*left, dataset, from)),
        PlanNode::Union { left, right } => complete(*left, dataset, from) && complete(
            *right,
            dataset,
            from,
        ),
        PlanNode::Minus { left, right } => complete(*left, dataset, from) && complete(
            *right,
            dataset,
            unbound_row(from.len()),
        ),
        _ => true,
    }
}

/// Whether a plan is complete from each of some rows.
pub open spec fn each_row_complete(node: PlanNode, dataset: Dataset, lefts: Seq<Row>) -> bool
    decreases node, 1int, 0int,
{
    forall|i: int| 0 <= i < lefts.len() ==> complete(node, dataset, #[trigger] lefts[i])
}

/// Whether an expression is complete on each of some rows.
pub open spec fn each_complete(expression: PlanExpression, dataset: Dataset, input: Seq<Row>) -> bool
    decreases expression, 2int, 0int,
{
    forall|i: int| 0 <= i < input.len() ==> expression_complete(expression, dataset, #[trigger] input[i])
}

/// Whether a plan is complete over a dataset and over every dataset that
/// it grows into.
pub open spec fn plan_complete_settled(node: PlanNode, d: Dataset, from: Row) -> bool {
    forall|later: Dataset| #[trigger] extends(d, later) ==> complete(node, later, from)
}

/// Whether an expression is complete on the first `i` of some rows, over
/// a dataset and over every dataset that it grows into.
pub open spec fn each_settled(expression: PlanExpression, d: Dataset, input: Seq<Row>, i: int) -> bool {
    forall|later: Dataset| #[trigger]
        extends(d, later) ==> each_complete(expression, later, input.subrange(0, i))
}

proof fn lemma_each_step(
    expression: PlanExpression,
    before: Dataset,
    d: Dataset,
    input: Seq<Row>,
    i: int,
)
    requires
        0 <= i < input.len(),
        each_settled(expression, before, input, i),
        grows(before, d),
        complete_settled(expression, d, input[i]),
    ensures
        each_settled(expression, d, input, i + 1),
{
    assert forall|later: Dataset| #[trigger] extends(d, later) implies each_complete(
        expression,
        later,
        input.subrange(0, i + 1),
    ) by {
        lemma_extends_transitive(before, d, later);
        let head = input.subrange(0, i);
        let more = input.subrange(0, i + 1);
        assert forall|k: int| 0 <= k < more.len() implies expression_complete(
            expression,
            later,
            #[trigger] more[k],
        ) by {
            if k < i {
                assert(more[k] == head[k]);
            }
        }
    }
}

proof fn lemma_plan_complete_later(node: PlanNode, a: Dataset, b: Dataset, from: Row)
    requires
        plan_complete_settled(node, a, from),
        grows(a, b),
    ensures
        plan_complete_settled(node, b, from),
{
    assert forall|later: Dataset| #[trigger] extends(b, later) implies complete(
        node,
        later,
        from,
    ) by {
        lemma_extends_transitive(a, b, later);
    }
}

proof fn lemma_head_complete(node: PlanNode, d: Dataset, from: Row, inner: Seq<Row>)
    requires
        node is Filter || node is Extend,
        node is Filter ==> rows_settled(*node->Filter_child, d, from, inner)
            && plan_complete_settled(*node->Filter_child, d, from) && each_settled(
            node->Filter_expression,
            d,
            inner,
            inner.len() as int,
        ),
        node is Extend ==> rows_settled(*node->Extend_child, d, from, inner)
            && plan_complete_settled(*node->Extend_child, d, from) && each_settled(
            node->Extend_expression,
            d,
            inner,
            inner.len() as int,
        ),
    ensures
        plan_complete_settled(node, d, from),
{
    assert(inner.subrange(0, inner.len() as int) =~= inner);
    assert forall|later: Dataset| #[trigger] extends(d, later) implies complete(
        node,
        later,
        from,
    ) by {
        match node {
            PlanNode::Filter { child, expression } => {
                assert(rows(*child, later, from) == inner);
                assert(each_complete(expression, later, inner.subrange(0, inner.len() as int)));
            },
            PlanNode::Extend { child, expression, .. } => {
                assert(rows(*child, later, from) == inner);
                assert(each_complete(expression, later, inner.subrange(0, inner.len() as int)));
            },
            _ => {},
        }
    }
}

/// An expression none of whose functions builds a text is complete over
/// every dataset.
pub proof fn lemma_text_free_expression_complete(expression: PlanExpression, dataset: Dataset, row: Row)
    requires
        text_free_expression(expression),
    ensures
        expression_complete(expression, dataset, row),
    decreases expression, 1int, 0int,
{
    match expression {
        PlanExpression::Unary(_, a) => {
            lemma_text_free_expression_complete(*a, dataset, row);
        },
        PlanExpression::Binary(_, a, b) => {
            lemma_text_free_expression_complete(*a, dataset, row);
            lemma_text_free_expression_complete(*b, dataset, row);
        },
        PlanExpression::If(condition, a, b) => {
            lemma_text_free_expression_complete(*condition, dataset, row);
            lemma_text_free_expression_complete(*a, dataset, row);
            lemma_text_free_expression_complete(*b, dataset, row);
        },
        PlanExpression::Coalesce(_) => {
            lemma_text_free_coalesce_complete(expression, dataset, row, 0);
        },
        PlanExpression::Exists(pattern) => {
            lemma_text_free_complete(*pattern, dataset, row);
        },
        _ => {},
    }
}

proof fn lemma_text_free_coalesce_complete(expression: PlanExpression, dataset: Dataset, row: Row, i: int)
    requires
        expression is Coalesce,
        text_free_expression(expression),
        0 <= i,
    ensures
        coalesce_complete(expression, dataset, row, i),
    decreases expression, 0int, expression->Coalesce_0.len() - i,
{
    let arguments = expression->Coalesce_0;
    if i < arguments.len() {
        lemma_text_free_expression_complete(arguments[i], dataset, row);
        lemma_text_free_coalesce_complete(expression, dataset, row, i + 1);
    }
}

/// A plan none of whose functions builds a text is complete over every
/// dataset.
pub proof fn lemma_text_free_complete(node: PlanNode, dataset: Dataset, from: Row)
    requires
        text_free(node),
    ensures
        complete(node, dataset, from),
    decreases node, 0int, 0int,
{
    match node {
        PlanNode::Project { child, slots } => lemma_text_free_complete(
            *child,
            dataset,
            restrict(from, slots@),
        ),
        PlanNode::Distinct { child } => lemma_text_free_complete(*child, dataset, from),
        PlanNode::Reduced { child } => lemma_text_free_complete(*child, dataset, from),
        PlanNode::Slice { child, .. } => lemma_text_free_complete(*child, dataset, from),
        PlanNode::Sort { child, by } => {
            lemma_text_free_complete(*child, dataset, from);
            let input = rows(*child, dataset, from);
            assert forall|j: int| 0 <= j < by.len() implies each_complete(
                (#[trigger] by[j]).expression,
                dataset,
                input,
            ) by {
                assert forall|i: int| 0 <= i < input.len() implies expression_complete(
                    by[j].expression,
                    dataset,
                    #[trigger] input[i],
                ) by {
                    lemma_text_free_expression_complete(by[j].expression, dataset, input[i]);
                }
                assert(each_complete(by[j].expression, dataset, input));
            }
        },
        PlanNode::Group { child, aggregates, keys } => {
            lemma_text_free_complete(*child, dataset, restrict(from, keys@));
            let input = rows(*child, dataset, restrict(from, keys@));
            assert forall|j: int| 0 <= j < aggregates.len() implies ((
            #[trigger] aggregates[j]).parameter matches Some(argument) ==> each_complete(
                argument,
                dataset,
                input,
            )) by {
                if let Some(argument) = aggregates[j].parameter {
                    assert forall|i: int| 0 <= i < input.len() implies expression_complete(
                        argument,
                        dataset,
                        #[trigger] input[i],
                    ) by {
                        lemma_text_free_expression_complete(argument, dataset, input[i]);
                    }
                    assert(each_complete(argument, dataset, input));
                }
            }
            assert(group_present(
                node,
                dataset,
                input,
                crate::sparql::plan::distinct_rows(crate::sparql::semantics::keys_of(input, keys@)),
            ));
        },
        PlanNode::Filter { child, expression } => {
            lemma_text_free_complete(*child, dataset, from);
            let input = rows(*child, dataset, from);
            assert forall|i: int| 0 <= i < input.len() implies expression_complete(
                expression,
                dataset,
                #[trigger] input[i],
            ) by {
                lemma_text_free_expression_complete(expression, dataset, input[i]);
            }
            assert(each_complete(expression, dataset, input));
        },
        PlanNode::Extend { child, expression, .. } => {
            lemma_text_free_complete(*child, dataset, from);
            let input = rows(*child, dataset, from);
            assert forall|i: int| 0 <= i < input.len() implies expression_complete(
                expression,
                dataset,
                #[trigger] input[i],
            ) by {
                lemma_text_free_expression_complete(expression, dataset, input[i]);
            }
            assert(each_complete(expression, dataset, input));
        },
        PlanNode::QuadPatternJoin { child, .. } => {
            lemma_text_free_complete(*child, dataset, from);
        },
        PlanNode::Join { left, right } => {
            lemma_text_free_complete(*left, dataset, from);
            let lefts = rows(*left, dataset, from);
            assert forall|i: int| 0 <= i < lefts.len() implies complete(
                *right,
                dataset,
                #[trigger] lefts[i],
            ) by {
                lemma_text_free_complete(*right, dataset, lefts[i]);
            }
            assert(each_row_complete(*right, dataset, lefts));
        },
        PlanNode::LeftJoin { left, right, .. } => {
            lemma_text_free_complete(*left, dataset, from);
            let lefts = rows(*left, dataset, from);
            assert forall|i: int| 0 <= i < lefts.len() implies complete(
                *right,
                dataset,
                #[trigger] lefts[i],
            ) by {
                lemma_text_free_complete(*right, dataset, lefts[i]);
            }
            assert(each_row_complete(*right, dataset, lefts));
        },
        PlanNode::Union { left, right } => {
            lemma_text_free_complete(*left, dataset, from);
            lemma_text_free_complete(*right, dataset, from);
        },
        PlanNode::Minus { left, right } => {
            lemma_text_free_complete(*left, dataset, from);
            lemma_text_free_complete(*right, dataset, unbound_row(from.len()));
        },
        _ => {},
    }
}

/// The term of a built text with a given identifier.
pub open spec fn kind_term(kind: BuiltKind, id: u64) -> EncodedTerm {
    match kind {
        BuiltKind::Simple => EncodedTerm::StringLiteral { value_id: id },
        BuiltKind::Tagged(language_id) => EncodedTerm::LangStringLiteral {
            value_id: id,
            language_id,
        },
        BuiltKind::Iri => EncodedTerm::NamedNode { iri_id: id },
        BuiltKind::Typed(datatype_id) => EncodedTerm::TypedLiteral { value_id: id, datatype_id },
    }
}

proof fn lemma_concat_stable(
    a: Seq<Seq<char>>,
    b: Seq<Seq<char>>,
    values: Seq<Option<EncodedTerm>>,
    n: int,
)
    requires
        a.is_prefix_of(b),
        forall|i: int| 0 <= i < values.len() ==> value_held(a, #[trigger] values[i]),
    ensures
        concat_texts(b, values, n) == concat_texts(a, values, n),
    decreases n,
{
    lemma_same_texts(a, b);
    if 0 < n <= values.len() {
        lemma_concat_stable(a, b, values, n - 1);
        assert(value_held(a, values[n - 1]));
    }
}

/// Whether the store holds the datatype of decimal numbers, where the
/// function gives one.
pub open spec fn decimal_ready(function: Function, strings: Seq<Seq<char>>) -> bool {
    needs_decimal(function) ==> crate::sparql::dataset::position_of(strings, xsd_decimal()) is Some
}

/// The text that a function builds from held values is the same after the
/// store grew, where the store holds the datatype of decimal numbers if the
/// function gives one.
pub proof fn lemma_call_text_stable(
    function: Function,
    a: Seq<Seq<char>>,
    b: Seq<Seq<char>>,
    values: Seq<Option<EncodedTerm>>,
)
    requires
        a.is_prefix_of(b),
        b.len() <= u64::MAX,
        decimal_ready(function, a),
        forall|i: int| 0 <= i < values.len() ==> value_held(a, #[trigger] values[i]),
    ensures
        call_text(function, b, values) == call_text(function, a, values),
        decimal_ready(function, b),
{
    if needs_decimal(function) {
        lemma_position_in_larger_store(a, b, xsd_decimal());
    }
    lemma_same_texts(a, b);
    lemma_concat_stable(a, b, values, values.len() as int);
    if values.len() > 0 {
        assert(value_held(a, values[0]));
    }
}

proof fn lemma_settled_later(
    expression: PlanExpression,
    a: Dataset,
    b: Dataset,
    row: Row,
    value: Option<EncodedTerm>,
)
    requires
        value_settled(expression, a, row, value),
        grows(a, b),
    ensures
        value_settled(expression, b, row, value),
{
    assert forall|later: Dataset| #[trigger] extends(b, later) implies eval_expression(
        expression,
        later,
        row,
    ) == value by {
        lemma_extends_transitive(a, b, later);
    }
}

proof fn lemma_settled_value_held(
    expression: PlanExpression,
    d: Dataset,
    row: Row,
    value: Option<EncodedTerm>,
)
    requires
        d.strings.len() <= u64::MAX,
        expression_held(d.strings, expression),
        row_held(d.strings, row),
        value_settled(expression, d, row, value),
    ensures
        value_held(d.strings, value),
{
    lemma_extends_itself(d);
    lemma_expression_held(expression, d, row);
}

proof fn lemma_unary_settled(
    expression: PlanExpression,
    d: Dataset,
    row: Row,
    va: Option<EncodedTerm>,
    r: Option<EncodedTerm>,
)
    requires
        expression is Unary,
        value_settled(*expression->Unary_1, d, row, va),
        value_held(d.strings, va),
        r == apply_unary(expression->Unary_0, d.strings, va),
    ensures
        value_settled(expression, d, row, r),
{
    assert forall|later: Dataset| #[trigger] extends(d, later) implies eval_expression(
        expression,
        later,
        row,
    ) == r by {
        lemma_unary_stable(expression->Unary_0, d.strings, later.strings, va);
    }
}

proof fn lemma_binary_settled(
    expression: PlanExpression,
    d: Dataset,
    row: Row,
    va: Option<EncodedTerm>,
    vb: Option<EncodedTerm>,
    r: Option<EncodedTerm>,
)
    requires
        expression is Binary,
        value_settled(*expression->Binary_1, d, row, va),
        value_settled(*expression->Binary_2, d, row, vb),
        value_held(d.strings, va),
        value_held(d.strings, vb),
        r == apply_binary(expression->Binary_0, d.strings, va, vb),
    ensures
        value_settled(expression, d, row, r),
{
    assert forall|later: Dataset| #[trigger] extends(d, later) implies eval_expression(
        expression,
        later,
        row,
    ) == r by {
        lemma_binary_stable(expression->Binary_0, d.strings, later.strings, va, vb);
    }
}

proof fn lemma_if_settled(
    expression: PlanExpression,
    d: Dataset,
    row: Row,
    vc: Option<EncodedTerm>,
    r: Option<EncodedTerm>,
)
    requires
        expression is If,
        value_settled(*expression->If_0, d, row, vc),
        value_held(d.strings, vc),
        match effective_boolean(d.strings, vc) {
            Some(true) => value_settled(*expression->If_1, d, row, r),
            Some(false) => value_settled(*expression->If_2, d, row, r),
            None => r is None,
        },
    ensures
        value_settled(expression, d, row, r),
{
    assert forall|later: Dataset| #[trigger] extends(d, later) implies eval_expression(
        expression,
        later,
        row,
    ) == r by {
        lemma_boolean_stable(d.strings, later.strings, vc);
    }
}

/// Whether the first `i` arguments of a `COALESCE` fail on a row over a
/// dataset and over every dataset that it grows into.
pub open spec fn coalesce_skipped(expression: PlanExpression, d: Dataset, row: Row, i: int) -> bool {
    forall|later: Dataset| #[trigger]
        extends(d, later) ==> coalesce_from(expression, later, row, 0) == coalesce_from(
            expression,
            later,
            row,
            i,
        )
}

proof fn lemma_coalesce_step(
    expression: PlanExpression,
    before: Dataset,
    d: Dataset,
    row: Row,
    i: int,
    value: Option<EncodedTerm>,
)
    requires
        expression is Coalesce,
        0 <= i < expression->Coalesce_0.len(),
        coalesce_skipped(expression, before, row, i),
        grows(before, d),
        value_settled(expression->Coalesce_0[i], d, row, value),
    ensures
        value is None ==> coalesce_skipped(expression, d, row, i + 1),
        value is Some ==> value_settled(expression, d, row, value),
{
    assert forall|later: Dataset| #[trigger] extends(d, later) implies (value is None
        ==> coalesce_from(expression, later, row, 0) == coalesce_from(expression, later, row, i + 1))
        && (value is Some ==> eval_expression(expression, later, row) == value) by {
        lemma_extends_transitive(before, d, later);
        assert(coalesce_from(expression, later, row, 0) == coalesce_from(
            expression,
            later,
            row,
            i,
        ));
    }
}

proof fn lemma_coalesce_end(expression: PlanExpression, d: Dataset, row: Row)
    requires
        expression is Coalesce,
        coalesce_skipped(expression, d, row, expression->Coalesce_0.len() as int),
    ensures
        value_settled(expression, d, row, None),
{
}

/// Whether `values` are the values of the first `i` arguments of a call on
/// a row over a dataset and over every dataset that it grows into.
pub open spec fn values_settled(
    expression: PlanExpression,
    d: Dataset,
    row: Row,
    values: Seq<Option<EncodedTerm>>,
    i: int,
) -> bool {
    forall|later: Dataset| #[trigger]
        extends(d, later) ==> call_values(expression, later, row, i) == values
}

proof fn lemma_values_step(
    expression: PlanExpression,
    before: Dataset,
    d: Dataset,
    row: Row,
    values: Seq<Option<EncodedTerm>>,
    i: int,
    value: Option<EncodedTerm>,
)
    requires
        expression is Call,
        0 <= i < expression->Call_1.len(),
        values_settled(expression, before, row, values, i),
        grows(before, d),
        value_settled(expression->Call_1[i], d, row, value),
    ensures
        values_settled(expression, d, row, values.push(value), i + 1),
{
    assert forall|later: Dataset| #[trigger] extends(d, later) implies call_values(
        expression,
        later,
        row,
        i + 1,
    ) == values.push(value) by {
        lemma_extends_transitive(before, d, later);
        assert(call_values(expression, later, row, i) == values);
    }
}

proof fn lemma_call_settled(
    expression: PlanExpression,
    before: Dataset,
    d: Dataset,
    row: Row,
    values: Seq<Option<EncodedTerm>>,
    r: Option<EncodedTerm>,
)
    requires
        expression is Call,
        values_settled(expression, before, row, values, expression->Call_1.len() as int),
        forall|i: int| 0 <= i < values.len() ==> value_held(before.strings, #[trigger] values[i]),
        grows(before, d),
        d.well_formed(),
        decimal_ready(expression->Call_0, before.strings),
        match call_text(expression->Call_0, before.strings, values) {
            Some(built) => d.strings.contains(built.text) && r == Some(
                kind_term(built.kind, id_of(d.strings, built.text)),
            ),
            None => r is None,
        },
    ensures
        value_settled(expression, d, row, r),
{
    let function = expression->Call_0;
    assert forall|later: Dataset| #[trigger] extends(d, later) implies eval_expression(
        expression,
        later,
        row,
    ) == r by {
        lemma_extends_transitive(before, d, later);
        assert(call_values(expression, later, row, expression->Call_1.len() as int) == values);
        lemma_call_text_stable(function, before.strings, later.strings, values);
        if let Some(built) = call_text(function, before.strings, values) {
            lemma_position_is_id(d.strings, built.text);
            lemma_position_in_larger_store(d.strings, later.strings, built.text);
        }
    }
}

proof fn lemma_exists_settled(
    expression: PlanExpression,
    d: Dataset,
    row: Row,
    out: Seq<Row>,
    found: bool,
)
    requires
        expression is Exists,
        rows_settled(*expression->Exists_0, d, row, out),
        plan_complete_settled(*expression->Exists_0, d, row),
        found == (out.len() > 0),
    ensures
        value_settled(expression, d, row, Some(EncodedTerm::BooleanLiteral(found))),
        complete_settled(expression, d, row),
{
    assert forall|later: Dataset| #[trigger] extends(d, later) implies eval_expression(
        expression,
        later,
        row,
    ) == Some(EncodedTerm::BooleanLiteral(found)) && expression_complete(expression, later, row) by {
        assert(rows(*expression->Exists_0, later, row) == out);
        assert(complete(*expression->Exists_0, later, row));
    }
}

impl SimpleEvaluator {
    /// The value of an expression on a row. A text that a function of the
    /// expression builds is interned, so that the store grows; the value
    /// is that of the expression over the store as the call leaves it, and
    /// over every store that it later grows into.
    #[verifier::loop_isolation(false)]
    pub fn eval_expression_mut(&mut self, expression: &PlanExpression, row: &EncodedTuple) -> (value:
        Option<EncodedTerm>)
        requires
            old(self)@.well_formed(),
            dataset_held(old(self)@),
            expression_placed(*expression),
            expression_held(old(self)@.strings, *expression),
            row_held(old(self)@.strings, row@),
        ensures
            final(self)@.well_formed(),
            grows(old(self)@, final(self)@),
            dataset_held(final(self)@),
            value_settled(*expression, final(self)@, row@, value),
            complete_settled(*expression, final(self)@, row@),
            value_held(final(self)@.strings, value),
        decreases *expression, 0int,
    {
        let ghost d0 = self@;
        proof {
            lemma_extends_itself(d0);
            lemma_grows_transitive(d0, d0, d0);
        }
        let value = match expression {
            PlanExpression::Constant(term) => Some(*term),
            PlanExpression::Variable(slot) => if *slot < row.len() {
                row[*slot]
            } else {
                None
            },
            PlanExpression::Bound(slot) => Some(
                EncodedTerm::BooleanLiteral(*slot < row.len() && row[*slot].is_some()),
            ),
            PlanExpression::Unary(operator, a) => {
                let va = self.eval_expression_mut(a, row);
                let r = self.unary(*operator, va);
                proof {
                    lemma_unary_settled(*expression, self@, row@, va, r);
                }
                r
            },
            PlanExpression::Binary(operator, a, b) => {
                let va = self.eval_expression_mut(a, row);
                let ghost d1 = self@;
                proof {
                    lemma_expression_held_later(d0.strings, d1.strings, **b);
                    lemma_row_held_later(d0.strings, d1.strings, row@);
                }
                let vb = self.eval_expression_mut(b, row);
                let r = self.binary(*operator, va, vb);
                proof {
                    lemma_settled_later(**a, d1, self@, row@, va);
                    lemma_complete_later(**a, d1, self@, row@);
                    crate::sparql::canonical::lemma_term_held_later_value(
                        d1.strings,
                        self@.strings,
                        va,
                    );
                    lemma_binary_settled(*expression, self@, row@, va, vb, r);
                    lemma_grows_transitive(d0, d1, self@);
                }
                r
            },
            PlanExpression::If(condition, a, b) => {
                let vc = self.eval_expression_mut(condition, row);
                let ghost d1 = self@;
                proof {
                    lemma_expression_held_later(d0.strings, d1.strings, **a);
                    lemma_expression_held_later(d0.strings, d1.strings, **b);
                    lemma_row_held_later(d0.strings, d1.strings, row@);
                }
                let r = match self.effective_boolean_value(vc) {
                    Some(true) => self.eval_expression_mut(a, row),
                    Some(false) => self.eval_expression_mut(b, row),
                    None => None,
                };
                proof {
                    lemma_settled_later(**condition, d1, self@, row@, vc);
                    lemma_complete_later(**condition, d1, self@, row@);
                    crate::sparql::canonical::lemma_term_held_later_value(
                        d1.strings,
                        self@.strings,
                        vc,
                    );
                    lemma_boolean_stable(d1.strings, self@.strings, vc);
                    lemma_if_settled(*expression, self@, row@, vc, r);
                    lemma_if_complete(*expression, self@, row@, vc);
                    lemma_grows_transitive(d0, d1, self@);
                }
                r
            },
            PlanExpression::Coalesce(arguments) => {
                let mut i: usize = 0;
                let mut found: Option<EncodedTerm> = None;
                while i < arguments.len() && found.is_none()
                    invariant
                        i <= arguments@.len(),
                        self@.well_formed(),
                        grows(d0, self@),
                        dataset_held(self@),
                        found is None ==> coalesce_skipped(*expression, self@, row@, i as int),
                        found is Some ==> value_settled(*expression, self@, row@, found),
                        found is None ==> coalesce_complete_so_far(
                            *expression,
                            self@,
                            row@,
                            i as int,
                        ),
                        found is Some ==> complete_settled(*expression, self@, row@),
                    decreases arguments@.len() - i, (if found is None { 1int } else { 0int }),
                {
                    let ghost before = self@;
                    proof {
                        lemma_expression_held_later(d0.strings, before.strings, arguments@[i as int]);
                        lemma_row_held_later(d0.strings, before.strings, row@);
                    }
                    let v = self.eval_expression_mut(&arguments[i], row);
                    proof {
                        lemma_coalesce_step(*expression, before, self@, row@, i as int, v);
                        lemma_coalesce_complete_step(*expression, before, self@, row@, i as int, v);
                        lemma_grows_transitive(d0, before, self@);
                    }
                    match v {
                        Some(term) => {
                            found = Some(term);
                        },
                        None => {
                            i = i + 1;
                        },
                    }
                }
                proof {
                    if found is None {
                        lemma_coalesce_end(*expression, self@, row@);
                    }
                }
                found
            },
            PlanExpression::Exists(pattern) => {
                let out = self.finish(pattern, row);
                let found = out.len() > 0;
                proof {
                    assert(rows_view(out@).len() == out@.len());
                    lemma_exists_settled(*expression, self@, row@, rows_view(out@), found);
                }
                Some(EncodedTerm::BooleanLiteral(found))
            },
            PlanExpression::Call(function, arguments) => {
                let decimal = match function {
                    Function::Divide => true,
                    Function::Seconds => true,
                    _ => false,
                };
                if decimal {
                    let _ = self.intern_text("http://www.w3.org/2001/XMLSchema#decimal");
                    proof {
                        lemma_intern(d0.strings, xsd_decimal());
                        lemma_position_is_id(self@.strings, xsd_decimal());
                        lemma_dataset_held_later(d0, self@);
                    }
                }
                let mut values: Vec<Option<EncodedTerm>> = Vec::new();
                let mut i: usize = 0;
                while i < arguments.len()
                    invariant
                        i <= arguments@.len(),
                        self@.well_formed(),
                        grows(d0, self@),
                        dataset_held(self@),
                        decimal_ready(*function, self@.strings),
                        values_settled(*expression, self@, row@, values@, i as int),
                        arguments_settled(*expression, self@, row@, i as int),
                        forall|k: int|
                            0 <= k < values@.len() ==> value_held(
                                self@.strings,
                                #[trigger] values@[k],
                            ),
                    decreases arguments@.len() - i,
                {
                    let ghost before = self@;
                    let ghost done = values@;
                    proof {
                        lemma_expression_held_later(d0.strings, before.strings, arguments@[i as int]);
                        lemma_row_held_later(d0.strings, before.strings, row@);
                    }
                    let v = self.eval_expression_mut(&arguments[i], row);
                    values.push(v);
                    proof {
                        lemma_values_step(*expression, before, self@, row@, done, i as int, v);
                        lemma_arguments_step(*expression, before, self@, row@, i as int);
                        lemma_grows_transitive(d0, before, self@);
                        if needs_decimal(*function) {
                            lemma_position_in_larger_store(
                                before.strings,
                                self@.strings,
                                xsd_decimal(),
                            );
                        }
                        assert forall|k: int| 0 <= k < values@.len() implies value_held(
                            self@.strings,
                            #[trigger] values@[k],
                        ) by {
                            if k < done.len() {
                                assert(values@[k] == done[k]);
                                crate::sparql::canonical::lemma_term_held_later_value(
                                    before.strings,
                                    self@.strings,
                                    done[k],
                                );
                            }
                        }
                    }
                    i = i + 1;
                }
                let ghost before = self@;
                let r = match built_text(self.dataset(), *function, &values) {
                    Some(built) => {
                        let id = self.intern_text(built.text.as_str());
                        proof {
                            lemma_intern(before.strings, built.text@);
                        }
                        Some(
                            match built.kind {
                                BuiltKind::Simple => EncodedTerm::StringLiteral { value_id: id },
                                BuiltKind::Tagged(language_id) => EncodedTerm::LangStringLiteral {
                                    value_id: id,
                                    language_id,
                                },
                                BuiltKind::Iri => EncodedTerm::NamedNode { iri_id: id },
                                BuiltKind::Typed(datatype_id) => EncodedTerm::TypedLiteral {
                                    value_id: id,
                                    datatype_id,
                                },
                            },
                        )
                    },
                    None => None,
                };
                proof {
                    lemma_dataset_held_later(before, self@);
                    lemma_call_settled(*expression, before, self@, row@, values@, r);
                    lemma_call_complete(*expression, before, self@, row@, values@);
                    lemma_grows_transitive(d0, before, self@);
                }
                r
            },
        };
        proof {
            lemma_expression_held_later(d0.strings, self@.strings, *expression);
            lemma_row_held_later(d0.strings, self@.strings, row@);
            lemma_settled_value_held(*expression, self@, row@, value);
        }
        value
    }
}

/// Whether `out` holds the rows of the first `i` rows of `input` on which
/// the expression of a `Filter` holds, over a dataset and over every
/// dataset that it grows into.
pub open spec fn filter_settled(node: PlanNode, d: Dataset, input: Seq<Row>, i: int, out: Seq<Row>) -> bool {
    forall|later: Dataset| #[trigger]
        extends(d, later) ==> filter_each(node, later, input.subrange(0, i)) == out
}

proof fn lemma_filter_step(
    node: PlanNode,
    before: Dataset,
    d: Dataset,
    input: Seq<Row>,
    i: int,
    out: Seq<Row>,
    value: Option<EncodedTerm>,
    keep: bool,
)
    requires
        node is Filter,
        0 <= i < input.len(),
        filter_settled(node, before, input, i, out),
        grows(before, d),
        value_settled(node->Filter_expression, d, input[i], value),
        value_held(d.strings, value),
        keep == (effective_boolean(d.strings, value) == Some(true)),
    ensures
        filter_settled(node, d, input, i + 1, if keep {
            out.push(input[i])
        } else {
            out
        }),
{
    assert forall|later: Dataset| #[trigger] extends(d, later) implies filter_each(
        node,
        later,
        input.subrange(0, i + 1),
    ) == (if keep {
        out.push(input[i])
    } else {
        out
    }) by {
        lemma_extends_transitive(before, d, later);
        assert(filter_each(node, later, input.subrange(0, i)) == out);
        let next = input.subrange(0, i + 1);
        assert(next.drop_last() =~= input.subrange(0, i));
        assert(next.last() == input[i]);
        lemma_boolean_stable(d.strings, later.strings, value);
        assert(holds(node->Filter_expression, later, input[i]) == keep);
    }
}

/// Whether `out` holds the first `i` rows of `input` after `BIND`, over a
/// dataset and over every dataset that it grows into.
pub open spec fn extend_settled(node: PlanNode, d: Dataset, input: Seq<Row>, i: int, out: Seq<Row>) -> bool {
    forall|later: Dataset| #[trigger]
        extends(d, later) ==> extend_each(node, later, input.subrange(0, i)) == out
}

proof fn lemma_extend_step(
    node: PlanNode,
    before: Dataset,
    d: Dataset,
    input: Seq<Row>,
    i: int,
    out: Seq<Row>,
    value: Option<EncodedTerm>,
)
    requires
        node is Extend,
        0 <= i < input.len(),
        extend_settled(node, before, input, i, out),
        grows(before, d),
        value_settled(node->Extend_expression, d, input[i], value),
    ensures
        extend_settled(
            node,
            d,
            input,
            i + 1,
            match (match value {
                Some(found) => bind_slot(input[i], node->Extend_slot as int, found),
                None => Some(input[i]),
            }) {
                Some(row) => out.push(row),
                None => out,
            },
        ),
{
    let bound = match value {
        Some(found) => bind_slot(input[i], node->Extend_slot as int, found),
        None => Some(input[i]),
    };
    assert forall|later: Dataset| #[trigger] extends(d, later) implies extend_each(
        node,
        later,
        input.subrange(0, i + 1),
    ) == (match bound {
        Some(row) => out.push(row),
        None => out,
    }) by {
        lemma_extends_transitive(before, d, later);
        assert(extend_each(node, later, input.subrange(0, i)) == out);
        let next = input.subrange(0, i + 1);
        assert(next.drop_last() =~= input.subrange(0, i));
        assert(next.last() == input[i]);
        assert(extend_row(node, later, input[i]) == bound);
    }
}

proof fn lemma_chain_settled(node: PlanNode, d: Dataset, from: Row, inner: Seq<Row>, out: Seq<Row>)
    requires
        node is Project || node is Distinct || node is Reduced || node is Slice,
        rows_settled(
            match node {
                PlanNode::Project { child, .. } => *child,
                PlanNode::Distinct { child } => *child,
                PlanNode::Reduced { child } => *child,
                PlanNode::Slice { child, .. } => *child,
                _ => node,
            },
            d,
            match node {
                PlanNode::Project { slots, .. } => restrict(from, slots@),
                _ => from,
            },
            inner,
        ),
        out == match node {
            PlanNode::Project { slots, .. } => overlay_each(from, inner, slots@),
            PlanNode::Slice { start, length, .. } => crate::sparql::plan::slice_rows(
                inner,
                start,
                length,
            ),
            _ => crate::sparql::plan::distinct_rows(inner),
        },
    ensures
        rows_settled(node, d, from, out),
{
    assert forall|later: Dataset| #[trigger] extends(d, later) implies rows(
        node,
        later,
        from,
    ) == out by {}
}

/// Whether an expression is known on the first `i` of some rows: over
/// every dataset that `d` grows into it has on each the value that it has
/// over `d`, and is complete.
pub open spec fn known(expression: PlanExpression, d: Dataset, input: Seq<Row>, i: int) -> bool {
    forall|later: Dataset| #[trigger]
        extends(d, later) ==> known_over(expression, d, later, input, i)
}

/// Whether an expression has on each of the first `i` rows the same value
/// over `later` as over `d`, and is complete over `later`.
pub open spec fn known_over(
    expression: PlanExpression,
    d: Dataset,
    later: Dataset,
    input: Seq<Row>,
    i: int,
) -> bool {
    forall|k: int|
        0 <= k < i && k < input.len() ==> eval_expression(expression, later, #[trigger] input[k])
            == eval_expression(expression, d, input[k]) && expression_complete(
            expression,
            later,
            input[k],
        )
}

proof fn lemma_known_step(
    expression: PlanExpression,
    before: Dataset,
    d: Dataset,
    input: Seq<Row>,
    i: int,
    value: Option<EncodedTerm>,
)
    requires
        0 <= i < input.len(),
        known(expression, before, input, i),
        extends(before, d),
        value_settled(expression, d, input[i], value),
        complete_settled(expression, d, input[i]),
    ensures
        known(expression, d, input, i + 1),
{
    lemma_extends_itself(d);
    assert(known_over(expression, before, d, input, i));
    assert forall|later: Dataset| #[trigger] extends(d, later) implies known_over(
        expression,
        d,
        later,
        input,
        i + 1,
    ) by {
        lemma_extends_transitive(before, d, later);
        assert(known_over(expression, before, later, input, i));
    }
}

proof fn lemma_known_later(expression: PlanExpression, a: Dataset, b: Dataset, input: Seq<Row>, i: int)
    requires
        known(expression, a, input, i),
        extends(a, b),
    ensures
        known(expression, b, input, i),
{
    assert(known_over(expression, a, b, input, i));
    assert forall|later: Dataset| #[trigger] extends(b, later) implies known_over(
        expression,
        b,
        later,
        input,
        i,
    ) by {
        lemma_extends_transitive(a, b, later);
        assert(known_over(expression, a, later, input, i));
    }
}

/// Whether each of the first `n` keys of a `Sort` is known on some rows.
pub open spec fn keys_known(node: PlanNode, d: Dataset, input: Seq<Row>, n: int) -> bool {
    node matches PlanNode::Sort { by, .. } ==> forall|j: int|
        0 <= j < n && j < by.len() ==> known(
            (#[trigger] by[j]).expression,
            d,
            input,
            input.len() as int,
        )
}

/// Whether each key of a `Sort` has on a row the same held value over `a`
/// and over `b`.
pub open spec fn key_same(node: PlanNode, a: Dataset, b: Dataset, row: Row) -> bool {
    node matches PlanNode::Sort { by, .. } ==> forall|j: int|
        0 <= j < by.len() ==> eval_expression((#[trigger] by[j]).expression, b, row)
            == eval_expression(by[j].expression, a, row) && value_held(
            a.strings,
            eval_expression(by[j].expression, a, row),
        )
}

/// Whether each key of a `Sort` has on each row the same held value over
/// `a` and over `b`.
pub open spec fn keys_same(node: PlanNode, a: Dataset, b: Dataset, input: Seq<Row>) -> bool {
    forall|i: int| 0 <= i < input.len() ==> key_same(node, a, b, #[trigger] input[i])
}

proof fn lemma_row_precedes_same(node: PlanNode, a: Dataset, b: Dataset, x: Row, y: Row, j: int)
    requires
        node is Sort,
        grows(a, b),
        key_same(node, a, b, x),
        key_same(node, a, b, y),
        0 <= j,
    ensures
        crate::sparql::semantics::row_precedes(node, b, x, y, j)
            == crate::sparql::semantics::row_precedes(node, a, x, y, j),
    decreases node, 0int, node->Sort_by.len() - j,
{
    let by = node->Sort_by;
    if j < by.len() {
        let vx = eval_expression(by[j].expression, a, x);
        let vy = eval_expression(by[j].expression, a, y);
        assert(eval_expression(by[j].expression, b, x) == vx);
        assert(eval_expression(by[j].expression, b, y) == vy);
        crate::sparql::stable::lemma_precedes_stable(a.strings, b.strings, vx, vy);
        crate::sparql::stable::lemma_precedes_stable(a.strings, b.strings, vy, vx);
        lemma_row_precedes_same(node, a, b, x, y, j + 1);
    }
}

proof fn lemma_insert_sorted_same(node: PlanNode, a: Dataset, b: Dataset, sorted: Seq<Row>, row: Row)
    requires
        node is Sort,
        grows(a, b),
        keys_same(node, a, b, sorted),
        key_same(node, a, b, row),
    ensures
        crate::sparql::semantics::insert_sorted(node, b, sorted, row)
            == crate::sparql::semantics::insert_sorted(node, a, sorted, row),
        keys_same(node, a, b, crate::sparql::semantics::insert_sorted(node, a, sorted, row)),
    decreases node, 1int, sorted.len(),
{
    if sorted.len() == 0 {
        assert(seq![row][0] == row);
    } else {
        assert(key_same(node, a, b, sorted.last())) by {
            assert(sorted.last() == sorted[sorted.len() - 1]);
        }
        assert(keys_same(node, a, b, sorted.drop_last())) by {
            assert forall|i: int| 0 <= i < sorted.drop_last().len() implies key_same(
                node,
                a,
                b,
                #[trigger] sorted.drop_last()[i],
            ) by {
                assert(sorted.drop_last()[i] == sorted[i]);
            }
        }
        lemma_row_precedes_same(node, a, b, row, sorted.last(), 0);
        if crate::sparql::semantics::row_precedes(node, a, row, sorted.last(), 0) {
            lemma_insert_sorted_same(node, a, b, sorted.drop_last(), row);
            let rest = crate::sparql::semantics::insert_sorted(node, a, sorted.drop_last(), row);
            let out = rest.push(sorted.last());
            assert forall|i: int| 0 <= i < out.len() implies key_same(node, a, b, #[trigger] out[i]) by {
                if i < rest.len() {
                    assert(out[i] == rest[i]);
                }
            }
        } else {
            let out = sorted.push(row);
            assert forall|i: int| 0 <= i < out.len() implies key_same(node, a, b, #[trigger] out[i]) by {
                if i < sorted.len() {
                    assert(out[i] == sorted[i]);
                }
            }
        }
    }
}

proof fn lemma_sort_rows_same(node: PlanNode, a: Dataset, b: Dataset, input: Seq<Row>)
    requires
        node is Sort,
        grows(a, b),
        keys_same(node, a, b, input),
    ensures
        crate::sparql::semantics::sort_rows(node, b, input)
            == crate::sparql::semantics::sort_rows(node, a, input),
        keys_same(node, a, b, crate::sparql::semantics::sort_rows(node, a, input)),
    decreases node, 2int, input.len(),
{
    if input.len() > 0 {
        assert(key_same(node, a, b, input.last())) by {
            assert(input.last() == input[input.len() - 1]);
        }
        assert(keys_same(node, a, b, input.drop_last())) by {
            assert forall|i: int| 0 <= i < input.drop_last().len() implies key_same(
                node,
                a,
                b,
                #[trigger] input.drop_last()[i],
            ) by {
                assert(input.drop_last()[i] == input[i]);
            }
        }
        lemma_sort_rows_same(node, a, b, input.drop_last());
        lemma_insert_sorted_same(
            node,
            a,
            b,
            crate::sparql::semantics::sort_rows(node, a, input.drop_last()),
            input.last(),
        );
    }
}

proof fn lemma_sort_settled(node: PlanNode, d: Dataset, from: Row, inner: Seq<Row>, out: Seq<Row>)
    requires
        node is Sort,
        rows_settled(*node->Sort_child, d, from, inner),
        plan_complete_settled(*node->Sort_child, d, from),
        keys_known(node, d, inner, node->Sort_by.len() as int),
        plan_held(d.strings, node),
        dataset_held(d),
        rows_held(d.strings, inner),
        out == crate::sparql::semantics::sort_rows(node, d, inner),
    ensures
        rows_settled(node, d, from, out),
        plan_complete_settled(node, d, from),
{
    let by = node->Sort_by;
    assert forall|later: Dataset| #[trigger] extends(d, later) implies rows(
        node,
        later,
        from,
    ) == out && complete(node, later, from) by {
        assert(rows(*node->Sort_child, later, from) == inner);
        assert forall|i: int| 0 <= i < inner.len() implies key_same(
            node,
            d,
            later,
            #[trigger] inner[i],
        ) by {
            assert forall|j: int| 0 <= j < by.len() implies eval_expression(
                (#[trigger] by[j]).expression,
                later,
                inner[i],
            ) == eval_expression(by[j].expression, d, inner[i]) && value_held(
                d.strings,
                eval_expression(by[j].expression, d, inner[i]),
            ) by {
                assert(known_over(by[j].expression, d, later, inner, inner.len() as int));
                assert(row_held(d.strings, inner[i]));
                lemma_expression_held(by[j].expression, d, inner[i]);
            }
        }
        lemma_sort_rows_same(node, d, later, inner);
        assert forall|j: int| 0 <= j < by.len() implies each_complete(
            (#[trigger] by[j]).expression,
            later,
            inner,
        ) by {
            assert(known_over(by[j].expression, d, later, inner, inner.len() as int));
        }
    }
}

/// Whether the argument of each of the first `n` aggregates of a `Group`
/// is known on some rows.
pub open spec fn params_known(node: PlanNode, d: Dataset, input: Seq<Row>, n: int) -> bool {
    node matches PlanNode::Group { aggregates, .. } ==> forall|j: int|
        0 <= j < n && j < aggregates.len() ==> ((#[trigger] aggregates[j]).parameter matches Some(
            argument,
        ) ==> known(argument, d, input, input.len() as int))
}

proof fn lemma_params_known_later(node: PlanNode, a: Dataset, b: Dataset, input: Seq<Row>, n: int)
    requires
        node is Group,
        params_known(node, a, input, n),
        extends(a, b),
    ensures
        params_known(node, b, input, n),
{
    let aggregates = node->Group_aggregates;
    assert forall|j: int| 0 <= j < n && j < aggregates.len() implies ((
    #[trigger] aggregates[j]).parameter matches Some(argument) ==> known(
        argument,
        b,
        input,
        input.len() as int,
    )) by {
        if let Some(argument) = aggregates[j].parameter {
            lemma_known_later(argument, a, b, input, input.len() as int);
        }
    }
}

/// Arguments that are known on some held rows have there the same held
/// values over every dataset that the dataset grows into.
proof fn lemma_known_params_same(node: PlanNode, d: Dataset, later: Dataset, input: Seq<Row>)
    requires
        node is Group,
        params_known(node, d, input, node->Group_aggregates.len() as int),
        extends(d, later),
        plan_held(d.strings, node),
        rows_held(d.strings, input),
    ensures
        crate::sparql::stable::params_same(node, d, later, input),
{
    let aggregates = node->Group_aggregates;
    assert forall|i: int| 0 <= i < input.len() implies crate::sparql::stable::param_same(
        node,
        d,
        later,
        #[trigger] input[i],
    ) by {
        assert forall|j: int| 0 <= j < aggregates.len() implies ((
        #[trigger] aggregates[j]).parameter matches Some(argument) ==> eval_expression(
            argument,
            later,
            input[i],
        ) == eval_expression(argument, d, input[i]) && value_held(
            d.strings,
            eval_expression(argument, d, input[i]),
        )) by {
            if let Some(argument) = aggregates[j].parameter {
                assert(known_over(argument, d, later, input, input.len() as int));
                assert(row_held(d.strings, input[i]));
                lemma_expression_held(argument, d, input[i]);
            }
        }
    }
}

proof fn lemma_group_settled(node: PlanNode, d: Dataset, from: Row, inner: Seq<Row>, out: Seq<Row>)
    requires
        node is Group,
        rows_settled(*node->Group_child, d, restrict(from, node->Group_keys@), inner),
        params_known(node, d, inner, node->Group_aggregates.len() as int),
        plan_held(d.strings, node),
        dataset_held(d),
        rows_held(d.strings, inner),
        plan_complete_settled(*node->Group_child, d, restrict(from, node->Group_keys@)),
        group_present(
            node,
            d,
            inner,
            crate::sparql::plan::distinct_rows(
                crate::sparql::semantics::keys_of(inner, node->Group_keys@),
            ),
        ),
        out == crate::sparql::semantics::group_each(
            node,
            d,
            from,
            inner,
            crate::sparql::plan::distinct_rows(
                crate::sparql::semantics::keys_of(inner, node->Group_keys@),
            ),
        ),
    ensures
        rows_settled(node, d, from, out),
        plan_complete_settled(node, d, from),
{
    assert forall|later: Dataset| #[trigger] extends(d, later) implies rows(
        node,
        later,
        from,
    ) == out && complete(node, later, from) by {
        lemma_known_params_same(node, d, later, inner);
        assert forall|j: int| 0 <= j < node->Group_aggregates.len() implies ((
        #[trigger] node->Group_aggregates[j]).parameter matches Some(argument) ==> each_complete(
            argument,
            later,
            inner,
        )) by {
            if let Some(argument) = node->Group_aggregates[j].parameter {
                assert(known_over(argument, d, later, inner, inner.len() as int));
            }
        }
        crate::sparql::stable::lemma_group_present_later(
            node,
            d,
            later,
            inner,
            crate::sparql::plan::distinct_rows(
                crate::sparql::semantics::keys_of(inner, node->Group_keys@),
            ),
        );
        assert(rows(*node->Group_child, later, restrict(from, node->Group_keys@)) == inner);
        lemma_group_each_stable(
            node,
            d,
            later,
            from,
            inner,
            crate::sparql::plan::distinct_rows(
                crate::sparql::semantics::keys_of(inner, node->Group_keys@),
            ),
        );
    }
}

proof fn lemma_filter_settled(node: PlanNode, d: Dataset, from: Row, inner: Seq<Row>, out: Seq<Row>)
    requires
        node is Filter,
        rows_settled(*node->Filter_child, d, from, inner),
        filter_settled(node, d, inner, inner.len() as int, out),
    ensures
        rows_settled(node, d, from, out),
{
    assert(inner.subrange(0, inner.len() as int) =~= inner);
}

proof fn lemma_extend_settled(node: PlanNode, d: Dataset, from: Row, inner: Seq<Row>, out: Seq<Row>)
    requires
        node is Extend,
        rows_settled(*node->Extend_child, d, from, inner),
        extend_settled(node, d, inner, inner.len() as int, out),
    ensures
        rows_settled(node, d, from, out),
{
    assert(inner.subrange(0, inner.len() as int) =~= inner);
}

proof fn lemma_rows_settled_later(node: PlanNode, a: Dataset, b: Dataset, from: Row, out: Seq<Row>)
    requires
        rows_settled(node, a, from, out),
        grows(a, b),
    ensures
        rows_settled(node, b, from, out),
{
    assert forall|later: Dataset| #[trigger] extends(b, later) implies rows(node, later, from)
        == out by {
        lemma_extends_transitive(a, b, later);
    }
}

proof fn lemma_scan_settled(node: PlanNode, d: Dataset, from: Row, inner: Seq<Row>, out: Seq<Row>)
    requires
        node is QuadPatternJoin,
        rows_settled(*node->QuadPatternJoin_child, d, from, inner),
        plan_complete_settled(*node->QuadPatternJoin_child, d, from),
        out == crate::sparql::plan::scan_each(
            inner,
            crate::sparql::semantics::pattern_of(node),
            d.quads,
        ),
    ensures
        rows_settled(node, d, from, out),
        plan_complete_settled(node, d, from),
{
    assert forall|later: Dataset| #[trigger] extends(d, later) implies rows(
        node,
        later,
        from,
    ) == out && complete(node, later, from) by {
        assert(rows(*node->QuadPatternJoin_child, later, from) == inner);
    }
}

proof fn lemma_pair_settled(
    node: PlanNode,
    d: Dataset,
    from: Row,
    lefts: Seq<Row>,
    rights: Seq<Row>,
    out: Seq<Row>,
)
    requires
        node is Union || node is Minus,
        rows_settled(
            match node {
                PlanNode::Union { left, .. } => *left,
                PlanNode::Minus { left, .. } => *left,
                _ => node,
            },
            d,
            from,
            lefts,
        ),
        rows_settled(
            match node {
                PlanNode::Union { right, .. } => *right,
                PlanNode::Minus { right, .. } => *right,
                _ => node,
            },
            d,
            match node {
                PlanNode::Minus { .. } => unbound_row(from.len()),
                _ => from,
            },
            rights,
        ),
        plan_complete_settled(
            match node {
                PlanNode::Union { left, .. } => *left,
                PlanNode::Minus { left, .. } => *left,
                _ => node,
            },
            d,
            from,
        ),
        plan_complete_settled(
            match node {
                PlanNode::Union { right, .. } => *right,
                PlanNode::Minus { right, .. } => *right,
                _ => node,
            },
            d,
            match node {
                PlanNode::Minus { .. } => unbound_row(from.len()),
                _ => from,
            },
        ),
        out == match node {
            PlanNode::Union { .. } => lefts + rights,
            _ => crate::sparql::plan::minus_rows(lefts, rights),
        },
    ensures
        rows_settled(node, d, from, out),
        plan_complete_settled(node, d, from),
{
    assert forall|later: Dataset| #[trigger] extends(d, later) implies rows(
        node,
        later,
        from,
    ) == out && complete(node, later, from) by {
        match node {
            PlanNode::Union { left, right } => {
                assert(rows(*left, later, from) == lefts);
                assert(rows(*right, later, from) == rights);
            },
            PlanNode::Minus { left, right } => {
                assert(rows(*left, later, from) == lefts);
                assert(rows(*right, later, unbound_row(from.len())) == rights);
            },
            _ => {},
        }
    }
}

/// Whether `out` holds what the first `i` left rows of a join or of an
/// optional join yield, over a dataset and over every dataset that it
/// grows into, each of which is complete for the right side from each of
/// those rows.
pub open spec fn join_settled(node: PlanNode, d: Dataset, lefts: Seq<Row>, i: int, out: Seq<Row>) -> bool {
    forall|later: Dataset| #[trigger]
        extends(d, later) ==> joined_over(node, later, lefts.subrange(0, i), out)
}

/// Whether `out` holds what the left rows of a join or of an optional join
/// yield over a dataset that is complete for the right side from each of
/// them.
pub open spec fn joined_over(node: PlanNode, later: Dataset, lefts: Seq<Row>, out: Seq<Row>) -> bool {
    match node {
        PlanNode::Join { right, .. } => crate::sparql::semantics::join_each(node, later, lefts)
            == out && each_row_complete(*right, later, lefts),
        PlanNode::LeftJoin { right, .. } => crate::sparql::semantics::left_join_each(
            node,
            later,
            lefts,
        ) == out && each_row_complete(*right, later, lefts),
        _ => true,
    }
}

proof fn lemma_join_step(
    node: PlanNode,
    before: Dataset,
    d: Dataset,
    lefts: Seq<Row>,
    i: int,
    done: Seq<Row>,
    part: Seq<Row>,
    added: Seq<Row>,
)
    requires
        node is Join || node is LeftJoin,
        0 <= i < lefts.len(),
        join_settled(node, before, lefts, i, done),
        grows(before, d),
        dataset_held(d),
        plan_held(d.strings, node),
        rows_held(d.strings, part),
        rows_settled(
            match node {
                PlanNode::Join { right, .. } => *right,
                PlanNode::LeftJoin { right, .. } => *right,
                _ => node,
            },
            d,
            lefts[i],
            part,
        ),
        plan_complete_settled(
            match node {
                PlanNode::Join { right, .. } => *right,
                PlanNode::LeftJoin { right, .. } => *right,
                _ => node,
            },
            d,
            lefts[i],
        ),
        node is LeftJoin ==> crate::sparql::stable::condition_free(node),
        added == match node {
            PlanNode::Join { .. } => part,
            _ => if crate::sparql::semantics::optional_matches(node, d, part).len() > 0 {
                crate::sparql::semantics::optional_matches(node, d, part)
            } else {
                seq![lefts[i]]
            },
        },
    ensures
        join_settled(node, d, lefts, i + 1, done + added),
{
    let head = lefts.subrange(0, i);
    let more = lefts.subrange(0, i + 1);
    assert(more.drop_last() =~= head);
    assert(more.last() == lefts[i]);
    assert forall|later: Dataset| #[trigger] extends(d, later) implies joined_over(
        node,
        later,
        more,
        done + added,
    ) by {
        lemma_extends_transitive(before, d, later);
        assert(joined_over(node, later, head, done));
        match node {
            PlanNode::Join { right, .. } => {
                assert(rows(*right, later, lefts[i]) == part);
                assert forall|k: int| 0 <= k < more.len() implies complete(
                    *right,
                    later,
                    #[trigger] more[k],
                ) by {
                    if k < i {
                        assert(more[k] == head[k]);
                    }
                }
            },
            PlanNode::LeftJoin { right, .. } => {
                assert(rows(*right, later, lefts[i]) == part);
                crate::sparql::stable::lemma_optional_matches_stable(node, d, later, part);
                assert forall|k: int| 0 <= k < more.len() implies complete(
                    *right,
                    later,
                    #[trigger] more[k],
                ) by {
                    if k < i {
                        assert(more[k] == head[k]);
                    }
                }
            },
            _ => {},
        }
    }
}

proof fn lemma_join_later(node: PlanNode, a: Dataset, b: Dataset, lefts: Seq<Row>, i: int, out: Seq<Row>)
    requires
        join_settled(node, a, lefts, i, out),
        grows(a, b),
    ensures
        join_settled(node, b, lefts, i, out),
{
    assert forall|later: Dataset| #[trigger] extends(b, later) implies joined_over(
        node,
        later,
        lefts.subrange(0, i),
        out,
    ) by {
        lemma_extends_transitive(a, b, later);
    }
}

proof fn lemma_join_settled(node: PlanNode, d: Dataset, from: Row, lefts: Seq<Row>, out: Seq<Row>)
    requires
        node is Join || node is LeftJoin,
        rows_settled(
            match node {
                PlanNode::Join { left, .. } => *left,
                PlanNode::LeftJoin { left, .. } => *left,
                _ => node,
            },
            d,
            from,
            lefts,
        ),
        plan_complete_settled(
            match node {
                PlanNode::Join { left, .. } => *left,
                PlanNode::LeftJoin { left, .. } => *left,
                _ => node,
            },
            d,
            from,
        ),
        join_settled(node, d, lefts, lefts.len() as int, out),
    ensures
        rows_settled(node, d, from, out),
        plan_complete_settled(node, d, from),
{
    assert(lefts.subrange(0, lefts.len() as int) =~= lefts);
    assert forall|later: Dataset| #[trigger] extends(d, later) implies rows(node, later, from)
        == out && complete(node, later, from) by {
        assert(joined_over(node, later, lefts.subrange(0, lefts.len() as int), out));
        match node {
            PlanNode::Join { left, .. } => {
                assert(rows(*left, later, from) == lefts);
            },
            PlanNode::LeftJoin { left, .. } => {
                assert(rows(*left, later, from) == lefts);
            },
            _ => {},
        }
    }
}

proof fn lemma_core_settled(node: PlanNode, d: Dataset, from: Row)
    requires
        text_free(node),
        plan_held(d.strings, node),
        dataset_held(d),
        row_held(d.strings, from),
    ensures
        rows_settled(node, d, from, rows(node, d, from)),
{
    assert forall|later: Dataset| #[trigger] extends(d, later) implies rows(node, later, from)
        == rows(node, d, from) by {
        lemma_rows_stable(node, d, later, from);
    }
}

impl SimpleEvaluator {
    /// The rows of `input` on which the expression of a `Filter` holds.
    /// Texts that the expression builds are interned.
    #[verifier::loop_isolation(false)]
    fn filter_mut(&mut self, node: &PlanNode, input: &Vec<EncodedTuple>, Ghost(width): Ghost<nat>) -> (out:
        Vec<EncodedTuple>)
        requires
            *node is Filter,
            old(self)@.well_formed(),
            dataset_held(old(self)@),
            expression_placed(node->Filter_expression),
            expression_held(old(self)@.strings, node->Filter_expression),
            rows_held(old(self)@.strings, rows_view(input@)),
            all_width(input@, width),
        ensures
            final(self)@.well_formed(),
            grows(old(self)@, final(self)@),
            dataset_held(final(self)@),
            filter_settled(
                *node,
                final(self)@,
                rows_view(input@),
                input@.len() as int,
                rows_view(out@),
            ),
            each_settled(
                node->Filter_expression,
                final(self)@,
                rows_view(input@),
                input@.len() as int,
            ),
            all_width(out@, width),
        decreases *node, 0int,
    {
        let ghost d0 = self@;
        let ghost given = rows_view(input@);
        let mut out: Vec<EncodedTuple> = Vec::new();
        proof {
            lemma_grows_transitive(d0, d0, d0);
            assert(given.subrange(0, 0) =~= Seq::<Row>::empty());
            assert(rows_view(out@) =~= Seq::<Row>::empty());
        }
        match node {
            PlanNode::Filter { expression, .. } => {
                let mut i: usize = 0;
                while i < input.len()
                    invariant
                        i <= input@.len(),
                        self@.well_formed(),
                        grows(d0, self@),
                        dataset_held(self@),
                        all_width(out@, width),
                        filter_settled(*node, self@, given, i as int, rows_view(out@)),
                        each_settled(*expression, self@, given, i as int),
                    decreases input@.len() - i,
                {
                    let ghost before = self@;
                    let ghost done = rows_view(out@);
                    proof {
                        lemma_expression_held_later(d0.strings, before.strings, *expression);
                        assert(row_held(d0.strings, given[i as int]));
                        lemma_row_held_later(d0.strings, before.strings, given[i as int]);
                    }
                    let value = self.eval_expression_mut(expression, &input[i]);
                    let keep = match self.effective_boolean_value(value) {
                        Some(true) => true,
                        _ => false,
                    };
                    proof {
                        lemma_filter_step(*node, before, self@, given, i as int, done, value, keep);
                        lemma_each_step(*expression, before, self@, given, i as int);
                        lemma_grows_transitive(d0, before, self@);
                    }
                    if keep {
                        push_row(&mut out, copy_row(&input[i]));
                    }
                    i = i + 1;
                }
            },
            _ => {},
        }
        out
    }

    /// Each row of `input` after `BIND`, without those that it drops. Texts
    /// that the expression builds are interned.
    #[verifier::loop_isolation(false)]
    fn extend_mut(&mut self, node: &PlanNode, input: &Vec<EncodedTuple>, Ghost(width): Ghost<nat>) -> (out:
        Vec<EncodedTuple>)
        requires
            *node is Extend,
            old(self)@.well_formed(),
            dataset_held(old(self)@),
            expression_placed(node->Extend_expression),
            expression_held(old(self)@.strings, node->Extend_expression),
            rows_held(old(self)@.strings, rows_view(input@)),
            all_width(input@, width),
        ensures
            final(self)@.well_formed(),
            grows(old(self)@, final(self)@),
            dataset_held(final(self)@),
            extend_settled(
                *node,
                final(self)@,
                rows_view(input@),
                input@.len() as int,
                rows_view(out@),
            ),
            each_settled(
                node->Extend_expression,
                final(self)@,
                rows_view(input@),
                input@.len() as int,
            ),
            all_width(out@, width),
        decreases *node, 0int,
    {
        let ghost d0 = self@;
        let ghost given = rows_view(input@);
        let mut out: Vec<EncodedTuple> = Vec::new();
        proof {
            lemma_grows_transitive(d0, d0, d0);
            assert(given.subrange(0, 0) =~= Seq::<Row>::empty());
            assert(rows_view(out@) =~= Seq::<Row>::empty());
        }
        match node {
            PlanNode::Extend { slot, expression, .. } => {
                let mut i: usize = 0;
                while i < input.len()
                    invariant
                        i <= input@.len(),
                        self@.well_formed(),
                        grows(d0, self@),
                        dataset_held(self@),
                        all_width(out@, width),
                        extend_settled(*node, self@, given, i as int, rows_view(out@)),
                        each_settled(*expression, self@, given, i as int),
                    decreases input@.len() - i,
                {
                    let ghost before = self@;
                    let ghost done = rows_view(out@);
                    proof {
                        lemma_expression_held_later(d0.strings, before.strings, *expression);
                        assert(row_held(d0.strings, given[i as int]));
                        lemma_row_held_later(d0.strings, before.strings, given[i as int]);
                    }
                    let value = self.eval_expression_mut(expression, &input[i]);
                    proof {
                        lemma_extend_step(*node, before, self@, given, i as int, done, value);
                        lemma_each_step(*expression, before, self@, given, i as int);
                        lemma_grows_transitive(d0, before, self@);
                    }
                    let bound = match value {
                        Some(found) => bind_slot_in(&input[i], *slot, found),
                        None => Some(copy_row(&input[i])),
                    };
                    match bound {
                        Some(row) => {
                            assert(row@.len() == width) by {
                                assert(input@[i as int]@.len() == width);
                                if value is Some {
                                    crate::sparql::laws::lemma_bind_slot_extends(
                                        given[i as int],
                                        *slot as int,
                                        value->0,
                                    );
                                }
                            }
                            push_row(&mut out, row);
                        },
                        None => {},
                    }
                    i = i + 1;
                }
            },
            _ => {},
        }
        out
    }

    /// Interns the texts that an expression builds on each row of `input`.
    #[verifier::loop_isolation(false)]
    fn settle(&mut self, expression: &PlanExpression, input: &Vec<EncodedTuple>)
        requires
            old(self)@.well_formed(),
            dataset_held(old(self)@),
            expression_placed(*expression),
            expression_held(old(self)@.strings, *expression),
            rows_held(old(self)@.strings, rows_view(input@)),
        ensures
            final(self)@.well_formed(),
            grows(old(self)@, final(self)@),
            dataset_held(final(self)@),
            known(*expression, final(self)@, rows_view(input@), input@.len() as int),
        decreases *expression, 1int,
    {
        let ghost d0 = self@;
        let ghost given = rows_view(input@);
        proof {
            lemma_grows_transitive(d0, d0, d0);
        }
        let mut i: usize = 0;
        while i < input.len()
            invariant
                i <= input@.len(),
                self@.well_formed(),
                grows(d0, self@),
                dataset_held(self@),
                known(*expression, self@, given, i as int),
            decreases input@.len() - i,
        {
            let ghost before = self@;
            proof {
                lemma_expression_held_later(d0.strings, before.strings, *expression);
                assert(row_held(d0.strings, given[i as int]));
                lemma_row_held_later(d0.strings, before.strings, given[i as int]);
            }
            let value = self.eval_expression_mut(expression, &input[i]);
            proof {
                lemma_known_step(*expression, before, self@, given, i as int, value);
                lemma_grows_transitive(d0, before, self@);
            }
            i = i + 1;
        }
    }

    /// Interns the texts that the keys of a `Sort` build on each row of
    /// `input`.
    #[verifier::loop_isolation(false)]
    fn settle_keys(&mut self, node: &PlanNode, input: &Vec<EncodedTuple>)
        requires
            *node is Sort,
            old(self)@.well_formed(),
            dataset_held(old(self)@),
            placed(*node),
            plan_held(old(self)@.strings, *node),
            rows_held(old(self)@.strings, rows_view(input@)),
        ensures
            final(self)@.well_formed(),
            grows(old(self)@, final(self)@),
            dataset_held(final(self)@),
            keys_known(*node, final(self)@, rows_view(input@), node->Sort_by@.len() as int),
        decreases *node, 0int,
    {
        let ghost d0 = self@;
        let ghost given = rows_view(input@);
        proof {
            lemma_grows_transitive(d0, d0, d0);
        }
        match node {
            PlanNode::Sort { by, .. } => {
                let mut j: usize = 0;
                while j < by.len()
                    invariant
                        j <= by@.len(),
                        self@.well_formed(),
                        grows(d0, self@),
                        dataset_held(self@),
                        keys_known(*node, self@, given, j as int),
                    decreases by@.len() - j,
                {
                    let ghost before = self@;
                    proof {
                        lemma_plan_held_later(d0.strings, before.strings, *node);
                        lemma_rows_held_later(d0.strings, before.strings, given);
                    }
                    self.settle(&by[j].expression, input);
                    proof {
                        assert forall|k: int| 0 <= k < j implies known(
                            (#[trigger] by@[k]).expression,
                            self@,
                            given,
                            given.len() as int,
                        ) by {
                            lemma_known_later(
                                by@[k].expression,
                                before,
                                self@,
                                given,
                                given.len() as int,
                            );
                        }
                        lemma_grows_transitive(d0, before, self@);
                    }
                    j = j + 1;
                }
            },
            _ => {},
        }
    }

    /// Interns the texts that the arguments of the aggregates of a `Group`
    /// build on each row of `input`.
    #[verifier::loop_isolation(false)]
    fn settle_params(&mut self, node: &PlanNode, input: &Vec<EncodedTuple>)
        requires
            *node is Group,
            old(self)@.well_formed(),
            dataset_held(old(self)@),
            placed(*node),
            plan_held(old(self)@.strings, *node),
            rows_held(old(self)@.strings, rows_view(input@)),
        ensures
            final(self)@.well_formed(),
            grows(old(self)@, final(self)@),
            dataset_held(final(self)@),
            params_known(
                *node,
                final(self)@,
                rows_view(input@),
                node->Group_aggregates@.len() as int,
            ),
        decreases *node, 0int,
    {
        let ghost d0 = self@;
        let ghost given = rows_view(input@);
        proof {
            lemma_grows_transitive(d0, d0, d0);
        }
        match node {
            PlanNode::Group { aggregates, .. } => {
                let mut j: usize = 0;
                while j < aggregates.len()
                    invariant
                        j <= aggregates@.len(),
                        self@.well_formed(),
                        grows(d0, self@),
                        dataset_held(self@),
                        params_known(*node, self@, given, j as int),
                    decreases aggregates@.len() - j,
                {
                    let ghost before = self@;
                    proof {
                        lemma_plan_held_later(d0.strings, before.strings, *node);
                        lemma_rows_held_later(d0.strings, before.strings, given);
                    }
                    match &aggregates[j].parameter {
                        Some(argument) => {
                            self.settle(argument, input);
                        },
                        None => {},
                    }
                    proof {
                        lemma_params_known_later(*node, before, self@, given, j as int);
                        lemma_grows_transitive(d0, before, self@);
                    }
                    j = j + 1;
                }
            },
            _ => {},
        }
    }

    /// Interns the text that each `GROUP_CONCAT` of a `Group` joins for
    /// each group of `input`.
    #[verifier::loop_isolation(false)]
    fn intern_joined(&mut self, node: &PlanNode, input: &Vec<EncodedTuple>)
        requires
            *node is Group,
            old(self)@.well_formed(),
            dataset_held(old(self)@),
            plan_held(old(self)@.strings, *node),
            rows_held(old(self)@.strings, rows_view(input@)),
            params_known(
                *node,
                old(self)@,
                rows_view(input@),
                node->Group_aggregates@.len() as int,
            ),
        ensures
            final(self)@.well_formed(),
            grows(old(self)@, final(self)@),
            dataset_held(final(self)@),
            params_known(
                *node,
                final(self)@,
                rows_view(input@),
                node->Group_aggregates@.len() as int,
            ),
            group_present(
                *node,
                final(self)@,
                rows_view(input@),
                crate::sparql::plan::distinct_rows(
                    crate::sparql::semantics::keys_of(rows_view(input@), node->Group_keys@),
                ),
            ),
    {
        let ghost d0 = self@;
        let ghost given = rows_view(input@);
        proof {
            lemma_grows_transitive(d0, d0, d0);
        }
        match node {
            PlanNode::Group { keys, aggregates, .. } => {
                let all_keys = crate::sparql::aggregate::key_rows(input, keys);
                let group_keys = distinct(&all_keys);
                let ghost wanted = rows_view(group_keys@);
                let mut g: usize = 0;
                while g < group_keys.len()
                    invariant
                        g <= group_keys@.len(),
                        self@.well_formed(),
                        grows(d0, self@),
                        dataset_held(self@),
                        params_known(*node, self@, given, aggregates@.len() as int),
                        group_present(*node, self@, given, wanted.subrange(0, g as int)),
                    decreases group_keys@.len() - g,
                {
                    let members = crate::sparql::aggregate::members_in(input, keys, &group_keys[g]);
                    let ghost part = rows_view(members@);
                    let ghost start = self@;
                    proof {
                        crate::sparql::stable::lemma_rows_held_later(
                            d0.strings,
                            self@.strings,
                            given,
                        );
                    }
                    let mut j: usize = 0;
                    while j < aggregates.len()
                        invariant
                            j <= aggregates@.len(),
                            self@.well_formed(),
                            grows(d0, self@),
                            grows(start, self@),
                            dataset_held(self@),
                            params_known(*node, self@, given, aggregates@.len() as int),
                            group_present(*node, self@, given, wanted.subrange(0, g as int)),
                            joins_present(*node, self@, part, j as int),
                        decreases aggregates@.len() - j,
                    {
                        let ghost before = self@;
                        proof {
                            lemma_plan_held_later(d0.strings, before.strings, *node);
                            crate::sparql::stable::lemma_rows_held_later(
                                d0.strings,
                                before.strings,
                                given,
                            );
                        }
                        match aggregates[j].function {
                            PlanAggregationFunction::GroupConcat => {
                                let values = self.aggregate_values_in(node, &members, j);
                                let all = crate::sparql::aggregate::present_in(&values);
                                let terms = if aggregates[j].distinct {
                                    crate::sparql::aggregate::distinct_terms_in(&all)
                                } else {
                                    all
                                };
                                match crate::sparql::texts::joined_in(
                                    self.dataset(),
                                    aggregates[j].separator.as_str(),
                                    &terms,
                                ) {
                                    Some(text) => {
                                        let _ = self.intern_text(text.as_str());
                                        proof {
                                            lemma_intern(before.strings, text@);
                                            lemma_position_is_id(self@.strings, text@);
                                        }
                                    },
                                    None => {},
                                }
                                proof {
                                    lemma_dataset_held_later(before, self@);
                                    lemma_known_params_same(*node, before, self@, given);
                                    crate::sparql::stable::lemma_members_same(
                                        *node,
                                        before,
                                        self@,
                                        given,
                                        keys@,
                                        group_keys@[g as int]@,
                                    );
                                    crate::sparql::stable::lemma_joined_kept(
                                        *node,
                                        before,
                                        self@,
                                        part,
                                        j as int,
                                    );
                                }
                            },
                            PlanAggregationFunction::Avg => {
                                let values = self.aggregate_values_in(node, &members, j);
                                let all = crate::sparql::aggregate::present_in(&values);
                                let terms = if aggregates[j].distinct {
                                    crate::sparql::aggregate::distinct_terms_in(&all)
                                } else {
                                    all
                                };
                                if crate::sparql::aggregate::count_integers(&terms) > 0 {
                                    let _ = self.intern_text(
                                        "http://www.w3.org/2001/XMLSchema#decimal",
                                    );
                                    let ghost mid = self@;
                                    proof {
                                        lemma_intern(before.strings, xsd_decimal());
                                        lemma_position_is_id(mid.strings, xsd_decimal());
                                    }
                                    match crate::sparql::aggregate::mean_text_in(&terms) {
                                        Some(text) => {
                                            let _ = self.intern_text(text.as_str());
                                            proof {
                                                lemma_intern(mid.strings, text@);
                                                lemma_position_is_id(self@.strings, text@);
                                                lemma_position_in_larger_store(
                                                    mid.strings,
                                                    self@.strings,
                                                    xsd_decimal(),
                                                );
                                            }
                                        },
                                        None => {},
                                    }
                                    proof {
                                        crate::sparql::dataset::lemma_prefix_transitive(
                                            before.strings,
                                            mid.strings,
                                            self@.strings,
                                        );
                                    }
                                }
                                proof {
                                    lemma_dataset_held_later(before, self@);
                                    lemma_known_params_same(*node, before, self@, given);
                                    crate::sparql::stable::lemma_members_same(
                                        *node,
                                        before,
                                        self@,
                                        given,
                                        keys@,
                                        group_keys@[g as int]@,
                                    );
                                    crate::sparql::stable::lemma_joined_kept(
                                        *node,
                                        before,
                                        self@,
                                        part,
                                        j as int,
                                    );
                                }
                            },
                            _ => {},
                        }
                        proof {
                            lemma_known_params_same(*node, before, self@, given);
                            crate::sparql::stable::lemma_members_same(
                                *node,
                                before,
                                self@,
                                given,
                                keys@,
                                group_keys@[g as int]@,
                            );
                            lemma_params_known_later(
                                *node,
                                before,
                                self@,
                                given,
                                aggregates@.len() as int,
                            );
                            crate::sparql::stable::lemma_group_present_later(
                                *node,
                                before,
                                self@,
                                given,
                                wanted.subrange(0, g as int),
                            );
                            crate::sparql::stable::lemma_joins_present_later(
                                *node,
                                before,
                                self@,
                                part,
                                j as int,
                            );
                            lemma_grows_transitive(d0, before, self@);
                            lemma_grows_transitive(start, before, self@);
                        }
                        j = j + 1;
                    }
                    proof {
                        let next = wanted.subrange(0, g + 1);
                        let head = wanted.subrange(0, g as int);
                        assert forall|k: int| 0 <= k < next.len() implies joins_present(
                            *node,
                            self@,
                            crate::sparql::semantics::members_of(given, keys@, #[trigger] next[k]),
                            aggregates@.len() as int,
                        ) by {
                            if k < g {
                                assert(next[k] == head[k]);
                            }
                        }
                    }
                    g = g + 1;
                }
                assert(wanted.subrange(0, g as int) =~= wanted);
            },
            _ => {},
        }
    }

    /// What the left rows of a join or of an optional join yield with the
    /// right side. Texts that the right side builds are interned.
    #[verifier::loop_isolation(false)]
    fn join_mut(&mut self, node: &PlanNode, lefts: &Vec<EncodedTuple>, Ghost(width): Ghost<nat>) -> (out:
        Vec<EncodedTuple>)
        requires
            *node is Join || *node is LeftJoin,
            old(self)@.well_formed(),
            dataset_held(old(self)@),
            placed(*node),
            plan_held(old(self)@.strings, *node),
            rows_held(old(self)@.strings, rows_view(lefts@)),
            all_width(lefts@, width),
        ensures
            final(self)@.well_formed(),
            grows(old(self)@, final(self)@),
            dataset_held(final(self)@),
            all_width(out@, width),
            join_settled(
                *node,
                final(self)@,
                rows_view(lefts@),
                lefts@.len() as int,
                rows_view(out@),
            ),
        decreases *node, 0int,
    {
        let ghost d0 = self@;
        let ghost given = rows_view(lefts@);
        let mut out: Vec<EncodedTuple> = Vec::new();
        proof {
            lemma_grows_transitive(d0, d0, d0);
            assert(given.subrange(0, 0) =~= Seq::<Row>::empty());
            assert(rows_view(out@) =~= Seq::<Row>::empty());
        }
        let mut i: usize = 0;
        while i < lefts.len()
            invariant
                i <= lefts@.len(),
                self@.well_formed(),
                grows(d0, self@),
                dataset_held(self@),
                all_width(out@, width),
                join_settled(*node, self@, given, i as int, rows_view(out@)),
            decreases lefts@.len() - i,
        {
            let ghost before = self@;
            let ghost done = rows_view(out@);
            proof {
                lemma_plan_held_later(d0.strings, before.strings, *node);
                assert(row_held(d0.strings, given[i as int]));
                lemma_row_held_later(d0.strings, before.strings, given[i as int]);
                assert(lefts@[i as int]@.len() == width);
            }
            match node {
                PlanNode::Join { right, .. } => {
                    let part = self.finish(right, &lefts[i]);
                    proof {
                        lemma_plan_held_later(d0.strings, self@.strings, *node);
                        lemma_join_step(
                            *node,
                            before,
                            self@,
                            given,
                            i as int,
                            done,
                            rows_view(part@),
                            rows_view(part@),
                        );
                        lemma_grows_transitive(d0, before, self@);
                    }
                    append_rows(&mut out, part);
                },
                PlanNode::LeftJoin { right, .. } => {
                    let part = self.finish(right, &lefts[i]);
                    let matched = self.optional(node, &part, Ghost(width));
                    proof {
                        lemma_plan_held_later(d0.strings, self@.strings, *node);
                        assert(rows_view(matched@).len() == matched@.len());
                        lemma_join_step(
                            *node,
                            before,
                            self@,
                            given,
                            i as int,
                            done,
                            rows_view(part@),
                            if matched@.len() > 0 {
                                rows_view(matched@)
                            } else {
                                seq![given[i as int]]
                            },
                        );
                        lemma_grows_transitive(d0, before, self@);
                    }
                    if matched.len() > 0 {
                        append_rows(&mut out, matched);
                    } else {
                        push_row(&mut out, copy_row(&lefts[i]));
                        assert(rows_view(out@) =~= done + seq![given[i as int]]);
                    }
                },
                _ => {},
            }
            i = i + 1;
        }
        out
    }

    /// The rows that a plan yields from a row, for a plan whose functions
    /// that build texts stand where `placed` says. Each text that they
    /// build is interned, so that the store grows; the rows are those of
    /// the plan over the store as the call leaves it, and over every store
    /// that it later grows into, and each of those stores holds every text
    /// that the plan builds.
    pub fn finish(&mut self, node: &PlanNode, from: &EncodedTuple) -> (out: Vec<EncodedTuple>)
        requires
            old(self)@.well_formed(),
            dataset_held(old(self)@),
            placed(*node),
            plan_held(old(self)@.strings, *node),
            row_held(old(self)@.strings, from@),
        ensures
            final(self)@.well_formed(),
            grows(old(self)@, final(self)@),
            dataset_held(final(self)@),
            all_width(out@, from@.len()),
            rows_settled(*node, final(self)@, from@, rows_view(out@)),
            plan_complete_settled(*node, final(self)@, from@),
            rows_held(final(self)@.strings, rows_view(out@)),
        decreases *node, 1int,
    {
        let ghost d0 = self@;
        let ghost width = from@.len();
        proof {
            lemma_grows_transitive(d0, d0, d0);
        }
        let out = match node {
            PlanNode::Project { child, slots } => {
                let start = restrict_row(from, slots);
                proof {
                    crate::sparql::stable::lemma_restrict_held(d0.strings, from@, slots@);
                }
                let inner = self.finish(child, &start);
                let out = overlay_all(from, &inner, slots);
                proof {
                    lemma_chain_settled(*node, self@, from@, rows_view(inner@), rows_view(out@));
                }
                out
            },
            PlanNode::Distinct { child } => {
                let inner = self.finish(child, from);
                let out = distinct(&inner);
                proof {
                    lemma_chain_settled(*node, self@, from@, rows_view(inner@), rows_view(out@));
                }
                out
            },
            PlanNode::Reduced { child } => {
                let inner = self.finish(child, from);
                let out = distinct(&inner);
                proof {
                    lemma_chain_settled(*node, self@, from@, rows_view(inner@), rows_view(out@));
                }
                out
            },
            PlanNode::Slice { child, start, length } => {
                let inner = self.finish(child, from);
                let out = slice(&inner, *start, *length);
                proof {
                    lemma_chain_settled(*node, self@, from@, rows_view(inner@), rows_view(out@));
                }
                out
            },
            PlanNode::Sort { child, .. } => {
                let inner = self.finish(child, from);
                let ghost d1 = self@;
                proof {
                    lemma_plan_held_later(d0.strings, d1.strings, *node);
                }
                self.settle_keys(node, &inner);
                let out = self.sort(node, &inner, Ghost(width));
                proof {
                    lemma_plan_held_later(d0.strings, self@.strings, *node);
                    lemma_rows_settled_later(**child, d1, self@, from@, rows_view(inner@));
                    lemma_plan_complete_later(**child, d1, self@, from@);
                    lemma_rows_held_later(d1.strings, self@.strings, rows_view(inner@));
                    lemma_sort_settled(*node, self@, from@, rows_view(inner@), rows_view(out@));
                    lemma_grows_transitive(d0, d1, self@);
                }
                out
            },
            PlanNode::Group { child, keys, .. } => {
                let start = restrict_row(from, keys);
                proof {
                    crate::sparql::stable::lemma_restrict_held(d0.strings, from@, keys@);
                }
                let inner = self.finish(child, &start);
                let ghost d1 = self@;
                proof {
                    lemma_plan_held_later(d0.strings, d1.strings, *node);
                }
                self.settle_params(node, &inner);
                proof {
                    lemma_plan_held_later(d0.strings, self@.strings, *node);
                    lemma_rows_held_later(d1.strings, self@.strings, rows_view(inner@));
                }
                self.intern_joined(node, &inner);
                let out = self.group(node, from, &inner);
                proof {
                    lemma_plan_held_later(d0.strings, self@.strings, *node);
                    lemma_rows_settled_later(**child, d1, self@, start@, rows_view(inner@));
                    lemma_plan_complete_later(**child, d1, self@, start@);
                    crate::sparql::stable::lemma_rows_held_later(
                        d1.strings,
                        self@.strings,
                        rows_view(inner@),
                    );
                    lemma_group_settled(*node, self@, from@, rows_view(inner@), rows_view(out@));
                    lemma_grows_transitive(d0, d1, self@);
                }
                out
            },
            PlanNode::Filter { child, expression } => {
                let inner = self.finish(child, from);
                let ghost d1 = self@;
                proof {
                    lemma_expression_held_later(d0.strings, d1.strings, *expression);
                }
                let out = self.filter_mut(node, &inner, Ghost(width));
                proof {
                    lemma_rows_settled_later(**child, d1, self@, from@, rows_view(inner@));
                    lemma_plan_complete_later(**child, d1, self@, from@);
                    lemma_filter_settled(*node, self@, from@, rows_view(inner@), rows_view(out@));
                    lemma_head_complete(*node, self@, from@, rows_view(inner@));
                    lemma_grows_transitive(d0, d1, self@);
                }
                out
            },
            PlanNode::Extend { child, expression, .. } => {
                let inner = self.finish(child, from);
                let ghost d1 = self@;
                proof {
                    lemma_expression_held_later(d0.strings, d1.strings, *expression);
                }
                let out = self.extend_mut(node, &inner, Ghost(width));
                proof {
                    lemma_rows_settled_later(**child, d1, self@, from@, rows_view(inner@));
                    lemma_plan_complete_later(**child, d1, self@, from@);
                    lemma_extend_settled(*node, self@, from@, rows_view(inner@), rows_view(out@));
                    lemma_head_complete(*node, self@, from@, rows_view(inner@));
                    lemma_grows_transitive(d0, d1, self@);
                }
                out
            },
            PlanNode::QuadPatternJoin { child, subject, predicate, object, graph_name } => {
                let inner = self.finish(child, from);
                let out = self.scan(&inner, *subject, *predicate, *object, *graph_name, Ghost(width));
                proof {
                    lemma_scan_settled(*node, self@, from@, rows_view(inner@), rows_view(out@));
                }
                out
            },
            PlanNode::Join { left, .. } => {
                let inner = self.finish(left, from);
                let ghost d1 = self@;
                proof {
                    lemma_plan_held_later(d0.strings, d1.strings, *node);
                }
                let out = self.join_mut(node, &inner, Ghost(width));
                proof {
                    lemma_rows_settled_later(**left, d1, self@, from@, rows_view(inner@));
                    lemma_plan_complete_later(**left, d1, self@, from@);
                    lemma_join_settled(*node, self@, from@, rows_view(inner@), rows_view(out@));
                    lemma_grows_transitive(d0, d1, self@);
                }
                out
            },
            PlanNode::LeftJoin { left, .. } => {
                let inner = self.finish(left, from);
                let ghost d1 = self@;
                proof {
                    lemma_plan_held_later(d0.strings, d1.strings, *node);
                }
                let out = self.join_mut(node, &inner, Ghost(width));
                proof {
                    lemma_rows_settled_later(**left, d1, self@, from@, rows_view(inner@));
                    lemma_plan_complete_later(**left, d1, self@, from@);
                    lemma_join_settled(*node, self@, from@, rows_view(inner@), rows_view(out@));
                    lemma_grows_transitive(d0, d1, self@);
                }
                out
            },
            PlanNode::Union { left, right } => {
                let mut out = self.finish(left, from);
                let ghost lefts = rows_view(out@);
                let ghost d1 = self@;
                proof {
                    lemma_plan_held_later(d0.strings, d1.strings, *node);
                    lemma_row_held_later(d0.strings, d1.strings, from@);
                }
                let more = self.finish(right, from);
                let ghost rights = rows_view(more@);
                append_rows(&mut out, more);
                proof {
                    lemma_rows_settled_later(**left, d1, self@, from@, lefts);
                    lemma_plan_complete_later(**left, d1, self@, from@);
                    lemma_pair_settled(*node, self@, from@, lefts, rights, rows_view(out@));
                    lemma_grows_transitive(d0, d1, self@);
                }
                out
            },
            PlanNode::Minus { left, right } => {
                let lefts = self.finish(left, from);
                let ghost d1 = self@;
                proof {
                    lemma_plan_held_later(d0.strings, d1.strings, *node);
                }
                let start = new_row(from.len());
                let rights = self.finish(right, &start);
                let out = crate::sparql::evaluator::minus(&lefts, &rights);
                proof {
                    lemma_rows_settled_later(**left, d1, self@, from@, rows_view(lefts@));
                    lemma_plan_complete_later(**left, d1, self@, from@);
                    lemma_pair_settled(
                        *node,
                        self@,
                        from@,
                        rows_view(lefts@),
                        rows_view(rights@),
                        rows_view(out@),
                    );
                    lemma_grows_transitive(d0, d1, self@);
                }
                out
            },
            _ => {
                let out = self.eval_plan(node, from);
                proof {
                    lemma_core_settled(*node, self@, from@);
                    lemma_text_free_settled(*node, self@, from@);
                }
                out
            },
        };
        proof {
            lemma_plan_held_later(d0.strings, self@.strings, *node);
            lemma_row_held_later(d0.strings, self@.strings, from@);
            lemma_extends_itself(self@);
            assert(rows(*node, self@, from@) == rows_view(out@));
            lemma_rows_held(*node, self@, from@);
        }
        out
    }
}

/// A plan that builds no text is complete over every dataset that a
/// dataset grows into.
proof fn lemma_text_free_settled(node: PlanNode, d: Dataset, from: Row)
    requires
        text_free(node),
    ensures
        plan_complete_settled(node, d, from),
{
    assert forall|later: Dataset| #[trigger] extends(d, later) implies complete(
        node,
        later,
        from,
    ) by {
        lemma_text_free_complete(node, later, from);
    }
}

/// Whether no function of an expression builds a text.
#[verifier::loop_isolation(false)]
pub fn is_text_free_expression(expression: &PlanExpression) -> (free: bool)
    ensures
        free == text_free_expression(*expression),
    decreases *expression,
{
    match expression {
        PlanExpression::Constant(_) => true,
        PlanExpression::Variable(_) => true,
        PlanExpression::Bound(_) => true,
        PlanExpression::Unary(_, a) => is_text_free_expression(a),
        PlanExpression::Binary(_, a, b) => is_text_free_expression(a) && is_text_free_expression(
            b,
        ),
        PlanExpression::If(condition, a, b) => is_text_free_expression(condition)
            && is_text_free_expression(a) && is_text_free_expression(b),
        PlanExpression::Coalesce(arguments) => {
            let mut i: usize = 0;
            while i < arguments.len()
                invariant
                    i <= arguments@.len(),
                    forall|k: int| 0 <= k < i ==> text_free_expression(#[trigger] arguments@[k]),
                decreases arguments@.len() - i,
            {
                if !is_text_free_expression(&arguments[i]) {
                    return false;
                }
                i = i + 1;
            }
            true
        },
        PlanExpression::Exists(pattern) => is_text_free(pattern),
        PlanExpression::Call(_, _) => false,
    }
}

/// Whether no function and no aggregate of a plan builds a text.
#[verifier::loop_isolation(false)]
pub fn is_text_free(node: &PlanNode) -> (free: bool)
    ensures
        free == text_free(*node),
    decreases *node,
{
    match node {
        PlanNode::Init => true,
        PlanNode::StaticBindings { .. } => true,
        PlanNode::Service { .. } => true,
        PlanNode::QuadPatternJoin { child, .. } => is_text_free(child),
        PlanNode::Join { left, right } => is_text_free(left) && is_text_free(right),
        PlanNode::LeftJoin { left, right, expression } => is_text_free(left) && is_text_free(
            right,
        ) && match expression {
            Some(condition) => is_text_free_expression(condition),
            None => true,
        },
        PlanNode::Union { left, right } => is_text_free(left) && is_text_free(right),
        PlanNode::Minus { left, right } => is_text_free(left) && is_text_free(right),
        PlanNode::Filter { child, expression } => is_text_free(child) && is_text_free_expression(
            expression,
        ),
        PlanNode::Extend { child, expression, .. } => is_text_free(child)
            && is_text_free_expression(expression),
        PlanNode::Project { child, .. } => is_text_free(child),
        PlanNode::Group { child, aggregates, .. } => {
            if !is_text_free(child) {
                return false;
            }
            let mut j: usize = 0;
            while j < aggregates.len()
                invariant
                    j <= aggregates@.len(),
                    forall|k: int|
                        0 <= k < j ==> ((#[trigger] aggregates@[k]).parameter matches Some(
                            argument,
                        ) ==> text_free_expression(argument)),
                    forall|k: int|
                        0 <= k < j ==> !crate::sparql::stable::joins(
                            (#[trigger] aggregates@[k]).function,
                        ),
                decreases aggregates@.len() - j,
            {
                match aggregates[j].function {
                    PlanAggregationFunction::GroupConcat => {
                        return false;
                    },
                    PlanAggregationFunction::Avg => {
                        return false;
                    },
                    _ => {},
                }
                match &aggregates[j].parameter {
                    Some(argument) => {
                        if !is_text_free_expression(argument) {
                            return false;
                        }
                    },
                    None => {},
                }
                j = j + 1;
            }
            true
        },
        PlanNode::Sort { child, by } => {
            if !is_text_free(child) {
                return false;
            }
            let mut j: usize = 0;
            while j < by.len()
                invariant
                    j <= by@.len(),
                    forall|k: int|
                        0 <= k < j ==> text_free_expression((#[trigger] by@[k]).expression),
                decreases by@.len() - j,
            {
                if !is_text_free_expression(&by[j].expression) {
                    return false;
                }
                j = j + 1;
            }
            true
        },
        PlanNode::Distinct { child } => is_text_free(child),
        PlanNode::Reduced { child } => is_text_free(child),
        PlanNode::Slice { child, .. } => is_text_free(child),
    }
}

} // verus!
