use crate::sparql::dataset::{is_canonical, term_of, Dataset, EncodedQuad, EncodedTerm};
use crate::sparql::laws::lemma_distinct_rows;
use crate::sparql::plan::{
    answer_at, bind_quad, bind_slot, bind_value, compatible, distinct_rows, merge,
    minus_rows, overlay, overlay_each, restrict, restrict_each, rows_view, scan_each, scan_row,
    slice_rows, static_rows, unbound_row, PatternValue, PlanAggregationFunction, PlanExpression,
    PlanNode, QuadPattern, Row,
};
use crate::sparql::results::decoded;
use crate::sparql::semantics::{
    aggregate_of, aggregate_row, aggregate_values, apply_binary, apply_unary, coalesce_from,
    distinct_terms, eval_expression, extend_each, extend_row, filter_each, greatest_of,
    group_each, insert_sorted, join_each, keys_of, least_of, left_join_each, members_of,
    optional_matches, pattern_of, present, rows, sort_rows,
};
use vstd::prelude::*;

verus! {

/// Whether a surrogate stands for a term and is the one surrogate of it.
pub open spec fn term_held(strings: Seq<Seq<char>>, encoded: EncodedTerm) -> bool {
    is_canonical(strings, encoded) && encoded != EncodedTerm::DefaultGraph
}

/// Whether a value, where it is one, is the one surrogate of a term.
pub open spec fn value_held(strings: Seq<Seq<char>>, value: Option<EncodedTerm>) -> bool {
    value matches Some(encoded) ==> term_held(strings, encoded)
}

/// Whether every slot that a row binds holds the one surrogate of a term.
pub open spec fn row_held(strings: Seq<Seq<char>>, row: Row) -> bool {
    forall|k: int| 0 <= k < row.len() ==> value_held(strings, #[trigger] row[k])
}

/// Whether every row holds surrogates as `row_held` says.
pub open spec fn rows_held(strings: Seq<Seq<char>>, rows: Seq<Row>) -> bool {
    forall|i: int| 0 <= i < rows.len() ==> row_held(strings, #[trigger] rows[i])
}

/// Whether every term of a quad is the one surrogate of a term, and its
/// graph is that or the default graph.
pub open spec fn quad_held(strings: Seq<Seq<char>>, quad: EncodedQuad) -> bool {
    &&& term_held(strings, quad.subject)
    &&& term_held(strings, quad.predicate)
    &&& term_held(strings, quad.object)
    &&& is_canonical(strings, quad.graph_name)
}

/// Whether the quads of a dataset and the answers of its services hold
/// surrogates as `quad_held` and `row_held` say.
pub open spec fn dataset_held(dataset: Dataset) -> bool {
    &&& forall|i: int|
        0 <= i < dataset.quads.len() ==> quad_held(dataset.strings, #[trigger] dataset.quads[i])
    &&& forall|id: int|
        0 <= id < dataset.answers.len() ==> ((#[trigger] dataset.answers[id]) matches Some(
            tuples,
        ) ==> rows_held(dataset.strings, tuples))
}

/// Whether every constant of an expression is the one surrogate of a
/// term.
pub open spec fn expression_held(strings: Seq<Seq<char>>, expression: PlanExpression) -> bool
    decreases expression,
{
    match expression {
        PlanExpression::Constant(constant) => term_held(strings, constant),
        PlanExpression::Unary(_, a) => expression_held(strings, *a),
        PlanExpression::Binary(_, a, b) => expression_held(strings, *a) && expression_held(
            strings,
            *b,
        ),
        PlanExpression::If(condition, a, b) => expression_held(strings, *condition)
            && expression_held(strings, *a) && expression_held(strings, *b),
        PlanExpression::Exists(pattern) => plan_held(strings, *pattern),
        PlanExpression::Coalesce(arguments) => forall|i: int|
            0 <= i < arguments.len() ==> expression_held(strings, #[trigger] arguments[i]),
        PlanExpression::Call(_, arguments) => forall|i: int|
            0 <= i < arguments.len() ==> expression_held(strings, #[trigger] arguments[i]),
        _ => true,
    }
}

/// Whether every constant of a plan that an expression reads or a row can
/// come to hold is the one surrogate of a term: the given rows, and the
/// constants of the expressions.
pub open spec fn plan_held(strings: Seq<Seq<char>>, node: PlanNode) -> bool
    decreases node,
{
    match node {
        PlanNode::Init => true,
        PlanNode::StaticBindings { tuples } => rows_held(strings, rows_view(tuples@)),
        PlanNode::Service { .. } => true,
        PlanNode::QuadPatternJoin { child, .. } => plan_held(strings, *child),
        PlanNode::Join { left, right } => plan_held(strings, *left) && plan_held(strings, *right),
        PlanNode::LeftJoin { left, right, expression } => plan_held(strings, *left) && plan_held(
            strings,
            *right,
        ) && (expression matches Some(condition) ==> expression_held(strings, condition)),
        PlanNode::Union { left, right } => plan_held(strings, *left) && plan_held(strings, *right),
        PlanNode::Minus { left, right } => plan_held(strings, *left) && plan_held(strings, *right),
        PlanNode::Filter { child, expression } => plan_held(strings, *child) && expression_held(
            strings,
            expression,
        ),
        PlanNode::Extend { child, expression, .. } => plan_held(strings, *child)
            && expression_held(strings, expression),
        PlanNode::Project { child, .. } => plan_held(strings, *child),
        PlanNode::Group { child, aggregates, .. } => plan_held(strings, *child) && forall|j: int|
            0 <= j < aggregates.len() ==> ((#[trigger] aggregates[j]).parameter matches Some(
                argument,
            ) ==> expression_held(strings, argument)),
        PlanNode::Sort { child, by } => plan_held(strings, *child) && forall|j: int|
            0 <= j < by.len() ==> expression_held(strings, (#[trigger] by[j]).expression),
        PlanNode::Distinct { child } => plan_held(strings, *child),
        PlanNode::Reduced { child } => plan_held(strings, *child),
        PlanNode::Slice { child, .. } => plan_held(strings, *child),
    }
}

/// The one surrogate of a term stays that in a store that grew.
pub proof fn lemma_term_held_later(a: Seq<Seq<char>>, b: Seq<Seq<char>>, encoded: EncodedTerm)
    requires
        a.is_prefix_of(b),
        term_held(a, encoded),
    ensures
        term_held(b, encoded),
{
    crate::sparql::dataset::lemma_canonical_in_larger_store(a, b, encoded);
}

/// A held value is held in a store that grew.
pub proof fn lemma_term_held_later_value(
    a: Seq<Seq<char>>,
    b: Seq<Seq<char>>,
    value: Option<EncodedTerm>,
)
    requires
        a.is_prefix_of(b),
        value_held(a, value),
    ensures
        value_held(b, value),
{
    if let Some(encoded) = value {
        lemma_term_held_later(a, b, encoded);
    }
}

/// What holds of the constants of an expression holds in a store that
/// grew.
pub proof fn lemma_expression_held_later(
    a: Seq<Seq<char>>,
    b: Seq<Seq<char>>,
    expression: PlanExpression,
)
    requires
        a.is_prefix_of(b),
        expression_held(a, expression),
    ensures
        expression_held(b, expression),
    decreases expression,
{
    match expression {
        PlanExpression::Constant(constant) => {
            lemma_term_held_later(a, b, constant);
        },
        PlanExpression::Unary(_, x) => {
            lemma_expression_held_later(a, b, *x);
        },
        PlanExpression::Binary(_, x, y) => {
            lemma_expression_held_later(a, b, *x);
            lemma_expression_held_later(a, b, *y);
        },
        PlanExpression::If(condition, x, y) => {
            lemma_expression_held_later(a, b, *condition);
            lemma_expression_held_later(a, b, *x);
            lemma_expression_held_later(a, b, *y);
        },
        PlanExpression::Exists(pattern) => {
            lemma_plan_held_later(a, b, *pattern);
        },
        PlanExpression::Coalesce(arguments) => {
            assert forall|i: int| 0 <= i < arguments.len() implies expression_held(
                b,
                #[trigger] arguments[i],
            ) by {
                assert(expression_held(a, arguments[i]));
                lemma_expression_held_later(a, b, arguments[i]);
            }
        },
        PlanExpression::Call(_, arguments) => {
            assert forall|i: int| 0 <= i < arguments.len() implies expression_held(
                b,
                #[trigger] arguments[i],
            ) by {
                assert(expression_held(a, arguments[i]));
                lemma_expression_held_later(a, b, arguments[i]);
            }
        },
        _ => {},
    }
}

/// What holds of the constants of a plan holds in a store that grew.
pub proof fn lemma_plan_held_later(a: Seq<Seq<char>>, b: Seq<Seq<char>>, node: PlanNode)
    requires
        a.is_prefix_of(b),
        plan_held(a, node),
    ensures
        plan_held(b, node),
    decreases node,
{
    match node {
        PlanNode::Init => {},
        PlanNode::StaticBindings { tuples } => {
            let given = rows_view(tuples@);
            assert forall|i: int| 0 <= i < given.len() implies row_held(b, #[trigger] given[i]) by {
                assert(row_held(a, given[i]));
                assert forall|k: int| 0 <= k < given[i].len() implies value_held(
                    b,
                    #[trigger] given[i][k],
                ) by {
                    assert(value_held(a, given[i][k]));
                    if let Some(encoded) = given[i][k] {
                        lemma_term_held_later(a, b, encoded);
                    }
                }
            }
        },
        PlanNode::Service { .. } => {},
        PlanNode::QuadPatternJoin { child, .. } => {
            lemma_plan_held_later(a, b, *child);
        },
        PlanNode::Join { left, right } => {
            lemma_plan_held_later(a, b, *left);
            lemma_plan_held_later(a, b, *right);
        },
        PlanNode::LeftJoin { left, right, expression } => {
            lemma_plan_held_later(a, b, *left);
            lemma_plan_held_later(a, b, *right);
            if let Some(condition) = expression {
                lemma_expression_held_later(a, b, condition);
            }
        },
        PlanNode::Union { left, right } => {
            lemma_plan_held_later(a, b, *left);
            lemma_plan_held_later(a, b, *right);
        },
        PlanNode::Minus { left, right } => {
            lemma_plan_held_later(a, b, *left);
            lemma_plan_held_later(a, b, *right);
        },
        PlanNode::Filter { child, expression } => {
            lemma_plan_held_later(a, b, *child);
            lemma_expression_held_later(a, b, expression);
        },
        PlanNode::Extend { child, expression, .. } => {
            lemma_plan_held_later(a, b, *child);
            lemma_expression_held_later(a, b, expression);
        },
        PlanNode::Project { child, .. } => {
            lemma_plan_held_later(a, b, *child);
        },
        PlanNode::Group { child, aggregates, .. } => {
            lemma_plan_held_later(a, b, *child);
            assert forall|j: int| 0 <= j < aggregates.len() implies ((
            #[trigger] aggregates[j]).parameter matches Some(argument) ==> expression_held(
                b,
                argument,
            )) by {
                if let Some(argument) = aggregates[j].parameter {
                    assert(expression_held(a, argument));
                    lemma_expression_held_later(a, b, argument);
                }
            }
        },
        PlanNode::Sort { child, by } => {
            lemma_plan_held_later(a, b, *child);
            assert forall|j: int| 0 <= j < by.len() implies expression_held(
                b,
                (#[trigger] by[j]).expression,
            ) by {
                assert(expression_held(a, by[j].expression));
                lemma_expression_held_later(a, b, by[j].expression);
            }
        },
        PlanNode::Distinct { child } => {
            lemma_plan_held_later(a, b, *child);
        },
        PlanNode::Reduced { child } => {
            lemma_plan_held_later(a, b, *child);
        },
        PlanNode::Slice { child, .. } => {
            lemma_plan_held_later(a, b, *child);
        },
    }
}

proof fn lemma_held_push(strings: Seq<Seq<char>>, rows: Seq<Row>, row: Row)
    requires
        rows_held(strings, rows),
        row_held(strings, row),
    ensures
        rows_held(strings, rows.push(row)),
{
    assert forall|i: int| 0 <= i < rows.push(row).len() implies row_held(
        strings,
        #[trigger] rows.push(row)[i],
    ) by {
        if i < rows.len() {
            assert(rows.push(row)[i] == rows[i]);
        }
    }
}

proof fn lemma_held_concat(strings: Seq<Seq<char>>, a: Seq<Row>, b: Seq<Row>)
    requires
        rows_held(strings, a),
        rows_held(strings, b),
    ensures
        rows_held(strings, a + b),
{
    assert forall|i: int| 0 <= i < (a + b).len() implies row_held(strings, #[trigger] (a + b)[i]) by {
        if i < a.len() {
            assert((a + b)[i] == a[i]);
        } else {
            assert((a + b)[i] == b[i - a.len()]);
        }
    }
}

proof fn lemma_held_drop_last(strings: Seq<Seq<char>>, rows: Seq<Row>)
    requires
        rows_held(strings, rows),
        rows.len() > 0,
    ensures
        rows_held(strings, rows.drop_last()),
        row_held(strings, rows.last()),
{
    assert forall|i: int| 0 <= i < rows.drop_last().len() implies row_held(
        strings,
        #[trigger] rows.drop_last()[i],
    ) by {
        assert(rows.drop_last()[i] == rows[i]);
    }
    assert(rows.last() == rows[rows.len() - 1]);
}

proof fn lemma_bind_slot_held(strings: Seq<Seq<char>>, row: Row, slot: int, value: EncodedTerm)
    requires
        row_held(strings, row),
        term_held(strings, value),
        bind_slot(row, slot, value) is Some,
    ensures
        row_held(strings, bind_slot(row, slot, value)->0),
{
    let out = bind_slot(row, slot, value)->0;
    assert forall|k: int| 0 <= k < out.len() implies value_held(strings, #[trigger] out[k]) by {
        if k != slot {
            assert(out[k] == row[k]);
        }
    }
}

proof fn lemma_bind_value_held(
    strings: Seq<Seq<char>>,
    row: Row,
    position: PatternValue,
    value: EncodedTerm,
)
    requires
        row_held(strings, row),
        term_held(strings, value),
        bind_value(row, position, value) is Some,
    ensures
        row_held(strings, bind_value(row, position, value)->0),
{
    if let PatternValue::Variable(slot) = position {
        lemma_bind_slot_held(strings, row, slot as int, value);
    }
}

proof fn lemma_bind_quad_held(strings: Seq<Seq<char>>, row: Row, pattern: QuadPattern, quad: EncodedQuad)
    requires
        row_held(strings, row),
        quad_held(strings, quad),
        bind_quad(row, pattern, quad) is Some,
    ensures
        row_held(strings, bind_quad(row, pattern, quad)->0),
{
    let r1 = bind_value(row, pattern.subject, quad.subject)->0;
    lemma_bind_value_held(strings, row, pattern.subject, quad.subject);
    let r2 = bind_value(r1, pattern.predicate, quad.predicate)->0;
    lemma_bind_value_held(strings, r1, pattern.predicate, quad.predicate);
    let r3 = bind_value(r2, pattern.object, quad.object)->0;
    lemma_bind_value_held(strings, r2, pattern.object, quad.object);
    if let PatternValue::Variable(slot) = pattern.graph_name {
        lemma_bind_slot_held(strings, r3, slot as int, quad.graph_name);
    }
}

proof fn lemma_scan_row_held(
    strings: Seq<Seq<char>>,
    row: Row,
    pattern: QuadPattern,
    quads: Seq<EncodedQuad>,
)
    requires
        row_held(strings, row),
        forall|i: int| 0 <= i < quads.len() ==> quad_held(strings, #[trigger] quads[i]),
    ensures
        rows_held(strings, scan_row(row, pattern, quads)),
    decreases quads.len(),
{
    if quads.len() > 0 {
        assert forall|i: int| 0 <= i < quads.drop_last().len() implies quad_held(
            strings,
            #[trigger] quads.drop_last()[i],
        ) by {
            assert(quads.drop_last()[i] == quads[i]);
        }
        lemma_scan_row_held(strings, row, pattern, quads.drop_last());
        assert(quads.last() == quads[quads.len() - 1]);
        if bind_quad(row, pattern, quads.last()) is Some {
            lemma_bind_quad_held(strings, row, pattern, quads.last());
            lemma_held_push(
                strings,
                scan_row(row, pattern, quads.drop_last()),
                bind_quad(row, pattern, quads.last())->0,
            );
        }
    }
}

proof fn lemma_scan_each_held(
    strings: Seq<Seq<char>>,
    input: Seq<Row>,
    pattern: QuadPattern,
    quads: Seq<EncodedQuad>,
)
    requires
        rows_held(strings, input),
        forall|i: int| 0 <= i < quads.len() ==> quad_held(strings, #[trigger] quads[i]),
    ensures
        rows_held(strings, scan_each(input, pattern, quads)),
    decreases input.len(),
{
    if input.len() > 0 {
        lemma_held_drop_last(strings, input);
        lemma_scan_each_held(strings, input.drop_last(), pattern, quads);
        lemma_scan_row_held(strings, input.last(), pattern, quads);
        lemma_held_concat(
            strings,
            scan_each(input.drop_last(), pattern, quads),
            scan_row(input.last(), pattern, quads),
        );
    }
}

proof fn lemma_static_rows_held(strings: Seq<Seq<char>>, from: Row, tuples: Seq<Row>)
    requires
        row_held(strings, from),
        rows_held(strings, tuples),
    ensures
        rows_held(strings, static_rows(from, tuples)),
    decreases tuples.len(),
{
    if tuples.len() > 0 {
        lemma_held_drop_last(strings, tuples);
        lemma_static_rows_held(strings, from, tuples.drop_last());
        if compatible(from, tuples.last()) {
            let merged = merge(from, tuples.last());
            assert forall|k: int| 0 <= k < merged.len() implies value_held(
                strings,
                #[trigger] merged[k],
            ) by {
                if from[k] is None {
                    assert(merged[k] == tuples.last()[k]);
                }
            }
            lemma_held_push(strings, static_rows(from, tuples.drop_last()), merged);
        }
    }
}

proof fn lemma_restrict_each_held(strings: Seq<Seq<char>>, input: Seq<Row>, slots: Seq<usize>)
    requires
        rows_held(strings, input),
    ensures
        rows_held(strings, restrict_each(input, slots)),
{
    assert forall|i: int| 0 <= i < input.len() implies row_held(
        strings,
        #[trigger] restrict_each(input, slots)[i],
    ) by {
        assert(row_held(strings, input[i]));
        assert forall|k: int| 0 <= k < input[i].len() implies value_held(
            strings,
            #[trigger] restrict(input[i], slots)[k],
        ) by {
            assert(value_held(strings, input[i][k]));
        }
    }
}

proof fn lemma_minus_rows_held(strings: Seq<Seq<char>>, lefts: Seq<Row>, rights: Seq<Row>)
    requires
        rows_held(strings, lefts),
    ensures
        rows_held(strings, minus_rows(lefts, rights)),
    decreases lefts.len(),
{
    if lefts.len() > 0 {
        lemma_held_drop_last(strings, lefts);
        lemma_minus_rows_held(strings, lefts.drop_last(), rights);
        lemma_held_push(strings, minus_rows(lefts.drop_last(), rights), lefts.last());
    }
}

proof fn lemma_distinct_rows_held(strings: Seq<Seq<char>>, input: Seq<Row>)
    requires
        rows_held(strings, input),
    ensures
        rows_held(strings, distinct_rows(input)),
    decreases input.len(),
{
    if input.len() > 0 {
        lemma_held_drop_last(strings, input);
        lemma_distinct_rows_held(strings, input.drop_last());
        lemma_held_push(strings, distinct_rows(input.drop_last()), input.last());
    }
}

proof fn lemma_overlay_held(strings: Seq<Seq<char>>, from: Row, inner: Row, slots: Seq<usize>)
    requires
        row_held(strings, from),
        row_held(strings, inner),
        inner.len() == from.len(),
    ensures
        row_held(strings, overlay(from, inner, slots)),
{
    assert forall|k: int| 0 <= k < from.len() implies value_held(
        strings,
        #[trigger] overlay(from, inner, slots)[k],
    ) by {
        assert(value_held(strings, from[k]));
        assert(value_held(strings, inner[k]));
    }
}

proof fn lemma_unary_held(
    strings: Seq<Seq<char>>,
    operator: crate::sparql::algebra::UnaryOperator,
    a: Option<EncodedTerm>,
)
    requires
        value_held(strings, a),
    ensures
        value_held(strings, apply_unary(operator, strings, a)),
{
}

proof fn lemma_binary_held(
    strings: Seq<Seq<char>>,
    operator: crate::sparql::algebra::BinaryOperator,
    a: Option<EncodedTerm>,
    b: Option<EncodedTerm>,
)
    ensures
        value_held(strings, apply_binary(operator, strings, a, b)),
{
}

/// The value of an expression on a row is the one surrogate of a term,
/// where the row and the constants of the expression hold such.
pub proof fn lemma_expression_held(expression: PlanExpression, dataset: Dataset, row: Row)
    requires
        expression_held(dataset.strings, expression),
        row_held(dataset.strings, row),
    ensures
        value_held(dataset.strings, eval_expression(expression, dataset, row)),
    decreases expression, 3int, 0int,
{
    let strings = dataset.strings;
    match expression {
        PlanExpression::Constant(_) => {},
        PlanExpression::Variable(slot) => {
            if slot < row.len() {
                assert(value_held(strings, row[slot as int]));
            }
        },
        PlanExpression::Bound(_) => {},
        PlanExpression::Unary(operator, a) => {
            lemma_expression_held(*a, dataset, row);
            lemma_unary_held(strings, operator, eval_expression(*a, dataset, row));
        },
        PlanExpression::Binary(operator, a, b) => {
            lemma_binary_held(
                strings,
                operator,
                eval_expression(*a, dataset, row),
                eval_expression(*b, dataset, row),
            );
        },
        PlanExpression::If(_, a, b) => {
            lemma_expression_held(*a, dataset, row);
            lemma_expression_held(*b, dataset, row);
        },
        PlanExpression::Coalesce(_) => {
            lemma_coalesce_held(expression, dataset, row, 0);
        },
        PlanExpression::Exists(_) => {},
        PlanExpression::Call(function, arguments) => {
            let values = crate::sparql::semantics::call_values(
                expression,
                dataset,
                row,
                arguments.len() as int,
            );
            lemma_call_values_held(expression, dataset, row, arguments.len() as int);
            lemma_call_held(function, strings, values);
        },
    }
}

proof fn lemma_call_values_held(expression: PlanExpression, dataset: Dataset, row: Row, n: int)
    requires
        expression is Call,
        expression_held(dataset.strings, expression),
        row_held(dataset.strings, row),
    ensures
        forall|i: int|
            0 <= i < crate::sparql::semantics::call_values(expression, dataset, row, n).len()
                ==> value_held(
                dataset.strings,
                #[trigger] crate::sparql::semantics::call_values(expression, dataset, row, n)[i],
            ),
    decreases expression, 2int, n,
{
    let arguments = expression->Call_1;
    if 0 < n <= arguments.len() {
        lemma_call_values_held(expression, dataset, row, n - 1);
        assert(expression_held(dataset.strings, arguments[n - 1]));
        lemma_expression_held(arguments[n - 1], dataset, row);
        let rest = crate::sparql::semantics::call_values(expression, dataset, row, n - 1);
        let out = crate::sparql::semantics::call_values(expression, dataset, row, n);
        assert forall|i: int| 0 <= i < out.len() implies value_held(
            dataset.strings,
            #[trigger] out[i],
        ) by {
            if i < rest.len() {
                assert(out[i] == rest[i]);
            }
        }
    }
}

proof fn lemma_common_tag_held(strings: Seq<Seq<char>>, values: Seq<Option<EncodedTerm>>, n: int)
    requires
        forall|i: int| 0 <= i < values.len() ==> value_held(strings, #[trigger] values[i]),
    ensures
        crate::sparql::texts::common_tag(values, n) matches Some(language_id) ==> language_id
            < strings.len(),
{
    if 0 < n <= values.len() {
        assert(value_held(strings, values[n - 1]));
    }
}

/// The datatype of decimal numbers is none whose literals are held
/// inline.
pub proof fn lemma_decimal_is_not_inline()
    ensures
        forall|value: Seq<char>|
            !crate::sparql::dataset::is_inline_literal(
                value,
                #[trigger] decimal_of_value(value),
            ),
{
    reveal_strlit("http://www.w3.org/2001/XMLSchema#decimal");
    reveal_strlit("http://www.w3.org/2001/XMLSchema#boolean");
    reveal_strlit("http://www.w3.org/2001/XMLSchema#integer");
    let d = crate::sparql::grammar::xsd_decimal();
    assert(d[33] == 'd');
    assert(crate::sparql::dataset::xsd_boolean()[33] == 'b');
    assert(crate::sparql::dataset::xsd_integer()[33] == 'i');
}

/// The datatype of decimal numbers, whatever the value.
pub open spec fn decimal_of_value(value: Seq<char>) -> Seq<char> {
    crate::sparql::grammar::xsd_decimal()
}

/// What a function gives on held values is held.
pub proof fn lemma_call_held(
    function: crate::sparql::algebra::Function,
    strings: Seq<Seq<char>>,
    values: Seq<Option<EncodedTerm>>,
)
    requires
        forall|i: int| 0 <= i < values.len() ==> value_held(strings, #[trigger] values[i]),
    ensures
        value_held(strings, crate::sparql::texts::apply_call(function, strings, values)),
{
    if let Some(built) = crate::sparql::texts::call_text(function, strings, values) {
        crate::sparql::dataset::lemma_position_below(strings, built.text, 0);
        if let crate::sparql::texts::BuiltKind::Typed(datatype_id) = built.kind {
            if crate::sparql::texts::needs_decimal(function) {
                let decimal = crate::sparql::grammar::xsd_decimal();
                lemma_decimal_is_not_inline();
                crate::sparql::dataset::lemma_position_from(strings, decimal, 0);
                crate::sparql::dataset::lemma_position_from(strings, built.text, 0);
                assert(crate::sparql::dataset::position_of(strings, decimal) == Some(datatype_id));
                assert(strings[datatype_id as int] == decimal);
                if let Some(id) = crate::sparql::dataset::position_of(strings, built.text) {
                    assert(decimal_of_value(strings[id as int]) == decimal);
                    assert(!crate::sparql::dataset::is_inline_literal(
                        strings[id as int],
                        strings[datatype_id as int],
                    ));
                }
            }
        }
        lemma_common_tag_held(strings, values, values.len() as int);
        if values.len() > 0 {
            assert(value_held(strings, values[0]));
        }
    }
}

proof fn lemma_coalesce_held(expression: PlanExpression, dataset: Dataset, row: Row, i: int)
    requires
        expression is Coalesce,
        expression_held(dataset.strings, expression),
        row_held(dataset.strings, row),
        0 <= i,
    ensures
        value_held(dataset.strings, coalesce_from(expression, dataset, row, i)),
    decreases expression, 2int, expression->Coalesce_0.len() - i,
{
    let arguments = expression->Coalesce_0;
    if i < arguments.len() {
        assert(expression_held(dataset.strings, arguments[i]));
        lemma_expression_held(arguments[i], dataset, row);
        lemma_coalesce_held(expression, dataset, row, i + 1);
    }
}

proof fn lemma_present_held(strings: Seq<Seq<char>>, values: Seq<Option<EncodedTerm>>)
    requires
        forall|i: int| 0 <= i < values.len() ==> value_held(strings, #[trigger] values[i]),
    ensures
        forall|i: int|
            0 <= i < present(values).len() ==> term_held(strings, #[trigger] present(values)[i]),
    decreases values.len(),
{
    if values.len() > 0 {
        assert forall|i: int| 0 <= i < values.drop_last().len() implies value_held(
            strings,
            #[trigger] values.drop_last()[i],
        ) by {
            assert(values.drop_last()[i] == values[i]);
        }
        lemma_present_held(strings, values.drop_last());
        assert(value_held(strings, values[values.len() - 1]));
        let rest = present(values.drop_last());
        assert forall|i: int| 0 <= i < present(values).len() implies term_held(
            strings,
            #[trigger] present(values)[i],
        ) by {
            if i < rest.len() {
                assert(present(values)[i] == rest[i]);
            }
        }
    }
}

proof fn lemma_distinct_terms_held(strings: Seq<Seq<char>>, terms: Seq<EncodedTerm>)
    requires
        forall|i: int| 0 <= i < terms.len() ==> term_held(strings, #[trigger] terms[i]),
    ensures
        forall|i: int|
            0 <= i < distinct_terms(terms).len() ==> term_held(
                strings,
                #[trigger] distinct_terms(terms)[i],
            ),
    decreases terms.len(),
{
    if terms.len() > 0 {
        assert forall|i: int| 0 <= i < terms.drop_last().len() implies term_held(
            strings,
            #[trigger] terms.drop_last()[i],
        ) by {
            assert(terms.drop_last()[i] == terms[i]);
        }
        lemma_distinct_terms_held(strings, terms.drop_last());
        assert(term_held(strings, terms[terms.len() - 1]));
        let rest = distinct_terms(terms.drop_last());
        assert forall|i: int| 0 <= i < distinct_terms(terms).len() implies term_held(
            strings,
            #[trigger] distinct_terms(terms)[i],
        ) by {
            if i < rest.len() {
                assert(distinct_terms(terms)[i] == rest[i]);
            }
        }
    }
}

proof fn lemma_extremes_held(strings: Seq<Seq<char>>, terms: Seq<EncodedTerm>)
    requires
        forall|i: int| 0 <= i < terms.len() ==> term_held(strings, #[trigger] terms[i]),
    ensures
        value_held(strings, least_of(strings, terms)),
        value_held(strings, greatest_of(strings, terms)),
    decreases terms.len(),
{
    if terms.len() > 0 {
        assert forall|i: int| 0 <= i < terms.drop_last().len() implies term_held(
            strings,
            #[trigger] terms.drop_last()[i],
        ) by {
            assert(terms.drop_last()[i] == terms[i]);
        }
        lemma_extremes_held(strings, terms.drop_last());
        assert(term_held(strings, terms[terms.len() - 1]));
    }
}

proof fn lemma_aggregate_held(
    function: PlanAggregationFunction,
    distinct: bool,
    separator: Seq<char>,
    strings: Seq<Seq<char>>,
    values: Seq<Option<EncodedTerm>>,
)
    requires
        forall|i: int| 0 <= i < values.len() ==> value_held(strings, #[trigger] values[i]),
    ensures
        value_held(strings, aggregate_of(function, distinct, separator, strings, values)),
{
    lemma_present_held(strings, values);
    lemma_distinct_terms_held(strings, present(values));
    let terms = if distinct {
        distinct_terms(present(values))
    } else {
        present(values)
    };
    lemma_extremes_held(strings, terms);
    if terms.len() > 0 {
        assert(term_held(strings, terms[0]));
    }
    if let Some(text) = crate::sparql::texts::joined_text(
        strings,
        separator,
        terms,
        terms.len() as int,
    ) {
        crate::sparql::dataset::lemma_position_below(strings, text, 0);
    }
    if function == PlanAggregationFunction::Avg {
        if let Some(found) = crate::sparql::semantics::mean_of(strings, terms) {
            if let EncodedTerm::TypedLiteral { value_id, datatype_id } = found {
                let decimal = crate::sparql::grammar::xsd_decimal();
                let text = crate::sparql::semantics::mean_text(terms)->0;
                lemma_decimal_is_not_inline();
                crate::sparql::dataset::lemma_position_from(strings, decimal, 0);
                crate::sparql::dataset::lemma_position_from(strings, text, 0);
                assert(strings[datatype_id as int] == decimal);
                assert(decimal_of_value(strings[value_id as int]) == decimal);
                assert(!crate::sparql::dataset::is_inline_literal(
                    strings[value_id as int],
                    strings[datatype_id as int],
                ));
            }
        }
    }
}

proof fn lemma_aggregate_values_held(node: PlanNode, dataset: Dataset, members: Seq<Row>, j: int)
    requires
        node is Group,
        plan_held(dataset.strings, node),
        rows_held(dataset.strings, members),
    ensures
        forall|i: int|
            0 <= i < aggregate_values(node, dataset, members, j).len() ==> value_held(
                dataset.strings,
                #[trigger] aggregate_values(node, dataset, members, j)[i],
            ),
    decreases members.len(),
{
    let aggregates = node->Group_aggregates;
    if members.len() > 0 && 0 <= j < aggregates.len() {
        lemma_held_drop_last(dataset.strings, members);
        lemma_aggregate_values_held(node, dataset, members.drop_last(), j);
        if let Some(argument) = aggregates[j].parameter {
            lemma_expression_held(argument, dataset, members.last());
        }
        let rest = aggregate_values(node, dataset, members.drop_last(), j);
        let out = aggregate_values(node, dataset, members, j);
        assert forall|i: int| 0 <= i < out.len() implies value_held(
            dataset.strings,
            #[trigger] out[i],
        ) by {
            if i < rest.len() {
                assert(out[i] == rest[i]);
            }
        }
    }
}

proof fn lemma_aggregate_row_held(
    node: PlanNode,
    dataset: Dataset,
    members: Seq<Row>,
    base: Row,
    j: int,
)
    requires
        node is Group,
        plan_held(dataset.strings, node),
        rows_held(dataset.strings, members),
        row_held(dataset.strings, base),
    ensures
        aggregate_row(node, dataset, members, base, j) matches Some(row) ==> row_held(
            dataset.strings,
            row,
        ),
    decreases j,
{
    let aggregates = node->Group_aggregates;
    if 0 < j <= aggregates.len() {
        lemma_aggregate_row_held(node, dataset, members, base, j - 1);
        if let Some(row) = aggregate_row(node, dataset, members, base, j - 1) {
            lemma_aggregate_values_held(node, dataset, members, j - 1);
            lemma_aggregate_held(
                aggregates[j - 1].function,
                aggregates[j - 1].distinct,
                aggregates[j - 1].separator@,
                dataset.strings,
                aggregate_values(node, dataset, members, j - 1),
            );
            let value = aggregate_of(
                aggregates[j - 1].function,
                aggregates[j - 1].distinct,
                aggregates[j - 1].separator@,
                dataset.strings,
                aggregate_values(node, dataset, members, j - 1),
            );
            if let Some(found) = value {
                if bind_slot(row, aggregates[j - 1].slot as int, found) is Some {
                    lemma_bind_slot_held(dataset.strings, row, aggregates[j - 1].slot as int, found);
                }
            }
        }
    }
}

proof fn lemma_members_held(strings: Seq<Seq<char>>, input: Seq<Row>, keys: Seq<usize>, key: Row)
    requires
        rows_held(strings, input),
    ensures
        rows_held(strings, members_of(input, keys, key)),
    decreases input.len(),
{
    if input.len() > 0 {
        lemma_held_drop_last(strings, input);
        lemma_members_held(strings, input.drop_last(), keys, key);
        lemma_held_push(strings, members_of(input.drop_last(), keys, key), input.last());
    }
}

proof fn lemma_group_each_held(
    node: PlanNode,
    dataset: Dataset,
    from: Row,
    input: Seq<Row>,
    group_keys: Seq<Row>,
)
    requires
        node is Group,
        plan_held(dataset.strings, node),
        row_held(dataset.strings, from),
        rows_held(dataset.strings, input),
        forall|i: int| 0 <= i < input.len() ==> (#[trigger] input[i]).len() == from.len(),
    ensures
        rows_held(dataset.strings, group_each(node, dataset, from, input, group_keys)),
    decreases group_keys.len(),
{
    let strings = dataset.strings;
    if group_keys.len() > 0 {
        let keys = node->Group_keys;
        let aggregates = node->Group_aggregates;
        lemma_group_each_held(node, dataset, from, input, group_keys.drop_last());
        let members = members_of(input, keys@, group_keys.last());
        lemma_members_held(strings, input, keys@, group_keys.last());
        lemma_members_wide(input, keys@, group_keys.last(), from.len());
        let base = if members.len() > 0 {
            overlay(from, members[0], keys@)
        } else {
            from
        };
        if members.len() > 0 {
            assert(row_held(strings, members[0]));
            lemma_overlay_held(strings, from, members[0], keys@);
        }
        lemma_aggregate_row_held(node, dataset, members, base, aggregates.len() as int);
        if let Some(row) = aggregate_row(node, dataset, members, base, aggregates.len() as int) {
            lemma_held_push(
                strings,
                group_each(node, dataset, from, input, group_keys.drop_last()),
                row,
            );
        }
    }
}

proof fn lemma_members_wide(input: Seq<Row>, keys: Seq<usize>, key: Row, width: nat)
    requires
        forall|i: int| 0 <= i < input.len() ==> (#[trigger] input[i]).len() == width,
    ensures
        forall|i: int|
            0 <= i < members_of(input, keys, key).len() ==> (#[trigger] members_of(
                input,
                keys,
                key,
            )[i]).len() == width,
    decreases input.len(),
{
    if input.len() > 0 {
        assert forall|i: int| 0 <= i < input.drop_last().len() implies (
        #[trigger] input.drop_last()[i]).len() == width by {
            assert(input.drop_last()[i] == input[i]);
        }
        lemma_members_wide(input.drop_last(), keys, key, width);
        assert(input[input.len() - 1].len() == width);
        let rest = members_of(input.drop_last(), keys, key);
        let out = members_of(input, keys, key);
        assert forall|i: int| 0 <= i < out.len() implies (#[trigger] out[i]).len() == width by {
            if i < rest.len() {
                assert(out[i] == rest[i]);
            }
        }
    }
}

proof fn lemma_insert_sorted_held(node: PlanNode, dataset: Dataset, sorted: Seq<Row>, row: Row)
    requires
        rows_held(dataset.strings, sorted),
        row_held(dataset.strings, row),
    ensures
        rows_held(dataset.strings, insert_sorted(node, dataset, sorted, row)),
    decreases sorted.len(),
{
    let strings = dataset.strings;
    if sorted.len() == 0 {
        assert(seq![row][0] == row);
    } else if crate::sparql::semantics::row_precedes(node, dataset, row, sorted.last(), 0) {
        lemma_held_drop_last(strings, sorted);
        lemma_insert_sorted_held(node, dataset, sorted.drop_last(), row);
        lemma_held_push(
            strings,
            insert_sorted(node, dataset, sorted.drop_last(), row),
            sorted.last(),
        );
    } else {
        lemma_held_push(strings, sorted, row);
    }
}

proof fn lemma_sort_rows_held(node: PlanNode, dataset: Dataset, input: Seq<Row>)
    requires
        rows_held(dataset.strings, input),
    ensures
        rows_held(dataset.strings, sort_rows(node, dataset, input)),
    decreases input.len(),
{
    if input.len() > 0 {
        lemma_held_drop_last(dataset.strings, input);
        lemma_sort_rows_held(node, dataset, input.drop_last());
        lemma_insert_sorted_held(
            node,
            dataset,
            sort_rows(node, dataset, input.drop_last()),
            input.last(),
        );
    }
}

/// Every value of every row that a plan yields is the one surrogate of a
/// term, where that holds of the dataset, of the constants of the plan and
/// of the row that the plan starts from.
pub proof fn lemma_rows_held(node: PlanNode, dataset: Dataset, from: Row)
    requires
        plan_held(dataset.strings, node),
        dataset_held(dataset),
        row_held(dataset.strings, from),
    ensures
        rows_held(dataset.strings, rows(node, dataset, from)),
    decreases node, 3int, 0int,
{
    let strings = dataset.strings;
    match node {
        PlanNode::Init => {
            assert(seq![from][0] == from);
        },
        PlanNode::StaticBindings { tuples } => {
            lemma_static_rows_held(strings, from, rows_view(tuples@));
        },
        PlanNode::Service { id, slots } => {
            match answer_at(dataset, id) {
                Some(tuples) => {
                    assert(dataset.answers[id as int] == Some(tuples));
                    lemma_restrict_each_held(strings, tuples, slots@);
                    lemma_static_rows_held(strings, from, restrict_each(tuples, slots@));
                },
                None => {
                    assert(seq![from][0] == from);
                },
            }
        },
        PlanNode::QuadPatternJoin { child, .. } => {
            lemma_rows_held(*child, dataset, from);
            lemma_scan_each_held(
                strings,
                rows(*child, dataset, from),
                pattern_of(node),
                dataset.quads,
            );
        },
        PlanNode::Join { left, .. } => {
            lemma_rows_held(*left, dataset, from);
            lemma_join_each_held(node, dataset, rows(*left, dataset, from));
        },
        PlanNode::LeftJoin { left, .. } => {
            lemma_rows_held(*left, dataset, from);
            lemma_left_join_each_held(node, dataset, rows(*left, dataset, from));
        },
        PlanNode::Union { left, right } => {
            lemma_rows_held(*left, dataset, from);
            lemma_rows_held(*right, dataset, from);
            lemma_held_concat(strings, rows(*left, dataset, from), rows(*right, dataset, from));
        },
        PlanNode::Minus { left, right } => {
            lemma_rows_held(*left, dataset, from);
            lemma_minus_rows_held(
                strings,
                rows(*left, dataset, from),
                rows(*right, dataset, unbound_row(from.len())),
            );
        },
        PlanNode::Filter { child, .. } => {
            lemma_rows_held(*child, dataset, from);
            lemma_filter_each_held(node, dataset, rows(*child, dataset, from));
        },
        PlanNode::Extend { child, .. } => {
            lemma_rows_held(*child, dataset, from);
            lemma_extend_each_held(node, dataset, rows(*child, dataset, from));
        },
        PlanNode::Project { child, slots } => {
            let start = restrict(from, slots@);
            assert(row_held(strings, start)) by {
                assert forall|k: int| 0 <= k < start.len() implies value_held(
                    strings,
                    #[trigger] start[k],
                ) by {
                    assert(value_held(strings, from[k]));
                }
            }
            let inner = rows(*child, dataset, start);
            lemma_rows_held(*child, dataset, start);
            crate::sparql::laws::lemma_rows_extend(*child, dataset, start);
            assert forall|i: int| 0 <= i < inner.len() implies row_held(
                strings,
                #[trigger] overlay_each(from, inner, slots@)[i],
            ) by {
                assert(row_held(strings, inner[i]));
                assert(crate::sparql::plan::extends(inner[i], start));
                lemma_overlay_held(strings, from, inner[i], slots@);
            }
        },
        PlanNode::Group { child, keys, .. } => {
            let start = restrict(from, keys@);
            assert(row_held(strings, start)) by {
                assert forall|k: int| 0 <= k < start.len() implies value_held(
                    strings,
                    #[trigger] start[k],
                ) by {
                    assert(value_held(strings, from[k]));
                }
            }
            let input = rows(*child, dataset, start);
            lemma_rows_held(*child, dataset, start);
            crate::sparql::laws::lemma_rows_extend(*child, dataset, start);
            assert forall|i: int| 0 <= i < input.len() implies (#[trigger] input[i]).len()
                == from.len() by {
                assert(crate::sparql::plan::extends(input[i], start));
            }
            lemma_group_each_held(
                node,
                dataset,
                from,
                input,
                distinct_rows(keys_of(input, keys@)),
            );
        },
        PlanNode::Sort { child, .. } => {
            lemma_rows_held(*child, dataset, from);
            lemma_sort_rows_held(node, dataset, rows(*child, dataset, from));
        },
        PlanNode::Distinct { child } => {
            lemma_rows_held(*child, dataset, from);
            lemma_distinct_rows_held(strings, rows(*child, dataset, from));
        },
        PlanNode::Reduced { child } => {
            lemma_rows_held(*child, dataset, from);
            lemma_distinct_rows_held(strings, rows(*child, dataset, from));
        },
        PlanNode::Slice { child, start, length } => {
            lemma_rows_held(*child, dataset, from);
            let input = rows(*child, dataset, from);
            let out = slice_rows(input, start, length);
            assert forall|i: int| 0 <= i < out.len() implies row_held(strings, #[trigger] out[i]) by {
                let first: int = if start <= input.len() {
                    start as int
                } else {
                    input.len() as int
                };
                assert(out[i] == input[first + i]);
            }
        },
    }
}

proof fn lemma_join_each_held(node: PlanNode, dataset: Dataset, lefts: Seq<Row>)
    requires
        node is Join,
        plan_held(dataset.strings, node),
        dataset_held(dataset),
        rows_held(dataset.strings, lefts),
    ensures
        rows_held(dataset.strings, join_each(node, dataset, lefts)),
    decreases node, 2int, lefts.len(),
{
    if lefts.len() > 0 {
        lemma_held_drop_last(dataset.strings, lefts);
        lemma_join_each_held(node, dataset, lefts.drop_last());
        lemma_rows_held(*node->Join_right, dataset, lefts.last());
        lemma_held_concat(
            dataset.strings,
            join_each(node, dataset, lefts.drop_last()),
            rows(*node->Join_right, dataset, lefts.last()),
        );
    }
}

proof fn lemma_optional_matches_held(node: PlanNode, dataset: Dataset, candidates: Seq<Row>)
    requires
        node is LeftJoin,
        rows_held(dataset.strings, candidates),
    ensures
        rows_held(dataset.strings, optional_matches(node, dataset, candidates)),
    decreases candidates.len(),
{
    if candidates.len() > 0 {
        lemma_held_drop_last(dataset.strings, candidates);
        lemma_optional_matches_held(node, dataset, candidates.drop_last());
        lemma_held_push(
            dataset.strings,
            optional_matches(node, dataset, candidates.drop_last()),
            candidates.last(),
        );
    }
}

proof fn lemma_left_join_each_held(node: PlanNode, dataset: Dataset, lefts: Seq<Row>)
    requires
        node is LeftJoin,
        plan_held(dataset.strings, node),
        dataset_held(dataset),
        rows_held(dataset.strings, lefts),
    ensures
        rows_held(dataset.strings, left_join_each(node, dataset, lefts)),
    decreases node, 2int, lefts.len(),
{
    let strings = dataset.strings;
    if lefts.len() > 0 {
        lemma_held_drop_last(strings, lefts);
        lemma_left_join_each_held(node, dataset, lefts.drop_last());
        let found = rows(*node->LeftJoin_right, dataset, lefts.last());
        lemma_rows_held(*node->LeftJoin_right, dataset, lefts.last());
        lemma_optional_matches_held(node, dataset, found);
        let matched = optional_matches(node, dataset, found);
        let piece = if matched.len() > 0 {
            matched
        } else {
            seq![lefts.last()]
        };
        assert(rows_held(strings, piece)) by {
            if matched.len() == 0 {
                assert(seq![lefts.last()][0] == lefts.last());
            }
        }
        lemma_held_concat(strings, left_join_each(node, dataset, lefts.drop_last()), piece);
    }
}

proof fn lemma_filter_each_held(node: PlanNode, dataset: Dataset, input: Seq<Row>)
    requires
        node is Filter,
        rows_held(dataset.strings, input),
    ensures
        rows_held(dataset.strings, filter_each(node, dataset, input)),
    decreases input.len(),
{
    if input.len() > 0 {
        lemma_held_drop_last(dataset.strings, input);
        lemma_filter_each_held(node, dataset, input.drop_last());
        lemma_held_push(
            dataset.strings,
            filter_each(node, dataset, input.drop_last()),
            input.last(),
        );
    }
}

proof fn lemma_extend_each_held(node: PlanNode, dataset: Dataset, input: Seq<Row>)
    requires
        node is Extend,
        plan_held(dataset.strings, node),
        rows_held(dataset.strings, input),
    ensures
        rows_held(dataset.strings, extend_each(node, dataset, input)),
    decreases input.len(),
{
    let strings = dataset.strings;
    if input.len() > 0 {
        lemma_held_drop_last(strings, input);
        lemma_extend_each_held(node, dataset, input.drop_last());
        let row = input.last();
        lemma_expression_held(node->Extend_expression, dataset, row);
        if let Some(out) = extend_row(node, dataset, row) {
            if let Some(value) = eval_expression(node->Extend_expression, dataset, row) {
                lemma_bind_slot_held(strings, row, node->Extend_slot as int, value);
            }
            lemma_held_push(strings, extend_each(node, dataset, input.drop_last()), out);
        }
    }
}

/// Two rows that hold the one surrogate of each of their terms, and that
/// differ, decode to different terms in some slot.
pub proof fn lemma_held_rows_decode_apart(strings: Seq<Seq<char>>, a: Row, b: Row)
    requires
        strings.no_duplicates(),
        row_held(strings, a),
        row_held(strings, b),
        a.len() == b.len(),
        a.len() <= usize::MAX,
        a != b,
    ensures
        exists|k: usize| k < a.len() && #[trigger] decoded(strings, a, k) != decoded(strings, b, k),
{
    if forall|k: int| 0 <= k < a.len() ==> a[k] == b[k] {
        assert(a =~= b);
    }
    let k = choose|k: int| 0 <= k < a.len() && a[k] != b[k];
    assert(value_held(strings, a[k]) && value_held(strings, b[k]));
    if let Some(x) = a[k] {
        if let Some(y) = b[k] {
            if term_of(strings, x) == term_of(strings, y) {
                crate::sparql::dataset::lemma_canonical_surrogate_unique(strings, x, y);
            }
        }
    }
    assert(decoded(strings, a, k as usize) != decoded(strings, b, k as usize));
}

/// Whether a row binds no slot but those of `slots`.
pub open spec fn row_within(row: Row, slots: Seq<usize>) -> bool {
    forall|k: int| 0 <= k < row.len() && (#[trigger] row[k]) is Some ==> slots.contains(k as usize)
}

/// Whether every row binds no slot but those of `slots`.
pub open spec fn rows_within(rows: Seq<Row>, slots: Seq<usize>) -> bool {
    forall|i: int| 0 <= i < rows.len() ==> row_within(#[trigger] rows[i], slots)
}

proof fn lemma_within_drop_last(rows: Seq<Row>, slots: Seq<usize>)
    requires
        rows_within(rows, slots),
        rows.len() > 0,
    ensures
        rows_within(rows.drop_last(), slots),
        row_within(rows.last(), slots),
{
    assert forall|i: int| 0 <= i < rows.drop_last().len() implies row_within(
        #[trigger] rows.drop_last()[i],
        slots,
    ) by {
        assert(rows.drop_last()[i] == rows[i]);
    }
    assert(rows.last() == rows[rows.len() - 1]);
}

proof fn lemma_within_push(rows: Seq<Row>, row: Row, slots: Seq<usize>)
    requires
        rows_within(rows, slots),
        row_within(row, slots),
    ensures
        rows_within(rows.push(row), slots),
{
    assert forall|i: int| 0 <= i < rows.push(row).len() implies row_within(
        #[trigger] rows.push(row)[i],
        slots,
    ) by {
        if i < rows.len() {
            assert(rows.push(row)[i] == rows[i]);
        }
    }
}

proof fn lemma_distinct_rows_within(input: Seq<Row>, slots: Seq<usize>)
    requires
        rows_within(input, slots),
    ensures
        rows_within(distinct_rows(input), slots),
    decreases input.len(),
{
    if input.len() > 0 {
        lemma_within_drop_last(input, slots);
        lemma_distinct_rows_within(input.drop_last(), slots);
        lemma_within_push(distinct_rows(input.drop_last()), input.last(), slots);
    }
}

proof fn lemma_insert_sorted_within(
    node: PlanNode,
    dataset: Dataset,
    sorted: Seq<Row>,
    row: Row,
    slots: Seq<usize>,
)
    requires
        rows_within(sorted, slots),
        row_within(row, slots),
    ensures
        rows_within(insert_sorted(node, dataset, sorted, row), slots),
    decreases sorted.len(),
{
    if sorted.len() == 0 {
        assert(seq![row][0] == row);
    } else if crate::sparql::semantics::row_precedes(node, dataset, row, sorted.last(), 0) {
        lemma_within_drop_last(sorted, slots);
        lemma_insert_sorted_within(node, dataset, sorted.drop_last(), row, slots);
        lemma_within_push(
            insert_sorted(node, dataset, sorted.drop_last(), row),
            sorted.last(),
            slots,
        );
    } else {
        lemma_within_push(sorted, row, slots);
    }
}

proof fn lemma_sort_rows_within(node: PlanNode, dataset: Dataset, input: Seq<Row>, slots: Seq<usize>)
    requires
        rows_within(input, slots),
    ensures
        rows_within(sort_rows(node, dataset, input), slots),
    decreases input.len(),
{
    if input.len() > 0 {
        lemma_within_drop_last(input, slots);
        lemma_sort_rows_within(node, dataset, input.drop_last(), slots);
        lemma_insert_sorted_within(
            node,
            dataset,
            sort_rows(node, dataset, input.drop_last()),
            input.last(),
            slots,
        );
    }
}

/// The solutions of a plan bind no slot but those that the plan lets out.
pub proof fn lemma_rows_within_output(node: PlanNode, dataset: Dataset, width: nat)
    requires
        width <= usize::MAX,
    ensures
        rows_within(
            rows(node, dataset, unbound_row(width)),
            crate::sparql::results::output_slots(node, width),
        ),
    decreases node,
{
    let from = unbound_row(width);
    let slots = crate::sparql::results::output_slots(node, width);
    let out = rows(node, dataset, from);
    match node {
        PlanNode::Project { child, slots: listed } => {
            let inner = rows(*child, dataset, restrict(from, listed@));
            assert forall|i: int| 0 <= i < out.len() implies row_within(#[trigger] out[i], slots) by {
                assert(out[i] == overlay(from, inner[i], listed@));
            }
        },
        PlanNode::Distinct { child } => {
            lemma_rows_within_output(*child, dataset, width);
            lemma_distinct_rows_within(rows(*child, dataset, from), slots);
        },
        PlanNode::Reduced { child } => {
            lemma_rows_within_output(*child, dataset, width);
            lemma_distinct_rows_within(rows(*child, dataset, from), slots);
        },
        PlanNode::Sort { child, .. } => {
            lemma_rows_within_output(*child, dataset, width);
            lemma_sort_rows_within(node, dataset, rows(*child, dataset, from), slots);
        },
        PlanNode::Slice { child, start, length } => {
            lemma_rows_within_output(*child, dataset, width);
            let input = rows(*child, dataset, from);
            assert forall|i: int| 0 <= i < out.len() implies row_within(#[trigger] out[i], slots) by {
                let first: int = if start <= input.len() {
                    start as int
                } else {
                    input.len() as int
                };
                assert(out[i] == input[first + i]);
            }
        },
        _ => {
            crate::sparql::laws::lemma_rows_extend(node, dataset, from);
            assert forall|i: int| 0 <= i < out.len() implies row_within(#[trigger] out[i], slots) by {
                assert(crate::sparql::plan::extends(out[i], from));
                assert forall|k: int| 0 <= k < out[i].len() && (#[trigger] out[i][k])
                    is Some implies slots.contains(k as usize) by {
                    assert(slots[k] == k as usize);
                }
            }
        },
    }
}

/// Whether a plan takes out repeated solutions last, before at most a
/// slice.
pub open spec fn is_distinct_plan(node: PlanNode) -> bool
    decreases node,
{
    match node {
        PlanNode::Distinct { .. } => true,
        PlanNode::Reduced { .. } => true,
        PlanNode::Slice { child, .. } => is_distinct_plan(*child),
        _ => false,
    }
}

proof fn lemma_distinct_plan_rows(node: PlanNode, dataset: Dataset, from: Row)
    requires
        is_distinct_plan(node),
    ensures
        rows(node, dataset, from).no_duplicates(),
    decreases node,
{
    match node {
        PlanNode::Distinct { child } => {
            lemma_distinct_rows(rows(*child, dataset, from));
        },
        PlanNode::Reduced { child } => {
            lemma_distinct_rows(rows(*child, dataset, from));
        },
        PlanNode::Slice { child, start, length } => {
            lemma_distinct_plan_rows(*child, dataset, from);
            let input = rows(*child, dataset, from);
            let out = rows(node, dataset, from);
            let first: int = if start <= input.len() {
                start as int
            } else {
                input.len() as int
            };
            assert forall|i: int, j: int| 0 <= i < out.len() && 0 <= j < out.len() && i
                != j implies out[i] != out[j] by {
                assert(out[i] == input[first + i]);
                assert(out[j] == input[first + j]);
            }
        },
        _ => {},
    }
}

/// No two solutions of a `DISTINCT` are equal in every output position:
/// two of them decode to different terms, or one to a term and the other
/// to none, in some slot that the plan lets out.
pub proof fn lemma_distinct_output_differs(
    node: PlanNode,
    dataset: Dataset,
    width: nat,
    i: int,
    j: int,
)
    requires
        is_distinct_plan(node),
        dataset.strings.no_duplicates(),
        plan_held(dataset.strings, node),
        dataset_held(dataset),
        width <= usize::MAX,
        0 <= i < j < rows(node, dataset, unbound_row(width)).len(),
    ensures
        exists|c: int|
            0 <= c < crate::sparql::results::output_slots(node, width).len() && decoded(
                dataset.strings,
                rows(node, dataset, unbound_row(width))[i],
                #[trigger] crate::sparql::results::output_slots(node, width)[c],
            ) != decoded(
                dataset.strings,
                rows(node, dataset, unbound_row(width))[j],
                crate::sparql::results::output_slots(node, width)[c],
            ),
{
    let from = unbound_row(width);
    let out = rows(node, dataset, from);
    let slots = crate::sparql::results::output_slots(node, width);
    let strings = dataset.strings;
    lemma_rows_held(node, dataset, from);
    crate::sparql::laws::lemma_rows_extend(node, dataset, from);
    lemma_distinct_plan_rows(node, dataset, from);
    lemma_rows_within_output(node, dataset, width);
    let a = out[i];
    let b = out[j];
    assert(crate::sparql::plan::extends(a, from));
    assert(crate::sparql::plan::extends(b, from));
    assert(a != b);
    if forall|k: int| 0 <= k < a.len() ==> a[k] == b[k] {
        assert(a =~= b);
    }
    let k = choose|k: int| 0 <= k < a.len() && a[k] != b[k];
    assert(row_within(a, slots) && row_within(b, slots));
    assert(slots.contains(k as usize)) by {
        if a[k] is Some {
        } else {
            assert(b[k] is Some);
        }
    }
    let c = choose|c: int| 0 <= c < slots.len() && slots[c] == k as usize;
    assert(value_held(strings, a[k]) && value_held(strings, b[k]));
    if let Some(x) = a[k] {
        if let Some(y) = b[k] {
            if term_of(strings, x) == term_of(strings, y) {
                crate::sparql::dataset::lemma_canonical_surrogate_unique(strings, x, y);
            }
        }
    }
    assert(decoded(strings, a, slots[c]) != decoded(strings, b, slots[c]));
}

} // verus!
