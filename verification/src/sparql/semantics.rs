use crate::sparql::algebra::{BinaryOperator, UnaryOperator};
use crate::sparql::dataset::{Dataset, EncodedTerm};
use crate::sparql::plan::{restrict_each, answer_at, bind_slot, distinct_rows, minus_rows, overlay, overlay_each, restrict, scan_each,
    slice_rows, static_rows, unbound_row, rows_view, PlanAggregationFunction, PlanExpression,
    PlanNode, QuadPattern, Row,};
use crate::sparql::text::{text_contains, occurs_at, text_precedes};
use vstd::prelude::*;

verus! {

/// The text with identifier `id`, empty where the store holds none.
pub open spec fn text_at(strings: Seq<Seq<char>>, id: u64) -> Seq<char> {
    if id < strings.len() {
        strings[id as int]
    } else {
        Seq::empty()
    }
}

/// Whether a term is a literal.
pub open spec fn is_literal(term: EncodedTerm) -> bool {
    term is StringLiteral || term is LangStringLiteral || term is TypedLiteral
        || term is BooleanLiteral || term is IntegerLiteral
}

/// The boolean `b` as a term.
pub open spec fn boolean(b: bool) -> Option<EncodedTerm> {
    Some(EncodedTerm::BooleanLiteral(b))
}

/// The integer `n` as a term, an error where it does not fit in 64 bits.
pub open spec fn integer(n: int) -> Option<EncodedTerm> {
    if i64::MIN <= n <= i64::MAX {
        Some(EncodedTerm::IntegerLiteral(n as i64))
    } else {
        None
    }
}

/// The effective boolean value: that of a boolean, whether an integer is
/// not zero, whether a plain string is not empty; an error for anything
/// else.
pub open spec fn effective_boolean(strings: Seq<Seq<char>>, value: Option<EncodedTerm>) -> Option<
    bool,
> {
    match value {
        Some(EncodedTerm::BooleanLiteral(b)) => Some(b),
        Some(EncodedTerm::IntegerLiteral(n)) => Some(n != 0),
        Some(EncodedTerm::StringLiteral { value_id }) => Some(text_at(strings, value_id).len() > 0),
        _ => None,
    }
}

/// The place of a kind of term in the order of `ORDER BY`: unbound, then
/// blank nodes, then IRIs, then literals.
pub open spec fn kind_rank(value: Option<EncodedTerm>) -> int {
    match value {
        None => 0,
        Some(EncodedTerm::BlankNode { .. }) => 1,
        Some(EncodedTerm::NamedNode { .. }) => 2,
        Some(EncodedTerm::DefaultGraph) => 4,
        Some(_) => 3,
    }
}

/// The place of a kind of literal among literals of different kinds.
pub open spec fn literal_rank(term: EncodedTerm) -> int {
    match term {
        EncodedTerm::StringLiteral { .. } => 0,
        EncodedTerm::LangStringLiteral { .. } => 1,
        EncodedTerm::TypedLiteral { .. } => 2,
        EncodedTerm::BooleanLiteral(_) => 3,
        _ => 4,
    }
}

/// Whether the pair of texts `(a1, a2)` comes before `(b1, b2)`.
pub open spec fn pair_precedes(a1: Seq<char>, a2: Seq<char>, b1: Seq<char>, b2: Seq<char>) -> bool {
    text_precedes(a1, b1) || (!text_precedes(b1, a1) && text_precedes(a2, b2))
}

/// Whether `a` comes strictly before `b` in the order of `ORDER BY`:
/// unbound before blank nodes before IRIs before literals; blank nodes by
/// identifier, IRIs by text, integers by value, `false` before `true`, plain
/// strings by text; literals of different kinds by kind, and the others by
/// their texts.
pub open spec fn slot_precedes(
    strings: Seq<Seq<char>>,
    a: Option<EncodedTerm>,
    b: Option<EncodedTerm>,
) -> bool {
    if kind_rank(a) != kind_rank(b) {
        kind_rank(a) < kind_rank(b)
    } else {
        match (a, b) {
            (Some(EncodedTerm::BlankNode { id: x }), Some(EncodedTerm::BlankNode { id: y })) => x
                < y,
            (
                Some(EncodedTerm::NamedNode { iri_id: x }),
                Some(EncodedTerm::NamedNode { iri_id: y }),
            ) => text_precedes(text_at(strings, x), text_at(strings, y)),
            (Some(EncodedTerm::IntegerLiteral(x)), Some(EncodedTerm::IntegerLiteral(y))) => x < y,
            (Some(EncodedTerm::BooleanLiteral(x)), Some(EncodedTerm::BooleanLiteral(y))) => !x
                && y,
            (
                Some(EncodedTerm::StringLiteral { value_id: x }),
                Some(EncodedTerm::StringLiteral { value_id: y }),
            ) => text_precedes(text_at(strings, x), text_at(strings, y)),
            (
                Some(EncodedTerm::LangStringLiteral { value_id: x, language_id: lx }),
                Some(EncodedTerm::LangStringLiteral { value_id: y, language_id: ly }),
            ) => pair_precedes(
                text_at(strings, x),
                text_at(strings, lx),
                text_at(strings, y),
                text_at(strings, ly),
            ),
            (
                Some(EncodedTerm::TypedLiteral { value_id: x, datatype_id: dx }),
                Some(EncodedTerm::TypedLiteral { value_id: y, datatype_id: dy }),
            ) => pair_precedes(
                text_at(strings, x),
                text_at(strings, dx),
                text_at(strings, y),
                text_at(strings, dy),
            ),
            (Some(x), Some(y)) => literal_rank(x) < literal_rank(y),
            _ => false,
        }
    }
}

/// Whether two values can be compared with `<`: two integers, two booleans
/// or two plain strings.
pub open spec fn comparable(a: EncodedTerm, b: EncodedTerm) -> bool {
    ||| a is IntegerLiteral && b is IntegerLiteral
    ||| a is BooleanLiteral && b is BooleanLiteral
    ||| a is StringLiteral && b is StringLiteral
}

/// The value of `=`: the same term is equal; two comparable literals that
/// differ are unequal; two other literals that differ are an error; a term
/// that is no literal is unequal to every other term.
pub open spec fn value_equal(a: EncodedTerm, b: EncodedTerm) -> Option<bool> {
    if a == b {
        Some(true)
    } else if is_literal(a) && is_literal(b) {
        if comparable(a, b) {
            Some(false)
        } else {
            None
        }
    } else {
        Some(false)
    }
}

/// The value of `<` on two comparable values, an error on others.
pub open spec fn value_less(strings: Seq<Seq<char>>, a: EncodedTerm, b: EncodedTerm) -> Option<
    bool,
> {
    if comparable(a, b) {
        Some(slot_precedes(strings, Some(a), Some(b)))
    } else {
        None
    }
}

/// The negation of a truth value as a term; an error stays an error.
pub open spec fn negate(value: Option<bool>) -> Option<EncodedTerm> {
    match value {
        Some(b) => boolean(!b),
        None => None,
    }
}

/// A truth value as a term; an error stays an error.
pub open spec fn truth(value: Option<bool>) -> Option<EncodedTerm> {
    match value {
        Some(b) => boolean(b),
        None => None,
    }
}

/// The text of a plain or language-tagged string.
pub open spec fn string_text(strings: Seq<Seq<char>>, term: EncodedTerm) -> Option<Seq<char>> {
    match term {
        EncodedTerm::StringLiteral { value_id } => Some(text_at(strings, value_id)),
        EncodedTerm::LangStringLiteral { value_id, .. } => Some(text_at(strings, value_id)),
        _ => None,
    }
}

/// The IRI of the datatype of dates with times.
pub open spec fn xsd_date_time() -> Seq<char> {
    "http://www.w3.org/2001/XMLSchema#dateTime"@
}

/// The digit that stands at position `at` of a text.
pub open spec fn digit_at(text: Seq<char>, at: int) -> int {
    text[at] as u32 - 48
}

/// Whether decimal digits stand at the positions from `from` up to `to`.
pub open spec fn digits_between(text: Seq<char>, from: int, to: int) -> bool {
    forall|k: int| from <= k < to ==> crate::sparql::numeric::is_digit(#[trigger] text[k])
}

/// Whether a text starts as the lexical form of a date with a time does:
/// four digits of the year, the month, the day, `T`, the hours, the minutes
/// and the seconds, with `-` and `:` between them.
pub open spec fn is_date_time(text: Seq<char>) -> bool {
    &&& text.len() >= 19
    &&& digits_between(text, 0, 4)
    &&& text[4] == '-'
    &&& digits_between(text, 5, 7)
    &&& text[7] == '-'
    &&& digits_between(text, 8, 10)
    &&& text[10] == 'T'
    &&& digits_between(text, 11, 13)
    &&& text[13] == ':'
    &&& digits_between(text, 14, 16)
    &&& text[16] == ':'
    &&& digits_between(text, 17, 19)
}

/// The part of a date with a time that an operator takes out of its
/// lexical form.
pub open spec fn date_part(operator: UnaryOperator, text: Seq<char>) -> int {
    match operator {
        UnaryOperator::Year => 1000 * digit_at(text, 0) + 100 * digit_at(text, 1) + 10 * digit_at(
            text,
            2,
        ) + digit_at(text, 3),
        UnaryOperator::Month => 10 * digit_at(text, 5) + digit_at(text, 6),
        UnaryOperator::Day => 10 * digit_at(text, 8) + digit_at(text, 9),
        UnaryOperator::Hours => 10 * digit_at(text, 11) + digit_at(text, 12),
        _ => 10 * digit_at(text, 14) + digit_at(text, 15),
    }
}

/// The lexical form of a term that is a date with a time.
pub open spec fn date_time_text(strings: Seq<Seq<char>>, term: EncodedTerm) -> Option<Seq<char>> {
    match term {
        EncodedTerm::TypedLiteral { value_id, datatype_id } => if text_at(strings, datatype_id)
            == xsd_date_time() && is_date_time(text_at(strings, value_id)) {
            Some(text_at(strings, value_id))
        } else {
            None
        },
        _ => None,
    }
}

/// The value of an operator with one operand; `None` is an error, and an
/// error in the operand is an error.
pub open spec fn apply_unary(
    operator: UnaryOperator,
    strings: Seq<Seq<char>>,
    a: Option<EncodedTerm>,
) -> Option<EncodedTerm> {
    match a {
        None => None,
        Some(term) => match operator {
            UnaryOperator::Not => negate(effective_boolean(strings, a)),
            UnaryOperator::Plus => if term is IntegerLiteral {
                a
            } else {
                None
            },
            UnaryOperator::Minus => match term {
                EncodedTerm::IntegerLiteral(n) => integer(-n),
                _ => None,
            },
            UnaryOperator::IsIri => boolean(term is NamedNode),
            UnaryOperator::IsBlank => boolean(term is BlankNode),
            UnaryOperator::IsLiteral => boolean(is_literal(term)),
            UnaryOperator::IsNumeric => boolean(term is IntegerLiteral),
            UnaryOperator::StrLen => match string_text(strings, term) {
                Some(text) => integer(text.len() as int),
                None => None,
            },
            UnaryOperator::Abs => match term {
                EncodedTerm::IntegerLiteral(n) => integer(
                    if n < 0 {
                        -n
                    } else {
                        n as int
                    },
                ),
                _ => None,
            },
            _ => match date_time_text(strings, term) {
                Some(text) => integer(date_part(operator, text)),
                None => None,
            },
        },
    }
}

/// The value of `||`: true if either side is true, false if both are
/// false, else an error.
pub open spec fn logical_or(a: Option<bool>, b: Option<bool>) -> Option<bool> {
    if a == Some(true) || b == Some(true) {
        Some(true)
    } else if a == Some(false) && b == Some(false) {
        Some(false)
    } else {
        None
    }
}

/// The value of `&&`: false if either side is false, true if both are
/// true, else an error.
pub open spec fn logical_and(a: Option<bool>, b: Option<bool>) -> Option<bool> {
    if a == Some(false) || b == Some(false) {
        Some(false)
    } else if a == Some(true) && b == Some(true) {
        Some(true)
    } else {
        None
    }
}

/// The value of an arithmetic operator on two integers.
pub open spec fn arithmetic(operator: BinaryOperator, x: int, y: int) -> int {
    match operator {
        BinaryOperator::Add => x + y,
        BinaryOperator::Subtract => x - y,
        _ => x * y,
    }
}

/// The value of a string test on two texts.
pub open spec fn string_test(operator: BinaryOperator, a: Seq<char>, b: Seq<char>) -> bool {
    match operator {
        BinaryOperator::Contains => text_contains(a, b),
        BinaryOperator::StrStarts => occurs_at(a, b, 0),
        _ => occurs_at(a, b, a.len() - b.len()),
    }
}

/// The value of an operator with two operands; `None` is an error. The
/// logical operators tolerate an error on one side; every other operator
/// fails where an operand fails.
pub open spec fn apply_binary(
    operator: BinaryOperator,
    strings: Seq<Seq<char>>,
    a: Option<EncodedTerm>,
    b: Option<EncodedTerm>,
) -> Option<EncodedTerm> {
    match operator {
        BinaryOperator::Or => truth(
            logical_or(effective_boolean(strings, a), effective_boolean(strings, b)),
        ),
        BinaryOperator::And => truth(
            logical_and(effective_boolean(strings, a), effective_boolean(strings, b)),
        ),
        _ => match (a, b) {
            (Some(x), Some(y)) => match operator {
                BinaryOperator::Equal => truth(value_equal(x, y)),
                BinaryOperator::NotEqual => negate(value_equal(x, y)),
                BinaryOperator::Less => truth(value_less(strings, x, y)),
                BinaryOperator::Greater => truth(value_less(strings, y, x)),
                BinaryOperator::LessOrEqual => negate(value_less(strings, y, x)),
                BinaryOperator::GreaterOrEqual => negate(value_less(strings, x, y)),
                BinaryOperator::SameTerm => boolean(x == y),
                BinaryOperator::Add | BinaryOperator::Subtract | BinaryOperator::Multiply => match (
                    x,
                    y,
                ) {
                    (EncodedTerm::IntegerLiteral(m), EncodedTerm::IntegerLiteral(n)) => integer(
                        arithmetic(operator, m as int, n as int),
                    ),
                    _ => None,
                },
                _ => match (string_text(strings, x), string_text(strings, y)) {
                    (Some(s), Some(t)) => boolean(string_test(operator, s, t)),
                    _ => None,
                },
            },
            _ => None,
        },
    }
}

/// The values that are no error, in their order.
pub open spec fn present(values: Seq<Option<EncodedTerm>>) -> Seq<EncodedTerm>
    decreases values.len(),
{
    if values.len() == 0 {
        Seq::empty()
    } else {
        let rest = present(values.drop_last());
        match values.last() {
            Some(term) => rest.push(term),
            None => rest,
        }
    }
}

/// The terms without repeats: each where it first occurs.
pub open spec fn distinct_terms(terms: Seq<EncodedTerm>) -> Seq<EncodedTerm>
    decreases terms.len(),
{
    if terms.len() == 0 {
        Seq::empty()
    } else {
        let rest = distinct_terms(terms.drop_last());
        if rest.contains(terms.last()) {
            rest
        } else {
            rest.push(terms.last())
        }
    }
}

/// The sum of the integers among the terms; other terms are passed over.
pub open spec fn sum_of(terms: Seq<EncodedTerm>) -> int
    decreases terms.len(),
{
    if terms.len() == 0 {
        0
    } else {
        sum_of(terms.drop_last()) + match terms.last() {
            EncodedTerm::IntegerLiteral(n) => n as int,
            _ => 0,
        }
    }
}

/// The number of integers among the terms.
pub open spec fn integers_in(terms: Seq<EncodedTerm>) -> nat
    decreases terms.len(),
{
    if terms.len() == 0 {
        0
    } else {
        integers_in(terms.drop_last()) + match terms.last() {
            EncodedTerm::IntegerLiteral(_) => 1nat,
            _ => 0nat,
        }
    }
}

/// The lexical form of the mean of the integers among the terms, as a
/// decimal number; `None` where there is no integer among them, or where
/// their sum or their number does not fit in 64 bits.
pub open spec fn mean_text(terms: Seq<EncodedTerm>) -> Option<Seq<char>> {
    if integers_in(terms) > 0 && i64::MIN <= sum_of(terms) <= i64::MAX && integers_in(terms)
        <= i64::MAX {
        Some(crate::sparql::numeric::decimal_text(sum_of(terms), integers_in(terms) as int))
    } else {
        None
    }
}

/// The mean of the integers among the terms; other terms are passed over.
/// It is the integer zero where there is no integer, and else a decimal
/// number, where the store holds its lexical form and the datatype of
/// decimal numbers.
pub open spec fn mean_of(strings: Seq<Seq<char>>, terms: Seq<EncodedTerm>) -> Option<EncodedTerm> {
    if integers_in(terms) == 0 {
        integer(0)
    } else {
        match (
            mean_text(terms),
            crate::sparql::dataset::position_of(strings, crate::sparql::grammar::xsd_decimal()),
        ) {
            (Some(text), Some(id)) => if strings.len() <= u64::MAX {
                crate::sparql::texts::built_term(
                    strings,
                    crate::sparql::texts::BuiltView {
                        text,
                        kind: crate::sparql::texts::BuiltKind::Typed(id),
                    },
                )
            } else {
                None
            },
            _ => None,
        }
    }
}

/// The least term in the order of `ORDER BY`, the first of them where
/// several are least; `None` where there is no term.
pub open spec fn least_of(strings: Seq<Seq<char>>, terms: Seq<EncodedTerm>) -> Option<
    EncodedTerm,
>
    decreases terms.len(),
{
    if terms.len() == 0 {
        None
    } else {
        match least_of(strings, terms.drop_last()) {
            None => Some(terms.last()),
            Some(least) => if slot_precedes(strings, Some(terms.last()), Some(least)) {
                Some(terms.last())
            } else {
                Some(least)
            },
        }
    }
}

/// The greatest term in the order of `ORDER BY`, the first of them where
/// several are greatest; `None` where there is no term.
pub open spec fn greatest_of(strings: Seq<Seq<char>>, terms: Seq<EncodedTerm>) -> Option<
    EncodedTerm,
>
    decreases terms.len(),
{
    if terms.len() == 0 {
        None
    } else {
        match greatest_of(strings, terms.drop_last()) {
            None => Some(terms.last()),
            Some(greatest) => if slot_precedes(strings, Some(greatest), Some(terms.last())) {
                Some(terms.last())
            } else {
                Some(greatest)
            },
        }
    }
}

/// The result of an aggregate over the values of its argument on the rows
/// of a group. `COUNT` counts the values that are no error; `SUM` adds the
/// integers among them and fails where the sum does not fit; `MIN` and `MAX`
/// take the least and the greatest; `SAMPLE` takes the first; `AVG`
/// gives the mean of the integers among them; `GROUP_CONCAT` gives the string of their lexical forms with the
/// separator between each two, where the store holds that text, and fails
/// where one of them has no lexical form. With `distinct`, equal values
/// count once.
pub open spec fn aggregate_of(
    function: PlanAggregationFunction,
    distinct: bool,
    separator: Seq<char>,
    strings: Seq<Seq<char>>,
    values: Seq<Option<EncodedTerm>>,
) -> Option<EncodedTerm> {
    let terms = if distinct {
        distinct_terms(present(values))
    } else {
        present(values)
    };
    match function {
        PlanAggregationFunction::Count => integer(terms.len() as int),
        PlanAggregationFunction::Sum => integer(sum_of(terms)),
        PlanAggregationFunction::Min => least_of(strings, terms),
        PlanAggregationFunction::Max => greatest_of(strings, terms),
        PlanAggregationFunction::Sample => if terms.len() > 0 {
            Some(terms[0])
        } else {
            None
        },
        PlanAggregationFunction::GroupConcat => match crate::sparql::texts::joined_text(
            strings,
            separator,
            terms,
            terms.len() as int,
        ) {
            Some(text) => crate::sparql::texts::built_term(
                strings,
                crate::sparql::texts::BuiltView {
                    text,
                    kind: crate::sparql::texts::BuiltKind::Simple,
                },
            ),
            None => None,
        },
        PlanAggregationFunction::Avg => mean_of(strings, terms),
    }
}

/// The values of the key slots of a row.
pub open spec fn key_of(row: Row, keys: Seq<usize>) -> Row {
    Seq::new(
        keys.len(),
        |i: int|
            if keys[i] < row.len() {
                row[keys[i] as int]
            } else {
                None
            },
    )
}

/// The key of each row.
pub open spec fn keys_of(rows: Seq<Row>, keys: Seq<usize>) -> Seq<Row> {
    Seq::new(rows.len(), |i: int| key_of(rows[i], keys))
}

/// The rows whose key is `key`, in their order.
pub open spec fn members_of(rows: Seq<Row>, keys: Seq<usize>, key: Row) -> Seq<Row>
    decreases rows.len(),
{
    if rows.len() == 0 {
        Seq::empty()
    } else {
        let rest = members_of(rows.drop_last(), keys, key);
        if key_of(rows.last(), keys) == key {
            rest.push(rows.last())
        } else {
            rest
        }
    }
}

/// The quad pattern of a `QuadPatternJoin` node.
pub open spec fn pattern_of(node: PlanNode) -> QuadPattern {
    match node {
        PlanNode::QuadPatternJoin { subject, predicate, object, graph_name, .. } => QuadPattern {
            subject,
            predicate,
            object,
            graph_name,
        },
        _ => arbitrary(),
    }
}

/// The value of an expression on a row; `None` is an error. A variable
/// that is unbound is an error; `EXISTS` holds where its pattern has a
/// solution that extends the row.
pub open spec fn eval_expression(expression: PlanExpression, dataset: Dataset, row: Row) -> Option<
    EncodedTerm,
>
    decreases expression, 3int, 0int,
{
    match expression {
        PlanExpression::Constant(term) => Some(term),
        PlanExpression::Variable(slot) => if slot < row.len() {
            row[slot as int]
        } else {
            None
        },
        PlanExpression::Bound(slot) => boolean(slot < row.len() && row[slot as int] is Some),
        PlanExpression::Unary(operator, a) => apply_unary(
            operator,
            dataset.strings,
            eval_expression(*a, dataset, row),
        ),
        PlanExpression::Binary(operator, a, b) => apply_binary(
            operator,
            dataset.strings,
            eval_expression(*a, dataset, row),
            eval_expression(*b, dataset, row),
        ),
        PlanExpression::If(condition, a, b) => match effective_boolean(
            dataset.strings,
            eval_expression(*condition, dataset, row),
        ) {
            Some(true) => eval_expression(*a, dataset, row),
            Some(false) => eval_expression(*b, dataset, row),
            None => None,
        },
        PlanExpression::Coalesce(arguments) => coalesce_from(expression, dataset, row, 0),
        PlanExpression::Exists(pattern) => boolean(rows(*pattern, dataset, row).len() > 0),
        PlanExpression::Call(function, arguments) => crate::sparql::texts::apply_call(
            function,
            dataset.strings,
            call_values(expression, dataset, row, arguments.len() as int),
        ),
    }
}

/// The values of the first `n` arguments of a call on a row.
pub open spec fn call_values(expression: PlanExpression, dataset: Dataset, row: Row, n: int) -> Seq<
    Option<EncodedTerm>,
>
    decreases expression, 2int, n,
{
    match expression {
        PlanExpression::Call(_, arguments) => if 0 < n <= arguments.len() {
            call_values(expression, dataset, row, n - 1).push(
                eval_expression(arguments[n - 1], dataset, row),
            )
        } else {
            Seq::empty()
        },
        _ => Seq::empty(),
    }
}

/// The first value that is no error among the arguments of a `COALESCE`
/// from position `i` on.
pub open spec fn coalesce_from(expression: PlanExpression, dataset: Dataset, row: Row, i: int) -> Option<
    EncodedTerm,
>
    decreases expression, 2int, expression->Coalesce_0.len() - i,
{
    match expression {
        PlanExpression::Coalesce(arguments) => if 0 <= i < arguments.len() {
            match eval_expression(arguments[i], dataset, row) {
                Some(term) => Some(term),
                None => coalesce_from(expression, dataset, row, i + 1),
            }
        } else {
            None
        },
        _ => None,
    }
}

/// Whether an expression holds on a row: its value has the effective
/// boolean value true. An error does not hold.
pub open spec fn holds(expression: PlanExpression, dataset: Dataset, row: Row) -> bool
    decreases expression, 4int, 0int,
{
    effective_boolean(dataset.strings, eval_expression(expression, dataset, row)) == Some(true)
}

/// The rows that a plan yields from the row `from`, in order.
///
/// Every operator takes the bindings of `from` as given: a join hands each
/// row of its left side to its right side.
pub open spec fn rows(node: PlanNode, dataset: Dataset, from: Row) -> Seq<Row>
    decreases node, 3int, 0int,
{
    match node {
        PlanNode::Init => seq![from],
        PlanNode::StaticBindings { tuples } => static_rows(from, rows_view(tuples@)),
        PlanNode::Service { id, slots } => match answer_at(dataset, id) {
            Some(tuples) => static_rows(from, restrict_each(tuples, slots@)),
            None => seq![from],
        },
        PlanNode::QuadPatternJoin { child, .. } => scan_each(
            rows(*child, dataset, from),
            pattern_of(node),
            dataset.quads,
        ),
        PlanNode::Join { left, right } => join_each(node, dataset, rows(*left, dataset, from)),
        PlanNode::LeftJoin { left, .. } => left_join_each(
            node,
            dataset,
            rows(*left, dataset, from),
        ),
        PlanNode::Union { left, right } => rows(*left, dataset, from) + rows(
            *right,
            dataset,
            from,
        ),
        PlanNode::Minus { left, right } => minus_rows(
            rows(*left, dataset, from),
            rows(*right, dataset, unbound_row(from.len())),
        ),
        PlanNode::Filter { child, .. } => filter_each(node, dataset, rows(*child, dataset, from)),
        PlanNode::Extend { child, .. } => extend_each(node, dataset, rows(*child, dataset, from)),
        PlanNode::Project { child, slots } => overlay_each(
            from,
            rows(*child, dataset, restrict(from, slots@)),
            slots@,
        ),
        PlanNode::Group { child, keys, .. } => {
            let input = rows(*child, dataset, restrict(from, keys@));
            group_each(node, dataset, from, input, distinct_rows(keys_of(input, keys@)))
        },
        PlanNode::Sort { child, .. } => sort_rows(node, dataset, rows(*child, dataset, from)),
        PlanNode::Distinct { child } => distinct_rows(rows(*child, dataset, from)),
        PlanNode::Reduced { child } => distinct_rows(rows(*child, dataset, from)),
        PlanNode::Slice { child, start, length } => slice_rows(
            rows(*child, dataset, from),
            start,
            length,
        ),
    }
}

/// For each left row in turn, the rows of the right side from it.
pub open spec fn join_each(node: PlanNode, dataset: Dataset, lefts: Seq<Row>) -> Seq<Row>
    decreases node, 2int, lefts.len(),
{
    match node {
        PlanNode::Join { right, .. } => if lefts.len() == 0 {
            Seq::empty()
        } else {
            join_each(node, dataset, lefts.drop_last()) + rows(*right, dataset, lefts.last())
        },
        _ => Seq::empty(),
    }
}

/// The rows on which the expression of a `LeftJoin` holds; all of them
/// where it has none.
pub open spec fn optional_matches(node: PlanNode, dataset: Dataset, candidates: Seq<Row>) -> Seq<
    Row,
>
    decreases node, 1int, candidates.len(),
{
    match node {
        PlanNode::LeftJoin { expression, .. } => if candidates.len() == 0 {
            Seq::empty()
        } else {
            let rest = optional_matches(node, dataset, candidates.drop_last());
            let keep = match expression {
                Some(condition) => holds(condition, dataset, candidates.last()),
                None => true,
            };
            if keep {
                rest.push(candidates.last())
            } else {
                rest
            }
        },
        _ => Seq::empty(),
    }
}

/// For each left row in turn, the rows of the right side from it on which
/// the expression holds, or the left row itself where there is none.
pub open spec fn left_join_each(node: PlanNode, dataset: Dataset, lefts: Seq<Row>) -> Seq<Row>
    decreases node, 2int, lefts.len(),
{
    match node {
        PlanNode::LeftJoin { right, .. } => if lefts.len() == 0 {
            Seq::empty()
        } else {
            let matched = optional_matches(node, dataset, rows(*right, dataset, lefts.last()));
            left_join_each(node, dataset, lefts.drop_last()) + if matched.len() > 0 {
                matched
            } else {
                seq![lefts.last()]
            }
        },
        _ => Seq::empty(),
    }
}

/// The rows on which the expression of a `Filter` holds.
pub open spec fn filter_each(node: PlanNode, dataset: Dataset, input: Seq<Row>) -> Seq<Row>
    decreases node, 2int, input.len(),
{
    match node {
        PlanNode::Filter { expression, .. } => if input.len() == 0 {
            Seq::empty()
        } else {
            let rest = filter_each(node, dataset, input.drop_last());
            if holds(expression, dataset, input.last()) {
                rest.push(input.last())
            } else {
                rest
            }
        },
        _ => Seq::empty(),
    }
}

/// A row after `BIND`: with the value of the expression at the slot; as it
/// is where the expression fails; dropped where the slot holds another
/// value.
pub open spec fn extend_row(node: PlanNode, dataset: Dataset, row: Row) -> Option<Row>
    decreases node, 1int, 0int,
{
    match node {
        PlanNode::Extend { slot, expression, .. } => match eval_expression(
            expression,
            dataset,
            row,
        ) {
            Some(value) => bind_slot(row, slot as int, value),
            None => Some(row),
        },
        _ => None,
    }
}

/// Each row after `BIND`, without those that it drops.
pub open spec fn extend_each(node: PlanNode, dataset: Dataset, input: Seq<Row>) -> Seq<Row>
    decreases node, 2int, input.len(),
{
    if input.len() == 0 {
        Seq::empty()
    } else {
        let rest = extend_each(node, dataset, input.drop_last());
        match extend_row(node, dataset, input.last()) {
            Some(row) => rest.push(row),
            None => rest,
        }
    }
}

/// The values of the argument of aggregate `j` of a `Group` on the rows of
/// one group. `COUNT(*)` has no argument and takes every row: each row
/// gives the value `true`.
pub open spec fn aggregate_values(node: PlanNode, dataset: Dataset, members: Seq<Row>, j: int) -> Seq<
    Option<EncodedTerm>,
>
    decreases node, 0int, members.len(),
{
    match node {
        PlanNode::Group { aggregates, .. } => if members.len() == 0 || !(0 <= j
            < aggregates.len()) {
            Seq::empty()
        } else {
            aggregate_values(node, dataset, members.drop_last(), j).push(
                match aggregates[j].parameter {
                    Some(argument) => eval_expression(argument, dataset, members.last()),
                    None => boolean(true),
                },
            )
        },
        _ => Seq::empty(),
    }
}

/// The row of one group after the first `j` aggregates were bound: an
/// aggregate that fails leaves its slot as it is, and the group is dropped
/// where a slot holds another value.
pub open spec fn aggregate_row(
    node: PlanNode,
    dataset: Dataset,
    members: Seq<Row>,
    base: Row,
    j: int,
) -> Option<Row>
    decreases node, 1int, j,
{
    match node {
        PlanNode::Group { aggregates, .. } => if j <= 0 || j > aggregates.len() {
            Some(base)
        } else {
            match aggregate_row(node, dataset, members, base, j - 1) {
                None => None,
                Some(row) => match aggregate_of(
                    aggregates[j - 1].function,
                    aggregates[j - 1].distinct,
                    aggregates[j - 1].separator@,
                    dataset.strings,
                    aggregate_values(node, dataset, members, j - 1),
                ) {
                    Some(value) => bind_slot(row, aggregates[j - 1].slot as int, value),
                    None => Some(row),
                },
            }
        },
        _ => None,
    }
}

/// One row for each group key in turn: `from` with the key slots of the
/// group and the results of its aggregates.
pub open spec fn group_each(
    node: PlanNode,
    dataset: Dataset,
    from: Row,
    input: Seq<Row>,
    group_keys: Seq<Row>,
) -> Seq<Row>
    decreases node, 2int, group_keys.len(),
{
    match node {
        PlanNode::Group { keys, aggregates, .. } => if group_keys.len() == 0 {
            Seq::empty()
        } else {
            let rest = group_each(node, dataset, from, input, group_keys.drop_last());
            let members = members_of(input, keys@, group_keys.last());
            let base = if members.len() > 0 {
                overlay(from, members[0], keys@)
            } else {
                from
            };
            match aggregate_row(node, dataset, members, base, aggregates.len() as int) {
                Some(row) => rest.push(row),
                None => rest,
            }
        },
        _ => Seq::empty(),
    }
}

/// Whether row `a` sorts strictly before row `b` by the sort keys of a
/// `Sort` from key `j` on: the first key on which they differ decides, and
/// a key that fails sorts as unbound.
pub open spec fn row_precedes(node: PlanNode, dataset: Dataset, a: Row, b: Row, j: int) -> bool
    decreases node, 0int, node->Sort_by.len() - j,
{
    match node {
        PlanNode::Sort { by, .. } => if 0 <= j < by.len() {
            let x = eval_expression(by[j].expression, dataset, a);
            let y = eval_expression(by[j].expression, dataset, b);
            let (first, second) = if by[j].descending {
                (y, x)
            } else {
                (x, y)
            };
            if slot_precedes(dataset.strings, first, second) {
                true
            } else if slot_precedes(dataset.strings, second, first) {
                false
            } else {
                row_precedes(node, dataset, a, b, j + 1)
            }
        } else {
            false
        },
        _ => false,
    }
}

/// `sorted` with `row` put after every row that does not sort after it.
pub open spec fn insert_sorted(node: PlanNode, dataset: Dataset, sorted: Seq<Row>, row: Row) -> Seq<
    Row,
>
    decreases node, 1int, sorted.len(),
{
    if sorted.len() == 0 {
        seq![row]
    } else if row_precedes(node, dataset, row, sorted.last(), 0) {
        insert_sorted(node, dataset, sorted.drop_last(), row).push(sorted.last())
    } else {
        sorted.push(row)
    }
}

/// The rows in the order of the sort keys; rows that no key tells apart
/// keep their order.
pub open spec fn sort_rows(node: PlanNode, dataset: Dataset, input: Seq<Row>) -> Seq<Row>
    decreases node, 2int, input.len(),
{
    if input.len() == 0 {
        Seq::empty()
    } else {
        insert_sorted(node, dataset, sort_rows(node, dataset, input.drop_last()), input.last())
    }
}

} // verus!
