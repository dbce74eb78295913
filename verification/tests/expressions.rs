use rudf::model::{Literal, NamedNode, Term};
use rudf::sparql::algebra::{BinaryOperator, UnaryOperator};
use rudf::sparql::dataset::{DatasetView, EncodedTerm};
use rudf::sparql::evaluator::SimpleEvaluator;
use rudf::sparql::plan::PlanExpression;

fn num(n: i64) -> Option<EncodedTerm> {
    Some(EncodedTerm::IntegerLiteral(n))
}

fn boolean(b: bool) -> Option<EncodedTerm> {
    Some(EncodedTerm::BooleanLiteral(b))
}

struct Terms {
    evaluator: SimpleEvaluator,
    iri: Option<EncodedTerm>,
    empty: Option<EncodedTerm>,
    apple: Option<EncodedTerm>,
    apricot: Option<EncodedTerm>,
    tagged: Option<EncodedTerm>,
}

fn terms() -> Terms {
    let mut view = DatasetView::new();
    let iri = view.encode_term(&Term::iri("http://example.com/a")).ok();
    let empty = view.encode_term(&Term::simple_literal("")).ok();
    let apple = view.encode_term(&Term::simple_literal("apple")).ok();
    let apricot = view.encode_term(&Term::simple_literal("apricot")).ok();
    let tagged =
        view.encode_term(&Term::Literal(Literal::new_language_tagged_literal("apple", "en"))).ok();
    Terms { evaluator: SimpleEvaluator::new(view), iri, empty, apple, apricot, tagged }
}

#[test]
fn effective_boolean_values() {
    let t = terms();
    let e = &t.evaluator;
    assert_eq!(e.effective_boolean_value(boolean(true)), Some(true));
    assert_eq!(e.effective_boolean_value(boolean(false)), Some(false));
    assert_eq!(e.effective_boolean_value(num(0)), Some(false));
    assert_eq!(e.effective_boolean_value(num(-4)), Some(true));
    assert_eq!(e.effective_boolean_value(t.empty), Some(false));
    assert_eq!(e.effective_boolean_value(t.apple), Some(true));
    assert_eq!(e.effective_boolean_value(t.iri), None);
    assert_eq!(e.effective_boolean_value(t.tagged), None);
    assert_eq!(e.effective_boolean_value(None), None);
}

#[test]
fn arithmetic_is_exact_and_fails_out_of_range() {
    let t = terms();
    let e = &t.evaluator;
    assert_eq!(e.binary(BinaryOperator::Add, num(2), num(3)), num(5));
    assert_eq!(e.binary(BinaryOperator::Subtract, num(2), num(3)), num(-1));
    assert_eq!(e.binary(BinaryOperator::Multiply, num(-4), num(3)), num(-12));
    assert_eq!(e.binary(BinaryOperator::Add, num(i64::MAX), num(1)), None);
    assert_eq!(e.binary(BinaryOperator::Subtract, num(i64::MIN), num(1)), None);
    assert_eq!(e.binary(BinaryOperator::Multiply, num(i64::MAX), num(2)), None);
    assert_eq!(e.binary(BinaryOperator::Multiply, num(i64::MIN), num(-1)), None);
    assert_eq!(e.binary(BinaryOperator::Add, num(1), t.apple), None);
    assert_eq!(e.binary(BinaryOperator::Add, num(1), None), None);
    assert_eq!(e.unary(UnaryOperator::Minus, num(5)), num(-5));
    assert_eq!(e.unary(UnaryOperator::Minus, num(i64::MIN)), None);
    assert_eq!(e.unary(UnaryOperator::Plus, num(5)), num(5));
    assert_eq!(e.unary(UnaryOperator::Plus, t.apple), None);
}

#[test]
fn comparisons_need_comparable_values() {
    let t = terms();
    let e = &t.evaluator;
    assert_eq!(e.binary(BinaryOperator::Less, num(2), num(3)), boolean(true));
    assert_eq!(e.binary(BinaryOperator::Less, num(3), num(3)), boolean(false));
    assert_eq!(e.binary(BinaryOperator::LessOrEqual, num(3), num(3)), boolean(true));
    assert_eq!(e.binary(BinaryOperator::Greater, num(2), num(3)), boolean(false));
    assert_eq!(e.binary(BinaryOperator::GreaterOrEqual, num(4), num(3)), boolean(true));
    assert_eq!(e.binary(BinaryOperator::Less, t.apple, t.apricot), boolean(true));
    assert_eq!(e.binary(BinaryOperator::Greater, t.apple, t.apricot), boolean(false));
    assert_eq!(e.binary(BinaryOperator::Less, t.empty, t.apple), boolean(true));
    assert_eq!(e.binary(BinaryOperator::Less, boolean(false), boolean(true)), boolean(true));
    assert_eq!(e.binary(BinaryOperator::Less, num(2), t.apple), None);
    assert_eq!(e.binary(BinaryOperator::Less, t.iri, t.iri), None);
    assert_eq!(e.binary(BinaryOperator::Less, None, num(1)), None);
}

#[test]
fn equality_is_on_terms_and_fails_on_literals_it_cannot_compare() {
    let t = terms();
    let e = &t.evaluator;
    assert_eq!(e.binary(BinaryOperator::Equal, num(2), num(2)), boolean(true));
    assert_eq!(e.binary(BinaryOperator::Equal, num(2), num(3)), boolean(false));
    assert_eq!(e.binary(BinaryOperator::NotEqual, num(2), num(3)), boolean(true));
    assert_eq!(e.binary(BinaryOperator::Equal, t.apple, t.apricot), boolean(false));
    assert_eq!(e.binary(BinaryOperator::Equal, t.apple, t.tagged), None);
    assert_eq!(e.binary(BinaryOperator::NotEqual, t.apple, num(1)), None);
    assert_eq!(e.binary(BinaryOperator::Equal, t.iri, t.apple), boolean(false));
    assert_eq!(e.binary(BinaryOperator::Equal, t.iri, t.iri), boolean(true));
    assert_eq!(e.binary(BinaryOperator::SameTerm, t.apple, t.tagged), boolean(false));
    assert_eq!(e.binary(BinaryOperator::SameTerm, t.apple, t.apple), boolean(true));
    assert_eq!(e.binary(BinaryOperator::SameTerm, t.apple, None), None);
}

#[test]
fn logic_tolerates_an_error_on_one_side() {
    let t = terms();
    let e = &t.evaluator;
    assert_eq!(e.binary(BinaryOperator::Or, boolean(true), None), boolean(true));
    assert_eq!(e.binary(BinaryOperator::Or, None, boolean(true)), boolean(true));
    assert_eq!(e.binary(BinaryOperator::Or, boolean(false), None), None);
    assert_eq!(e.binary(BinaryOperator::Or, boolean(false), boolean(false)), boolean(false));
    assert_eq!(e.binary(BinaryOperator::And, boolean(false), None), boolean(false));
    assert_eq!(e.binary(BinaryOperator::And, t.iri, boolean(false)), boolean(false));
    assert_eq!(e.binary(BinaryOperator::And, boolean(true), None), None);
    assert_eq!(e.binary(BinaryOperator::And, boolean(true), num(7)), boolean(true));
    assert_eq!(e.unary(UnaryOperator::Not, boolean(true)), boolean(false));
    assert_eq!(e.unary(UnaryOperator::Not, num(0)), boolean(true));
    assert_eq!(e.unary(UnaryOperator::Not, t.iri), None);
    assert_eq!(e.unary(UnaryOperator::Not, None), None);
}

#[test]
fn kind_tests() {
    let t = terms();
    let e = &t.evaluator;
    let blank = Some(EncodedTerm::BlankNode { id: 1 });
    assert_eq!(e.unary(UnaryOperator::IsIri, t.iri), boolean(true));
    assert_eq!(e.unary(UnaryOperator::IsIri, t.apple), boolean(false));
    assert_eq!(e.unary(UnaryOperator::IsBlank, blank), boolean(true));
    assert_eq!(e.unary(UnaryOperator::IsBlank, t.iri), boolean(false));
    assert_eq!(e.unary(UnaryOperator::IsLiteral, t.tagged), boolean(true));
    assert_eq!(e.unary(UnaryOperator::IsLiteral, num(3)), boolean(true));
    assert_eq!(e.unary(UnaryOperator::IsLiteral, blank), boolean(false));
    assert_eq!(e.unary(UnaryOperator::IsNumeric, num(3)), boolean(true));
    assert_eq!(e.unary(UnaryOperator::IsNumeric, t.apple), boolean(false));
    assert_eq!(e.unary(UnaryOperator::IsIri, None), None);
}

#[test]
fn string_tests() {
    let t = terms();
    let e = &t.evaluator;
    assert_eq!(e.unary(UnaryOperator::StrLen, t.apple), num(5));
    assert_eq!(e.unary(UnaryOperator::StrLen, t.empty), num(0));
    assert_eq!(e.unary(UnaryOperator::StrLen, t.tagged), num(5));
    assert_eq!(e.unary(UnaryOperator::StrLen, t.iri), None);
    assert_eq!(e.binary(BinaryOperator::StrStarts, t.apricot, t.apple), boolean(false));
    assert_eq!(e.binary(BinaryOperator::StrStarts, t.apple, t.empty), boolean(true));
    assert_eq!(e.binary(BinaryOperator::StrStarts, t.tagged, t.apple), boolean(true));
    assert_eq!(e.binary(BinaryOperator::StrEnds, t.apple, t.apple), boolean(true));
    assert_eq!(e.binary(BinaryOperator::StrEnds, t.empty, t.apple), boolean(false));
    assert_eq!(e.binary(BinaryOperator::Contains, t.apricot, t.empty), boolean(true));
    assert_eq!(e.binary(BinaryOperator::Contains, t.apple, t.apricot), boolean(false));
    assert_eq!(e.binary(BinaryOperator::Contains, t.apple, num(1)), None);
}

#[test]
fn expressions_over_rows() {
    let t = terms();
    let e = &t.evaluator;
    let row = vec![num(4), None];
    let variable = |slot| Box::new(PlanExpression::Variable(slot));
    let number = |n| Box::new(PlanExpression::Constant(EncodedTerm::IntegerLiteral(n)));
    assert_eq!(e.eval_expression(&PlanExpression::Variable(0), &row), num(4));
    assert_eq!(e.eval_expression(&PlanExpression::Variable(1), &row), None);
    assert_eq!(e.eval_expression(&PlanExpression::Variable(9), &row), None);
    assert_eq!(e.eval_expression(&PlanExpression::Bound(0), &row), boolean(true));
    assert_eq!(e.eval_expression(&PlanExpression::Bound(1), &row), boolean(false));
    assert_eq!(e.eval_expression(&PlanExpression::Bound(9), &row), boolean(false));
    let sum = PlanExpression::Binary(BinaryOperator::Add, variable(0), number(1));
    assert_eq!(e.eval_expression(&sum, &row), num(5));
    let choice = PlanExpression::If(Box::new(PlanExpression::Bound(1)), number(1), number(2));
    assert_eq!(e.eval_expression(&choice, &row), num(2));
    let failing = PlanExpression::If(variable(1), number(1), number(2));
    assert_eq!(e.eval_expression(&failing, &row), None);
    let first = PlanExpression::Coalesce(vec![
        PlanExpression::Variable(1),
        PlanExpression::Binary(BinaryOperator::Add, variable(1), number(1)),
        PlanExpression::Variable(0),
        PlanExpression::Constant(EncodedTerm::IntegerLiteral(9)),
    ]);
    assert_eq!(e.eval_expression(&first, &row), num(4));
    assert_eq!(e.eval_expression(&PlanExpression::Coalesce(vec![]), &row), None);
    assert!(e.holds_on(&PlanExpression::Variable(0), &row));
    assert!(!e.holds_on(&PlanExpression::Variable(1), &row));
}

#[test]
fn absolute_values() {
    let t = terms();
    let e = &t.evaluator;
    assert_eq!(e.unary(UnaryOperator::Abs, num(-5)), num(5));
    assert_eq!(e.unary(UnaryOperator::Abs, num(5)), num(5));
    assert_eq!(e.unary(UnaryOperator::Abs, num(i64::MIN)), None);
    assert_eq!(e.unary(UnaryOperator::Abs, t.apple), None);
}

#[test]
fn parts_of_a_date_with_a_time() {
    let mut view = DatasetView::new();
    let date_time = |view: &mut DatasetView, text: &str, datatype: &str| {
        view.encode_term(&Term::Literal(Literal::new_typed_literal(text, NamedNode::new(datatype))))
            .ok()
    };
    let xsd = "http://www.w3.org/2001/XMLSchema#dateTime";
    let moment = date_time(&mut view, "2019-03-07T18:45:09.5Z", xsd);
    let short = date_time(&mut view, "2019-03-07", xsd);
    let misshapen = date_time(&mut view, "2019/03/07T18:45:09", xsd);
    let other = date_time(&mut view, "2019-03-07T18:45:09", "http://www.w3.org/2001/XMLSchema#string");
    let e = SimpleEvaluator::new(view);
    assert_eq!(e.unary(UnaryOperator::Year, moment), num(2019));
    assert_eq!(e.unary(UnaryOperator::Month, moment), num(3));
    assert_eq!(e.unary(UnaryOperator::Day, moment), num(7));
    assert_eq!(e.unary(UnaryOperator::Hours, moment), num(18));
    assert_eq!(e.unary(UnaryOperator::Minutes, moment), num(45));
    assert_eq!(e.unary(UnaryOperator::Year, short), None);
    assert_eq!(e.unary(UnaryOperator::Year, misshapen), None);
    assert_eq!(e.unary(UnaryOperator::Year, other), None);
    assert_eq!(e.unary(UnaryOperator::Year, num(2019)), None);
}
