use crate::sparql::algebra::{BinaryOperator, UnaryOperator};
use crate::sparql::dataset::{matching_quads, Dataset, DatasetView, EncodedQuad, EncodedTerm};
use crate::sparql::eval::{
    append_rows, bind_quad_in, bind_slot_in, compatible_rows, copy_row, distinct, is_excluded,
    lemma_scan_matching, merge_rows, new_row, overlay_row, push_row, restrict_row, slice, wanted,
    wanted_in,
};
use crate::sparql::plan::{
    all_width, answers_view, is_unavailable, restrict, restrict_each, ServiceRequest, compatible,
    minus_rows, overlay,
    overlay_each, rows_view, scan_each, scan_row, static_rows, EncodedTuple, PatternValue,
    PlanExpression, PlanNode, QuadPattern, Row,
};
use crate::sparql::semantics::{
    date_part, date_time_text, digit_at, digits_between, is_date_time, apply_binary, apply_unary,
    boolean, coalesce_from, comparable, effective_boolean, eval_expression, extend_each,
    extend_row, filter_each, holds, integer, is_literal, join_each, kind_rank, left_join_each,
    literal_rank, logical_and, logical_or, negate, optional_matches, pair_precedes, rows,
    slot_precedes, string_text, text_at, truth, value_equal, value_less,
};
use crate::sparql::text::{chars_of, contains_text, matches_at, occurs_at, precedes};
use vstd::prelude::*;

verus! {

/// The integer `n` as a term, an error where it does not fit in 64 bits.
fn integer_term(n: i128) -> (term: Option<EncodedTerm>)
    ensures
        term == integer(n as int),
{
    if n < -9223372036854775808 || n > 9223372036854775807 {
        None
    } else {
        Some(EncodedTerm::IntegerLiteral(n as i64))
    }
}

fn kind_rank_of(value: Option<EncodedTerm>) -> (rank: u8)
    ensures
        rank == kind_rank(value),
{
    match value {
        None => 0,
        Some(EncodedTerm::BlankNode { .. }) => 1,
        Some(EncodedTerm::NamedNode { .. }) => 2,
        Some(EncodedTerm::DefaultGraph) => 4,
        Some(_) => 3,
    }
}

fn literal_rank_of(term: EncodedTerm) -> (rank: u8)
    ensures
        rank == literal_rank(term),
{
    match term {
        EncodedTerm::StringLiteral { .. } => 0,
        EncodedTerm::LangStringLiteral { .. } => 1,
        EncodedTerm::TypedLiteral { .. } => 2,
        EncodedTerm::BooleanLiteral(_) => 3,
        _ => 4,
    }
}

fn is_literal_term(term: EncodedTerm) -> (literal: bool)
    ensures
        literal == is_literal(term),
{
    match term {
        EncodedTerm::StringLiteral { .. } => true,
        EncodedTerm::LangStringLiteral { .. } => true,
        EncodedTerm::TypedLiteral { .. } => true,
        EncodedTerm::BooleanLiteral(_) => true,
        EncodedTerm::IntegerLiteral(_) => true,
        _ => false,
    }
}

fn are_comparable(a: EncodedTerm, b: EncodedTerm) -> (yes: bool)
    ensures
        yes == comparable(a, b),
{
    match (a, b) {
        (EncodedTerm::IntegerLiteral(_), EncodedTerm::IntegerLiteral(_)) => true,
        (EncodedTerm::BooleanLiteral(_), EncodedTerm::BooleanLiteral(_)) => true,
        (EncodedTerm::StringLiteral { .. }, EncodedTerm::StringLiteral { .. }) => true,
        _ => false,
    }
}

fn value_equal_of(a: EncodedTerm, b: EncodedTerm) -> (equal: Option<bool>)
    ensures
        equal == value_equal(a, b),
{
    if a == b {
        Some(true)
    } else if is_literal_term(a) && is_literal_term(b) {
        if are_comparable(a, b) {
            Some(false)
        } else {
            None
        }
    } else {
        Some(false)
    }
}

fn truth_of(value: Option<bool>) -> (term: Option<EncodedTerm>)
    ensures
        term == truth(value),
{
    match value {
        Some(b) => Some(EncodedTerm::BooleanLiteral(b)),
        None => None,
    }
}

fn negate_of(value: Option<bool>) -> (term: Option<EncodedTerm>)
    ensures
        term == negate(value),
{
    match value {
        Some(b) => Some(EncodedTerm::BooleanLiteral(!b)),
        None => None,
    }
}

fn logical_or_of(a: Option<bool>, b: Option<bool>) -> (value: Option<bool>)
    ensures
        value == logical_or(a, b),
{
    match (a, b) {
        (Some(true), _) => Some(true),
        (_, Some(true)) => Some(true),
        (Some(false), Some(false)) => Some(false),
        _ => None,
    }
}

fn logical_and_of(a: Option<bool>, b: Option<bool>) -> (value: Option<bool>)
    ensures
        value == logical_and(a, b),
{
    match (a, b) {
        (Some(false), _) => Some(false),
        (_, Some(false)) => Some(false),
        (Some(true), Some(true)) => Some(true),
        _ => None,
    }
}

/// Whether two texts hold the same characters.
pub fn same_chars(a: &Vec<char>, b: &Vec<char>) -> (same: bool)
    ensures
        same == (a@ == b@),
{
    if a.len() != b.len() {
        return false;
    }
    let mut i: usize = 0;
    while i < a.len()
        invariant
            i <= a@.len(),
            a@.len() == b@.len(),
            forall|k: int| 0 <= k < i ==> a@[k] == b@[k],
        decreases a@.len() - i,
    {
        if a[i] != b[i] {
            return false;
        }
        i = i + 1;
    }
    assert(a@ =~= b@);
    true
}

/// Whether decimal digits stand at the positions from `from` up to `to`.
fn digits_between_in(text: &Vec<char>, from: usize, to: usize) -> (all: bool)
    requires
        from <= to <= text@.len(),
    ensures
        all == digits_between(text@, from as int, to as int),
{
    let mut k: usize = from;
    while k < to
        invariant
            from <= k <= to <= text@.len(),
            forall|j: int| from <= j < k ==> crate::sparql::numeric::is_digit(#[trigger] text@[j]),
        decreases to - k,
    {
        if text[k] < '0' || text[k] > '9' {
            return false;
        }
        k = k + 1;
    }
    true
}

/// Whether a text starts as the lexical form of a date with a time does.
pub fn is_date_time_in(text: &Vec<char>) -> (shaped: bool)
    ensures
        shaped == is_date_time(text@),
{
    text.len() >= 19 && digits_between_in(text, 0, 4) && text[4] == '-' && digits_between_in(
        text,
        5,
        7,
    ) && text[7] == '-' && digits_between_in(text, 8, 10) && text[10] == 'T'
        && digits_between_in(text, 11, 13) && text[13] == ':' && digits_between_in(text, 14, 16)
        && text[16] == ':' && digits_between_in(text, 17, 19)
}

pub fn digit_in(text: &Vec<char>, at: usize) -> (digit: i64)
    requires
        at < text@.len(),
        crate::sparql::numeric::is_digit(text@[at as int]),
    ensures
        digit == digit_at(text@, at as int),
        0 <= digit <= 9,
{
    (text[at] as u32 - 48) as i64
}

/// The part of a date with a time that an operator takes out of its
/// lexical form.
fn date_part_of(operator: UnaryOperator, text: &Vec<char>) -> (part: i64)
    requires
        is_date_time(text@),
    ensures
        part == date_part(operator, text@),
{
    assert(forall|k: int| 0 <= k < 4 ==> crate::sparql::numeric::is_digit(#[trigger] text@[k]));
    assert(forall|k: int| 5 <= k < 7 ==> crate::sparql::numeric::is_digit(#[trigger] text@[k]));
    assert(forall|k: int| 8 <= k < 10 ==> crate::sparql::numeric::is_digit(#[trigger] text@[k]));
    assert(forall|k: int| 11 <= k < 13 ==> crate::sparql::numeric::is_digit(#[trigger] text@[k]));
    assert(forall|k: int| 14 <= k < 16 ==> crate::sparql::numeric::is_digit(#[trigger] text@[k]));
    match operator {
        UnaryOperator::Year => 1000 * digit_in(text, 0) + 100 * digit_in(text, 1) + 10 * digit_in(
            text,
            2,
        ) + digit_in(text, 3),
        UnaryOperator::Month => 10 * digit_in(text, 5) + digit_in(text, 6),
        UnaryOperator::Day => 10 * digit_in(text, 8) + digit_in(text, 9),
        UnaryOperator::Hours => 10 * digit_in(text, 11) + digit_in(text, 12),
        _ => 10 * digit_in(text, 14) + digit_in(text, 15),
    }
}

/// Interprets plans against one dataset view and the answers of the
/// services of one query.
pub struct SimpleEvaluator {
    dataset: DatasetView,
    answers: Vec<Option<Vec<EncodedTuple>>>,
}

impl View for SimpleEvaluator {
    type V = Dataset;

    closed spec fn view(&self) -> Dataset {
        Dataset {
            strings: self.dataset@.strings,
            quads: self.dataset@.quads,
            answers: answers_view(self.answers@),
        }
    }
}

impl SimpleEvaluator {
    /// An evaluator over `dataset`, for a query whose services gave no
    /// answer.
    pub fn new(dataset: DatasetView) -> (evaluator: Self)
        ensures
            evaluator@.strings == dataset@.strings,
            evaluator@.quads == dataset@.quads,
            evaluator@.answers.len() == 0,
    {
        SimpleEvaluator { dataset, answers: Vec::new() }
    }

    /// An evaluator over `dataset`, for a query whose services gave the
    /// given answers.
    pub fn with_answers(dataset: DatasetView, answers: Vec<Option<Vec<EncodedTuple>>>) -> (evaluator:
        Self)
        ensures
            evaluator@.strings == dataset@.strings,
            evaluator@.quads == dataset@.quads,
            evaluator@.answers == answers_view(answers@),
    {
        SimpleEvaluator { dataset, answers }
    }

    /// Asks the handler for each federated pattern of a query in turn, and
    /// keeps the answers: one for each pattern, each what `service_tuples`
    /// makes of what the handler gave. Terms of the answers are interned;
    /// the quads stay as they are.
    pub fn ask_services<H: crate::sparql::service::ServiceHandler>(
        &mut self,
        handler: &H,
        services: &Vec<ServiceRequest>,
        width: usize,
    )
        requires
            old(self)@.well_formed(),
        ensures
            final(self)@.well_formed(),
            final(self)@.quads == old(self)@.quads,
            old(self)@.strings.is_prefix_of(final(self)@.strings),
            final(self)@.answers.len() == services@.len(),
            services@.len() == 0 ==> final(self)@.strings == old(self)@.strings,
            crate::sparql::service::answered(
                *handler,
                services@,
                final(self)@.answers,
                final(self)@.strings,
                width,
            ),
    {
        if services.len() == 0 {
            self.answers = Vec::new();
            assert(old(self)@.strings.is_prefix_of(self@.strings)) by {
                assert(old(self)@.strings =~= self@.strings.subrange(
                    0,
                    old(self)@.strings.len() as int,
                ));
            }
            return ;
        }
        let answers = crate::sparql::service::ask_services(
            handler,
            services,
            &mut self.dataset,
            width,
        );
        self.answers = answers;
    }

    /// Whether a service that is not silent gave no answer.
    pub fn unavailable(&self, services: &Vec<ServiceRequest>) -> (missing: bool)
        ensures
            missing == is_unavailable(services@, self@.answers),
    {
        let mut i: usize = 0;
        while i < services.len()
            invariant
                i <= services@.len(),
                forall|k: int|
                    0 <= k < i ==> !(!(#[trigger] services@[k]).silent && (k
                        >= self@.answers.len() || self@.answers[k] is None)),
            decreases services@.len() - i,
        {
            if !services[i].silent && (i >= self.answers.len() || self.answers[i].is_none()) {
                return true;
            }
            i = i + 1;
        }
        false
    }

    /// Interns a text that evaluation built: gives its identifier, adding
    /// it at the end of the store unless the store holds it. The quads and
    /// the answers of the services stay as they are.
    pub fn intern_text(&mut self, text: &str) -> (id: u64)
        requires
            old(self)@.well_formed(),
        ensures
            final(self)@.well_formed(),
            final(self)@.strings == crate::sparql::dataset::intern(old(self)@.strings, text@),
            final(self)@.quads == old(self)@.quads,
            final(self)@.answers == old(self)@.answers,
            id == crate::sparql::dataset::id_of(final(self)@.strings, text@),
    {
        self.dataset.insert_str(text)
    }

    /// The dataset view that this evaluator reads.
    pub fn dataset(&self) -> (dataset: &DatasetView)
        ensures
            dataset@.strings == self@.strings,
            dataset@.quads == self@.quads,
    {
        &self.dataset
    }

    /// Gives the dataset view back.
    pub fn into_dataset(self) -> (dataset: DatasetView)
        ensures
            dataset@.strings == self@.strings,
            dataset@.quads == self@.quads,
    {
        self.dataset
    }

    /// The characters of the text with identifier `id`.
    fn text_chars(&self, id: u64) -> (chars: Vec<char>)
        ensures
            chars@ == text_at(self@.strings, id),
    {
        match self.dataset.get_str(id) {
            Some(text) => chars_of(text),
            None => Vec::new(),
        }
    }

    fn text_before(&self, x: u64, y: u64) -> (before: bool)
        ensures
            before == crate::sparql::text::text_precedes(
                text_at(self@.strings, x),
                text_at(self@.strings, y),
            ),
    {
        let a = self.text_chars(x);
        let b = self.text_chars(y);
        precedes(a.as_slice(), b.as_slice())
    }

    fn pair_before(&self, x1: u64, x2: u64, y1: u64, y2: u64) -> (before: bool)
        ensures
            before == pair_precedes(
                text_at(self@.strings, x1),
                text_at(self@.strings, x2),
                text_at(self@.strings, y1),
                text_at(self@.strings, y2),
            ),
    {
        self.text_before(x1, y1) || (!self.text_before(y1, x1) && self.text_before(x2, y2))
    }

    /// Whether `a` comes strictly before `b` in the order of `ORDER BY`.
    pub fn slot_before(&self, a: Option<EncodedTerm>, b: Option<EncodedTerm>) -> (before: bool)
        ensures
            before == slot_precedes(self@.strings, a, b),
    {
        let ra = kind_rank_of(a);
        let rb = kind_rank_of(b);
        if ra != rb {
            return ra < rb;
        }
        match (a, b) {
            (Some(EncodedTerm::BlankNode { id: x }), Some(EncodedTerm::BlankNode { id: y })) => x
                < y,
            (
                Some(EncodedTerm::NamedNode { iri_id: x }),
                Some(EncodedTerm::NamedNode { iri_id: y }),
            ) => self.text_before(x, y),
            (Some(EncodedTerm::IntegerLiteral(x)), Some(EncodedTerm::IntegerLiteral(y))) => x < y,
            (Some(EncodedTerm::BooleanLiteral(x)), Some(EncodedTerm::BooleanLiteral(y))) => !x
                && y,
            (
                Some(EncodedTerm::StringLiteral { value_id: x }),
                Some(EncodedTerm::StringLiteral { value_id: y }),
            ) => self.text_before(x, y),
            (
                Some(EncodedTerm::LangStringLiteral { value_id: x, language_id: lx }),
                Some(EncodedTerm::LangStringLiteral { value_id: y, language_id: ly }),
            ) => self.pair_before(x, lx, y, ly),
            (
                Some(EncodedTerm::TypedLiteral { value_id: x, datatype_id: dx }),
                Some(EncodedTerm::TypedLiteral { value_id: y, datatype_id: dy }),
            ) => self.pair_before(x, dx, y, dy),
            (Some(x), Some(y)) => literal_rank_of(x) < literal_rank_of(y),
            _ => false,
        }
    }

    /// The effective boolean value of a value.
    pub fn effective_boolean_value(&self, value: Option<EncodedTerm>) -> (truth: Option<bool>)
        ensures
            truth == effective_boolean(self@.strings, value),
    {
        match value {
            Some(EncodedTerm::BooleanLiteral(b)) => Some(b),
            Some(EncodedTerm::IntegerLiteral(n)) => Some(n != 0),
            Some(EncodedTerm::StringLiteral { value_id }) => {
                let chars = self.text_chars(value_id);
                Some(chars.len() > 0)
            },
            _ => None,
        }
    }

    fn string_chars(&self, term: EncodedTerm) -> (chars: Option<Vec<char>>)
        ensures
            match chars {
                Some(found) => string_text(self@.strings, term) == Some(found@),
                None => string_text(self@.strings, term) is None,
            },
    {
        match term {
            EncodedTerm::StringLiteral { value_id } => Some(self.text_chars(value_id)),
            EncodedTerm::LangStringLiteral { value_id, .. } => Some(self.text_chars(value_id)),
            _ => None,
        }
    }

    /// The lexical form of a term that is a date with a time.
    fn date_time_chars(&self, term: EncodedTerm) -> (chars: Option<Vec<char>>)
        ensures
            match chars {
                Some(found) => date_time_text(self@.strings, term) == Some(found@),
                None => date_time_text(self@.strings, term) is None,
            },
    {
        match term {
            EncodedTerm::TypedLiteral { value_id, datatype_id } => {
                let datatype = self.text_chars(datatype_id);
                let wanted = chars_of("http://www.w3.org/2001/XMLSchema#dateTime");
                if !same_chars(&datatype, &wanted) {
                    return None;
                }
                let value = self.text_chars(value_id);
                if is_date_time_in(&value) {
                    Some(value)
                } else {
                    None
                }
            },
            _ => None,
        }
    }

    fn value_less_of(&self, a: EncodedTerm, b: EncodedTerm) -> (less: Option<bool>)
        ensures
            less == value_less(self@.strings, a, b),
    {
        if are_comparable(a, b) {
            Some(self.slot_before(Some(a), Some(b)))
        } else {
            None
        }
    }

    /// The value of an operator with one operand.
    pub fn unary(&self, operator: UnaryOperator, a: Option<EncodedTerm>) -> (value: Option<
        EncodedTerm,
    >)
        ensures
            value == apply_unary(operator, self@.strings, a),
    {
        let term = match a {
            Some(term) => term,
            None => {
                return None;
            },
        };
        match operator {
            UnaryOperator::Not => negate_of(self.effective_boolean_value(a)),
            UnaryOperator::Plus => match term {
                EncodedTerm::IntegerLiteral(_) => a,
                _ => None,
            },
            UnaryOperator::Minus => match term {
                EncodedTerm::IntegerLiteral(n) => integer_term(-(n as i128)),
                _ => None,
            },
            UnaryOperator::IsIri => Some(
                EncodedTerm::BooleanLiteral(
                    match term {
                        EncodedTerm::NamedNode { .. } => true,
                        _ => false,
                    },
                ),
            ),
            UnaryOperator::IsBlank => Some(
                EncodedTerm::BooleanLiteral(
                    match term {
                        EncodedTerm::BlankNode { .. } => true,
                        _ => false,
                    },
                ),
            ),
            UnaryOperator::IsLiteral => Some(EncodedTerm::BooleanLiteral(is_literal_term(term))),
            UnaryOperator::IsNumeric => Some(
                EncodedTerm::BooleanLiteral(
                    match term {
                        EncodedTerm::IntegerLiteral(_) => true,
                        _ => false,
                    },
                ),
            ),
            UnaryOperator::StrLen => match self.string_chars(term) {
                Some(chars) => integer_term(chars.len() as i128),
                None => None,
            },
            UnaryOperator::Abs => match term {
                EncodedTerm::IntegerLiteral(n) => integer_term(
                    if n < 0 {
                        -(n as i128)
                    } else {
                        n as i128
                    },
                ),
                _ => None,
            },
            _ => match self.date_time_chars(term) {
                Some(chars) => Some(EncodedTerm::IntegerLiteral(date_part_of(operator, &chars))),
                None => None,
            },
        }
    }

    /// The value of an operator with two operands.
    pub fn binary(
        &self,
        operator: BinaryOperator,
        a: Option<EncodedTerm>,
        b: Option<EncodedTerm>,
    ) -> (value: Option<EncodedTerm>)
        ensures
            value == apply_binary(operator, self@.strings, a, b),
    {
        match operator {
            BinaryOperator::Or => {
                return truth_of(
                    logical_or_of(
                        self.effective_boolean_value(a),
                        self.effective_boolean_value(b),
                    ),
                );
            },
            BinaryOperator::And => {
                return truth_of(
                    logical_and_of(
                        self.effective_boolean_value(a),
                        self.effective_boolean_value(b),
                    ),
                );
            },
            _ => {},
        }
        let (x, y) = match (a, b) {
            (Some(x), Some(y)) => (x, y),
            _ => {
                return None;
            },
        };
        match operator {
            BinaryOperator::Equal => truth_of(value_equal_of(x, y)),
            BinaryOperator::NotEqual => negate_of(value_equal_of(x, y)),
            BinaryOperator::Less => truth_of(self.value_less_of(x, y)),
            BinaryOperator::Greater => truth_of(self.value_less_of(y, x)),
            BinaryOperator::LessOrEqual => negate_of(self.value_less_of(y, x)),
            BinaryOperator::GreaterOrEqual => negate_of(self.value_less_of(x, y)),
            BinaryOperator::SameTerm => Some(EncodedTerm::BooleanLiteral(x == y)),
            BinaryOperator::Add => match (x, y) {
                (EncodedTerm::IntegerLiteral(m), EncodedTerm::IntegerLiteral(n)) => integer_term(
                    m as i128 + n as i128,
                ),
                _ => None,
            },
            BinaryOperator::Subtract => match (x, y) {
                (EncodedTerm::IntegerLiteral(m), EncodedTerm::IntegerLiteral(n)) => integer_term(
                    m as i128 - n as i128,
                ),
                _ => None,
            },
            BinaryOperator::Multiply => match (x, y) {
                (EncodedTerm::IntegerLiteral(m), EncodedTerm::IntegerLiteral(n)) => {
                    assert(-0x4000_0000_0000_0000_0000_0000_0000_0000 <= (m as int) * (n as int)
                        <= 0x4000_0000_0000_0000_0000_0000_0000_0000) by (nonlinear_arith)
                        requires
                            -0x8000_0000_0000_0000 <= m <= 0x7fff_ffff_ffff_ffff,
                            -0x8000_0000_0000_0000 <= n <= 0x7fff_ffff_ffff_ffff,
                    ;
                    integer_term((m as i128) * (n as i128))
                },
                _ => None,
            },
            BinaryOperator::Contains => match (self.string_chars(x), self.string_chars(y)) {
                (Some(s), Some(t)) => Some(
                    EncodedTerm::BooleanLiteral(contains_text(s.as_slice(), t.as_slice())),
                ),
                _ => None,
            },
            BinaryOperator::StrStarts => match (self.string_chars(x), self.string_chars(y)) {
                (Some(s), Some(t)) => Some(
                    EncodedTerm::BooleanLiteral(matches_at(s.as_slice(), t.as_slice(), 0)),
                ),
                _ => None,
            },
            BinaryOperator::StrEnds => match (self.string_chars(x), self.string_chars(y)) {
                (Some(s), Some(t)) => {
                    if t.len() > s.len() {
                        assert(!occurs_at(s@, t@, s@.len() - t@.len()));
                        Some(EncodedTerm::BooleanLiteral(false))
                    } else {
                        Some(
                            EncodedTerm::BooleanLiteral(
                                matches_at(s.as_slice(), t.as_slice(), s.len() - t.len()),
                            ),
                        )
                    }
                },
                _ => None,
            },
            _ => None,
        }
    }

    /// The value of an expression on a row; `None` is an error.
    #[verifier::loop_isolation(false)]
    pub fn eval_expression(&self, expression: &PlanExpression, row: &EncodedTuple) -> (value:
        Option<EncodedTerm>)
        ensures
            value == eval_expression(*expression, self@, row@),
        decreases *expression, 3int, 0int,
    {
        match expression {
            PlanExpression::Constant(term) => Some(*term),
            PlanExpression::Variable(slot) => if *slot < row.len() {
                row[*slot]
            } else {
                None
            },
            PlanExpression::Bound(slot) => Some(
                EncodedTerm::BooleanLiteral(*slot < row.len() && row[*slot].is_some()),
            ),
            PlanExpression::Unary(operator, a) => {
                let x = self.eval_expression(a, row);
                self.unary(*operator, x)
            },
            PlanExpression::Binary(operator, a, b) => {
                let x = self.eval_expression(a, row);
                let y = self.eval_expression(b, row);
                self.binary(*operator, x, y)
            },
            PlanExpression::If(condition, a, b) => {
                let test = self.eval_expression(condition, row);
                match self.effective_boolean_value(test) {
                    Some(true) => self.eval_expression(a, row),
                    Some(false) => self.eval_expression(b, row),
                    None => None,
                }
            },
            PlanExpression::Coalesce(arguments) => {
                let mut i: usize = 0;
                while i < arguments.len()
                    invariant
                        i <= arguments@.len(),
                        coalesce_from(*expression, self@, row@, 0) == coalesce_from(
                            *expression,
                            self@,
                            row@,
                            i as int,
                        ),
                    decreases arguments@.len() - i,
                {
                    match self.eval_expression(&arguments[i], row) {
                        Some(term) => {
                            return Some(term);
                        },
                        None => {},
                    }
                    i = i + 1;
                }
                None
            },
            PlanExpression::Exists(pattern) => {
                let found = self.eval_plan(pattern, row);
                assert(rows_view(found@).len() == found@.len());
                Some(EncodedTerm::BooleanLiteral(found.len() > 0))
            },
            PlanExpression::Call(function, arguments) => {
                let mut values: Vec<Option<EncodedTerm>> = Vec::new();
                let mut i: usize = 0;
                while i < arguments.len()
                    invariant
                        i <= arguments@.len(),
                        values@ == crate::sparql::semantics::call_values(
                            *expression,
                            self@,
                            row@,
                            i as int,
                        ),
                    decreases arguments@.len() - i,
                {
                    let value = self.eval_expression(&arguments[i], row);
                    values.push(value);
                    i = i + 1;
                }
                match crate::sparql::texts::built_text(self.dataset(), *function, &values) {
                    Some(built) => crate::sparql::texts::built_term_in(self.dataset(), &built),
                    None => None,
                }
            },
        }
    }

    /// Whether an expression holds on a row.
    pub fn holds_on(&self, expression: &PlanExpression, row: &EncodedTuple) -> (held: bool)
        ensures
            held == holds(*expression, self@, row@),
        decreases *expression, 4int, 0int,
    {
        let value = self.eval_expression(expression, row);
        match self.effective_boolean_value(value) {
            Some(true) => true,
            _ => false,
        }
    }

    /// The rows that a plan yields from the row `from`, in order. Every row
    /// has as many slots as `from`.
#[verifier::rlimit(40)]
    pub fn eval_plan(&self, node: &PlanNode, from: &EncodedTuple) -> (out: Vec<EncodedTuple>)
        ensures
            rows_view(out@) == rows(*node, self@, from@),
            all_width(out@, from@.len()),
        decreases *node, 3int, 0int,
    {
        match node {
            PlanNode::Init => {
                let mut out: Vec<EncodedTuple> = Vec::new();
                push_row(&mut out, copy_row(from));
                assert(rows_view(out@) =~= seq![from@]);
                out
            },
            PlanNode::StaticBindings { tuples } => static_bindings(tuples, from),
            PlanNode::Service { id, slots } => {
                if *id < self.answers.len() {
                    match &self.answers[*id] {
                        Some(tuples) => {
                            let own = restrict_all(tuples, slots);
                            return static_bindings(&own, from);
                        },
                        None => {},
                    }
                }
                let mut out: Vec<EncodedTuple> = Vec::new();
                push_row(&mut out, copy_row(from));
                assert(rows_view(out@) =~= seq![from@]);
                out
            },
            PlanNode::QuadPatternJoin { child, subject, predicate, object, graph_name } => {
                let lefts = self.eval_plan(child, from);
                self.scan(&lefts, *subject, *predicate, *object, *graph_name, Ghost(from@.len()))
            },
            PlanNode::Join { left, .. } => {
                let lefts = self.eval_plan(left, from);
                self.join(node, &lefts, Ghost(from@.len()))
            },
            PlanNode::LeftJoin { left, .. } => {
                let lefts = self.eval_plan(left, from);
                self.left_join(node, &lefts, Ghost(from@.len()))
            },
            PlanNode::Union { left, right } => {
                let mut out = self.eval_plan(left, from);
                let more = self.eval_plan(right, from);
                append_rows(&mut out, more);
                out
            },
            PlanNode::Minus { left, right } => {
                let lefts = self.eval_plan(left, from);
                let start = new_row(from.len());
                let rights = self.eval_plan(right, &start);
                minus(&lefts, &rights)
            },
            PlanNode::Filter { child, .. } => {
                let input = self.eval_plan(child, from);
                self.filter(node, &input, Ghost(from@.len()))
            },
            PlanNode::Extend { child, .. } => {
                let input = self.eval_plan(child, from);
                self.extend(node, &input, Ghost(from@.len()))
            },
            PlanNode::Project { child, slots } => {
                let start = restrict_row(from, slots);
                let inner = self.eval_plan(child, &start);
                overlay_all(from, &inner, slots)
            },
            PlanNode::Group { child, keys, .. } => {
                let start = restrict_row(from, keys);
                let input = self.eval_plan(child, &start);
                self.group(node, from, &input)
            },
            PlanNode::Sort { child, .. } => {
                let input = self.eval_plan(child, from);
                self.sort(node, &input, Ghost(from@.len()))
            },
            PlanNode::Distinct { child } => {
                let input = self.eval_plan(child, from);
                distinct(&input)
            },
            PlanNode::Reduced { child } => {
                let input = self.eval_plan(child, from);
                distinct(&input)
            },
            PlanNode::Slice { child, start, length } => {
                let input = self.eval_plan(child, from);
                slice(&input, *start, *length)
            },
        }
    }

    /// The quads that agree with what the pattern fixes on the row, in the
    /// order in which they were added.
    pub fn matching(
        &self,
        row: &EncodedTuple,
        subject: PatternValue,
        predicate: PatternValue,
        object: PatternValue,
        graph_name: PatternValue,
    ) -> (found: Vec<EncodedQuad>)
        ensures
            found@ == matching_quads(
                self@.quads,
                wanted(row@, subject),
                wanted(row@, predicate),
                wanted(row@, object),
                wanted(row@, graph_name),
            ),
    {
        self.dataset.quads_for_pattern(
            wanted_in(row, subject),
            wanted_in(row, predicate),
            wanted_in(row, object),
            wanted_in(row, graph_name),
        )
    }

    /// For each row in turn, its extensions by the quads that match the
    /// pattern. The dataset view is asked for the quads that agree with what
    /// the pattern fixes on the row.
#[verifier::rlimit(40)]
    pub(crate) fn scan(
        &self,
        lefts: &Vec<EncodedTuple>,
        subject: PatternValue,
        predicate: PatternValue,
        object: PatternValue,
        graph_name: PatternValue,
        Ghost(width): Ghost<nat>,
    ) -> (out: Vec<EncodedTuple>)
        requires
            all_width(lefts@, width),
        ensures
            rows_view(out@) == scan_each(
                rows_view(lefts@),
                QuadPattern { subject, predicate, object, graph_name },
                self@.quads,
            ),
            all_width(out@, width),
    {
        let ghost pattern = QuadPattern { subject, predicate, object, graph_name };
        let ghost input = rows_view(lefts@);
        let mut out: Vec<EncodedTuple> = Vec::new();
        let mut i: usize = 0;
        assert(rows_view(out@) =~= Seq::<Row>::empty());
        assert(input.subrange(0, 0) =~= Seq::<Row>::empty());
        while i < lefts.len()
            invariant
                i <= lefts@.len(),
                input == rows_view(lefts@),
                pattern == (QuadPattern { subject, predicate, object, graph_name }),
                all_width(lefts@, width),
                all_width(out@, width),
                rows_view(out@) == scan_each(input.subrange(0, i as int), pattern, self@.quads),
            decreases lefts@.len() - i,
        {
            let left = &lefts[i];
            let found = self.dataset.quads_for_pattern(
                wanted_in(left, subject),
                wanted_in(left, predicate),
                wanted_in(left, object),
                wanted_in(left, graph_name),
            );
            let ghost before = rows_view(out@);
            let mut j: usize = 0;
            assert(found@.subrange(0, 0) =~= Seq::empty());
            while j < found.len()
                invariant
                    j <= found@.len(),
                    i < lefts@.len(),
                    left == &lefts@[i as int],
                    pattern == (QuadPattern { subject, predicate, object, graph_name }),
                    all_width(lefts@, width),
                    all_width(out@, width),
                    rows_view(out@) == before + scan_row(
                        left@,
                        pattern,
                        found@.subrange(0, j as int),
                    ),
                decreases found@.len() - j,
            {
                proof {
                    let next = found@.subrange(0, j + 1);
                    assert(next.drop_last() =~= found@.subrange(0, j as int));
                    assert(next.last() == found@[j as int]);
                }
                let ghost so_far = scan_row(left@, pattern, found@.subrange(0, j as int));
                match bind_quad_in(left, subject, predicate, object, graph_name, found[j]) {
                    Some(extended) => {
                        assert(extended@.len() == width) by {
                            lemma_bind_quad_width(left@, pattern, found@[j as int]);
                        }
                        push_row(&mut out, extended);
                        assert(rows_view(out@) =~= before + so_far.push(extended@));
                    },
                    None => {},
                }
                j = j + 1;
            }
            proof {
                assert(found@.subrange(0, j as int) =~= found@);
                lemma_scan_matching(left@, pattern, self@.quads);
                let next = input.subrange(0, i + 1);
                assert(next.drop_last() =~= input.subrange(0, i as int));
                assert(next.last() == left@);
            }
            i = i + 1;
        }
        assert(input.subrange(0, i as int) =~= input);
        out
    }

    /// For each left row in turn, the rows of the right side from it.
    #[verifier::loop_isolation(false)]
    pub(crate) fn join(&self, node: &PlanNode, lefts: &Vec<EncodedTuple>, Ghost(width): Ghost<nat>) -> (out:
        Vec<EncodedTuple>)
        requires
            all_width(lefts@, width),
        ensures
            rows_view(out@) == join_each(*node, self@, rows_view(lefts@)),
            all_width(out@, width),
        decreases *node, 2int, 0int,
    {
        let ghost input = rows_view(lefts@);
        let mut out: Vec<EncodedTuple> = Vec::new();
        assert(rows_view(out@) =~= Seq::<Row>::empty());
        match node {
            PlanNode::Join { right, .. } => {
                let mut i: usize = 0;
                assert(input.subrange(0, 0) =~= Seq::<Row>::empty());
                while i < lefts.len()
                    invariant
                        i <= lefts@.len(),
                        all_width(out@, width),
                        rows_view(out@) == join_each(*node, self@, input.subrange(0, i as int)),
                    decreases lefts@.len() - i,
                {
                    let more = self.eval_plan(right, &lefts[i]);
                    proof {
                        let next = input.subrange(0, i + 1);
                        assert(next.drop_last() =~= input.subrange(0, i as int));
                        assert(next.last() == lefts@[i as int]@);
                    }
                    append_rows(&mut out, more);
                    i = i + 1;
                }
                assert(input.subrange(0, i as int) =~= input);
            },
            _ => {},
        }
        out
    }

    /// The rows on which the expression of a `LeftJoin` holds.
    #[verifier::loop_isolation(false)]
    pub(crate) fn optional(&self, node: &PlanNode, candidates: &Vec<EncodedTuple>, Ghost(width): Ghost<nat>) -> (out:
        Vec<EncodedTuple>)
        requires
            all_width(candidates@, width),
        ensures
            rows_view(out@) == optional_matches(*node, self@, rows_view(candidates@)),
            all_width(out@, width),
        decreases *node, 1int, 0int,
    {
        let ghost input = rows_view(candidates@);
        let mut out: Vec<EncodedTuple> = Vec::new();
        assert(rows_view(out@) =~= Seq::<Row>::empty());
        match node {
            PlanNode::LeftJoin { expression, .. } => {
                let mut i: usize = 0;
                assert(input.subrange(0, 0) =~= Seq::<Row>::empty());
                while i < candidates.len()
                    invariant
                        i <= candidates@.len(),
                        all_width(out@, width),
                        rows_view(out@) == optional_matches(
                            *node,
                            self@,
                            input.subrange(0, i as int),
                        ),
                    decreases candidates@.len() - i,
                {
                    proof {
                        let next = input.subrange(0, i + 1);
                        assert(next.drop_last() =~= input.subrange(0, i as int));
                        assert(next.last() == candidates@[i as int]@);
                    }
                    let keep = match expression {
                        Some(condition) => self.holds_on(condition, &candidates[i]),
                        None => true,
                    };
                    if keep {
                        push_row(&mut out, copy_row(&candidates[i]));
                    }
                    i = i + 1;
                }
                assert(input.subrange(0, i as int) =~= input);
            },
            _ => {},
        }
        out
    }

    /// For each left row in turn, its matches on the right side, or the left
    /// row itself where it has none.
    #[verifier::loop_isolation(false)]
    pub(crate) fn left_join(&self, node: &PlanNode, lefts: &Vec<EncodedTuple>, Ghost(width): Ghost<nat>) -> (out:
        Vec<EncodedTuple>)
        requires
            all_width(lefts@, width),
        ensures
            rows_view(out@) == left_join_each(*node, self@, rows_view(lefts@)),
            all_width(out@, width),
        decreases *node, 2int, 0int,
    {
        let ghost input = rows_view(lefts@);
        let mut out: Vec<EncodedTuple> = Vec::new();
        assert(rows_view(out@) =~= Seq::<Row>::empty());
        match node {
            PlanNode::LeftJoin { right, .. } => {
                let mut i: usize = 0;
                assert(input.subrange(0, 0) =~= Seq::<Row>::empty());
                while i < lefts.len()
                    invariant
                        i <= lefts@.len(),
                        all_width(out@, width),
                        rows_view(out@) == left_join_each(
                            *node,
                            self@,
                            input.subrange(0, i as int),
                        ),
                    decreases lefts@.len() - i,
                {
                    let candidates = self.eval_plan(right, &lefts[i]);
                    let matched = self.optional(node, &candidates, Ghost(width));
                    proof {
                        let next = input.subrange(0, i + 1);
                        assert(next.drop_last() =~= input.subrange(0, i as int));
                        assert(next.last() == lefts@[i as int]@);
                        assert(rows_view(matched@).len() == matched@.len());
                    }
                    if matched.len() > 0 {
                        append_rows(&mut out, matched);
                    } else {
                        let ghost before = rows_view(out@);
                        push_row(&mut out, copy_row(&lefts[i]));
                        assert(rows_view(out@) =~= before + seq![lefts@[i as int]@]);
                    }
                    i = i + 1;
                }
                assert(input.subrange(0, i as int) =~= input);
            },
            _ => {},
        }
        out
    }

    /// The rows on which the expression of a `Filter` holds.
    #[verifier::loop_isolation(false)]
    fn filter(&self, node: &PlanNode, input: &Vec<EncodedTuple>, Ghost(width): Ghost<nat>) -> (out:
        Vec<EncodedTuple>)
        requires
            all_width(input@, width),
        ensures
            rows_view(out@) == filter_each(*node, self@, rows_view(input@)),
            all_width(out@, width),
        decreases *node, 2int, 0int,
    {
        let ghost given = rows_view(input@);
        let mut out: Vec<EncodedTuple> = Vec::new();
        assert(rows_view(out@) =~= Seq::<Row>::empty());
        match node {
            PlanNode::Filter { expression, .. } => {
                let mut i: usize = 0;
                assert(given.subrange(0, 0) =~= Seq::<Row>::empty());
                while i < input.len()
                    invariant
                        i <= input@.len(),
                        all_width(out@, width),
                        rows_view(out@) == filter_each(*node, self@, given.subrange(0, i as int)),
                    decreases input@.len() - i,
                {
                    proof {
                        let next = given.subrange(0, i + 1);
                        assert(next.drop_last() =~= given.subrange(0, i as int));
                        assert(next.last() == input@[i as int]@);
                    }
                    if self.holds_on(expression, &input[i]) {
                        push_row(&mut out, copy_row(&input[i]));
                    }
                    i = i + 1;
                }
                assert(given.subrange(0, i as int) =~= given);
            },
            _ => {},
        }
        out
    }

    /// Each row after `BIND`, without those that it drops.
    #[verifier::loop_isolation(false)]
    fn extend(&self, node: &PlanNode, input: &Vec<EncodedTuple>, Ghost(width): Ghost<nat>) -> (out:
        Vec<EncodedTuple>)
        requires
            all_width(input@, width),
        ensures
            rows_view(out@) == extend_each(*node, self@, rows_view(input@)),
            all_width(out@, width),
        decreases *node, 2int, 0int,
    {
        let ghost given = rows_view(input@);
        let mut out: Vec<EncodedTuple> = Vec::new();
        assert(rows_view(out@) =~= Seq::<Row>::empty());
        let mut i: usize = 0;
        assert(given.subrange(0, 0) =~= Seq::<Row>::empty());
        while i < input.len()
            invariant
                i <= input@.len(),
                all_width(out@, width),
                rows_view(out@) == extend_each(*node, self@, given.subrange(0, i as int)),
            decreases input@.len() - i,
        {
            proof {
                let next = given.subrange(0, i + 1);
                assert(next.drop_last() =~= given.subrange(0, i as int));
                assert(next.last() == input@[i as int]@);
            }
            let row = &input[i];
            let extended: Option<EncodedTuple> = match node {
                PlanNode::Extend { slot, expression, .. } => match self.eval_expression(
                    expression,
                    row,
                ) {
                    Some(value) => bind_slot_in(row, *slot, value),
                    None => Some(copy_row(row)),
                },
                _ => None,
            };
            assert(match extended {
                Some(bound) => extend_row(*node, self@, row@) == Some(bound@),
                None => extend_row(*node, self@, row@) is None,
            });
            match extended {
                Some(bound) => {
                    push_row(&mut out, bound);
                },
                None => {},
            }
            i = i + 1;
        }
        assert(given.subrange(0, i as int) =~= given);
        out
    }
}

/// The extension of a row by a quad has the width of the row.
pub proof fn lemma_bind_quad_width(row: Row, pattern: QuadPattern, quad: crate::sparql::dataset::EncodedQuad)
    requires
        crate::sparql::plan::bind_quad(row, pattern, quad) is Some,
    ensures
        crate::sparql::plan::bind_quad(row, pattern, quad)->0.len() == row.len(),
{
}

/// Each row with every slot outside `slots` unbound.
pub fn restrict_all(rows: &Vec<EncodedTuple>, slots: &Vec<usize>) -> (out: Vec<EncodedTuple>)
    ensures
        rows_view(out@) == restrict_each(rows_view(rows@), slots@),
{
    let mut out: Vec<EncodedTuple> = Vec::new();
    let mut i: usize = 0;
    while i < rows.len()
        invariant
            i <= rows@.len(),
            out@.len() == i,
            forall|k: int| 0 <= k < i ==> (#[trigger] out@[k])@ == restrict(rows@[k]@, slots@),
        decreases rows@.len() - i,
    {
        out.push(restrict_row(&rows[i], slots));
        i = i + 1;
    }
    assert(rows_view(out@) =~= restrict_each(rows_view(rows@), slots@));
    out
}

/// The given rows that are compatible with `from`, each merged with it.
pub fn static_bindings(tuples: &Vec<EncodedTuple>, from: &EncodedTuple) -> (out: Vec<EncodedTuple>)
    ensures
        rows_view(out@) == static_rows(from@, rows_view(tuples@)),
        all_width(out@, from@.len()),
{
    let ghost input = rows_view(tuples@);
    let mut out: Vec<EncodedTuple> = Vec::new();
    assert(rows_view(out@) =~= Seq::<Row>::empty());
    let mut i: usize = 0;
    assert(input.subrange(0, 0) =~= Seq::<Row>::empty());
    while i < tuples.len()
        invariant
            i <= tuples@.len(),
            input == rows_view(tuples@),
            all_width(out@, from@.len()),
            rows_view(out@) == static_rows(from@, input.subrange(0, i as int)),
        decreases tuples@.len() - i,
    {
        proof {
            let next = input.subrange(0, i + 1);
            assert(next.drop_last() =~= input.subrange(0, i as int));
            assert(next.last() == tuples@[i as int]@);
        }
        if compatible_rows(from, &tuples[i]) {
            push_row(&mut out, merge_rows(from, &tuples[i]));
        }
        i = i + 1;
    }
    assert(input.subrange(0, i as int) =~= input);
    out
}

/// The rows of `lefts` that no row of `rights` excludes.
pub fn minus(lefts: &Vec<EncodedTuple>, rights: &Vec<EncodedTuple>) -> (out: Vec<EncodedTuple>)
    ensures
        rows_view(out@) == minus_rows(rows_view(lefts@), rows_view(rights@)),
        forall|width: nat| all_width(lefts@, width) ==> all_width(out@, width),
{
    let ghost input = rows_view(lefts@);
    let mut out: Vec<EncodedTuple> = Vec::new();
    assert(rows_view(out@) =~= Seq::<Row>::empty());
    let mut i: usize = 0;
    assert(input.subrange(0, 0) =~= Seq::<Row>::empty());
    while i < lefts.len()
        invariant
            i <= lefts@.len(),
            input == rows_view(lefts@),
            forall|width: nat| all_width(lefts@, width) ==> all_width(out@, width),
            rows_view(out@) == minus_rows(input.subrange(0, i as int), rows_view(rights@)),
        decreases lefts@.len() - i,
    {
        proof {
            let next = input.subrange(0, i + 1);
            assert(next.drop_last() =~= input.subrange(0, i as int));
            assert(next.last() == lefts@[i as int]@);
        }
        if !is_excluded(&lefts[i], rights) {
            push_row(&mut out, copy_row(&lefts[i]));
        }
        i = i + 1;
    }
    assert(input.subrange(0, i as int) =~= input);
    out
}

/// Each row overlaid on `from`.
pub fn overlay_all(from: &EncodedTuple, inner: &Vec<EncodedTuple>, slots: &Vec<usize>) -> (out:
    Vec<EncodedTuple>)
    requires
        all_width(inner@, from@.len()),
    ensures
        rows_view(out@) == overlay_each(from@, rows_view(inner@), slots@),
        all_width(out@, from@.len()),
{
    let mut out: Vec<EncodedTuple> = Vec::new();
    let mut i: usize = 0;
    while i < inner.len()
        invariant
            i <= inner@.len(),
            out@.len() == i,
            all_width(inner@, from@.len()),
            all_width(out@, from@.len()),
            forall|k: int| 0 <= k < i ==> (#[trigger] out@[k])@ == overlay(from@, inner@[k]@, slots@),
        decreases inner@.len() - i,
    {
        out.push(overlay_row(from, &inner[i], slots));
        i = i + 1;
    }
    assert(rows_view(out@) =~= overlay_each(from@, rows_view(inner@), slots@));
    out
}

} // verus!
