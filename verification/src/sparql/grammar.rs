use crate::model::term::TermView;
use crate::sparql::algebra::{AggregateFunction, BinaryOperator, Function, UnaryOperator};
use crate::sparql::algebra_view::{
    AggregationView, ExpressionView, GraphPatternView, OrderComparatorView, QueryView,
    TermOrVariableView, TriplePatternView,
};
use crate::sparql::dataset::{xsd_boolean, xsd_integer};
use crate::sparql::iri::resolve_reference;
use crate::sparql::names::{hides_names, is_blank_label, shown_names};
use crate::sparql::lexer::{lex, Token, TokenKind};
use crate::sparql::numeric::{digits_value, is_digit};
use vstd::prelude::*;

verus! {

/// What the prologue of a query declares: the base IRI, and the prefixes
/// with their namespaces, in the order of their declarations.
pub struct Scope {
    pub base: Option<Seq<char>>,
    pub prefixes: Seq<(Seq<char>, Seq<char>)>,
}

/// What reading a part of a query gives: its value and the index of the
/// token after it, or the index of the token at which reading failed.
pub enum Parsed<T> {
    Done { value: T, next: int },
    Failed { at: int },
}

/// The kind of the token with index `i`, `None` past the last token.
pub open spec fn kind_at(tokens: Seq<Token>, i: int) -> Option<TokenKind> {
    if 0 <= i < tokens.len() {
        Some(tokens[i].kind)
    } else {
        None
    }
}

/// The text of the token with index `i`.
pub open spec fn text_at(chars: Seq<char>, tokens: Seq<Token>, i: int) -> Seq<char> {
    chars.subrange(tokens[i].start as int, tokens[i].end as int)
}

/// The capital of a small letter, and any other character as it is.
pub open spec fn upper(c: char) -> char {
    if 'a' <= c <= 'z' {
        ((c as u8) - 32) as char
    } else {
        c
    }
}

/// Whether two words are the same but for the case of their letters.
pub open spec fn same_word(a: Seq<char>, b: Seq<char>) -> bool {
    a.len() == b.len() && forall|k: int| 0 <= k < a.len() ==> upper(#[trigger] a[k]) == upper(b[k])
}

/// Whether the token with index `i` is the word `word`, in any case.
pub open spec fn is_word(chars: Seq<char>, tokens: Seq<Token>, i: int, word: Seq<char>) -> bool {
    kind_at(tokens, i) == Some(TokenKind::Word) && same_word(text_at(chars, tokens, i), word)
}

/// Whether reading may go on from `next` after it started at `i`.
pub open spec fn advances(tokens: Seq<Token>, i: int, next: int) -> bool {
    0 <= i < next <= tokens.len()
}

/// The IRI of the datatype of decimal numbers.
pub open spec fn xsd_decimal() -> Seq<char> {
    "http://www.w3.org/2001/XMLSchema#decimal"@
}

/// The IRI of `rdf:type`, which `a` stands for.
pub open spec fn rdf_type() -> Seq<char> {
    "http://www.w3.org/1999/02/22-rdf-syntax-ns#type"@
}

/// An IRI reference as an IRI: what it stands for under the base IRI, and
/// the reference as it is where there is no base.
pub open spec fn resolve(scope: Scope, iri: Seq<char>) -> Seq<char> {
    match scope.base {
        Some(base) => resolve_reference(base, iri),
        None => iri,
    }
}

/// The namespace of the prefix `name` among the first `n` declarations; the
/// last declaration of a prefix counts.
pub open spec fn namespace_of(prefixes: Seq<(Seq<char>, Seq<char>)>, name: Seq<char>, n: int) -> Option<
    Seq<char>,
>
    decreases n,
{
    if n <= 0 || n > prefixes.len() {
        None
    } else if prefixes[n - 1].0 == name {
        Some(prefixes[n - 1].1)
    } else {
        namespace_of(prefixes, name, n - 1)
    }
}

/// The IRI that the token with index `i` stands for: an IRI reference, or a
/// prefixed name whose prefix is declared.
pub open spec fn iri_at(chars: Seq<char>, tokens: Seq<Token>, i: int, scope: Scope) -> Parsed<
    Seq<char>,
> {
    match kind_at(tokens, i) {
        Some(TokenKind::Iri) => Parsed::Done {
            value: resolve(scope, text_at(chars, tokens, i)),
            next: i + 1,
        },
        Some(TokenKind::Prefixed) => match namespace_of(
            scope.prefixes,
            chars.subrange(tokens[i].start as int, tokens[i].middle as int),
            scope.prefixes.len() as int,
        ) {
            Some(namespace) => Parsed::Done {
                value: namespace + chars.subrange(tokens[i].middle + 1, tokens[i].end as int),
                next: i + 1,
            },
            None => Parsed::Failed { at: i },
        },
        _ => Parsed::Failed { at: i },
    }
}

/// The character that stands for `c` after a backslash.
pub open spec fn escaped_char(c: char) -> char {
    if c == 't' {
        '\t'
    } else if c == 'n' {
        '\n'
    } else if c == 'r' {
        '\r'
    } else if c == 'b' {
        '\u{8}'
    } else if c == 'f' {
        '\u{c}'
    } else {
        c
    }
}

/// The text that a string holds: what is written from `i` on, with each
/// backslash and the character after it read as the character that the
/// two stand for.
pub open spec fn unescaped_from(raw: Seq<char>, i: int) -> Seq<char>
    decreases raw.len() - i,
{
    if !(0 <= i < raw.len()) {
        Seq::empty()
    } else if raw[i] == '\\' && i + 1 < raw.len() {
        seq![escaped_char(raw[i + 1])] + unescaped_from(raw, i + 2)
    } else {
        seq![raw[i]] + unescaped_from(raw, i + 1)
    }
}

/// The text that a string holds.
pub open spec fn unescaped(raw: Seq<char>) -> Seq<char> {
    unescaped_from(raw, 0)
}

/// A constant term that was read, with the index of the token after it.
pub open spec fn constant(term: TermView, next: int) -> Parsed<TermOrVariableView> {
    Parsed::Done { value: TermOrVariableView::Term(term), next }
}

/// Whether a pattern position is a blank node label.
pub open spec fn is_blank_position(position: TermOrVariableView) -> bool {
    position matches TermOrVariableView::Variable(name) && is_blank_label(name)
}

/// Whether one of the first `n` triple patterns holds a blank node label.
pub open spec fn hold_blank_label(triples: Seq<TriplePatternView>, n: int) -> bool
    decreases n,
{
    if n <= 0 || n > triples.len() {
        false
    } else {
        hold_blank_label(triples, n - 1) || is_blank_position(triples[n - 1].subject)
            || is_blank_position(triples[n - 1].predicate) || is_blank_position(
            triples[n - 1].object,
        )
    }
}

/// The term or variable that starts at token `i`: a variable, a blank node
/// label, an IRI, a string with an optional language tag or datatype, an
/// unsigned integer or decimal number, `true`, `false`, or `a` for
/// `rdf:type`.
pub open spec fn term_at(chars: Seq<char>, tokens: Seq<Token>, i: int, scope: Scope) -> Parsed<
    TermOrVariableView,
> {
    match kind_at(tokens, i) {
        Some(TokenKind::Variable) => Parsed::Done {
            value: TermOrVariableView::Variable(text_at(chars, tokens, i)),
            next: i + 1,
        },
        Some(TokenKind::Iri) => match iri_at(chars, tokens, i, scope) {
            Parsed::Done { value, next } => constant(TermView::NamedNode { iri: value }, next),
            Parsed::Failed { at } => Parsed::Failed { at },
        },
        Some(TokenKind::Prefixed) => if is_blank_label(text_at(chars, tokens, i)) {
            Parsed::Done {
                value: TermOrVariableView::Variable(text_at(chars, tokens, i)),
                next: i + 1,
            }
        } else {
            match iri_at(chars, tokens, i, scope) {
                Parsed::Done { value, next } => constant(TermView::NamedNode { iri: value }, next),
                Parsed::Failed { at } => Parsed::Failed { at },
            }
        },
        Some(TokenKind::Text) => {
            let value = unescaped(text_at(chars, tokens, i));
            if kind_at(tokens, i + 1) == Some(TokenKind::LangTag) {
                constant(
                    TermView::LanguageTagged { value, language: text_at(chars, tokens, i + 1) },
                    i + 2,
                )
            } else if kind_at(tokens, i + 1) == Some(TokenKind::DoubleCaret) {
                match iri_at(chars, tokens, i + 2, scope) {
                    Parsed::Done { value: datatype, next } => constant(
                        TermView::Typed { value, datatype },
                        next,
                    ),
                    Parsed::Failed { at } => Parsed::Failed { at },
                }
            } else {
                constant(TermView::Simple { value }, i + 1)
            }
        },
        Some(TokenKind::Integer) => constant(
            TermView::Typed { value: text_at(chars, tokens, i), datatype: xsd_integer() },
            i + 1,
        ),
        Some(TokenKind::Decimal) => constant(
            TermView::Typed { value: text_at(chars, tokens, i), datatype: xsd_decimal() },
            i + 1,
        ),
        Some(TokenKind::Word) => {
            if is_word(chars, tokens, i, "true"@) {
                constant(TermView::Typed { value: "true"@, datatype: xsd_boolean() }, i + 1)
            } else if is_word(chars, tokens, i, "false"@) {
                constant(TermView::Typed { value: "false"@, datatype: xsd_boolean() }, i + 1)
            } else if text_at(chars, tokens, i) == "a"@ {
                constant(TermView::NamedNode { iri: rdf_type() }, i + 1)
            } else {
                Parsed::Failed { at: i }
            }
        },
        _ => Parsed::Failed { at: i },
    }
}

/// Whether a term or variable may start at token `i`.
pub open spec fn starts_term(chars: Seq<char>, tokens: Seq<Token>, i: int) -> bool {
    match kind_at(tokens, i) {
        Some(TokenKind::Variable) | Some(TokenKind::Iri) | Some(TokenKind::Prefixed) | Some(
            TokenKind::Text,
        ) | Some(TokenKind::Integer) | Some(TokenKind::Decimal) => true,
        Some(TokenKind::Word) => is_word(chars, tokens, i, "true"@) || is_word(
            chars,
            tokens,
            i,
            "false"@,
        ) || text_at(chars, tokens, i) == "a"@,
        _ => false,
    }
}

/// The index after the dot at token `i`, and `i` where no dot stands there.
pub open spec fn after_dot(tokens: Seq<Token>, i: int) -> int {
    if kind_at(tokens, i) == Some(TokenKind::Dot) {
        i + 1
    } else {
        i
    }
}

/// The triple patterns from token `i` on, after those of `done`: each
/// starts with a subject, which its predicates and objects follow, and a
/// dot may follow each.
pub open spec fn triples_at(
    chars: Seq<char>,
    tokens: Seq<Token>,
    i: int,
    scope: Scope,
    done: Seq<TriplePatternView>,
) -> Parsed<Seq<TriplePatternView>>
    decreases tokens.len() - i, 2int,
{
    if !starts_term(chars, tokens, i) {
        Parsed::Done { value: done, next: i }
    } else {
        match term_at(chars, tokens, i, scope) {
            Parsed::Failed { at } => Parsed::Failed { at },
            Parsed::Done { value: subject, next } => if advances(tokens, i, next) {
                verbs_at(chars, tokens, next, scope, subject, done)
            } else {
                Parsed::Failed { at: i }
            },
        }
    }
}

/// The triple patterns of a subject from the predicate at token `i` on: a
/// predicate with its objects, and after `;` another predicate of the same
/// subject with its objects.
pub open spec fn verbs_at(
    chars: Seq<char>,
    tokens: Seq<Token>,
    i: int,
    scope: Scope,
    subject: TermOrVariableView,
    done: Seq<TriplePatternView>,
) -> Parsed<Seq<TriplePatternView>>
    decreases tokens.len() - i, 1int,
{
    match term_at(chars, tokens, i, scope) {
        Parsed::Failed { at } => Parsed::Failed { at },
        Parsed::Done { value: predicate, next } => if advances(tokens, i, next) {
            objects_at(chars, tokens, next, scope, subject, predicate, done)
        } else {
            Parsed::Failed { at: i }
        },
    }
}

/// The triple patterns of a subject and a predicate from the object at
/// token `i` on: an object, and after `,` another object of the same
/// subject and predicate. After `;` the subject goes on with another
/// predicate, where one stands there.
pub open spec fn objects_at(
    chars: Seq<char>,
    tokens: Seq<Token>,
    i: int,
    scope: Scope,
    subject: TermOrVariableView,
    predicate: TermOrVariableView,
    done: Seq<TriplePatternView>,
) -> Parsed<Seq<TriplePatternView>>
    decreases tokens.len() - i, 0int,
{
    match term_at(chars, tokens, i, scope) {
        Parsed::Failed { at } => Parsed::Failed { at },
        Parsed::Done { value: object, next } => {
            let all = done.push(TriplePatternView { subject, predicate, object });
            if !advances(tokens, i, next) {
                Parsed::Failed { at: i }
            } else if kind_at(tokens, next) == Some(TokenKind::Comma) {
                objects_at(chars, tokens, next + 1, scope, subject, predicate, all)
            } else if kind_at(tokens, next) == Some(TokenKind::Semicolon) {
                if starts_term(chars, tokens, next + 1) {
                    verbs_at(chars, tokens, next + 1, scope, subject, all)
                } else {
                    triples_at(chars, tokens, after_dot(tokens, next + 1), scope, all)
                }
            } else {
                triples_at(chars, tokens, after_dot(tokens, next), scope, all)
            }
        },
    }
}

/// The pattern of a group so far joined with `pattern`.
pub open spec fn join_with(current: Option<GraphPatternView>, pattern: GraphPatternView) -> GraphPatternView {
    match current {
        Some(left) => GraphPatternView::Join(Box::new(left), Box::new(pattern)),
        None => pattern,
    }
}

/// The pattern of a group so far, the empty basic graph pattern where the
/// group holds nothing yet.
pub open spec fn or_empty(current: Option<GraphPatternView>) -> GraphPatternView {
    match current {
        Some(pattern) => pattern,
        None => GraphPatternView::Bgp(Seq::empty()),
    }
}

/// `pattern` under the first `n` filters of a group, the first innermost.
pub open spec fn filtered(pattern: GraphPatternView, filters: Seq<ExpressionView>, n: int) -> GraphPatternView
    decreases n,
{
    if n <= 0 || n > filters.len() {
        pattern
    } else {
        GraphPatternView::Filter(filters[n - 1], Box::new(filtered(pattern, filters, n - 1)))
    }
}

/// The test on two operands that a name stands for.
pub open spec fn binary_named(name: Seq<char>) -> Option<BinaryOperator> {
    if same_word(name, "SAMETERM"@) {
        Some(BinaryOperator::SameTerm)
    } else if same_word(name, "CONTAINS"@) {
        Some(BinaryOperator::Contains)
    } else if same_word(name, "STRSTARTS"@) {
        Some(BinaryOperator::StrStarts)
    } else if same_word(name, "STRENDS"@) {
        Some(BinaryOperator::StrEnds)
    } else {
        None
    }
}

/// The function of one operand that a name stands for.
pub open spec fn unary_named(name: Seq<char>) -> Option<UnaryOperator> {
    if same_word(name, "ISIRI"@) || same_word(name, "ISURI"@) {
        Some(UnaryOperator::IsIri)
    } else if same_word(name, "ISBLANK"@) {
        Some(UnaryOperator::IsBlank)
    } else if same_word(name, "ISLITERAL"@) {
        Some(UnaryOperator::IsLiteral)
    } else if same_word(name, "ISNUMERIC"@) {
        Some(UnaryOperator::IsNumeric)
    } else if same_word(name, "STRLEN"@) {
        Some(UnaryOperator::StrLen)
    } else if same_word(name, "ABS"@) {
        Some(UnaryOperator::Abs)
    } else if same_word(name, "YEAR"@) {
        Some(UnaryOperator::Year)
    } else if same_word(name, "MONTH"@) {
        Some(UnaryOperator::Month)
    } else if same_word(name, "DAY"@) {
        Some(UnaryOperator::Day)
    } else if same_word(name, "HOURS"@) {
        Some(UnaryOperator::Hours)
    } else if same_word(name, "MINUTES"@) {
        Some(UnaryOperator::Minutes)
    } else {
        None
    }
}

/// The function that a name stands for, among those that are kept as calls.
pub open spec fn function_named(name: Seq<char>) -> Option<Function> {
    if same_word(name, "STR"@) {
        Some(Function::Str)
    } else if same_word(name, "LANG"@) {
        Some(Function::Lang)
    } else if same_word(name, "DATATYPE"@) {
        Some(Function::Datatype)
    } else if same_word(name, "CONCAT"@) {
        Some(Function::Concat)
    } else if same_word(name, "SUBSTR"@) {
        Some(Function::SubStr)
    } else if same_word(name, "UCASE"@) {
        Some(Function::UCase)
    } else if same_word(name, "LCASE"@) {
        Some(Function::LCase)
    } else if same_word(name, "REGEX"@) {
        Some(Function::Regex)
    } else if same_word(name, "REPLACE"@) {
        Some(Function::Replace)
    } else if same_word(name, "NOW"@) {
        Some(Function::Now)
    } else if same_word(name, "SECONDS"@) {
        Some(Function::Seconds)
    } else {
        None
    }
}

/// The built-in function with the name `name`, applied to `arguments`;
/// `None` where there is no such function or it takes another number of
/// arguments.
pub open spec fn call_of(name: Seq<char>, arguments: Seq<ExpressionView>) -> Option<ExpressionView> {
    let n = arguments.len();
    if same_word(name, "IF"@) && n == 3 {
        Some(
            ExpressionView::If(
                Box::new(arguments[0]),
                Box::new(arguments[1]),
                Box::new(arguments[2]),
            ),
        )
    } else if same_word(name, "COALESCE"@) {
        Some(ExpressionView::Coalesce(arguments))
    } else if binary_named(name) is Some && n == 2 {
        Some(binary(binary_named(name)->0, arguments[0], arguments[1]))
    } else if unary_named(name) is Some && n == 1 {
        Some(unary(unary_named(name)->0, arguments[0]))
    } else {
        match function_named(name) {
            Some(function) => Some(ExpressionView::FunctionCall(function, arguments)),
            None => None,
        }
    }
}

/// The expression of an operator with one operand.
pub open spec fn unary(operator: UnaryOperator, a: ExpressionView) -> ExpressionView {
    ExpressionView::Unary(operator, Box::new(a))
}

/// The expression of an operator with two operands.
pub open spec fn binary(operator: BinaryOperator, a: ExpressionView, b: ExpressionView) -> ExpressionView {
    ExpressionView::Binary(operator, Box::new(a), Box::new(b))
}

/// The comparison that a token kind stands for.
pub open spec fn comparison_of(kind: Option<TokenKind>) -> Option<BinaryOperator> {
    match kind {
        Some(TokenKind::Equal) => Some(BinaryOperator::Equal),
        Some(TokenKind::NotEqual) => Some(BinaryOperator::NotEqual),
        Some(TokenKind::Less) => Some(BinaryOperator::Less),
        Some(TokenKind::Greater) => Some(BinaryOperator::Greater),
        Some(TokenKind::LessOrEqual) => Some(BinaryOperator::LessOrEqual),
        Some(TokenKind::GreaterOrEqual) => Some(BinaryOperator::GreaterOrEqual),
        _ => None,
    }
}

/// The expression that starts at token `i`: operands joined by `||`.
pub open spec fn or_at(chars: Seq<char>, tokens: Seq<Token>, i: int, scope: Scope) -> Parsed<
    ExpressionView,
>
    decreases tokens.len() - i, 9int,
{
    match and_at(chars, tokens, i, scope) {
        Parsed::Failed { at } => Parsed::Failed { at },
        Parsed::Done { value, next } => if advances(tokens, i, next) {
            or_tail(chars, tokens, next, scope, value)
        } else {
            Parsed::Failed { at: i }
        },
    }
}

/// Operands joined by `||` after the operand `left`.
pub open spec fn or_tail(
    chars: Seq<char>,
    tokens: Seq<Token>,
    i: int,
    scope: Scope,
    left: ExpressionView,
) -> Parsed<ExpressionView>
    decreases tokens.len() - i, 9int,
{
    if kind_at(tokens, i) == Some(TokenKind::Or) {
        match and_at(chars, tokens, i + 1, scope) {
            Parsed::Failed { at } => Parsed::Failed { at },
            Parsed::Done { value, next } => if advances(tokens, i, next) {
                or_tail(chars, tokens, next, scope, binary(BinaryOperator::Or, left, value))
            } else {
                Parsed::Failed { at: i }
            },
        }
    } else {
        Parsed::Done { value: left, next: i }
    }
}

/// The operand of `||` that starts at token `i`: operands joined by `&&`.
pub open spec fn and_at(chars: Seq<char>, tokens: Seq<Token>, i: int, scope: Scope) -> Parsed<
    ExpressionView,
>
    decreases tokens.len() - i, 8int,
{
    match relation_at(chars, tokens, i, scope) {
        Parsed::Failed { at } => Parsed::Failed { at },
        Parsed::Done { value, next } => if advances(tokens, i, next) {
            and_tail(chars, tokens, next, scope, value)
        } else {
            Parsed::Failed { at: i }
        },
    }
}

/// Operands joined by `&&` after the operand `left`.
pub open spec fn and_tail(
    chars: Seq<char>,
    tokens: Seq<Token>,
    i: int,
    scope: Scope,
    left: ExpressionView,
) -> Parsed<ExpressionView>
    decreases tokens.len() - i, 8int,
{
    if kind_at(tokens, i) == Some(TokenKind::And) {
        match relation_at(chars, tokens, i + 1, scope) {
            Parsed::Failed { at } => Parsed::Failed { at },
            Parsed::Done { value, next } => if advances(tokens, i, next) {
                and_tail(chars, tokens, next, scope, binary(BinaryOperator::And, left, value))
            } else {
                Parsed::Failed { at: i }
            },
        }
    } else {
        Parsed::Done { value: left, next: i }
    }
}

/// The operand of `&&` that starts at token `i`: a sum, or two sums with a
/// comparison between them.
pub open spec fn relation_at(chars: Seq<char>, tokens: Seq<Token>, i: int, scope: Scope) -> Parsed<
    ExpressionView,
>
    decreases tokens.len() - i, 7int,
{
    match sum_at(chars, tokens, i, scope) {
        Parsed::Failed { at } => Parsed::Failed { at },
        Parsed::Done { value: left, next } => match comparison_of(kind_at(tokens, next)) {
            Some(operator) => if advances(tokens, i, next) {
                match sum_at(chars, tokens, next + 1, scope) {
                    Parsed::Failed { at } => Parsed::Failed { at },
                    Parsed::Done { value: right, next: end } => Parsed::Done {
                        value: binary(operator, left, right),
                        next: end,
                    },
                }
            } else {
                Parsed::Failed { at: i }
            },
            None => Parsed::Done { value: left, next },
        },
    }
}

/// The sum that starts at token `i`: products joined by `+` and `-`.
pub open spec fn sum_at(chars: Seq<char>, tokens: Seq<Token>, i: int, scope: Scope) -> Parsed<
    ExpressionView,
>
    decreases tokens.len() - i, 6int,
{
    match product_at(chars, tokens, i, scope) {
        Parsed::Failed { at } => Parsed::Failed { at },
        Parsed::Done { value, next } => if advances(tokens, i, next) {
            sum_tail(chars, tokens, next, scope, value)
        } else {
            Parsed::Failed { at: i }
        },
    }
}

/// Products joined by `+` and `-` after the operand `left`.
pub open spec fn sum_tail(
    chars: Seq<char>,
    tokens: Seq<Token>,
    i: int,
    scope: Scope,
    left: ExpressionView,
) -> Parsed<ExpressionView>
    decreases tokens.len() - i, 6int,
{
    let operator = match kind_at(tokens, i) {
        Some(TokenKind::Plus) => Some(BinaryOperator::Add),
        Some(TokenKind::Minus) => Some(BinaryOperator::Subtract),
        _ => None,
    };
    match operator {
        Some(op) => match product_at(chars, tokens, i + 1, scope) {
            Parsed::Failed { at } => Parsed::Failed { at },
            Parsed::Done { value, next } => if advances(tokens, i, next) {
                sum_tail(chars, tokens, next, scope, binary(op, left, value))
            } else {
                Parsed::Failed { at: i }
            },
        },
        None => Parsed::Done { value: left, next: i },
    }
}

/// The product that starts at token `i`: operands joined by `*` and `/`.
pub open spec fn product_at(chars: Seq<char>, tokens: Seq<Token>, i: int, scope: Scope) -> Parsed<
    ExpressionView,
>
    decreases tokens.len() - i, 5int,
{
    match sign_at(chars, tokens, i, scope) {
        Parsed::Failed { at } => Parsed::Failed { at },
        Parsed::Done { value, next } => if advances(tokens, i, next) {
            product_tail(chars, tokens, next, scope, value)
        } else {
            Parsed::Failed { at: i }
        },
    }
}

/// Operands joined by `*` and `/` after the operand `left`.
pub open spec fn product_tail(
    chars: Seq<char>,
    tokens: Seq<Token>,
    i: int,
    scope: Scope,
    left: ExpressionView,
) -> Parsed<ExpressionView>
    decreases tokens.len() - i, 5int,
{
    if kind_at(tokens, i) == Some(TokenKind::Star) || kind_at(tokens, i) == Some(
        TokenKind::Slash,
    ) {
        match sign_at(chars, tokens, i + 1, scope) {
            Parsed::Failed { at } => Parsed::Failed { at },
            Parsed::Done { value, next } => if advances(tokens, i, next) {
                product_tail(
                    chars,
                    tokens,
                    next,
                    scope,
                    if kind_at(tokens, i) == Some(TokenKind::Star) {
                        binary(BinaryOperator::Multiply, left, value)
                    } else {
                        ExpressionView::FunctionCall(Function::Divide, seq![left, value])
                    },
                )
            } else {
                Parsed::Failed { at: i }
            },
        }
    } else {
        Parsed::Done { value: left, next: i }
    }
}

/// An operand with its signs: `!`, `+` and `-` before a primary
/// expression.
pub open spec fn sign_at(chars: Seq<char>, tokens: Seq<Token>, i: int, scope: Scope) -> Parsed<
    ExpressionView,
>
    decreases tokens.len() - i, 4int,
{
    let operator = match kind_at(tokens, i) {
        Some(TokenKind::Not) => Some(UnaryOperator::Not),
        Some(TokenKind::Plus) => Some(UnaryOperator::Plus),
        Some(TokenKind::Minus) => Some(UnaryOperator::Minus),
        _ => None,
    };
    match operator {
        Some(op) => match sign_at(chars, tokens, i + 1, scope) {
            Parsed::Failed { at } => Parsed::Failed { at },
            Parsed::Done { value, next } => Parsed::Done { value: unary(op, value), next },
        },
        None => primary_at(chars, tokens, i, scope),
    }
}

/// A primary expression: an expression in brackets, a variable, a constant,
/// `EXISTS` or `NOT EXISTS` with a group, `BOUND` with a variable, or a
/// built-in function with its arguments.
pub open spec fn primary_at(chars: Seq<char>, tokens: Seq<Token>, i: int, scope: Scope) -> Parsed<
    ExpressionView,
>
    decreases tokens.len() - i, 3int,
{
    match kind_at(tokens, i) {
        Some(TokenKind::OpenParen) => match or_at(chars, tokens, i + 1, scope) {
            Parsed::Failed { at } => Parsed::Failed { at },
            Parsed::Done { value, next } => if kind_at(tokens, next) == Some(
                TokenKind::CloseParen,
            ) {
                Parsed::Done { value, next: next + 1 }
            } else {
                Parsed::Failed { at: next }
            },
        },
        Some(TokenKind::Variable) => Parsed::Done {
            value: ExpressionView::Variable(text_at(chars, tokens, i)),
            next: i + 1,
        },
        Some(TokenKind::Word) => {
            if is_word(chars, tokens, i, "EXISTS"@) {
                match group_at(chars, tokens, i + 1, scope) {
                    Parsed::Failed { at } => Parsed::Failed { at },
                    Parsed::Done { value, next } => Parsed::Done {
                        value: ExpressionView::Exists(Box::new(value)),
                        next,
                    },
                }
            } else if is_word(chars, tokens, i, "NOT"@) {
                if is_word(chars, tokens, i + 1, "EXISTS"@) {
                    match group_at(chars, tokens, i + 2, scope) {
                        Parsed::Failed { at } => Parsed::Failed { at },
                        Parsed::Done { value, next } => Parsed::Done {
                            value: unary(
                                UnaryOperator::Not,
                                ExpressionView::Exists(Box::new(value)),
                            ),
                            next,
                        },
                    }
                } else {
                    Parsed::Failed { at: i + 1 }
                }
            } else if is_word(chars, tokens, i, "BOUND"@) {
                if kind_at(tokens, i + 1) == Some(TokenKind::OpenParen) && kind_at(tokens, i + 2)
                    == Some(TokenKind::Variable) && kind_at(tokens, i + 3) == Some(
                    TokenKind::CloseParen,
                ) {
                    Parsed::Done {
                        value: ExpressionView::Bound(text_at(chars, tokens, i + 2)),
                        next: i + 4,
                    }
                } else {
                    Parsed::Failed { at: i + 1 }
                }
            } else if kind_at(tokens, i + 1) == Some(TokenKind::OpenParen) {
                match arguments_at(chars, tokens, i + 2, scope, Seq::empty()) {
                    Parsed::Failed { at } => Parsed::Failed { at },
                    Parsed::Done { value, next } => match call_of(
                        text_at(chars, tokens, i),
                        value,
                    ) {
                        Some(call) => Parsed::Done { value: call, next },
                        None => Parsed::Failed { at: i },
                    },
                }
            } else {
                match term_at(chars, tokens, i, scope) {
                    Parsed::Done { value: TermOrVariableView::Term(term), next } => Parsed::Done {
                        value: ExpressionView::Constant(term),
                        next,
                    },
                    Parsed::Done { value: _, next } => Parsed::Failed { at: i },
                    Parsed::Failed { at } => Parsed::Failed { at },
                }
            }
        },
        _ => match term_at(chars, tokens, i, scope) {
            Parsed::Done { value: TermOrVariableView::Term(term), next } => Parsed::Done {
                value: ExpressionView::Constant(term),
                next,
            },
            Parsed::Done { value: _, next } => Parsed::Failed { at: i },
            Parsed::Failed { at } => Parsed::Failed { at },
        },
    }
}

/// The arguments of a call from token `i` on, after those of `done`, up to
/// the closing bracket: expressions with commas between them.
pub open spec fn arguments_at(
    chars: Seq<char>,
    tokens: Seq<Token>,
    i: int,
    scope: Scope,
    done: Seq<ExpressionView>,
) -> Parsed<Seq<ExpressionView>>
    decreases tokens.len() - i, 10int,
{
    if kind_at(tokens, i) == Some(TokenKind::CloseParen) {
        Parsed::Done { value: done, next: i + 1 }
    } else {
        match or_at(chars, tokens, i, scope) {
            Parsed::Failed { at } => Parsed::Failed { at },
            Parsed::Done { value, next } => if !advances(tokens, i, next) {
                Parsed::Failed { at: i }
            } else if kind_at(tokens, next) == Some(TokenKind::Comma) {
                arguments_at(chars, tokens, next + 1, scope, done.push(value))
            } else if kind_at(tokens, next) == Some(TokenKind::CloseParen) {
                Parsed::Done { value: done.push(value), next: next + 1 }
            } else {
                Parsed::Failed { at: next }
            },
        }
    }
}

/// The group graph pattern that starts at token `i`: what stands between
/// braces.
pub open spec fn group_at(chars: Seq<char>, tokens: Seq<Token>, i: int, scope: Scope) -> Parsed<
    GraphPatternView,
>
    decreases tokens.len() - i, 11int,
{
    if kind_at(tokens, i) == Some(TokenKind::OpenBrace) {
        elements_at(chars, tokens, i + 1, scope, None, Seq::empty())
    } else {
        Parsed::Failed { at: i }
    }
}

/// Groups joined by `UNION` after the group `left`.
pub open spec fn union_tail(
    chars: Seq<char>,
    tokens: Seq<Token>,
    i: int,
    scope: Scope,
    left: GraphPatternView,
) -> Parsed<GraphPatternView>
    decreases tokens.len() - i, 12int,
{
    if is_word(chars, tokens, i, "UNION"@) {
        match group_at(chars, tokens, i + 1, scope) {
            Parsed::Failed { at } => Parsed::Failed { at },
            Parsed::Done { value, next } => if advances(tokens, i, next) {
                union_tail(
                    chars,
                    tokens,
                    next,
                    scope,
                    GraphPatternView::Union(Box::new(left), Box::new(value)),
                )
            } else {
                Parsed::Failed { at: i }
            },
        }
    } else {
        Parsed::Done { value: left, next: i }
    }
}

/// The pattern of a group after the element at token `i` was read, given
/// the pattern of the group so far: a group with the groups that `UNION`
/// adds to it, `GRAPH` and `SERVICE` are joined to what stands before them;
/// `OPTIONAL`, `MINUS` and `BIND` take it as their left side.
pub open spec fn element_at(
    chars: Seq<char>,
    tokens: Seq<Token>,
    i: int,
    scope: Scope,
    current: Option<GraphPatternView>,
) -> Parsed<GraphPatternView>
    decreases tokens.len() - i, 13int,
{
    if kind_at(tokens, i) == Some(TokenKind::OpenBrace) {
        match group_at(chars, tokens, i, scope) {
            Parsed::Failed { at } => Parsed::Failed { at },
            Parsed::Done { value, next } => if advances(tokens, i, next) {
                match union_tail(chars, tokens, next, scope, value) {
                    Parsed::Failed { at } => Parsed::Failed { at },
                    Parsed::Done { value: united, next: end } => Parsed::Done {
                        value: join_with(current, united),
                        next: end,
                    },
                }
            } else {
                Parsed::Failed { at: i }
            },
        }
    } else if is_word(chars, tokens, i, "OPTIONAL"@) || is_word(chars, tokens, i, "MINUS"@) {
        match group_at(chars, tokens, i + 1, scope) {
            Parsed::Failed { at } => Parsed::Failed { at },
            Parsed::Done { value, next } => Parsed::Done {
                value: if is_word(chars, tokens, i, "OPTIONAL"@) {
                    GraphPatternView::LeftJoin(Box::new(or_empty(current)), Box::new(value), None)
                } else {
                    GraphPatternView::Minus(Box::new(or_empty(current)), Box::new(value))
                },
                next,
            },
        }
    } else if is_word(chars, tokens, i, "GRAPH"@) {
        if kind_at(tokens, i + 1) == Some(TokenKind::Variable) || kind_at(tokens, i + 1) == Some(
            TokenKind::Iri,
        ) || kind_at(tokens, i + 1) == Some(TokenKind::Prefixed) {
            match term_at(chars, tokens, i + 1, scope) {
                Parsed::Failed { at } => Parsed::Failed { at },
                Parsed::Done { value: name, next: n1 } => match group_at(chars, tokens, n1, scope) {
                    Parsed::Failed { at } => Parsed::Failed { at },
                    Parsed::Done { value, next } => Parsed::Done {
                        value: join_with(current, GraphPatternView::Graph(name, Box::new(value))),
                        next,
                    },
                },
            }
        } else {
            Parsed::Failed { at: i + 1 }
        }
    } else if is_word(chars, tokens, i, "SERVICE"@) {
        let silent = is_word(chars, tokens, i + 1, "SILENT"@);
        let at_name = if silent {
            i + 2
        } else {
            i + 1
        };
        match iri_at(chars, tokens, at_name, scope) {
            Parsed::Failed { at } => Parsed::Failed { at },
            Parsed::Done { value: name, next: n1 } => match group_at(chars, tokens, n1, scope) {
                Parsed::Failed { at } => Parsed::Failed { at },
                Parsed::Done { value, next } => Parsed::Done {
                    value: join_with(
                        current,
                        GraphPatternView::Service(name, Box::new(value), silent),
                    ),
                    next,
                },
            },
        }
    } else if is_word(chars, tokens, i, "BIND"@) {
        if kind_at(tokens, i + 1) == Some(TokenKind::OpenParen) {
            match or_at(chars, tokens, i + 2, scope) {
                Parsed::Failed { at } => Parsed::Failed { at },
                Parsed::Done { value, next } => if is_word(chars, tokens, next, "AS"@) && kind_at(
                    tokens,
                    next + 1,
                ) == Some(TokenKind::Variable) && kind_at(tokens, next + 2) == Some(
                    TokenKind::CloseParen,
                ) && advances(tokens, i, next + 3) {
                    Parsed::Done {
                        value: GraphPatternView::Extend(
                            Box::new(or_empty(current)),
                            text_at(chars, tokens, next + 1),
                            value,
                        ),
                        next: next + 3,
                    }
                } else {
                    Parsed::Failed { at: next }
                },
            }
        } else {
            Parsed::Failed { at: i + 1 }
        }
    } else {
        Parsed::Failed { at: i }
    }
}

/// The rest of a group from token `i` on, up to its closing brace, given
/// the pattern of the group so far and its filters so far.
///
/// Triple patterns that follow each other make one basic graph pattern;
/// each further element is joined to what stands before it, as
/// `element_at` says; the filters apply to the whole group.
pub open spec fn elements_at(
    chars: Seq<char>,
    tokens: Seq<Token>,
    i: int,
    scope: Scope,
    current: Option<GraphPatternView>,
    filters: Seq<ExpressionView>,
) -> Parsed<GraphPatternView>
    decreases tokens.len() - i, 14int,
{
    if kind_at(tokens, i) is None {
        Parsed::Failed { at: i }
    } else if kind_at(tokens, i) == Some(TokenKind::CloseBrace) {
        Parsed::Done {
            value: filtered(or_empty(current), filters, filters.len() as int),
            next: i + 1,
        }
    } else if kind_at(tokens, i) == Some(TokenKind::Dot) {
        elements_at(chars, tokens, i + 1, scope, current, filters)
    } else if is_word(chars, tokens, i, "FILTER"@) {
        match primary_at(chars, tokens, i + 1, scope) {
            Parsed::Failed { at } => Parsed::Failed { at },
            Parsed::Done { value, next } => if advances(tokens, i, next) {
                elements_at(chars, tokens, next, scope, current, filters.push(value))
            } else {
                Parsed::Failed { at: i }
            },
        }
    } else if starts_term(chars, tokens, i) {
        match triples_at(chars, tokens, i, scope, Seq::empty()) {
            Parsed::Failed { at } => Parsed::Failed { at },
            Parsed::Done { value, next } => if advances(tokens, i, next) {
                elements_at(
                    chars,
                    tokens,
                    next,
                    scope,
                    Some(join_with(current, GraphPatternView::Bgp(value))),
                    filters,
                )
            } else {
                Parsed::Failed { at: i }
            },
        }
    } else {
        match element_at(chars, tokens, i, scope, current) {
            Parsed::Failed { at } => Parsed::Failed { at },
            Parsed::Done { value, next } => if advances(tokens, i, next) {
                elements_at(chars, tokens, next, scope, Some(value), filters)
            } else {
                Parsed::Failed { at: i }
            },
        }
    }
}

/// The declarations from token `i` on, after those of `scope`: `BASE` with
/// an IRI reference, and `PREFIX` with a prefix and an IRI reference; each
/// reference is resolved against the base that stands before it.
pub open spec fn prologue_at(chars: Seq<char>, tokens: Seq<Token>, i: int, scope: Scope) -> Parsed<
    Scope,
>
    decreases tokens.len() - i,
{
    if is_word(chars, tokens, i, "BASE"@) {
        if kind_at(tokens, i + 1) == Some(TokenKind::Iri) && advances(tokens, i, i + 2) {
            prologue_at(
                chars,
                tokens,
                i + 2,
                Scope {
                    base: Some(resolve(scope, text_at(chars, tokens, i + 1))),
                    prefixes: scope.prefixes,
                },
            )
        } else {
            Parsed::Failed { at: i + 1 }
        }
    } else if is_word(chars, tokens, i, "PREFIX"@) {
        if kind_at(tokens, i + 1) == Some(TokenKind::Prefixed) && tokens[i + 1].middle + 1
            == tokens[i + 1].end && kind_at(tokens, i + 2) == Some(TokenKind::Iri) && advances(
            tokens,
            i,
            i + 3,
        ) {
            prologue_at(
                chars,
                tokens,
                i + 3,
                Scope {
                    base: scope.base,
                    prefixes: scope.prefixes.push(
                        (
                            chars.subrange(
                                tokens[i + 1].start as int,
                                tokens[i + 1].middle as int,
                            ),
                            resolve(scope, text_at(chars, tokens, i + 2)),
                        ),
                    ),
                },
            )
        } else {
            Parsed::Failed { at: i + 1 }
        }
    } else {
        Parsed::Done { value: scope, next: i }
    }
}

/// The variables from token `i` on, after those of `done`.
pub open spec fn variables_at(chars: Seq<char>, tokens: Seq<Token>, i: int, done: Seq<Seq<char>>) -> (
    Seq<Seq<char>>,
    int,
)
    decreases tokens.len() - i,
{
    if kind_at(tokens, i) == Some(TokenKind::Variable) {
        variables_at(chars, tokens, i + 1, done.push(text_at(chars, tokens, i)))
    } else {
        (done, i)
    }
}

/// The sort keys from token `i` on, after those of `done`: `ASC` or `DESC`
/// with an expression in brackets, a variable, or an expression in
/// brackets.
pub open spec fn conditions_at(
    chars: Seq<char>,
    tokens: Seq<Token>,
    i: int,
    scope: Scope,
    done: Seq<OrderComparatorView>,
) -> Parsed<Seq<OrderComparatorView>>
    decreases tokens.len() - i,
{
    let descending = is_word(chars, tokens, i, "DESC"@);
    let marked = descending || is_word(chars, tokens, i, "ASC"@);
    let at = if marked {
        i + 1
    } else {
        i
    };
    if (marked && kind_at(tokens, at) == Some(TokenKind::OpenParen)) || (!marked && (kind_at(
        tokens,
        at,
    ) == Some(TokenKind::OpenParen) || kind_at(tokens, at) == Some(TokenKind::Variable))) {
        match primary_at(chars, tokens, at, scope) {
            Parsed::Failed { at: failed } => Parsed::Failed { at: failed },
            Parsed::Done { value, next } => if advances(tokens, i, next) {
                conditions_at(
                    chars,
                    tokens,
                    next,
                    scope,
                    done.push(OrderComparatorView { expression: value, descending }),
                )
            } else {
                Parsed::Failed { at: i }
            },
        }
    } else if marked {
        Parsed::Failed { at }
    } else {
        Parsed::Done { value: done, next: i }
    }
}

/// The sort keys of `ORDER BY` at token `i`, none where it does not stand
/// there.
pub open spec fn order_at(chars: Seq<char>, tokens: Seq<Token>, i: int, scope: Scope) -> Parsed<
    Seq<OrderComparatorView>,
> {
    if is_word(chars, tokens, i, "ORDER"@) {
        if is_word(chars, tokens, i + 1, "BY"@) {
            match conditions_at(chars, tokens, i + 2, scope, Seq::empty()) {
                Parsed::Failed { at } => Parsed::Failed { at },
                Parsed::Done { value, next } => if value.len() > 0 {
                    Parsed::Done { value, next }
                } else {
                    Parsed::Failed { at: next }
                },
            }
        } else {
            Parsed::Failed { at: i + 1 }
        }
    } else {
        Parsed::Done { value: Seq::empty(), next: i }
    }
}

/// What `LIMIT` and `OFFSET` give.
pub struct Window {
    pub limit: Option<usize>,
    pub offset: Option<usize>,
}

/// The count that a string of at most 18 decimal digits stands for, where
/// it fits a machine word.
pub open spec fn count_of(text: Seq<char>) -> Option<usize> {
    if text.len() <= 18 && (forall|k: int| 0 <= k < text.len() ==> is_digit(#[trigger] text[k]))
        && digits_value(text) <= usize::MAX {
        Some(digits_value(text) as usize)
    } else {
        None
    }
}

/// `LIMIT` and `OFFSET` from token `i` on, each at most once, in either
/// order, each with a count.
pub open spec fn window_at(chars: Seq<char>, tokens: Seq<Token>, i: int, window: Window) -> Parsed<
    Window,
>
    decreases tokens.len() - i,
{
    let limit = is_word(chars, tokens, i, "LIMIT"@);
    let offset = is_word(chars, tokens, i, "OFFSET"@);
    if limit || offset {
        if kind_at(tokens, i + 1) == Some(TokenKind::Integer) && count_of(
            text_at(chars, tokens, i + 1),
        ) is Some && advances(tokens, i, i + 2) {
            let count = count_of(text_at(chars, tokens, i + 1))->0;
            if limit && window.limit is None {
                window_at(
                    chars,
                    tokens,
                    i + 2,
                    Window { limit: Some(count), offset: window.offset },
                )
            } else if offset && window.offset is None {
                window_at(
                    chars,
                    tokens,
                    i + 2,
                    Window { limit: window.limit, offset: Some(count) },
                )
            } else {
                Parsed::Failed { at: i }
            }
        } else {
            Parsed::Failed { at: i + 1 }
        }
    } else {
        Parsed::Done { value: window, next: i }
    }
}

/// `pattern` under the solution modifiers: sorted where there are sort
/// keys, then projected where variables are named, then without repeats
/// where that is asked for, then sliced where a limit or an offset is given.
/// Where no variable is named and the pattern holds blank node labels, it
/// is projected over its other variables, so that the labels are not let
/// out and do not tell solutions apart.
pub open spec fn modified(
    pattern: GraphPatternView,
    order: Seq<OrderComparatorView>,
    projection: Option<Seq<Seq<char>>>,
    distinct: bool,
    reduced: bool,
    window: Window,
) -> GraphPatternView {
    let sorted = if order.len() > 0 {
        GraphPatternView::OrderBy(Box::new(pattern), order)
    } else {
        pattern
    };
    let projected = match projection {
        Some(variables) => GraphPatternView::Project(Box::new(sorted), variables),
        None => if hides_names(sorted) {
            GraphPatternView::Project(Box::new(sorted), shown_names(sorted))
        } else {
            sorted
        },
    };
    let unique = if distinct {
        GraphPatternView::Distinct(Box::new(projected))
    } else if reduced {
        GraphPatternView::Reduced(Box::new(projected))
    } else {
        projected
    };
    if window.limit is Some || window.offset is Some {
        GraphPatternView::Slice(
            Box::new(unique),
            match window.offset {
                Some(offset) => offset,
                None => 0,
            },
            window.limit,
        )
    } else {
        unique
    }
}

/// The group at token `i`, after `WHERE` where it stands there.
pub open spec fn where_at(chars: Seq<char>, tokens: Seq<Token>, i: int, scope: Scope) -> Parsed<
    GraphPatternView,
> {
    if is_word(chars, tokens, i, "WHERE"@) {
        group_at(chars, tokens, i + 1, scope)
    } else {
        group_at(chars, tokens, i, scope)
    }
}

/// The aggregate function with the name `name`, in any case.
pub open spec fn aggregate_function_of(name: Seq<char>) -> Option<AggregateFunction> {
    if same_word(name, "COUNT"@) {
        Some(AggregateFunction::Count)
    } else if same_word(name, "SUM"@) {
        Some(AggregateFunction::Sum)
    } else if same_word(name, "MIN"@) {
        Some(AggregateFunction::Min)
    } else if same_word(name, "MAX"@) {
        Some(AggregateFunction::Max)
    } else if same_word(name, "AVG"@) {
        Some(AggregateFunction::Avg)
    } else if same_word(name, "SAMPLE"@) {
        Some(AggregateFunction::Sample)
    } else if same_word(name, "GROUP_CONCAT"@) {
        Some(AggregateFunction::GroupConcat)
    } else {
        None
    }
}

/// Whether an aggregate starts at token `i`: the name of an aggregate
/// function, then an opening bracket.
pub open spec fn starts_aggregate(chars: Seq<char>, tokens: Seq<Token>, i: int) -> bool {
    kind_at(tokens, i) == Some(TokenKind::Word) && aggregate_function_of(
        text_at(chars, tokens, i),
    ) is Some && kind_at(tokens, i + 1) == Some(TokenKind::OpenParen)
}

/// Whether the separator of a `GROUP_CONCAT` and the closing bracket stand
/// at token `i`: `;`, `SEPARATOR`, `=`, a string, and the bracket.
pub open spec fn names_separator(chars: Seq<char>, tokens: Seq<Token>, i: int) -> bool {
    kind_at(tokens, i) == Some(TokenKind::Semicolon) && is_word(
        chars,
        tokens,
        i + 1,
        "SEPARATOR"@,
    ) && kind_at(tokens, i + 2) == Some(TokenKind::Equal) && kind_at(tokens, i + 3) == Some(
        TokenKind::Text,
    ) && kind_at(tokens, i + 4) == Some(TokenKind::CloseParen)
}

/// The aggregate that starts at token `i`: the function, then in brackets
/// `DISTINCT` where equal values count once, then `*` or an expression,
/// and after the expression of a `GROUP_CONCAT` its separator, where it
/// names one.
pub open spec fn aggregate_at(chars: Seq<char>, tokens: Seq<Token>, i: int, scope: Scope) -> Parsed<
    AggregationView,
> {
    if starts_aggregate(chars, tokens, i) {
        let function = aggregate_function_of(text_at(chars, tokens, i))->0;
        let distinct = is_word(chars, tokens, i + 2, "DISTINCT"@);
        let at = if distinct {
            i + 3
        } else {
            i + 2
        };
        if kind_at(tokens, at) == Some(TokenKind::Star) {
            if kind_at(tokens, at + 1) == Some(TokenKind::CloseParen) {
                Parsed::Done {
                    value: AggregationView { function, argument: None, distinct, separator: None },
                    next: at + 2,
                }
            } else {
                Parsed::Failed { at: at + 1 }
            }
        } else {
            match or_at(chars, tokens, at, scope) {
                Parsed::Failed { at: failed } => Parsed::Failed { at: failed },
                Parsed::Done { value, next } => if kind_at(tokens, next) == Some(
                    TokenKind::CloseParen,
                ) {
                    Parsed::Done {
                        value: AggregationView {
                            function,
                            argument: Some(value),
                            distinct,
                            separator: None,
                        },
                        next: next + 1,
                    }
                } else if function == AggregateFunction::GroupConcat && names_separator(
                    chars,
                    tokens,
                    next,
                ) {
                    Parsed::Done {
                        value: AggregationView {
                            function,
                            argument: Some(value),
                            distinct,
                            separator: Some(unescaped(text_at(chars, tokens, next + 3))),
                        },
                        next: next + 5,
                    }
                } else {
                    Parsed::Failed { at: next }
                },
            }
        }
    } else {
        Parsed::Failed { at: i }
    }
}

/// What a `SELECT` names: the output variables in order, the aggregates
/// with the variables that take their results, and the expressions with the
/// variables that they are bound to.
pub struct Selection {
    pub names: Seq<Seq<char>>,
    pub aggregates: Seq<(AggregationView, Seq<char>)>,
    pub extends: Seq<(ExpressionView, Seq<char>)>,
}

/// Whether `AS`, a variable and a closing bracket stand at token `i`.
pub open spec fn closes_item(chars: Seq<char>, tokens: Seq<Token>, i: int) -> bool {
    is_word(chars, tokens, i, "AS"@) && kind_at(tokens, i + 1) == Some(TokenKind::Variable)
        && kind_at(tokens, i + 2) == Some(TokenKind::CloseParen)
}

/// The items of a `SELECT` from token `i` on, after those of `done`: a
/// variable; or in brackets an aggregate or an expression, `AS`, and the
/// variable that takes its value.
pub open spec fn items_at(
    chars: Seq<char>,
    tokens: Seq<Token>,
    i: int,
    scope: Scope,
    done: Selection,
) -> Parsed<Selection>
    decreases tokens.len() - i,
{
    match kind_at(tokens, i) {
        Some(TokenKind::Variable) => items_at(
            chars,
            tokens,
            i + 1,
            scope,
            Selection {
                names: done.names.push(text_at(chars, tokens, i)),
                aggregates: done.aggregates,
                extends: done.extends,
            },
        ),
        Some(TokenKind::OpenParen) => if starts_aggregate(chars, tokens, i + 1) {
            match aggregate_at(chars, tokens, i + 1, scope) {
                Parsed::Failed { at } => Parsed::Failed { at },
                Parsed::Done { value, next } => if closes_item(chars, tokens, next) && advances(
                    tokens,
                    i,
                    next + 3,
                ) {
                    items_at(
                        chars,
                        tokens,
                        next + 3,
                        scope,
                        Selection {
                            names: done.names.push(text_at(chars, tokens, next + 1)),
                            aggregates: done.aggregates.push(
                                (value, text_at(chars, tokens, next + 1)),
                            ),
                            extends: done.extends,
                        },
                    )
                } else {
                    Parsed::Failed { at: next }
                },
            }
        } else {
            match or_at(chars, tokens, i + 1, scope) {
                Parsed::Failed { at } => Parsed::Failed { at },
                Parsed::Done { value, next } => if closes_item(chars, tokens, next) && advances(
                    tokens,
                    i,
                    next + 3,
                ) {
                    items_at(
                        chars,
                        tokens,
                        next + 3,
                        scope,
                        Selection {
                            names: done.names.push(text_at(chars, tokens, next + 1)),
                            aggregates: done.aggregates,
                            extends: done.extends.push((value, text_at(chars, tokens, next + 1))),
                        },
                    )
                } else {
                    Parsed::Failed { at: next }
                },
            }
        },
        _ => Parsed::Done { value: done, next: i },
    }
}

/// The keys of `GROUP BY` at token `i`, none where it does not stand
/// there.
pub open spec fn keys_at(chars: Seq<char>, tokens: Seq<Token>, i: int) -> Parsed<Seq<Seq<char>>> {
    if is_word(chars, tokens, i, "GROUP"@) {
        if is_word(chars, tokens, i + 1, "BY"@) {
            let (keys, next) = variables_at(chars, tokens, i + 2, Seq::empty());
            if keys.len() > 0 {
                Parsed::Done { value: keys, next }
            } else {
                Parsed::Failed { at: i + 2 }
            }
        } else {
            Parsed::Failed { at: i + 1 }
        }
    } else {
        Parsed::Done { value: Seq::empty(), next: i }
    }
}

/// `pattern` under the first `n` bindings of a `SELECT`, the first
/// innermost.
pub open spec fn extended(
    pattern: GraphPatternView,
    extends: Seq<(ExpressionView, Seq<char>)>,
    n: int,
) -> GraphPatternView
    decreases n,
{
    if n <= 0 || n > extends.len() {
        pattern
    } else {
        GraphPatternView::Extend(
            Box::new(extended(pattern, extends, n - 1)),
            extends[n - 1].1,
            extends[n - 1].0,
        )
    }
}

/// `pattern` grouped where there are keys or aggregates, then under the
/// bindings of the `SELECT`.
pub open spec fn selected(
    pattern: GraphPatternView,
    keys: Seq<Seq<char>>,
    aggregates: Seq<(AggregationView, Seq<char>)>,
    extends: Seq<(ExpressionView, Seq<char>)>,
) -> GraphPatternView {
    let grouped = if keys.len() > 0 || aggregates.len() > 0 {
        GraphPatternView::Group(Box::new(pattern), keys, aggregates)
    } else {
        pattern
    };
    extended(grouped, extends, extends.len() as int)
}

/// The pattern of a query form from token `i` on: the group, then `GROUP
/// BY`, then `ORDER BY`, then `LIMIT` and `OFFSET`, under the given
/// selection and projection.
pub open spec fn body_at(
    chars: Seq<char>,
    tokens: Seq<Token>,
    i: int,
    scope: Scope,
    selection: Selection,
    projection: Option<Seq<Seq<char>>>,
    distinct: bool,
    reduced: bool,
) -> Parsed<GraphPatternView> {
    match where_at(chars, tokens, i, scope) {
        Parsed::Failed { at } => Parsed::Failed { at },
        Parsed::Done { value: pattern, next: n0 } => match keys_at(chars, tokens, n0) {
            Parsed::Failed { at } => Parsed::Failed { at },
            Parsed::Done { value: keys, next: n1 } => match order_at(chars, tokens, n1, scope) {
                Parsed::Failed { at } => Parsed::Failed { at },
                Parsed::Done { value: order, next: n2 } => match window_at(
                    chars,
                    tokens,
                    n2,
                    Window { limit: None, offset: None },
                ) {
                    Parsed::Failed { at } => Parsed::Failed { at },
                    Parsed::Done { value: window, next } => Parsed::Done {
                        value: modified(
                            selected(pattern, keys, selection.aggregates, selection.extends),
                            order,
                            projection,
                            distinct,
                            reduced,
                            window,
                        ),
                        next,
                    },
                },
            },
        },
    }
}

/// The selection that names nothing.
pub open spec fn no_selection() -> Selection {
    Selection { names: Seq::empty(), aggregates: Seq::empty(), extends: Seq::empty() }
}

/// The `SELECT` whose keyword stands at token `i`.
pub open spec fn select_at(chars: Seq<char>, tokens: Seq<Token>, i: int, scope: Scope) -> Parsed<
    QueryView,
> {
    let distinct = is_word(chars, tokens, i + 1, "DISTINCT"@);
    let reduced = is_word(chars, tokens, i + 1, "REDUCED"@);
    let at = if distinct || reduced {
        i + 2
    } else {
        i + 1
    };
    if kind_at(tokens, at) == Some(TokenKind::Star) {
        match body_at(chars, tokens, at + 1, scope, no_selection(), None, distinct, reduced) {
            Parsed::Failed { at: failed } => Parsed::Failed { at: failed },
            Parsed::Done { value, next } => Parsed::Done {
                value: QueryView::Select { algebra: value, base_iri: scope.base },
                next,
            },
        }
    } else {
        match items_at(chars, tokens, at, scope, no_selection()) {
            Parsed::Failed { at: failed } => Parsed::Failed { at: failed },
            Parsed::Done { value: selection, next: after } => if selection.names.len() == 0 {
                Parsed::Failed { at }
            } else {
                match body_at(
                    chars,
                    tokens,
                    after,
                    scope,
                    selection,
                    Some(selection.names),
                    distinct,
                    reduced,
                ) {
                    Parsed::Failed { at: failed } => Parsed::Failed { at: failed },
                    Parsed::Done { value, next } => Parsed::Done {
                        value: QueryView::Select { algebra: value, base_iri: scope.base },
                        next,
                    },
                }
            },
        }
    }
}

/// The `CONSTRUCT` whose keyword stands at token `i`. A template that
/// holds a blank node label is refused at the brace that opens it: such a
/// label asks for a new blank node for each solution.
pub open spec fn construct_at(chars: Seq<char>, tokens: Seq<Token>, i: int, scope: Scope) -> Parsed<
    QueryView,
> {
    if kind_at(tokens, i + 1) == Some(TokenKind::OpenBrace) {
        match triples_at(chars, tokens, i + 2, scope, Seq::empty()) {
            Parsed::Failed { at } => Parsed::Failed { at },
            Parsed::Done { value: construct, next: n1 } => if hold_blank_label(
                construct,
                construct.len() as int,
            ) {
                Parsed::Failed { at: i + 1 }
            } else if kind_at(tokens, n1) == Some(TokenKind::CloseBrace) {
                match body_at(chars, tokens, n1 + 1, scope, no_selection(), None, false, false) {
                    Parsed::Failed { at } => Parsed::Failed { at },
                    Parsed::Done { value, next } => Parsed::Done {
                        value: QueryView::Construct {
                            construct,
                            algebra: value,
                            base_iri: scope.base,
                        },
                        next,
                    },
                }
            } else {
                Parsed::Failed { at: n1 }
            },
        }
    } else {
        Parsed::Failed { at: i + 1 }
    }
}

/// The name of the variable that stands for a fixed IRI among the targets
/// of a `DESCRIBE`: the IRI in angle brackets, which is no name of a
/// variable of a query text.
pub open spec fn target_name(iri: Seq<char>) -> Seq<char> {
    seq!['<'] + iri + seq!['>']
}

/// The targets of a `DESCRIBE` from token `i` on, after those of `done`:
/// variables, and IRIs, each of which is bound to a variable of its own.
pub open spec fn targets_at(
    chars: Seq<char>,
    tokens: Seq<Token>,
    i: int,
    scope: Scope,
    done: Selection,
) -> Parsed<Selection>
    decreases tokens.len() - i,
{
    match kind_at(tokens, i) {
        Some(TokenKind::Variable) => targets_at(
            chars,
            tokens,
            i + 1,
            scope,
            Selection {
                names: done.names.push(text_at(chars, tokens, i)),
                aggregates: done.aggregates,
                extends: done.extends,
            },
        ),
        Some(TokenKind::Iri) | Some(TokenKind::Prefixed) => match iri_at(chars, tokens, i, scope) {
            Parsed::Failed { at } => Parsed::Failed { at },
            Parsed::Done { value, next } => if advances(tokens, i, next) {
                targets_at(
                    chars,
                    tokens,
                    next,
                    scope,
                    Selection {
                        names: done.names.push(target_name(value)),
                        aggregates: done.aggregates,
                        extends: done.extends.push(
                            (
                                ExpressionView::Constant(TermView::NamedNode { iri: value }),
                                target_name(value),
                            ),
                        ),
                    },
                )
            } else {
                Parsed::Failed { at: i }
            },
        },
        _ => Parsed::Done { value: done, next: i },
    }
}

/// The `DESCRIBE` whose keyword stands at token `i`: `*` or targets, then
/// a group, which may be left out after targets.
pub open spec fn describe_at(chars: Seq<char>, tokens: Seq<Token>, i: int, scope: Scope) -> Parsed<
    QueryView,
> {
    if kind_at(tokens, i + 1) == Some(TokenKind::Star) {
        match body_at(chars, tokens, i + 2, scope, no_selection(), None, false, false) {
            Parsed::Failed { at } => Parsed::Failed { at },
            Parsed::Done { value, next } => Parsed::Done {
                value: QueryView::Describe { algebra: value, base_iri: scope.base },
                next,
            },
        }
    } else {
        match targets_at(chars, tokens, i + 1, scope, no_selection()) {
            Parsed::Failed { at } => Parsed::Failed { at },
            Parsed::Done { value: targets, next: after } => if targets.names.len() == 0 {
                Parsed::Failed { at: i + 1 }
            } else if kind_at(tokens, after) == Some(TokenKind::OpenBrace) || is_word(
                chars,
                tokens,
                after,
                "WHERE"@,
            ) {
                match body_at(
                    chars,
                    tokens,
                    after,
                    scope,
                    targets,
                    Some(targets.names),
                    false,
                    false,
                ) {
                    Parsed::Failed { at } => Parsed::Failed { at },
                    Parsed::Done { value, next } => Parsed::Done {
                        value: QueryView::Describe { algebra: value, base_iri: scope.base },
                        next,
                    },
                }
            } else {
                Parsed::Done {
                    value: QueryView::Describe {
                        algebra: GraphPatternView::Project(
                            Box::new(
                                extended(
                                    GraphPatternView::Bgp(Seq::empty()),
                                    targets.extends,
                                    targets.extends.len() as int,
                                ),
                            ),
                            targets.names,
                        ),
                        base_iri: scope.base,
                    },
                    next: after,
                }
            },
        }
    }
}

/// The query form that starts at token `i`: `SELECT`, `ASK`, `CONSTRUCT` or
/// `DESCRIBE`.
pub open spec fn form_at(chars: Seq<char>, tokens: Seq<Token>, i: int, scope: Scope) -> Parsed<
    QueryView,
> {
    if is_word(chars, tokens, i, "SELECT"@) {
        select_at(chars, tokens, i, scope)
    } else if is_word(chars, tokens, i, "ASK"@) {
        match where_at(chars, tokens, i + 1, scope) {
            Parsed::Failed { at } => Parsed::Failed { at },
            Parsed::Done { value, next } => Parsed::Done {
                value: QueryView::Ask { algebra: value, base_iri: scope.base },
                next,
            },
        }
    } else if is_word(chars, tokens, i, "CONSTRUCT"@) {
        construct_at(chars, tokens, i, scope)
    } else if is_word(chars, tokens, i, "DESCRIBE"@) {
        describe_at(chars, tokens, i, scope)
    } else {
        Parsed::Failed { at: i }
    }
}

/// The place in the text of the token with index `i`: where it starts, or
/// the end of the text past the last token.
pub open spec fn place_of(tokens: Seq<Token>, i: int, len: nat) -> usize {
    if 0 <= i < tokens.len() {
        tokens[i].start
    } else {
        len as usize
    }
}

/// The query that the tokens stand for: the prologue, then one query form,
/// then nothing more; or the index of the token at which reading failed.
pub open spec fn query_of(chars: Seq<char>, tokens: Seq<Token>, base: Option<Seq<char>>) -> Parsed<
    QueryView,
> {
    match prologue_at(chars, tokens, 0, Scope { base, prefixes: Seq::empty() }) {
        Parsed::Failed { at } => Parsed::Failed { at },
        Parsed::Done { value: scope, next: n1 } => match form_at(chars, tokens, n1, scope) {
            Parsed::Failed { at } => Parsed::Failed { at },
            Parsed::Done { value, next } => if next == tokens.len() {
                Parsed::Done { value, next }
            } else {
                Parsed::Failed { at: next }
            },
        },
    }
}

/// The query that a text stands for, or the place in the text at which it
/// is no query: where no token starts, or where the token stands at which
/// reading failed. A text with more tokens than a machine word counts is no
/// query.
pub open spec fn parse_spec(chars: Seq<char>, base: Option<Seq<char>>) -> Result<QueryView, usize> {
    match lex(chars) {
        Err(at) => Err(at as usize),
        Ok(tokens) => if tokens.len() >= usize::MAX {
            Err(0)
        } else {
            match query_of(chars, tokens, base) {
                Parsed::Done { value, .. } => Ok(value),
                Parsed::Failed { at } => Err(place_of(tokens, at, chars.len())),
            }
        },
    }
}

} // verus!
