use crate::model::term::{Literal, NamedNode, Term, TermView, Variable};
use crate::sparql::algebra::{
    AggregateFunction, Aggregation, BinaryOperator, Expression, Function, GraphPattern,
    OrderComparator, QueryVariants, TermOrVariable, TriplePattern, UnaryOperator,
};
use crate::sparql::algebra_view::{
    aggregation_view, aggregations_view, bindings_view, lemma_group_view, AggregationView,
};
use crate::sparql::grammar::{
    aggregate_at, aggregate_function_of, closes_item, construct_at, describe_at, extended,
    items_at, keys_at, no_selection, select_at, selected, starts_aggregate, target_name,
    targets_at, Selection,
};
use crate::sparql::algebra_view::{
    comparators_view, expression_view, expressions_view, lemma_arguments_view, lemma_order_view,
    pattern_view, text_view, triples_view, variables_view, ExpressionView, GraphPatternView,
    OrderComparatorView, QueryView, TermOrVariableView, TriplePatternView,
};

use crate::sparql::grammar::{
    and_at, and_tail, arguments_at, binary, body_at, call_of, comparison_of, conditions_at,
    constant, elements_at, filtered, form_at, group_at, iri_at, is_word, join_with, kind_at,
    modified, namespace_of, or_at, or_empty, or_tail, order_at, parse_spec, place_of, primary_at,
    product_at, product_tail, prologue_at, relation_at, resolve, same_word, sign_at, starts_term,
    sum_at, sum_tail, term_at, text_at, triples_at, unary, count_of, union_tail, upper,
    after_dot, binary_named, element_at, escaped_char, hold_blank_label, is_blank_position, function_named, objects_at, unary_named, unescaped,
    unescaped_from, verbs_at,
    variables_at, where_at, window_at, Parsed, Scope, Window,
};
use crate::sparql::lexer::{tokenize, tokens_within, Token, TokenKind};
use crate::sparql::model::Error;
use crate::sparql::numeric::{digits_value, is_digit, lemma_pow10_monotone, pow10};
use crate::sparql::text::chars_of;
use crate::sparql::iri::resolve_against;
use crate::sparql::names::{hides_names, is_blank_label, shown_names, shown_variables};
use vstd::prelude::*;
use vstd::string::*;

verus! {

/// What the prologue of a query declares, in executable code.
pub struct ScopeTable {
    pub base: Option<String>,
    pub prefixes: Vec<(String, String)>,
}

impl View for ScopeTable {
    type V = Scope;

    open spec fn view(&self) -> Scope {
        Scope {
            base: text_view(self.base),
            prefixes: Seq::new(
                self.prefixes@.len(),
                |k: int| (self.prefixes@[k].0@, self.prefixes@[k].1@),
            ),
        }
    }
}

/// A query text with its characters and its tokens.
pub struct Source<'a> {
    pub query: &'a str,
    pub chars: Vec<char>,
    pub tokens: Vec<Token>,
}

/// Whether what was read agrees with what the grammar gives for a term.
pub open spec fn agrees_term(
    read: Result<(TermOrVariable, usize), usize>,
    parsed: Parsed<TermOrVariableView>,
) -> bool {
    match read {
        Ok((value, next)) => parsed == (Parsed::Done { value: value@, next: next as int }),
        Err(at) => parsed == (Parsed::<TermOrVariableView>::Failed { at: at as int }),
    }
}

/// Whether what was read agrees with what the grammar gives for a text.
pub open spec fn agrees_text(read: Result<(String, usize), usize>, parsed: Parsed<Seq<char>>) -> bool {
    match read {
        Ok((value, next)) => parsed == (Parsed::Done { value: value@, next: next as int }),
        Err(at) => parsed == (Parsed::<Seq<char>>::Failed { at: at as int }),
    }
}

/// Whether what was read agrees with what the grammar gives for triple
/// patterns.
pub open spec fn agrees_triples(
    read: Result<(Vec<TriplePattern>, usize), usize>,
    parsed: Parsed<Seq<TriplePatternView>>,
) -> bool {
    match read {
        Ok((value, next)) => parsed == (Parsed::Done {
            value: triples_view(value@),
            next: next as int,
        }),
        Err(at) => parsed == (Parsed::<Seq<TriplePatternView>>::Failed { at: at as int }),
    }
}

/// Whether what was read agrees with what the grammar gives for an
/// expression.
pub open spec fn agrees_expression(
    read: Result<(Expression, usize), usize>,
    parsed: Parsed<ExpressionView>,
) -> bool {
    match read {
        Ok((value, next)) => parsed == (Parsed::Done {
            value: expression_view(value),
            next: next as int,
        }),
        Err(at) => parsed == (Parsed::<ExpressionView>::Failed { at: at as int }),
    }
}

/// Whether what was read agrees with what the grammar gives for a list of
/// expressions.
pub open spec fn agrees_expressions(
    read: Result<(Vec<Expression>, usize), usize>,
    parsed: Parsed<Seq<ExpressionView>>,
) -> bool {
    match read {
        Ok((value, next)) => parsed == (Parsed::Done {
            value: expressions_view(value@),
            next: next as int,
        }),
        Err(at) => parsed == (Parsed::<Seq<ExpressionView>>::Failed { at: at as int }),
    }
}

/// Whether what was read agrees with what the grammar gives for a graph
/// pattern.
pub open spec fn agrees_pattern(
    read: Result<(GraphPattern, usize), usize>,
    parsed: Parsed<GraphPatternView>,
) -> bool {
    match read {
        Ok((value, next)) => parsed == (Parsed::Done {
            value: pattern_view(value),
            next: next as int,
        }),
        Err(at) => parsed == (Parsed::<GraphPatternView>::Failed { at: at as int }),
    }
}

/// The mathematical value of an optional graph pattern.
pub open spec fn option_pattern_view(pattern: Option<GraphPattern>) -> Option<GraphPatternView> {
    match pattern {
        Some(p) => Some(pattern_view(p)),
        None => None,
    }
}

/// Whether a result of reading stays within the tokens.
pub open spec fn within<T>(read: Result<(T, usize), usize>, len: nat) -> bool {
    match read {
        Ok((_, next)) => next <= len,
        Err(at) => at <= len,
    }
}

fn upper_of(c: char) -> (u: char)
    ensures
        u == upper(c),
{
    if 'a' <= c && c <= 'z' {
        ((c as u8) - 32) as char
    } else {
        c
    }
}

impl<'a> Source<'a> {
    /// Whether the characters and the tokens are those of the text.
    pub open spec fn well_formed(&self) -> bool {
        &&& self.chars@ == self.query@
        &&& tokens_within(self.tokens@, self.chars@.len())
        &&& self.tokens@.len() < usize::MAX
        &&& self.chars@.len() <= usize::MAX
    }

    /// The kind of the token `k` places after token `i`.
    fn kind_in(&self, i: usize, k: usize) -> (kind: Option<TokenKind>)
        ensures
            kind == kind_at(self.tokens@, i + k),
    {
        let len = self.tokens.len();
        match i.checked_add(k) {
            Some(j) => if j < len {
                Some(self.tokens[j].kind)
            } else {
                None
            },
            None => None,
        }
    }

    fn has_kind(&self, i: usize, k: usize, wanted: TokenKind) -> (found: bool)
        ensures
            found == (kind_at(self.tokens@, i + k) == Some(wanted)),
            found ==> i + k < self.tokens@.len(),
    {
        match self.kind_in(i, k) {
            Some(kind) => kind == wanted,
            None => false,
        }
    }

    /// The characters of the text from `start` up to `end`.
    fn text_between(&self, start: usize, end: usize) -> (text: String)
        requires
            self.well_formed(),
            start <= end <= self.chars@.len(),
        ensures
            text@ == self.chars@.subrange(start as int, end as int),
    {
        self.query.substring_char(start, end).to_owned()
    }

    /// The text of the token with index `i`.
    fn text_in(&self, i: usize) -> (text: String)
        requires
            self.well_formed(),
            i < self.tokens@.len(),
        ensures
            text@ == text_at(self.chars@, self.tokens@, i as int),
    {
        self.text_between(self.tokens[i].start, self.tokens[i].end)
    }

    /// Whether the text of token `i` is `word`, in any case.
    fn same_word_in(&self, i: usize, word: &str) -> (same: bool)
        requires
            self.well_formed(),
            i < self.tokens@.len(),
        ensures
            same == same_word(text_at(self.chars@, self.tokens@, i as int), word@),
    {
        let wanted = chars_of(word);
        let start = self.tokens[i].start;
        let end = self.tokens[i].end;
        let ghost text = text_at(self.chars@, self.tokens@, i as int);
        if end - start != wanted.len() {
            return false;
        }
        let mut k: usize = 0;
        while k < wanted.len()
            invariant
                k <= wanted@.len(),
                wanted@ == word@,
                start + wanted@.len() == end,
                end <= self.chars@.len(),
                text == self.chars@.subrange(start as int, end as int),
                text == text_at(self.chars@, self.tokens@, i as int),
                forall|j: int| 0 <= j < k ==> upper(#[trigger] text[j]) == upper(word@[j]),
            decreases wanted@.len() - k,
        {
            if upper_of(self.chars[start + k]) != upper_of(wanted[k]) {
                assert(text[k as int] == self.chars@[start + k]);
                assert(upper(text[k as int]) != upper(word@[k as int]));
                return false;
            }
            assert(text[k as int] == self.chars@[start + k]);
            k = k + 1;
        }
        true
    }

    /// Whether the token `k` places after token `i` is the word `word`.
    fn word_in(&self, i: usize, k: usize, word: &str) -> (is: bool)
        requires
            self.well_formed(),
        ensures
            is == is_word(self.chars@, self.tokens@, i + k, word@),
            is ==> i + k < self.tokens@.len(),
    {
        // reading the length tells the verifier that indices fit a machine word
        let _len = self.tokens.len();
        if self.has_kind(i, k, TokenKind::Word) {
            self.same_word_in(i + k, word)
        } else {
            false
        }
    }

    /// Whether the text of token `i` is exactly `word`.
    fn exact_in(&self, i: usize, word: &str) -> (same: bool)
        requires
            self.well_formed(),
            i < self.tokens@.len(),
        ensures
            same == (text_at(self.chars@, self.tokens@, i as int) == word@),
    {
        let text = self.text_in(i);
        text == word.to_owned()
    }
}

/// Whether a text is the label of a blank node.
fn is_blank_label_in(text: &str) -> (blank: bool)
    ensures
        blank == is_blank_label(text@),
{
    text.unicode_len() > 2 && text.get_char(0) == '_' && text.get_char(1) == ':'
}

fn is_blank_position_in(position: &TermOrVariable) -> (blank: bool)
    ensures
        blank == is_blank_position(position@),
{
    match position {
        TermOrVariable::Variable(variable) => is_blank_label_in(variable.name()),
        TermOrVariable::Term(_) => false,
    }
}

/// Whether one of the triple patterns holds a blank node label.
fn hold_blank_label_in(triples: &Vec<TriplePattern>) -> (found: bool)
    ensures
        found == hold_blank_label(triples_view(triples@), triples@.len() as int),
{
    let ghost views = triples_view(triples@);
    let mut i: usize = 0;
    while i < triples.len()
        invariant
            i <= triples@.len(),
            views == triples_view(triples@),
            !hold_blank_label(views, i as int),
        decreases triples@.len() - i,
    {
        assert(views[i as int] == triples@[i as int]@);
        if is_blank_position_in(&triples[i].subject) || is_blank_position_in(
            &triples[i].predicate,
        ) || is_blank_position_in(&triples[i].object) {
            assert(hold_blank_label(views, i + 1));
            proof {
                lemma_hold_blank_label_grows(views, i + 1, views.len() as int);
            }
            return true;
        }
        i = i + 1;
    }
    false
}

proof fn lemma_hold_blank_label_grows(triples: Seq<TriplePatternView>, n: int, m: int)
    requires
        0 <= n <= m <= triples.len(),
        hold_blank_label(triples, n),
    ensures
        hold_blank_label(triples, m),
    decreases m - n,
{
    if n < m {
        lemma_hold_blank_label_grows(triples, n, m - 1);
    }
}

/// Appends the character that stands for `c` after a backslash.
fn append_escaped(out: &mut String, c: char, written: &str, at: usize)
    requires
        at < written@.len(),
        at < usize::MAX,
        written@[at as int] == c,
    ensures
        final(out)@ == old(out)@.push(escaped_char(c)),
{
    proof {
        reveal_strlit("\t");
        reveal_strlit("\n");
        reveal_strlit("\r");
        reveal_strlit("\u{8}");
        reveal_strlit("\u{c}");
    }
    let ghost before = out@;
    if c == 't' {
        out.append("\t");
    } else if c == 'n' {
        out.append("\n");
    } else if c == 'r' {
        out.append("\r");
    } else if c == 'b' {
        out.append("\u{8}");
    } else if c == 'f' {
        out.append("\u{c}");
    } else {
        out.append(written.substring_char(at, at + 1));
        assert(written@.subrange(at as int, at + 1) =~= seq![c]);
    }
    assert(out@ =~= before.push(escaped_char(c)));
}

/// The text that a string holds.
fn unescape(raw: &str) -> (text: String)
    ensures
        text@ == unescaped(raw@),
{
    let len = raw.unicode_len();
    let mut text = String::new();
    let mut i: usize = 0;
    assert(text@ + unescaped_from(raw@, 0) =~= unescaped(raw@));
    while i < len
        invariant
            len == raw@.len(),
            i <= len,
            text@ + unescaped_from(raw@, i as int) == unescaped(raw@),
        decreases len - i,
    {
        let ghost before = text@;
        let c = raw.get_char(i);
        if c == '\\' && len - i > 1 {
            let next = raw.get_char(i + 1);
            append_escaped(&mut text, next, raw, i + 1);
            assert(before.push(escaped_char(next)) + unescaped_from(raw@, i + 2) =~= before + (
            seq![escaped_char(next)] + unescaped_from(raw@, i + 2)));
            i = i + 2;
        } else {
            text.append(raw.substring_char(i, i + 1));
            assert(raw@.subrange(i as int, i + 1) =~= seq![c]);
            assert((before + seq![c]) + unescaped_from(raw@, i + 1) =~= before + (seq![c]
                + unescaped_from(raw@, i + 1)));
            i = i + 1;
        }
    }
    assert(text@ + Seq::<char>::empty() =~= text@);
    text
}

/// An IRI reference as an IRI.
fn resolve_in(scope: &ScopeTable, iri: String) -> (resolved: String)
    ensures
        resolved@ == resolve(scope@, iri@),
{
    match &scope.base {
        Some(base) => resolve_against(base.as_str(), iri.as_str()),
        None => iri,
    }
}

/// The namespace of a prefix.
fn namespace_in(scope: &ScopeTable, name: &String) -> (found: Option<String>)
    ensures
        match found {
            Some(namespace) => namespace_of(
                scope@.prefixes,
                name@,
                scope@.prefixes.len() as int,
            ) == Some(namespace@),
            None => namespace_of(scope@.prefixes, name@, scope@.prefixes.len() as int) is None,
        },
{
    let mut n: usize = scope.prefixes.len();
    while n > 0
        invariant
            n <= scope.prefixes@.len(),
            namespace_of(scope@.prefixes, name@, scope@.prefixes.len() as int) == namespace_of(
                scope@.prefixes,
                name@,
                n as int,
            ),
        decreases n,
    {
        if scope.prefixes[n - 1].0 == *name {
            return Some(scope.prefixes[n - 1].1.clone());
        }
        n = n - 1;
    }
    None
}

fn named(iri: &str) -> (term: TermOrVariable)
    ensures
        term@ == TermOrVariableView::Term(TermView::NamedNode { iri: iri@ }),
{
    TermOrVariable::Term(Term::NamedNode(NamedNode::new(iri)))
}

fn typed(value: &str, datatype: &str) -> (term: TermOrVariable)
    ensures
        term@ == TermOrVariableView::Term(TermView::Typed { value: value@, datatype: datatype@ }),
{
    TermOrVariable::Term(
        Term::Literal(Literal::new_typed_literal(value, NamedNode::new(datatype))),
    )
}

impl<'a> Source<'a> {
    /// The IRI that the token with index `i` stands for.
    pub fn iri_in(&self, i: usize, scope: &ScopeTable) -> (read: Result<(String, usize), usize>)
        requires
            self.well_formed(),
            i <= self.tokens@.len(),
        ensures
            agrees_text(read, iri_at(self.chars@, self.tokens@, i as int, scope@)),
            within(read, self.tokens@.len()),
    {
        match self.kind_in(i, 0) {
            Some(TokenKind::Iri) => {
                let text = self.text_in(i);
                Ok((resolve_in(scope, text), i + 1))
            },
            Some(TokenKind::Prefixed) => {
                let found = self.tokens[i];
                let prefix = self.text_between(found.start, found.middle);
                match namespace_in(scope, &prefix) {
                    Some(namespace) => {
                        let local = self.text_between(found.middle + 1, found.end);
                        Ok((namespace.concat(local.as_str()), i + 1))
                    },
                    None => Err(i),
                }
            },
            _ => Err(i),
        }
    }

    /// The term or variable that starts at token `i`.
#[verifier::rlimit(40)]
    pub fn term_in(&self, i: usize, scope: &ScopeTable) -> (read: Result<
        (TermOrVariable, usize),
        usize,
    >)
        requires
            self.well_formed(),
            i <= self.tokens@.len(),
        ensures
            agrees_term(read, term_at(self.chars@, self.tokens@, i as int, scope@)),
            within(read, self.tokens@.len()),
    {
        match self.kind_in(i, 0) {
            Some(TokenKind::Variable) => {
                let name = self.text_in(i);
                Ok((TermOrVariable::Variable(Variable::new(name.as_str())), i + 1))
            },
            Some(TokenKind::Iri) => match self.iri_in(i, scope) {
                Ok((iri, next)) => Ok((named(iri.as_str()), next)),
                Err(at) => Err(at),
            },
            Some(TokenKind::Prefixed) => {
                let text = self.text_in(i);
                if is_blank_label_in(text.as_str()) {
                    return Ok((TermOrVariable::Variable(Variable::new(text.as_str())), i + 1));
                }
                match self.iri_in(i, scope) {
                    Ok((iri, next)) => Ok((named(iri.as_str()), next)),
                    Err(at) => Err(at),
                }
            },
            Some(TokenKind::Text) => {
                let value = unescape(self.text_in(i).as_str());
                if self.has_kind(i, 1, TokenKind::LangTag) {
                    let language = self.text_in(i + 1);
                    Ok(
                        (
                            TermOrVariable::Term(
                                Term::Literal(
                                    Literal::new_language_tagged_literal(
                                        value.as_str(),
                                        language.as_str(),
                                    ),
                                ),
                            ),
                            i + 2,
                        ),
                    )
                } else if self.has_kind(i, 1, TokenKind::DoubleCaret) {
                    match self.iri_in(i + 2, scope) {
                        Ok((datatype, next)) => Ok(
                            (typed(value.as_str(), datatype.as_str()), next),
                        ),
                        Err(at) => Err(at),
                    }
                } else {
                    Ok(
                        (
                            TermOrVariable::Term(
                                Term::Literal(Literal::new_simple_literal(value.as_str())),
                            ),
                            i + 1,
                        ),
                    )
                }
            },
            Some(TokenKind::Integer) => {
                let value = self.text_in(i);
                Ok((typed(value.as_str(), "http://www.w3.org/2001/XMLSchema#integer"), i + 1))
            },
            Some(TokenKind::Decimal) => {
                let value = self.text_in(i);
                Ok((typed(value.as_str(), "http://www.w3.org/2001/XMLSchema#decimal"), i + 1))
            },
            Some(TokenKind::Word) => {
                if self.word_in(i, 0, "true") {
                    Ok((typed("true", "http://www.w3.org/2001/XMLSchema#boolean"), i + 1))
                } else if self.word_in(i, 0, "false") {
                    Ok((typed("false", "http://www.w3.org/2001/XMLSchema#boolean"), i + 1))
                } else if self.exact_in(i, "a") {
                    Ok((named("http://www.w3.org/1999/02/22-rdf-syntax-ns#type"), i + 1))
                } else {
                    Err(i)
                }
            },
            _ => Err(i),
        }
    }

    /// Whether a term or variable may start at token `i`.
    pub fn starts_term_in(&self, i: usize) -> (starts: bool)
        requires
            self.well_formed(),
        ensures
            starts == starts_term(self.chars@, self.tokens@, i as int),
            starts ==> i < self.tokens@.len(),
    {
        match self.kind_in(i, 0) {
            Some(TokenKind::Variable) => true,
            Some(TokenKind::Iri) => true,
            Some(TokenKind::Prefixed) => true,
            Some(TokenKind::Text) => true,
            Some(TokenKind::Integer) => true,
            Some(TokenKind::Decimal) => true,
            Some(TokenKind::Word) => self.word_in(i, 0, "true") || self.word_in(i, 0, "false")
                || self.exact_in(i, "a"),
            _ => false,
        }
    }

    /// The index after the dot at token `i`.
    fn after_dot_in(&self, i: usize) -> (next: usize)
        requires
            self.well_formed(),
            i <= self.tokens@.len(),
        ensures
            next == after_dot(self.tokens@, i as int),
            i <= next <= self.tokens@.len(),
    {
        if self.has_kind(i, 0, TokenKind::Dot) {
            i + 1
        } else {
            i
        }
    }

    /// The triple patterns from token `i` on, after those of `done`.
    pub fn triples_in(&self, i: usize, scope: &ScopeTable, done: Vec<TriplePattern>) -> (read:
        Result<(Vec<TriplePattern>, usize), usize>)
        requires
            self.well_formed(),
            i <= self.tokens@.len(),
        ensures
            agrees_triples(
                read,
                triples_at(self.chars@, self.tokens@, i as int, scope@, triples_view(done@)),
            ),
            within(read, self.tokens@.len()),
        decreases self.tokens@.len() - i, 2int,
    {
        if !self.starts_term_in(i) {
            return Ok((done, i));
        }
        let (subject, next) = match self.term_in(i, scope) {
            Ok(found) => found,
            Err(at) => {
                return Err(at);
            },
        };
        if i < next && next <= self.tokens.len() {
            self.verbs_in(next, scope, &subject, done)
        } else {
            Err(i)
        }
    }

    /// The triple patterns of a subject from the predicate at token `i` on.
    fn verbs_in(
        &self,
        i: usize,
        scope: &ScopeTable,
        subject: &TermOrVariable,
        done: Vec<TriplePattern>,
    ) -> (read: Result<(Vec<TriplePattern>, usize), usize>)
        requires
            self.well_formed(),
            i <= self.tokens@.len(),
        ensures
            agrees_triples(
                read,
                verbs_at(
                    self.chars@,
                    self.tokens@,
                    i as int,
                    scope@,
                    subject@,
                    triples_view(done@),
                ),
            ),
            within(read, self.tokens@.len()),
        decreases self.tokens@.len() - i, 1int,
    {
        let (predicate, next) = match self.term_in(i, scope) {
            Ok(found) => found,
            Err(at) => {
                return Err(at);
            },
        };
        if i < next && next <= self.tokens.len() {
            self.objects_in(next, scope, subject, &predicate, done)
        } else {
            Err(i)
        }
    }

    /// The triple patterns of a subject and a predicate from the object at
    /// token `i` on.
    fn objects_in(
        &self,
        i: usize,
        scope: &ScopeTable,
        subject: &TermOrVariable,
        predicate: &TermOrVariable,
        done: Vec<TriplePattern>,
    ) -> (read: Result<(Vec<TriplePattern>, usize), usize>)
        requires
            self.well_formed(),
            i <= self.tokens@.len(),
        ensures
            agrees_triples(
                read,
                objects_at(
                    self.chars@,
                    self.tokens@,
                    i as int,
                    scope@,
                    subject@,
                    predicate@,
                    triples_view(done@),
                ),
            ),
            within(read, self.tokens@.len()),
        decreases self.tokens@.len() - i, 0int,
    {
        let (object, next) = match self.term_in(i, scope) {
            Ok(found) => found,
            Err(at) => {
                return Err(at);
            },
        };
        let mut all = done;
        let ghost before = triples_view(all@);
        let triple = TriplePattern {
            subject: subject.clone(),
            predicate: predicate.clone(),
            object,
        };
        all.push(triple);
        assert(triples_view(all@) =~= before.push(triple@));
        assert(triple@ == (TriplePatternView {
            subject: subject@,
            predicate: predicate@,
            object: object@,
        }));
        if !(i < next && next <= self.tokens.len()) {
            Err(i)
        } else if self.has_kind(next, 0, TokenKind::Comma) {
            self.objects_in(next + 1, scope, subject, predicate, all)
        } else if self.has_kind(next, 0, TokenKind::Semicolon) {
            if self.starts_term_in(next + 1) {
                self.verbs_in(next + 1, scope, subject, all)
            } else {
                let after = self.after_dot_in(next + 1);
                self.triples_in(after, scope, all)
            }
        } else {
            let after = self.after_dot_in(next);
            self.triples_in(after, scope, all)
        }
    }
}

fn unary_of(operator: UnaryOperator, a: Expression) -> (e: Expression)
    ensures
        expression_view(e) == unary(operator, expression_view(a)),
{
    Expression::Unary(operator, Box::new(a))
}

fn binary_of(operator: BinaryOperator, a: Expression, b: Expression) -> (e: Expression)
    ensures
        expression_view(e) == binary(operator, expression_view(a), expression_view(b)),
{
    Expression::Binary(operator, Box::new(a), Box::new(b))
}

fn call_with(function: Function, arguments: Vec<Expression>) -> (e: Expression)
    ensures
        expression_view(e) == ExpressionView::FunctionCall(
            function,
            expressions_view(arguments@),
        ),
{
    proof {
        lemma_arguments_view(function, arguments);
    }
    Expression::FunctionCall(function, arguments)
}

/// Takes the last expression out of `arguments`.
fn take_last(arguments: &mut Vec<Expression>) -> (last: Expression)
    requires
        old(arguments)@.len() > 0,
    ensures
        last == old(arguments)@[old(arguments)@.len() - 1],
        final(arguments)@ == old(arguments)@.drop_last(),
{
    match arguments.pop() {
        Some(last) => last,
        None => Expression::Coalesce(Vec::new()),
    }
}

fn comparison_in(kind: Option<TokenKind>) -> (operator: Option<BinaryOperator>)
    ensures
        operator == comparison_of(kind),
{
    match kind {
        Some(TokenKind::Equal) => Some(BinaryOperator::Equal),
        Some(TokenKind::NotEqual) => Some(BinaryOperator::NotEqual),
        Some(TokenKind::Less) => Some(BinaryOperator::Less),
        Some(TokenKind::Greater) => Some(BinaryOperator::Greater),
        Some(TokenKind::LessOrEqual) => Some(BinaryOperator::LessOrEqual),
        Some(TokenKind::GreaterOrEqual) => Some(BinaryOperator::GreaterOrEqual),
        _ => None,
    }
}

fn join_in(current: Option<GraphPattern>, pattern: GraphPattern) -> (joined: GraphPattern)
    ensures
        pattern_view(joined) == join_with(option_pattern_view(current), pattern_view(pattern)),
{
    match current {
        Some(left) => GraphPattern::Join(Box::new(left), Box::new(pattern)),
        None => pattern,
    }
}

fn optional_of(left: GraphPattern, right: GraphPattern) -> (joined: GraphPattern)
    ensures
        pattern_view(joined) == GraphPatternView::LeftJoin(
            Box::new(pattern_view(left)),
            Box::new(pattern_view(right)),
            None,
        ),
{
    let joined = GraphPattern::LeftJoin(Box::new(left), Box::new(right), None);
    assert(crate::sparql::algebra_view::option_expression_view(None::<Expression>) is None);
    joined
}

fn or_empty_in(current: Option<GraphPattern>) -> (pattern: GraphPattern)
    ensures
        pattern_view(pattern) == or_empty(option_pattern_view(current)),
{
    match current {
        Some(pattern) => pattern,
        None => {
            let empty: Vec<TriplePattern> = Vec::new();
            assert(triples_view(empty@) =~= Seq::<TriplePatternView>::empty());
            GraphPattern::Bgp(empty)
        },
    }
}

/// `pattern` under the filters of a group, the first innermost.
fn apply_filters(pattern: GraphPattern, filters: Vec<Expression>) -> (out: GraphPattern)
    ensures
        pattern_view(out) == filtered(
            pattern_view(pattern),
            expressions_view(filters@),
            filters@.len() as int,
        ),
{
    let ghost all = expressions_view(filters@);
    let ghost base = pattern_view(pattern);
    let ghost given = filters@;
    // reading the length tells the verifier that it fits a machine word
    let _count = filters.len();
    let mut rest = filters;
    let mut out = pattern;
    let mut k: usize = 0;
    assert(rest@ =~= given.subrange(0, given.len() as int));
    while rest.len() > 0
        invariant
            k + rest@.len() == given.len(),
            given.len() <= usize::MAX,
            rest@ == given.subrange(k as int, given.len() as int),
            all == expressions_view(given),
            pattern_view(out) == filtered(base, all, k as int),
        decreases rest@.len(),
    {
        let filter = rest.remove(0);
        assert(filter == given[k as int]);
        out = GraphPattern::Filter(filter, Box::new(out));
        k = k + 1;
        assert(rest@ =~= given.subrange(k as int, given.len() as int));
    }
    out
}

impl<'a> Source<'a> {
    /// The test on two operands that the name of token `i` stands for.
    fn binary_named_in(&self, i: usize) -> (found: Option<BinaryOperator>)
        requires
            self.well_formed(),
            i < self.tokens@.len(),
        ensures
            found == binary_named(text_at(self.chars@, self.tokens@, i as int)),
    {
        if self.same_word_in(i, "SAMETERM") {
            Some(BinaryOperator::SameTerm)
        } else if self.same_word_in(i, "CONTAINS") {
            Some(BinaryOperator::Contains)
        } else if self.same_word_in(i, "STRSTARTS") {
            Some(BinaryOperator::StrStarts)
        } else if self.same_word_in(i, "STRENDS") {
            Some(BinaryOperator::StrEnds)
        } else {
            None
        }
    }

    /// The function of one operand that the name of token `i` stands for.
    fn unary_named_in(&self, i: usize) -> (found: Option<UnaryOperator>)
        requires
            self.well_formed(),
            i < self.tokens@.len(),
        ensures
            found == unary_named(text_at(self.chars@, self.tokens@, i as int)),
    {
        if self.same_word_in(i, "ISIRI") || self.same_word_in(i, "ISURI") {
            Some(UnaryOperator::IsIri)
        } else if self.same_word_in(i, "ISBLANK") {
            Some(UnaryOperator::IsBlank)
        } else if self.same_word_in(i, "ISLITERAL") {
            Some(UnaryOperator::IsLiteral)
        } else if self.same_word_in(i, "ISNUMERIC") {
            Some(UnaryOperator::IsNumeric)
        } else if self.same_word_in(i, "STRLEN") {
            Some(UnaryOperator::StrLen)
        } else if self.same_word_in(i, "ABS") {
            Some(UnaryOperator::Abs)
        } else if self.same_word_in(i, "YEAR") {
            Some(UnaryOperator::Year)
        } else if self.same_word_in(i, "MONTH") {
            Some(UnaryOperator::Month)
        } else if self.same_word_in(i, "DAY") {
            Some(UnaryOperator::Day)
        } else if self.same_word_in(i, "HOURS") {
            Some(UnaryOperator::Hours)
        } else if self.same_word_in(i, "MINUTES") {
            Some(UnaryOperator::Minutes)
        } else {
            None
        }
    }

    /// The function that the name of token `i` stands for, among those that
    /// are kept as calls.
    fn function_named_in(&self, i: usize) -> (found: Option<Function>)
        requires
            self.well_formed(),
            i < self.tokens@.len(),
        ensures
            found == function_named(text_at(self.chars@, self.tokens@, i as int)),
    {
        if self.same_word_in(i, "STR") {
            Some(Function::Str)
        } else if self.same_word_in(i, "LANG") {
            Some(Function::Lang)
        } else if self.same_word_in(i, "DATATYPE") {
            Some(Function::Datatype)
        } else if self.same_word_in(i, "CONCAT") {
            Some(Function::Concat)
        } else if self.same_word_in(i, "SUBSTR") {
            Some(Function::SubStr)
        } else if self.same_word_in(i, "UCASE") {
            Some(Function::UCase)
        } else if self.same_word_in(i, "LCASE") {
            Some(Function::LCase)
        } else if self.same_word_in(i, "REGEX") {
            Some(Function::Regex)
        } else if self.same_word_in(i, "REPLACE") {
            Some(Function::Replace)
        } else if self.same_word_in(i, "NOW") {
            Some(Function::Now)
        } else if self.same_word_in(i, "SECONDS") {
            Some(Function::Seconds)
        } else {
            None
        }
    }

    /// The built-in function with the name of token `i`, applied to
    /// `arguments`.
    fn call_in(&self, i: usize, arguments: Vec<Expression>) -> (call: Option<Expression>)
        requires
            self.well_formed(),
            i < self.tokens@.len(),
        ensures
            match call {
                Some(e) => call_of(
                    text_at(self.chars@, self.tokens@, i as int),
                    expressions_view(arguments@),
                ) == Some(expression_view(e)),
                None => call_of(
                    text_at(self.chars@, self.tokens@, i as int),
                    expressions_view(arguments@),
                ) is None,
            },
    {
        let n = arguments.len();
        let ghost views = expressions_view(arguments@);
        let mut arguments = arguments;
        if self.same_word_in(i, "IF") && n == 3 {
            let c = take_last(&mut arguments);
            let b = take_last(&mut arguments);
            let a = take_last(&mut arguments);
            return Some(Expression::If(Box::new(a), Box::new(b), Box::new(c)));
        }
        if self.same_word_in(i, "COALESCE") {
            proof {
                lemma_arguments_view(Function::Str, arguments);
            }
            return Some(Expression::Coalesce(arguments));
        }
        if n == 2 {
            if let Some(operator) = self.binary_named_in(i) {
                let b = take_last(&mut arguments);
                let a = take_last(&mut arguments);
                return Some(binary_of(operator, a, b));
            }
        }
        if n == 1 {
            if let Some(operator) = self.unary_named_in(i) {
                let a = take_last(&mut arguments);
                return Some(unary_of(operator, a));
            }
        }
        match self.function_named_in(i) {
            Some(function) => Some(call_with(function, arguments)),
            None => None,
        }
    }

    /// The constant that starts at token `i`.
    fn constant_in(&self, i: usize, scope: &ScopeTable) -> (read: Result<
        (Expression, usize),
        usize,
    >)
        requires
            self.well_formed(),
            i <= self.tokens@.len(),
        ensures
            agrees_expression(
                read,
                match term_at(self.chars@, self.tokens@, i as int, scope@) {
                    Parsed::Done { value: TermOrVariableView::Term(term), next } => Parsed::Done {
                        value: ExpressionView::Constant(term),
                        next,
                    },
                    Parsed::Done { value: _, next } => Parsed::Failed { at: i as int },
                    Parsed::Failed { at } => Parsed::Failed { at },
                },
            ),
            within(read, self.tokens@.len()),
    {
        match self.term_in(i, scope) {
            Ok((TermOrVariable::Term(term), next)) => Ok((Expression::Constant(term), next)),
            Ok((_, _)) => Err(i),
            Err(at) => Err(at),
        }
    }

    /// The expression that starts at token `i`.
    pub fn or_in(&self, i: usize, scope: &ScopeTable) -> (read: Result<(Expression, usize), usize>)
        requires
            self.well_formed(),
            i <= self.tokens@.len(),
        ensures
            agrees_expression(read, or_at(self.chars@, self.tokens@, i as int, scope@)),
            within(read, self.tokens@.len()),
        decreases self.tokens@.len() - i, 9int, 1int,
    {
        match self.and_in(i, scope) {
            Err(at) => Err(at),
            Ok((value, next)) => if i < next && next <= self.tokens.len() {
                self.or_rest(next, scope, value)
            } else {
                Err(i)
            },
        }
    }

    fn or_rest(&self, i: usize, scope: &ScopeTable, left: Expression) -> (read: Result<
        (Expression, usize),
        usize,
    >)
        requires
            self.well_formed(),
            i <= self.tokens@.len(),
        ensures
            agrees_expression(
                read,
                or_tail(self.chars@, self.tokens@, i as int, scope@, expression_view(left)),
            ),
            within(read, self.tokens@.len()),
        decreases self.tokens@.len() - i, 9int, 1int,
    {
        if self.has_kind(i, 0, TokenKind::Or) {
            match self.and_in(i + 1, scope) {
                Err(at) => Err(at),
                Ok((value, next)) => if i < next && next <= self.tokens.len() {
                    self.or_rest(next, scope, binary_of(BinaryOperator::Or, left, value))
                } else {
                    Err(i)
                },
            }
        } else {
            Ok((left, i))
        }
    }

    fn and_in(&self, i: usize, scope: &ScopeTable) -> (read: Result<(Expression, usize), usize>)
        requires
            self.well_formed(),
            i <= self.tokens@.len(),
        ensures
            agrees_expression(read, and_at(self.chars@, self.tokens@, i as int, scope@)),
            within(read, self.tokens@.len()),
        decreases self.tokens@.len() - i, 8int, 1int,
    {
        match self.relation_in(i, scope) {
            Err(at) => Err(at),
            Ok((value, next)) => if i < next && next <= self.tokens.len() {
                self.and_rest(next, scope, value)
            } else {
                Err(i)
            },
        }
    }

    fn and_rest(&self, i: usize, scope: &ScopeTable, left: Expression) -> (read: Result<
        (Expression, usize),
        usize,
    >)
        requires
            self.well_formed(),
            i <= self.tokens@.len(),
        ensures
            agrees_expression(
                read,
                and_tail(self.chars@, self.tokens@, i as int, scope@, expression_view(left)),
            ),
            within(read, self.tokens@.len()),
        decreases self.tokens@.len() - i, 8int, 1int,
    {
        if self.has_kind(i, 0, TokenKind::And) {
            match self.relation_in(i + 1, scope) {
                Err(at) => Err(at),
                Ok((value, next)) => if i < next && next <= self.tokens.len() {
                    self.and_rest(next, scope, binary_of(BinaryOperator::And, left, value))
                } else {
                    Err(i)
                },
            }
        } else {
            Ok((left, i))
        }
    }

    fn relation_in(&self, i: usize, scope: &ScopeTable) -> (read: Result<
        (Expression, usize),
        usize,
    >)
        requires
            self.well_formed(),
            i <= self.tokens@.len(),
        ensures
            agrees_expression(read, relation_at(self.chars@, self.tokens@, i as int, scope@)),
            within(read, self.tokens@.len()),
        decreases self.tokens@.len() - i, 7int, 1int,
    {
        match self.sum_in(i, scope) {
            Err(at) => Err(at),
            Ok((left, next)) => match comparison_in(self.kind_in(next, 0)) {
                Some(operator) => if i < next && next <= self.tokens.len() {
                    match self.sum_in(next + 1, scope) {
                        Err(at) => Err(at),
                        Ok((right, end)) => Ok((binary_of(operator, left, right), end)),
                    }
                } else {
                    Err(i)
                },
                None => Ok((left, next)),
            },
        }
    }

    fn sum_in(&self, i: usize, scope: &ScopeTable) -> (read: Result<(Expression, usize), usize>)
        requires
            self.well_formed(),
            i <= self.tokens@.len(),
        ensures
            agrees_expression(read, sum_at(self.chars@, self.tokens@, i as int, scope@)),
            within(read, self.tokens@.len()),
        decreases self.tokens@.len() - i, 6int, 1int,
    {
        match self.product_in(i, scope) {
            Err(at) => Err(at),
            Ok((value, next)) => if i < next && next <= self.tokens.len() {
                self.sum_rest(next, scope, value)
            } else {
                Err(i)
            },
        }
    }

    fn sum_rest(&self, i: usize, scope: &ScopeTable, left: Expression) -> (read: Result<
        (Expression, usize),
        usize,
    >)
        requires
            self.well_formed(),
            i <= self.tokens@.len(),
        ensures
            agrees_expression(
                read,
                sum_tail(self.chars@, self.tokens@, i as int, scope@, expression_view(left)),
            ),
            within(read, self.tokens@.len()),
        decreases self.tokens@.len() - i, 6int, 1int,
    {
        let operator = match self.kind_in(i, 0) {
            Some(TokenKind::Plus) => Some(BinaryOperator::Add),
            Some(TokenKind::Minus) => Some(BinaryOperator::Subtract),
            _ => None,
        };
        match operator {
            Some(op) => match self.product_in(i + 1, scope) {
                Err(at) => Err(at),
                Ok((value, next)) => if i < next && next <= self.tokens.len() {
                    self.sum_rest(next, scope, binary_of(op, left, value))
                } else {
                    Err(i)
                },
            },
            None => Ok((left, i)),
        }
    }

    fn product_in(&self, i: usize, scope: &ScopeTable) -> (read: Result<
        (Expression, usize),
        usize,
    >)
        requires
            self.well_formed(),
            i <= self.tokens@.len(),
        ensures
            agrees_expression(read, product_at(self.chars@, self.tokens@, i as int, scope@)),
            within(read, self.tokens@.len()),
        decreases self.tokens@.len() - i, 5int, 1int,
    {
        match self.sign_in(i, scope) {
            Err(at) => Err(at),
            Ok((value, next)) => if i < next && next <= self.tokens.len() {
                self.product_rest(next, scope, value)
            } else {
                Err(i)
            },
        }
    }

    fn product_rest(&self, i: usize, scope: &ScopeTable, left: Expression) -> (read: Result<
        (Expression, usize),
        usize,
    >)
        requires
            self.well_formed(),
            i <= self.tokens@.len(),
        ensures
            agrees_expression(
                read,
                product_tail(self.chars@, self.tokens@, i as int, scope@, expression_view(left)),
            ),
            within(read, self.tokens@.len()),
        decreases self.tokens@.len() - i, 5int, 1int,
    {
        let star = self.has_kind(i, 0, TokenKind::Star);
        if star || self.has_kind(i, 0, TokenKind::Slash) {
            match self.sign_in(i + 1, scope) {
                Err(at) => Err(at),
                Ok((value, next)) => if i < next && next <= self.tokens.len() {
                    let joined = if star {
                        binary_of(BinaryOperator::Multiply, left, value)
                    } else {
                        let mut both: Vec<Expression> = Vec::new();
                        let ghost l = expression_view(left);
                        let ghost r = expression_view(value);
                        both.push(left);
                        both.push(value);
                        assert(expressions_view(both@) =~= seq![l, r]);
                        call_with(Function::Divide, both)
                    };
                    self.product_rest(next, scope, joined)
                } else {
                    Err(i)
                },
            }
        } else {
            Ok((left, i))
        }
    }

    fn sign_in(&self, i: usize, scope: &ScopeTable) -> (read: Result<(Expression, usize), usize>)
        requires
            self.well_formed(),
            i <= self.tokens@.len(),
        ensures
            agrees_expression(read, sign_at(self.chars@, self.tokens@, i as int, scope@)),
            within(read, self.tokens@.len()),
        decreases self.tokens@.len() - i, 4int, 1int,
    {
        let operator = match self.kind_in(i, 0) {
            Some(TokenKind::Not) => Some(UnaryOperator::Not),
            Some(TokenKind::Plus) => Some(UnaryOperator::Plus),
            Some(TokenKind::Minus) => Some(UnaryOperator::Minus),
            _ => None,
        };
        match operator {
            Some(op) => match self.sign_in(i + 1, scope) {
                Err(at) => Err(at),
                Ok((value, next)) => Ok((unary_of(op, value), next)),
            },
            None => self.primary_in(i, scope),
        }
    }

    /// The primary expression that starts at token `i`.
#[verifier::rlimit(40)]
    pub fn primary_in(&self, i: usize, scope: &ScopeTable) -> (read: Result<
        (Expression, usize),
        usize,
    >)
        requires
            self.well_formed(),
            i <= self.tokens@.len(),
        ensures
            agrees_expression(read, primary_at(self.chars@, self.tokens@, i as int, scope@)),
            within(read, self.tokens@.len()),
        decreases self.tokens@.len() - i, 3int, 1int,
    {
        match self.kind_in(i, 0) {
            Some(TokenKind::OpenParen) => match self.or_in(i + 1, scope) {
                Err(at) => Err(at),
                Ok((value, next)) => if self.has_kind(next, 0, TokenKind::CloseParen) {
                    Ok((value, next + 1))
                } else {
                    Err(next)
                },
            },
            Some(TokenKind::Variable) => {
                let name = self.text_in(i);
                Ok((Expression::Variable(Variable::new(name.as_str())), i + 1))
            },
            Some(TokenKind::Word) => {
                if self.word_in(i, 0, "EXISTS") {
                    match self.group_in(i + 1, scope) {
                        Err(at) => Err(at),
                        Ok((value, next)) => Ok((Expression::Exists(Box::new(value)), next)),
                    }
                } else if self.word_in(i, 0, "NOT") {
                    if self.word_in(i, 1, "EXISTS") {
                        match self.group_in(i + 2, scope) {
                            Err(at) => Err(at),
                            Ok((value, next)) => Ok(
                                (
                                    unary_of(
                                        UnaryOperator::Not,
                                        Expression::Exists(Box::new(value)),
                                    ),
                                    next,
                                ),
                            ),
                        }
                    } else {
                        Err(i + 1)
                    }
                } else if self.word_in(i, 0, "BOUND") {
                    if self.has_kind(i, 1, TokenKind::OpenParen) && self.has_kind(
                        i,
                        2,
                        TokenKind::Variable,
                    ) && self.has_kind(i, 3, TokenKind::CloseParen) {
                        let name = self.text_in(i + 2);
                        Ok((Expression::Bound(Variable::new(name.as_str())), i + 4))
                    } else {
                        Err(i + 1)
                    }
                } else if self.has_kind(i, 1, TokenKind::OpenParen) {
                    let none: Vec<Expression> = Vec::new();
                    assert(expressions_view(none@) =~= Seq::<ExpressionView>::empty());
                    match self.arguments_in(i + 2, scope, none) {
                        Err(at) => Err(at),
                        Ok((value, next)) => match self.call_in(i, value) {
                            Some(call) => Ok((call, next)),
                            None => Err(i),
                        },
                    }
                } else {
                    self.constant_in(i, scope)
                }
            },
            _ => self.constant_in(i, scope),
        }
    }

    /// The arguments of a call from token `i` on, after those of `done`.
    fn arguments_in(&self, i: usize, scope: &ScopeTable, done: Vec<Expression>) -> (read: Result<
        (Vec<Expression>, usize),
        usize,
    >)
        requires
            self.well_formed(),
            i <= self.tokens@.len(),
        ensures
            agrees_expressions(
                read,
                arguments_at(
                    self.chars@,
                    self.tokens@,
                    i as int,
                    scope@,
                    expressions_view(done@),
                ),
            ),
            within(read, self.tokens@.len()),
        decreases self.tokens@.len() - i, 10int, 1int,
    {
        if self.has_kind(i, 0, TokenKind::CloseParen) {
            return Ok((done, i + 1));
        }
        match self.or_in(i, scope) {
            Err(at) => Err(at),
            Ok((value, next)) => {
                if !(i < next && next <= self.tokens.len()) {
                    return Err(i);
                }
                let mut all = done;
                let ghost before = expressions_view(all@);
                let ghost added = expression_view(value);
                if self.has_kind(next, 0, TokenKind::Comma) {
                    all.push(value);
                    assert(expressions_view(all@) =~= before.push(added));
                    self.arguments_in(next + 1, scope, all)
                } else if self.has_kind(next, 0, TokenKind::CloseParen) {
                    all.push(value);
                    assert(expressions_view(all@) =~= before.push(added));
                    Ok((all, next + 1))
                } else {
                    Err(next)
                }
            },
        }
    }

    /// The group graph pattern that starts at token `i`.
    pub fn group_in(&self, i: usize, scope: &ScopeTable) -> (read: Result<
        (GraphPattern, usize),
        usize,
    >)
        requires
            self.well_formed(),
            i <= self.tokens@.len(),
        ensures
            agrees_pattern(read, group_at(self.chars@, self.tokens@, i as int, scope@)),
            within(read, self.tokens@.len()),
        decreases self.tokens@.len() - i, 11int, 1int,
    {
        if self.has_kind(i, 0, TokenKind::OpenBrace) {
            let filters: Vec<Expression> = Vec::new();
            assert(expressions_view(filters@) =~= Seq::<ExpressionView>::empty());
            self.elements_in(i + 1, scope, None, filters)
        } else {
            Err(i)
        }
    }

    fn union_rest(&self, i: usize, scope: &ScopeTable, left: GraphPattern) -> (read: Result<
        (GraphPattern, usize),
        usize,
    >)
        requires
            self.well_formed(),
            i <= self.tokens@.len(),
        ensures
            agrees_pattern(
                read,
                union_tail(self.chars@, self.tokens@, i as int, scope@, pattern_view(left)),
            ),
            within(read, self.tokens@.len()),
        decreases self.tokens@.len() - i, 12int, 1int,
    {
        if self.word_in(i, 0, "UNION") {
            match self.group_in(i + 1, scope) {
                Err(at) => Err(at),
                Ok((value, next)) => if i < next && next <= self.tokens.len() {
                    self.union_rest(
                        next,
                        scope,
                        GraphPattern::Union(Box::new(left), Box::new(value)),
                    )
                } else {
                    Err(i)
                },
            }
        } else {
            Ok((left, i))
        }
    }

    /// The pattern of a group after the element at token `i` was read.
    fn element_in(&self, i: usize, scope: &ScopeTable, current: Option<GraphPattern>) -> (read:
        Result<(GraphPattern, usize), usize>)
        requires
            self.well_formed(),
            i <= self.tokens@.len(),
        ensures
            agrees_pattern(
                read,
                element_at(
                    self.chars@,
                    self.tokens@,
                    i as int,
                    scope@,
                    option_pattern_view(current),
                ),
            ),
            within(read, self.tokens@.len()),
        decreases self.tokens@.len() - i, 13int, 1int,
    {
        if self.has_kind(i, 0, TokenKind::OpenBrace) {
            let (value, next) = match self.group_in(i, scope) {
                Ok(found) => found,
                Err(at) => {
                    return Err(at);
                },
            };
            if !(i < next && next <= self.tokens.len()) {
                return Err(i);
            }
            return match self.union_rest(next, scope, value) {
                Ok((united, end)) => Ok((join_in(current, united), end)),
                Err(at) => Err(at),
            };
        }
        let optional = self.word_in(i, 0, "OPTIONAL");
        if optional || self.word_in(i, 0, "MINUS") {
            let (value, next) = match self.group_in(i + 1, scope) {
                Ok(found) => found,
                Err(at) => {
                    return Err(at);
                },
            };
            let left = or_empty_in(current);
            let joined = if optional {
                optional_of(left, value)
            } else {
                GraphPattern::Minus(Box::new(left), Box::new(value))
            };
            return Ok((joined, next));
        }
        if self.word_in(i, 0, "GRAPH") {
            return self.graph_in(i, scope, current);
        }
        if self.word_in(i, 0, "SERVICE") {
            return self.service_in(i, scope, current);
        }
        if self.word_in(i, 0, "BIND") {
            return self.bind_in(i, scope, current);
        }
        Err(i)
    }

    /// The pattern of a group after the `GRAPH` at token `i`.
    fn graph_in(&self, i: usize, scope: &ScopeTable, current: Option<GraphPattern>) -> (read:
        Result<(GraphPattern, usize), usize>)
        requires
            self.well_formed(),
            i < self.tokens@.len(),
            !(kind_at(self.tokens@, i as int) == Some(TokenKind::OpenBrace)),
            !is_word(self.chars@, self.tokens@, i as int, "OPTIONAL"@),
            !is_word(self.chars@, self.tokens@, i as int, "MINUS"@),
            is_word(self.chars@, self.tokens@, i as int, "GRAPH"@),
        ensures
            agrees_pattern(
                read,
                element_at(
                    self.chars@,
                    self.tokens@,
                    i as int,
                    scope@,
                    option_pattern_view(current),
                ),
            ),
            within(read, self.tokens@.len()),
        decreases self.tokens@.len() - i, 13int, 0int,
    {
        if !(self.has_kind(i, 1, TokenKind::Variable) || self.has_kind(i, 1, TokenKind::Iri)
            || self.has_kind(i, 1, TokenKind::Prefixed)) {
            return Err(i + 1);
        }
        let (name, n1) = match self.term_in(i + 1, scope) {
            Ok(found) => found,
            Err(at) => {
                return Err(at);
            },
        };
        let (value, next) = match self.group_in(n1, scope) {
            Ok(found) => found,
            Err(at) => {
                return Err(at);
            },
        };
        let graph = GraphPattern::Graph(name, Box::new(value));
        Ok((join_in(current, graph), next))
    }

    /// The pattern of a group after the `SERVICE` at token `i`.
    fn service_in(&self, i: usize, scope: &ScopeTable, current: Option<GraphPattern>) -> (read:
        Result<(GraphPattern, usize), usize>)
        requires
            self.well_formed(),
            i < self.tokens@.len(),
            !(kind_at(self.tokens@, i as int) == Some(TokenKind::OpenBrace)),
            !is_word(self.chars@, self.tokens@, i as int, "OPTIONAL"@),
            !is_word(self.chars@, self.tokens@, i as int, "MINUS"@),
            !is_word(self.chars@, self.tokens@, i as int, "GRAPH"@),
            is_word(self.chars@, self.tokens@, i as int, "SERVICE"@),
        ensures
            agrees_pattern(
                read,
                element_at(
                    self.chars@,
                    self.tokens@,
                    i as int,
                    scope@,
                    option_pattern_view(current),
                ),
            ),
            within(read, self.tokens@.len()),
        decreases self.tokens@.len() - i, 13int, 0int,
    {
        let silent = self.word_in(i, 1, "SILENT");
        let at_name = if silent {
            i + 2
        } else {
            i + 1
        };
        let (name, n1) = match self.iri_in(at_name, scope) {
            Ok(found) => found,
            Err(at) => {
                return Err(at);
            },
        };
        let (value, next) = match self.group_in(n1, scope) {
            Ok(found) => found,
            Err(at) => {
                return Err(at);
            },
        };
        let service = GraphPattern::Service(NamedNode::new(name.as_str()), Box::new(value), silent);
        Ok((join_in(current, service), next))
    }

    /// The pattern of a group after the `BIND` at token `i`.
    fn bind_in(&self, i: usize, scope: &ScopeTable, current: Option<GraphPattern>) -> (read:
        Result<(GraphPattern, usize), usize>)
        requires
            self.well_formed(),
            i < self.tokens@.len(),
            !(kind_at(self.tokens@, i as int) == Some(TokenKind::OpenBrace)),
            !is_word(self.chars@, self.tokens@, i as int, "OPTIONAL"@),
            !is_word(self.chars@, self.tokens@, i as int, "MINUS"@),
            !is_word(self.chars@, self.tokens@, i as int, "GRAPH"@),
            !is_word(self.chars@, self.tokens@, i as int, "SERVICE"@),
            is_word(self.chars@, self.tokens@, i as int, "BIND"@),
        ensures
            agrees_pattern(
                read,
                element_at(
                    self.chars@,
                    self.tokens@,
                    i as int,
                    scope@,
                    option_pattern_view(current),
                ),
            ),
            within(read, self.tokens@.len()),
        decreases self.tokens@.len() - i, 13int, 0int,
    {
        if !self.has_kind(i, 1, TokenKind::OpenParen) {
            return Err(i + 1);
        }
        let (value, next) = match self.or_in(i + 2, scope) {
            Ok(found) => found,
            Err(at) => {
                return Err(at);
            },
        };
        if self.word_in(next, 0, "AS") && self.has_kind(next, 1, TokenKind::Variable)
            && self.has_kind(next, 2, TokenKind::CloseParen) && i < next + 3 {
            let name = self.text_in(next + 1);
            let bound = GraphPattern::Extend(
                Box::new(or_empty_in(current)),
                Variable::new(name.as_str()),
                value,
            );
            Ok((bound, next + 3))
        } else {
            Err(next)
        }
    }

    /// The rest of a group from token `i` on, up to its closing brace.
    fn elements_in(
        &self,
        i: usize,
        scope: &ScopeTable,
        current: Option<GraphPattern>,
        filters: Vec<Expression>,
    ) -> (read: Result<(GraphPattern, usize), usize>)
        requires
            self.well_formed(),
            i <= self.tokens@.len(),
        ensures
            agrees_pattern(
                read,
                elements_at(
                    self.chars@,
                    self.tokens@,
                    i as int,
                    scope@,
                    option_pattern_view(current),
                    expressions_view(filters@),
                ),
            ),
            within(read, self.tokens@.len()),
        decreases self.tokens@.len() - i, 14int, 1int,
    {
        let kind = match self.kind_in(i, 0) {
            None => {
                return Err(i);
            },
            Some(kind) => kind,
        };
        match kind {
            TokenKind::CloseBrace => {
                return Ok((apply_filters(or_empty_in(current), filters), i + 1));
            },
            TokenKind::Dot => {
                return self.elements_in(i + 1, scope, current, filters);
            },
            _ => {},
        }
        if self.word_in(i, 0, "FILTER") {
            let (value, next) = match self.primary_in(i + 1, scope) {
                Ok(found) => found,
                Err(at) => {
                    return Err(at);
                },
            };
            if !(i < next && next <= self.tokens.len()) {
                return Err(i);
            }
            let mut all = filters;
            let ghost before = expressions_view(all@);
            let ghost added = expression_view(value);
            all.push(value);
            assert(expressions_view(all@) =~= before.push(added));
            return self.elements_in(next, scope, current, all);
        }
        if self.starts_term_in(i) {
            let empty: Vec<TriplePattern> = Vec::new();
            assert(triples_view(empty@) =~= Seq::<TriplePatternView>::empty());
            let (value, next) = match self.triples_in(i, scope, empty) {
                Ok(found) => found,
                Err(at) => {
                    return Err(at);
                },
            };
            if !(i < next && next <= self.tokens.len()) {
                return Err(i);
            }
            return self.elements_in(
                next,
                scope,
                Some(join_in(current, GraphPattern::Bgp(value))),
                filters,
            );
        }
        let (value, next) = match self.element_in(i, scope, current) {
            Ok(found) => found,
            Err(at) => {
                return Err(at);
            },
        };
        if !(i < next && next <= self.tokens.len()) {
            return Err(i);
        }
        self.elements_in(next, scope, Some(value), filters)
    }
}

/// Whether what was read agrees with what the grammar gives for a prologue.
pub open spec fn agrees_scope(read: Result<(ScopeTable, usize), usize>, parsed: Parsed<Scope>) -> bool {
    match read {
        Ok((value, next)) => parsed == (Parsed::Done { value: value@, next: next as int }),
        Err(at) => parsed == (Parsed::<Scope>::Failed { at: at as int }),
    }
}

/// Whether what was read agrees with what the grammar gives for sort keys.
pub open spec fn agrees_order(
    read: Result<(Vec<OrderComparator>, usize), usize>,
    parsed: Parsed<Seq<OrderComparatorView>>,
) -> bool {
    match read {
        Ok((value, next)) => parsed == (Parsed::Done {
            value: comparators_view(value@),
            next: next as int,
        }),
        Err(at) => parsed == (Parsed::<Seq<OrderComparatorView>>::Failed { at: at as int }),
    }
}

/// Whether what was read agrees with what the grammar gives for `LIMIT` and
/// `OFFSET`.
pub open spec fn agrees_window(read: Result<(Window, usize), usize>, parsed: Parsed<Window>) -> bool {
    match read {
        Ok((value, next)) => parsed == (Parsed::Done { value, next: next as int }),
        Err(at) => parsed == (Parsed::<Window>::Failed { at: at as int }),
    }
}

/// Whether what was read agrees with what the grammar gives for a query
/// form.
pub open spec fn agrees_query(
    read: Result<(QueryVariants, usize), usize>,
    parsed: Parsed<QueryView>,
) -> bool {
    match read {
        Ok((value, next)) => parsed == (Parsed::Done { value: value@, next: next as int }),
        Err(at) => parsed == (Parsed::<QueryView>::Failed { at: at as int }),
    }
}

/// The names of an optional list of variables.
pub open spec fn option_variables_view(variables: Option<Vec<Variable>>) -> Option<Seq<Seq<char>>> {
    match variables {
        Some(listed) => Some(variables_view(listed@)),
        None => None,
    }
}

/// `pattern` under the solution modifiers.
fn modified_in(
    pattern: GraphPattern,
    order: Vec<OrderComparator>,
    projection: Option<Vec<Variable>>,
    distinct: bool,
    reduced: bool,
    window: Window,
) -> (out: GraphPattern)
    ensures
        pattern_view(out) == modified(
            pattern_view(pattern),
            comparators_view(order@),
            option_variables_view(projection),
            distinct,
            reduced,
            window,
        ),
{
    let ghost v0 = pattern_view(pattern);
    let ghost keys = comparators_view(order@);
    let ghost listed = option_variables_view(projection);
    let sorted = if order.len() > 0 {
        proof {
            lemma_order_view(pattern, order);
        }
        GraphPattern::OrderBy(Box::new(pattern), order)
    } else {
        pattern
    };
    let ghost v1 = pattern_view(sorted);
    assert(v1 == if keys.len() > 0 {
        GraphPatternView::OrderBy(Box::new(v0), keys)
    } else {
        v0
    });
    let projected = match projection {
        Some(variables) => GraphPattern::Project(Box::new(sorted), variables),
        None => {
            let (shown, hides) = shown_variables(&sorted);
            if hides {
                GraphPattern::Project(Box::new(sorted), shown)
            } else {
                sorted
            }
        },
    };
    let ghost v2 = pattern_view(projected);
    assert(v2 == match listed {
        Some(variables) => GraphPatternView::Project(Box::new(v1), variables),
        None => if hides_names(v1) {
            GraphPatternView::Project(Box::new(v1), shown_names(v1))
        } else {
            v1
        },
    });
    let unique = if distinct {
        GraphPattern::Distinct(Box::new(projected))
    } else if reduced {
        GraphPattern::Reduced(Box::new(projected))
    } else {
        projected
    };
    let ghost v3 = pattern_view(unique);
    assert(v3 == if distinct {
        GraphPatternView::Distinct(Box::new(v2))
    } else if reduced {
        GraphPatternView::Reduced(Box::new(v2))
    } else {
        v2
    });
    if window.limit.is_some() || window.offset.is_some() {
        let start = match window.offset {
            Some(offset) => offset,
            None => 0,
        };
        GraphPattern::Slice(Box::new(unique), start, window.limit)
    } else {
        unique
    }
}

impl<'a> Source<'a> {
    /// The declarations from token `i` on, after those of `scope`.
    pub fn prologue_in(&self, i: usize, scope: ScopeTable) -> (read: Result<
        (ScopeTable, usize),
        usize,
    >)
        requires
            self.well_formed(),
            i <= self.tokens@.len(),
        ensures
            agrees_scope(read, prologue_at(self.chars@, self.tokens@, i as int, scope@)),
            within(read, self.tokens@.len()),
        decreases self.tokens@.len() - i,
    {
        if self.word_in(i, 0, "BASE") {
            if self.has_kind(i, 1, TokenKind::Iri) {
                let base = resolve_in(&scope, self.text_in(i + 1));
                let next = ScopeTable { base: Some(base), prefixes: scope.prefixes };
                assert(next@.prefixes =~= scope@.prefixes);
                self.prologue_in(i + 2, next)
            } else {
                Err(i + 1)
            }
        } else if self.word_in(i, 0, "PREFIX") {
            if self.has_kind(i, 1, TokenKind::Prefixed) && self.tokens[i + 1].middle + 1
                == self.tokens[i + 1].end && self.has_kind(i, 2, TokenKind::Iri) {
                let found = self.tokens[i + 1];
                let name = self.text_between(found.start, found.middle);
                let reference = self.text_in(i + 2);
                let namespace = resolve_in(&scope, reference);
                let ghost before = scope@;
                let mut prefixes = scope.prefixes;
                prefixes.push((name, namespace));
                let next = ScopeTable { base: scope.base, prefixes };
                assert(next@.prefixes =~= before.prefixes.push((name@, namespace@)));
                self.prologue_in(i + 3, next)
            } else {
                Err(i + 1)
            }
        } else {
            Ok((scope, i))
        }
    }

    /// The variables from token `i` on, after those of `done`.
    fn variables_in(&self, i: usize, done: Vec<Variable>) -> (read: (Vec<Variable>, usize))
        requires
            self.well_formed(),
            i <= self.tokens@.len(),
        ensures
            (variables_view(read.0@), read.1 as int) == variables_at(
                self.chars@,
                self.tokens@,
                i as int,
                variables_view(done@),
            ),
            read.1 <= self.tokens@.len(),
        decreases self.tokens@.len() - i,
    {
        if self.has_kind(i, 0, TokenKind::Variable) {
            let name = self.text_in(i);
            let mut all = done;
            let ghost before = variables_view(all@);
            all.push(Variable::new(name.as_str()));
            assert(variables_view(all@) =~= before.push(name@));
            self.variables_in(i + 1, all)
        } else {
            (done, i)
        }
    }

    /// The sort keys from token `i` on, after those of `done`.
    fn conditions_in(&self, i: usize, scope: &ScopeTable, done: Vec<OrderComparator>) -> (read:
        Result<(Vec<OrderComparator>, usize), usize>)
        requires
            self.well_formed(),
            i <= self.tokens@.len(),
        ensures
            agrees_order(
                read,
                conditions_at(
                    self.chars@,
                    self.tokens@,
                    i as int,
                    scope@,
                    comparators_view(done@),
                ),
            ),
            within(read, self.tokens@.len()),
        decreases self.tokens@.len() - i,
    {
        let descending = self.word_in(i, 0, "DESC");
        let marked = descending || self.word_in(i, 0, "ASC");
        let at = if marked {
            i + 1
        } else {
            i
        };
        let open = self.has_kind(at, 0, TokenKind::OpenParen);
        if (marked && open) || (!marked && (open || self.has_kind(at, 0, TokenKind::Variable))) {
            match self.primary_in(at, scope) {
                Err(failed) => Err(failed),
                Ok((value, next)) => if i < next && next <= self.tokens.len() {
                    let mut all = done;
                    let ghost before = comparators_view(all@);
                    let ghost added = OrderComparatorView {
                        expression: expression_view(value),
                        descending,
                    };
                    all.push(OrderComparator { expression: value, descending });
                    assert(comparators_view(all@) =~= before.push(added));
                    self.conditions_in(next, scope, all)
                } else {
                    Err(i)
                },
            }
        } else if marked {
            Err(at)
        } else {
            Ok((done, i))
        }
    }

    /// The sort keys of `ORDER BY` at token `i`.
    fn order_in(&self, i: usize, scope: &ScopeTable) -> (read: Result<
        (Vec<OrderComparator>, usize),
        usize,
    >)
        requires
            self.well_formed(),
            i <= self.tokens@.len(),
        ensures
            agrees_order(read, order_at(self.chars@, self.tokens@, i as int, scope@)),
            within(read, self.tokens@.len()),
    {
        let none: Vec<OrderComparator> = Vec::new();
        assert(comparators_view(none@) =~= Seq::<OrderComparatorView>::empty());
        if self.word_in(i, 0, "ORDER") {
            if self.word_in(i, 1, "BY") {
                match self.conditions_in(i + 2, scope, none) {
                    Err(at) => Err(at),
                    Ok((value, next)) => if value.len() > 0 {
                        Ok((value, next))
                    } else {
                        Err(next)
                    },
                }
            } else {
                Err(i + 1)
            }
        } else {
            Ok((none, i))
        }
    }

    /// The count that the token with index `i` stands for.
    fn count_in(&self, i: usize) -> (count: Option<usize>)
        requires
            self.well_formed(),
            i < self.tokens@.len(),
        ensures
            count == count_of(text_at(self.chars@, self.tokens@, i as int)),
    {
        let start = self.tokens[i].start;
        let end = self.tokens[i].end;
        let ghost text = text_at(self.chars@, self.tokens@, i as int);
        if end - start > 18 {
            return None;
        }
        let mut value: u64 = 0;
        let mut k: usize = start;
        proof {
            assert(pow10(18) == 1_000_000_000_000_000_000nat) by {
                reveal_with_fuel(pow10, 19);
            }
            assert(text.subrange(0, 0) =~= Seq::<char>::empty());
        }
        while k < end
            invariant
                start <= k <= end,
                end <= self.chars@.len(),
                end - start <= 18,
                text == self.chars@.subrange(start as int, end as int),
                text == text_at(self.chars@, self.tokens@, i as int),
                forall|j: int| 0 <= j < k - start ==> is_digit(#[trigger] text[j]),
                value == digits_value(text.subrange(0, k - start)),
                value < pow10((k - start) as nat),
                pow10(18) == 1_000_000_000_000_000_000nat,
            decreases end - k,
        {
            let c = self.chars[k];
            assert(text[k - start] == c);
            if c < '0' || c > '9' {
                assert(!is_digit(text[k - start]));
                return None;
            }
            proof {
                let prefix = text.subrange(0, k - start);
                let next = text.subrange(0, k - start + 1);
                assert(next.drop_last() =~= prefix);
                assert(next.last() == c);
                lemma_pow10_monotone((k - start) as nat, 17);
                assert(pow10(17) == 100_000_000_000_000_000nat) by {
                    reveal_with_fuel(pow10, 18);
                }
                lemma_pow10_monotone((k - start + 1) as nat, 18);
            }
            value = value * 10 + ((c as u32 - 48) as u64);
            k = k + 1;
        }
        assert(text.subrange(0, end - start) =~= text);
        if value > usize::MAX as u64 {
            None
        } else {
            Some(value as usize)
        }
    }

    /// `LIMIT` and `OFFSET` from token `i` on.
    fn window_in(&self, i: usize, window: Window) -> (read: Result<(Window, usize), usize>)
        requires
            self.well_formed(),
            i <= self.tokens@.len(),
        ensures
            agrees_window(read, window_at(self.chars@, self.tokens@, i as int, window)),
            within(read, self.tokens@.len()),
        decreases self.tokens@.len() - i,
    {
        let limit = self.word_in(i, 0, "LIMIT");
        let offset = self.word_in(i, 0, "OFFSET");
        if limit || offset {
            if !self.has_kind(i, 1, TokenKind::Integer) {
                return Err(i + 1);
            }
            let count = match self.count_in(i + 1) {
                Some(count) => count,
                None => {
                    return Err(i + 1);
                },
            };
            if limit && window.limit.is_none() {
                self.window_in(i + 2, Window { limit: Some(count), offset: window.offset })
            } else if offset && window.offset.is_none() {
                self.window_in(i + 2, Window { limit: window.limit, offset: Some(count) })
            } else {
                Err(i)
            }
        } else {
            Ok((window, i))
        }
    }

    /// The group at token `i`, after `WHERE` where it stands there.
    fn where_in(&self, i: usize, scope: &ScopeTable) -> (read: Result<
        (GraphPattern, usize),
        usize,
    >)
        requires
            self.well_formed(),
            i <= self.tokens@.len(),
        ensures
            agrees_pattern(read, where_at(self.chars@, self.tokens@, i as int, scope@)),
            within(read, self.tokens@.len()),
    {
        if self.word_in(i, 0, "WHERE") {
            self.group_in(i + 1, scope)
        } else {
            self.group_in(i, scope)
        }
    }

    /// The aggregate function with the name of token `i`.
    fn aggregate_function_in(&self, i: usize) -> (function: Option<AggregateFunction>)
        requires
            self.well_formed(),
            i < self.tokens@.len(),
        ensures
            function == aggregate_function_of(text_at(self.chars@, self.tokens@, i as int)),
    {
        if self.same_word_in(i, "COUNT") {
            Some(AggregateFunction::Count)
        } else if self.same_word_in(i, "SUM") {
            Some(AggregateFunction::Sum)
        } else if self.same_word_in(i, "MIN") {
            Some(AggregateFunction::Min)
        } else if self.same_word_in(i, "MAX") {
            Some(AggregateFunction::Max)
        } else if self.same_word_in(i, "AVG") {
            Some(AggregateFunction::Avg)
        } else if self.same_word_in(i, "SAMPLE") {
            Some(AggregateFunction::Sample)
        } else if self.same_word_in(i, "GROUP_CONCAT") {
            Some(AggregateFunction::GroupConcat)
        } else {
            None
        }
    }

    /// Whether an aggregate starts at the token `k` places after token `i`.
    fn starts_aggregate_in(&self, i: usize, k: usize) -> (starts: bool)
        requires
            self.well_formed(),
            k <= 1,
        ensures
            starts == starts_aggregate(self.chars@, self.tokens@, i + k),
            starts ==> i + k + 1 < self.tokens@.len(),
    {
        if self.has_kind(i, k, TokenKind::Word) && self.has_kind(i, k + 1, TokenKind::OpenParen) {
            self.aggregate_function_in(i + k).is_some()
        } else {
            false
        }
    }

    /// The aggregate that starts at token `i`.
    fn aggregate_in(&self, i: usize, scope: &ScopeTable) -> (read: Result<
        (Aggregation, usize),
        usize,
    >)
        requires
            self.well_formed(),
            i <= self.tokens@.len(),
        ensures
            match read {
                Ok((value, next)) => aggregate_at(self.chars@, self.tokens@, i as int, scope@)
                    == (Parsed::Done { value: aggregation_view(value), next: next as int }),
                Err(at) => aggregate_at(self.chars@, self.tokens@, i as int, scope@) == (
                Parsed::<AggregationView>::Failed { at: at as int }),
            },
            within(read, self.tokens@.len()),
    {
        if !self.starts_aggregate_in(i, 0) {
            return Err(i);
        }
        let function = match self.aggregate_function_in(i) {
            Some(function) => function,
            None => {
                return Err(i);
            },
        };
        let distinct = self.word_in(i, 2, "DISTINCT");
        let at = if distinct {
            i + 3
        } else {
            i + 2
        };
        let joins = match function {
            AggregateFunction::GroupConcat => true,
            _ => false,
        };
        if self.has_kind(at, 0, TokenKind::Star) {
            if self.has_kind(at, 1, TokenKind::CloseParen) {
                Ok((Aggregation { function, argument: None, distinct, separator: None }, at + 2))
            } else {
                Err(at + 1)
            }
        } else {
            match self.or_in(at, scope) {
                Err(failed) => Err(failed),
                Ok((value, next)) => if self.has_kind(next, 0, TokenKind::CloseParen) {
                    Ok(
                        (
                            Aggregation {
                                function,
                                argument: Some(value),
                                distinct,
                                separator: None,
                            },
                            next + 1,
                        ),
                    )
                } else if joins && self.has_kind(next, 0, TokenKind::Semicolon) && self.word_in(
                    next,
                    1,
                    "SEPARATOR",
                ) && self.has_kind(next, 2, TokenKind::Equal) && self.has_kind(
                    next,
                    3,
                    TokenKind::Text,
                ) && self.has_kind(next, 4, TokenKind::CloseParen) {
                    let separator = unescape(self.text_in(next + 3).as_str());
                    Ok(
                        (
                            Aggregation {
                                function,
                                argument: Some(value),
                                distinct,
                                separator: Some(separator),
                            },
                            next + 5,
                        ),
                    )
                } else {
                    Err(next)
                },
            }
        }
    }

    /// Whether `AS`, a variable and a closing bracket stand at token `i`.
    fn closes_item_in(&self, i: usize) -> (closes: bool)
        requires
            self.well_formed(),
        ensures
            closes == closes_item(self.chars@, self.tokens@, i as int),
            closes ==> i + 2 < self.tokens@.len(),
    {
        self.word_in(i, 0, "AS") && self.has_kind(i, 1, TokenKind::Variable) && self.has_kind(
            i,
            2,
            TokenKind::CloseParen,
        )
    }

    /// The items of a `SELECT` from token `i` on, after those of `done`.
#[verifier::rlimit(40)]
    fn items_in(&self, i: usize, scope: &ScopeTable, done: SelectionTable) -> (read: Result<
        (SelectionTable, usize),
        usize,
    >)
        requires
            self.well_formed(),
            i <= self.tokens@.len(),
        ensures
            match read {
                Ok((value, next)) => items_at(self.chars@, self.tokens@, i as int, scope@, done@)
                    == (Parsed::Done { value: value@, next: next as int }),
                Err(at) => items_at(self.chars@, self.tokens@, i as int, scope@, done@) == (
                Parsed::<Selection>::Failed { at: at as int }),
            },
            within(read, self.tokens@.len()),
        decreases self.tokens@.len() - i,
    {
        let ghost before = done@;
        let mut all = done;
        if self.has_kind(i, 0, TokenKind::Variable) {
            let name = self.text_in(i);
            all.names.push(Variable::new(name.as_str()));
            proof {
                assert(all@.names =~= before.names.push(name@));
                assert(all@.aggregates =~= before.aggregates);
                assert(all@.extends =~= before.extends);
            }
            return self.items_in(i + 1, scope, all);
        }
        if !self.has_kind(i, 0, TokenKind::OpenParen) {
            return Ok((all, i));
        }
        if self.starts_aggregate_in(i, 1) {
            let (value, next) = match self.aggregate_in(i + 1, scope) {
                Ok(found) => found,
                Err(at) => {
                    return Err(at);
                },
            };
            if !(self.closes_item_in(next) && i < next + 3) {
                return Err(next);
            }
            let name = self.text_in(next + 1);
            let ghost added = aggregation_view(value);
            all.names.push(Variable::new(name.as_str()));
            all.aggregates.push((value, Variable::new(name.as_str())));
            proof {
                assert(all@.names =~= before.names.push(name@));
                assert(all@.aggregates =~= before.aggregates.push((added, name@)));
                assert(all@.extends =~= before.extends);
            }
            self.items_in(next + 3, scope, all)
        } else {
            let (value, next) = match self.or_in(i + 1, scope) {
                Ok(found) => found,
                Err(at) => {
                    return Err(at);
                },
            };
            if !(self.closes_item_in(next) && i < next + 3) {
                return Err(next);
            }
            let name = self.text_in(next + 1);
            let ghost added = expression_view(value);
            all.names.push(Variable::new(name.as_str()));
            all.extends.push((value, Variable::new(name.as_str())));
            proof {
                assert(all@.names =~= before.names.push(name@));
                assert(all@.aggregates =~= before.aggregates);
                assert(all@.extends =~= before.extends.push((added, name@)));
            }
            self.items_in(next + 3, scope, all)
        }
    }

    /// The keys of `GROUP BY` at token `i`.
    fn keys_in(&self, i: usize) -> (read: Result<(Vec<Variable>, usize), usize>)
        requires
            self.well_formed(),
            i <= self.tokens@.len(),
        ensures
            match read {
                Ok((value, next)) => keys_at(self.chars@, self.tokens@, i as int) == (
                Parsed::Done { value: variables_view(value@), next: next as int }),
                Err(at) => keys_at(self.chars@, self.tokens@, i as int) == (Parsed::<
                    Seq<Seq<char>>,
                >::Failed { at: at as int }),
            },
            within(read, self.tokens@.len()),
    {
        let none: Vec<Variable> = Vec::new();
        assert(variables_view(none@) =~= Seq::<Seq<char>>::empty());
        if self.word_in(i, 0, "GROUP") {
            if self.word_in(i, 1, "BY") {
                let (keys, next) = self.variables_in(i + 2, none);
                if keys.len() > 0 {
                    Ok((keys, next))
                } else {
                    Err(i + 2)
                }
            } else {
                Err(i + 1)
            }
        } else {
            Ok((none, i))
        }
    }

    /// The pattern of a query form from token `i` on.
    fn body_in(
        &self,
        i: usize,
        scope: &ScopeTable,
        aggregates: Vec<(Aggregation, Variable)>,
        extends: Vec<(Expression, Variable)>,
        projection: Option<Vec<Variable>>,
        distinct: bool,
        reduced: bool,
    ) -> (read: Result<(GraphPattern, usize), usize>)
        requires
            self.well_formed(),
            i <= self.tokens@.len(),
        ensures
            agrees_pattern(
                read,
                body_at(
                    self.chars@,
                    self.tokens@,
                    i as int,
                    scope@,
                    Selection {
                        names: Seq::empty(),
                        aggregates: aggregations_view(aggregates@),
                        extends: bindings_view(extends@),
                    },
                    option_variables_view(projection),
                    distinct,
                    reduced,
                ),
            ),
            within(read, self.tokens@.len()),
    {
        let (pattern, n0) = match self.where_in(i, scope) {
            Ok(found) => found,
            Err(at) => {
                return Err(at);
            },
        };
        let (keys, n1) = match self.keys_in(n0) {
            Ok(found) => found,
            Err(at) => {
                return Err(at);
            },
        };
        let (order, n2) = match self.order_in(n1, scope) {
            Ok(found) => found,
            Err(at) => {
                return Err(at);
            },
        };
        let (window, next) = match self.window_in(n2, Window { limit: None, offset: None }) {
            Ok(found) => found,
            Err(at) => {
                return Err(at);
            },
        };
        let chosen = selected_in(pattern, keys, aggregates, extends);
        Ok((modified_in(chosen, order, projection, distinct, reduced, window), next))
    }
}

/// What a `SELECT` names, in executable code.
pub struct SelectionTable {
    pub names: Vec<Variable>,
    pub aggregates: Vec<(Aggregation, Variable)>,
    pub extends: Vec<(Expression, Variable)>,
}

impl View for SelectionTable {
    type V = Selection;

    open spec fn view(&self) -> Selection {
        Selection {
            names: variables_view(self.names@),
            aggregates: aggregations_view(self.aggregates@),
            extends: bindings_view(self.extends@),
        }
    }
}

/// `pattern` under the bindings of a `SELECT`, the first innermost.
fn extended_in(pattern: GraphPattern, extends: Vec<(Expression, Variable)>) -> (out: GraphPattern)
    ensures
        pattern_view(out) == extended(
            pattern_view(pattern),
            bindings_view(extends@),
            extends@.len() as int,
        ),
{
    let ghost all = bindings_view(extends@);
    let ghost base = pattern_view(pattern);
    let ghost given = extends@;
    // reading the length tells the verifier that it fits a machine word
    let _count = extends.len();
    let mut rest = extends;
    let mut out = pattern;
    let mut k: usize = 0;
    assert(rest@ =~= given.subrange(0, given.len() as int));
    while rest.len() > 0
        invariant
            k + rest@.len() == given.len(),
            given.len() <= usize::MAX,
            rest@ == given.subrange(k as int, given.len() as int),
            all == bindings_view(given),
            pattern_view(out) == extended(base, all, k as int),
        decreases rest@.len(),
    {
        let (expression, variable) = rest.remove(0);
        assert((expression, variable) == given[k as int]);
        out = GraphPattern::Extend(Box::new(out), variable, expression);
        k = k + 1;
        assert(rest@ =~= given.subrange(k as int, given.len() as int));
    }
    out
}

/// `pattern` grouped where there are keys or aggregates, then under the
/// bindings of the `SELECT`.
fn selected_in(
    pattern: GraphPattern,
    keys: Vec<Variable>,
    aggregates: Vec<(Aggregation, Variable)>,
    extends: Vec<(Expression, Variable)>,
) -> (out: GraphPattern)
    ensures
        pattern_view(out) == selected(
            pattern_view(pattern),
            variables_view(keys@),
            aggregations_view(aggregates@),
            bindings_view(extends@),
        ),
{
    let grouped = if keys.len() > 0 || aggregates.len() > 0 {
        proof {
            lemma_group_view(pattern, keys, aggregates);
        }
        GraphPattern::Group(Box::new(pattern), keys, aggregates)
    } else {
        pattern
    };
    extended_in(grouped, extends)
}

/// The characters of an optional base IRI.
pub open spec fn base_view(base: Option<&str>) -> Option<Seq<char>> {
    match base {
        Some(text) => Some(text@),
        None => None,
    }
}

fn copy_base(base: &Option<String>) -> (copy: Option<String>)
    ensures
        text_view(copy) == text_view(*base),
{
    match base {
        Some(text) => Some(text.clone()),
        None => None,
    }
}

impl<'a> Source<'a> {
    /// The `SELECT` whose keyword stands at token `i`.
#[verifier::rlimit(40)]
    fn select_in(&self, i: usize, scope: &ScopeTable) -> (read: Result<
        (QueryVariants, usize),
        usize,
    >)
        requires
            self.well_formed(),
            i < self.tokens@.len(),
        ensures
            agrees_query(read, select_at(self.chars@, self.tokens@, i as int, scope@)),
            within(read, self.tokens@.len()),
    {
        let none: Vec<Variable> = Vec::new();
        assert(variables_view(none@) =~= Seq::<Seq<char>>::empty());
        let no_aggregates: Vec<(Aggregation, Variable)> = Vec::new();
        assert(aggregations_view(no_aggregates@) =~= Seq::<(AggregationView, Seq<char>)>::empty());
        let no_extends: Vec<(Expression, Variable)> = Vec::new();
        assert(bindings_view(no_extends@) =~= Seq::<(ExpressionView, Seq<char>)>::empty());
        let distinct = self.word_in(i, 1, "DISTINCT");
        let reduced = self.word_in(i, 1, "REDUCED");
        let at = if distinct || reduced {
            i + 2
        } else {
            i + 1
        };
        if self.has_kind(at, 0, TokenKind::Star) {
            match self.body_in(
                at + 1,
                scope,
                no_aggregates,
                no_extends,
                None,
                distinct,
                reduced,
            ) {
                Err(failed) => Err(failed),
                Ok((value, next)) => Ok(
                    (
                        QueryVariants::Select {
                            algebra: value,
                            base_iri: copy_base(&scope.base),
                        },
                        next,
                    ),
                ),
            }
        } else {
            let start = SelectionTable {
                names: none,
                aggregates: no_aggregates,
                extends: no_extends,
            };
            assert(start@ == no_selection());
            let (selection, after) = match self.items_in(at, scope, start) {
                Ok(found) => found,
                Err(failed) => {
                    return Err(failed);
                },
            };
            if selection.names.len() == 0 {
                Err(at)
            } else {
                let ghost chosen = selection@;
                let SelectionTable { names, aggregates, extends } = selection;
                assert(body_at(
                    self.chars@,
                    self.tokens@,
                    after as int,
                    scope@,
                    chosen,
                    Some(chosen.names),
                    distinct,
                    reduced,
                ) == body_at(
                    self.chars@,
                    self.tokens@,
                    after as int,
                    scope@,
                    Selection {
                        names: Seq::empty(),
                        aggregates: chosen.aggregates,
                        extends: chosen.extends,
                    },
                    Some(chosen.names),
                    distinct,
                    reduced,
                ));
                match self.body_in(
                    after,
                    scope,
                    aggregates,
                    extends,
                    Some(names),
                    distinct,
                    reduced,
                ) {
                    Err(failed) => Err(failed),
                    Ok((value, next)) => Ok(
                        (
                            QueryVariants::Select {
                                algebra: value,
                                base_iri: copy_base(&scope.base),
                            },
                            next,
                        ),
                    ),
                }
            }
        }
    }

    /// The `CONSTRUCT` whose keyword stands at token `i`.
    fn construct_in(&self, i: usize, scope: &ScopeTable) -> (read: Result<
        (QueryVariants, usize),
        usize,
    >)
        requires
            self.well_formed(),
            i < self.tokens@.len(),
        ensures
            agrees_query(read, construct_at(self.chars@, self.tokens@, i as int, scope@)),
            within(read, self.tokens@.len()),
    {
        let none: Vec<Variable> = Vec::new();
        assert(variables_view(none@) =~= Seq::<Seq<char>>::empty());
        let no_aggregates: Vec<(Aggregation, Variable)> = Vec::new();
        assert(aggregations_view(no_aggregates@) =~= Seq::<(AggregationView, Seq<char>)>::empty());
        let no_extends: Vec<(Expression, Variable)> = Vec::new();
        assert(bindings_view(no_extends@) =~= Seq::<(ExpressionView, Seq<char>)>::empty());
        if !self.has_kind(i, 1, TokenKind::OpenBrace) {
            return Err(i + 1);
        }
        let empty: Vec<TriplePattern> = Vec::new();
        assert(triples_view(empty@) =~= Seq::<TriplePatternView>::empty());
        let (construct, n1) = match self.triples_in(i + 2, scope, empty) {
            Ok(found) => found,
            Err(at) => {
                return Err(at);
            },
        };
        if hold_blank_label_in(&construct) {
            return Err(i + 1);
        }
        if !self.has_kind(n1, 0, TokenKind::CloseBrace) {
            return Err(n1);
        }
        match self.body_in(n1 + 1, scope, no_aggregates, no_extends, None, false, false) {
            Err(at) => Err(at),
            Ok((value, next)) => Ok(
                (
                    QueryVariants::Construct {
                        construct,
                        algebra: value,
                        base_iri: copy_base(&scope.base),
                    },
                    next,
                ),
            ),
        }
    }

    /// The targets of a `DESCRIBE` from token `i` on, after those of `done`.
#[verifier::rlimit(40)]
    fn targets_in(&self, i: usize, scope: &ScopeTable, done: SelectionTable) -> (read: Result<
        (SelectionTable, usize),
        usize,
    >)
        requires
            self.well_formed(),
            i <= self.tokens@.len(),
        ensures
            match read {
                Ok((value, next)) => targets_at(
                    self.chars@,
                    self.tokens@,
                    i as int,
                    scope@,
                    done@,
                ) == (Parsed::Done { value: value@, next: next as int }),
                Err(at) => targets_at(self.chars@, self.tokens@, i as int, scope@, done@) == (
                Parsed::<Selection>::Failed { at: at as int }),
            },
            within(read, self.tokens@.len()),
        decreases self.tokens@.len() - i,
    {
        let ghost before = done@;
        let mut all = done;
        if self.has_kind(i, 0, TokenKind::Variable) {
            let name = self.text_in(i);
            all.names.push(Variable::new(name.as_str()));
            proof {
                assert(all@.names =~= before.names.push(name@));
                assert(all@.aggregates =~= before.aggregates);
                assert(all@.extends =~= before.extends);
            }
            return self.targets_in(i + 1, scope, all);
        }
        if !(self.has_kind(i, 0, TokenKind::Iri) || self.has_kind(i, 0, TokenKind::Prefixed)) {
            return Ok((all, i));
        }
        let (iri, next) = match self.iri_in(i, scope) {
            Ok(found) => found,
            Err(at) => {
                return Err(at);
            },
        };
        if !(i < next && next <= self.tokens.len()) {
            return Err(i);
        }
        proof {
            reveal_strlit("<");
            reveal_strlit(">");
        }
        let name = String::from_str("<").concat(iri.as_str()).concat(">");
        assert(name@ =~= target_name(iri@));
        let constant = Expression::Constant(Term::NamedNode(NamedNode::new(iri.as_str())));
        let ghost added = expression_view(constant);
        all.names.push(Variable::new(name.as_str()));
        all.extends.push((constant, Variable::new(name.as_str())));
        proof {
            assert(all@.names =~= before.names.push(name@));
            assert(all@.aggregates =~= before.aggregates);
            assert(all@.extends =~= before.extends.push((added, name@)));
        }
        self.targets_in(next, scope, all)
    }

    /// The `DESCRIBE` whose keyword stands at token `i`.
#[verifier::rlimit(40)]
    fn describe_in(&self, i: usize, scope: &ScopeTable) -> (read: Result<
        (QueryVariants, usize),
        usize,
    >)
        requires
            self.well_formed(),
            i < self.tokens@.len(),
        ensures
            agrees_query(read, describe_at(self.chars@, self.tokens@, i as int, scope@)),
            within(read, self.tokens@.len()),
    {
        let none: Vec<Variable> = Vec::new();
        assert(variables_view(none@) =~= Seq::<Seq<char>>::empty());
        let no_aggregates: Vec<(Aggregation, Variable)> = Vec::new();
        assert(aggregations_view(no_aggregates@) =~= Seq::<(AggregationView, Seq<char>)>::empty());
        let no_extends: Vec<(Expression, Variable)> = Vec::new();
        assert(bindings_view(no_extends@) =~= Seq::<(ExpressionView, Seq<char>)>::empty());
        if self.has_kind(i, 1, TokenKind::Star) {
            return match self.body_in(i + 2, scope, no_aggregates, no_extends, None, false, false) {
                Err(at) => Err(at),
                Ok((value, next)) => Ok(
                    (
                        QueryVariants::Describe { algebra: value, base_iri: copy_base(&scope.base) },
                        next,
                    ),
                ),
            };
        }
        let start = SelectionTable { names: none, aggregates: no_aggregates, extends: no_extends };
        assert(start@ == no_selection());
        let (targets, after) = match self.targets_in(i + 1, scope, start) {
            Ok(found) => found,
            Err(at) => {
                return Err(at);
            },
        };
        if targets.names.len() == 0 {
            return Err(i + 1);
        }
        let ghost chosen = targets@;
        let SelectionTable { names, aggregates, extends } = targets;
        if self.has_kind(after, 0, TokenKind::OpenBrace) || self.word_in(after, 0, "WHERE") {
            assert(body_at(
                self.chars@,
                self.tokens@,
                after as int,
                scope@,
                chosen,
                Some(chosen.names),
                false,
                false,
            ) == body_at(
                self.chars@,
                self.tokens@,
                after as int,
                scope@,
                Selection {
                    names: Seq::empty(),
                    aggregates: chosen.aggregates,
                    extends: chosen.extends,
                },
                Some(chosen.names),
                false,
                false,
            ));
            match self.body_in(after, scope, aggregates, extends, Some(names), false, false) {
                Err(at) => Err(at),
                Ok((value, next)) => Ok(
                    (
                        QueryVariants::Describe { algebra: value, base_iri: copy_base(&scope.base) },
                        next,
                    ),
                ),
            }
        } else {
            let empty: Vec<TriplePattern> = Vec::new();
            assert(triples_view(empty@) =~= Seq::<TriplePatternView>::empty());
            let inner = extended_in(GraphPattern::Bgp(empty), extends);
            Ok(
                (
                    QueryVariants::Describe {
                        algebra: GraphPattern::Project(Box::new(inner), names),
                        base_iri: copy_base(&scope.base),
                    },
                    after,
                ),
            )
        }
    }

    /// The query form that starts at token `i`.
    pub fn form_in(&self, i: usize, scope: &ScopeTable) -> (read: Result<
        (QueryVariants, usize),
        usize,
    >)
        requires
            self.well_formed(),
            i <= self.tokens@.len(),
        ensures
            agrees_query(read, form_at(self.chars@, self.tokens@, i as int, scope@)),
            within(read, self.tokens@.len()),
    {
        if self.word_in(i, 0, "SELECT") {
            self.select_in(i, scope)
        } else if self.word_in(i, 0, "ASK") {
            match self.where_in(i + 1, scope) {
                Err(at) => Err(at),
                Ok((value, next)) => Ok(
                    (QueryVariants::Ask { algebra: value, base_iri: copy_base(&scope.base) }, next),
                ),
            }
        } else if self.word_in(i, 0, "CONSTRUCT") {
            self.construct_in(i, scope)
        } else if self.word_in(i, 0, "DESCRIBE") {
            self.describe_in(i, scope)
        } else {
            Err(i)
        }
    }

    /// The place in the text of the token with index `i`.
    fn place_in(&self, i: usize) -> (place: usize)
        requires
            self.well_formed(),
        ensures
            place == place_of(self.tokens@, i as int, self.chars@.len()),
    {
        if i < self.tokens.len() {
            self.tokens[i].start
        } else {
            self.chars.len()
        }
    }
}

/// Reads a query text with the given base IRI.
///
/// Gives the query that `parse_spec` defines, and fails with
/// `MalformedQuery` and the place that it defines for every other text.
pub fn read_sparql_query(query: &str, base_iri: Option<&str>) -> (parsed: Result<
    QueryVariants,
    Error,
>)
    ensures
        match parsed {
            Ok(variants) => parse_spec(query@, base_view(base_iri)) == Ok::<QueryView, usize>(
                variants@,
            ),
            Err(error) => error matches Error::MalformedQuery { position } && parse_spec(
                query@,
                base_view(base_iri),
            ) == Err::<QueryView, usize>(position),
        },
{
    let chars = chars_of(query);
    // reading the length tells the verifier that it fits a machine word
    let _count = chars.len();
    let tokens = match tokenize(&chars) {
        Ok(tokens) => tokens,
        Err(at) => {
            return Err(Error::MalformedQuery { position: at });
        },
    };
    if tokens.len() >= usize::MAX {
        return Err(Error::MalformedQuery { position: 0 });
    }
    let source = Source { query, chars, tokens };
    let base = match base_iri {
        Some(text) => Some(text.to_owned()),
        None => None,
    };
    let scope = ScopeTable { base, prefixes: Vec::new() };
    assert(scope@.prefixes =~= Seq::<(Seq<char>, Seq<char>)>::empty());
    let (scope, n1) = match source.prologue_in(0, scope) {
        Ok(found) => found,
        Err(at) => {
            return Err(Error::MalformedQuery { position: source.place_in(at) });
        },
    };
    let (variants, next) = match source.form_in(n1, &scope) {
        Ok(found) => found,
        Err(at) => {
            return Err(Error::MalformedQuery { position: source.place_in(at) });
        },
    };
    if next == source.tokens.len() {
        Ok(variants)
    } else {
        Err(Error::MalformedQuery { position: source.place_in(next) })
    }
}

} // verus!
