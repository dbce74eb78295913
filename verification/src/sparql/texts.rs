use crate::sparql::algebra::Function;
use crate::sparql::dataset::{
    position_of, xsd_boolean, xsd_integer, DatasetView, EncodedTerm,
};
use crate::sparql::grammar::xsd_decimal;
use crate::sparql::numeric::{decimal_of, decimal_text, int_text, integer_text};
use crate::sparql::semantics::text_at;
use vstd::prelude::*;
use vstd::string::*;

verus! {

/// The text in capital letters, as `str::to_uppercase` gives it.
pub uninterp spec fn upper_text(text: Seq<char>) -> Seq<char>;

/// The text in small letters, as `str::to_lowercase` gives it.
pub uninterp spec fn lower_text(text: Seq<char>) -> Seq<char>;

/// `str::to_uppercase`: the text with each character in its upper case.
/// What that is for each character is not stated; the result has the name
/// `upper_text`.
#[verifier::external_body]
fn uppercase(text: &str) -> (out: String)
    ensures
        out@ == upper_text(text@),
{
    text.to_uppercase()
}

/// `str::to_lowercase`: the text with each character in its lower case.
/// What that is for each character is not stated; the result has the name
/// `lower_text`.
#[verifier::external_body]
fn lowercase(text: &str) -> (out: String)
    ensures
        out@ == lower_text(text@),
{
    text.to_lowercase()
}

/// The IRI of the datatype of plain strings.
pub open spec fn xsd_string() -> Seq<char> {
    "http://www.w3.org/2001/XMLSchema#string"@
}

/// The IRI of the datatype of strings with a language tag.
pub open spec fn rdf_lang_string() -> Seq<char> {
    "http://www.w3.org/1999/02/22-rdf-syntax-ns#langString"@
}

/// What kind of term a built text is: a plain string, a string with the
/// language tag of the given identifier, an IRI, or a literal with the
/// datatype of the given identifier.
#[derive(Clone, Copy, PartialEq, Eq, Structural, Debug)]
pub enum BuiltKind {
    Simple,
    Tagged(u64),
    Iri,
    Typed(u64),
}

/// Whether a function gives a decimal number, whose datatype the store has
/// to hold.
pub open spec fn needs_decimal(function: Function) -> bool {
    function is Divide || function is Seconds
}

/// The place after the digits that stand from `from` on.
pub open spec fn digits_end(text: Seq<char>, from: int) -> int
    decreases text.len() - from,
{
    if from < 0 || from >= text.len() || !crate::sparql::numeric::is_digit(text[from]) {
        from
    } else {
        digits_end(text, from + 1)
    }
}

/// The seconds of a date with a time as the lexical form of a decimal
/// number: the seconds without a leading zero, a point, and the digits
/// that the date writes after the point of its seconds, `0` where it
/// writes none.
pub open spec fn seconds_text(text: Seq<char>) -> Seq<char> {
    crate::sparql::numeric::dec_digits(
        (10 * crate::sparql::semantics::digit_at(text, 17) + crate::sparql::semantics::digit_at(
            text,
            18,
        )) as nat,
    ) + seq!['.'] + (if text.len() > 20 && text[19] == '.' && crate::sparql::numeric::is_digit(
        text[20],
    ) {
        text.subrange(20, digits_end(text, 20))
    } else {
        seq!['0']
    })
}

/// The seconds of a date with a time as a decimal number, where the store
/// holds the datatype of decimal numbers and has an identifier for each of
/// its places; `None` for other values.
pub open spec fn seconds_of(strings: Seq<Seq<char>>, values: Seq<Option<EncodedTerm>>) -> Option<
    BuiltView,
> {
    if values.len() == 1 && strings.len() <= u64::MAX && values[0] is Some {
        match (
            crate::sparql::semantics::date_time_text(strings, values[0]->0),
            position_of(strings, xsd_decimal()),
        ) {
            (Some(text), Some(id)) => Some(
                BuiltView { text: seconds_text(text), kind: BuiltKind::Typed(id) },
            ),
            _ => None,
        }
    } else {
        None
    }
}

/// The quotient of two integers as a decimal number, where the store
/// holds the datatype of decimal numbers and has an identifier for each of
/// its places; `None` for other values and for a division by zero.
pub open spec fn quotient_text(strings: Seq<Seq<char>>, values: Seq<Option<EncodedTerm>>) -> Option<
    BuiltView,
> {
    if values.len() == 2 && strings.len() <= u64::MAX {
        match (values[0], values[1], position_of(strings, xsd_decimal())) {
            (
                Some(EncodedTerm::IntegerLiteral(a)),
                Some(EncodedTerm::IntegerLiteral(b)),
                Some(id),
            ) => if b != 0 {
                Some(BuiltView { text: decimal_text(a as int, b as int), kind: BuiltKind::Typed(id) })
            } else {
                None
            },
            _ => None,
        }
    } else {
        None
    }
}

/// A text that a function built, with the kind of term that it is.
pub struct BuiltView {
    pub text: Seq<char>,
    pub kind: BuiltKind,
}

/// A text that a function built, in executable code.
pub struct Built {
    pub text: String,
    pub kind: BuiltKind,
}

impl View for Built {
    type V = BuiltView;

    open spec fn view(&self) -> BuiltView {
        BuiltView { text: self.text@, kind: self.kind }
    }
}

/// The view of a text that may have been built.
pub open spec fn built_view(built: Option<Built>) -> Option<BuiltView> {
    match built {
        Some(b) => Some(b@),
        None => None,
    }
}

/// The text and the kind of a plain or language-tagged string.
pub open spec fn string_of(strings: Seq<Seq<char>>, value: Option<EncodedTerm>) -> Option<
    BuiltView,
> {
    match value {
        Some(EncodedTerm::StringLiteral { value_id }) => Some(
            BuiltView { text: text_at(strings, value_id), kind: BuiltKind::Simple },
        ),
        Some(EncodedTerm::LangStringLiteral { value_id, language_id }) => Some(
            BuiltView { text: text_at(strings, value_id), kind: BuiltKind::Tagged(language_id) },
        ),
        _ => None,
    }
}

/// What `STR` gives: the text of an IRI, or the lexical form of a literal.
pub open spec fn lexical_text(strings: Seq<Seq<char>>, term: EncodedTerm) -> Option<Seq<char>> {
    match term {
        EncodedTerm::NamedNode { iri_id } => Some(text_at(strings, iri_id)),
        EncodedTerm::StringLiteral { value_id } => Some(text_at(strings, value_id)),
        EncodedTerm::LangStringLiteral { value_id, .. } => Some(text_at(strings, value_id)),
        EncodedTerm::TypedLiteral { value_id, .. } => Some(text_at(strings, value_id)),
        EncodedTerm::BooleanLiteral(b) => Some(
            if b {
                "true"@
            } else {
                "false"@
            },
        ),
        EncodedTerm::IntegerLiteral(n) => Some(int_text(n as int)),
        _ => None,
    }
}

/// What `LANG` gives: the language tag of a literal, empty where it has
/// none.
pub open spec fn language_text(strings: Seq<Seq<char>>, term: EncodedTerm) -> Option<Seq<char>> {
    match term {
        EncodedTerm::LangStringLiteral { language_id, .. } => Some(text_at(strings, language_id)),
        EncodedTerm::StringLiteral { .. } => Some(Seq::empty()),
        EncodedTerm::TypedLiteral { .. } => Some(Seq::empty()),
        EncodedTerm::BooleanLiteral(_) => Some(Seq::empty()),
        EncodedTerm::IntegerLiteral(_) => Some(Seq::empty()),
        _ => None,
    }
}

/// What `DATATYPE` gives: the IRI of the datatype of a literal.
pub open spec fn datatype_text(strings: Seq<Seq<char>>, term: EncodedTerm) -> Option<Seq<char>> {
    match term {
        EncodedTerm::TypedLiteral { datatype_id, .. } => Some(text_at(strings, datatype_id)),
        EncodedTerm::StringLiteral { .. } => Some(xsd_string()),
        EncodedTerm::LangStringLiteral { .. } => Some(rdf_lang_string()),
        EncodedTerm::BooleanLiteral(_) => Some(xsd_boolean()),
        EncodedTerm::IntegerLiteral(_) => Some(xsd_integer()),
        _ => None,
    }
}

/// The texts of the first `n` values one after the other; `None` where one
/// of them is no string.
pub open spec fn concat_texts(strings: Seq<Seq<char>>, values: Seq<Option<EncodedTerm>>, n: int) -> Option<
    Seq<char>,
>
    decreases n,
{
    if n <= 0 || n > values.len() {
        Some(Seq::empty())
    } else {
        match (concat_texts(strings, values, n - 1), string_of(strings, values[n - 1])) {
            (Some(rest), Some(last)) => Some(rest + last.text),
            _ => None,
        }
    }
}

/// The language tag that the first `n` values all have, `None` where they
/// do not all have the same or there is no value.
pub open spec fn common_tag(values: Seq<Option<EncodedTerm>>, n: int) -> Option<u64>
    decreases n,
{
    if n <= 0 || n > values.len() {
        None
    } else {
        match values[n - 1] {
            Some(EncodedTerm::LangStringLiteral { language_id, .. }) => if n == 1 || common_tag(
                values,
                n - 1,
            ) == Some(language_id) {
                Some(language_id)
            } else {
                None
            },
            _ => None,
        }
    }
}

/// The first place of a part of a text of `len` characters that starts at
/// the character with number `start`, counted from one.
pub open spec fn part_start(len: int, start: int) -> int {
    if start - 1 < 0 {
        0
    } else if start - 1 > len {
        len
    } else {
        start - 1
    }
}

/// The place after the last character of such a part of `count`
/// characters; the part runs to the end of the text where no count is
/// given.
pub open spec fn part_end(len: int, start: int, count: Option<int>) -> int {
    match count {
        None => len,
        Some(c) => if start - 1 + c < part_start(len, start) {
            part_start(len, start)
        } else if start - 1 + c > len {
            len
        } else {
            start - 1 + c
        },
    }
}

/// The integer of a value that is one.
pub open spec fn integer_of(value: Option<EncodedTerm>) -> Option<int> {
    match value {
        Some(EncodedTerm::IntegerLiteral(n)) => Some(n as int),
        _ => None,
    }
}

/// The text that a function builds from the values of its arguments, with
/// the kind of term that it is; `None` is an error: another number of
/// arguments, or an argument of the wrong kind.
///
/// `STR` gives the text of an IRI or the lexical form of a literal; `LANG`
/// the language tag of a literal; `DATATYPE` the IRI of its datatype;
/// `UCASE` and `LCASE` a string in another case; `CONCAT` its strings one
/// after the other, with their language tag where they all have the same;
/// `SUBSTR` the part of a string from a character on, counted from one, of
/// at most so many characters; division the quotient of two integers as a
/// decimal number; `SECONDS` the seconds of a date with a time as a decimal
/// number.
pub open spec fn call_text(
    function: Function,
    strings: Seq<Seq<char>>,
    values: Seq<Option<EncodedTerm>>,
) -> Option<BuiltView> {
    match function {
        Function::Str => if values.len() == 1 && values[0] is Some {
            match lexical_text(strings, values[0]->0) {
                Some(text) => Some(BuiltView { text, kind: BuiltKind::Simple }),
                None => None,
            }
        } else {
            None
        },
        Function::Lang => if values.len() == 1 && values[0] is Some {
            match language_text(strings, values[0]->0) {
                Some(text) => Some(BuiltView { text, kind: BuiltKind::Simple }),
                None => None,
            }
        } else {
            None
        },
        Function::Datatype => if values.len() == 1 && values[0] is Some {
            match datatype_text(strings, values[0]->0) {
                Some(text) => Some(BuiltView { text, kind: BuiltKind::Iri }),
                None => None,
            }
        } else {
            None
        },
        Function::UCase => if values.len() == 1 {
            match string_of(strings, values[0]) {
                Some(source) => Some(
                    BuiltView { text: upper_text(source.text), kind: source.kind },
                ),
                None => None,
            }
        } else {
            None
        },
        Function::LCase => if values.len() == 1 {
            match string_of(strings, values[0]) {
                Some(source) => Some(
                    BuiltView { text: lower_text(source.text), kind: source.kind },
                ),
                None => None,
            }
        } else {
            None
        },
        Function::Concat => match concat_texts(strings, values, values.len() as int) {
            Some(text) => Some(
                BuiltView {
                    text,
                    kind: match common_tag(values, values.len() as int) {
                        Some(language_id) => BuiltKind::Tagged(language_id),
                        None => BuiltKind::Simple,
                    },
                },
            ),
            None => None,
        },
        Function::SubStr => if values.len() == 2 || values.len() == 3 {
            match (string_of(strings, values[0]), integer_of(values[1])) {
                (Some(source), Some(start)) => {
                    let count = if values.len() == 3 {
                        integer_of(values[2])
                    } else {
                        None
                    };
                    if values.len() == 3 && count is None {
                        None
                    } else {
                        Some(
                            BuiltView {
                                text: source.text.subrange(
                                    part_start(source.text.len() as int, start),
                                    part_end(source.text.len() as int, start, count),
                                ),
                                kind: source.kind,
                            },
                        )
                    }
                },
                _ => None,
            }
        } else {
            None
        },
        Function::Divide => quotient_text(strings, values),
        Function::Seconds => seconds_of(strings, values),
        _ => None,
    }
}

/// What `GROUP_CONCAT` joins from the first `n` terms of a group: their
/// lexical forms with the separator between each two; `None` where one of
/// them has none.
pub open spec fn joined_text(
    strings: Seq<Seq<char>>,
    separator: Seq<char>,
    terms: Seq<EncodedTerm>,
    n: int,
) -> Option<Seq<char>>
    decreases n,
{
    if n <= 0 || n > terms.len() {
        Some(Seq::empty())
    } else {
        match (
            joined_text(strings, separator, terms, n - 1),
            lexical_text(strings, terms[n - 1]),
        ) {
            (Some(rest), Some(last)) => Some(
                if n == 1 {
                    last
                } else {
                    rest + separator + last
                },
            ),
            _ => None,
        }
    }
}

/// The term of a built text in a store that holds the text: the string or
/// the IRI with the place of the text as its identifier.
pub open spec fn built_term(strings: Seq<Seq<char>>, built: BuiltView) -> Option<EncodedTerm> {
    match position_of(strings, built.text) {
        Some(id) => Some(
            match built.kind {
                BuiltKind::Simple => EncodedTerm::StringLiteral { value_id: id },
                BuiltKind::Tagged(language_id) => EncodedTerm::LangStringLiteral {
                    value_id: id,
                    language_id,
                },
                BuiltKind::Iri => EncodedTerm::NamedNode { iri_id: id },
                BuiltKind::Typed(datatype_id) => EncodedTerm::TypedLiteral {
                    value_id: id,
                    datatype_id,
                },
            },
        ),
        None => None,
    }
}

/// The value of a function on the values of its arguments, over a store:
/// the term of the text that it builds, where the store holds that text.
pub open spec fn apply_call(
    function: Function,
    strings: Seq<Seq<char>>,
    values: Seq<Option<EncodedTerm>>,
) -> Option<EncodedTerm> {
    match call_text(function, strings, values) {
        Some(built) => built_term(strings, built),
        None => None,
    }
}

/// The text with identifier `id`, empty where the store holds none.
fn text_of(dataset: &DatasetView, id: u64) -> (text: String)
    ensures
        text@ == text_at(dataset@.strings, id),
{
    match dataset.get_str(id) {
        Some(found) => found.to_owned(),
        None => String::new(),
    }
}

fn string_in(dataset: &DatasetView, value: Option<EncodedTerm>) -> (found: Option<Built>)
    ensures
        built_view(found) == string_of(dataset@.strings, value),
{
    match value {
        Some(EncodedTerm::StringLiteral { value_id }) => Some(
            Built { text: text_of(dataset, value_id), kind: BuiltKind::Simple },
        ),
        Some(EncodedTerm::LangStringLiteral { value_id, language_id }) => Some(
            Built { text: text_of(dataset, value_id), kind: BuiltKind::Tagged(language_id) },
        ),
        _ => None,
    }
}

fn lexical_in(dataset: &DatasetView, term: EncodedTerm) -> (text: Option<String>)
    ensures
        match text {
            Some(found) => lexical_text(dataset@.strings, term) == Some(found@),
            None => lexical_text(dataset@.strings, term) is None,
        },
{
    match term {
        EncodedTerm::NamedNode { iri_id } => Some(text_of(dataset, iri_id)),
        EncodedTerm::StringLiteral { value_id } => Some(text_of(dataset, value_id)),
        EncodedTerm::LangStringLiteral { value_id, .. } => Some(text_of(dataset, value_id)),
        EncodedTerm::TypedLiteral { value_id, .. } => Some(text_of(dataset, value_id)),
        EncodedTerm::BooleanLiteral(b) => Some(
            if b {
                "true".to_owned()
            } else {
                "false".to_owned()
            },
        ),
        EncodedTerm::IntegerLiteral(n) => Some(integer_text(n)),
        _ => None,
    }
}

fn language_in(dataset: &DatasetView, term: EncodedTerm) -> (text: Option<String>)
    ensures
        match text {
            Some(found) => language_text(dataset@.strings, term) == Some(found@),
            None => language_text(dataset@.strings, term) is None,
        },
{
    match term {
        EncodedTerm::LangStringLiteral { language_id, .. } => Some(text_of(dataset, language_id)),
        EncodedTerm::StringLiteral { .. } => Some(String::new()),
        EncodedTerm::TypedLiteral { .. } => Some(String::new()),
        EncodedTerm::BooleanLiteral(_) => Some(String::new()),
        EncodedTerm::IntegerLiteral(_) => Some(String::new()),
        _ => None,
    }
}

fn datatype_in(dataset: &DatasetView, term: EncodedTerm) -> (text: Option<String>)
    ensures
        match text {
            Some(found) => datatype_text(dataset@.strings, term) == Some(found@),
            None => datatype_text(dataset@.strings, term) is None,
        },
{
    match term {
        EncodedTerm::TypedLiteral { datatype_id, .. } => Some(text_of(dataset, datatype_id)),
        EncodedTerm::StringLiteral { .. } => Some(
            "http://www.w3.org/2001/XMLSchema#string".to_owned(),
        ),
        EncodedTerm::LangStringLiteral { .. } => Some(
            "http://www.w3.org/1999/02/22-rdf-syntax-ns#langString".to_owned(),
        ),
        EncodedTerm::BooleanLiteral(_) => Some(
            "http://www.w3.org/2001/XMLSchema#boolean".to_owned(),
        ),
        EncodedTerm::IntegerLiteral(_) => Some(
            "http://www.w3.org/2001/XMLSchema#integer".to_owned(),
        ),
        _ => None,
    }
}

#[verifier::loop_isolation(false)]
fn concat_in(dataset: &DatasetView, values: &Vec<Option<EncodedTerm>>) -> (found: Option<Built>)
    ensures
        built_view(found) == call_text(Function::Concat, dataset@.strings, values@),
{
    let ghost strings = dataset@.strings;
    let mut text = String::new();
    let mut tag: Option<u64> = None;
    let mut i: usize = 0;
    assert(text@ =~= Seq::<char>::empty());
    while i < values.len()
        invariant
            i <= values@.len(),
            concat_texts(strings, values@, i as int) == Some(text@),
            tag == common_tag(values@, i as int),
        decreases values@.len() - i,
    {
        let part = match string_in(dataset, values[i]) {
            Some(part) => part,
            None => {
                proof {
                    lemma_concat_fails(strings, values@, i + 1, values@.len() as int);
                }
                return None;
            },
        };
        tag = match part.kind {
            BuiltKind::Tagged(language_id) => match tag {
                Some(held) => if held == language_id {
                    Some(language_id)
                } else {
                    None
                },
                None => if i == 0 {
                    Some(language_id)
                } else {
                    None
                },
            },
            _ => None,
        };
        text.append(part.text.as_str());
        i = i + 1;
    }
    let kind = match tag {
        Some(language_id) => BuiltKind::Tagged(language_id),
        None => BuiltKind::Simple,
    };
    Some(Built { text, kind })
}

proof fn lemma_concat_fails(
    strings: Seq<Seq<char>>,
    values: Seq<Option<EncodedTerm>>,
    n: int,
    m: int,
)
    requires
        0 < n <= m <= values.len(),
        concat_texts(strings, values, n) is None,
    ensures
        concat_texts(strings, values, m) is None,
    decreases m - n,
{
    if n < m {
        lemma_concat_fails(strings, values, n, m - 1);
    }
}

fn integer_in(value: Option<EncodedTerm>) -> (found: Option<i64>)
    ensures
        match found {
            Some(n) => integer_of(value) == Some(n as int),
            None => integer_of(value) is None,
        },
{
    match value {
        Some(EncodedTerm::IntegerLiteral(n)) => Some(n),
        _ => None,
    }
}

fn part_start_in(len: usize, start: i64) -> (first: usize)
    ensures
        first == part_start(len as int, start as int),
        first <= len,
{
    if start <= 1 {
        0
    } else if (start - 1) as u64 > len as u64 {
        len
    } else {
        (start - 1) as usize
    }
}

fn part_end_in(len: usize, start: i64, count: Option<i64>) -> (end: usize)
    ensures
        end == part_end(len as int, start as int, match count {
            Some(c) => Some(c as int),
            None => None,
        }),
        part_start(len as int, start as int) <= end <= len,
{
    let first = part_start_in(len, start);
    match count {
        None => len,
        Some(c) => {
            let last: i128 = (start as i128) - 1 + (c as i128);
            if last < first as i128 {
                first
            } else if last > len as i128 {
                len
            } else {
                last as usize
            }
        },
    }
}

fn substr_in(dataset: &DatasetView, values: &Vec<Option<EncodedTerm>>) -> (found: Option<Built>)
    ensures
        built_view(found) == call_text(Function::SubStr, dataset@.strings, values@),
{
    if values.len() != 2 && values.len() != 3 {
        return None;
    }
    let source = match string_in(dataset, values[0]) {
        Some(source) => source,
        None => {
            return None;
        },
    };
    let start = match integer_in(values[1]) {
        Some(start) => start,
        None => {
            return None;
        },
    };
    let count = if values.len() == 3 {
        match integer_in(values[2]) {
            Some(count) => Some(count),
            None => {
                return None;
            },
        }
    } else {
        None
    };
    let len = source.text.as_str().unicode_len();
    let first = part_start_in(len, start);
    let end = part_end_in(len, start, count);
    let text = source.text.as_str().substring_char(first, end).to_owned();
    Some(Built { text, kind: source.kind })
}

proof fn lemma_joined_fails(
    strings: Seq<Seq<char>>,
    separator: Seq<char>,
    terms: Seq<EncodedTerm>,
    n: int,
    m: int,
)
    requires
        0 < n <= m <= terms.len(),
        joined_text(strings, separator, terms, n) is None,
    ensures
        joined_text(strings, separator, terms, m) is None,
    decreases m - n,
{
    if n < m {
        lemma_joined_fails(strings, separator, terms, n + 1, m);
    }
}

/// The text that `GROUP_CONCAT` joins from the terms of a group.
#[verifier::loop_isolation(false)]
pub fn joined_in(dataset: &DatasetView, separator: &str, terms: &Vec<EncodedTerm>) -> (found:
    Option<String>)
    ensures
        match found {
            Some(text) => joined_text(
                dataset@.strings,
                separator@,
                terms@,
                terms@.len() as int,
            ) == Some(text@),
            None => joined_text(dataset@.strings, separator@, terms@, terms@.len() as int)
                is None,
        },
{
    let ghost strings = dataset@.strings;
    let mut text = String::new();
    let mut i: usize = 0;
    assert(text@ =~= Seq::<char>::empty());
    while i < terms.len()
        invariant
            i <= terms@.len(),
            joined_text(strings, separator@, terms@, i as int) == Some(text@),
        decreases terms@.len() - i,
    {
        let ghost before = text@;
        match lexical_in(dataset, terms[i]) {
            Some(part) => {
                if i > 0 {
                    text.append(separator);
                }
                text.append(part.as_str());
                assert(i == 0 ==> text@ =~= part@);
            },
            None => {
                proof {
                    lemma_joined_fails(strings, separator@, terms@, i + 1, terms@.len() as int);
                }
                return None;
            },
        }
        i = i + 1;
    }
    Some(text)
}

/// The place after the digits that stand from `from` on.
fn digits_end_in(text: &Vec<char>, from: usize) -> (end: usize)
    requires
        from <= text@.len(),
    ensures
        end == digits_end(text@, from as int),
        from <= end <= text@.len(),
{
    let mut k: usize = from;
    while k < text.len() && '0' <= text[k] && text[k] <= '9'
        invariant
            from <= k <= text@.len(),
            digits_end(text@, from as int) == digits_end(text@, k as int),
        decreases text@.len() - k,
    {
        k = k + 1;
    }
    k
}

/// The seconds of a date with a time as a decimal number.
fn seconds_in(dataset: &DatasetView, values: &Vec<Option<EncodedTerm>>) -> (found: Option<Built>)
    ensures
        built_view(found) == seconds_of(dataset@.strings, values@),
{
    if values.len() != 1 {
        return None;
    }
    let id = match dataset.find_str("http://www.w3.org/2001/XMLSchema#decimal") {
        Some(id) => id,
        None => {
            return None;
        },
    };
    match values[0] {
        Some(EncodedTerm::TypedLiteral { value_id, datatype_id }) => {
            let datatype = crate::sparql::text::chars_of(text_of(dataset, datatype_id).as_str());
            let wanted = crate::sparql::text::chars_of("http://www.w3.org/2001/XMLSchema#dateTime");
            if !crate::sparql::evaluator::same_chars(&datatype, &wanted) {
                return None;
            }
            let value = text_of(dataset, value_id);
            let chars = crate::sparql::text::chars_of(value.as_str());
            if !crate::sparql::evaluator::is_date_time_in(&chars) {
                return None;
            }
            assert(forall|k: int|
                17 <= k < 19 ==> crate::sparql::numeric::is_digit(#[trigger] chars@[k]));
            let whole = 10 * crate::sparql::evaluator::digit_in(&chars, 17)
                + crate::sparql::evaluator::digit_in(&chars, 18);
            let mut text = String::new();
            crate::sparql::numeric::append_digits(&mut text, whole as u64);
            proof {
                reveal_strlit(".");
                reveal_strlit("0");
            }
            text.append(".");
            if chars.len() > 20 && chars[19] == '.' && '0' <= chars[20] && chars[20] <= '9' {
                let end = digits_end_in(&chars, 20);
                text.append(value.as_str().substring_char(20, end));
            } else {
                text.append("0");
            }
            assert(text@ =~= seconds_text(chars@));
            Some(Built { text, kind: BuiltKind::Typed(id) })
        },
        _ => None,
    }
}

/// The quotient of two integers as a decimal number.
fn quotient_in(dataset: &DatasetView, values: &Vec<Option<EncodedTerm>>) -> (found: Option<Built>)
    ensures
        built_view(found) == quotient_text(dataset@.strings, values@),
{
    if values.len() != 2 {
        return None;
    }
    match (values[0], values[1]) {
        (Some(EncodedTerm::IntegerLiteral(a)), Some(EncodedTerm::IntegerLiteral(b))) => {
            if b == 0 {
                return None;
            }
            match dataset.find_str("http://www.w3.org/2001/XMLSchema#decimal") {
                Some(id) => Some(Built { text: decimal_of(a, b), kind: BuiltKind::Typed(id) }),
                None => None,
            }
        },
        _ => None,
    }
}

/// The text that a function builds from the values of its arguments.
pub fn built_text(dataset: &DatasetView, function: Function, values: &Vec<Option<EncodedTerm>>) -> (found:
    Option<Built>)
    ensures
        built_view(found) == call_text(function, dataset@.strings, values@),
{
    match function {
        Function::Str => {
            if values.len() != 1 {
                return None;
            }
            match values[0] {
                Some(term) => match lexical_in(dataset, term) {
                    Some(text) => Some(Built { text, kind: BuiltKind::Simple }),
                    None => None,
                },
                None => None,
            }
        },
        Function::Lang => {
            if values.len() != 1 {
                return None;
            }
            match values[0] {
                Some(term) => match language_in(dataset, term) {
                    Some(text) => Some(Built { text, kind: BuiltKind::Simple }),
                    None => None,
                },
                None => None,
            }
        },
        Function::Datatype => {
            if values.len() != 1 {
                return None;
            }
            match values[0] {
                Some(term) => match datatype_in(dataset, term) {
                    Some(text) => Some(Built { text, kind: BuiltKind::Iri }),
                    None => None,
                },
                None => None,
            }
        },
        Function::Divide => quotient_in(dataset, values),
        Function::Seconds => seconds_in(dataset, values),
        Function::UCase => {
            if values.len() != 1 {
                return None;
            }
            match string_in(dataset, values[0]) {
                Some(source) => Some(
                    Built { text: uppercase(source.text.as_str()), kind: source.kind },
                ),
                None => None,
            }
        },
        Function::LCase => {
            if values.len() != 1 {
                return None;
            }
            match string_in(dataset, values[0]) {
                Some(source) => Some(
                    Built { text: lowercase(source.text.as_str()), kind: source.kind },
                ),
                None => None,
            }
        },
        Function::Concat => concat_in(dataset, values),
        Function::SubStr => substr_in(dataset, values),
        _ => None,
    }
}

/// The term of a built text, looked up in the store.
pub fn built_term_in(dataset: &DatasetView, built: &Built) -> (term: Option<EncodedTerm>)
    ensures
        term == built_term(dataset@.strings, built@),
{
    match dataset.find_str(built.text.as_str()) {
        Some(id) => Some(
            match built.kind {
                BuiltKind::Simple => EncodedTerm::StringLiteral { value_id: id },
                BuiltKind::Tagged(language_id) => EncodedTerm::LangStringLiteral {
                    value_id: id,
                    language_id,
                },
                BuiltKind::Iri => EncodedTerm::NamedNode { iri_id: id },
                BuiltKind::Typed(datatype_id) => EncodedTerm::TypedLiteral {
                    value_id: id,
                    datatype_id,
                },
            },
        ),
        None => None,
    }
}

} // verus!
