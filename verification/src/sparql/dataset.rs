use crate::model::blank_node::BlankNode;
use crate::model::term::{Literal, NamedNode, Quad, QuadView, Term, TermView};
use crate::sparql::numeric::{
    int_text, integer_text, is_canonical_integer, lemma_int_text_injective,
    parse_canonical_integer,
};
use vstd::prelude::*;
use vstd::string::*;

verus! {

/// A compact, copyable surrogate for an RDF term.
///
/// Texts are held by identifier in the string store of a dataset view;
/// blank nodes, booleans and integers in canonical form are held inline.
/// `DefaultGraph` names the default graph in the graph position of a quad and
/// stands for no term. Canonical surrogates are equal exactly when their
/// terms are, and the evaluator orders them as it orders their terms.
#[derive(Clone, Copy, PartialEq, Eq, Structural, Debug, Hash)]
pub enum EncodedTerm {
    DefaultGraph,
    NamedNode { iri_id: u64 },
    BlankNode { id: u128 },
    StringLiteral { value_id: u64 },
    LangStringLiteral { value_id: u64, language_id: u64 },
    TypedLiteral { value_id: u64, datatype_id: u64 },
    BooleanLiteral(bool),
    IntegerLiteral(i64),
}

/// A quad of encoded terms.
#[derive(Clone, Copy, PartialEq, Eq, Structural, Debug, Hash)]
pub struct EncodedQuad {
    pub subject: EncodedTerm,
    pub predicate: EncodedTerm,
    pub object: EncodedTerm,
    pub graph_name: EncodedTerm,
}

/// What a query is evaluated over: the interned texts, each at the position
/// that is its identifier; the quads in the order in which they were added;
/// and what the services of the query answered, each at the position that is
/// its number, `None` for a service that gave no answer. A dataset view
/// holds no answers.
pub struct Dataset {
    pub strings: Seq<Seq<char>>,
    pub quads: Seq<EncodedQuad>,
    pub answers: Seq<Option<Seq<Seq<Option<EncodedTerm>>>>>,
}

/// A term that could not be interned: one of its IRIs is not well formed.
#[derive(Clone, Copy, PartialEq, Eq, Debug)]
pub struct EncodingFailure;

/// The IRI of the datatype of booleans.
pub open spec fn xsd_boolean() -> Seq<char> {
    "http://www.w3.org/2001/XMLSchema#boolean"@
}

/// The IRI of the datatype of integers.
pub open spec fn xsd_integer() -> Seq<char> {
    "http://www.w3.org/2001/XMLSchema#integer"@
}

/// Whether `c` may stand in an IRI reference.
pub open spec fn is_iri_char(c: char) -> bool {
    c > ' ' && c != '<' && c != '>' && c != '"' && c != '{' && c != '}' && c != '|' && c != '^'
        && c != '`' && c != '\\'
}

/// Whether `s` is accepted as an IRI: it is not empty and holds no
/// whitespace, control character or delimiter.
pub open spec fn is_valid_iri(s: Seq<char>) -> bool {
    s.len() > 0 && forall|i: int| 0 <= i < s.len() ==> is_iri_char(#[trigger] s[i])
}

/// Whether a typed literal is held inline rather than by identifier.
pub open spec fn is_inline_literal(value: Seq<char>, datatype: Seq<char>) -> bool {
    ||| datatype == xsd_boolean() && (value == "true"@ || value == "false"@)
    ||| datatype == xsd_integer() && is_canonical_integer(value)
}

/// Whether a term can be interned: every IRI in it is accepted.
pub open spec fn is_encodable(term: TermView) -> bool {
    match term {
        TermView::NamedNode { iri } => is_valid_iri(iri),
        TermView::Typed { value, datatype } => is_inline_literal(value, datatype) || is_valid_iri(
            datatype,
        ),
        _ => true,
    }
}

/// The store after `s` was interned: unchanged if it holds `s` already.
pub open spec fn intern(strings: Seq<Seq<char>>, s: Seq<char>) -> Seq<Seq<char>> {
    if strings.contains(s) {
        strings
    } else {
        strings.push(s)
    }
}

/// The identifier of `s` in a store that holds it.
pub open spec fn id_of(strings: Seq<Seq<char>>, s: Seq<char>) -> u64 {
    strings.index_of(s) as u64
}

/// The first place from `i` on at which a store holds `s`.
pub open spec fn position_from(strings: Seq<Seq<char>>, s: Seq<char>, i: int) -> Option<u64>
    decreases strings.len() - i,
{
    if i < 0 || i >= strings.len() {
        None
    } else if strings[i] == s {
        Some(i as u64)
    } else {
        position_from(strings, s, i + 1)
    }
}

/// The first place at which a store holds `s`, `None` where it does not
/// hold it.
pub open spec fn position_of(strings: Seq<Seq<char>>, s: Seq<char>) -> Option<u64> {
    position_from(strings, s, 0)
}

/// The place of a text is below the length of the store, and the store
/// holds the text there and nowhere before.
pub proof fn lemma_position_from(strings: Seq<Seq<char>>, s: Seq<char>, i: int)
    requires
        0 <= i,
        strings.len() <= u64::MAX,
    ensures
        match position_from(strings, s, i) {
            Some(id) => i <= id < strings.len() && strings[id as int] == s && forall|j: int|
                i <= j < id ==> strings[j] != s,
            None => forall|j: int| i <= j < strings.len() ==> strings[j] != s,
        },
    decreases strings.len() - i,
{
    if i < strings.len() && strings[i] != s {
        lemma_position_from(strings, s, i + 1);
    }
}

/// The place of a text is below the length of the store.
pub proof fn lemma_position_below(strings: Seq<Seq<char>>, s: Seq<char>, i: int)
    requires
        0 <= i,
    ensures
        position_from(strings, s, i) matches Some(id) ==> id < strings.len(),
    decreases strings.len() - i,
{
    if i < strings.len() && strings[i] != s {
        lemma_position_below(strings, s, i + 1);
    }
}

/// A store that grows holds each text at the place where it held it.
pub proof fn lemma_position_in_larger_store(a: Seq<Seq<char>>, b: Seq<Seq<char>>, s: Seq<char>)
    requires
        a.is_prefix_of(b),
        b.len() <= u64::MAX,
        position_of(a, s) is Some,
    ensures
        position_of(b, s) == position_of(a, s),
{
    assert(a == b.subrange(0, a.len() as int));
    assert forall|j: int| 0 <= j < a.len() implies a[j] == b[j] by {
        assert(a[j] == b.subrange(0, a.len() as int)[j]);
    }
    lemma_position_from(a, s, 0);
    lemma_position_from(b, s, 0);
}

/// In a store that holds no text twice, the identifier of a text is its
/// place.
pub proof fn lemma_position_is_id(strings: Seq<Seq<char>>, s: Seq<char>)
    requires
        strings.no_duplicates(),
        strings.len() <= u64::MAX,
        strings.contains(s),
    ensures
        position_of(strings, s) == Some(id_of(strings, s)),
{
    lemma_position_from(strings, s, 0);
    let k = strings.index_of(s);
    assert(0 <= k < strings.len() && strings[k] == s);
}

/// The store after `term` was encoded, and the surrogate of `term` in it.
pub open spec fn encode_spec(strings: Seq<Seq<char>>, term: TermView) -> (
    Seq<Seq<char>>,
    EncodedTerm,
) {
    match term {
        TermView::NamedNode { iri } => {
            let s1 = intern(strings, iri);
            (s1, EncodedTerm::NamedNode { iri_id: id_of(s1, iri) })
        },
        TermView::BlankNode { id } => (strings, EncodedTerm::BlankNode { id }),
        TermView::Simple { value } => {
            let s1 = intern(strings, value);
            (s1, EncodedTerm::StringLiteral { value_id: id_of(s1, value) })
        },
        TermView::LanguageTagged { value, language } => {
            let s1 = intern(strings, value);
            let s2 = intern(s1, language);
            (
                s2,
                EncodedTerm::LangStringLiteral {
                    value_id: id_of(s2, value),
                    language_id: id_of(s2, language),
                },
            )
        },
        TermView::Typed { value, datatype } => {
            if datatype == xsd_boolean() && value == "true"@ {
                (strings, EncodedTerm::BooleanLiteral(true))
            } else if datatype == xsd_boolean() && value == "false"@ {
                (strings, EncodedTerm::BooleanLiteral(false))
            } else if datatype == xsd_integer() && is_canonical_integer(value) {
                (
                    strings,
                    EncodedTerm::IntegerLiteral(choose|n: i64| #[trigger] int_text(n as int) == value),
                )
            } else {
                let s1 = intern(strings, value);
                let s2 = intern(s1, datatype);
                (
                    s2,
                    EncodedTerm::TypedLiteral {
                        value_id: id_of(s2, value),
                        datatype_id: id_of(s2, datatype),
                    },
                )
            }
        },
    }
}

/// The term that `encoded` stands for in a store, `None` for the default
/// graph and for an identifier that the store does not hold.
pub open spec fn term_of(strings: Seq<Seq<char>>, encoded: EncodedTerm) -> Option<TermView> {
    match encoded {
        EncodedTerm::DefaultGraph => None,
        EncodedTerm::NamedNode { iri_id } => if iri_id < strings.len() {
            Some(TermView::NamedNode { iri: strings[iri_id as int] })
        } else {
            None
        },
        EncodedTerm::BlankNode { id } => Some(TermView::BlankNode { id }),
        EncodedTerm::StringLiteral { value_id } => if value_id < strings.len() {
            Some(TermView::Simple { value: strings[value_id as int] })
        } else {
            None
        },
        EncodedTerm::LangStringLiteral { value_id, language_id } => if value_id < strings.len()
            && language_id < strings.len() {
            Some(
                TermView::LanguageTagged {
                    value: strings[value_id as int],
                    language: strings[language_id as int],
                },
            )
        } else {
            None
        },
        EncodedTerm::TypedLiteral { value_id, datatype_id } => if value_id < strings.len()
            && datatype_id < strings.len() {
            Some(
                TermView::Typed {
                    value: strings[value_id as int],
                    datatype: strings[datatype_id as int],
                },
            )
        } else {
            None
        },
        EncodedTerm::BooleanLiteral(b) => Some(
            TermView::Typed {
                value: if b {
                    "true"@
                } else {
                    "false"@
                },
                datatype: xsd_boolean(),
            },
        ),
        EncodedTerm::IntegerLiteral(n) => Some(
            TermView::Typed { value: int_text(n as int), datatype: xsd_integer() },
        ),
    }
}

/// Whether `encoded` is the one surrogate of its term: its identifiers are
/// held by the store, and a literal that is held inline is not held by
/// identifier.
pub open spec fn is_canonical(strings: Seq<Seq<char>>, encoded: EncodedTerm) -> bool {
    match encoded {
        EncodedTerm::DefaultGraph => true,
        EncodedTerm::TypedLiteral { value_id, datatype_id } => value_id < strings.len()
            && datatype_id < strings.len() && !is_inline_literal(
            strings[value_id as int],
            strings[datatype_id as int],
        ),
        _ => term_of(strings, encoded) is Some,
    }
}

/// The quad that `quad` stands for, where each of its terms stands for one.
pub open spec fn quad_of(strings: Seq<Seq<char>>, quad: EncodedQuad) -> Option<QuadView> {
    if term_of(strings, quad.subject) is Some && term_of(strings, quad.predicate) is Some
        && term_of(strings, quad.object) is Some && (quad.graph_name == EncodedTerm::DefaultGraph
        || term_of(strings, quad.graph_name) is Some) {
        Some(
            QuadView {
                subject: term_of(strings, quad.subject)->0,
                predicate: term_of(strings, quad.predicate)->0,
                object: term_of(strings, quad.object)->0,
                graph_name: term_of(strings, quad.graph_name),
            },
        )
    } else {
        None
    }
}

impl Dataset {
    /// Whether the texts are pairwise distinct, the quads are pairwise
    /// distinct, every term of every quad is canonical, and only the graph
    /// of a quad is the default graph.
    pub open spec fn well_formed(self) -> bool {
        &&& self.strings.len() <= u64::MAX
        &&& self.strings.no_duplicates()
        &&& self.quads.no_duplicates()
        &&& forall|i: int|
            0 <= i < self.quads.len() ==> {
                &&& is_canonical(self.strings, (#[trigger] self.quads[i]).subject)
                &&& is_canonical(self.strings, self.quads[i].predicate)
                &&& is_canonical(self.strings, self.quads[i].object)
                &&& is_canonical(self.strings, self.quads[i].graph_name)
                &&& self.quads[i].subject != EncodedTerm::DefaultGraph
                &&& self.quads[i].predicate != EncodedTerm::DefaultGraph
                &&& self.quads[i].object != EncodedTerm::DefaultGraph
            }
    }
}

/// Interning keeps what the store held, at the same identifiers, and the
/// store then holds `s` at `id_of`.
pub proof fn lemma_intern(strings: Seq<Seq<char>>, s: Seq<char>)
    requires
        strings.no_duplicates(),
        intern(strings, s).len() <= u64::MAX,
    ensures
        intern(strings, s).no_duplicates(),
        strings.is_prefix_of(intern(strings, s)),
        id_of(intern(strings, s), s) < intern(strings, s).len(),
        intern(strings, s)[id_of(intern(strings, s), s) as int] == s,
        intern(strings, s).len() <= strings.len() + 1,
{
    let after = intern(strings, s);
    if strings.contains(s) {
        let i = choose|i: int| 0 <= i < strings.len() && strings[i] == s;
        assert(strings[i] == s);
    } else {
        assert(after[strings.len() as int] == s);
    }
    assert(after.contains(s)) by {
        if strings.contains(s) {
        } else {
            assert(after[strings.len() as int] == s);
        }
    }
    let k = after.index_of(s);
    assert(0 <= k < after.len() && after[k] == s);
    assert(strings.is_prefix_of(after)) by {
        assert(strings =~= after.subrange(0, strings.len() as int));
    }
}

/// A store that grows keeps each text at its identifier.
pub proof fn lemma_prefix_keeps(a: Seq<Seq<char>>, b: Seq<Seq<char>>, s: Seq<char>)
    requires
        a.is_prefix_of(b),
        b.no_duplicates(),
        b.len() <= u64::MAX,
        a.contains(s),
    ensures
        b.contains(s),
        id_of(b, s) == id_of(a, s),
        id_of(a, s) < a.len(),
        a[id_of(a, s) as int] == s,
{
    let i = a.index_of(s);
    assert(0 <= i < a.len() && a[i] == s);
    assert(a == b.subrange(0, a.len() as int));
    assert(b[i] == a[i]);
    let j = b.index_of(s);
    assert(0 <= j < b.len() && b[j] == s);
    assert(i == j);
}

/// Encoding then decoding gives the term back, in the store as it is after
/// the encoding and in every store that it later grows into; the surrogate
/// is canonical; and encoding the same term again changes nothing and gives
/// the same surrogate.
pub proof fn lemma_encode_round_trip(strings: Seq<Seq<char>>, term: TermView, later: Seq<Seq<char>>)
    requires
        strings.no_duplicates(),
        encode_spec(strings, term).0.is_prefix_of(later),
        later.no_duplicates(),
        later.len() <= u64::MAX,
    ensures
        encode_spec(strings, term).0.no_duplicates(),
        strings.is_prefix_of(encode_spec(strings, term).0),
        term_of(encode_spec(strings, term).0, encode_spec(strings, term).1) == Some(term),
        is_canonical(encode_spec(strings, term).0, encode_spec(strings, term).1),
        term_of(later, encode_spec(strings, term).1) == Some(term),
        is_canonical(later, encode_spec(strings, term).1),
        encode_spec(later, term) == (later, encode_spec(strings, term).1),
{
    let (after, encoded) = encode_spec(strings, term);
    match term {
        TermView::NamedNode { iri } => {
            lemma_intern(strings, iri);
            lemma_prefix_keeps(after, later, iri);
        },
        TermView::BlankNode { id } => {},
        TermView::Simple { value } => {
            lemma_intern(strings, value);
            lemma_prefix_keeps(after, later, value);
        },
        TermView::LanguageTagged { value, language } => {
            let s1 = intern(strings, value);
            lemma_intern(strings, value);
            lemma_intern(s1, language);
            lemma_prefix_keeps(s1, after, value);
            lemma_prefix_keeps(after, later, value);
            lemma_prefix_keeps(after, later, language);
            assert(strings.is_prefix_of(after)) by {
                assert(strings =~= after.subrange(0, strings.len() as int)) by {
                    assert(strings == s1.subrange(0, strings.len() as int));
                    assert(s1 == after.subrange(0, s1.len() as int));
                }
            }
        },
        TermView::Typed { value, datatype } => {
            if is_inline_literal(value, datatype) {
                if datatype == xsd_integer() && is_canonical_integer(value) {
                    lemma_xsd_names_differ();
                }
            } else {
                let s1 = intern(strings, value);
                lemma_intern(strings, value);
                lemma_intern(s1, datatype);
                lemma_prefix_keeps(s1, after, value);
                lemma_prefix_keeps(after, later, value);
                lemma_prefix_keeps(after, later, datatype);
                assert(strings.is_prefix_of(after)) by {
                    assert(strings =~= after.subrange(0, strings.len() as int)) by {
                        assert(strings == s1.subrange(0, strings.len() as int));
                        assert(s1 == after.subrange(0, s1.len() as int));
                    }
                }
            }
        },
    }
}

/// The names of the two inline datatypes differ, and so do the two boolean
/// forms.
pub proof fn lemma_xsd_names_differ()
    ensures
        xsd_boolean() != xsd_integer(),
        "true"@ != "false"@,
        !is_canonical_integer("true"@),
        !is_canonical_integer("false"@),
{
    reveal_strlit("http://www.w3.org/2001/XMLSchema#boolean");
    reveal_strlit("http://www.w3.org/2001/XMLSchema#integer");
    reveal_strlit("true");
    reveal_strlit("false");
    assert(xsd_boolean().len() == 40);
    assert(xsd_integer().len() == 40);
    assert(xsd_boolean()[33] == 'b');
    assert(xsd_integer()[33] == 'i');
    assert("true"@.len() == 4);
    assert("false"@.len() == 5);
    crate::sparql::numeric::lemma_not_canonical_letter("true"@);
    crate::sparql::numeric::lemma_not_canonical_letter("false"@);
}

/// Encoding the term of a canonical surrogate gives that surrogate, and
/// leaves the store as it is.
pub proof fn lemma_encode_of_decoded(strings: Seq<Seq<char>>, encoded: EncodedTerm, term: TermView)
    requires
        strings.no_duplicates(),
        strings.len() <= u64::MAX,
        is_canonical(strings, encoded),
        term_of(strings, encoded) == Some(term),
    ensures
        encode_spec(strings, term) == (strings, encoded),
{
    lemma_xsd_names_differ();
    assert(strings.is_prefix_of(strings)) by {
        assert(strings =~= strings.subrange(0, strings.len() as int));
    }
    match encoded {
        EncodedTerm::NamedNode { iri_id } => {
            assert(strings[iri_id as int] == term->iri);
        },
        EncodedTerm::StringLiteral { value_id } => {
            assert(strings[value_id as int] == term->Simple_value);
        },
        EncodedTerm::LangStringLiteral { value_id, language_id } => {
            assert(strings[value_id as int] == term->LanguageTagged_value);
            assert(strings[language_id as int] == term->language);
        },
        EncodedTerm::TypedLiteral { value_id, datatype_id } => {
            assert(strings[value_id as int] == term->Typed_value);
            assert(strings[datatype_id as int] == term->datatype);
        },
        EncodedTerm::IntegerLiteral(n) => {
            assert(is_canonical_integer(int_text(n as int)));
        },
        _ => {},
    }
    assert(encode_spec(strings, term).0 == strings);
    lemma_encode_round_trip(strings, term, strings);
    lemma_canonical_surrogate_unique(strings, encoded, encode_spec(strings, term).1);
}

/// Two canonical surrogates of the same term are the same surrogate: encoded
/// terms are equal exactly when the terms that they stand for are.
pub proof fn lemma_canonical_surrogate_unique(strings: Seq<Seq<char>>, a: EncodedTerm, b: EncodedTerm)
    requires
        strings.no_duplicates(),
        is_canonical(strings, a),
        is_canonical(strings, b),
        term_of(strings, a) is Some,
        term_of(strings, a) == term_of(strings, b),
    ensures
        a == b,
{
    lemma_xsd_names_differ();
    match (a, b) {
        (EncodedTerm::IntegerLiteral(x), EncodedTerm::IntegerLiteral(y)) => {
            lemma_int_text_injective(x, y);
        },
        (EncodedTerm::IntegerLiteral(x), EncodedTerm::TypedLiteral { value_id, datatype_id }) => {
            assert(int_text(x as int) == strings[value_id as int]);
        },
        (EncodedTerm::TypedLiteral { value_id, datatype_id }, EncodedTerm::IntegerLiteral(x)) => {
            assert(int_text(x as int) == strings[value_id as int]);
        },
        _ => {},
    }
}

/// Whether `quad` has `wanted` at a position, where something is wanted.
pub open spec fn component_matches(wanted: Option<EncodedTerm>, found: EncodedTerm) -> bool {
    match wanted {
        Some(term) => term == found,
        None => true,
    }
}

/// Whether `quad` agrees with each component that the pattern fixes.
pub open spec fn pattern_matches(
    quad: EncodedQuad,
    subject: Option<EncodedTerm>,
    predicate: Option<EncodedTerm>,
    object: Option<EncodedTerm>,
    graph_name: Option<EncodedTerm>,
) -> bool {
    &&& component_matches(subject, quad.subject)
    &&& component_matches(predicate, quad.predicate)
    &&& component_matches(object, quad.object)
    &&& component_matches(graph_name, quad.graph_name)
}

/// The quads of `quads` that agree with the pattern, in their order.
pub open spec fn matching_quads(
    quads: Seq<EncodedQuad>,
    subject: Option<EncodedTerm>,
    predicate: Option<EncodedTerm>,
    object: Option<EncodedTerm>,
    graph_name: Option<EncodedTerm>,
) -> Seq<EncodedQuad>
    decreases quads.len(),
{
    if quads.len() == 0 {
        Seq::empty()
    } else {
        let rest = matching_quads(quads.drop_last(), subject, predicate, object, graph_name);
        if pattern_matches(quads.last(), subject, predicate, object, graph_name) {
            rest.push(quads.last())
        } else {
            rest
        }
    }
}

/// The store after each term of `quad` was encoded in turn, and the encoded
/// quad.
pub open spec fn encode_quad_spec(strings: Seq<Seq<char>>, quad: QuadView) -> (
    Seq<Seq<char>>,
    EncodedQuad,
) {
    let (s1, subject) = encode_spec(strings, quad.subject);
    let (s2, predicate) = encode_spec(s1, quad.predicate);
    let (s3, object) = encode_spec(s2, quad.object);
    match quad.graph_name {
        Some(name) => {
            let (s4, graph_name) = encode_spec(s3, name);
            (s4, EncodedQuad { subject, predicate, object, graph_name })
        },
        None => (s3, EncodedQuad { subject, predicate, object, graph_name: EncodedTerm::DefaultGraph }),
    }
}

/// Whether every term of `quad` can be interned.
pub open spec fn is_encodable_quad(quad: QuadView) -> bool {
    &&& is_encodable(quad.subject)
    &&& is_encodable(quad.predicate)
    &&& is_encodable(quad.object)
    &&& quad.graph_name matches Some(name) ==> is_encodable(name)
}

/// The dataset after `quad` was added: its terms are interned, and the quad
/// is appended unless the dataset holds it already.
pub open spec fn insert_spec(dataset: Dataset, quad: QuadView) -> Dataset {
    let (strings, encoded) = encode_quad_spec(dataset.strings, quad);
    Dataset {
        strings,
        quads: if dataset.quads.contains(encoded) {
            dataset.quads
        } else {
            dataset.quads.push(encoded)
        },
        answers: dataset.answers,
    }
}

/// A canonical surrogate stays canonical, and stands for the same term, in a
/// store that grew.
pub proof fn lemma_canonical_in_larger_store(a: Seq<Seq<char>>, b: Seq<Seq<char>>, encoded: EncodedTerm)
    requires
        a.is_prefix_of(b),
        is_canonical(a, encoded),
    ensures
        is_canonical(b, encoded),
        term_of(b, encoded) == term_of(a, encoded),
{
    assert(a == b.subrange(0, a.len() as int));
    assert forall|i: int| 0 <= i < a.len() implies a[i] == b[i] by {
        assert(a[i] == b.subrange(0, a.len() as int)[i]);
    }
}

/// A store that grew from a store that grew from `a` grew from `a`.
pub proof fn lemma_prefix_transitive(a: Seq<Seq<char>>, b: Seq<Seq<char>>, c: Seq<Seq<char>>)
    requires
        a.is_prefix_of(b),
        b.is_prefix_of(c),
    ensures
        a.is_prefix_of(c),
{
    assert(a == b.subrange(0, a.len() as int));
    assert(b == c.subrange(0, b.len() as int));
    assert(a =~= c.subrange(0, a.len() as int));
}

/// Whether `s` holds the text `literal`.
fn text_is(s: &str, literal: &str) -> (same: bool)
    ensures
        same == (s@ == literal@),
{
    s.to_owned() == literal.to_owned()
}

/// Whether `s` is accepted as an IRI.
pub fn check_iri(s: &str) -> (valid: bool)
    ensures
        valid == is_valid_iri(s@),
{
    let len = s.unicode_len();
    if len == 0 {
        return false;
    }
    let mut i: usize = 0;
    while i < len
        invariant
            i <= len,
            len == s@.len(),
            forall|j: int| 0 <= j < i ==> is_iri_char(#[trigger] s@[j]),
        decreases len - i,
    {
        let c = s.get_char(i);
        if !(c > ' ' && c != '<' && c != '>' && c != '"' && c != '{' && c != '}' && c != '|' && c
            != '^' && c != '`' && c != '\\') {
            assert(!is_iri_char(s@[i as int]));
            return false;
        }
        i = i + 1;
    }
    true
}

/// The inline surrogate of a typed literal, if it has one.
fn inline_literal(value: &str, datatype: &str) -> (inline: Option<EncodedTerm>)
    ensures
        inline is Some <==> is_inline_literal(value@, datatype@),
        inline matches Some(encoded) ==> forall|strings: Seq<Seq<char>>|
            #[trigger] encode_spec(
                strings,
                TermView::Typed { value: value@, datatype: datatype@ },
            ) == (strings, encoded),
{
    proof {
        lemma_xsd_names_differ();
    }
    if text_is(datatype, "http://www.w3.org/2001/XMLSchema#boolean") {
        if text_is(value, "true") {
            Some(EncodedTerm::BooleanLiteral(true))
        } else if text_is(value, "false") {
            Some(EncodedTerm::BooleanLiteral(false))
        } else {
            None
        }
    } else if text_is(datatype, "http://www.w3.org/2001/XMLSchema#integer") {
        match parse_canonical_integer(value) {
            Some(n) => {
                proof {
                    let chosen = choose|m: i64| #[trigger] int_text(m as int) == value@;
                    lemma_int_text_injective(n, chosen);
                }
                Some(EncodedTerm::IntegerLiteral(n))
            },
            None => None,
        }
    } else {
        None
    }
}

/// Whether `term` can be interned.
pub fn check_term(term: &Term) -> (encodable: bool)
    ensures
        encodable == is_encodable(term@),
{
    match term {
        Term::NamedNode(node) => check_iri(node.as_str()),
        Term::BlankNode(_) => true,
        Term::Literal(Literal::Typed { value, datatype }) => {
            inline_literal(value.as_str(), datatype.as_str()).is_some() || check_iri(
                datatype.as_str(),
            )
        },
        Term::Literal(_) => true,
    }
}

/// The evaluator's channel to stored data: a string store that gives each
/// text one identifier for the lifetime of the view, and the quads of the
/// dataset, encoded over it.
pub struct DatasetView {
    strings: Vec<String>,
    quads: Vec<EncodedQuad>,
}

impl View for DatasetView {
    type V = Dataset;

    closed spec fn view(&self) -> Dataset {
        Dataset {
            strings: Seq::new(self.strings@.len(), |i: int| self.strings@[i]@),
            quads: self.quads@,
            answers: Seq::empty(),
        }
    }
}

impl DatasetView {
    /// A view of the empty dataset.
    pub fn new() -> (view: Self)
        ensures
            view@.strings.len() == 0,
            view@.quads.len() == 0,
            view@.answers.len() == 0,
            view@.well_formed(),
    {
        DatasetView { strings: Vec::new(), quads: Vec::new() }
    }

    /// The identifier of `s`, if the store holds it.
    pub fn get_id(&self, s: &str) -> (id: Option<u64>)
        requires
            self@.well_formed(),
        ensures
            id is Some <==> self@.strings.contains(s@),
            id matches Some(found) ==> found == id_of(self@.strings, s@) && found
                < self@.strings.len() && self@.strings[found as int] == s@,
    {
        let needle = s.to_owned();
        let mut i: usize = 0;
        while i < self.strings.len()
            invariant
                i <= self.strings@.len(),
                needle@ == s@,
                self@.well_formed(),
                self@.strings.len() == self.strings@.len(),
                forall|j: int| 0 <= j < self.strings@.len() ==> self@.strings[j] == (
                #[trigger] self.strings@[j])@,
                forall|j: int| 0 <= j < i ==> self@.strings[j] != s@,
            decreases self.strings@.len() - i,
        {
            if self.strings[i] == needle {
                proof {
                    let k = self@.strings.index_of(s@);
                    assert(self@.strings[i as int] == s@);
                    assert(0 <= k < self@.strings.len() && self@.strings[k] == s@);
                }
                return Some(i as u64);
            }
            i = i + 1;
        }
        None
    }

    /// The first place at which the store holds `s`.
    pub fn find_str(&self, s: &str) -> (id: Option<u64>)
        ensures
            id == position_of(self@.strings, s@),
            self@.strings.len() <= u64::MAX,
    {
        let needle = s.to_owned();
        let mut i: usize = 0;
        while i < self.strings.len()
            invariant
                i <= self.strings@.len(),
                needle@ == s@,
                self@.strings.len() == self.strings@.len(),
                forall|j: int| 0 <= j < self.strings@.len() ==> self@.strings[j] == (
                #[trigger] self.strings@[j])@,
                position_of(self@.strings, s@) == position_from(self@.strings, s@, i as int),
            decreases self.strings@.len() - i,
        {
            if self.strings[i] == needle {
                assert(self@.strings[i as int] == s@);
                return Some(i as u64);
            }
            i = i + 1;
        }
        None
    }

    /// The text with identifier `id`, if the store holds one.
    pub fn get_str(&self, id: u64) -> (text: Option<&str>)
        ensures
            text is Some <==> id < self@.strings.len(),
            text matches Some(found) ==> found@ == self@.strings[id as int],
    {
        if id < self.strings.len() as u64 {
            Some(self.strings[id as usize].as_str())
        } else {
            None
        }
    }

    /// Interns `s`: gives its identifier, adding it at the end of the store
    /// if the store does not hold it yet.
    pub fn insert_str(&mut self, s: &str) -> (id: u64)
        requires
            old(self)@.well_formed(),
        ensures
            final(self)@.strings == intern(old(self)@.strings, s@),
            final(self)@.quads == old(self)@.quads,
            id == id_of(final(self)@.strings, s@),
            final(self)@.well_formed(),
    {
        match self.get_id(s) {
            Some(id) => id,
            None => {
                let ghost before = self@;
                let id = self.strings.len() as u64;
                self.strings.push(s.to_owned());
                let count: usize = self.strings.len();
                proof {
                    assert(count <= u64::MAX);
                    assert(self@.strings =~= before.strings.push(s@));
                    assert(before.strings.is_prefix_of(self@.strings)) by {
                        assert(before.strings =~= self@.strings.subrange(
                            0,
                            before.strings.len() as int,
                        ));
                    }
                    assert forall|i: int| 0 <= i < self@.quads.len() implies {
                        &&& is_canonical(self@.strings, (#[trigger] self@.quads[i]).subject)
                        &&& is_canonical(self@.strings, self@.quads[i].predicate)
                        &&& is_canonical(self@.strings, self@.quads[i].object)
                        &&& is_canonical(self@.strings, self@.quads[i].graph_name)
                    } by {
                        let q = before.quads[i];
                        lemma_canonical_in_larger_store(before.strings, self@.strings, q.subject);
                        lemma_canonical_in_larger_store(before.strings, self@.strings, q.predicate);
                        lemma_canonical_in_larger_store(before.strings, self@.strings, q.object);
                        lemma_canonical_in_larger_store(
                            before.strings,
                            self@.strings,
                            q.graph_name,
                        );
                    }
                    let k = self@.strings.index_of(s@);
                    assert(self@.strings[before.strings.len() as int] == s@);
                    assert(0 <= k < self@.strings.len() && self@.strings[k] == s@);
                    assert(self@.strings.len() == self.strings@.len());
                    assert(self@.strings.len() <= u64::MAX);
                    assert(self@.strings.no_duplicates()) by {
                        assert forall|i: int, j: int|
                            0 <= i < self@.strings.len() && 0 <= j < self@.strings.len() && i
                                != j implies self@.strings[i] != self@.strings[j] by {
                            if i < before.strings.len() {
                                assert(before.strings[i] == self@.strings[i]);
                            }
                            if j < before.strings.len() {
                                assert(before.strings[j] == self@.strings[j]);
                            }
                        }
                    }
                }
                id
            },
        }
    }

    /// Interns `term` and gives its surrogate. Fails, leaving the view as it
    /// was, exactly when the term holds an IRI that is not accepted.
#[verifier::rlimit(40)]
    pub fn encode_term(&mut self, term: &Term) -> (encoded: Result<EncodedTerm, EncodingFailure>)
        requires
            old(self)@.well_formed(),
        ensures
            final(self)@.quads == old(self)@.quads,
            final(self)@.well_formed(),
            match encoded {
                Ok(surrogate) => is_encodable(term@) && (final(self)@.strings, surrogate)
                    == encode_spec(old(self)@.strings, term@),
                Err(_) => !is_encodable(term@) && final(self)@ == old(self)@,
            },
    {
        match term {
            Term::NamedNode(node) => {
                if !check_iri(node.as_str()) {
                    return Err(EncodingFailure);
                }
                let iri_id = self.insert_str(node.as_str());
                Ok(EncodedTerm::NamedNode { iri_id })
            },
            Term::BlankNode(node) => Ok(EncodedTerm::BlankNode { id: node.id() }),
            Term::Literal(Literal::Simple { value }) => {
                let value_id = self.insert_str(value.as_str());
                Ok(EncodedTerm::StringLiteral { value_id })
            },
            Term::Literal(Literal::LanguageTagged { value, language }) => {
                let ghost s0 = self@.strings;
                let first = self.insert_str(value.as_str());
                let ghost s1 = self@.strings;
                let language_id = self.insert_str(language.as_str());
                proof {
                    lemma_intern(s0, value@);
                    lemma_intern(s1, language@);
                    lemma_prefix_keeps(s1, self@.strings, value@);
                }
                Ok(EncodedTerm::LangStringLiteral { value_id: first, language_id })
            },
            Term::Literal(Literal::Typed { value, datatype }) => {
                match inline_literal(value.as_str(), datatype.as_str()) {
                    Some(surrogate) => Ok(surrogate),
                    None => {
                        if !check_iri(datatype.as_str()) {
                            return Err(EncodingFailure);
                        }
                        let ghost s0 = self@.strings;
                        let first = self.insert_str(value.as_str());
                        let ghost s1 = self@.strings;
                        let datatype_id = self.insert_str(datatype.as_str());
                        proof {
                            lemma_xsd_names_differ();
                            lemma_intern(s0, value@);
                            lemma_intern(s1, datatype@);
                            lemma_prefix_keeps(s1, self@.strings, value@);
                        }
                        Ok(EncodedTerm::TypedLiteral { value_id: first, datatype_id })
                    },
                }
            },
        }
    }

    /// The term that `encoded` stands for, `None` for the default graph and
    /// for an identifier that this view never gave out.
    pub fn decode_term(&self, encoded: EncodedTerm) -> (term: Option<Term>)
        ensures
            match term {
                Some(decoded) => term_of(self@.strings, encoded) == Some(decoded@),
                None => term_of(self@.strings, encoded) is None,
            },
    {
        match encoded {
            EncodedTerm::DefaultGraph => None,
            EncodedTerm::NamedNode { iri_id } => match self.get_str(iri_id) {
                Some(iri) => Some(Term::NamedNode(NamedNode::new(iri))),
                None => None,
            },
            EncodedTerm::BlankNode { id } => Some(
                Term::BlankNode(BlankNode::new_from_unique_id(id)),
            ),
            EncodedTerm::StringLiteral { value_id } => match self.get_str(value_id) {
                Some(value) => Some(Term::Literal(Literal::new_simple_literal(value))),
                None => None,
            },
            EncodedTerm::LangStringLiteral { value_id, language_id } => match (
                self.get_str(value_id),
                self.get_str(language_id),
            ) {
                (Some(value), Some(language)) => Some(
                    Term::Literal(Literal::new_language_tagged_literal(value, language)),
                ),
                _ => None,
            },
            EncodedTerm::TypedLiteral { value_id, datatype_id } => match (
                self.get_str(value_id),
                self.get_str(datatype_id),
            ) {
                (Some(value), Some(datatype)) => Some(
                    Term::Literal(Literal::new_typed_literal(value, NamedNode::new(datatype))),
                ),
                _ => None,
            },
            EncodedTerm::BooleanLiteral(b) => {
                let value = if b {
                    "true"
                } else {
                    "false"
                };
                Some(
                    Term::Literal(
                        Literal::new_typed_literal(
                            value,
                            NamedNode::new("http://www.w3.org/2001/XMLSchema#boolean"),
                        ),
                    ),
                )
            },
            EncodedTerm::IntegerLiteral(n) => {
                let value = integer_text(n);
                Some(
                    Term::Literal(
                        Literal::new_typed_literal(
                            value.as_str(),
                            NamedNode::new("http://www.w3.org/2001/XMLSchema#integer"),
                        ),
                    ),
                )
            },
        }
    }

    /// Interns the terms of `quad` in turn and gives the encoded quad. Fails,
    /// leaving the view as it was, exactly when one of them cannot be
    /// interned.
#[verifier::rlimit(40)]
    pub fn encode_quad(&mut self, quad: &Quad) -> (encoded: Result<EncodedQuad, EncodingFailure>)
        requires
            old(self)@.well_formed(),
        ensures
            final(self)@.quads == old(self)@.quads,
            final(self)@.well_formed(),
            match encoded {
                Ok(surrogate) => {
                    &&& is_encodable_quad(quad@)
                    &&& (final(self)@.strings, surrogate) == encode_quad_spec(
                        old(self)@.strings,
                        quad@,
                    )
                    &&& is_canonical(final(self)@.strings, surrogate.subject)
                    &&& is_canonical(final(self)@.strings, surrogate.predicate)
                    &&& is_canonical(final(self)@.strings, surrogate.object)
                    &&& is_canonical(final(self)@.strings, surrogate.graph_name)
                    &&& quad_of(final(self)@.strings, surrogate) == Some(quad@)
                },
                Err(_) => !is_encodable_quad(quad@) && final(self)@ == old(self)@,
            },
    {
        let graph_ok = match &quad.graph_name {
            Some(name) => check_term(name),
            None => true,
        };
        if !(check_term(&quad.subject) && check_term(&quad.predicate) && check_term(&quad.object)
            && graph_ok) {
            return Err(EncodingFailure);
        }
        let ghost s0 = self@.strings;
        let subject = match self.encode_term(&quad.subject) {
            Ok(encoded) => encoded,
            Err(failure) => {
                return Err(failure);
            },
        };
        let ghost s1 = self@.strings;
        let predicate = match self.encode_term(&quad.predicate) {
            Ok(encoded) => encoded,
            Err(failure) => {
                return Err(failure);
            },
        };
        let ghost s2 = self@.strings;
        let object = match self.encode_term(&quad.object) {
            Ok(encoded) => encoded,
            Err(failure) => {
                return Err(failure);
            },
        };
        let ghost s3 = self@.strings;
        let graph_name = match &quad.graph_name {
            Some(name) => match self.encode_term(name) {
                Ok(encoded) => encoded,
                Err(failure) => {
                    return Err(failure);
                },
            },
            None => EncodedTerm::DefaultGraph,
        };
        proof {
            let s4 = self@.strings;
            lemma_encode_round_trip(s0, quad@.subject, s1);
            lemma_encode_round_trip(s1, quad@.predicate, s2);
            lemma_encode_round_trip(s2, quad@.object, s3);
            if let Some(name) = quad@.graph_name {
                lemma_encode_round_trip(s3, name, s4);
            } else {
                assert(s3.is_prefix_of(s4)) by {
                    assert(s3 =~= s4.subrange(0, s3.len() as int));
                }
            }
            lemma_prefix_transitive(s2, s3, s4);
            lemma_prefix_transitive(s1, s2, s4);
            lemma_encode_round_trip(s0, quad@.subject, s4);
            lemma_encode_round_trip(s1, quad@.predicate, s4);
            lemma_encode_round_trip(s2, quad@.object, s4);
        }
        Ok(EncodedQuad { subject, predicate, object, graph_name })
    }

    /// Whether the dataset holds the encoded quad.
    pub fn contains_encoded(&self, quad: &EncodedQuad) -> (found: bool)
        ensures
            found == self@.quads.contains(*quad),
    {
        let mut i: usize = 0;
        while i < self.quads.len()
            invariant
                i <= self.quads@.len(),
                self@.quads == self.quads@,
                forall|j: int| 0 <= j < i ==> self.quads@[j] != *quad,
            decreases self.quads@.len() - i,
        {
            let q = self.quads[i];
            if q.subject == quad.subject && q.predicate == quad.predicate && q.object
                == quad.object && q.graph_name == quad.graph_name {
                assert(self@.quads[i as int] == *quad);
                return true;
            }
            i = i + 1;
        }
        false
    }

    /// Adds `quad` to the dataset, and says whether it was new. The dataset
    /// then holds the encoded quad, which stands for `quad`. Fails, leaving
    /// the view as it was, exactly when one of its terms cannot be interned.
    pub fn insert(&mut self, quad: &Quad) -> (added: Result<bool, EncodingFailure>)
        requires
            old(self)@.well_formed(),
        ensures
            final(self)@.well_formed(),
            match added {
                Ok(is_new) => {
                    &&& is_encodable_quad(quad@)
                    &&& final(self)@ == insert_spec(old(self)@, quad@)
                    &&& is_new == !old(self)@.quads.contains(
                        encode_quad_spec(old(self)@.strings, quad@).1,
                    )
                    &&& final(self)@.quads.contains(
                        encode_quad_spec(old(self)@.strings, quad@).1,
                    )
                    &&& quad_of(
                        final(self)@.strings,
                        encode_quad_spec(old(self)@.strings, quad@).1,
                    ) == Some(quad@)
                },
                Err(_) => !is_encodable_quad(quad@) && final(self)@ == old(self)@,
            },
    {
        let encoded = match self.encode_quad(quad) {
            Ok(encoded) => encoded,
            Err(failure) => {
                return Err(failure);
            },
        };
        if self.contains_encoded(&encoded) {
            Ok(false)
        } else {
            let ghost before = self@;
            self.quads.push(encoded);
            proof {
                assert(self@.quads == before.quads.push(encoded));
                assert(self@.quads[before.quads.len() as int] == encoded);
                assert(self@.strings =~= before.strings);
                assert(self@.quads.no_duplicates()) by {
                    assert forall|i: int, j: int|
                        0 <= i < self@.quads.len() && 0 <= j < self@.quads.len() && i
                            != j implies self@.quads[i] != self@.quads[j] by {
                        if i < before.quads.len() {
                            assert(before.quads[i] == self@.quads[i]);
                        }
                        if j < before.quads.len() {
                            assert(before.quads[j] == self@.quads[j]);
                        }
                    }
                }
                assert forall|i: int| 0 <= i < self@.quads.len() implies {
                    &&& is_canonical(self@.strings, (#[trigger] self@.quads[i]).subject)
                    &&& is_canonical(self@.strings, self@.quads[i].predicate)
                    &&& is_canonical(self@.strings, self@.quads[i].object)
                    &&& is_canonical(self@.strings, self@.quads[i].graph_name)
                } by {
                    if i < before.quads.len() {
                        assert(before.quads[i] == self@.quads[i]);
                    }
                }
            }
            Ok(true)
        }
    }

    /// The number of quads in the dataset.
    pub fn len(&self) -> (count: usize)
        ensures
            count == self@.quads.len(),
    {
        self.quads.len()
    }

    /// The quads that agree with each component that is given, in the order
    /// in which they were added; a component that is `None` ranges over all
    /// values.
    pub fn quads_for_pattern(
        &self,
        subject: Option<EncodedTerm>,
        predicate: Option<EncodedTerm>,
        object: Option<EncodedTerm>,
        graph_name: Option<EncodedTerm>,
    ) -> (found: Vec<EncodedQuad>)
        ensures
            found@ == matching_quads(self@.quads, subject, predicate, object, graph_name),
    {
        let mut found: Vec<EncodedQuad> = Vec::new();
        let mut i: usize = 0;
        while i < self.quads.len()
            invariant
                i <= self.quads@.len(),
                self@.quads == self.quads@,
                found@ == matching_quads(
                    self.quads@.subrange(0, i as int),
                    subject,
                    predicate,
                    object,
                    graph_name,
                ),
            decreases self.quads@.len() - i,
        {
            let q = self.quads[i];
            let matches = (match subject {
                Some(term) => term == q.subject,
                None => true,
            }) && (match predicate {
                Some(term) => term == q.predicate,
                None => true,
            }) && (match object {
                Some(term) => term == q.object,
                None => true,
            }) && (match graph_name {
                Some(term) => term == q.graph_name,
                None => true,
            });
            proof {
                let next = self.quads@.subrange(0, i + 1);
                assert(next.drop_last() =~= self.quads@.subrange(0, i as int));
                assert(next.last() == q);
            }
            if matches {
                found.push(q);
            }
            i = i + 1;
        }
        assert(self.quads@.subrange(0, i as int) =~= self.quads@);
        found
    }

    /// The quad that `encoded` stands for, `None` if one of its terms stands
    /// for none.
    pub fn decode_quad(&self, encoded: &EncodedQuad) -> (quad: Option<Quad>)
        ensures
            match quad {
                Some(decoded) => quad_of(self@.strings, *encoded) == Some(decoded@),
                None => quad_of(self@.strings, *encoded) is None,
            },
    {
        let subject = match self.decode_term(encoded.subject) {
            Some(term) => term,
            None => {
                return None;
            },
        };
        let predicate = match self.decode_term(encoded.predicate) {
            Some(term) => term,
            None => {
                return None;
            },
        };
        let object = match self.decode_term(encoded.object) {
            Some(term) => term,
            None => {
                return None;
            },
        };
        let graph_name = match encoded.graph_name {
            EncodedTerm::DefaultGraph => None,
            name => match self.decode_term(name) {
                Some(term) => Some(term),
                None => {
                    return None;
                },
            },
        };
        Some(Quad { subject, predicate, object, graph_name })
    }

    /// Whether `encoded` is the one surrogate of its term in this view.
    pub fn is_canonical_term(&self, encoded: EncodedTerm) -> (canonical: bool)
        ensures
            canonical == is_canonical(self@.strings, encoded),
    {
        match encoded {
            EncodedTerm::DefaultGraph => true,
            EncodedTerm::NamedNode { iri_id } => self.get_str(iri_id).is_some(),
            EncodedTerm::BlankNode { .. } => true,
            EncodedTerm::StringLiteral { value_id } => self.get_str(value_id).is_some(),
            EncodedTerm::LangStringLiteral { value_id, language_id } => self.get_str(
                value_id,
            ).is_some() && self.get_str(language_id).is_some(),
            EncodedTerm::TypedLiteral { value_id, datatype_id } => match (
                self.get_str(value_id),
                self.get_str(datatype_id),
            ) {
                (Some(value), Some(datatype)) => inline_literal(value, datatype).is_none(),
                _ => false,
            },
            EncodedTerm::BooleanLiteral(_) => true,
            EncodedTerm::IntegerLiteral(_) => true,
        }
    }

    /// Whether the view holds a dataset: no text twice, no quad twice, only
    /// canonical terms, and the default graph only as the graph of a quad.
    /// Every view that `new` made and that the functions of this type
    /// changed does.
#[verifier::rlimit(40)]
    pub fn is_well_formed(&self) -> (well_formed: bool)
        ensures
            well_formed == self@.well_formed(),
    {
        // reading the length tells the verifier that it fits a machine word
        let _count = self.strings.len();
        let mut i: usize = 0;
        while i < self.strings.len()
            invariant
                i <= self.strings@.len(),
                self@.strings.len() == self.strings@.len(),
                forall|k: int| 0 <= k < self.strings@.len() ==> self@.strings[k] == (
                #[trigger] self.strings@[k])@,
                forall|a: int, b: int|
                    0 <= a < i && a < b < self.strings@.len() ==> self@.strings[a]
                        != self@.strings[b],
            decreases self.strings@.len() - i,
        {
            let mut j: usize = i + 1;
            while j < self.strings.len()
                invariant
                    i < j <= self.strings@.len(),
                    self@.strings.len() == self.strings@.len(),
                    forall|k: int| 0 <= k < self.strings@.len() ==> self@.strings[k] == (
                    #[trigger] self.strings@[k])@,
                    forall|b: int| i < b < j ==> self@.strings[i as int] != self@.strings[b],
                decreases self.strings@.len() - j,
            {
                if self.strings[i] == self.strings[j] {
                    assert(self@.strings[i as int] == self@.strings[j as int]);
                    return false;
                }
                j = j + 1;
            }
            i = i + 1;
        }
        assert(self@.strings.no_duplicates()) by {
            assert forall|a: int, b: int|
                0 <= a < self@.strings.len() && 0 <= b < self@.strings.len() && a
                    != b implies self@.strings[a] != self@.strings[b] by {
                if a < b {
                } else {
                    assert(self@.strings[b] != self@.strings[a]);
                }
            }
        }
        let mut q: usize = 0;
        while q < self.quads.len()
            invariant
                q <= self.quads@.len(),
                self@.quads == self.quads@,
                forall|a: int, b: int|
                    0 <= a < q && a < b < self.quads@.len() ==> self.quads@[a] != self.quads@[b],
                forall|k: int|
                    0 <= k < q ==> {
                        &&& is_canonical(self@.strings, (#[trigger] self.quads@[k]).subject)
                        &&& is_canonical(self@.strings, self.quads@[k].predicate)
                        &&& is_canonical(self@.strings, self.quads@[k].object)
                        &&& is_canonical(self@.strings, self.quads@[k].graph_name)
                        &&& self.quads@[k].subject != EncodedTerm::DefaultGraph
                        &&& self.quads@[k].predicate != EncodedTerm::DefaultGraph
                        &&& self.quads@[k].object != EncodedTerm::DefaultGraph
                    },
            decreases self.quads@.len() - q,
        {
            let quad = self.quads[q];
            if !(self.is_canonical_term(quad.subject) && self.is_canonical_term(quad.predicate)
                && self.is_canonical_term(quad.object) && self.is_canonical_term(
                quad.graph_name,
            )) {
                assert(self@.quads[q as int] == quad);
                return false;
            }
            if quad.subject == EncodedTerm::DefaultGraph || quad.predicate
                == EncodedTerm::DefaultGraph || quad.object == EncodedTerm::DefaultGraph {
                assert(self@.quads[q as int] == quad);
                return false;
            }
            let mut r: usize = q + 1;
            while r < self.quads.len()
                invariant
                    q < r <= self.quads@.len(),
                    self@.quads == self.quads@,
                    quad == self.quads@[q as int],
                    forall|b: int| q < b < r ==> self.quads@[q as int] != self.quads@[b],
                decreases self.quads@.len() - r,
            {
                let other = self.quads[r];
                if quad.subject == other.subject && quad.predicate == other.predicate
                    && quad.object == other.object && quad.graph_name == other.graph_name {
                    assert(self@.quads[q as int] == self@.quads[r as int]);
                    return false;
                }
                r = r + 1;
            }
            q = q + 1;
        }
        assert(self@.quads.no_duplicates()) by {
            assert forall|a: int, b: int|
                0 <= a < self@.quads.len() && 0 <= b < self@.quads.len() && a
                    != b implies self@.quads[a] != self@.quads[b] by {
                if a < b {
                } else {
                    assert(self@.quads[b] != self@.quads[a]);
                }
            }
        }
        true
    }
}

} // verus!
