use rudf::model::{BlankNode, Literal, NamedNode, Quad, Term};
use rudf::sparql::dataset::{check_iri, DatasetView, EncodedTerm, EncodingFailure};
use rudf::sparql::numeric::{integer_text, parse_canonical_integer};

const XSD_INTEGER: &str = "http://www.w3.org/2001/XMLSchema#integer";
const XSD_BOOLEAN: &str = "http://www.w3.org/2001/XMLSchema#boolean";

fn typed(value: &str, datatype: &str) -> Term {
    Term::Literal(Literal::new_typed_literal(value, NamedNode::new(datatype)))
}

fn round_trip(term: Term) {
    let mut view = DatasetView::new();
    let encoded = view.encode_term(&term).unwrap();
    assert_eq!(view.decode_term(encoded), Some(term.clone()));
    let again = view.encode_term(&term).unwrap();
    assert_eq!(encoded, again);
    view.insert_str("something else");
    assert_eq!(view.decode_term(encoded), Some(term));
}

#[test]
fn encoding_round_trips_iris() {
    round_trip(Term::iri("http://example.com/bob"));
}

#[test]
fn encoding_round_trips_blank_nodes() {
    round_trip(Term::BlankNode(BlankNode::new_from_unique_id(0xabc)));
}

#[test]
fn encoding_round_trips_plain_literals() {
    round_trip(Term::simple_literal("Bob"));
    round_trip(Term::simple_literal(""));
}

#[test]
fn encoding_round_trips_language_tagged_literals() {
    round_trip(Term::Literal(Literal::new_language_tagged_literal("chat", "fr")));
}

#[test]
fn encoding_round_trips_typed_literals() {
    round_trip(typed("2019-01-01", "http://www.w3.org/2001/XMLSchema#date"));
    round_trip(typed("42", XSD_INTEGER));
    round_trip(typed("-7", XSD_INTEGER));
    round_trip(typed("042", XSD_INTEGER));
    round_trip(typed("+1", XSD_INTEGER));
    round_trip(typed("true", XSD_BOOLEAN));
    round_trip(typed("false", XSD_BOOLEAN));
    round_trip(typed("1", XSD_BOOLEAN));
}

#[test]
fn canonical_integers_and_booleans_are_held_inline() {
    let mut view = DatasetView::new();
    assert_eq!(view.encode_term(&typed("42", XSD_INTEGER)), Ok(EncodedTerm::IntegerLiteral(42)));
    assert_eq!(
        view.encode_term(&typed("-9223372036854775808", XSD_INTEGER)),
        Ok(EncodedTerm::IntegerLiteral(i64::MIN))
    );
    assert_eq!(view.encode_term(&typed("true", XSD_BOOLEAN)), Ok(EncodedTerm::BooleanLiteral(true)));
    assert_eq!(
        view.encode_term(&typed("false", XSD_BOOLEAN)),
        Ok(EncodedTerm::BooleanLiteral(false))
    );
    assert_eq!(view.get_id("42"), None);
    assert_eq!(
        view.encode_term(&typed("042", XSD_INTEGER)),
        Ok(EncodedTerm::TypedLiteral { value_id: 0, datatype_id: 1 })
    );
    assert_eq!(view.get_str(0), Some("042"));
    assert_eq!(view.get_str(1), Some(XSD_INTEGER));
}

#[test]
fn identifiers_are_given_in_the_order_of_first_use() {
    let mut view = DatasetView::new();
    assert_eq!(
        view.encode_term(&Term::iri("http://example.com/a")),
        Ok(EncodedTerm::NamedNode { iri_id: 0 })
    );
    assert_eq!(
        view.encode_term(&Term::simple_literal("x")),
        Ok(EncodedTerm::StringLiteral { value_id: 1 })
    );
    assert_eq!(
        view.encode_term(&Term::Literal(Literal::new_language_tagged_literal("x", "en"))),
        Ok(EncodedTerm::LangStringLiteral { value_id: 1, language_id: 2 })
    );
    assert_eq!(
        view.encode_term(&Term::iri("http://example.com/a")),
        Ok(EncodedTerm::NamedNode { iri_id: 0 })
    );
    assert_eq!(view.insert_str("en"), 2);
    assert_eq!(view.insert_str("new"), 3);
}

#[test]
fn an_iri_that_is_not_well_formed_cannot_be_interned() {
    let mut view = DatasetView::new();
    assert_eq!(view.encode_term(&Term::iri("http://example.com/a b")), Err(EncodingFailure));
    assert_eq!(view.encode_term(&Term::iri("")), Err(EncodingFailure));
    assert_eq!(view.encode_term(&typed("x", "<bad>")), Err(EncodingFailure));
    assert_eq!(view.get_id("x"), None);
    assert_eq!(view.get_str(0), None);
    assert!(check_iri("foaf:name"));
    assert!(!check_iri("a{b"));
}

#[test]
fn decoding_an_unknown_identifier_gives_nothing() {
    let view = DatasetView::new();
    assert_eq!(view.decode_term(EncodedTerm::NamedNode { iri_id: 3 }), None);
    assert_eq!(view.decode_term(EncodedTerm::DefaultGraph), None);
    assert_eq!(view.decode_term(EncodedTerm::IntegerLiteral(-5)), Some(typed("-5", XSD_INTEGER)));
}

#[test]
fn inserting_a_quad_twice_keeps_one() {
    let mut view = DatasetView::new();
    let quad = Quad::new(
        Term::iri("http://example.com/s"),
        Term::iri("http://example.com/p"),
        Term::simple_literal("o"),
        Some(Term::iri("http://example.com/g")),
    );
    assert_eq!(view.insert(&quad), Ok(true));
    assert_eq!(view.insert(&quad), Ok(false));
    assert_eq!(view.len(), 1);
    let found = view.quads_for_pattern(None, None, None, None);
    assert_eq!(found.len(), 1);
    assert_eq!(view.decode_quad(&found[0]), Some(quad));
}

#[test]
fn inserting_a_quad_that_cannot_be_interned_changes_nothing() {
    let mut view = DatasetView::new();
    let quad = Quad::new(
        Term::iri("http://example.com/s"),
        Term::iri("not an iri"),
        Term::simple_literal("o"),
        None,
    );
    assert_eq!(view.insert(&quad), Err(EncodingFailure));
    assert_eq!(view.len(), 0);
    assert_eq!(view.get_id("http://example.com/s"), None);
}

#[test]
fn pattern_scans_fix_any_components() {
    let mut view = DatasetView::new();
    let s1 = Term::iri("http://example.com/s1");
    let s2 = Term::iri("http://example.com/s2");
    let p = Term::iri("http://example.com/p");
    let g = Term::iri("http://example.com/g");
    view.insert(&Quad::new(s1.clone(), p.clone(), Term::simple_literal("a"), None)).unwrap();
    view.insert(&Quad::new(s2.clone(), p.clone(), Term::simple_literal("b"), None)).unwrap();
    view.insert(&Quad::new(s1.clone(), p.clone(), Term::simple_literal("c"), Some(g.clone())))
        .unwrap();
    let e1 = view.encode_term(&s1).unwrap();
    let ep = view.encode_term(&p).unwrap();
    let eg = view.encode_term(&g).unwrap();
    assert_eq!(view.quads_for_pattern(None, None, None, None).len(), 3);
    assert_eq!(view.quads_for_pattern(Some(e1), None, None, None).len(), 2);
    assert_eq!(view.quads_for_pattern(Some(e1), Some(ep), None, Some(eg)).len(), 1);
    assert_eq!(
        view.quads_for_pattern(None, None, None, Some(EncodedTerm::DefaultGraph)).len(),
        2
    );
    assert_eq!(view.quads_for_pattern(Some(eg), None, None, None).len(), 0);
    let both = view.quads_for_pattern(Some(e1), None, None, None);
    assert_eq!(both[0].graph_name, EncodedTerm::DefaultGraph);
    assert_eq!(both[1].graph_name, eg);
}

#[test]
fn integer_text_is_canonical() {
    assert_eq!(integer_text(0), "0");
    assert_eq!(integer_text(-1), "-1");
    assert_eq!(integer_text(1234567890), "1234567890");
    assert_eq!(integer_text(i64::MAX), "9223372036854775807");
    assert_eq!(integer_text(i64::MIN), "-9223372036854775808");
}

#[test]
fn only_canonical_integers_are_read() {
    assert_eq!(parse_canonical_integer("0"), Some(0));
    assert_eq!(parse_canonical_integer("-12"), Some(-12));
    assert_eq!(parse_canonical_integer("9223372036854775807"), Some(i64::MAX));
    assert_eq!(parse_canonical_integer("-9223372036854775808"), Some(i64::MIN));
    assert_eq!(parse_canonical_integer("9223372036854775808"), None);
    assert_eq!(parse_canonical_integer("-9223372036854775809"), None);
    assert_eq!(parse_canonical_integer(""), None);
    assert_eq!(parse_canonical_integer("-"), None);
    assert_eq!(parse_canonical_integer("-0"), None);
    assert_eq!(parse_canonical_integer("+5"), None);
    assert_eq!(parse_canonical_integer("05"), None);
    assert_eq!(parse_canonical_integer("5a"), None);
    assert_eq!(parse_canonical_integer("12345678901234567890123"), None);
}

#[test]
fn terms_are_the_same_when_kind_and_texts_are() {
    let plain = Term::simple_literal("a");
    assert!(plain.same_term(&Term::simple_literal("a")));
    assert!(!plain.same_term(&Term::simple_literal("b")));
    assert!(!plain.same_term(&Term::iri("a")));
    assert!(!plain.same_term(&typed("a", "http://www.w3.org/2001/XMLSchema#string")));
    assert!(typed("1", XSD_INTEGER).same_term(&typed("1", XSD_INTEGER)));
    assert!(!typed("1", XSD_INTEGER).same_term(&typed("1", XSD_BOOLEAN)));
    let node = Term::BlankNode(BlankNode::new_from_unique_id(1));
    assert!(node.same_term(&Term::BlankNode(BlankNode::new_from_unique_id(1))));
    assert!(!node.same_term(&Term::BlankNode(BlankNode::new_from_unique_id(2))));
    let tagged = Term::Literal(Literal::new_language_tagged_literal("a", "en"));
    assert!(tagged.same_term(&Term::Literal(Literal::new_language_tagged_literal("a", "en"))));
    assert!(!tagged.same_term(&Term::Literal(Literal::new_language_tagged_literal("a", "fr"))));
}

#[test]
fn a_view_that_was_built_by_its_functions_holds_a_dataset() {
    let mut view = DatasetView::new();
    assert!(view.is_well_formed());
    let quad = Quad::new(
        Term::iri("http://example.com/s"),
        Term::iri("http://example.com/p"),
        typed("007", XSD_INTEGER),
        None,
    );
    view.insert(&quad).unwrap();
    view.insert_str("loose");
    assert!(view.is_well_formed());
    assert!(view.is_canonical_term(EncodedTerm::TypedLiteral { value_id: 2, datatype_id: 3 }));
    assert!(!view.is_canonical_term(EncodedTerm::NamedNode { iri_id: 9 }));
    view.insert_str("7");
    assert!(!view.is_canonical_term(EncodedTerm::TypedLiteral { value_id: 5, datatype_id: 3 }));
}
