use rudf::sparql::iri::{mark, resolve_against};
use rudf::sparql::Query;

const BASE: &str = "http://a/b/c/d;p?q";

fn resolved(reference: &str) -> String {
    resolve_against(BASE, reference)
}

#[test]
fn a_reference_with_a_scheme_stands_for_itself() {
    assert_eq!(resolved("g:h"), "g:h");
    assert_eq!(resolved("http://x/y/../z"), "http://x/z");
    assert_eq!(resolved("mailto:bob@example.org"), "mailto:bob@example.org");
}

#[test]
fn a_relative_path_is_taken_from_the_directory_of_the_base() {
    assert_eq!(resolved("g"), "http://a/b/c/g");
    assert_eq!(resolved("./g"), "http://a/b/c/g");
    assert_eq!(resolved("g/"), "http://a/b/c/g/");
    assert_eq!(resolved(";x"), "http://a/b/c/;x");
    assert_eq!(resolved("g;x"), "http://a/b/c/g;x");
    assert_eq!(resolve_against("http://e/dir/file", "x"), "http://e/dir/x");
    assert_eq!(resolve_against("http://e", "x"), "http://e/x");
    assert_eq!(resolve_against("http://base.org/", "a"), "http://base.org/a");
}

#[test]
fn a_path_from_the_root_and_an_authority_replace_those_of_the_base() {
    assert_eq!(resolved("/g"), "http://a/g");
    assert_eq!(resolved("//g"), "http://g");
    assert_eq!(resolved("//g/h?i#j"), "http://g/h?i#j");
}

#[test]
fn a_query_and_a_fragment_are_those_of_the_reference() {
    assert_eq!(resolved("?y"), "http://a/b/c/d;p?y");
    assert_eq!(resolved("g?y"), "http://a/b/c/g?y");
    assert_eq!(resolved("#s"), "http://a/b/c/d;p?q#s");
    assert_eq!(resolved("g#s"), "http://a/b/c/g#s");
    assert_eq!(resolved("g?y#s"), "http://a/b/c/g?y#s");
    assert_eq!(resolved(""), "http://a/b/c/d;p?q");
    assert_eq!(resolved("g?y/./x"), "http://a/b/c/g?y/./x");
    assert_eq!(resolved("g#s/../x"), "http://a/b/c/g#s/../x");
}

#[test]
fn dot_segments_are_taken_out() {
    assert_eq!(resolved("."), "http://a/b/c/");
    assert_eq!(resolved("./"), "http://a/b/c/");
    assert_eq!(resolved(".."), "http://a/b/");
    assert_eq!(resolved("../"), "http://a/b/");
    assert_eq!(resolved("../g"), "http://a/b/g");
    assert_eq!(resolved("../.."), "http://a/");
    assert_eq!(resolved("../../"), "http://a/");
    assert_eq!(resolved("../../g"), "http://a/g");
    assert_eq!(resolved("../../../g"), "http://a/g");
    assert_eq!(resolved("../../../../g"), "http://a/g");
    assert_eq!(resolved("/./g"), "http://a/g");
    assert_eq!(resolved("/../g"), "http://a/g");
    assert_eq!(resolved("./../g"), "http://a/b/g");
    assert_eq!(resolved("./g/."), "http://a/b/c/g/");
    assert_eq!(resolved("g/./h"), "http://a/b/c/g/h");
    assert_eq!(resolved("g/../h"), "http://a/b/c/h");
    assert_eq!(resolved("g;x=1/./y"), "http://a/b/c/g;x=1/y");
    assert_eq!(resolved("g;x=1/../y"), "http://a/b/c/y");
}

#[test]
fn a_segment_that_only_holds_dots_among_other_characters_stays() {
    assert_eq!(resolved("g."), "http://a/b/c/g.");
    assert_eq!(resolved(".g"), "http://a/b/c/.g");
    assert_eq!(resolved("g.."), "http://a/b/c/g..");
    assert_eq!(resolved("..g"), "http://a/b/c/..g");
}

#[test]
fn the_components_of_a_reference_are_marked() {
    let chars: Vec<char> = "http://a/b?c#d".chars().collect();
    let marks = mark(&chars);
    assert_eq!(marks.scheme, Some(4));
    assert!(marks.authority);
    assert_eq!((marks.path, marks.path_end), (8, 10));
    assert!(marks.query);
    assert_eq!(marks.query_end, 12);
    let chars: Vec<char> = "1a:b".chars().collect();
    assert_eq!(mark(&chars).scheme, None);
    let chars: Vec<char> = "a/b:c".chars().collect();
    assert_eq!(mark(&chars).scheme, None);
}

#[test]
fn a_query_with_relative_references_is_the_query_with_the_resolved_ones() {
    let relative = Query::parse("ASK { <x> <../y> <#z> }", Some("http://e/dir/file")).unwrap();
    let absolute =
        Query::parse("ASK { <http://e/dir/x> <http://e/y> <http://e/dir/file#z> }", None).unwrap();
    let (rudf::sparql::algebra::QueryVariants::Ask { algebra: a, .. }, rudf::sparql::algebra::QueryVariants::Ask { algebra: b, .. }) =
        (relative.0, absolute.0)
    else {
        panic!("both are ASK queries");
    };
    assert_eq!(a, b);
}

#[test]
fn a_base_declaration_is_resolved_against_the_base_before_it() {
    let declared = Query::parse("BASE <sub/> ASK { <x> <y> <z> }", Some("http://e/dir/file")).unwrap();
    let absolute = Query::parse(
        "ASK { <http://e/dir/sub/x> <http://e/dir/sub/y> <http://e/dir/sub/z> }",
        None,
    )
    .unwrap();
    let (rudf::sparql::algebra::QueryVariants::Ask { algebra: a, .. }, rudf::sparql::algebra::QueryVariants::Ask { algebra: b, .. }) =
        (declared.0, absolute.0)
    else {
        panic!("both are ASK queries");
    };
    assert_eq!(a, b);
}
