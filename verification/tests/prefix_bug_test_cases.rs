use rudf::model::{Quad, Term};
use rudf::sparql::dataset::DatasetView;
use rudf::sparql::{NoneService, PreparedQuery, QueryResult, SimplePreparedQuery};

fn people() -> DatasetView {
    let mut connection = DatasetView::new();
    let quads = vec![
        Quad::new(
            Term::iri("http://example.com/bob"),
            Term::iri("http://xmlns.com/foaf/0.1/name"),
            Term::simple_literal("Bob"),
            None,
        ),
        Quad::new(
            Term::iri("http://example.com/alice"),
            Term::iri("http://xmlns.com/foaf/0.1/name"),
            Term::simple_literal("Alice"),
            None,
        ),
        Quad::new(
            Term::iri("http://example.com/bob"),
            Term::iri("http://xmlns.com/foaf/0.1/mbox"),
            Term::iri("mailto:bob@example.org"),
            None,
        ),
        Quad::new(
            Term::iri("http://example.com/alice"),
            Term::iri("http://xmlns.com/foaf/0.1/mbox"),
            Term::iri("mailto:alice@example.org"),
            None,
        ),
    ];
    for quad in &quads {
        connection.insert(quad).unwrap();
    }
    connection
}

fn solutions(query: &str) -> Vec<Vec<Option<Term>>> {
    let mut prepared = SimplePreparedQuery::new(people(), query, None, NoneService).unwrap();
    if let QueryResult::Bindings { rows, .. } = prepared.exec().unwrap() {
        rows
    } else {
        vec![]
    }
}

#[test]
fn prefix_bug_test() {
    let bug_query = r#"
    PREFIX foaf: <http://xmlns.com/foaf/0.1/>
    SELECT ?name ?mbox
    WHERE
      { 
        ?s <foaf:name> ?name .
        ?s <foaf:mbox> ?mbox .
      }
    "#;

    let query = r#"
    SELECT ?name ?mbox
    WHERE
      { 
        ?s <http://xmlns.com/foaf/0.1/name> ?name .
        ?s <http://xmlns.com/foaf/0.1/mbox> ?mbox .
      }
    "#;

    let query_set = solutions(query);
    let bug_set = solutions(bug_query);

    assert_eq!(
        query_set,
        vec![
            vec![Some(Term::simple_literal("Bob")), Some(Term::iri("mailto:bob@example.org"))],
            vec![
                Some(Term::simple_literal("Alice")),
                Some(Term::iri("mailto:alice@example.org"))
            ],
        ]
    );
    // Between angle brackets `foaf:name` is an IRI with the scheme `foaf`: a
    // declared prefix applies to the prefixed name `foaf:name` only. No quad
    // has that IRI as its predicate, so the query that writes it in angle
    // brackets has no solution, and the two queries do not give the same.
    assert_eq!(bug_set, Vec::<Vec<Option<Term>>>::new());
    assert_ne!(query_set, bug_set);
}

#[test]
fn a_prefixed_name_gives_what_the_full_iri_gives() {
    let prefixed = r#"
    PREFIX foaf: <http://xmlns.com/foaf/0.1/>
    SELECT ?name ?mbox WHERE { ?s foaf:name ?name ; foaf:mbox ?mbox }
    "#;
    let full = r#"
    SELECT ?name ?mbox
    WHERE { ?s <http://xmlns.com/foaf/0.1/name> ?name . ?s <http://xmlns.com/foaf/0.1/mbox> ?mbox }
    "#;
    assert_eq!(solutions(prefixed), solutions(full));
    assert_eq!(solutions(prefixed).len(), 2);
}
