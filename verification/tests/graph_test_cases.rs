use rudf::model::{Quad, Term};
use rudf::sparql::dataset::DatasetView;
use rudf::sparql::{NoneService, PreparedQuery, QueryResult, SimplePreparedQuery};

fn ex(id: String) -> Term {
    Term::iri(&format!("http://example.com/{}", &id))
}

fn foaf(id: String) -> Term {
    Term::iri(&format!("http://xmlns.com/foaf/0.1/{}", &id))
}

fn mailto(id: String) -> Term {
    Term::iri(&format!("mailto:{}", &id))
}

fn name(value: &str) -> Term {
    Term::simple_literal(value)
}

#[test]
fn simple_graph_test() {
    let mut connection = DatasetView::new();
    let service1 = Term::iri("http://service1.org");
    let service2 = Term::iri("http://service2.org");
    let quads = vec![
        Quad::new(ex(String::from("bob")), foaf(String::from("name")), name("Bob"), Some(service1.clone())),
        Quad::new(ex(String::from("alice")), foaf(String::from("name")), name("Alice"), Some(service1)),
        Quad::new(
            ex(String::from("bob")),
            foaf(String::from("mbox")),
            mailto(String::from("bob@example.org")),
            Some(service2.clone()),
        ),
        Quad::new(
            ex(String::from("alice")),
            foaf(String::from("mbox")),
            mailto(String::from("alice@example.org")),
            Some(service2),
        ),
    ];
    for quad in &quads {
        connection.insert(quad).unwrap();
    }

    let query = r#"
    PREFIX foaf: <http://xmlns.com/foaf/0.1/>
    SELECT ?name ?mbox
    WHERE
      { 
        GRAPH <http://service1.org>
        { ?s <foaf:name> ?name 
        }
        GRAPH <http://service2.org>
        { ?s <foaf:mbox> ?mbox 
        }
      }
    "#;

    let mut prepared_query = SimplePreparedQuery::new(connection, query, None, NoneService).unwrap();
    let results = prepared_query.exec().unwrap();
    if let QueryResult::Bindings { rows, .. } = results {
        let collected = rows;
        let _solution = vec![vec![
            Some(ex(String::from("s"))),
            Some(ex(String::from("p"))),
            Some(ex(String::from("o"))),
        ]];

        println!("Results: {:?}", collected);
    }
}

#[test]
fn named_graphs_are_read_through_prefixed_names() {
    let mut connection = DatasetView::new();
    let service1 = Term::iri("http://service1.org");
    let service2 = Term::iri("http://service2.org");
    connection
        .insert(&Quad::new(ex(String::from("bob")), foaf(String::from("name")), name("Bob"), Some(service1)))
        .unwrap();
    connection
        .insert(&Quad::new(
            ex(String::from("bob")),
            foaf(String::from("mbox")),
            mailto(String::from("bob@example.org")),
            Some(service2),
        ))
        .unwrap();
    let query = "PREFIX foaf: <http://xmlns.com/foaf/0.1/> SELECT ?name ?mbox WHERE { \
                 GRAPH <http://service1.org> { ?s foaf:name ?name } \
                 GRAPH <http://service2.org> { ?s foaf:mbox ?mbox } }";
    let mut prepared = SimplePreparedQuery::new(connection, query, None, NoneService).unwrap();
    match prepared.exec().unwrap() {
        QueryResult::Bindings { rows, .. } => {
            assert_eq!(rows, vec![vec![Some(name("Bob")), Some(mailto(String::from("bob@example.org")))]]);
        }
        other => panic!("{:?}", other),
    }
}
