use rudf::model::{NamedNode, Quad, Term};
use rudf::sparql::algebra::GraphPattern;
use rudf::sparql::algebra_view::copy_pattern;
use rudf::sparql::dataset::DatasetView;
use rudf::sparql::{
    Error, PreparedQuery, QueryResult, ServiceAnswer, ServiceHandler, SimplePreparedQuery,
};

#[derive(Clone, Copy)]
struct Test1Handler;

impl ServiceHandler for Test1Handler {
    fn handle(&self, _named_node: &NamedNode, graph_pattern: &GraphPattern) -> ServiceAnswer {
        handle_service1(graph_pattern)
    }
}

fn handle_service1(graph_pattern: &GraphPattern) -> ServiceAnswer {
    let mut connection = DatasetView::new();
    let node = Term::iri("http://example.com");
    connection.insert(&Quad::new(node.clone(), node.clone(), node, None)).unwrap();
    let mut prepared_query =
        SimplePreparedQuery::new_from_pattern(connection, copy_pattern(graph_pattern), Test1Handler)
            .unwrap();
    let result = prepared_query.exec().unwrap();
    match result {
        QueryResult::Bindings { variables, rows } => ServiceAnswer::Bindings { variables, rows },
        _ => ServiceAnswer::Failed,
    }
}

#[test]
fn service_test() -> Result<(), Error> {
    let connection = DatasetView::new();

    let query = r#"
  SELECT ?s ?p ?o
  WHERE
    { 
      SERVICE <http://service1.org>
      { ?s ?p ?o
      }

      SERVICE <http://service2.org>
      { ?s ?p ?o
      }
    }
  "#;
    let mut prepared_query = SimplePreparedQuery::new(connection, query, None, Test1Handler).unwrap();
    let results = prepared_query.exec().unwrap();
    if let QueryResult::Bindings { rows, .. } = results {
        let collected = rows;
        println!("Results: {:?}", collected);
    }
    Ok(())
}

#[test]
fn two_services_with_the_same_answer_join_to_that_answer() {
    let query = "SELECT ?s ?p ?o WHERE { SERVICE <http://service1.org> { ?s ?p ?o } \
                 SERVICE <http://service2.org> { ?s ?p ?o } }";
    let mut prepared =
        SimplePreparedQuery::new(DatasetView::new(), query, None, Test1Handler).unwrap();
    let node = Term::iri("http://example.com");
    match prepared.exec().unwrap() {
        QueryResult::Bindings { rows, .. } => {
            assert_eq!(rows, vec![vec![Some(node.clone()), Some(node.clone()), Some(node)]]);
        }
        other => panic!("{:?}", other),
    }
}
