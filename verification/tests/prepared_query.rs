use rudf::model::{Literal, NamedNode, Quad, Term, Variable};
use rudf::sparql::algebra::GraphPattern;
use rudf::sparql::algebra_view::copy_pattern;
use rudf::sparql::dataset::{DatasetView, EncodedTerm};
use rudf::sparql::plan::ServiceRequest;
use rudf::sparql::service::{ask_services, service_tuples};
use rudf::sparql::{
    Error, NoneService, PreparedQuery, QueryResult, ServiceAnswer, ServiceHandler,
    SimplePreparedQuery,
};

const PROLOGUE: &str = "PREFIX foaf: <http://xmlns.com/foaf/0.1/> PREFIX : <http://example.com/> ";

fn ex(name: &str) -> Term {
    Term::iri(&format!("http://example.com/{}", name))
}

fn foaf(name: &str) -> Term {
    Term::iri(&format!("http://xmlns.com/foaf/0.1/{}", name))
}

fn names() -> DatasetView {
    let mut view = DatasetView::new();
    view.insert(&Quad::new(ex("bob"), foaf("name"), Term::simple_literal("Bob"), None)).unwrap();
    view.insert(&Quad::new(ex("alice"), foaf("name"), Term::simple_literal("Alice"), None))
        .unwrap();
    view
}

fn friends() -> DatasetView {
    let mut view = names();
    view.insert(&Quad::new(ex("bob"), foaf("friend"), ex("alice"), None)).unwrap();
    view.insert(&Quad::new(ex("alice"), foaf("friend"), ex("carol"), Some(ex("g")))).unwrap();
    view.insert(&Quad::new(ex("alice"), foaf("friend"), ex("bob"), None)).unwrap();
    view
}

fn run(view: DatasetView, query: &str) -> Result<QueryResult, Error> {
    let text = format!("{}{}", PROLOGUE, query);
    SimplePreparedQuery::new(view, &text, None, NoneService)?.exec()
}

fn variables(listed: &[&str]) -> Vec<Variable> {
    listed.iter().map(|name| Variable::new(name)).collect()
}

#[test]
fn select_gives_one_row_for_each_solution() {
    let result = run(names(), "SELECT ?s ?n WHERE { ?s foaf:name ?n }").unwrap();
    assert_eq!(
        result,
        QueryResult::Bindings {
            variables: variables(&["s", "n"]),
            rows: vec![
                vec![Some(ex("bob")), Some(Term::simple_literal("Bob"))],
                vec![Some(ex("alice")), Some(Term::simple_literal("Alice"))],
            ],
        }
    );
}

#[test]
fn select_star_lets_out_every_variable() {
    let result = run(names(), "SELECT * { ?s ?p \"Bob\" }").unwrap();
    assert_eq!(
        result,
        QueryResult::Bindings {
            variables: variables(&["s", "p"]),
            rows: vec![vec![Some(ex("bob")), Some(foaf("name"))]],
        }
    );
}

#[test]
fn a_projected_variable_that_nothing_binds_is_unbound() {
    let result = run(names(), "SELECT ?n ?x { ?s foaf:name ?n } ORDER BY ?n LIMIT 1").unwrap();
    assert_eq!(
        result,
        QueryResult::Bindings {
            variables: variables(&["n", "x"]),
            rows: vec![vec![Some(Term::simple_literal("Alice")), None]],
        }
    );
}

#[test]
fn ask_tells_whether_there_is_a_solution() {
    assert_eq!(run(names(), "ASK { :bob foaf:name \"Bob\" }"), Ok(QueryResult::Boolean(true)));
    assert_eq!(run(names(), "ASK { :bob foaf:name \"Carol\" }"), Ok(QueryResult::Boolean(false)));
}

#[test]
fn construct_gives_one_quad_for_each_solution_and_template() {
    let result = run(friends(), "CONSTRUCT { ?s foaf:knows ?o } WHERE { ?s foaf:friend ?o }");
    assert_eq!(
        result,
        Ok(QueryResult::Graph(vec![
            Quad::new(ex("bob"), foaf("knows"), ex("alice"), None),
            Quad::new(ex("alice"), foaf("knows"), ex("bob"), None),
        ]))
    );
}

#[test]
fn construct_skips_a_template_with_an_unbound_variable() {
    let result =
        run(friends(), "CONSTRUCT { ?s foaf:knows ?x . ?o foaf:knows ?s } WHERE { ?s foaf:friend ?o }");
    assert_eq!(
        result,
        Ok(QueryResult::Graph(vec![
            Quad::new(ex("alice"), foaf("knows"), ex("bob"), None),
            Quad::new(ex("bob"), foaf("knows"), ex("alice"), None),
        ]))
    );
}

#[test]
fn construct_does_not_take_out_repeats() {
    let result = run(friends(), "CONSTRUCT { :x :y :z } WHERE { ?s foaf:name ?n }");
    let quad = Quad::new(ex("x"), ex("y"), ex("z"), None);
    assert_eq!(result, Ok(QueryResult::Graph(vec![quad.clone(), quad])));
}

#[test]
fn describe_gives_the_quads_of_each_subject_in_every_graph() {
    let result = run(friends(), "DESCRIBE ?s WHERE { ?s foaf:name \"Alice\" }");
    assert_eq!(
        result,
        Ok(QueryResult::Graph(vec![
            Quad::new(ex("alice"), foaf("name"), Term::simple_literal("Alice"), None),
            Quad::new(ex("alice"), foaf("friend"), ex("carol"), Some(ex("g"))),
            Quad::new(ex("alice"), foaf("friend"), ex("bob"), None),
        ]))
    );
}

#[test]
fn graph_reads_the_named_graph() {
    let result = run(friends(), "SELECT ?o ?g { GRAPH ?g { :alice foaf:friend ?o } }");
    assert_eq!(
        result,
        Ok(QueryResult::Bindings {
            variables: variables(&["o", "g"]),
            rows: vec![vec![Some(ex("carol")), Some(ex("g"))]],
        })
    );
    let fixed = run(friends(), "ASK { GRAPH :g { :alice foaf:friend :bob } }");
    assert_eq!(fixed, Ok(QueryResult::Boolean(false)));
}

#[test]
fn optional_filter_and_bind_work_together() {
    let result = run(
        friends(),
        "SELECT ?n ?o ?l { ?s foaf:name ?n OPTIONAL { ?s foaf:friend ?o } \
         BIND (STRLEN(?n) AS ?l) FILTER (?l > 3) }",
    );
    let five = Term::Literal(Literal::new_typed_literal(
        "5",
        NamedNode::new("http://www.w3.org/2001/XMLSchema#integer"),
    ));
    assert_eq!(
        result,
        Ok(QueryResult::Bindings {
            variables: variables(&["n", "o", "l"]),
            rows: vec![vec![Some(Term::simple_literal("Alice")), Some(ex("bob")), Some(five)]],
        })
    );
}

#[test]
fn a_text_that_is_no_query_is_malformed() {
    let prepared = SimplePreparedQuery::new(names(), "SELECT ?s WHERE", None, NoneService);
    assert_eq!(prepared.err(), Some(Error::MalformedQuery { position: 15 }));
}

#[test]
fn a_query_with_a_function_that_the_planner_refuses_is_not_prepared() {
    let found = run(names(), "SELECT ?s { ?s foaf:name ?n FILTER regex(?n, \"B\") }");
    assert_eq!(found, Err(Error::UnsupportedFeature));
}

#[test]
fn a_query_with_a_constant_that_cannot_be_interned_is_not_prepared() {
    let prepared = SimplePreparedQuery::new(
        names(),
        "PREFIX bad: <http://example.com/a|> ASK { ?s bad:b ?o }",
        None,
        NoneService,
    );
    assert!(prepared.is_err());
}

#[test]
fn a_declined_service_that_is_not_silent_is_unavailable() {
    let found = run(names(), "SELECT ?s { SERVICE <http://service1.org> { ?s ?p ?o } }");
    assert_eq!(found, Err(Error::ServiceUnavailable));
}

#[test]
fn a_declined_service_that_is_silent_leaves_the_rest_unconstrained() {
    let alone = run(names(), "SELECT ?s { SERVICE SILENT <http://service1.org> { ?s ?p ?o } }");
    assert_eq!(
        alone,
        Ok(QueryResult::Bindings { variables: variables(&["s"]), rows: vec![vec![None]] })
    );
    let joined = run(
        names(),
        "SELECT ?s ?n { ?s foaf:name ?n SERVICE SILENT <http://service1.org> { ?s ?p ?o } }",
    );
    assert_eq!(joined, run(names(), "SELECT ?s ?n { ?s foaf:name ?n }"));
}

struct Remote {
    calls_fail: bool,
}

impl ServiceHandler for Remote {
    fn handle(&self, endpoint: &NamedNode, pattern: &GraphPattern) -> ServiceAnswer {
        if endpoint.as_str() != "http://remote.org/sparql" {
            return ServiceAnswer::Declined;
        }
        if self.calls_fail {
            return ServiceAnswer::Failed;
        }
        let mut view = DatasetView::new();
        view.insert(&Quad::new(ex("bob"), foaf("mbox"), Term::iri("mailto:bob@example.org"), None))
            .unwrap();
        view.insert(&Quad::new(ex("zed"), foaf("mbox"), Term::iri("mailto:zed@example.org"), None))
            .unwrap();
        let mut prepared =
            SimplePreparedQuery::new_from_pattern(view, copy_pattern(pattern), NoneService).unwrap();
        match prepared.exec() {
            Ok(QueryResult::Bindings { variables, rows }) => ServiceAnswer::Bindings { variables, rows },
            _ => ServiceAnswer::Failed,
        }
    }
}

#[test]
fn an_answered_service_is_joined_with_the_rest() {
    let text = format!(
        "{}SELECT ?n ?m {{ ?s foaf:name ?n SERVICE <http://remote.org/sparql> {{ ?s foaf:mbox ?m }} }}",
        PROLOGUE
    );
    let mut prepared =
        SimplePreparedQuery::new(names(), &text, None, Remote { calls_fail: false }).unwrap();
    let expected = || QueryResult::Bindings {
        variables: variables(&["n", "m"]),
        rows: vec![vec![
            Some(Term::simple_literal("Bob")),
            Some(Term::iri("mailto:bob@example.org")),
        ]],
    };
    assert_eq!(prepared.exec(), Ok(expected()));
    assert_eq!(prepared.exec(), Ok(expected()));
}

#[test]
fn a_failed_service_is_unavailable_unless_silent() {
    let query = |silent: &str| {
        format!(
            "{}SELECT ?n {{ ?s foaf:name ?n SERVICE {}<http://remote.org/sparql> {{ ?s foaf:mbox ?m }} }}",
            PROLOGUE, silent
        )
    };
    let mut loud =
        SimplePreparedQuery::new(names(), &query(""), None, Remote { calls_fail: true }).unwrap();
    assert_eq!(loud.exec(), Err(Error::ServiceUnavailable));
    let mut silent =
        SimplePreparedQuery::new(names(), &query("SILENT "), None, Remote { calls_fail: true })
            .unwrap();
    assert_eq!(
        silent.exec(),
        Ok(QueryResult::Bindings {
            variables: variables(&["n"]),
            rows: vec![vec![Some(Term::simple_literal("Bob"))], vec![Some(Term::simple_literal("Alice"))]],
        })
    );
}

fn request(listed: &[(&str, usize)]) -> ServiceRequest {
    ServiceRequest {
        endpoint: NamedNode::new("urn:e"),
        pattern: GraphPattern::Bgp(vec![]),
        silent: false,
        variables: listed.iter().map(|(name, slot)| (Variable::new(name), *slot)).collect(),
    }
}

#[test]
fn an_answer_becomes_rows_over_the_slots_of_the_plan() {
    let mut view = DatasetView::new();
    let answer = ServiceAnswer::Bindings {
        variables: variables(&["b", "unknown", "a", "b"]),
        rows: vec![
            vec![Some(ex("x")), Some(ex("u")), None, Some(ex("second"))],
            vec![None, None, Some(Term::simple_literal("t")), Some(ex("x"))],
            vec![],
        ],
    };
    let found = service_tuples(&mut view, &answer, &request(&[("a", 0), ("b", 2), ("c", 1)]), 3);
    let x = EncodedTerm::NamedNode { iri_id: 0 };
    assert_eq!(
        found,
        Some(vec![
            vec![None, None, Some(x)],
            vec![Some(EncodedTerm::StringLiteral { value_id: 1 }), None, Some(x)],
            vec![None, None, None],
        ])
    );
    assert_eq!(view.get_str(0), Some("http://example.com/x"));
    assert_eq!(view.get_str(2), None);
}

#[test]
fn an_answer_that_cannot_be_interned_or_was_not_given_becomes_none() {
    let mut view = DatasetView::new();
    let table = request(&[("a", 0)]);
    assert_eq!(service_tuples(&mut view, &ServiceAnswer::Declined, &table, 1), None);
    assert_eq!(service_tuples(&mut view, &ServiceAnswer::Failed, &table, 1), None);
    let bad = ServiceAnswer::Bindings {
        variables: variables(&["a"]),
        rows: vec![vec![Some(ex("fine"))], vec![Some(Term::iri("not fine"))]],
    };
    assert_eq!(service_tuples(&mut view, &bad, &table, 1), None);
    assert_eq!(view.get_str(0), None);
    let unused = ServiceAnswer::Bindings {
        variables: variables(&["other"]),
        rows: vec![vec![Some(Term::iri("not fine"))]],
    };
    assert_eq!(service_tuples(&mut view, &unused, &table, 1), Some(vec![vec![None]]));
}

#[test]
fn the_handler_is_asked_once_for_each_federated_pattern() {
    let mut view = DatasetView::new();
    let mut remote = request(&[("s", 0), ("m", 1)]);
    remote.endpoint = NamedNode::new("http://remote.org/sparql");
    remote.pattern = GraphPattern::Bgp(vec![]);
    let services = vec![request(&[]), remote];
    let answers = ask_services(&Remote { calls_fail: false }, &services, &mut view, 2);
    assert_eq!(answers, vec![None, Some(vec![vec![None, None]])]);
    let none = ask_services(&NoneService, &services, &mut view, 2);
    assert_eq!(none, vec![None, None]);
}

#[test]
fn aggregates_are_read_from_the_query_text() {
    let result = run(
        friends(),
        "SELECT ?s (COUNT(*) AS ?n) (MAX(?o) AS ?last) { ?s foaf:friend ?o } GROUP BY ?s ORDER BY DESC(?n)",
    );
    let count = |n: &str| {
        Some(Term::Literal(Literal::new_typed_literal(
            n,
            NamedNode::new("http://www.w3.org/2001/XMLSchema#integer"),
        )))
    };
    assert_eq!(
        result,
        Ok(QueryResult::Bindings {
            variables: variables(&["s", "n", "last"]),
            rows: vec![
                vec![Some(ex("bob")), count("1"), Some(ex("alice"))],
                vec![Some(ex("alice")), count("1"), Some(ex("bob"))],
            ],
        })
    );
}

fn ages(listed: &[(&str, &str)]) -> DatasetView {
    let mut view = names();
    for (who, age) in listed {
        view.insert(&Quad::new(
            ex(who),
            foaf("age"),
            Term::Literal(Literal::new_typed_literal(
                *age,
                NamedNode::new("http://www.w3.org/2001/XMLSchema#integer"),
            )),
            None,
        ))
        .unwrap();
    }
    view
}

fn mean(value: &str) -> Option<Term> {
    Some(Term::Literal(Literal::new_typed_literal(
        value,
        NamedNode::new("http://www.w3.org/2001/XMLSchema#decimal"),
    )))
}

#[test]
fn an_average_is_the_mean_of_the_integers_as_a_decimal_number() {
    let query = "SELECT (AVG(?a) AS ?m) { ?s foaf:age ?a }";
    let three = ages(&[("bob", "42"), ("alice", "7"), ("carol", "-3")]);
    assert_eq!(one_column(run(three, query)), vec![mean("15.33333333333333333333")]);
    let two = ages(&[("bob", "42"), ("alice", "7")]);
    assert_eq!(one_column(run(two, query)), vec![mean("24.5")]);
    let one = ages(&[("bob", "42")]);
    assert_eq!(one_column(run(one, query)), vec![mean("42.0")]);
    let strings = run(names(), "SELECT (AVG(?n) AS ?m) { ?s foaf:name ?n }");
    assert_eq!(
        one_column(strings),
        vec![Some(Term::Literal(Literal::new_typed_literal(
            "0",
            NamedNode::new("http://www.w3.org/2001/XMLSchema#integer"),
        )))]
    );
}

#[test]
fn an_average_is_taken_of_each_group() {
    let mut view = ages(&[("bob", "1"), ("bob", "2"), ("alice", "10")]);
    view.insert(&Quad::new(ex("alice"), foaf("age"), Term::simple_literal("old"), None)).unwrap();
    let result = run(view, "SELECT ?s (AVG(?a) AS ?m) WHERE { ?s foaf:age ?a } GROUP BY ?s");
    assert_eq!(
        result,
        Ok(QueryResult::Bindings {
            variables: variables(&["s", "m"]),
            rows: vec![vec![Some(ex("bob")), mean("1.5")], vec![Some(ex("alice")), mean("10.0")]],
        })
    );
}

#[test]
fn group_concat_joins_the_texts_of_a_group() {
    let joined = run(names(), "SELECT (GROUP_CONCAT(?n) AS ?a) { ?s foaf:name ?n }");
    assert_eq!(
        joined,
        Ok(QueryResult::Bindings {
            variables: variables(&["a"]),
            rows: vec![vec![Some(Term::simple_literal("Bob Alice"))]],
        })
    );
    let named = run(
        names(),
        "SELECT (GROUP_CONCAT(?n; SEPARATOR=\", \") AS ?a) { ?s foaf:name ?n }",
    );
    assert_eq!(
        named,
        Ok(QueryResult::Bindings {
            variables: variables(&["a"]),
            rows: vec![vec![Some(Term::simple_literal("Bob, Alice"))]],
        })
    );
}

#[test]
fn group_concat_joins_each_group_by_itself() {
    let result = run(
        friends(),
        "SELECT ?s (GROUP_CONCAT(DISTINCT ?f; separator='|') AS ?a) \
         WHERE { { ?s foaf:friend ?f } UNION { ?s foaf:friend ?f } } GROUP BY ?s",
    );
    assert_eq!(
        result,
        Ok(QueryResult::Bindings {
            variables: variables(&["s", "a"]),
            rows: vec![
                vec![Some(ex("bob")), Some(Term::simple_literal("http://example.com/alice"))],
                vec![
                    Some(ex("alice")),
                    Some(Term::simple_literal("http://example.com/bob")),
                ],
            ],
        })
    );
}

#[test]
fn group_concat_of_a_blank_node_is_an_error() {
    let mut view = names();
    view.insert(&Quad::new(
        ex("bob"),
        foaf("knows"),
        Term::BlankNode(rudf::model::BlankNode::default()),
        None,
    ))
    .unwrap();
    let result = run(view, "SELECT (GROUP_CONCAT(?o) AS ?a) { ?s foaf:knows ?o }");
    assert_eq!(
        result,
        Ok(QueryResult::Bindings { variables: variables(&["a"]), rows: vec![vec![None]] })
    );
}


#[test]
fn describe_of_a_fixed_iri_gives_its_quads() {
    let result = run(friends(), "DESCRIBE :bob");
    assert_eq!(
        result,
        Ok(QueryResult::Graph(vec![
            Quad::new(ex("bob"), foaf("name"), Term::simple_literal("Bob"), None),
            Quad::new(ex("bob"), foaf("friend"), ex("alice"), None),
        ]))
    );
}

#[test]
fn ask_reads_a_string_in_single_quotes() {
    let bob = "ASK { <http://example.com/bob> <http://xmlns.com/foaf/0.1/name> 'Bob' }";
    let carol = "ASK { <http://example.com/bob> <http://xmlns.com/foaf/0.1/name> 'Carol' }";
    assert_eq!(
        SimplePreparedQuery::new(names(), bob, None, NoneService).unwrap().exec(),
        Ok(QueryResult::Boolean(true))
    );
    assert_eq!(
        SimplePreparedQuery::new(names(), carol, None, NoneService).unwrap().exec(),
        Ok(QueryResult::Boolean(false))
    );
}

#[test]
fn relative_references_are_resolved_against_the_base_of_the_caller() {
    let relative = "SELECT ?n WHERE { <bob> <../foaf/0.1/name> ?n }";
    let mut view = DatasetView::new();
    view.insert(&Quad::new(
        Term::iri("http://example.com/people/bob"),
        Term::iri("http://example.com/foaf/0.1/name"),
        Term::simple_literal("Bob"),
        None,
    ))
    .unwrap();
    let result = SimplePreparedQuery::new(
        view,
        relative,
        Some("http://example.com/people/index"),
        NoneService,
    )
    .unwrap()
    .exec();
    assert_eq!(
        result,
        Ok(QueryResult::Bindings {
            variables: variables(&["n"]),
            rows: vec![vec![Some(Term::simple_literal("Bob"))]],
        })
    );
}

#[test]
fn a_prepared_query_gives_its_dataset_view_back() {
    let mut query =
        SimplePreparedQuery::new(names(), "ASK { ?s ?p 'new text' }", None, NoneService).unwrap();
    assert_eq!(query.exec(), Ok(QueryResult::Boolean(false)));
    let mut view = query.into_dataset();
    assert_eq!(view.len(), 2);
    assert!(view.get_id("new text").is_some());
    let again = SimplePreparedQuery::new(view, "ASK { ?s ?p 'Bob' }", None, NoneService)
        .unwrap()
        .exec();
    assert_eq!(again, Ok(QueryResult::Boolean(true)));
}

#[test]
fn a_query_can_be_copied() {
    let query = rudf::sparql::Query::parse("SELECT ?s { ?s ?p 'x' FILTER(?s != ?p) }", None).unwrap();
    assert_eq!(query.clone(), query);
}

#[test]
fn a_blank_node_label_joins_like_a_variable_and_is_not_let_out() {
    let result = run(
        friends(),
        "SELECT * WHERE { ?who foaf:friend _:other . _:other foaf:name ?name }",
    );
    assert_eq!(
        result,
        Ok(QueryResult::Bindings {
            variables: variables(&["who", "name"]),
            rows: vec![
                vec![Some(ex("bob")), Some(Term::simple_literal("Alice"))],
                vec![Some(ex("alice")), Some(Term::simple_literal("Bob"))],
            ],
        })
    );
    let asked = run(friends(), "ASK { _:a foaf:friend _:b . _:b foaf:friend _:a }");
    assert_eq!(asked, Ok(QueryResult::Boolean(true)));
}

fn pairs() -> DatasetView {
    let mut view = DatasetView::new();
    view.insert(&Quad::new(ex("b1"), ex("b2"), ex("b3"), None)).unwrap();
    view.insert(&Quad::new(ex("b1"), ex("b2"), ex("b4"), None)).unwrap();
    view
}

#[test]
fn distinct_is_keyed_by_the_output_row() {
    let result = run(pairs(), "SELECT DISTINCT * { ?s ?p _:x }");
    assert_eq!(
        result,
        Ok(QueryResult::Bindings {
            variables: variables(&["s", "p"]),
            rows: vec![vec![Some(ex("b1")), Some(ex("b2"))]],
        })
    );
    let all = run(pairs(), "SELECT * { ?s ?p _:x }");
    assert_eq!(
        all,
        Ok(QueryResult::Bindings {
            variables: variables(&["s", "p"]),
            rows: vec![
                vec![Some(ex("b1")), Some(ex("b2"))],
                vec![Some(ex("b1")), Some(ex("b2"))],
            ],
        })
    );
}

#[test]
fn a_bare_pattern_lets_out_every_variable() {
    let pattern = rudf::sparql::Query::parse("SELECT * { ?s ?p ?x }", None).unwrap();
    let rudf::sparql::algebra::QueryVariants::Select { algebra, .. } = pattern.0 else {
        panic!("a SELECT");
    };
    let distinct = GraphPattern::Distinct(Box::new(algebra));
    let result =
        SimplePreparedQuery::new_from_pattern(pairs(), distinct, NoneService).unwrap().exec();
    assert_eq!(
        result,
        Ok(QueryResult::Bindings {
            variables: variables(&["s", "p", "x"]),
            rows: vec![
                vec![Some(ex("b1")), Some(ex("b2")), Some(ex("b3"))],
                vec![Some(ex("b1")), Some(ex("b2")), Some(ex("b4"))],
            ],
        })
    );
}

fn texts() -> DatasetView {
    let mut view = names();
    view.insert(&Quad::new(
        ex("bob"),
        foaf("nick"),
        Term::Literal(Literal::new_language_tagged_literal("Bobby", "en")),
        None,
    ))
    .unwrap();
    view.insert(&Quad::new(
        ex("bob"),
        foaf("age"),
        Term::Literal(Literal::new_typed_literal(
            "42",
            NamedNode::new("http://www.w3.org/2001/XMLSchema#integer"),
        )),
        None,
    ))
    .unwrap();
    view
}

fn one_column(result: Result<QueryResult, Error>) -> Vec<Option<Term>> {
    match result {
        Ok(QueryResult::Bindings { rows, .. }) => rows.into_iter().map(|row| row[0].clone()).collect(),
        other => panic!("{:?}", other),
    }
}

fn tagged(value: &str, language: &str) -> Option<Term> {
    Some(Term::Literal(Literal::new_language_tagged_literal(value, language)))
}

fn plain(value: &str) -> Option<Term> {
    Some(Term::simple_literal(value))
}

#[test]
fn functions_build_texts_that_the_store_did_not_hold() {
    let select = |expression: &str| {
        one_column(run(
            texts(),
            &format!("SELECT ({} AS ?x) WHERE {{ :bob foaf:name ?n ; foaf:nick ?k ; foaf:age ?a }}", expression),
        ))
    };
    assert_eq!(select("CONCAT(?n, \" the \", ?n)"), vec![plain("Bob the Bob")]);
    assert_eq!(select("CONCAT(?k, ?k)"), vec![tagged("BobbyBobby", "en")]);
    assert_eq!(select("CONCAT(?k, ?n)"), vec![plain("BobbyBob")]);
    assert_eq!(select("CONCAT()"), vec![plain("")]);
    assert_eq!(select("UCASE(?n)"), vec![plain("BOB")]);
    assert_eq!(select("LCASE(?k)"), vec![tagged("bobby", "en")]);
    assert_eq!(select("STR(?a)"), vec![plain("42")]);
    assert_eq!(select("STR(:bob)"), vec![plain("http://example.com/bob")]);
    assert_eq!(select("STR(?k)"), vec![plain("Bobby")]);
    assert_eq!(select("STR(?a + 1)"), vec![plain("43")]);
    assert_eq!(select("LANG(?k)"), vec![plain("en")]);
    assert_eq!(select("LANG(?n)"), vec![plain("")]);
    assert_eq!(
        select("DATATYPE(?a)"),
        vec![Some(Term::iri("http://www.w3.org/2001/XMLSchema#integer"))]
    );
    assert_eq!(
        select("DATATYPE(?n)"),
        vec![Some(Term::iri("http://www.w3.org/2001/XMLSchema#string"))]
    );
    assert_eq!(
        select("DATATYPE(?k)"),
        vec![Some(Term::iri("http://www.w3.org/1999/02/22-rdf-syntax-ns#langString"))]
    );
    assert_eq!(select("SUBSTR(?k, 2)"), vec![tagged("obby", "en")]);
    assert_eq!(select("SUBSTR(?k, 2, 3)"), vec![tagged("obb", "en")]);
    assert_eq!(select("SUBSTR(?n, 0, 2)"), vec![plain("B")]);
    assert_eq!(select("SUBSTR(?n, 3, 10)"), vec![plain("b")]);
    assert_eq!(select("SUBSTR(?n, 7)"), vec![plain("")]);
    assert_eq!(select("UCASE(SUBSTR(CONCAT(?n, ?k), 3, 4))"), vec![plain("BBOB")]);
    assert_eq!(select("STRLEN(CONCAT(?n, ?k))"), vec![Some(Term::Literal(Literal::new_typed_literal(
        "8",
        NamedNode::new("http://www.w3.org/2001/XMLSchema#integer"),
    )))]);
}

#[test]
fn a_function_on_a_value_of_the_wrong_kind_is_an_error() {
    let select = |expression: &str| {
        one_column(run(
            texts(),
            &format!("SELECT ({} AS ?x) WHERE {{ :bob foaf:name ?n ; foaf:age ?a }}", expression),
        ))
    };
    assert_eq!(select("UCASE(?a)"), vec![None]);
    assert_eq!(select("CONCAT(?n, ?a)"), vec![None]);
    assert_eq!(select("SUBSTR(?n, ?n)"), vec![None]);
    assert_eq!(select("LANG(:bob)"), vec![None]);
    assert_eq!(select("DATATYPE(:bob)"), vec![None]);
    assert_eq!(select("STR(?unbound)"), vec![None]);
    assert_eq!(select("UCASE(?n, ?n)"), vec![None]);
    assert_eq!(select("COALESCE(UCASE(?a), LCASE(?n))"), vec![plain("bob")]);
}

#[test]
fn a_filter_reads_the_texts_that_functions_build() {
    let result = run(
        texts(),
        "SELECT ?s WHERE { ?s foaf:name ?n FILTER(CONTAINS(LCASE(?n), \"lic\") || STR(?s) = \"nothing\") }",
    );
    assert_eq!(one_column(result), vec![Some(ex("alice"))]);
    let asked = run(texts(), "ASK { ?s foaf:name ?n FILTER(UCASE(?n) = \"BOB\") }");
    assert_eq!(asked, Ok(QueryResult::Boolean(true)));
    let none = run(texts(), "ASK { ?s foaf:name ?n FILTER(UCASE(?n) = \"bob\") }");
    assert_eq!(none, Ok(QueryResult::Boolean(false)));
}

#[test]
fn a_text_that_a_bind_builds_joins_with_what_follows_in_the_modifiers() {
    let result = run(
        texts(),
        "SELECT DISTINCT ?u WHERE { ?s foaf:name ?n BIND(UCASE(SUBSTR(?n, 1, 1)) AS ?u) } ORDER BY ?u",
    );
    assert_eq!(one_column(result), vec![plain("A"), plain("B")]);
    let built = run(
        texts(),
        "CONSTRUCT { ?s foaf:label ?l } WHERE { ?s foaf:name ?n BIND(CONCAT(\"Mx \", ?n) AS ?l) }",
    );
    assert_eq!(
        built,
        Ok(QueryResult::Graph(vec![
            Quad::new(ex("bob"), foaf("label"), Term::simple_literal("Mx Bob"), None),
            Quad::new(ex("alice"), foaf("label"), Term::simple_literal("Mx Alice"), None),
        ]))
    );
}

#[test]
fn the_store_grows_by_the_texts_that_evaluation_builds() {
    let mut query = SimplePreparedQuery::new(
        texts(),
        &format!("{}SELECT (CONCAT(?n, \"!\") AS ?x) WHERE {{ ?s foaf:name ?n }}", PROLOGUE),
        None,
        NoneService,
    )
    .unwrap();
    assert_eq!(one_column(query.exec()), vec![plain("Bob!"), plain("Alice!")]);
    assert_eq!(one_column(query.exec()), vec![plain("Bob!"), plain("Alice!")]);
    let view = query.into_dataset();
    assert!(view.is_well_formed());
    assert!(view.find_str("Bob!").is_some());
    assert!(view.find_str("Alice!").is_some());
    assert_eq!(view.find_str("Carol!"), None);
}

#[test]
fn the_pattern_of_an_exists_builds_texts() {
    let exists = run(
        texts(),
        "SELECT ?n WHERE { ?s foaf:name ?n FILTER EXISTS { ?s foaf:age ?a FILTER(STR(?a) = \"42\") } }",
    );
    assert_eq!(one_column(exists), vec![plain("Bob")]);
    let none = run(
        texts(),
        "SELECT ?n WHERE { ?s foaf:name ?n FILTER EXISTS { ?s foaf:age ?a FILTER(STR(?a) = \"43\") } }",
    );
    assert_eq!(one_column(none), Vec::<Option<Term>>::new());
    let not = run(
        texts(),
        "SELECT ?n WHERE { ?s foaf:name ?n FILTER NOT EXISTS { ?s foaf:age ?a FILTER(CONCAT(STR(?a), \"!\") = \"42!\") } }",
    );
    assert_eq!(one_column(not), vec![plain("Alice")]);
}

#[test]
fn the_right_side_of_a_join_builds_texts() {
    let inside = run(
        texts(),
        "SELECT ?u WHERE { { ?s foaf:age ?a } { ?s foaf:name ?n BIND(UCASE(?n) AS ?u) } }",
    );
    assert_eq!(one_column(inside), vec![plain("BOB")]);
    let optional = run(
        texts(),
        "SELECT ?n ?a WHERE { ?s foaf:name ?n OPTIONAL { ?s foaf:age ?a FILTER(STR(?a) = \"42\") } }",
    );
    assert_eq!(
        optional,
        Ok(QueryResult::Bindings {
            variables: variables(&["n", "a"]),
            rows: vec![
                vec![
                    plain("Bob"),
                    Some(Term::Literal(Literal::new_typed_literal(
                        "42",
                        NamedNode::new("http://www.w3.org/2001/XMLSchema#integer"),
                    ))),
                ],
                vec![plain("Alice"), None],
            ],
        })
    );
    let none = run(
        texts(),
        "SELECT ?n ?a WHERE { ?s foaf:name ?n OPTIONAL { ?s foaf:age ?a FILTER(STR(?a) = \"43\") } }",
    );
    assert_eq!(
        none,
        Ok(QueryResult::Bindings {
            variables: variables(&["n", "a"]),
            rows: vec![vec![plain("Bob"), None], vec![plain("Alice"), None]],
        })
    );
}

#[test]
fn a_key_of_order_by_builds_a_text() {
    let view = with_carol("aaron");
    let plain_order = run(
        with_carol("aaron"),
        "SELECT ?n WHERE { ?s foaf:name ?n } ORDER BY ASC(?n)",
    );
    assert_eq!(one_column(plain_order), vec![plain("Alice"), plain("Bob"), plain("aaron")]);
    let folded = run(view, "SELECT ?n WHERE { ?s foaf:name ?n } ORDER BY DESC(LCASE(?n))");
    assert_eq!(one_column(folded), vec![plain("Bob"), plain("Alice"), plain("aaron")]);
}

#[test]
fn the_argument_of_an_aggregate_builds_a_text() {
    let view = with_carol("BOB");
    let counted = run(
        with_carol("BOB"),
        "SELECT (COUNT(DISTINCT UCASE(?n)) AS ?c) { ?s foaf:name ?n }",
    );
    assert_eq!(
        one_column(counted),
        vec![Some(Term::Literal(Literal::new_typed_literal(
            "2",
            NamedNode::new("http://www.w3.org/2001/XMLSchema#integer"),
        )))]
    );
    let joined = run(
        view,
        "SELECT (GROUP_CONCAT(CONCAT(\"<\", LCASE(?n), \">\"); SEPARATOR=\"\") AS ?c) { ?s foaf:name ?n }",
    );
    assert_eq!(one_column(joined), vec![plain("<bob><alice><bob>")]);
}

fn with_carol(name: &str) -> DatasetView {
    let mut view = names();
    view.insert(&Quad::new(ex("carol"), foaf("name"), Term::simple_literal(name), None)).unwrap();
    view
}

fn decimal(value: &str) -> Option<Term> {
    Some(Term::Literal(Literal::new_typed_literal(
        value,
        NamedNode::new("http://www.w3.org/2001/XMLSchema#decimal"),
    )))
}

#[test]
fn division_gives_a_decimal_number() {
    let select = |expression: &str| {
        one_column(run(
            texts(),
            &format!("SELECT ({} AS ?x) WHERE {{ :bob foaf:age ?a }}", expression),
        ))
    };
    assert_eq!(select("?a / 2"), vec![decimal("21.0")]);
    assert_eq!(select("?a / 5"), vec![decimal("8.4")]);
    assert_eq!(select("?a / 8"), vec![decimal("5.25")]);
    assert_eq!(select("1 / 3"), vec![decimal("0.33333333333333333333")]);
    assert_eq!(select("(0 - 1) / 4"), vec![decimal("-0.25")]);
    assert_eq!(select("?a / (0 - 4)"), vec![decimal("-10.5")]);
    assert_eq!(select("0 / 7"), vec![decimal("0.0")]);
    assert_eq!(select("?a / 0"), vec![None]);
    assert_eq!(select("?a / \"2\""), vec![None]);
}

#[test]
fn a_filter_compares_what_a_division_gives() {
    let same = run(texts(), "SELECT ?s WHERE { ?s foaf:age ?a FILTER(?a / 4 = 21 / 2) }");
    assert_eq!(one_column(same), vec![Some(ex("bob"))]);
    let other = run(texts(), "SELECT ?s WHERE { ?s foaf:age ?a FILTER(?a / 4 = 21 / 4) }");
    assert_eq!(one_column(other), Vec::<Option<Term>>::new());
}

fn born(when: &str) -> DatasetView {
    let mut view = names();
    view.insert(&Quad::new(
        ex("bob"),
        foaf("born"),
        Term::Literal(Literal::new_typed_literal(
            when,
            NamedNode::new("http://www.w3.org/2001/XMLSchema#dateTime"),
        )),
        None,
    ))
    .unwrap();
    view
}

#[test]
fn seconds_gives_a_decimal_number() {
    let query = "SELECT (SECONDS(?d) AS ?x) WHERE { ?s foaf:born ?d }";
    assert_eq!(one_column(run(born("2011-01-10T14:45:13.815-05:00"), query)), vec![decimal("13.815")]);
    assert_eq!(one_column(run(born("2011-01-10T14:45:05Z"), query)), vec![decimal("5.0")]);
    assert_eq!(one_column(run(born("2011-01-10T14:45:00"), query)), vec![decimal("0.0")]);
    assert_eq!(one_column(run(born("2011-01-10T14:45:59.Z"), query)), vec![decimal("59.0")]);
    assert_eq!(one_column(run(born("2011-01-10"), query)), vec![None]);
    let of_a_name = run(names(), "SELECT (SECONDS(?n) AS ?x) WHERE { ?s foaf:name ?n }");
    assert_eq!(one_column(of_a_name), vec![None, None]);
}

#[test]
fn a_bind_in_the_middle_of_a_group_builds_a_text() {
    let result = run(
        texts(),
        "SELECT ?u ?a WHERE { ?s foaf:name ?n BIND(UCASE(?n) AS ?u) ?s foaf:age ?a }",
    );
    assert_eq!(
        result,
        Ok(QueryResult::Bindings {
            variables: variables(&["u", "a"]),
            rows: vec![vec![
                plain("BOB"),
                Some(Term::Literal(Literal::new_typed_literal(
                    "42",
                    NamedNode::new("http://www.w3.org/2001/XMLSchema#integer"),
                ))),
            ]],
        })
    );
    let first = run(
        texts(),
        "SELECT ?u WHERE { { ?s foaf:name ?n BIND(LCASE(?n) AS ?u) } { ?s foaf:age ?a } }",
    );
    assert_eq!(one_column(first), vec![plain("bob")]);
}

#[test]
fn the_branches_of_a_union_build_texts() {
    let result = run(
        names(),
        "SELECT ?u WHERE { { ?s foaf:name ?n BIND(UCASE(?n) AS ?u) } UNION { ?s foaf:name ?n BIND(LCASE(?n) AS ?u) } }",
    );
    assert_eq!(
        one_column(result),
        vec![plain("BOB"), plain("ALICE"), plain("bob"), plain("alice")]
    );
}

#[test]
fn the_sides_of_a_minus_build_texts() {
    let result = run(
        names(),
        "SELECT ?n WHERE { { ?s foaf:name ?n BIND(UCASE(?n) AS ?u) } MINUS { ?t foaf:name ?m FILTER(?m = \"Bob\") BIND(UCASE(?m) AS ?u) } }",
    );
    assert_eq!(one_column(result), vec![plain("Alice")]);
}

#[test]
fn a_filter_with_a_call_stands_before_an_optional_part() {
    let result = run(
        texts(),
        "SELECT ?n ?k WHERE { ?s foaf:name ?n FILTER(STR(?s) = \"http://example.com/bob\") OPTIONAL { ?s foaf:nick ?k } }",
    );
    assert_eq!(
        result,
        Ok(QueryResult::Bindings {
            variables: variables(&["n", "k"]),
            rows: vec![vec![plain("Bob"), tagged("Bobby", "en")]],
        })
    );
}

#[test]
fn functions_and_aggregates_work_together() {
    let result = run(
        friends(),
        "SELECT ?s (COUNT(?f) AS ?c) (GROUP_CONCAT(UCASE(STR(?f)); SEPARATOR=\",\") AS ?g) (AVG(?a) AS ?m) \
         WHERE { ?s foaf:friend ?f OPTIONAL { ?s foaf:age ?a FILTER(STR(?a) != \"\") } } \
         GROUP BY ?s ORDER BY DESC(LCASE(STR(?s)))",
    );
    let number = |value: &str| {
        Some(Term::Literal(Literal::new_typed_literal(
            value,
            NamedNode::new("http://www.w3.org/2001/XMLSchema#integer"),
        )))
    };
    assert_eq!(
        result,
        Ok(QueryResult::Bindings {
            variables: variables(&["s", "c", "g", "m"]),
            rows: vec![
                vec![Some(ex("bob")), number("1"), plain("HTTP://EXAMPLE.COM/ALICE"), number("0")],
                vec![Some(ex("alice")), number("1"), plain("HTTP://EXAMPLE.COM/BOB"), number("0")],
            ],
        })
    );
}
