use rudf::model::{Literal, NamedNode, Term, Variable};
use rudf::sparql::algebra::{
    AggregateFunction, Aggregation, BinaryOperator, Expression, Function, GraphPattern,
    OrderComparator, QueryVariants, TermOrVariable, TriplePattern, UnaryOperator,
};
use rudf::sparql::lexer::{tokenize, Token, TokenKind};
use rudf::sparql::{Error, Query};

fn v(name: &str) -> TermOrVariable {
    TermOrVariable::Variable(Variable::new(name))
}

fn iri(text: &str) -> TermOrVariable {
    TermOrVariable::Term(Term::iri(text))
}

fn text(value: &str) -> TermOrVariable {
    TermOrVariable::Term(Term::simple_literal(value))
}

fn triple(s: TermOrVariable, p: TermOrVariable, o: TermOrVariable) -> TriplePattern {
    TriplePattern::new(s, p, o)
}

fn spo() -> GraphPattern {
    GraphPattern::Bgp(vec![triple(v("s"), v("p"), v("o"))])
}

fn algebra(query: &str) -> GraphPattern {
    match Query::parse(query, None) {
        Ok(Query(QueryVariants::Select { algebra, .. })) => algebra,
        Ok(Query(QueryVariants::Ask { algebra, .. })) => algebra,
        Ok(Query(QueryVariants::Construct { algebra, .. })) => algebra,
        Ok(Query(QueryVariants::Describe { algebra, .. })) => algebra,
        Err(error) => panic!("{:?}", error),
    }
}

fn variable(name: &str) -> Box<Expression> {
    Box::new(Expression::Variable(Variable::new(name)))
}

fn number(n: &str) -> Box<Expression> {
    Box::new(Expression::Constant(Term::Literal(Literal::new_typed_literal(
        n,
        NamedNode::new("http://www.w3.org/2001/XMLSchema#integer"),
    ))))
}

fn filter_of(query: &str) -> Expression {
    match algebra(query) {
        GraphPattern::Filter(expression, _) => expression,
        other => panic!("{:?}", other),
    }
}

#[test]
fn tokens_of_a_text() {
    let chars: Vec<char> = "?x <a:b> p:q \"hi\"@en 12 <= a".chars().collect();
    let tokens = tokenize(&chars).unwrap();
    let kinds: Vec<TokenKind> = tokens.iter().map(|t| t.kind).collect();
    assert_eq!(
        kinds,
        vec![
            TokenKind::Variable,
            TokenKind::Iri,
            TokenKind::Prefixed,
            TokenKind::Text,
            TokenKind::LangTag,
            TokenKind::Integer,
            TokenKind::LessOrEqual,
            TokenKind::Word,
        ]
    );
    assert_eq!(tokens[0], Token { kind: TokenKind::Variable, start: 1, middle: 1, end: 2 });
    assert_eq!(tokens[1], Token { kind: TokenKind::Iri, start: 4, middle: 4, end: 7 });
    assert_eq!(tokens[2], Token { kind: TokenKind::Prefixed, start: 9, middle: 10, end: 12 });
    assert_eq!(tokens[3], Token { kind: TokenKind::Text, start: 14, middle: 14, end: 16 });
}

#[test]
fn a_less_than_sign_before_a_space_is_an_operator() {
    let chars: Vec<char> = "?a < ?b".chars().collect();
    let tokens = tokenize(&chars).unwrap();
    assert_eq!(tokens[1].kind, TokenKind::Less);
    assert_eq!(tokens.len(), 3);
}

#[test]
fn a_character_that_starts_no_token_fails_at_its_place() {
    let chars: Vec<char> = "?x  %".chars().collect();
    assert_eq!(tokenize(&chars), Err(4));
    let open: Vec<char> = "\"abc".chars().collect();
    assert_eq!(tokenize(&open), Err(0));
    let lone: Vec<char> = "a & b".chars().collect();
    assert_eq!(tokenize(&lone), Err(2));
}

#[test]
fn select_with_a_basic_graph_pattern() {
    let parsed = Query::parse("SELECT ?s ?o WHERE { ?s ?p ?o }", None).unwrap();
    assert_eq!(
        parsed,
        Query(QueryVariants::Select {
            algebra: GraphPattern::Project(
                Box::new(spo()),
                vec![Variable::new("s"), Variable::new("o")]
            ),
            base_iri: None,
        })
    );
}

#[test]
fn select_star_has_no_projection() {
    assert_eq!(algebra("select * { ?s ?p ?o . }"), spo());
}

#[test]
fn prefixes_and_base_resolve_names() {
    let query = "BASE <http://example.com/> PREFIX foaf: <http://xmlns.com/foaf/0.1/> \
                 PREFIX : <people/> ASK { :bob foaf:name \"Bob\" . <x> a <urn:t> }";
    let parsed = Query::parse(query, Some("http://ignored.org/")).unwrap();
    assert_eq!(
        parsed,
        Query(QueryVariants::Ask {
            algebra: GraphPattern::Bgp(vec![
                triple(
                    iri("http://example.com/people/bob"),
                    iri("http://xmlns.com/foaf/0.1/name"),
                    text("Bob")
                ),
                triple(
                    iri("http://example.com/x"),
                    iri("http://www.w3.org/1999/02/22-rdf-syntax-ns#type"),
                    iri("urn:t")
                ),
            ]),
            base_iri: Some(String::from("http://example.com/")),
        })
    );
}

#[test]
fn the_base_given_by_the_caller_resolves_relative_references() {
    let parsed = Query::parse("ASK { <a> <b> <c:d> }", Some("http://base.org/")).unwrap();
    assert_eq!(
        parsed,
        Query(QueryVariants::Ask {
            algebra: GraphPattern::Bgp(vec![triple(
                iri("http://base.org/a"),
                iri("http://base.org/b"),
                iri("c:d")
            )]),
            base_iri: Some(String::from("http://base.org/")),
        })
    );
}

#[test]
fn literals_of_each_kind() {
    let found = algebra("ASK { ?s ?p \"chat\"@fr . ?s ?p \"1\"^^<urn:t> . ?s ?p 42 . ?s ?p true }");
    let object = |term: Term| triple(v("s"), v("p"), TermOrVariable::Term(term));
    assert_eq!(
        found,
        GraphPattern::Bgp(vec![
            object(Term::Literal(Literal::new_language_tagged_literal("chat", "fr"))),
            object(Term::Literal(Literal::new_typed_literal("1", NamedNode::new("urn:t")))),
            object(Term::Literal(Literal::new_typed_literal(
                "42",
                NamedNode::new("http://www.w3.org/2001/XMLSchema#integer")
            ))),
            object(Term::Literal(Literal::new_typed_literal(
                "true",
                NamedNode::new("http://www.w3.org/2001/XMLSchema#boolean")
            ))),
        ])
    );
}

#[test]
fn group_elements_are_joined_in_order() {
    let found = algebra(
        "ASK { ?s ?p ?o OPTIONAL { ?o ?q ?r } GRAPH ?g { ?s ?p ?o } MINUS { ?s ?p ?o } \
         { ?s ?p ?o } UNION { ?s ?p ?o } UNION { ?s ?p ?o } }",
    );
    let optional = GraphPattern::LeftJoin(
        Box::new(spo()),
        Box::new(GraphPattern::Bgp(vec![triple(v("o"), v("q"), v("r"))])),
        None,
    );
    let graph =
        GraphPattern::Join(Box::new(optional), Box::new(GraphPattern::Graph(v("g"), Box::new(spo()))));
    let minus = GraphPattern::Minus(Box::new(graph), Box::new(spo()));
    let union = GraphPattern::Union(
        Box::new(GraphPattern::Union(Box::new(spo()), Box::new(spo()))),
        Box::new(spo()),
    );
    assert_eq!(found, GraphPattern::Join(Box::new(minus), Box::new(union)));
}

#[test]
fn an_empty_group_is_the_empty_basic_graph_pattern() {
    assert_eq!(algebra("ASK {}"), GraphPattern::Bgp(vec![]));
    assert_eq!(
        algebra("ASK { OPTIONAL { ?s ?p ?o } }"),
        GraphPattern::LeftJoin(Box::new(GraphPattern::Bgp(vec![])), Box::new(spo()), None)
    );
}

#[test]
fn service_with_and_without_silent() {
    assert_eq!(
        algebra("ASK { SERVICE <http://service1.org> { ?s ?p ?o } }"),
        GraphPattern::Service(NamedNode::new("http://service1.org"), Box::new(spo()), false)
    );
    assert_eq!(
        algebra("ASK { ?s ?p ?o SERVICE SILENT <http://service1.org> { ?s ?p ?o } }"),
        GraphPattern::Join(
            Box::new(spo()),
            Box::new(GraphPattern::Service(
                NamedNode::new("http://service1.org"),
                Box::new(spo()),
                true
            ))
        )
    );
}

#[test]
fn filters_apply_to_the_whole_group_and_bind_extends_what_stands_before_it() {
    let found = algebra("ASK { FILTER (?o > 1) ?s ?p ?o BIND (?o + 1 AS ?n) FILTER bound(?n) }");
    let extended = GraphPattern::Extend(
        Box::new(spo()),
        Variable::new("n"),
        Expression::Binary(BinaryOperator::Add, variable("o"), number("1")),
    );
    let first = GraphPattern::Filter(
        Expression::Binary(BinaryOperator::Greater, variable("o"), number("1")),
        Box::new(extended),
    );
    assert_eq!(
        found,
        GraphPattern::Filter(Expression::Bound(Variable::new("n")), Box::new(first))
    );
}

#[test]
fn operators_bind_by_their_precedence() {
    let found = filter_of("ASK { FILTER (?a || ?b && ?c = 1 + 2 * 3 - 4) }");
    let product = Expression::Binary(BinaryOperator::Multiply, number("2"), number("3"));
    let sum = Expression::Binary(BinaryOperator::Add, number("1"), Box::new(product));
    let difference = Expression::Binary(BinaryOperator::Subtract, Box::new(sum), number("4"));
    let equal = Expression::Binary(BinaryOperator::Equal, variable("c"), Box::new(difference));
    let and = Expression::Binary(BinaryOperator::And, variable("b"), Box::new(equal));
    assert_eq!(found, Expression::Binary(BinaryOperator::Or, variable("a"), Box::new(and)));
}

#[test]
fn signs_and_brackets() {
    let found = filter_of("ASK { FILTER (!(-?a <= +?b)) }");
    let less = Expression::Binary(
        BinaryOperator::LessOrEqual,
        Box::new(Expression::Unary(UnaryOperator::Minus, variable("a"))),
        Box::new(Expression::Unary(UnaryOperator::Plus, variable("b"))),
    );
    assert_eq!(found, Expression::Unary(UnaryOperator::Not, Box::new(less)));
}

#[test]
fn built_in_functions() {
    assert_eq!(
        filter_of("ASK { FILTER if(?a, ?b, ?c) }"),
        Expression::If(variable("a"), variable("b"), variable("c"))
    );
    assert_eq!(
        filter_of("ASK { FILTER COALESCE(?a, 1) }"),
        Expression::Coalesce(vec![*variable("a"), *number("1")])
    );
    assert_eq!(
        filter_of("ASK { FILTER sameTerm(?a, ?b) }"),
        Expression::Binary(BinaryOperator::SameTerm, variable("a"), variable("b"))
    );
    assert_eq!(
        filter_of("ASK { FILTER isIRI(?a) }"),
        Expression::Unary(UnaryOperator::IsIri, variable("a"))
    );
    assert_eq!(
        filter_of("ASK { FILTER isURI(?a) }"),
        Expression::Unary(UnaryOperator::IsIri, variable("a"))
    );
    assert_eq!(
        filter_of("ASK { FILTER (STRLEN(?a) > 2) }"),
        Expression::Binary(
            BinaryOperator::Greater,
            Box::new(Expression::Unary(UnaryOperator::StrLen, variable("a"))),
            number("2")
        )
    );
    assert_eq!(
        filter_of("ASK { FILTER strstarts(?a, \"x\") }"),
        Expression::Binary(
            BinaryOperator::StrStarts,
            variable("a"),
            Box::new(Expression::Constant(Term::simple_literal("x")))
        )
    );
    assert_eq!(
        filter_of("ASK { FILTER regex(?a, \"x\") }"),
        Expression::FunctionCall(
            Function::Regex,
            vec![*variable("a"), Expression::Constant(Term::simple_literal("x"))]
        )
    );
    assert_eq!(
        filter_of("ASK { FILTER (?a / 2) }"),
        Expression::FunctionCall(Function::Divide, vec![*variable("a"), *number("2")])
    );
    assert_eq!(filter_of("ASK { FILTER NOW() }"), Expression::FunctionCall(Function::Now, vec![]));
    assert_eq!(
        filter_of("ASK { FILTER (year(?a) = abs(?b)) }"),
        Expression::Binary(
            BinaryOperator::Equal,
            Box::new(Expression::Unary(UnaryOperator::Year, variable("a"))),
            Box::new(Expression::Unary(UnaryOperator::Abs, variable("b")))
        )
    );
    assert_eq!(
        filter_of("ASK { FILTER seconds(?a) }"),
        Expression::FunctionCall(Function::Seconds, vec![*variable("a")])
    );
}

#[test]
fn exists_and_not_exists() {
    assert_eq!(
        filter_of("ASK { FILTER EXISTS { ?s ?p ?o } }"),
        Expression::Exists(Box::new(spo()))
    );
    assert_eq!(
        filter_of("ASK { FILTER NOT EXISTS { ?s ?p ?o } }"),
        Expression::Unary(UnaryOperator::Not, Box::new(Expression::Exists(Box::new(spo()))))
    );
}

#[test]
fn solution_modifiers_wrap_in_their_order() {
    let found = algebra("SELECT DISTINCT ?s { ?s ?p ?o } ORDER BY DESC(?o) ?s OFFSET 2 LIMIT 5");
    let ordered = GraphPattern::OrderBy(
        Box::new(spo()),
        vec![
            OrderComparator { expression: Expression::Variable(Variable::new("o")), descending: true },
            OrderComparator { expression: Expression::Variable(Variable::new("s")), descending: false },
        ],
    );
    let projected = GraphPattern::Project(Box::new(ordered), vec![Variable::new("s")]);
    let distinct = GraphPattern::Distinct(Box::new(projected));
    assert_eq!(found, GraphPattern::Slice(Box::new(distinct), 2, Some(5)));
    assert_eq!(
        algebra("SELECT REDUCED * { ?s ?p ?o } LIMIT 1"),
        GraphPattern::Slice(Box::new(GraphPattern::Reduced(Box::new(spo()))), 0, Some(1))
    );
    assert_eq!(
        algebra("SELECT * { ?s ?p ?o } OFFSET 3"),
        GraphPattern::Slice(Box::new(spo()), 3, None)
    );
}

#[test]
fn construct_and_describe() {
    let parsed = Query::parse("CONSTRUCT { ?s <urn:knows> ?o } WHERE { ?s ?p ?o }", None).unwrap();
    assert_eq!(
        parsed,
        Query(QueryVariants::Construct {
            construct: vec![triple(v("s"), iri("urn:knows"), v("o"))],
            algebra: spo(),
            base_iri: None,
        })
    );
    let described = Query::parse("DESCRIBE ?s WHERE { ?s ?p ?o }", None).unwrap();
    assert_eq!(
        described,
        Query(QueryVariants::Describe {
            algebra: GraphPattern::Project(Box::new(spo()), vec![Variable::new("s")]),
            base_iri: None,
        })
    );
}

fn position(query: &str) -> usize {
    match Query::parse(query, None) {
        Err(Error::MalformedQuery { position }) => position,
        other => panic!("{:?}", other),
    }
}

#[test]
fn what_is_no_query_fails_at_the_place_where_reading_stopped() {
    assert_eq!(position(""), 0);
    assert_eq!(position("SELECT"), 6);
    assert_eq!(position("SELECT WHERE { ?s ?p ?o }"), 7);
    assert_eq!(position("SELECT ?s { ?s ?p }"), 18);
    assert_eq!(position("SELECT ?s { ?s ?p ?o"), 20);
    assert_eq!(position("SELECT ?s { ?s ?p ?o } extra"), 23);
    assert_eq!(position("ASK { ?s x:p ?o }"), 9);
    assert_eq!(position("ASK { FILTER unknown(?a) }"), 13);
    assert_eq!(position("ASK { FILTER if(?a) }"), 13);
    assert_eq!(position("ASK { ?s ?p ?o } LIMIT 1"), 17);
    assert_eq!(position("SELECT * { ?s ?p ?o } LIMIT 1 LIMIT 2"), 30);
    assert_eq!(position("SELECT * { ?s ?p ?o } LIMIT x"), 28);
    assert_eq!(position("SELECT * { ?s ?p ?o } ORDER ?s"), 29);
    assert_eq!(position("SELECT * { ?s ?p \"a\\qb\" }"), 17);
    assert_eq!(position("SELECT * { ?s ?p \"a\\\" }"), 17);
    assert_eq!(position("PREFIX foaf <urn:x> ASK {}"), 7);
    assert_eq!(position("DESCRIBE { ?s ?p ?o }"), 9);
}

#[test]
fn select_expressions_and_aggregates_wrap_the_group() {
    let found = algebra(
        "SELECT ?p (COUNT(*) AS ?c) (sum(DISTINCT ?o) AS ?t) (?c + 1 AS ?d) \
         { ?s ?p ?o } GROUP BY ?p ORDER BY ?c",
    );
    let aggregation = |function, argument: Option<&str>, distinct| Aggregation {
        function,
        argument: argument.map(|name| Expression::Variable(Variable::new(name))),
        distinct,
        separator: None,
    };
    let grouped = GraphPattern::Group(
        Box::new(spo()),
        vec![Variable::new("p")],
        vec![
            (aggregation(AggregateFunction::Count, None, false), Variable::new("c")),
            (aggregation(AggregateFunction::Sum, Some("o"), true), Variable::new("t")),
        ],
    );
    let extended = GraphPattern::Extend(
        Box::new(grouped),
        Variable::new("d"),
        Expression::Binary(BinaryOperator::Add, variable("c"), number("1")),
    );
    let ordered = GraphPattern::OrderBy(
        Box::new(extended),
        vec![OrderComparator { expression: Expression::Variable(Variable::new("c")), descending: false }],
    );
    assert_eq!(
        found,
        GraphPattern::Project(
            Box::new(ordered),
            vec![Variable::new("p"), Variable::new("c"), Variable::new("t"), Variable::new("d")]
        )
    );
}

#[test]
fn group_by_without_aggregates_and_aggregates_without_group_by() {
    assert_eq!(
        algebra("SELECT * { ?s ?p ?o } GROUP BY ?s ?p"),
        GraphPattern::Group(
            Box::new(spo()),
            vec![Variable::new("s"), Variable::new("p")],
            vec![]
        )
    );
    let counted = algebra("SELECT (Count(DISTINCT *) AS ?n) { ?s ?p ?o }");
    assert_eq!(
        counted,
        GraphPattern::Project(
            Box::new(GraphPattern::Group(
                Box::new(spo()),
                vec![],
                vec![(
                    Aggregation {
                        function: AggregateFunction::Count,
                        argument: None,
                        distinct: true,
                        separator: None
                    },
                    Variable::new("n")
                )]
            )),
            vec![Variable::new("n")]
        )
    );
}

#[test]
fn malformed_selections_fail_where_reading_stopped() {
    assert_eq!(position("SELECT (COUNT(*) ?c) { ?s ?p ?o }"), 18);
    assert_eq!(position("SELECT (COUNT(* ?x) AS ?c) { ?s ?p ?o }"), 17);
    assert_eq!(position("SELECT (?a + AS ?c) { ?s ?p ?o }"), 13);
    assert_eq!(position("SELECT ?s { ?s ?p ?o } GROUP ?s"), 30);
    assert_eq!(position("SELECT ?s { ?s ?p ?o } GROUP BY"), 31);
}

#[test]
fn describe_takes_variables_and_iris() {
    let parsed = Query::parse("PREFIX : <urn:x:> DESCRIBE ?s :bob { ?s ?p ?o }", None).unwrap();
    let bound = GraphPattern::Extend(
        Box::new(spo()),
        Variable::new("<urn:x:bob>"),
        Expression::Constant(Term::iri("urn:x:bob")),
    );
    assert_eq!(
        parsed,
        Query(QueryVariants::Describe {
            algebra: GraphPattern::Project(
                Box::new(bound),
                vec![Variable::new("s"), Variable::new("<urn:x:bob>")]
            ),
            base_iri: None,
        })
    );
    let alone = Query::parse("DESCRIBE <urn:a>", None).unwrap();
    assert_eq!(
        alone,
        Query(QueryVariants::Describe {
            algebra: GraphPattern::Project(
                Box::new(GraphPattern::Extend(
                    Box::new(GraphPattern::Bgp(vec![])),
                    Variable::new("<urn:a>"),
                    Expression::Constant(Term::iri("urn:a")),
                )),
                vec![Variable::new("<urn:a>")]
            ),
            base_iri: None,
        })
    );
}

#[test]
fn a_string_stands_in_double_or_in_single_quotes() {
    assert_eq!(
        algebra("SELECT * { ?s ?p 'Bob' . ?s ?p 'it is \"so\"'@en . ?s ?p \"it's\" }"),
        GraphPattern::Bgp(vec![
            triple(v("s"), v("p"), text("Bob")),
            triple(
                v("s"),
                v("p"),
                TermOrVariable::Term(Term::Literal(Literal::new_language_tagged_literal(
                    "it is \"so\"",
                    "en"
                ))),
            ),
            triple(v("s"), v("p"), text("it's")),
        ])
    );
    assert_eq!(
        Query::parse("ASK { ?s ?p 'open }", None),
        Err(Error::MalformedQuery { position: 12 })
    );
}

#[test]
fn a_comment_runs_to_the_end_of_its_line() {
    assert_eq!(
        algebra("# the people\nSELECT * # all of them\n{ ?s ?p <http://e/x#y> } # done"),
        GraphPattern::Bgp(vec![triple(v("s"), v("p"), iri("http://e/x#y"))])
    );
    assert_eq!(algebra("SELECT * { ?s ?p ?o }#"), spo());
}

#[test]
fn a_subject_takes_lists_of_predicates_and_objects() {
    assert_eq!(
        algebra("SELECT * { ?s ?p ?a , ?b ; ?q ?c ; . ?t ?p ?a ; ?q ?b, ?c }"),
        GraphPattern::Bgp(vec![
            triple(v("s"), v("p"), v("a")),
            triple(v("s"), v("p"), v("b")),
            triple(v("s"), v("q"), v("c")),
            triple(v("t"), v("p"), v("a")),
            triple(v("t"), v("q"), v("b")),
            triple(v("t"), v("q"), v("c")),
        ])
    );
    assert_eq!(
        Query::parse("ASK { ?s ?p ?a , }", None),
        Err(Error::MalformedQuery { position: 17 })
    );
    assert_eq!(
        Query::parse("ASK { ?s ?p ?a ; ?q }", None),
        Err(Error::MalformedQuery { position: 20 })
    );
}

#[test]
fn a_number_with_a_point_is_a_decimal() {
    let typed = |value: &str, datatype: &str| {
        TermOrVariable::Term(Term::Literal(Literal::new_typed_literal(
            value,
            NamedNode::new(datatype),
        )))
    };
    assert_eq!(
        algebra("SELECT * { ?s ?p 1.50 . ?s ?p 7. ?s ?p 30 }"),
        GraphPattern::Bgp(vec![
            triple(v("s"), v("p"), typed("1.50", "http://www.w3.org/2001/XMLSchema#decimal")),
            triple(v("s"), v("p"), typed("7", "http://www.w3.org/2001/XMLSchema#integer")),
            triple(v("s"), v("p"), typed("30", "http://www.w3.org/2001/XMLSchema#integer")),
        ])
    );
}

#[test]
fn a_backslash_in_a_string_escapes_the_character_after_it() {
    assert_eq!(
        algebra("SELECT * { ?s ?p \"a\\tb\\nc\\\\d\\\"e\" . ?s ?p 'it\\'s' . ?s ?p '\\r\\b\\f' }"),
        GraphPattern::Bgp(vec![
            triple(v("s"), v("p"), text("a\tb\nc\\d\"e")),
            triple(v("s"), v("p"), text("it's")),
            triple(v("s"), v("p"), text("\r\u{8}\u{c}")),
        ])
    );
}

#[test]
fn a_blank_node_label_stands_for_a_variable_of_its_own() {
    assert_eq!(
        algebra("SELECT * { _:who ?p ?o . ?s ?p _:who . ?s ?p <_:who> }"),
        GraphPattern::Project(
            Box::new(GraphPattern::Bgp(vec![
                triple(v("_:who"), v("p"), v("o")),
                triple(v("s"), v("p"), v("_:who")),
                triple(v("s"), v("p"), iri("_:who")),
            ])),
            vec![Variable::new("p"), Variable::new("o"), Variable::new("s")],
        )
    );
    assert_eq!(
        Query::parse("ASK { _: ?p ?o }", None),
        Err(Error::MalformedQuery { position: 6 })
    );
    assert_eq!(
        Query::parse("CONSTRUCT { _:b ?p ?o } WHERE { ?s ?p ?o }", None),
        Err(Error::MalformedQuery { position: 10 })
    );
    assert_eq!(
        Query::parse("ASK { ?s ?p ?o FILTER(_:b = ?o) }", None),
        Err(Error::MalformedQuery { position: 22 })
    );
}

#[test]
fn a_query_has_a_text() {
    let text = |query: &str| Query::parse(query, None).unwrap().to_string();
    let first = [
        "SELECT Project({ ?s <http://e/p> \"o\"@en .",
        " ?s <http://e/p> \"7\"^^<http://www.w3.org/2001/XMLSchema#integer> . }, ( ?s ))",
    ]
    .concat();
    assert_eq!(text("SELECT ?s { ?s <http://e/p> 'o'@en , 7 }"), first);
    assert_eq!(
        text("ASK { ?s ?p ?o OPTIONAL { ?o ?q ?r } FILTER(!BOUND(?r) && ?o != 'x') }"),
        "ASK Filter((!(BOUND(?r)) && (?o != \"x\")), LeftJoin({ ?s ?p ?o . }, { ?o ?q ?r . }))"
    );
    let third = [
        "BASE <http://e/> CONSTRUCT { ?s <http://e/k> ?o . } WHERE ",
        "Slice({ ?s <http://e/f> ?o . }, 0, 3)",
    ]
    .concat();
    assert_eq!(text("BASE <http://e/> CONSTRUCT { ?s <k> ?o } WHERE { ?s <f> ?o } LIMIT 3"), third);
    let grouped =
        "SELECT ?p (COUNT(DISTINCT ?o) AS ?n) { ?s ?p ?o } GROUP BY ?p ORDER BY DESC(?n) OFFSET 2";
    let fourth = [
        "SELECT Slice(Project(OrderBy(Group({ ?s ?p ?o . }, ( ?p ),",
        " ( COUNT(DISTINCT ?o) AS ?n )), ( DESC(?n) )), ( ?p ?n )), 2)",
    ]
    .concat();
    assert_eq!(text(grouped), fourth);
    assert_eq!(Query::parse(grouped, None).unwrap().clone().to_string(), text(grouped));
    let federated =
        "SELECT * { SERVICE SILENT <http://e/s> { ?s ?p ?o } { ?a ?b ?c } UNION { ?d ?e ?f } }";
    assert!(text(federated)
        .starts_with("SELECT Join(Service(<http://e/s>, { ?s ?p ?o . }, SILENT), Union("));
}

#[test]
fn a_query_for_every_variable_is_projected_over_those_that_are_no_labels() {
    assert_eq!(
        algebra("SELECT DISTINCT * { ?s ?p _:x . _:x ?q ?o }"),
        GraphPattern::Distinct(Box::new(GraphPattern::Project(
            Box::new(GraphPattern::Bgp(vec![
                triple(v("s"), v("p"), v("_:x")),
                triple(v("_:x"), v("q"), v("o")),
            ])),
            vec![
                Variable::new("s"),
                Variable::new("p"),
                Variable::new("q"),
                Variable::new("o")
            ],
        )))
    );
    assert_eq!(algebra("SELECT DISTINCT * { ?s ?p ?o }"), GraphPattern::Distinct(Box::new(spo())));
}
