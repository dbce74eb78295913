use rudf::model::{Literal, NamedNode, Quad, Term, Variable};
use rudf::sparql::algebra::BinaryOperator;
use rudf::sparql::cursor::Cursor;
use rudf::sparql::dataset::{DatasetView, EncodedTerm};
use rudf::sparql::evaluator::SimpleEvaluator;
use rudf::sparql::plan::{
    Comparator, PatternValue, PlanAggregation, PlanAggregationFunction, PlanExpression, PlanNode,
    TripleTemplate,
};
use rudf::sparql::{NoneService, PreparedQuery, QueryResult, SimplePreparedQuery};

type Row = Vec<Option<EncodedTerm>>;

const PROLOGUE: &str = "PREFIX : <http://example.com/> ";

fn ex(name: &str) -> Term {
    Term::iri(&format!("http://example.com/{}", name))
}

fn num(n: i64) -> Option<EncodedTerm> {
    Some(EncodedTerm::IntegerLiteral(n))
}

fn integer(n: i64) -> Term {
    Term::Literal(Literal::new_typed_literal(
        &n.to_string(),
        NamedNode::new("http://www.w3.org/2001/XMLSchema#integer"),
    ))
}

fn people_view() -> DatasetView {
    let mut view = DatasetView::new();
    let triples = vec![
        (ex("alice"), ex("age"), integer(30)),
        (ex("bob"), ex("age"), integer(25)),
        (ex("carol"), ex("age"), integer(30)),
        (ex("alice"), ex("friend"), ex("bob")),
        (ex("bob"), ex("friend"), ex("carol")),
    ];
    for (s, p, o) in triples {
        view.insert(&Quad::new(s, p, o, None)).unwrap();
    }
    view
}

/// the people, and the ids of alice, bob, carol, age, friend
fn people() -> (SimpleEvaluator, Vec<EncodedTerm>) {
    let mut view = people_view();
    let mut ids = Vec::new();
    for name in ["alice", "bob", "carol", "age", "friend"] {
        ids.push(view.encode_term(&ex(name)).unwrap());
    }
    (SimpleEvaluator::new(view), ids)
}

fn scan(child: PlanNode, s: PatternValue, p: EncodedTerm, o: PatternValue) -> PlanNode {
    PlanNode::QuadPatternJoin {
        child: Box::new(child),
        subject: s,
        predicate: PatternValue::Constant(p),
        object: o,
        graph_name: PatternValue::Constant(EncodedTerm::DefaultGraph),
    }
}

fn var(slot: usize) -> PatternValue {
    PatternValue::Variable(slot)
}

fn ages(ids: &[EncodedTerm]) -> PlanNode {
    scan(PlanNode::Init, var(0), ids[3], var(1))
}

fn friends(ids: &[EncodedTerm], from: usize, to: usize) -> PlanNode {
    scan(PlanNode::Init, var(from), ids[4], var(to))
}

fn numbers(values: &[i64], width: usize) -> PlanNode {
    let tuples = values
        .iter()
        .map(|n| {
            let mut row = vec![None; width];
            row[0] = num(*n);
            row
        })
        .collect();
    PlanNode::StaticBindings { tuples }
}

fn less(slot: usize, bound: i64) -> PlanExpression {
    PlanExpression::Binary(
        BinaryOperator::Less,
        Box::new(PlanExpression::Variable(slot)),
        Box::new(PlanExpression::Constant(EncodedTerm::IntegerLiteral(bound))),
    )
}

fn never() -> PlanExpression {
    PlanExpression::Constant(EncodedTerm::BooleanLiteral(false))
}

fn drain(evaluator: &SimpleEvaluator, plan: &PlanNode, from: Row) -> Vec<Row> {
    let mut cursor = Cursor::new(plan, from);
    let mut out = Vec::new();
    loop {
        let (row, rest) = cursor.next(evaluator);
        cursor = rest;
        match row {
            Some(row) => out.push(row),
            None => return out,
        }
    }
}

fn plans(ids: &[EncodedTerm]) -> Vec<PlanNode> {
    vec![
        PlanNode::Init,
        ages(ids),
        scan(ages(ids), var(0), ids[4], var(2)),
        numbers(&[1, 2, 3], 3),
        PlanNode::StaticBindings { tuples: vec![] },
        PlanNode::Service { id: 0, slots: vec![0] },
        PlanNode::Join { left: Box::new(ages(ids)), right: Box::new(friends(ids, 0, 2)) },
        PlanNode::Join { left: Box::new(friends(ids, 0, 2)), right: Box::new(ages(ids)) },
        PlanNode::Join { left: Box::new(ages(ids)), right: Box::new(ages(ids)) },
        PlanNode::LeftJoin {
            left: Box::new(ages(ids)),
            right: Box::new(friends(ids, 0, 2)),
            expression: None,
        },
        PlanNode::LeftJoin {
            left: Box::new(ages(ids)),
            right: Box::new(friends(ids, 0, 2)),
            expression: Some(less(1, 30)),
        },
        PlanNode::LeftJoin {
            left: Box::new(friends(ids, 0, 2)),
            right: Box::new(ages(ids)),
            expression: Some(never()),
        },
        PlanNode::Union { left: Box::new(friends(ids, 0, 2)), right: Box::new(ages(ids)) },
        PlanNode::Union { left: Box::new(friends(ids, 0, 0)), right: Box::new(ages(ids)) },
        PlanNode::Minus { left: Box::new(ages(ids)), right: Box::new(friends(ids, 0, 2)) },
        PlanNode::Minus { left: Box::new(ages(ids)), right: Box::new(friends(ids, 2, 1)) },
        PlanNode::Filter { child: Box::new(ages(ids)), expression: less(1, 30) },
        PlanNode::Filter { child: Box::new(ages(ids)), expression: never() },
        PlanNode::Extend {
            child: Box::new(ages(ids)),
            slot: 2,
            expression: PlanExpression::Variable(1),
        },
        PlanNode::Extend {
            child: Box::new(ages(ids)),
            slot: 1,
            expression: PlanExpression::Constant(EncodedTerm::IntegerLiteral(30)),
        },
        PlanNode::Project { child: Box::new(ages(ids)), slots: vec![1] },
        PlanNode::Project {
            child: Box::new(PlanNode::Join {
                left: Box::new(ages(ids)),
                right: Box::new(friends(ids, 0, 2)),
            }),
            slots: vec![2, 0],
        },
        PlanNode::Distinct {
            child: Box::new(PlanNode::Project { child: Box::new(ages(ids)), slots: vec![1] }),
        },
        PlanNode::Reduced {
            child: Box::new(PlanNode::Union {
                left: Box::new(ages(ids)),
                right: Box::new(ages(ids)),
            }),
        },
        PlanNode::Group {
            child: Box::new(ages(ids)),
            keys: vec![1],
            aggregates: vec![PlanAggregation {
                function: PlanAggregationFunction::Count,
                parameter: None,
                distinct: false,
                slot: 2,
                separator: " ".to_string(),
            }],
        },
        PlanNode::Sort {
            child: Box::new(ages(ids)),
            by: vec![Comparator { expression: PlanExpression::Variable(1), descending: false }],
        },
        PlanNode::Slice { child: Box::new(ages(ids)), start: 1, length: Some(1) },
        PlanNode::Slice { child: Box::new(ages(ids)), start: 0, length: Some(0) },
        PlanNode::Slice { child: Box::new(ages(ids)), start: 2, length: None },
        PlanNode::Slice { child: Box::new(ages(ids)), start: 7, length: Some(2) },
        PlanNode::Slice {
            child: Box::new(PlanNode::Filter {
                child: Box::new(PlanNode::Union {
                    left: Box::new(ages(ids)),
                    right: Box::new(friends(ids, 0, 2)),
                }),
                expression: PlanExpression::Bound(0),
            }),
            start: 2,
            length: Some(2),
        },
    ]
}

#[test]
fn a_cursor_hands_out_the_rows_of_its_plan_in_order() {
    let (evaluator, ids) = people();
    for from in [vec![None, None, None], vec![Some(ids[1]), None, None]] {
        for plan in plans(&ids) {
            assert_eq!(
                drain(&evaluator, &plan, from.clone()),
                evaluator.eval_plan(&plan, &from),
                "{:?}",
                plan
            );
        }
    }
}

#[test]
fn a_cursor_over_a_join_gives_the_rows_one_by_one() {
    let (evaluator, ids) = people();
    let plan = PlanNode::Join { left: Box::new(ages(&ids)), right: Box::new(friends(&ids, 0, 2)) };
    let cursor = Cursor::new(&plan, vec![None, None, None]);
    let (first, cursor) = cursor.next(&evaluator);
    assert_eq!(first, Some(vec![Some(ids[0]), num(30), Some(ids[1])]));
    let (second, cursor) = cursor.next(&evaluator);
    assert_eq!(second, Some(vec![Some(ids[1]), num(25), Some(ids[2])]));
    let (third, cursor) = cursor.next(&evaluator);
    assert_eq!(third, None);
    let (again, _) = cursor.next(&evaluator);
    assert_eq!(again, None);
}

#[test]
fn a_cursor_over_a_slice_skips_then_takes() {
    let (evaluator, _) = people();
    let plan = PlanNode::Slice {
        child: Box::new(numbers(&[0, 1, 2, 3, 4], 1)),
        start: 1,
        length: Some(2),
    };
    assert_eq!(drain(&evaluator, &plan, vec![None]), vec![vec![num(1)], vec![num(2)]]);
}

#[test]
fn a_cursor_over_distinct_keeps_the_first_of_equal_rows() {
    let (evaluator, _) = people();
    let plan = PlanNode::Distinct { child: Box::new(numbers(&[2, 1, 2, 3, 1], 1)) };
    assert_eq!(
        drain(&evaluator, &plan, vec![None]),
        vec![vec![num(2)], vec![num(1)], vec![num(3)]]
    );
}

#[test]
fn a_cursor_over_an_optional_join_keeps_a_left_row_without_match() {
    let (evaluator, ids) = people();
    let plan = PlanNode::LeftJoin {
        left: Box::new(ages(&ids)),
        right: Box::new(friends(&ids, 0, 2)),
        expression: Some(less(1, 30)),
    };
    assert_eq!(
        drain(&evaluator, &plan, vec![None, None, None]),
        vec![
            vec![Some(ids[0]), num(30), None],
            vec![Some(ids[1]), num(25), Some(ids[2])],
            vec![Some(ids[2]), num(30), None],
        ]
    );
}

#[test]
fn a_cursor_that_drops_every_row_of_a_long_input_ends() {
    let (evaluator, _) = people();
    let many: Vec<i64> = (0..200_000).collect();
    let input = || Box::new(numbers(&many, 2));
    let dropping = vec![
        PlanNode::Filter { child: input(), expression: never() },
        PlanNode::Slice { child: input(), start: 200_000, length: None },
        PlanNode::Minus {
            left: Box::new(numbers(&vec![7; 200_000], 2)),
            right: Box::new(numbers(&[7], 2)),
        },
        PlanNode::Extend {
            child: input(),
            slot: 0,
            expression: PlanExpression::Constant(EncodedTerm::IntegerLiteral(-1)),
        },
        PlanNode::LeftJoin {
            left: Box::new(PlanNode::StaticBindings { tuples: vec![] }),
            right: input(),
            expression: None,
        },
        PlanNode::Join {
            left: input(),
            right: Box::new(PlanNode::StaticBindings { tuples: vec![] }),
        },
    ];
    for plan in dropping {
        let (first, _) = Cursor::new(&plan, vec![None, None]).next(&evaluator);
        assert_eq!(first, None);
    }
    let same = PlanNode::Distinct {
        child: Box::new(PlanNode::Project { child: input(), slots: vec![1] }),
    };
    assert_eq!(drain(&evaluator, &same, vec![None, None]), vec![vec![None, None]]);
}

#[test]
fn an_optional_join_that_rejects_every_match_of_a_long_right_side_keeps_the_left_row() {
    let (evaluator, _) = people();
    let many: Vec<i64> = (0..100_000).collect();
    let plan = PlanNode::LeftJoin {
        left: Box::new(PlanNode::Init),
        right: Box::new(numbers(&many, 1)),
        expression: Some(never()),
    };
    assert_eq!(drain(&evaluator, &plan, vec![None]), vec![vec![None]]);
}

fn prepared(query: &str) -> SimplePreparedQuery<NoneService> {
    let text = format!("{}{}", PROLOGUE, query);
    SimplePreparedQuery::new(people_view(), &text, None, NoneService).unwrap()
}

#[test]
fn the_solutions_of_a_query_come_one_by_one() {
    let mut query = prepared("SELECT ?who ?age WHERE { ?who :age ?age FILTER(?age < 30) }");
    assert_eq!(query.ask_services(), Ok(()));
    let stream = query.solutions();
    assert_eq!(stream.variables(), &vec![Variable::new("who"), Variable::new("age")]);
    let (first, stream) = stream.next();
    assert_eq!(first, Some(vec![Some(ex("bob")), Some(integer(25))]));
    let (second, stream) = stream.next();
    assert_eq!(second, None);
    let (third, _) = stream.next();
    assert_eq!(third, None);
}

#[test]
fn the_solutions_of_a_stream_are_those_of_the_whole_result() {
    let queries = [
        "SELECT ?who ?age WHERE { ?who :age ?age }",
        "SELECT * WHERE { ?a :friend ?b OPTIONAL { ?b :friend ?c } }",
        "SELECT DISTINCT ?age WHERE { ?who :age ?age } ORDER BY ?age LIMIT 1",
        "SELECT ?age (COUNT(?who) AS ?n) WHERE { ?who :age ?age } GROUP BY ?age",
        "SELECT ?who WHERE { { ?who :age 25 } UNION { ?who :friend ?x } } OFFSET 1",
        "SELECT ?who WHERE { ?who :age ?age MINUS { ?who :friend ?x } }",
    ];
    for text in queries {
        let mut query = prepared(text);
        let whole = query.exec().unwrap();
        let mut stream = query.solutions();
        let names = stream.variables().clone();
        let mut found = Vec::new();
        loop {
            let (solution, rest) = stream.next();
            stream = rest;
            match solution {
                Some(terms) => found.push(terms),
                None => break,
            }
        }
        assert_eq!(QueryResult::Bindings { variables: names, rows: found }, whole, "{}", text);
    }
}

#[test]
fn the_quads_of_a_construct_come_one_by_one() {
    let mut query =
        prepared("CONSTRUCT { ?b :knows ?a . ?a :knows ?c . ?a :is ?b } WHERE { ?a :friend ?b }");
    assert_eq!(query.ask_services(), Ok(()));
    let stream = query.triples().unwrap();
    let (first, stream) = stream.next();
    assert_eq!(first, Some(Quad::new(ex("bob"), ex("knows"), ex("alice"), None)));
    let (second, stream) = stream.next();
    assert_eq!(second, Some(Quad::new(ex("alice"), ex("is"), ex("bob"), None)));
    let (third, stream) = stream.next();
    assert_eq!(third, Some(Quad::new(ex("carol"), ex("knows"), ex("bob"), None)));
    let (fourth, stream) = stream.next();
    assert_eq!(fourth, Some(Quad::new(ex("bob"), ex("is"), ex("carol"), None)));
    let (end, stream) = stream.next();
    assert_eq!(end, None);
    let (again, _) = stream.next();
    assert_eq!(again, None);
}

#[test]
fn the_quads_of_a_stream_are_those_of_the_whole_result() {
    let mut query = prepared("CONSTRUCT { ?a :knows ?b . :x :y ?a } WHERE { ?a :friend ?b }");
    let whole = query.exec().unwrap();
    let mut stream = query.triples().unwrap();
    let mut found = Vec::new();
    loop {
        let (quad, rest) = stream.next();
        stream = rest;
        match quad {
            Some(quad) => found.push(quad),
            None => break,
        }
    }
    assert_eq!(found.len(), 4);
    assert_eq!(QueryResult::Graph(found), whole);
}

#[test]
fn a_construct_without_templates_has_no_quads() {
    let (evaluator, ids) = people();
    let plan = ages(&ids);
    let none: Vec<TripleTemplate> = Vec::new();
    let (first, _) = evaluator.triples(&plan, &none, 2).next();
    assert_eq!(first, None);
}

#[test]
fn a_query_of_another_shape_has_no_stream_of_quads() {
    assert!(prepared("SELECT * WHERE { ?a :friend ?b }").triples().is_none());
    assert!(prepared("ASK { ?a :friend ?b }").triples().is_none());
    assert!(prepared("CONSTRUCT { ?a :knows ?b } WHERE { ?a :friend ?b }").triples().is_some());
}

fn all_of(query: &SimplePreparedQuery<NoneService>) -> Vec<Vec<Option<Term>>> {
    let mut stream = query.solutions();
    let mut found = Vec::new();
    loop {
        let (solution, rest) = stream.next();
        stream = rest;
        match solution {
            Some(terms) => found.push(terms),
            None => break,
        }
    }
    found
}

#[test]
fn a_stream_hands_out_the_texts_that_were_interned_before() {
    let text = "SELECT ?who (CONCAT(STR(?age), \" years\") AS ?t) (?age / 2 AS ?h) WHERE { ?who :age ?age }";
    let unprepared = prepared(text);
    for row in all_of(&unprepared) {
        assert_eq!(row[1], None);
        assert_eq!(row[2], None);
    }
    let mut query = prepared(text);
    assert_eq!(query.prepare(), Ok(()));
    let streamed = all_of(&query);
    let whole = prepared(text).exec().unwrap();
    match whole {
        QueryResult::Bindings { rows, .. } => {
            assert!(!rows.is_empty());
            assert!(rows.iter().all(|row| row[1].is_some() && row[2].is_some()));
            assert_eq!(streamed, rows);
        }
        other => panic!("{:?}", other),
    }
}
