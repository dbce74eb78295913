use rudf::model::{NamedNode, Term, Variable};
use rudf::sparql::algebra::{
    AggregateFunction, Aggregation, Expression, Function, GraphPattern, OrderComparator,
    TermOrVariable, TriplePattern, UnaryOperator,
};
use rudf::sparql::algebra_view::{copy_expression, copy_pattern};
use rudf::sparql::dataset::{DatasetView, EncodedTerm};
use rudf::sparql::plan::{
    Comparator, PatternValue, PlanAggregation, PlanAggregationFunction, PlanExpression, PlanNode,
    ServiceRequest, TripleTemplate,
};
use rudf::sparql::plan_builder::{expression_defect_of, pattern_defect_of, BuiltPlan};
use rudf::sparql::{Error, PlanBuilder};

fn v(name: &str) -> TermOrVariable {
    TermOrVariable::Variable(Variable::new(name))
}

fn iri(text: &str) -> TermOrVariable {
    TermOrVariable::Term(Term::iri(text))
}

fn bgp(triples: &[(&str, &str, &str)]) -> GraphPattern {
    GraphPattern::Bgp(
        triples
            .iter()
            .map(|(s, p, o)| {
                TriplePattern::new(v(s), iri(&format!("http://example.com/{}", p)), v(o))
            })
            .collect(),
    )
}

fn named(id: u64) -> PatternValue {
    PatternValue::Constant(EncodedTerm::NamedNode { iri_id: id })
}

fn default_graph() -> PatternValue {
    PatternValue::Constant(EncodedTerm::DefaultGraph)
}

fn scan(child: PlanNode, s: usize, p: u64, o: usize, graph: PatternValue) -> PlanNode {
    PlanNode::QuadPatternJoin {
        child: Box::new(child),
        subject: PatternValue::Variable(s),
        predicate: named(p),
        object: PatternValue::Variable(o),
        graph_name: graph,
    }
}

fn names(listed: &[&str]) -> Vec<Variable> {
    listed.iter().map(|name| Variable::new(name)).collect()
}

fn build(pattern: GraphPattern) -> BuiltPlan {
    let mut view = DatasetView::new();
    PlanBuilder::build(&mut view, pattern).unwrap()
}

#[test]
fn variables_take_slots_in_the_order_of_first_occurrence() {
    let built = build(bgp(&[("s", "name", "n"), ("s", "knows", "o"), ("o", "name", "m")]));
    assert_eq!(built.variables, names(&["s", "n", "o", "m"]));
    let first = scan(PlanNode::Init, 0, 0, 1, default_graph());
    let second = scan(first, 0, 1, 2, default_graph());
    assert_eq!(built.plan, scan(second, 2, 0, 3, default_graph()));
    assert_eq!(built.services, vec![]);
}

#[test]
fn constants_are_interned_in_the_store_of_the_view() {
    let mut view = DatasetView::new();
    view.insert_str("taken");
    let built = PlanBuilder::build(&mut view, bgp(&[("s", "p", "o")])).unwrap();
    assert_eq!(built.plan, scan(PlanNode::Init, 0, 1, 1, default_graph()));
    assert_eq!(view.get_str(1), Some("http://example.com/p"));
    assert_eq!(view.len(), 0);
}

#[test]
fn graph_sets_the_graph_of_the_patterns_inside_it() {
    let inside = GraphPattern::Graph(v("g"), Box::new(bgp(&[("s", "p", "o")])));
    let built = build(GraphPattern::Join(Box::new(bgp(&[("s", "p", "o")])), Box::new(inside)));
    assert_eq!(built.variables, names(&["s", "o", "g"]));
    assert_eq!(
        built.plan,
        PlanNode::Join {
            left: Box::new(scan(PlanNode::Init, 0, 0, 1, default_graph())),
            right: Box::new(scan(PlanNode::Init, 0, 0, 1, PatternValue::Variable(2))),
        }
    );
    let fixed = build(GraphPattern::Graph(iri("urn:g"), Box::new(bgp(&[("s", "p", "o")]))));
    assert_eq!(fixed.plan, scan(PlanNode::Init, 0, 1, 1, named(0)));
}

#[test]
fn each_shape_is_lowered_to_its_node() {
    let condition = Expression::Bound(Variable::new("o"));
    let pattern = GraphPattern::Slice(
        Box::new(GraphPattern::Distinct(Box::new(GraphPattern::Project(
            Box::new(GraphPattern::OrderBy(
                Box::new(GraphPattern::Filter(
                    copy_expression(&condition),
                    Box::new(GraphPattern::Extend(
                        Box::new(GraphPattern::LeftJoin(
                            Box::new(bgp(&[("s", "p", "o")])),
                            Box::new(GraphPattern::Union(
                                Box::new(bgp(&[("s", "q", "x")])),
                                Box::new(GraphPattern::Minus(
                                    Box::new(bgp(&[("s", "p", "y")])),
                                    Box::new(GraphPattern::Reduced(Box::new(bgp(&[])))),
                                )),
                            )),
                            Some(copy_expression(&condition)),
                        )),
                        Variable::new("z"),
                        Expression::Variable(Variable::new("new")),
                    )),
                )),
                vec![OrderComparator { expression: condition, descending: true }],
            )),
            names(&["z", "s", "fresh"]),
        )))),
        1,
        Some(2),
    );
    let built = build(pattern);
    assert_eq!(built.variables, names(&["s", "o", "x", "y", "new", "z", "fresh"]));
    let bound = PlanExpression::Bound(1);
    let union = PlanNode::Union {
        left: Box::new(scan(PlanNode::Init, 0, 1, 2, default_graph())),
        right: Box::new(PlanNode::Minus {
            left: Box::new(scan(PlanNode::Init, 0, 0, 3, default_graph())),
            right: Box::new(PlanNode::Reduced { child: Box::new(PlanNode::Init) }),
        }),
    };
    let optional = PlanNode::LeftJoin {
        left: Box::new(scan(PlanNode::Init, 0, 0, 1, default_graph())),
        right: Box::new(union),
        expression: Some(PlanExpression::Bound(1)),
    };
    let extended = PlanNode::Extend {
        child: Box::new(optional),
        slot: 5,
        expression: PlanExpression::Variable(4),
    };
    let filtered = PlanNode::Filter { child: Box::new(extended), expression: PlanExpression::Bound(1) };
    let sorted = PlanNode::Sort {
        child: Box::new(filtered),
        by: vec![Comparator { expression: bound, descending: true }],
    };
    let projected = PlanNode::Project { child: Box::new(sorted), slots: vec![5, 0, 6] };
    assert_eq!(
        built.plan,
        PlanNode::Slice {
            child: Box::new(PlanNode::Distinct { child: Box::new(projected) }),
            start: 1,
            length: Some(2),
        }
    );
}

fn aggregation(function: AggregateFunction, argument: Option<&str>, distinct: bool) -> Aggregation {
    Aggregation {
        function,
        argument: argument.map(|name| Expression::Variable(Variable::new(name))),
        distinct,
        separator: None,
    }
}

#[test]
fn group_lowers_keys_then_aggregates() {
    let pattern = GraphPattern::Group(
        Box::new(bgp(&[("s", "p", "o")])),
        names(&["o"]),
        vec![
            (aggregation(AggregateFunction::Count, None, false), Variable::new("c")),
            (aggregation(AggregateFunction::Max, Some("s"), true), Variable::new("m")),
        ],
    );
    let built = build(pattern);
    assert_eq!(built.variables, names(&["s", "o", "c", "m"]));
    assert_eq!(
        built.plan,
        PlanNode::Group {
            child: Box::new(scan(PlanNode::Init, 0, 0, 1, default_graph())),
            keys: vec![1],
            aggregates: vec![
                PlanAggregation {
                    function: PlanAggregationFunction::Count,
                    parameter: None,
                    distinct: false,
                    slot: 2,
                    separator: " ".to_string(),
                },
                PlanAggregation {
                    function: PlanAggregationFunction::Max,
                    parameter: Some(PlanExpression::Variable(0)),
                    distinct: true,
                    slot: 3,
                    separator: " ".to_string(),
                },
            ],
        }
    );
}

#[test]
fn a_federated_pattern_takes_a_number_and_is_kept_as_it_is() {
    let inner = GraphPattern::Filter(
        Expression::FunctionCall(Function::Regex, vec![]),
        Box::new(bgp(&[("s", "p", "o")])),
    );
    let pattern = GraphPattern::Join(
        Box::new(bgp(&[("x", "p", "s")])),
        Box::new(GraphPattern::Service(NamedNode::new("urn:endpoint"), Box::new(copy_pattern(&inner)), true)),
    );
    let built = build(pattern);
    assert_eq!(built.variables, names(&["x", "s", "o"]));
    assert_eq!(
        built.plan,
        PlanNode::Join {
            left: Box::new(scan(PlanNode::Init, 0, 0, 1, default_graph())),
            right: Box::new(PlanNode::Service { id: 0, slots: vec![1, 2] }),
        }
    );
    assert_eq!(
        built.services,
        vec![ServiceRequest {
            endpoint: NamedNode::new("urn:endpoint"),
            pattern: inner,
            silent: true,
            variables: vec![(Variable::new("s"), 1), (Variable::new("o"), 2)],
        }]
    );
}

fn failure(pattern: GraphPattern) -> Error {
    let mut view = DatasetView::new();
    view.insert_str("before");
    let error = PlanBuilder::build(&mut view, pattern).unwrap_err();
    assert_eq!(view.get_str(1), None);
    error
}

#[test]
fn an_aggregate_that_cannot_be_lowered_is_a_malformed_query() {
    let average = GraphPattern::Group(
        Box::new(bgp(&[("s", "p", "o")])),
        vec![],
        vec![(aggregation(AggregateFunction::Avg, None, false), Variable::new("a"))],
    );
    assert_eq!(failure(average), Error::MalformedQuery { position: 0 });
    let no_argument = GraphPattern::Group(
        Box::new(bgp(&[("s", "p", "o")])),
        vec![],
        vec![(aggregation(AggregateFunction::Sum, None, false), Variable::new("a"))],
    );
    assert_eq!(failure(no_argument), Error::MalformedQuery { position: 0 });
    let count_distinct_all = GraphPattern::Group(
        Box::new(bgp(&[("s", "p", "o")])),
        vec![],
        vec![(aggregation(AggregateFunction::Count, None, true), Variable::new("a"))],
    );
    assert_eq!(failure(count_distinct_all), Error::MalformedQuery { position: 0 });
}

#[test]
fn a_function_that_cannot_be_lowered_is_an_unsupported_feature() {
    let call = Expression::FunctionCall(Function::Regex, vec![Expression::Variable(Variable::new("o"))]);
    assert_eq!(expression_defect_of(&call), 2);
    let text = Expression::FunctionCall(Function::Str, vec![Expression::Variable(Variable::new("o"))]);
    assert_eq!(expression_defect_of(&text), 0);
    let nested = Expression::Coalesce(vec![Expression::Unary(UnaryOperator::Not, Box::new(call))]);
    let pattern = GraphPattern::Filter(nested, Box::new(bgp(&[("s", "p", "o")])));
    assert_eq!(pattern_defect_of(&pattern), 2);
    assert_eq!(failure(pattern), Error::UnsupportedFeature);
}

#[test]
fn a_constant_that_cannot_be_interned_is_an_encoding_failure() {
    let pattern =
        GraphPattern::Bgp(vec![TriplePattern::new(v("s"), iri("not an iri"), v("o"))]);
    assert_eq!(pattern_defect_of(&pattern), 1);
    assert_eq!(failure(pattern), Error::EncodingFailure);
    let in_expression = GraphPattern::Extend(
        Box::new(bgp(&[("s", "p", "o")])),
        Variable::new("x"),
        Expression::Constant(Term::iri("")),
    );
    assert_eq!(failure(in_expression), Error::EncodingFailure);
}

#[test]
fn the_worst_defect_decides_the_error() {
    let pattern = GraphPattern::Group(
        Box::new(GraphPattern::Filter(
            Expression::FunctionCall(Function::Now, vec![]),
            Box::new(GraphPattern::Bgp(vec![TriplePattern::new(v("s"), iri(""), v("o"))])),
        )),
        vec![],
        vec![(aggregation(AggregateFunction::Sum, None, false), Variable::new("a"))],
    );
    assert_eq!(pattern_defect_of(&pattern), 3);
    assert_eq!(failure(pattern), Error::MalformedQuery { position: 0 });
}

#[test]
fn a_template_reuses_the_slots_of_the_where_clause() {
    let mut view = DatasetView::new();
    let built = PlanBuilder::build(&mut view, bgp(&[("s", "friend", "o")])).unwrap();
    let template = vec![
        TriplePattern::new(v("s"), iri("http://example.com/knows"), v("o")),
        TriplePattern::new(v("o"), iri("http://example.com/friend"), v("other")),
    ];
    let (triples, table) =
        PlanBuilder::build_graph_template(&mut view, &template, built.variables).unwrap();
    assert_eq!(table, names(&["s", "o", "other"]));
    assert_eq!(
        triples,
        vec![
            TripleTemplate {
                subject: PatternValue::Variable(0),
                predicate: named(1),
                object: PatternValue::Variable(1)
            },
            TripleTemplate {
                subject: PatternValue::Variable(1),
                predicate: named(0),
                object: PatternValue::Variable(2)
            },
        ]
    );
    let bad = vec![TriplePattern::new(v("s"), iri("{"), v("o"))];
    assert_eq!(
        PlanBuilder::build_graph_template(&mut view, &bad, table),
        Err(Error::EncodingFailure)
    );
}

#[test]
fn copies_are_equal_to_what_they_copy() {
    let pattern = GraphPattern::Group(
        Box::new(GraphPattern::OrderBy(
            Box::new(GraphPattern::Filter(
                Expression::Exists(Box::new(bgp(&[("s", "p", "o")]))),
                Box::new(GraphPattern::Graph(iri("urn:g"), Box::new(bgp(&[("a", "b", "c")])))),
            )),
            vec![OrderComparator {
                expression: Expression::Coalesce(vec![Expression::Bound(Variable::new("a"))]),
                descending: false,
            }],
        )),
        names(&["a"]),
        vec![(aggregation(AggregateFunction::Sum, Some("c"), true), Variable::new("t"))],
    );
    assert_eq!(copy_pattern(&pattern), pattern);
}

fn joined(separator: Option<&str>) -> GraphPattern {
    GraphPattern::Group(
        Box::new(bgp(&[("s", "p", "o")])),
        vec![],
        vec![(
            Aggregation {
                function: AggregateFunction::GroupConcat,
                argument: Some(Expression::Variable(Variable::new("o"))),
                distinct: true,
                separator: separator.map(|text| text.to_string()),
            },
            Variable::new("a"),
        )],
    )
}

#[test]
fn a_group_concat_is_lowered_with_its_separator() {
    for (separator, lowered) in [(None, " "), (Some(", "), ", "), (Some(""), "")] {
        let built = build(joined(separator));
        assert_eq!(
            built.plan,
            PlanNode::Group {
                child: Box::new(scan(PlanNode::Init, 0, 0, 1, default_graph())),
                keys: vec![],
                aggregates: vec![PlanAggregation {
                    function: PlanAggregationFunction::GroupConcat,
                    parameter: Some(PlanExpression::Variable(1)),
                    distinct: true,
                    slot: 2,
                    separator: lowered.to_string(),
                }],
            }
        );
    }
}

#[test]
fn a_call_in_the_condition_of_an_optional_join_is_an_unsupported_feature() {
    let call = Expression::FunctionCall(Function::Str, vec![Expression::Variable(Variable::new("o"))]);
    let condition = GraphPattern::LeftJoin(
        Box::new(bgp(&[("s", "p", "a")])),
        Box::new(bgp(&[("s", "p", "o")])),
        Some(call),
    );
    assert_eq!(failure(condition), Error::UnsupportedFeature);
    let exists = GraphPattern::Filter(
        Expression::Exists(Box::new(joined(None))),
        Box::new(bgp(&[("s", "p", "a")])),
    );
    assert!(PlanBuilder::build(&mut DatasetView::new(), exists).is_ok());
    let right = GraphPattern::Join(Box::new(bgp(&[("s", "p", "a")])), Box::new(joined(None)));
    assert!(PlanBuilder::build(&mut DatasetView::new(), right).is_ok());
    let optional = GraphPattern::LeftJoin(
        Box::new(bgp(&[("s", "p", "a")])),
        Box::new(joined(None)),
        None,
    );
    assert!(PlanBuilder::build(&mut DatasetView::new(), optional).is_ok());
    let branch = GraphPattern::Union(Box::new(bgp(&[("s", "p", "a")])), Box::new(joined(None)));
    assert!(PlanBuilder::build(&mut DatasetView::new(), branch).is_ok());
}
