use rudf::model::{Literal, NamedNode, Quad, Term};
use rudf::sparql::algebra::{BinaryOperator, UnaryOperator};
use rudf::sparql::dataset::{DatasetView, EncodedTerm};
use rudf::sparql::evaluator::SimpleEvaluator;
use rudf::sparql::plan::{
    Comparator, PatternValue, PlanAggregation, PlanAggregationFunction, PlanExpression, PlanNode,
};

type Row = Vec<Option<EncodedTerm>>;

fn ex(name: &str) -> Term {
    Term::iri(&format!("http://example.com/{}", name))
}

fn num(n: i64) -> Option<EncodedTerm> {
    Some(EncodedTerm::IntegerLiteral(n))
}

fn integer(n: i64) -> Term {
    Term::Literal(Literal::new_typed_literal(
        &n.to_string(),
        NamedNode::new("http://www.w3.org/2001/XMLSchema#integer"),
    ))
}

/// people with ages, two of them friends, one quad in a named graph
fn people() -> (SimpleEvaluator, Vec<EncodedTerm>) {
    let mut view = DatasetView::new();
    let triples = vec![
        (ex("alice"), ex("age"), integer(30)),
        (ex("bob"), ex("age"), integer(25)),
        (ex("carol"), ex("age"), integer(30)),
        (ex("alice"), ex("friend"), ex("bob")),
        (ex("bob"), ex("friend"), ex("carol")),
    ];
    for (s, p, o) in triples {
        view.insert(&Quad::new(s, p, o, None)).unwrap();
    }
    view.insert(&Quad::new(ex("dave"), ex("age"), integer(41), Some(ex("g")))).unwrap();
    let mut ids = Vec::new();
    for name in ["alice", "bob", "carol", "dave", "age", "friend", "g"] {
        ids.push(view.encode_term(&ex(name)).unwrap());
    }
    (SimpleEvaluator::new(view), ids)
}

fn scan(child: PlanNode, s: PatternValue, p: PatternValue, o: PatternValue) -> PlanNode {
    PlanNode::QuadPatternJoin {
        child: Box::new(child),
        subject: s,
        predicate: p,
        object: o,
        graph_name: PatternValue::Constant(EncodedTerm::DefaultGraph),
    }
}

fn var(slot: usize) -> PatternValue {
    PatternValue::Variable(slot)
}

fn constant(term: EncodedTerm) -> PatternValue {
    PatternValue::Constant(term)
}

fn ages(ids: &[EncodedTerm]) -> PlanNode {
    scan(PlanNode::Init, var(0), constant(ids[4]), var(1))
}

fn friends(ids: &[EncodedTerm], from: usize, to: usize) -> PlanNode {
    scan(PlanNode::Init, var(from), constant(ids[5]), var(to))
}

fn row(slots: &[Option<EncodedTerm>]) -> Row {
    slots.to_vec()
}

fn numbers(values: &[i64]) -> PlanNode {
    PlanNode::StaticBindings { tuples: values.iter().map(|n| vec![num(*n)]).collect() }
}

#[test]
fn init_yields_the_input_row() {
    let (evaluator, ids) = people();
    let from = row(&[Some(ids[0]), None]);
    assert_eq!(evaluator.eval_plan(&PlanNode::Init, &from), vec![from]);
}

#[test]
fn a_quad_pattern_binds_its_variables_in_store_order() {
    let (evaluator, ids) = people();
    let found = evaluator.eval_plan(&ages(&ids), &vec![None, None]);
    assert_eq!(
        found,
        vec![
            row(&[Some(ids[0]), num(30)]),
            row(&[Some(ids[1]), num(25)]),
            row(&[Some(ids[2]), num(30)]),
        ]
    );
}

#[test]
fn a_quad_pattern_takes_the_bindings_of_its_input() {
    let (evaluator, ids) = people();
    let found = evaluator.eval_plan(&ages(&ids), &vec![None, num(30)]);
    assert_eq!(found, vec![row(&[Some(ids[0]), num(30)]), row(&[Some(ids[2]), num(30)])]);
}

#[test]
fn a_variable_in_two_positions_must_meet_one_value() {
    let (evaluator, ids) = people();
    let same = scan(PlanNode::Init, var(0), constant(ids[5]), var(0));
    assert_eq!(evaluator.eval_plan(&same, &vec![None]), Vec::<Row>::new());
}

#[test]
fn a_graph_variable_ranges_over_named_graphs_only() {
    let (evaluator, ids) = people();
    let plan = PlanNode::QuadPatternJoin {
        child: Box::new(PlanNode::Init),
        subject: var(0),
        predicate: constant(ids[4]),
        object: var(1),
        graph_name: var(2),
    };
    assert_eq!(
        evaluator.eval_plan(&plan, &vec![None, None, None]),
        vec![row(&[Some(ids[3]), num(41), Some(ids[6])])]
    );
}

#[test]
fn join_hands_each_left_row_to_the_right_side() {
    let (evaluator, ids) = people();
    let plan = PlanNode::Join {
        left: Box::new(friends(&ids, 0, 2)),
        right: Box::new(ages(&ids)),
    };
    assert_eq!(
        evaluator.eval_plan(&plan, &vec![None, None, None]),
        vec![
            row(&[Some(ids[0]), num(30), Some(ids[1])]),
            row(&[Some(ids[1]), num(25), Some(ids[2])]),
        ]
    );
}

#[test]
fn joining_a_basic_plan_with_itself_changes_nothing() {
    let (evaluator, ids) = people();
    let alone = evaluator.eval_plan(&ages(&ids), &vec![None, None]);
    let twice = PlanNode::Join { left: Box::new(ages(&ids)), right: Box::new(ages(&ids)) };
    assert_eq!(evaluator.eval_plan(&twice, &vec![None, None]), alone);
}

#[test]
fn joining_a_plan_that_repeats_rows_with_itself_multiplies_them() {
    let (evaluator, _) = people();
    let base = numbers(&[1, 1]);
    let twice = PlanNode::Join { left: Box::new(numbers(&[1, 1])), right: Box::new(numbers(&[1, 1])) };
    assert_eq!(evaluator.eval_plan(&base, &vec![None]).len(), 2);
    assert_eq!(evaluator.eval_plan(&twice, &vec![None]).len(), 4);
}

#[test]
fn join_of_plans_without_common_variables_is_the_cross_product() {
    let (evaluator, ids) = people();
    let left = ages(&ids);
    let right = friends(&ids, 2, 3);
    let n_left = evaluator.eval_plan(&left, &vec![None; 4]).len();
    let n_right = evaluator.eval_plan(&right, &vec![None; 4]).len();
    let plan = PlanNode::Join { left: Box::new(left), right: Box::new(right) };
    let found = evaluator.eval_plan(&plan, &vec![None; 4]);
    assert_eq!((n_left, n_right), (3, 2));
    assert_eq!(found.len(), 6);
    assert_eq!(found[0], row(&[Some(ids[0]), num(30), Some(ids[0]), Some(ids[1])]));
    assert_eq!(found[5], row(&[Some(ids[2]), num(30), Some(ids[1]), Some(ids[2])]));
}

#[test]
fn left_join_keeps_left_rows_without_a_match() {
    let (evaluator, ids) = people();
    let plan = PlanNode::LeftJoin {
        left: Box::new(ages(&ids)),
        right: Box::new(friends(&ids, 0, 2)),
        expression: None,
    };
    let found = evaluator.eval_plan(&plan, &vec![None, None, None]);
    assert_eq!(
        found,
        vec![
            row(&[Some(ids[0]), num(30), Some(ids[1])]),
            row(&[Some(ids[1]), num(25), Some(ids[2])]),
            row(&[Some(ids[2]), num(30), None]),
        ]
    );
    let join = PlanNode::Join {
        left: Box::new(ages(&ids)),
        right: Box::new(friends(&ids, 0, 2)),
    };
    assert!(found.len() >= evaluator.eval_plan(&join, &vec![None, None, None]).len());
}

#[test]
fn left_join_with_an_expression_keeps_the_matches_on_which_it_holds() {
    let (evaluator, ids) = people();
    let plan = PlanNode::LeftJoin {
        left: Box::new(ages(&ids)),
        right: Box::new(friends(&ids, 0, 2)),
        expression: Some(PlanExpression::Binary(
            BinaryOperator::Less,
            Box::new(PlanExpression::Variable(1)),
            Box::new(PlanExpression::Constant(EncodedTerm::IntegerLiteral(30))),
        )),
    };
    assert_eq!(
        evaluator.eval_plan(&plan, &vec![None, None, None]),
        vec![
            row(&[Some(ids[0]), num(30), None]),
            row(&[Some(ids[1]), num(25), Some(ids[2])]),
            row(&[Some(ids[2]), num(30), None]),
        ]
    );
}

#[test]
fn union_keeps_repeats() {
    let (evaluator, _) = people();
    let plan = PlanNode::Union { left: Box::new(numbers(&[1, 2])), right: Box::new(numbers(&[2])) };
    assert_eq!(
        evaluator.eval_plan(&plan, &vec![None]),
        vec![row(&[num(1)]), row(&[num(2)]), row(&[num(2)])]
    );
}

#[test]
fn minus_takes_out_rows_that_share_a_binding_with_a_compatible_row() {
    let (evaluator, ids) = people();
    let plan = PlanNode::Minus {
        left: Box::new(ages(&ids)),
        right: Box::new(friends(&ids, 0, 2)),
    };
    assert_eq!(
        evaluator.eval_plan(&plan, &vec![None, None, None]),
        vec![row(&[Some(ids[2]), num(30), None])]
    );
}

#[test]
fn minus_keeps_everything_where_no_variable_is_shared() {
    let (evaluator, ids) = people();
    let plan = PlanNode::Minus {
        left: Box::new(ages(&ids)),
        right: Box::new(friends(&ids, 2, 3)),
    };
    assert_eq!(evaluator.eval_plan(&plan, &vec![None; 4]).len(), 3);
}

#[test]
fn filter_drops_rows_on_which_the_expression_fails() {
    let (evaluator, ids) = people();
    let plan = PlanNode::Filter {
        child: Box::new(ages(&ids)),
        expression: PlanExpression::Binary(
            BinaryOperator::Greater,
            Box::new(PlanExpression::Variable(1)),
            Box::new(PlanExpression::Constant(EncodedTerm::IntegerLiteral(26))),
        ),
    };
    assert_eq!(
        evaluator.eval_plan(&plan, &vec![None, None]),
        vec![row(&[Some(ids[0]), num(30)]), row(&[Some(ids[2]), num(30)])]
    );
    let failing = PlanNode::Filter {
        child: Box::new(ages(&ids)),
        expression: PlanExpression::Binary(
            BinaryOperator::Less,
            Box::new(PlanExpression::Variable(0)),
            Box::new(PlanExpression::Constant(EncodedTerm::IntegerLiteral(26))),
        ),
    };
    assert_eq!(evaluator.eval_plan(&failing, &vec![None, None]), Vec::<Row>::new());
}

#[test]
fn extend_binds_the_value_and_passes_over_errors() {
    let (evaluator, ids) = people();
    let plan = PlanNode::Extend {
        child: Box::new(ages(&ids)),
        slot: 2,
        expression: PlanExpression::Binary(
            BinaryOperator::Add,
            Box::new(PlanExpression::Variable(1)),
            Box::new(PlanExpression::Constant(EncodedTerm::IntegerLiteral(1))),
        ),
    };
    let found = evaluator.eval_plan(&plan, &vec![None, None, None]);
    assert_eq!(found[0], row(&[Some(ids[0]), num(30), num(31)]));
    assert_eq!(found[1], row(&[Some(ids[1]), num(25), num(26)]));
    let failing = PlanNode::Extend {
        child: Box::new(ages(&ids)),
        slot: 2,
        expression: PlanExpression::Binary(
            BinaryOperator::Add,
            Box::new(PlanExpression::Variable(0)),
            Box::new(PlanExpression::Constant(EncodedTerm::IntegerLiteral(1))),
        ),
    };
    let kept = evaluator.eval_plan(&failing, &vec![None, None, None]);
    assert_eq!(kept.len(), 3);
    assert_eq!(kept[0], row(&[Some(ids[0]), num(30), None]));
}

#[test]
fn extend_drops_a_row_whose_slot_holds_another_value() {
    let (evaluator, _) = people();
    let plan = PlanNode::Extend {
        child: Box::new(numbers(&[1, 2])),
        slot: 0,
        expression: PlanExpression::Constant(EncodedTerm::IntegerLiteral(2)),
    };
    assert_eq!(evaluator.eval_plan(&plan, &vec![None]), vec![row(&[num(2)])]);
}

#[test]
fn project_hides_the_other_slots() {
    let (evaluator, ids) = people();
    let plan = PlanNode::Project { child: Box::new(ages(&ids)), slots: vec![1] };
    assert_eq!(
        evaluator.eval_plan(&plan, &vec![None, None]),
        vec![row(&[None, num(30)]), row(&[None, num(25)]), row(&[None, num(30)])]
    );
    let outer = evaluator.eval_plan(&plan, &vec![Some(ids[6]), None]);
    assert_eq!(outer.len(), 3);
    assert_eq!(outer[0], row(&[Some(ids[6]), num(30)]));
}

#[test]
fn distinct_keeps_each_row_where_it_first_occurs() {
    let (evaluator, _) = people();
    let plan = PlanNode::Distinct { child: Box::new(numbers(&[3, 1, 3, 2, 1])) };
    let found = evaluator.eval_plan(&plan, &vec![None]);
    assert_eq!(found, vec![row(&[num(3)]), row(&[num(1)]), row(&[num(2)])]);
    let reduced = PlanNode::Reduced { child: Box::new(numbers(&[3, 1, 3, 2, 1])) };
    assert_eq!(evaluator.eval_plan(&reduced, &vec![None]), found);
}

#[test]
fn slice_skips_then_takes() {
    let (evaluator, _) = people();
    let slice = |start: usize, length: Option<usize>| PlanNode::Slice {
        child: Box::new(numbers(&[0, 1, 2, 3, 4])),
        start,
        length,
    };
    assert_eq!(
        evaluator.eval_plan(&slice(1, Some(2)), &vec![None]),
        vec![row(&[num(1)]), row(&[num(2)])]
    );
    assert_eq!(evaluator.eval_plan(&slice(3, None), &vec![None]).len(), 2);
    assert_eq!(evaluator.eval_plan(&slice(4, Some(9)), &vec![None]), vec![row(&[num(4)])]);
    assert_eq!(evaluator.eval_plan(&slice(7, Some(1)), &vec![None]), Vec::<Row>::new());
    assert_eq!(evaluator.eval_plan(&slice(0, Some(0)), &vec![None]), Vec::<Row>::new());
}

#[test]
fn sort_orders_by_its_keys_and_keeps_ties_in_order() {
    let (evaluator, ids) = people();
    let by_age = PlanNode::Sort {
        child: Box::new(ages(&ids)),
        by: vec![Comparator { expression: PlanExpression::Variable(1), descending: false }],
    };
    assert_eq!(
        evaluator.eval_plan(&by_age, &vec![None, None]),
        vec![
            row(&[Some(ids[1]), num(25)]),
            row(&[Some(ids[0]), num(30)]),
            row(&[Some(ids[2]), num(30)]),
        ]
    );
    let two_keys = PlanNode::Sort {
        child: Box::new(ages(&ids)),
        by: vec![
            Comparator { expression: PlanExpression::Variable(1), descending: true },
            Comparator { expression: PlanExpression::Variable(0), descending: true },
        ],
    };
    assert_eq!(
        evaluator.eval_plan(&two_keys, &vec![None, None]),
        vec![
            row(&[Some(ids[2]), num(30)]),
            row(&[Some(ids[0]), num(30)]),
            row(&[Some(ids[1]), num(25)]),
        ]
    );
}

#[test]
fn the_order_puts_unbound_before_blank_nodes_before_iris_before_literals() {
    let (evaluator, ids) = people();
    let blank = Some(EncodedTerm::BlankNode { id: 7 });
    let iri = Some(ids[0]);
    let text = Some(EncodedTerm::BooleanLiteral(false));
    assert!(evaluator.slot_before(None, blank));
    assert!(evaluator.slot_before(blank, iri));
    assert!(evaluator.slot_before(iri, text));
    assert!(!evaluator.slot_before(text, None));
    assert!(!evaluator.slot_before(iri, iri));
    assert!(evaluator.slot_before(Some(ids[0]), Some(ids[1])));
    assert!(evaluator.slot_before(num(-3), num(2)));
    assert!(evaluator.slot_before(text, Some(EncodedTerm::BooleanLiteral(true))));
    assert!(evaluator.slot_before(text, num(0)));
}

fn aggregate(function: PlanAggregationFunction, argument: Option<usize>, slot: usize) -> PlanAggregation {
    PlanAggregation {
        function,
        parameter: argument.map(PlanExpression::Variable),
        distinct: false,
        slot,
        separator: " ".to_string(),
    }
}

#[test]
fn group_makes_one_row_for_each_key_in_the_order_of_first_occurrence() {
    let (evaluator, ids) = people();
    let plan = PlanNode::Group {
        child: Box::new(ages(&ids)),
        keys: vec![1],
        aggregates: vec![
            aggregate(PlanAggregationFunction::Count, None, 2),
            aggregate(PlanAggregationFunction::Sample, Some(0), 3),
        ],
    };
    assert_eq!(
        evaluator.eval_plan(&plan, &vec![None; 4]),
        vec![
            row(&[None, num(30), num(2), Some(ids[0])]),
            row(&[None, num(25), num(1), Some(ids[1])]),
        ]
    );
}

#[test]
fn aggregates_follow_their_formulas() {
    let (evaluator, ids) = people();
    let plan = PlanNode::Group {
        child: Box::new(ages(&ids)),
        keys: vec![],
        aggregates: vec![
            aggregate(PlanAggregationFunction::Sum, Some(1), 2),
            aggregate(PlanAggregationFunction::Min, Some(1), 3),
            aggregate(PlanAggregationFunction::Max, Some(1), 4),
            aggregate(PlanAggregationFunction::Count, Some(1), 5),
            PlanAggregation {
                function: PlanAggregationFunction::Count,
                parameter: Some(PlanExpression::Variable(1)),
                distinct: true,
                slot: 6,
                separator: " ".to_string(),
            },
            aggregate(PlanAggregationFunction::Sum, Some(0), 7),
        ],
    };
    assert_eq!(
        evaluator.eval_plan(&plan, &vec![None; 8]),
        vec![row(&[None, None, num(85), num(25), num(30), num(3), num(2), num(0)])]
    );
}

#[test]
fn aggregate_results_follow_their_formulas() {
    let (evaluator, _) = people();
    let values = vec![num(i64::MAX), None, num(1), Some(EncodedTerm::BooleanLiteral(true))];
    assert_eq!(evaluator.aggregate_result(PlanAggregationFunction::Sum, false, " ", &values), None);
    assert_eq!(evaluator.aggregate_result(PlanAggregationFunction::Count, false, " ", &values), num(3));
    assert_eq!(
        evaluator.aggregate_result(PlanAggregationFunction::Max, false, " ", &values),
        num(i64::MAX)
    );
    assert_eq!(
        evaluator.aggregate_result(PlanAggregationFunction::Min, false, " ", &values),
        Some(EncodedTerm::BooleanLiteral(true))
    );
    assert_eq!(
        evaluator.aggregate_result(PlanAggregationFunction::Sample, false, " ", &values),
        num(i64::MAX)
    );
    assert_eq!(evaluator.aggregate_result(PlanAggregationFunction::Sample, false, " ", &vec![]), None);
    assert_eq!(evaluator.aggregate_result(PlanAggregationFunction::Sum, false, " ", &vec![]), num(0));
    assert_eq!(
        evaluator.aggregate_result(PlanAggregationFunction::Sum, true, " ", &vec![num(2), num(2), num(3)]),
        num(5)
    );
}

#[test]
fn a_service_without_an_answer_yields_the_input_row() {
    let (evaluator, ids) = people();
    let from = row(&[Some(ids[0])]);
    assert_eq!(evaluator.eval_plan(&PlanNode::Service { id: 0, slots: vec![0] }, &from), vec![from]);
}

#[test]
fn a_service_with_an_answer_yields_the_compatible_rows_of_it() {
    let (evaluator, ids) = people();
    let dataset = evaluator.into_dataset();
    let answers = vec![None, Some(vec![vec![num(1), None], vec![num(2), num(5)]])];
    let evaluator = SimpleEvaluator::with_answers(dataset, answers);
    let plan = PlanNode::Service { id: 1, slots: vec![0, 1] };
    assert_eq!(
        evaluator.eval_plan(&plan, &vec![None, num(5)]),
        vec![row(&[num(1), num(5)]), row(&[num(2), num(5)])]
    );
    assert_eq!(
        evaluator.eval_plan(&plan, &vec![num(2), None]),
        vec![row(&[num(2), num(5)])]
    );
    assert_eq!(
        evaluator.eval_plan(&PlanNode::Service { id: 0, slots: vec![0, 1] }, &vec![Some(ids[0]), None]),
        vec![row(&[Some(ids[0]), None])]
    );
}

#[test]
fn a_service_binds_only_the_slots_of_its_pattern() {
    let (evaluator, _) = people();
    let dataset = evaluator.into_dataset();
    let answers = vec![Some(vec![vec![num(1), num(7)], vec![num(2), num(5)]])];
    let evaluator = SimpleEvaluator::with_answers(dataset, answers);
    let plan = PlanNode::Service { id: 0, slots: vec![0] };
    assert_eq!(
        evaluator.eval_plan(&plan, &vec![None, num(5)]),
        vec![row(&[num(1), num(5)]), row(&[num(2), num(5)])]
    );
    assert_eq!(
        evaluator.eval_plan(&plan, &vec![None, None]),
        vec![row(&[num(1), None]), row(&[num(2), None])]
    );
}

#[test]
fn static_bindings_of_another_width_are_never_compatible() {
    let (evaluator, _) = people();
    let plan = numbers(&[1]);
    assert_eq!(evaluator.eval_plan(&plan, &vec![None, None]), Vec::<Row>::new());
}

#[test]
fn exists_holds_where_the_pattern_has_a_solution_from_the_row() {
    let (evaluator, ids) = people();
    let plan = PlanNode::Filter {
        child: Box::new(ages(&ids)),
        expression: PlanExpression::Unary(
            UnaryOperator::Not,
            Box::new(PlanExpression::Exists(Box::new(friends(&ids, 0, 2)))),
        ),
    };
    assert_eq!(
        evaluator.eval_plan(&plan, &vec![None, None, None]),
        vec![row(&[Some(ids[2]), num(30), None])]
    );
}

#[test]
fn has_solution_agrees_with_the_rows() {
    let (evaluator, ids) = people();
    let empty = PlanNode::Filter {
        child: Box::new(ages(&ids)),
        expression: PlanExpression::Constant(EncodedTerm::BooleanLiteral(false)),
    };
    let plans = vec![
        PlanNode::Init,
        ages(&ids),
        friends(&ids, 1, 0),
        scan(PlanNode::Init, var(0), constant(ids[5]), var(0)),
        numbers(&[1, 2]),
        PlanNode::StaticBindings { tuples: vec![] },
        PlanNode::Join { left: Box::new(ages(&ids)), right: Box::new(friends(&ids, 0, 1)) },
        PlanNode::Join { left: Box::new(friends(&ids, 0, 2)), right: Box::new(ages(&ids)) },
        PlanNode::LeftJoin {
            left: Box::new(ages(&ids)),
            right: Box::new(friends(&ids, 0, 1)),
            expression: None,
        },
        PlanNode::Union { left: Box::new(friends(&ids, 0, 0)), right: Box::new(ages(&ids)) },
        PlanNode::Union { left: Box::new(friends(&ids, 0, 0)), right: Box::new(friends(&ids, 1, 1)) },
        PlanNode::Project { child: Box::new(ages(&ids)), slots: vec![0] },
        PlanNode::Distinct { child: Box::new(friends(&ids, 0, 0)) },
        PlanNode::Reduced { child: Box::new(ages(&ids)) },
        PlanNode::Sort { child: Box::new(ages(&ids)), by: vec![] },
        PlanNode::Slice { child: Box::new(ages(&ids)), start: 3, length: None },
        PlanNode::Minus { left: Box::new(ages(&ids)), right: Box::new(ages(&ids)) },
        PlanNode::Service { id: 0, slots: vec![0] },
        empty,
    ];
    let expected = vec![
        true, true, true, false, false, false, false, true, true, true, false, true, false, true,
        true, false, false, true, false,
    ];
    for (plan, wanted) in plans.iter().zip(expected) {
        let from = vec![None, None, None];
        assert_eq!(evaluator.has_solution(plan, &from), wanted, "{:?}", plan);
        assert_eq!(!evaluator.eval_plan(plan, &from).is_empty(), wanted, "{:?}", plan);
    }
}
