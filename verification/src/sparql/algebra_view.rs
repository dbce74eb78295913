use crate::model::term::TermView;
use crate::sparql::algebra::{
    AggregateFunction, Aggregation, BinaryOperator, Expression, Function, GraphPattern,
    OrderComparator, QueryVariants, TermOrVariable, TriplePattern, UnaryOperator,
};
use vstd::prelude::*;

verus! {

/// The mathematical value of a pattern position.
pub enum TermOrVariableView {
    Term(TermView),
    Variable(Seq<char>),
}

/// The mathematical value of a triple pattern.
pub struct TriplePatternView {
    pub subject: TermOrVariableView,
    pub predicate: TermOrVariableView,
    pub object: TermOrVariableView,
}

/// The mathematical value of an expression.
pub enum ExpressionView {
    Constant(TermView),
    Variable(Seq<char>),
    Bound(Seq<char>),
    Unary(UnaryOperator, Box<ExpressionView>),
    Binary(BinaryOperator, Box<ExpressionView>, Box<ExpressionView>),
    If(Box<ExpressionView>, Box<ExpressionView>, Box<ExpressionView>),
    Coalesce(Seq<ExpressionView>),
    Exists(Box<GraphPatternView>),
    FunctionCall(Function, Seq<ExpressionView>),
}

/// The mathematical value of an aggregate.
pub struct AggregationView {
    pub function: AggregateFunction,
    pub argument: Option<ExpressionView>,
    pub distinct: bool,
    pub separator: Option<Seq<char>>,
}

/// The mathematical value of a sort key.
pub struct OrderComparatorView {
    pub expression: ExpressionView,
    pub descending: bool,
}

/// The mathematical value of a graph pattern.
pub enum GraphPatternView {
    Bgp(Seq<TriplePatternView>),
    Join(Box<GraphPatternView>, Box<GraphPatternView>),
    LeftJoin(Box<GraphPatternView>, Box<GraphPatternView>, Option<ExpressionView>),
    Filter(ExpressionView, Box<GraphPatternView>),
    Union(Box<GraphPatternView>, Box<GraphPatternView>),
    Graph(TermOrVariableView, Box<GraphPatternView>),
    Extend(Box<GraphPatternView>, Seq<char>, ExpressionView),
    Minus(Box<GraphPatternView>, Box<GraphPatternView>),
    Service(Seq<char>, Box<GraphPatternView>, bool),
    Group(Box<GraphPatternView>, Seq<Seq<char>>, Seq<(AggregationView, Seq<char>)>),
    Project(Box<GraphPatternView>, Seq<Seq<char>>),
    Distinct(Box<GraphPatternView>),
    Reduced(Box<GraphPatternView>),
    OrderBy(Box<GraphPatternView>, Seq<OrderComparatorView>),
    Slice(Box<GraphPatternView>, usize, Option<usize>),
}

/// The mathematical value of a query.
pub enum QueryView {
    Select { algebra: GraphPatternView, base_iri: Option<Seq<char>> },
    Ask { algebra: GraphPatternView, base_iri: Option<Seq<char>> },
    Construct {
        construct: Seq<TriplePatternView>,
        algebra: GraphPatternView,
        base_iri: Option<Seq<char>>,
    },
    Describe { algebra: GraphPatternView, base_iri: Option<Seq<char>> },
}

impl View for TermOrVariable {
    type V = TermOrVariableView;

    open spec fn view(&self) -> TermOrVariableView {
        match self {
            TermOrVariable::Term(term) => TermOrVariableView::Term(term@),
            TermOrVariable::Variable(variable) => TermOrVariableView::Variable(variable@),
        }
    }
}

impl View for TriplePattern {
    type V = TriplePatternView;

    open spec fn view(&self) -> TriplePatternView {
        TriplePatternView {
            subject: self.subject@,
            predicate: self.predicate@,
            object: self.object@,
        }
    }
}

/// The views of a sequence of triple patterns.
pub open spec fn triples_view(patterns: Seq<TriplePattern>) -> Seq<TriplePatternView> {
    Seq::new(patterns.len(), |i: int| patterns[i]@)
}

/// The names of a sequence of variables.
pub open spec fn variables_view(variables: Seq<crate::model::term::Variable>) -> Seq<Seq<char>> {
    Seq::new(variables.len(), |i: int| variables[i]@)
}

/// The characters of an optional text.
pub open spec fn text_view(text: Option<String>) -> Option<Seq<char>> {
    match text {
        Some(s) => Some(s@),
        None => None,
    }
}

/// The mathematical value of an expression.
pub open spec fn expression_view(expression: Expression) -> ExpressionView
    decreases expression,
{
    match expression {
        Expression::Constant(term) => ExpressionView::Constant(term@),
        Expression::Variable(variable) => ExpressionView::Variable(variable@),
        Expression::Bound(variable) => ExpressionView::Bound(variable@),
        Expression::Unary(operator, a) => ExpressionView::Unary(
            operator,
            Box::new(expression_view(*a)),
        ),
        Expression::Binary(operator, a, b) => ExpressionView::Binary(
            operator,
            Box::new(expression_view(*a)),
            Box::new(expression_view(*b)),
        ),
        Expression::If(condition, a, b) => ExpressionView::If(
            Box::new(expression_view(*condition)),
            Box::new(expression_view(*a)),
            Box::new(expression_view(*b)),
        ),
        Expression::Coalesce(arguments) => ExpressionView::Coalesce(
            Seq::new(
                arguments.len() as nat,
                |i: int|
                    if 0 <= i < arguments.len() {
                        expression_view(arguments[i])
                    } else {
                        arbitrary()
                    },
            ),
        ),
        Expression::Exists(pattern) => ExpressionView::Exists(Box::new(pattern_view(*pattern))),
        Expression::FunctionCall(function, arguments) => ExpressionView::FunctionCall(
            function,
            Seq::new(
                arguments.len() as nat,
                |i: int|
                    if 0 <= i < arguments.len() {
                        expression_view(arguments[i])
                    } else {
                        arbitrary()
                    },
            ),
        ),
    }
}

/// The mathematical value of an optional expression.
pub open spec fn option_expression_view(expression: Option<Expression>) -> Option<ExpressionView>
    decreases expression,
{
    match expression {
        Some(e) => Some(expression_view(e)),
        None => None,
    }
}

/// The mathematical value of a graph pattern.
pub open spec fn pattern_view(pattern: GraphPattern) -> GraphPatternView
    decreases pattern,
{
    match pattern {
        GraphPattern::Bgp(patterns) => GraphPatternView::Bgp(triples_view(patterns@)),
        GraphPattern::Join(left, right) => GraphPatternView::Join(
            Box::new(pattern_view(*left)),
            Box::new(pattern_view(*right)),
        ),
        GraphPattern::LeftJoin(left, right, expression) => GraphPatternView::LeftJoin(
            Box::new(pattern_view(*left)),
            Box::new(pattern_view(*right)),
            option_expression_view(expression),
        ),
        GraphPattern::Filter(expression, inner) => GraphPatternView::Filter(
            expression_view(expression),
            Box::new(pattern_view(*inner)),
        ),
        GraphPattern::Union(left, right) => GraphPatternView::Union(
            Box::new(pattern_view(*left)),
            Box::new(pattern_view(*right)),
        ),
        GraphPattern::Graph(name, inner) => GraphPatternView::Graph(
            name@,
            Box::new(pattern_view(*inner)),
        ),
        GraphPattern::Extend(inner, variable, expression) => GraphPatternView::Extend(
            Box::new(pattern_view(*inner)),
            variable@,
            expression_view(expression),
        ),
        GraphPattern::Minus(left, right) => GraphPatternView::Minus(
            Box::new(pattern_view(*left)),
            Box::new(pattern_view(*right)),
        ),
        GraphPattern::Service(name, inner, silent) => GraphPatternView::Service(
            name@,
            Box::new(pattern_view(*inner)),
            silent,
        ),
        GraphPattern::Group(inner, keys, aggregates) => GraphPatternView::Group(
            Box::new(pattern_view(*inner)),
            variables_view(keys@),
            Seq::new(
                aggregates.len() as nat,
                |i: int|
                    if 0 <= i < aggregates.len() {
                        (
                            AggregationView {
                                function: aggregates[i].0.function,
                                argument: option_expression_view(aggregates[i].0.argument),
                                distinct: aggregates[i].0.distinct,
                                separator: text_view(aggregates[i].0.separator),
                            },
                            aggregates[i].1@,
                        )
                    } else {
                        arbitrary()
                    },
            ),
        ),
        GraphPattern::Project(inner, variables) => GraphPatternView::Project(
            Box::new(pattern_view(*inner)),
            variables_view(variables@),
        ),
        GraphPattern::Distinct(inner) => GraphPatternView::Distinct(
            Box::new(pattern_view(*inner)),
        ),
        GraphPattern::Reduced(inner) => GraphPatternView::Reduced(Box::new(pattern_view(*inner))),
        GraphPattern::OrderBy(inner, comparators) => GraphPatternView::OrderBy(
            Box::new(pattern_view(*inner)),
            Seq::new(
                comparators.len() as nat,
                |i: int|
                    if 0 <= i < comparators.len() {
                        OrderComparatorView {
                            expression: expression_view(comparators[i].expression),
                            descending: comparators[i].descending,
                        }
                    } else {
                        arbitrary()
                    },
            ),
        ),
        GraphPattern::Slice(inner, start, length) => GraphPatternView::Slice(
            Box::new(pattern_view(*inner)),
            start,
            length,
        ),
    }
}

impl View for QueryVariants {
    type V = QueryView;

    open spec fn view(&self) -> QueryView {
        match self {
            QueryVariants::Select { algebra, base_iri } => QueryView::Select {
                algebra: pattern_view(*algebra),
                base_iri: text_view(*base_iri),
            },
            QueryVariants::Ask { algebra, base_iri } => QueryView::Ask {
                algebra: pattern_view(*algebra),
                base_iri: text_view(*base_iri),
            },
            QueryVariants::Construct { construct, algebra, base_iri } => QueryView::Construct {
                construct: triples_view(construct@),
                algebra: pattern_view(*algebra),
                base_iri: text_view(*base_iri),
            },
            QueryVariants::Describe { algebra, base_iri } => QueryView::Describe {
                algebra: pattern_view(*algebra),
                base_iri: text_view(*base_iri),
            },
        }
    }
}

/// The views of a sequence of expressions.
pub open spec fn expressions_view(expressions: Seq<Expression>) -> Seq<ExpressionView> {
    Seq::new(expressions.len(), |i: int| expression_view(expressions[i]))
}

/// The views of a sequence of sort keys.
pub open spec fn comparators_view(comparators: Seq<OrderComparator>) -> Seq<OrderComparatorView> {
    Seq::new(
        comparators.len(),
        |i: int|
            OrderComparatorView {
                expression: expression_view(comparators[i].expression),
                descending: comparators[i].descending,
            },
    )
}

/// The mathematical value of an aggregate.
pub open spec fn aggregation_view(aggregation: Aggregation) -> AggregationView {
    AggregationView {
        function: aggregation.function,
        argument: option_expression_view(aggregation.argument),
        distinct: aggregation.distinct,
        separator: text_view(aggregation.separator),
    }
}

/// The views of the aggregates of a group, each with the name of the
/// variable that takes its result.
pub open spec fn aggregations_view(aggregates: Seq<(Aggregation, crate::model::term::Variable)>) -> Seq<
    (AggregationView, Seq<char>),
> {
    Seq::new(aggregates.len(), |i: int| (aggregation_view(aggregates[i].0), aggregates[i].1@))
}

/// The views of expressions, each with the name of the variable that it is
/// bound to.
pub open spec fn bindings_view(bindings: Seq<(Expression, crate::model::term::Variable)>) -> Seq<
    (ExpressionView, Seq<char>),
> {
    Seq::new(bindings.len(), |i: int| (expression_view(bindings[i].0), bindings[i].1@))
}

/// The view of a `GROUP` holds the views of its keys and aggregates.
pub proof fn lemma_group_view(
    inner: GraphPattern,
    keys: Vec<crate::model::term::Variable>,
    aggregates: Vec<(Aggregation, crate::model::term::Variable)>,
)
    ensures
        pattern_view(GraphPattern::Group(Box::new(inner), keys, aggregates))
            == GraphPatternView::Group(
            Box::new(pattern_view(inner)),
            variables_view(keys@),
            aggregations_view(aggregates@),
        ),
{
    assert(pattern_view(GraphPattern::Group(Box::new(inner), keys, aggregates))->Group_2
        =~= aggregations_view(aggregates@));
}

/// The view of a call or a `COALESCE` holds the views of its arguments.
pub proof fn lemma_arguments_view(function: Function, arguments: Vec<Expression>)
    ensures
        expression_view(Expression::Coalesce(arguments)) == ExpressionView::Coalesce(
            expressions_view(arguments@),
        ),
        expression_view(Expression::FunctionCall(function, arguments))
            == ExpressionView::FunctionCall(function, expressions_view(arguments@)),
{
    assert(expression_view(Expression::Coalesce(arguments))->Coalesce_0 =~= expressions_view(
        arguments@,
    ));
    assert(expression_view(Expression::FunctionCall(function, arguments))->FunctionCall_1
        =~= expressions_view(arguments@));
}

/// The view of an `ORDER BY` holds the views of its sort keys.
pub proof fn lemma_order_view(inner: GraphPattern, comparators: Vec<OrderComparator>)
    ensures
        pattern_view(GraphPattern::OrderBy(Box::new(inner), comparators))
            == GraphPatternView::OrderBy(
            Box::new(pattern_view(inner)),
            comparators_view(comparators@),
        ),
{
    assert(pattern_view(GraphPattern::OrderBy(Box::new(inner), comparators))->OrderBy_1
        =~= comparators_view(comparators@));
}

/// A copy of a sequence of triple patterns.
pub fn copy_triples(patterns: &Vec<TriplePattern>) -> (copy: Vec<TriplePattern>)
    ensures
        triples_view(copy@) == triples_view(patterns@),
{
    let mut copy: Vec<TriplePattern> = Vec::new();
    let mut i: usize = 0;
    while i < patterns.len()
        invariant
            i <= patterns@.len(),
            copy@.len() == i,
            forall|k: int| 0 <= k < i ==> (#[trigger] copy@[k])@ == patterns@[k]@,
        decreases patterns@.len() - i,
    {
        let subject = patterns[i].subject.clone();
        let predicate = patterns[i].predicate.clone();
        let object = patterns[i].object.clone();
        copy.push(TriplePattern { subject, predicate, object });
        i = i + 1;
    }
    assert(triples_view(copy@) =~= triples_view(patterns@));
    copy
}

/// A copy of a list of variables.
pub fn copy_variables(variables: &Vec<crate::model::term::Variable>) -> (copy: Vec<
    crate::model::term::Variable,
>)
    ensures
        variables_view(copy@) == variables_view(variables@),
{
    let mut copy: Vec<crate::model::term::Variable> = Vec::new();
    let mut i: usize = 0;
    while i < variables.len()
        invariant
            i <= variables@.len(),
            copy@.len() == i,
            forall|k: int| 0 <= k < i ==> (#[trigger] copy@[k])@ == variables@[k]@,
        decreases variables@.len() - i,
    {
        copy.push(variables[i].clone());
        i = i + 1;
    }
    assert(variables_view(copy@) =~= variables_view(variables@));
    copy
}

/// A copy of an expression.
#[verifier::loop_isolation(false)]
pub fn copy_expression(expression: &Expression) -> (copy: Expression)
    ensures
        expression_view(copy) == expression_view(*expression),
    decreases *expression, 1int,
{
    match expression {
        Expression::Constant(term) => Expression::Constant(term.clone()),
        Expression::Variable(variable) => Expression::Variable(variable.clone()),
        Expression::Bound(variable) => Expression::Bound(variable.clone()),
        Expression::Unary(operator, a) => Expression::Unary(
            *operator,
            Box::new(copy_expression(a)),
        ),
        Expression::Binary(operator, a, b) => Expression::Binary(
            *operator,
            Box::new(copy_expression(a)),
            Box::new(copy_expression(b)),
        ),
        Expression::If(condition, a, b) => Expression::If(
            Box::new(copy_expression(condition)),
            Box::new(copy_expression(a)),
            Box::new(copy_expression(b)),
        ),
        Expression::Coalesce(arguments) => {
            let copy = copy_arguments(expression, arguments);
            proof {
                lemma_arguments_view(Function::Str, copy);
                lemma_arguments_view(Function::Str, *arguments);
            }
            Expression::Coalesce(copy)
        },
        Expression::Exists(pattern) => Expression::Exists(Box::new(copy_pattern(pattern))),
        Expression::FunctionCall(function, arguments) => {
            let copy = copy_arguments(expression, arguments);
            proof {
                lemma_arguments_view(*function, copy);
                lemma_arguments_view(*function, *arguments);
            }
            Expression::FunctionCall(*function, copy)
        },
    }
}

/// A copy of the arguments of an expression.
#[verifier::loop_isolation(false)]
fn copy_arguments(whole: &Expression, arguments: &Vec<Expression>) -> (copy: Vec<Expression>)
    requires
        (*whole matches Expression::Coalesce(held) && held == *arguments) || (
        *whole matches Expression::FunctionCall(_, held) && held == *arguments),
    ensures
        expressions_view(copy@) == expressions_view(arguments@),
    decreases *whole, 0int,
{
    let mut copy: Vec<Expression> = Vec::new();
    let mut i: usize = 0;
    while i < arguments.len()
        invariant
            i <= arguments@.len(),
            copy@.len() == i,
            forall|k: int|
                0 <= k < i ==> expression_view(#[trigger] copy@[k]) == expression_view(
                    arguments@[k],
                ),
        decreases arguments@.len() - i,
    {
        copy.push(copy_expression(&arguments[i]));
        i = i + 1;
    }
    assert(expressions_view(copy@) =~= expressions_view(arguments@));
    copy
}

fn copy_text(text: &Option<String>) -> (copy: Option<String>)
    ensures
        text_view(copy) == text_view(*text),
{
    match text {
        Some(s) => Some(s.clone()),
        None => None,
    }
}

/// A copy of a graph pattern.
#[verifier::rlimit(40)]
#[verifier::loop_isolation(false)]
pub fn copy_pattern(pattern: &GraphPattern) -> (copy: GraphPattern)
    ensures
        pattern_view(copy) == pattern_view(*pattern),
    decreases *pattern, 1int,
{
    match pattern {
        GraphPattern::Bgp(patterns) => GraphPattern::Bgp(copy_triples(patterns)),
        GraphPattern::Join(left, right) => GraphPattern::Join(
            Box::new(copy_pattern(left)),
            Box::new(copy_pattern(right)),
        ),
        GraphPattern::LeftJoin(left, right, expression) => {
            let e = match expression {
                Some(condition) => Some(copy_expression(condition)),
                None => None,
            };
            assert(option_expression_view(e) == option_expression_view(*expression));
            GraphPattern::LeftJoin(Box::new(copy_pattern(left)), Box::new(copy_pattern(right)), e)
        },
        GraphPattern::Filter(expression, inner) => GraphPattern::Filter(
            copy_expression(expression),
            Box::new(copy_pattern(inner)),
        ),
        GraphPattern::Union(left, right) => GraphPattern::Union(
            Box::new(copy_pattern(left)),
            Box::new(copy_pattern(right)),
        ),
        GraphPattern::Graph(name, inner) => GraphPattern::Graph(
            name.clone(),
            Box::new(copy_pattern(inner)),
        ),
        GraphPattern::Extend(inner, variable, expression) => GraphPattern::Extend(
            Box::new(copy_pattern(inner)),
            variable.clone(),
            copy_expression(expression),
        ),
        GraphPattern::Minus(left, right) => GraphPattern::Minus(
            Box::new(copy_pattern(left)),
            Box::new(copy_pattern(right)),
        ),
        GraphPattern::Service(name, inner, silent) => GraphPattern::Service(
            name.clone(),
            Box::new(copy_pattern(inner)),
            *silent,
        ),
        GraphPattern::Group(inner, keys, aggregates) => {
            let mut copy: Vec<(Aggregation, crate::model::term::Variable)> = Vec::new();
            let mut i: usize = 0;
            while i < aggregates.len()
                invariant
                    i <= aggregates@.len(),
                    copy@.len() == i,
                    forall|k: int|
                        0 <= k < i ==> (#[trigger] copy@[k]).0.function == aggregates@[k].0.function
                            && option_expression_view(copy@[k].0.argument)
                            == option_expression_view(aggregates@[k].0.argument)
                            && copy@[k].0.distinct == aggregates@[k].0.distinct && text_view(
                            copy@[k].0.separator,
                        ) == text_view(aggregates@[k].0.separator) && copy@[k].1@
                            == aggregates@[k].1@,
                decreases aggregates@.len() - i,
            {
                let argument = match &aggregates[i].0.argument {
                    Some(e) => Some(copy_expression(e)),
                    None => None,
                };
                assert(option_expression_view(argument) == option_expression_view(
                    aggregates@[i as int].0.argument,
                ));
                copy.push(
                    (
                        Aggregation {
                            function: aggregates[i].0.function,
                            argument,
                            distinct: aggregates[i].0.distinct,
                            separator: copy_text(&aggregates[i].0.separator),
                        },
                        aggregates[i].1.clone(),
                    ),
                );
                i = i + 1;
            }
            let made = GraphPattern::Group(
                Box::new(copy_pattern(inner)),
                copy_variables(keys),
                copy,
            );
            assert(pattern_view(made)->Group_2 =~= pattern_view(*pattern)->Group_2);
            made
        },
        GraphPattern::Project(inner, variables) => GraphPattern::Project(
            Box::new(copy_pattern(inner)),
            copy_variables(variables),
        ),
        GraphPattern::Distinct(inner) => GraphPattern::Distinct(Box::new(copy_pattern(inner))),
        GraphPattern::Reduced(inner) => GraphPattern::Reduced(Box::new(copy_pattern(inner))),
        GraphPattern::OrderBy(inner, comparators) => {
            let mut copy: Vec<OrderComparator> = Vec::new();
            let mut i: usize = 0;
            while i < comparators.len()
                invariant
                    i <= comparators@.len(),
                    copy@.len() == i,
                    forall|k: int|
                        0 <= k < i ==> expression_view((#[trigger] copy@[k]).expression)
                            == expression_view(comparators@[k].expression) && copy@[k].descending
                            == comparators@[k].descending,
                decreases comparators@.len() - i,
            {
                copy.push(
                    OrderComparator {
                        expression: copy_expression(&comparators[i].expression),
                        descending: comparators[i].descending,
                    },
                );
                i = i + 1;
            }
            let inner_copy = copy_pattern(inner);
            proof {
                lemma_order_view(inner_copy, copy);
                lemma_order_view(**inner, *comparators);
                assert(comparators_view(copy@) =~= comparators_view(comparators@));
            }
            GraphPattern::OrderBy(Box::new(inner_copy), copy)
        },
        GraphPattern::Slice(inner, start, length) => GraphPattern::Slice(
            Box::new(copy_pattern(inner)),
            *start,
            *length,
        ),
    }
}

fn copy_base(base_iri: &Option<String>) -> (copy: Option<String>)
    ensures
        copy == *base_iri,
{
    match base_iri {
        Some(base) => Some(base.clone()),
        None => None,
    }
}

/// A copy of a query.
pub fn copy_variants(variants: &QueryVariants) -> (copy: QueryVariants)
    ensures
        copy@ == variants@,
{
    match variants {
        QueryVariants::Select { algebra, base_iri } => QueryVariants::Select {
            algebra: copy_pattern(algebra),
            base_iri: copy_base(base_iri),
        },
        QueryVariants::Ask { algebra, base_iri } => QueryVariants::Ask {
            algebra: copy_pattern(algebra),
            base_iri: copy_base(base_iri),
        },
        QueryVariants::Construct { construct, algebra, base_iri } => QueryVariants::Construct {
            construct: copy_triples(construct),
            algebra: copy_pattern(algebra),
            base_iri: copy_base(base_iri),
        },
        QueryVariants::Describe { algebra, base_iri } => QueryVariants::Describe {
            algebra: copy_pattern(algebra),
            base_iri: copy_base(base_iri),
        },
    }
}

} // verus!
