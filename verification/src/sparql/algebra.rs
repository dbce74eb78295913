use crate::model::term::{NamedNode, Term, Variable};
use vstd::prelude::*;

verus! {

/// A position of a pattern: a fixed term or a variable.
#[derive(Eq, PartialEq, Debug, Hash)]
pub enum TermOrVariable {
    Term(Term),
    Variable(Variable),
}

impl Clone for TermOrVariable {
    fn clone(&self) -> (copy: Self)
        ensures
            copy.same_as(*self),
    {
        match self {
            TermOrVariable::Term(term) => TermOrVariable::Term(term.clone()),
            TermOrVariable::Variable(variable) => TermOrVariable::Variable(variable.clone()),
        }
    }
}

impl TermOrVariable {
    /// Whether the two positions hold the same term or the same variable.
    pub open spec fn same_as(self, other: Self) -> bool {
        match (self, other) {
            (TermOrVariable::Term(a), TermOrVariable::Term(b)) => a@ == b@,
            (TermOrVariable::Variable(a), TermOrVariable::Variable(b)) => a@ == b@,
            _ => false,
        }
    }
}

/// A triple pattern; inside `GRAPH` it stands for a quad pattern.
#[derive(Eq, PartialEq, Debug, Hash)]
pub struct TriplePattern {
    pub subject: TermOrVariable,
    pub predicate: TermOrVariable,
    pub object: TermOrVariable,
}

impl TriplePattern {
    /// The triple pattern with the given positions.
    pub fn new(subject: TermOrVariable, predicate: TermOrVariable, object: TermOrVariable) -> (pattern:
        Self)
        ensures
            pattern.subject == subject,
            pattern.predicate == predicate,
            pattern.object == object,
    {
        TriplePattern { subject, predicate, object }
    }
}

/// The operators with one operand: negation, the signs, the tests of the
/// kind of a term, the length of a string, the absolute value, and the parts
/// of a date with a time.
#[derive(Clone, Copy, PartialEq, Eq, Structural, Debug, Hash)]
pub enum UnaryOperator {
    Not,
    Plus,
    Minus,
    IsIri,
    IsBlank,
    IsLiteral,
    IsNumeric,
    StrLen,
    Abs,
    Year,
    Month,
    Day,
    Hours,
    Minutes,
}

/// The operators with two operands: the logical connectives, the
/// comparisons, `sameTerm`, the arithmetic on integers, and the tests on
/// strings.
#[derive(Clone, Copy, PartialEq, Eq, Structural, Debug, Hash)]
pub enum BinaryOperator {
    Or,
    And,
    Equal,
    NotEqual,
    Less,
    LessOrEqual,
    Greater,
    GreaterOrEqual,
    SameTerm,
    Add,
    Subtract,
    Multiply,
    Contains,
    StrStarts,
    StrEnds,
}

/// The built-in functions that the algebra names by a function call.
///
/// A row holds surrogates, and the surrogate of a text is its place in the
/// string store. `STR`, `LANG`, `DATATYPE`, `CONCAT`, `SUBSTR`, `UCASE` and
/// `LCASE` build a text, or read one off a term, that the store need not
/// hold; `SECONDS` and division give a decimal number, whose lexical form
/// the store need not hold either. The planner lowers them, and evaluation
/// interns what they build.
///
/// The planner refuses the others with `UnsupportedFeature`. `REGEX` and
/// `REPLACE` need a regular-expression engine, which this crate does not
/// have. `NOW` depends on the clock.
#[derive(Clone, Copy, PartialEq, Eq, Structural, Debug, Hash)]
pub enum Function {
    Str,
    Lang,
    Datatype,
    Concat,
    SubStr,
    UCase,
    LCase,
    Regex,
    Replace,
    Now,
    Seconds,
    Divide,
}

/// An expression of `FILTER`, `BIND`, `ORDER BY` or an aggregate.
#[derive(Eq, PartialEq, Debug, Hash)]
pub enum Expression {
    Constant(Term),
    Variable(Variable),
    Bound(Variable),
    Unary(UnaryOperator, Box<Expression>),
    Binary(BinaryOperator, Box<Expression>, Box<Expression>),
    If(Box<Expression>, Box<Expression>, Box<Expression>),
    Coalesce(Vec<Expression>),
    Exists(Box<GraphPattern>),
    FunctionCall(Function, Vec<Expression>),
}

/// The aggregate functions.
#[derive(Clone, Copy, PartialEq, Eq, Structural, Debug, Hash)]
pub enum AggregateFunction {
    Count,
    Sum,
    Min,
    Max,
    Avg,
    Sample,
    GroupConcat,
}

/// One aggregate of a `GROUP`: the function, its argument (`None` for
/// `COUNT(*)`), whether equal values count once, and the separator of
/// `GROUP_CONCAT`.
#[derive(Eq, PartialEq, Debug, Hash)]
pub struct Aggregation {
    pub function: AggregateFunction,
    pub argument: Option<Expression>,
    pub distinct: bool,
    pub separator: Option<String>,
}

/// One key of `ORDER BY`.
#[derive(Eq, PartialEq, Debug, Hash)]
pub struct OrderComparator {
    pub expression: Expression,
    pub descending: bool,
}

/// A graph pattern of the SPARQL algebra. Each node owns its children.
#[derive(Eq, PartialEq, Debug, Hash)]
pub enum GraphPattern {
    Bgp(Vec<TriplePattern>),
    Join(Box<GraphPattern>, Box<GraphPattern>),
    LeftJoin(Box<GraphPattern>, Box<GraphPattern>, Option<Expression>),
    Filter(Expression, Box<GraphPattern>),
    Union(Box<GraphPattern>, Box<GraphPattern>),
    Graph(TermOrVariable, Box<GraphPattern>),
    Extend(Box<GraphPattern>, Variable, Expression),
    Minus(Box<GraphPattern>, Box<GraphPattern>),
    Service(NamedNode, Box<GraphPattern>, bool),
    Group(Box<GraphPattern>, Vec<Variable>, Vec<(Aggregation, Variable)>),
    Project(Box<GraphPattern>, Vec<Variable>),
    Distinct(Box<GraphPattern>),
    Reduced(Box<GraphPattern>),
    OrderBy(Box<GraphPattern>, Vec<OrderComparator>),
    Slice(Box<GraphPattern>, usize, Option<usize>),
}

/// The four shapes of a query.
#[derive(Eq, PartialEq, Debug, Hash)]
pub enum QueryVariants {
    Select { algebra: GraphPattern, base_iri: Option<String> },
    Ask { algebra: GraphPattern, base_iri: Option<String> },
    Construct { construct: Vec<TriplePattern>, algebra: GraphPattern, base_iri: Option<String> },
    Describe { algebra: GraphPattern, base_iri: Option<String> },
}

} // verus!
