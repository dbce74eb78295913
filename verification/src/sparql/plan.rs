use crate::model::term::{NamedNode, Variable};
use crate::sparql::algebra::{BinaryOperator, Function, GraphPattern, UnaryOperator};
use crate::sparql::dataset::Dataset;
use crate::sparql::dataset::{EncodedQuad, EncodedTerm};
use vstd::prelude::*;

verus! {

/// A binding row as a mathematical value: one slot for each variable of the plan,
/// `None` where the variable is unbound.
pub type Row = Seq<Option<EncodedTerm>>;

/// A binding row in executable code.
pub type EncodedTuple = Vec<Option<EncodedTerm>>;

/// A position of a quad pattern in a plan: an encoded constant, or the slot
/// of a variable.
#[derive(Clone, Copy, PartialEq, Eq, Structural, Debug, Hash)]
pub enum PatternValue {
    Constant(EncodedTerm),
    Variable(usize),
}

/// An expression over slots and encoded constants.
#[derive(PartialEq, Eq, Debug)]
pub enum PlanExpression {
    Constant(EncodedTerm),
    Variable(usize),
    Bound(usize),
    Unary(UnaryOperator, Box<PlanExpression>),
    Binary(BinaryOperator, Box<PlanExpression>, Box<PlanExpression>),
    If(Box<PlanExpression>, Box<PlanExpression>, Box<PlanExpression>),
    Coalesce(Vec<PlanExpression>),
    Exists(Box<PlanNode>),
    /// A built-in function that builds a text or reads one off a term.
    Call(Function, Vec<PlanExpression>),
}

/// The aggregate functions that a plan can hold.
#[derive(Clone, Copy, PartialEq, Eq, Structural, Debug, Hash)]
pub enum PlanAggregationFunction {
    Count,
    Sum,
    Min,
    Max,
    Sample,
    GroupConcat,
    Avg,
}

/// One aggregate of a group: the function, its argument (`None` for
/// `COUNT(*)`), whether equal values count once, the slot that takes the
/// result, and what `GROUP_CONCAT` puts between two texts.
#[derive(PartialEq, Eq, Debug)]
pub struct PlanAggregation {
    pub function: PlanAggregationFunction,
    pub parameter: Option<PlanExpression>,
    pub distinct: bool,
    pub slot: usize,
    pub separator: String,
}

/// One sort key: the expression, and whether larger values come first.
#[derive(PartialEq, Eq, Debug)]
pub struct Comparator {
    pub expression: PlanExpression,
    pub descending: bool,
}

/// A node of an executable plan: the algebra with variables resolved to
/// slots and constants encoded. Each node owns its children.
#[allow(inconsistent_fields)]
#[derive(PartialEq, Eq, Debug)]
pub enum PlanNode {
    /// Yields the input row.
    Init,
    /// Yields the given rows, each merged with the input row where they are
    /// compatible.
    StaticBindings { tuples: Vec<EncodedTuple> },
    /// The federated pattern with the given number: yields what its service
    /// answered for the slots of the variables of the pattern, each row
    /// merged with the input row where they are compatible; yields the
    /// input row alone where the service gave no answer.
    Service { id: usize, slots: Vec<usize> },
    /// Extends each row of `child` by each quad that matches the pattern.
    QuadPatternJoin {
        child: Box<PlanNode>,
        subject: PatternValue,
        predicate: PatternValue,
        object: PatternValue,
        graph_name: PatternValue,
    },
    Join { left: Box<PlanNode>, right: Box<PlanNode> },
    LeftJoin { left: Box<PlanNode>, right: Box<PlanNode>, expression: Option<PlanExpression> },
    Union { left: Box<PlanNode>, right: Box<PlanNode> },
    Minus { left: Box<PlanNode>, right: Box<PlanNode> },
    Filter { child: Box<PlanNode>, expression: PlanExpression },
    Extend { child: Box<PlanNode>, slot: usize, expression: PlanExpression },
    Project { child: Box<PlanNode>, slots: Vec<usize> },
    Group { child: Box<PlanNode>, keys: Vec<usize>, aggregates: Vec<PlanAggregation> },
    Sort { child: Box<PlanNode>, by: Vec<Comparator> },
    Distinct { child: Box<PlanNode> },
    Reduced { child: Box<PlanNode> },
    Slice { child: Box<PlanNode>, start: usize, length: Option<usize> },
}

/// One federated pattern of a query: the endpoint, the pattern to hand to
/// it, whether its failure is passed over, and the slot of each variable
/// that the pattern can bind.
#[derive(PartialEq, Eq, Debug)]
pub struct ServiceRequest {
    pub endpoint: NamedNode,
    pub pattern: GraphPattern,
    pub silent: bool,
    pub variables: Vec<(Variable, usize)>,
}

/// A triple of a `CONSTRUCT` template over slots and encoded constants.
#[derive(Clone, Copy, PartialEq, Eq, Structural, Debug, Hash)]
pub struct TripleTemplate {
    pub subject: PatternValue,
    pub predicate: PatternValue,
    pub object: PatternValue,
}

/// The row of `width` slots that binds nothing.
pub open spec fn unbound_row(width: nat) -> Row {
    Seq::new(width, |i: int| None)
}

/// Whether every row has `width` slots.
pub open spec fn all_width(rows: Seq<EncodedTuple>, width: nat) -> bool {
    forall|i: int| 0 <= i < rows.len() ==> (#[trigger] rows[i])@.len() == width
}

/// The views of a sequence of executable rows.
pub open spec fn rows_view(rows: Seq<EncodedTuple>) -> Seq<Row> {
    Seq::new(rows.len(), |i: int| rows[i]@)
}

/// What the services of a query answered, as mathematical values.
pub open spec fn answers_view(answers: Seq<Option<Vec<EncodedTuple>>>) -> Seq<Option<Seq<Row>>> {
    Seq::new(
        answers.len(),
        |i: int|
            match answers[i] {
                Some(tuples) => Some(rows_view(tuples@)),
                None => None,
            },
    )
}

/// Whether a service that is not silent gave no answer.
pub open spec fn is_unavailable(
    services: Seq<ServiceRequest>,
    answers: Seq<Option<Seq<Row>>>,
) -> bool {
    exists|i: int|
        0 <= i < services.len() && !(#[trigger] services[i]).silent && (i >= answers.len()
            || answers[i] is None)
}

/// What the service with number `id` answered, `None` where it gave no
/// answer or there is no such service.
pub open spec fn answer_at(dataset: Dataset, id: usize) -> Option<Seq<Row>> {
    if id < dataset.answers.len() {
        dataset.answers[id as int]
    } else {
        None
    }
}

/// `row` with `value` at `slot`: the row itself if the slot holds that
/// value, `None` if it holds another or the slot is out of range.
pub open spec fn bind_slot(row: Row, slot: int, value: EncodedTerm) -> Option<Row> {
    if 0 <= slot < row.len() {
        match row[slot] {
            None => Some(row.update(slot, Some(value))),
            Some(held) => if held == value {
                Some(row)
            } else {
                None
            },
        }
    } else {
        None
    }
}

/// `row` after a pattern position met `value`.
pub open spec fn bind_value(row: Row, position: PatternValue, value: EncodedTerm) -> Option<Row> {
    match position {
        PatternValue::Constant(constant) => if constant == value {
            Some(row)
        } else {
            None
        },
        PatternValue::Variable(slot) => bind_slot(row, slot as int, value),
    }
}

/// `row` after the graph position met the graph of a quad: a variable
/// ranges over the named graphs only.
pub open spec fn bind_graph(row: Row, position: PatternValue, name: EncodedTerm) -> Option<Row> {
    match position {
        PatternValue::Constant(constant) => if constant == name {
            Some(row)
        } else {
            None
        },
        PatternValue::Variable(slot) => if name == EncodedTerm::DefaultGraph {
            None
        } else {
            bind_slot(row, slot as int, name)
        },
    }
}

/// The four positions of a quad pattern.
pub struct QuadPattern {
    pub subject: PatternValue,
    pub predicate: PatternValue,
    pub object: PatternValue,
    pub graph_name: PatternValue,
}

/// `row` extended by `quad` under `pattern`, `None` where they disagree.
pub open spec fn bind_quad(row: Row, pattern: QuadPattern, quad: EncodedQuad) -> Option<Row> {
    match bind_value(row, pattern.subject, quad.subject) {
        None => None,
        Some(r1) => match bind_value(r1, pattern.predicate, quad.predicate) {
            None => None,
            Some(r2) => match bind_value(r2, pattern.object, quad.object) {
                None => None,
                Some(r3) => bind_graph(r3, pattern.graph_name, quad.graph_name),
            },
        },
    }
}

/// The extensions of `row` by the quads that match `pattern`, in the order
/// of the quads.
pub open spec fn scan_row(row: Row, pattern: QuadPattern, quads: Seq<EncodedQuad>) -> Seq<Row>
    decreases quads.len(),
{
    if quads.len() == 0 {
        Seq::empty()
    } else {
        let rest = scan_row(row, pattern, quads.drop_last());
        match bind_quad(row, pattern, quads.last()) {
            Some(extended) => rest.push(extended),
            None => rest,
        }
    }
}

/// For each row in turn, its extensions by the quads that match `pattern`.
pub open spec fn scan_each(rows: Seq<Row>, pattern: QuadPattern, quads: Seq<EncodedQuad>) -> Seq<
    Row,
>
    decreases rows.len(),
{
    if rows.len() == 0 {
        Seq::empty()
    } else {
        scan_each(rows.drop_last(), pattern, quads) + scan_row(rows.last(), pattern, quads)
    }
}

/// Whether two rows agree wherever both are bound.
pub open spec fn compatible(a: Row, b: Row) -> bool {
    &&& a.len() == b.len()
    &&& forall|i: int| 0 <= i < a.len() && #[trigger] a[i] is Some && b[i] is Some ==> a[i] == b[i]
}

/// The union of two rows: each slot of `a`, or of `b` where `a` is unbound.
pub open spec fn merge(a: Row, b: Row) -> Row {
    Seq::new(
        a.len(),
        |i: int|
            if a[i] is Some {
                a[i]
            } else {
                b[i]
            },
    )
}

/// Whether `b` binds every slot that `a` binds, to the same value.
pub open spec fn extends(b: Row, a: Row) -> bool {
    &&& a.len() == b.len()
    &&& forall|i: int| 0 <= i < a.len() && #[trigger] a[i] is Some ==> b[i] == a[i]
}

/// The given rows that are compatible with `from`, each merged with it.
pub open spec fn static_rows(from: Row, tuples: Seq<Row>) -> Seq<Row>
    decreases tuples.len(),
{
    if tuples.len() == 0 {
        Seq::empty()
    } else {
        let rest = static_rows(from, tuples.drop_last());
        if compatible(from, tuples.last()) {
            rest.push(merge(from, tuples.last()))
        } else {
            rest
        }
    }
}

/// Whether some slot is bound in both rows.
pub open spec fn shares_binding(a: Row, b: Row) -> bool {
    exists|i: int| 0 <= i < a.len() && i < b.len() && #[trigger] a[i] is Some && b[i] is Some
}

/// Whether some row of `rights` is compatible with `left` and shares a bound
/// slot with it.
pub open spec fn excluded(left: Row, rights: Seq<Row>) -> bool {
    exists|j: int|
        0 <= j < rights.len() && compatible(left, #[trigger] rights[j]) && shares_binding(
            left,
            rights[j],
        )
}

/// The rows of `lefts` that no row of `rights` excludes.
pub open spec fn minus_rows(lefts: Seq<Row>, rights: Seq<Row>) -> Seq<Row>
    decreases lefts.len(),
{
    if lefts.len() == 0 {
        Seq::empty()
    } else {
        let rest = minus_rows(lefts.drop_last(), rights);
        if excluded(lefts.last(), rights) {
            rest
        } else {
            rest.push(lefts.last())
        }
    }
}

/// `row` with every slot outside `slots` unbound.
pub open spec fn restrict(row: Row, slots: Seq<usize>) -> Row {
    Seq::new(
        row.len(),
        |i: int|
            if slots.contains(i as usize) {
                row[i]
            } else {
                None
            },
    )
}

/// Each row with every slot outside `slots` unbound.
pub open spec fn restrict_each(rows: Seq<Row>, slots: Seq<usize>) -> Seq<Row> {
    Seq::new(rows.len(), |i: int| restrict(rows[i], slots))
}

/// `from` with the slots in `slots` taken from `inner`.
pub open spec fn overlay(from: Row, inner: Row, slots: Seq<usize>) -> Row {
    Seq::new(
        from.len(),
        |i: int|
            if slots.contains(i as usize) {
                inner[i]
            } else {
                from[i]
            },
    )
}

/// Each row overlaid on `from`.
pub open spec fn overlay_each(from: Row, rows: Seq<Row>, slots: Seq<usize>) -> Seq<Row> {
    Seq::new(rows.len(), |i: int| overlay(from, rows[i], slots))
}

/// The rows without repeats: each row where it first occurs.
pub open spec fn distinct_rows(rows: Seq<Row>) -> Seq<Row>
    decreases rows.len(),
{
    if rows.len() == 0 {
        Seq::empty()
    } else {
        let rest = distinct_rows(rows.drop_last());
        if rest.contains(rows.last()) {
            rest
        } else {
            rest.push(rows.last())
        }
    }
}

/// The rows after the first `start`, at most `length` of them.
pub open spec fn slice_rows(rows: Seq<Row>, start: usize, length: Option<usize>) -> Seq<Row> {
    let first: int = if start <= rows.len() {
        start as int
    } else {
        rows.len() as int
    };
    let end: int = match length {
        Some(count) => if first + count <= rows.len() {
            first + count
        } else {
            rows.len() as int
        },
        None => rows.len() as int,
    };
    rows.subrange(first, end)
}

} // verus!
