use crate::sparql::dataset::{Dataset, EncodedQuad, EncodedTerm};
use crate::sparql::laws::{join_of, lemma_distinct_rows, lemma_rows_extend};
use crate::sparql::plan::{
    bind_graph, bind_quad, bind_slot, bind_value, compatible, distinct_rows, excluded, merge,
    minus_rows, overlay, overlay_each, restrict, rows_view, scan_each, scan_row, shares_binding,
    answer_at, restrict_each, slice_rows, static_rows, unbound_row, PatternValue, PlanExpression,
    PlanNode, QuadPattern, Row,
};
use crate::sparql::semantics::{
    aggregate_of, aggregate_row, aggregate_values, coalesce_from, eval_expression, extend_each,
    extend_row, filter_each, group_each, holds, insert_sorted, join_each, keys_of, left_join_each,
    members_of, optional_matches, pattern_of, row_precedes, rows, sort_rows,
};
use vstd::prelude::*;

verus! {

/// Whether a pattern position is the variable of slot `k`.
pub open spec fn position_mentions(position: PatternValue, k: int) -> bool {
    position matches PatternValue::Variable(slot) && slot == k
}

/// Whether an expression reads slot `k`.
pub open spec fn expression_mentions(expression: PlanExpression, k: int) -> bool
    decreases expression,
{
    match expression {
        PlanExpression::Constant(_) => false,
        PlanExpression::Variable(slot) => slot == k,
        PlanExpression::Bound(slot) => slot == k,
        PlanExpression::Unary(_, a) => expression_mentions(*a, k),
        PlanExpression::Binary(_, a, b) => expression_mentions(*a, k) || expression_mentions(
            *b,
            k,
        ),
        PlanExpression::If(condition, a, b) => expression_mentions(*condition, k)
            || expression_mentions(*a, k) || expression_mentions(*b, k),
        PlanExpression::Coalesce(arguments) => exists|i: int|
            0 <= i < arguments.len() && expression_mentions(#[trigger] arguments[i], k),
        PlanExpression::Exists(pattern) => mentions(*pattern, k),
        PlanExpression::Call(_, arguments) => exists|i: int|
            0 <= i < arguments.len() && expression_mentions(#[trigger] arguments[i], k),
    }
}

/// Whether slot `k` is one of the variables of a plan: a slot that the plan
/// reads from its input row or binds in its output rows. A projection and a
/// group have the variables that they let out, not those inside them. A
/// federated pattern has the variables of the pattern that its service is
/// asked.
pub open spec fn mentions(node: PlanNode, k: int) -> bool
    decreases node,
{
    match node {
        PlanNode::Init => false,
        PlanNode::StaticBindings { tuples } => exists|i: int|
            0 <= i < tuples.len() && 0 <= k < (#[trigger] tuples[i]).len() && tuples[i][k] is Some,
        PlanNode::Service { slots, .. } => slots@.contains(k as usize),
        PlanNode::QuadPatternJoin { child, subject, predicate, object, graph_name } => mentions(
            *child,
            k,
        ) || position_mentions(subject, k) || position_mentions(predicate, k)
            || position_mentions(object, k) || position_mentions(graph_name, k),
        PlanNode::Join { left, right } => mentions(*left, k) || mentions(*right, k),
        PlanNode::LeftJoin { left, right, expression } => mentions(*left, k) || mentions(
            *right,
            k,
        ) || (expression matches Some(condition) && expression_mentions(condition, k)),
        PlanNode::Union { left, right } => mentions(*left, k) || mentions(*right, k),
        PlanNode::Minus { left, right } => mentions(*left, k) || mentions(*right, k),
        PlanNode::Filter { child, expression } => mentions(*child, k) || expression_mentions(
            expression,
            k,
        ),
        PlanNode::Extend { child, slot, expression } => mentions(*child, k) || slot == k
            || expression_mentions(expression, k),
        PlanNode::Project { slots, .. } => slots@.contains(k as usize),
        PlanNode::Group { keys, aggregates, .. } => keys@.contains(k as usize) || exists|j: int|
            0 <= j < aggregates.len() && (#[trigger] aggregates[j]).slot == k,
        PlanNode::Sort { child, by } => mentions(*child, k) || exists|j: int|
            0 <= j < by.len() && expression_mentions((#[trigger] by[j]).expression, k),
        PlanNode::Distinct { child } => mentions(*child, k),
        PlanNode::Reduced { child } => mentions(*child, k),
        PlanNode::Slice { child, .. } => mentions(*child, k),
    }
}

/// Whether `m` holds every variable of a plan.
pub open spec fn covers(m: Set<int>, node: PlanNode) -> bool {
    forall|k: int| mentions(node, k) ==> m.contains(k)
}

/// Whether `m` holds every slot that an expression reads.
pub open spec fn covers_expression(m: Set<int>, expression: PlanExpression) -> bool {
    forall|k: int| expression_mentions(expression, k) ==> m.contains(k)
}

/// Whether two rows of the same width hold the same in every slot of `m`.
pub open spec fn agree_on(a: Row, b: Row, m: Set<int>) -> bool {
    &&& a.len() == b.len()
    &&& forall|k: int| 0 <= k < a.len() && m.contains(k) ==> a[k] == b[k]
}

/// `row` inside `m`, `b` outside it.
pub open spec fn retarget(row: Row, b: Row, m: Set<int>) -> Row {
    Seq::new(
        row.len(),
        |k: int|
            if m.contains(k) {
                row[k]
            } else {
                b[k]
            },
    )
}

/// Each row retargeted.
pub open spec fn retarget_each(rows: Seq<Row>, b: Row, m: Set<int>) -> Seq<Row> {
    Seq::new(rows.len(), |i: int| retarget(rows[i], b, m))
}

/// A row retargeted, where there is one.
pub open spec fn retarget_option(row: Option<Row>, b: Row, m: Set<int>) -> Option<Row> {
    match row {
        Some(r) => Some(retarget(r, b, m)),
        None => None,
    }
}

/// Whether every row has `width` slots.
pub open spec fn all_wide(rows: Seq<Row>, width: nat) -> bool {
    forall|i: int| 0 <= i < rows.len() ==> (#[trigger] rows[i]).len() == width
}

proof fn lemma_rows_wide(node: PlanNode, dataset: Dataset, from: Row)
    ensures
        all_wide(rows(node, dataset, from), from.len()),
{
    lemma_rows_extend(node, dataset, from);
}

proof fn lemma_retarget_each_concat(x: Seq<Row>, y: Seq<Row>, b: Row, m: Set<int>)
    ensures
        retarget_each(x + y, b, m) == retarget_each(x, b, m) + retarget_each(y, b, m),
{
    assert(retarget_each(x + y, b, m) =~= retarget_each(x, b, m) + retarget_each(y, b, m));
}

proof fn lemma_retarget_each_push(x: Seq<Row>, row: Row, b: Row, m: Set<int>)
    ensures
        retarget_each(x.push(row), b, m) == retarget_each(x, b, m).push(retarget(row, b, m)),
{
    assert(retarget_each(x.push(row), b, m) =~= retarget_each(x, b, m).push(retarget(row, b, m)));
}

proof fn lemma_retarget_each_drop_last(x: Seq<Row>, b: Row, m: Set<int>)
    requires
        x.len() > 0,
    ensures
        retarget_each(x, b, m).drop_last() == retarget_each(x.drop_last(), b, m),
        retarget_each(x, b, m).last() == retarget(x.last(), b, m),
{
    assert(retarget_each(x, b, m).drop_last() =~= retarget_each(x.drop_last(), b, m));
}

proof fn lemma_all_wide_drop_last(x: Seq<Row>, width: nat)
    requires
        all_wide(x, width),
        x.len() > 0,
    ensures
        all_wide(x.drop_last(), width),
        x.last().len() == width,
{
    assert forall|i: int| 0 <= i < x.drop_last().len() implies (#[trigger] x.drop_last()[i]).len()
        == width by {
        assert(x.drop_last()[i] == x[i]);
    }
}

/// Retargeting to a row that agrees with the target outside `m` is
/// retargeting to the target.
proof fn lemma_retarget_each_same(x: Seq<Row>, b: Row, c: Row, m: Set<int>)
    requires
        all_wide(x, b.len()),
        b.len() == c.len(),
        forall|k: int| 0 <= k < b.len() && !m.contains(k) ==> b[k] == c[k],
    ensures
        retarget_each(x, b, m) == retarget_each(x, c, m),
{
    assert forall|i: int| 0 <= i < x.len() implies retarget(#[trigger] x[i], b, m) == retarget(
        x[i],
        c,
        m,
    ) by {
        assert(retarget(x[i], b, m) =~= retarget(x[i], c, m));
    }
    assert(retarget_each(x, b, m) =~= retarget_each(x, c, m));
}

proof fn lemma_bind_slot_frame(row: Row, b: Row, m: Set<int>, slot: int, value: EncodedTerm)
    requires
        row.len() == b.len(),
        m.contains(slot),
    ensures
        bind_slot(retarget(row, b, m), slot, value) == retarget_option(
            bind_slot(row, slot, value),
            b,
            m,
        ),
{
    if 0 <= slot < row.len() {
        let target = retarget(row, b, m);
        assert(target[slot] == row[slot]);
        if row[slot] is None {
            assert(target.update(slot, Some(value)) =~= retarget(
                row.update(slot, Some(value)),
                b,
                m,
            ));
        }
    }
}

proof fn lemma_bind_value_frame(
    row: Row,
    b: Row,
    m: Set<int>,
    position: PatternValue,
    value: EncodedTerm,
)
    requires
        row.len() == b.len(),
        forall|k: int| position_mentions(position, k) ==> m.contains(k),
    ensures
        bind_value(retarget(row, b, m), position, value) == retarget_option(
            bind_value(row, position, value),
            b,
            m,
        ),
        bind_value(row, position, value) matches Some(r) ==> r.len() == row.len(),
{
    match position {
        PatternValue::Constant(_) => {},
        PatternValue::Variable(slot) => {
            assert(position_mentions(position, slot as int));
            lemma_bind_slot_frame(row, b, m, slot as int, value);
        },
    }
}

proof fn lemma_bind_graph_frame(
    row: Row,
    b: Row,
    m: Set<int>,
    position: PatternValue,
    value: EncodedTerm,
)
    requires
        row.len() == b.len(),
        forall|k: int| position_mentions(position, k) ==> m.contains(k),
    ensures
        bind_graph(retarget(row, b, m), position, value) == retarget_option(
            bind_graph(row, position, value),
            b,
            m,
        ),
{
    match position {
        PatternValue::Constant(_) => {},
        PatternValue::Variable(slot) => {
            assert(position_mentions(position, slot as int));
            lemma_bind_slot_frame(row, b, m, slot as int, value);
        },
    }
}

/// Whether `m` holds the variables of a quad pattern.
pub open spec fn covers_pattern(m: Set<int>, pattern: QuadPattern) -> bool {
    forall|k: int|
        position_mentions(pattern.subject, k) || position_mentions(pattern.predicate, k)
            || position_mentions(pattern.object, k) || position_mentions(pattern.graph_name, k)
            ==> m.contains(k)
}

proof fn lemma_bind_quad_frame(row: Row, b: Row, m: Set<int>, pattern: QuadPattern, quad: EncodedQuad)
    requires
        row.len() == b.len(),
        covers_pattern(m, pattern),
    ensures
        bind_quad(retarget(row, b, m), pattern, quad) == retarget_option(
            bind_quad(row, pattern, quad),
            b,
            m,
        ),
{
    lemma_bind_value_frame(row, b, m, pattern.subject, quad.subject);
    if let Some(r1) = bind_value(row, pattern.subject, quad.subject) {
        lemma_bind_value_frame(r1, b, m, pattern.predicate, quad.predicate);
        if let Some(r2) = bind_value(r1, pattern.predicate, quad.predicate) {
            lemma_bind_value_frame(r2, b, m, pattern.object, quad.object);
            if let Some(r3) = bind_value(r2, pattern.object, quad.object) {
                lemma_bind_graph_frame(r3, b, m, pattern.graph_name, quad.graph_name);
            }
        }
    }
}

proof fn lemma_scan_row_frame(
    row: Row,
    b: Row,
    m: Set<int>,
    pattern: QuadPattern,
    quads: Seq<EncodedQuad>,
)
    requires
        row.len() == b.len(),
        covers_pattern(m, pattern),
    ensures
        scan_row(retarget(row, b, m), pattern, quads) == retarget_each(
            scan_row(row, pattern, quads),
            b,
            m,
        ),
    decreases quads.len(),
{
    if quads.len() > 0 {
        lemma_scan_row_frame(row, b, m, pattern, quads.drop_last());
        lemma_bind_quad_frame(row, b, m, pattern, quads.last());
        if let Some(extended) = bind_quad(row, pattern, quads.last()) {
            lemma_retarget_each_push(
                scan_row(row, pattern, quads.drop_last()),
                extended,
                b,
                m,
            );
        }
    } else {
        assert(retarget_each(Seq::<Row>::empty(), b, m) =~= Seq::<Row>::empty());
    }
}

proof fn lemma_scan_each_frame(
    input: Seq<Row>,
    b: Row,
    m: Set<int>,
    pattern: QuadPattern,
    quads: Seq<EncodedQuad>,
)
    requires
        all_wide(input, b.len()),
        covers_pattern(m, pattern),
    ensures
        scan_each(retarget_each(input, b, m), pattern, quads) == retarget_each(
            scan_each(input, pattern, quads),
            b,
            m,
        ),
    decreases input.len(),
{
    if input.len() > 0 {
        lemma_all_wide_drop_last(input, b.len());
        lemma_retarget_each_drop_last(input, b, m);
        lemma_scan_each_frame(input.drop_last(), b, m, pattern, quads);
        lemma_scan_row_frame(input.last(), b, m, pattern, quads);
        lemma_retarget_each_concat(
            scan_each(input.drop_last(), pattern, quads),
            scan_row(input.last(), pattern, quads),
            b,
            m,
        );
    } else {
        assert(retarget_each(Seq::<Row>::empty(), b, m) =~= Seq::<Row>::empty());
        assert(retarget_each(input, b, m) =~= Seq::<Row>::empty());
    }
}

proof fn lemma_static_rows_frame(a: Row, b: Row, m: Set<int>, tuples: Seq<Row>)
    requires
        agree_on(a, b, m),
        forall|i: int, k: int|
            0 <= i < tuples.len() && 0 <= k < tuples[i].len() && (#[trigger] tuples[i][k]) is Some
                ==> m.contains(k),
    ensures
        static_rows(b, tuples) == retarget_each(static_rows(a, tuples), b, m),
    decreases tuples.len(),
{
    if tuples.len() > 0 {
        let head = tuples.drop_last();
        let t = tuples.last();
        assert forall|i: int, k: int|
            0 <= i < head.len() && 0 <= k < head[i].len() && (#[trigger] head[i][k]) is Some implies m.contains(
            k,
        ) by {
            assert(head[i] == tuples[i]);
            assert(tuples[i][k] is Some);
        }
        lemma_static_rows_frame(a, b, m, head);
        assert(t == tuples[tuples.len() - 1]);
        assert(compatible(a, t) == compatible(b, t)) by {
            if a.len() == t.len() {
                if compatible(a, t) {
                    assert forall|i: int| 0 <= i < b.len() && #[trigger] b[i] is Some && t[i] is Some implies b[i]
                        == t[i] by {
                        assert(m.contains(i));
                        assert(a[i] is Some);
                    }
                }
                if compatible(b, t) {
                    assert forall|i: int| 0 <= i < a.len() && #[trigger] a[i] is Some && t[i] is Some implies a[i]
                        == t[i] by {
                        assert(m.contains(i));
                        assert(b[i] is Some);
                    }
                }
            }
        }
        if compatible(a, t) {
            assert(merge(b, t) =~= retarget(merge(a, t), b, m)) by {
                assert forall|k: int| 0 <= k < b.len() implies merge(b, t)[k] == retarget(
                    merge(a, t),
                    b,
                    m,
                )[k] by {
                    if !m.contains(k) {
                        if t[k] is Some {
                            assert(tuples[tuples.len() - 1][k] is Some);
                        }
                        assert(t[k] is None);
                    }
                }
            }
            lemma_retarget_each_push(static_rows(a, head), merge(a, t), b, m);
        }
    } else {
        assert(retarget_each(Seq::<Row>::empty(), b, m) =~= Seq::<Row>::empty());
    }
}

/// Whether every row binds only slots of `m`.
pub open spec fn all_bind_within(rows: Seq<Row>, m: Set<int>) -> bool {
    forall|j: int, k: int|
        0 <= j < rows.len() && 0 <= k < rows[j].len() && (#[trigger] rows[j][k]) is Some
            ==> m.contains(k)
}

proof fn lemma_excluded_frame(left: Row, b: Row, m: Set<int>, rights: Seq<Row>)
    requires
        left.len() == b.len(),
        all_bind_within(rights, m),
    ensures
        excluded(retarget(left, b, m), rights) == excluded(left, rights),
{
    let target = retarget(left, b, m);
    assert forall|j: int| 0 <= j < rights.len() implies (compatible(target, #[trigger] rights[j])
        && shares_binding(target, rights[j])) == (compatible(left, rights[j]) && shares_binding(
        left,
        rights[j],
    )) by {
        let r = rights[j];
        if left.len() == r.len() {
            if compatible(left, r) {
                assert forall|i: int|
                    0 <= i < target.len() && #[trigger] target[i] is Some && r[i] is Some implies target[i]
                    == r[i] by {
                    assert(m.contains(i));
                    assert(left[i] is Some);
                }
            }
            if compatible(target, r) {
                assert forall|i: int|
                    0 <= i < left.len() && #[trigger] left[i] is Some && r[i] is Some implies left[i]
                    == r[i] by {
                    assert(m.contains(i));
                    assert(target[i] is Some);
                }
            }
            if shares_binding(left, r) {
                let i = choose|i: int|
                    0 <= i < left.len() && i < r.len() && #[trigger] left[i] is Some && r[i] is Some;
                assert(m.contains(i));
                assert(target[i] is Some && r[i] is Some);
            }
            if shares_binding(target, r) {
                let i = choose|i: int|
                    0 <= i < target.len() && i < r.len() && #[trigger] target[i] is Some
                        && r[i] is Some;
                assert(m.contains(i));
                assert(left[i] is Some && r[i] is Some);
            }
        }
    }
    if excluded(left, rights) {
        let j = choose|j: int|
            0 <= j < rights.len() && compatible(left, #[trigger] rights[j]) && shares_binding(
                left,
                rights[j],
            );
        assert(compatible(target, rights[j]) && shares_binding(target, rights[j]));
    }
    if excluded(target, rights) {
        let j = choose|j: int|
            0 <= j < rights.len() && compatible(target, #[trigger] rights[j]) && shares_binding(
                target,
                rights[j],
            );
        assert(compatible(left, rights[j]) && shares_binding(left, rights[j]));
    }
}

proof fn lemma_minus_rows_frame(lefts: Seq<Row>, b: Row, m: Set<int>, rights: Seq<Row>)
    requires
        all_wide(lefts, b.len()),
        all_bind_within(rights, m),
    ensures
        minus_rows(retarget_each(lefts, b, m), rights) == retarget_each(
            minus_rows(lefts, rights),
            b,
            m,
        ),
    decreases lefts.len(),
{
    if lefts.len() > 0 {
        lemma_all_wide_drop_last(lefts, b.len());
        lemma_retarget_each_drop_last(lefts, b, m);
        lemma_minus_rows_frame(lefts.drop_last(), b, m, rights);
        lemma_excluded_frame(lefts.last(), b, m, rights);
        lemma_retarget_each_push(minus_rows(lefts.drop_last(), rights), lefts.last(), b, m);
    } else {
        assert(retarget_each(Seq::<Row>::empty(), b, m) =~= Seq::<Row>::empty());
        assert(retarget_each(lefts, b, m) =~= Seq::<Row>::empty());
    }
}

/// Whether every row is `a` outside `m`.
pub open spec fn all_rest_on(rows: Seq<Row>, a: Row, m: Set<int>) -> bool {
    forall|i: int| 0 <= i < rows.len() ==> #[trigger] rows[i] == retarget(rows[i], a, m)
}

proof fn lemma_retarget_injective(r1: Row, r2: Row, a: Row, b: Row, m: Set<int>)
    requires
        r1 == retarget(r1, a, m),
        r2 == retarget(r2, a, m),
        r1.len() == r2.len(),
        r1.len() == b.len(),
        retarget(r1, b, m) == retarget(r2, b, m),
    ensures
        r1 == r2,
{
    assert forall|k: int| 0 <= k < r1.len() implies r1[k] == r2[k] by {
        if m.contains(k) {
            assert(retarget(r1, b, m)[k] == r1[k]);
            assert(retarget(r2, b, m)[k] == r2[k]);
        } else {
            assert(retarget(r1, a, m)[k] == a[k]);
            assert(retarget(r2, a, m)[k] == a[k]);
        }
    }
    assert(r1 =~= r2);
}

proof fn lemma_distinct_rows_frame(input: Seq<Row>, a: Row, b: Row, m: Set<int>)
    requires
        all_wide(input, b.len()),
        all_rest_on(input, a, m),
    ensures
        distinct_rows(retarget_each(input, b, m)) == retarget_each(distinct_rows(input), b, m),
    decreases input.len(),
{
    if input.len() > 0 {
        let head = input.drop_last();
        let last = input.last();
        lemma_all_wide_drop_last(input, b.len());
        lemma_retarget_each_drop_last(input, b, m);
        assert forall|i: int| 0 <= i < head.len() implies #[trigger] head[i] == retarget(
            head[i],
            a,
            m,
        ) by {
            assert(head[i] == input[i]);
        }
        lemma_distinct_rows_frame(head, a, b, m);
        let rest = distinct_rows(head);
        let target_rest = retarget_each(rest, b, m);
        lemma_distinct_rows(head);
        assert(last == input[input.len() - 1]);
        assert(target_rest.contains(retarget(last, b, m)) == rest.contains(last)) by {
            if rest.contains(last) {
                let k = choose|k: int| 0 <= k < rest.len() && rest[k] == last;
                assert(target_rest[k] == retarget(last, b, m));
            }
            if target_rest.contains(retarget(last, b, m)) {
                let k = choose|k: int|
                    0 <= k < target_rest.len() && target_rest[k] == retarget(last, b, m);
                assert(rest.contains(rest[k]));
                assert(head.contains(rest[k]));
                let j = choose|j: int| 0 <= j < head.len() && head[j] == rest[k];
                assert(head[j] == retarget(head[j], a, m));
                lemma_retarget_injective(rest[k], last, a, b, m);
            }
        }
        lemma_retarget_each_push(rest, last, b, m);
    } else {
        assert(retarget_each(Seq::<Row>::empty(), b, m) =~= Seq::<Row>::empty());
        assert(retarget_each(input, b, m) =~= Seq::<Row>::empty());
    }
}

proof fn lemma_agree_with_retarget(row: Row, b: Row, m: Set<int>)
    requires
        row.len() == b.len(),
    ensures
        agree_on(row, retarget(row, b, m), m),
        retarget(row, b, m).len() == b.len(),
        forall|k: int| 0 <= k < b.len() && !m.contains(k) ==> retarget(row, b, m)[k] == b[k],
{
}

/// The value of an expression depends only on the slots that it reads.
pub proof fn lemma_expression_frame(
    expression: PlanExpression,
    dataset: Dataset,
    r1: Row,
    r2: Row,
    m: Set<int>,
)
    requires
        covers_expression(m, expression),
        agree_on(r1, r2, m),
    ensures
        eval_expression(expression, dataset, r2) == eval_expression(expression, dataset, r1),
    decreases expression, 3int, 0int,
{
    match expression {
        PlanExpression::Constant(_) => {},
        PlanExpression::Variable(slot) => {
            assert(expression_mentions(expression, slot as int));
        },
        PlanExpression::Bound(slot) => {
            assert(expression_mentions(expression, slot as int));
        },
        PlanExpression::Unary(_, a) => {
            assert forall|k: int| expression_mentions(*a, k) implies m.contains(k) by {
                assert(expression_mentions(expression, k));
            }
            lemma_expression_frame(*a, dataset, r1, r2, m);
        },
        PlanExpression::Binary(_, x, y) => {
            assert forall|k: int| expression_mentions(*x, k) implies m.contains(k) by {
                assert(expression_mentions(expression, k));
            }
            assert forall|k: int| expression_mentions(*y, k) implies m.contains(k) by {
                assert(expression_mentions(expression, k));
            }
            lemma_expression_frame(*x, dataset, r1, r2, m);
            lemma_expression_frame(*y, dataset, r1, r2, m);
        },
        PlanExpression::If(condition, x, y) => {
            assert forall|k: int| expression_mentions(*condition, k) implies m.contains(k) by {
                assert(expression_mentions(expression, k));
            }
            assert forall|k: int| expression_mentions(*x, k) implies m.contains(k) by {
                assert(expression_mentions(expression, k));
            }
            assert forall|k: int| expression_mentions(*y, k) implies m.contains(k) by {
                assert(expression_mentions(expression, k));
            }
            lemma_expression_frame(*condition, dataset, r1, r2, m);
            lemma_expression_frame(*x, dataset, r1, r2, m);
            lemma_expression_frame(*y, dataset, r1, r2, m);
        },
        PlanExpression::Coalesce(arguments) => {
            lemma_coalesce_frame(expression, dataset, r1, r2, m, 0);
        },
        PlanExpression::Exists(pattern) => {
            assert forall|k: int| mentions(*pattern, k) implies m.contains(k) by {
                assert(expression_mentions(expression, k));
            }
            lemma_frame(*pattern, dataset, r1, r2, m);
        },
        PlanExpression::Call(_, arguments) => {
            lemma_call_frame(expression, dataset, r1, r2, m, arguments.len() as int);
        },
    }
}

proof fn lemma_call_frame(
    expression: PlanExpression,
    dataset: Dataset,
    r1: Row,
    r2: Row,
    m: Set<int>,
    n: int,
)
    requires
        expression is Call,
        covers_expression(m, expression),
        agree_on(r1, r2, m),
    ensures
        crate::sparql::semantics::call_values(expression, dataset, r2, n)
            == crate::sparql::semantics::call_values(expression, dataset, r1, n),
    decreases expression, 2int, n,
{
    match expression {
        PlanExpression::Call(_, arguments) => {
            if 0 < n <= arguments.len() {
                assert forall|k: int| expression_mentions(arguments[n - 1], k) implies m.contains(
                    k,
                ) by {
                    assert(expression_mentions(expression, k));
                }
                lemma_expression_frame(arguments[n - 1], dataset, r1, r2, m);
                lemma_call_frame(expression, dataset, r1, r2, m, n - 1);
            }
        },
        _ => {},
    }
}

proof fn lemma_coalesce_frame(
    expression: PlanExpression,
    dataset: Dataset,
    r1: Row,
    r2: Row,
    m: Set<int>,
    i: int,
)
    requires
        expression is Coalesce,
        covers_expression(m, expression),
        agree_on(r1, r2, m),
        0 <= i,
    ensures
        coalesce_from(expression, dataset, r2, i) == coalesce_from(expression, dataset, r1, i),
    decreases expression, 2int, expression->Coalesce_0.len() - i,
{
    match expression {
        PlanExpression::Coalesce(arguments) => {
            if i < arguments.len() {
                assert forall|k: int| expression_mentions(arguments[i], k) implies m.contains(
                    k,
                ) by {
                    assert(expression_mentions(expression, k));
                }
                lemma_expression_frame(arguments[i], dataset, r1, r2, m);
                lemma_coalesce_frame(expression, dataset, r1, r2, m, i + 1);
            }
        },
        _ => {},
    }
}

/// What a plan yields depends on its input row only through its variables:
/// from two rows that agree on a set of slots that holds them, it yields the
/// same rows up to the slots outside the set, which each output row takes
/// from its input row.
#[verifier::rlimit(40)]
pub proof fn lemma_frame(node: PlanNode, dataset: Dataset, a: Row, b: Row, m: Set<int>)
    requires
        covers(m, node),
        agree_on(a, b, m),
    ensures
        rows(node, dataset, b) == retarget_each(rows(node, dataset, a), b, m),
    decreases node, 3int, 0int,
{
    lemma_rows_wide(node, dataset, a);
    match node {
        PlanNode::Init => {
            assert(retarget(a, b, m) =~= b);
            assert(seq![b] =~= retarget_each(seq![a], b, m));
        },
        PlanNode::Service { id, slots } => {
            match answer_at(dataset, id) {
                Some(tuples) => {
                    let given = restrict_each(tuples, slots@);
                    assert forall|i: int, k: int|
                        0 <= i < given.len() && 0 <= k < given[i].len() && (
                        #[trigger] given[i][k]) is Some implies m.contains(k) by {
                        assert(slots@.contains(k as usize));
                        assert(mentions(node, k));
                    }
                    lemma_static_rows_frame(a, b, m, given);
                },
                None => {
                    assert(retarget(a, b, m) =~= b);
                    assert(seq![b] =~= retarget_each(seq![a], b, m));
                },
            }
        },
        PlanNode::StaticBindings { tuples } => {
            let given = rows_view(tuples@);
            assert forall|i: int, k: int|
                0 <= i < given.len() && 0 <= k < given[i].len() && (#[trigger] given[i][k]) is Some implies m.contains(
                k,
            ) by {
                assert(tuples[i][k] is Some);
                assert(mentions(node, k));
            }
            lemma_static_rows_frame(a, b, m, given);
        },
        PlanNode::QuadPatternJoin { child, .. } => {
            assert forall|k: int| mentions(*child, k) implies m.contains(k) by {
                assert(mentions(node, k));
            }
            assert(covers_pattern(m, pattern_of(node))) by {
                assert forall|k: int|
                    position_mentions(pattern_of(node).subject, k) || position_mentions(
                        pattern_of(node).predicate,
                        k,
                    ) || position_mentions(pattern_of(node).object, k) || position_mentions(
                        pattern_of(node).graph_name,
                        k,
                    ) implies m.contains(k) by {
                    assert(mentions(node, k));
                }
            }
            lemma_frame(*child, dataset, a, b, m);
            lemma_rows_wide(*child, dataset, a);
            lemma_scan_each_frame(
                rows(*child, dataset, a),
                b,
                m,
                pattern_of(node),
                dataset.quads,
            );
        },
        PlanNode::Join { left, .. } => {
            assert forall|k: int| mentions(*left, k) implies m.contains(k) by {
                assert(mentions(node, k));
            }
            lemma_frame(*left, dataset, a, b, m);
            lemma_rows_wide(*left, dataset, a);
            lemma_join_each_frame(node, dataset, rows(*left, dataset, a), b, m);
        },
        PlanNode::LeftJoin { left, .. } => {
            assert forall|k: int| mentions(*left, k) implies m.contains(k) by {
                assert(mentions(node, k));
            }
            lemma_frame(*left, dataset, a, b, m);
            lemma_rows_wide(*left, dataset, a);
            lemma_left_join_each_frame(node, dataset, rows(*left, dataset, a), b, m);
        },
        PlanNode::Union { left, right } => {
            assert forall|k: int| mentions(*left, k) implies m.contains(k) by {
                assert(mentions(node, k));
            }
            assert forall|k: int| mentions(*right, k) implies m.contains(k) by {
                assert(mentions(node, k));
            }
            lemma_frame(*left, dataset, a, b, m);
            lemma_frame(*right, dataset, a, b, m);
            lemma_retarget_each_concat(
                rows(*left, dataset, a),
                rows(*right, dataset, a),
                b,
                m,
            );
        },
        PlanNode::Minus { left, right } => {
            assert forall|k: int| mentions(*left, k) implies m.contains(k) by {
                assert(mentions(node, k));
            }
            assert forall|k: int| mentions(*right, k) implies m.contains(k) by {
                assert(mentions(node, k));
            }
            lemma_frame(*left, dataset, a, b, m);
            lemma_rows_wide(*left, dataset, a);
            let start = unbound_row(a.len());
            let rights = rows(*right, dataset, start);
            lemma_frame(*right, dataset, start, start, m);
            lemma_rows_wide(*right, dataset, start);
            assert forall|j: int, k: int|
                0 <= j < rights.len() && 0 <= k < rights[j].len() && (#[trigger] rights[j][k]) is Some implies m.contains(
                k,
            ) by {
                assert(rights[j] == retarget_each(rights, start, m)[j]);
                assert(rights[j][k] == retarget(rights[j], start, m)[k]);
            }
            lemma_minus_rows_frame(rows(*left, dataset, a), b, m, rights);
        },
        PlanNode::Filter { child, .. } => {
            assert forall|k: int| mentions(*child, k) implies m.contains(k) by {
                assert(mentions(node, k));
            }
            lemma_frame(*child, dataset, a, b, m);
            lemma_rows_wide(*child, dataset, a);
            lemma_filter_each_frame(node, dataset, rows(*child, dataset, a), b, m);
        },
        PlanNode::Extend { child, .. } => {
            assert forall|k: int| mentions(*child, k) implies m.contains(k) by {
                assert(mentions(node, k));
            }
            lemma_frame(*child, dataset, a, b, m);
            lemma_rows_wide(*child, dataset, a);
            lemma_extend_each_frame(node, dataset, rows(*child, dataset, a), b, m);
        },
        PlanNode::Project { child, slots } => {
            assert(restrict(a, slots@) =~= restrict(b, slots@)) by {
                assert forall|k: int| 0 <= k < a.len() implies restrict(a, slots@)[k] == restrict(
                    b,
                    slots@,
                )[k] by {
                    if slots@.contains(k as usize) {
                        assert(mentions(node, k));
                    }
                }
            }
            let inner = rows(*child, dataset, restrict(a, slots@));
            assert forall|i: int| 0 <= i < inner.len() implies overlay(
                b,
                #[trigger] inner[i],
                slots@,
            ) == retarget(overlay(a, inner[i], slots@), b, m) by {
                assert forall|k: int| 0 <= k < b.len() implies overlay(b, inner[i], slots@)[k]
                    == retarget(overlay(a, inner[i], slots@), b, m)[k] by {
                    if slots@.contains(k as usize) {
                        assert(mentions(node, k));
                    }
                }
                assert(overlay(b, inner[i], slots@) =~= retarget(
                    overlay(a, inner[i], slots@),
                    b,
                    m,
                ));
            }
            assert(overlay_each(b, inner, slots@) =~= retarget_each(
                overlay_each(a, inner, slots@),
                b,
                m,
            ));
        },
        PlanNode::Group { child, keys, .. } => {
            assert(restrict(a, keys@) =~= restrict(b, keys@)) by {
                assert forall|k: int| 0 <= k < a.len() implies restrict(a, keys@)[k] == restrict(
                    b,
                    keys@,
                )[k] by {
                    if keys@.contains(k as usize) {
                        assert(mentions(node, k));
                    }
                }
            }
            let input = rows(*child, dataset, restrict(a, keys@));
            lemma_group_each_frame(
                node,
                dataset,
                a,
                b,
                m,
                input,
                distinct_rows(keys_of(input, keys@)),
            );
        },
        PlanNode::Sort { child, .. } => {
            assert forall|k: int| mentions(*child, k) implies m.contains(k) by {
                assert(mentions(node, k));
            }
            lemma_frame(*child, dataset, a, b, m);
            lemma_rows_wide(*child, dataset, a);
            lemma_sort_rows_frame(node, dataset, rows(*child, dataset, a), b, m);
        },
        PlanNode::Distinct { child } => {
            assert forall|k: int| mentions(*child, k) implies m.contains(k) by {
                assert(mentions(node, k));
            }
            lemma_frame(*child, dataset, a, b, m);
            lemma_frame(*child, dataset, a, a, m);
            lemma_rows_wide(*child, dataset, a);
            let input = rows(*child, dataset, a);
            assert forall|i: int| 0 <= i < input.len() implies #[trigger] input[i] == retarget(
                input[i],
                a,
                m,
            ) by {
                assert(input[i] == retarget_each(input, a, m)[i]);
            }
            lemma_distinct_rows_frame(input, a, b, m);
        },
        PlanNode::Reduced { child } => {
            assert forall|k: int| mentions(*child, k) implies m.contains(k) by {
                assert(mentions(node, k));
            }
            lemma_frame(*child, dataset, a, b, m);
            lemma_frame(*child, dataset, a, a, m);
            lemma_rows_wide(*child, dataset, a);
            let input = rows(*child, dataset, a);
            assert forall|i: int| 0 <= i < input.len() implies #[trigger] input[i] == retarget(
                input[i],
                a,
                m,
            ) by {
                assert(input[i] == retarget_each(input, a, m)[i]);
            }
            lemma_distinct_rows_frame(input, a, b, m);
        },
        PlanNode::Slice { child, start, length } => {
            assert forall|k: int| mentions(*child, k) implies m.contains(k) by {
                assert(mentions(node, k));
            }
            lemma_frame(*child, dataset, a, b, m);
            let input = rows(*child, dataset, a);
            assert(slice_rows(retarget_each(input, b, m), start, length) =~= retarget_each(
                slice_rows(input, start, length),
                b,
                m,
            ));
        },
    }
}

proof fn lemma_join_each_frame(node: PlanNode, dataset: Dataset, lefts: Seq<Row>, b: Row, m: Set<int>)
    requires
        node is Join,
        covers(m, node),
        all_wide(lefts, b.len()),
    ensures
        join_each(node, dataset, retarget_each(lefts, b, m)) == retarget_each(
            join_each(node, dataset, lefts),
            b,
            m,
        ),
    decreases node, 2int, lefts.len(),
{
    match node {
        PlanNode::Join { right, .. } => {
            if lefts.len() > 0 {
                lemma_all_wide_drop_last(lefts, b.len());
                lemma_retarget_each_drop_last(lefts, b, m);
                lemma_join_each_frame(node, dataset, lefts.drop_last(), b, m);
                let l = lefts.last();
                let l2 = retarget(l, b, m);
                lemma_agree_with_retarget(l, b, m);
                assert forall|k: int| mentions(*right, k) implies m.contains(k) by {
                    assert(mentions(node, k));
                }
                lemma_frame(*right, dataset, l, l2, m);
                lemma_rows_wide(*right, dataset, l);
                lemma_retarget_each_same(rows(*right, dataset, l), l2, b, m);
                lemma_retarget_each_concat(
                    join_each(node, dataset, lefts.drop_last()),
                    rows(*right, dataset, l),
                    b,
                    m,
                );
            } else {
                assert(retarget_each(Seq::<Row>::empty(), b, m) =~= Seq::<Row>::empty());
                assert(retarget_each(lefts, b, m) =~= Seq::<Row>::empty());
            }
        },
        _ => {},
    }
}

proof fn lemma_optional_frame(
    node: PlanNode,
    dataset: Dataset,
    candidates: Seq<Row>,
    b: Row,
    m: Set<int>,
)
    requires
        node is LeftJoin,
        covers(m, node),
        all_wide(candidates, b.len()),
    ensures
        optional_matches(node, dataset, retarget_each(candidates, b, m)) == retarget_each(
            optional_matches(node, dataset, candidates),
            b,
            m,
        ),
    decreases node, 1int, candidates.len(),
{
    match node {
        PlanNode::LeftJoin { expression, .. } => {
            if candidates.len() > 0 {
                lemma_all_wide_drop_last(candidates, b.len());
                lemma_retarget_each_drop_last(candidates, b, m);
                lemma_optional_frame(node, dataset, candidates.drop_last(), b, m);
                let c = candidates.last();
                lemma_agree_with_retarget(c, b, m);
                if let Some(condition) = expression {
                    assert forall|k: int| expression_mentions(condition, k) implies m.contains(
                        k,
                    ) by {
                        assert(mentions(node, k));
                    }
                    lemma_expression_frame(condition, dataset, c, retarget(c, b, m), m);
                    assert(holds(condition, dataset, retarget(c, b, m)) == holds(
                        condition,
                        dataset,
                        c,
                    ));
                }
                lemma_retarget_each_push(
                    optional_matches(node, dataset, candidates.drop_last()),
                    c,
                    b,
                    m,
                );
            } else {
                assert(retarget_each(Seq::<Row>::empty(), b, m) =~= Seq::<Row>::empty());
                assert(retarget_each(candidates, b, m) =~= Seq::<Row>::empty());
            }
        },
        _ => {},
    }
}

proof fn lemma_left_join_each_frame(
    node: PlanNode,
    dataset: Dataset,
    lefts: Seq<Row>,
    b: Row,
    m: Set<int>,
)
    requires
        node is LeftJoin,
        covers(m, node),
        all_wide(lefts, b.len()),
    ensures
        left_join_each(node, dataset, retarget_each(lefts, b, m)) == retarget_each(
            left_join_each(node, dataset, lefts),
            b,
            m,
        ),
    decreases node, 2int, lefts.len(),
{
    match node {
        PlanNode::LeftJoin { right, .. } => {
            if lefts.len() > 0 {
                lemma_all_wide_drop_last(lefts, b.len());
                lemma_retarget_each_drop_last(lefts, b, m);
                lemma_left_join_each_frame(node, dataset, lefts.drop_last(), b, m);
                let l = lefts.last();
                let l2 = retarget(l, b, m);
                lemma_agree_with_retarget(l, b, m);
                assert forall|k: int| mentions(*right, k) implies m.contains(k) by {
                    assert(mentions(node, k));
                }
                lemma_frame(*right, dataset, l, l2, m);
                lemma_rows_wide(*right, dataset, l);
                let candidates = rows(*right, dataset, l);
                lemma_retarget_each_same(candidates, l2, b, m);
                lemma_optional_frame(node, dataset, candidates, b, m);
                let matched = optional_matches(node, dataset, candidates);
                let piece = if matched.len() > 0 {
                    matched
                } else {
                    seq![l]
                };
                let piece2 = if matched.len() > 0 {
                    retarget_each(matched, b, m)
                } else {
                    seq![l2]
                };
                assert(piece2 =~= retarget_each(piece, b, m));
                lemma_retarget_each_concat(
                    left_join_each(node, dataset, lefts.drop_last()),
                    piece,
                    b,
                    m,
                );
            } else {
                assert(retarget_each(Seq::<Row>::empty(), b, m) =~= Seq::<Row>::empty());
                assert(retarget_each(lefts, b, m) =~= Seq::<Row>::empty());
            }
        },
        _ => {},
    }
}

proof fn lemma_filter_each_frame(node: PlanNode, dataset: Dataset, input: Seq<Row>, b: Row, m: Set<int>)
    requires
        node is Filter,
        covers(m, node),
        all_wide(input, b.len()),
    ensures
        filter_each(node, dataset, retarget_each(input, b, m)) == retarget_each(
            filter_each(node, dataset, input),
            b,
            m,
        ),
    decreases node, 2int, input.len(),
{
    match node {
        PlanNode::Filter { expression, .. } => {
            if input.len() > 0 {
                lemma_all_wide_drop_last(input, b.len());
                lemma_retarget_each_drop_last(input, b, m);
                lemma_filter_each_frame(node, dataset, input.drop_last(), b, m);
                let c = input.last();
                lemma_agree_with_retarget(c, b, m);
                assert forall|k: int| expression_mentions(expression, k) implies m.contains(
                    k,
                ) by {
                    assert(mentions(node, k));
                }
                lemma_expression_frame(expression, dataset, c, retarget(c, b, m), m);
                assert(holds(expression, dataset, retarget(c, b, m)) == holds(
                    expression,
                    dataset,
                    c,
                ));
                lemma_retarget_each_push(
                    filter_each(node, dataset, input.drop_last()),
                    c,
                    b,
                    m,
                );
            } else {
                assert(retarget_each(Seq::<Row>::empty(), b, m) =~= Seq::<Row>::empty());
                assert(retarget_each(input, b, m) =~= Seq::<Row>::empty());
            }
        },
        _ => {},
    }
}

proof fn lemma_extend_each_frame(node: PlanNode, dataset: Dataset, input: Seq<Row>, b: Row, m: Set<int>)
    requires
        node is Extend,
        covers(m, node),
        all_wide(input, b.len()),
    ensures
        extend_each(node, dataset, retarget_each(input, b, m)) == retarget_each(
            extend_each(node, dataset, input),
            b,
            m,
        ),
    decreases node, 2int, input.len(),
{
    match node {
        PlanNode::Extend { slot, expression, .. } => {
            if input.len() > 0 {
                lemma_all_wide_drop_last(input, b.len());
                lemma_retarget_each_drop_last(input, b, m);
                lemma_extend_each_frame(node, dataset, input.drop_last(), b, m);
                let c = input.last();
                lemma_agree_with_retarget(c, b, m);
                assert forall|k: int| expression_mentions(expression, k) implies m.contains(
                    k,
                ) by {
                    assert(mentions(node, k));
                }
                lemma_expression_frame(expression, dataset, c, retarget(c, b, m), m);
                assert(mentions(node, slot as int));
                assert(extend_row(node, dataset, retarget(c, b, m)) == retarget_option(
                    extend_row(node, dataset, c),
                    b,
                    m,
                )) by {
                    match eval_expression(expression, dataset, c) {
                        Some(value) => {
                            lemma_bind_slot_frame(c, b, m, slot as int, value);
                        },
                        None => {},
                    }
                }
                if let Some(row) = extend_row(node, dataset, c) {
                    lemma_retarget_each_push(
                        extend_each(node, dataset, input.drop_last()),
                        row,
                        b,
                        m,
                    );
                }
            } else {
                assert(retarget_each(Seq::<Row>::empty(), b, m) =~= Seq::<Row>::empty());
                assert(retarget_each(input, b, m) =~= Seq::<Row>::empty());
            }
        },
        _ => {},
    }
}

proof fn lemma_aggregate_row_frame(
    node: PlanNode,
    dataset: Dataset,
    members: Seq<Row>,
    base: Row,
    b: Row,
    m: Set<int>,
    j: int,
)
    requires
        node is Group,
        covers(m, node),
        base.len() == b.len(),
    ensures
        aggregate_row(node, dataset, members, retarget(base, b, m), j) == retarget_option(
            aggregate_row(node, dataset, members, base, j),
            b,
            m,
        ),
        aggregate_row(node, dataset, members, base, j) matches Some(row) ==> row.len()
            == base.len(),
    decreases node, 1int, j,
{
    match node {
        PlanNode::Group { aggregates, .. } => {
            if j <= 0 || j > aggregates.len() {
            } else {
                lemma_aggregate_row_frame(node, dataset, members, base, b, m, j - 1);
                if let Some(row) = aggregate_row(node, dataset, members, base, j - 1) {
                    assert(mentions(node, aggregates[j - 1].slot as int));
                    match aggregate_of(
                        aggregates[j - 1].function,
                        aggregates[j - 1].distinct,
                        aggregates[j - 1].separator@,
                        dataset.strings,
                        aggregate_values(node, dataset, members, j - 1),
                    ) {
                        Some(value) => {
                            lemma_bind_slot_frame(row, b, m, aggregates[j - 1].slot as int, value);
                        },
                        None => {},
                    }
                }
            }
        },
        _ => {},
    }
}

proof fn lemma_group_each_frame(
    node: PlanNode,
    dataset: Dataset,
    a: Row,
    b: Row,
    m: Set<int>,
    input: Seq<Row>,
    group_keys: Seq<Row>,
)
    requires
        node is Group,
        covers(m, node),
        agree_on(a, b, m),
    ensures
        group_each(node, dataset, b, input, group_keys) == retarget_each(
            group_each(node, dataset, a, input, group_keys),
            b,
            m,
        ),
    decreases node, 2int, group_keys.len(),
{
    match node {
        PlanNode::Group { keys, aggregates, .. } => {
            if group_keys.len() > 0 {
                lemma_group_each_frame(node, dataset, a, b, m, input, group_keys.drop_last());
                let members = members_of(input, keys@, group_keys.last());
                let base_a = if members.len() > 0 {
                    overlay(a, members[0], keys@)
                } else {
                    a
                };
                let base_b = if members.len() > 0 {
                    overlay(b, members[0], keys@)
                } else {
                    b
                };
                assert(base_b =~= retarget(base_a, b, m)) by {
                    assert forall|k: int| 0 <= k < b.len() implies base_b[k] == retarget(
                        base_a,
                        b,
                        m,
                    )[k] by {
                        if keys@.contains(k as usize) {
                            assert(mentions(node, k));
                        }
                    }
                }
                lemma_aggregate_row_frame(
                    node,
                    dataset,
                    members,
                    base_a,
                    b,
                    m,
                    aggregates.len() as int,
                );
                if let Some(row) = aggregate_row(
                    node,
                    dataset,
                    members,
                    base_a,
                    aggregates.len() as int,
                ) {
                    lemma_retarget_each_push(
                        group_each(node, dataset, a, input, group_keys.drop_last()),
                        row,
                        b,
                        m,
                    );
                }
            } else {
                assert(retarget_each(Seq::<Row>::empty(), b, m) =~= Seq::<Row>::empty());
            }
        },
        _ => {},
    }
}

proof fn lemma_row_precedes_frame(
    node: PlanNode,
    dataset: Dataset,
    x: Row,
    y: Row,
    b: Row,
    m: Set<int>,
    j: int,
)
    requires
        node is Sort,
        covers(m, node),
        x.len() == b.len(),
        y.len() == b.len(),
        0 <= j,
    ensures
        row_precedes(node, dataset, retarget(x, b, m), retarget(y, b, m), j) == row_precedes(
            node,
            dataset,
            x,
            y,
            j,
        ),
    decreases node, 0int, node->Sort_by.len() - j,
{
    match node {
        PlanNode::Sort { by, .. } => {
            if j < by.len() {
                lemma_agree_with_retarget(x, b, m);
                lemma_agree_with_retarget(y, b, m);
                assert forall|k: int| expression_mentions(by[j].expression, k) implies m.contains(
                    k,
                ) by {
                    assert(mentions(node, k));
                }
                lemma_expression_frame(by[j].expression, dataset, x, retarget(x, b, m), m);
                lemma_expression_frame(by[j].expression, dataset, y, retarget(y, b, m), m);
                lemma_row_precedes_frame(node, dataset, x, y, b, m, j + 1);
            }
        },
        _ => {},
    }
}

proof fn lemma_insert_sorted_frame(
    node: PlanNode,
    dataset: Dataset,
    sorted: Seq<Row>,
    row: Row,
    b: Row,
    m: Set<int>,
)
    requires
        node is Sort,
        covers(m, node),
        all_wide(sorted, b.len()),
        row.len() == b.len(),
    ensures
        insert_sorted(node, dataset, retarget_each(sorted, b, m), retarget(row, b, m))
            == retarget_each(insert_sorted(node, dataset, sorted, row), b, m),
        all_wide(insert_sorted(node, dataset, sorted, row), b.len()),
    decreases node, 1int, sorted.len(),
{
    if sorted.len() == 0 {
        assert(retarget_each(sorted, b, m) =~= Seq::<Row>::empty());
        assert(seq![retarget(row, b, m)] =~= retarget_each(seq![row], b, m));
    } else {
        lemma_all_wide_drop_last(sorted, b.len());
        lemma_retarget_each_drop_last(sorted, b, m);
        lemma_row_precedes_frame(node, dataset, row, sorted.last(), b, m, 0);
        if row_precedes(node, dataset, row, sorted.last(), 0) {
            lemma_insert_sorted_frame(node, dataset, sorted.drop_last(), row, b, m);
            lemma_retarget_each_push(
                insert_sorted(node, dataset, sorted.drop_last(), row),
                sorted.last(),
                b,
                m,
            );
            let out = insert_sorted(node, dataset, sorted.drop_last(), row).push(sorted.last());
            assert forall|i: int| 0 <= i < out.len() implies (#[trigger] out[i]).len()
                == b.len() by {
                if i < out.len() - 1 {
                    assert(out[i] == insert_sorted(node, dataset, sorted.drop_last(), row)[i]);
                }
            }
        } else {
            lemma_retarget_each_push(sorted, row, b, m);
            let out = sorted.push(row);
            assert forall|i: int| 0 <= i < out.len() implies (#[trigger] out[i]).len()
                == b.len() by {
                if i < sorted.len() {
                    assert(out[i] == sorted[i]);
                }
            }
        }
    }
}

proof fn lemma_sort_rows_frame(node: PlanNode, dataset: Dataset, input: Seq<Row>, b: Row, m: Set<int>)
    requires
        node is Sort,
        covers(m, node),
        all_wide(input, b.len()),
    ensures
        sort_rows(node, dataset, retarget_each(input, b, m)) == retarget_each(
            sort_rows(node, dataset, input),
            b,
            m,
        ),
        all_wide(sort_rows(node, dataset, input), b.len()),
    decreases node, 2int, input.len(),
{
    if input.len() > 0 {
        lemma_all_wide_drop_last(input, b.len());
        lemma_retarget_each_drop_last(input, b, m);
        lemma_sort_rows_frame(node, dataset, input.drop_last(), b, m);
        lemma_insert_sorted_frame(
            node,
            dataset,
            sort_rows(node, dataset, input.drop_last()),
            input.last(),
            b,
            m,
        );
    } else {
        assert(retarget_each(Seq::<Row>::empty(), b, m) =~= Seq::<Row>::empty());
        assert(retarget_each(input, b, m) =~= Seq::<Row>::empty());
    }
}

/// Whether two plans have no variable in common.
pub open spec fn share_no_variable(first: PlanNode, second: PlanNode) -> bool {
    forall|k: int| !(mentions(first, k) && mentions(second, k))
}

/// The variables of a plan, as a set of slots.
pub open spec fn variables_of(node: PlanNode) -> Set<int> {
    Set::new(|k: int| mentions(node, k))
}

/// A plan binds no slot but its variables: every row that it yields holds,
/// in every other slot, what its input row holds there.
pub proof fn lemma_binds_only_variables(node: PlanNode, dataset: Dataset, from: Row, i: int, k: int)
    requires
        0 <= i < rows(node, dataset, from).len(),
        0 <= k < from.len(),
        !mentions(node, k),
    ensures
        rows(node, dataset, from)[i][k] == from[k],
{
    let m = variables_of(node);
    lemma_frame(node, dataset, from, from, m);
    let out = rows(node, dataset, from);
    assert(out[i] == retarget_each(out, from, m)[i]);
    lemma_rows_wide(node, dataset, from);
    assert(out[i][k] == retarget(out[i], from, m)[k]);
}

proof fn lemma_join_each_count(node: PlanNode, dataset: Dataset, lefts: Seq<Row>, count: nat)
    requires
        node is Join,
        forall|j: int|
            0 <= j < lefts.len() ==> rows(*node->Join_right, dataset, #[trigger] lefts[j]).len()
                == count,
    ensures
        join_each(node, dataset, lefts).len() == lefts.len() * count,
    decreases lefts.len(),
{
    if lefts.len() > 0 {
        assert forall|j: int| 0 <= j < lefts.drop_last().len() implies rows(
            *node->Join_right,
            dataset,
            #[trigger] lefts.drop_last()[j],
        ).len() == count by {
            assert(lefts.drop_last()[j] == lefts[j]);
        }
        lemma_join_each_count(node, dataset, lefts.drop_last(), count);
        assert(rows(*node->Join_right, dataset, lefts[lefts.len() - 1]).len() == count);
        assert((lefts.len() - 1) * count + count == lefts.len() * count) by (nonlinear_arith);
    } else {
        assert(0 * count == 0) by (nonlinear_arith);
    }
}

/// The row of a join that stands for the `i`-th row of its left side and
/// the `j`-th row of its right side, where each left row gives `count`
/// rows.
pub open spec fn pair_at(joined: Seq<Row>, i: int, j: int, count: int) -> Row {
    joined[i * count + j]
}

proof fn lemma_join_each_index(
    node: PlanNode,
    dataset: Dataset,
    lefts: Seq<Row>,
    count: nat,
    i: int,
    j: int,
)
    requires
        node is Join,
        forall|k: int|
            0 <= k < lefts.len() ==> rows(*node->Join_right, dataset, #[trigger] lefts[k]).len()
                == count,
        0 <= i < lefts.len(),
        0 <= j < count,
    ensures
        0 <= i * count + j < join_each(node, dataset, lefts).len(),
        join_each(node, dataset, lefts)[i * count + j] == rows(
            *node->Join_right,
            dataset,
            lefts[i],
        )[j],
    decreases lefts.len(),
{
    let head = lefts.drop_last();
    assert forall|k: int| 0 <= k < head.len() implies rows(
        *node->Join_right,
        dataset,
        #[trigger] head[k],
    ).len() == count by {
        assert(head[k] == lefts[k]);
    }
    lemma_join_each_count(node, dataset, head, count);
    lemma_join_each_count(node, dataset, lefts, count);
    let before = join_each(node, dataset, head);
    let last = rows(*node->Join_right, dataset, lefts.last());
    assert(last.len() == count) by {
        assert(lefts.last() == lefts[lefts.len() - 1]);
    }
    assert(0 <= i * count + j < lefts.len() * count && (i < head.len() ==> i * count + j
        < head.len() * count) && (i == head.len() ==> i * count + j == head.len() * count + j))
        by (nonlinear_arith)
        requires
            0 <= i < lefts.len(),
            0 <= j < count,
            head.len() == lefts.len() - 1,
    ;
    if i < head.len() {
        lemma_join_each_index(node, dataset, head, count, i, j);
        assert(head[i] == lefts[i]);
        assert((before + last)[i * count + j] == before[i * count + j]);
    } else {
        assert((before + last)[before.len() + j] == last[j]);
    }
}

/// The join of two plans that have no variable in common yields as many
/// rows as the product of what the two yield: each row of the first with
/// each row of the second. The row of a pair holds, in the slots of the
/// variables of the second plan, what the row of the second holds, and in
/// every other slot what the row of the first holds.
pub proof fn lemma_join_of_disjoint_plans(
    first: PlanNode,
    second: PlanNode,
    dataset: Dataset,
    from: Row,
)
    requires
        share_no_variable(first, second),
    ensures
        rows(join_of(first, second), dataset, from).len() == rows(first, dataset, from).len()
            * rows(second, dataset, from).len(),
        forall|i: int, j: int|
            0 <= i < rows(first, dataset, from).len() && 0 <= j < rows(
                second,
                dataset,
                from,
            ).len() ==> #[trigger] pair_at(
                rows(join_of(first, second), dataset, from),
                i,
                j,
                rows(second, dataset, from).len() as int,
            ) == retarget(
                rows(second, dataset, from)[j],
                rows(first, dataset, from)[i],
                variables_of(second),
            ),
{
    let lefts = rows(first, dataset, from);
    let rights = rows(second, dataset, from);
    let m = variables_of(second);
    let node = join_of(first, second);
    lemma_rows_wide(first, dataset, from);
    assert forall|j: int| 0 <= j < lefts.len() implies rows(second, dataset, #[trigger] lefts[j])
        == retarget_each(rights, lefts[j], m) by {
        assert forall|k: int| 0 <= k < from.len() && m.contains(k) implies from[k] == lefts[j][k] by {
            lemma_binds_only_variables(first, dataset, from, j, k);
        }
        lemma_frame(second, dataset, from, lefts[j], m);
    }
    assert forall|j: int| 0 <= j < lefts.len() implies rows(
        *node->Join_right,
        dataset,
        #[trigger] lefts[j],
    ).len() == rights.len() by {
        assert(rows(second, dataset, lefts[j]) == retarget_each(rights, lefts[j], m));
    }
    lemma_join_each_count(node, dataset, lefts, rights.len());
    assert forall|i: int, j: int| 0 <= i < lefts.len() && 0 <= j < rights.len() implies #[trigger] pair_at(
        rows(node, dataset, from),
        i,
        j,
        rights.len() as int,
    ) == retarget(rights[j], lefts[i], m) by {
        lemma_join_each_index(node, dataset, lefts, rights.len(), i, j);
        assert(rows(second, dataset, lefts[i]) == retarget_each(rights, lefts[i], m));
    }
}

} // verus!
