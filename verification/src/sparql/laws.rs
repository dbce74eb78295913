use crate::sparql::dataset::{Dataset, EncodedQuad, EncodedTerm};
use crate::sparql::plan::{restrict_each, answer_at, bind_graph, bind_quad, bind_slot, bind_value, compatible, distinct_rows, extends,
    merge, minus_rows, overlay, overlay_each, restrict, rows_view, scan_each, scan_row, slice_rows,
    static_rows, unbound_row, PatternValue, PlanExpression, PlanNode, QuadPattern, Row,};
use crate::sparql::semantics::{
    aggregate_of, aggregate_row, aggregate_values, eval_expression, extend_each, extend_row,
    filter_each, group_each, holds, insert_sorted, join_each, keys_of, left_join_each, members_of,
    optional_matches, pattern_of, row_precedes, rows, sort_rows,
};
use vstd::prelude::*;

verus! {

/// Whether every row binds what `from` binds, to the same values.
pub open spec fn all_extend(rows: Seq<Row>, from: Row) -> bool {
    forall|i: int| 0 <= i < rows.len() ==> extends(#[trigger] rows[i], from)
}

/// A row that extends an extension of `a` extends `a`.
pub proof fn lemma_extends_transitive(c: Row, b: Row, a: Row)
    requires
        extends(c, b),
        extends(b, a),
    ensures
        extends(c, a),
{
    assert forall|i: int| 0 <= i < a.len() && #[trigger] a[i] is Some implies c[i] == a[i] by {
        assert(b[i] is Some);
    }
}

proof fn lemma_all_extend_transitive(rows: Seq<Row>, b: Row, a: Row)
    requires
        all_extend(rows, b),
        extends(b, a),
    ensures
        all_extend(rows, a),
{
    assert forall|i: int| 0 <= i < rows.len() implies extends(#[trigger] rows[i], a) by {
        lemma_extends_transitive(rows[i], b, a);
    }
}

proof fn lemma_all_extend_concat(a: Seq<Row>, b: Seq<Row>, from: Row)
    requires
        all_extend(a, from),
        all_extend(b, from),
    ensures
        all_extend(a + b, from),
{
    assert forall|i: int| 0 <= i < (a + b).len() implies extends(#[trigger] (a + b)[i], from) by {
        if i < a.len() {
            assert((a + b)[i] == a[i]);
        } else {
            assert((a + b)[i] == b[i - a.len()]);
        }
    }
}

proof fn lemma_all_extend_push(a: Seq<Row>, row: Row, from: Row)
    requires
        all_extend(a, from),
        extends(row, from),
    ensures
        all_extend(a.push(row), from),
{
    assert forall|i: int| 0 <= i < a.push(row).len() implies extends(
        #[trigger] a.push(row)[i],
        from,
    ) by {
        if i < a.len() {
            assert(a.push(row)[i] == a[i]);
        }
    }
}

proof fn lemma_all_extend_drop_last(a: Seq<Row>, from: Row)
    requires
        all_extend(a, from),
        a.len() > 0,
    ensures
        all_extend(a.drop_last(), from),
        extends(a.last(), from),
{
    assert forall|i: int| 0 <= i < a.drop_last().len() implies extends(
        #[trigger] a.drop_last()[i],
        from,
    ) by {
        assert(a.drop_last()[i] == a[i]);
    }
}

/// Binding a slot extends the row.
pub proof fn lemma_bind_slot_extends(row: Row, slot: int, value: EncodedTerm)
    requires
        bind_slot(row, slot, value) is Some,
    ensures
        extends(bind_slot(row, slot, value)->0, row),
        bind_slot(row, slot, value)->0[slot] == Some(value),
{
}

/// The extension of a row by a quad extends the row.
pub proof fn lemma_bind_quad_extends(row: Row, pattern: QuadPattern, quad: EncodedQuad)
    requires
        bind_quad(row, pattern, quad) is Some,
    ensures
        extends(bind_quad(row, pattern, quad)->0, row),
{
    let r1 = bind_value(row, pattern.subject, quad.subject)->0;
    let r2 = bind_value(r1, pattern.predicate, quad.predicate)->0;
    let r3 = bind_value(r2, pattern.object, quad.object)->0;
    let r4 = bind_graph(r3, pattern.graph_name, quad.graph_name)->0;
    assert(extends(r1, row));
    assert(extends(r2, r1));
    assert(extends(r3, r2));
    assert(extends(r4, r3));
    lemma_extends_transitive(r2, r1, row);
    lemma_extends_transitive(r3, r2, row);
    lemma_extends_transitive(r4, r3, row);
}

proof fn lemma_scan_row_extend(row: Row, pattern: QuadPattern, quads: Seq<EncodedQuad>)
    ensures
        all_extend(scan_row(row, pattern, quads), row),
    decreases quads.len(),
{
    if quads.len() > 0 {
        lemma_scan_row_extend(row, pattern, quads.drop_last());
        if bind_quad(row, pattern, quads.last()) is Some {
            lemma_bind_quad_extends(row, pattern, quads.last());
            lemma_all_extend_push(
                scan_row(row, pattern, quads.drop_last()),
                bind_quad(row, pattern, quads.last())->0,
                row,
            );
        }
    }
}

proof fn lemma_scan_each_extend(
    input: Seq<Row>,
    pattern: QuadPattern,
    quads: Seq<EncodedQuad>,
    from: Row,
)
    requires
        all_extend(input, from),
    ensures
        all_extend(scan_each(input, pattern, quads), from),
    decreases input.len(),
{
    if input.len() > 0 {
        lemma_all_extend_drop_last(input, from);
        lemma_scan_each_extend(input.drop_last(), pattern, quads, from);
        lemma_scan_row_extend(input.last(), pattern, quads);
        lemma_all_extend_transitive(scan_row(input.last(), pattern, quads), input.last(), from);
        lemma_all_extend_concat(
            scan_each(input.drop_last(), pattern, quads),
            scan_row(input.last(), pattern, quads),
            from,
        );
    }
}

proof fn lemma_static_rows_extend(from: Row, tuples: Seq<Row>)
    ensures
        all_extend(static_rows(from, tuples), from),
    decreases tuples.len(),
{
    if tuples.len() > 0 {
        lemma_static_rows_extend(from, tuples.drop_last());
        if compatible(from, tuples.last()) {
            assert(extends(merge(from, tuples.last()), from));
            lemma_all_extend_push(
                static_rows(from, tuples.drop_last()),
                merge(from, tuples.last()),
                from,
            );
        }
    }
}

proof fn lemma_minus_rows_extend(lefts: Seq<Row>, rights: Seq<Row>, from: Row)
    requires
        all_extend(lefts, from),
    ensures
        all_extend(minus_rows(lefts, rights), from),
    decreases lefts.len(),
{
    if lefts.len() > 0 {
        lemma_all_extend_drop_last(lefts, from);
        lemma_minus_rows_extend(lefts.drop_last(), rights, from);
        lemma_all_extend_push(minus_rows(lefts.drop_last(), rights), lefts.last(), from);
    }
}

proof fn lemma_distinct_rows_extend(input: Seq<Row>, from: Row)
    requires
        all_extend(input, from),
    ensures
        all_extend(distinct_rows(input), from),
    decreases input.len(),
{
    if input.len() > 0 {
        lemma_all_extend_drop_last(input, from);
        lemma_distinct_rows_extend(input.drop_last(), from);
        lemma_all_extend_push(distinct_rows(input.drop_last()), input.last(), from);
    }
}

/// An inner row that extends `from` on the given slots, laid over `from`,
/// extends `from`.
proof fn lemma_overlay_extends(from: Row, inner: Row, slots: Seq<usize>)
    requires
        extends(inner, restrict(from, slots)),
    ensures
        extends(overlay(from, inner, slots), from),
{
    let start = restrict(from, slots);
    assert forall|i: int| 0 <= i < from.len() && #[trigger] from[i] is Some implies overlay(
        from,
        inner,
        slots,
    )[i] == from[i] by {
        if slots.contains(i as usize) {
            assert(start[i] == from[i]);
            assert(start[i] is Some);
        }
    }
}

/// Every row that a plan yields from `from` binds what `from` binds, to the
/// same values, and has as many slots.
pub proof fn lemma_rows_extend(node: PlanNode, dataset: Dataset, from: Row)
    ensures
        all_extend(rows(node, dataset, from), from),
    decreases node, 3int, 0int,
{
    match node {
        PlanNode::Init => {},
        PlanNode::StaticBindings { tuples } => {
            lemma_static_rows_extend(from, rows_view(tuples@));
        },
        PlanNode::Service { id, slots } => {
            if let Some(tuples) = answer_at(dataset, id) {
                lemma_static_rows_extend(from, restrict_each(tuples, slots@));
            }
        },
        PlanNode::QuadPatternJoin { child, .. } => {
            lemma_rows_extend(*child, dataset, from);
            lemma_scan_each_extend(
                rows(*child, dataset, from),
                pattern_of(node),
                dataset.quads,
                from,
            );
        },
        PlanNode::Join { left, .. } => {
            lemma_rows_extend(*left, dataset, from);
            lemma_join_each_extend(node, dataset, rows(*left, dataset, from), from);
        },
        PlanNode::LeftJoin { left, .. } => {
            lemma_rows_extend(*left, dataset, from);
            lemma_left_join_each_extend(node, dataset, rows(*left, dataset, from), from);
        },
        PlanNode::Union { left, right } => {
            lemma_rows_extend(*left, dataset, from);
            lemma_rows_extend(*right, dataset, from);
            lemma_all_extend_concat(
                rows(*left, dataset, from),
                rows(*right, dataset, from),
                from,
            );
        },
        PlanNode::Minus { left, right } => {
            lemma_rows_extend(*left, dataset, from);
            lemma_minus_rows_extend(
                rows(*left, dataset, from),
                rows(*right, dataset, unbound_row(from.len())),
                from,
            );
        },
        PlanNode::Filter { child, .. } => {
            lemma_rows_extend(*child, dataset, from);
            lemma_filter_each_extend(node, dataset, rows(*child, dataset, from), from);
        },
        PlanNode::Extend { child, .. } => {
            lemma_rows_extend(*child, dataset, from);
            lemma_extend_each_extend(node, dataset, rows(*child, dataset, from), from);
        },
        PlanNode::Project { child, slots } => {
            let start = restrict(from, slots@);
            let inner = rows(*child, dataset, start);
            lemma_rows_extend(*child, dataset, start);
            assert forall|i: int| 0 <= i < inner.len() implies extends(
                #[trigger] overlay_each(from, inner, slots@)[i],
                from,
            ) by {
                lemma_overlay_extends(from, inner[i], slots@);
            }
        },
        PlanNode::Group { child, keys, .. } => {
            let start = restrict(from, keys@);
            let input = rows(*child, dataset, start);
            lemma_rows_extend(*child, dataset, start);
            lemma_group_each_extend(
                node,
                dataset,
                from,
                input,
                distinct_rows(keys_of(input, keys@)),
            );
        },
        PlanNode::Sort { child, .. } => {
            lemma_rows_extend(*child, dataset, from);
            lemma_sort_rows_extend(node, dataset, rows(*child, dataset, from), from);
        },
        PlanNode::Distinct { child } => {
            lemma_rows_extend(*child, dataset, from);
            lemma_distinct_rows_extend(rows(*child, dataset, from), from);
        },
        PlanNode::Reduced { child } => {
            lemma_rows_extend(*child, dataset, from);
            lemma_distinct_rows_extend(rows(*child, dataset, from), from);
        },
        PlanNode::Slice { child, start, length } => {
            lemma_rows_extend(*child, dataset, from);
            let input = rows(*child, dataset, from);
            let out = slice_rows(input, start, length);
            assert forall|i: int| 0 <= i < out.len() implies extends(#[trigger] out[i], from) by {
                let first: int = if start <= input.len() {
                    start as int
                } else {
                    input.len() as int
                };
                assert(out[i] == input[first + i]);
            }
        },
    }
}

proof fn lemma_join_each_extend(node: PlanNode, dataset: Dataset, lefts: Seq<Row>, from: Row)
    requires
        all_extend(lefts, from),
    ensures
        all_extend(join_each(node, dataset, lefts), from),
    decreases node, 2int, lefts.len(),
{
    match node {
        PlanNode::Join { right, .. } => {
            if lefts.len() > 0 {
                lemma_all_extend_drop_last(lefts, from);
                lemma_join_each_extend(node, dataset, lefts.drop_last(), from);
                lemma_rows_extend(*right, dataset, lefts.last());
                lemma_all_extend_transitive(
                    rows(*right, dataset, lefts.last()),
                    lefts.last(),
                    from,
                );
                lemma_all_extend_concat(
                    join_each(node, dataset, lefts.drop_last()),
                    rows(*right, dataset, lefts.last()),
                    from,
                );
            }
        },
        _ => {},
    }
}

proof fn lemma_optional_matches_extend(
    node: PlanNode,
    dataset: Dataset,
    candidates: Seq<Row>,
    from: Row,
)
    requires
        all_extend(candidates, from),
    ensures
        all_extend(optional_matches(node, dataset, candidates), from),
    decreases candidates.len(),
{
    match node {
        PlanNode::LeftJoin { .. } => {
            if candidates.len() > 0 {
                lemma_all_extend_drop_last(candidates, from);
                lemma_optional_matches_extend(node, dataset, candidates.drop_last(), from);
                lemma_all_extend_push(
                    optional_matches(node, dataset, candidates.drop_last()),
                    candidates.last(),
                    from,
                );
            }
        },
        _ => {},
    }
}

proof fn lemma_left_join_each_extend(node: PlanNode, dataset: Dataset, lefts: Seq<Row>, from: Row)
    requires
        all_extend(lefts, from),
    ensures
        all_extend(left_join_each(node, dataset, lefts), from),
    decreases node, 2int, lefts.len(),
{
    match node {
        PlanNode::LeftJoin { right, .. } => {
            if lefts.len() > 0 {
                lemma_all_extend_drop_last(lefts, from);
                lemma_left_join_each_extend(node, dataset, lefts.drop_last(), from);
                let candidates = rows(*right, dataset, lefts.last());
                lemma_rows_extend(*right, dataset, lefts.last());
                lemma_optional_matches_extend(node, dataset, candidates, lefts.last());
                let matched = optional_matches(node, dataset, candidates);
                lemma_all_extend_transitive(matched, lefts.last(), from);
                let piece = if matched.len() > 0 {
                    matched
                } else {
                    seq![lefts.last()]
                };
                assert(all_extend(piece, from));
                lemma_all_extend_concat(
                    left_join_each(node, dataset, lefts.drop_last()),
                    piece,
                    from,
                );
            }
        },
        _ => {},
    }
}

proof fn lemma_filter_each_extend(node: PlanNode, dataset: Dataset, input: Seq<Row>, from: Row)
    requires
        all_extend(input, from),
    ensures
        all_extend(filter_each(node, dataset, input), from),
    decreases input.len(),
{
    match node {
        PlanNode::Filter { .. } => {
            if input.len() > 0 {
                lemma_all_extend_drop_last(input, from);
                lemma_filter_each_extend(node, dataset, input.drop_last(), from);
                lemma_all_extend_push(
                    filter_each(node, dataset, input.drop_last()),
                    input.last(),
                    from,
                );
            }
        },
        _ => {},
    }
}

proof fn lemma_extend_each_extend(node: PlanNode, dataset: Dataset, input: Seq<Row>, from: Row)
    requires
        all_extend(input, from),
    ensures
        all_extend(extend_each(node, dataset, input), from),
    decreases input.len(),
{
    if input.len() > 0 {
        lemma_all_extend_drop_last(input, from);
        lemma_extend_each_extend(node, dataset, input.drop_last(), from);
        match extend_row(node, dataset, input.last()) {
            Some(row) => {
                assert(extends(row, input.last())) by {
                    match node {
                        PlanNode::Extend { slot, expression, .. } => {
                            match eval_expression(expression, dataset, input.last()) {
                                Some(value) => {
                                    lemma_bind_slot_extends(input.last(), slot as int, value);
                                },
                                None => {},
                            }
                        },
                        _ => {},
                    }
                }
                lemma_extends_transitive(row, input.last(), from);
                lemma_all_extend_push(extend_each(node, dataset, input.drop_last()), row, from);
            },
            None => {},
        }
    }
}

proof fn lemma_aggregate_row_extends(
    node: PlanNode,
    dataset: Dataset,
    members: Seq<Row>,
    base: Row,
    j: int,
)
    requires
        aggregate_row(node, dataset, members, base, j) is Some,
    ensures
        extends(aggregate_row(node, dataset, members, base, j)->0, base),
    decreases node, 1int, j,
{
    match node {
        PlanNode::Group { aggregates, .. } => {
            if j <= 0 || j > aggregates.len() {
            } else {
                let before = aggregate_row(node, dataset, members, base, j - 1);
                lemma_aggregate_row_extends(node, dataset, members, base, j - 1);
                match aggregate_of(
                    aggregates[j - 1].function,
                    aggregates[j - 1].distinct,
                    aggregates[j - 1].separator@,
                    dataset.strings,
                    aggregate_values(node, dataset, members, j - 1),
                ) {
                    Some(value) => {
                        lemma_bind_slot_extends(before->0, aggregates[j - 1].slot as int, value);
                        lemma_extends_transitive(
                            bind_slot(before->0, aggregates[j - 1].slot as int, value)->0,
                            before->0,
                            base,
                        );
                    },
                    None => {},
                }
            }
        },
        _ => {},
    }
}

proof fn lemma_members_extend(input: Seq<Row>, keys: Seq<usize>, key: Row, from: Row)
    requires
        all_extend(input, from),
    ensures
        all_extend(members_of(input, keys, key), from),
    decreases input.len(),
{
    if input.len() > 0 {
        lemma_all_extend_drop_last(input, from);
        lemma_members_extend(input.drop_last(), keys, key, from);
        lemma_all_extend_push(members_of(input.drop_last(), keys, key), input.last(), from);
    }
}

proof fn lemma_group_each_extend(
    node: PlanNode,
    dataset: Dataset,
    from: Row,
    input: Seq<Row>,
    group_keys: Seq<Row>,
)
    requires
        node is Group,
        all_extend(input, restrict(from, node->Group_keys@)),
    ensures
        all_extend(group_each(node, dataset, from, input, group_keys), from),
    decreases group_keys.len(),
{
    match node {
        PlanNode::Group { keys, aggregates, .. } => {
            if group_keys.len() > 0 {
                lemma_group_each_extend(node, dataset, from, input, group_keys.drop_last());
                let members = members_of(input, keys@, group_keys.last());
                lemma_members_extend(input, keys@, group_keys.last(), restrict(from, keys@));
                let base = if members.len() > 0 {
                    overlay(from, members[0], keys@)
                } else {
                    from
                };
                if members.len() > 0 {
                    lemma_overlay_extends(from, members[0], keys@);
                }
                match aggregate_row(node, dataset, members, base, aggregates.len() as int) {
                    Some(row) => {
                        lemma_aggregate_row_extends(
                            node,
                            dataset,
                            members,
                            base,
                            aggregates.len() as int,
                        );
                        lemma_extends_transitive(row, base, from);
                        lemma_all_extend_push(
                            group_each(node, dataset, from, input, group_keys.drop_last()),
                            row,
                            from,
                        );
                    },
                    None => {},
                }
            }
        },
        _ => {},
    }
}

proof fn lemma_insert_sorted_extend(
    node: PlanNode,
    dataset: Dataset,
    sorted: Seq<Row>,
    row: Row,
    from: Row,
)
    requires
        all_extend(sorted, from),
        extends(row, from),
    ensures
        all_extend(insert_sorted(node, dataset, sorted, row), from),
    decreases sorted.len(),
{
    if sorted.len() == 0 {
    } else if row_precedes(node, dataset, row, sorted.last(), 0) {
        lemma_all_extend_drop_last(sorted, from);
        lemma_insert_sorted_extend(node, dataset, sorted.drop_last(), row, from);
        lemma_all_extend_push(
            insert_sorted(node, dataset, sorted.drop_last(), row),
            sorted.last(),
            from,
        );
    } else {
        lemma_all_extend_push(sorted, row, from);
    }
}

proof fn lemma_sort_rows_extend(node: PlanNode, dataset: Dataset, input: Seq<Row>, from: Row)
    requires
        all_extend(input, from),
    ensures
        all_extend(sort_rows(node, dataset, input), from),
    decreases input.len(),
{
    if input.len() > 0 {
        lemma_all_extend_drop_last(input, from);
        lemma_sort_rows_extend(node, dataset, input.drop_last(), from);
        lemma_insert_sorted_extend(
            node,
            dataset,
            sort_rows(node, dataset, input.drop_last()),
            input.last(),
            from,
        );
    }
}

/// The join of two plans.
pub open spec fn join_of(left: PlanNode, right: PlanNode) -> PlanNode {
    PlanNode::Join { left: Box::new(left), right: Box::new(right) }
}

/// The optional join of two plans under an expression.
pub open spec fn left_join_of(
    left: PlanNode,
    right: PlanNode,
    expression: Option<PlanExpression>,
) -> PlanNode {
    PlanNode::LeftJoin { left: Box::new(left), right: Box::new(right), expression }
}

/// Whether the expression of an optional join is absent or the constant
/// `true`.
pub open spec fn is_trivially_true(expression: Option<PlanExpression>) -> bool {
    expression is None || expression == Some(
        PlanExpression::Constant(EncodedTerm::BooleanLiteral(true)),
    )
}

proof fn lemma_optional_matches_all(node: PlanNode, dataset: Dataset, candidates: Seq<Row>)
    requires
        node is LeftJoin,
        is_trivially_true(node->LeftJoin_expression),
    ensures
        optional_matches(node, dataset, candidates) == candidates,
    decreases candidates.len(),
{
    if candidates.len() > 0 {
        lemma_optional_matches_all(node, dataset, candidates.drop_last());
        if let Some(condition) = node->LeftJoin_expression {
            assert(eval_expression(condition, dataset, candidates.last()) == Some(
                EncodedTerm::BooleanLiteral(true),
            ));
            assert(holds(condition, dataset, candidates.last()));
        }
        assert(candidates.drop_last().push(candidates.last()) =~= candidates);
    } else {
        assert(candidates =~= Seq::<Row>::empty());
    }
}

proof fn lemma_left_join_count(
    left: PlanNode,
    right: PlanNode,
    expression: Option<PlanExpression>,
    dataset: Dataset,
    lefts: Seq<Row>,
)
    requires
        is_trivially_true(expression),
    ensures
        left_join_each(left_join_of(left, right, expression), dataset, lefts).len() >= join_each(
            join_of(left, right),
            dataset,
            lefts,
        ).len(),
    decreases lefts.len(),
{
    if lefts.len() > 0 {
        lemma_left_join_count(left, right, expression, dataset, lefts.drop_last());
        lemma_optional_matches_all(
            left_join_of(left, right, expression),
            dataset,
            rows(right, dataset, lefts.last()),
        );
    }
}

/// An optional join whose expression is absent or `true` yields at least as
/// many rows as the join of the same two plans.
pub proof fn lemma_left_join_yields_no_fewer(
    left: PlanNode,
    right: PlanNode,
    expression: Option<PlanExpression>,
    dataset: Dataset,
    from: Row,
)
    requires
        is_trivially_true(expression),
    ensures
        rows(left_join_of(left, right, expression), dataset, from).len() >= rows(
            join_of(left, right),
            dataset,
            from,
        ).len(),
{
    lemma_left_join_count(left, right, expression, dataset, rows(left, dataset, from));
}

proof fn lemma_left_join_covers(node: PlanNode, dataset: Dataset, lefts: Seq<Row>, i: int) -> (k:
    int)
    requires
        node is LeftJoin,
        0 <= i < lefts.len(),
    ensures
        0 <= k < left_join_each(node, dataset, lefts).len(),
        extends(left_join_each(node, dataset, lefts)[k], lefts[i]),
    decreases lefts.len(),
{
    match node {
        PlanNode::LeftJoin { right, .. } => {
            let head = left_join_each(node, dataset, lefts.drop_last());
            let candidates = rows(*right, dataset, lefts.last());
            let matched = optional_matches(node, dataset, candidates);
            let piece = if matched.len() > 0 {
                matched
            } else {
                seq![lefts.last()]
            };
            if i == lefts.len() - 1 {
                lemma_rows_extend(*right, dataset, lefts.last());
                lemma_optional_matches_extend(node, dataset, candidates, lefts.last());
                assert(extends(piece[0], lefts.last()));
                assert((head + piece)[head.len() as int] == piece[0]);
                head.len() as int
            } else {
                let k = lemma_left_join_covers(node, dataset, lefts.drop_last(), i);
                assert((head + piece)[k] == head[k]);
                assert(lefts.drop_last()[i] == lefts[i]);
                k
            }
        },
        _ => 0,
    }
}

/// Every row of the left side of an optional join appears in its output:
/// as it is, or extended by bindings of the right side.
pub proof fn lemma_left_join_keeps_left_rows(
    left: PlanNode,
    right: PlanNode,
    expression: Option<PlanExpression>,
    dataset: Dataset,
    from: Row,
    i: int,
)
    requires
        0 <= i < rows(left, dataset, from).len(),
    ensures
        exists|k: int|
            0 <= k < rows(left_join_of(left, right, expression), dataset, from).len() && extends(
                #[trigger] rows(left_join_of(left, right, expression), dataset, from)[k],
                rows(left, dataset, from)[i],
            ),
{
    let k = lemma_left_join_covers(
        left_join_of(left, right, expression),
        dataset,
        rows(left, dataset, from),
        i,
    );
    assert(extends(
        rows(left_join_of(left, right, expression), dataset, from)[k],
        rows(left, dataset, from)[i],
    ));
}

/// The rows without repeats hold no row twice, and hold the rows that the
/// given rows hold.
pub proof fn lemma_distinct_rows(input: Seq<Row>)
    ensures
        distinct_rows(input).no_duplicates(),
        forall|row: Row| distinct_rows(input).contains(row) <==> input.contains(row),
        distinct_rows(input).to_set() == input.to_set(),
    decreases input.len(),
{
    let out = distinct_rows(input);
    if input.len() > 0 {
        let head = input.drop_last();
        let rest = distinct_rows(head);
        lemma_distinct_rows(head);
        assert forall|row: Row| out.contains(row) <==> input.contains(row) by {
            if out.contains(row) {
                let k = choose|k: int| 0 <= k < out.len() && out[k] == row;
                if k < rest.len() {
                    assert(rest[k] == row);
                    assert(rest.contains(row));
                    assert(head.contains(row));
                    let m = choose|m: int| 0 <= m < head.len() && head[m] == row;
                    assert(input[m] == row);
                } else {
                    assert(row == input.last());
                    assert(input[input.len() - 1] == row);
                }
            }
            if input.contains(row) {
                let m = choose|m: int| 0 <= m < input.len() && input[m] == row;
                if m < head.len() {
                    assert(head[m] == row);
                    assert(head.contains(row));
                    assert(rest.contains(row));
                    let k = choose|k: int| 0 <= k < rest.len() && rest[k] == row;
                    assert(out[k] == row);
                } else {
                    if rest.contains(row) {
                        let k = choose|k: int| 0 <= k < rest.len() && rest[k] == row;
                        assert(out[k] == row);
                    } else {
                        assert(out[rest.len() as int] == row);
                    }
                }
            }
        }
        assert forall|i: int, j: int| 0 <= i < out.len() && 0 <= j < out.len() && i != j implies out[i]
            != out[j] by {
            if !rest.contains(input.last()) {
                if i == rest.len() {
                    assert(rest[j] == out[j]);
                } else if j == rest.len() {
                    assert(rest[i] == out[i]);
                }
            }
        }
    }
    assert(out.to_set() =~= input.to_set());
}

/// `DISTINCT` yields no row twice, and yields the rows that its pattern
/// yields.
pub proof fn lemma_distinct_plan(child: PlanNode, dataset: Dataset, from: Row)
    ensures
        rows(PlanNode::Distinct { child: Box::new(child) }, dataset, from).no_duplicates(),
        rows(PlanNode::Distinct { child: Box::new(child) }, dataset, from).to_set() == rows(
            child,
            dataset,
            from,
        ).to_set(),
{
    lemma_distinct_rows(rows(child, dataset, from));
}

/// Whether a plan is made of quad patterns and joins alone.
pub open spec fn is_basic(node: PlanNode) -> bool
    decreases node,
{
    match node {
        PlanNode::Init => true,
        PlanNode::QuadPatternJoin { child, .. } => is_basic(*child),
        PlanNode::Join { left, right } => is_basic(*left) && is_basic(*right),
        _ => false,
    }
}

/// Whether a pattern position is settled on a row: it is the constant
/// `value`, or a variable that the row binds to `value`.
pub open spec fn fixes(row: Row, position: PatternValue, value: EncodedTerm) -> bool {
    match position {
        PatternValue::Constant(constant) => constant == value,
        PatternValue::Variable(slot) => slot < row.len() && row[slot as int] == Some(value),
    }
}

/// Whether every position of a pattern is settled on a row for a quad.
pub open spec fn fixes_quad(row: Row, pattern: QuadPattern, quad: EncodedQuad) -> bool {
    &&& fixes(row, pattern.subject, quad.subject)
    &&& fixes(row, pattern.predicate, quad.predicate)
    &&& fixes(row, pattern.object, quad.object)
    &&& fixes(row, pattern.graph_name, quad.graph_name)
    &&& pattern.graph_name is Variable ==> quad.graph_name != EncodedTerm::DefaultGraph
}

proof fn lemma_bind_quad_fixes(row: Row, pattern: QuadPattern, quad: EncodedQuad)
    requires
        bind_quad(row, pattern, quad) is Some,
    ensures
        fixes_quad(bind_quad(row, pattern, quad)->0, pattern, quad),
{
    let r1 = bind_value(row, pattern.subject, quad.subject)->0;
    let r2 = bind_value(r1, pattern.predicate, quad.predicate)->0;
    let r3 = bind_value(r2, pattern.object, quad.object)->0;
    let r4 = bind_graph(r3, pattern.graph_name, quad.graph_name)->0;
    assert(fixes(r1, pattern.subject, quad.subject));
    assert(fixes(r2, pattern.predicate, quad.predicate));
    assert(fixes(r3, pattern.object, quad.object));
    assert(fixes(r4, pattern.graph_name, quad.graph_name));
    assert(extends(r2, r1));
    assert(extends(r3, r2));
    assert(extends(r4, r3));
    lemma_extends_transitive(r3, r2, r1);
    lemma_extends_transitive(r4, r3, r1);
    lemma_extends_transitive(r4, r3, r2);
    lemma_fixes_later(r1, r4, pattern.subject, quad.subject);
    lemma_fixes_later(r2, r4, pattern.predicate, quad.predicate);
    lemma_fixes_later(r3, r4, pattern.object, quad.object);
}

proof fn lemma_fixes_later(row: Row, later: Row, position: PatternValue, value: EncodedTerm)
    requires
        fixes(row, position, value),
        extends(later, row),
    ensures
        fixes(later, position, value),
{
    match position {
        PatternValue::Constant(_) => {},
        PatternValue::Variable(slot) => {
            assert(row[slot as int] is Some);
        },
    }
}

proof fn lemma_fixed_row_scans_to_itself(row: Row, pattern: QuadPattern, quad: EncodedQuad, other: EncodedQuad)
    requires
        fixes_quad(row, pattern, quad),
    ensures
        bind_quad(row, pattern, quad) == Some(row),
        bind_quad(row, pattern, other) is Some ==> other == quad,
{
    if bind_quad(row, pattern, other) is Some {
        let r1 = bind_value(row, pattern.subject, other.subject)->0;
        let r2 = bind_value(r1, pattern.predicate, other.predicate)->0;
        let r3 = bind_value(r2, pattern.object, other.object)->0;
        assert(r1 == row);
        assert(r2 == row);
        assert(r3 == row);
    }
}

proof fn lemma_scan_row_without(row: Row, pattern: QuadPattern, quads: Seq<EncodedQuad>)
    requires
        forall|k: int| 0 <= k < quads.len() ==> bind_quad(row, pattern, #[trigger] quads[k]) is None,
    ensures
        scan_row(row, pattern, quads) == Seq::<Row>::empty(),
    decreases quads.len(),
{
    if quads.len() > 0 {
        assert forall|k: int| 0 <= k < quads.drop_last().len() implies bind_quad(
            row,
            pattern,
            #[trigger] quads.drop_last()[k],
        ) is None by {
            assert(quads.drop_last()[k] == quads[k]);
        }
        lemma_scan_row_without(row, pattern, quads.drop_last());
        assert(bind_quad(row, pattern, quads[quads.len() - 1]) is None);
    }
}

/// A row on which a pattern is settled for one quad of a dataset that
/// holds no quad twice scans to itself alone.
proof fn lemma_scan_row_fixed(row: Row, pattern: QuadPattern, quads: Seq<EncodedQuad>, k: int)
    requires
        quads.no_duplicates(),
        0 <= k < quads.len(),
        fixes_quad(row, pattern, quads[k]),
    ensures
        scan_row(row, pattern, quads) == seq![row],
    decreases quads.len(),
{
    let head = quads.drop_last();
    if k == quads.len() - 1 {
        assert forall|m: int| 0 <= m < head.len() implies bind_quad(
            row,
            pattern,
            #[trigger] head[m],
        ) is None by {
            assert(head[m] == quads[m]);
            lemma_fixed_row_scans_to_itself(row, pattern, quads[k], quads[m]);
        }
        lemma_scan_row_without(row, pattern, head);
        lemma_fixed_row_scans_to_itself(row, pattern, quads[k], quads[k]);
        assert(Seq::<Row>::empty().push(row) =~= seq![row]);
    } else {
        assert(head[k] == quads[k]);
        lemma_scan_row_fixed(row, pattern, head, k);
        lemma_fixed_row_scans_to_itself(row, pattern, quads[k], quads.last());
        assert(quads[quads.len() - 1] != quads[k]);
    }
}

proof fn lemma_scan_row_origin(row: Row, pattern: QuadPattern, quads: Seq<EncodedQuad>, i: int) -> (k:
    int)
    requires
        0 <= i < scan_row(row, pattern, quads).len(),
    ensures
        0 <= k < quads.len(),
        bind_quad(row, pattern, quads[k]) == Some(scan_row(row, pattern, quads)[i]),
    decreases quads.len(),
{
    let head = scan_row(row, pattern, quads.drop_last());
    if i < head.len() {
        let k = lemma_scan_row_origin(row, pattern, quads.drop_last(), i);
        assert(quads.drop_last()[k] == quads[k]);
        k
    } else {
        quads.len() - 1
    }
}

proof fn lemma_scan_each_origin(
    input: Seq<Row>,
    pattern: QuadPattern,
    quads: Seq<EncodedQuad>,
    i: int,
) -> (origin: (int, int))
    requires
        0 <= i < scan_each(input, pattern, quads).len(),
    ensures
        0 <= origin.0 < input.len(),
        0 <= origin.1 < quads.len(),
        bind_quad(input[origin.0], pattern, quads[origin.1]) == Some(
            scan_each(input, pattern, quads)[i],
        ),
    decreases input.len(),
{
    let head = scan_each(input.drop_last(), pattern, quads);
    if i < head.len() {
        let origin = lemma_scan_each_origin(input.drop_last(), pattern, quads, i);
        assert(input.drop_last()[origin.0] == input[origin.0]);
        origin
    } else {
        let k = lemma_scan_row_origin(input.last(), pattern, quads, i - head.len());
        (input.len() - 1, k)
    }
}

proof fn lemma_join_each_origin(node: PlanNode, dataset: Dataset, lefts: Seq<Row>, i: int) -> (origin:
    (int, int))
    requires
        node is Join,
        0 <= i < join_each(node, dataset, lefts).len(),
    ensures
        0 <= origin.0 < lefts.len(),
        0 <= origin.1 < rows(*node->Join_right, dataset, lefts[origin.0]).len(),
        rows(*node->Join_right, dataset, lefts[origin.0])[origin.1] == join_each(
            node,
            dataset,
            lefts,
        )[i],
    decreases lefts.len(),
{
    let head = join_each(node, dataset, lefts.drop_last());
    if i < head.len() {
        let origin = lemma_join_each_origin(node, dataset, lefts.drop_last(), i);
        assert(lefts.drop_last()[origin.0] == lefts[origin.0]);
        origin
    } else {
        (lefts.len() - 1, i - head.len())
    }
}

/// On a dataset that holds no quad twice, a plan of quad patterns and joins
/// yields, from a row that extends one of its solutions, that row alone.
pub proof fn lemma_basic_plan_settles(
    node: PlanNode,
    dataset: Dataset,
    from: Row,
    i: int,
    later: Row,
)
    requires
        is_basic(node),
        dataset.quads.no_duplicates(),
        0 <= i < rows(node, dataset, from).len(),
        extends(later, rows(node, dataset, from)[i]),
    ensures
        rows(node, dataset, later) == seq![later],
    decreases node,
{
    let solution = rows(node, dataset, from)[i];
    match node {
        PlanNode::Init => {},
        PlanNode::QuadPatternJoin { child, .. } => {
            let pattern = pattern_of(node);
            let input = rows(*child, dataset, from);
            let origin = lemma_scan_each_origin(input, pattern, dataset.quads, i);
            let quad = dataset.quads[origin.1];
            lemma_bind_quad_extends(input[origin.0], pattern, quad);
            lemma_extends_transitive(later, solution, input[origin.0]);
            lemma_basic_plan_settles(*child, dataset, from, origin.0, later);
            lemma_bind_quad_fixes(input[origin.0], pattern, quad);
            lemma_fixes_later(solution, later, pattern.subject, quad.subject);
            lemma_fixes_later(solution, later, pattern.predicate, quad.predicate);
            lemma_fixes_later(solution, later, pattern.object, quad.object);
            lemma_fixes_later(solution, later, pattern.graph_name, quad.graph_name);
            lemma_scan_row_fixed(later, pattern, dataset.quads, origin.1);
            let single = seq![later];
            assert(single.drop_last() =~= Seq::<Row>::empty());
            assert(single.last() == later);
            assert(scan_each(single.drop_last(), pattern, dataset.quads) =~= Seq::<Row>::empty());
            assert(scan_each(single, pattern, dataset.quads) =~= scan_row(
                later,
                pattern,
                dataset.quads,
            ));
        },
        PlanNode::Join { left, right } => {
            let lefts = rows(*left, dataset, from);
            let origin = lemma_join_each_origin(node, dataset, lefts, i);
            lemma_rows_extend(*right, dataset, lefts[origin.0]);
            lemma_extends_transitive(later, solution, lefts[origin.0]);
            lemma_basic_plan_settles(*left, dataset, from, origin.0, later);
            lemma_basic_plan_settles(*right, dataset, lefts[origin.0], origin.1, later);
            let single = seq![later];
            assert(single.drop_last() =~= Seq::<Row>::empty());
            assert(single.last() == later);
            assert(join_each(node, dataset, single.drop_last()) =~= Seq::<Row>::empty());
            assert(join_each(node, dataset, single) =~= rows(*right, dataset, later));
        },
        _ => {},
    }
}

proof fn lemma_join_each_identity(node: PlanNode, dataset: Dataset, lefts: Seq<Row>)
    requires
        node is Join,
        forall|j: int|
            0 <= j < lefts.len() ==> rows(*node->Join_right, dataset, #[trigger] lefts[j])
                == seq![lefts[j]],
    ensures
        join_each(node, dataset, lefts) == lefts,
    decreases lefts.len(),
{
    if lefts.len() > 0 {
        assert forall|j: int| 0 <= j < lefts.drop_last().len() implies rows(
            *node->Join_right,
            dataset,
            #[trigger] lefts.drop_last()[j],
        ) == seq![lefts.drop_last()[j]] by {
            assert(lefts.drop_last()[j] == lefts[j]);
        }
        lemma_join_each_identity(node, dataset, lefts.drop_last());
        assert(rows(*node->Join_right, dataset, lefts[lefts.len() - 1]) == seq![lefts.last()]);
        assert(lefts.drop_last() + seq![lefts.last()] =~= lefts);
    } else {
        assert(lefts =~= Seq::<Row>::empty());
    }
}

/// Joining a plan of quad patterns and joins with itself yields exactly
/// the rows of the plan, on a dataset that holds no quad twice.
pub proof fn lemma_self_join(node: PlanNode, dataset: Dataset, from: Row)
    requires
        is_basic(node),
        dataset.quads.no_duplicates(),
    ensures
        rows(join_of(node, node), dataset, from) == rows(node, dataset, from),
{
    let lefts = rows(node, dataset, from);
    assert forall|j: int| 0 <= j < lefts.len() implies rows(node, dataset, #[trigger] lefts[j])
        == seq![lefts[j]] by {
        lemma_basic_plan_settles(node, dataset, from, j, lefts[j]);
    }
    lemma_join_each_identity(join_of(node, node), dataset, lefts);
}

/// Joining a plan with itself yields exactly the rows of the plan, where
/// the plan yields, from each of its solutions, that solution alone.
pub proof fn lemma_self_join_of_settled_plan(node: PlanNode, dataset: Dataset, from: Row)
    requires
        forall|j: int|
            0 <= j < rows(node, dataset, from).len() ==> rows(
                node,
                dataset,
                #[trigger] rows(node, dataset, from)[j],
            ) == seq![rows(node, dataset, from)[j]],
    ensures
        rows(join_of(node, node), dataset, from) == rows(node, dataset, from),
{
    lemma_join_each_identity(join_of(node, node), dataset, rows(node, dataset, from));
}

proof fn lemma_join_each_single(node: PlanNode, dataset: Dataset, lefts: Seq<Row>)
    requires
        node is Join,
        forall|i: int|
            0 <= i < lefts.len() ==> rows(*node->Join_right, dataset, #[trigger] lefts[i])
                == seq![lefts[i]],
    ensures
        join_each(node, dataset, lefts) == lefts,
    decreases lefts.len(),
{
    if lefts.len() > 0 {
        assert forall|i: int| 0 <= i < lefts.drop_last().len() implies rows(
            *node->Join_right,
            dataset,
            #[trigger] lefts.drop_last()[i],
        ) == seq![lefts.drop_last()[i]] by {
            assert(lefts.drop_last()[i] == lefts[i]);
        }
        lemma_join_each_single(node, dataset, lefts.drop_last());
        assert(lefts.last() == lefts[lefts.len() - 1]);
        assert(lefts.drop_last() + seq![lefts.last()] =~= lefts);
    } else {
        assert(join_each(node, dataset, lefts) =~= lefts);
    }
}

/// A federated pattern whose service gave no answer leaves the rest of the
/// pattern as it is: joined to a plan, on either side, it yields the rows
/// of that plan, with the variables of the federated pattern as the plan
/// left them.
pub proof fn lemma_unanswered_service_leaves_the_rest(
    rest: PlanNode,
    id: usize,
    slots: Vec<usize>,
    dataset: Dataset,
    from: Row,
)
    requires
        answer_at(dataset, id) is None,
    ensures
        rows(join_of(rest, PlanNode::Service { id, slots }), dataset, from) == rows(
            rest,
            dataset,
            from,
        ),
        rows(join_of(PlanNode::Service { id, slots }, rest), dataset, from) == rows(
            rest,
            dataset,
            from,
        ),
{
    let service = PlanNode::Service { id, slots };
    let after = join_of(rest, service);
    let lefts = rows(rest, dataset, from);
    assert forall|i: int| 0 <= i < lefts.len() implies rows(
        *after->Join_right,
        dataset,
        #[trigger] lefts[i],
    ) == seq![lefts[i]] by {
        assert(rows(service, dataset, lefts[i]) == seq![lefts[i]]);
    }
    lemma_join_each_single(after, dataset, lefts);
    let before = join_of(service, rest);
    let single = seq![from];
    assert(rows(service, dataset, from) == single);
    assert(single.drop_last() =~= Seq::<Row>::empty());
    assert(join_each(before, dataset, Seq::<Row>::empty()) =~= Seq::<Row>::empty());
    assert(join_each(before, dataset, single) =~= rows(rest, dataset, from));
}

} // verus!
