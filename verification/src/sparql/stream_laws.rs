use crate::sparql::dataset::{Dataset, EncodedQuad};
use crate::sparql::plan::{
    bind_quad, distinct_rows, excluded, minus_rows, overlay, overlay_each, scan_each, scan_row,
    slice_rows, PlanNode, QuadPattern, Row,
};
use crate::sparql::semantics::{
    extend_each, extend_row, filter_each, holds, join_each, left_join_each, optional_matches,
    rows,
};
use vstd::prelude::*;

verus! {

/// The first of the given rows, then the others.
pub open spec fn cons(first: Row, others: Seq<Row>) -> Seq<Row> {
    seq![first] + others
}

proof fn lemma_cons_drop_last(first: Row, others: Seq<Row>)
    requires
        others.len() > 0,
    ensures
        cons(first, others).drop_last() == cons(first, others.drop_last()),
        cons(first, others).last() == others.last(),
{
    assert(cons(first, others).drop_last() =~= cons(first, others.drop_last()));
}

/// The extensions of a row by the quads from position `at` on.
pub open spec fn scan_rest(row: Row, pattern: QuadPattern, quads: Seq<EncodedQuad>, at: int) -> Seq<
    Row,
> {
    if 0 <= at <= quads.len() {
        scan_row(row, pattern, quads.subrange(at, quads.len() as int))
    } else {
        Seq::empty()
    }
}

proof fn lemma_scan_row_first(row: Row, pattern: QuadPattern, quads: Seq<EncodedQuad>)
    requires
        quads.len() > 0,
    ensures
        scan_row(row, pattern, quads) == match bind_quad(row, pattern, quads[0]) {
            Some(extended) => cons(extended, scan_row(row, pattern, quads.subrange(1, quads.len() as int))),
            None => scan_row(row, pattern, quads.subrange(1, quads.len() as int)),
        },
    decreases quads.len(),
{
    let tail = quads.subrange(1, quads.len() as int);
    if quads.len() == 1 {
        assert(quads.drop_last() =~= Seq::<EncodedQuad>::empty());
        assert(tail =~= Seq::<EncodedQuad>::empty());
        assert(scan_row(row, pattern, quads.drop_last()) =~= Seq::<Row>::empty());
        if let Some(extended) = bind_quad(row, pattern, quads[0]) {
            assert(Seq::<Row>::empty().push(extended) =~= cons(extended, Seq::<Row>::empty()));
        }
    } else {
        lemma_scan_row_first(row, pattern, quads.drop_last());
        assert(quads.drop_last().subrange(1, quads.len() - 1) =~= tail.drop_last());
        assert(tail.last() == quads.last());
        assert(quads.drop_last()[0] == quads[0]);
        let inner = scan_row(row, pattern, tail.drop_last());
        match bind_quad(row, pattern, quads[0]) {
            Some(extended) => {
                match bind_quad(row, pattern, quads.last()) {
                    Some(last) => {
                        assert(cons(extended, inner).push(last) =~= cons(
                            extended,
                            inner.push(last),
                        ));
                    },
                    None => {},
                }
            },
            None => {},
        }
    }
}

/// Scanning from a position tries the quad at it, then scans from the
/// next.
pub proof fn lemma_scan_rest_step(row: Row, pattern: QuadPattern, quads: Seq<EncodedQuad>, at: int)
    requires
        0 <= at < quads.len(),
    ensures
        scan_rest(row, pattern, quads, at) == match bind_quad(row, pattern, quads[at]) {
            Some(extended) => cons(extended, scan_rest(row, pattern, quads, at + 1)),
            None => scan_rest(row, pattern, quads, at + 1),
        },
{
    let part = quads.subrange(at, quads.len() as int);
    lemma_scan_row_first(row, pattern, part);
    assert(part.subrange(1, part.len() as int) =~= quads.subrange(at + 1, quads.len() as int));
}

/// A scan of rows scans the first, then the others.
pub proof fn lemma_scan_each_first(
    first: Row,
    others: Seq<Row>,
    pattern: QuadPattern,
    quads: Seq<EncodedQuad>,
)
    ensures
        scan_each(cons(first, others), pattern, quads) == scan_row(first, pattern, quads)
            + scan_each(others, pattern, quads),
    decreases others.len(),
{
    if others.len() == 0 {
        assert(cons(first, others).drop_last() =~= Seq::<Row>::empty());
        assert(scan_each(Seq::<Row>::empty(), pattern, quads) =~= Seq::<Row>::empty());
        assert(scan_each(others, pattern, quads) =~= Seq::<Row>::empty());
        assert(scan_each(cons(first, others), pattern, quads) =~= scan_row(first, pattern, quads));
        assert(scan_row(first, pattern, quads) + Seq::<Row>::empty() =~= scan_row(
            first,
            pattern,
            quads,
        ));
    } else {
        lemma_cons_drop_last(first, others);
        lemma_scan_each_first(first, others.drop_last(), pattern, quads);
        assert((scan_row(first, pattern, quads) + scan_each(others.drop_last(), pattern, quads))
            + scan_row(others.last(), pattern, quads) =~= scan_row(first, pattern, quads) + (
        scan_each(others.drop_last(), pattern, quads) + scan_row(others.last(), pattern, quads)));
    }
}

/// A join takes the first left row, then the others.
pub proof fn lemma_join_each_first(node: PlanNode, dataset: Dataset, first: Row, others: Seq<Row>)
    requires
        node is Join,
    ensures
        join_each(node, dataset, cons(first, others)) == rows(
            *node->Join_right,
            dataset,
            first,
        ) + join_each(node, dataset, others),
    decreases others.len(),
{
    let piece = rows(*node->Join_right, dataset, first);
    if others.len() == 0 {
        assert(cons(first, others).drop_last() =~= Seq::<Row>::empty());
        assert(join_each(node, dataset, Seq::<Row>::empty()) =~= Seq::<Row>::empty());
        assert(join_each(node, dataset, others) =~= Seq::<Row>::empty());
        assert(join_each(node, dataset, cons(first, others)) =~= piece);
        assert(piece + Seq::<Row>::empty() =~= piece);
    } else {
        lemma_cons_drop_last(first, others);
        lemma_join_each_first(node, dataset, first, others.drop_last());
        let last = rows(*node->Join_right, dataset, others.last());
        assert((piece + join_each(node, dataset, others.drop_last())) + last =~= piece + (
        join_each(node, dataset, others.drop_last()) + last));
    }
}

/// What an optional join yields for one left row: its matches on the right
/// side, or the row itself where it has none.
pub open spec fn left_join_piece(node: PlanNode, dataset: Dataset, left: Row) -> Seq<Row> {
    let matched = optional_matches(node, dataset, rows(*node->LeftJoin_right, dataset, left));
    if matched.len() > 0 {
        matched
    } else {
        seq![left]
    }
}

/// An optional join takes the first left row, then the others.
pub proof fn lemma_left_join_each_first(
    node: PlanNode,
    dataset: Dataset,
    first: Row,
    others: Seq<Row>,
)
    requires
        node is LeftJoin,
    ensures
        left_join_each(node, dataset, cons(first, others)) == left_join_piece(
            node,
            dataset,
            first,
        ) + left_join_each(node, dataset, others),
    decreases others.len(),
{
    let piece = left_join_piece(node, dataset, first);
    if others.len() == 0 {
        assert(cons(first, others).drop_last() =~= Seq::<Row>::empty());
        assert(cons(first, others).last() == first);
        assert(left_join_each(node, dataset, Seq::<Row>::empty()) =~= Seq::<Row>::empty());
        assert(left_join_each(node, dataset, others) =~= Seq::<Row>::empty());
        assert(left_join_each(node, dataset, cons(first, others)) =~= piece);
        assert(piece + Seq::<Row>::empty() =~= piece);
    } else {
        lemma_cons_drop_last(first, others);
        lemma_left_join_each_first(node, dataset, first, others.drop_last());
        let last = left_join_piece(node, dataset, others.last());
        assert((piece + left_join_each(node, dataset, others.drop_last())) + last =~= piece + (
        left_join_each(node, dataset, others.drop_last()) + last));
    }
}

/// Whether an optional join keeps a candidate: its expression holds on it,
/// or it has none.
pub open spec fn keeps(node: PlanNode, dataset: Dataset, candidate: Row) -> bool {
    match node {
        PlanNode::LeftJoin { expression: Some(condition), .. } => holds(
            condition,
            dataset,
            candidate,
        ),
        _ => true,
    }
}

/// The matches of an optional join among candidates: the first where it is
/// kept, then those among the others.
pub proof fn lemma_optional_matches_first(
    node: PlanNode,
    dataset: Dataset,
    first: Row,
    others: Seq<Row>,
)
    requires
        node is LeftJoin,
    ensures
        optional_matches(node, dataset, cons(first, others)) == if keeps(node, dataset, first) {
            cons(first, optional_matches(node, dataset, others))
        } else {
            optional_matches(node, dataset, others)
        },
    decreases others.len(),
{
    if others.len() == 0 {
        assert(cons(first, others).drop_last() =~= Seq::<Row>::empty());
        assert(cons(first, others).last() == first);
        assert(optional_matches(node, dataset, Seq::<Row>::empty()) =~= Seq::<Row>::empty());
        assert(optional_matches(node, dataset, others) =~= Seq::<Row>::empty());
        assert(Seq::<Row>::empty().push(first) =~= cons(first, Seq::<Row>::empty()));
    } else {
        lemma_cons_drop_last(first, others);
        lemma_optional_matches_first(node, dataset, first, others.drop_last());
        let inner = optional_matches(node, dataset, others.drop_last());
        assert(cons(first, inner).push(others.last()) =~= cons(first, inner.push(others.last())));
    }
}

/// A filter takes the first row where its expression holds on it, then the
/// others.
pub proof fn lemma_filter_each_first(node: PlanNode, dataset: Dataset, first: Row, others: Seq<Row>)
    requires
        node is Filter,
    ensures
        filter_each(node, dataset, cons(first, others)) == if holds(
            node->Filter_expression,
            dataset,
            first,
        ) {
            cons(first, filter_each(node, dataset, others))
        } else {
            filter_each(node, dataset, others)
        },
    decreases others.len(),
{
    if others.len() == 0 {
        assert(cons(first, others).drop_last() =~= Seq::<Row>::empty());
        assert(cons(first, others).last() == first);
        assert(filter_each(node, dataset, Seq::<Row>::empty()) =~= Seq::<Row>::empty());
        assert(filter_each(node, dataset, others) =~= Seq::<Row>::empty());
        assert(Seq::<Row>::empty().push(first) =~= cons(first, Seq::<Row>::empty()));
    } else {
        lemma_cons_drop_last(first, others);
        lemma_filter_each_first(node, dataset, first, others.drop_last());
        let inner = filter_each(node, dataset, others.drop_last());
        assert(cons(first, inner).push(others.last()) =~= cons(first, inner.push(others.last())));
    }
}

/// `BIND` takes the first row, then the others.
pub proof fn lemma_extend_each_first(node: PlanNode, dataset: Dataset, first: Row, others: Seq<Row>)
    ensures
        extend_each(node, dataset, cons(first, others)) == match extend_row(node, dataset, first) {
            Some(row) => cons(row, extend_each(node, dataset, others)),
            None => extend_each(node, dataset, others),
        },
    decreases others.len(),
{
    if others.len() == 0 {
        assert(cons(first, others).drop_last() =~= Seq::<Row>::empty());
        assert(cons(first, others).last() == first);
        assert(extend_each(node, dataset, Seq::<Row>::empty()) =~= Seq::<Row>::empty());
        assert(extend_each(node, dataset, others) =~= Seq::<Row>::empty());
        if let Some(row) = extend_row(node, dataset, first) {
            assert(Seq::<Row>::empty().push(row) =~= cons(row, Seq::<Row>::empty()));
        }
    } else {
        lemma_cons_drop_last(first, others);
        lemma_extend_each_first(node, dataset, first, others.drop_last());
        let inner = extend_each(node, dataset, others.drop_last());
        if let Some(row) = extend_row(node, dataset, first) {
            if let Some(last) = extend_row(node, dataset, others.last()) {
                assert(cons(row, inner).push(last) =~= cons(row, inner.push(last)));
            }
        }
    }
}

/// `MINUS` takes the first left row unless it is excluded, then the
/// others.
pub proof fn lemma_minus_rows_first(first: Row, others: Seq<Row>, rights: Seq<Row>)
    ensures
        minus_rows(cons(first, others), rights) == if excluded(first, rights) {
            minus_rows(others, rights)
        } else {
            cons(first, minus_rows(others, rights))
        },
    decreases others.len(),
{
    if others.len() == 0 {
        assert(cons(first, others).drop_last() =~= Seq::<Row>::empty());
        assert(cons(first, others).last() == first);
        assert(minus_rows(Seq::<Row>::empty(), rights) =~= Seq::<Row>::empty());
        assert(minus_rows(others, rights) =~= Seq::<Row>::empty());
        assert(Seq::<Row>::empty().push(first) =~= cons(first, Seq::<Row>::empty()));
    } else {
        lemma_cons_drop_last(first, others);
        lemma_minus_rows_first(first, others.drop_last(), rights);
        let inner = minus_rows(others.drop_last(), rights);
        assert(cons(first, inner).push(others.last()) =~= cons(first, inner.push(others.last())));
    }
}

/// A projection lays the first row over its input row, then the others.
pub proof fn lemma_overlay_each_first(from: Row, first: Row, others: Seq<Row>, slots: Seq<usize>)
    ensures
        overlay_each(from, cons(first, others), slots) == cons(
            overlay(from, first, slots),
            overlay_each(from, others, slots),
        ),
{
    assert(overlay_each(from, cons(first, others), slots) =~= cons(
        overlay(from, first, slots),
        overlay_each(from, others, slots),
    ));
}

/// The rows that are not among `seen` and not among the rows before them,
/// in their order.
pub open spec fn fresh_rows(input: Seq<Row>, seen: Seq<Row>) -> Seq<Row>
    decreases input.len(),
{
    if input.len() == 0 {
        Seq::empty()
    } else {
        let rest = fresh_rows(input.drop_last(), seen);
        if seen.contains(input.last()) || rest.contains(input.last()) {
            rest
        } else {
            rest.push(input.last())
        }
    }
}

/// With nothing seen, the fresh rows are the rows without repeats.
pub proof fn lemma_fresh_rows_of_nothing(input: Seq<Row>)
    ensures
        fresh_rows(input, Seq::empty()) == distinct_rows(input),
    decreases input.len(),
{
    if input.len() > 0 {
        lemma_fresh_rows_of_nothing(input.drop_last());
        assert(!Seq::<Row>::empty().contains(input.last()));
    }
}

proof fn lemma_fresh_rows_members(input: Seq<Row>, seen: Seq<Row>, row: Row)
    ensures
        fresh_rows(input, seen).contains(row) <==> input.contains(row) && !seen.contains(row),
    decreases input.len(),
{
    if input.len() > 0 {
        let head = input.drop_last();
        let rest = fresh_rows(head, seen);
        lemma_fresh_rows_members(head, seen, row);
        lemma_fresh_rows_members(head, seen, input.last());
        let out = fresh_rows(input, seen);
        if out.contains(row) {
            let k = choose|k: int| 0 <= k < out.len() && out[k] == row;
            if k < rest.len() {
                assert(rest[k] == row);
                assert(rest.contains(row));
                let m = choose|m: int| 0 <= m < head.len() && head[m] == row;
                assert(input[m] == row);
            } else {
                assert(input[input.len() - 1] == row);
            }
        }
        if input.contains(row) && !seen.contains(row) {
            let m = choose|m: int| 0 <= m < input.len() && input[m] == row;
            if m < head.len() {
                assert(head[m] == row);
                assert(head.contains(row));
                let k = choose|k: int| 0 <= k < rest.len() && rest[k] == row;
                assert(out[k] == row);
            } else if rest.contains(row) {
                let k = choose|k: int| 0 <= k < rest.len() && rest[k] == row;
                assert(out[k] == row);
            } else {
                assert(out[rest.len() as int] == row);
            }
        }
    }
}

/// `DISTINCT` takes the first row unless it was seen, then the others with
/// the first among what was seen.
pub proof fn lemma_fresh_rows_first(first: Row, others: Seq<Row>, seen: Seq<Row>)
    ensures
        fresh_rows(cons(first, others), seen) == if seen.contains(first) {
            fresh_rows(others, seen)
        } else {
            cons(first, fresh_rows(others, seen.push(first)))
        },
    decreases others.len(),
{
    if others.len() == 0 {
        assert(cons(first, others).drop_last() =~= Seq::<Row>::empty());
        assert(cons(first, others).last() == first);
        assert(fresh_rows(Seq::<Row>::empty(), seen) =~= Seq::<Row>::empty());
        assert(fresh_rows(others, seen) =~= Seq::<Row>::empty());
        assert(fresh_rows(others, seen.push(first)) =~= Seq::<Row>::empty());
        assert(!Seq::<Row>::empty().contains(first));
        assert(Seq::<Row>::empty().push(first) =~= cons(first, Seq::<Row>::empty()));
    } else {
        lemma_cons_drop_last(first, others);
        lemma_fresh_rows_first(first, others.drop_last(), seen);
        let last = others.last();
        let with = seen.push(first);
        lemma_fresh_rows_members(cons(first, others.drop_last()), seen, last);
        lemma_fresh_rows_members(others.drop_last(), seen, last);
        lemma_fresh_rows_members(others.drop_last(), with, last);
        assert(with.contains(last) <==> seen.contains(last) || last == first) by {
            if with.contains(last) {
                let k = choose|k: int| 0 <= k < with.len() && with[k] == last;
                if k < seen.len() {
                    assert(seen[k] == last);
                }
            }
            if seen.contains(last) {
                let k = choose|k: int| 0 <= k < seen.len() && seen[k] == last;
                assert(with[k] == last);
            }
            if last == first {
                assert(with[seen.len() as int] == last);
            }
        }
        assert(cons(first, others.drop_last()).contains(last) <==> last == first
            || others.drop_last().contains(last)) by {
            let whole = cons(first, others.drop_last());
            if whole.contains(last) {
                let k = choose|k: int| 0 <= k < whole.len() && whole[k] == last;
                if k > 0 {
                    assert(others.drop_last()[k - 1] == last);
                }
            }
            if last == first {
                assert(whole[0] == last);
            }
            if others.drop_last().contains(last) {
                let k = choose|k: int|
                    0 <= k < others.drop_last().len() && others.drop_last()[k] == last;
                assert(whole[k + 1] == last);
            }
        }
        if !seen.contains(first) {
            let inner = fresh_rows(others.drop_last(), with);
            assert(cons(first, inner).push(last) =~= cons(first, inner.push(last)));
        }
    }
}

/// A slice of rows, by its first row: nothing where no row is wanted; else
/// the slice of the others with one row less to skip, where rows are to be
/// skipped; else the first row, then the slice of the others with one row
/// less to take.
pub proof fn lemma_slice_rows_first(first: Row, others: Seq<Row>, start: usize, length: Option<usize>)
    ensures
        slice_rows(cons(first, others), start, length) == if length == Some(0usize) {
            Seq::<Row>::empty()
        } else if start > 0 {
            slice_rows(others, (start - 1) as usize, length)
        } else {
            cons(
                first,
                slice_rows(
                    others,
                    0,
                    match length {
                        Some(count) => Some((count - 1) as usize),
                        None => None,
                    },
                ),
            )
        },
        slice_rows(Seq::<Row>::empty(), start, length) == Seq::<Row>::empty(),
{
    let whole = cons(first, others);
    if length == Some(0usize) {
        assert(slice_rows(whole, start, length) =~= Seq::<Row>::empty());
    } else if start > 0 {
        assert(slice_rows(whole, start, length) =~= slice_rows(
            others,
            (start - 1) as usize,
            length,
        ));
    } else {
        let shorter: Option<usize> = match length {
            Some(count) => Some((count - 1) as usize),
            None => None,
        };
        assert(slice_rows(whole, start, length) =~= cons(first, slice_rows(others, 0, shorter)));
    }
    assert(slice_rows(Seq::<Row>::empty(), start, length) =~= Seq::<Row>::empty());
}

} // verus!
