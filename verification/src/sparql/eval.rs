
use crate::sparql::dataset::{matching_quads, pattern_matches, EncodedQuad, EncodedTerm};
use crate::sparql::plan::{
    all_width, bind_quad, bind_slot, bind_value, compatible, distinct_rows, excluded, merge,
    overlay, restrict, rows_view, scan_row, shares_binding, slice_rows, unbound_row, EncodedTuple,
    PatternValue, QuadPattern, Row,
};
use crate::sparql::semantics::{holds, rows};

use vstd::prelude::*;

verus! {

/// A copy of `row`.
pub fn copy_row(row: &EncodedTuple) -> (copy: EncodedTuple)
    ensures
        copy@ == row@,
{
    let mut copy: EncodedTuple = Vec::new();
    let mut i: usize = 0;
    while i < row.len()
        invariant
            i <= row@.len(),
            copy@ == row@.subrange(0, i as int),
        decreases row@.len() - i,
    {
        copy.push(row[i]);
        assert(copy@ =~= row@.subrange(0, i + 1));
        i = i + 1;
    }
    assert(row@.subrange(0, row@.len() as int) =~= row@);
    copy
}

/// The row of `width` slots that binds nothing.
pub fn new_row(width: usize) -> (row: EncodedTuple)
    ensures
        row@ == unbound_row(width as nat),
{
    let mut row: EncodedTuple = Vec::new();
    let mut i: usize = 0;
    while i < width
        invariant
            i <= width,
            row@.len() == i,
            forall|k: int| 0 <= k < i ==> row@[k] is None,
        decreases width - i,
    {
        row.push(None);
        i = i + 1;
    }
    assert(row@ =~= unbound_row(width as nat));
    row
}

/// Whether the two slots hold the same.
pub fn same_slot(a: Option<EncodedTerm>, b: Option<EncodedTerm>) -> (same: bool)
    ensures
        same == (a == b),
{
    match (a, b) {
        (None, None) => true,
        (Some(x), Some(y)) => x == y,
        _ => false,
    }
}

/// Whether the two rows are the same row.
pub fn same_row(a: &EncodedTuple, b: &EncodedTuple) -> (same: bool)
    ensures
        same == (a@ == b@),
{
    if a.len() != b.len() {
        return false;
    }
    let mut i: usize = 0;
    while i < a.len()
        invariant
            i <= a@.len(),
            a@.len() == b@.len(),
            forall|k: int| 0 <= k < i ==> a@[k] == b@[k],
        decreases a@.len() - i,
    {
        if !same_slot(a[i], b[i]) {
            return false;
        }
        i = i + 1;
    }
    assert(a@ =~= b@);
    true
}

/// Appends `row` to `out`.
pub fn push_row(out: &mut Vec<EncodedTuple>, row: EncodedTuple)
    ensures
        final(out)@ == old(out)@.push(row),
        rows_view(final(out)@) == rows_view(old(out)@).push(row@),
{
    out.push(row);
    assert(rows_view(out@) =~= rows_view(old(out)@).push(row@));
}

/// Appends the rows of `more` to `out`.
pub fn append_rows(out: &mut Vec<EncodedTuple>, more: Vec<EncodedTuple>)
    ensures
        final(out)@ == old(out)@ + more@,
        rows_view(final(out)@) == rows_view(old(out)@) + rows_view(more@),
{
    let mut more = more;
    let ghost before = out@;
    let ghost added = more@;
    out.append(&mut more);
    assert(rows_view(out@) =~= rows_view(before) + rows_view(added));
}

/// Whether `rows` holds `row`.
pub fn holds_row(rows: &Vec<EncodedTuple>, row: &EncodedTuple) -> (found: bool)
    ensures
        found == rows_view(rows@).contains(row@),
{
    let mut i: usize = 0;
    while i < rows.len()
        invariant
            i <= rows@.len(),
            forall|k: int| 0 <= k < i ==> rows_view(rows@)[k] != row@,
        decreases rows@.len() - i,
    {
        if same_row(&rows[i], row) {
            assert(rows_view(rows@)[i as int] == row@);
            return true;
        }
        i = i + 1;
    }
    false
}

/// `row` with `value` at `slot`, as `bind_slot` states.
pub fn bind_slot_in(row: &EncodedTuple, slot: usize, value: EncodedTerm) -> (bound: Option<
    EncodedTuple,
>)
    ensures
        match bound {
            Some(extended) => bind_slot(row@, slot as int, value) == Some(extended@),
            None => bind_slot(row@, slot as int, value) is None,
        },
{
    if slot >= row.len() {
        return None;
    }
    match row[slot] {
        None => {
            let mut extended = copy_row(row);
            extended.set(slot, Some(value));
            Some(extended)
        },
        Some(held) => if held == value {
            Some(copy_row(row))
        } else {
            None
        },
    }
}

/// `row` after a pattern position met `value`.
pub fn bind_value_in(row: &EncodedTuple, position: PatternValue, value: EncodedTerm) -> (bound:
    Option<EncodedTuple>)
    ensures
        match bound {
            Some(extended) => bind_value(row@, position, value) == Some(extended@),
            None => bind_value(row@, position, value) is None,
        },
{
    match position {
        PatternValue::Constant(constant) => if constant == value {
            Some(copy_row(row))
        } else {
            None
        },
        PatternValue::Variable(slot) => bind_slot_in(row, slot, value),
    }
}

/// `row` extended by `quad` under `pattern`.
pub fn bind_quad_in(
    row: &EncodedTuple,
    subject: PatternValue,
    predicate: PatternValue,
    object: PatternValue,
    graph_name: PatternValue,
    quad: EncodedQuad,
) -> (bound: Option<EncodedTuple>)
    ensures
        match bound {
            Some(extended) => bind_quad(
                row@,
                QuadPattern { subject, predicate, object, graph_name },
                quad,
            ) == Some(extended@),
            None => bind_quad(
                row@,
                QuadPattern { subject, predicate, object, graph_name },
                quad,
            ) is None,
        },
{
    let r1 = match bind_value_in(row, subject, quad.subject) {
        Some(extended) => extended,
        None => {
            return None;
        },
    };
    let r2 = match bind_value_in(&r1, predicate, quad.predicate) {
        Some(extended) => extended,
        None => {
            return None;
        },
    };
    let r3 = match bind_value_in(&r2, object, quad.object) {
        Some(extended) => extended,
        None => {
            return None;
        },
    };
    match graph_name {
        PatternValue::Constant(constant) => if constant == quad.graph_name {
            Some(r3)
        } else {
            None
        },
        PatternValue::Variable(slot) => match quad.graph_name {
            EncodedTerm::DefaultGraph => None,
            name => bind_slot_in(&r3, slot, name),
        },
    }
}

/// What a pattern position fixes on a row: its constant, or the value of
/// its variable where the row binds it.
pub open spec fn wanted(row: Row, position: PatternValue) -> Option<EncodedTerm> {
    match position {
        PatternValue::Constant(constant) => Some(constant),
        PatternValue::Variable(slot) => if slot < row.len() {
            row[slot as int]
        } else {
            None
        },
    }
}

proof fn lemma_bind_value_keeps(row: Row, position: PatternValue, value: EncodedTerm, other: PatternValue)
    requires
        bind_value(row, position, value) is Some,
    ensures
        wanted(row, position) matches Some(term) ==> term == value,
        wanted(row, other) matches Some(term) ==> wanted(
            bind_value(row, position, value)->0,
            other,
        ) == Some(term),
        bind_value(row, position, value)->0.len() == row.len(),
{
}

/// A quad that disagrees with what the pattern fixes on the row extends
/// the row in no way.
proof fn lemma_bind_quad_needs_match(row: Row, pattern: QuadPattern, quad: EncodedQuad)
    requires
        bind_quad(row, pattern, quad) is Some,
    ensures
        pattern_matches(
            quad,
            wanted(row, pattern.subject),
            wanted(row, pattern.predicate),
            wanted(row, pattern.object),
            wanted(row, pattern.graph_name),
        ),
{
    let r1 = bind_value(row, pattern.subject, quad.subject)->0;
    lemma_bind_value_keeps(row, pattern.subject, quad.subject, pattern.predicate);
    lemma_bind_value_keeps(row, pattern.subject, quad.subject, pattern.object);
    lemma_bind_value_keeps(row, pattern.subject, quad.subject, pattern.graph_name);
    let r2 = bind_value(r1, pattern.predicate, quad.predicate)->0;
    lemma_bind_value_keeps(r1, pattern.predicate, quad.predicate, pattern.object);
    lemma_bind_value_keeps(r1, pattern.predicate, quad.predicate, pattern.graph_name);
    let r3 = bind_value(r2, pattern.object, quad.object)->0;
    lemma_bind_value_keeps(r2, pattern.object, quad.object, pattern.graph_name);
}

/// Scanning the quads that agree with what the pattern fixes on the row
/// gives what scanning all quads gives.
pub proof fn lemma_scan_matching(row: Row, pattern: QuadPattern, quads: Seq<EncodedQuad>)
    ensures
        scan_row(
            row,
            pattern,
            matching_quads(
                quads,
                wanted(row, pattern.subject),
                wanted(row, pattern.predicate),
                wanted(row, pattern.object),
                wanted(row, pattern.graph_name),
            ),
        ) == scan_row(row, pattern, quads),
    decreases quads.len(),
{
    let s = wanted(row, pattern.subject);
    let p = wanted(row, pattern.predicate);
    let o = wanted(row, pattern.object);
    let g = wanted(row, pattern.graph_name);
    if quads.len() > 0 {
        lemma_scan_matching(row, pattern, quads.drop_last());
        let rest = matching_quads(quads.drop_last(), s, p, o, g);
        if pattern_matches(quads.last(), s, p, o, g) {
            assert(rest.push(quads.last()).drop_last() =~= rest);
        } else {
            if bind_quad(row, pattern, quads.last()) is Some {
                lemma_bind_quad_needs_match(row, pattern, quads.last());
            }
        }
    }
}

/// What a pattern position fixes on a row.
pub fn wanted_in(row: &EncodedTuple, position: PatternValue) -> (value: Option<EncodedTerm>)
    ensures
        value == wanted(row@, position),
{
    match position {
        PatternValue::Constant(constant) => Some(constant),
        PatternValue::Variable(slot) => if slot < row.len() {
            row[slot]
        } else {
            None
        },
    }
}

/// Whether two rows agree wherever both are bound.
pub fn compatible_rows(a: &EncodedTuple, b: &EncodedTuple) -> (agree: bool)
    ensures
        agree == compatible(a@, b@),
{
    if a.len() != b.len() {
        return false;
    }
    let mut i: usize = 0;
    while i < a.len()
        invariant
            i <= a@.len(),
            a@.len() == b@.len(),
            forall|k: int| 0 <= k < i && #[trigger] a@[k] is Some && b@[k] is Some ==> a@[k] == b@[k],
        decreases a@.len() - i,
    {
        match (a[i], b[i]) {
            (Some(x), Some(y)) => {
                if x != y {
                    assert(a@[i as int] is Some);
                    return false;
                }
            },
            _ => {},
        }
        i = i + 1;
    }
    true
}

/// The union of two rows of the same width.
pub fn merge_rows(a: &EncodedTuple, b: &EncodedTuple) -> (merged: EncodedTuple)
    requires
        a@.len() == b@.len(),
    ensures
        merged@ == merge(a@, b@),
{
    let mut merged: EncodedTuple = Vec::new();
    let mut i: usize = 0;
    while i < a.len()
        invariant
            i <= a@.len(),
            a@.len() == b@.len(),
            merged@.len() == i,
            forall|k: int| 0 <= k < i ==> merged@[k] == merge(a@, b@)[k],
        decreases a@.len() - i,
    {
        let slot = match a[i] {
            Some(term) => Some(term),
            None => b[i],
        };
        merged.push(slot);
        i = i + 1;
    }
    assert(merged@ =~= merge(a@, b@));
    merged
}

/// Whether some slot is bound in both rows.
pub fn share_binding(a: &EncodedTuple, b: &EncodedTuple) -> (share: bool)
    ensures
        share == shares_binding(a@, b@),
{
    let mut i: usize = 0;
    while i < a.len() && i < b.len()
        invariant
            i <= a@.len(),
            i <= b@.len(),
            forall|k: int| 0 <= k < i ==> !(#[trigger] a@[k] is Some && b@[k] is Some),
        decreases a@.len() - i,
    {
        if a[i].is_some() && b[i].is_some() {
            assert(a@[i as int] is Some && b@[i as int] is Some);
            return true;
        }
        i = i + 1;
    }
    false
}

/// Whether some row of `rights` excludes `left`.
pub fn is_excluded(left: &EncodedTuple, rights: &Vec<EncodedTuple>) -> (out: bool)
    ensures
        out == excluded(left@, rows_view(rights@)),
{
    let mut j: usize = 0;
    while j < rights.len()
        invariant
            j <= rights@.len(),
            forall|k: int|
                0 <= k < j ==> !(compatible(left@, #[trigger] rows_view(rights@)[k])
                    && shares_binding(left@, rows_view(rights@)[k])),
        decreases rights@.len() - j,
    {
        if compatible_rows(left, &rights[j]) && share_binding(left, &rights[j]) {
            assert(compatible(left@, rows_view(rights@)[j as int]));
            return true;
        }
        j = j + 1;
    }
    false
}

/// Whether `slots` holds `slot`.
pub fn holds_slot(slots: &Vec<usize>, slot: usize) -> (found: bool)
    ensures
        found == slots@.contains(slot),
{
    let mut i: usize = 0;
    while i < slots.len()
        invariant
            i <= slots@.len(),
            forall|k: int| 0 <= k < i ==> slots@[k] != slot,
        decreases slots@.len() - i,
    {
        if slots[i] == slot {
            return true;
        }
        i = i + 1;
    }
    false
}

/// `row` with every slot outside `slots` unbound.
pub fn restrict_row(row: &EncodedTuple, slots: &Vec<usize>) -> (out: EncodedTuple)
    ensures
        out@ == restrict(row@, slots@),
{
    let mut out: EncodedTuple = Vec::new();
    let mut i: usize = 0;
    while i < row.len()
        invariant
            i <= row@.len(),
            out@.len() == i,
            forall|k: int| 0 <= k < i ==> out@[k] == restrict(row@, slots@)[k],
        decreases row@.len() - i,
    {
        let slot = if holds_slot(slots, i) {
            row[i]
        } else {
            None
        };
        out.push(slot);
        i = i + 1;
    }
    assert(out@ =~= restrict(row@, slots@));
    out
}

/// `from` with the slots in `slots` taken from `inner`.
pub fn overlay_row(from: &EncodedTuple, inner: &EncodedTuple, slots: &Vec<usize>) -> (out:
    EncodedTuple)
    requires
        inner@.len() == from@.len(),
    ensures
        out@ == overlay(from@, inner@, slots@),
{
    let mut out: EncodedTuple = Vec::new();
    let mut i: usize = 0;
    while i < from.len()
        invariant
            i <= from@.len(),
            inner@.len() == from@.len(),
            out@.len() == i,
            forall|k: int| 0 <= k < i ==> out@[k] == overlay(from@, inner@, slots@)[k],
        decreases from@.len() - i,
    {
        let slot = if holds_slot(slots, i) {
            inner[i]
        } else {
            from[i]
        };
        out.push(slot);
        i = i + 1;
    }
    assert(out@ =~= overlay(from@, inner@, slots@));
    out
}

/// The rows without repeats: each row where it first occurs.
pub fn distinct(rows: &Vec<EncodedTuple>) -> (out: Vec<EncodedTuple>)
    ensures
        rows_view(out@) == distinct_rows(rows_view(rows@)),
        forall|width: nat| all_width(rows@, width) ==> all_width(out@, width),
{
    let mut out: Vec<EncodedTuple> = Vec::new();
    let ghost input = rows_view(rows@);
    let mut i: usize = 0;
    assert(input.subrange(0, 0) =~= Seq::<Row>::empty());
    assert(rows_view(out@) =~= Seq::<Row>::empty());
    while i < rows.len()
        invariant
            i <= rows@.len(),
            input == rows_view(rows@),
            rows_view(out@) == distinct_rows(input.subrange(0, i as int)),
            forall|width: nat| all_width(rows@, width) ==> all_width(out@, width),
        decreases rows@.len() - i,
    {
        proof {
            let next = input.subrange(0, i + 1);
            assert(next.drop_last() =~= input.subrange(0, i as int));
            assert(next.last() == rows@[i as int]@);
        }
        if !holds_row(&out, &rows[i]) {
            push_row(&mut out, copy_row(&rows[i]));
        }
        i = i + 1;
    }
    assert(input.subrange(0, i as int) =~= input);
    out
}

/// The rows after the first `start`, at most `length` of them.
pub fn slice(rows: &Vec<EncodedTuple>, start: usize, length: Option<usize>) -> (out: Vec<
    EncodedTuple,
>)
    ensures
        rows_view(out@) == slice_rows(rows_view(rows@), start, length),
        forall|width: nat| all_width(rows@, width) ==> all_width(out@, width),
{
    let count = rows.len();
    let first = if start <= count {
        start
    } else {
        count
    };
    let end = match length {
        Some(wanted) => if wanted <= count - first {
            first + wanted
        } else {
            count
        },
        None => count,
    };
    let mut out: Vec<EncodedTuple> = Vec::new();
    let ghost input = rows_view(rows@);
    let mut i: usize = first;
    assert(rows_view(out@) =~= input.subrange(first as int, first as int));
    while i < end
        invariant
            first <= i <= end <= rows@.len(),
            input == rows_view(rows@),
            rows_view(out@) == input.subrange(first as int, i as int),
            forall|width: nat| all_width(rows@, width) ==> all_width(out@, width),
        decreases end - i,
    {
        let ghost before = rows_view(out@);
        push_row(&mut out, copy_row(&rows[i]));
        assert(before.push(rows@[i as int]@) =~= input.subrange(first as int, i + 1));
        i = i + 1;
    }
    out
}

} // verus!
