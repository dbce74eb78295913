use crate::sparql::eval::copy_row;
use crate::sparql::evaluator::SimpleEvaluator;
use crate::sparql::dataset::Dataset;
use crate::sparql::plan::{all_width, rows_view, EncodedTuple, PlanNode, Row};
use crate::sparql::semantics::{eval_expression, insert_sorted, row_precedes, sort_rows};
use vstd::prelude::*;

verus! {

/// Where `row` goes into `sorted`: after every row that does not sort after
/// it.
pub proof fn lemma_insert_position(
    node: PlanNode,
    dataset: Dataset,
    sorted: Seq<Row>,
    row: Row,
    position: int,
)
    requires
        0 <= position <= sorted.len(),
        forall|k: int| position <= k < sorted.len() ==> row_precedes(node, dataset, row, #[trigger] sorted[k], 0),
        position > 0 ==> !row_precedes(node, dataset, row, sorted[position - 1], 0),
    ensures
        insert_sorted(node, dataset, sorted, row) == sorted.insert(position, row),
    decreases sorted.len(),
{
    if sorted.len() == 0 {
        assert(sorted.insert(position, row) =~= seq![row]);
    } else if position == sorted.len() {
        assert(sorted.insert(position, row) =~= sorted.push(row));
    } else {
        assert(row_precedes(node, dataset, row, sorted[sorted.len() - 1], 0));
        let head = sorted.drop_last();
        assert forall|k: int| position <= k < head.len() implies row_precedes(
            node,
            dataset,
            row,
            #[trigger] head[k],
            0,
        ) by {
            assert(head[k] == sorted[k]);
        }
        lemma_insert_position(node, dataset, head, row, position);
        assert(head.insert(position, row).push(sorted.last()) =~= sorted.insert(position, row));
    }
}

impl SimpleEvaluator {
    /// Whether row `a` sorts strictly before row `b` by the sort keys.
    #[verifier::loop_isolation(false)]
    pub(crate) fn sorts_before(&self, node: &PlanNode, a: &EncodedTuple, b: &EncodedTuple) -> (before:
        bool)
        ensures
            before == row_precedes(*node, self@, a@, b@, 0),
        decreases *node, 0int, 0int,
    {
        match node {
            PlanNode::Sort { by, .. } => {
                let mut j: usize = 0;
                while j < by.len()
                    invariant
                        j <= by@.len(),
                        row_precedes(*node, self@, a@, b@, 0) == row_precedes(
                            *node,
                            self@,
                            a@,
                            b@,
                            j as int,
                        ),
                    decreases by@.len() - j,
                {
                    let x = self.eval_expression(&by[j].expression, a);
                    let y = self.eval_expression(&by[j].expression, b);
                    let (first, second) = if by[j].descending {
                        (y, x)
                    } else {
                        (x, y)
                    };
                    if self.slot_before(first, second) {
                        return true;
                    }
                    if self.slot_before(second, first) {
                        return false;
                    }
                    j = j + 1;
                }
                false
            },
            _ => false,
        }
    }

    /// The rows in the order of the sort keys; rows that no key tells apart
    /// keep their order.
    #[verifier::loop_isolation(false)]
    pub(crate) fn sort(&self, node: &PlanNode, input: &Vec<EncodedTuple>, Ghost(width): Ghost<nat>) -> (out:
        Vec<EncodedTuple>)
        requires
            all_width(input@, width),
        ensures
            rows_view(out@) == sort_rows(*node, self@, rows_view(input@)),
            all_width(out@, width),
        decreases *node, 2int, 0int,
    {
        let ghost given = rows_view(input@);
        let mut out: Vec<EncodedTuple> = Vec::new();
        assert(rows_view(out@) =~= Seq::<Row>::empty());
        let mut i: usize = 0;
        assert(given.subrange(0, 0) =~= Seq::<Row>::empty());
        while i < input.len()
            invariant
                i <= input@.len(),
                all_width(out@, width),
                rows_view(out@) == sort_rows(*node, self@, given.subrange(0, i as int)),
            decreases input@.len() - i,
        {
            proof {
                let next = given.subrange(0, i + 1);
                assert(next.drop_last() =~= given.subrange(0, i as int));
                assert(next.last() == input@[i as int]@);
            }
            let row = &input[i];
            let mut position: usize = out.len();
            while position > 0 && self.sorts_before(node, row, &out[position - 1])
                invariant
                    position <= out@.len(),
                    forall|k: int|
                        position <= k < out@.len() ==> row_precedes(
                            *node,
                            self@,
                            row@,
                            #[trigger] rows_view(out@)[k],
                            0,
                        ),
                decreases position,
            {
                position = position - 1;
            }
            proof {
                lemma_insert_position(*node, self@, rows_view(out@), row@, position as int);
            }
            let ghost before = rows_view(out@);
            out.insert(position, copy_row(row));
            assert(rows_view(out@) =~= before.insert(position as int, row@));
            i = i + 1;
        }
        assert(given.subrange(0, i as int) =~= given);
        out
    }
}

} // verus!
