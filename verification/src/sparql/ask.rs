use crate::sparql::cursor::Cursor;
use crate::sparql::dataset::Dataset;
use crate::sparql::eval::{copy_row, restrict_row};
use crate::sparql::evaluator::SimpleEvaluator;
use crate::sparql::plan::{distinct_rows, EncodedTuple, PlanNode, Row};
use crate::sparql::semantics::{insert_sorted, left_join_each, rows, sort_rows};
use vstd::prelude::*;

verus! {

/// An optional join yields a row exactly where its left side does.
proof fn lemma_left_join_each_count(node: PlanNode, dataset: Dataset, lefts: Seq<Row>)
    requires
        node is LeftJoin,
    ensures
        left_join_each(node, dataset, lefts).len() >= lefts.len(),
        lefts.len() == 0 ==> left_join_each(node, dataset, lefts).len() == 0,
    decreases lefts.len(),
{
    if lefts.len() > 0 {
        lemma_left_join_each_count(node, dataset, lefts.drop_last());
    }
}

/// Taking out repeats leaves a row exactly where there is one.
proof fn lemma_distinct_rows_count(input: Seq<Row>)
    ensures
        (distinct_rows(input).len() > 0) == (input.len() > 0),
    decreases input.len(),
{
    if input.len() > 0 {
        lemma_distinct_rows_count(input.drop_last());
        let rest = distinct_rows(input.drop_last());
        if rest.contains(input.last()) {
            let k = choose|k: int| 0 <= k < rest.len() && rest[k] == input.last();
            assert(rest.len() > 0);
        }
    }
}

proof fn lemma_insert_sorted_count(node: PlanNode, dataset: Dataset, sorted: Seq<Row>, row: Row)
    ensures
        insert_sorted(node, dataset, sorted, row).len() == sorted.len() + 1,
    decreases sorted.len(),
{
    if sorted.len() > 0 && crate::sparql::semantics::row_precedes(
        node,
        dataset,
        row,
        sorted.last(),
        0,
    ) {
        lemma_insert_sorted_count(node, dataset, sorted.drop_last(), row);
    }
}

/// Sorting yields as many rows as it is given.
pub proof fn lemma_sort_rows_count(node: PlanNode, dataset: Dataset, input: Seq<Row>)
    ensures
        sort_rows(node, dataset, input).len() == input.len(),
    decreases input.len(),
{
    if input.len() > 0 {
        lemma_sort_rows_count(node, dataset, input.drop_last());
        lemma_insert_sorted_count(
            node,
            dataset,
            sort_rows(node, dataset, input.drop_last()),
            input.last(),
        );
    }
}

impl SimpleEvaluator {
    /// Whether a plan has a solution from the row `from`. No more than the
    /// first solution is computed; an optional join, a sort and `DISTINCT`
    /// ask their input instead, a projection asks its input from the row
    /// that it lets through, and a union asks its sides in turn.
    pub fn has_solution(&self, node: &PlanNode, from: &EncodedTuple) -> (found: bool)
        ensures
            found == (rows(*node, self@, from@).len() > 0),
        decreases *node,
    {
        match node {
            PlanNode::LeftJoin { left, .. } => {
                proof {
                    lemma_left_join_each_count(*node, self@, rows(**left, self@, from@));
                }
                self.has_solution(left, from)
            },
            PlanNode::Union { left, right } => {
                self.has_solution(left, from) || self.has_solution(right, from)
            },
            PlanNode::Project { child, slots } => {
                let start = restrict_row(from, slots);
                self.has_solution(child, &start)
            },
            PlanNode::Sort { child, .. } => {
                proof {
                    lemma_sort_rows_count(*node, self@, rows(**child, self@, from@));
                }
                self.has_solution(child, from)
            },
            PlanNode::Distinct { child } => {
                proof {
                    lemma_distinct_rows_count(rows(**child, self@, from@));
                }
                self.has_solution(child, from)
            },
            PlanNode::Reduced { child } => {
                proof {
                    lemma_distinct_rows_count(rows(**child, self@, from@));
                }
                self.has_solution(child, from)
            },
            _ => {
                let first = Cursor::new(node, copy_row(from)).next(self);
                first.0.is_some()
            },
        }
    }
}

} // verus!
