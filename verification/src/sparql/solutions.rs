use crate::model::term::{Term, Variable};
use crate::sparql::cursor::Cursor;
use crate::sparql::dataset::Dataset;
use crate::sparql::eval::new_row;
use crate::sparql::evaluator::SimpleEvaluator;
use crate::sparql::lowering::names_of;
use crate::sparql::plan::{unbound_row, PlanNode, Row};
use crate::sparql::results::{
    column_names, is_solution, names_columns, output_slots, output_slots_of,
};
use crate::sparql::semantics::rows;
use vstd::prelude::*;

verus! {

/// The solutions of a query that were not asked for yet. A solution is
/// computed and decoded when it is asked for; a stream that is dropped
/// costs nothing more.
pub struct Solutions<'a> {
    evaluator: &'a SimpleEvaluator,
    names: Vec<Variable>,
    slots: Vec<usize>,
    cursor: Cursor<'a>,
}

impl<'a> Solutions<'a> {
    /// What the solutions are evaluated over.
    pub closed spec fn dataset(self) -> Dataset {
        self.evaluator@
    }

    /// The output slots, in order.
    pub closed spec fn slots(self) -> Seq<usize> {
        self.slots@
    }

    /// The variable of each output slot, in order.
    pub closed spec fn names(self) -> Seq<Variable> {
        self.names@
    }

    /// The rows of the solutions that are left, in order.
    pub closed spec fn remaining(self) -> Seq<Row> {
        self.cursor.remaining(self.evaluator@)
    }

    #[verifier::type_invariant]
    spec fn fits(self) -> bool {
        self.cursor.well_formed(self.evaluator@)
    }

    /// The variable of each output slot, in order.
    pub fn variables(&self) -> (names: &Vec<Variable>)
        ensures
            names@ == self.names(),
    {
        &self.names
    }

    /// The next solution, if there is one, and the stream of those after
    /// it: the term of each output slot on the first of the rows that are
    /// left. Only the work for that solution is done.
    pub fn next(self) -> (out: (Option<Vec<Option<Term>>>, Self))
        ensures
            out.1.dataset() == self.dataset(),
            out.1.slots() == self.slots(),
            out.1.names() == self.names(),
            match out.0 {
                Some(terms) => self.remaining().len() > 0 && out.1.remaining()
                    == self.remaining().skip(1) && is_solution(
                    terms@,
                    self.dataset().strings,
                    self.remaining()[0],
                    self.slots(),
                ),
                None => self.remaining().len() == 0 && out.1.remaining().len() == 0,
            },
    {
        proof {
            use_type_invariant(&self);
        }
        let Solutions { evaluator, names, slots, cursor } = self;
        let found = cursor.next(evaluator);
        let terms = match &found.0 {
            Some(row) => {
                assert(self.remaining().skip(1) =~= found.1.remaining(evaluator@));
                Some(evaluator.decode_row(row, &slots))
            },
            None => None,
        };
        (terms, Solutions { evaluator, names, slots, cursor: found.1 })
    }
}

impl SimpleEvaluator {
    /// The solutions of a `SELECT` as a stream: those of the plan from the
    /// row that binds nothing, over its output slots. Nothing is evaluated
    /// until a solution is asked for. `variables` is the variable table of
    /// the plan.
    pub fn solutions<'a>(&'a self, plan: &'a PlanNode, variables: &Vec<Variable>) -> (stream:
        Solutions<'a>)
        ensures
            stream.dataset() == self@,
            stream.slots() == output_slots(*plan, variables@.len()),
            names_columns(stream.names(), names_of(variables@), stream.slots()),
            stream.remaining() == rows(*plan, self@, unbound_row(variables@.len())),
    {
        let width = variables.len();
        let slots = output_slots_of(plan, width);
        let names = column_names(variables, &slots);
        let cursor = Cursor::new(plan, new_row(width));
        Solutions { evaluator: self, names, slots, cursor }
    }
}

} // verus!
