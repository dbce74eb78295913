use crate::model::term::{Quad, QuadView, Term, TermView, Variable};
use crate::sparql::aggregate::{distinct_terms_in, present_in};
use crate::sparql::dataset::{matching_quads, quad_of, term_of, Dataset, EncodedQuad, EncodedTerm};
use crate::sparql::eval::new_row;
use crate::sparql::evaluator::SimpleEvaluator;
use crate::sparql::lowering::names_of;
use crate::sparql::model::QueryResult;
use crate::sparql::plan::{
    rows_view, unbound_row, EncodedTuple, PatternValue, PlanNode, Row, TripleTemplate,
};
use crate::sparql::semantics::{distinct_terms, present, rows};
use vstd::prelude::*;

verus! {

/// The slots `0` up to `width`.
pub open spec fn all_slots(width: nat) -> Seq<usize> {
    Seq::new(width, |i: int| i as usize)
}

/// The slots that a plan lets out, in order: those of its projection,
/// looked for below `DISTINCT`, `REDUCED`, `ORDER BY` and a slice; every
/// slot where it has none.
pub open spec fn output_slots(plan: PlanNode, width: nat) -> Seq<usize>
    decreases plan,
{
    match plan {
        PlanNode::Project { slots, .. } => slots@,
        PlanNode::Distinct { child } => output_slots(*child, width),
        PlanNode::Reduced { child } => output_slots(*child, width),
        PlanNode::Sort { child, .. } => output_slots(*child, width),
        PlanNode::Slice { child, .. } => output_slots(*child, width),
        _ => all_slots(width),
    }
}

/// The name of the variable of a slot, empty where the table has none.
pub open spec fn name_at(names: Seq<Seq<char>>, slot: usize) -> Seq<char> {
    if slot < names.len() {
        names[slot as int]
    } else {
        Seq::empty()
    }
}

/// The term that a row binds a slot to, `None` where it binds none.
pub open spec fn decoded(strings: Seq<Seq<char>>, row: Row, slot: usize) -> Option<TermView> {
    if slot < row.len() {
        match row[slot as int] {
            Some(encoded) => term_of(strings, encoded),
            None => None,
        }
    } else {
        None
    }
}

/// The mathematical value of an optional term.
pub open spec fn term_view(term: Option<Term>) -> Option<TermView> {
    match term {
        Some(t) => Some(t@),
        None => None,
    }
}

/// Whether `result` holds the solutions `solutions` over the output slots
/// `slots`: the variables of the slots in order, and for each solution in
/// order the term of each slot.
pub open spec fn is_bindings(
    result: QueryResult,
    strings: Seq<Seq<char>>,
    names: Seq<Seq<char>>,
    slots: Seq<usize>,
    solutions: Seq<Row>,
) -> bool {
    &&& result matches QueryResult::Bindings { variables, rows: out }
    &&& variables@.len() == slots.len()
    &&& forall|c: int| 0 <= c < slots.len() ==> (#[trigger] variables@[c])@ == name_at(names, slots[c])
    &&& out@.len() == solutions.len()
    &&& forall|i: int|
        0 <= i < solutions.len() ==> (#[trigger] out@[i])@.len() == slots.len() && forall|c: int|
            0 <= c < slots.len() ==> term_view(#[trigger] out@[i]@[c]) == decoded(
                strings,
                solutions[i],
                slots[c],
            )
}

/// The value of a template position on a row.
pub open spec fn template_value(position: PatternValue, row: Row) -> Option<EncodedTerm> {
    match position {
        PatternValue::Constant(term) => Some(term),
        PatternValue::Variable(slot) => if slot < row.len() {
            row[slot as int]
        } else {
            None
        },
    }
}

/// The quad that a template gives on a row, in the default graph; `None`
/// where a position is unbound or stands for no term.
pub open spec fn instantiate(strings: Seq<Seq<char>>, template: TripleTemplate, row: Row) -> Option<
    QuadView,
> {
    match (
        template_value(template.subject, row),
        template_value(template.predicate, row),
        template_value(template.object, row),
    ) {
        (Some(s), Some(p), Some(o)) => match (
            term_of(strings, s),
            term_of(strings, p),
            term_of(strings, o),
        ) {
            (Some(subject), Some(predicate), Some(object)) => Some(
                QuadView { subject, predicate, object, graph_name: None },
            ),
            _ => None,
        },
        _ => None,
    }
}

/// The quads that the first `n` templates give on a row.
pub open spec fn construct_row(
    strings: Seq<Seq<char>>,
    templates: Seq<TripleTemplate>,
    row: Row,
    n: int,
) -> Seq<QuadView>
    decreases n,
{
    if n <= 0 || n > templates.len() {
        Seq::empty()
    } else {
        let rest = construct_row(strings, templates, row, n - 1);
        match instantiate(strings, templates[n - 1], row) {
            Some(quad) => rest.push(quad),
            None => rest,
        }
    }
}

/// The quads that the templates give on each solution in turn. A template
/// with an unbound position is skipped, and no quad is taken out for being
/// there already.
pub open spec fn construct_all(
    strings: Seq<Seq<char>>,
    templates: Seq<TripleTemplate>,
    solutions: Seq<Row>,
) -> Seq<QuadView>
    decreases solutions.len(),
{
    if solutions.len() == 0 {
        Seq::empty()
    } else {
        construct_all(strings, templates, solutions.drop_last()) + construct_row(
            strings,
            templates,
            solutions.last(),
            templates.len() as int,
        )
    }
}

/// What a row holds in the given slots, in their order.
pub open spec fn slot_values(row: Row, slots: Seq<usize>) -> Seq<Option<EncodedTerm>> {
    Seq::new(
        slots.len(),
        |c: int|
            if slots[c] < row.len() {
                row[slots[c] as int]
            } else {
                None
            },
    )
}

/// What the solutions hold in the given slots, solution by solution.
pub open spec fn all_values(solutions: Seq<Row>, slots: Seq<usize>) -> Seq<Option<EncodedTerm>>
    decreases solutions.len(),
{
    if solutions.len() == 0 {
        Seq::empty()
    } else {
        all_values(solutions.drop_last(), slots) + slot_values(solutions.last(), slots)
    }
}

/// The quads that stand for one, decoded, in their order.
pub open spec fn decode_quads(strings: Seq<Seq<char>>, quads: Seq<EncodedQuad>) -> Seq<QuadView>
    decreases quads.len(),
{
    if quads.len() == 0 {
        Seq::empty()
    } else {
        let rest = decode_quads(strings, quads.drop_last());
        match quad_of(strings, quads.last()) {
            Some(quad) => rest.push(quad),
            None => rest,
        }
    }
}

/// For each term in turn, the quads of the dataset that have it as
/// subject, in every graph.
pub open spec fn describe_terms(dataset: Dataset, terms: Seq<EncodedTerm>) -> Seq<QuadView>
    decreases terms.len(),
{
    if terms.len() == 0 {
        Seq::empty()
    } else {
        describe_terms(dataset, terms.drop_last()) + decode_quads(
            dataset.strings,
            matching_quads(dataset.quads, Some(terms.last()), None, None, None),
        )
    }
}

/// The views of a sequence of quads.
pub open spec fn quads_view(quads: Seq<Quad>) -> Seq<QuadView> {
    Seq::new(quads.len(), |i: int| quads[i]@)
}

/// The slots that a plan lets out.
pub fn output_slots_of(plan: &PlanNode, width: usize) -> (slots: Vec<usize>)
    ensures
        slots@ == output_slots(*plan, width as nat),
    decreases *plan,
{
    match plan {
        PlanNode::Project { slots, .. } => {
            let mut out: Vec<usize> = Vec::new();
            let mut i: usize = 0;
            while i < slots.len()
                invariant
                    i <= slots@.len(),
                    out@ == slots@.subrange(0, i as int),
                decreases slots@.len() - i,
            {
                out.push(slots[i]);
                assert(out@ =~= slots@.subrange(0, i + 1));
                i = i + 1;
            }
            assert(slots@.subrange(0, i as int) =~= slots@);
            out
        },
        PlanNode::Distinct { child } => output_slots_of(child, width),
        PlanNode::Reduced { child } => output_slots_of(child, width),
        PlanNode::Sort { child, .. } => output_slots_of(child, width),
        PlanNode::Slice { child, .. } => output_slots_of(child, width),
        _ => {
            let mut out: Vec<usize> = Vec::new();
            let mut i: usize = 0;
            while i < width
                invariant
                    i <= width,
                    out@.len() == i,
                    forall|k: int| 0 <= k < i ==> out@[k] == k as usize,
                decreases width - i,
            {
                out.push(i);
                i = i + 1;
            }
            assert(out@ =~= all_slots(width as nat));
            out
        },
    }
}

/// Whether `names` holds the variable of each of the slots, in order.
pub open spec fn names_columns(names: Seq<Variable>, table: Seq<Seq<char>>, slots: Seq<usize>) -> bool {
    &&& names.len() == slots.len()
    &&& forall|c: int| 0 <= c < slots.len() ==> (#[trigger] names[c])@ == name_at(table, slots[c])
}

/// Whether `terms` holds the term of each of the slots on `row`, in order.
pub open spec fn is_solution(
    terms: Seq<Option<Term>>,
    strings: Seq<Seq<char>>,
    row: Row,
    slots: Seq<usize>,
) -> bool {
    &&& terms.len() == slots.len()
    &&& forall|c: int|
        0 <= c < slots.len() ==> term_view(#[trigger] terms[c]) == decoded(strings, row, slots[c])
}

/// The variable of each of the slots, in order.
pub fn column_names(variables: &Vec<Variable>, slots: &Vec<usize>) -> (names: Vec<Variable>)
    ensures
        names_columns(names@, names_of(variables@), slots@),
{
    let mut names: Vec<Variable> = Vec::new();
    let mut c: usize = 0;
    while c < slots.len()
        invariant
            c <= slots@.len(),
            names@.len() == c,
            forall|k: int|
                0 <= k < c ==> (#[trigger] names@[k])@ == name_at(names_of(variables@), slots@[k]),
        decreases slots@.len() - c,
    {
        let name = if slots[c] < variables.len() {
            variables[slots[c]].clone()
        } else {
            proof {
                reveal_strlit("");
            }
            let empty = Variable::new("");
            assert(empty@ =~= Seq::<char>::empty());
            empty
        };
        names.push(name);
        c = c + 1;
    }
    names
}

impl SimpleEvaluator {
    /// The term that a row binds a slot to.
    pub fn decode_slot(&self, row: &EncodedTuple, slot: usize) -> (term: Option<Term>)
        ensures
            term_view(term) == decoded(self@.strings, row@, slot),
    {
        if slot < row.len() {
            match row[slot] {
                Some(encoded) => self.dataset().decode_term(encoded),
                None => None,
            }
        } else {
            None
        }
    }

    /// The term of each of the slots on a row, in order.
    pub fn decode_row(&self, row: &EncodedTuple, slots: &Vec<usize>) -> (terms: Vec<Option<Term>>)
        ensures
            is_solution(terms@, self@.strings, row@, slots@),
    {
        let mut terms: Vec<Option<Term>> = Vec::new();
        let mut c: usize = 0;
        while c < slots.len()
            invariant
                c <= slots@.len(),
                terms@.len() == c,
                forall|k: int|
                    0 <= k < c ==> term_view(#[trigger] terms@[k]) == decoded(
                        self@.strings,
                        row@,
                        slots@[k],
                    ),
            decreases slots@.len() - c,
        {
            let term = self.decode_slot(row, slots[c]);
            terms.push(term);
            c = c + 1;
        }
        terms
    }

    /// The solutions of a `SELECT`: evaluates the plan from the row that
    /// binds nothing, and decodes the output slots of each solution.
    /// `variables` is the variable table of the plan.
#[verifier::rlimit(40)]
    pub fn evaluate_select_plan(&self, plan: &PlanNode, variables: &Vec<Variable>) -> (result:
        QueryResult)
        ensures
            is_bindings(
                result,
                self@.strings,
                names_of(variables@),
                output_slots(*plan, variables@.len()),
                rows(*plan, self@, unbound_row(variables@.len())),
            ),
    {
        let start = new_row(variables.len());
        let solutions = self.eval_plan(plan, &start);
        self.bindings_of(plan, variables, &solutions)
    }

    /// The result of a `SELECT` whose solutions are given: the output slots
    /// of each solution, decoded. `variables` is the variable table of the
    /// plan.
#[verifier::rlimit(40)]
    pub fn bindings_of(
        &self,
        plan: &PlanNode,
        variables: &Vec<Variable>,
        solutions: &Vec<EncodedTuple>,
    ) -> (result: QueryResult)
        ensures
            is_bindings(
                result,
                self@.strings,
                names_of(variables@),
                output_slots(*plan, variables@.len()),
                rows_view(solutions@),
            ),
    {
        let width = variables.len();
        let slots = output_slots_of(plan, width);
        let names = column_names(variables, &slots);
        let mut out: Vec<Vec<Option<Term>>> = Vec::new();
        let mut i: usize = 0;
        while i < solutions.len()
            invariant
                i <= solutions@.len(),
                out@.len() == i,
                forall|k: int|
                    0 <= k < i ==> (#[trigger] out@[k])@.len() == slots@.len() && forall|c: int|
                        0 <= c < slots@.len() ==> term_view(#[trigger] out@[k]@[c]) == decoded(
                            self@.strings,
                            solutions@[k]@,
                            slots@[c],
                        ),
            decreases solutions@.len() - i,
        {
            let row = self.decode_row(&solutions[i], &slots);
            out.push(row);
            i = i + 1;
        }
        assert(rows_view(solutions@).len() == solutions@.len());
        QueryResult::Bindings { variables: names, rows: out }
    }

    /// The answer of an `ASK`: whether the plan has a solution from the row
    /// of `width` slots that binds nothing. No more than the first solution
    /// is computed.
    pub fn evaluate_ask_plan(&self, plan: &PlanNode, width: usize) -> (result: QueryResult)
        ensures
            result == QueryResult::Boolean(
                rows(*plan, self@, unbound_row(width as nat)).len() > 0,
            ),
    {
        let start = new_row(width);
        QueryResult::Boolean(self.has_solution(plan, &start))
    }

    fn template_value_in(position: PatternValue, row: &EncodedTuple) -> (value: Option<
        EncodedTerm,
    >)
        ensures
            value == template_value(position, row@),
    {
        match position {
            PatternValue::Constant(term) => Some(term),
            PatternValue::Variable(slot) => if slot < row.len() {
                row[slot]
            } else {
                None
            },
        }
    }

    /// The quad that a template gives on a row.
    pub fn instantiate_template(&self, template: &TripleTemplate, row: &EncodedTuple) -> (quad:
        Option<Quad>)
        ensures
            match quad {
                Some(built) => instantiate(self@.strings, *template, row@) == Some(built@),
                None => instantiate(self@.strings, *template, row@) is None,
            },
    {
        let s = match Self::template_value_in(template.subject, row) {
            Some(term) => term,
            None => {
                return None;
            },
        };
        let p = match Self::template_value_in(template.predicate, row) {
            Some(term) => term,
            None => {
                return None;
            },
        };
        let o = match Self::template_value_in(template.object, row) {
            Some(term) => term,
            None => {
                return None;
            },
        };
        let subject = match self.dataset().decode_term(s) {
            Some(term) => term,
            None => {
                return None;
            },
        };
        let predicate = match self.dataset().decode_term(p) {
            Some(term) => term,
            None => {
                return None;
            },
        };
        let object = match self.dataset().decode_term(o) {
            Some(term) => term,
            None => {
                return None;
            },
        };
        Some(Quad { subject, predicate, object, graph_name: None })
    }

    /// The quads of a `CONSTRUCT`: for each solution of the plan in turn,
    /// the quad of each template in turn whose positions are all bound.
#[verifier::rlimit(40)]
    pub fn evaluate_construct_plan(
        &self,
        plan: &PlanNode,
        construct: &Vec<TripleTemplate>,
        width: usize,
    ) -> (result: QueryResult)
        ensures
            result matches QueryResult::Graph(quads) && quads_view(quads@) == construct_all(
                self@.strings,
                construct@,
                rows(*plan, self@, unbound_row(width as nat)),
            ),
    {
        let start = new_row(width);
        let solutions = self.eval_plan(plan, &start);
        self.graph_of(construct, &solutions)
    }

    /// The quads of a `CONSTRUCT` whose solutions are given.
#[verifier::rlimit(40)]
    pub fn graph_of(&self, construct: &Vec<TripleTemplate>, solutions: &Vec<EncodedTuple>) -> (result:
        QueryResult)
        ensures
            result matches QueryResult::Graph(quads) && quads_view(quads@) == construct_all(
                self@.strings,
                construct@,
                rows_view(solutions@),
            ),
    {
        let ghost given = rows_view(solutions@);
        let mut quads: Vec<Quad> = Vec::new();
        let mut i: usize = 0;
        assert(given.subrange(0, 0) =~= Seq::<Row>::empty());
        assert(quads_view(quads@) =~= Seq::<QuadView>::empty());
        while i < solutions.len()
            invariant
                i <= solutions@.len(),
                given == rows_view(solutions@),
                quads_view(quads@) == construct_all(
                    self@.strings,
                    construct@,
                    given.subrange(0, i as int),
                ),
            decreases solutions@.len() - i,
        {
            let ghost before = quads_view(quads@);
            let mut j: usize = 0;
            assert(before + Seq::<QuadView>::empty() =~= before);
            while j < construct.len()
                invariant
                    j <= construct@.len(),
                    i < solutions@.len(),
                    quads_view(quads@) == before + construct_row(
                        self@.strings,
                        construct@,
                        solutions@[i as int]@,
                        j as int,
                    ),
                decreases construct@.len() - j,
            {
                let ghost so_far = construct_row(
                    self@.strings,
                    construct@,
                    solutions@[i as int]@,
                    j as int,
                );
                match self.instantiate_template(&construct[j], &solutions[i]) {
                    Some(quad) => {
                        let ghost held = quads@;
                        quads.push(quad);
                        assert(quads_view(quads@) =~= before + so_far.push(quad@)) by {
                            assert(quads_view(quads@) =~= quads_view(held).push(quad@));
                        }
                    },
                    None => {},
                }
                j = j + 1;
            }
            proof {
                let next = given.subrange(0, i + 1);
                assert(next.drop_last() =~= given.subrange(0, i as int));
                assert(next.last() == solutions@[i as int]@);
            }
            i = i + 1;
        }
        assert(given.subrange(0, i as int) =~= given);
        QueryResult::Graph(quads)
    }

    /// What a row holds in the given slots.
    fn slot_values_in(row: &EncodedTuple, slots: &Vec<usize>, out: &mut Vec<Option<EncodedTerm>>)
        ensures
            final(out)@ == old(out)@ + slot_values(row@, slots@),
    {
        let ghost before = out@;
        let mut c: usize = 0;
        assert(before + slot_values(row@, slots@).subrange(0, 0) =~= before);
        while c < slots.len()
            invariant
                c <= slots@.len(),
                out@ == before + slot_values(row@, slots@).subrange(0, c as int),
            decreases slots@.len() - c,
        {
            let value = if slots[c] < row.len() {
                row[slots[c]]
            } else {
                None
            };
            out.push(value);
            assert(out@ =~= before + slot_values(row@, slots@).subrange(0, c + 1));
            c = c + 1;
        }
        assert(slot_values(row@, slots@).subrange(0, c as int) =~= slot_values(row@, slots@));
    }

    /// The quads that stand for one, decoded.
    fn decode_all(&self, found: &Vec<EncodedQuad>, out: &mut Vec<Quad>)
        ensures
            quads_view(final(out)@) == quads_view(old(out)@) + decode_quads(
                self@.strings,
                found@,
            ),
    {
        let ghost before = quads_view(out@);
        let mut k: usize = 0;
        assert(found@.subrange(0, 0) =~= Seq::empty());
        assert(before + Seq::<QuadView>::empty() =~= before);
        while k < found.len()
            invariant
                k <= found@.len(),
                quads_view(out@) == before + decode_quads(
                    self@.strings,
                    found@.subrange(0, k as int),
                ),
            decreases found@.len() - k,
        {
            proof {
                let next = found@.subrange(0, k + 1);
                assert(next.drop_last() =~= found@.subrange(0, k as int));
                assert(next.last() == found@[k as int]);
            }
            let ghost so_far = decode_quads(self@.strings, found@.subrange(0, k as int));
            match self.dataset().decode_quad(&found[k]) {
                Some(quad) => {
                    let ghost held = out@;
                    out.push(quad);
                    assert(quads_view(out@) =~= before + so_far.push(quad@)) by {
                        assert(quads_view(out@) =~= quads_view(held).push(quad@));
                    }
                },
                None => {},
            }
            k = k + 1;
        }
        assert(found@.subrange(0, k as int) =~= found@);
    }

    /// The quads of a `DESCRIBE`: for each term that a solution of the plan
    /// binds to an output slot, in the order in which the solutions first
    /// give them, the quads of the dataset that have the term as subject, in
    /// every graph.
#[verifier::rlimit(40)]
    pub fn evaluate_describe_plan(&self, plan: &PlanNode, width: usize) -> (result: QueryResult)
        ensures
            result matches QueryResult::Graph(quads) && quads_view(quads@) == describe_terms(
                self@,
                distinct_terms(
                    present(
                        all_values(
                            rows(*plan, self@, unbound_row(width as nat)),
                            output_slots(*plan, width as nat),
                        ),
                    ),
                ),
            ),
    {
        let start = new_row(width);
        let solutions = self.eval_plan(plan, &start);
        self.description_of(plan, width, &solutions)
    }

    /// The quads of a `DESCRIBE` whose solutions are given.
#[verifier::rlimit(40)]
    pub fn description_of(&self, plan: &PlanNode, width: usize, solutions: &Vec<EncodedTuple>) -> (result:
        QueryResult)
        ensures
            result matches QueryResult::Graph(quads) && quads_view(quads@) == describe_terms(
                self@,
                distinct_terms(
                    present(all_values(rows_view(solutions@), output_slots(*plan, width as nat))),
                ),
            ),
    {
        let slots = output_slots_of(plan, width);
        let ghost given = rows_view(solutions@);
        let mut values: Vec<Option<EncodedTerm>> = Vec::new();
        let mut i: usize = 0;
        assert(given.subrange(0, 0) =~= Seq::<Row>::empty());
        while i < solutions.len()
            invariant
                i <= solutions@.len(),
                given == rows_view(solutions@),
                values@ == all_values(given.subrange(0, i as int), slots@),
            decreases solutions@.len() - i,
        {
            proof {
                let next = given.subrange(0, i + 1);
                assert(next.drop_last() =~= given.subrange(0, i as int));
                assert(next.last() == solutions@[i as int]@);
            }
            Self::slot_values_in(&solutions[i], &slots, &mut values);
            i = i + 1;
        }
        assert(given.subrange(0, i as int) =~= given);
        let bound = present_in(&values);
        let terms = distinct_terms_in(&bound);
        let mut quads: Vec<Quad> = Vec::new();
        let mut t: usize = 0;
        assert(terms@.subrange(0, 0) =~= Seq::empty());
        assert(quads_view(quads@) =~= Seq::<QuadView>::empty());
        while t < terms.len()
            invariant
                t <= terms@.len(),
                quads_view(quads@) == describe_terms(self@, terms@.subrange(0, t as int)),
            decreases terms@.len() - t,
        {
            proof {
                let next = terms@.subrange(0, t + 1);
                assert(next.drop_last() =~= terms@.subrange(0, t as int));
                assert(next.last() == terms@[t as int]);
            }
            let found = self.dataset().quads_for_pattern(Some(terms[t]), None, None, None);
            self.decode_all(&found, &mut quads);
            t = t + 1;
        }
        assert(terms@.subrange(0, t as int) =~= terms@);
        QueryResult::Graph(quads)
    }
}

} // verus!
