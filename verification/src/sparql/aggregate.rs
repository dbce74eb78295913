use crate::sparql::dataset::EncodedTerm;
use crate::sparql::eval::{bind_slot_in, copy_row, distinct, overlay_row, push_row, same_row};
use crate::sparql::evaluator::SimpleEvaluator;
use crate::sparql::plan::{
    all_width, distinct_rows, rows_view, EncodedTuple, PlanAggregationFunction, PlanNode, Row,
};
use crate::sparql::semantics::{
    aggregate_of, aggregate_row, aggregate_values, distinct_terms, eval_expression, greatest_of,
    group_each, integer, key_of, keys_of, least_of, members_of, present, sum_of,
};
use vstd::prelude::*;

verus! {

/// The values of the key slots of a row.
pub fn key_in(row: &EncodedTuple, keys: &Vec<usize>) -> (key: EncodedTuple)
    ensures
        key@ == key_of(row@, keys@),
{
    let mut key: EncodedTuple = Vec::new();
    let mut i: usize = 0;
    while i < keys.len()
        invariant
            i <= keys@.len(),
            key@.len() == i,
            forall|k: int| 0 <= k < i ==> key@[k] == key_of(row@, keys@)[k],
        decreases keys@.len() - i,
    {
        let slot = if keys[i] < row.len() {
            row[keys[i]]
        } else {
            None
        };
        key.push(slot);
        i = i + 1;
    }
    assert(key@ =~= key_of(row@, keys@));
    key
}

/// The key of each row.
pub fn key_rows(input: &Vec<EncodedTuple>, keys: &Vec<usize>) -> (out: Vec<EncodedTuple>)
    ensures
        rows_view(out@) == keys_of(rows_view(input@), keys@),
{
    let mut out: Vec<EncodedTuple> = Vec::new();
    let mut i: usize = 0;
    while i < input.len()
        invariant
            i <= input@.len(),
            out@.len() == i,
            forall|k: int| 0 <= k < i ==> (#[trigger] out@[k])@ == key_of(input@[k]@, keys@),
        decreases input@.len() - i,
    {
        out.push(key_in(&input[i], keys));
        i = i + 1;
    }
    assert(rows_view(out@) =~= keys_of(rows_view(input@), keys@));
    out
}

/// The rows whose key is `key`, in their order.
pub fn members_in(
    input: &Vec<EncodedTuple>,
    keys: &Vec<usize>,
    key: &EncodedTuple,
) -> (out: Vec<EncodedTuple>)
    ensures
        rows_view(out@) == members_of(rows_view(input@), keys@, key@),
        forall|width: nat| all_width(input@, width) ==> all_width(out@, width),
{
    let ghost given = rows_view(input@);
    let mut out: Vec<EncodedTuple> = Vec::new();
    assert(rows_view(out@) =~= Seq::<Row>::empty());
    let mut i: usize = 0;
    assert(given.subrange(0, 0) =~= Seq::<Row>::empty());
    while i < input.len()
        invariant
            i <= input@.len(),
            given == rows_view(input@),
            forall|width: nat| all_width(input@, width) ==> all_width(out@, width),
            rows_view(out@) == members_of(given.subrange(0, i as int), keys@, key@),
        decreases input@.len() - i,
    {
        proof {
            let next = given.subrange(0, i + 1);
            assert(next.drop_last() =~= given.subrange(0, i as int));
            assert(next.last() == input@[i as int]@);
        }
        let this_key = key_in(&input[i], keys);
        if same_row(&this_key, key) {
            push_row(&mut out, copy_row(&input[i]));
        }
        i = i + 1;
    }
    assert(given.subrange(0, i as int) =~= given);
    out
}

/// The values that are no error, in their order.
pub fn present_in(values: &Vec<Option<EncodedTerm>>) -> (out: Vec<EncodedTerm>)
    ensures
        out@ == present(values@),
{
    let mut out: Vec<EncodedTerm> = Vec::new();
    let mut i: usize = 0;
    assert(values@.subrange(0, 0) =~= Seq::empty());
    while i < values.len()
        invariant
            i <= values@.len(),
            out@ == present(values@.subrange(0, i as int)),
        decreases values@.len() - i,
    {
        proof {
            let next = values@.subrange(0, i + 1);
            assert(next.drop_last() =~= values@.subrange(0, i as int));
            assert(next.last() == values@[i as int]);
        }
        match values[i] {
            Some(term) => {
                out.push(term);
            },
            None => {},
        }
        i = i + 1;
    }
    assert(values@.subrange(0, i as int) =~= values@);
    out
}

/// Whether `terms` holds `term`.
pub fn holds_term(terms: &Vec<EncodedTerm>, term: EncodedTerm) -> (found: bool)
    ensures
        found == terms@.contains(term),
{
    let mut i: usize = 0;
    while i < terms.len()
        invariant
            i <= terms@.len(),
            forall|k: int| 0 <= k < i ==> terms@[k] != term,
        decreases terms@.len() - i,
    {
        if terms[i] == term {
            return true;
        }
        i = i + 1;
    }
    false
}

/// The terms without repeats: each where it first occurs.
pub fn distinct_terms_in(terms: &Vec<EncodedTerm>) -> (out: Vec<EncodedTerm>)
    ensures
        out@ == distinct_terms(terms@),
{
    let mut out: Vec<EncodedTerm> = Vec::new();
    let mut i: usize = 0;
    assert(terms@.subrange(0, 0) =~= Seq::empty());
    while i < terms.len()
        invariant
            i <= terms@.len(),
            out@ == distinct_terms(terms@.subrange(0, i as int)),
        decreases terms@.len() - i,
    {
        proof {
            let next = terms@.subrange(0, i + 1);
            assert(next.drop_last() =~= terms@.subrange(0, i as int));
            assert(next.last() == terms@[i as int]);
        }
        if !holds_term(&out, terms[i]) {
            out.push(terms[i]);
        }
        i = i + 1;
    }
    assert(terms@.subrange(0, i as int) =~= terms@);
    out
}

/// The sum of the integers among the terms, an error where it does not fit
/// in 64 bits.
pub fn sum_in(terms: &Vec<EncodedTerm>) -> (total: Option<EncodedTerm>)
    ensures
        total == integer(sum_of(terms@)),
{
    let mut sum: i128 = 0;
    let mut i: usize = 0;
    assert(terms@.subrange(0, 0) =~= Seq::empty());
    while i < terms.len()
        invariant
            i <= terms@.len(),
            sum == sum_of(terms@.subrange(0, i as int)),
            -(i as int) * 0x8000_0000_0000_0000 <= sum <= (i as int) * 0x7fff_ffff_ffff_ffff,
        decreases terms@.len() - i,
    {
        proof {
            let next = terms@.subrange(0, i + 1);
            assert(next.drop_last() =~= terms@.subrange(0, i as int));
            assert(next.last() == terms@[i as int]);
        }
        match terms[i] {
            EncodedTerm::IntegerLiteral(n) => {
                sum = sum + n as i128;
            },
            _ => {},
        }
        i = i + 1;
    }
    assert(terms@.subrange(0, i as int) =~= terms@);
    if sum < -9223372036854775808 || sum > 9223372036854775807 {
        None
    } else {
        Some(EncodedTerm::IntegerLiteral(sum as i64))
    }
}

/// The number of integers among the terms.
pub fn count_integers(terms: &Vec<EncodedTerm>) -> (count: usize)
    ensures
        count == crate::sparql::semantics::integers_in(terms@),
{
    let mut count: usize = 0;
    let mut i: usize = 0;
    assert(terms@.subrange(0, 0) =~= Seq::empty());
    while i < terms.len()
        invariant
            i <= terms@.len(),
            count <= i,
            count == crate::sparql::semantics::integers_in(terms@.subrange(0, i as int)),
        decreases terms@.len() - i,
    {
        proof {
            let next = terms@.subrange(0, i + 1);
            assert(next.drop_last() =~= terms@.subrange(0, i as int));
            assert(next.last() == terms@[i as int]);
        }
        match terms[i] {
            EncodedTerm::IntegerLiteral(_) => {
                count = count + 1;
            },
            _ => {},
        }
        i = i + 1;
    }
    assert(terms@.subrange(0, i as int) =~= terms@);
    count
}

/// The lexical form of the mean of the integers among the terms.
pub fn mean_text_in(terms: &Vec<EncodedTerm>) -> (found: Option<String>)
    ensures
        match found {
            Some(text) => crate::sparql::semantics::mean_text(terms@) == Some(text@),
            None => crate::sparql::semantics::mean_text(terms@) is None,
        },
{
    let count: u64 = count_integers(terms) as u64;
    if count == 0 || count > 9223372036854775807 {
        return None;
    }
    match sum_in(terms) {
        Some(EncodedTerm::IntegerLiteral(sum)) => Some(
            crate::sparql::numeric::decimal_of(sum, count as i64),
        ),
        _ => None,
    }
}

impl SimpleEvaluator {
    /// The least term in the order of `ORDER BY`.
    pub fn least_in(&self, terms: &Vec<EncodedTerm>) -> (least: Option<EncodedTerm>)
        ensures
            least == least_of(self@.strings, terms@),
    {
        let mut least: Option<EncodedTerm> = None;
        let mut i: usize = 0;
        assert(terms@.subrange(0, 0) =~= Seq::empty());
        while i < terms.len()
            invariant
                i <= terms@.len(),
                least == least_of(self@.strings, terms@.subrange(0, i as int)),
            decreases terms@.len() - i,
        {
            proof {
                let next = terms@.subrange(0, i + 1);
                assert(next.drop_last() =~= terms@.subrange(0, i as int));
                assert(next.last() == terms@[i as int]);
            }
            least = match least {
                None => Some(terms[i]),
                Some(held) => if self.slot_before(Some(terms[i]), Some(held)) {
                    Some(terms[i])
                } else {
                    Some(held)
                },
            };
            i = i + 1;
        }
        assert(terms@.subrange(0, i as int) =~= terms@);
        least
    }

    /// The greatest term in the order of `ORDER BY`.
    pub fn greatest_in(&self, terms: &Vec<EncodedTerm>) -> (greatest: Option<EncodedTerm>)
        ensures
            greatest == greatest_of(self@.strings, terms@),
    {
        let mut greatest: Option<EncodedTerm> = None;
        let mut i: usize = 0;
        assert(terms@.subrange(0, 0) =~= Seq::empty());
        while i < terms.len()
            invariant
                i <= terms@.len(),
                greatest == greatest_of(self@.strings, terms@.subrange(0, i as int)),
            decreases terms@.len() - i,
        {
            proof {
                let next = terms@.subrange(0, i + 1);
                assert(next.drop_last() =~= terms@.subrange(0, i as int));
                assert(next.last() == terms@[i as int]);
            }
            greatest = match greatest {
                None => Some(terms[i]),
                Some(held) => if self.slot_before(Some(held), Some(terms[i])) {
                    Some(terms[i])
                } else {
                    Some(held)
                },
            };
            i = i + 1;
        }
        assert(terms@.subrange(0, i as int) =~= terms@);
        greatest
    }

    /// The result of an aggregate over the values of its argument.
    pub fn aggregate_result(
        &self,
        function: PlanAggregationFunction,
        distinct: bool,
        separator: &str,
        values: &Vec<Option<EncodedTerm>>,
    ) -> (result: Option<EncodedTerm>)
        ensures
            result == aggregate_of(function, distinct, separator@, self@.strings, values@),
    {
        let all = present_in(values);
        let terms = if distinct {
            distinct_terms_in(&all)
        } else {
            all
        };
        match function {
            PlanAggregationFunction::Count => {
                let count = terms.len();
                if count as u64 > 9223372036854775807 {
                    None
                } else {
                    Some(EncodedTerm::IntegerLiteral(count as i64))
                }
            },
            PlanAggregationFunction::Sum => sum_in(&terms),
            PlanAggregationFunction::Min => self.least_in(&terms),
            PlanAggregationFunction::Max => self.greatest_in(&terms),
            PlanAggregationFunction::Sample => if terms.len() > 0 {
                Some(terms[0])
            } else {
                None
            },
            PlanAggregationFunction::GroupConcat => match crate::sparql::texts::joined_in(
                self.dataset(),
                separator,
                &terms,
            ) {
                Some(text) => crate::sparql::texts::built_term_in(
                    self.dataset(),
                    &crate::sparql::texts::Built {
                        text,
                        kind: crate::sparql::texts::BuiltKind::Simple,
                    },
                ),
                None => None,
            },
            PlanAggregationFunction::Avg => {
                if count_integers(&terms) == 0 {
                    return Some(EncodedTerm::IntegerLiteral(0));
                }
                match mean_text_in(&terms) {
                    Some(text) => match self.dataset().find_str(
                        "http://www.w3.org/2001/XMLSchema#decimal",
                    ) {
                        Some(id) => crate::sparql::texts::built_term_in(
                            self.dataset(),
                            &crate::sparql::texts::Built {
                                text,
                                kind: crate::sparql::texts::BuiltKind::Typed(id),
                            },
                        ),
                        None => None,
                    },
                    None => None,
                }
            },
        }
    }

    /// The values of the argument of aggregate `j` on the rows of one group.
    #[verifier::loop_isolation(false)]
    pub(crate) fn aggregate_values_in(&self, node: &PlanNode, members: &Vec<EncodedTuple>, j: usize) -> (out:
        Vec<Option<EncodedTerm>>)
        ensures
            out@ == aggregate_values(*node, self@, rows_view(members@), j as int),
        decreases *node, 0int, 0int,
    {
        let ghost given = rows_view(members@);
        let mut out: Vec<Option<EncodedTerm>> = Vec::new();
        match node {
            PlanNode::Group { aggregates, .. } => {
                if j < aggregates.len() {
                    let mut i: usize = 0;
                    assert(given.subrange(0, 0) =~= Seq::<Row>::empty());
                    while i < members.len()
                        invariant
                            i <= members@.len(),
                            out@ == aggregate_values(
                                *node,
                                self@,
                                given.subrange(0, i as int),
                                j as int,
                            ),
                        decreases members@.len() - i,
                    {
                        proof {
                            let next = given.subrange(0, i + 1);
                            assert(next.drop_last() =~= given.subrange(0, i as int));
                            assert(next.last() == members@[i as int]@);
                        }
                        let value = match &aggregates[j].parameter {
                            Some(argument) => self.eval_expression(argument, &members[i]),
                            None => Some(EncodedTerm::BooleanLiteral(true)),
                        };
                        out.push(value);
                        i = i + 1;
                    }
                    assert(given.subrange(0, i as int) =~= given);
                }
            },
            _ => {},
        }
        out
    }

    /// The row of one group after its aggregates were bound.
    #[verifier::loop_isolation(false)]
    pub(crate) fn aggregate(&self, node: &PlanNode, members: &Vec<EncodedTuple>, base: EncodedTuple) -> (out:
        Option<EncodedTuple>)
        ensures
            match out {
                Some(row) => node is Group && aggregate_row(
                    *node,
                    self@,
                    rows_view(members@),
                    base@,
                    node->Group_aggregates@.len() as int,
                ) == Some(row@) && row@.len() == base@.len(),
                None => !(node is Group) || aggregate_row(
                    *node,
                    self@,
                    rows_view(members@),
                    base@,
                    node->Group_aggregates@.len() as int,
                ) is None,
            },
        decreases *node, 1int, 0int,
    {
        match node {
            PlanNode::Group { aggregates, .. } => {
                let ghost start = base@;
                let mut current: Option<EncodedTuple> = Some(base);
                let mut j: usize = 0;
                while j < aggregates.len()
                    invariant
                        j <= aggregates@.len(),
                        match current {
                            Some(row) => aggregate_row(
                                *node,
                                self@,
                                rows_view(members@),
                                start,
                                j as int,
                            ) == Some(row@) && row@.len() == start.len(),
                            None => aggregate_row(
                                *node,
                                self@,
                                rows_view(members@),
                                start,
                                j as int,
                            ) is None,
                        },
                    decreases aggregates@.len() - j,
                {
                    current = match current {
                        None => None,
                        Some(row) => {
                            let values = self.aggregate_values_in(node, members, j);
                            match self.aggregate_result(
                                aggregates[j].function,
                                aggregates[j].distinct,
                                aggregates[j].separator.as_str(),
                                &values,
                            ) {
                                Some(value) => bind_slot_in(&row, aggregates[j].slot, value),
                                None => Some(row),
                            }
                        },
                    };
                    j = j + 1;
                }
                current
            },
            _ => None,
        }
    }

    /// One row for each group, in the order in which the groups first occur.
    #[verifier::loop_isolation(false)]
    pub(crate) fn group(&self, node: &PlanNode, from: &EncodedTuple, input: &Vec<EncodedTuple>) -> (out:
        Vec<EncodedTuple>)
        requires
            node is Group,
            all_width(input@, from@.len()),
        ensures
            rows_view(out@) == group_each(
                *node,
                self@,
                from@,
                rows_view(input@),
                distinct_rows(keys_of(rows_view(input@), node->Group_keys@)),
            ),
            all_width(out@, from@.len()),
        decreases *node, 2int, 0int,
    {
        let mut out: Vec<EncodedTuple> = Vec::new();
        assert(rows_view(out@) =~= Seq::<Row>::empty());
        match node {
            PlanNode::Group { keys, aggregates, .. } => {
                let all_keys = key_rows(input, keys);
                let group_keys = distinct(&all_keys);
                let ghost wanted = rows_view(group_keys@);
                let mut g: usize = 0;
                assert(wanted.subrange(0, 0) =~= Seq::<Row>::empty());
                while g < group_keys.len()
                    invariant
                        g <= group_keys@.len(),
                        all_width(out@, from@.len()),
                        rows_view(out@) == group_each(
                            *node,
                            self@,
                            from@,
                            rows_view(input@),
                            wanted.subrange(0, g as int),
                        ),
                    decreases group_keys@.len() - g,
                {
                    proof {
                        let next = wanted.subrange(0, g + 1);
                        assert(next.drop_last() =~= wanted.subrange(0, g as int));
                        assert(next.last() == group_keys@[g as int]@);
                    }
                    let members = members_in(input, keys, &group_keys[g]);
                    assert(rows_view(members@).len() == members@.len());
                    let base = if members.len() > 0 {
                        assert(rows_view(members@)[0] == members@[0]@);
                        overlay_row(from, &members[0], keys)
                    } else {
                        copy_row(from)
                    };
                    match self.aggregate(node, &members, base) {
                        Some(row) => {
                            push_row(&mut out, row);
                        },
                        None => {},
                    }
                    g = g + 1;
                }
                assert(wanted.subrange(0, g as int) =~= wanted);
            },
            _ => {},
        }
        out
    }
}

} // verus!
