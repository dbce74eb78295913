use crate::model::term::{NamedNode, Term, TermView, Variable};
use crate::sparql::algebra::GraphPattern;
use crate::sparql::dataset::{
    check_term, is_canonical, is_encodable, lemma_canonical_in_larger_store,
    lemma_encode_round_trip, lemma_prefix_transitive, term_of, DatasetView, EncodedTerm,
};
use crate::sparql::plan::{answers_view, rows_view, EncodedTuple, Row, ServiceRequest};
use vstd::prelude::*;

verus! {

/// What a service handler answers for one federated pattern.
#[derive(PartialEq, Eq, Debug)]
pub enum ServiceAnswer {
    /// The handler does not serve the endpoint.
    Declined,
    /// The handler serves the endpoint, and the call failed.
    Failed,
    /// The solutions of the pattern: the variables, and one row for each
    /// solution with one term or `None` for each variable.
    Bindings { variables: Vec<Variable>, rows: Vec<Vec<Option<Term>>> },
}

/// The federation capability: evaluates a graph pattern at an endpoint.
/// Nothing is known of what a handler answers.
pub trait ServiceHandler {
    /// Answers `pattern` at `endpoint`.
    fn handle(&self, endpoint: &NamedNode, pattern: &GraphPattern) -> (answer: ServiceAnswer);
}

/// The handler that serves no endpoint.
#[derive(Clone, Copy, PartialEq, Eq, Debug)]
pub struct NoneService;

impl ServiceHandler for NoneService {
    fn handle(&self, endpoint: &NamedNode, pattern: &GraphPattern) -> (answer: ServiceAnswer)
        ensures
            answer is Declined,
    {
        ServiceAnswer::Declined
    }
}

/// The slot of the variable `name` in the slot table of a federated
/// pattern, looked for from entry `i` on.
pub open spec fn column_slot(table: Seq<(Variable, usize)>, name: Seq<char>, i: int) -> Option<
    usize,
>
    decreases table.len() - i,
{
    if i < 0 || i >= table.len() {
        None
    } else if table[i].0@ == name {
        Some(table[i].1)
    } else {
        column_slot(table, name, i + 1)
    }
}

/// The term that a row of an answer gives to slot `slot`: that of the first
/// column, from column `c` on, whose variable has the slot and which holds a
/// term.
pub open spec fn slot_term(
    names: Seq<Variable>,
    row: Seq<Option<Term>>,
    table: Seq<(Variable, usize)>,
    slot: usize,
    c: int,
) -> Option<TermView>
    decreases names.len() - c,
{
    if c < 0 || c >= names.len() || c >= row.len() {
        None
    } else if row[c] is Some && column_slot(table, names[c]@, 0) == Some(slot) {
        Some(row[c]->0@)
    } else {
        slot_term(names, row, table, slot, c + 1)
    }
}

/// Whether every term that the rows of an answer give to a slot below
/// `width` can be interned.
pub open spec fn is_usable(
    names: Seq<Variable>,
    rows: Seq<Vec<Option<Term>>>,
    table: Seq<(Variable, usize)>,
    width: usize,
) -> bool {
    forall|i: int, slot: usize|
        0 <= i < rows.len() && slot < width ==> (#[trigger] slot_term(
            names,
            rows[i]@,
            table,
            slot,
            0,
        ) matches Some(term) ==> is_encodable(term))
}

/// Whether `tuple` is the row of `width` slots that holds, at each slot, the
/// canonical surrogate of the term that `row` gives to it.
pub open spec fn encodes_row(
    strings: Seq<Seq<char>>,
    tuple: Seq<Option<EncodedTerm>>,
    names: Seq<Variable>,
    row: Seq<Option<Term>>,
    table: Seq<(Variable, usize)>,
    width: usize,
) -> bool {
    &&& tuple.len() == width
    &&& forall|slot: usize|
        slot < width ==> match slot_term(names, row, table, slot, 0) {
            Some(term) => (#[trigger] tuple[slot as int]) matches Some(encoded) && term_of(
                strings,
                encoded,
            ) == Some(term) && is_canonical(strings, encoded),
            None => tuple[slot as int] is None,
        }
}

/// Whether `tuples` is what an answer becomes over the slots of the plan:
/// none where the service declined or failed, or where a term of the answer
/// cannot be interned; else one row for each row of the answer, in order,
/// as `encodes_row` states.
pub open spec fn gives(
    tuples: Option<Seq<Row>>,
    answer: ServiceAnswer,
    request: ServiceRequest,
    strings: Seq<Seq<char>>,
    width: usize,
) -> bool {
    match tuples {
        Some(encoded) => {
            &&& answer matches ServiceAnswer::Bindings { variables, rows }
            &&& is_usable(variables@, rows@, request.variables@, width)
            &&& encoded.len() == rows@.len()
            &&& forall|i: int|
                0 <= i < rows@.len() ==> encodes_row(
                    strings,
                    #[trigger] encoded[i],
                    variables@,
                    rows@[i]@,
                    request.variables@,
                    width,
                )
        },
        None => answer matches ServiceAnswer::Bindings { variables, rows } ==> !is_usable(
            variables@,
            rows@,
            request.variables@,
            width,
        ),
    }
}

/// Whether `tuples` is what some answer of the handler to the request
/// becomes.
pub open spec fn answer_for<H: ServiceHandler>(
    handler: H,
    request: ServiceRequest,
    tuples: Option<Seq<Row>>,
    strings: Seq<Seq<char>>,
    width: usize,
) -> bool {
    exists|answer: ServiceAnswer| #[trigger]
        call_ensures(H::handle, (&handler, &request.endpoint, &request.pattern), answer) && gives(
            tuples,
            answer,
            request,
            strings,
            width,
        )
}

/// Whether the answers are those of the handler: one for each federated
/// pattern, each what an answer of the handler to that pattern becomes.
pub open spec fn answered<H: ServiceHandler>(
    handler: H,
    services: Seq<ServiceRequest>,
    answers: Seq<Option<Seq<Row>>>,
    strings: Seq<Seq<char>>,
    width: usize,
) -> bool {
    &&& answers.len() == services.len()
    &&& forall|i: int|
        0 <= i < services.len() ==> #[trigger] answer_for(
            handler,
            services[i],
            answers[i],
            strings,
            width,
        )
}

/// What an answer became stays what it becomes in a store that grew.
pub proof fn lemma_answer_in_larger_store<H: ServiceHandler>(
    handler: H,
    request: ServiceRequest,
    tuples: Option<Seq<Row>>,
    a: Seq<Seq<char>>,
    b: Seq<Seq<char>>,
    width: usize,
)
    requires
        a.is_prefix_of(b),
        answer_for(handler, request, tuples, a, width),
    ensures
        answer_for(handler, request, tuples, b, width),
{
    let answer = choose|answer: ServiceAnswer| #[trigger]
        call_ensures(H::handle, (&handler, &request.endpoint, &request.pattern), answer) && gives(
            tuples,
            answer,
            request,
            a,
            width,
        );
    if let Some(encoded) = tuples {
        let names = answer->variables@;
        let rows = answer->rows@;
        assert forall|i: int| 0 <= i < rows.len() implies encodes_row(
            b,
            #[trigger] encoded[i],
            names,
            rows[i]@,
            request.variables@,
            width,
        ) by {
            assert(encodes_row(a, encoded[i], names, rows[i]@, request.variables@, width));
            assert forall|slot: usize| slot < width implies match slot_term(
                names,
                rows[i]@,
                request.variables@,
                slot,
                0,
            ) {
                Some(term) => (#[trigger] encoded[i][slot as int]) matches Some(e) && term_of(
                    b,
                    e,
                ) == Some(term) && is_canonical(b, e),
                None => encoded[i][slot as int] is None,
            } by {
                if let Some(e) = encoded[i][slot as int] {
                    if slot_term(names, rows[i]@, request.variables@, slot, 0) is Some {
                        lemma_canonical_in_larger_store(a, b, e);
                    }
                }
            }
        }
    }
    assert(gives(tuples, answer, request, b, width));
}

/// A handler that only declines or fails leaves every federated pattern
/// without an answer.
pub proof fn lemma_no_answer_where_the_handler_declines<H: ServiceHandler>(
    handler: H,
    services: Seq<ServiceRequest>,
    answers: Seq<Option<Seq<Row>>>,
    strings: Seq<Seq<char>>,
    width: usize,
)
    requires
        answered(handler, services, answers, strings, width),
        forall|endpoint: &NamedNode, pattern: &GraphPattern, answer: ServiceAnswer| #[trigger]
            call_ensures(H::handle, (&handler, endpoint, pattern), answer) ==> !(answer
                is Bindings),
    ensures
        forall|i: int| 0 <= i < services.len() ==> #[trigger] answers[i] is None,
{
    assert forall|i: int| 0 <= i < services.len() implies #[trigger] answers[i] is None by {
        assert(answer_for(handler, services[i], answers[i], strings, width));
    }
}

/// With a handler that only declines or fails, a query with a federated
/// pattern that is not silent is unavailable.
pub proof fn lemma_unavailable_where_the_handler_declines<H: ServiceHandler>(
    handler: H,
    services: Seq<ServiceRequest>,
    answers: Seq<Option<Seq<Row>>>,
    strings: Seq<Seq<char>>,
    width: usize,
    i: int,
)
    requires
        answered(handler, services, answers, strings, width),
        forall|endpoint: &NamedNode, pattern: &GraphPattern, answer: ServiceAnswer| #[trigger]
            call_ensures(H::handle, (&handler, endpoint, pattern), answer) ==> !(answer
                is Bindings),
        0 <= i < services.len(),
        !services[i].silent,
    ensures
        crate::sparql::plan::is_unavailable(services, answers),
{
    lemma_no_answer_where_the_handler_declines(handler, services, answers, strings, width);
    assert(answers[i] is None);
}

/// The slot of the variable `name` in a slot table.
fn find_slot(table: &Vec<(Variable, usize)>, name: &Variable) -> (slot: Option<usize>)
    ensures
        slot == column_slot(table@, name@, 0),
{
    let mut i: usize = 0;
    while i < table.len()
        invariant
            i <= table@.len(),
            column_slot(table@, name@, 0) == column_slot(table@, name@, i as int),
        decreases table@.len() - i,
    {
        if table[i].0.name == name.name {
            return Some(table[i].1);
        }
        i = i + 1;
    }
    None
}

/// The term that a row of an answer gives to a slot.
fn find_term<'a>(
    names: &Vec<Variable>,
    row: &'a Vec<Option<Term>>,
    table: &Vec<(Variable, usize)>,
    slot: usize,
) -> (term: Option<&'a Term>)
    ensures
        match term {
            Some(found) => slot_term(names@, row@, table@, slot, 0) == Some(found@),
            None => slot_term(names@, row@, table@, slot, 0) is None,
        },
{
    let mut c: usize = 0;
    while c < names.len() && c < row.len()
        invariant
            c <= names@.len(),
            c <= row@.len(),
            slot_term(names@, row@, table@, slot, 0) == slot_term(
                names@,
                row@,
                table@,
                slot,
                c as int,
            ),
        decreases names@.len() - c,
    {
        match &row[c] {
            Some(term) => {
                match find_slot(table, &names[c]) {
                    Some(found) => {
                        if found == slot {
                            return Some(term);
                        }
                    },
                    None => {},
                }
            },
            None => {},
        }
        c = c + 1;
    }
    None
}

/// Whether every term that the rows give to a slot can be interned.
fn check_usable(
    names: &Vec<Variable>,
    rows: &Vec<Vec<Option<Term>>>,
    table: &Vec<(Variable, usize)>,
    width: usize,
) -> (usable: bool)
    ensures
        usable == is_usable(names@, rows@, table@, width),
{
    let mut i: usize = 0;
    while i < rows.len()
        invariant
            i <= rows@.len(),
            forall|k: int, slot: usize|
                0 <= k < i && slot < width ==> (#[trigger] slot_term(
                    names@,
                    rows@[k]@,
                    table@,
                    slot,
                    0,
                ) matches Some(term) ==> is_encodable(term)),
        decreases rows@.len() - i,
    {
        let mut slot: usize = 0;
        while slot < width
            invariant
                slot <= width,
                i < rows@.len(),
                forall|s: usize|
                    s < slot ==> (#[trigger] slot_term(names@, rows@[i as int]@, table@, s, 0) matches Some(
                        term,
                    ) ==> is_encodable(term)),
            decreases width - slot,
        {
            match find_term(names, &rows[i], table, slot) {
                Some(term) => {
                    if !check_term(term) {
                        assert(slot_term(names@, rows@[i as int]@, table@, slot, 0) == Some(term@));
                        return false;
                    }
                },
                None => {},
            }
            slot = slot + 1;
        }
        i = i + 1;
    }
    true
}

/// Encodes one row of an answer over the slots of the plan.
#[verifier::rlimit(40)]
fn encode_row(
    dataset: &mut DatasetView,
    names: &Vec<Variable>,
    row: &Vec<Option<Term>>,
    table: &Vec<(Variable, usize)>,
    width: usize,
) -> (tuple: EncodedTuple)
    requires
        old(dataset)@.well_formed(),
        forall|slot: usize|
            slot < width ==> (#[trigger] slot_term(names@, row@, table@, slot, 0) matches Some(term)
                ==> is_encodable(term)),
    ensures
        encodes_row(final(dataset)@.strings, tuple@, names@, row@, table@, width),
        old(dataset)@.strings.is_prefix_of(final(dataset)@.strings),
        final(dataset)@.quads == old(dataset)@.quads,
        final(dataset)@.well_formed(),
{
    let mut tuple: EncodedTuple = Vec::new();
    let mut slot: usize = 0;
    assert(dataset@.strings.is_prefix_of(dataset@.strings)) by {
        assert(dataset@.strings =~= dataset@.strings.subrange(0, dataset@.strings.len() as int));
    }
    while slot < width
        invariant
            slot <= width,
            tuple@.len() == slot,
            dataset@.well_formed(),
            dataset@.quads == old(dataset)@.quads,
            old(dataset)@.strings.is_prefix_of(dataset@.strings),
            forall|s: usize|
                s < width ==> (#[trigger] slot_term(names@, row@, table@, s, 0) matches Some(term)
                    ==> is_encodable(term)),
            forall|s: usize|
                s < slot ==> match slot_term(names@, row@, table@, s, 0) {
                    Some(term) => (#[trigger] tuple@[s as int]) matches Some(encoded) && term_of(
                        dataset@.strings,
                        encoded,
                    ) == Some(term) && is_canonical(dataset@.strings, encoded),
                    None => tuple@[s as int] is None,
                },
        decreases width - slot,
    {
        let ghost before = dataset@.strings;
        let ghost done = tuple@;
        let value = match find_term(names, row, table, slot) {
            Some(term) => {
                assert(slot_term(names@, row@, table@, slot, 0) == Some(term@));
                match dataset.encode_term(term) {
                    Ok(encoded) => {
                        proof {
                            lemma_encode_round_trip(before, term@, dataset@.strings);
                        }
                        Some(encoded)
                    },
                    Err(_) => None,
                }
            },
            None => None,
        };
        proof {
            assert(before.is_prefix_of(dataset@.strings)) by {
                if before != dataset@.strings {
                    let term = slot_term(names@, row@, table@, slot, 0)->0;
                    lemma_encode_round_trip(before, term, dataset@.strings);
                } else {
                    assert(before =~= before.subrange(0, before.len() as int));
                }
            }
            lemma_prefix_transitive(old(dataset)@.strings, before, dataset@.strings);
        }
        tuple.push(value);
        proof {
            assert forall|s: usize| s < slot + 1 implies match slot_term(
                names@,
                row@,
                table@,
                s,
                0,
            ) {
                Some(term) => (#[trigger] tuple@[s as int]) matches Some(encoded) && term_of(
                    dataset@.strings,
                    encoded,
                ) == Some(term) && is_canonical(dataset@.strings, encoded),
                None => tuple@[s as int] is None,
            } by {
                if s < slot {
                    assert(tuple@[s as int] == done[s as int]);
                    if let Some(encoded) = done[s as int] {
                        lemma_canonical_in_larger_store(before, dataset@.strings, encoded);
                    }
                }
            }
        }
        slot = slot + 1;
    }
    tuple
}

/// Turns the answer of a service into rows over the slots of the plan.
///
/// Gives `None`, leaving the view as it was, where the service declined or
/// failed, and where a term that the answer gives to one of the slots cannot
/// be interned. Otherwise gives one row of `width` slots for each row of the
/// answer, in order: each slot holds the canonical surrogate of the term
/// that the row gives to it, and is unbound where the row gives it none.
#[verifier::rlimit(40)]
pub fn service_tuples(
    dataset: &mut DatasetView,
    answer: &ServiceAnswer,
    request: &ServiceRequest,
    width: usize,
) -> (tuples: Option<Vec<EncodedTuple>>)
    requires
        old(dataset)@.well_formed(),
    ensures
        final(dataset)@.well_formed(),
        final(dataset)@.quads == old(dataset)@.quads,
        old(dataset)@.strings.is_prefix_of(final(dataset)@.strings),
        match tuples {
            Some(encoded) => {
                &&& answer matches ServiceAnswer::Bindings { variables, rows }
                &&& is_usable(variables@, rows@, request.variables@, width)
                &&& encoded@.len() == rows@.len()
                &&& forall|i: int|
                    0 <= i < rows@.len() ==> encodes_row(
                        final(dataset)@.strings,
                        (#[trigger] encoded@[i])@,
                        variables@,
                        rows@[i]@,
                        request.variables@,
                        width,
                    )
            },
            None => {
                &&& final(dataset)@ == old(dataset)@
                &&& answer matches ServiceAnswer::Bindings { variables, rows } ==> !is_usable(
                    variables@,
                    rows@,
                    request.variables@,
                    width,
                )
            },
        },
{
    assert(dataset@.strings.is_prefix_of(dataset@.strings)) by {
        assert(dataset@.strings =~= dataset@.strings.subrange(0, dataset@.strings.len() as int));
    }
    match answer {
        ServiceAnswer::Bindings { variables, rows } => {
            if !check_usable(variables, rows, &request.variables, width) {
                return None;
            }
            let mut encoded: Vec<EncodedTuple> = Vec::new();
            let mut i: usize = 0;
            while i < rows.len()
                invariant
                    i <= rows@.len(),
                    encoded@.len() == i,
                    is_usable(variables@, rows@, request.variables@, width),
                    dataset@.well_formed(),
                    dataset@.quads == old(dataset)@.quads,
                    old(dataset)@.strings.is_prefix_of(dataset@.strings),
                    forall|k: int|
                        0 <= k < i ==> encodes_row(
                            dataset@.strings,
                            (#[trigger] encoded@[k])@,
                            variables@,
                            rows@[k]@,
                            request.variables@,
                            width,
                        ),
                decreases rows@.len() - i,
            {
                let ghost before = dataset@.strings;
                let ghost done = encoded@;
                let tuple = encode_row(dataset, variables, &rows[i], &request.variables, width);
                encoded.push(tuple);
                proof {
                    lemma_prefix_transitive(old(dataset)@.strings, before, dataset@.strings);
                    assert forall|k: int| 0 <= k < i + 1 implies encodes_row(
                        dataset@.strings,
                        (#[trigger] encoded@[k])@,
                        variables@,
                        rows@[k]@,
                        request.variables@,
                        width,
                    ) by {
                        if k < i {
                            assert(encoded@[k] == done[k]);
                            assert(encodes_row(
                                before,
                                done[k]@,
                                variables@,
                                rows@[k]@,
                                request.variables@,
                                width,
                            ));
                            assert forall|slot: usize| slot < width implies match slot_term(
                                variables@,
                                rows@[k]@,
                                request.variables@,
                                slot,
                                0,
                            ) {
                                Some(term) => (#[trigger] done[k]@[slot as int]) matches Some(e)
                                    && term_of(dataset@.strings, e) == Some(term) && is_canonical(
                                    dataset@.strings,
                                    e,
                                ),
                                None => done[k]@[slot as int] is None,
                            } by {
                                if let Some(e) = done[k]@[slot as int] {
                                    lemma_canonical_in_larger_store(before, dataset@.strings, e);
                                }
                            }
                        }
                    }
                }
                i = i + 1;
            }
            Some(encoded)
        },
        _ => None,
    }
}

/// Asks the handler for each federated pattern in turn, and turns each
/// answer into rows over the slots of the plan: one entry for each pattern,
/// `None` where `service_tuples` gives none for what the handler answered.
pub fn ask_services<H: ServiceHandler>(
    handler: &H,
    services: &Vec<ServiceRequest>,
    dataset: &mut DatasetView,
    width: usize,
) -> (answers: Vec<Option<Vec<EncodedTuple>>>)
    requires
        old(dataset)@.well_formed(),
    ensures
        answers@.len() == services@.len(),
        final(dataset)@.well_formed(),
        final(dataset)@.quads == old(dataset)@.quads,
        old(dataset)@.strings.is_prefix_of(final(dataset)@.strings),
        forall|i: int, k: int|
            0 <= i < answers@.len() && answers@[i] is Some && 0 <= k < answers@[i]->0@.len() ==> (
            #[trigger] answers@[i]->0@[k])@.len() == width,
        answered(
            *handler,
            services@,
            answers_view(answers@),
            final(dataset)@.strings,
            width,
        ),
{
    let mut answers: Vec<Option<Vec<EncodedTuple>>> = Vec::new();
    let mut i: usize = 0;
    assert(dataset@.strings.is_prefix_of(dataset@.strings)) by {
        assert(dataset@.strings =~= dataset@.strings.subrange(0, dataset@.strings.len() as int));
    }
    while i < services.len()
        invariant
            i <= services@.len(),
            answers@.len() == i,
            dataset@.well_formed(),
            dataset@.quads == old(dataset)@.quads,
            old(dataset)@.strings.is_prefix_of(dataset@.strings),
            forall|j: int, k: int|
                0 <= j < answers@.len() && answers@[j] is Some && 0 <= k < answers@[j]->0@.len()
                    ==> (#[trigger] answers@[j]->0@[k])@.len() == width,
            forall|j: int|
                0 <= j < i ==> #[trigger] answer_for(
                    *handler,
                    services@[j],
                    answers_view(answers@)[j],
                    dataset@.strings,
                    width,
                ),
        decreases services@.len() - i,
    {
        let ghost before = dataset@.strings;
        let ghost done = answers@;
        let answer = handler.handle(&services[i].endpoint, &services[i].pattern);
        let tuples = service_tuples(dataset, &answer, &services[i], width);
        proof {
            lemma_prefix_transitive(old(dataset)@.strings, before, dataset@.strings);
        }
        answers.push(tuples);
        proof {
            assert forall|j: int| 0 <= j < i + 1 implies #[trigger] answer_for(
                *handler,
                services@[j],
                answers_view(answers@)[j],
                dataset@.strings,
                width,
            ) by {
                if j < i {
                    assert(answers_view(answers@)[j] == answers_view(done)[j]);
                    lemma_answer_in_larger_store(
                        *handler,
                        services@[j],
                        answers_view(done)[j],
                        before,
                        dataset@.strings,
                        width,
                    );
                } else {
                    let made = answers_view(answers@)[j];
                    if let Some(encoded) = tuples {
                        assert(made == Some(rows_view(encoded@)));
                        assert(rows_view(encoded@).len() == encoded@.len());
                    }
                    assert(gives(made, answer, services@[j], dataset@.strings, width));
                    assert(call_ensures(
                        H::handle,
                        (handler, &services@[j].endpoint, &services@[j].pattern),
                        answer,
                    ));
                }
            }
        }
        proof {
            assert forall|j: int, k: int|
                0 <= j < answers@.len() && answers@[j] is Some && 0 <= k
                    < answers@[j]->0@.len() implies (#[trigger] answers@[j]->0@[k])@.len()
                == width by {
                if j < i {
                    assert(answers@[j] == done[j]);
                }
            }
        }
        i = i + 1;
    }
    answers
}

} // verus!
