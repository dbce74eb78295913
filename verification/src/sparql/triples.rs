use crate::model::term::{Quad, QuadView};
use crate::sparql::cursor::Cursor;
use crate::sparql::dataset::Dataset;
use crate::sparql::eval::new_row;
use crate::sparql::evaluator::SimpleEvaluator;
use crate::sparql::plan::{unbound_row, EncodedTuple, PlanNode, Row, TripleTemplate};
use crate::sparql::results::{construct_all, construct_row, instantiate};
use crate::sparql::semantics::rows;
use crate::sparql::stream_laws::cons;
use vstd::prelude::*;

verus! {

/// The quads that the templates from position `at` on give on a row.
pub open spec fn construct_rest(
    strings: Seq<Seq<char>>,
    templates: Seq<TripleTemplate>,
    row: Row,
    at: int,
) -> Seq<QuadView>
    decreases templates.len() - at,
{
    if at < 0 || at >= templates.len() {
        Seq::empty()
    } else {
        let rest = construct_rest(strings, templates, row, at + 1);
        match instantiate(strings, templates[at], row) {
            Some(quad) => seq![quad] + rest,
            None => rest,
        }
    }
}

/// The quads of the first templates, then those of the others, are the
/// quads of all templates.
pub proof fn lemma_construct_rest(
    strings: Seq<Seq<char>>,
    templates: Seq<TripleTemplate>,
    row: Row,
    at: int,
)
    requires
        0 <= at <= templates.len(),
    ensures
        construct_row(strings, templates, row, at) + construct_rest(strings, templates, row, at)
            == construct_row(strings, templates, row, templates.len() as int),
    decreases templates.len() - at,
{
    let first = construct_row(strings, templates, row, at);
    if at == templates.len() {
        assert(first + Seq::<QuadView>::empty() =~= first);
    } else {
        lemma_construct_rest(strings, templates, row, at + 1);
        let rest = construct_rest(strings, templates, row, at + 1);
        match instantiate(strings, templates[at], row) {
            Some(quad) => {
                assert(first + (seq![quad] + rest) =~= first.push(quad) + rest);
            },
            None => {},
        }
    }
}

/// The quads of solutions are those of the first, then those of the
/// others.
pub proof fn lemma_construct_all_first(
    strings: Seq<Seq<char>>,
    templates: Seq<TripleTemplate>,
    first: Row,
    others: Seq<Row>,
)
    ensures
        construct_all(strings, templates, cons(first, others)) == construct_row(
            strings,
            templates,
            first,
            templates.len() as int,
        ) + construct_all(strings, templates, others),
    decreases others.len(),
{
    let piece = construct_row(strings, templates, first, templates.len() as int);
    let nothing = Seq::<QuadView>::empty();
    if others.len() == 0 {
        assert(cons(first, others).drop_last() =~= Seq::<Row>::empty());
        assert(cons(first, others).last() == first);
        assert(construct_all(strings, templates, Seq::<Row>::empty()) =~= nothing);
        assert(construct_all(strings, templates, others) =~= nothing);
        assert(nothing + piece =~= piece);
        assert(piece + nothing =~= piece);
    } else {
        assert(cons(first, others).drop_last() =~= cons(first, others.drop_last()));
        assert(cons(first, others).last() == others.last());
        lemma_construct_all_first(strings, templates, first, others.drop_last());
        let last = construct_row(strings, templates, others.last(), templates.len() as int);
        let inner = construct_all(strings, templates, others.drop_last());
        assert((piece + inner) + last =~= piece + (inner + last));
    }
}

/// Whether every template gives a quad on every solution: each of its
/// positions is a constant or a variable that the solution binds, and
/// stands for a term.
pub open spec fn all_instantiate(
    strings: Seq<Seq<char>>,
    templates: Seq<TripleTemplate>,
    solutions: Seq<Row>,
) -> bool {
    forall|i: int, j: int|
        0 <= i < solutions.len() && 0 <= j < templates.len() ==> (#[trigger] instantiate(
            strings,
            templates[j],
            solutions[i],
        )) is Some
}

/// The quad of the `i`-th solution and the `j`-th of `count` templates.
pub open spec fn quad_at(quads: Seq<QuadView>, i: int, j: int, count: int) -> QuadView {
    quads[i * count + j]
}

proof fn lemma_construct_row_whole(
    strings: Seq<Seq<char>>,
    templates: Seq<TripleTemplate>,
    row: Row,
    n: int,
)
    requires
        0 <= n <= templates.len(),
        forall|j: int|
            0 <= j < templates.len() ==> (#[trigger] instantiate(strings, templates[j], row))
                is Some,
    ensures
        construct_row(strings, templates, row, n).len() == n,
        forall|j: int|
            0 <= j < n ==> #[trigger] construct_row(strings, templates, row, n)[j] == instantiate(
                strings,
                templates[j],
                row,
            )->0,
    decreases n,
{
    if n > 0 {
        lemma_construct_row_whole(strings, templates, row, n - 1);
        assert(instantiate(strings, templates[n - 1], row) is Some);
    }
}

/// Where every template gives a quad on every solution, a `CONSTRUCT`
/// gives one quad for each solution and each template, none taken out for
/// being there already: for each solution in turn, the quad of each
/// template in turn.
pub proof fn lemma_construct_gives_a_quad_for_each(
    strings: Seq<Seq<char>>,
    templates: Seq<TripleTemplate>,
    solutions: Seq<Row>,
)
    requires
        all_instantiate(strings, templates, solutions),
    ensures
        construct_all(strings, templates, solutions).len() == solutions.len() * templates.len(),
        forall|i: int, j: int|
            0 <= i < solutions.len() && 0 <= j < templates.len() ==> 0 <= i * templates.len() + j
                < construct_all(strings, templates, solutions).len() && #[trigger] quad_at(
                construct_all(strings, templates, solutions),
                i,
                j,
                templates.len() as int,
            ) == instantiate(strings, templates[j], solutions[i])->0,
    decreases solutions.len(),
{
    let count = templates.len() as int;
    if solutions.len() == 0 {
        assert(0 * count == 0) by (nonlinear_arith);
    } else {
        let head = solutions.drop_last();
        let last = solutions.last();
        assert(all_instantiate(strings, templates, head)) by {
            assert forall|i: int, j: int|
                0 <= i < head.len() && 0 <= j < templates.len() implies (#[trigger] instantiate(
                strings,
                templates[j],
                head[i],
            )) is Some by {
                assert(head[i] == solutions[i]);
                assert(instantiate(strings, templates[j], solutions[i]) is Some);
            }
        }
        lemma_construct_gives_a_quad_for_each(strings, templates, head);
        assert forall|j: int| 0 <= j < templates.len() implies (#[trigger] instantiate(
            strings,
            templates[j],
            last,
        )) is Some by {
            assert(instantiate(strings, templates[j], solutions[solutions.len() - 1]) is Some);
        }
        lemma_construct_row_whole(strings, templates, last, count);
        let before = construct_all(strings, templates, head);
        let piece = construct_row(strings, templates, last, count);
        assert((solutions.len() - 1) * count + count == solutions.len() * count)
            by (nonlinear_arith);
        assert forall|i: int, j: int|
            0 <= i < solutions.len() && 0 <= j < templates.len() implies 0 <= i * count + j < (
            before + piece).len() && #[trigger] quad_at(before + piece, i, j, count)
            == instantiate(strings, templates[j], solutions[i])->0 by {
            assert(0 <= i * count + j < solutions.len() * count && (i < head.len() ==> i * count
                + j < head.len() * count) && (i == head.len() ==> i * count + j == head.len()
                * count + j)) by (nonlinear_arith)
                requires
                    0 <= i < solutions.len(),
                    0 <= j < count,
                    head.len() == solutions.len() - 1,
            ;
            if i < head.len() {
                assert(head[i] == solutions[i]);
                assert(quad_at(before, i, j, count) == instantiate(
                    strings,
                    templates[j],
                    head[i],
                )->0);
                assert((before + piece)[i * count + j] == before[i * count + j]);
            } else {
                assert((before + piece)[before.len() + j] == piece[j]);
            }
        }
    }
}

/// The quads of a `CONSTRUCT` that were not asked for yet. A quad is built
/// when it is asked for, from a solution that is computed when its first
/// quad is asked for.
pub struct Triples<'a> {
    evaluator: &'a SimpleEvaluator,
    templates: &'a Vec<TripleTemplate>,
    cursor: Cursor<'a>,
    row: EncodedTuple,
    at: usize,
}

impl<'a> Triples<'a> {
    /// What the solutions are evaluated over.
    pub closed spec fn dataset(self) -> Dataset {
        self.evaluator@
    }

    /// The quads that are left, in order.
    pub closed spec fn remaining(self) -> Seq<QuadView> {
        construct_rest(self.evaluator@.strings, self.templates@, self.row@, self.at as int)
            + construct_all(
            self.evaluator@.strings,
            self.templates@,
            self.cursor.remaining(self.evaluator@),
        )
    }

    #[verifier::type_invariant]
    spec fn fits(self) -> bool {
        self.cursor.well_formed(self.evaluator@)
    }

    /// The next quad, if there is one, and the stream of those after it.
    /// Only the work for that quad is done.
    #[verifier::loop_isolation(false)]
    pub fn next(self) -> (out: (Option<Quad>, Self))
        ensures
            out.1.dataset() == self.dataset(),
            match out.0 {
                Some(quad) => self.remaining() == seq![quad@] + out.1.remaining(),
                None => self.remaining().len() == 0 && out.1.remaining().len() == 0,
            },
    {
        proof {
            use_type_invariant(&self);
        }
        let Triples { evaluator, templates, cursor, row, at } = self;
        let ghost dataset = evaluator@;
        let ghost strings = dataset.strings;
        let ghost nothing = Seq::<QuadView>::empty();
        let mut cursor = cursor;
        let mut row = row;
        let mut at = at;
        loop
            invariant
                cursor.well_formed(dataset),
                construct_rest(strings, templates@, row@, at as int) + construct_all(
                    strings,
                    templates@,
                    cursor.remaining(dataset),
                ) == self.remaining(),
            decreases
                    cursor.remaining(dataset).len(),
                    (if at < templates@.len() {
                        templates@.len() - at
                    } else {
                        0
                    }),
        {
            let ghost later = construct_all(strings, templates@, cursor.remaining(dataset));
            if at < templates.len() {
                let built = evaluator.instantiate_template(&templates[at], &row);
                at = at + 1;
                match built {
                    Some(quad) => {
                        let ghost rest = construct_rest(strings, templates@, row@, at as int);
                        assert((seq![quad@] + rest) + later =~= seq![quad@] + (rest + later));
                        return (Some(quad), Triples { evaluator, templates, cursor, row, at });
                    },
                    None => {},
                }
            } else {
                assert(nothing + later =~= later);
                let ghost asked = cursor.remaining(dataset);
                let pulled = cursor.next(evaluator);
                match pulled.0 {
                    None => {
                        assert(asked =~= Seq::<Row>::empty());
                        assert(pulled.1.remaining(dataset) =~= Seq::<Row>::empty());
                        assert(nothing + nothing =~= nothing);
                        return (
                            None,
                            Triples { evaluator, templates, cursor: pulled.1, row, at },
                        );
                    },
                    Some(solution) => {
                        proof {
                            lemma_construct_all_first(
                                strings,
                                templates@,
                                solution@,
                                pulled.1.remaining(dataset),
                            );
                            lemma_construct_rest(strings, templates@, solution@, 0);
                            assert(nothing + construct_rest(strings, templates@, solution@, 0)
                                =~= construct_rest(strings, templates@, solution@, 0));
                        }
                        row = solution;
                        at = 0;
                        cursor = pulled.1;
                    },
                }
            }
        }
    }
}

impl SimpleEvaluator {
    /// The quads of a `CONSTRUCT` as a stream: for each solution of the plan
    /// in turn, the quad of each template in turn whose positions are all
    /// bound. Nothing is evaluated until a quad is asked for.
    pub fn triples<'a>(
        &'a self,
        plan: &'a PlanNode,
        construct: &'a Vec<TripleTemplate>,
        width: usize,
    ) -> (stream: Triples<'a>)
        ensures
            stream.dataset() == self@,
            stream.remaining() == construct_all(
                self@.strings,
                construct@,
                rows(*plan, self@, unbound_row(width as nat)),
            ),
    {
        let row = new_row(width);
        let cursor = Cursor::new(plan, new_row(width));
        let at = construct.len();
        proof {
            let whole = construct_all(
                self@.strings,
                construct@,
                rows(*plan, self@, unbound_row(width as nat)),
            );
            assert(Seq::<QuadView>::empty() + whole =~= whole);
        }
        Triples { evaluator: self, templates: construct, cursor, row, at }
    }
}

} // verus!
