use crate::sparql::dataset::{Dataset, EncodedQuad};
use crate::sparql::eval::{
    bind_quad_in, bind_slot_in, copy_row, holds_row, is_excluded, lemma_scan_matching, new_row,
    overlay_row, push_row, restrict_row,
};
use crate::sparql::evaluator::SimpleEvaluator;
use crate::sparql::laws::lemma_rows_extend;
use crate::sparql::plan::{
    minus_rows, overlay_each, rows_view, scan_each, slice_rows, EncodedTuple, PlanNode, Row,
};
use crate::sparql::semantics::{
    extend_each, filter_each, join_each, left_join_each, optional_matches, pattern_of, rows,
};
use crate::sparql::stream_laws::{
    cons, fresh_rows, keeps, lemma_extend_each_first, lemma_filter_each_first,
    lemma_fresh_rows_first, lemma_fresh_rows_of_nothing, lemma_join_each_first,
    lemma_left_join_each_first, lemma_minus_rows_first, lemma_optional_matches_first,
    lemma_overlay_each_first, lemma_scan_each_first, lemma_scan_rest_step,
    lemma_slice_rows_first, scan_rest,
};
use vstd::pervasive::unreached;
use vstd::prelude::*;

verus! {

/// The rows of a plan that have not been asked for yet. A cursor does the
/// work for a row when the row is asked for: a scan reads the quads for one
/// left row at a time, a join opens its right side for one left row at a
/// time, a slice stops asking once it has handed out its rows. Grouping,
/// sorting and the right side of `MINUS` are computed whole when their
/// first row is asked for, and so are the rows that a plan holds itself:
/// its given rows, and what a service answered.
pub enum Cursor<'a> {
    /// A plan that was not started.
    Pending { node: &'a PlanNode, from: EncodedTuple },
    /// Rows that were computed whole; those from `at` on are left.
    Rows { node: &'a PlanNode, rows: Vec<EncodedTuple>, at: usize },
    /// A quad pattern: the quads that match for the left row at hand,
    /// those from `at` on still to try.
    Scan {
        node: &'a PlanNode,
        child: Box<Cursor<'a>>,
        row: EncodedTuple,
        quads: Vec<EncodedQuad>,
        at: usize,
    },
    /// A join: the right side for the left row at hand.
    Join { node: &'a PlanNode, left: Box<Cursor<'a>>, right: Box<Cursor<'a>> },
    /// An optional join: while `active`, the right side for the left row
    /// `row`, and whether it gave a match yet.
    LeftJoin {
        node: &'a PlanNode,
        left: Box<Cursor<'a>>,
        right: Box<Cursor<'a>>,
        row: EncodedTuple,
        matched: bool,
        active: bool,
    },
    Union { node: &'a PlanNode, left: Box<Cursor<'a>>, right: Box<Cursor<'a>> },
    /// `MINUS`, with the rows of its right side.
    Minus { node: &'a PlanNode, left: Box<Cursor<'a>>, rights: Vec<EncodedTuple> },
    Filter { node: &'a PlanNode, child: Box<Cursor<'a>> },
    Extend { node: &'a PlanNode, child: Box<Cursor<'a>> },
    /// A projection, with the row that it was started from.
    Project { node: &'a PlanNode, from: EncodedTuple, child: Box<Cursor<'a>> },
    /// `DISTINCT`, with the rows that were handed out.
    Distinct { node: &'a PlanNode, child: Box<Cursor<'a>>, seen: Vec<EncodedTuple> },
    /// A slice: the rows still to skip, and those still to hand out.
    Slice { node: &'a PlanNode, child: Box<Cursor<'a>>, skip: usize, take: Option<usize> },
}

impl<'a> Cursor<'a> {
    /// The plan that the cursor runs.
    pub open spec fn node(self) -> PlanNode {
        match self {
            Cursor::Pending { node, .. } => *node,
            Cursor::Rows { node, .. } => *node,
            Cursor::Scan { node, .. } => *node,
            Cursor::Join { node, .. } => *node,
            Cursor::LeftJoin { node, .. } => *node,
            Cursor::Union { node, .. } => *node,
            Cursor::Minus { node, .. } => *node,
            Cursor::Filter { node, .. } => *node,
            Cursor::Extend { node, .. } => *node,
            Cursor::Project { node, .. } => *node,
            Cursor::Distinct { node, .. } => *node,
            Cursor::Slice { node, .. } => *node,
        }
    }

    /// The rows that the cursor has still to hand out, in order.
    pub open spec fn remaining(self, dataset: Dataset) -> Seq<Row>
        decreases self,
    {
        match self {
            Cursor::Pending { node, from } => rows(*node, dataset, from@),
            Cursor::Rows { rows, at, .. } => rows_view(rows@).skip(at as int),
            Cursor::Scan { node, child, row, quads, at } => scan_rest(
                row@,
                pattern_of(*node),
                quads@,
                at as int,
            ) + scan_each(child.remaining(dataset), pattern_of(*node), dataset.quads),
            Cursor::Join { node, left, right } => right.remaining(dataset) + join_each(
                *node,
                dataset,
                left.remaining(dataset),
            ),
            Cursor::LeftJoin { node, left, right, row, matched, active } => {
                let found = optional_matches(*node, dataset, right.remaining(dataset));
                let current = if !active {
                    Seq::empty()
                } else if found.len() > 0 {
                    found
                } else if matched {
                    Seq::empty()
                } else {
                    seq![row@]
                };
                current + left_join_each(*node, dataset, left.remaining(dataset))
            },
            Cursor::Union { left, right, .. } => left.remaining(dataset) + right.remaining(
                dataset,
            ),
            Cursor::Minus { left, rights, .. } => minus_rows(
                left.remaining(dataset),
                rows_view(rights@),
            ),
            Cursor::Filter { node, child } => filter_each(
                *node,
                dataset,
                child.remaining(dataset),
            ),
            Cursor::Extend { node, child } => extend_each(
                *node,
                dataset,
                child.remaining(dataset),
            ),
            Cursor::Project { node, from, child } => overlay_each(
                from@,
                child.remaining(dataset),
                node->Project_slots@,
            ),
            Cursor::Distinct { child, seen, .. } => fresh_rows(
                child.remaining(dataset),
                rows_view(seen@),
            ),
            Cursor::Slice { child, skip, take, .. } => slice_rows(
                child.remaining(dataset),
                skip,
                take,
            ),
        }
    }

    /// Whether the parts of the cursor fit its plan: each part runs the
    /// part of the plan that it stands for.
    pub open spec fn well_formed(self, dataset: Dataset) -> bool
        decreases self,
    {
        match self {
            Cursor::Pending { .. } => true,
            Cursor::Rows { rows, at, .. } => at <= rows@.len(),
            Cursor::Scan { node, child, quads, at, .. } => {
                &&& *node is QuadPatternJoin
                &&& child.well_formed(dataset)
                &&& child.node() == *node->QuadPatternJoin_child
                &&& at <= quads@.len()
            },
            Cursor::Join { node, left, right } => {
                &&& *node is Join
                &&& left.well_formed(dataset)
                &&& right.well_formed(dataset)
                &&& left.node() == *node->Join_left
                &&& right.node() == *node->Join_right
            },
            Cursor::LeftJoin { node, left, right, .. } => {
                &&& *node is LeftJoin
                &&& left.well_formed(dataset)
                &&& right.well_formed(dataset)
                &&& left.node() == *node->LeftJoin_left
                &&& right.node() == *node->LeftJoin_right
            },
            Cursor::Union { node, left, right } => {
                &&& *node is Union
                &&& left.well_formed(dataset)
                &&& right.well_formed(dataset)
                &&& left.node() == *node->Union_left
                &&& right.node() == *node->Union_right
            },
            Cursor::Minus { node, left, .. } => {
                &&& *node is Minus
                &&& left.well_formed(dataset)
                &&& left.node() == *node->Minus_left
            },
            Cursor::Filter { node, child } => {
                &&& *node is Filter
                &&& child.well_formed(dataset)
                &&& child.node() == *node->Filter_child
            },
            Cursor::Extend { node, child } => {
                &&& *node is Extend
                &&& child.well_formed(dataset)
                &&& child.node() == *node->Extend_child
            },
            Cursor::Project { node, from, child } => {
                &&& *node is Project
                &&& child.well_formed(dataset)
                &&& child.node() == *node->Project_child
                &&& forall|i: int|
                    0 <= i < child.remaining(dataset).len() ==> (#[trigger] child.remaining(
                        dataset,
                    )[i]).len() == from@.len()
            },
            Cursor::Distinct { node, child, .. } => {
                &&& child.well_formed(dataset)
                &&& match *node {
                    PlanNode::Distinct { child: plan } => child.node() == *plan,
                    PlanNode::Reduced { child: plan } => child.node() == *plan,
                    _ => false,
                }
            },
            Cursor::Slice { node, child, .. } => {
                &&& *node is Slice
                &&& child.well_formed(dataset)
                &&& child.node() == *node->Slice_child
            },
        }
    }

    /// The cursor over the rows that `node` yields from `from`. Nothing is
    /// computed yet.
    pub fn new(node: &'a PlanNode, from: EncodedTuple) -> (cursor: Self)
        ensures
            cursor == (Cursor::Pending { node, from }),
            forall|dataset: Dataset| #[trigger] cursor.well_formed(dataset),
            forall|dataset: Dataset| #[trigger]
                cursor.remaining(dataset) == rows(*node, dataset, from@),
    {
        Cursor::Pending { node, from }
    }

    /// The first step of a plan: the cursor of its outermost node, over
    /// cursors of its parts that were not started.
    fn start(evaluator: &SimpleEvaluator, node: &'a PlanNode, from: EncodedTuple) -> (cursor: Self)
        ensures
            cursor.well_formed(evaluator@),
            cursor.node() == *node,
            !(cursor is Pending),
            cursor.remaining(evaluator@) == rows(*node, evaluator@, from@),
    {
        let ghost dataset = evaluator@;
        let ghost nothing = Seq::<Row>::empty();
        let ghost whole = rows(*node, dataset, from@);
        assert(nothing + whole =~= whole);
        match node {
            PlanNode::QuadPatternJoin { child: plan, .. } => {
                let child = Cursor::Pending { node: plan, from: copy_row(&from) };
                assert(child.well_formed(dataset));
                assert(child.remaining(dataset) == rows(**plan, dataset, from@));
                proof {
                    let empty = Seq::<EncodedQuad>::empty();
                    assert(empty.subrange(0, 0) =~= empty);
                    assert(scan_rest(from@, pattern_of(*node), empty, 0) =~= nothing);
                }
                Cursor::Scan { node, child: Box::new(child), row: from, quads: Vec::new(), at: 0 }
            },
            PlanNode::Join { left: plan, right: other } => {
                let left = Cursor::Pending { node: plan, from };
                let right = Cursor::Rows { node: other, rows: Vec::new(), at: 0 };
                assert(left.well_formed(dataset) && right.well_formed(dataset));
                assert(left.remaining(dataset) == rows(**plan, dataset, from@));
                assert(right.remaining(dataset) =~= nothing);
                Cursor::Join { node, left: Box::new(left), right: Box::new(right) }
            },
            PlanNode::LeftJoin { left: plan, right: other, .. } => {
                let row = copy_row(&from);
                let left = Cursor::Pending { node: plan, from };
                let right = Cursor::Rows { node: other, rows: Vec::new(), at: 0 };
                assert(left.well_formed(dataset) && right.well_formed(dataset));
                assert(left.remaining(dataset) == rows(**plan, dataset, from@));
                Cursor::LeftJoin {
                    node,
                    left: Box::new(left),
                    right: Box::new(right),
                    row,
                    matched: false,
                    active: false,
                }
            },
            PlanNode::Union { left: plan, right: other } => {
                let copy = copy_row(&from);
                let left = Cursor::Pending { node: plan, from };
                let right = Cursor::Pending { node: other, from: copy };
                assert(left.well_formed(dataset) && right.well_formed(dataset));
                assert(left.remaining(dataset) == rows(**plan, dataset, from@));
                assert(right.remaining(dataset) == rows(**other, dataset, from@));
                Cursor::Union { node, left: Box::new(left), right: Box::new(right) }
            },
            PlanNode::Minus { left: plan, right: other } => {
                let unbound = new_row(from.len());
                let rights = evaluator.eval_plan(other, &unbound);
                let left = Cursor::Pending { node: plan, from };
                assert(left.well_formed(dataset));
                assert(left.remaining(dataset) == rows(**plan, dataset, from@));
                Cursor::Minus { node, left: Box::new(left), rights }
            },
            PlanNode::Filter { child: plan, .. } => {
                let child = Cursor::Pending { node: plan, from };
                assert(child.well_formed(dataset));
                assert(child.remaining(dataset) == rows(**plan, dataset, from@));
                Cursor::Filter { node, child: Box::new(child) }
            },
            PlanNode::Extend { child: plan, .. } => {
                let child = Cursor::Pending { node: plan, from };
                assert(child.well_formed(dataset));
                assert(child.remaining(dataset) == rows(**plan, dataset, from@));
                Cursor::Extend { node, child: Box::new(child) }
            },
            PlanNode::Project { child: plan, slots } => {
                let inner = restrict_row(&from, slots);
                proof {
                    lemma_rows_extend(**plan, dataset, inner@);
                }
                let child = Cursor::Pending { node: plan, from: inner };
                assert(child.well_formed(dataset));
                assert(child.remaining(dataset) == rows(**plan, dataset, inner@));
                Cursor::Project { node, from, child: Box::new(child) }
            },
            PlanNode::Distinct { child: plan } => {
                proof {
                    lemma_fresh_rows_of_nothing(rows(**plan, dataset, from@));
                }
                let child = Cursor::Pending { node: plan, from };
                assert(child.well_formed(dataset));
                assert(child.remaining(dataset) == rows(**plan, dataset, from@));
                let seen: Vec<EncodedTuple> = Vec::new();
                assert(rows_view(seen@) =~= nothing);
                Cursor::Distinct { node, child: Box::new(child), seen }
            },
            PlanNode::Reduced { child: plan } => {
                proof {
                    lemma_fresh_rows_of_nothing(rows(**plan, dataset, from@));
                }
                let child = Cursor::Pending { node: plan, from };
                assert(child.well_formed(dataset));
                assert(child.remaining(dataset) == rows(**plan, dataset, from@));
                let seen: Vec<EncodedTuple> = Vec::new();
                assert(rows_view(seen@) =~= nothing);
                Cursor::Distinct { node, child: Box::new(child), seen }
            },
            PlanNode::Slice { child: plan, start, length } => {
                let child = Cursor::Pending { node: plan, from };
                assert(child.well_formed(dataset));
                assert(child.remaining(dataset) == rows(**plan, dataset, from@));
                Cursor::Slice { node, child: Box::new(child), skip: *start, take: *length }
            },
            _ => {
                let rows = evaluator.eval_plan(node, &from);
                assert(rows_view(rows@).skip(0) =~= rows_view(rows@));
                Cursor::Rows { node, rows, at: 0 }
            },
        }
    }

    /// Whether `out` holds the first of the remaining rows and the cursor
    /// over those after it, or no row and a cursor that has none left.
    pub open spec fn hands_out(self, out: (Option<EncodedTuple>, Self), dataset: Dataset) -> bool {
        &&& out.1.well_formed(dataset)
        &&& out.1.node() == self.node()
        &&& match out.0 {
            Some(row) => self.remaining(dataset) == cons(row@, out.1.remaining(dataset)),
            None => self.remaining(dataset).len() == 0 && out.1.remaining(dataset).len() == 0,
        }
    }

    /// The next row, if there is one, and the cursor over the rows after
    /// it. Only the work for that row is done.
    pub fn next(self, evaluator: &SimpleEvaluator) -> (out: (Option<EncodedTuple>, Self))
        requires
            self.well_formed(evaluator@),
        ensures
            self.hands_out(out, evaluator@),
        decreases
                self.node(),
                (if self is Pending {
                    1int
                } else {
                    0int
                }),
                1int,
    {
        let ghost dataset = evaluator@;
        match self {
            Cursor::Pending { node, from } => {
                let started = Cursor::start(evaluator, node, from);
                started.next(evaluator)
            },
            Cursor::Rows { node, rows, at } => {
                if at < rows.len() {
                    let row = copy_row(&rows[at]);
                    assert(rows_view(rows@).skip(at as int) =~= cons(
                        row@,
                        rows_view(rows@).skip(at + 1),
                    ));
                    (Some(row), Cursor::Rows { node, rows, at: at + 1 })
                } else {
                    (None, Cursor::Rows { node, rows, at })
                }
            },
            Cursor::Scan { node, child, row, quads, at } => Cursor::next_scan(
                node,
                child,
                row,
                quads,
                at,
                evaluator,
            ),
            Cursor::Join { node, left, right } => Cursor::next_join(node, left, right, evaluator),
            Cursor::LeftJoin { node, left, right, row, matched, active } => Cursor::next_left_join(
                node,
                left,
                right,
                row,
                matched,
                active,
                evaluator,
            ),
            Cursor::Union { node, left, right } => Cursor::next_union(
                node,
                left,
                right,
                evaluator,
            ),
            Cursor::Minus { node, left, rights } => Cursor::next_minus(
                node,
                left,
                rights,
                evaluator,
            ),
            Cursor::Filter { node, child } => Cursor::next_filter(node, child, evaluator),
            Cursor::Extend { node, child } => Cursor::next_extend(node, child, evaluator),
            Cursor::Project { node, from, child } => Cursor::next_project(
                node,
                from,
                child,
                evaluator,
            ),
            Cursor::Distinct { node, child, seen } => Cursor::next_distinct(
                node,
                child,
                seen,
                evaluator,
            ),
            Cursor::Slice { node, child, skip, take } => Cursor::next_slice(
                node,
                child,
                skip,
                take,
                evaluator,
            ),
        }
    }

    /// The next extension of a left row by a quad: of the row at hand, or
    /// of the next row of the input that has one.
    #[verifier::loop_isolation(false)]
    fn next_scan(
        node: &'a PlanNode,
        child: Box<Cursor<'a>>,
        row: EncodedTuple,
        quads: Vec<EncodedQuad>,
        at: usize,
        evaluator: &SimpleEvaluator,
    ) -> (out: (Option<EncodedTuple>, Self))
        requires
            (Cursor::Scan { node, child, row, quads, at }).well_formed(evaluator@),
        ensures
            (Cursor::Scan { node, child, row, quads, at }).hands_out(out, evaluator@),
        decreases *node, 0int, 0int,
    {
        let ghost dataset = evaluator@;
        let ghost nothing = Seq::<Row>::empty();
        let ghost pattern = pattern_of(*node);
        let ghost before = (Cursor::Scan { node, child, row, quads, at }).remaining(dataset);
        match node {
            PlanNode::QuadPatternJoin { child: plan, subject, predicate, object, graph_name } => {
                let mut input = *child;
                let mut row = row;
                let mut quads = quads;
                let mut at = at;
                loop
                    invariant
                        input.well_formed(dataset),
                        input.node() == **plan,
                        at <= quads@.len(),
                        scan_rest(row@, pattern, quads@, at as int) + scan_each(
                            input.remaining(dataset),
                            pattern,
                            dataset.quads,
                        ) == before,
                    decreases input.remaining(dataset).len(), quads@.len() - at,
                {
                    let ghost later = scan_each(input.remaining(dataset), pattern, dataset.quads);
                    if at < quads.len() {
                        let bound = bind_quad_in(
                            &row,
                            *subject,
                            *predicate,
                            *object,
                            *graph_name,
                            quads[at],
                        );
                        proof {
                            lemma_scan_rest_step(row@, pattern, quads@, at as int);
                        }
                        at = at + 1;
                        match bound {
                            Some(extended) => {
                                let ghost rest = scan_rest(row@, pattern, quads@, at as int);
                                assert(cons(extended@, rest) + later =~= cons(
                                    extended@,
                                    rest + later,
                                ));
                                return (
                                    Some(extended),
                                    Cursor::Scan { node, child: Box::new(input), row, quads, at },
                                );
                            },
                            None => {},
                        }
                    } else {
                        assert(quads@.subrange(at as int, quads@.len() as int) =~= Seq::<
                            EncodedQuad,
                        >::empty());
                        assert(scan_rest(row@, pattern, quads@, at as int) =~= nothing);
                        assert(nothing + later =~= later);
                        let ghost asked = input.remaining(dataset);
                        let pulled = input.next(evaluator);
                        match pulled.0 {
                            None => {
                                assert(asked =~= nothing);
                                assert(pulled.1.remaining(dataset) =~= nothing);
                                assert(nothing + nothing =~= nothing);
                                return (
                                    None,
                                    Cursor::Scan {
                                        node,
                                        child: Box::new(pulled.1),
                                        row,
                                        quads,
                                        at,
                                    },
                                );
                            },
                            Some(left) => {
                                let found = evaluator.matching(
                                    &left,
                                    *subject,
                                    *predicate,
                                    *object,
                                    *graph_name,
                                );
                                proof {
                                    lemma_scan_matching(left@, pattern, dataset.quads);
                                    lemma_scan_each_first(
                                        left@,
                                        pulled.1.remaining(dataset),
                                        pattern,
                                        dataset.quads,
                                    );
                                    assert(found@.subrange(0, found@.len() as int) =~= found@);
                                }
                                row = left;
                                quads = found;
                                at = 0;
                                input = pulled.1;
                            },
                        }
                    }
                }
            },
            _ => unreached(),
        }
    }

    /// The next row of the right side for the left row at hand, or for the
    /// next left row that has one.
    #[verifier::loop_isolation(false)]
    fn next_join(
        node: &'a PlanNode,
        left: Box<Cursor<'a>>,
        right: Box<Cursor<'a>>,
        evaluator: &SimpleEvaluator,
    ) -> (out: (Option<EncodedTuple>, Self))
        requires
            (Cursor::Join { node, left, right }).well_formed(evaluator@),
        ensures
            (Cursor::Join { node, left, right }).hands_out(out, evaluator@),
        decreases *node, 0int, 0int,
    {
        let ghost dataset = evaluator@;
        let ghost nothing = Seq::<Row>::empty();
        let ghost before = (Cursor::Join { node, left, right }).remaining(dataset);
        match node {
            PlanNode::Join { left: first, right: plan } => {
                let mut lefts = *left;
                let mut rights = *right;
                loop
                    invariant
                        lefts.well_formed(dataset),
                        rights.well_formed(dataset),
                        lefts.node() == **first,
                        rights.node() == **plan,
                        rights.remaining(dataset) + join_each(
                            *node,
                            dataset,
                            lefts.remaining(dataset),
                        ) == before,
                    decreases lefts.remaining(dataset).len(),
                {
                    let ghost later = join_each(*node, dataset, lefts.remaining(dataset));
                    let ghost open = rights.remaining(dataset);
                    let ghost asked = lefts.remaining(dataset);
                    let found = rights.next(evaluator);
                    match found.0 {
                        Some(row) => {
                            assert(cons(row@, found.1.remaining(dataset)) + later =~= cons(
                                row@,
                                found.1.remaining(dataset) + later,
                            ));
                            return (
                                Some(row),
                                Cursor::Join {
                                    node,
                                    left: Box::new(lefts),
                                    right: Box::new(found.1),
                                },
                            );
                        },
                        None => {},
                    }
                    assert(open =~= nothing);
                    assert(found.1.remaining(dataset) =~= nothing);
                    assert(nothing + later =~= later);
                    let pulled = lefts.next(evaluator);
                    match pulled.0 {
                        None => {
                            assert(asked =~= nothing);
                            assert(pulled.1.remaining(dataset) =~= nothing);
                            assert(join_each(*node, dataset, nothing) =~= nothing);
                            assert(nothing + nothing =~= nothing);
                            return (
                                None,
                                Cursor::Join {
                                    node,
                                    left: Box::new(pulled.1),
                                    right: Box::new(found.1),
                                },
                            );
                        },
                        Some(row) => {
                            proof {
                                lemma_join_each_first(
                                    *node,
                                    dataset,
                                    row@,
                                    pulled.1.remaining(dataset),
                                );
                            }
                            rights = Cursor::Pending { node: plan, from: row };
                            lefts = pulled.1;
                        },
                    }
                }
            },
            _ => unreached(),
        }
    }

    /// The next row of an optional join: the next match of the left row at
    /// hand, or that row itself where it has none, or what the next left
    /// row gives.
    #[verifier::loop_isolation(false)]
    fn next_left_join(
        node: &'a PlanNode,
        left: Box<Cursor<'a>>,
        right: Box<Cursor<'a>>,
        row: EncodedTuple,
        matched: bool,
        active: bool,
        evaluator: &SimpleEvaluator,
    ) -> (out: (Option<EncodedTuple>, Self))
        requires
            (Cursor::LeftJoin { node, left, right, row, matched, active }).well_formed(evaluator@),
        ensures
            (Cursor::LeftJoin { node, left, right, row, matched, active }).hands_out(
                out,
                evaluator@,
            ),
        decreases *node, 0int, 0int,
    {
        let ghost dataset = evaluator@;
        let ghost nothing = Seq::<Row>::empty();
        let ghost before = (Cursor::LeftJoin { node, left, right, row, matched, active }).remaining(
            dataset,
        );
        match node {
            PlanNode::LeftJoin { left: first, right: plan, expression } => {
                let mut lefts = *left;
                let mut rights = *right;
                let mut row = row;
                let mut matched = matched;
                let mut active = active;
                loop
                    invariant
                        lefts.well_formed(dataset),
                        rights.well_formed(dataset),
                        lefts.node() == **first,
                        rights.node() == **plan,
                        (Cursor::LeftJoin {
                            node,
                            left: Box::new(lefts),
                            right: Box::new(rights),
                            row,
                            matched,
                            active,
                        }).remaining(dataset) == before,
                    decreases
                            lefts.remaining(dataset).len(),
                            (if active {
                                rights.remaining(dataset).len() + 1
                            } else {
                                0
                            }),
                {
                    let ghost later = left_join_each(*node, dataset, lefts.remaining(dataset));
                    let ghost open = rights.remaining(dataset);
                    let ghost asked = lefts.remaining(dataset);
                    if active {
                        let found = rights.next(evaluator);
                        let ghost others = optional_matches(
                            *node,
                            dataset,
                            found.1.remaining(dataset),
                        );
                        match found.0 {
                            Some(candidate) => {
                                let keep = match expression {
                                    Some(condition) => evaluator.holds_on(condition, &candidate),
                                    None => true,
                                };
                                proof {
                                    lemma_optional_matches_first(
                                        *node,
                                        dataset,
                                        candidate@,
                                        found.1.remaining(dataset),
                                    );
                                    assert(keep == keeps(*node, dataset, candidate@));
                                }
                                if keep {
                                    proof {
                                        if others.len() == 0 {
                                            assert(others =~= nothing);
                                        }
                                        assert(cons(candidate@, others) + later =~= cons(
                                            candidate@,
                                            others + later,
                                        ));
                                    }
                                    return (
                                        Some(candidate),
                                        Cursor::LeftJoin {
                                            node,
                                            left: Box::new(lefts),
                                            right: Box::new(found.1),
                                            row,
                                            matched: true,
                                            active,
                                        },
                                    );
                                }
                                rights = found.1;
                            },
                            None => {
                                assert(open =~= nothing);
                                assert(found.1.remaining(dataset) =~= nothing);
                                assert(optional_matches(*node, dataset, nothing) =~= nothing);
                                assert(nothing + later =~= later);
                                if !matched {
                                    let kept = copy_row(&row);
                                    assert(seq![row@] + later =~= cons(kept@, later));
                                    return (
                                        Some(kept),
                                        Cursor::LeftJoin {
                                            node,
                                            left: Box::new(lefts),
                                            right: Box::new(found.1),
                                            row,
                                            matched,
                                            active: false,
                                        },
                                    );
                                }
                                rights = found.1;
                                active = false;
                            },
                        }
                    } else {
                        assert(nothing + later =~= later);
                        let pulled = lefts.next(evaluator);
                        match pulled.0 {
                            None => {
                                assert(asked =~= nothing);
                                assert(pulled.1.remaining(dataset) =~= nothing);
                                assert(left_join_each(*node, dataset, nothing) =~= nothing);
                                assert(nothing + nothing =~= nothing);
                                return (
                                    None,
                                    Cursor::LeftJoin {
                                        node,
                                        left: Box::new(pulled.1),
                                        right: Box::new(rights),
                                        row,
                                        matched,
                                        active,
                                    },
                                );
                            },
                            Some(next) => {
                                proof {
                                    lemma_left_join_each_first(
                                        *node,
                                        dataset,
                                        next@,
                                        pulled.1.remaining(dataset),
                                    );
                                }
                                rights = Cursor::Pending { node: plan, from: copy_row(&next) };
                                assert(rights.remaining(dataset) == rows(**plan, dataset, next@));
                                row = next;
                                matched = false;
                                active = true;
                                lefts = pulled.1;
                            },
                        }
                    }
                }
            },
            _ => unreached(),
        }
    }

    /// The next row of the left side, then of the right side.
    fn next_union(
        node: &'a PlanNode,
        left: Box<Cursor<'a>>,
        right: Box<Cursor<'a>>,
        evaluator: &SimpleEvaluator,
    ) -> (out: (Option<EncodedTuple>, Self))
        requires
            (Cursor::Union { node, left, right }).well_formed(evaluator@),
        ensures
            (Cursor::Union { node, left, right }).hands_out(out, evaluator@),
        decreases *node, 0int, 0int,
    {
        let ghost dataset = evaluator@;
        let ghost nothing = Seq::<Row>::empty();
        let found = Cursor::next(*left, evaluator);
        match found.0 {
            Some(row) => {
                assert(cons(row@, found.1.remaining(dataset)) + right.remaining(dataset) =~= cons(
                    row@,
                    found.1.remaining(dataset) + right.remaining(dataset),
                ));
                (Some(row), Cursor::Union { node, left: Box::new(found.1), right })
            },
            None => {
                assert(left.remaining(dataset) =~= nothing);
                assert(found.1.remaining(dataset) =~= nothing);
                assert(nothing + right.remaining(dataset) =~= right.remaining(dataset));
                let other = Cursor::next(*right, evaluator);
                assert(nothing + other.1.remaining(dataset) =~= other.1.remaining(dataset));
                (
                    other.0,
                    Cursor::Union { node, left: Box::new(found.1), right: Box::new(other.1) },
                )
            },
        }
    }

    /// The next left row that no row of the right side excludes.
    #[verifier::loop_isolation(false)]
    fn next_minus(
        node: &'a PlanNode,
        left: Box<Cursor<'a>>,
        rights: Vec<EncodedTuple>,
        evaluator: &SimpleEvaluator,
    ) -> (out: (Option<EncodedTuple>, Self))
        requires
            (Cursor::Minus { node, left, rights }).well_formed(evaluator@),
        ensures
            (Cursor::Minus { node, left, rights }).hands_out(out, evaluator@),
        decreases *node, 0int, 0int,
    {
        let ghost dataset = evaluator@;
        let ghost nothing = Seq::<Row>::empty();
        let ghost before = (Cursor::Minus { node, left, rights }).remaining(dataset);
        let mut input = *left;
        loop
            invariant
                input.well_formed(dataset),
                input.node() == left.node(),
                minus_rows(input.remaining(dataset), rows_view(rights@)) == before,
            decreases input.remaining(dataset).len(),
        {
            let ghost asked = input.remaining(dataset);
            let pulled = input.next(evaluator);
            match pulled.0 {
                None => {
                    assert(asked =~= nothing);
                    assert(pulled.1.remaining(dataset) =~= nothing);
                    assert(minus_rows(nothing, rows_view(rights@)) =~= nothing);
                    return (None, Cursor::Minus { node, left: Box::new(pulled.1), rights });
                },
                Some(row) => {
                    proof {
                        lemma_minus_rows_first(
                            row@,
                            pulled.1.remaining(dataset),
                            rows_view(rights@),
                        );
                    }
                    if !is_excluded(&row, &rights) {
                        return (
                            Some(row),
                            Cursor::Minus { node, left: Box::new(pulled.1), rights },
                        );
                    }
                    input = pulled.1;
                },
            }
        }
    }

    /// The next row of the input on which the expression holds.
    #[verifier::loop_isolation(false)]
    fn next_filter(node: &'a PlanNode, child: Box<Cursor<'a>>, evaluator: &SimpleEvaluator) -> (out:
        (Option<EncodedTuple>, Self))
        requires
            (Cursor::Filter { node, child }).well_formed(evaluator@),
        ensures
            (Cursor::Filter { node, child }).hands_out(out, evaluator@),
        decreases *node, 0int, 0int,
    {
        let ghost dataset = evaluator@;
        let ghost nothing = Seq::<Row>::empty();
        let ghost before = (Cursor::Filter { node, child }).remaining(dataset);
        match node {
            PlanNode::Filter { child: plan, expression } => {
                let mut input = *child;
                loop
                    invariant
                        input.well_formed(dataset),
                        input.node() == **plan,
                        filter_each(*node, dataset, input.remaining(dataset)) == before,
                    decreases input.remaining(dataset).len(),
                {
                    let ghost asked = input.remaining(dataset);
                    let pulled = input.next(evaluator);
                    match pulled.0 {
                        None => {
                            assert(asked =~= nothing);
                            assert(pulled.1.remaining(dataset) =~= nothing);
                            assert(filter_each(*node, dataset, nothing) =~= nothing);
                            return (None, Cursor::Filter { node, child: Box::new(pulled.1) });
                        },
                        Some(row) => {
                            proof {
                                lemma_filter_each_first(
                                    *node,
                                    dataset,
                                    row@,
                                    pulled.1.remaining(dataset),
                                );
                            }
                            if evaluator.holds_on(expression, &row) {
                                return (
                                    Some(row),
                                    Cursor::Filter { node, child: Box::new(pulled.1) },
                                );
                            }
                            input = pulled.1;
                        },
                    }
                }
            },
            _ => unreached(),
        }
    }

    /// The next row of the input after `BIND`, past those that it drops.
    #[verifier::loop_isolation(false)]
    fn next_extend(node: &'a PlanNode, child: Box<Cursor<'a>>, evaluator: &SimpleEvaluator) -> (out:
        (Option<EncodedTuple>, Self))
        requires
            (Cursor::Extend { node, child }).well_formed(evaluator@),
        ensures
            (Cursor::Extend { node, child }).hands_out(out, evaluator@),
        decreases *node, 0int, 0int,
    {
        let ghost dataset = evaluator@;
        let ghost nothing = Seq::<Row>::empty();
        let ghost before = (Cursor::Extend { node, child }).remaining(dataset);
        match node {
            PlanNode::Extend { child: plan, slot, expression } => {
                let mut input = *child;
                loop
                    invariant
                        input.well_formed(dataset),
                        input.node() == **plan,
                        extend_each(*node, dataset, input.remaining(dataset)) == before,
                    decreases input.remaining(dataset).len(),
                {
                    let ghost asked = input.remaining(dataset);
                    let pulled = input.next(evaluator);
                    match pulled.0 {
                        None => {
                            assert(asked =~= nothing);
                            assert(pulled.1.remaining(dataset) =~= nothing);
                            assert(extend_each(*node, dataset, nothing) =~= nothing);
                            return (None, Cursor::Extend { node, child: Box::new(pulled.1) });
                        },
                        Some(row) => {
                            proof {
                                lemma_extend_each_first(
                                    *node,
                                    dataset,
                                    row@,
                                    pulled.1.remaining(dataset),
                                );
                            }
                            let extended = match evaluator.eval_expression(expression, &row) {
                                Some(value) => bind_slot_in(&row, *slot, value),
                                None => Some(row),
                            };
                            match extended {
                                Some(out) => {
                                    return (
                                        Some(out),
                                        Cursor::Extend { node, child: Box::new(pulled.1) },
                                    );
                                },
                                None => {},
                            }
                            input = pulled.1;
                        },
                    }
                }
            },
            _ => unreached(),
        }
    }

    /// The next row of the input, laid over the row that the projection
    /// was started from.
    fn next_project(
        node: &'a PlanNode,
        from: EncodedTuple,
        child: Box<Cursor<'a>>,
        evaluator: &SimpleEvaluator,
    ) -> (out: (Option<EncodedTuple>, Self))
        requires
            (Cursor::Project { node, from, child }).well_formed(evaluator@),
        ensures
            (Cursor::Project { node, from, child }).hands_out(out, evaluator@),
        decreases *node, 0int, 0int,
    {
        let ghost dataset = evaluator@;
        let ghost nothing = Seq::<Row>::empty();
        let ghost input = child.remaining(dataset);
        match node {
            PlanNode::Project { slots, .. } => {
                let pulled = Cursor::next(*child, evaluator);
                match pulled.0 {
                    None => {
                        assert(input =~= nothing);
                        assert(pulled.1.remaining(dataset) =~= nothing);
                        assert(overlay_each(from@, nothing, slots@) =~= nothing);
                        (None, Cursor::Project { node, from, child: Box::new(pulled.1) })
                    },
                    Some(row) => {
                        proof {
                            let left = pulled.1.remaining(dataset);
                            lemma_overlay_each_first(from@, row@, left, slots@);
                            assert(input[0] == row@);
                            assert forall|i: int| 0 <= i < left.len() implies (
                            #[trigger] left[i]).len() == from@.len() by {
                                assert(input[i + 1] == left[i]);
                            }
                        }
                        let out = overlay_row(&from, &row, slots);
                        (Some(out), Cursor::Project { node, from, child: Box::new(pulled.1) })
                    },
                }
            },
            _ => unreached(),
        }
    }

    /// The next row of the input that was not handed out before.
    #[verifier::loop_isolation(false)]
    fn next_distinct(
        node: &'a PlanNode,
        child: Box<Cursor<'a>>,
        seen: Vec<EncodedTuple>,
        evaluator: &SimpleEvaluator,
    ) -> (out: (Option<EncodedTuple>, Self))
        requires
            (Cursor::Distinct { node, child, seen }).well_formed(evaluator@),
        ensures
            (Cursor::Distinct { node, child, seen }).hands_out(out, evaluator@),
        decreases *node, 0int, 0int,
    {
        let ghost dataset = evaluator@;
        let ghost nothing = Seq::<Row>::empty();
        let ghost before = (Cursor::Distinct { node, child, seen }).remaining(dataset);
        let mut input = *child;
        loop
            invariant
                input.well_formed(dataset),
                input.node() == child.node(),
                fresh_rows(input.remaining(dataset), rows_view(seen@)) == before,
            decreases input.remaining(dataset).len(),
        {
            let ghost asked = input.remaining(dataset);
            let pulled = input.next(evaluator);
            match pulled.0 {
                None => {
                    assert(asked =~= nothing);
                    assert(pulled.1.remaining(dataset) =~= nothing);
                    assert(fresh_rows(nothing, rows_view(seen@)) =~= nothing);
                    return (None, Cursor::Distinct { node, child: Box::new(pulled.1), seen });
                },
                Some(row) => {
                    proof {
                        lemma_fresh_rows_first(
                            row@,
                            pulled.1.remaining(dataset),
                            rows_view(seen@),
                        );
                    }
                    if !holds_row(&seen, &row) {
                        let mut seen = seen;
                        push_row(&mut seen, copy_row(&row));
                        return (
                            Some(row),
                            Cursor::Distinct { node, child: Box::new(pulled.1), seen },
                        );
                    }
                    input = pulled.1;
                },
            }
        }
    }

    /// The next row of a slice. Once the slice has handed out its rows, the
    /// input is not asked again.
    #[verifier::loop_isolation(false)]
    fn next_slice(
        node: &'a PlanNode,
        child: Box<Cursor<'a>>,
        skip: usize,
        take: Option<usize>,
        evaluator: &SimpleEvaluator,
    ) -> (out: (Option<EncodedTuple>, Self))
        requires
            (Cursor::Slice { node, child, skip, take }).well_formed(evaluator@),
        ensures
            (Cursor::Slice { node, child, skip, take }).hands_out(out, evaluator@),
        decreases *node, 0int, 0int,
    {
        let ghost dataset = evaluator@;
        let ghost nothing = Seq::<Row>::empty();
        let ghost before = (Cursor::Slice { node, child, skip, take }).remaining(dataset);
        if let Some(0) = take {
            assert(slice_rows(child.remaining(dataset), skip, take) =~= nothing);
            return (None, Cursor::Slice { node, child, skip, take });
        }
        let mut input = *child;
        let mut skip = skip;
        loop
            invariant
                input.well_formed(dataset),
                input.node() == child.node(),
                take != Some(0usize),
                slice_rows(input.remaining(dataset), skip, take) == before,
            decreases input.remaining(dataset).len(),
        {
            let ghost asked = input.remaining(dataset);
            let pulled = input.next(evaluator);
            match pulled.0 {
                None => {
                    assert(asked =~= nothing);
                    assert(pulled.1.remaining(dataset) =~= nothing);
                    assert(slice_rows(nothing, skip, take) =~= nothing);
                    return (None, Cursor::Slice { node, child: Box::new(pulled.1), skip, take });
                },
                Some(row) => {
                    proof {
                        lemma_slice_rows_first(row@, pulled.1.remaining(dataset), skip, take);
                    }
                    if skip == 0 {
                        let fewer = match take {
                            Some(count) => Some(count - 1),
                            None => None,
                        };
                        return (
                            Some(row),
                            Cursor::Slice { node, child: Box::new(pulled.1), skip, take: fewer },
                        );
                    }
                    skip = skip - 1;
                    input = pulled.1;
                },
            }
        }
    }
}

} // verus!
