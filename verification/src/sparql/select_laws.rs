use crate::model::term::QuadView;
use crate::sparql::algebra::{GraphPattern, TermOrVariable, TriplePattern};
use crate::sparql::dataset::{
    intern, lemma_encode_of_decoded, quad_of, Dataset, EncodedQuad, EncodedTerm,
};
use crate::sparql::lowering::{
    lowers, lowers_triples, pattern_state, position_state, triples_state, BuildState,
};
use crate::sparql::plan::{
    bind_quad, scan_each, scan_row, unbound_row, PatternValue, PlanNode, QuadPattern, Row,
    ServiceRequest,
};
use crate::sparql::results::decoded;
use crate::sparql::semantics::{pattern_of, rows};
use vstd::prelude::*;

verus! {

/// The plan of the pattern `s p ?o` over the default graph, for the
/// surrogates of `s` and `p`, with `?o` at slot 0.
pub open spec fn objects_of(subject: EncodedTerm, predicate: EncodedTerm) -> PlanNode {
    PlanNode::QuadPatternJoin {
        child: Box::new(PlanNode::Init),
        subject: PatternValue::Constant(subject),
        predicate: PatternValue::Constant(predicate),
        object: PatternValue::Variable(0),
        graph_name: PatternValue::Constant(EncodedTerm::DefaultGraph),
    }
}

proof fn lemma_scan_row_holds(row: Row, pattern: QuadPattern, quads: Seq<EncodedQuad>, k: int)
    requires
        0 <= k < quads.len(),
        bind_quad(row, pattern, quads[k]) is Some,
    ensures
        scan_row(row, pattern, quads).contains(bind_quad(row, pattern, quads[k])->0),
    decreases quads.len(),
{
    let rest = scan_row(row, pattern, quads.drop_last());
    let out = scan_row(row, pattern, quads);
    let wanted = bind_quad(row, pattern, quads[k])->0;
    if k == quads.len() - 1 {
        assert(out[rest.len() as int] == wanted);
    } else {
        assert(quads.drop_last()[k] == quads[k]);
        lemma_scan_row_holds(row, pattern, quads.drop_last(), k);
        let at = choose|at: int| 0 <= at < rest.len() && rest[at] == wanted;
        assert(out[at] == wanted);
    }
}

/// A term that a dataset holds as the object of a quad of the default
/// graph comes back from the query for the objects of its subject and
/// predicate: the plan yields a solution that binds the variable to the
/// surrogate of the object, and that solution decodes to the object.
pub proof fn lemma_object_is_selected(dataset: Dataset, k: int, quad: QuadView, width: nat)
    requires
        0 <= k < dataset.quads.len(),
        quad_of(dataset.strings, dataset.quads[k]) == Some(quad),
        dataset.quads[k].graph_name == EncodedTerm::DefaultGraph,
        width >= 1,
    ensures
        rows(
            objects_of(dataset.quads[k].subject, dataset.quads[k].predicate),
            dataset,
            unbound_row(width),
        ).contains(unbound_row(width).update(0, Some(dataset.quads[k].object))),
        decoded(
            dataset.strings,
            unbound_row(width).update(0, Some(dataset.quads[k].object)),
            0,
        ) == Some(quad.object),
{
    let found = dataset.quads[k];
    let node = objects_of(found.subject, found.predicate);
    let from = unbound_row(width);
    let pattern = pattern_of(node);
    let wanted = from.update(0, Some(found.object));
    assert(bind_quad(from, pattern, found) == Some(wanted));
    lemma_scan_row_holds(from, pattern, dataset.quads, k);
    let first = seq![from];
    assert(first.drop_last() =~= Seq::<Row>::empty());
    assert(scan_each(Seq::<Row>::empty(), pattern, dataset.quads) =~= Seq::<Row>::empty());
    assert(scan_each(first, pattern, dataset.quads) =~= scan_row(from, pattern, dataset.quads));
    assert(rows(PlanNode::Init, dataset, from) == first);
    assert(rows(node, dataset, from) == scan_each(
        rows(PlanNode::Init, dataset, from),
        pattern,
        dataset.quads,
    ));
}

/// A term that a dataset holds as the object of a quad of the default
/// graph comes back from a query that asks for the objects of its subject
/// and predicate: the pattern `s p ?o`, with the terms of the quad as `s`
/// and `p`, is lowered to the plan of `objects_of` over the surrogates of
/// the quad, lowering leaves the store as it is, and the plan yields a
/// solution that decodes to the object.
pub proof fn lemma_lowered_pattern_selects_object(
    dataset: Dataset,
    k: int,
    quad: QuadView,
    patterns: Vec<TriplePattern>,
    plan: PlanNode,
    services: Seq<ServiceRequest>,
)
    requires
        dataset.well_formed(),
        0 <= k < dataset.quads.len(),
        quad_of(dataset.strings, dataset.quads[k]) == Some(quad),
        dataset.quads[k].graph_name == EncodedTerm::DefaultGraph,
        patterns@.len() == 1,
        patterns@[0].subject matches TermOrVariable::Term(subject) && subject@ == quad.subject,
        patterns@[0].predicate matches TermOrVariable::Term(predicate) && predicate@
            == quad.predicate,
        patterns@[0].object is Variable,
        lowers(
            GraphPattern::Bgp(patterns),
            plan,
            BuildState { variables: Seq::empty(), strings: dataset.strings, services: 0 },
            PatternValue::Constant(EncodedTerm::DefaultGraph),
            services,
        ),
    ensures
        plan == objects_of(dataset.quads[k].subject, dataset.quads[k].predicate),
        pattern_state(
            GraphPattern::Bgp(patterns),
            BuildState { variables: Seq::empty(), strings: dataset.strings, services: 0 },
        ).strings == dataset.strings,
        rows(plan, dataset, unbound_row(1)).contains(
            unbound_row(1).update(0, Some(dataset.quads[k].object)),
        ),
        decoded(dataset.strings, unbound_row(1).update(0, Some(dataset.quads[k].object)), 0)
            == Some(quad.object),
{
    let found = dataset.quads[k];
    let strings = dataset.strings;
    let start = BuildState { variables: Seq::empty(), strings, services: 0 };
    let triple = patterns@[0];
    lemma_encode_of_decoded(strings, found.subject, quad.subject);
    lemma_encode_of_decoded(strings, found.predicate, quad.predicate);
    assert(triples_state(patterns@, 0, start) == start);
    let s1 = position_state(triple.subject, start);
    assert(s1 == start);
    let s2 = position_state(triple.predicate, s1);
    assert(s2 == start);
    let name = triple.object->Variable_0@;
    let table = intern(Seq::<Seq<char>>::empty(), name);
    assert(table =~= seq![name]);
    assert(table.index_of(name) == 0) by {
        assert(table[0] == name);
        let at = table.index_of(name);
        assert(0 <= at < table.len() && table[at] == name);
    }
    assert(lowers_triples(
        patterns@,
        1,
        plan,
        start,
        PatternValue::Constant(EncodedTerm::DefaultGraph),
    ));
    let child = *plan->QuadPatternJoin_child;
    assert(lowers_triples(
        patterns@,
        0,
        child,
        start,
        PatternValue::Constant(EncodedTerm::DefaultGraph),
    ));
    assert(child is Init);
    assert(plan == objects_of(found.subject, found.predicate));
    lemma_object_is_selected(dataset, k, quad, 1);
    assert(triples_state(patterns@, 1, start).strings == strings);
}

} // verus!
