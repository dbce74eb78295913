use crate::model::term::Variable;
use crate::sparql::algebra::{Aggregation, GraphPattern, TermOrVariable, TriplePattern};
use crate::sparql::algebra_view::{
    aggregations_view, lemma_group_view, pattern_view, triples_view, variables_view,
    AggregationView, GraphPatternView, TermOrVariableView, TriplePatternView,
};
use crate::sparql::dataset::intern;
use crate::sparql::lowering::{
    aggregate_names, listed_names, names_of, pattern_names, position_names, triples_names,
};
use crate::sparql::plan_builder::collect_pattern;
use vstd::prelude::*;

verus! {

/// Whether a text is the label of a blank node: `_:` and a name. In a
/// pattern a blank node stands for some term, as a variable does; its
/// label, with `_:`, is the name of that variable, which no variable that a
/// query text writes with `?` or `$` can have.
pub open spec fn is_blank_label(text: Seq<char>) -> bool {
    text.len() > 2 && text[0] == '_' && text[1] == ':'
}

/// The variable table after a pattern position was met.
pub open spec fn position_view_names(position: TermOrVariableView, names: Seq<Seq<char>>) -> Seq<
    Seq<char>,
> {
    match position {
        TermOrVariableView::Term(_) => names,
        TermOrVariableView::Variable(name) => intern(names, name),
    }
}

/// The variable table after the first `n` triple patterns were met.
pub open spec fn triples_view_names(
    triples: Seq<TriplePatternView>,
    n: int,
    names: Seq<Seq<char>>,
) -> Seq<Seq<char>>
    decreases n,
{
    if n <= 0 || n > triples.len() {
        names
    } else {
        position_view_names(
            triples[n - 1].object,
            position_view_names(
                triples[n - 1].predicate,
                position_view_names(
                    triples[n - 1].subject,
                    triples_view_names(triples, n - 1, names),
                ),
            ),
        )
    }
}

/// The variable table after the first `n` of the listed names were met.
pub open spec fn listed_view_names(listed: Seq<Seq<char>>, n: int, names: Seq<Seq<char>>) -> Seq<
    Seq<char>,
>
    decreases n,
{
    if n <= 0 || n > listed.len() {
        names
    } else {
        intern(listed_view_names(listed, n - 1, names), listed[n - 1])
    }
}

/// The variable table after the result variables of the first `n`
/// aggregates were met.
pub open spec fn aggregate_view_names(
    aggregates: Seq<(AggregationView, Seq<char>)>,
    n: int,
    names: Seq<Seq<char>>,
) -> Seq<Seq<char>>
    decreases n,
{
    if n <= 0 || n > aggregates.len() {
        names
    } else {
        intern(aggregate_view_names(aggregates, n - 1, names), aggregates[n - 1].1)
    }
}

/// The variable table after the variables that a pattern can bind were met,
/// in the order of a depth-first walk: those of its triple patterns and
/// graph names, and those that `BIND`, `GROUP` and a projection let out.
pub open spec fn view_names(pattern: GraphPatternView, names: Seq<Seq<char>>) -> Seq<Seq<char>>
    decreases pattern,
{
    match pattern {
        GraphPatternView::Bgp(triples) => triples_view_names(triples, triples.len() as int, names),
        GraphPatternView::Join(left, right) => view_names(*right, view_names(*left, names)),
        GraphPatternView::LeftJoin(left, right, _) => view_names(*right, view_names(*left, names)),
        GraphPatternView::Filter(_, inner) => view_names(*inner, names),
        GraphPatternView::Union(left, right) => view_names(*right, view_names(*left, names)),
        GraphPatternView::Graph(name, inner) => view_names(
            *inner,
            position_view_names(name, names),
        ),
        GraphPatternView::Extend(inner, variable, _) => intern(view_names(*inner, names), variable),
        GraphPatternView::Minus(left, _) => view_names(*left, names),
        GraphPatternView::Service(_, inner, _) => view_names(*inner, names),
        GraphPatternView::Group(_, keys, aggregates) => aggregate_view_names(
            aggregates,
            aggregates.len() as int,
            listed_view_names(keys, keys.len() as int, names),
        ),
        GraphPatternView::Project(_, variables) => listed_view_names(
            variables,
            variables.len() as int,
            names,
        ),
        GraphPatternView::Distinct(inner) => view_names(*inner, names),
        GraphPatternView::Reduced(inner) => view_names(*inner, names),
        GraphPatternView::OrderBy(inner, _) => view_names(*inner, names),
        GraphPatternView::Slice(inner, _, _) => view_names(*inner, names),
    }
}

/// The names among the first `n` that are no blank node labels, in order.
pub open spec fn visible_names(names: Seq<Seq<char>>, n: int) -> Seq<Seq<char>>
    decreases n,
{
    if n <= 0 || n > names.len() {
        Seq::empty()
    } else {
        let rest = visible_names(names, n - 1);
        if is_blank_label(names[n - 1]) {
            rest
        } else {
            rest.push(names[n - 1])
        }
    }
}

/// The variables that a pattern lets out where every variable is asked
/// for: those that it can bind, without the blank node labels.
pub open spec fn shown_names(pattern: GraphPatternView) -> Seq<Seq<char>> {
    let names = view_names(pattern, Seq::empty());
    visible_names(names, names.len() as int)
}

/// Whether a pattern holds a blank node label among the variables that it
/// can bind.
pub open spec fn hides_names(pattern: GraphPatternView) -> bool {
    shown_names(pattern).len() < view_names(pattern, Seq::empty()).len()
}

proof fn lemma_position_names(position: TermOrVariable, names: Seq<Seq<char>>)
    ensures
        position_view_names(position@, names) == position_names(position, names),
{
}

proof fn lemma_triples_names(triples: Seq<TriplePattern>, n: int, names: Seq<Seq<char>>)
    ensures
        triples_view_names(triples_view(triples), n, names) == triples_names(triples, n, names),
    decreases n,
{
    if 0 < n <= triples.len() {
        lemma_triples_names(triples, n - 1, names);
        let before = triples_names(triples, n - 1, names);
        let triple = triples[n - 1];
        assert(triples_view(triples)[n - 1] == triple@);
        lemma_position_names(triple.subject, before);
        let s1 = position_names(triple.subject, before);
        lemma_position_names(triple.predicate, s1);
        lemma_position_names(triple.object, position_names(triple.predicate, s1));
    }
}

proof fn lemma_listed_names(listed: Seq<Variable>, n: int, names: Seq<Seq<char>>)
    ensures
        listed_view_names(variables_view(listed), n, names) == listed_names(listed, n, names),
    decreases n,
{
    if 0 < n <= listed.len() {
        lemma_listed_names(listed, n - 1, names);
        assert(variables_view(listed)[n - 1] == listed[n - 1]@);
    }
}

proof fn lemma_aggregate_names(
    aggregates: Seq<(Aggregation, Variable)>,
    n: int,
    names: Seq<Seq<char>>,
)
    ensures
        aggregate_view_names(aggregations_view(aggregates), n, names) == aggregate_names(
            aggregates,
            n,
            names,
        ),
    decreases n,
{
    if 0 < n <= aggregates.len() {
        lemma_aggregate_names(aggregates, n - 1, names);
        assert(aggregations_view(aggregates)[n - 1].1 == aggregates[n - 1].1@);
    }
}

/// The variables of the view of a pattern are those of the pattern.
pub proof fn lemma_view_names(pattern: GraphPattern, names: Seq<Seq<char>>)
    ensures
        view_names(pattern_view(pattern), names) == pattern_names(pattern, names),
    decreases pattern,
{
    match pattern {
        GraphPattern::Bgp(triples) => {
            lemma_triples_names(triples@, triples.len() as int, names);
        },
        GraphPattern::Join(left, right) => {
            lemma_view_names(*left, names);
            lemma_view_names(*right, pattern_names(*left, names));
        },
        GraphPattern::LeftJoin(left, right, _) => {
            lemma_view_names(*left, names);
            lemma_view_names(*right, pattern_names(*left, names));
        },
        GraphPattern::Filter(_, inner) => {
            lemma_view_names(*inner, names);
        },
        GraphPattern::Union(left, right) => {
            lemma_view_names(*left, names);
            lemma_view_names(*right, pattern_names(*left, names));
        },
        GraphPattern::Graph(name, inner) => {
            lemma_position_names(name, names);
            lemma_view_names(*inner, position_names(name, names));
        },
        GraphPattern::Extend(inner, _, _) => {
            lemma_view_names(*inner, names);
        },
        GraphPattern::Minus(left, _) => {
            lemma_view_names(*left, names);
        },
        GraphPattern::Service(_, inner, _) => {
            lemma_view_names(*inner, names);
        },
        GraphPattern::Group(inner, keys, aggregates) => {
            lemma_group_view(*inner, keys, aggregates);
            lemma_listed_names(keys@, keys.len() as int, names);
            lemma_aggregate_names(
                aggregates@,
                aggregates.len() as int,
                listed_names(keys@, keys.len() as int, names),
            );
        },
        GraphPattern::Project(_, variables) => {
            lemma_listed_names(variables@, variables.len() as int, names);
        },
        GraphPattern::Distinct(inner) => {
            lemma_view_names(*inner, names);
        },
        GraphPattern::Reduced(inner) => {
            lemma_view_names(*inner, names);
        },
        GraphPattern::OrderBy(inner, _) => {
            lemma_view_names(*inner, names);
        },
        GraphPattern::Slice(inner, _, _) => {
            lemma_view_names(*inner, names);
        },
    }
}

/// Whether a variable is a blank node label.
pub fn is_blank_label_of(variable: &Variable) -> (blank: bool)
    ensures
        blank == is_blank_label(variable@),
{
    let name = variable.name();
    name.unicode_len() > 2 && name.get_char(0) == '_' && name.get_char(1) == ':'
}

/// The variables that a pattern lets out where every variable is asked
/// for, and whether it holds others.
pub fn shown_variables(pattern: &GraphPattern) -> (out: (Vec<Variable>, bool))
    ensures
        variables_view(out.0@) == shown_names(pattern_view(*pattern)),
        out.1 == hides_names(pattern_view(*pattern)),
{
    let mut table: Vec<Variable> = Vec::new();
    assert(names_of(table@) =~= Seq::<Seq<char>>::empty());
    collect_pattern(&mut table, pattern);
    proof {
        lemma_view_names(*pattern, Seq::empty());
    }
    let ghost names = names_of(table@);
    let mut shown: Vec<Variable> = Vec::new();
    let mut i: usize = 0;
    assert(variables_view(shown@) =~= visible_names(names, 0));
    while i < table.len()
        invariant
            i <= table@.len(),
            names == names_of(table@),
            shown@.len() <= i,
            variables_view(shown@) == visible_names(names, i as int),
        decreases table@.len() - i,
    {
        let ghost before = variables_view(shown@);
        if !is_blank_label_of(&table[i]) {
            shown.push(table[i].clone());
            assert(variables_view(shown@) =~= before.push(names[i as int]));
        }
        i = i + 1;
    }
    let hides = shown.len() < table.len();
    assert(variables_view(shown@).len() == shown@.len());
    (shown, hides)
}

} // verus!
