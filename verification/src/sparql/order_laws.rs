use crate::model::term::TermView;
use crate::sparql::dataset::{
    is_canonical, lemma_xsd_names_differ, term_of, xsd_boolean, xsd_integer, Dataset, EncodedTerm,
};
use crate::sparql::numeric::{int_text, is_canonical_integer, lemma_int_text_injective};
use crate::sparql::plan::{PlanNode, Row};
use crate::sparql::semantics::{
    eval_expression, insert_sorted, pair_precedes, row_precedes, rows, slot_precedes, sort_rows,
    text_at,
};
use crate::sparql::text::{text_precedes, text_precedes_from};
use vstd::prelude::*;

verus! {

/// Whether two texts hold the same characters before position `i`.
pub open spec fn agree_before(a: Seq<char>, b: Seq<char>, i: int) -> bool {
    i <= a.len() && i <= b.len() && forall|k: int| 0 <= k < i ==> a[k] == b[k]
}

proof fn lemma_text_transitive_from(a: Seq<char>, b: Seq<char>, c: Seq<char>, i: int)
    requires
        0 <= i,
        text_precedes_from(a, b, i),
        text_precedes_from(b, c, i),
    ensures
        text_precedes_from(a, c, i),
    decreases a.len() - i,
{
    if i < a.len() && i < b.len() && i < c.len() && a[i] == b[i] && b[i] == c[i] {
        lemma_text_transitive_from(a, b, c, i + 1);
    }
}

proof fn lemma_text_asymmetric_from(a: Seq<char>, b: Seq<char>, i: int)
    requires
        0 <= i,
        text_precedes_from(a, b, i),
    ensures
        !text_precedes_from(b, a, i),
    decreases a.len() - i,
{
    if i < a.len() && i < b.len() && a[i] == b[i] {
        lemma_text_asymmetric_from(a, b, i + 1);
    }
}

proof fn lemma_text_total_from(a: Seq<char>, b: Seq<char>, i: int)
    requires
        0 <= i,
        agree_before(a, b, i),
        !text_precedes_from(a, b, i),
        !text_precedes_from(b, a, i),
    ensures
        a == b,
    decreases a.len() - i,
{
    if i < a.len() && i < b.len() {
        assert(a[i] == b[i]);
        lemma_text_total_from(a, b, i + 1);
    } else {
        assert(a =~= b);
    }
}

/// The order of texts is a strict total order: no text comes before
/// itself, the order passes through a third text, and of two texts that
/// differ one comes before the other.
pub proof fn lemma_text_order(a: Seq<char>, b: Seq<char>, c: Seq<char>)
    ensures
        text_precedes(a, b) ==> !text_precedes(b, a),
        text_precedes(a, b) && text_precedes(b, c) ==> text_precedes(a, c),
        !text_precedes(a, b) && !text_precedes(b, a) ==> a == b,
{
    if text_precedes(a, b) {
        lemma_text_asymmetric_from(a, b, 0);
        if text_precedes(b, c) {
            lemma_text_transitive_from(a, b, c, 0);
        }
    }
    if !text_precedes(a, b) && !text_precedes(b, a) {
        lemma_text_total_from(a, b, 0);
    }
}

/// What a slot is ordered by: the place of its kind, a number, and two
/// texts.
pub struct OrderKey {
    pub kind: int,
    pub number: int,
    pub first: Seq<char>,
    pub second: Seq<char>,
}

/// The key of a slot in the order of `ORDER BY`.
pub open spec fn order_key(strings: Seq<Seq<char>>, slot: Option<EncodedTerm>) -> OrderKey {
    let none = Seq::<char>::empty();
    match slot {
        None => OrderKey { kind: 0, number: 0, first: none, second: none },
        Some(EncodedTerm::BlankNode { id }) => OrderKey {
            kind: 1,
            number: id as int,
            first: none,
            second: none,
        },
        Some(EncodedTerm::NamedNode { iri_id }) => OrderKey {
            kind: 2,
            number: 0,
            first: text_at(strings, iri_id),
            second: none,
        },
        Some(EncodedTerm::StringLiteral { value_id }) => OrderKey {
            kind: 3,
            number: 0,
            first: text_at(strings, value_id),
            second: none,
        },
        Some(EncodedTerm::LangStringLiteral { value_id, language_id }) => OrderKey {
            kind: 4,
            number: 0,
            first: text_at(strings, value_id),
            second: text_at(strings, language_id),
        },
        Some(EncodedTerm::TypedLiteral { value_id, datatype_id }) => OrderKey {
            kind: 5,
            number: 0,
            first: text_at(strings, value_id),
            second: text_at(strings, datatype_id),
        },
        Some(EncodedTerm::BooleanLiteral(b)) => OrderKey {
            kind: 6,
            number: if b {
                1
            } else {
                0
            },
            first: none,
            second: none,
        },
        Some(EncodedTerm::IntegerLiteral(n)) => OrderKey {
            kind: 7,
            number: n as int,
            first: none,
            second: none,
        },
        Some(EncodedTerm::DefaultGraph) => OrderKey { kind: 8, number: 0, first: none, second: none },
    }
}

/// Whether key `a` comes before key `b`: by kind, then by number, then by
/// the first text, then by the second.
pub open spec fn key_precedes(a: OrderKey, b: OrderKey) -> bool {
    if a.kind != b.kind {
        a.kind < b.kind
    } else if a.number != b.number {
        a.number < b.number
    } else {
        pair_precedes(a.first, a.second, b.first, b.second)
    }
}

/// A slot comes before another exactly when its key does.
pub proof fn lemma_slot_order_is_key_order(
    strings: Seq<Seq<char>>,
    a: Option<EncodedTerm>,
    b: Option<EncodedTerm>,
)
    ensures
        slot_precedes(strings, a, b) == key_precedes(order_key(strings, a), order_key(strings, b)),
{
    let none = Seq::<char>::empty();
    assert(!text_precedes(none, none));
    let ka = order_key(strings, a);
    let kb = order_key(strings, b);
    lemma_text_order(ka.first, kb.first, ka.first);
    lemma_text_order(ka.second, kb.second, ka.second);
    if ka.kind == kb.kind && (ka.kind == 2 || ka.kind == 3) {
        assert(pair_precedes(ka.first, none, kb.first, none) == text_precedes(ka.first, kb.first));
    }
}

/// The order of keys is a strict weak order: a key that comes before
/// another does not come after it, and a key that comes before one of two
/// keys comes before the other unless that one comes first.
pub proof fn lemma_key_order(x: OrderKey, a: OrderKey, b: OrderKey)
    ensures
        key_precedes(x, a) ==> !key_precedes(a, x),
        key_precedes(x, a) && !key_precedes(b, a) ==> key_precedes(x, b),
{
    lemma_text_order(x.first, a.first, b.first);
    lemma_text_order(a.first, x.first, b.first);
    lemma_text_order(x.second, a.second, b.second);
    lemma_text_order(a.second, x.second, b.second);
    lemma_text_order(b.first, a.first, x.first);
    lemma_text_order(b.second, a.second, x.second);
    lemma_text_order(a.first, b.first, x.first);
    lemma_text_order(a.second, b.second, x.second);
    lemma_text_order(x.first, b.first, a.first);
    lemma_text_order(x.second, b.second, a.second);
}

/// The order of slots is a strict weak order.
pub proof fn lemma_slot_order(
    strings: Seq<Seq<char>>,
    x: Option<EncodedTerm>,
    a: Option<EncodedTerm>,
    b: Option<EncodedTerm>,
)
    ensures
        slot_precedes(strings, x, a) ==> !slot_precedes(strings, a, x),
        slot_precedes(strings, x, a) && !slot_precedes(strings, b, a) ==> slot_precedes(
            strings,
            x,
            b,
        ),
{
    lemma_slot_order_is_key_order(strings, x, a);
    lemma_slot_order_is_key_order(strings, a, x);
    lemma_slot_order_is_key_order(strings, b, a);
    lemma_slot_order_is_key_order(strings, x, b);
    lemma_key_order(order_key(strings, x), order_key(strings, a), order_key(strings, b));
}

/// The order of rows by the sort keys of a `Sort` is a strict weak order,
/// from every key on.
pub proof fn lemma_row_order(node: PlanNode, dataset: Dataset, x: Row, a: Row, b: Row, j: int)
    requires
        0 <= j,
    ensures
        row_precedes(node, dataset, x, a, j) ==> !row_precedes(node, dataset, a, x, j),
        row_precedes(node, dataset, x, a, j) && !row_precedes(node, dataset, b, a, j)
            ==> row_precedes(node, dataset, x, b, j),
    decreases node->Sort_by.len() - j,
{
    match node {
        PlanNode::Sort { by, .. } => {
            if j < by.len() {
                let kx = eval_expression(by[j].expression, dataset, x);
                let ka = eval_expression(by[j].expression, dataset, a);
                let kb = eval_expression(by[j].expression, dataset, b);
                let s = dataset.strings;
                lemma_slot_order(s, kx, ka, kb);
                lemma_slot_order(s, ka, kx, kb);
                lemma_slot_order(s, kb, ka, kx);
                lemma_slot_order(s, ka, kb, kx);
                lemma_slot_order(s, kx, kb, ka);
                lemma_slot_order(s, kb, kx, ka);
                lemma_row_order(node, dataset, x, a, b, j + 1);
            }
        },
        _ => {},
    }
}

/// Whether no row of `sorted` sorts before a row that stands before it.
pub open spec fn is_sorted(node: PlanNode, dataset: Dataset, sorted: Seq<Row>) -> bool {
    forall|i: int, k: int|
        0 <= i < k < sorted.len() ==> !row_precedes(
            node,
            dataset,
            #[trigger] sorted[k],
            #[trigger] sorted[i],
            0,
        )
}

#[verifier::rlimit(40)]
proof fn lemma_insert_sorted(node: PlanNode, dataset: Dataset, sorted: Seq<Row>, row: Row)
    requires
        is_sorted(node, dataset, sorted),
    ensures
        is_sorted(node, dataset, insert_sorted(node, dataset, sorted, row)),
        insert_sorted(node, dataset, sorted, row).to_multiset() == sorted.to_multiset().insert(
            row,
        ),
        forall|other: Row|
            (forall|i: int|
                0 <= i < sorted.len() ==> !row_precedes(
                    node,
                    dataset,
                    #[trigger] sorted[i],
                    other,
                    0,
                )) && !row_precedes(node, dataset, row, other, 0) ==> forall|i: int|
                0 <= i < insert_sorted(node, dataset, sorted, row).len() ==> !row_precedes(
                    node,
                    dataset,
                    #[trigger] insert_sorted(node, dataset, sorted, row)[i],
                    other,
                    0,
                ),
    decreases sorted.len(),
{
    broadcast use vstd::seq_lib::group_to_multiset_ensures;

    let out = insert_sorted(node, dataset, sorted, row);
    if sorted.len() == 0 {
        assert(sorted =~= Seq::<Row>::empty());
        assert(out =~= sorted.push(row));
    } else if row_precedes(node, dataset, row, sorted.last(), 0) {
        let head = sorted.drop_last();
        let last = sorted.last();
        assert forall|i: int, k: int| 0 <= i < k < head.len() implies !row_precedes(
            node,
            dataset,
            #[trigger] head[k],
            #[trigger] head[i],
            0,
        ) by {
            assert(head[k] == sorted[k] && head[i] == sorted[i]);
        }
        lemma_insert_sorted(node, dataset, head, row);
        let inner = insert_sorted(node, dataset, head, row);
        assert(out == inner.push(last));
        assert(sorted =~= head.push(last));
        assert(out.to_multiset() =~= sorted.to_multiset().insert(row));
        lemma_row_order(node, dataset, row, last, row, 0);
        assert forall|i: int| 0 <= i < head.len() implies !row_precedes(
            node,
            dataset,
            last,
            #[trigger] head[i],
            0,
        ) by {
            assert(head[i] == sorted[i]);
            assert(last == sorted[sorted.len() - 1]);
        }
        assert forall|i: int| 0 <= i < inner.len() implies !row_precedes(
            node,
            dataset,
            last,
            #[trigger] inner[i],
            0,
        ) by {
            lemma_last_stays_last(node, dataset, head, row, last, i);
        }
        assert forall|i: int, k: int| 0 <= i < k < out.len() implies !row_precedes(
            node,
            dataset,
            #[trigger] out[k],
            #[trigger] out[i],
            0,
        ) by {
            if k < inner.len() {
                assert(out[k] == inner[k] && out[i] == inner[i]);
            } else {
                assert(out[k] == last && out[i] == inner[i]);
            }
        }
    } else {
        assert(out == sorted.push(row));
        assert forall|i: int| 0 <= i < sorted.len() implies !row_precedes(
            node,
            dataset,
            row,
            #[trigger] sorted[i],
            0,
        ) by {
            if i < sorted.len() - 1 {
                assert(!row_precedes(node, dataset, sorted[sorted.len() - 1], sorted[i], 0));
                lemma_row_order(node, dataset, row, sorted[i], sorted.last(), 0);
            }
        }
        assert forall|i: int, k: int| 0 <= i < k < out.len() implies !row_precedes(
            node,
            dataset,
            #[trigger] out[k],
            #[trigger] out[i],
            0,
        ) by {
            if k < sorted.len() {
                assert(out[k] == sorted[k] && out[i] == sorted[i]);
            } else {
                assert(out[k] == row && out[i] == sorted[i]);
            }
        }
    }
    assert forall|other: Row|
        (forall|i: int|
            0 <= i < sorted.len() ==> !row_precedes(node, dataset, #[trigger] sorted[i], other, 0))
            && !row_precedes(node, dataset, row, other, 0) implies forall|i: int|
        0 <= i < out.len() ==> !row_precedes(node, dataset, #[trigger] out[i], other, 0) by {
        assert forall|i: int| 0 <= i < out.len() implies !row_precedes(
            node,
            dataset,
            #[trigger] out[i],
            other,
            0,
        ) by {
            lemma_insert_sorted_members(node, dataset, sorted, row, i);
            if out[i] != row {
                let k = choose|k: int| 0 <= k < sorted.len() && sorted[k] == out[i];
                assert(!row_precedes(node, dataset, sorted[k], other, 0));
            }
        }
    }
}

/// Every row of `insert_sorted` is `row` or a row of `sorted`.
proof fn lemma_insert_sorted_members(
    node: PlanNode,
    dataset: Dataset,
    sorted: Seq<Row>,
    row: Row,
    i: int,
)
    requires
        0 <= i < insert_sorted(node, dataset, sorted, row).len(),
    ensures
        insert_sorted(node, dataset, sorted, row)[i] == row || exists|k: int|
            0 <= k < sorted.len() && sorted[k] == insert_sorted(node, dataset, sorted, row)[i],
    decreases sorted.len(),
{
    let out = insert_sorted(node, dataset, sorted, row);
    if sorted.len() == 0 {
    } else if row_precedes(node, dataset, row, sorted.last(), 0) {
        let head = sorted.drop_last();
        let inner = insert_sorted(node, dataset, head, row);
        if i < inner.len() {
            lemma_insert_sorted_members(node, dataset, head, row, i);
            if inner[i] != row {
                let k = choose|k: int| 0 <= k < head.len() && head[k] == inner[i];
                assert(sorted[k] == out[i]);
            }
        } else {
            assert(sorted[sorted.len() - 1] == out[i]);
        }
    } else {
        if i < sorted.len() {
            assert(sorted[i] == out[i]);
        }
    }
}

proof fn lemma_last_stays_last(
    node: PlanNode,
    dataset: Dataset,
    head: Seq<Row>,
    row: Row,
    last: Row,
    i: int,
)
    requires
        row_precedes(node, dataset, row, last, 0),
        forall|k: int| 0 <= k < head.len() ==> !row_precedes(node, dataset, last, #[trigger] head[k], 0),
        0 <= i < insert_sorted(node, dataset, head, row).len(),
    ensures
        !row_precedes(node, dataset, last, insert_sorted(node, dataset, head, row)[i], 0),
{
    let inner = insert_sorted(node, dataset, head, row);
    lemma_insert_sorted_members(node, dataset, head, row, i);
    if inner[i] == row {
        lemma_row_order(node, dataset, row, last, row, 0);
    } else {
        let k = choose|k: int| 0 <= k < head.len() && head[k] == inner[i];
        assert(!row_precedes(node, dataset, last, head[k], 0));
    }
}

/// `ORDER BY` yields the rows of its input, each as often as the input
/// holds it, and no row of its output sorts before a row that stands before
/// it.
pub proof fn lemma_sort_rows(node: PlanNode, dataset: Dataset, input: Seq<Row>)
    ensures
        is_sorted(node, dataset, sort_rows(node, dataset, input)),
        sort_rows(node, dataset, input).to_multiset() == input.to_multiset(),
    decreases input.len(),
{
    broadcast use vstd::seq_lib::group_to_multiset_ensures;

    if input.len() > 0 {
        lemma_sort_rows(node, dataset, input.drop_last());
        lemma_insert_sorted(
            node,
            dataset,
            sort_rows(node, dataset, input.drop_last()),
            input.last(),
        );
        assert(input =~= input.drop_last().push(input.last()));
    } else {
        assert(input =~= Seq::<Row>::empty());
        assert(sort_rows(node, dataset, input) =~= Seq::<Row>::empty());
    }
}

/// What a `Sort` node yields is sorted by its keys, and holds the rows of
/// its child, each as often as the child yields it.
pub proof fn lemma_sort_plan(node: PlanNode, dataset: Dataset, from: Row)
    requires
        node is Sort,
    ensures
        is_sorted(node, dataset, rows(node, dataset, from)),
        rows(node, dataset, from).to_multiset() == rows(
            *node->Sort_child,
            dataset,
            from,
        ).to_multiset(),
{
    lemma_sort_rows(node, dataset, rows(*node->Sort_child, dataset, from));
}

/// The key of a term in the order of `ORDER BY`: unbound, then blank nodes
/// by identifier, then IRIs by text, then plain strings by text, then
/// language-tagged strings by text and tag, then other typed literals by
/// lexical form and datatype, then `false` and `true`, then integers in
/// canonical form by value.
pub open spec fn term_order_key(term: Option<TermView>) -> OrderKey {
    let none = Seq::<char>::empty();
    match term {
        None => OrderKey { kind: 0, number: 0, first: none, second: none },
        Some(TermView::BlankNode { id }) => OrderKey {
            kind: 1,
            number: id as int,
            first: none,
            second: none,
        },
        Some(TermView::NamedNode { iri }) => OrderKey {
            kind: 2,
            number: 0,
            first: iri,
            second: none,
        },
        Some(TermView::Simple { value }) => OrderKey {
            kind: 3,
            number: 0,
            first: value,
            second: none,
        },
        Some(TermView::LanguageTagged { value, language }) => OrderKey {
            kind: 4,
            number: 0,
            first: value,
            second: language,
        },
        Some(TermView::Typed { value, datatype }) => if datatype == xsd_boolean() && value
            == "true"@ {
            OrderKey { kind: 6, number: 1, first: none, second: none }
        } else if datatype == xsd_boolean() && value == "false"@ {
            OrderKey { kind: 6, number: 0, first: none, second: none }
        } else if datatype == xsd_integer() && is_canonical_integer(value) {
            OrderKey {
                kind: 7,
                number: (choose|n: i64| #[trigger] int_text(n as int) == value) as int,
                first: none,
                second: none,
            }
        } else {
            OrderKey { kind: 5, number: 0, first: value, second: datatype }
        },
    }
}

/// Whether term `a` comes before term `b` in the order of `ORDER BY`.
pub open spec fn term_precedes(a: Option<TermView>, b: Option<TermView>) -> bool {
    key_precedes(term_order_key(a), term_order_key(b))
}

/// The term that a slot stands for; an unbound slot stands for none.
pub open spec fn slot_term_of(strings: Seq<Seq<char>>, slot: Option<EncodedTerm>) -> Option<
    TermView,
> {
    match slot {
        Some(encoded) => term_of(strings, encoded),
        None => None,
    }
}

/// Whether a slot is unbound or holds the canonical surrogate of a term.
pub open spec fn is_term_slot(strings: Seq<Seq<char>>, slot: Option<EncodedTerm>) -> bool {
    slot matches Some(encoded) ==> encoded != EncodedTerm::DefaultGraph && is_canonical(
        strings,
        encoded,
    )
}

/// A canonical surrogate is ordered by the key of its term.
pub proof fn lemma_surrogate_key_is_term_key(strings: Seq<Seq<char>>, slot: Option<EncodedTerm>)
    requires
        is_term_slot(strings, slot),
    ensures
        order_key(strings, slot) == term_order_key(slot_term_of(strings, slot)),
{
    lemma_xsd_names_differ();
    match slot {
        Some(EncodedTerm::IntegerLiteral(n)) => {
            let chosen = choose|m: i64| #[trigger] int_text(m as int) == int_text(n as int);
            lemma_int_text_injective(chosen, n);
        },
        _ => {},
    }
}

/// The order of encoded terms is the order of the terms that they stand
/// for: of two slots that are unbound or hold canonical surrogates, one
/// comes before the other exactly when its term comes before the term of
/// the other.
pub proof fn lemma_slot_order_is_term_order(
    strings: Seq<Seq<char>>,
    a: Option<EncodedTerm>,
    b: Option<EncodedTerm>,
)
    requires
        is_term_slot(strings, a),
        is_term_slot(strings, b),
    ensures
        slot_precedes(strings, a, b) == term_precedes(
            slot_term_of(strings, a),
            slot_term_of(strings, b),
        ),
{
    lemma_slot_order_is_key_order(strings, a, b);
    lemma_surrogate_key_is_term_key(strings, a);
    lemma_surrogate_key_is_term_key(strings, b);
}

} // verus!
