use crate::model::blank_node::BlankNode;
use vstd::prelude::*;

verus! {

/// An RDF IRI, held as text. Whether the text is a well-formed IRI is
/// checked when the node is interned, not when it is built.
#[derive(Eq, PartialEq, Ord, PartialOrd, Debug, Hash)]
pub struct NamedNode {
    pub iri: String,
}

impl View for NamedNode {
    type V = Seq<char>;

    open spec fn view(&self) -> Seq<char> {
        self.iri@
    }
}

impl Clone for NamedNode {
    fn clone(&self) -> (node: Self)
        ensures
            node@ == self@,
    {
        NamedNode { iri: self.iri.clone() }
    }
}

impl NamedNode {
    /// Builds the node whose IRI is `iri`.
    pub fn new(iri: &str) -> (node: Self)
        ensures
            node@ == iri@,
    {
        NamedNode { iri: iri.to_owned() }
    }

    /// The IRI of this node.
    pub fn as_str(&self) -> (iri: &str)
        ensures
            iri@ == self@,
    {
        self.iri.as_str()
    }
}

/// An RDF literal.
#[derive(Eq, PartialEq, Ord, PartialOrd, Debug, Hash)]
pub enum Literal {
    /// A plain string.
    Simple { value: String },
    /// A string with a language tag.
    LanguageTagged { value: String, language: String },
    /// A lexical form with its datatype.
    Typed { value: String, datatype: NamedNode },
}

/// The mathematical value of a term: its kind and its texts.
pub enum TermView {
    NamedNode { iri: Seq<char> },
    BlankNode { id: u128 },
    Simple { value: Seq<char> },
    LanguageTagged { value: Seq<char>, language: Seq<char> },
    Typed { value: Seq<char>, datatype: Seq<char> },
}

impl View for Literal {
    type V = TermView;

    open spec fn view(&self) -> TermView {
        match self {
            Literal::Simple { value } => TermView::Simple { value: value@ },
            Literal::LanguageTagged { value, language } => TermView::LanguageTagged {
                value: value@,
                language: language@,
            },
            Literal::Typed { value, datatype } => TermView::Typed {
                value: value@,
                datatype: datatype@,
            },
        }
    }
}

impl Clone for Literal {
    fn clone(&self) -> (literal: Self)
        ensures
            literal@ == self@,
    {
        match self {
            Literal::Simple { value } => Literal::Simple { value: value.clone() },
            Literal::LanguageTagged { value, language } => Literal::LanguageTagged {
                value: value.clone(),
                language: language.clone(),
            },
            Literal::Typed { value, datatype } => Literal::Typed {
                value: value.clone(),
                datatype: datatype.clone(),
            },
        }
    }
}

impl Literal {
    /// The plain string literal `value`.
    pub fn new_simple_literal(value: &str) -> (literal: Self)
        ensures
            literal@ == (TermView::Simple { value: value@ }),
    {
        Literal::Simple { value: value.to_owned() }
    }

    /// The literal `value` tagged with `language`.
    pub fn new_language_tagged_literal(value: &str, language: &str) -> (literal: Self)
        ensures
            literal@ == (TermView::LanguageTagged { value: value@, language: language@ }),
    {
        Literal::LanguageTagged { value: value.to_owned(), language: language.to_owned() }
    }

    /// The literal with lexical form `value` and datatype `datatype`.
    pub fn new_typed_literal(value: &str, datatype: NamedNode) -> (literal: Self)
        ensures
            literal@ == (TermView::Typed { value: value@, datatype: datatype@ }),
    {
        Literal::Typed { value: value.to_owned(), datatype }
    }

    /// The lexical form of this literal.
    pub fn value(&self) -> (value: &str)
        ensures
            value@ == match self@ {
                TermView::Simple { value } => value,
                TermView::LanguageTagged { value, .. } => value,
                TermView::Typed { value, .. } => value,
                _ => value@,
            },
    {
        match self {
            Literal::Simple { value } => value.as_str(),
            Literal::LanguageTagged { value, .. } => value.as_str(),
            Literal::Typed { value, .. } => value.as_str(),
        }
    }
}

/// An RDF term: an IRI, a blank node or a literal.
#[derive(Eq, PartialEq, Ord, PartialOrd, Debug, Hash)]
pub enum Term {
    NamedNode(NamedNode),
    BlankNode(BlankNode),
    Literal(Literal),
}

impl View for Term {
    type V = TermView;

    open spec fn view(&self) -> TermView {
        match self {
            Term::NamedNode(node) => TermView::NamedNode { iri: node@ },
            Term::BlankNode(node) => TermView::BlankNode { id: node@ },
            Term::Literal(literal) => literal@,
        }
    }
}

impl Clone for Term {
    fn clone(&self) -> (term: Self)
        ensures
            term@ == self@,
    {
        match self {
            Term::NamedNode(node) => Term::NamedNode(node.clone()),
            Term::BlankNode(node) => Term::BlankNode(node.clone()),
            Term::Literal(literal) => Term::Literal(literal.clone()),
        }
    }
}

impl Term {
    /// The term for the IRI `iri`.
    pub fn iri(iri: &str) -> (term: Self)
        ensures
            term@ == (TermView::NamedNode { iri: iri@ }),
    {
        Term::NamedNode(NamedNode::new(iri))
    }

    /// The term for the plain string literal `value`.
    pub fn simple_literal(value: &str) -> (term: Self)
        ensures
            term@ == (TermView::Simple { value: value@ }),
    {
        Term::Literal(Literal::new_simple_literal(value))
    }

    /// Whether the two terms are the same RDF term.
    pub fn same_term(&self, other: &Term) -> (same: bool)
        ensures
            same == (self@ == other@),
    {
        match (self, other) {
            (Term::NamedNode(a), Term::NamedNode(b)) => a.iri == b.iri,
            (Term::BlankNode(a), Term::BlankNode(b)) => a.id() == b.id(),
            (Term::Literal(Literal::Simple { value: a }), Term::Literal(Literal::Simple { value: b })) => *a == *b,
            (
                Term::Literal(Literal::LanguageTagged { value: a, language: la }),
                Term::Literal(Literal::LanguageTagged { value: b, language: lb }),
            ) => *a == *b && *la == *lb,
            (
                Term::Literal(Literal::Typed { value: a, datatype: da }),
                Term::Literal(Literal::Typed { value: b, datatype: db }),
            ) => *a == *b && da.iri == db.iri,
            _ => false,
        }
    }
}

/// A query variable, known by its name.
#[derive(Eq, PartialEq, Ord, PartialOrd, Debug, Hash)]
pub struct Variable {
    pub name: String,
}

impl View for Variable {
    type V = Seq<char>;

    open spec fn view(&self) -> Seq<char> {
        self.name@
    }
}

impl Clone for Variable {
    fn clone(&self) -> (variable: Self)
        ensures
            variable@ == self@,
    {
        Variable { name: self.name.clone() }
    }
}

impl Variable {
    /// The variable called `name`.
    pub fn new(name: &str) -> (variable: Self)
        ensures
            variable@ == name@,
    {
        Variable { name: name.to_owned() }
    }

    /// The name of this variable.
    pub fn name(&self) -> (name: &str)
        ensures
            name@ == self@,
    {
        self.name.as_str()
    }
}

/// The mathematical value of a quad; the default graph is `None`.
pub struct QuadView {
    pub subject: TermView,
    pub predicate: TermView,
    pub object: TermView,
    pub graph_name: Option<TermView>,
}

/// An RDF quad: a triple and the graph that holds it, `None` for the default
/// graph.
#[derive(Eq, PartialEq, Ord, PartialOrd, Debug, Hash)]
pub struct Quad {
    pub subject: Term,
    pub predicate: Term,
    pub object: Term,
    pub graph_name: Option<Term>,
}

impl View for Quad {
    type V = QuadView;

    open spec fn view(&self) -> QuadView {
        QuadView {
            subject: self.subject@,
            predicate: self.predicate@,
            object: self.object@,
            graph_name: match self.graph_name {
                Some(name) => Some(name@),
                None => None,
            },
        }
    }
}

impl Clone for Quad {
    fn clone(&self) -> (quad: Self)
        ensures
            quad@ == self@,
    {
        Quad {
            subject: self.subject.clone(),
            predicate: self.predicate.clone(),
            object: self.object.clone(),
            graph_name: match &self.graph_name {
                Some(name) => Some(name.clone()),
                None => None,
            },
        }
    }
}

impl Quad {
    /// The quad of the given triple in the given graph.
    pub fn new(subject: Term, predicate: Term, object: Term, graph_name: Option<Term>) -> (quad:
        Self)
        ensures
            quad.subject == subject,
            quad.predicate == predicate,
            quad.object == object,
            quad.graph_name == graph_name,
    {
        Quad { subject, predicate, object, graph_name }
    }
}

} // verus!
