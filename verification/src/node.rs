//! RDF terms and quads as the storage layer sees them.
use vstd::prelude::*;

verus! {

/// The mathematical value of a [`Node`].
pub enum NodeView {
    /// An IRI, by its text.
    Iri(Seq<char>),
    /// A literal: lexical form, optional language tag, optional datatype IRI.
    Literal { lexical_form: Seq<char>, language: Option<Seq<char>>, datatype: Option<Seq<char>> },
    /// A blank node, by its numeric identifier.
    BlankNode(u64),
    /// A quoted triple, by its rendered text.
    QuotedTriple(Seq<char>),
    /// A query variable, by its name.
    Variable(Seq<char>),
}

/// An RDF term.
#[derive(Debug, Clone, PartialEq, Eq)]
pub enum Node {
    /// An IRI.
    Iri(String),
    /// A literal with an optional language tag and an optional datatype IRI.
    Literal { lexical_form: String, language: Option<String>, datatype: Option<String> },
    /// A blank node.
    BlankNode(u64),
    /// A quoted (RDF-star) triple, held by its rendered text.
    QuotedTriple(String),
    /// A query variable.
    Variable(String),
}

/// The view of an optional string.
pub open spec fn opt_text(o: Option<String>) -> Option<Seq<char>> {
    match o {
        Some(s) => Some(s@),
        None => None,
    }
}

impl View for Node {
    type V = NodeView;

    open spec fn view(&self) -> NodeView {
        match self {
            Node::Iri(s) => NodeView::Iri(s@),
            Node::Literal { lexical_form, language, datatype } => NodeView::Literal {
                lexical_form: lexical_form@,
                language: opt_text(*language),
                datatype: opt_text(*datatype),
            },
            Node::BlankNode(id) => NodeView::BlankNode(*id),
            Node::QuotedTriple(s) => NodeView::QuotedTriple(s@),
            Node::Variable(s) => NodeView::Variable(s@),
        }
    }
}

/// The view of an optional node (a quad's graph).
pub open spec fn opt_node(o: Option<Node>) -> Option<NodeView> {
    match o {
        Some(n) => Some(n@),
        None => None,
    }
}

/// The mathematical value of a [`Quad`].
pub struct QuadView {
    /// Subject.
    pub subject: NodeView,
    /// Predicate.
    pub predicate: NodeView,
    /// Object.
    pub object: NodeView,
    /// Named graph, `None` for the default graph.
    pub graph: Option<NodeView>,
}

/// A triple in a named graph, or in the default graph when `graph` is `None`.
#[derive(Debug, Clone, PartialEq, Eq)]
pub struct Quad {
    /// Subject.
    pub subject: Node,
    /// Predicate.
    pub predicate: Node,
    /// Object.
    pub object: Node,
    /// Named graph, `None` for the default graph.
    pub graph: Option<Node>,
}

impl View for Quad {
    type V = QuadView;

    open spec fn view(&self) -> QuadView {
        QuadView {
            subject: self.subject@,
            predicate: self.predicate@,
            object: self.object@,
            graph: opt_node(self.graph),
        }
    }
}

fn copy_text(s: &Option<String>) -> (r: Option<String>)
    ensures
        opt_text(r) == opt_text(*s),
{
    match s {
        Some(t) => Some(t.clone()),
        None => None,
    }
}

fn same_text(a: &Option<String>, b: &Option<String>) -> (r: bool)
    ensures
        r == (opt_text(*a) == opt_text(*b)),
{
    match (a, b) {
        (Some(x), Some(y)) => String::eq(x, y),
        (None, None) => true,
        _ => false,
    }
}

impl Node {
    /// An IRI node.
    pub fn iri(s: &str) -> (r: Node)
        ensures
            r@ == NodeView::Iri(s@),
    {
        Node::Iri(s.to_owned())
    }

    /// A plain literal (no language tag, no datatype).
    pub fn literal_str(s: &str) -> (r: Node)
        ensures
            r@ == (NodeView::Literal { lexical_form: s@, language: None, datatype: None }),
    {
        Node::Literal { lexical_form: s.to_owned(), language: None, datatype: None }
    }

    /// A literal with a language tag.
    pub fn literal_lang(s: &str, lang: &str) -> (r: Node)
        ensures
            r@ == (NodeView::Literal { lexical_form: s@, language: Some(lang@), datatype: None }),
    {
        Node::Literal { lexical_form: s.to_owned(), language: Some(lang.to_owned()), datatype: None }
    }

    /// A literal with a datatype IRI.
    pub fn literal_typed(s: &str, datatype: &str) -> (r: Node)
        ensures
            r@ == (NodeView::Literal { lexical_form: s@, language: None, datatype: Some(datatype@) }),
    {
        Node::Literal { lexical_form: s.to_owned(), language: None, datatype: Some(datatype.to_owned()) }
    }

    /// A blank node.
    pub fn blank(id: u64) -> (r: Node)
        ensures
            r@ == NodeView::BlankNode(id),
    {
        Node::BlankNode(id)
    }

    /// A copy of this node with the same value.
    pub fn duplicate(&self) -> (r: Node)
        ensures
            r@ == self@,
    {
        match self {
            Node::Iri(s) => Node::Iri(s.clone()),
            Node::Literal { lexical_form, language, datatype } => Node::Literal {
                lexical_form: lexical_form.clone(),
                language: copy_text(language),
                datatype: copy_text(datatype),
            },
            Node::BlankNode(id) => Node::BlankNode(*id),
            Node::QuotedTriple(s) => Node::QuotedTriple(s.clone()),
            Node::Variable(s) => Node::Variable(s.clone()),
        }
    }

    /// Whether two nodes denote the same term.
    pub fn same(&self, other: &Node) -> (r: bool)
        ensures
            r == (self@ == other@),
    {
        match (self, other) {
            (Node::Iri(a), Node::Iri(b)) => String::eq(a, b),
            (
                Node::Literal { lexical_form: a, language: la, datatype: da },
                Node::Literal { lexical_form: b, language: lb, datatype: db },
            ) => String::eq(a, b) && same_text(la, lb) && same_text(da, db),
            (Node::BlankNode(a), Node::BlankNode(b)) => *a == *b,
            (Node::QuotedTriple(a), Node::QuotedTriple(b)) => String::eq(a, b),
            (Node::Variable(a), Node::Variable(b)) => String::eq(a, b),
            _ => false,
        }
    }
}

/// A copy of an optional node with the same value.
pub fn duplicate_opt(o: &Option<Node>) -> (r: Option<Node>)
    ensures
        opt_node(r) == opt_node(*o),
{
    match o {
        Some(n) => Some(n.duplicate()),
        None => None,
    }
}

impl Quad {
    /// A quad from its four parts.
    pub fn new(subject: Node, predicate: Node, object: Node, graph: Option<Node>) -> (r: Quad)
        ensures
            r@ == (QuadView { subject: subject@, predicate: predicate@, object: object@, graph: opt_node(graph) }),
    {
        Quad { subject, predicate, object, graph }
    }

    /// A copy of this quad with the same value.
    pub fn duplicate(&self) -> (r: Quad)
        ensures
            r@ == self@,
    {
        Quad {
            subject: self.subject.duplicate(),
            predicate: self.predicate.duplicate(),
            object: self.object.duplicate(),
            graph: duplicate_opt(&self.graph),
        }
    }
}

} // verus!
