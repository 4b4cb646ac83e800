//! Query patterns over quads: each position either a concrete node or a wildcard.
use vstd::prelude::*;
use crate::node::{Node, NodeView, Quad, QuadView};

verus! {

/// Pattern for one position of a quad.
#[derive(Debug, Clone)]
pub enum NodePattern {
    /// Matches any node.
    Any,
    /// Matches exactly this node.
    Concrete(Node),
}

impl View for NodePattern {
    /// The bound node, `None` for a wildcard.
    type V = Option<NodeView>;

    open spec fn view(&self) -> Option<NodeView> {
        match self {
            NodePattern::Any => None,
            NodePattern::Concrete(n) => Some(n@),
        }
    }
}

/// Whether a position pattern (`None` a wildcard) admits a node.
pub open spec fn node_admits(p: Option<NodeView>, n: NodeView) -> bool {
    match p {
        None => true,
        Some(m) => m == n,
    }
}

impl NodePattern {
    /// Whether the pattern matches `node`: a wildcard matches any node, a
    /// concrete pattern only an equal one.
    pub fn matches(&self, node: &Node) -> (r: bool)
        ensures
            r == node_admits(self@, node@),
    {
        match self {
            NodePattern::Any => true,
            NodePattern::Concrete(n) => n.same(node),
        }
    }

    /// Whether this is a wildcard.
    pub fn is_wildcard(&self) -> (r: bool)
        ensures
            r == (self@ is None),
    {
        match self {
            NodePattern::Any => true,
            NodePattern::Concrete(_) => false,
        }
    }

    /// Whether this pattern is bound to a node.
    pub fn is_concrete(&self) -> (r: bool)
        ensures
            r == (self@ is Some),
    {
        match self {
            NodePattern::Any => false,
            NodePattern::Concrete(_) => true,
        }
    }

    /// The bound node, if any.
    pub fn as_node(&self) -> (r: Option<&Node>)
        ensures
            match r {
                Some(n) => self@ == Some(n@),
                None => self@ is None,
            },
    {
        match self {
            NodePattern::Concrete(n) => Some(n),
            NodePattern::Any => None,
        }
    }

    /// The pattern bound to `node`, or a wildcard for `None`.
    pub fn from_option(node: Option<Node>) -> (r: NodePattern)
        ensures
            r@ == crate::node::opt_node(node),
    {
        match node {
            Some(n) => NodePattern::Concrete(n),
            None => NodePattern::Any,
        }
    }
}

/// The value of a [`QuadPattern`]: each position's bound node, if any.
pub struct QuadPatternView {
    /// Subject.
    pub subject: Option<NodeView>,
    /// Predicate.
    pub predicate: Option<NodeView>,
    /// Object.
    pub object: Option<NodeView>,
    /// Graph.
    pub graph: Option<NodeView>,
}

/// Pattern for matching quads; each position a concrete node or a wildcard.
#[derive(Debug, Clone)]
pub struct QuadPattern {
    /// Subject pattern.
    pub subject: NodePattern,
    /// Predicate pattern.
    pub predicate: NodePattern,
    /// Object pattern.
    pub object: NodePattern,
    /// Graph pattern.
    pub graph: NodePattern,
}

impl View for QuadPattern {
    type V = QuadPatternView;

    open spec fn view(&self) -> QuadPatternView {
        QuadPatternView {
            subject: self.subject@,
            predicate: self.predicate@,
            object: self.object@,
            graph: self.graph@,
        }
    }
}

/// Whether a quad matches a pattern: subject, predicate and object as their
/// position patterns say; a bound graph matches only a quad in that named
/// graph (never one in the default graph).
pub open spec fn pattern_matches(p: QuadPatternView, q: QuadView) -> bool {
    &&& node_admits(p.subject, q.subject)
    &&& node_admits(p.predicate, q.predicate)
    &&& node_admits(p.object, q.object)
    &&& match p.graph {
        None => true,
        Some(g) => q.graph == Some(g),
    }
}

/// The number of bound positions.
pub open spec fn bound_count_spec(p: QuadPatternView) -> nat {
    (if p.subject is Some { 1nat } else { 0nat }) + (if p.predicate is Some { 1nat } else { 0nat }) + (
    if p.object is Some { 1nat } else { 0nat }) + (if p.graph is Some { 1nat } else { 0nat })
}

impl QuadPattern {
    /// A pattern from its four position patterns.
    pub fn new(subject: NodePattern, predicate: NodePattern, object: NodePattern, graph: NodePattern) -> (r:
        QuadPattern)
        ensures
            r@ == (QuadPatternView { subject: subject@, predicate: predicate@, object: object@, graph: graph@ }),
    {
        QuadPattern { subject, predicate, object, graph }
    }

    /// The pattern that matches every quad.
    pub fn all() -> (r: QuadPattern)
        ensures
            r@ == (QuadPatternView { subject: None, predicate: None, object: None, graph: None }),
    {
        QuadPattern {
            subject: NodePattern::Any,
            predicate: NodePattern::Any,
            object: NodePattern::Any,
            graph: NodePattern::Any,
        }
    }

    /// Whether `quad` matches this pattern.
    pub fn matches(&self, quad: &Quad) -> (r: bool)
        ensures
            r == pattern_matches(self@, quad@),
    {
        self.subject.matches(&quad.subject) && self.predicate.matches(&quad.predicate) && self.object.matches(
            &quad.object,
        ) && match (&self.graph, &quad.graph) {
            (NodePattern::Any, _) => true,
            (NodePattern::Concrete(pg), Some(qg)) => pg.same(qg),
            (NodePattern::Concrete(_), None) => false,
        }
    }

    /// How many positions are bound.
    pub fn bound_count(&self) -> (r: usize)
        ensures
            r == bound_count_spec(self@),
    {
        let mut count: usize = 0;
        if !self.subject.is_wildcard() {
            count += 1;
        }
        if !self.predicate.is_wildcard() {
            count += 1;
        }
        if !self.object.is_wildcard() {
            count += 1;
        }
        if !self.graph.is_wildcard() {
            count += 1;
        }
        count
    }

    /// Whether every position is bound.
    pub fn is_fully_bound(&self) -> (r: bool)
        ensures
            r == (bound_count_spec(self@) == 4),
    {
        self.bound_count() == 4
    }

    /// Whether no position is bound.
    pub fn is_wildcard(&self) -> (r: bool)
        ensures
            r == (bound_count_spec(self@) == 0),
    {
        self.bound_count() == 0
    }
}

impl Default for QuadPattern {
    /// The pattern that matches every quad.
    fn default() -> (r: QuadPattern)
        ensures
            r@ == (QuadPatternView { subject: None, predicate: None, object: None, graph: None }),
    {
        QuadPattern::all()
    }
}

/// A fully bound pattern matches exactly the quads equal to it.
pub proof fn lemma_fully_bound_matches_one(p: QuadPatternView, q: QuadView)
    requires
        bound_count_spec(p) == 4,
    ensures
        pattern_matches(p, q) <==> (p.subject == Some(q.subject) && p.predicate == Some(q.predicate)
            && p.object == Some(q.object) && p.graph == q.graph && q.graph is Some),
{
}

/// The all-wildcard pattern matches every quad.
pub proof fn lemma_wildcard_matches_all(p: QuadPatternView, q: QuadView)
    requires
        bound_count_spec(p) == 0,
    ensures
        pattern_matches(p, q),
{
}

} // verus!
