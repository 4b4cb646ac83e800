//! The client API's update builder and transaction handle: terms as clients
//! write them, an insert of a batch of triples into a store kept in memory,
//! and transactions, which are not available yet.
use vstd::prelude::*;
use crate::inmemory::InMemoryBackend;
use crate::node::{Node as StoreNode, NodeView, Quad, QuadView};
use crate::quad_store::{counted, quad_storable, with_quads, QuadStore};
use std::hash::{Hash, Hasher};

verus! {

/// Errors of the client API.
#[derive(Debug)]
pub enum Error {
    /// The operation is not available, or was called without what it needs.
    InvalidOperation(String),
    /// The storage layer failed; the text describes how.
    Storage(String),
}

/// A term as a client writes it.
pub enum Node {
    /// An IRI.
    IRI(String),
    /// A literal with an optional datatype and language tag.
    Literal { value: String, datatype: Option<String>, lang: Option<String> },
    /// A blank node, by its label.
    BlankNode(String),
}

/// The view of a client term.
pub enum NodeSpec {
    /// An IRI.
    IRI(Seq<char>),
    /// A literal.
    Literal { value: Seq<char>, datatype: Option<Seq<char>>, lang: Option<Seq<char>> },
    /// A blank node label.
    BlankNode(Seq<char>),
}

impl View for Node {
    type V = NodeSpec;

    open spec fn view(&self) -> NodeSpec {
        match self {
            Node::IRI(s) => NodeSpec::IRI(s@),
            Node::Literal { value, datatype, lang } => NodeSpec::Literal {
                value: value@,
                datatype: match datatype {
                    Some(d) => Some(d@),
                    None => None,
                },
                lang: match lang {
                    Some(l) => Some(l@),
                    None => None,
                },
            },
            Node::BlankNode(s) => NodeSpec::BlankNode(s@),
        }
    }
}

impl Node {
    /// An IRI term.
    pub fn iri(s: &str) -> (r: Node)
        ensures
            r@ == NodeSpec::IRI(s@),
    {
        Node::IRI(s.to_owned())
    }

    /// A plain literal term.
    pub fn literal(s: &str) -> (r: Node)
        ensures
            r@ == (NodeSpec::Literal { value: s@, datatype: None, lang: None }),
    {
        Node::Literal { value: s.to_owned(), datatype: None, lang: None }
    }
}

/// `v` is how the store holds the client term `n`: an IRI as an IRI; a
/// literal with its datatype if it has one, else with its language tag, else
/// plain; a blank node as a blank node (its number drawn from the label by
/// hashing the label, so one label always gives one number).
pub open spec fn stored_as(n: NodeSpec, v: NodeView) -> bool {
    match n {
        NodeSpec::IRI(s) => v == NodeView::Iri(s),
        NodeSpec::Literal { value, datatype, lang } => match datatype {
            Some(d) => v == (NodeView::Literal { lexical_form: value, language: None, datatype: Some(d) }),
            None => v == (NodeView::Literal { lexical_form: value, language: lang, datatype: None }),
        },
        NodeSpec::BlankNode(l) => v == NodeView::BlankNode(blank_number(l)),
    }
}

/// The quad `q` stores the triple `t` in the graph `g`.
pub open spec fn stores_triple(t: (NodeSpec, NodeSpec, NodeSpec), g: Option<NodeSpec>, q: QuadView) -> bool {
    &&& stored_as(t.0, q.subject)
    &&& stored_as(t.1, q.predicate)
    &&& stored_as(t.2, q.object)
    &&& match g {
        Some(gn) => q.graph matches Some(gv) && stored_as(gn, gv),
        None => q.graph is None,
    }
}

/// The views of a list of client triples.
pub open spec fn triple_views(ts: Seq<(Node, Node, Node)>) -> Seq<(NodeSpec, NodeSpec, NodeSpec)> {
    ts.map_values(|t: (Node, Node, Node)| (t.0@, t.1@, t.2@))
}

/// Whether every quad that could store a triple of `ts` in the graph `g` can
/// be stored (whatever numbers its blank nodes get).
pub open spec fn triples_storable(ts: Seq<(NodeSpec, NodeSpec, NodeSpec)>, g: Option<NodeSpec>) -> bool {
    forall|i: int, q: QuadView| 0 <= i < ts.len() && #[trigger] stores_triple(ts[i], g, q) ==> quad_storable(q)
}

/// The number `std::collections::hash_map::DefaultHasher` gives a blank
/// node label (the label's `Hash` fed to a hasher from `DefaultHasher::new`).
pub uninterp spec fn blank_number(label: Seq<char>) -> u64;

/// `std::collections::hash_map::DefaultHasher` over a blank node label: the
/// number the store keeps the blank node under. Every hasher that
/// `DefaultHasher::new` makes is the same (std documents this; it is not
/// seeded per process), so the number depends on the label alone. Which
/// number it is is not stated: the algorithm is not specified and may change
/// between releases of std.
#[verifier::external_body]
fn blank_id(label: &String) -> (r: u64)
    ensures
        r == blank_number(label@),
{
    let mut hasher = std::collections::hash_map::DefaultHasher::new();
    label.hash(&mut hasher);
    hasher.finish()
}

/// The store's term for a client term.
fn to_store_node(n: &Node) -> (r: StoreNode)
    ensures
        stored_as(n@, r@),
{
    match n {
        Node::IRI(iri) => StoreNode::iri(iri.as_str()),
        Node::Literal { value, datatype, lang } => {
            match datatype {
                Some(dt) => StoreNode::literal_typed(value.as_str(), dt.as_str()),
                None => match lang {
                    Some(l) => StoreNode::literal_lang(value.as_str(), l.as_str()),
                    None => StoreNode::literal_str(value.as_str()),
                },
            }
        },
        Node::BlankNode(id) => StoreNode::blank(blank_id(id)),
    }
}

/// The text the insert fails with when no triple was given.
pub open spec fn no_triples() -> Seq<char> {
    "No triples specified for insert"@
}

/// A builder for an insert: triples to add, all in one graph (the default
/// graph unless one is set), into a store kept in memory.
pub struct UpdateBuilder<'a> {
    /// The store the triples go to.
    pub store: &'a mut QuadStore<InMemoryBackend>,
    /// The triples to add, in order.
    pub triples: Vec<(Node, Node, Node)>,
    /// The graph the triples go to; the default graph when `None`.
    pub graph: Option<Node>,
}

impl<'a> UpdateBuilder<'a> {
    /// The triples to add, in order.
    pub closed spec fn triples_spec(&self) -> Seq<(NodeSpec, NodeSpec, NodeSpec)> {
        triple_views(self.triples@)
    }

    /// The graph the triples go to.
    pub closed spec fn graph_spec(&self) -> Option<NodeSpec> {
        match self.graph {
            Some(g) => Some(g@),
            None => None,
        }
    }

    /// The store the triples go to.
    pub closed spec fn store_spec(&self) -> QuadStore<InMemoryBackend> {
        *self.store
    }

    /// A builder over `store`, with no triples and the default graph.
    pub fn new(store: &'a mut QuadStore<InMemoryBackend>) -> (r: UpdateBuilder<'a>)
        ensures
            r.triples_spec() == Seq::<(NodeSpec, NodeSpec, NodeSpec)>::empty(),
            r.graph_spec() is None,
            r.store_spec() == *old(store),
            *final(store) == *final(r.store),
    {
        let r = UpdateBuilder { store, triples: Vec::new(), graph: None };
        assert(r.triples_spec() =~= Seq::<(NodeSpec, NodeSpec, NodeSpec)>::empty());
        r
    }

    /// Adds a triple to insert.
    pub fn triple(self, subject: Node, predicate: Node, object: Node) -> (r: UpdateBuilder<'a>)
        ensures
            r.triples_spec() == self.triples_spec().push((subject@, predicate@, object@)),
            r.graph_spec() == self.graph_spec(),
            r.store_spec() == self.store_spec(),
            *final(self.store) == *final(r.store),
    {
        let mut b = self;
        let ghost before = b.triples@;
        b.triples.push((subject, predicate, object));
        assert(triple_views(b.triples@) =~= triple_views(before).push((subject@, predicate@, object@)));
        b
    }

    /// Inserts the triples, in order, each in the graph set (or the default
    /// graph). Fails with an invalid-operation error when no triple was given,
    /// and with a storage error (carrying the store's message) when the store
    /// fails, leaving the triples before it inserted.
    pub fn execute(self) -> (r: Result<(), Error>)
        requires
            triples_storable(self.triples_spec(), self.graph_spec()),
        ensures
            self.triples_spec().len() == 0 ==> (r matches Err(Error::InvalidOperation(m)) && m@ == no_triples()),
            self.triples_spec().len() == 0 ==> *final(self.store) == self.store_spec(),
            self.triples_spec().len() > 0 ==> !(r matches Err(Error::InvalidOperation(_))),
            self.triples_spec().len() > 0 && self.store_spec().never_fails() ==> r is Ok,
            r is Ok ==> exists|qs: Seq<QuadView>|
                {
                    &&& qs.len() == self.triples_spec().len()
                    &&& forall|i: int| 0 <= i < qs.len() ==> #[trigger] stores_triple(self.triples_spec()[i], self.graph_spec(), qs[i])
                    &&& final(self.store).entries() == with_quads(self.store_spec().entries(), qs)
                    &&& final(self.store).count() == counted(self.store_spec().count(), self.store_spec().entries(), qs)
                },
    {
        let ghost ts = self.triples_spec();
        let ghost g = self.graph_spec();
        let ghost m0 = self.store_spec().entries();
        let ghost c0 = self.store_spec().count();
        let ghost nf = self.store_spec().never_fails();
        if self.triples.len() == 0 {
            return Err(Error::InvalidOperation("No triples specified for insert".to_owned()));
        }
        let UpdateBuilder { store, triples, graph } = self;
        let ghost mut qs: Seq<QuadView> = Seq::empty();
        let mut i: usize = 0;
        while i < triples.len()
            invariant
                i <= triples@.len(),
                ts == triple_views(triples@),
                ts.len() > 0,
                ts == self.triples_spec(),
                g == self.graph_spec(),
                m0 == self.store_spec().entries(),
                c0 == self.store_spec().count(),
                nf == self.store_spec().never_fails(),
                g == match graph {
                    Some(gn) => Some(gn@),
                    None => None,
                },
                triples_storable(ts, g),
                qs.len() == i,
                forall|j: int| 0 <= j < i ==> #[trigger] stores_triple(ts[j], g, qs[j]),
                store.never_fails() == nf,
                store.entries() == with_quads(m0, qs),
                store.count() == counted(c0, m0, qs),
            decreases triples@.len() - i,
        {
            let (s, p, o) = &triples[i];
            let subject = to_store_node(s);
            let predicate = to_store_node(p);
            let object = to_store_node(o);
            let gnode = match &graph {
                Some(gn) => Some(to_store_node(gn)),
                None => None,
            };
            let quad = Quad::new(subject, predicate, object, gnode);
            assert(ts[i as int] == (s@, p@, o@));
            assert(stores_triple(ts[i as int], g, quad@));
            match store.insert(quad) {
                Ok(()) => {},
                Err(e) => {
                    return Err(Error::Storage(e.message()));
                },
            }
            proof {
                let nq = qs.push(quad@);
                assert(nq.drop_last() =~= qs);
                assert forall|j: int| 0 <= j < i + 1 implies #[trigger] stores_triple(ts[j], g, nq[j]) by {
                    if j < i {
                        assert(nq[j] == qs[j]);
                    }
                }
                qs = nq;
            }
            i += 1;
        }
        Ok(())
    }

    /// Sets the named graph for all the triples.
    pub fn graph(self, graph: Node) -> (r: UpdateBuilder<'a>)
        ensures
            r.triples_spec() == self.triples_spec(),
            r.graph_spec() == Some(graph@),
            r.store_spec() == self.store_spec(),
            *final(self.store) == *final(r.store),
    {
        let mut b = self;
        b.graph = Some(graph);
        b
    }
}

/// The text every transaction operation fails with.
pub open spec fn not_implemented() -> Seq<char> {
    "Transactions not yet implemented"@
}

fn not_implemented_error() -> (r: Error)
    ensures
        r matches Error::InvalidOperation(m) && m@ == not_implemented(),
{
    Error::InvalidOperation("Transactions not yet implemented".to_owned())
}

/// A handle for an atomic group of operations. Transactions are not
/// supported yet: beginning, committing and rolling back all fail.
pub struct Transaction {
    private: (),
}

impl Transaction {
    /// Begins a transaction: always fails with an invalid-operation error.
    pub(crate) fn begin() -> (r: Result<Transaction, Error>)
        ensures
            r matches Err(Error::InvalidOperation(m)) && m@ == not_implemented(),
    {
        Err(not_implemented_error())
    }

    /// Commits the transaction: always fails with an invalid-operation error.
    pub fn commit(self) -> (r: Result<(), Error>)
        ensures
            r matches Err(Error::InvalidOperation(m)) && m@ == not_implemented(),
    {
        Err(not_implemented_error())
    }

    /// Rolls the transaction back: always fails with an invalid-operation error.
    pub fn rollback(self) -> (r: Result<(), Error>)
        ensures
            r matches Err(Error::InvalidOperation(m)) && m@ == not_implemented(),
    {
        Err(not_implemented_error())
    }
}

/// A client IRI is stored as that same IRI.
pub proof fn lemma_iri_stored_as_itself(s: Seq<char>, v: NodeView)
    requires
        stored_as(NodeSpec::IRI(s), v),
    ensures
        v == NodeView::Iri(s),
{
}

/// A client literal with no datatype is stored with its text and with the
/// client's language tag (none when it has none), and without a datatype.
pub proof fn lemma_literal_keeps_language(value: Seq<char>, lang: Option<Seq<char>>, v: NodeView)
    requires
        stored_as(NodeSpec::Literal { value, datatype: None, lang }, v),
    ensures
        v is Literal,
        v->lexical_form == value,
        v->language == lang,
        v->datatype is None,
{
}

/// A client literal with a datatype is stored with its text and that
/// datatype; a language tag beside it is dropped.
pub proof fn lemma_literal_keeps_datatype(value: Seq<char>, d: Seq<char>, lang: Option<Seq<char>>, v: NodeView)
    requires
        stored_as(NodeSpec::Literal { value, datatype: Some(d), lang }, v),
    ensures
        v is Literal,
        v->lexical_form == value,
        v->datatype == Some(d),
        v->language is None,
{
}

/// Every client term is stored as one term: two stored forms of one client
/// term are the same (so one blank node label is always one blank node).
pub proof fn lemma_stored_form_is_unique(n: NodeSpec, v: NodeView, w: NodeView)
    requires
        stored_as(n, v),
        stored_as(n, w),
    ensures
        v == w,
{
}

/// Blank nodes are stored as blank nodes, two terms with the same label as
/// the same node.
pub proof fn lemma_blank_label_one_node(l: Seq<char>, v: NodeView, w: NodeView)
    requires
        stored_as(NodeSpec::BlankNode(l), v),
        stored_as(NodeSpec::BlankNode(l), w),
    ensures
        v is BlankNode,
        v == w,
{
}

/// A stored quad holds the client triple in order: its subject, predicate
/// and object are the stored forms of the triple's subject, predicate and
/// object; it is in the graph set, or in the default graph when none is.
pub proof fn lemma_quad_holds_triple_in_place(
    t: (NodeSpec, NodeSpec, NodeSpec),
    g: Option<NodeSpec>,
    q: QuadView,
    s: NodeView,
    p: NodeView,
    o: NodeView,
)
    requires
        stores_triple(t, g, q),
        stored_as(t.0, s),
        stored_as(t.1, p),
        stored_as(t.2, o),
    ensures
        q.subject == s,
        q.predicate == p,
        q.object == o,
        g is None ==> q.graph is None,
        forall|gv: NodeView| g is Some && #[trigger] stored_as(g->0, gv) ==> q.graph == Some(gv),
{
}

} // verus!
