//! The total order on RDF terms that sorted term sets and joins rely on:
//! first the kind of term (IRI, literal, blank node, quoted triple,
//! variable), then its fields in turn, texts compared character by character
//! and an absent optional field sorting first.
use vstd::prelude::*;
use crate::node::{Node, NodeView};
use crate::text::chars_of;

verus! {

/// `a` sorts strictly before `b`, character by character (a proper prefix
/// sorts first).
pub open spec fn text_lt(a: Seq<char>, b: Seq<char>) -> bool
    decreases a.len(),
{
    if b.len() == 0 {
        false
    } else if a.len() == 0 {
        true
    } else if a[0] < b[0] {
        true
    } else if a[0] > b[0] {
        false
    } else {
        text_lt(a.drop_first(), b.drop_first())
    }
}

/// Exactly one of `a < b`, `a == b`, `b < a` holds.
pub proof fn lemma_text_trichotomy(a: Seq<char>, b: Seq<char>)
    ensures
        text_lt(a, b) || a == b || text_lt(b, a),
        !(text_lt(a, b) && text_lt(b, a)),
        !(text_lt(a, b) && a == b),
    decreases a.len(),
{
    if a.len() > 0 && b.len() > 0 && a[0] == b[0] {
        lemma_text_trichotomy(a.drop_first(), b.drop_first());
        if a.drop_first() == b.drop_first() {
            assert(a =~= seq![a[0]] + a.drop_first());
            assert(b =~= seq![b[0]] + b.drop_first());
        }
    } else if a.len() == 0 && b.len() == 0 {
        assert(a =~= b);
    }
}

/// The text order is transitive.
pub proof fn lemma_text_transitive(a: Seq<char>, b: Seq<char>, c: Seq<char>)
    requires
        text_lt(a, b),
        text_lt(b, c),
    ensures
        text_lt(a, c),
    decreases a.len(),
{
    if a.len() > 0 && b.len() > 0 && c.len() > 0 && a[0] == b[0] && b[0] == c[0] {
        lemma_text_transitive(a.drop_first(), b.drop_first(), c.drop_first());
    }
}

/// An absent text sorts before a present one; present ones by their text.
pub open spec fn opt_text_lt(a: Option<Seq<char>>, b: Option<Seq<char>>) -> bool {
    match (a, b) {
        (None, Some(_)) => true,
        (Some(x), Some(y)) => text_lt(x, y),
        _ => false,
    }
}

/// The position of a term's kind in the order.
pub open spec fn kind_rank(n: NodeView) -> int {
    match n {
        NodeView::Iri(_) => 0,
        NodeView::Literal { .. } => 1,
        NodeView::BlankNode(_) => 2,
        NodeView::QuotedTriple(_) => 3,
        NodeView::Variable(_) => 4,
    }
}

/// `a` sorts strictly before `b`.
pub open spec fn node_lt(a: NodeView, b: NodeView) -> bool {
    if kind_rank(a) != kind_rank(b) {
        kind_rank(a) < kind_rank(b)
    } else {
        match (a, b) {
            (NodeView::Iri(x), NodeView::Iri(y)) => text_lt(x, y),
            (
                NodeView::Literal { lexical_form: x, language: lx, datatype: dx },
                NodeView::Literal { lexical_form: y, language: ly, datatype: dy },
            ) => text_lt(x, y) || (x == y && (opt_text_lt(lx, ly) || (lx == ly && opt_text_lt(dx, dy)))),
            (NodeView::BlankNode(x), NodeView::BlankNode(y)) => x < y,
            (NodeView::QuotedTriple(x), NodeView::QuotedTriple(y)) => text_lt(x, y),
            (NodeView::Variable(x), NodeView::Variable(y)) => text_lt(x, y),
            _ => false,
        }
    }
}

proof fn lemma_opt_text_trichotomy(a: Option<Seq<char>>, b: Option<Seq<char>>)
    ensures
        opt_text_lt(a, b) || a == b || opt_text_lt(b, a),
        !(opt_text_lt(a, b) && opt_text_lt(b, a)),
        !(opt_text_lt(a, b) && a == b),
{
    match (a, b) {
        (Some(x), Some(y)) => lemma_text_trichotomy(x, y),
        _ => {},
    }
}

proof fn lemma_opt_text_transitive(a: Option<Seq<char>>, b: Option<Seq<char>>, c: Option<Seq<char>>)
    requires
        opt_text_lt(a, b),
        opt_text_lt(b, c),
    ensures
        opt_text_lt(a, c),
{
    match (a, b, c) {
        (Some(x), Some(y), Some(z)) => lemma_text_transitive(x, y, z),
        _ => {},
    }
}

/// The term order is total: exactly one of `a < b`, `a == b`, `b < a`.
pub proof fn lemma_node_trichotomy(a: NodeView, b: NodeView)
    ensures
        node_lt(a, b) || a == b || node_lt(b, a),
        !(node_lt(a, b) && node_lt(b, a)),
        !node_lt(a, a),
{
    match (a, b) {
        (NodeView::Iri(x), NodeView::Iri(y)) => {
            lemma_text_trichotomy(x, y);
            lemma_text_trichotomy(x, x);
        },
        (
            NodeView::Literal { lexical_form: x, language: lx, datatype: dx },
            NodeView::Literal { lexical_form: y, language: ly, datatype: dy },
        ) => {
            lemma_text_trichotomy(x, y);
            lemma_text_trichotomy(x, x);
            lemma_opt_text_trichotomy(lx, ly);
            lemma_opt_text_trichotomy(lx, lx);
            lemma_opt_text_trichotomy(dx, dy);
            lemma_opt_text_trichotomy(dx, dx);
        },
        (NodeView::QuotedTriple(x), NodeView::QuotedTriple(y)) => {
            lemma_text_trichotomy(x, y);
            lemma_text_trichotomy(x, x);
        },
        (NodeView::Variable(x), NodeView::Variable(y)) => {
            lemma_text_trichotomy(x, y);
            lemma_text_trichotomy(x, x);
        },
        _ => {
            match a {
                NodeView::Iri(x) => lemma_text_trichotomy(x, x),
                NodeView::Literal { lexical_form: x, language: lx, datatype: dx } => {
                    lemma_text_trichotomy(x, x);
                    lemma_opt_text_trichotomy(lx, lx);
                    lemma_opt_text_trichotomy(dx, dx);
                },
                NodeView::QuotedTriple(x) => lemma_text_trichotomy(x, x),
                NodeView::Variable(x) => lemma_text_trichotomy(x, x),
                _ => {},
            }
        },
    }
}

/// The term order is transitive.
pub proof fn lemma_node_transitive(a: NodeView, b: NodeView, c: NodeView)
    requires
        node_lt(a, b),
        node_lt(b, c),
    ensures
        node_lt(a, c),
{
    match (a, b, c) {
        (NodeView::Iri(x), NodeView::Iri(y), NodeView::Iri(z)) => lemma_text_transitive(x, y, z),
        (NodeView::QuotedTriple(x), NodeView::QuotedTriple(y), NodeView::QuotedTriple(z)) => lemma_text_transitive(x, y, z),
        (NodeView::Variable(x), NodeView::Variable(y), NodeView::Variable(z)) => lemma_text_transitive(x, y, z),
        (
            NodeView::Literal { lexical_form: x, language: lx, datatype: dx },
            NodeView::Literal { lexical_form: y, language: ly, datatype: dy },
            NodeView::Literal { lexical_form: z, language: lz, datatype: dz },
        ) => {
            if text_lt(x, y) && text_lt(y, z) {
                lemma_text_transitive(x, y, z);
            }
            if opt_text_lt(lx, ly) && opt_text_lt(ly, lz) {
                lemma_opt_text_transitive(lx, ly, lz);
            }
            if opt_text_lt(dx, dy) && opt_text_lt(dy, dz) {
                lemma_opt_text_transitive(dx, dy, dz);
            }
        },
        _ => {},
    }
}

/// How two terms compare.
#[derive(Debug, Clone, Copy, PartialEq, Eq, Structural)]
pub enum Relation {
    /// The first sorts before the second.
    Before,
    /// They are the same term.
    Same,
    /// The first sorts after the second.
    After,
}

/// Whether `r` is how `a` compares with `b`.
pub open spec fn relates(r: Relation, a: NodeView, b: NodeView) -> bool {
    match r {
        Relation::Before => node_lt(a, b),
        Relation::Same => a == b,
        Relation::After => node_lt(b, a),
    }
}

fn compare_chars(a: &[char], b: &[char]) -> (r: Relation)
    ensures
        match r {
            Relation::Before => text_lt(a@, b@),
            Relation::Same => a@ == b@,
            Relation::After => text_lt(b@, a@),
        },
{
    let mut i: usize = 0;
    assert(a@.skip(0) =~= a@);
    assert(b@.skip(0) =~= b@);
    while i < a.len() && i < b.len()
        invariant
            i <= a@.len(),
            i <= b@.len(),
            a@.take(i as int) == b@.take(i as int),
            text_lt(a@, b@) == text_lt(a@.skip(i as int), b@.skip(i as int)),
            text_lt(b@, a@) == text_lt(b@.skip(i as int), a@.skip(i as int)),
        decreases a@.len() - i,
    {
        let x = a[i];
        let y = b[i];
        if x < y {
            return Relation::Before;
        }
        if y < x {
            return Relation::After;
        }
        proof {
            assert(a@[i as int] == b@[i as int]);
            assert(a@.skip(i as int).drop_first() =~= a@.skip(i + 1));
            assert(b@.skip(i as int).drop_first() =~= b@.skip(i + 1));
            assert(a@.take(i + 1) =~= a@.take(i as int).push(a@[i as int]));
            assert(b@.take(i + 1) =~= b@.take(i as int).push(b@[i as int]));
        }
        i += 1;
    }
    if i < b.len() {
        Relation::Before
    } else if i < a.len() {
        Relation::After
    } else {
        assert(a@ =~= a@.take(i as int));
        assert(b@ =~= b@.take(i as int));
        Relation::Same
    }
}

fn compare_text(a: &String, b: &String) -> (r: Relation)
    ensures
        match r {
            Relation::Before => text_lt(a@, b@),
            Relation::Same => a@ == b@,
            Relation::After => text_lt(b@, a@),
        },
{
    let x = chars_of(a.as_str());
    let y = chars_of(b.as_str());
    compare_chars(x.as_slice(), y.as_slice())
}

fn compare_opt_text(a: &Option<String>, b: &Option<String>) -> (r: Relation)
    ensures
        match r {
            Relation::Before => opt_text_lt(crate::node::opt_text(*a), crate::node::opt_text(*b)),
            Relation::Same => crate::node::opt_text(*a) == crate::node::opt_text(*b),
            Relation::After => opt_text_lt(crate::node::opt_text(*b), crate::node::opt_text(*a)),
        },
{
    match (a, b) {
        (None, None) => Relation::Same,
        (None, Some(_)) => Relation::Before,
        (Some(_), None) => Relation::After,
        (Some(x), Some(y)) => compare_text(x, y),
    }
}

fn kind_index(n: &Node) -> (r: u8)
    ensures
        r as int == kind_rank(n@),
{
    match n {
        Node::Iri(_) => 0,
        Node::Literal { .. } => 1,
        Node::BlankNode(_) => 2,
        Node::QuotedTriple(_) => 3,
        Node::Variable(_) => 4,
    }
}

/// How `a` compares with `b` in the term order.
pub fn compare_nodes(a: &Node, b: &Node) -> (r: Relation)
    ensures
        relates(r, a@, b@),
{
    let ka = kind_index(a);
    let kb = kind_index(b);
    if ka < kb {
        return Relation::Before;
    }
    if kb < ka {
        return Relation::After;
    }
    match (a, b) {
        (Node::Iri(x), Node::Iri(y)) => compare_text(x, y),
        (Node::QuotedTriple(x), Node::QuotedTriple(y)) => compare_text(x, y),
        (Node::Variable(x), Node::Variable(y)) => compare_text(x, y),
        (Node::BlankNode(x), Node::BlankNode(y)) => {
            if *x < *y {
                Relation::Before
            } else if *y < *x {
                Relation::After
            } else {
                Relation::Same
            }
        },
        (
            Node::Literal { lexical_form: x, language: lx, datatype: dx },
            Node::Literal { lexical_form: y, language: ly, datatype: dy },
        ) => {
            let c = compare_text(x, y);
            match c {
                Relation::Same => {},
                _ => {
                    return c;
                },
            }
            let cl = compare_opt_text(lx, ly);
            match cl {
                Relation::Same => {},
                _ => {
                    return cl;
                },
            }
            compare_opt_text(dx, dy)
        },
        _ => {
            Relation::Same
        },
    }
}

/// The values of a sequence of terms.
pub open spec fn node_views(v: Seq<Node>) -> Seq<NodeView> {
    v.map_values(|n: Node| n@)
}

/// `s` is strictly increasing in the term order.
pub open spec fn strictly_sorted(s: Seq<NodeView>) -> bool {
    forall|i: int, j: int| 0 <= i < j < s.len() ==> node_lt(#[trigger] s[i], #[trigger] s[j])
}

/// How many elements of `s` sort strictly before `v`; for a sorted `s`, the
/// index of the first element not before `v`.
pub open spec fn count_below(s: Seq<NodeView>, v: NodeView) -> nat
    decreases s.len(),
{
    if s.len() == 0 {
        0
    } else {
        count_below(s.drop_last(), v) + if node_lt(s.last(), v) {
            1nat
        } else {
            0nat
        }
    }
}

/// In a sorted sequence, an index before which every element sorts before
/// `v`, and from which none does, is `count_below`.
pub proof fn lemma_count_below(s: Seq<NodeView>, v: NodeView, i: int)
    requires
        strictly_sorted(s),
        0 <= i <= s.len(),
        forall|j: int| 0 <= j < i ==> node_lt(#[trigger] s[j], v),
        forall|j: int| i <= j < s.len() ==> !node_lt(#[trigger] s[j], v),
    ensures
        count_below(s, v) == i,
    decreases s.len(),
{
    if s.len() > 0 {
        if i == s.len() {
            assert(node_lt(s[s.len() - 1], v));
            lemma_count_below(s.drop_last(), v, i - 1);
        } else {
            assert(!node_lt(s[s.len() - 1], v));
            lemma_count_below(s.drop_last(), v, i);
        }
    }
}

/// A sorted sequence holds no element twice.
pub proof fn lemma_sorted_distinct(s: Seq<NodeView>, i: int, j: int)
    requires
        strictly_sorted(s),
        0 <= i < s.len(),
        0 <= j < s.len(),
        i != j,
    ensures
        s[i] != s[j],
{
    if i < j {
        lemma_node_trichotomy(s[i], s[j]);
    } else {
        lemma_node_trichotomy(s[j], s[i]);
    }
}

/// The first index of the sorted `vals` whose element does not sort before
/// `v` (the length when every element does).
pub fn lower_bound(vals: &[Node], v: &Node) -> (r: usize)
    requires
        strictly_sorted(node_views(vals@)),
    ensures
        r == count_below(node_views(vals@), v@),
        r <= vals@.len(),
        forall|j: int| 0 <= j < r ==> node_lt(#[trigger] vals@[j]@, v@),
        forall|j: int| r <= j < vals@.len() ==> !node_lt(#[trigger] vals@[j]@, v@),
{
    let ghost s = node_views(vals@);
    let mut lo: usize = 0;
    let mut hi: usize = vals.len();
    while lo < hi
        invariant
            lo <= hi <= vals@.len(),
            s == node_views(vals@),
            strictly_sorted(s),
            forall|j: int| 0 <= j < lo ==> node_lt(#[trigger] vals@[j]@, v@),
            forall|j: int| hi <= j < vals@.len() ==> !node_lt(#[trigger] vals@[j]@, v@),
        decreases hi - lo,
    {
        let mid = lo + (hi - lo) / 2;
        match compare_nodes(&vals[mid], v) {
            Relation::Before => {
                proof {
                    assert forall|j: int| 0 <= j < mid + 1 implies node_lt(#[trigger] vals@[j]@, v@) by {
                        if j < mid {
                            assert(s[j] == vals@[j]@ && s[mid as int] == vals@[mid as int]@);
                            lemma_node_transitive(vals@[j]@, vals@[mid as int]@, v@);
                        }
                    }
                }
                lo = mid + 1;
            },
            _ => {
                proof {
                    assert forall|j: int| mid <= j < vals@.len() implies !node_lt(#[trigger] vals@[j]@, v@) by {
                        if j > mid {
                            assert(s[j] == vals@[j]@ && s[mid as int] == vals@[mid as int]@);
                            lemma_node_trichotomy(vals@[mid as int]@, v@);
                            if node_lt(vals@[j]@, v@) {
                                lemma_node_transitive(vals@[mid as int]@, vals@[j]@, v@);
                            }
                        } else {
                            lemma_node_trichotomy(vals@[mid as int]@, v@);
                        }
                    }
                }
                hi = mid;
            },
        }
    }
    proof {
        assert forall|j: int| 0 <= j < lo implies node_lt(#[trigger] s[j], v@) by {
            assert(s[j] == vals@[j]@);
        }
        assert forall|j: int| lo <= j < s.len() implies !node_lt(#[trigger] s[j], v@) by {
            assert(s[j] == vals@[j]@);
        }
        lemma_count_below(s, v@, lo as int);
    }
    lo
}

} // verus!
