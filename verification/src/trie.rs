//! Tries over terms, for worst-case optimal joins: each level holds its
//! values in sorted order, so that a join can seek and step through them.
//!
//! For the triples `(s1, p1, o1), (s1, p2, o2), (s2, p1, o3)` in subject,
//! predicate, object order the root holds `s1, s2`; below `s1` the level holds
//! `p1, p2`, and below `p1` the leaf level holds `o1`.
use vstd::prelude::*;
use crate::node::{Node, NodeView, Quad, QuadView};
use crate::node_order::{
    compare_nodes, count_below, lemma_count_below, lemma_node_transitive, lemma_node_trichotomy,
    lemma_sorted_distinct, lower_bound, node_lt, node_views, strictly_sorted, Relation,
};

verus! {

/// Position in a triple pattern: subject, predicate, or object.
#[derive(Debug, Clone, Copy, PartialEq, Eq, Structural)]
pub enum TriplePosition {
    /// The subject.
    Subject,
    /// The predicate.
    Predicate,
    /// The object.
    Object,
}

/// What one trie level holds: the keys it branches on, its leaf values, and
/// whether it is a leaf level.
pub struct LevelShape {
    /// Keys with a child level, in order.
    pub keys: Seq<NodeView>,
    /// Leaf values, in order.
    pub leaves: Seq<NodeView>,
    /// Whether the level reports its leaf values.
    pub is_leaf: bool,
}

/// `s` with `x` added in its sorted place, unless it is already there.
pub open spec fn add_sorted(s: Seq<NodeView>, x: NodeView) -> Seq<NodeView> {
    if s.contains(x) {
        s
    } else {
        s.insert(count_below(s, x) as int, x)
    }
}

/// The shapes of a newly made level, by path below it: the level itself is
/// empty, and it has nothing below.
pub open spec fn fresh_shapes(leaf: bool) -> spec_fn(Seq<NodeView>) -> Option<LevelShape> {
    |q: Seq<NodeView>|
        if q.len() == 0 {
            Some(LevelShape { keys: Seq::empty(), leaves: Seq::empty(), is_leaf: leaf })
        } else {
            None
        }
}

/// The shapes below key `k`, given the shapes `f` of a level by path.
pub open spec fn below(
    f: spec_fn(Seq<NodeView>) -> Option<LevelShape>,
    k: NodeView,
) -> spec_fn(Seq<NodeView>) -> Option<LevelShape> {
    |q: Seq<NodeView>| f(seq![k] + q)
}

/// The shapes of a level, by path below it, after `path` is inserted, given
/// `f`, its shapes before. The last value of a path goes into the leaf values
/// of the level it reaches; each earlier value becomes a key, with a child
/// level made when missing (a leaf level when one value remains for it).
pub open spec fn after_insert(
    f: spec_fn(Seq<NodeView>) -> Option<LevelShape>,
    path: Seq<NodeView>,
    r: Seq<NodeView>,
) -> Option<LevelShape>
    decreases path.len(),
{
    if path.len() == 0 {
        f(r)
    } else if r.len() == 0 {
        match f(r) {
            Some(s) => if path.len() == 1 {
                Some(LevelShape { keys: s.keys, leaves: add_sorted(s.leaves, path[0]), is_leaf: s.is_leaf })
            } else {
                Some(LevelShape { keys: add_sorted(s.keys, path[0]), leaves: s.leaves, is_leaf: s.is_leaf })
            },
            None => None,
        }
    } else if path.len() >= 2 && r[0] == path[0] {
        let g = if f(seq![path[0]]) is Some {
            below(f, path[0])
        } else {
            fresh_shapes(path.len() == 2)
        };
        after_insert(g, path.drop_first(), r.drop_first())
    } else {
        f(r)
    }
}

struct Branch {
    key: Node,
    child: TrieLevel,
}

spec fn branch_keys(bs: Seq<Branch>) -> Seq<NodeView> {
    bs.map_values(|b: Branch| b.key@)
}

/// A trie level: the keys it branches on, each with its child level, and the
/// leaf values stored at it.
pub struct TrieLevel {
    branches: Vec<Branch>,
    leaves: Vec<Node>,
    is_leaf: bool,
}

impl TrieLevel {
    #[verifier::type_invariant]
    spec fn sorted(&self) -> bool {
        &&& strictly_sorted(self.key_views())
        &&& strictly_sorted(node_views(self.leaves@))
    }

    /// The branch keys, in order.
    pub closed spec fn key_views(&self) -> Seq<NodeView> {
        branch_keys(self.branches@)
    }

    /// The leaf values, in order.
    pub closed spec fn leaf_views(&self) -> Seq<NodeView> {
        node_views(self.leaves@)
    }

    /// Whether the level reports its leaf values.
    pub closed spec fn leaf_level(&self) -> bool {
        self.is_leaf
    }

    /// Whether the level branches on key `k`.
    pub closed spec fn has_key(&self, k: NodeView) -> bool {
        exists|i: int| 0 <= i < self.branches@.len() && #[trigger] self.branches@[i].key@ == k
    }

    /// The position of the branch on key `k` (meaningful when there is one).
    closed spec fn branch_index(&self, k: NodeView) -> int {
        choose|i: int| 0 <= i < self.branches@.len() && #[trigger] self.branches@[i].key@ == k
    }

    /// The child level under key `k`, if the level branches on `k`.
    pub closed spec fn child_at(&self, k: NodeView) -> Option<TrieLevel> {
        if self.has_key(k) {
            Some(self.branches@[self.branch_index(k)].child)
        } else {
            None
        }
    }

    /// The values the level reports: its leaf values at a leaf level, its
    /// keys otherwise.
    pub open spec fn values_spec(&self) -> Seq<NodeView> {
        if self.leaf_level() {
            self.leaf_views()
        } else {
            self.key_views()
        }
    }

    /// What the level itself holds.
    pub open spec fn shape_here(&self) -> LevelShape {
        LevelShape { keys: self.key_views(), leaves: self.leaf_views(), is_leaf: self.leaf_level() }
    }
}

/// The shape of the level that `p` leads to from `l`, following one key per
/// step; `None` where a key is missing.
pub open spec fn shape(l: TrieLevel, p: Seq<NodeView>) -> Option<LevelShape>
    decreases p.len(),
{
    if p.len() == 0 {
        Some(l.shape_here())
    } else {
        match l.child_at(p[0]) {
            Some(c) => shape(c, p.drop_first()),
            None => None,
        }
    }
}

/// The shapes of the levels below `l`, by path.
pub open spec fn shapes_of(l: TrieLevel) -> spec_fn(Seq<NodeView>) -> Option<LevelShape> {
    |q: Seq<NodeView>| shape(l, q)
}

/// The level reached from `l` along `p`, stopping where a key is missing.
pub open spec fn reach(l: TrieLevel, p: Seq<NodeView>) -> TrieLevel
    decreases p.len(),
{
    if p.len() == 0 {
        l
    } else {
        match l.child_at(p[0]) {
            Some(c) => reach(c, p.drop_first()),
            None => l,
        }
    }
}

proof fn lemma_child_at(l: TrieLevel, j: int)
    requires
        strictly_sorted(l.key_views()),
        0 <= j < l.branches@.len(),
    ensures
        l.child_at(l.branches@[j].key@) == Some(l.branches@[j].child),
{
    let k = l.branches@[j].key@;
    assert(l.key_views()[j] == k);
    assert(l.has_key(k));
    let i = l.branch_index(k);
    assert(l.key_views()[i] == k);
    if i != j {
        lemma_sorted_distinct(l.key_views(), i, j);
    }
}

proof fn lemma_no_child(l: TrieLevel, k: NodeView)
    requires
        !l.key_views().contains(k),
    ensures
        l.child_at(k) is None,
{
    if l.has_key(k) {
        let i = l.branch_index(k);
        assert(l.key_views()[i] == k);
    }
}

/// Inserting `x` at its lower bound keeps a sorted sequence sorted.
proof fn lemma_insert_sorted(s: Seq<NodeView>, x: NodeView)
    requires
        strictly_sorted(s),
        !s.contains(x),
    ensures
        strictly_sorted(s.insert(count_below(s, x) as int, x)),
        count_below(s, x) <= s.len(),
{
    let i = lemma_lower_bound_exists(s, x);
    let t = s.insert(i, x);
    assert forall|a: int, b: int| 0 <= a < b < t.len() implies node_lt(#[trigger] t[a], #[trigger] t[b]) by {
        if b < i {
            assert(t[a] == s[a] && t[b] == s[b]);
        } else if b == i {
            assert(t[a] == s[a] && t[b] == x);
        } else if a < i {
            assert(t[a] == s[a] && t[b] == s[b - 1]);
            lemma_node_trichotomy(s[b - 1], x);
            assert(s[b - 1] != x);
            lemma_node_transitive(s[a], x, s[b - 1]);
        } else if a == i {
            assert(t[a] == x && t[b] == s[b - 1]);
            lemma_node_trichotomy(s[b - 1], x);
            if b - 1 > i {
                lemma_node_trichotomy(s[i], x);
                assert(s[i] != x);
                lemma_node_transitive(x, s[i], s[b - 1]);
            }
            assert(s[b - 1] != x);
        } else {
            assert(t[a] == s[a - 1] && t[b] == s[b - 1]);
        }
    }
}

/// In a sorted sequence, the elements before the lower bound of `x` sort
/// before it, and the others do not.
pub proof fn lemma_lower_bound_facts(s: Seq<NodeView>, x: NodeView)
    requires
        strictly_sorted(s),
    ensures
        count_below(s, x) <= s.len(),
        forall|j: int| 0 <= j < count_below(s, x) ==> node_lt(#[trigger] s[j], x),
        forall|j: int| count_below(s, x) <= j < s.len() ==> !node_lt(#[trigger] s[j], x),
{
    let _ = lemma_lower_bound_exists(s, x);
}

/// In a sorted sequence the lower bound of `x` splits it into the elements
/// before `x` and the rest.
proof fn lemma_lower_bound_exists(s: Seq<NodeView>, x: NodeView) -> (i: int)
    requires
        strictly_sorted(s),
    ensures
        i == count_below(s, x),
        0 <= i <= s.len(),
        forall|j: int| 0 <= j < i ==> node_lt(#[trigger] s[j], x),
        forall|j: int| i <= j < s.len() ==> !node_lt(#[trigger] s[j], x),
    decreases s.len(),
{
    if s.len() == 0 {
        0
    } else {
        let t = s.drop_last();
        assert(strictly_sorted(t)) by {
            assert forall|a: int, b: int| 0 <= a < b < t.len() implies node_lt(#[trigger] t[a], #[trigger] t[b]) by {
                assert(t[a] == s[a] && t[b] == s[b]);
            }
        }
        let k = lemma_lower_bound_exists(t, x);
        if node_lt(s.last(), x) {
            assert forall|j: int| 0 <= j < s.len() implies node_lt(#[trigger] s[j], x) by {
                if j < s.len() - 1 {
                    lemma_node_transitive(s[j], s.last(), x);
                }
            }
            lemma_count_below(s, x, s.len() as int);
            s.len() as int
        } else {
            assert forall|j: int| 0 <= j < k implies node_lt(#[trigger] s[j], x) by {
                assert(s[j] == t[j]);
            }
            assert forall|j: int| k <= j < s.len() implies !node_lt(#[trigger] s[j], x) by {
                if j < s.len() - 1 {
                    assert(s[j] == t[j]);
                }
            }
            lemma_count_below(s, x, k);
            k
        }
    }
}


proof fn lemma_update_other(o: TrieLevel, n: TrieLevel, i: int, nb: Branch, x: NodeView)
    requires
        strictly_sorted(o.key_views()),
        strictly_sorted(n.key_views()),
        0 <= i < o.branches@.len(),
        n.branches@ == o.branches@.update(i, nb),
        nb.key@ == o.branches@[i].key@,
        x != nb.key@,
    ensures
        n.child_at(x) == o.child_at(x),
{
    if o.has_key(x) {
        let j = o.branch_index(x);
        assert(n.branches@[j] == o.branches@[j]);
        lemma_child_at(o, j);
        lemma_child_at(n, j);
    } else if n.has_key(x) {
        let j = n.branch_index(x);
        assert(o.branches@[j].key@ == x);
    }
}

proof fn lemma_insert_other(o: TrieLevel, n: TrieLevel, i: int, nb: Branch, x: NodeView)
    requires
        strictly_sorted(o.key_views()),
        strictly_sorted(n.key_views()),
        0 <= i <= o.branches@.len(),
        n.branches@ == o.branches@.insert(i, nb),
        x != nb.key@,
    ensures
        n.child_at(x) == o.child_at(x),
{
    if o.has_key(x) {
        let j = o.branch_index(x);
        let j2 = if j < i { j } else { j + 1 };
        assert(n.branches@[j2] == o.branches@[j]);
        lemma_child_at(o, j);
        lemma_child_at(n, j2);
    } else if n.has_key(x) {
        let j = n.branch_index(x);
        if j < i {
            assert(o.branches@[j].key@ == x);
        } else if j > i {
            assert(o.branches@[j - 1].key@ == x);
        }
    }
}

proof fn lemma_shape_below(o: TrieLevel, k: NodeView, c: TrieLevel)
    requires
        o.child_at(k) == Some(c),
    ensures
        below(shapes_of(o), k) =~= shapes_of(c),
        shapes_of(o)(seq![k]) is Some,
{
    assert forall|q: Seq<NodeView>| #[trigger] below(shapes_of(o), k)(q) == shapes_of(c)(q) by {
        let p = seq![k] + q;
        assert(p[0] == k);
        assert(p.drop_first() =~= q);
    }
    assert(seq![k][0] == k);
    assert(seq![k].drop_first() =~= Seq::<NodeView>::empty());
    assert(shape(o, seq![k]) == shape(c, Seq::<NodeView>::empty()));
}

proof fn lemma_fresh_shapes(l: TrieLevel, b: bool)
    requires
        l.key_views() == Seq::<NodeView>::empty(),
        l.leaf_views() == Seq::<NodeView>::empty(),
        l.leaf_level() == b,
    ensures
        shapes_of(l) =~= fresh_shapes(b),
{
    assert forall|q: Seq<NodeView>| #[trigger] shapes_of(l)(q) == fresh_shapes(b)(q) by {
        if q.len() > 0 {
            lemma_no_child(l, q[0]);
        }
    }
}

/// Where the lower bound of `x` in a sorted sequence does not hold `x`, the
/// sequence does not hold it anywhere.
proof fn lemma_absent_at_bound(s: Seq<NodeView>, x: NodeView, i: int)
    requires
        strictly_sorted(s),
        0 <= i <= s.len(),
        forall|j: int| 0 <= j < i ==> node_lt(#[trigger] s[j], x),
        forall|j: int| i <= j < s.len() ==> !node_lt(#[trigger] s[j], x),
        i < s.len() ==> s[i] != x,
    ensures
        !s.contains(x),
{
    if s.contains(x) {
        let j = choose|j: int| 0 <= j < s.len() && s[j] == x;
        if j < i {
            lemma_node_trichotomy(x, x);
        } else if j > i {
            lemma_node_trichotomy(s[i], x);
        }
    }
}

impl TrieLevel {
    /// An empty level; `is_leaf` says whether it reports leaf values.
    pub fn new(is_leaf: bool) -> (r: TrieLevel)
        ensures
            r.key_views() == Seq::<NodeView>::empty(),
            r.leaf_views() == Seq::<NodeView>::empty(),
            r.leaf_level() == is_leaf,
    {
        let r = TrieLevel { branches: Vec::new(), leaves: Vec::new(), is_leaf };
        assert(r.key_views() =~= Seq::<NodeView>::empty());
        assert(r.leaf_views() =~= Seq::<NodeView>::empty());
        r
    }

    fn branch_bound(bs: &Vec<Branch>, v: &Node) -> (r: usize)
        requires
            strictly_sorted(branch_keys(bs@)),
        ensures
            r <= bs@.len(),
            r == count_below(branch_keys(bs@), v@),
            forall|j: int| 0 <= j < r ==> node_lt(#[trigger] bs@[j].key@, v@),
            forall|j: int| r <= j < bs@.len() ==> !node_lt(#[trigger] bs@[j].key@, v@),
    {
        let ghost s = branch_keys(bs@);
        let mut lo: usize = 0;
        let mut hi: usize = bs.len();
        while lo < hi
            invariant
                lo <= hi <= bs@.len(),
                s == branch_keys(bs@),
                strictly_sorted(s),
                forall|j: int| 0 <= j < lo ==> node_lt(#[trigger] bs@[j].key@, v@),
                forall|j: int| hi <= j < bs@.len() ==> !node_lt(#[trigger] bs@[j].key@, v@),
            decreases hi - lo,
        {
            let mid = lo + (hi - lo) / 2;
            match compare_nodes(&bs[mid].key, v) {
                Relation::Before => {
                    proof {
                        assert forall|j: int| 0 <= j < mid + 1 implies node_lt(#[trigger] bs@[j].key@, v@) by {
                            if j < mid {
                                assert(s[j] == bs@[j].key@ && s[mid as int] == bs@[mid as int].key@);
                                lemma_node_transitive(bs@[j].key@, bs@[mid as int].key@, v@);
                            }
                        }
                    }
                    lo = mid + 1;
                },
                _ => {
                    proof {
                        assert forall|j: int| mid <= j < bs@.len() implies !node_lt(#[trigger] bs@[j].key@, v@) by {
                            lemma_node_trichotomy(bs@[mid as int].key@, v@);
                            if j > mid {
                                assert(s[j] == bs@[j].key@ && s[mid as int] == bs@[mid as int].key@);
                                if node_lt(bs@[j].key@, v@) {
                                    lemma_node_transitive(bs@[mid as int].key@, bs@[j].key@, v@);
                                }
                            }
                        }
                    }
                    hi = mid;
                },
            }
        }
        proof {
            assert forall|j: int| 0 <= j < lo implies node_lt(#[trigger] s[j], v@) by {
                assert(s[j] == bs@[j].key@);
            }
            assert forall|j: int| lo <= j < s.len() implies !node_lt(#[trigger] s[j], v@) by {
                assert(s[j] == bs@[j].key@);
            }
            lemma_count_below(s, v@, lo as int);
        }
        lo
    }


    /// Inserts a path below this level: its last value goes into the leaf
    /// values of the level it reaches, each earlier value becomes a key, with
    /// a child level made where missing (a leaf level when one value remains
    /// for it). An empty path changes nothing.
    pub fn insert(&mut self, path: &[Node])
        ensures
            forall|r: Seq<NodeView>| #[trigger] shape(*final(self), r) == after_insert(shapes_of(*old(self)), node_views(path@), r),
        decreases path@.len(),
    {
        proof {
            use_type_invariant(&*self);
        }
        let ghost o = *self;
        let ghost pv = node_views(path@);
        if path.len() == 0 {
            return;
        }
        if path.len() == 1 {
            let mut lv: Vec<Node> = Vec::new();
            std::mem::swap(&mut lv, &mut self.leaves);
            let ghost ls = node_views(lv@);
            assert(ls == o.leaf_views());
            let i = lower_bound(lv.as_slice(), &path[0]);
            let mut present = false;
            if i < lv.len() {
                match compare_nodes(&lv[i], &path[0]) {
                    Relation::Same => {
                        present = true;
                    },
                    _ => {},
                }
            }
            if present {
                assert(ls[i as int] == pv[0]);
                assert(ls.contains(pv[0]));
            } else {
                proof {
                    assert forall|j: int| 0 <= j < i implies node_lt(#[trigger] ls[j], pv[0]) by {
                        assert(ls[j] == lv@[j]@);
                    }
                    assert forall|j: int| i <= j < ls.len() implies !node_lt(#[trigger] ls[j], pv[0]) by {
                        assert(ls[j] == lv@[j]@);
                    }
                    lemma_absent_at_bound(ls, pv[0], i as int);
                    lemma_insert_sorted(ls, pv[0]);
                }
                let d = path[0].duplicate();
                let ghost before = lv@;
                lv.insert(i, d);
                assert(node_views(lv@) =~= ls.insert(i as int, pv[0])) by {
                    assert forall|j: int| 0 <= j < lv@.len() implies #[trigger] node_views(lv@)[j] == ls.insert(i as int, pv[0])[j] by {
                        if j < i {
                            assert(lv@[j] == before[j]);
                        } else if j > i {
                            assert(lv@[j] == before[j - 1]);
                        }
                    }
                }
            }
            assert(node_views(lv@) == add_sorted(o.leaf_views(), pv[0]));
            self.leaves = lv;
            proof {
                assert forall|r: Seq<NodeView>| #[trigger] shape(*self, r) == after_insert(shapes_of(o), pv, r) by {
                    if r.len() > 0 {
                        assert(self.child_at(r[0]) == o.child_at(r[0]));
                    }
                }
            }
            return;
        }
        let rest = vstd::slice::slice_subrange(path, 1, path.len());
        let ghost rv = node_views(rest@);
        assert(rv =~= pv.drop_first());
        let mut bs: Vec<Branch> = Vec::new();
        std::mem::swap(&mut bs, &mut self.branches);
        let ghost ob = bs@;
        assert(ob == o.branches@);
        let i = TrieLevel::branch_bound(&bs, &path[0]);
        let mut found = false;
        if i < bs.len() {
            match compare_nodes(&bs[i].key, &path[0]) {
                Relation::Same => {
                    found = true;
                },
                _ => {},
            }
        }
        if found {
            let mut b = bs.remove(i);
            let ghost c0 = b.child;
            proof {
                lemma_child_at(o, i as int);
                lemma_shape_below(o, pv[0], c0);
            }
            b.child.insert(rest);
            let ghost nb = b;
            bs.insert(i, b);
            assert(bs@ =~= ob.update(i as int, nb));
            assert(branch_keys(bs@) =~= o.key_views()) by {
                assert forall|j: int| 0 <= j < bs@.len() implies #[trigger] branch_keys(bs@)[j] == o.key_views()[j] by {
                    if j != i {
                        assert(bs@[j] == ob[j]);
                    }
                }
            }
            assert(o.key_views().contains(pv[0])) by {
                assert(o.key_views()[i as int] == pv[0]);
            }
            self.branches = bs;
            proof {
                let n = *self;
                lemma_child_at(n, i as int);
                assert forall|r: Seq<NodeView>| #[trigger] shape(n, r) == after_insert(shapes_of(o), pv, r) by {
                    if r.len() > 0 {
                        if r[0] == pv[0] {
                            assert(shape(nb.child, r.drop_first()) == after_insert(shapes_of(c0), rv, r.drop_first()));
                        } else {
                            lemma_update_other(o, n, i as int, nb, r[0]);
                        }
                    }
                }
            }
        } else {
            proof {
                assert forall|j: int| 0 <= j < i implies node_lt(#[trigger] o.key_views()[j], pv[0]) by {
                    assert(o.key_views()[j] == ob[j].key@);
                }
                assert forall|j: int| i <= j < o.key_views().len() implies !node_lt(#[trigger] o.key_views()[j], pv[0]) by {
                    assert(o.key_views()[j] == ob[j].key@);
                }
                lemma_absent_at_bound(o.key_views(), pv[0], i as int);
                lemma_no_child(o, pv[0]);
                lemma_insert_sorted(o.key_views(), pv[0]);
            }
            let mut child = TrieLevel::new(rest.len() == 1);
            let ghost c0 = child;
            proof {
                lemma_fresh_shapes(c0, rest@.len() == 1);
            }
            child.insert(rest);
            let nb = Branch { key: path[0].duplicate(), child };
            let ghost nbg = nb;
            bs.insert(i, nb);
            assert(branch_keys(bs@) =~= o.key_views().insert(i as int, pv[0])) by {
                assert forall|j: int| 0 <= j < bs@.len() implies #[trigger] branch_keys(bs@)[j] == o.key_views().insert(i as int, pv[0])[j] by {
                    if j < i {
                        assert(bs@[j] == ob[j]);
                    } else if j > i {
                        assert(bs@[j] == ob[j - 1]);
                    }
                }
            }
            self.branches = bs;
            proof {
                let n = *self;
                assert(n.branches@[i as int] == nbg);
                lemma_child_at(n, i as int);
                assert(shapes_of(o)(seq![pv[0]]) is None) by {
                    assert(seq![pv[0]][0] == pv[0]);
                }
                assert forall|r: Seq<NodeView>| #[trigger] shape(n, r) == after_insert(shapes_of(o), pv, r) by {
                    if r.len() > 0 {
                        if r[0] == pv[0] {
                            assert(shape(nbg.child, r.drop_first()) == after_insert(shapes_of(c0), rv, r.drop_first()));
                        } else {
                            lemma_insert_other(o, n, i as int, nbg, r[0]);
                        }
                    }
                }
            }
        }
    }

    /// The values the level reports, in order: its leaf values at a leaf
    /// level, its keys otherwise.
    pub fn sorted_values(&self) -> (r: Vec<Node>)
        ensures
            node_views(r@) == self.values_spec(),
            strictly_sorted(self.values_spec()),
    {
        proof {
            use_type_invariant(self);
        }
        let mut out: Vec<Node> = Vec::new();
        if self.is_leaf {
            let mut i: usize = 0;
            while i < self.leaves.len()
                invariant
                    i <= self.leaves@.len(),
                    out@.len() == i,
                    node_views(out@) == node_views(self.leaves@).take(i as int),
                decreases self.leaves@.len() - i,
            {
                let d = self.leaves[i].duplicate();
                let ghost before = out@;
                out.push(d);
                proof {
                    assert forall|j: int| 0 <= j < i + 1 implies #[trigger] node_views(out@)[j] == node_views(self.leaves@).take(i + 1)[j] by {
                        if j < i {
                            assert(out@[j] == before[j]);
                            assert(node_views(before)[j] == node_views(self.leaves@).take(i as int)[j]);
                        }
                    }
                }
                i += 1;
                assert(node_views(out@) =~= node_views(self.leaves@).take(i as int));
            }
            assert(node_views(self.leaves@).take(i as int) =~= node_views(self.leaves@));
        } else {
            let mut i: usize = 0;
            while i < self.branches.len()
                invariant
                    i <= self.branches@.len(),
                    out@.len() == i,
                    node_views(out@) == self.key_views().take(i as int),
                decreases self.branches@.len() - i,
            {
                let d = self.branches[i].key.duplicate();
                let ghost before = out@;
                out.push(d);
                proof {
                    assert forall|j: int| 0 <= j < i + 1 implies #[trigger] node_views(out@)[j] == self.key_views().take(i + 1)[j] by {
                        if j < i {
                            assert(out@[j] == before[j]);
                            assert(node_views(before)[j] == self.key_views().take(i as int)[j]);
                        }
                    }
                }
                i += 1;
                assert(node_views(out@) =~= self.key_views().take(i as int));
            }
            assert(self.key_views().take(i as int) =~= self.key_views());
        }
        out
    }

    /// The child level under `value`, if the level branches on it.
    pub fn get_child(&self, value: &Node) -> (r: Option<&TrieLevel>)
        ensures
            match r {
                Some(c) => self.child_at(value@) == Some(*c),
                None => self.child_at(value@) is None,
            },
    {
        proof {
            use_type_invariant(self);
        }
        let i = TrieLevel::branch_bound(&self.branches, value);
        if i < self.branches.len() {
            match compare_nodes(&self.branches[i].key, value) {
                Relation::Same => {
                    proof {
                        lemma_child_at(*self, i as int);
                    }
                    return Some(&self.branches[i].child);
                },
                _ => {},
            }
        }
        proof {
            self.lemma_key_absent(value@, i as int);
            lemma_no_child(*self, value@);
        }
        None
    }

    proof fn lemma_key_absent(&self, k: NodeView, i: int)
        requires
            strictly_sorted(self.key_views()),
            0 <= i <= self.branches@.len(),
            forall|j: int| 0 <= j < i ==> node_lt(#[trigger] self.branches@[j].key@, k),
            forall|j: int| i <= j < self.branches@.len() ==> !node_lt(#[trigger] self.branches@[j].key@, k),
            i < self.branches@.len() ==> self.branches@[i].key@ != k,
        ensures
            !self.key_views().contains(k),
    {
        let s = self.key_views();
        if s.contains(k) {
            let j = choose|j: int| 0 <= j < s.len() && s[j] == k;
            assert(s[j] == self.branches@[j].key@);
            if j < i {
                lemma_node_trichotomy(k, k);
            } else if j > i {
                assert(s[i] == self.branches@[i].key@);
                lemma_node_trichotomy(s[i], k);
            }
        }
    }

    /// Whether the level holds no key and no leaf value.
    pub fn is_empty(&self) -> (r: bool)
        ensures
            r == (self.key_views().len() == 0 && self.leaf_views().len() == 0),
    {
        self.branches.len() == 0 && self.leaves.len() == 0
    }

    /// The number of values the level reports.
    pub fn len(&self) -> (r: usize)
        ensures
            r == self.values_spec().len(),
    {
        if self.is_leaf {
            self.leaves.len()
        } else {
            self.branches.len()
        }
    }
}


/// The path of a quad in the given order of positions.
pub open spec fn quad_path(q: QuadView, ordering: Seq<TriplePosition>) -> Seq<NodeView> {
    ordering.map_values(
        |p: TriplePosition|
            match p {
                TriplePosition::Subject => q.subject,
                TriplePosition::Predicate => q.predicate,
                TriplePosition::Object => q.object,
            },
    )
}

/// The shapes by path after inserting `path`, given the shapes `f` before.
pub open spec fn inserted(
    f: spec_fn(Seq<NodeView>) -> Option<LevelShape>,
    path: Seq<NodeView>,
) -> spec_fn(Seq<NodeView>) -> Option<LevelShape> {
    |r: Seq<NodeView>| after_insert(f, path, r)
}

/// The shapes by path of a root (not a leaf level) into which `paths` were
/// inserted in order.
pub open spec fn built_shapes(paths: Seq<Seq<NodeView>>) -> spec_fn(Seq<NodeView>) -> Option<LevelShape>
    decreases paths.len(),
{
    if paths.len() == 0 {
        fresh_shapes(false)
    } else {
        inserted(built_shapes(paths.drop_last()), paths.last())
    }
}

/// The paths of quads in the given order of positions.
pub open spec fn quad_paths(quads: Seq<Quad>, ordering: Seq<TriplePosition>) -> Seq<Seq<NodeView>> {
    quads.map_values(|q: Quad| quad_path(q@, ordering))
}

/// A trie over quads with a cursor: the cursor stands at a level (0 for the
/// root) and holds the path of values it has stepped to; the level it reads
/// is the one that path leads to.
pub struct Trie {
    root: TrieLevel,
    depth: usize,
    current_path: Vec<Node>,
    current_level: usize,
}

impl Trie {
    #[verifier::type_invariant]
    spec fn cursor_bounds(&self) -> bool {
        self.current_path@.len() <= self.current_level + 1 && self.current_level <= self.depth
    }

    /// The cursor never holds more than one value beyond its level, and its
    /// level never passes the depth.
    pub open spec fn cursor_ok(&self) -> bool {
        self.path_spec().len() <= self.level_spec() + 1 && self.level_spec() <= self.depth_spec()
    }

    /// The root level.
    pub closed spec fn root_level(&self) -> TrieLevel {
        self.root
    }

    /// The number of levels.
    pub closed spec fn depth_spec(&self) -> usize {
        self.depth
    }

    /// The values the cursor has stepped to, level by level.
    pub closed spec fn path_spec(&self) -> Seq<NodeView> {
        node_views(self.current_path@)
    }

    /// The level the cursor stands at.
    pub closed spec fn level_spec(&self) -> usize {
        self.current_level
    }

    /// The part of the path above the cursor's level.
    pub open spec fn walked(&self) -> Seq<NodeView> {
        if self.level_spec() <= self.path_spec().len() {
            self.path_spec().take(self.level_spec() as int)
        } else {
            self.path_spec()
        }
    }

    /// The level the cursor reads: where the walked path leads from the root.
    pub open spec fn focus(&self) -> TrieLevel {
        reach(self.root_level(), self.walked())
    }

    /// The values of the level the cursor reads.
    pub open spec fn focus_values(&self) -> Seq<NodeView> {
        self.focus().values_spec()
    }

    /// The shapes by path of the trie's levels.
    pub open spec fn shapes(&self) -> spec_fn(Seq<NodeView>) -> Option<LevelShape> {
        shapes_of(self.root_level())
    }

    /// An empty trie with `depth` levels, its cursor at the root.
    pub fn new(depth: usize) -> (r: Trie)
        ensures
            r.shapes() == fresh_shapes(false),
            r.depth_spec() == depth,
            r.path_spec() == Seq::<NodeView>::empty(),
            r.level_spec() == 0,
    {
        let root = TrieLevel::new(false);
        proof {
            lemma_fresh_shapes(root, false);
        }
        let r = Trie { root, depth, current_path: Vec::new(), current_level: 0 };
        assert(r.path_spec() =~= Seq::<NodeView>::empty());
        r
    }

    fn extract_path(quad: &Quad, ordering: &[TriplePosition]) -> (r: Vec<Node>)
        ensures
            node_views(r@) == quad_path(quad@, ordering@),
    {
        let mut out: Vec<Node> = Vec::new();
        let mut i: usize = 0;
        while i < ordering.len()
            invariant
                i <= ordering@.len(),
                out@.len() == i,
                node_views(out@) == quad_path(quad@, ordering@).take(i as int),
            decreases ordering@.len() - i,
        {
            let n = match ordering[i] {
                TriplePosition::Subject => quad.subject.duplicate(),
                TriplePosition::Predicate => quad.predicate.duplicate(),
                TriplePosition::Object => quad.object.duplicate(),
            };
            let ghost before = out@;
            out.push(n);
            proof {
                assert forall|j: int| 0 <= j < i + 1 implies #[trigger] node_views(out@)[j] == quad_path(quad@, ordering@).take(i + 1)[j] by {
                    if j < i {
                        assert(out@[j] == before[j]);
                        assert(node_views(before)[j] == quad_path(quad@, ordering@).take(i as int)[j]);
                    }
                }
            }
            i += 1;
            assert(node_views(out@) =~= quad_path(quad@, ordering@).take(i as int));
        }
        assert(quad_path(quad@, ordering@).take(i as int) =~= quad_path(quad@, ordering@));
        out
    }

    /// A trie with one level per position of `ordering`, holding the path of
    /// each quad in that order, inserted one after another; the cursor at the
    /// root.
    pub fn from_quads(quads: Vec<Quad>, ordering: &[TriplePosition]) -> (r: Trie)
        ensures
            r.shapes() == built_shapes(quad_paths(quads@, ordering@)),
            r.depth_spec() == ordering@.len(),
            r.path_spec() == Seq::<NodeView>::empty(),
            r.level_spec() == 0,
    {
        let ghost ps = quad_paths(quads@, ordering@);
        let mut root = TrieLevel::new(false);
        proof {
            lemma_fresh_shapes(root, false);
        }
        let mut i: usize = 0;
        assert(ps.take(0) =~= Seq::<Seq<NodeView>>::empty());
        while i < quads.len()
            invariant
                i <= quads@.len(),
                ps == quad_paths(quads@, ordering@),
                shapes_of(root) == built_shapes(ps.take(i as int)),
            decreases quads@.len() - i,
        {
            let path = Trie::extract_path(&quads[i], ordering);
            let ghost before = root;
            root.insert(path.as_slice());
            proof {
                assert(ps.take(i + 1).drop_last() =~= ps.take(i as int));
                assert(ps[i as int] == node_views(path@));
                assert(shapes_of(root) =~= inserted(shapes_of(before), node_views(path@))) by {
                    assert forall|r: Seq<NodeView>| #[trigger] shapes_of(root)(r) == inserted(shapes_of(before), node_views(path@))(r) by {
                        assert(shape(root, r) == after_insert(shapes_of(before), node_views(path@), r));
                    }
                }
            }
            i += 1;
        }
        assert(ps.take(i as int) =~= ps);
        let r = Trie { root, depth: ordering.len(), current_path: Vec::new(), current_level: 0 };
        assert(r.path_spec() =~= Seq::<NodeView>::empty());
        r
    }

    /// The root level.
    pub fn root(&self) -> (r: &TrieLevel)
        ensures
            *r == self.root_level(),
    {
        &self.root
    }

    /// The values of the root level, in order.
    pub fn root_values(&self) -> (r: Vec<Node>)
        ensures
            node_views(r@) == self.root_level().values_spec(),
    {
        self.root.sorted_values()
    }

    fn get_current_level(&self) -> (r: &TrieLevel)
        ensures
            *r == self.focus(),
    {
        let lim = if self.current_level <= self.current_path.len() {
            self.current_level
        } else {
            self.current_path.len()
        };
        let ghost w = self.walked();
        assert(w =~= node_views(self.current_path@).take(lim as int));
        let mut level: &TrieLevel = &self.root;
        let mut i: usize = 0;
        assert(w.skip(0) =~= w);
        while i < lim
            invariant
                i <= lim <= self.current_path@.len(),
                w == node_views(self.current_path@).take(lim as int),
                w == self.walked(),
                reach(self.root, w) == reach(*level, w.skip(i as int)),
            decreases lim - i,
        {
            let ghost ws = w.skip(i as int);
            assert(ws[0] == self.current_path@[i as int]@);
            match level.get_child(&self.current_path[i]) {
                Some(c) => {
                    assert(ws.drop_first() =~= w.skip(i + 1));
                    level = c;
                },
                None => {
                    assert(ws.len() > 0);
                    assert(reach(*level, ws) == *level);
                    return level;
                },
            }
            i += 1;
        }
        assert(w.skip(i as int) =~= Seq::<NodeView>::empty());
        level
    }

    /// Moves the cursor, at its level, to `value` or else to the first value
    /// after it, and says whether `value` itself is there; past the last value
    /// the cursor is left at the end.
    pub fn seek(&mut self, value: &Node) -> (r: bool)
        ensures
            old(self).cursor_ok(),
            strictly_sorted(old(self).focus_values()),
            final(self).root_level() == old(self).root_level(),
            final(self).depth_spec() == old(self).depth_spec(),
            ({
                let vals = old(self).focus_values();
                let i = count_below(vals, value@);
                if i < vals.len() {
                    &&& r == (vals[i as int] == value@)
                    &&& final(self).path_spec() == old(self).walked().push(vals[i as int])
                    &&& final(self).level_spec() == old(self).level_spec()
                } else {
                    &&& !r
                    &&& final(self).path_spec() == old(self).path_spec()
                    &&& final(self).level_spec() == old(self).depth_spec()
                }
            }),
    {
        proof {
            use_type_invariant(&*self);
        }
        let level = self.get_current_level();
        proof {
            use_type_invariant(level);
        }
        let values = level.sorted_values();
        let idx = lower_bound(values.as_slice(), value);
        if idx < values.len() {
            let found = match compare_nodes(&values[idx], value) {
                Relation::Same => true,
                _ => false,
            };
            let v = values[idx].duplicate();
            assert(v@ == node_views(values@)[idx as int]);
            let ghost before = self.current_path@;
            let mut p: Vec<Node> = Vec::new();
            std::mem::swap(&mut p, &mut self.current_path);
            p.truncate(self.current_level);
            p.push(v);
            self.current_path = p;
            proof {
                assert(self.path_spec() =~= old(self).walked().push(v@)) by {
                    assert forall|j: int| 0 <= j < self.current_path@.len() - 1 implies #[trigger] self.current_path@[j] == before[j] by {}
                }
            }
            found
        } else {
            self.current_level = self.depth;
            false
        }
    }

    /// Moves the cursor to the next value at its level and returns it: the
    /// first value when the cursor has none yet at this level, else the value
    /// after its current one; without one, the cursor is left at the end.
    pub fn next(&mut self) -> (r: Option<Node>)
        ensures
            old(self).cursor_ok(),
            strictly_sorted(old(self).focus_values()),
            final(self).root_level() == old(self).root_level(),
            final(self).depth_spec() == old(self).depth_spec(),
            ({
                let vals = old(self).focus_values();
                let p = old(self).path_spec();
                let l = old(self).level_spec();
                if vals.len() == 0 {
                    &&& r is None
                    &&& final(self).path_spec() == p
                    &&& final(self).level_spec() == l
                } else if p.len() <= l {
                    &&& crate::node::opt_node(r) == Some(vals[0])
                    &&& final(self).path_spec() == p.push(vals[0])
                    &&& final(self).level_spec() == l
                } else {
                    let i = count_below(vals, p[l as int]);
                    if i + 1 < vals.len() && vals[i as int] == p[l as int] {
                        &&& crate::node::opt_node(r) == Some(vals[(i + 1) as int])
                        &&& final(self).path_spec() == p.take(l as int).push(vals[(i + 1) as int])
                        &&& final(self).level_spec() == l
                    } else {
                        &&& r is None
                        &&& final(self).path_spec() == p
                        &&& final(self).level_spec() == old(self).depth_spec()
                    }
                }
            }),
    {
        proof {
            use_type_invariant(&*self);
        }
        let level = self.get_current_level();
        proof {
            use_type_invariant(level);
        }
        let values = level.sorted_values();
        if values.len() == 0 {
            return None;
        }
        let ghost before = self.current_path@;
        if self.current_path.len() <= self.current_level {
            let first = values[0].duplicate();
            let out = values[0].duplicate();
            assert(first@ == node_views(values@)[0]);
            let mut p: Vec<Node> = Vec::new();
            std::mem::swap(&mut p, &mut self.current_path);
            p.truncate(self.current_level);
            p.push(first);
            self.current_path = p;
            assert(self.path_spec() =~= node_views(before).push(out@)) by {
                assert forall|j: int| 0 <= j < self.current_path@.len() - 1 implies #[trigger] self.current_path@[j] == before[j] by {}
            }
            return Some(out);
        }
        let idx = lower_bound(values.as_slice(), &self.current_path[self.current_level]);
        assert(node_views(before)[self.current_level as int] == self.current_path@[self.current_level as int]@);
        if idx < values.len() {
            let same = match compare_nodes(&values[idx], &self.current_path[self.current_level]) {
                Relation::Same => true,
                _ => false,
            };
            if same && idx + 1 < values.len() {
                let nxt = values[idx + 1].duplicate();
                let out = values[idx + 1].duplicate();
                assert(nxt@ == node_views(values@)[idx + 1]);
                let mut p: Vec<Node> = Vec::new();
                std::mem::swap(&mut p, &mut self.current_path);
                p.truncate(self.current_level);
                p.push(nxt);
                self.current_path = p;
                assert(self.path_spec() =~= node_views(before).take(old(self).level_spec() as int).push(out@)) by {
                    assert forall|j: int| 0 <= j < self.current_path@.len() - 1 implies #[trigger] self.current_path@[j] == before[j] by {}
                }
                return Some(out);
            }
        }
        self.current_level = self.depth;
        None
    }

    /// Whether the cursor is at the end (its level is the depth or past it).
    pub fn at_end(&self) -> (r: bool)
        ensures
            r == (self.level_spec() >= self.depth_spec()),
            self.cursor_ok(),
    {
        proof {
            use_type_invariant(self);
        }
        self.current_level >= self.depth
    }

    /// Moves the cursor one level down, below its current value; refused at
    /// the last level and where the cursor has no value at its level.
    pub fn open(&mut self) -> (r: bool)
        requires
            old(self).depth_spec() >= 1,
        ensures
            final(self).root_level() == old(self).root_level(),
            final(self).depth_spec() == old(self).depth_spec(),
            final(self).path_spec() == old(self).path_spec(),
            r == (old(self).level_spec() < old(self).depth_spec() - 1 && old(self).path_spec().len() > old(self).level_spec()),
            final(self).level_spec() == if r {
                old(self).level_spec() + 1
            } else {
                old(self).level_spec() as int
            },
    {
        proof {
            use_type_invariant(&*self);
        }
        if self.current_level >= self.depth - 1 {
            return false;
        }
        if self.current_path.len() <= self.current_level {
            return false;
        }
        self.current_level += 1;
        true
    }

    /// Moves the cursor one level up, dropping the values below it; refused
    /// at the root.
    pub fn up(&mut self) -> (r: bool)
        ensures
            final(self).root_level() == old(self).root_level(),
            final(self).depth_spec() == old(self).depth_spec(),
            r == (old(self).level_spec() > 0),
            r ==> final(self).level_spec() == old(self).level_spec() - 1,
            r ==> final(self).path_spec() == if old(self).level_spec() - 1 <= old(self).path_spec().len() {
                old(self).path_spec().take(old(self).level_spec() - 1)
            } else {
                old(self).path_spec()
            },
            !r ==> final(self).level_spec() == old(self).level_spec() && final(self).path_spec() == old(self).path_spec(),
    {
        proof {
            use_type_invariant(&*self);
        }
        if self.current_level == 0 {
            return false;
        }
        let mut p: Vec<Node> = Vec::new();
        std::mem::swap(&mut p, &mut self.current_path);
        p.truncate(self.current_level - 1);
        self.current_path = p;
        self.current_level -= 1;
        assert(self.path_spec() =~= if old(self).level_spec() - 1 <= old(self).path_spec().len() {
            old(self).path_spec().take(old(self).level_spec() - 1)
        } else {
            old(self).path_spec()
        });
        true
    }

    /// The cursor's value at its level, if it has one.
    pub fn current(&self) -> (r: Option<Node>)
        ensures
            self.cursor_ok(),
            crate::node::opt_node(r) == if self.path_spec().len() > self.level_spec() {
                Some(self.path_spec()[self.level_spec() as int])
            } else {
                None
            },
    {
        proof {
            use_type_invariant(self);
        }
        if self.current_path.len() > self.current_level {
            Some(self.current_path[self.current_level].duplicate())
        } else {
            None
        }
    }

    /// Puts the cursor back at the root, with no value.
    pub fn reset(&mut self)
        ensures
            final(self).root_level() == old(self).root_level(),
            final(self).depth_spec() == old(self).depth_spec(),
            final(self).path_spec() == Seq::<NodeView>::empty(),
            final(self).level_spec() == 0,
    {
        proof {
            use_type_invariant(&*self);
        }
        self.current_path = Vec::new();
        self.current_level = 0;
        assert(self.path_spec() =~= Seq::<NodeView>::empty());
    }

    /// The number of levels.
    pub fn depth(&self) -> (r: usize)
        ensures
            r == self.depth_spec(),
    {
        self.depth
    }
}


/// `p` can be walked down from `l`: each value of `p` is among the values of
/// the level the values before it lead to.
pub open spec fn along(l: TrieLevel, p: Seq<NodeView>) -> bool {
    forall|j: int| 0 <= j < p.len() ==> #[trigger] reach(l, p.take(j)).values_spec().contains(p[j])
}

/// The values a level of shape `s` reports.
pub open spec fn shape_values(s: LevelShape) -> Seq<NodeView> {
    if s.is_leaf {
        s.leaves
    } else {
        s.keys
    }
}

/// In the shapes `f`, exactly the levels `m - 1` values below the root are
/// leaf levels.
pub open spec fn leaf_at(f: spec_fn(Seq<NodeView>) -> Option<LevelShape>, m: int) -> bool {
    forall|r: Seq<NodeView>| #[trigger] f(r) is Some ==> (f(r)->0.is_leaf <==> r.len() + 1 == m)
}

/// In the shapes `f`, each value of `p` is among the values of the level the
/// values before it lead to.
pub open spec fn holds(f: spec_fn(Seq<NodeView>) -> Option<LevelShape>, p: Seq<NodeView>) -> bool {
    forall|j: int|
        0 <= j < p.len() ==> #[trigger] f(p.take(j)) is Some && shape_values(f(p.take(j))->0).contains(p[j])
}

proof fn lemma_add_sorted_keeps(s: Seq<NodeView>, x: NodeView, y: NodeView)
    ensures
        add_sorted(s, x).contains(x),
        s.contains(y) ==> add_sorted(s, x).contains(y),
{
    if !s.contains(x) {
        let i = count_below(s, x) as int;
        let t = s.insert(i, x);
        if 0 <= i <= s.len() {
            assert(t[i] == x);
            if s.contains(y) {
                let k = choose|k: int| 0 <= k < s.len() && s[k] == y;
                if k < i {
                    assert(t[k] == y);
                } else {
                    assert(t[k + 1] == y);
                }
            }
        } else {
            assert(count_below(s, x) <= s.len()) by {
                lemma_count_below_bound(s, x);
            }
        }
    }
}

proof fn lemma_count_below_bound(s: Seq<NodeView>, x: NodeView)
    ensures
        count_below(s, x) <= s.len(),
    decreases s.len(),
{
    if s.len() > 0 {
        lemma_count_below_bound(s.drop_last(), x);
    }
}

/// Inserting a path of `m` values into shapes whose leaf levels sit `m - 1`
/// below the root keeps them there and makes the path held.
proof fn lemma_insert_holds(f: spec_fn(Seq<NodeView>) -> Option<LevelShape>, p: Seq<NodeView>)
    requires
        p.len() >= 1,
        leaf_at(f, p.len() as int),
        f(Seq::<NodeView>::empty()) is Some,
    ensures
        leaf_at(inserted(f, p), p.len() as int),
        inserted(f, p)(Seq::<NodeView>::empty()) is Some,
        holds(inserted(f, p), p),
    decreases p.len(),
{
    let m = p.len() as int;
    let ff = inserted(f, p);
    let e = Seq::<NodeView>::empty();
    let s0 = f(e)->0;
    assert(f(e)->0.is_leaf <==> e.len() + 1 == m);
    lemma_add_sorted_keeps(s0.leaves, p[0], p[0]);
    lemma_add_sorted_keeps(s0.keys, p[0], p[0]);
    if m == 1 {
        assert forall|r: Seq<NodeView>| #[trigger] ff(r) is Some implies (ff(r)->0.is_leaf <==> r.len() + 1 == m) by {
            if r.len() > 0 {
                assert(ff(r) == f(r));
            }
        }
        assert forall|j: int| 0 <= j < p.len() implies #[trigger] ff(p.take(j)) is Some && shape_values(
            ff(p.take(j))->0,
        ).contains(p[j]) by {
            assert(p.take(j) =~= e);
        }
    } else {
        let k = p[0];
        let p2 = p.drop_first();
        let g = if f(seq![k]) is Some {
            below(f, k)
        } else {
            fresh_shapes(m == 2)
        };
        assert(leaf_at(g, m - 1)) by {
            assert forall|q: Seq<NodeView>| #[trigger] g(q) is Some implies (g(q)->0.is_leaf <==> q.len() + 1 == m - 1) by {
                if f(seq![k]) is Some {
                    assert(g(q) == f(seq![k] + q));
                    assert((seq![k] + q).len() == q.len() + 1);
                }
            }
        }
        assert(g(e) is Some) by {
            if f(seq![k]) is Some {
                assert(seq![k] + e =~= seq![k]);
            }
        }
        lemma_insert_holds(g, p2);
        let gg = inserted(g, p2);
        assert forall|r: Seq<NodeView>| #[trigger] ff(r) is Some implies (ff(r)->0.is_leaf <==> r.len() + 1 == m) by {
            if r.len() > 0 && r[0] == k {
                assert(ff(r) == gg(r.drop_first()));
            } else if r.len() > 0 {
                assert(ff(r) == f(r));
            }
        }
        assert forall|j: int| 0 <= j < p.len() implies #[trigger] ff(p.take(j)) is Some && shape_values(
            ff(p.take(j))->0,
        ).contains(p[j]) by {
            if j == 0 {
                assert(p.take(j) =~= e);
            } else {
                let r = p.take(j);
                assert(r[0] == k);
                assert(r.drop_first() =~= p2.take(j - 1));
                assert(ff(r) == gg(p2.take(j - 1)));
                assert(p2[j - 1] == p[j]);
            }
        }
    }
}

/// Inserting a path keeps every held path held.
proof fn lemma_insert_keeps(f: spec_fn(Seq<NodeView>) -> Option<LevelShape>, p: Seq<NodeView>, q: Seq<NodeView>)
    requires
        holds(f, q),
    ensures
        holds(inserted(f, p), q),
    decreases p.len(),
{
    let ff = inserted(f, p);
    let e = Seq::<NodeView>::empty();
    if p.len() == 0 {
        assert forall|j: int| 0 <= j < q.len() implies #[trigger] ff(q.take(j)) is Some && shape_values(
            ff(q.take(j))->0,
        ).contains(q[j]) by {
            assert(ff(q.take(j)) == f(q.take(j)));
        }
    } else {
        let k = p[0];
        let p2 = p.drop_first();
        let g = if f(seq![k]) is Some {
            below(f, k)
        } else {
            fresh_shapes(p.len() == 2)
        };
        if p.len() >= 2 && q.len() >= 2 && q[0] == k {
            let q2 = q.drop_first();
            assert(q.take(1) =~= seq![k]);
            assert(f(seq![k]) is Some);
            assert(holds(g, q2)) by {
                assert forall|j: int| 0 <= j < q2.len() implies #[trigger] g(q2.take(j)) is Some && shape_values(
                    g(q2.take(j))->0,
                ).contains(q2[j]) by {
                    assert(seq![k] + q2.take(j) =~= q.take(j + 1));
                    assert(g(q2.take(j)) == f(q.take(j + 1)));
                }
            }
            lemma_insert_keeps(g, p2, q2);
        }
        assert forall|j: int| 0 <= j < q.len() implies #[trigger] ff(q.take(j)) is Some && shape_values(
            ff(q.take(j))->0,
        ).contains(q[j]) by {
            let r = q.take(j);
            if j == 0 {
                assert(r =~= e);
                let s0 = f(e)->0;
                lemma_add_sorted_keeps(s0.leaves, p[0], q[0]);
                lemma_add_sorted_keeps(s0.keys, p[0], q[0]);
            } else {
                assert(r[0] == q[0]);
                if p.len() >= 2 && q[0] == k {
                    let q2 = q.drop_first();
                    assert(r.drop_first() =~= q2.take(j - 1));
                    assert(ff(r) == inserted(g, p2)(q2.take(j - 1)));
                    assert(q2[j - 1] == q[j]);
                } else {
                    assert(ff(r) == f(r));
                }
            }
        }
    }
}

proof fn lemma_built_holds(ps: Seq<Seq<NodeView>>, m: int)
    requires
        m >= 2,
        forall|i: int| 0 <= i < ps.len() ==> (#[trigger] ps[i]).len() == m,
    ensures
        leaf_at(built_shapes(ps), m),
        built_shapes(ps)(Seq::<NodeView>::empty()) is Some,
        forall|i: int| 0 <= i < ps.len() ==> holds(built_shapes(ps), #[trigger] ps[i]),
    decreases ps.len(),
{
    if ps.len() == 0 {
        assert forall|r: Seq<NodeView>| #[trigger] built_shapes(ps)(r) is Some implies (built_shapes(ps)(r)->0.is_leaf
            <==> r.len() + 1 == m) by {}
    } else {
        let prev = ps.drop_last();
        assert forall|i: int| 0 <= i < prev.len() implies (#[trigger] prev[i]).len() == m by {
            assert(prev[i] == ps[i]);
        }
        lemma_built_holds(prev, m);
        let f = built_shapes(prev);
        assert(ps.last().len() == m);
        lemma_insert_holds(f, ps.last());
        assert forall|i: int| 0 <= i < ps.len() implies holds(built_shapes(ps), #[trigger] ps[i]) by {
            if i < ps.len() - 1 {
                assert(ps[i] == prev[i]);
                lemma_insert_keeps(f, ps.last(), ps[i]);
            }
        }
    }
}

proof fn lemma_reach_shape(l: TrieLevel, r: Seq<NodeView>)
    requires
        shape(l, r) is Some,
    ensures
        reach(l, r).shape_here() == shape(l, r)->0,
    decreases r.len(),
{
    if r.len() > 0 {
        let c = l.child_at(r[0])->0;
        lemma_reach_shape(c, r.drop_first());
    }
}

/// Every quad a trie is built from, in an order of two or more positions,
/// can be walked down the trie: each of its values is among the values of
/// the level that the values before it lead to.
pub proof fn lemma_trie_holds_its_quads(t: Trie, quads: Seq<Quad>, ordering: Seq<TriplePosition>, k: int)
    requires
        t.shapes() == built_shapes(quad_paths(quads, ordering)),
        ordering.len() >= 2,
        0 <= k < quads.len(),
    ensures
        along(t.root_level(), quad_path(quads[k]@, ordering)),
{
    let ps = quad_paths(quads, ordering);
    assert forall|i: int| 0 <= i < ps.len() implies (#[trigger] ps[i]).len() == ordering.len() by {}
    lemma_built_holds(ps, ordering.len() as int);
    let p = ps[k];
    assert(holds(built_shapes(ps), p));
    let l = t.root_level();
    assert forall|j: int| 0 <= j < p.len() implies #[trigger] reach(l, p.take(j)).values_spec().contains(p[j]) by {
        assert(built_shapes(ps)(p.take(j)) == shape(l, p.take(j)));
        lemma_reach_shape(l, p.take(j));
    }
}

} // verus!
