//! Leapfrog intersection and join over tries: the cursors of several tries
//! are sought, each to the largest value any of them has reached, until they
//! all stand on one value, which is then common to all of them.
use vstd::prelude::*;
use crate::node::{opt_node, Node, NodeView};
use crate::node_order::{
    compare_nodes, count_below, lemma_node_transitive, lemma_node_trichotomy, lower_bound, node_lt, node_views,
    strictly_sorted, Relation,
};
use crate::trie::{along, reach, Trie, TrieLevel};

verus! {

/// The value at a trie's cursor (meaningful when it has one).
pub open spec fn cursor_value(t: Trie) -> NodeView {
    t.path_spec()[t.level_spec() as int]
}

/// The cursor has walked down to its level and is not at the end.
pub open spec fn poised(t: Trie) -> bool {
    t.path_spec().len() >= t.level_spec() && t.level_spec() < t.depth_spec()
}

/// Every cursor is poised.
pub open spec fn all_poised(ts: Seq<Trie>) -> bool {
    forall|i: int| 0 <= i < ts.len() ==> poised(#[trigger] ts[i])
}

/// The values each trie's cursor reads.
pub open spec fn foci(ts: Seq<Trie>) -> Seq<Seq<NodeView>> {
    ts.map_values(|t: Trie| t.focus_values())
}

/// `u` is among the values of every set.
pub open spec fn common(fs: Seq<Seq<NodeView>>, u: NodeView) -> bool {
    forall|i: int| 0 <= i < fs.len() ==> #[trigger] fs[i].contains(u)
}

/// No value from `lo` (included) up to `hi` (excluded) is common.
pub open spec fn none_common_between(fs: Seq<Seq<NodeView>>, lo: NodeView, hi: NodeView) -> bool {
    forall|u: NodeView| !node_lt(u, lo) && node_lt(u, hi) ==> !#[trigger] common(fs, u)
}

/// No value from `lo` (included) on is common.
pub open spec fn none_common_from(fs: Seq<Seq<NodeView>>, lo: NodeView) -> bool {
    forall|u: NodeView| !node_lt(u, lo) ==> !#[trigger] common(fs, u)
}

/// The same tries (roots and depths), whatever their cursors.
pub open spec fn same_tries(a: Seq<Trie>, b: Seq<Trie>) -> bool {
    &&& a.len() == b.len()
    &&& forall|i: int|
        0 <= i < a.len() ==> (#[trigger] a[i]).root_level() == b[i].root_level() && a[i].depth_spec()
            == b[i].depth_spec()
}

/// `n` is `o` with its cursor moved to a value of the level `o` reads, the
/// level and the walked path kept.
pub open spec fn seated(o: Trie, n: Trie) -> bool {
    &&& n.root_level() == o.root_level()
    &&& n.depth_spec() == o.depth_spec()
    &&& n.level_spec() == o.level_spec()
    &&& o.path_spec().len() >= o.level_spec()
    &&& n.path_spec().len() == n.level_spec() + 1
    &&& n.path_spec().take(n.level_spec() as int) == o.path_spec().take(o.level_spec() as int)
    &&& o.focus_values().contains(cursor_value(n))
}

/// Every cursor of `ts` stands on `v`.
pub open spec fn all_at(ts: Seq<Trie>, v: NodeView) -> bool {
    forall|i: int|
        0 <= i < ts.len() ==> (#[trigger] ts[i]).path_spec().len() == ts[i].level_spec() + 1 && cursor_value(ts[i])
            == v
}

/// Where a search starts: the first trie's value, or else the first value
/// its cursor reads.
pub open spec fn start_of(t: Trie) -> Option<NodeView> {
    if t.path_spec().len() > t.level_spec() {
        Some(cursor_value(t))
    } else if t.focus_values().len() > 0 {
        Some(t.focus_values()[0])
    } else {
        None
    }
}

/// How many values of `s` sort after `c`.
pub open spec fn count_above(s: Seq<NodeView>, c: NodeView) -> nat
    decreases s.len(),
{
    if s.len() == 0 {
        0
    } else {
        count_above(s.drop_last(), c) + if node_lt(c, s.last()) {
            1nat
        } else {
            0nat
        }
    }
}

/// How many values of all the sets sort after `c`, counted per set.
pub open spec fn total_above(fs: Seq<Seq<NodeView>>, c: NodeView) -> nat
    decreases fs.len(),
{
    if fs.len() == 0 {
        0
    } else {
        total_above(fs.drop_last(), c) + count_above(fs.last(), c)
    }
}

proof fn lemma_count_above_mono(s: Seq<NodeView>, c: NodeView, d: NodeView)
    requires
        node_lt(c, d),
    ensures
        count_above(s, d) <= count_above(s, c),
        s.contains(d) ==> count_above(s, d) < count_above(s, c),
    decreases s.len(),
{
    if s.len() > 0 {
        lemma_count_above_mono(s.drop_last(), c, d);
        if node_lt(d, s.last()) {
            lemma_node_transitive(c, d, s.last());
        }
        if s.contains(d) {
            if s.last() != d {
                let k = choose|k: int| 0 <= k < s.len() && s[k] == d;
                assert(s.drop_last()[k] == d);
            }
            lemma_node_trichotomy(d, d);
        }
    }
}

proof fn lemma_total_above_mono(fs: Seq<Seq<NodeView>>, c: NodeView, d: NodeView, j: int)
    requires
        node_lt(c, d),
        0 <= j < fs.len(),
        fs[j].contains(d),
    ensures
        total_above(fs, d) < total_above(fs, c),
    decreases fs.len(),
{
    lemma_count_above_mono(fs.last(), c, d);
    if j < fs.len() - 1 {
        lemma_total_above_mono(fs.drop_last(), c, d, j);
    } else {
        lemma_total_above_weak(fs.drop_last(), c, d);
    }
}

proof fn lemma_total_above_weak(fs: Seq<Seq<NodeView>>, c: NodeView, d: NodeView)
    requires
        node_lt(c, d),
    ensures
        total_above(fs, d) <= total_above(fs, c),
    decreases fs.len(),
{
    if fs.len() > 0 {
        lemma_total_above_weak(fs.drop_last(), c, d);
        lemma_count_above_mono(fs.last(), c, d);
    }
}

/// In a sorted sequence, no value lies strictly between the element at the
/// lower bound of `lo` and `lo`'s predecessors.
proof fn lemma_gap(s: Seq<NodeView>, lo: NodeView, u: NodeView)
    requires
        strictly_sorted(s),
        count_below(s, lo) < s.len(),
        !node_lt(u, lo),
        node_lt(u, s[count_below(s, lo) as int]),
    ensures
        !s.contains(u),
{
    crate::trie::lemma_lower_bound_facts(s, lo);
    let i = count_below(s, lo) as int;
    if s.contains(u) {
        let k = choose|k: int| 0 <= k < s.len() && s[k] == u;
        if k < i {
        } else if k == i {
            lemma_node_trichotomy(u, u);
        } else {
            lemma_node_transitive(u, s[i], s[k]);
            lemma_node_trichotomy(u, u);
        }
    }
}

/// In a sorted sequence, nothing lies at or after `lo` when its lower bound
/// is the length.
proof fn lemma_past_end(s: Seq<NodeView>, lo: NodeView, u: NodeView)
    requires
        strictly_sorted(s),
        count_below(s, lo) >= s.len(),
        !node_lt(u, lo),
    ensures
        !s.contains(u),
{
    crate::trie::lemma_lower_bound_facts(s, lo);
    if s.contains(u) {
        let k = choose|k: int| 0 <= k < s.len() && s[k] == u;
        assert(node_lt(s[k], lo));
    }
}


/// Each cursor of `n` stands at the same level, below the same walked path,
/// as in `o`.
pub open spec fn kept(o: Seq<Trie>, n: Seq<Trie>) -> bool {
    &&& o.len() == n.len()
    &&& forall|i: int|
        0 <= i < o.len() ==> (#[trigger] n[i]).level_spec() == o[i].level_spec() && n[i].walked() == o[i].walked()
}

proof fn lemma_seated_focus(o: Trie, n: Trie)
    requires
        seated(o, n),
    ensures
        n.walked() == o.walked(),
        n.focus_values() == o.focus_values(),
{
}

proof fn lemma_kept_foci(o: Seq<Trie>, n: Seq<Trie>)
    requires
        same_tries(o, n),
        kept(o, n),
    ensures
        foci(n) == foci(o),
{
    assert forall|i: int| 0 <= i < o.len() implies #[trigger] foci(n)[i] == foci(o)[i] by {
        assert(n[i].focus() == o[i].focus());
    }
    assert(foci(n) =~= foci(o));
}

/// A common value of the foci of `o` is one of `n` when the foci agree.
proof fn lemma_seated_all(o: Seq<Trie>, n: Seq<Trie>)
    requires
        same_tries(o, n),
        forall|i: int| 0 <= i < o.len() ==> seated(o[i], #[trigger] n[i]),
    ensures
        kept(o, n),
        foci(n) == foci(o),
        all_poised(o) ==> all_poised(n),
{
    assert forall|i: int| 0 <= i < o.len() implies (#[trigger] n[i]).level_spec() == o[i].level_spec() && n[i].walked()
        == o[i].walked() by {
        lemma_seated_focus(o[i], n[i]);
    }
    lemma_kept_foci(o, n);
    if all_poised(o) {
        assert forall|i: int| 0 <= i < n.len() implies poised(#[trigger] n[i]) by {
            assert(poised(o[i]));
            assert(seated(o[i], n[i]));
        }
    }
}


/// A value of a sorted sequence sits at its lower bound.
proof fn lemma_member_at_bound(s: Seq<NodeView>, x: NodeView)
    requires
        strictly_sorted(s),
        s.contains(x),
    ensures
        count_below(s, x) < s.len(),
        s[count_below(s, x) as int] == x,
{
    crate::trie::lemma_lower_bound_facts(s, x);
    let k = choose|k: int| 0 <= k < s.len() && s[k] == x;
    let i = count_below(s, x) as int;
    if k < i {
        lemma_node_trichotomy(x, x);
    } else if k > i {
        lemma_node_trichotomy(s[i], x);
        if node_lt(x, s[i]) {
            lemma_node_transitive(x, s[i], s[k]);
            lemma_node_trichotomy(x, x);
        }
    }
}

/// Nothing of a sorted sequence lies strictly between two neighbours, nor
/// after the last element.
proof fn lemma_no_value_between(s: Seq<NodeView>, i: int, u: NodeView)
    requires
        strictly_sorted(s),
        0 <= i < s.len(),
        node_lt(s[i], u),
        i + 1 < s.len() ==> node_lt(u, s[i + 1]),
    ensures
        !s.contains(u),
{
    if s.contains(u) {
        let k = choose|k: int| 0 <= k < s.len() && s[k] == u;
        if k <= i {
            if k < i {
                lemma_node_transitive(s[k], s[i], u);
            }
            lemma_node_trichotomy(u, u);
        } else {
            if k > i + 1 {
                lemma_node_transitive(u, s[i + 1], s[k]);
            }
            lemma_node_trichotomy(u, u);
        }
    }
}

/// The cursor can move one level down.
pub open spec fn can_open(t: Trie) -> bool {
    t.level_spec() < t.depth_spec() - 1 && t.path_spec().len() > t.level_spec()
}

/// `n` is `o` after an attempt to move its cursor down.
pub open spec fn opened(o: Trie, n: Trie) -> bool {
    &&& n.root_level() == o.root_level()
    &&& n.depth_spec() == o.depth_spec()
    &&& n.path_spec() == o.path_spec()
    &&& n.level_spec() == if can_open(o) {
        o.level_spec() + 1
    } else {
        o.level_spec() as int
    }
}

/// `n` is `o` after an attempt to move its cursor up.
pub open spec fn raised(o: Trie, n: Trie) -> bool {
    &&& n.root_level() == o.root_level()
    &&& n.depth_spec() == o.depth_spec()
    &&& if o.level_spec() > 0 {
        &&& n.level_spec() == o.level_spec() - 1
        &&& n.path_spec() == if o.level_spec() - 1 <= o.path_spec().len() {
            o.path_spec().take(o.level_spec() - 1)
        } else {
            o.path_spec()
        }
    } else {
        n.level_spec() == o.level_spec() && n.path_spec() == o.path_spec()
    }
}

/// An iterator over the values common to several tries, at one level.
pub struct LeapfrogIterator {
    tries: Vec<Trie>,
    depth: usize,
    at_end: bool,
}

impl LeapfrogIterator {
    /// The tries, in order.
    pub closed spec fn tries_spec(&self) -> Seq<Trie> {
        self.tries@
    }

    /// Whether the intersection was found exhausted.
    pub closed spec fn ended(&self) -> bool {
        self.at_end
    }

    /// The depth of the tries.
    pub closed spec fn depth_spec(&self) -> usize {
        self.depth
    }

    /// An iterator over `tries`, all of one depth; with no tries it starts
    /// exhausted.
    pub fn new(tries: Vec<Trie>) -> (r: LeapfrogIterator)
        requires
            forall|i: int| 0 <= i < tries@.len() ==> (#[trigger] tries@[i]).depth_spec() == tries@[0].depth_spec(),
        ensures
            r.tries_spec() == tries@,
            r.ended() == (tries@.len() == 0),
            r.depth_spec() == if tries@.len() == 0 {
                0
            } else {
                tries@[0].depth_spec()
            },
    {
        if tries.len() == 0 {
            return LeapfrogIterator { tries, depth: 0, at_end: true };
        }
        let depth = tries[0].depth();
        LeapfrogIterator { tries, depth, at_end: false }
    }

    /// Seeks every trie in turn to `target`, or to the largest value an
    /// earlier trie landed on; gives that largest value, or `None` when a
    /// trie is at its end or runs out.
    fn leapfrog_seek(&mut self, target: &Node) -> (r: Option<Node>)
        requires
            old(self).tries@.len() > 0,
        ensures
            same_tries(old(self).tries@, final(self).tries@),
            final(self).at_end == old(self).at_end,
            final(self).depth == old(self).depth,
            r matches Some(m) ==> {
                &&& forall|i: int|
                    0 <= i < old(self).tries@.len() ==> seated(old(self).tries@[i], #[trigger] final(self).tries@[i])
                        && !node_lt(cursor_value(final(self).tries@[i]), target@) && !node_lt(
                        m@,
                        cursor_value(final(self).tries@[i]),
                    )
                &&& !node_lt(m@, target@)
                &&& (m@ == target@ || exists|i: int|
                    0 <= i < old(self).tries@.len() && cursor_value(#[trigger] final(self).tries@[i]) == m@)
                &&& none_common_between(foci(old(self).tries@), target@, m@)
                &&& (m@ == target@ ==> all_at(final(self).tries@, target@))
            },
            r is None && all_poised(old(self).tries@) ==> none_common_from(foci(old(self).tries@), target@),
    {
        let ghost ot = self.tries@;
        let ghost fs = foci(ot);
        let mut max_value = target.duplicate();
        let mut i: usize = 0;
        proof {
            lemma_node_trichotomy(target@, target@);
        }
        while i < self.tries.len()
            invariant
                i <= self.tries@.len(),
                ot == old(self).tries@,
                fs == foci(ot),
                self.tries@.len() == ot.len(),
                self.at_end == old(self).at_end,
                self.depth == old(self).depth,
                same_tries(ot, self.tries@),
                forall|j: int| i <= j < ot.len() ==> #[trigger] self.tries@[j] == ot[j],
                forall|j: int|
                    0 <= j < i ==> seated(ot[j], #[trigger] self.tries@[j]) && !node_lt(
                        cursor_value(self.tries@[j]),
                        target@,
                    ) && !node_lt(max_value@, cursor_value(self.tries@[j])),
                !node_lt(max_value@, target@),
                max_value@ == target@ || exists|j: int|
                    0 <= j < i && cursor_value(#[trigger] self.tries@[j]) == max_value@,
                none_common_between(fs, target@, max_value@),
                max_value@ == target@ ==> forall|j: int|
                    0 <= j < i ==> (#[trigger] self.tries@[j]).path_spec().len() == self.tries@[j].level_spec() + 1
                        && cursor_value(self.tries@[j]) == target@,
                all_poised(ot) ==> forall|j: int| i <= j < ot.len() ==> poised(#[trigger] ot[j]),
            decreases self.tries@.len() - i,
        {
            let ghost before = self.tries@;
            let ghost old_max = max_value@;
            proof {
                lemma_node_trichotomy(target@, target@);
            }
            if self.tries[i].at_end() {
                return None;
            }
            let ghost t0 = self.tries@[i as int];
            let _found = self.tries[i].seek(&max_value);
            let cur = self.tries[i].current();
            let ghost t1 = self.tries@[i as int];
            let ghost vals = t0.focus_values();
            let ghost k = count_below(vals, old_max);
            assert(fs[i as int] == vals);
            proof {
                crate::trie::lemma_lower_bound_facts(vals, old_max);
            }
            match cur {
                Some(c) => {
                    assert(k < vals.len());
                    assert(c@ == vals[k as int]);
                    proof {
                        assert(t1.path_spec() == t0.walked().push(vals[k as int]));
                        assert(t0.path_spec().len() >= t0.level_spec());
                        assert(cursor_value(t1) == c@);
                        assert(t1.path_spec().take(t1.level_spec() as int) =~= t0.walked());
                        assert(vals.contains(c@));
                        assert forall|u: NodeView| !node_lt(u, target@) && node_lt(u, c@) implies !#[trigger] common(fs, u) by {
                            if !node_lt(u, old_max) {
                                lemma_gap(vals, old_max, u);
                            }
                        }
                        assert forall|j: int| 0 <= j < i implies #[trigger] self.tries@[j] == before[j] by {}
                    }
                    match compare_nodes(&c, &max_value) {
                        Relation::After => {
                            proof {
                                assert forall|j: int| 0 <= j < i + 1 implies !node_lt(c@, cursor_value(#[trigger] self.tries@[j])) by {
                                    if j < i {
                                        lemma_node_trichotomy(c@, old_max);
                                        if node_lt(c@, cursor_value(self.tries@[j])) {
                                            lemma_node_transitive(old_max, c@, cursor_value(self.tries@[j]));
                                            lemma_node_trichotomy(old_max, cursor_value(self.tries@[j]));
                                        }
                                    } else {
                                        lemma_node_trichotomy(c@, c@);
                                    }
                                }
                                if node_lt(c@, target@) {
                                    lemma_node_transitive(old_max, c@, target@);
                                }
                                lemma_node_trichotomy(c@, target@);
                                lemma_node_trichotomy(old_max, target@);
                                if c@ == target@ {
                                    lemma_node_transitive(target@, old_max, target@);
                                }
                                assert(cursor_value(self.tries@[i as int]) == c@);
                            }
                            max_value = c;
                        },
                        _ => {
                            proof {
                                lemma_node_trichotomy(c@, old_max);
                                lemma_node_trichotomy(c@, c@);
                                assert(c@ == old_max);
                            }
                        },
                    }
                },
                None => {
                    proof {
                        if all_poised(ot) {
                            assert(poised(t0));
                            assert(k >= vals.len());
                            assert forall|u: NodeView| !node_lt(u, target@) implies !#[trigger] common(fs, u) by {
                                if !node_lt(u, old_max) {
                                    lemma_past_end(vals, old_max, u);
                                    assert(!fs[i as int].contains(u));
                                }
                            }
                        }
                    }
                    return None;
                },
            }
            i += 1;
        }
        Some(max_value)
    }

    /// Finds a value common to all the tries: starting from the first trie's
    /// value (its first value when it has none yet), every trie is sought to
    /// the largest value reached until all stand on one value. Gives `None`,
    /// and ends the iterator, when a trie runs out.
    pub fn leapfrog_search(&mut self) -> (r: Option<Node>)
        ensures
            same_tries(old(self).tries_spec(), final(self).tries_spec()),
            final(self).depth_spec() == old(self).depth_spec(),
            old(self).tries_spec().len() == 0 || old(self).ended() ==> r is None && final(self).tries_spec() == old(self).tries_spec()
                && final(self).ended() == old(self).ended(),
            r is None && old(self).tries_spec().len() > 0 ==> final(self).ended(),
            r matches Some(v) ==> !final(self).ended() && all_at(final(self).tries_spec(), v@) && common(
                foci(final(self).tries_spec()),
                v@,
            ),
            old(self).tries_spec().len() > 0 && !old(self).ended() && all_poised(old(self).tries_spec()) ==> match start_of(
                old(self).tries_spec()[0],
            ) {
                Some(s) => match r {
                    Some(v) => {
                        &&& !node_lt(v@, s)
                        &&& none_common_between(foci(old(self).tries_spec()), s, v@)
                        &&& kept(old(self).tries_spec(), final(self).tries_spec())
                        &&& foci(final(self).tries_spec()) == foci(old(self).tries_spec())
                    },
                    None => none_common_from(foci(old(self).tries_spec()), s),
                },
                None => r is None,
            },
            old(self).tries_spec().len() > 0 && !old(self).ended() && old(self).tries_spec()[0].path_spec().len()
                <= old(self).tries_spec()[0].level_spec() ==> strictly_sorted(old(self).tries_spec()[0].focus_values()),
    {
        if self.tries.len() == 0 || self.at_end {
            return None;
        }
        let ghost ot = self.tries@;
        let ghost s0 = start_of(ot[0]);
        let first = self.tries[0].current();
        let mut candidate = match first {
            Some(v) => v,
            None => {
                let ghost t0 = self.tries@[0];
                match self.tries[0].next() {
                    Some(v) => {
                        proof {
                            let t1 = self.tries@[0];
                            if all_poised(ot) {
                                assert(poised(ot[0]));
                                assert(t1.path_spec().take(t1.level_spec() as int) =~= t0.path_spec());
                                assert(t0.walked() =~= t0.path_spec());
                            }
                            assert forall|j: int| 1 <= j < ot.len() implies #[trigger] self.tries@[j] == ot[j] by {}
                        }
                        v
                    },
                    None => {
                        self.at_end = true;
                        return None;
                    },
                }
            },
        };
        proof {
            lemma_node_trichotomy(candidate@, candidate@);
            if all_poised(ot) {
                assert(kept(ot, self.tries@)) by {
                    assert forall|j: int| 0 <= j < ot.len() implies (#[trigger] self.tries@[j]).level_spec() == ot[j].level_spec()
                        && self.tries@[j].walked() == ot[j].walked() by {
                        if j > 0 {
                            assert(self.tries@[j] == ot[j]);
                        }
                    }
                }
                lemma_kept_foci(ot, self.tries@);
                assert forall|j: int| 0 <= j < ot.len() implies poised(#[trigger] self.tries@[j]) by {
                    assert(poised(ot[j]));
                    if j > 0 {
                        assert(self.tries@[j] == ot[j]);
                    }
                }
            }
        }
        loop
            invariant
                self.tries@.len() == ot.len(),
                ot.len() > 0,
                ot == old(self).tries@,
                !old(self).at_end,
                s0 == start_of(ot[0]),
                ot[0].path_spec().len() <= ot[0].level_spec() ==> strictly_sorted(ot[0].focus_values()),
                same_tries(ot, self.tries@),
                !self.at_end,
                self.depth == old(self).depth,
                all_poised(ot) ==> {
                    &&& s0 == Some(candidate@)
                        || (s0 is Some && !node_lt(candidate@, s0->0))
                    &&& s0 is Some
                    &&& none_common_between(foci(ot), s0->0, candidate@)
                    &&& foci(self.tries@) == foci(ot)
                    &&& all_poised(self.tries@)
                    &&& kept(ot, self.tries@)
                },
            decreases total_above(foci(self.tries@), candidate@),
        {
            let ghost prev = self.tries@;
            let ghost c0 = candidate@;
            match self.leapfrog_seek(&candidate) {
                None => {
                    self.at_end = true;
                    proof {
                        if all_poised(ot) {
                            let s = s0->0;
                            assert forall|u: NodeView| !node_lt(u, s) implies !#[trigger] common(foci(ot), u) by {
                                if node_lt(u, c0) {
                                } else {
                                    assert(!common(foci(prev), u));
                                }
                            }
                        }
                    }
                    return None;
                },
                Some(m) => {
                    proof {
                        lemma_seated_all(prev, self.tries@);
                    }
                    match compare_nodes(&m, &candidate) {
                        Relation::Same => {
                            proof {
                                assert forall|i: int| 0 <= i < self.tries@.len() implies #[trigger] foci(self.tries@)[i].contains(c0) by {
                                    assert(seated(prev[i], self.tries@[i]));
                                    assert(foci(self.tries@)[i] == foci(prev)[i]);
                                    assert(foci(prev)[i] == prev[i].focus_values());
                                }
                                if all_poised(ot) {
                                    assert(kept(ot, self.tries@)) by {
                                        assert forall|j: int| 0 <= j < ot.len() implies (#[trigger] self.tries@[j]).level_spec()
                                            == ot[j].level_spec() && self.tries@[j].walked() == ot[j].walked() by {
                                            assert(prev[j].walked() == ot[j].walked());
                                        }
                                    }
                                    if s0 == Some(c0) {
                                        lemma_node_trichotomy(c0, c0);
                                    }
                                }
                            }
                            return Some(candidate);
                        },
                        _ => {
                            proof {
                                lemma_node_trichotomy(m@, c0);
                                let j = choose|j: int| 0 <= j < prev.len() && cursor_value(#[trigger] self.tries@[j]) == m@;
                                assert(seated(prev[j], self.tries@[j]));
                                assert(foci(prev)[j] == prev[j].focus_values());
                                lemma_total_above_mono(foci(prev), c0, m@, j);
                                if all_poised(ot) {
                                    let s = s0->0;
                                    if s0 != Some(c0) {
                                        lemma_node_trichotomy(c0, s);
                                        if node_lt(m@, s) {
                                            lemma_node_transitive(c0, m@, s);
                                        }
                                    }
                                    lemma_node_trichotomy(m@, s);
                                    assert forall|u: NodeView| !node_lt(u, s) && node_lt(u, m@) implies !#[trigger] common(foci(ot), u) by {
                                        if node_lt(u, c0) {
                                        } else {
                                            assert(!common(foci(prev), u));
                                        }
                                    }
                                    assert(kept(ot, self.tries@)) by {
                                        assert forall|j2: int| 0 <= j2 < ot.len() implies (#[trigger] self.tries@[j2]).level_spec()
                                            == ot[j2].level_spec() && self.tries@[j2].walked() == ot[j2].walked() by {
                                            assert(prev[j2].walked() == ot[j2].walked());
                                        }
                                    }
                                }
                            }
                            candidate = m;
                        },
                    }
                },
            }
        }
    }

    /// Moves to the next common value: the trie whose value sorts first (the
    /// earliest on a tie) steps to its next value, and the tries are searched
    /// again. `None` when the iterator is ended or the first trie has no value
    /// (nothing changes then), or when the stepping trie runs out (which ends
    /// the iterator).
    pub fn leapfrog_next(&mut self) -> (r: Option<Node>)
        ensures
            same_tries(old(self).tries_spec(), final(self).tries_spec()),
            final(self).depth_spec() == old(self).depth_spec(),
            old(self).tries_spec().len() == 0 || old(self).ended() || old(self).tries_spec()[0].path_spec().len()
                <= old(self).tries_spec()[0].level_spec() ==> r is None && final(self).tries_spec()
                == old(self).tries_spec() && final(self).ended() == old(self).ended(),
            r is None ==> final(self).ended() || old(self).tries_spec().len() == 0
                || old(self).tries_spec()[0].path_spec().len() <= old(self).tries_spec()[0].level_spec(),
            r matches Some(v) ==> !final(self).ended() && all_at(final(self).tries_spec(), v@) && common(
                foci(final(self).tries_spec()),
                v@,
            ),
            ({
                let ts = old(self).tries_spec();
                let v0 = cursor_value(ts[0]);
                ts.len() > 0 && !old(self).ended() && all_poised(ts) && all_at(ts, v0) && common(foci(ts), v0)
                    ==> match r {
                    Some(v) => {
                        &&& node_lt(v0, v@)
                        &&& forall|u: NodeView| node_lt(v0, u) && node_lt(u, v@) ==> !#[trigger] common(foci(ts), u)
                        &&& kept(ts, final(self).tries_spec())
                        &&& foci(final(self).tries_spec()) == foci(ts)
                    },
                    None => forall|u: NodeView| node_lt(v0, u) ==> !#[trigger] common(foci(ts), u),
                }
            }),
    {
        if self.tries.len() == 0 || self.at_end {
            return None;
        }
        let ghost ot = self.tries@;
        let ghost v0 = cursor_value(ot[0]);
        let ghost aligned = all_poised(ot) && all_at(ot, v0) && common(foci(ot), v0);
        let first = self.tries[0].current();
        let mut min_value = match first {
            Some(v) => v,
            None => {
                return None;
            },
        };
        let mut min_idx: usize = 0;
        let mut i: usize = 1;
        proof {
            lemma_node_trichotomy(v0, v0);
        }
        while i < self.tries.len()
            invariant
                self.tries@ == ot,
                ot.len() > 0,
                min_idx < i <= ot.len(),
                ot[min_idx as int].path_spec().len() > ot[min_idx as int].level_spec(),
                aligned ==> min_idx == 0 && min_value@ == v0,
                aligned == (all_poised(ot) && all_at(ot, v0) && common(foci(ot), v0)),
                v0 == cursor_value(ot[0]),
                !node_lt(v0, v0),
            decreases ot.len() - i,
        {
            match self.tries[i].current() {
                Some(val) => {
                    match compare_nodes(&val, &min_value) {
                        Relation::Before => {
                            proof {
                                if aligned {
                                    assert(cursor_value(ot[i as int]) == v0);
                                }
                            }
                            min_value = val;
                            min_idx = i;
                        },
                        _ => {},
                    }
                },
                None => {},
            }
            i += 1;
        }
        let ghost t0 = self.tries@[min_idx as int];
        let stepped = self.tries[min_idx].next();
        if stepped.is_none() {
            self.at_end = true;
            proof {
                if aligned {
                    let vals = ot[0].focus_values();
                    assert(foci(ot)[0] == vals);
                    lemma_member_at_bound(vals, v0);
                    assert forall|u: NodeView| node_lt(v0, u) implies !#[trigger] common(foci(ot), u) by {
                        lemma_no_value_between(vals, count_below(vals, v0) as int, u);
                    }
                }
            }
            return None;
        }
        let ghost mid = self.tries@;
        proof {
            assert(same_tries(ot, mid));
            if aligned {
                let vals = ot[0].focus_values();
                assert(foci(ot)[0] == vals);
                lemma_member_at_bound(vals, v0);
                let k = count_below(vals, v0) as int;
                assert(k + 1 < vals.len());
                assert(mid[0].path_spec() =~= ot[0].path_spec().take(ot[0].level_spec() as int).push(vals[k + 1]));
                assert(mid[0].walked() =~= ot[0].walked());
                assert(kept(ot, mid)) by {
                    assert forall|j: int| 0 <= j < ot.len() implies (#[trigger] mid[j]).level_spec() == ot[j].level_spec()
                        && mid[j].walked() == ot[j].walked() by {
                        if j > 0 {
                            assert(mid[j] == ot[j]);
                        }
                    }
                }
                lemma_kept_foci(ot, mid);
                assert(all_poised(mid)) by {
                    assert forall|j: int| 0 <= j < mid.len() implies poised(#[trigger] mid[j]) by {
                        assert(poised(ot[j]));
                        if j > 0 {
                            assert(mid[j] == ot[j]);
                        }
                    }
                }
                assert(start_of(mid[0]) == Some(vals[k + 1]));
            }
        }
        let r = self.leapfrog_search();
        proof {
            if aligned {
                let vals = ot[0].focus_values();
                let k = count_below(vals, v0) as int;
                let s = vals[k + 1];
                assert(node_lt(v0, s));
                if r is Some {
                    {
                        let v = r->0;
                        if node_lt(v@, s) {
                            lemma_node_transitive(v0, v@, s);
                        }
                        lemma_node_trichotomy(v@, s);
                        if v@ != s {
                            lemma_node_transitive(v0, s, v@);
                        }
                        assert forall|u: NodeView| node_lt(v0, u) && node_lt(u, v@) implies !#[trigger] common(foci(ot), u) by {
                            if node_lt(u, s) {
                                lemma_no_value_between(vals, k, u);
                                assert(!foci(ot)[0].contains(u));
                            } else {
                                assert(!common(foci(mid), u));
                            }
                        }
                        assert(kept(ot, self.tries@)) by {
                            assert forall|j: int| 0 <= j < ot.len() implies (#[trigger] self.tries@[j]).level_spec()
                                == ot[j].level_spec() && self.tries@[j].walked() == ot[j].walked() by {
                                assert(mid[j].walked() == ot[j].walked());
                            }
                        }
                    }
                } else {
                    {
                        assert forall|u: NodeView| node_lt(v0, u) implies !#[trigger] common(foci(ot), u) by {
                            if node_lt(u, s) {
                                lemma_no_value_between(vals, k, u);
                                assert(!foci(ot)[0].contains(u));
                            } else {
                                assert(!common(foci(mid), u));
                            }
                        }
                    }
                }
            }
        }
        r
    }

    /// Whether the iterator is ended or some trie is at its end.
    pub fn at_end(&self) -> (r: bool)
        ensures
            r == (self.ended() || exists|i: int|
                0 <= i < self.tries_spec().len() && (#[trigger] self.tries_spec()[i]).level_spec()
                    >= self.tries_spec()[i].depth_spec()),
    {
        if self.at_end {
            return true;
        }
        let mut i: usize = 0;
        while i < self.tries.len()
            invariant
                i <= self.tries@.len(),
                !self.at_end,
                forall|j: int| 0 <= j < i ==> (#[trigger] self.tries@[j]).level_spec() < self.tries@[j].depth_spec(),
            decreases self.tries@.len() - i,
        {
            if self.tries[i].at_end() {
                assert(self.tries_spec()[i as int].level_spec() >= self.tries_spec()[i as int].depth_spec());
                return true;
            }
            i += 1;
        }
        false
    }

    /// Puts every trie's cursor back at its root and clears the ended mark.
    pub fn reset(&mut self)
        ensures
            same_tries(old(self).tries_spec(), final(self).tries_spec()),
            final(self).depth_spec() == old(self).depth_spec(),
            !final(self).ended(),
            forall|i: int|
                0 <= i < final(self).tries_spec().len() ==> (#[trigger] final(self).tries_spec()[i]).path_spec()
                    == Seq::<NodeView>::empty() && final(self).tries_spec()[i].level_spec() == 0,
    {
        let mut i: usize = 0;
        while i < self.tries.len()
            invariant
                i <= self.tries@.len(),
                same_tries(old(self).tries@, self.tries@),
                self.depth == old(self).depth,
                forall|j: int|
                    0 <= j < i ==> (#[trigger] self.tries@[j]).path_spec() == Seq::<NodeView>::empty()
                        && self.tries@[j].level_spec() == 0,
            decreases self.tries@.len() - i,
        {
            self.tries[i].reset();
            i += 1;
        }
        self.at_end = false;
    }

    /// The number of tries.
    pub fn num_tries(&self) -> (r: usize)
        ensures
            r == self.tries_spec().len(),
    {
        self.tries.len()
    }

    /// The first trie's value, if there are tries and it has one.
    pub fn current(&self) -> (r: Option<Node>)
        ensures
            opt_node(r) == if self.tries_spec().len() > 0 && self.tries_spec()[0].path_spec().len()
                > self.tries_spec()[0].level_spec() {
                Some(cursor_value(self.tries_spec()[0]))
            } else {
                None
            },
    {
        if self.tries.len() == 0 {
            return None;
        }
        self.tries[0].current()
    }

    /// Moves every trie's cursor down a level where it can; says whether all
    /// could (false with no tries).
    pub fn open(&mut self) -> (r: bool)
        requires
            forall|i: int| 0 <= i < old(self).tries_spec().len() ==> (#[trigger] old(self).tries_spec()[i]).depth_spec() >= 1,
        ensures
            final(self).tries_spec().len() == old(self).tries_spec().len(),
            final(self).ended() == old(self).ended(),
            final(self).depth_spec() == old(self).depth_spec(),
            forall|i: int|
                0 <= i < old(self).tries_spec().len() ==> opened(old(self).tries_spec()[i], #[trigger] final(self).tries_spec()[i]),
            r == (old(self).tries_spec().len() > 0 && forall|i: int|
                0 <= i < old(self).tries_spec().len() ==> can_open(#[trigger] old(self).tries_spec()[i])),
    {
        if self.tries.len() == 0 {
            return false;
        }
        let mut all_opened = true;
        let mut i: usize = 0;
        while i < self.tries.len()
            invariant
                i <= self.tries@.len(),
                self.tries@.len() == old(self).tries@.len(),
                self.at_end == old(self).at_end,
                self.depth == old(self).depth,
                forall|j: int| 0 <= j < old(self).tries@.len() ==> (#[trigger] old(self).tries_spec()[j]).depth_spec() >= 1,
                forall|j: int| 0 <= j < i ==> opened(old(self).tries@[j], #[trigger] self.tries@[j]),
                forall|j: int| i <= j < self.tries@.len() ==> #[trigger] self.tries@[j] == old(self).tries@[j],
                all_opened == forall|j: int| 0 <= j < i ==> can_open(#[trigger] old(self).tries@[j]),
            decreases self.tries@.len() - i,
        {
            let ghost before = self.tries@;
            assert(old(self).tries_spec()[i as int].depth_spec() >= 1);
            assert(self.tries@[i as int] == old(self).tries@[i as int]);
            if !self.tries[i].open() {
                all_opened = false;
            }
            assert forall|j: int| 0 <= j < i implies #[trigger] self.tries@[j] == before[j] by {}
            i += 1;
        }
        all_opened
    }

    /// Moves every trie's cursor up a level where it can; says whether all
    /// could (false with no tries).
    pub fn up(&mut self) -> (r: bool)
        ensures
            final(self).tries_spec().len() == old(self).tries_spec().len(),
            final(self).ended() == old(self).ended(),
            final(self).depth_spec() == old(self).depth_spec(),
            forall|i: int|
                0 <= i < old(self).tries_spec().len() ==> raised(old(self).tries_spec()[i], #[trigger] final(self).tries_spec()[i]),
            r == (old(self).tries_spec().len() > 0 && forall|i: int|
                0 <= i < old(self).tries_spec().len() ==> (#[trigger] old(self).tries_spec()[i]).level_spec() > 0),
    {
        if self.tries.len() == 0 {
            return false;
        }
        let mut all_closed = true;
        let mut i: usize = 0;
        while i < self.tries.len()
            invariant
                i <= self.tries@.len(),
                self.tries@.len() == old(self).tries@.len(),
                self.at_end == old(self).at_end,
                self.depth == old(self).depth,
                forall|j: int| 0 <= j < i ==> raised(old(self).tries@[j], #[trigger] self.tries@[j]),
                forall|j: int| i <= j < self.tries@.len() ==> #[trigger] self.tries@[j] == old(self).tries@[j],
                all_closed == forall|j: int| 0 <= j < i ==> (#[trigger] old(self).tries@[j]).level_spec() > 0,
            decreases self.tries@.len() - i,
        {
            let ghost before = self.tries@;
            if !self.tries[i].up() {
                all_closed = false;
            }
            assert forall|j: int| 0 <= j < i implies #[trigger] self.tries@[j] == before[j] by {}
            i += 1;
        }
        all_closed
    }
}


/// Every trie holds the path `p`.
pub open spec fn held_by_all(ts: Seq<Trie>, p: Seq<NodeView>) -> bool {
    forall|i: int| 0 <= i < ts.len() ==> along(#[trigger] ts[i].root_level(), p)
}

/// The values of each path of `rs`.
pub open spec fn path_views(rs: Seq<Vec<Node>>) -> Seq<Seq<NodeView>> {
    rs.map_values(|v: Vec<Node>| node_views(v@))
}

fn duplicate_path(p: &Vec<Node>) -> (r: Vec<Node>)
    ensures
        node_views(r@) == node_views(p@),
{
    let mut out: Vec<Node> = Vec::new();
    let mut i: usize = 0;
    while i < p.len()
        invariant
            i <= p@.len(),
            out@.len() == i,
            node_views(out@) == node_views(p@).take(i as int),
        decreases p@.len() - i,
    {
        let d = p[i].duplicate();
        let ghost before = out@;
        out.push(d);
        proof {
            assert forall|j: int| 0 <= j < i + 1 implies #[trigger] node_views(out@)[j] == node_views(p@).take(i + 1)[j] by {
                if j < i {
                    assert(out@[j] == before[j]);
                    assert(node_views(before)[j] == node_views(p@).take(i as int)[j]);
                }
            }
        }
        i += 1;
        assert(node_views(out@) =~= node_views(p@).take(i as int));
    }
    assert(node_views(p@).take(i as int) =~= node_views(p@));
    out
}

/// Whether the path `p` can be followed from `l` key by key, each step
/// finding a child level.
pub open spec fn reach_full(l: TrieLevel, p: Seq<NodeView>) -> bool
    decreases p.len(),
{
    if p.len() == 0 {
        true
    } else {
        match l.child_at(p[0]) {
            Some(c) => reach_full(c, p.drop_first()),
            None => false,
        }
    }
}

/// How the level a path leads to changes when the path grows by one value:
/// while every step found a child, it moves to the child under the value
/// (if any); once a step found none, it stays.
proof fn lemma_reach_push(l: TrieLevel, q: Seq<NodeView>, v: NodeView)
    ensures
        reach_full(l, q) ==> reach(l, q.push(v)) == match reach(l, q).child_at(v) {
            Some(c) => c,
            None => reach(l, q),
        },
        reach_full(l, q) ==> reach_full(l, q.push(v)) == reach(l, q).child_at(v) is Some,
        !reach_full(l, q) ==> reach(l, q.push(v)) == reach(l, q) && !reach_full(l, q.push(v)),
    decreases q.len(),
{
    if q.len() == 0 {
        assert(q.push(v).drop_first() =~= Seq::<NodeView>::empty());
        assert(q.push(v)[0] == v);
        reveal_with_fuel(reach, 2);
        reveal_with_fuel(reach_full, 2);
    } else {
        assert(q.push(v).drop_first() =~= q.drop_first().push(v));
        assert(q.push(v)[0] == q[0]);
        match l.child_at(q[0]) {
            Some(c) => lemma_reach_push(c, q.drop_first(), v),
            None => {},
        }
    }
}

/// The root levels of the tries.
pub open spec fn roots(ts: Seq<Trie>) -> Seq<TrieLevel> {
    ts.map_values(|t: Trie| t.root_level())
}

/// Every root of `rs` holds the path `p`.
pub open spec fn along_all(rs: Seq<TrieLevel>, p: Seq<NodeView>) -> bool {
    forall|i: int| 0 <= i < rs.len() ==> along(#[trigger] rs[i], p)
}

/// `a` comes before `b`: at the first position where they differ, `a`'s
/// value sorts first.
pub open spec fn path_lt(a: Seq<NodeView>, b: Seq<NodeView>) -> bool {
    exists|k: int| 0 <= k < a.len() && k < b.len() && a.take(k) == b.take(k) && #[trigger] node_lt(a[k], b[k])
}

/// `out` lists, in increasing order, exactly the paths of `depth` values
/// that start with `p` and are held by every root of `rs`.
pub open spec fn joined_below(rs: Seq<TrieLevel>, depth: usize, p: Seq<NodeView>, out: Seq<Seq<NodeView>>) -> bool {
    &&& forall|k: int|
        0 <= k < out.len() ==> (#[trigger] out[k]).len() == depth && out[k].take(p.len() as int) == p && along_all(
            rs,
            out[k],
        )
    &&& forall|a: int, b: int| 0 <= a < b < out.len() ==> path_lt(#[trigger] out[a], #[trigger] out[b])
    &&& forall|x: Seq<NodeView>|
        x.len() == depth && x.take(p.len() as int) == p && #[trigger] along_all(rs, x) ==> out.contains(x)
}

/// Part of `joined_below`: `out` lists the paths below `p` whose next value
/// is among `seen`.
pub open spec fn joined_through(
    rs: Seq<TrieLevel>,
    depth: usize,
    p: Seq<NodeView>,
    seen: Seq<NodeView>,
    out: Seq<Seq<NodeView>>,
) -> bool {
    &&& forall|k: int|
        0 <= k < out.len() ==> {
            &&& (#[trigger] out[k]).len() == depth
            &&& out[k].take(p.len() as int) == p
            &&& along_all(rs, out[k])
            &&& seen.contains(out[k][p.len() as int])
        }
    &&& forall|a: int, b: int| 0 <= a < b < out.len() ==> path_lt(#[trigger] out[a], #[trigger] out[b])
    &&& forall|x: Seq<NodeView>|
        x.len() == depth && x.take(p.len() as int) == p && #[trigger] along_all(rs, x) && seen.contains(
            x[p.len() as int],
        ) ==> out.contains(x)
}

proof fn lemma_along_push(l: TrieLevel, p: Seq<NodeView>, v: NodeView)
    requires
        along(l, p),
        reach(l, p).values_spec().contains(v),
    ensures
        along(l, p.push(v)),
{
    let q = p.push(v);
    assert forall|j: int| 0 <= j < q.len() implies #[trigger] reach(l, q.take(j)).values_spec().contains(q[j]) by {
        if j < p.len() {
            assert(q.take(j) =~= p.take(j));
            assert(reach(l, p.take(j)).values_spec().contains(p[j]));
        } else {
            assert(q.take(j) =~= p);
        }
    }
}

/// A path held by a root holds its next value in the level its prefix leads to.
proof fn lemma_along_next(l: TrieLevel, x: Seq<NodeView>, d: int)
    requires
        along(l, x),
        0 <= d < x.len(),
    ensures
        reach(l, x.take(d)).values_spec().contains(x[d]),
{
}

/// At the last level, the one path `p.push(v)` is all there is below it.
proof fn lemma_joined_leaf(rs: Seq<TrieLevel>, depth: usize, p: Seq<NodeView>, v: NodeView)
    requires
        depth == p.len() + 1,
        along_all(rs, p.push(v)),
    ensures
        joined_below(rs, depth, p.push(v), seq![p.push(v)]),
{
    let q = p.push(v);
    assert(q.take(q.len() as int) =~= q);
    assert forall|x: Seq<NodeView>| x.len() == depth && x.take(q.len() as int) == q && #[trigger] along_all(rs, x)
        implies seq![q].contains(x) by {
        assert(x =~= x.take(q.len() as int));
        assert(seq![q][0] == q);
    }
}

/// Listing the paths through the next value `v` of `seen`, common to all
/// roots, keeps the partial listing.
proof fn lemma_joined_step(
    rs: Seq<TrieLevel>,
    depth: usize,
    p: Seq<NodeView>,
    vals: Seq<NodeView>,
    i: int,
    out: Seq<Seq<NodeView>>,
    sub: Seq<Seq<NodeView>>,
)
    requires
        0 <= i < vals.len(),
        p.len() < depth,
        strictly_sorted(vals),
        joined_through(rs, depth, p, vals.take(i), out),
        joined_below(rs, depth, p.push(vals[i]), sub),
    ensures
        joined_through(rs, depth, p, vals.take(i + 1), out + sub),
{
    let d = p.len() as int;
    let v = vals[i];
    let n = out + sub;
    let seen = vals.take(i + 1);
    assert(p.push(v).len() == d + 1);
    assert forall|k: int| 0 <= k < n.len() implies {
        &&& (#[trigger] n[k]).len() == depth
        &&& n[k].take(d) == p
        &&& along_all(rs, n[k])
        &&& seen.contains(n[k][d])
    } by {
        if k < out.len() {
            assert(n[k] == out[k]);
            let j = choose|j: int| 0 <= j < vals.take(i).len() && vals.take(i)[j] == out[k][d];
            assert(seen[j] == out[k][d]);
        } else {
            let s = sub[k - out.len()];
            assert(n[k] == s);
            assert(s.take(d + 1) == p.push(v));
            assert(s.take(d) =~= s.take(d + 1).take(d));
            assert(p.push(v).take(d) =~= p);
            assert(s[d] == s.take(d + 1)[d]);
            assert(seen[i] == v);
        }
    }
    assert forall|a: int, b: int| 0 <= a < b < n.len() implies path_lt(#[trigger] n[a], #[trigger] n[b]) by {
        if b < out.len() {
            assert(n[a] == out[a] && n[b] == out[b]);
        } else if a >= out.len() {
            assert(n[a] == sub[a - out.len()] && n[b] == sub[b - out.len()]);
        } else {
            let x = out[a];
            let y = sub[b - out.len()];
            assert(n[a] == x && n[b] == y);
            let j = choose|j: int| 0 <= j < vals.take(i).len() && vals.take(i)[j] == x[d];
            assert(vals[j] == x[d]);
            assert(node_lt(vals[j], vals[i]));
            assert(y.take(d + 1) == p.push(v));
            assert(y.take(d) =~= y.take(d + 1).take(d));
            assert(p.push(v).take(d) =~= p);
            assert(y[d] == y.take(d + 1)[d]);
            assert(x.take(d) == y.take(d));
            assert(node_lt(x[d], y[d]));
        }
    }
    assert forall|x: Seq<NodeView>|
        x.len() == depth && x.take(d) == p && #[trigger] along_all(rs, x) && seen.contains(x[d]) implies n.contains(x) by {
        let j = choose|j: int| 0 <= j < seen.len() && seen[j] == x[d];
        if j < i {
            assert(vals.take(i)[j] == x[d]);
            let k = choose|k: int| 0 <= k < out.len() && out[k] == x;
            assert(n[k] == x);
        } else {
            assert(x[d] == v);
            assert(x.take(d + 1) =~= p.push(v));
            let k = choose|k: int| 0 <= k < sub.len() && sub[k] == x;
            assert(n[out.len() + k] == x);
        }
    }
}

/// Passing over a value `v` that some root does not hold below `p` keeps the
/// partial listing.
proof fn lemma_joined_skip(
    rs: Seq<TrieLevel>,
    depth: usize,
    p: Seq<NodeView>,
    vals: Seq<NodeView>,
    i: int,
    out: Seq<Seq<NodeView>>,
    m: int,
)
    requires
        0 <= i < vals.len(),
        p.len() < depth,
        0 <= m < rs.len(),
        !reach(rs[m], p).values_spec().contains(vals[i]),
        joined_through(rs, depth, p, vals.take(i), out),
    ensures
        joined_through(rs, depth, p, vals.take(i + 1), out),
{
    let d = p.len() as int;
    let seen = vals.take(i + 1);
    assert forall|k: int| 0 <= k < out.len() implies seen.contains((#[trigger] out[k])[d]) by {
        let j = choose|j: int| 0 <= j < vals.take(i).len() && vals.take(i)[j] == out[k][d];
        assert(seen[j] == out[k][d]);
    }
    assert forall|x: Seq<NodeView>|
        x.len() == depth && x.take(d) == p && #[trigger] along_all(rs, x) && seen.contains(x[d]) implies out.contains(x) by {
        let j = choose|j: int| 0 <= j < seen.len() && seen[j] == x[d];
        if j < i {
            assert(vals.take(i)[j] == x[d]);
        } else {
            assert(along(rs[m], x));
            lemma_along_next(rs[m], x, d);
        }
    }
}

/// Having passed over every value of the first root's level, the partial
/// listing is the whole listing below `p`.
proof fn lemma_joined_done(rs: Seq<TrieLevel>, depth: usize, p: Seq<NodeView>, vals: Seq<NodeView>, out: Seq<Seq<NodeView>>)
    requires
        rs.len() > 0,
        p.len() < depth,
        vals == reach(rs[0], p).values_spec(),
        joined_through(rs, depth, p, vals.take(vals.len() as int), out),
    ensures
        joined_below(rs, depth, p, out),
{
    let d = p.len() as int;
    assert(vals.take(vals.len() as int) =~= vals);
    assert forall|x: Seq<NodeView>| x.len() == depth && x.take(d) == p && #[trigger] along_all(rs, x) implies out.contains(
        x,
    ) by {
        assert(along(rs[0], x));
        lemma_along_next(rs[0], x, d);
    }
}

/// Whether the sorted `vals` hold `v`.
fn sorted_contains(vals: &Vec<Node>, v: &Node) -> (r: bool)
    requires
        strictly_sorted(node_views(vals@)),
    ensures
        r == node_views(vals@).contains(v@),
{
    let i = lower_bound(vals.as_slice(), v);
    let ghost s = node_views(vals@);
    if i < vals.len() {
        match compare_nodes(&vals[i], v) {
            Relation::Same => {
                assert(s[i as int] == v@);
                return true;
            },
            _ => {},
        }
    }
    proof {
        if s.contains(v@) {
            let j = choose|j: int| 0 <= j < s.len() && s[j] == v@;
            assert(s[j] == vals@[j]@);
            lemma_node_trichotomy(v@, v@);
            if j > i {
                assert(s[i as int] == vals@[i as int]@);
                lemma_node_trichotomy(vals@[i as int]@, v@);
                assert(node_lt(s[i as int], s[j]));
            }
        }
    }
    false
}

/// Whether every sorted sequence of `vals` holds `v`; when one does not,
/// the ghost result names it.
fn common_to_all(
    vals: &Vec<Vec<Node>>,
    v: &Node,
    Ghost(rs): Ghost<Seq<TrieLevel>>,
    Ghost(p): Ghost<Seq<NodeView>>,
) -> (r: (bool, Ghost<int>))
    requires
        vals@.len() == rs.len(),
        forall|j: int|
            0 <= j < rs.len() ==> node_views((#[trigger] vals@[j])@) == reach(rs[j], p).values_spec() && strictly_sorted(
                node_views(vals@[j]@),
            ),
    ensures
        r.0 ==> forall|j: int| 0 <= j < rs.len() ==> reach(#[trigger] rs[j], p).values_spec().contains(v@),
        !r.0 ==> 0 <= r.1@ < rs.len() && !reach(rs[r.1@], p).values_spec().contains(v@),
{
    let mut m: usize = 0;
    while m < vals.len()
        invariant
            m <= vals@.len(),
            vals@.len() == rs.len(),
            forall|j: int|
                0 <= j < rs.len() ==> node_views((#[trigger] vals@[j])@) == reach(rs[j], p).values_spec()
                    && strictly_sorted(node_views(vals@[j]@)),
            forall|j: int| 0 <= j < m ==> reach(#[trigger] rs[j], p).values_spec().contains(v@),
        decreases vals@.len() - m,
    {
        if !sorted_contains(&vals[m], v) {
            assert(node_views(vals@[m as int]@) == reach(rs[m as int], p).values_spec());
            return (false, Ghost(m as int));
        }
        assert(node_views(vals@[m as int]@) == reach(rs[m as int], p).values_spec());
        m += 1;
    }
    (true, Ghost(0))
}

/// The levels the tries reach below `p.push(v)`, and whether each got there
/// key by key: a trie that has found a child at every step moves to the
/// child under `v`, if there is one; any other stays where it is.
fn child_levels<'a>(
    levels: &Vec<&'a TrieLevel>,
    full: &Vec<bool>,
    v: &Node,
    Ghost(rs): Ghost<Seq<TrieLevel>>,
    Ghost(p): Ghost<Seq<NodeView>>,
) -> (r: (Vec<&'a TrieLevel>, Vec<bool>))
    requires
        levels@.len() == rs.len(),
        full@.len() == rs.len(),
        forall|t: int| 0 <= t < rs.len() ==> *(#[trigger] levels@[t]) == reach(rs[t], p),
        forall|t: int| 0 <= t < rs.len() ==> #[trigger] full@[t] == reach_full(rs[t], p),
    ensures
        r.0@.len() == rs.len(),
        r.1@.len() == rs.len(),
        forall|t: int| 0 <= t < rs.len() ==> *(#[trigger] r.0@[t]) == reach(rs[t], p.push(v@)),
        forall|t: int| 0 <= t < rs.len() ==> #[trigger] r.1@[t] == reach_full(rs[t], p.push(v@)),
{
    let ghost q = p.push(v@);
    let mut next_levels: Vec<&'a TrieLevel> = Vec::new();
    let mut next_full: Vec<bool> = Vec::new();
    let mut j: usize = 0;
    while j < levels.len()
        invariant
            j <= levels@.len(),
            levels@.len() == rs.len(),
            full@.len() == rs.len(),
            q == p.push(v@),
            next_levels@.len() == j,
            next_full@.len() == j,
            forall|t: int| 0 <= t < rs.len() ==> *(#[trigger] levels@[t]) == reach(rs[t], p),
            forall|t: int| 0 <= t < rs.len() ==> #[trigger] full@[t] == reach_full(rs[t], p),
            forall|t: int| 0 <= t < j ==> *(#[trigger] next_levels@[t]) == reach(rs[t], q),
            forall|t: int| 0 <= t < j ==> #[trigger] next_full@[t] == reach_full(rs[t], q),
        decreases levels@.len() - j,
    {
        proof {
            lemma_reach_push(rs[j as int], p, v@);
        }
        assert(*levels@[j as int] == reach(rs[j as int], p));
        assert(full@[j as int] == reach_full(rs[j as int], p));
        let l: &'a TrieLevel = levels[j];
        let ghost nb = next_levels@;
        let ghost fb = next_full@;
        if full[j] {
            match l.get_child(v) {
                Some(c) => {
                    next_levels.push(c);
                    next_full.push(true);
                },
                None => {
                    next_levels.push(l);
                    next_full.push(false);
                },
            }
        } else {
            next_levels.push(l);
            next_full.push(false);
        }
        proof {
            assert forall|t: int| 0 <= t < j + 1 implies *(#[trigger] next_levels@[t]) == reach(rs[t], q) by {
                if t < j {
                    assert(next_levels@[t] == nb[t]);
                }
            }
            assert forall|t: int| 0 <= t < j + 1 implies #[trigger] next_full@[t] == reach_full(rs[t], q) by {
                if t < j {
                    assert(next_full@[t] == fb[t]);
                }
            }
        }
        j += 1;
    }
    (next_levels, next_full)
}

/// A full leapfrog join over tries of one depth.
pub struct LeapfrogJoin {
    iterators: Vec<LeapfrogIterator>,
    current_depth: usize,
    max_depth: usize,
}

impl LeapfrogJoin {
    /// The iterators (one at most, over all the tries).
    pub closed spec fn iters_spec(&self) -> Seq<LeapfrogIterator> {
        self.iterators@
    }

    /// The depth of the tries.
    pub closed spec fn max_depth_spec(&self) -> usize {
        self.max_depth
    }

    /// A join over `tries`, all of one depth: one iterator over all of them,
    /// or none when there are no tries.
    pub fn new(tries: Vec<Trie>) -> (r: LeapfrogJoin)
        requires
            forall|i: int| 0 <= i < tries@.len() ==> (#[trigger] tries@[i]).depth_spec() == tries@[0].depth_spec(),
        ensures
            tries@.len() == 0 ==> r.iters_spec().len() == 0 && r.max_depth_spec() == 0,
            tries@.len() > 0 ==> r.iters_spec().len() == 1 && r.iters_spec()[0].tries_spec() == tries@
                && !r.iters_spec()[0].ended() && r.max_depth_spec() == tries@[0].depth_spec(),
    {
        if tries.len() == 0 {
            return LeapfrogJoin { iterators: Vec::new(), current_depth: 0, max_depth: 0 };
        }
        let max_depth = tries[0].depth();
        let root_iter = LeapfrogIterator::new(tries);
        let mut iterators: Vec<LeapfrogIterator> = Vec::new();
        iterators.push(root_iter);
        LeapfrogJoin { iterators, current_depth: 0, max_depth }
    }

    /// All solutions of the join: every path of one value per level that
    /// every trie holds, in increasing order (compared value by value). Each
    /// level intersects the sorted values the tries hold below the path so
    /// far, and descends below each common value. The join reads the tries'
    /// levels, not their cursors: the cursors stay where they were, so a
    /// second call lists the same paths. With no tries, or no levels, there
    /// is nothing to list.
    pub fn execute(&mut self) -> (r: Vec<Vec<Node>>)
        ensures
            *final(self) == *old(self),
            old(self).iters_spec().len() == 0 || old(self).max_depth_spec() == 0 || old(
                self,
            ).iters_spec()[0].tries_spec().len() == 0 ==> r@.len() == 0,
            old(self).iters_spec().len() > 0 && old(self).max_depth_spec() > 0 && old(
                self,
            ).iters_spec()[0].tries_spec().len() > 0 ==> {
                &&& forall|p: Seq<NodeView>|
                    #![trigger held_by_all(old(self).iters_spec()[0].tries_spec(), p)]
                    #![trigger path_views(r@).contains(p)]
                    (p.len() == old(self).max_depth_spec() && held_by_all(old(self).iters_spec()[0].tries_spec(), p))
                        <==> path_views(r@).contains(p)
                &&& forall|a: int, b: int|
                    0 <= a < b < r@.len() ==> path_lt(#[trigger] path_views(r@)[a], #[trigger] path_views(r@)[b])
            },
    {
        let mut results: Vec<Vec<Node>> = Vec::new();
        if self.iterators.len() == 0 || self.max_depth == 0 || self.iterators[0].tries.len() == 0 {
            return results;
        }
        let it = &self.iterators[0];
        let ghost ts = it.tries@;
        let ghost rs = roots(ts);
        let mut levels: Vec<&TrieLevel> = Vec::new();
        let mut full: Vec<bool> = Vec::new();
        let mut i: usize = 0;
        while i < it.tries.len()
            invariant
                i <= it.tries@.len(),
                ts == it.tries@,
                rs == roots(ts),
                levels@.len() == i,
                full@.len() == i,
                forall|j: int| 0 <= j < i ==> *(#[trigger] levels@[j]) == rs[j] && full@[j],
            decreases it.tries@.len() - i,
        {
            levels.push(it.tries[i].root());
            full.push(true);
            i += 1;
        }
        let mut path: Vec<Node> = Vec::new();
        proof {
            let p = node_views(path@);
            assert(p =~= Seq::<NodeView>::empty());
            assert forall|j: int| 0 <= j < rs.len() implies along(#[trigger] rs[j], p) by {}
            assert forall|j: int| 0 <= j < rs.len() implies *(#[trigger] levels@[j]) == reach(rs[j], p) by {}
            assert forall|j: int| 0 <= j < rs.len() implies #[trigger] full@[j] == reach_full(rs[j], p) by {
                assert(*levels@[j] == rs[j]);
            }
        }
        LeapfrogJoin::enumerate_level(&levels, &full, Ghost(rs), self.max_depth, &mut path, &mut results);
        proof {
            let out = path_views(results@);
            assert(out.subrange(0, out.len() as int) =~= out);
            assert forall|p: Seq<NodeView>| #[trigger] held_by_all(ts, p) == along_all(rs, p) by {
                if held_by_all(ts, p) {
                    assert forall|j: int| 0 <= j < rs.len() implies along(#[trigger] rs[j], p) by {
                        assert(along(ts[j].root_level(), p));
                    }
                }
                if along_all(rs, p) {
                    assert forall|j: int| 0 <= j < ts.len() implies along(#[trigger] ts[j].root_level(), p) by {
                        assert(along(rs[j], p));
                    }
                }
            }
            assert forall|p: Seq<NodeView>|
                (p.len() == self.max_depth && held_by_all(ts, p)) <==> #[trigger] out.contains(p) by {
                assert(p.take(0) =~= Seq::<NodeView>::empty());
                if out.contains(p) {
                    let k = choose|k: int| 0 <= k < out.len() && out[k] == p;
                }
            }
        }
        results
    }

    /// Lists, in increasing order, the joined paths below `path`: the values
    /// held by every trie's level below `path` are taken in order, each is
    /// appended, and below the last level the path is recorded, otherwise
    /// the next level is listed. A trie whose path found no child stays on
    /// the level it reached.
    fn enumerate_level(
        levels: &Vec<&TrieLevel>,
        full: &Vec<bool>,
        Ghost(rs): Ghost<Seq<TrieLevel>>,
        max_depth: usize,
        path: &mut Vec<Node>,
        results: &mut Vec<Vec<Node>>,
    )
        requires
            rs.len() > 0,
            levels@.len() == rs.len(),
            full@.len() == rs.len(),
            node_views(old(path)@).len() < max_depth,
            along_all(rs, node_views(old(path)@)),
            forall|i: int| 0 <= i < rs.len() ==> *(#[trigger] levels@[i]) == reach(rs[i], node_views(old(path)@)),
            forall|i: int| 0 <= i < rs.len() ==> #[trigger] full@[i] == reach_full(rs[i], node_views(old(path)@)),
        ensures
            node_views(final(path)@) == node_views(old(path)@),
            final(results)@.len() >= old(results)@.len(),
            forall|k: int|
                0 <= k < old(results)@.len() ==> #[trigger] path_views(final(results)@)[k] == path_views(old(results)@)[k],
            joined_below(
                rs,
                max_depth,
                node_views(old(path)@),
                path_views(final(results)@).subrange(old(results)@.len() as int, final(results)@.len() as int),
            ),
        decreases max_depth - node_views(old(path)@).len(),
    {
        let ghost p = node_views(path@);
        let ghost r0 = path_views(results@);
        let d = path.len();
        let mut vals: Vec<Vec<Node>> = Vec::new();
        let mut i: usize = 0;
        while i < levels.len()
            invariant
                i <= levels@.len(),
                vals@.len() == i,
                levels@.len() == rs.len(),
                full@.len() == rs.len(),
                forall|t: int| 0 <= t < rs.len() ==> *(#[trigger] levels@[t]) == reach(rs[t], p),
                forall|t: int| 0 <= t < rs.len() ==> #[trigger] full@[t] == reach_full(rs[t], p),
                forall|j: int|
                    0 <= j < i ==> node_views((#[trigger] vals@[j])@) == levels@[j].values_spec() && strictly_sorted(
                        levels@[j].values_spec(),
                    ),
            decreases levels@.len() - i,
        {
            let sv = levels[i].sorted_values();
            let ghost before = vals@;
            vals.push(sv);
            proof {
                assert forall|j: int| 0 <= j < i + 1 implies node_views((#[trigger] vals@[j])@) == levels@[j].values_spec()
                    && strictly_sorted(levels@[j].values_spec()) by {
                    if j < i {
                        assert(vals@[j] == before[j]);
                    }
                }
            }
            i += 1;
        }
        let ghost vs = node_views(vals@[0]@);
        assert(vs == reach(rs[0], p).values_spec());
        let mut idx: usize = 0;
        proof {
            assert(path_views(results@).subrange(r0.len() as int, results@.len() as int) =~= Seq::<Seq<NodeView>>::empty());
        }
        while idx < vals[0].len()
            invariant
                idx <= vs.len(),
                vals@.len() == rs.len(),
                vs == node_views(vals@[0]@),
                vs == reach(rs[0], p).values_spec(),
                strictly_sorted(vs),
                forall|j: int|
                    0 <= j < rs.len() ==> node_views((#[trigger] vals@[j])@) == reach(rs[j], p).values_spec()
                        && strictly_sorted(node_views(vals@[j]@)),
                rs.len() > 0,
                levels@.len() == rs.len(),
                full@.len() == rs.len(),
                forall|t: int| 0 <= t < rs.len() ==> *(#[trigger] levels@[t]) == reach(rs[t], p),
                forall|t: int| 0 <= t < rs.len() ==> #[trigger] full@[t] == reach_full(rs[t], p),
                along_all(rs, p),
                p == node_views(old(path)@),
                p.len() == d,
                d < max_depth,
                node_views(path@) == p,
                r0 == path_views(old(results)@),
                results@.len() >= r0.len(),
                forall|k: int| 0 <= k < r0.len() ==> #[trigger] path_views(results@)[k] == r0[k],
                joined_through(
                    rs,
                    max_depth,
                    p,
                    vs.take(idx as int),
                    path_views(results@).subrange(r0.len() as int, results@.len() as int),
                ),
            decreases vs.len() - idx,
        {
            let v = &vals[0][idx];
            assert(vs[idx as int] == v@);
            let (common, Ghost(missing)) = common_to_all(&vals, v, Ghost(rs), Ghost(p));
            let ghost before = path_views(results@).subrange(r0.len() as int, results@.len() as int);
            let ghost rb = results@;
            if common {
                let ghost q = p.push(v@);
                path.push(v.duplicate());
                proof {
                    assert(node_views(path@) =~= q);
                    assert forall|j: int| 0 <= j < rs.len() implies along(#[trigger] rs[j], q) by {
                        assert(along(rs[j], p));
                        assert(reach(rs[j], p).values_spec().contains(v@));
                        lemma_along_push(rs[j], p, v@);
                    }
                }
                if d + 1 == max_depth {
                    let rec = duplicate_path(path);
                    results.push(rec);
                    proof {
                        lemma_joined_leaf(rs, max_depth, p, v@);
                        assert(path_views(results@).subrange(r0.len() as int, results@.len() as int) =~= before + seq![
                            q,
                        ]);
                        assert forall|k: int| 0 <= k < r0.len() implies #[trigger] path_views(results@)[k] == r0[k] by {
                            assert(results@[k] == rb[k]);
                            assert(path_views(rb)[k] == r0[k]);
                        }
                        lemma_joined_step(rs, max_depth, p, vs, idx as int, before, seq![q]);
                    }
                } else {
                    let (next_levels, next_full) = child_levels(levels, full, v, Ghost(rs), Ghost(p));
                    assert(node_views(path@).len() == p.len() + 1);
                    LeapfrogJoin::enumerate_level(&next_levels, &next_full, Ghost(rs), max_depth, path, results);
                    proof {
                        let sub = path_views(results@).subrange(rb.len() as int, results@.len() as int);
                        assert(path_views(results@).subrange(r0.len() as int, results@.len() as int) =~= before + sub);
                        assert forall|k: int| 0 <= k < r0.len() implies #[trigger] path_views(results@)[k] == r0[k] by {
                            assert(path_views(results@)[k] == path_views(rb)[k]);
                        }
                        lemma_joined_step(rs, max_depth, p, vs, idx as int, before, sub);
                    }
                }
                let ghost pp = path@;
                path.pop();
                proof {
                    assert(node_views(path@) =~= node_views(pp).drop_last());
                    assert(q.drop_last() =~= p);
                }
            } else {
                proof {
                    lemma_joined_skip(rs, max_depth, p, vs, idx as int, before, missing);
                }
            }
            idx += 1;
        }
        proof {
            lemma_joined_done(rs, max_depth, p, vs, path_views(results@).subrange(r0.len() as int, results@.len() as int));
        }
    }

    /// An estimate of the join's size: the number of tries (0 without an
    /// iterator).
    pub fn estimate_cardinality(&self) -> (r: usize)
        ensures
            r == if self.iters_spec().len() == 0 {
                0
            } else {
                self.iters_spec()[0].tries_spec().len()
            },
    {
        if self.iterators.len() == 0 {
            return 0;
        }
        self.iterators[0].num_tries()
    }
}

} // verus!
