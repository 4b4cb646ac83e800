//! Sets of strings and maps keyed by strings, kept as vectors without
//! repeated elements or keys.
use vstd::prelude::*;

verus! {

/// The views of a sequence of strings.
pub open spec fn string_views(v: Seq<String>) -> Seq<Seq<char>> {
    v.map_values(|s: String| s@)
}

/// Appends a string to a vector of strings.
pub fn push_string(out: &mut Vec<String>, s: String)
    ensures
        string_views(final(out)@) == string_views(old(out)@).push(s@),
{
    let ghost v = s@;
    out.push(s);
    assert(string_views(out@) =~= string_views(old(out)@).push(v));
}

fn same_string(a: &String, b: &String) -> (r: bool)
    ensures
        r == (a@ == b@),
{
    String::eq(a, b)
}

/// A set of strings.
pub struct StringSet {
    items: Vec<String>,
}

impl View for StringSet {
    type V = Set<Seq<char>>;

    closed spec fn view(&self) -> Set<Seq<char>> {
        string_views(self.items@).to_set()
    }
}

impl StringSet {
    #[verifier::type_invariant]
    spec fn distinct(&self) -> bool {
        string_views(self.items@).no_duplicates()
    }

    /// A set of strings is finite.
    pub proof fn lemma_finite(&self)
        ensures
            self@.finite(),
    {
        vstd::seq_lib::seq_to_set_is_finite(string_views(self.items@));
    }

    /// The empty set.
    pub fn new() -> (r: StringSet)
        ensures
            r@ == Set::<Seq<char>>::empty(),
    {
        let r = StringSet { items: Vec::new() };
        assert(string_views(r.items@).to_set() =~= Set::<Seq<char>>::empty());
        r
    }

    fn position(&self, s: &String) -> (r: Option<usize>)
        ensures
            match r {
                Some(i) => i < self.items@.len() && self.items@[i as int]@ == s@ && self@.contains(s@),
                None => !self@.contains(s@),
            },
    {
        let mut i: usize = 0;
        while i < self.items.len()
            invariant
                i <= self.items@.len(),
                forall|j: int| 0 <= j < i ==> self.items@[j]@ != s@,
            decreases self.items@.len() - i,
        {
            if same_string(&self.items[i], s) {
                assert(string_views(self.items@)[i as int] == s@);
                return Some(i);
            }
            i += 1;
        }
        proof {
            if self@.contains(s@) {
                let j = choose|j: int| 0 <= j < self.items@.len() && string_views(self.items@)[j] == s@;
                assert(self.items@[j]@ == s@);
            }
        }
        None
    }

    /// Whether the set holds `s`.
    pub fn contains(&self, s: &str) -> (r: bool)
        ensures
            r == self@.contains(s@),
    {
        let key = s.to_owned();
        self.position(&key).is_some()
    }

    /// Adds `s`; true when it was not there before.
    pub fn insert(&mut self, s: String) -> (r: bool)
        ensures
            final(self)@ == old(self)@.insert(s@),
            r == !old(self)@.contains(s@),
    {
        proof {
            use_type_invariant(&*self);
        }
        match self.position(&s) {
            Some(i) => {
                assert(string_views(self.items@)[i as int] == s@);
                assert(self@.insert(s@) =~= self@);
                false
            },
            None => {
                let ghost sv = s@;
                let ghost before = self.items@;
                let mut items: Vec<String> = Vec::new();
                std::mem::swap(&mut items, &mut self.items);
                items.push(s);
                assert(string_views(items@) =~= string_views(before).push(sv));
                proof {
                    string_views(before).lemma_push_to_set_commute(sv);
                    assert(!string_views(before).contains(sv));
                    assert(string_views(items@).no_duplicates());
                }
                std::mem::swap(&mut items, &mut self.items);
                true
            },
        }
    }

    /// The number of strings held.
    pub fn len(&self) -> (r: usize)
        ensures
            r == self@.len(),
            self@.finite(),
    {
        proof {
            use_type_invariant(self);
            string_views(self.items@).unique_seq_to_set();
            vstd::seq_lib::seq_to_set_is_finite(string_views(self.items@));
        }
        self.items.len()
    }

    /// Whether the set is empty.
    pub fn is_empty(&self) -> (r: bool)
        ensures
            r == (self@ == Set::<Seq<char>>::empty()),
    {
        proof {
            use_type_invariant(self);
            if self.items@.len() > 0 {
                assert(string_views(self.items@)[0] == self.items@[0]@);
                assert(self@.contains(self.items@[0]@));
            } else {
                assert(self@ =~= Set::<Seq<char>>::empty());
            }
        }
        self.items.len() == 0
    }

    /// The strings held, each once.
    pub fn items(&self) -> (r: &[String])
        ensures
            string_views(r@).to_set() == self@,
            string_views(r@).no_duplicates(),
    {
        proof {
            use_type_invariant(self);
        }
        self.items.as_slice()
    }

    /// A copy of the set.
    pub fn duplicate(&self) -> (r: StringSet)
        ensures
            r@ == self@,
    {
        let mut r = StringSet::new();
        r.extend_from(self);
        assert(r@ =~= self@);
        r
    }

    /// Adds every string of `other`.
    pub fn extend_from(&mut self, other: &StringSet)
        ensures
            final(self)@ == old(self)@.union(other@),
    {
        let items = other.items();
        let mut i: usize = 0;
        while i < items.len()
            invariant
                i <= items@.len(),
                string_views(items@).to_set() == other@,
                self@ == old(self)@.union(string_views(items@).take(i as int).to_set()),
            decreases items@.len() - i,
        {
            self.insert(items[i].clone());
            assert(string_views(items@).take(i + 1) =~= string_views(items@).take(i as int).push(items@[i as int]@));
            proof {
                string_views(items@).take(i as int).lemma_push_to_set_commute(items@[i as int]@);
            }
            i += 1;
        }
        assert(string_views(items@).take(i as int) =~= string_views(items@));
        assert(self@ =~= old(self)@.union(other@));
    }
}

impl Default for StringSet {
    fn default() -> (r: StringSet)
        ensures
            r@ == Set::<Seq<char>>::empty(),
    {
        StringSet::new()
    }
}

/// The map that the pairs of `es` make, a later pair for a key winning.
pub open spec fn pairs_map<V: View>(es: Seq<(String, V)>) -> Map<Seq<char>, V::V>
    decreases es.len(),
{
    if es.len() == 0 {
        Map::empty()
    } else {
        pairs_map(es.drop_last()).insert(es.last().0@, es.last().1@)
    }
}

/// No two pairs of `es` have keys with the same text.
pub open spec fn distinct_keys<V>(es: Seq<(String, V)>) -> bool {
    forall|i: int, j: int| 0 <= i < j < es.len() ==> (#[trigger] es[i]).0@ != (#[trigger] es[j]).0@
}

pub proof fn lemma_pairs_map_has<V: View>(es: Seq<(String, V)>, i: int)
    requires
        distinct_keys(es),
        0 <= i < es.len(),
    ensures
        pairs_map(es).contains_key(es[i].0@),
        pairs_map(es)[es[i].0@] == es[i].1@,
    decreases es.len(),
{
    if i < es.len() - 1 {
        assert(es.drop_last()[i] == es[i]);
        lemma_pairs_map_has(es.drop_last(), i);
        assert(es[i].0@ != es[es.len() - 1].0@);
    }
}

pub proof fn lemma_pairs_map_lacks<V: View>(es: Seq<(String, V)>, k: Seq<char>)
    requires
        forall|i: int| 0 <= i < es.len() ==> (#[trigger] es[i]).0@ != k,
    ensures
        !pairs_map(es).contains_key(k),
    decreases es.len(),
{
    if es.len() > 0 {
        assert forall|i: int| 0 <= i < es.drop_last().len() implies (#[trigger] es.drop_last()[i]).0@ != k by {
            assert(es.drop_last()[i] == es[i]);
        }
        lemma_pairs_map_lacks(es.drop_last(), k);
        assert(es.last() == es[es.len() - 1]);
    }
}

proof fn lemma_pairs_map_update<V: View>(es: Seq<(String, V)>, i: int, p: (String, V))
    requires
        distinct_keys(es),
        0 <= i < es.len(),
        p.0@ == es[i].0@,
    ensures
        pairs_map(es.update(i, p)) == pairs_map(es).insert(p.0@, p.1@),
        distinct_keys(es.update(i, p)),
    decreases es.len(),
{
    let us = es.update(i, p);
    assert forall|a: int, b: int| 0 <= a < b < us.len() implies (#[trigger] us[a]).0@ != (#[trigger] us[b]).0@ by {
        assert(us[a].0@ == es[a].0@);
        assert(us[b].0@ == es[b].0@);
    }
    if i == es.len() - 1 {
        assert(us.drop_last() =~= es.drop_last());
        lemma_pairs_map_lacks(es.drop_last(), p.0@);
        assert(pairs_map(us) =~= pairs_map(es).insert(p.0@, p.1@));
    } else {
        assert(us.drop_last() =~= es.drop_last().update(i, p));
        assert(es.drop_last()[i] == es[i]);
        lemma_pairs_map_update(es.drop_last(), i, p);
        assert(es.last().0@ != p.0@);
        assert(pairs_map(us) =~= pairs_map(es).insert(p.0@, p.1@));
    }
}

proof fn lemma_pairs_map_finite<V: View>(es: Seq<(String, V)>)
    ensures
        pairs_map(es).dom().finite(),
    decreases es.len(),
{
    if es.len() > 0 {
        lemma_pairs_map_finite(es.drop_last());
    }
}

/// A map keyed by strings.
pub struct StringKeyMap<V: View> {
    entries: Vec<(String, V)>,
}

impl<V: View> View for StringKeyMap<V> {
    type V = Map<Seq<char>, V::V>;

    closed spec fn view(&self) -> Map<Seq<char>, V::V> {
        pairs_map(self.entries@)
    }
}

impl<V: View> StringKeyMap<V> {
    #[verifier::type_invariant]
    spec fn keys_distinct(&self) -> bool {
        distinct_keys(self.entries@)
    }

    /// The empty map.
    pub fn new() -> (r: StringKeyMap<V>)
        ensures
            r@ == Map::<Seq<char>, V::V>::empty(),
    {
        StringKeyMap { entries: Vec::new() }
    }

    fn position(&self, k: &String) -> (r: Option<usize>)
        ensures
            match r {
                Some(i) => i < self.entries@.len() && self.entries@[i as int].0@ == k@ && self@.contains_key(k@)
                    && self@[k@] == self.entries@[i as int].1@,
                None => !self@.contains_key(k@),
            },
    {
        proof {
            use_type_invariant(self);
        }
        let mut i: usize = 0;
        while i < self.entries.len()
            invariant
                i <= self.entries@.len(),
                distinct_keys(self.entries@),
                forall|j: int| 0 <= j < i ==> (#[trigger] self.entries@[j]).0@ != k@,
            decreases self.entries@.len() - i,
        {
            if same_string(&self.entries[i].0, k) {
                proof {
                    lemma_pairs_map_has(self.entries@, i as int);
                }
                return Some(i);
            }
            i += 1;
        }
        proof {
            lemma_pairs_map_lacks(self.entries@, k@);
        }
        None
    }

    /// Whether the map has key `k`.
    pub fn contains_key(&self, k: &str) -> (r: bool)
        ensures
            r == self@.contains_key(k@),
    {
        let key = k.to_owned();
        self.position(&key).is_some()
    }

    /// The value under `k`, if any.
    pub fn get(&self, k: &str) -> (r: Option<&V>)
        ensures
            match r {
                Some(v) => self@.contains_key(k@) && v@ == self@[k@],
                None => !self@.contains_key(k@),
            },
    {
        let key = k.to_owned();
        match self.position(&key) {
            Some(i) => Some(&self.entries[i].1),
            None => None,
        }
    }

    /// Binds `k` to `v`, replacing any earlier value.
    pub fn insert(&mut self, k: String, v: V)
        ensures
            final(self)@ == old(self)@.insert(k@, v@),
    {
        proof {
            use_type_invariant(&*self);
        }
        match self.position(&k) {
            Some(i) => {
                proof {
                    lemma_pairs_map_update(self.entries@, i as int, (k, v));
                }
                let mut entries: Vec<(String, V)> = Vec::new();
                std::mem::swap(&mut entries, &mut self.entries);
                entries.set(i, (k, v));
                std::mem::swap(&mut entries, &mut self.entries);
            },
            None => {
                let ghost before = self.entries@;
                let ghost p = (k, v);
                proof {
                    assert forall|j: int| 0 <= j < before.len() implies (#[trigger] before[j]).0@ != k@ by {
                        if before[j].0@ == k@ {
                            lemma_pairs_map_has(before, j);
                        }
                    }
                }
                let mut entries: Vec<(String, V)> = Vec::new();
                std::mem::swap(&mut entries, &mut self.entries);
                entries.push((k, v));
                assert(entries@ == before.push(p));
                assert(entries@.drop_last() =~= before);
                assert(distinct_keys(entries@)) by {
                    assert forall|a: int, b: int| 0 <= a < b < entries@.len() implies (
                    #[trigger] entries@[a]).0@ != (#[trigger] entries@[b]).0@ by {
                        if b == before.len() {
                            assert(entries@[a] == before[a]);
                        } else {
                            assert(entries@[a] == before[a] && entries@[b] == before[b]);
                        }
                    }
                }
                std::mem::swap(&mut entries, &mut self.entries);
                assert(self.entries@ == before.push(p));
                assert(self.entries@.drop_last() =~= before);
                assert(distinct_keys(self.entries@)) by {
                    assert forall|a: int, b: int| 0 <= a < b < self.entries@.len() implies (
                    #[trigger] self.entries@[a]).0@ != (#[trigger] self.entries@[b]).0@ by {
                        if b == before.len() {
                            assert(self.entries@[a] == before[a]);
                        } else {
                            assert(self.entries@[a] == before[a] && self.entries@[b] == before[b]);
                        }
                    }
                }
            },
        }
    }

    /// The number of keys.
    pub fn len(&self) -> (r: usize)
        ensures
            r == self@.len(),
            self@.dom().finite(),
    {
        proof {
            use_type_invariant(self);
            lemma_pairs_map_len(self.entries@);
        }
        self.entries.len()
    }

    /// Whether the map is empty.
    pub fn is_empty(&self) -> (r: bool)
        ensures
            r == (self@.dom() == Set::<Seq<char>>::empty()),
    {
        proof {
            use_type_invariant(self);
            if self.entries@.len() > 0 {
                lemma_pairs_map_has(self.entries@, 0);
            } else {
                assert(self@.dom() =~= Set::<Seq<char>>::empty());
            }
        }
        self.entries.len() == 0
    }

    /// The key-value pairs, each key once.
    pub fn entries(&self) -> (r: &[(String, V)])
        ensures
            pairs_map(r@) == self@,
            distinct_keys(r@),
    {
        proof {
            use_type_invariant(self);
        }
        self.entries.as_slice()
    }
}

proof fn lemma_pairs_map_len<V: View>(es: Seq<(String, V)>)
    requires
        distinct_keys(es),
    ensures
        pairs_map(es).len() == es.len(),
        pairs_map(es).dom().finite(),
    decreases es.len(),
{
    lemma_pairs_map_finite(es);
    if es.len() > 0 {
        let init = es.drop_last();
        assert(distinct_keys(init)) by {
            assert forall|a: int, b: int| 0 <= a < b < init.len() implies (#[trigger] init[a]).0@ != (
            #[trigger] init[b]).0@ by {
                assert(init[a] == es[a] && init[b] == es[b]);
            }
        }
        lemma_pairs_map_len(init);
        assert forall|i: int| 0 <= i < init.len() implies (#[trigger] init[i]).0@ != es.last().0@ by {
            assert(init[i] == es[i]);
            assert(es.last() == es[es.len() - 1]);
        }
        lemma_pairs_map_lacks(init, es.last().0@);
    }
}

impl<V: View> Default for StringKeyMap<V> {
    fn default() -> (r: StringKeyMap<V>)
        ensures
            r@ == Map::<Seq<char>, V::V>::empty(),
    {
        StringKeyMap::new()
    }
}

impl StringKeyMap<StringSet> {
    /// Adds `item` to the set under `k`, starting an empty set where `k` has none.
    pub fn add(&mut self, k: String, item: String)
        ensures
            final(self)@ == old(self)@.insert(
                k@,
                if old(self)@.contains_key(k@) {
                    old(self)@[k@]
                } else {
                    Set::<Seq<char>>::empty()
                }.insert(item@),
            ),
    {
        let ghost kv = k@;
        let ghost iv = item@;
        match self.position(&k) {
            Some(i) => {
                proof {
                    use_type_invariant(&*self);
                }
                let ghost es = self.entries@;
                let mut entries: Vec<(String, StringSet)> = Vec::new();
                std::mem::swap(&mut entries, &mut self.entries);
                let (key, mut set) = entries.remove(i);
                set.insert(item);
                proof {
                    lemma_pairs_map_update(es, i as int, (key, set));
                }
                entries.insert(i, (key, set));
                assert(entries@ =~= es.update(i as int, (key, set)));
                std::mem::swap(&mut entries, &mut self.entries);
            },
            None => {
                let mut set = StringSet::new();
                set.insert(item);
                self.insert(k, set);
            },
        }
    }

    /// Adds every string of `items` to the set under `k`, starting an empty set
    /// where `k` has none.
    pub fn add_all(&mut self, k: String, items: &StringSet)
        ensures
            final(self)@ == old(self)@.insert(
                k@,
                if old(self)@.contains_key(k@) {
                    old(self)@[k@]
                } else {
                    Set::<Seq<char>>::empty()
                }.union(items@),
            ),
    {
        match self.position(&k) {
            Some(i) => {
                proof {
                    use_type_invariant(&*self);
                }
                let ghost es = self.entries@;
                let mut entries: Vec<(String, StringSet)> = Vec::new();
                std::mem::swap(&mut entries, &mut self.entries);
                let (key, mut set) = entries.remove(i);
                set.extend_from(items);
                proof {
                    lemma_pairs_map_update(es, i as int, (key, set));
                }
                entries.insert(i, (key, set));
                assert(entries@ =~= es.update(i as int, (key, set)));
                std::mem::swap(&mut entries, &mut self.entries);
            },
            None => {
                let mut set = StringSet::new();
                set.extend_from(items);
                assert(set@ =~= Set::<Seq<char>>::empty().union(items@));
                self.insert(k, set);
            },
        }
    }
}

} // verus!
