//! An in-memory storage backend over a concurrent hash map.
use dashmap::DashMap;
use vstd::prelude::*;
use crate::backend::{
    no_entries, entries_view, in_range, is_scan, insert_all, zero_stats, StorageBackend, StorageResult, StorageStats,
};
use std::sync::atomic::{AtomicU64, Ordering};
use crate::bytes::{bytes_lt, lemma_lex_transitive, lemma_lex_trichotomy, lex_le, lex_lt, prefix_compare_simd};

verus! {

/// `dashmap::DashMap`, a sharded concurrent hash map.
#[verifier::external_type_specification]
#[verifier::external_body]
#[verifier::reject_recursive_types(K)]
#[verifier::reject_recursive_types(V)]
#[verifier::reject_recursive_types(S)]
pub struct ExDashMap<K, V, S>(DashMap<K, V, S>);

/// The key-value pairs a map holds.
pub uninterp spec fn dashmap_contents(m: DashMap<Vec<u8>, Vec<u8>>) -> Map<Seq<u8>, Seq<u8>>;

/// `DashMap::with_capacity`: an empty map with room reserved.
#[verifier::external_body]
fn dm_with_capacity(capacity: usize) -> (r: DashMap<Vec<u8>, Vec<u8>>)
    ensures
        dashmap_contents(r) == no_entries(),
{
    DashMap::with_capacity(capacity)
}

/// `DashMap::insert`: binds `key` to `value`, replacing any earlier value.
#[verifier::external_body]
fn dm_insert(m: &mut DashMap<Vec<u8>, Vec<u8>>, key: Vec<u8>, value: Vec<u8>)
    ensures
        dashmap_contents(*final(m)) == dashmap_contents(*old(m)).insert(key@, value@),
{
    m.insert(key, value);
}

/// `DashMap::remove`: unbinds `key`.
#[verifier::external_body]
fn dm_remove(m: &mut DashMap<Vec<u8>, Vec<u8>>, key: &[u8])
    ensures
        dashmap_contents(*final(m)) == dashmap_contents(*old(m)).remove(key@),
{
    m.remove(key);
}

/// `DashMap::get`: a copy of the value bound to `key`, if any.
#[verifier::external_body]
fn dm_get(m: &DashMap<Vec<u8>, Vec<u8>>, key: &[u8]) -> (r: Option<Vec<u8>>)
    ensures
        match r {
            Some(v) => dashmap_contents(*m).contains_key(key@) && v@ == dashmap_contents(*m)[key@],
            None => !dashmap_contents(*m).contains_key(key@),
        },
{
    m.get(key).map(|entry| entry.value().clone())
}

/// `DashMap::contains_key`.
#[verifier::external_body]
fn dm_contains_key(m: &DashMap<Vec<u8>, Vec<u8>>, key: &[u8]) -> (r: bool)
    ensures
        r == dashmap_contents(*m).contains_key(key@),
{
    m.contains_key(key)
}

/// `m` holds finitely many keys, `n` of them.
pub open spec fn holds_count(m: Map<Seq<u8>, Seq<u8>>, n: nat) -> bool {
    m.dom().finite() && m.len() == n
}

/// `DashMap::len`: the number of keys (a map holds finitely many).
#[verifier::external_body]
fn dm_len(m: &DashMap<Vec<u8>, Vec<u8>>) -> (r: usize)
    ensures
        holds_count(dashmap_contents(*m), r as nat),
{
    m.len()
}

/// `DashMap::clear`: removes every pair.
#[verifier::external_body]
fn dm_clear(m: &mut DashMap<Vec<u8>, Vec<u8>>)
    ensures
        dashmap_contents(*final(m)) == no_entries(),
{
    m.clear();
}

/// `DashMap::iter`: a copy of every pair, in the map's own (unspecified) order.
#[verifier::external_body]
fn dm_entries(m: &DashMap<Vec<u8>, Vec<u8>>) -> (r: Vec<(Vec<u8>, Vec<u8>)>)
    ensures
        forall|i: int|
            0 <= i < r@.len() ==> dashmap_contents(*m).contains_key(#[trigger] entries_view(r@)[i].0)
                && dashmap_contents(*m)[entries_view(r@)[i].0] == entries_view(r@)[i].1,
        forall|k: Seq<u8>|
            dashmap_contents(*m).contains_key(k) ==> exists|i: int|
                0 <= i < r@.len() && #[trigger] entries_view(r@)[i].0 == k,
        forall|i: int, j: int|
            0 <= i < j < r@.len() ==> #[trigger] entries_view(r@)[i].0 != #[trigger] entries_view(r@)[j].0,
{
    m.iter().map(|entry| (entry.key().clone(), entry.value().clone())).collect()
}

/// Keys of `es` strictly increase.
pub open spec fn strictly_sorted(es: Seq<(Seq<u8>, Seq<u8>)>) -> bool {
    forall|i: int, j: int| 0 <= i < j < es.len() ==> lex_lt(#[trigger] es[i].0, #[trigger] es[j].0)
}

/// Inserts `x` into a key-sorted vector at its place.
fn insert_sorted(out: &mut Vec<(Vec<u8>, Vec<u8>)>, x: (Vec<u8>, Vec<u8>))
    requires
        strictly_sorted(entries_view(old(out)@)),
        forall|t: int| 0 <= t < old(out)@.len() ==> #[trigger] entries_view(old(out)@)[t].0 != x.0@,
    ensures
        strictly_sorted(entries_view(final(out)@)),
        entries_view(final(out)@).to_set() == entries_view(old(out)@).to_set().insert((x.0@, x.1@)),
        final(out)@.len() == old(out)@.len() + 1,
{
    let ghost ov = entries_view(out@);
    let mut pos: usize = 0;
    while pos < out.len()
        invariant
            pos <= out@.len(),
            out@ == old(out)@,
            ov == entries_view(out@),
            forall|t: int| 0 <= t < pos ==> lex_lt(#[trigger] ov[t].0, x.0@),
            forall|t: int| 0 <= t < ov.len() ==> #[trigger] ov[t].0 != x.0@,
        ensures
            pos <= out@.len(),
            out@ == old(out)@,
            forall|t: int| 0 <= t < pos ==> lex_lt(#[trigger] ov[t].0, x.0@),
            pos < out@.len() ==> lex_lt(x.0@, ov[pos as int].0),
        decreases out@.len() - pos,
    {
        if bytes_lt(x.0.as_slice(), out[pos].0.as_slice()) {
            break;
        }
        proof {
            lemma_lex_trichotomy(x.0@, ov[pos as int].0);
        }
        pos += 1;
    }
    let ghost xv = (x.0@, x.1@);
    proof {
        if pos < ov.len() {
            assert(lex_lt(xv.0, ov[pos as int].0));
        }
    }
    out.insert(pos, x);
    let ghost nv = entries_view(out@);
    assert(nv =~= ov.insert(pos as int, xv));
    assert forall|i: int, j: int| 0 <= i < j < nv.len() implies lex_lt(#[trigger] nv[i].0, #[trigger] nv[j].0) by {
        if j < pos {
            assert(nv[i] == ov[i] && nv[j] == ov[j]);
        } else if j == pos {
            assert(nv[i] == ov[i]);
        } else if i > pos {
            assert(nv[i] == ov[i - 1] && nv[j] == ov[j - 1]);
        } else if i == pos {
            assert(nv[j] == ov[j - 1]);
            if j - 1 > pos {
                lemma_lex_transitive(xv.0, ov[pos as int].0, ov[j - 1].0);
            }
        } else {
            assert(nv[i] == ov[i] && nv[j] == ov[j - 1]);
            lemma_lex_transitive(ov[i].0, xv.0, ov[pos as int].0);
            if j - 1 > pos {
                lemma_lex_transitive(ov[i].0, ov[pos as int].0, ov[j - 1].0);
            }
        }
    }
    assert(nv.to_set() =~= ov.to_set().insert(xv)) by {
        assert forall|e| nv.to_set().contains(e) implies ov.to_set().insert(xv).contains(e) by {
            let k = choose|k: int| 0 <= k < nv.len() && nv[k] == e;
            if k < pos {
                assert(ov[k] == e);
            } else if k > pos {
                assert(ov[k - 1] == e);
            }
        }
        assert forall|e| ov.to_set().insert(xv).contains(e) implies nv.to_set().contains(e) by {
            if e == xv {
                assert(nv[pos as int] == xv);
            } else {
                let k = choose|k: int| 0 <= k < ov.len() && ov[k] == e;
                if k < pos {
                    assert(nv[k] == e);
                } else {
                    assert(nv[k + 1] == e);
                }
            }
        }
    }
}

/// Which keys a scan selects.
pub enum KeyFilter<'a> {
    /// Keys in `[start, end)`.
    Range(&'a [u8], &'a [u8]),
    /// Keys that start with the given bytes.
    Prefix(&'a [u8]),
}

/// Whether a filter selects `k`.
pub open spec fn admits(f: KeyFilter, k: Seq<u8>) -> bool {
    match f {
        KeyFilter::Range(start, end) => in_range(start@, end@, k),
        KeyFilter::Prefix(p) => p@.is_prefix_of(k),
    }
}

fn filter_admits(f: &KeyFilter, k: &[u8]) -> (r: bool)
    ensures
        r == admits(*f, k@),
{
    match f {
        KeyFilter::Range(start, end) => {
            proof {
                lemma_lex_trichotomy(k@, start@);
            }
            !bytes_lt(k, start) && bytes_lt(k, end)
        },
        KeyFilter::Prefix(p) => prefix_compare_simd(k, p),
    }
}

/// The pairs of `es` whose keys `f` selects, sorted by key.
pub fn select_sorted(es: &Vec<(Vec<u8>, Vec<u8>)>, f: &KeyFilter) -> (out: Vec<(Vec<u8>, Vec<u8>)>)
    requires
        forall|i: int, j: int|
            0 <= i < j < es@.len() ==> #[trigger] entries_view(es@)[i].0 != #[trigger] entries_view(es@)[j].0,
    ensures
        strictly_sorted(entries_view(out@)),
        forall|e: (Seq<u8>, Seq<u8>)|
            entries_view(out@).to_set().contains(e) <==> exists|j: int|
                0 <= j < es@.len() && admits(*f, entries_view(es@)[j].0) && #[trigger] entries_view(es@)[j] == e,
{
    let ghost ev = entries_view(es@);
    let mut out: Vec<(Vec<u8>, Vec<u8>)> = Vec::new();
    let mut i: usize = 0;
    assert(entries_view(out@).to_set() =~= Set::<(Seq<u8>, Seq<u8>)>::empty());
    while i < es.len()
        invariant
            i <= es@.len(),
            ev == entries_view(es@),
            forall|a: int, b: int| 0 <= a < b < es@.len() ==> #[trigger] ev[a].0 != #[trigger] ev[b].0,
            strictly_sorted(entries_view(out@)),
            forall|e: (Seq<u8>, Seq<u8>)|
                entries_view(out@).to_set().contains(e) <==> exists|j: int|
                    0 <= j < i && admits(*f, ev[j].0) && #[trigger] ev[j] == e,
        decreases es@.len() - i,
    {
        let key = &es[i].0;
        let value = &es[i].1;
        if filter_admits(f, key.as_slice()) {
            let x = (vstd::slice::slice_to_vec(key.as_slice()), vstd::slice::slice_to_vec(value.as_slice()));
            assert(ev[i as int] == (x.0@, x.1@));
            proof {
                assert forall|t: int| 0 <= t < out@.len() implies #[trigger] entries_view(out@)[t].0 != x.0@ by {
                    let e = entries_view(out@)[t];
                    assert(entries_view(out@).to_set().contains(e));
                    let j = choose|j: int| 0 <= j < i && admits(*f, ev[j].0) && #[trigger] ev[j] == e;
                    assert(ev[j].0 != ev[i as int].0);
                }
            }
            let ghost before = entries_view(out@).to_set();
            insert_sorted(&mut out, x);
            assert forall|e: (Seq<u8>, Seq<u8>)|
                entries_view(out@).to_set().contains(e) <==> exists|j: int|
                    0 <= j < i + 1 && admits(*f, ev[j].0) && #[trigger] ev[j] == e by {
                if entries_view(out@).to_set().contains(e) && e != ev[i as int] {
                    assert(before.contains(e));
                }
            }
        } else {
            assert forall|e: (Seq<u8>, Seq<u8>)|
                entries_view(out@).to_set().contains(e) <==> exists|j: int|
                    0 <= j < i + 1 && admits(*f, ev[j].0) && #[trigger] ev[j] == e by {
                if exists|j: int| 0 <= j < i + 1 && admits(*f, ev[j].0) && #[trigger] ev[j] == e {
                    let j = choose|j: int| 0 <= j < i + 1 && admits(*f, ev[j].0) && #[trigger] ev[j] == e;
                    assert(j < i);
                }
            }
        }
        i += 1;
    }
    out
}

/// The scan a filter asks for, over a store holding `m`.
pub open spec fn scan_of(m: Map<Seq<u8>, Seq<u8>>, es: Seq<(Seq<u8>, Seq<u8>)>, f: KeyFilter) -> bool {
    is_scan(m, es, |k: Seq<u8>| admits(f, k))
}

/// The pairs of `m` that `f` selects, sorted by key.
fn scan_map(m: &DashMap<Vec<u8>, Vec<u8>>, f: &KeyFilter) -> (out: Vec<(Vec<u8>, Vec<u8>)>)
    ensures
        scan_of(dashmap_contents(*m), entries_view(out@), *f),
{
    let all = dm_entries(m);
    let out = select_sorted(&all, f);
    let ghost cm = dashmap_contents(*m);
    let ghost ev = entries_view(all@);
    let ghost ov = entries_view(out@);
    assert forall|i: int| 0 <= i < ov.len() implies admits(*f, #[trigger] ov[i].0) && cm.contains_key(ov[i].0)
        && cm[ov[i].0] == ov[i].1 by {
        assert(ov.to_set().contains(ov[i]));
        let j = choose|j: int| 0 <= j < all@.len() && admits(*f, ev[j].0) && #[trigger] ev[j] == ov[i];
        assert(cm.contains_key(ev[j].0));
    }
    assert forall|k: Seq<u8>| cm.contains_key(k) && admits(*f, k) implies exists|i: int|
        0 <= i < ov.len() && #[trigger] ov[i].0 == k by {
        let j = choose|j: int| 0 <= j < all@.len() && #[trigger] ev[j].0 == k;
        assert(ov.to_set().contains(ev[j]));
        let i = choose|i: int| 0 <= i < ov.len() && ov[i] == ev[j];
        assert(ov[i].0 == k);
    }
    out
}

/// A store kept wholly in memory, in a concurrent hash map; nothing persists.
pub struct InMemoryBackend {
    data: DashMap<Vec<u8>, Vec<u8>>,
    counters: StorageStats,
    reads: AtomicU64,
}

impl InMemoryBackend {
    /// The pairs held.
    pub closed spec fn entries(&self) -> Map<Seq<u8>, Seq<u8>> {
        dashmap_contents(self.data)
    }

    /// The key count and the write and delete counters, as last updated.
    pub closed spec fn counters(&self) -> StorageStats {
        self.counters
    }

    /// An empty store with room for a hundred thousand pairs.
    pub fn new() -> (r: InMemoryBackend)
        ensures
            r.entries() == no_entries(),
            r.counters() == zero_stats(),
    {
        InMemoryBackend::with_capacity(100_000)
    }

    /// An empty store with room for `capacity` pairs.
    pub fn with_capacity(capacity: usize) -> (r: InMemoryBackend)
        ensures
            r.entries() == no_entries(),
            r.counters() == zero_stats(),
    {
        InMemoryBackend { data: dm_with_capacity(capacity), counters: StorageStats::new(), reads: AtomicU64::new(0) }
    }

    /// The number of keys held.
    pub fn len(&self) -> (r: usize)
        ensures
            r as nat == self.entries().len(),
            self.entries().dom().finite(),
    {
        dm_len(&self.data)
    }

    /// Whether no key is held.
    pub fn is_empty(&self) -> (r: bool)
        ensures
            r == (self.entries().len() == 0),
    {
        dm_len(&self.data) == 0
    }

    /// Removes every pair and resets the counters.
    pub fn clear(&mut self)
        ensures
            final(self).entries() == no_entries(),
            final(self).counters() == zero_stats(),
    {
        dm_clear(&mut self.data);
        self.counters = StorageStats::new();
        self.reads = AtomicU64::new(0);
    }

    /// Stores each pair in turn (a later pair wins); the write counter grows
    /// by the number of keys that were new, and the key count is updated.
    pub fn batch_put(&mut self, pairs: Vec<(Vec<u8>, Vec<u8>)>) -> (r: StorageResult<()>)
        ensures
            r is Ok,
            final(self).entries() == insert_all(old(self).entries(), entries_view(pairs@)),
            final(self).counters() == (StorageStats {
                writes: old(self).counters().writes.wrapping_add(
                    (final(self).entries().len() - old(self).entries().len()) as u64,
                ),
                key_count: final(self).entries().len() as u64,
                ..old(self).counters()
            }),
    {
        let initial_len = dm_len(&self.data);
        let mut i: usize = 0;
        while i < pairs.len()
            invariant
                i <= pairs@.len(),
                dashmap_contents(self.data) == insert_all(dashmap_contents(old(self).data), entries_view(pairs@).take(i as int)),
                dashmap_contents(self.data).dom().finite(),
                initial_len as nat == dashmap_contents(old(self).data).len(),
                dashmap_contents(old(self).data).len() <= dashmap_contents(self.data).len(),
                self.counters == old(self).counters,
            decreases pairs@.len() - i,
        {
            let key = vstd::slice::slice_to_vec(pairs[i].0.as_slice());
            let value = vstd::slice::slice_to_vec(pairs[i].1.as_slice());
            let ghost before = dashmap_contents(self.data);
            dm_insert(&mut self.data, key, value);
            proof {
                if before.contains_key(pairs@[i as int].0@) {
                    assert(before.insert(pairs@[i as int].0@, pairs@[i as int].1@).dom() =~= before.dom());
                }
            }
            assert(entries_view(pairs@).take(i + 1).drop_last() =~= entries_view(pairs@).take(i as int));
            i += 1;
        }
        assert(entries_view(pairs@).take(i as int) =~= entries_view(pairs@));
        let n = dm_len(&self.data);
        self.counters.writes = self.counters.writes.wrapping_add((n - initial_len) as u64);
        self.counters.key_count = n as u64;
        Ok(())
    }
}

impl StorageBackend for InMemoryBackend {
    open spec fn contents(&self) -> Map<Seq<u8>, Seq<u8>> {
        self.entries()
    }

    open spec fn never_fails(&self) -> bool {
        true
    }

    /// Looks `key` up; every lookup is counted as a read.
    fn get(&self, key: &[u8]) -> (r: StorageResult<Option<Vec<u8>>>)
        ensures
            r is Ok,
    {
        let value = dm_get(&self.data, key);
        self.reads.fetch_add(1, Ordering::Relaxed);
        Ok(value)
    }

    /// Stores the pair; counts one write and updates the key count.
    fn put(&mut self, key: &[u8], value: &[u8]) -> (r: StorageResult<()>)
        ensures
            r is Ok,
            final(self).counters() == (StorageStats {
                writes: old(self).counters().writes.wrapping_add(1),
                key_count: final(self).entries().len() as u64,
                ..old(self).counters()
            }),
            final(self).entries().dom().finite(),
    {
        dm_insert(&mut self.data, vstd::slice::slice_to_vec(key), vstd::slice::slice_to_vec(value));
        let n = dm_len(&self.data);
        self.counters.writes = self.counters.writes.wrapping_add(1);
        self.counters.key_count = n as u64;
        Ok(())
    }

    /// Removes the key; counts one delete and updates the key count.
    fn delete(&mut self, key: &[u8]) -> (r: StorageResult<()>)
        ensures
            r is Ok,
            final(self).counters() == (StorageStats {
                deletes: old(self).counters().deletes.wrapping_add(1),
                key_count: final(self).entries().len() as u64,
                ..old(self).counters()
            }),
            final(self).entries().dom().finite(),
    {
        dm_remove(&mut self.data, key);
        let n = dm_len(&self.data);
        self.counters.deletes = self.counters.deletes.wrapping_add(1);
        self.counters.key_count = n as u64;
        Ok(())
    }

    fn contains(&self, key: &[u8]) -> (r: StorageResult<bool>)
        ensures
            r is Ok,
    {
        Ok(dm_contains_key(&self.data, key))
    }

    fn range_scan(&self, start: &[u8], end: &[u8]) -> (r: StorageResult<Vec<(Vec<u8>, Vec<u8>)>>)
        ensures
            r is Ok,
    {
        let f = KeyFilter::Range(start, end);
        let out = scan_map(&self.data, &f);
        assert(is_scan(self.contents(), entries_view(out@), |k: Seq<u8>| in_range(start@, end@, k))) by {
            assert forall|k: Seq<u8>| admits(f, k) == in_range(start@, end@, k) by {}
        }
        Ok(out)
    }

    fn prefix_scan(&self, prefix: &[u8]) -> (r: StorageResult<Vec<(Vec<u8>, Vec<u8>)>>)
        ensures
            r is Ok,
    {
        let f = KeyFilter::Prefix(prefix);
        let out = scan_map(&self.data, &f);
        assert(is_scan(self.contents(), entries_view(out@), |k: Seq<u8>| prefix@.is_prefix_of(k))) by {
            assert forall|k: Seq<u8>| admits(f, k) == prefix@.is_prefix_of(k) by {}
        }
        Ok(out)
    }

    fn batch_put(&mut self, pairs: Vec<(Vec<u8>, Vec<u8>)>) -> (r: StorageResult<()>)
        ensures
            r is Ok,
    {
        InMemoryBackend::batch_put(self, pairs)
    }

    /// The counters; the read count is whatever the shared counter holds.
    fn stats(&self) -> (r: StorageStats)
        ensures
            r == (StorageStats { reads: r.reads, ..self.counters() }),
    {
        let mut s = self.counters;
        s.reads = self.reads.load(Ordering::Relaxed);
        s
    }
}

impl Default for InMemoryBackend {
    fn default() -> (r: InMemoryBackend)
        ensures
            r.entries() == no_entries(),
            r.counters() == zero_stats(),
    {
        InMemoryBackend::new()
    }
}

} // verus!
