//! A quad store over any storage backend: every quad is written under four
//! index keys (SPOC, POCS, OCSP, CSPO), so that any pattern has an index whose
//! keys start with the pattern's bound positions.
use vstd::prelude::*;
use crate::bytes::prefix_compare_simd;
use crate::backend::{entries_view, insert_all, is_scan, no_entries, StorageBackend, StorageResult};
use crate::indexes::{
    best_index, encode_component, encode_components, encode_graph_spec, encode_node, encode_node_opt,
    encode_node_spec, index_order, key_spec, lemma_decode_key_inverts_encode_key, node_fits, parse_key,
    quad_decodable, quad_fits, Component, IndexType,
};
use crate::inmemory::InMemoryBackend;
use crate::keybuf::{key_bytes, KeyBuf};
use crate::node::{duplicate_opt, NodeView, Quad, QuadView};
use crate::pattern::{pattern_matches, NodePattern, QuadPattern, QuadPatternView};

verus! {

/// The bytes a bound position contributes to a scan prefix, `None` for a
/// wildcard; a bound graph is written as a named graph.
pub open spec fn bound_bytes(p: QuadPatternView, c: Component) -> Option<Seq<u8>> {
    match c {
        Component::Subject => match p.subject {
            Some(n) => Some(encode_node_spec(n)),
            None => None,
        },
        Component::Predicate => match p.predicate {
            Some(n) => Some(encode_node_spec(n)),
            None => None,
        },
        Component::Object => match p.object {
            Some(n) => Some(encode_node_spec(n)),
            None => None,
        },
        Component::Graph => match p.graph {
            Some(n) => Some(encode_graph_spec(Some(n))),
            None => None,
        },
    }
}

/// The encodings of the bound positions that lead `cs`, up to the first wildcard.
pub open spec fn leading_bound(p: QuadPatternView, cs: Seq<Component>) -> Seq<u8>
    decreases cs.len(),
{
    if cs.len() == 0 {
        Seq::empty()
    } else {
        match bound_bytes(p, cs[0]) {
            Some(b) => b + leading_bound(p, cs.drop_first()),
            None => Seq::empty(),
        }
    }
}

/// The prefix that every key of a quad matching `p` has in index `t`.
pub open spec fn scan_prefix(t: IndexType, p: QuadPatternView) -> Seq<u8> {
    leading_bound(p, index_order(t))
}

/// Whether the nodes of a pattern can be encoded.
pub open spec fn pattern_fits(p: QuadPatternView) -> bool {
    &&& (p.subject matches Some(n) ==> node_fits(n))
    &&& (p.predicate matches Some(n) ==> node_fits(n))
    &&& (p.object matches Some(n) ==> node_fits(n))
    &&& (p.graph matches Some(n) ==> node_fits(n))
}

/// The index a query uses for a pattern.
pub open spec fn chosen_index(p: QuadPatternView) -> IndexType {
    best_index(p.subject is Some, p.predicate is Some, p.object is Some, p.graph is Some)
}

/// Whether the keys of a quad fit in memory in every index.
pub open spec fn quad_storable(q: QuadView) -> bool {
    &&& quad_fits(q)
    &&& forall|t: IndexType| #[trigger] key_spec(t, q).len() <= usize::MAX
}

/// Whether the scan prefixes of a pattern can be built.
pub open spec fn pattern_storable(p: QuadPatternView) -> bool {
    &&& pattern_fits(p)
    &&& forall|t: IndexType| #[trigger] scan_prefix(t, p).len() <= usize::MAX
}

/// The pairs a quad is stored as: its four index keys, each with an empty value.
pub open spec fn quad_pairs(q: QuadView) -> Seq<(Seq<u8>, Seq<u8>)> {
    seq![
        (key_spec(IndexType::SPOC, q), Seq::<u8>::empty()),
        (key_spec(IndexType::POCS, q), Seq::<u8>::empty()),
        (key_spec(IndexType::OCSP, q), Seq::<u8>::empty()),
        (key_spec(IndexType::CSPO, q), Seq::<u8>::empty()),
    ]
}

/// The index entries after storing `q`.
pub open spec fn with_quad(m: Map<Seq<u8>, Seq<u8>>, q: QuadView) -> Map<Seq<u8>, Seq<u8>> {
    insert_all(m, quad_pairs(q))
}

/// The index entries after removing the four keys of `q`.
pub open spec fn without_quad(m: Map<Seq<u8>, Seq<u8>>, q: QuadView) -> Map<Seq<u8>, Seq<u8>> {
    m.remove(key_spec(IndexType::SPOC, q)).remove(key_spec(IndexType::POCS, q)).remove(
        key_spec(IndexType::OCSP, q),
    ).remove(key_spec(IndexType::CSPO, q))
}

/// The pairs a batch of quads is stored as, quad by quad.
pub open spec fn batch_pairs(qs: Seq<QuadView>) -> Seq<(Seq<u8>, Seq<u8>)>
    decreases qs.len(),
{
    if qs.len() == 0 {
        Seq::empty()
    } else {
        batch_pairs(qs.drop_last()) + quad_pairs(qs.last())
    }
}

/// The index entries after storing each quad of `qs` in turn.
pub open spec fn with_quads(m: Map<Seq<u8>, Seq<u8>>, qs: Seq<QuadView>) -> Map<Seq<u8>, Seq<u8>>
    decreases qs.len(),
{
    if qs.len() == 0 {
        m
    } else {
        with_quad(with_quads(m, qs.drop_last()), qs.last())
    }
}

/// Whether a quad is held: its SPOC key is present.
pub open spec fn holds_quad(m: Map<Seq<u8>, Seq<u8>>, q: QuadView) -> bool {
    m.contains_key(key_spec(IndexType::SPOC, q))
}

/// The counter `c` after storing each quad of `qs` in turn into the entries
/// `m`: it grows by one for each quad not held at its turn.
pub open spec fn counted(c: usize, m: Map<Seq<u8>, Seq<u8>>, qs: Seq<QuadView>) -> usize
    decreases qs.len(),
{
    if qs.len() == 0 {
        c
    } else {
        let c0 = counted(c, m, qs.drop_last());
        if holds_quad(with_quads(m, qs.drop_last()), qs.last()) {
            c0
        } else {
            c0.wrapping_add(1)
        }
    }
}

/// The quads that the keys of index `t`, in order, decode to and that match `p`.
pub open spec fn decode_matching(t: IndexType, p: QuadPatternView, keys: Seq<Seq<u8>>) -> Seq<QuadView>
    decreases keys.len(),
{
    if keys.len() == 0 {
        Seq::empty()
    } else {
        let init = decode_matching(t, p, keys.drop_last());
        match parse_key(t, keys.last()) {
            Ok(q) => if pattern_matches(p, q) {
                init.push(q)
            } else {
                init
            },
            Err(_) => init,
        }
    }
}

/// The keys of a sequence of pairs.
pub open spec fn keys_of(es: Seq<(Seq<u8>, Seq<u8>)>) -> Seq<Seq<u8>> {
    es.map_values(|e: (Seq<u8>, Seq<u8>)| e.0)
}

/// The views of a sequence of quads.
pub open spec fn quad_views(v: Seq<Quad>) -> Seq<QuadView> {
    v.map_values(|q: Quad| q@)
}

/// `r` is what a query for `p` over the entries `m` answers: the quads that
/// the keys under the pattern's scan prefix in its chosen index decode to and
/// that match the pattern, in key order.
pub open spec fn answers(m: Map<Seq<u8>, Seq<u8>>, p: QuadPatternView, r: Seq<QuadView>) -> bool {
    exists|es: Seq<(Seq<u8>, Seq<u8>)>|
        is_scan(m, es, |k: Seq<u8>| scan_prefix(chosen_index(p), p).is_prefix_of(k)) && r == decode_matching(
            chosen_index(p),
            p,
            keys_of(es),
        )
}

proof fn lemma_leading_bound_prefix(p: QuadPatternView, q: QuadView, cs: Seq<Component>)
    requires
        pattern_matches(p, q),
    ensures
        leading_bound(p, cs).is_prefix_of(encode_components(q, cs)),
    decreases cs.len(),
{
    if cs.len() > 0 {
        lemma_leading_bound_prefix(p, q, cs.drop_first());
        match bound_bytes(p, cs[0]) {
            Some(b) => {
                assert(b == encode_component(q, cs[0]));
                let rest = leading_bound(p, cs.drop_first());
                let full = encode_components(q, cs.drop_first());
                assert((b + rest) =~= (b + full).take((b + rest).len() as int));
            },
            None => {},
        }
    }
}

/// Every key of a quad that matches a pattern starts with the pattern's scan
/// prefix, in every index: a prefix scan misses no match.
pub proof fn lemma_matching_key_has_scan_prefix(t: IndexType, p: QuadPatternView, q: QuadView)
    requires
        pattern_matches(p, q),
    ensures
        scan_prefix(t, p).is_prefix_of(key_spec(t, q)),
{
    lemma_leading_bound_prefix(p, q, index_order(t));
}

proof fn lemma_leading_bound_extend(p: QuadPatternView, cs: Seq<Component>, c: Component)
    requires
        forall|j: int| 0 <= j < cs.len() ==> #[trigger] bound_bytes(p, cs[j]) is Some,
        bound_bytes(p, c) is Some,
    ensures
        leading_bound(p, cs.push(c)) == leading_bound(p, cs) + bound_bytes(p, c).unwrap(),
    decreases cs.len(),
{
    if cs.len() == 0 {
        assert(cs.push(c).drop_first() =~= Seq::<Component>::empty());
        assert(cs.push(c)[0] == c);
        assert(leading_bound(p, cs.push(c).drop_first()) == Seq::<u8>::empty());
        assert(leading_bound(p, cs) == Seq::<u8>::empty());
        assert(leading_bound(p, cs.push(c)) =~= bound_bytes(p, c).unwrap() + Seq::<u8>::empty());
        assert(leading_bound(p, cs.push(c)) =~= leading_bound(p, cs) + bound_bytes(p, c).unwrap());
    } else {
        assert(cs.push(c).drop_first() =~= cs.drop_first().push(c));
        assert(bound_bytes(p, cs[0]) is Some);
        assert forall|j: int| 0 <= j < cs.drop_first().len() implies #[trigger] bound_bytes(
            p,
            cs.drop_first()[j],
        ) is Some by {
            assert(cs.drop_first()[j] == cs[j + 1]);
        }
        lemma_leading_bound_extend(p, cs.drop_first(), c);
        assert(cs.push(c)[0] == cs[0]);
        assert(leading_bound(p, cs.push(c)) =~= leading_bound(p, cs) + bound_bytes(p, c).unwrap());
    }
}

proof fn lemma_leading_bound_stop(p: QuadPatternView, cs: Seq<Component>, i: int)
    requires
        0 <= i <= cs.len(),
        forall|j: int| 0 <= j < i ==> #[trigger] bound_bytes(p, cs[j]) is Some,
        i < cs.len() ==> bound_bytes(p, cs[i]) is None,
    ensures
        leading_bound(p, cs) == leading_bound(p, cs.take(i)),
    decreases cs.len(),
{
    if cs.len() == 0 {
        assert(cs.take(i) =~= cs);
    } else if i == 0 {
        assert(cs.take(0) =~= Seq::<Component>::empty());
    } else {
        assert(cs.take(i)[0] == cs[0]);
        assert(cs.take(i).drop_first() =~= cs.drop_first().take(i - 1));
        assert forall|j: int| 0 <= j < i - 1 implies #[trigger] bound_bytes(p, cs.drop_first()[j]) is Some by {
            assert(cs.drop_first()[j] == cs[j + 1]);
        }
        if i < cs.len() {
            assert(cs.drop_first()[i - 1] == cs[i]);
        }
        lemma_leading_bound_stop(p, cs.drop_first(), i - 1);
    }
}

proof fn lemma_leading_bound_len(p: QuadPatternView, cs: Seq<Component>, i: int)
    requires
        0 <= i <= cs.len(),
        forall|j: int| 0 <= j < i ==> #[trigger] bound_bytes(p, cs[j]) is Some,
    ensures
        leading_bound(p, cs.take(i)).len() <= leading_bound(p, cs).len(),
    decreases cs.len(),
{
    if i > 0 {
        assert(cs.take(i)[0] == cs[0]);
        assert(cs.take(i).drop_first() =~= cs.drop_first().take(i - 1));
        assert forall|j: int| 0 <= j < i - 1 implies #[trigger] bound_bytes(p, cs.drop_first()[j]) is Some by {
            assert(cs.drop_first()[j] == cs[j + 1]);
        }
        lemma_leading_bound_len(p, cs.drop_first(), i - 1);
    }
}

proof fn lemma_decode_matching_push(t: IndexType, p: QuadPatternView, keys: Seq<Seq<u8>>, k: Seq<u8>)
    ensures
        decode_matching(t, p, keys.push(k)) == match parse_key(t, k) {
            Ok(q) => if pattern_matches(p, q) {
                decode_matching(t, p, keys).push(q)
            } else {
                decode_matching(t, p, keys)
            },
            Err(_) => decode_matching(t, p, keys),
        },
{
    assert(keys.push(k).drop_last() =~= keys);
}

proof fn lemma_decode_matching_has(t: IndexType, p: QuadPatternView, keys: Seq<Seq<u8>>, j: int, q: QuadView)
    requires
        0 <= j < keys.len(),
        parse_key(t, keys[j]) == Ok::<QuadView, crate::varint::KeyError>(q),
        pattern_matches(p, q),
    ensures
        decode_matching(t, p, keys).contains(q),
    decreases keys.len(),
{
    let init = decode_matching(t, p, keys.drop_last());
    if j == keys.len() - 1 {
        assert(decode_matching(t, p, keys) == init.push(q));
        assert(init.push(q)[init.len() as int] == q);
    } else {
        lemma_decode_matching_has(t, p, keys.drop_last(), j, q);
        let w = choose|w: int| 0 <= w < init.len() && init[w] == q;
        let r = decode_matching(t, p, keys);
        assert(r.len() >= init.len() && r[w] == init[w]);
    }
}

proof fn lemma_decode_matching_sound(t: IndexType, p: QuadPatternView, keys: Seq<Seq<u8>>, w: int)
    requires
        0 <= w < decode_matching(t, p, keys).len(),
    ensures
        pattern_matches(p, decode_matching(t, p, keys)[w]),
        exists|j: int|
            0 <= j < keys.len() && parse_key(t, #[trigger] keys[j]) == Ok::<QuadView, crate::varint::KeyError>(
                decode_matching(t, p, keys)[w],
            ),
    decreases keys.len(),
{
    let init = decode_matching(t, p, keys.drop_last());
    if w < init.len() {
        lemma_decode_matching_sound(t, p, keys.drop_last(), w);
        let j = choose|j: int|
            0 <= j < keys.drop_last().len() && parse_key(t, #[trigger] keys.drop_last()[j]) == Ok::<
                QuadView,
                crate::varint::KeyError,
            >(init[w]);
        assert(keys[j] == keys.drop_last()[j]);
    } else {
        assert(parse_key(t, keys[keys.len() - 1]) == Ok::<QuadView, crate::varint::KeyError>(
            decode_matching(t, p, keys)[w],
        ));
    }
}

/// Storing a batch of quads at once leaves the same entries as storing them
/// one by one.
pub proof fn lemma_batch_is_successive_inserts(m: Map<Seq<u8>, Seq<u8>>, qs: Seq<QuadView>)
    ensures
        insert_all(m, batch_pairs(qs)) == with_quads(m, qs),
    decreases qs.len(),
{
    if qs.len() > 0 {
        lemma_batch_is_successive_inserts(m, qs.drop_last());
        lemma_insert_all_concat(m, batch_pairs(qs.drop_last()), quad_pairs(qs.last()));
    }
}

/// A key is present after inserting pairs exactly when it was present
/// before or is the key of one of the pairs.
proof fn lemma_insert_all_has(m: Map<Seq<u8>, Seq<u8>>, es: Seq<(Seq<u8>, Seq<u8>)>, k: Seq<u8>)
    ensures
        insert_all(m, es).contains_key(k) == (m.contains_key(k) || exists|j: int| 0 <= j < es.len() && (#[trigger] es[j]).0 == k),
    decreases es.len(),
{
    if es.len() > 0 {
        lemma_insert_all_has(m, es.drop_last(), k);
        if exists|j: int| 0 <= j < es.len() && (#[trigger] es[j]).0 == k {
            let j = choose|j: int| 0 <= j < es.len() && (#[trigger] es[j]).0 == k;
            if j < es.len() - 1 {
                assert(es.drop_last()[j] == es[j]);
            }
        }
        if exists|j: int| 0 <= j < es.drop_last().len() && (#[trigger] es.drop_last()[j]).0 == k {
            let j = choose|j: int| 0 <= j < es.drop_last().len() && (#[trigger] es.drop_last()[j]).0 == k;
            assert(es[j] == es.drop_last()[j]);
        }
    }
}

proof fn lemma_insert_all_concat(m: Map<Seq<u8>, Seq<u8>>, a: Seq<(Seq<u8>, Seq<u8>)>, b: Seq<(Seq<u8>, Seq<u8>)>)
    ensures
        insert_all(m, a + b) == insert_all(insert_all(m, a), b),
    decreases b.len(),
{
    if b.len() == 0 {
        assert(a + b =~= a);
    } else {
        assert((a + b).drop_last() =~= a + b.drop_last());
        assert((a + b).last() == b.last());
        lemma_insert_all_concat(m, a, b.drop_last());
    }
}

proof fn lemma_with_quad_unfold(m: Map<Seq<u8>, Seq<u8>>, q: QuadView)
    ensures
        with_quad(m, q) == m.insert(key_spec(IndexType::SPOC, q), Seq::<u8>::empty()).insert(
            key_spec(IndexType::POCS, q),
            Seq::<u8>::empty(),
        ).insert(key_spec(IndexType::OCSP, q), Seq::<u8>::empty()).insert(
            key_spec(IndexType::CSPO, q),
            Seq::<u8>::empty(),
        ),
{
    let ps = quad_pairs(q);
    assert(ps.drop_last().drop_last().drop_last().drop_last() =~= Seq::<(Seq<u8>, Seq<u8>)>::empty());
    reveal_with_fuel(insert_all, 5);
}

/// After a quad is stored, the store holds it.
pub proof fn lemma_insert_then_contains(m: Map<Seq<u8>, Seq<u8>>, q: QuadView)
    ensures
        holds_quad(with_quad(m, q), q),
{
    lemma_with_quad_unfold(m, q);
}

/// After a quad is stored, each of its four index keys is present, so a query
/// through any index can find it.
pub proof fn lemma_insert_fills_every_index(m: Map<Seq<u8>, Seq<u8>>, q: QuadView, t: IndexType)
    ensures
        with_quad(m, q).contains_key(key_spec(t, q)),
{
    lemma_with_quad_unfold(m, q);
}

/// Storing a quad never drops another one.
pub proof fn lemma_insert_keeps_others(m: Map<Seq<u8>, Seq<u8>>, q: QuadView, other: QuadView)
    requires
        holds_quad(m, other),
    ensures
        holds_quad(with_quad(m, q), other),
{
    lemma_with_quad_unfold(m, q);
}

/// After a quad is removed, the store no longer holds it.
pub proof fn lemma_remove_then_not_contains(m: Map<Seq<u8>, Seq<u8>>, q: QuadView)
    ensures
        !holds_quad(without_quad(m, q), q),
{
}

/// Storing a quad and then removing it leaves none of its index keys.
pub proof fn lemma_insert_then_remove(m: Map<Seq<u8>, Seq<u8>>, q: QuadView, t: IndexType)
    ensures
        !without_quad(with_quad(m, q), q).contains_key(key_spec(t, q)),
{
}

/// A stored quad of a decodable kind is answered by every query whose pattern
/// it matches.
pub proof fn lemma_stored_quad_is_found(
    m: Map<Seq<u8>, Seq<u8>>,
    q: QuadView,
    p: QuadPatternView,
    r: Seq<QuadView>,
)
    requires
        quad_decodable(q),
        pattern_matches(p, q),
        answers(with_quad(m, q), p, r),
    ensures
        r.contains(q),
{
    let t = chosen_index(p);
    let mm = with_quad(m, q);
    let es = choose|es: Seq<(Seq<u8>, Seq<u8>)>|
        is_scan(mm, es, |k: Seq<u8>| scan_prefix(t, p).is_prefix_of(k)) && r == decode_matching(t, p, keys_of(es));
    lemma_insert_fills_every_index(m, q, t);
    lemma_found_if_present(mm, q, p, es);
}

/// Every quad of a decodable kind whose key is present in the index a pattern
/// uses, and that matches the pattern, is among the pattern's answers.
pub proof fn lemma_present_quad_is_found(
    m: Map<Seq<u8>, Seq<u8>>,
    q: QuadView,
    p: QuadPatternView,
    r: Seq<QuadView>,
)
    requires
        quad_decodable(q),
        pattern_matches(p, q),
        m.contains_key(key_spec(chosen_index(p), q)),
        answers(m, p, r),
    ensures
        r.contains(q),
{
    let t = chosen_index(p);
    let es = choose|es: Seq<(Seq<u8>, Seq<u8>)>|
        is_scan(m, es, |k: Seq<u8>| scan_prefix(t, p).is_prefix_of(k)) && r == decode_matching(t, p, keys_of(es));
    lemma_found_if_present(m, q, p, es);
}

proof fn lemma_found_if_present(
    m: Map<Seq<u8>, Seq<u8>>,
    q: QuadView,
    p: QuadPatternView,
    es: Seq<(Seq<u8>, Seq<u8>)>,
)
    requires
        quad_decodable(q),
        pattern_matches(p, q),
        m.contains_key(key_spec(chosen_index(p), q)),
        is_scan(m, es, |k: Seq<u8>| scan_prefix(chosen_index(p), p).is_prefix_of(k)),
    ensures
        decode_matching(chosen_index(p), p, keys_of(es)).contains(q),
{
    let t = chosen_index(p);
    let k = key_spec(t, q);
    lemma_matching_key_has_scan_prefix(t, p, q);
    let sel = |k: Seq<u8>| scan_prefix(t, p).is_prefix_of(k);
    assert(sel(k));
    let j = choose|j: int| 0 <= j < es.len() && #[trigger] es[j].0 == k;
    lemma_decode_key_inverts_encode_key(t, q, Seq::empty());
    assert(k + Seq::<u8>::empty() =~= k);
    assert(keys_of(es)[j] == k);
    lemma_decode_matching_has(t, p, keys_of(es), j, q);
}

/// A store of quads over a storage backend, holding each quad under its four
/// index keys.
pub struct QuadStore<B: StorageBackend> {
    backend: B,
    count: usize,
}

impl QuadStore<InMemoryBackend> {
    /// An empty store kept in memory.
    pub fn new_in_memory() -> (r: QuadStore<InMemoryBackend>)
        ensures
            r.entries() == no_entries(),
            r.count() == 0,
            r.never_fails(),
    {
        QuadStore::new(InMemoryBackend::new())
    }

    /// A store kept in memory never fails, however it was made.
    pub proof fn lemma_in_memory_never_fails(&self)
        ensures
            self.never_fails(),
    {
    }
}

impl<B: StorageBackend> QuadStore<B> {
    /// The index entries held by the backend.
    pub closed spec fn entries(&self) -> Map<Seq<u8>, Seq<u8>> {
        self.backend.contents()
    }

    /// The quad counter.
    pub closed spec fn count(&self) -> usize {
        self.count
    }

    /// Whether the backend's operations always succeed.
    pub closed spec fn never_fails(&self) -> bool {
        self.backend.never_fails()
    }

    /// A store over `backend`, with its counter at zero.
    pub fn new(backend: B) -> (r: QuadStore<B>)
        ensures
            r.entries() == backend.contents(),
            r.count() == 0,
            r.never_fails() == backend.never_fails(),
    {
        QuadStore { backend, count: 0 }
    }

    /// Stores a quad under its four index keys (with empty values); the
    /// counter grows by one when the store did not hold the quad yet.
    pub fn insert(&mut self, quad: Quad) -> (r: StorageResult<()>)
        requires
            quad_storable(quad@),
        ensures
            old(self).never_fails() ==> r is Ok,
            final(self).never_fails() == old(self).never_fails(),
            r is Ok ==> final(self).entries() == with_quad(old(self).entries(), quad@),
            r is Ok ==> final(self).count() == if holds_quad(old(self).entries(), quad@) {
                old(self).count()
            } else {
                old(self).count().wrapping_add(1)
            },
    {
        let held = match self.contains(&quad) {
            Ok(b) => b,
            Err(e) => {
                return Err(e);
            },
        };
        let all = IndexType::all();
        let empty: Vec<u8> = Vec::new();
        let ghost ps = quad_pairs(quad@);
        let mut i: usize = 0;
        while i < all.len()
            invariant
                i <= all@.len(),
                all@ == seq![IndexType::SPOC, IndexType::POCS, IndexType::OCSP, IndexType::CSPO],
                ps == quad_pairs(quad@),
                quad_storable(quad@),
                empty@ == Seq::<u8>::empty(),
                self.backend.contents() == insert_all(old(self).backend.contents(), ps.take(i as int)),
                self.backend.never_fails() == old(self).backend.never_fails(),
                self.count == old(self).count,
            decreases all@.len() - i,
        {
            let t = all[i];
            assert(key_spec(t, quad@).len() <= usize::MAX);
            let key = t.encode_key(&quad);
            match self.backend.put(key.as_slice(), empty.as_slice()) {
                Ok(()) => {},
                Err(e) => {
                    return Err(e);
                },
            }
            assert(ps[i as int] == (key_spec(t, quad@), Seq::<u8>::empty()));
            assert(ps.take(i + 1).drop_last() =~= ps.take(i as int));
            i += 1;
        }
        assert(ps.take(i as int) =~= ps);
        if !held {
            self.count = self.count.wrapping_add(1);
        }
        Ok(())
    }

    /// Stores a batch of quads in one backend call (four pairs per quad); the
    /// counter grows by one for each quad not held at its turn (neither
    /// stored before nor earlier in the batch).
    pub fn batch_insert(&mut self, quads: Vec<Quad>) -> (r: StorageResult<()>)
        requires
            forall|i: int| 0 <= i < quads@.len() ==> quad_storable(#[trigger] quads@[i]@),
        ensures
            old(self).never_fails() ==> r is Ok,
            final(self).never_fails() == old(self).never_fails(),
            r is Ok ==> final(self).entries() == insert_all(old(self).entries(), batch_pairs(quad_views(quads@))),
            r is Ok ==> final(self).count() == counted(old(self).count(), old(self).entries(), quad_views(quads@)),
    {
        let mut pairs: Vec<(Vec<u8>, Vec<u8>)> = Vec::new();
        let all = IndexType::all();
        let ghost m0 = self.backend.contents();
        let mut c: usize = self.count;
        let mut n: usize = 0;
        while n < quads.len()
            invariant
                n <= quads@.len(),
                all@ == seq![IndexType::SPOC, IndexType::POCS, IndexType::OCSP, IndexType::CSPO],
                forall|i: int| 0 <= i < quads@.len() ==> quad_storable(#[trigger] quads@[i]@),
                entries_view(pairs@) == batch_pairs(quad_views(quads@.take(n as int))),
                m0 == old(self).backend.contents(),
                self.backend.contents() == m0,
                self.backend.never_fails() == old(self).backend.never_fails(),
                self.count == old(self).count,
                c == counted(old(self).count, m0, quad_views(quads@.take(n as int))),
            decreases quads@.len() - n,
        {
            let quad = &quads[n];
            let ghost before = entries_view(pairs@);
            let ghost ps = quad_pairs(quad@);
            let ghost sk = key_spec(IndexType::SPOC, quad@);
            assert(quad_storable(quads@[n as int]@));
            assert(key_spec(IndexType::SPOC, quad@).len() <= usize::MAX);
            let spoc = IndexType::SPOC.encode_key(quad);
            let mut held = match self.backend.contains(spoc.as_slice()) {
                Ok(b) => b,
                Err(e) => {
                    return Err(e);
                },
            };
            let mut j: usize = 0;
            while j < pairs.len()
                invariant
                    j <= pairs@.len(),
                    key_bytes(spoc) == sk,
                    held == (m0.contains_key(sk) || exists|x: int| 0 <= x < j && (#[trigger] pairs@[x]).0@ == sk),
                decreases pairs@.len() - j,
            {
                let k = &pairs[j].0;
                if k.len() == spoc.as_slice().len() && prefix_compare_simd(k.as_slice(), spoc.as_slice()) {
                    assert(k@ =~= sk);
                    held = true;
                } else {
                    assert(k@ != sk);
                }
                j += 1;
            }
            proof {
                let qs = quad_views(quads@.take(n as int));
                lemma_batch_is_successive_inserts(m0, qs);
                lemma_insert_all_has(m0, entries_view(pairs@), sk);
                if exists|x: int| 0 <= x < pairs@.len() && (#[trigger] pairs@[x]).0@ == sk {
                    let x = choose|x: int| 0 <= x < pairs@.len() && (#[trigger] pairs@[x]).0@ == sk;
                    assert(entries_view(pairs@)[x].0 == sk);
                }
                if exists|x: int| 0 <= x < entries_view(pairs@).len() && (#[trigger] entries_view(pairs@)[x]).0 == sk {
                    let x = choose|x: int| 0 <= x < entries_view(pairs@).len() && (#[trigger] entries_view(pairs@)[x]).0 == sk;
                    assert(pairs@[x].0@ == sk);
                }
                assert(held == holds_quad(with_quads(m0, qs), quad@));
            }
            if !held {
                c = c.wrapping_add(1);
            }
            let mut i: usize = 0;
            while i < all.len()
                invariant
                    i <= all@.len(),
                    all@ == seq![IndexType::SPOC, IndexType::POCS, IndexType::OCSP, IndexType::CSPO],
                    quad_storable(quad@),
                    ps == quad_pairs(quad@),
                    entries_view(pairs@) == before + ps.take(i as int),
                decreases all@.len() - i,
            {
                let t = all[i];
                assert(key_spec(t, quad@).len() <= usize::MAX);
                let key = t.encode_key(quad);
                let kv = key.to_vec();
                let ev: Vec<u8> = Vec::new();
                assert(ps[i as int] == (kv@, ev@));
                let ghost prev = pairs@;
                pairs.push((kv, ev));
                assert(pairs@ == prev.push((kv, ev)));
                assert(entries_view(pairs@) =~= entries_view(prev).push((kv@, ev@)));
                assert(ps.take(i + 1) =~= ps.take(i as int).push((kv@, ev@)));
                assert(entries_view(pairs@) =~= before + ps.take(i + 1));
                i += 1;
            }
            proof {
                let qv = quad_views(quads@.take(n + 1));
                assert(qv.drop_last() =~= quad_views(quads@.take(n as int)));
                assert(qv.last() == quad@);
                assert(ps.take(i as int) =~= ps);
            }
            n += 1;
        }
        assert(quads@.take(n as int) =~= quads@);
        match self.backend.batch_put(pairs) {
            Ok(()) => {},
            Err(e) => {
                return Err(e);
            },
        }
        self.count = c;
        Ok(())
    }

    /// Removes the four index keys of a quad; the counter drops by one when
    /// the store held the quad (and the counter is not already zero).
    pub fn remove(&mut self, quad: &Quad) -> (r: StorageResult<()>)
        requires
            quad_storable(quad@),
        ensures
            old(self).never_fails() ==> r is Ok,
            final(self).never_fails() == old(self).never_fails(),
            r is Ok ==> final(self).entries() == without_quad(old(self).entries(), quad@),
            r is Ok ==> final(self).count() == if holds_quad(old(self).entries(), quad@) && old(self).count() > 0 {
                (old(self).count() - 1) as usize
            } else {
                old(self).count()
            },
    {
        let held = match self.contains(quad) {
            Ok(b) => b,
            Err(e) => {
                return Err(e);
            },
        };
        let all = IndexType::all();
        let mut i: usize = 0;
        let ghost m0 = self.backend.contents();
        while i < all.len()
            invariant
                i <= all@.len(),
                all@ == seq![IndexType::SPOC, IndexType::POCS, IndexType::OCSP, IndexType::CSPO],
                quad_storable(quad@),
                m0 == old(self).backend.contents(),
                i == 0 ==> self.backend.contents() == m0,
                i == 1 ==> self.backend.contents() == m0.remove(key_spec(IndexType::SPOC, quad@)),
                i == 2 ==> self.backend.contents() == m0.remove(key_spec(IndexType::SPOC, quad@)).remove(
                    key_spec(IndexType::POCS, quad@),
                ),
                i == 3 ==> self.backend.contents() == m0.remove(key_spec(IndexType::SPOC, quad@)).remove(
                    key_spec(IndexType::POCS, quad@),
                ).remove(key_spec(IndexType::OCSP, quad@)),
                i == 4 ==> self.backend.contents() == without_quad(m0, quad@),
                self.backend.never_fails() == old(self).backend.never_fails(),
                self.count == old(self).count,
            decreases all@.len() - i,
        {
            let t = all[i];
            assert(key_spec(t, quad@).len() <= usize::MAX);
            let key = t.encode_key(quad);
            match self.backend.delete(key.as_slice()) {
                Ok(()) => {},
                Err(e) => {
                    return Err(e);
                },
            }
            i += 1;
        }
        if held && self.count > 0 {
            self.count -= 1;
        }
        Ok(())
    }

    /// Whether the store holds a quad: its SPOC key is present.
    pub fn contains(&self, quad: &Quad) -> (r: StorageResult<bool>)
        requires
            quad_storable(quad@),
        ensures
            self.never_fails() ==> r is Ok,
            r matches Ok(b) ==> b == holds_quad(self.entries(), quad@),
    {
        assert(key_spec(IndexType::SPOC, quad@).len() <= usize::MAX);
        let key = IndexType::SPOC.encode_key(quad);
        self.backend.contains(key.as_slice())
    }

    /// The scan prefix of a pattern in an index: the encodings of the bound
    /// positions that come first in the index's order, up to the first wildcard.
    fn build_scan_prefix(&self, pattern: &QuadPattern, index_type: IndexType) -> (r: Vec<u8>)
        requires
            pattern_storable(pattern@),
        ensures
            r@ == scan_prefix(index_type, pattern@),
    {
        let ghost p = pattern@;
        let order = index_type.order();
        let mut prefix = KeyBuf::new();
        let mut i: usize = 0;
        assert(order@.take(0) =~= Seq::<Component>::empty());
        proof {
            lemma_leading_bound_len(p, order@, 0);
        }
        while i < order.len()
            invariant
                i <= order@.len(),
                order@ == index_order(index_type),
                p == pattern@,
                pattern_storable(p),
                forall|j: int| 0 <= j < i ==> #[trigger] bound_bytes(p, order@[j]) is Some,
                key_bytes(prefix) == leading_bound(p, order@.take(i as int)),
            ensures
                forall|j: int| 0 <= j < i ==> #[trigger] bound_bytes(p, order@[j]) is Some,
                i < order@.len() ==> bound_bytes(p, order@[i as int]) is None,
                i <= order@.len(),
                key_bytes(prefix) == leading_bound(p, order@.take(i as int)),
            decreases order@.len() - i,
        {
            let c = order[i];
            let bound = match c {
                Component::Subject => pattern.subject.is_concrete(),
                Component::Predicate => pattern.predicate.is_concrete(),
                Component::Object => pattern.object.is_concrete(),
                Component::Graph => pattern.graph.is_concrete(),
            };
            if !bound {
                break;
            }
            proof {
                lemma_leading_bound_extend(p, order@.take(i as int), c);
                assert(order@.take(i + 1) =~= order@.take(i as int).push(c));
                assert forall|j: int| 0 <= j < i + 1 implies #[trigger] bound_bytes(p, order@.take(i + 1)[j]) is Some by {
                    assert(order@.take(i + 1)[j] == order@[j]);
                }
                lemma_leading_bound_len(p, order@, i + 1);
                assert(forall|t: IndexType| #[trigger] scan_prefix(t, p).len() <= usize::MAX);
                assert(scan_prefix(index_type, p).len() <= usize::MAX);
            }
            match (c, &pattern.subject, &pattern.predicate, &pattern.object, &pattern.graph) {
                (Component::Subject, NodePattern::Concrete(n), _, _, _) => {
                    encode_node(&mut prefix, n);
                },
                (Component::Predicate, _, NodePattern::Concrete(n), _, _) => {
                    encode_node(&mut prefix, n);
                },
                (Component::Object, _, _, NodePattern::Concrete(n), _) => {
                    encode_node(&mut prefix, n);
                },
                (Component::Graph, _, _, _, NodePattern::Concrete(n)) => {
                    encode_node_opt(&mut prefix, &Some(n.duplicate()));
                },
                _ => {},
            }
            i += 1;
        }
        proof {
            lemma_leading_bound_stop(p, order@, i as int);
        }
        prefix.to_vec()
    }

    /// The quads that match a pattern, in the key order of the index chosen for
    /// it; a failed backend scan gives no quads.
    pub fn find(&self, pattern: &QuadPattern) -> (r: Vec<Quad>)
        requires
            pattern_storable(pattern@),
        ensures
            self.never_fails() ==> answers(self.entries(), pattern@, quad_views(r@)),
            r@.len() == 0 || answers(self.entries(), pattern@, quad_views(r@)),
            forall|i: int| 0 <= i < r@.len() ==> pattern_matches(pattern@, #[trigger] r@[i]@),
    {
        let index_type = IndexType::select_best(
            pattern.subject.is_concrete(),
            pattern.predicate.is_concrete(),
            pattern.object.is_concrete(),
            pattern.graph.is_concrete(),
        );
        let ghost t = index_type;
        let ghost p = pattern@;
        assert(t == chosen_index(p));
        let prefix = self.build_scan_prefix(pattern, index_type);
        let scanned = match self.backend.prefix_scan(prefix.as_slice()) {
            Ok(v) => v,
            Err(_) => {
                return Vec::new();
            },
        };
        let ghost es = entries_view(scanned@);
        let ghost ks = keys_of(es);
        let mut out: Vec<Quad> = Vec::new();
        let mut i: usize = 0;
        while i < scanned.len()
            invariant
                i <= scanned@.len(),
                es == entries_view(scanned@),
                ks == keys_of(es),
                quad_views(out@) == decode_matching(t, p, ks.take(i as int)),
                p == pattern@,
                t == index_type,
            decreases scanned@.len() - i,
        {
            let key = &scanned[i].0;
            assert(ks[i as int] == key@);
            proof {
                lemma_decode_matching_push(t, p, ks.take(i as int), key@);
                assert(ks.take(i + 1) =~= ks.take(i as int).push(key@));
            }
            let ghost before = out@;
            match index_type.decode_key(key.as_slice()) {
                Ok(quad) => {
                    assert(parse_key(t, key@) == Ok::<QuadView, crate::varint::KeyError>(quad@));
                    if pattern.matches(&quad) {
                        out.push(quad);
                        assert(quad_views(out@) =~= quad_views(before).push(quad@));
                    } else {
                        assert(decode_matching(t, p, ks.take(i + 1)) == decode_matching(t, p, ks.take(i as int)));
                    }
                },
                Err(_) => {
                    assert(parse_key(t, key@) is Err);
                },
            }
            i += 1;
        }
        assert(ks.take(i as int) =~= ks);
        proof {
            assert forall|w: int| 0 <= w < out@.len() implies pattern_matches(p, #[trigger] out@[w]@) by {
                assert(quad_views(out@)[w] == out@[w]@);
                lemma_decode_matching_sound(t, p, ks, w);
            }
        }
        out
    }

    /// The quad counter.
    pub fn len(&self) -> (r: usize)
        ensures
            r == self.count(),
    {
        self.count
    }

    /// Whether the quad counter is zero.
    pub fn is_empty(&self) -> (r: bool)
        ensures
            r == (self.count() == 0),
    {
        self.count == 0
    }

    /// Removes every entry from the backend and sets the counter to zero.
    pub fn clear(&mut self) -> (r: StorageResult<()>)
        ensures
            old(self).never_fails() ==> r is Ok,
            final(self).never_fails() == old(self).never_fails(),
            r is Ok ==> final(self).entries() == no_entries(),
            r is Ok ==> final(self).count() == 0,
    {
        let empty: Vec<u8> = Vec::new();
        let all = match self.backend.prefix_scan(empty.as_slice()) {
            Ok(v) => v,
            Err(e) => {
                return Err(e);
            },
        };
        let ghost m0 = self.backend.contents();
        let ghost es = entries_view(all@);
        let mut i: usize = 0;
        while i < all.len()
            invariant
                i <= all@.len(),
                es == entries_view(all@),
                is_scan(m0, es, |k: Seq<u8>| empty@.is_prefix_of(k)),
                empty@ == Seq::<u8>::empty(),
                self.backend.never_fails() == old(self).backend.never_fails(),
                forall|k: Seq<u8>| #[trigger] self.backend.contents().contains_key(k) ==> m0.contains_key(k),
                forall|j: int| 0 <= j < i ==> !self.backend.contents().contains_key(#[trigger] es[j].0),
            decreases all@.len() - i,
        {
            let key = &all[i].0;
            match self.backend.delete(key.as_slice()) {
                Ok(()) => {},
                Err(e) => {
                    return Err(e);
                },
            }
            assert(es[i as int].0 == key@);
            i += 1;
        }
        assert(self.backend.contents() =~= no_entries()) by {
            assert forall|k: Seq<u8>| !self.backend.contents().contains_key(k) by {
                if self.backend.contents().contains_key(k) {
                    assert(Seq::<u8>::empty().is_prefix_of(k));
                    let j = choose|j: int| 0 <= j < es.len() && #[trigger] es[j].0 == k;
                }
            }
        }
        self.count = 0;
        Ok(())
    }
}

} // verus!
