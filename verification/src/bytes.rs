//! Byte strings under their lexicographic order, as keys are ordered.
use vstd::prelude::*;

verus! {

/// `a` sorts strictly before `b` byte-wise (a proper prefix sorts first).
pub open spec fn lex_lt(a: Seq<u8>, b: Seq<u8>) -> bool
    decreases a.len(),
{
    if b.len() == 0 {
        false
    } else if a.len() == 0 {
        true
    } else if a[0] < b[0] {
        true
    } else if a[0] > b[0] {
        false
    } else {
        lex_lt(a.drop_first(), b.drop_first())
    }
}

/// `a` sorts before `b` or equals it.
pub open spec fn lex_le(a: Seq<u8>, b: Seq<u8>) -> bool {
    lex_lt(a, b) || a == b
}

/// Exactly one of `a < b`, `a == b`, `b < a` holds.
pub proof fn lemma_lex_trichotomy(a: Seq<u8>, b: Seq<u8>)
    ensures
        lex_lt(a, b) || a == b || lex_lt(b, a),
        !(lex_lt(a, b) && lex_lt(b, a)),
        !(lex_lt(a, b) && a == b),
    decreases a.len(),
{
    if a.len() > 0 && b.len() > 0 && a[0] == b[0] {
        lemma_lex_trichotomy(a.drop_first(), b.drop_first());
        if a.drop_first() == b.drop_first() {
            assert(a =~= seq![a[0]] + a.drop_first());
            assert(b =~= seq![b[0]] + b.drop_first());
        }
    } else if a.len() == 0 && b.len() == 0 {
        assert(a =~= b);
    }
}

/// The order is transitive.
pub proof fn lemma_lex_transitive(a: Seq<u8>, b: Seq<u8>, c: Seq<u8>)
    requires
        lex_lt(a, b),
        lex_lt(b, c),
    ensures
        lex_lt(a, c),
    decreases a.len(),
{
    if a.len() > 0 && b.len() > 0 && c.len() > 0 && a[0] == b[0] && b[0] == c[0] {
        lemma_lex_transitive(a.drop_first(), b.drop_first(), c.drop_first());
    }
}

/// Whether `a` sorts strictly before `b`.
pub fn bytes_lt(a: &[u8], b: &[u8]) -> (r: bool)
    ensures
        r == lex_lt(a@, b@),
{
    let mut i: usize = 0;
    assert(a@.skip(0) =~= a@);
    assert(b@.skip(0) =~= b@);
    while i < a.len() && i < b.len()
        invariant
            i <= a@.len(),
            i <= b@.len(),
            a@.take(i as int) == b@.take(i as int),
            lex_lt(a@, b@) == lex_lt(a@.skip(i as int), b@.skip(i as int)),
        decreases a@.len() - i,
    {
        if a[i] != b[i] {
            return a[i] < b[i];
        }
        proof {
            assert(a@.skip(i as int).drop_first() =~= a@.skip(i + 1));
            assert(b@.skip(i as int).drop_first() =~= b@.skip(i + 1));
            assert(a@.take(i + 1) =~= a@.take(i as int).push(a@[i as int]));
            assert(b@.take(i + 1) =~= b@.take(i as int).push(b@[i as int]));
        }
        i += 1;
    }
    i < b.len()
}

/// Checks whether `data` starts with `prefix`, comparing sixteen bytes at a
/// time and the remainder one by one.
pub fn prefix_compare_simd(data: &[u8], prefix: &[u8]) -> (r: bool)
    ensures
        r == prefix@.is_prefix_of(data@),
{
    if prefix.len() == 0 {
        assert(prefix@ =~= data@.subrange(0, 0));
        return true;
    }
    if data.len() < prefix.len() {
        return false;
    }
    let chunks = prefix.len() / 16;
    let remainder = prefix.len() % 16;
    let mut i: usize = 0;
    while i < chunks
        invariant
            chunks == prefix@.len() / 16,
            prefix@.len() <= data@.len(),
            prefix@.len() <= usize::MAX,
            i <= chunks,
            prefix@.take(16 * i) == data@.take(16 * i),
        decreases chunks - i,
    {
        assert(i * 16 < prefix@.len()) by (nonlinear_arith)
            requires
                i < chunks,
                chunks == prefix@.len() / 16,
        ;
        let offset = i * 16;
        let mut j: usize = 0;
        while j < 16
            invariant
                chunks == prefix@.len() / 16,
                prefix@.len() <= data@.len(),
                i < chunks,
                offset == 16 * i,
                j <= 16,
                prefix@.take(offset + j) == data@.take(offset + j),
            decreases 16 - j,
        {
            if data[offset + j] != prefix[offset + j] {
                assert(prefix@[offset + j] != data@.subrange(0, prefix@.len() as int)[offset + j]);
                return false;
            }
            assert(prefix@.take(offset + j + 1) =~= prefix@.take(offset + j).push(prefix@[offset + j]));
            assert(data@.take(offset + j + 1) =~= data@.take(offset + j).push(data@[offset + j]));
            j += 1;
        }
        i += 1;
    }
    assert(chunks * 16 <= prefix@.len()) by (nonlinear_arith)
        requires
            chunks == prefix@.len() / 16,
    ;
    let offset = chunks * 16;
    let mut j: usize = 0;
    while j < remainder
        invariant
            offset == 16 * chunks,
            remainder == prefix@.len() % 16,
            offset + remainder == prefix@.len(),
            prefix@.len() <= data@.len(),
            j <= remainder,
            prefix@.take(offset + j) == data@.take(offset + j),
        decreases remainder - j,
    {
        if data[offset + j] != prefix[offset + j] {
            assert(prefix@[offset + j] != data@.subrange(0, prefix@.len() as int)[offset + j]);
            return false;
        }
        assert(prefix@.take(offset + j + 1) =~= prefix@.take(offset + j).push(prefix@[offset + j]));
        assert(data@.take(offset + j + 1) =~= data@.take(offset + j).push(data@[offset + j]));
        j += 1;
    }
    assert(prefix@ =~= prefix@.take(prefix@.len() as int));
    assert(data@.subrange(0, prefix@.len() as int) =~= data@.take(prefix@.len() as int));
    true
}

} // verus!
