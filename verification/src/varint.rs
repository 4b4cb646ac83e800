//! LEB128 variable-length integers, as used in index keys.
use vstd::prelude::*;
use vstd::arithmetic::div_mod::{lemma_add_mod_noop, lemma_small_mod, lemma_mod_twice};

verus! {

/// Why a byte string could not be read back as a key component.
#[derive(Debug, Clone, Copy, PartialEq, Eq, Structural)]
pub enum KeyError {
    /// No bytes were left where a component was expected.
    EmptyData,
    /// A varint ran on for more than ten bytes.
    VarintOverflow,
    /// The bytes ended inside a varint.
    IncompleteVarint,
    /// A node's text ran past the end of the key.
    InvalidNodeEncoding,
    /// A node's text was not UTF-8.
    InvalidUtf8,
    /// A literal ended before its language marker.
    MissingLanguageMarker,
    /// A language tag ran past the end of the key.
    InvalidLanguageTagEncoding,
    /// A language tag was not UTF-8.
    InvalidUtf8InLanguageTag,
    /// A literal ended before its datatype marker.
    MissingDatatypeMarker,
    /// A datatype ran past the end of the key.
    InvalidDatatypeEncoding,
    /// A datatype was not UTF-8.
    InvalidUtf8InDatatype,
    /// A literal carried both a language tag and a datatype.
    LanguageAndDatatype,
    /// A blank node's text was not a `u64` numeral.
    InvalidBlankNodeId,
    /// The type byte named no decodable node kind.
    UnknownNodeType(u8),
}

/// `128^k`.
pub open spec fn pow128(k: nat) -> nat
    decreases k,
{
    if k == 0 {
        1
    } else {
        128 * pow128((k - 1) as nat)
    }
}

/// The LEB128 encoding of `v`: seven bits per byte, least significant group
/// first, the high bit set on every byte but the last.
pub open spec fn varint(v: nat) -> Seq<u8>
    decreases v,
{
    if v < 128 {
        seq![v as u8]
    } else {
        seq![(v % 128 + 128) as u8] + varint(v / 128)
    }
}

/// The number whose base-128 digits, least significant first, are the low seven
/// bits of the given bytes.
pub open spec fn low7_value(s: Seq<u8>) -> nat
    decreases s.len(),
{
    if s.len() == 0 {
        0
    } else {
        (s[0] % 128) as nat + 128 * low7_value(s.drop_first())
    }
}

/// What reading a varint from the start of `data` gives: the value (modulo
/// 2^64) and the number of bytes it took, the first byte below 128 ending it.
/// A tenth byte that is not the last one is an overflow; bytes that end first
/// leave the varint incomplete.
pub open spec fn parse_varint(data: Seq<u8>) -> Result<(u64, nat), KeyError> {
    parse_varint_from(data, 0)
}

/// `parse_varint` once the first `i` bytes are known to carry the continuation bit.
pub open spec fn parse_varint_from(data: Seq<u8>, i: nat) -> Result<(u64, nat), KeyError>
    decreases data.len() - i,
{
    if i >= data.len() {
        Err(KeyError::IncompleteVarint)
    } else if data[i as int] < 128 {
        Ok(((low7_value(data.take((i + 1) as int)) % 0x1_0000_0000_0000_0000) as u64, i + 1))
    } else if i >= 9 {
        Err(KeyError::VarintOverflow)
    } else {
        parse_varint_from(data, i + 1)
    }
}

proof fn lemma_low7_take(s: Seq<u8>, i: nat)
    requires
        i < s.len(),
    ensures
        low7_value(s.take((i + 1) as int)) == low7_value(s.take(i as int)) + (s[i as int] % 128) as nat * pow128(i),
    decreases i,
{
    if i == 0 {
        assert(s.take(1).drop_first() =~= Seq::<u8>::empty());
        assert(s.take(0) =~= Seq::<u8>::empty());
        assert(low7_value(Seq::<u8>::empty()) == 0);
        assert(pow128(0) == 1);
    } else {
        assert(pow128(i) == 128 * pow128((i - 1) as nat));
        let t = s.drop_first();
        lemma_low7_take(t, (i - 1) as nat);
        assert(s.take((i + 1) as int).drop_first() =~= t.take(i as int));
        assert(s.take(i as int).drop_first() =~= t.take(i - 1));
        assert(t[i - 1] == s[i as int]);
        let a = low7_value(t.take(i - 1));
        let b = (s[i as int] % 128) as nat;
        let p = pow128((i - 1) as nat);
        assert(128 * (a + b * p) == 128 * a + b * (128 * p)) by (nonlinear_arith);
    }
}

proof fn lemma_low7_bound(s: Seq<u8>)
    ensures
        low7_value(s) < pow128(s.len()),
    decreases s.len(),
{
    if s.len() > 0 {
        lemma_low7_bound(s.drop_first());
        let a = low7_value(s.drop_first());
        let p = pow128(s.drop_first().len());
        assert(128 * a + 127 < 128 * p) by (nonlinear_arith)
            requires
                a < p,
        ;
    }
}

proof fn lemma_pow128_values()
    ensures
        pow128(9) == 0x8000_0000_0000_0000,
        pow128(10) == 0x4_0000_0000_0000_0000_0,
{
    reveal_with_fuel(pow128, 11);
}

proof fn lemma_pow128_mono(a: nat, b: nat)
    requires
        a <= b,
    ensures
        pow128(a) <= pow128(b),
    decreases b,
{
    if a < b {
        lemma_pow128_mono(a, (b - 1) as nat);
    }
}

/// The structure of an encoding: every byte but the last carries the
/// continuation bit, and the low seven bits spell the value.
pub proof fn lemma_varint_shape(v: nat)
    ensures
        varint(v).len() >= 1,
        varint(v)[varint(v).len() - 1] < 128,
        forall|j: int| 0 <= j < varint(v).len() - 1 ==> #[trigger] varint(v)[j] >= 128,
        low7_value(varint(v)) == v,
        v < pow128((varint(v).len() - 1) as nat) * 128,
        v >= 128 ==> v >= pow128((varint(v).len() - 1) as nat),
    decreases v,
{
    if v >= 128 {
        lemma_varint_shape(v / 128);
        let e = varint(v);
        let r = varint(v / 128);
        assert(e.drop_first() =~= r);
        assert forall|j: int| 0 <= j < e.len() - 1 implies #[trigger] e[j] >= 128 by {
            if j > 0 {
                assert(e[j] == r[j - 1]);
            }
        }
        assert(e[e.len() - 1] == r[r.len() - 1]);
        let k = (r.len() - 1) as nat;
        assert(pow128(k + 1) == 128 * pow128(k));
        assert(v < pow128(k + 1) * 128) by (nonlinear_arith)
            requires
                v / 128 < pow128(k) * 128,
                pow128(k + 1) == 128 * pow128(k),
        ;
        if v / 128 >= 128 {
            assert(v >= pow128(k + 1)) by (nonlinear_arith)
                requires
                    v / 128 >= pow128(k),
                    pow128(k + 1) == 128 * pow128(k),
            ;
        } else {
            assert(k == 0);
            assert(pow128(1) == 128);
        }
    } else {
        assert(varint(v).drop_first() =~= Seq::<u8>::empty());
        assert(low7_value(Seq::<u8>::empty()) == 0);
    }
}

/// A `u64` takes at most ten bytes.
pub proof fn lemma_varint_len(v: u64)
    ensures
        varint(v as nat).len() <= 10,
{
    lemma_varint_shape(v as nat);
    let k = (varint(v as nat).len() - 1) as nat;
    lemma_pow128_values();
    if k >= 10 {
        lemma_pow128_mono(10, k);
    }
}

/// Reading back an encoded `u64`, whatever follows it, gives the value and the
/// encoding's length.
pub proof fn lemma_parse_varint_roundtrip(v: u64, rest: Seq<u8>)
    ensures
        parse_varint(varint(v as nat) + rest) == Ok::<(u64, nat), KeyError>((v, varint(v as nat).len())),
{
    let e = varint(v as nat);
    let d = e + rest;
    lemma_varint_shape(v as nat);
    lemma_varint_len(v);
    let n = e.len();
    assert(d.take(n as int) =~= e);
    assert forall|i: nat| i < n implies #[trigger] parse_varint_from(d, i) == Ok::<(u64, nat), KeyError>((v, n)) by {
        lemma_walk(d, e, v, i);
    }
}

proof fn lemma_walk(d: Seq<u8>, e: Seq<u8>, v: u64, i: nat)
    requires
        e == varint(v as nat),
        e.len() <= 10,
        d.len() >= e.len(),
        d.take(e.len() as int) == e,
        i < e.len(),
        e[e.len() - 1] < 128,
        forall|j: int| 0 <= j < e.len() - 1 ==> #[trigger] e[j] >= 128,
        low7_value(e) == v,
    ensures
        parse_varint_from(d, i) == Ok::<(u64, nat), KeyError>((v, e.len())),
    decreases e.len() - i,
{
    assert(d[i as int] == e[i as int]);
    if i + 1 < e.len() {
        assert(e[i as int] >= 128);
        lemma_walk(d, e, v, i + 1);
    } else {
        assert(d.take((i + 1) as int) =~= e);
        lemma_small_mod(v as nat, 0x1_0000_0000_0000_0000);
    }
}

proof fn lemma_low7_byte(b: u8)
    ensures
        (b & 0x7F) == b % 128,
        (b & 0x80 == 0) <==> b < 128,
{
    assert((b & 0x7F) == b % 128) by (bit_vector);
    assert((b & 0x80 == 0) <==> b < 128) by (bit_vector);
}

/// Reads a LEB128 varint starting at `data[at]`; on success gives the value and
/// the number of bytes read.
pub fn decode_varint_at(data: &[u8], at: usize) -> (r: Result<(u64, usize), KeyError>)
    requires
        at <= data@.len(),
    ensures
        match (r, parse_varint(data@.skip(at as int))) {
            (Ok((v, k)), Ok((w, j))) => v == w && k as nat == j,
            (Err(e1), Err(e2)) => e1 == e2,
            _ => false,
        },
{
    let ghost d = data@.skip(at as int);
    let mut result: u64 = 0;
    let mut mult: u64 = 1;
    let mut i: usize = 0;
    let mut pos: usize = at;
    while pos < data.len()
        invariant
            pos == at + i,
            at <= data@.len(),
            d == data@.skip(at as int),
            i <= 9,
            at + i <= data@.len(),
            forall|j: int| 0 <= j < i ==> #[trigger] d[j] >= 128,
            result as nat == low7_value(d.take(i as int)) % 0x1_0000_0000_0000_0000,
            mult as nat == pow128(i as nat),
            parse_varint(d) == parse_varint_from(d, i as nat),
        decreases data@.len() - (at + i),
    {
        let byte = data[pos];
        assert(byte == d[i as int]);
        proof {
            lemma_low7_byte(byte);
            lemma_low7_take(d, i as nat);
            let a = low7_value(d.take(i as int));
            let x = (byte % 128) as nat;
            let m = 0x1_0000_0000_0000_0000nat;
            lemma_add_mod_noop(a as int, (x * pow128(i as nat)) as int, m as int);
            lemma_mod_twice(a as int, m as int);
            lemma_mod_twice((x * pow128(i as nat)) as int, m as int);
        }
        let low = ((byte & 0x7F) as u64).wrapping_mul(mult);
        result = result.wrapping_add(low);
        if byte & 0x80 == 0 {
            return Ok((result, i + 1));
        }
        if i >= 9 {
            return Err(KeyError::VarintOverflow);
        }
        proof {
            lemma_pow128_mono((i + 1) as nat, 9);
            lemma_pow128_values();
        }
        mult = mult * 128;
        i += 1;
        pos += 1;
    }
    Err(KeyError::IncompleteVarint)
}

/// Reads a LEB128 varint from the start of `data`.
pub fn decode_varint(data: &[u8]) -> (r: Result<(u64, usize), KeyError>)
    ensures
        match (r, parse_varint(data@)) {
            (Ok((v, k)), Ok((w, j))) => v == w && k as nat == j,
            (Err(e1), Err(e2)) => e1 == e2,
            _ => false,
        },
{
    assert(data@.skip(0) =~= data@);
    decode_varint_at(data, 0)
}

proof fn lemma_varint_step(v: u64)
    ensures
        (v & 0x7F) as nat == v as nat % 128,
        (v >> 7) as nat == v as nat / 128,
        ((v & 0x7F) as u8 | 0x80) as nat == v as nat % 128 + 128,
        (v & 0x7F) < 128,
{
    assert((v & 0x7F) == v % 128) by (bit_vector);
    assert((v >> 7) == v / 128) by (bit_vector);
    assert(((v & 0x7F) as u8 | 0x80) == ((v & 0x7F) as u8) + 128) by (bit_vector);
    assert((v & 0x7F) < 128) by (bit_vector);
}

/// Appends the LEB128 encoding of `value` to `output`.
pub fn encode_varint_to_vec(output: &mut Vec<u8>, value: u64)
    ensures
        final(output)@ == old(output)@ + varint(value as nat),
{
    let mut value = value;
    let ghost start = old(output)@;
    let ghost orig = value;
    loop
        invariant_except_break
            start + varint(orig as nat) == output@ + varint(value as nat),
        ensures
            output@ == start + varint(orig as nat),
        decreases value,
    {
        proof {
            lemma_varint_step(value);
        }
        let ghost before = value;
        let mut byte = (value & 0x7F) as u8;
        value = value >> 7;
        if value != 0 {
            byte = byte | 0x80;
        }
        let ghost out0 = output@;
        output.push(byte);
        proof {
            if before >= 128 {
                assert(varint(before as nat) == seq![byte] + varint(value as nat));
                assert(out0 + varint(before as nat) =~= output@ + varint(value as nat));
            } else {
                assert(value == 0);
                assert(varint(before as nat) == seq![byte]);
                assert(out0 + varint(before as nat) =~= output@);
            }
        }
        if value == 0 {
            assert(output@ =~= start + varint(orig as nat));
            break;
        }
    }
}

/// A varint read from `data` never extends past its end.
pub proof fn lemma_parse_varint_len(d: Seq<u8>)
    ensures
        parse_varint(d) matches Ok((_, k)) ==> 1 <= k <= d.len(),
{
    lemma_parse_varint_from_len(d, 0);
}

proof fn lemma_parse_varint_from_len(d: Seq<u8>, i: nat)
    ensures
        parse_varint_from(d, i) matches Ok((_, k)) ==> i + 1 <= k <= d.len(),
    decreases d.len() - i,
{
    if i < d.len() && d[i as int] >= 128 && i < 9 {
        lemma_parse_varint_from_len(d, i + 1);
    }
}

} // verus!
