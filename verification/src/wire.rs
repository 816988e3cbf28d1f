//! Mathematical model of the wire format: little-endian fixed-width fields,
//! unsigned LEB128 variable-length integers, and the tagged optional-string
//! framing, together with the round-trip laws that relate encoding to
//! decoding.

use vstd::prelude::*;
use vstd::utf8::{decode_utf8, encode_utf8, valid_utf8};

verus! {

/// The two ways a decode can fail: the buffer ran out before the operation
/// could complete (`EndOfFile`), or bytes were present but violate the
/// format (`InvalidData`).
#[derive(Clone, Copy, Debug, PartialEq, Eq, Structural)]
pub enum ParseError {
    InvalidData,
    EndOfFile,
}

/// 256^w, the number of values a `w`-byte little-endian field can hold.
pub open spec fn pow256(w: nat) -> nat
    decreases w,
{
    if w == 0 {
        1
    } else {
        256 * pow256((w - 1) as nat)
    }
}

/// 128^k, the weight of the `k`-th seven-bit group of a ULEB128 encoding.
pub open spec fn pow128(k: nat) -> nat
    decreases k,
{
    if k == 0 {
        1
    } else {
        128 * pow128((k - 1) as nat)
    }
}

/// The unsigned value of a byte sequence read as a little-endian integer.
pub open spec fn le_value(s: Seq<u8>) -> nat
    decreases s.len(),
{
    if s.len() == 0 {
        0
    } else {
        s[0] as nat + 256 * le_value(s.drop_first())
    }
}

/// The `w` little-endian bytes of `v % 256^w`.
pub open spec fn le_bytes(v: nat, w: nat) -> Seq<u8>
    decreases w,
{
    if w == 0 {
        Seq::empty()
    } else {
        seq![(v % 256) as u8] + le_bytes(v / 256, (w - 1) as nat)
    }
}

/// Whether the sequence begins with a complete ULEB128 encoding: some byte
/// with its continuation (high) bit clear before the sequence runs out.
pub open spec fn uleb_terminated(s: Seq<u8>) -> bool
    decreases s.len(),
{
    if s.len() == 0 {
        false
    } else if s[0] < 128 {
        true
    } else {
        uleb_terminated(s.drop_first())
    }
}

/// The length of the ULEB128 encoding at the head of the sequence, up to and
/// including the first byte whose continuation bit is clear.
pub open spec fn uleb_len(s: Seq<u8>) -> nat
    decreases s.len(),
{
    if s.len() == 0 {
        0
    } else if s[0] < 128 {
        1
    } else {
        1 + uleb_len(s.drop_first())
    }
}

/// The value of the ULEB128 encoding at the head of the sequence: each byte
/// contributes its low seven bits, least-significant group first.
pub open spec fn uleb_value(s: Seq<u8>) -> nat
    decreases s.len(),
{
    if s.len() == 0 {
        0
    } else if s[0] < 128 {
        s[0] as nat
    } else {
        (s[0] - 128) as nat + 128 * uleb_value(s.drop_first())
    }
}

/// The canonical ULEB128 encoding of `v`: seven bits per byte, continuation
/// bit set on every byte but the last, no trailing padding.
pub open spec fn uleb_encode(v: nat) -> Seq<u8>
    decreases v,
{
    if v < 128 {
        seq![v as u8]
    } else {
        seq![(128 + v % 128) as u8] + uleb_encode(v / 128)
    }
}

/// The encoding of an optional string: a single `0x00` sentinel for an
/// absent value, or tag `0x0b`, the ULEB128 byte length, and the UTF-8
/// bytes for a present one.
pub open spec fn string_bytes(v: Option<Seq<char>>) -> Seq<u8> {
    match v {
        None => seq![0x00u8],
        Some(cs) => seq![0x0bu8] + uleb_encode(encode_utf8(cs).len()) + encode_utf8(cs),
    }
}

/// The outcome of decoding an optional string at the head of `s`: on
/// success, the decoded value and the number of bytes consumed; on failure,
/// which error the reader reports (and the cursor does not move).
pub open spec fn str_decode(s: Seq<u8>) -> Result<(Option<Seq<char>>, int), ParseError> {
    if s.len() == 0 {
        Err(ParseError::EndOfFile)
    } else if s[0] == 0x00 {
        Ok((None, 1))
    } else if s[0] != 0x0b {
        Err(ParseError::InvalidData)
    } else {
        let t = s.skip(1);
        if t.len() == 0 {
            Err(ParseError::EndOfFile)
        } else if !uleb_terminated(t) || uleb_value(t) > u64::MAX {
            Err(ParseError::InvalidData)
        } else {
            let n: int = uleb_len(t) as int;
            let l: int = uleb_value(t) as int;
            if t.len() < n + l {
                Err(ParseError::EndOfFile)
            } else {
                let body = t.subrange(n, n + l);
                if valid_utf8(body) {
                    Ok((Some(decode_utf8(body)), 1 + n + l))
                } else {
                    Err(ParseError::InvalidData)
                }
            }
        }
    }
}

/// Powers of 128 grow monotonically with the exponent.
pub proof fn lemma_pow128_mono(a: nat, b: nat)
    requires
        a <= b,
    ensures
        pow128(a) <= pow128(b),
    decreases b,
{
    if a == b {
    } else {
        lemma_pow128_mono(a, (b - 1) as nat);
        assert(128 * pow128((b - 1) as nat) >= pow128((b - 1) as nat)) by (nonlinear_arith)
            requires
                pow128((b - 1) as nat) >= 0,
        ;
    }
}

/// Powers of 256 grow monotonically with the exponent.
pub proof fn lemma_pow256_mono(a: nat, b: nat)
    requires
        a <= b,
    ensures
        pow256(a) <= pow256(b),
    decreases b,
{
    if a == b {
    } else {
        lemma_pow256_mono(a, (b - 1) as nat);
        assert(256 * pow256((b - 1) as nat) >= pow256((b - 1) as nat)) by (nonlinear_arith)
            requires
                pow256((b - 1) as nat) >= 0,
        ;
    }
}

/// The concrete powers of 128 that bound a `u64` ULEB128 encoding.
pub(crate) proof fn lemma_pow128_values()
    ensures
        pow128(8) == 0x100000000000000,
        pow128(9) == 0x8000000000000000,
        pow128(10) == 0x400000000000000000,
{
    assert(pow128(0) == 1);
    assert(pow128(1) == 128);
    assert(pow128(2) == 0x4000);
    assert(pow128(3) == 0x200000);
    assert(pow128(4) == 0x10000000);
    assert(pow128(5) == 0x800000000);
    assert(pow128(6) == 0x40000000000);
    assert(pow128(7) == 0x2000000000000);
    assert(pow128(8) == 0x100000000000000);
    assert(pow128(9) == 0x8000000000000000);
    assert(pow128(10) == 0x400000000000000000);
}

/// The concrete powers of 256 for the fixed field widths in use.
pub(crate) proof fn lemma_pow256_values()
    ensures
        pow256(1) == 0x100,
        pow256(2) == 0x10000,
        pow256(4) == 0x100000000,
        pow256(7) == 0x100000000000000,
        pow256(8) == 0x10000000000000000,
{
    assert(pow256(0) == 1);
    assert(pow256(1) == 0x100);
    assert(pow256(2) == 0x10000);
    assert(pow256(3) == 0x1000000);
    assert(pow256(4) == 0x100000000);
    assert(pow256(5) == 0x10000000000);
    assert(pow256(6) == 0x1000000000000);
    assert(pow256(7) == 0x100000000000000);
    assert(pow256(8) == 0x10000000000000000);
}

/// A `w`-byte little-endian field holds a value below 256^w.
pub proof fn lemma_le_value_bound(s: Seq<u8>)
    ensures
        le_value(s) < pow256(s.len()),
    decreases s.len(),
{
    if s.len() == 0 {
    } else {
        lemma_le_value_bound(s.drop_first());
        assert(256 * le_value(s.drop_first()) <= 256 * (pow256((s.len() - 1) as nat) - 1))
            by (nonlinear_arith)
            requires
                le_value(s.drop_first()) <= pow256((s.len() - 1) as nat) - 1,
        ;
    }
}

/// Round trip for fixed-width little-endian fields: encoding any value that
/// fits in `w` bytes and decoding those bytes yields the value back.
pub proof fn lemma_le_round_trip(v: nat, w: nat)
    requires
        v < pow256(w),
    ensures
        le_bytes(v, w).len() == w,
        le_value(le_bytes(v, w)) == v,
    decreases w,
{
    if w == 0 {
    } else {
        assert(v / 256 < pow256((w - 1) as nat)) by (nonlinear_arith)
            requires
                v < 256 * pow256((w - 1) as nat),
        ;
        lemma_le_round_trip(v / 256, (w - 1) as nat);
        let s = le_bytes(v, w);
        assert(s.drop_first() =~= le_bytes(v / 256, (w - 1) as nat));
        vstd::arithmetic::div_mod::lemma_fundamental_div_mod(v as int, 256);
    }
}

/// Round trip for single bytes: the one-byte encoding of `v`, followed by
/// arbitrary bytes, reads back as `v`.
pub proof fn lemma_byte_round_trip(v: u8, rest: Seq<u8>)
    ensures
        (seq![v] + rest)[0] == v,
{
}

/// Round trip for booleans: the encoded byte, followed by arbitrary bytes,
/// reads back as nonzero exactly when the value was true.
pub proof fn lemma_boolean_round_trip(v: bool, rest: Seq<u8>)
    ensures
        ((seq![(if v { 1u8 } else { 0u8 })] + rest)[0] != 0) == v,
{
}

/// Round trip for ULEB128: the canonical encoding of any unsigned value,
/// followed by arbitrary bytes, decodes to exactly that value, consuming
/// exactly the encoding.
pub proof fn lemma_uleb_round_trip(v: nat, rest: Seq<u8>)
    ensures
        uleb_encode(v).len() >= 1,
        uleb_terminated(uleb_encode(v) + rest),
        uleb_len(uleb_encode(v) + rest) == uleb_encode(v).len(),
        uleb_value(uleb_encode(v) + rest) == v,
    decreases v,
{
    let s = uleb_encode(v) + rest;
    if v < 128 {
        assert(s[0] == v as u8);
    } else {
        assert(s[0] == (128 + v % 128) as u8);
        assert(s.drop_first() =~= uleb_encode(v / 128) + rest);
        lemma_uleb_round_trip(v / 128, rest);
        vstd::arithmetic::div_mod::lemma_fundamental_div_mod(v as int, 128);
    }
}

/// Stepping over one continuation byte of a ULEB128 encoding: the suffix one
/// byte later carries the same termination status and the remaining groups.
pub(crate) proof fn lemma_uleb_suffix_step(s: Seq<u8>, k: int)
    requires
        0 <= k < s.len(),
        s[k] >= 128,
    ensures
        uleb_terminated(s.skip(k)) == uleb_terminated(s.skip(k + 1)),
        uleb_len(s.skip(k)) == 1 + uleb_len(s.skip(k + 1)),
        uleb_value(s.skip(k)) == (s[k] - 128) + 128 * uleb_value(s.skip(k + 1)),
{
    assert(s.skip(k).drop_first() =~= s.skip(k + 1));
    assert(s.skip(k)[0] == s[k]);
}

/// Round trip for optional strings: the encoding of any value, followed by
/// arbitrary bytes, decodes to exactly that value, consuming exactly the
/// encoding.
pub proof fn lemma_string_round_trip(v: Option<Seq<char>>, rest: Seq<u8>)
    requires
        (v matches Some(cs) ==> encode_utf8(cs).len() <= u64::MAX),
    ensures
        str_decode(string_bytes(v) + rest) == Ok::<(Option<Seq<char>>, int), ParseError>(
            (v, string_bytes(v).len() as int),
        ),
{
    let s = string_bytes(v) + rest;
    match v {
        None => {
            assert(s[0] == 0x00u8);
        },
        Some(cs) => {
            let body = encode_utf8(cs);
            let enc = uleb_encode(body.len());
            assert(s[0] == 0x0bu8);
            let t = s.skip(1);
            assert(t =~= enc + (body + rest));
            lemma_uleb_round_trip(body.len(), body + rest);
            let n: int = uleb_len(t) as int;
            assert(n == enc.len());
            assert(uleb_value(t) == body.len());
            assert(t.subrange(n, n + body.len() as int) =~= body);
            vstd::utf8::encode_utf8_valid_utf8(cs);
            vstd::utf8::encode_utf8_decode_utf8(cs);
            assert(string_bytes(v).len() == 1 + n + body.len());
        },
    }
}

} // verus!
