//! The decoding half of the codec: `OsuReader` owns a byte buffer and a
//! cursor, and decodes primitive values sequentially. Every failed read
//! leaves the cursor where it was, so a caller can retry or recover; the
//! optional-string decode is transactional across its sub-reads.

use crate::wire::{
    le_value, str_decode, uleb_len, uleb_terminated, uleb_value, ParseError, pow128, pow256,
};
use vstd::prelude::*;
use vstd::utf8::{encode_utf8, valid_utf8};

verus! {

/// Relies on `String::from_utf8`: it succeeds exactly when the bytes are
/// valid UTF-8, and then returns the string whose UTF-8 encoding is those
/// bytes.
#[verifier::external_body]
fn bytes_to_string(v: Vec<u8>) -> (r: Option<String>)
    ensures
        r is Some <==> valid_utf8(v@),
        r matches Some(s) ==> encode_utf8(s@) == v@,
{
    String::from_utf8(v).ok()
}

/// Sequential, fallible decoder over a fixed byte buffer. The cursor starts
/// at zero and only ever advances by the exact number of bytes a successful
/// read consumed.
pub struct OsuReader {
    data: Vec<u8>,
    pointer: usize,
}

impl OsuReader {
    /// The cursor never runs past the end of the buffer.
    #[verifier::type_invariant]
    spec fn wf(self) -> bool {
        self.pointer <= self.data@.len()
    }

    /// The whole underlying buffer, which no read ever changes.
    pub closed spec fn bytes(&self) -> Seq<u8> {
        self.data@
    }

    /// The current cursor position, a byte offset into the buffer.
    pub closed spec fn pos(&self) -> int {
        self.pointer as int
    }

    /// The bytes not yet consumed, from the cursor to the end.
    pub open spec fn suffix(&self) -> Seq<u8> {
        self.bytes().skip(self.pos())
    }

    /// Whether `n` more bytes remain to be read.
    pub open spec fn can_read(&self, n: int) -> bool {
        self.pos() + n <= self.bytes().len()
    }

    /// A reader over a copy of the given bytes, cursor at the start.
    pub fn from_bytes(bytes: &[u8]) -> (r: Self)
        ensures
            r.bytes() == bytes@,
            r.pos() == 0,
    {
        Self::from_vec(vstd::slice::slice_to_vec(bytes))
    }

    /// A reader that takes ownership of the given buffer, cursor at the
    /// start.
    pub fn from_vec(data: Vec<u8>) -> (r: Self)
        ensures
            r.bytes() == data@,
            r.pos() == 0,
    {
        Self { data, pointer: 0 }
    }

    /// Reports `EndOfFile` unless `count` more bytes remain.
    fn check(&self, count: usize) -> (r: Result<(), ParseError>)
        ensures
            r is Ok <==> self.can_read(count as int),
            r is Err ==> r == Err::<(), ParseError>(ParseError::EndOfFile),
    {
        proof {
            use_type_invariant(&*self);
        }
        if count > self.data.len() - self.pointer {
            Err(ParseError::EndOfFile)
        } else {
            Ok(())
        }
    }

    /// Reads one unsigned byte.
    pub fn read_byte(&mut self) -> (r: Result<u8, ParseError>)
        ensures
            final(self).bytes() == old(self).bytes(),
            old(self).can_read(1) ==> (r matches Ok(b) && b == old(self).bytes()[old(self).pos()]
                && final(self).pos() == old(self).pos() + 1),
            !old(self).can_read(1) ==> (r matches Err(e) && e == ParseError::EndOfFile && final(self).pos() == old(self).pos()),
    {
        proof {
            use_type_invariant(&*self);
        }
        match self.check(1) {
            Err(e) => Err(e),
            Ok(()) => {
                proof {
                    vstd::std_specs::vec::axiom_spec_len(&self.data);
                }
                let byte: u8 = self.data[self.pointer];
                self.pointer = self.pointer + 1;
                Ok(byte)
            },
        }
    }

    /// Reads `count` bytes as one little-endian unsigned integer.
    fn read_le(&mut self, count: usize) -> (r: Result<u64, ParseError>)
        requires
            count <= 8,
        ensures
            final(self).bytes() == old(self).bytes(),
            old(self).can_read(count as int) ==> (r matches Ok(v) && v as nat == le_value(
                old(self).bytes().subrange(old(self).pos(), old(self).pos() + count),
            ) && final(self).pos() == old(self).pos() + count),
            !old(self).can_read(count as int) ==> (r matches Err(e) && e == ParseError::EndOfFile
                && final(self).pos() == old(self).pos()),
    {
        proof {
            use_type_invariant(&*self);
        }
        match self.check(count) {
            Err(e) => Err(e),
            Ok(()) => {
                let p: usize = self.pointer;
                let mut acc: u64 = 0;
                let mut i: usize = count;
                proof {
                    crate::wire::lemma_pow256_values();
                    vstd::std_specs::vec::axiom_spec_len(&self.data);
                    assert(self.data@.subrange(p + i, p as int + count) =~= Seq::empty());
                }
                while i > 0
                    invariant
                        i <= count,
                        count <= 8,
                        p + count <= self.data@.len(),
                        self.data@.len() <= usize::MAX,
                        acc as nat == le_value(self.data@.subrange(p + i, p as int + count)),
                        (acc as nat) < pow256((count - i) as nat),
                    decreases i,
                {
                    i = i - 1;
                    let b: u8 = self.data[p + i];
                    proof {
                        crate::wire::lemma_pow256_values();
                        crate::wire::lemma_pow256_mono((count - i - 1) as nat, 7);
                        let w = self.data@.subrange(p + i, p as int + count);
                        assert(w.drop_first() =~= self.data@.subrange(p + i + 1, p as int + count));
                        assert(w[0] == b);
                        assert(pow256((count - i) as nat) == 256 * pow256((count - i - 1) as nat));
                    }
                    acc = acc * 256 + (b as u64);
                }
                proof {
                    assert(self.data@.subrange(p as int, p as int + count) == self.data@.subrange(
                        p + i,
                        p as int + count,
                    ));
                }
                self.pointer = p + count;
                Ok(acc)
            },
        }
    }

    /// Reads two bytes as a little-endian unsigned 16-bit integer.
    pub fn read_short(&mut self) -> (r: Result<u16, ParseError>)
        ensures
            final(self).bytes() == old(self).bytes(),
            old(self).can_read(2) ==> (r matches Ok(v) && v as nat == le_value(
                old(self).bytes().subrange(old(self).pos(), old(self).pos() + 2),
            ) && final(self).pos() == old(self).pos() + 2),
            !old(self).can_read(2) ==> (r matches Err(e) && e == ParseError::EndOfFile && final(self).pos() == old(self).pos()),
    {
        match self.read_le(2) {
            Err(e) => Err(e),
            Ok(v) => {
                proof {
                    crate::wire::lemma_le_value_bound(
                        old(self).bytes().subrange(old(self).pos(), old(self).pos() + 2),
                    );
                    crate::wire::lemma_pow256_values();
                }
                Ok(v as u16)
            },
        }
    }

    /// Reads four bytes as a little-endian unsigned 32-bit integer.
    pub fn read_int(&mut self) -> (r: Result<u32, ParseError>)
        ensures
            final(self).bytes() == old(self).bytes(),
            old(self).can_read(4) ==> (r matches Ok(v) && v as nat == le_value(
                old(self).bytes().subrange(old(self).pos(), old(self).pos() + 4),
            ) && final(self).pos() == old(self).pos() + 4),
            !old(self).can_read(4) ==> (r matches Err(e) && e == ParseError::EndOfFile && final(self).pos() == old(self).pos()),
    {
        match self.read_le(4) {
            Err(e) => Err(e),
            Ok(v) => {
                proof {
                    crate::wire::lemma_le_value_bound(
                        old(self).bytes().subrange(old(self).pos(), old(self).pos() + 4),
                    );
                    crate::wire::lemma_pow256_values();
                }
                Ok(v as u32)
            },
        }
    }

    /// Reads eight bytes as a little-endian unsigned 64-bit integer.
    pub fn read_long(&mut self) -> (r: Result<u64, ParseError>)
        ensures
            final(self).bytes() == old(self).bytes(),
            old(self).can_read(8) ==> (r matches Ok(v) && v as nat == le_value(
                old(self).bytes().subrange(old(self).pos(), old(self).pos() + 8),
            ) && final(self).pos() == old(self).pos() + 8),
            !old(self).can_read(8) ==> (r matches Err(e) && e == ParseError::EndOfFile && final(self).pos() == old(self).pos()),
    {
        self.read_le(8)
    }

    /// Reads one byte as a boolean: false exactly when the byte is zero.
    pub fn read_boolean(&mut self) -> (r: Result<bool, ParseError>)
        ensures
            final(self).bytes() == old(self).bytes(),
            old(self).can_read(1) ==> (r matches Ok(b) && b == (old(self).bytes()[old(self).pos()] != 0) && final(self).pos() == old(self).pos() + 1),
            !old(self).can_read(1) ==> (r matches Err(e) && e == ParseError::EndOfFile && final(self).pos() == old(self).pos()),
    {
        match self.read_byte() {
            Err(e) => Err(e),
            Ok(b) => Ok(b != 0),
        }
    }

    /// Scans the ULEB128 encoding at the cursor without moving it: on
    /// success, the decoded value and how many bytes the encoding occupies.
    fn uleb_scan(&self) -> (r: Result<(u64, usize), ParseError>)
        ensures
            ({
                let s = self.suffix();
                &&& (s.len() == 0 ==> (r matches Err(e) && e == ParseError::EndOfFile))
                &&& (s.len() > 0 && !(uleb_terminated(s) && uleb_value(s) <= u64::MAX)
                    ==> (r matches Err(e) && e == ParseError::InvalidData))
                &&& (uleb_terminated(s) && uleb_value(s) <= u64::MAX ==> (r matches Ok(v) && (
                v.0 as nat) == uleb_value(s) && v.1 as int == uleb_len(s) && 1 <= v.1 <= s.len()))
            }),
    {
        proof {
            use_type_invariant(&*self);
        }
        let ghost s: Seq<u8> = self.suffix();
        let p: usize = self.pointer;
        let n: usize = self.data.len();
        if p == n {
            return Err(ParseError::EndOfFile);
        }
        let mut k: usize = 0;
        let mut acc: u64 = 0;
        let mut mul: u64 = 1;
        proof {
            crate::wire::lemma_pow128_values();
            assert(s.skip(0) =~= s);
        }
        loop
            invariant
                s == self.data@.skip(p as int),
                p == self.pointer,
                n == self.data@.len(),
                p < n,
                p + k <= n,
                forall|j: int| 0 <= j < k ==> s[j] >= 128,
                k <= 9 ==> mul as nat == pow128(k as nat),
                k <= 9 ==> (acc as nat) < pow128(k as nat),
                uleb_value(s) == acc as nat + pow128(k as nat) * uleb_value(s.skip(k as int)),
                uleb_terminated(s) == uleb_terminated(s.skip(k as int)),
                uleb_len(s) == k + uleb_len(s.skip(k as int)),
            decreases n - p - k,
        {
            proof {
                crate::wire::lemma_pow128_values();
            }
            if p + k == n {
                proof {
                    assert(s.skip(k as int).len() == 0);
                }
                return Err(ParseError::InvalidData);
            }
            let b: u8 = self.data[p + k];
            let payload: u64 = (b % 128) as u64;
            let ghost sk: Seq<u8> = s.skip(k as int);
            let ghost sk1: Seq<u8> = s.skip(k as int + 1);
            proof {
                assert(sk[0] == b);
                assert(sk.drop_first() =~= sk1);
                assert(uleb_value(sk) >= payload as nat);
            }
            if k == 9 && payload > 1 {
                proof {
                    assert(pow128(9) * uleb_value(sk) >= pow128(9) * 2) by (nonlinear_arith)
                        requires
                            uleb_value(sk) >= 2,
                            pow128(9) >= 0,
                    ;
                }
                return Err(ParseError::InvalidData);
            }
            if k >= 10 && payload > 0 {
                proof {
                    crate::wire::lemma_pow128_mono(10, k as nat);
                    assert(pow128(k as nat) * uleb_value(sk) >= pow128(k as nat) * 1)
                        by (nonlinear_arith)
                        requires
                            uleb_value(sk) >= 1,
                            pow128(k as nat) >= 0,
                    ;
                }
                return Err(ParseError::InvalidData);
            }
            let ghost acc0: u64 = acc;
            if k <= 9 {
                proof {
                    if k <= 8 {
                        crate::wire::lemma_pow128_mono(k as nat, 8);
                        assert(payload * mul <= 127 * pow128(8)) by (nonlinear_arith)
                            requires
                                payload <= 127,
                                0 <= mul,
                                mul <= pow128(8),
                                pow128(8) >= 0,
                        ;
                    } else {
                        assert(payload * mul <= mul) by (nonlinear_arith)
                            requires
                                payload <= 1,
                                0 <= mul,
                        ;
                    }
                }
                acc = acc + payload * mul;
            }
            if b < 128 {
                proof {
                    assert(uleb_value(sk) == payload as nat);
                    assert(uleb_terminated(sk));
                    assert(uleb_len(sk) == 1);
                    if k >= 10 {
                        assert(payload == 0);
                        assert(pow128(k as nat) * uleb_value(sk) == 0) by (nonlinear_arith)
                            requires
                                uleb_value(sk) == 0,
                        ;
                    } else {
                        assert((payload as nat) * (mul as nat) == pow128(k as nat) * uleb_value(
                            sk,
                        )) by (nonlinear_arith)
                            requires
                                mul as nat == pow128(k as nat),
                                uleb_value(sk) == payload as nat,
                        ;
                    }
                }
                return Ok((acc, k + 1));
            }
            proof {
                crate::wire::lemma_uleb_suffix_step(s, k as int);
                let kn: nat = k as nat;
                let c: nat = (b - 128) as nat;
                let v1: nat = uleb_value(sk1);
                assert(uleb_value(sk) == c + 128 * v1);
                assert(pow128(kn) * (c + 128 * v1) == pow128(kn) * c + (128 * pow128(kn)) * v1)
                    by (nonlinear_arith);
                assert(pow128((kn + 1) as nat) == 128 * pow128(kn));
                if k >= 10 {
                    assert(c == 0);
                    assert(pow128(kn) * c == 0) by (nonlinear_arith)
                        requires
                            c == 0,
                    ;
                } else {
                    assert(pow128(kn) * c == (payload as nat) * (mul as nat)) by (nonlinear_arith)
                        requires
                            mul as nat == pow128(kn),
                            c == payload as nat,
                    ;
                }
                if k <= 8 {
                    assert((acc0 as nat) + (payload as nat) * (mul as nat) < 128 * pow128(kn))
                        by (nonlinear_arith)
                        requires
                            (acc0 as nat) < pow128(kn),
                            payload <= 127,
                            mul as nat == pow128(kn),
                            pow128(kn) >= 0,
                    ;
                }
                assert(forall|j: int| 0 <= j < k + 1 ==> s[j] >= 128);
            }
            k = k + 1;
            if k <= 9 {
                mul = mul * 128;
            }
        }
    }

    /// Reads a ULEB128 variable-length unsigned integer and advances past
    /// it. Fails with `EndOfFile` when no byte remains at all, and with
    /// `InvalidData` when the buffer ends mid-continuation or the value
    /// would overflow 64 bits; either failure leaves the cursor unchanged.
    pub fn read_uleb(&mut self) -> (r: Result<u64, ParseError>)
        ensures
            final(self).bytes() == old(self).bytes(),
            ({
                let s = old(self).suffix();
                &&& (s.len() == 0 ==> (r matches Err(e) && e == ParseError::EndOfFile && final(self).pos() == old(self).pos()))
                &&& (s.len() > 0 && !(uleb_terminated(s) && uleb_value(s) <= u64::MAX)
                    ==> (r matches Err(e) && e == ParseError::InvalidData && final(self).pos()
                    == old(self).pos()))
                &&& (uleb_terminated(s) && uleb_value(s) <= u64::MAX ==> (r matches Ok(v) && (
                v as nat) == uleb_value(s) && final(self).pos() == old(self).pos() + uleb_len(s)))
            }),
    {
        proof {
            use_type_invariant(&*self);
        }
        match self.uleb_scan() {
            Err(e) => Err(e),
            Ok((v, n)) => {
                proof {
                    vstd::std_specs::vec::axiom_spec_len(&self.data);
                }
                self.pointer = self.pointer + n;
                Ok(v)
            },
        }
    }

    /// Reads an optional string transactionally: a `0x00` sentinel means
    /// absent; tag `0x0b` is followed by a ULEB128 byte length and that
    /// many UTF-8 bytes. On any failure after the tag byte the cursor is
    /// restored to where it was before the call.
    pub fn read_string(&mut self) -> (r: Result<Option<String>, ParseError>)
        ensures
            final(self).bytes() == old(self).bytes(),
            ({
                let s = old(self).suffix();
                match str_decode(s) {
                    Ok(v) => r matches Ok(rv) && rv.deep_view() == v.0 && final(self).pos()
                        == old(self).pos() + v.1,
                    Err(e) => r matches Err(re) && re == e && final(self).pos() == old(self).pos(),
                }
            }),
    {
        proof {
            use_type_invariant(&*self);
        }
        let ghost s: Seq<u8> = self.suffix();
        if self.pointer == self.data.len() {
            return Err(ParseError::EndOfFile);
        }
        let prior: usize = self.pointer;
        let flag: u8 = self.data[self.pointer];
        self.pointer = self.pointer + 1;
        if flag == 0x00 {
            return Ok(None);
        }
        if flag != 0x0b {
            self.pointer = prior;
            return Err(ParseError::InvalidData);
        }
        let ghost t: Seq<u8> = self.suffix();
        proof {
            assert(t =~= s.skip(1));
        }
        let len64: u64 = match self.read_uleb() {
            Err(e) => {
                self.pointer = prior;
                return Err(e);
            },
            Ok(v) => v,
        };
        proof {
            use_type_invariant(&*self);
        }
        let rem: usize = self.data.len() - self.pointer;
        if len64 > rem as u64 {
            self.pointer = prior;
            return Err(ParseError::EndOfFile);
        }
        let len: usize = len64 as usize;
        let start: usize = self.pointer;
        proof {
            vstd::std_specs::vec::axiom_spec_len(&self.data);
            assert(start as int == prior + 1 + uleb_len(t) as int);
            assert(t.len() == self.data@.len() - prior - 1);
            assert(uleb_len(t) + len as int <= t.len());
        }
        let mut body: Vec<u8> = Vec::new();
        let mut i: usize = 0;
        while i < len
            invariant
                i <= len,
                start + len <= self.data@.len(),
                self.data@.len() <= usize::MAX,
                body@ == self.data@.subrange(start as int, start + i),
            decreases len - i,
        {
            body.push(self.data[start + i]);
            i = i + 1;
            proof {
                assert(body@ =~= self.data@.subrange(start as int, start + i));
            }
        }
        let ghost bodyv: Seq<u8> = body@;
        proof {
            assert(bodyv =~= t.subrange(uleb_len(t) as int, uleb_len(t) + len as int));
        }
        match bytes_to_string(body) {
            None => {
                self.pointer = prior;
                Err(ParseError::InvalidData)
            },
            Some(st) => {
                self.pointer = start + len;
                proof {
                    vstd::utf8::encode_utf8_decode_utf8(st@);
                }
                Ok(Some(st))
            },
        }
    }
}

} // verus!
