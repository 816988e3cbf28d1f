//! The encoding half of the codec: `OsuWriter` owns a growable byte buffer
//! and appends the wire encoding of each written value. No operation fails.

use crate::wire::{le_bytes, string_bytes, uleb_encode};
use vstd::prelude::*;
use vstd::string::StringSliceAdditionalSpecFns;
use vstd::utf8::encode_utf8;

verus! {

/// Encoder for the wire format, appending to an owned byte buffer that only
/// ever grows.
pub struct OsuWriter {
    data: Vec<u8>,
}

impl OsuWriter {
    /// The bytes accumulated so far.
    pub closed spec fn bytes(&self) -> Seq<u8> {
        self.data@
    }

    /// A writer with an empty buffer.
    pub fn new() -> (w: Self)
        ensures
            w.bytes().len() == 0,
    {
        Self::from_vec(Vec::new())
    }

    /// A writer pre-seeded with `data`; everything written is appended
    /// after it.
    pub fn from_vec(data: Vec<u8>) -> (w: Self)
        ensures
            w.bytes() == data@,
    {
        Self { data }
    }

    /// Hands back the accumulated buffer when encoding is complete.
    pub fn into_vec(self) -> (v: Vec<u8>)
        ensures
            v@ == self.bytes(),
    {
        self.data
    }

    /// Appends one byte.
    pub fn write_byte(&mut self, val: u8)
        ensures
            final (self).bytes() == old(self).bytes() + seq![val],
    {
        self.data.push(val);
        proof {
            assert(self.data@ =~= old(self).data@ + seq![val]);
        }
    }

    /// Appends the `width` little-endian bytes of `val`.
    fn write_le(&mut self, val: u64, width: usize)
        requires
            val < crate::wire::pow256(width as nat),
        ensures
            final (self).bytes() == old(self).bytes() + le_bytes(val as nat, width as nat),
    {
        let mut v: u64 = val;
        let mut i: usize = 0;
        let ghost mut written: Seq<u8> = Seq::empty();
        proof {
            assert(written + le_bytes(v as nat, width as nat) =~= le_bytes(
                val as nat,
                width as nat,
            ));
        }
        while i < width
            invariant
                i <= width,
                self.bytes() == old(self).bytes() + written,
                written + le_bytes(v as nat, (width - i) as nat) == le_bytes(
                    val as nat,
                    width as nat,
                ),
            decreases width - i,
        {
            let b: u8 = (v % 256) as u8;
            self.data.push(b);
            proof {
                assert(le_bytes(v as nat, (width - i) as nat) == seq![b] + le_bytes(
                    (v / 256) as nat,
                    (width - i - 1) as nat,
                ));
                assert((written + seq![b]) + le_bytes((v / 256) as nat, (width - i - 1) as nat)
                    =~= written + le_bytes(v as nat, (width - i) as nat));
                written = written + seq![b];
                assert(self.data@ =~= old(self).data@ + written);
            }
            v = v / 256;
            i = i + 1;
        }
        proof {
            assert(written + le_bytes(v as nat, 0) =~= written);
        }
    }

    /// Appends the two little-endian bytes of an unsigned 16-bit value.
    pub fn write_short(&mut self, val: u16)
        ensures
            final (self).bytes() == old(self).bytes() + le_bytes(val as nat, 2),
    {
        proof {
            crate::wire::lemma_pow256_values();
        }
        self.write_le(val as u64, 2);
    }

    /// Appends the four little-endian bytes of an unsigned 32-bit value.
    pub fn write_int(&mut self, val: u32)
        ensures
            final (self).bytes() == old(self).bytes() + le_bytes(val as nat, 4),
    {
        proof {
            crate::wire::lemma_pow256_values();
        }
        self.write_le(val as u64, 4);
    }

    /// Appends the eight little-endian bytes of an unsigned 64-bit value.
    pub fn write_long(&mut self, val: u64)
        ensures
            final (self).bytes() == old(self).bytes() + le_bytes(val as nat, 8),
    {
        proof {
            crate::wire::lemma_pow256_values();
        }
        self.write_le(val, 8);
    }

    /// Appends the ULEB128 encoding of `val`: seven bits per byte, least
    /// significant group first, continuation bit set on all but the last
    /// byte, no trailing padding.
    pub fn write_uleb(&mut self, val: u64)
        ensures
            final (self).bytes() == old(self).bytes() + uleb_encode(val as nat),
    {
        let mut v: u64 = val;
        let ghost mut written: Seq<u8> = Seq::empty();
        proof {
            assert(written + uleb_encode(v as nat) =~= uleb_encode(val as nat));
        }
        while v >= 128
            invariant
                self.bytes() == old(self).bytes() + written,
                written + uleb_encode(v as nat) == uleb_encode(val as nat),
            decreases v,
        {
            let b: u8 = (128 + v % 128) as u8;
            self.data.push(b);
            proof {
                assert(uleb_encode(v as nat) == seq![b] + uleb_encode((v / 128) as nat));
                assert((written + seq![b]) + uleb_encode((v / 128) as nat) =~= written
                    + uleb_encode(v as nat));
                written = written + seq![b];
                assert(self.data@ =~= old(self).data@ + written);
            }
            v = v / 128;
        }
        self.data.push(v as u8);
        proof {
            assert(uleb_encode(v as nat) =~= seq![v as u8]);
            assert(self.data@ =~= old(self).data@ + (written + seq![v as u8]));
        }
    }

    /// Appends 1 for true, 0 for false, through the byte writer.
    pub fn write_boolean(&mut self, val: bool)
        ensures
            final (self).bytes() == old(self).bytes() + seq![(if val { 1u8 } else { 0u8 })],
    {
        self.write_byte(if val { 1 } else { 0 })
    }

    /// Appends an optional string: the single sentinel byte `0x00` for
    /// `None`; tag `0x0b`, the ULEB128 byte length, then the raw UTF-8
    /// bytes for `Some`.
    pub fn write_string(&mut self, val: Option<String>)
        ensures
            final (self).bytes() == old(self).bytes() + string_bytes(val.deep_view()),
    {
        match val {
            None => {
                self.write_byte(0x00);
                proof {
                    assert(old(self).bytes() + seq![0x00u8] =~= old(self).bytes() + string_bytes(
                        None,
                    ));
                }
            },
            Some(s) => {
                self.write_byte(0x0b);
                let bytes: &[u8] = s.as_str().as_bytes();
                let len: u64 = bytes.len() as u64;
                self.write_uleb(len);
                let ghost base: Seq<u8> = old(self).bytes() + seq![0x0bu8] + uleb_encode(
                    len as nat,
                );
                proof {
                    assert(bytes@ == encode_utf8(s@));
                    assert(self.bytes() =~= base + bytes@.take(0));
                }
                let mut i: usize = 0;
                while i < bytes.len()
                    invariant
                        i <= bytes@.len(),
                        bytes@ == encode_utf8(s@),
                        self.bytes() == base + bytes@.take(i as int),
                    decreases bytes@.len() - i,
                {
                    self.data.push(bytes[i]);
                    i = i + 1;
                    proof {
                        assert(self.data@ =~= base + bytes@.take(i as int));
                    }
                }
                proof {
                    assert(bytes@.take(bytes@.len() as int) =~= bytes@);
                    assert(base + bytes@ =~= old(self).bytes() + string_bytes(Some(s@)));
                }
            },
        }
    }
}

} // verus!
