//! Binary codec for the osu! serialization convention: a sequential reader
//! that decodes primitive values from a byte buffer and a writer that encodes
//! primitive values into a growing byte buffer, sharing one wire format:
//! little-endian fixed-width integers, single-byte booleans, unsigned LEB128
//! variable-length integers, and tagged optional UTF-8 strings.

mod reader;
mod wire;
mod writer;

pub use reader::OsuReader;
pub use wire::ParseError;
pub use wire::le_bytes;
pub use wire::le_value;
pub use wire::lemma_boolean_round_trip;
pub use wire::lemma_byte_round_trip;
pub use wire::lemma_le_round_trip;
pub use wire::lemma_le_value_bound;
pub use wire::lemma_pow128_mono;
pub use wire::lemma_pow256_mono;
pub use wire::lemma_string_round_trip;
pub use wire::lemma_uleb_round_trip;
pub use wire::pow128;
pub use wire::pow256;
pub use wire::str_decode;
pub use wire::string_bytes;
pub use wire::uleb_encode;
pub use wire::uleb_len;
pub use wire::uleb_terminated;
pub use wire::uleb_value;
pub use writer::OsuWriter;
