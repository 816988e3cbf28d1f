use liborbit::{OsuReader, OsuWriter, ParseError};

// Round trips: write a value, read it back from the writer's bytes.

#[test]
fn round_trip_byte() {
    for v in [0u8, 1, 0x7f, 0x80, 0xff] {
        let mut w = OsuWriter::new();
        w.write_byte(v);
        let mut r = OsuReader::from_vec(w.into_vec());
        assert_eq!(r.read_byte(), Ok(v));
        assert_eq!(r.read_byte(), Err(ParseError::EndOfFile));
    }
}

#[test]
fn round_trip_short() {
    for v in [0u16, 1, 0xbeef, u16::MAX] {
        let mut w = OsuWriter::new();
        w.write_short(v);
        let mut r = OsuReader::from_vec(w.into_vec());
        assert_eq!(r.read_short(), Ok(v));
    }
}

#[test]
fn round_trip_int() {
    for v in [0u32, 1, 0xdead_beef, u32::MAX] {
        let mut w = OsuWriter::new();
        w.write_int(v);
        let mut r = OsuReader::from_vec(w.into_vec());
        assert_eq!(r.read_int(), Ok(v));
    }
}

#[test]
fn round_trip_long() {
    for v in [0u64, 1, 0x0123_4567_89ab_cdef, u64::MAX] {
        let mut w = OsuWriter::new();
        w.write_long(v);
        let mut r = OsuReader::from_vec(w.into_vec());
        assert_eq!(r.read_long(), Ok(v));
    }
}

#[test]
fn round_trip_boolean() {
    let mut w = OsuWriter::new();
    w.write_boolean(true);
    w.write_boolean(false);
    let bytes = w.into_vec();
    assert_eq!(bytes, vec![1, 0]);
    let mut r = OsuReader::from_vec(bytes);
    assert_eq!(r.read_boolean(), Ok(true));
    assert_eq!(r.read_boolean(), Ok(false));
}

#[test]
fn round_trip_uleb() {
    for v in [0u64, 1, 127, 128, 300, 16383, 16384, u64::MAX] {
        let mut w = OsuWriter::new();
        w.write_uleb(v);
        let mut r = OsuReader::from_vec(w.into_vec());
        assert_eq!(r.read_uleb(), Ok(v));
        assert_eq!(r.read_byte(), Err(ParseError::EndOfFile));
    }
}

#[test]
fn round_trip_float_bits() {
    // IEEE-754 values travel bit-for-bit through the integer codec.
    for v in [0.0f32, -1.5, f32::NAN, f32::INFINITY, f32::NEG_INFINITY] {
        let mut w = OsuWriter::new();
        w.write_int(v.to_bits());
        let mut r = OsuReader::from_vec(w.into_vec());
        assert_eq!(r.read_int(), Ok(v.to_bits()));
    }
    for v in [0.0f64, -2.25, f64::NAN, f64::INFINITY, f64::NEG_INFINITY] {
        let mut w = OsuWriter::new();
        w.write_long(v.to_bits());
        let mut r = OsuReader::from_vec(w.into_vec());
        assert_eq!(r.read_long(), Ok(v.to_bits()));
    }
}

// Exact byte layouts.

#[test]
fn little_endian_layout() {
    let mut w = OsuWriter::new();
    w.write_short(0x0201);
    w.write_int(0x0605_0403);
    w.write_long(0x0e0d_0c0b_0a09_0807);
    assert_eq!(
        w.into_vec(),
        vec![1, 2, 3, 4, 5, 6, 7, 8, 9, 10, 11, 12, 13, 14]
    );
}

#[test]
fn uleb_boundary_encodings() {
    let mut w = OsuWriter::new();
    w.write_uleb(0);
    assert_eq!(w.into_vec(), vec![0x00]);

    let mut w = OsuWriter::new();
    w.write_uleb(127);
    assert_eq!(w.into_vec(), vec![0x7f]);

    let mut w = OsuWriter::new();
    w.write_uleb(128);
    assert_eq!(w.into_vec(), vec![0x80, 0x01]);
}

#[test]
fn uleb_rejects_missing_terminator() {
    let mut r = OsuReader::from_vec(vec![0x80]);
    assert_eq!(r.read_uleb(), Err(ParseError::InvalidData));
    // the cursor did not move
    assert_eq!(r.read_byte(), Ok(0x80));

    let mut r = OsuReader::from_vec(vec![0xff, 0xff]);
    assert_eq!(r.read_uleb(), Err(ParseError::InvalidData));

    let mut r = OsuReader::from_vec(vec![]);
    assert_eq!(r.read_uleb(), Err(ParseError::EndOfFile));
}

#[test]
fn uleb_rejects_overflow() {
    // ten groups: payload 2 at bit position 63 does not fit in 64 bits
    let mut bytes = vec![0xff; 9];
    bytes.push(0x02);
    let mut r = OsuReader::from_vec(bytes);
    assert_eq!(r.read_uleb(), Err(ParseError::InvalidData));

    // an eleventh group with any payload is out of range
    let mut bytes = vec![0x80; 10];
    bytes.push(0x01);
    let mut r = OsuReader::from_vec(bytes);
    assert_eq!(r.read_uleb(), Err(ParseError::InvalidData));
}

#[test]
fn uleb_accepts_max_and_padded_zero() {
    // u64::MAX is exactly ten groups, the last with payload 1
    let mut bytes = vec![0xff; 9];
    bytes.push(0x01);
    let mut r = OsuReader::from_vec(bytes);
    assert_eq!(r.read_uleb(), Ok(u64::MAX));

    // a redundant continuation group with payload zero still decodes
    let mut r = OsuReader::from_vec(vec![0x80, 0x00, 0x2a]);
    assert_eq!(r.read_uleb(), Ok(0));
    assert_eq!(r.read_byte(), Ok(0x2a));
}

// Optional strings.

#[test]
fn string_absent_round_trip() {
    let mut w = OsuWriter::new();
    w.write_string(None);
    let bytes = w.into_vec();
    assert_eq!(bytes, vec![0x00]);
    let mut r = OsuReader::from_vec(bytes);
    assert_eq!(r.read_string(), Ok(None));
    // exactly one byte was consumed
    assert_eq!(r.read_byte(), Err(ParseError::EndOfFile));
}

#[test]
fn string_present_empty_round_trip() {
    let mut w = OsuWriter::new();
    w.write_string(Some(String::new()));
    let bytes = w.into_vec();
    assert_eq!(bytes, vec![0x0b, 0x00]);
    let mut r = OsuReader::from_vec(bytes);
    assert_eq!(r.read_string(), Ok(Some(String::new())));
}

#[test]
fn string_present_round_trip() {
    for s in ["hello", "caf\u{e9} \u{2713}", "\u{1f3b5} beat"] {
        let mut w = OsuWriter::new();
        w.write_string(Some(String::from(s)));
        w.write_byte(0x99);
        let mut r = OsuReader::from_vec(w.into_vec());
        assert_eq!(r.read_string(), Ok(Some(String::from(s))));
        assert_eq!(r.read_byte(), Ok(0x99));
    }
}

#[test]
fn string_long_length_prefix() {
    // 200 bytes of payload: the length itself takes two ULEB128 bytes
    let s = "a".repeat(200);
    let mut w = OsuWriter::new();
    w.write_string(Some(s.clone()));
    let bytes = w.into_vec();
    assert_eq!(bytes[0], 0x0b);
    assert_eq!(&bytes[1..3], &[0xc8, 0x01]);
    assert_eq!(bytes.len(), 3 + 200);
    let mut r = OsuReader::from_vec(bytes);
    assert_eq!(r.read_string(), Ok(Some(s)));
}

#[test]
fn string_malformed_tag() {
    let mut r = OsuReader::from_vec(vec![0x05, 0x01, 0x02]);
    assert_eq!(r.read_string(), Err(ParseError::InvalidData));
    // the cursor is unchanged: the same read fails identically
    assert_eq!(r.read_string(), Err(ParseError::InvalidData));
    assert_eq!(r.read_byte(), Ok(0x05));
}

#[test]
fn string_truncated_payload() {
    // tag, declared length 10, but only 5 bytes follow
    let mut r = OsuReader::from_vec(vec![0x0b, 0x0a, 1, 2, 3, 4, 5]);
    assert_eq!(r.read_string(), Err(ParseError::EndOfFile));
    // restored to before the tag byte
    assert_eq!(r.read_byte(), Ok(0x0b));
}

#[test]
fn string_truncated_length() {
    // tag, then a length whose continuation bit promises more bytes
    let mut r = OsuReader::from_vec(vec![0x0b, 0x80]);
    assert_eq!(r.read_string(), Err(ParseError::InvalidData));
    assert_eq!(r.read_byte(), Ok(0x0b));

    // tag and nothing after it at all
    let mut r = OsuReader::from_vec(vec![0x0b]);
    assert_eq!(r.read_string(), Err(ParseError::EndOfFile));
    assert_eq!(r.read_byte(), Ok(0x0b));
}

#[test]
fn string_invalid_utf8() {
    let mut r = OsuReader::from_vec(vec![0x0b, 0x02, 0xff, 0xfe]);
    assert_eq!(r.read_string(), Err(ParseError::InvalidData));
    assert_eq!(r.read_byte(), Ok(0x0b));
}

// Exhaustion on fixed-width reads.

#[test]
fn exhaustion_leaves_cursor() {
    let mut r = OsuReader::from_vec(vec![0x42]);
    assert_eq!(r.read_short(), Err(ParseError::EndOfFile));
    assert_eq!(r.read_int(), Err(ParseError::EndOfFile));
    assert_eq!(r.read_long(), Err(ParseError::EndOfFile));
    // the one byte is still there
    assert_eq!(r.read_byte(), Ok(0x42));
    assert_eq!(r.read_byte(), Err(ParseError::EndOfFile));
    assert_eq!(r.read_boolean(), Err(ParseError::EndOfFile));
}

// Construction interfaces.

#[test]
fn reader_from_bytes_copies() {
    let data = vec![7u8, 8, 9];
    let mut r = OsuReader::from_bytes(&data);
    assert_eq!(r.read_byte(), Ok(7));
    assert_eq!(r.read_byte(), Ok(8));
    assert_eq!(r.read_byte(), Ok(9));
}

#[test]
fn boolean_nonzero_is_true() {
    let mut r = OsuReader::from_vec(vec![0, 1, 2, 0xff]);
    assert_eq!(r.read_boolean(), Ok(false));
    assert_eq!(r.read_boolean(), Ok(true));
    assert_eq!(r.read_boolean(), Ok(true));
    assert_eq!(r.read_boolean(), Ok(true));
}

#[test]
fn writer_seeded_appends() {
    let mut w = OsuWriter::from_vec(vec![1, 2]);
    w.write_byte(3);
    assert_eq!(w.into_vec(), vec![1, 2, 3]);
}

#[test]
fn mixed_record_round_trip() {
    let mut w = OsuWriter::new();
    w.write_byte(0x11);
    w.write_short(0x2222);
    w.write_int(0x3333_3333);
    w.write_long(0x4444_4444_4444_4444);
    w.write_boolean(true);
    w.write_uleb(645);
    w.write_string(Some(String::from("osu")));
    w.write_string(None);
    let mut r = OsuReader::from_vec(w.into_vec());
    assert_eq!(r.read_byte(), Ok(0x11));
    assert_eq!(r.read_short(), Ok(0x2222));
    assert_eq!(r.read_int(), Ok(0x3333_3333));
    assert_eq!(r.read_long(), Ok(0x4444_4444_4444_4444));
    assert_eq!(r.read_boolean(), Ok(true));
    assert_eq!(r.read_uleb(), Ok(645));
    assert_eq!(r.read_string(), Ok(Some(String::from("osu"))));
    assert_eq!(r.read_string(), Ok(None));
    assert_eq!(r.read_byte(), Err(ParseError::EndOfFile));
}
