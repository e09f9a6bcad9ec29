use std::io::{Cursor, ErrorKind, Write};

use webmetro::ebml::EbmlError::{CorruptVarint, UnknownElementId};
use webmetro::ebml::Varint::{Unknown, Value};
use webmetro::ebml::{
    decode_tag, decode_uint, decode_varint, encode_bytes, encode_element, encode_integer,
    encode_tag_header, encode_varint, encode_varint_4, EbmlError, FromEbml, GenericElement,
    Varint, WriteError,
};

fn write_varint<W: Write>(varint: Varint, output: &mut W) -> std::io::Result<()> {
    let mut bytes = Vec::new();
    encode_varint(varint, &mut bytes)
        .map_err(|_| std::io::Error::new(ErrorKind::InvalidInput, "EBML Varint out of range"))?;
    output.write_all(&bytes)
}

fn split_to(buffer: &mut Vec<u8>, n: usize) -> Vec<u8> {
    let rest = buffer.split_off(n);
    std::mem::replace(buffer, rest)
}

#[test]
fn fail_corrupted_varints() {
    assert_eq!(decode_varint(&[0]), Err(CorruptVarint));
    assert_eq!(decode_varint(&[0, 0, 0]), Err(CorruptVarint));
}

#[test]
fn incomplete_varints() {
    assert_eq!(decode_varint(&[]), Ok(None));
    assert_eq!(decode_varint(&[0x40]), Ok(None));
    assert_eq!(decode_varint(&[0x01, 0, 0]), Ok(None));
}

#[test]
fn parse_varints() {
    assert_eq!(decode_varint(&[0xFF]), Ok(Some((Unknown, 1))));
    assert_eq!(decode_varint(&[0x7F, 0xFF]), Ok(Some((Unknown, 2))));
    assert_eq!(decode_varint(&[0x80]), Ok(Some((Value(0), 1))));
    assert_eq!(decode_varint(&[0x81]), Ok(Some((Value(1), 1))));
    assert_eq!(decode_varint(&[0x40, 52]), Ok(Some((Value(52), 2))));

    // test extra data in buffer
    assert_eq!(decode_varint(&[0x83, 0x11]), Ok(Some((Value(3), 1))));
}

#[test]
fn encode_varints() {
    let mut buffer: Vec<u8> = Vec::with_capacity(10);

    let mut no_space = Cursor::new([0u8; 0]);
    let mut six_buffer = Cursor::new([0u8; 6]);

    // 1 byte
    write_varint(Varint::Unknown, &mut buffer).unwrap();
    assert_eq!(split_to(&mut buffer, 1), [0xFF]);
    assert_eq!(write_varint(Varint::Unknown, &mut no_space).unwrap_err().kind(), ErrorKind::WriteZero);

    write_varint(Varint::Value(0), &mut buffer).unwrap();
    assert_eq!(split_to(&mut buffer, 1), [0x80 | 0]);
    assert_eq!(write_varint(Varint::Value(0), &mut no_space).unwrap_err().kind(), ErrorKind::WriteZero);

    write_varint(Varint::Value(1), &mut buffer).unwrap();
    assert_eq!(split_to(&mut buffer, 1), [0x80 | 1]);
    assert_eq!(write_varint(Varint::Value(1), &mut no_space).unwrap_err().kind(), ErrorKind::WriteZero);

    write_varint(Varint::Value(126), &mut buffer).unwrap();
    assert_eq!(split_to(&mut buffer, 1), [0xF0 | 126]);
    assert_eq!(write_varint(Varint::Value(126), &mut no_space).unwrap_err().kind(), ErrorKind::WriteZero);

    // 2 bytes
    write_varint(Varint::Value(127), &mut buffer).unwrap();
    assert_eq!(split_to(&mut buffer, 2), [0x40, 127]);
    assert_eq!(write_varint(Varint::Value(127), &mut no_space).unwrap_err().kind(), ErrorKind::WriteZero);

    write_varint(Varint::Value(128), &mut buffer).unwrap();
    assert_eq!(split_to(&mut buffer, 2), [0x40, 128]);
    assert_eq!(write_varint(Varint::Value(128), &mut no_space).unwrap_err().kind(), ErrorKind::WriteZero);

    // 6 bytes
    write_varint(Varint::Value(0x03FFFFFFFFFE), &mut six_buffer).unwrap();
    assert_eq!(six_buffer.position(), 6);
    assert_eq!(six_buffer.get_ref(), &[0x07, 0xFF, 0xFF, 0xFF, 0xFF, 0xFE]);
    six_buffer = Cursor::new([0u8; 6]);

    // 7 bytes
    write_varint(Varint::Value(0x03FFFFFFFFFF), &mut buffer).unwrap();
    assert_eq!(split_to(&mut buffer, 7), [0x02, 0x03, 0xFF, 0xFF, 0xFF, 0xFF, 0xFF]);

    write_varint(Varint::Value(0x01000000000000), &mut buffer).unwrap();
    assert_eq!(split_to(&mut buffer, 7), [0x03, 0x00, 0x00, 0x00, 0x00, 0x00, 0x00]);

    write_varint(Varint::Value(0x01FFFFFFFFFFFE), &mut buffer).unwrap();
    assert_eq!(split_to(&mut buffer, 7), [0x03, 0xFF, 0xFF, 0xFF, 0xFF, 0xFF, 0xFE]);

    assert_eq!(write_varint(Varint::Value(0x01FFFFFFFFFFFE), &mut no_space).unwrap_err().kind(), ErrorKind::WriteZero);
    assert_eq!(write_varint(Varint::Value(0x01FFFFFFFFFFFE), &mut six_buffer).unwrap_err().kind(), ErrorKind::WriteZero);

    // no 8-byte encodings: from 2^49 - 1 on, values are out of range
    assert_eq!(write_varint(Varint::Value(0x01FFFFFFFFFFFF), &mut buffer).unwrap_err().kind(), ErrorKind::InvalidInput);
    assert_eq!(write_varint(Varint::Value(0xFFFFFFFFFFFFFE), &mut buffer).unwrap_err().kind(), ErrorKind::InvalidInput);
    assert_eq!(write_varint(Varint::Value(0xFFFFFFFFFFFFFF), &mut buffer).unwrap_err().kind(), ErrorKind::InvalidInput);
    assert_eq!(write_varint(Varint::Value(u64::max_value()), &mut buffer).unwrap_err().kind(), ErrorKind::InvalidInput);
    assert!(buffer.is_empty());
}

#[test]
fn fail_corrupted_tags() {
    assert_eq!(decode_tag(&[0]), Err(CorruptVarint));
    assert_eq!(decode_tag(&[0x80, 0]), Err(CorruptVarint));
    assert_eq!(decode_tag(&[0xFF, 0x80]), Err(UnknownElementId));
    assert_eq!(decode_tag(&[0x7F, 0xFF, 0x40, 0]), Err(UnknownElementId));
}

#[test]
fn incomplete_tags() {
    assert_eq!(decode_tag(&[]), Ok(None));
    assert_eq!(decode_tag(&[0x80]), Ok(None));
    assert_eq!(decode_tag(&[0x40, 0, 0x40]), Ok(None));
}

#[test]
fn parse_tags() {
    assert_eq!(decode_tag(&[0x80, 0x80]), Ok(Some((0, Value(0), 2))));
    assert_eq!(decode_tag(&[0x81, 0x85]), Ok(Some((1, Value(5), 2))));
    assert_eq!(decode_tag(&[0x80, 0xFF]), Ok(Some((0, Unknown, 2))));
    assert_eq!(decode_tag(&[0x80, 0x7F, 0xFF]), Ok(Some((0, Unknown, 3))));
    assert_eq!(decode_tag(&[0x85, 0x40, 52]), Ok(Some((5, Value(52), 3))));
}

#[test]
fn bad_uints() {
    assert_eq!(decode_uint(&[]), Err(EbmlError::CorruptPayload));
    assert_eq!(decode_uint(&[0; 9]), Err(EbmlError::CorruptPayload));
}

#[test]
fn parse_uints() {
    assert_eq!(decode_uint(&[0]), Ok(0));
    assert_eq!(decode_uint(&[0; 8]), Ok(0));
    assert_eq!(decode_uint(&[1]), Ok(1));
    assert_eq!(decode_uint(&[0, 0, 0, 0, 0, 0, 0, 1]), Ok(1));
    assert_eq!(decode_uint(&[38]), Ok(38));
    assert_eq!(decode_uint(&[0, 0, 0, 0, 0, 0, 0, 38]), Ok(38));
    assert_eq!(decode_uint(&[0x7F, 0xFF, 0xFF, 0xFF, 0xFF, 0xFF, 0xFF, 0xFF]), Ok(9223372036854775807));
    assert_eq!(decode_uint(&[0x80, 0, 0, 0, 0, 0, 0, 0]), Ok(9223372036854775808));
    assert_eq!(decode_uint(&[0x80, 0, 0, 0, 0, 0, 0, 1]), Ok(9223372036854775809));
}

/// An EBML header element whose size is written in eight bytes, as muxers do,
/// followed by the start of a segment.
fn test_file() -> Vec<u8> {
    let mut file = vec![0x1A, 0x45, 0xDF, 0xA3, 0x01, 0, 0, 0, 0, 0, 0, 0x1F];
    file.extend_from_slice(&[0x42, 0x86, 0x81, 0x01]);
    file.extend_from_slice(&[0x42, 0xF7, 0x81, 0x01]);
    file.extend_from_slice(&[0x42, 0xF2, 0x81, 0x04]);
    file.extend_from_slice(&[0x42, 0xF3, 0x81, 0x08]);
    file.extend_from_slice(&[0x42, 0x82, 0x84, b'w', b'e', b'b', b'm']);
    file.extend_from_slice(&[0x42, 0x87, 0x81, 0x02]);
    file.extend_from_slice(&[0x42, 0x85, 0x81, 0x02]);
    file.extend_from_slice(&[0x18, 0x53, 0x80, 0x67, 0x01, 0xFF, 0xFF, 0xFF, 0xFF, 0xFF, 0xFF, 0xFF]);
    file
}

#[test]
fn decode_sanity_test() {
    let file = test_file();
    let decoded = GenericElement::decode_element(&file);
    assert_eq!(decoded, Ok(Some((GenericElement(0x0A45DFA3, 31), 43))));
}

#[test]
fn varint_round_trip_values() {
    let values: [u64; 9] = [0, 1, 126, 127, 128, (1 << 7) - 2, (1 << 14) - 2, (1 << 28) - 2, (1 << 49) - 2];
    let sizes: [usize; 9] = [1, 1, 1, 2, 2, 1, 2, 4, 7];
    for (v, size) in values.iter().zip(sizes.iter()) {
        let mut out = Vec::new();
        encode_varint(Value(*v), &mut out).unwrap();
        assert_eq!(out.len(), *size);
        assert_eq!(decode_varint(&out), Ok(Some((Value(*v), *size))));
    }
    let mut out = Vec::new();
    assert_eq!(encode_varint(Value((1 << 49) - 1), &mut out), Err(WriteError::OutOfRange));
    assert!(out.is_empty());
    encode_varint(Unknown, &mut out).unwrap();
    assert_eq!(out, [0xFF]);
    assert_eq!(decode_varint(&out), Ok(Some((Unknown, 1))));
}

#[test]
fn tag_corruption_table() {
    assert_eq!(decode_tag(&[0x00]), Err(CorruptVarint));
    assert_eq!(decode_tag(&[0x80, 0x00]), Err(CorruptVarint));
    assert_eq!(decode_tag(&[0xFF, 0x80]), Err(UnknownElementId));
    assert_eq!(decode_tag(&[0x80, 0x80]), Ok(Some((0, Value(0), 2))));
    assert_eq!(decode_tag(&[0x85, 0x40, 52]), Ok(Some((5, Value(52), 3))));
}

#[test]
fn eight_byte_varints_decode() {
    assert_eq!(
        decode_varint(&[0x01, 0xFF, 0xFF, 0xFF, 0xFF, 0xFF, 0xFF, 0xFE]),
        Ok(Some((Value(0x00FF_FFFF_FFFF_FFFE), 8)))
    );
    assert_eq!(
        decode_varint(&[0x01, 0xFF, 0xFF, 0xFF, 0xFF, 0xFF, 0xFF, 0xFF]),
        Ok(Some((Unknown, 8)))
    );
}

#[test]
fn four_byte_varints() {
    let mut out = Vec::new();
    encode_varint_4(Value(5), &mut out).unwrap();
    assert_eq!(out, [0x10, 0x00, 0x00, 0x05]);
    out.clear();
    encode_varint_4(Unknown, &mut out).unwrap();
    assert_eq!(out, [0x1F, 0xFF, 0xFF, 0xFF]);
    out.clear();
    assert_eq!(encode_varint_4(Value(0x0FFF_FFFF), &mut out), Err(WriteError::OutOfRange));
    encode_varint_4(Value(0x0FFF_FFFE), &mut out).unwrap();
    assert_eq!(out, [0x1F, 0xFF, 0xFF, 0xFE]);
}

#[test]
fn element_writers() {
    let mut out = Vec::new();
    encode_tag_header(0x0A45DFA3, Unknown, &mut out).unwrap();
    assert_eq!(out, [0x1A, 0x45, 0xDF, 0xA3, 0xFF]);
    out.clear();
    encode_bytes(0x0282, b"webm", &mut out).unwrap();
    assert_eq!(out, [0x42, 0x82, 0x84, b'w', b'e', b'b', b'm']);
    out.clear();
    encode_integer(0x67, 1000, &mut out).unwrap();
    assert_eq!(out, [0xE7, 0x88, 0, 0, 0, 0, 0, 0, 0x03, 0xE8]);
    out.clear();
    encode_element(0x0A45DFA3, &mut out, &[1, 2, 3]).unwrap();
    assert_eq!(out, [0x1A, 0x45, 0xDF, 0xA3, 0x10, 0, 0, 3, 1, 2, 3]);
    out.clear();
    assert_eq!(encode_tag_header(1 << 49, Value(0), &mut out), Err(WriteError::OutOfRange));
    assert!(out.is_empty());
    assert_eq!(encode_element(1 << 49, &mut out, &[1]), Err(WriteError::OutOfRange));
    assert!(out.is_empty());
}

#[test]
fn tag_header_keeps_the_id_when_the_size_fails() {
    let mut out = vec![9];
    assert_eq!(encode_tag_header(0x0282, Value(1 << 49), &mut out), Err(WriteError::OutOfRange));
    assert_eq!(out, [9, 0x42, 0x82]);
}
