use byteorder::{LittleEndian, ReadBytesExt, WriteBytesExt};
use serbf::error::SerbfError;
use serbf::varint::{decode_uint, encode_uint};
use varint_rs::{VarintReader, VarintWriter};

fn varint_bytes_of(n: u64) -> Vec<u8> {
    let mut v: Vec<u8> = Vec::new();
    encode_uint(&mut v, n).unwrap();
    v
}

#[test]
fn varint_round_trip_values() {
    let values: [u64; 8] = [0, 1, 127, 128, 16383, 16384, 4294967295, 18446744073709551615];
    for n in values {
        let bytes = varint_bytes_of(n);
        let (back, consumed) = decode_uint(&bytes, 0).unwrap();
        assert_eq!(back, n);
        assert_eq!(consumed, bytes.len());
    }
}

#[test]
fn varint_continuation_bits() {
    let values: [u64; 8] = [0, 1, 127, 128, 16383, 16384, 4294967295, 18446744073709551615];
    for n in values {
        let bytes = varint_bytes_of(n);
        for (i, b) in bytes.iter().enumerate() {
            if i + 1 < bytes.len() {
                assert!(*b >= 0x80);
            } else {
                assert!(*b < 0x80);
            }
        }
    }
}

#[test]
fn varint_known_encodings() {
    assert_eq!(varint_bytes_of(0), vec![0]);
    assert_eq!(varint_bytes_of(1), vec![1]);
    assert_eq!(varint_bytes_of(127), vec![127]);
    assert_eq!(varint_bytes_of(128), vec![128, 1]);
    assert_eq!(varint_bytes_of(16383), vec![255, 127]);
    assert_eq!(varint_bytes_of(16384), vec![128, 128, 1]);
}

#[test]
fn varint_truncated_fails_with_io() {
    let values: [u64; 4] = [128, 16384, 4294967295, 18446744073709551615];
    for n in values {
        let mut bytes = varint_bytes_of(n);
        bytes.pop();
        assert_eq!(decode_uint(&bytes, 0), Err(SerbfError::Io));
    }
    assert_eq!(decode_uint(&Vec::new(), 0), Err(SerbfError::Io));
}

#[test]
fn varint_overlong_value_fails_with_io() {
    // 2^64 exactly: eleven bytes of varint.
    let bytes: Vec<u8> = vec![128, 128, 128, 128, 128, 128, 128, 128, 128, 128, 2];
    assert_eq!(decode_uint(&bytes, 0), Err(SerbfError::Io));
}

#[test]
fn varint_agrees_with_outside_writer() {
    let values: [u64; 8] = [0, 1, 127, 128, 16383, 16384, 4294967295, 18446744073709551615];
    for n in values {
        let mut theirs: Vec<u8> = Vec::new();
        theirs.write_u64_varint(n).unwrap();
        assert_eq!(varint_bytes_of(n), theirs);

        let bytes = varint_bytes_of(n);
        let mut cursor = std::io::Cursor::new(&bytes[..]);
        assert_eq!(cursor.read_u64_varint().unwrap(), n);
    }
}

#[test]
fn fixed_width_agrees_with_outside_writer() {
    let mut serializer = serbf::ser::SerbfSerializer::new();
    serializer.serialize_u32(305419896).unwrap();
    serializer.serialize_i64(-1234567890123).unwrap();
    serializer.serialize_u16(513).unwrap();
    let ours = serializer.into_inner();

    let mut theirs: Vec<u8> = Vec::new();
    theirs.write_u32::<LittleEndian>(305419896).unwrap();
    theirs.write_i64::<LittleEndian>(-1234567890123).unwrap();
    theirs.write_u16::<LittleEndian>(513).unwrap();
    assert_eq!(ours, theirs);

    let mut cursor = std::io::Cursor::new(&ours[..]);
    assert_eq!(cursor.read_u32::<LittleEndian>().unwrap(), 305419896);
    assert_eq!(cursor.read_i64::<LittleEndian>().unwrap(), -1234567890123);
    assert_eq!(cursor.read_u16::<LittleEndian>().unwrap(), 513);
}

#[test]
fn scalar_methods_round_trip() {
    let mut serializer = serbf::ser::SerbfSerializer::new();
    serializer.serialize_bool(true).unwrap();
    serializer.serialize_u8(200).unwrap();
    serializer.serialize_i128(-170141183460469231731687303715884105728).unwrap();
    serializer.serialize_char('\u{1d11e}').unwrap();
    serializer.serialize_str("hello").unwrap();
    serializer.serialize_bytes(&[9, 8, 7]).unwrap();
    let buf = serializer.into_inner();

    let mut de = serbf::de::SerbfDeserializer::new(buf);
    assert_eq!(de.deserialize_bool().unwrap(), true);
    assert_eq!(de.deserialize_u8().unwrap(), 200);
    assert_eq!(
        de.deserialize_i128().unwrap(),
        -170141183460469231731687303715884105728
    );
    assert_eq!(de.deserialize_char().unwrap(), '\u{1d11e}');
    assert_eq!(de.deserialize_string().unwrap(), "hello".to_string());
    assert_eq!(de.deserialize_bytes().unwrap(), vec![9, 8, 7]);
}

#[test]
fn union_decoded_by_hand() {
    let mut serializer = serbf::ser::SerbfSerializer::new();
    serializer.serialize_unit_variant(1).unwrap();
    serializer.serialize_u16(300).unwrap();
    let buf = serializer.into_inner();

    let mut de = serbf::de::SerbfDeserializer::new(buf);
    let index = de.select_variant().unwrap();
    assert_eq!(index, 1);
    assert_eq!(de.deserialize_u16().unwrap(), 300);
}

#[test]
fn seq_iteration_driver() {
    let mut driver = serbf::de::SerbfSeqDeserializer::new(2);
    assert_eq!(driver.size_hint(), Some(2));
    assert!(driver.next_element());
    assert!(driver.next_element());
    assert!(!driver.next_element());
    assert!(!driver.next_element());
}
