use serbf::de::SerbfDeserializer;
use serbf::error::SerbfError;
use serbf::ser::SerbfSerializer;
use serbf::value::{Shape, Value};

fn encode(v: &Value) -> Vec<u8> {
    let mut serializer = SerbfSerializer::new();
    serializer.encode_value(v).unwrap();
    serializer.into_inner()
}

fn decode(bytes: Vec<u8>, s: &Shape) -> Result<Value, SerbfError> {
    let mut deserializer = SerbfDeserializer::new(bytes);
    deserializer.decode_value(s)
}

#[test]
fn ser() {
    let testy = Value::Record(vec![
        Value::U8(42),
        Value::U16(42),
        Value::U32(42),
        Value::U64(42),
        Value::U128(42),
        Value::I8(-42),
        Value::I16(-42),
        Value::I32(-42),
        Value::I64(-42),
        Value::I128(-42),
        Value::Bool(true),
        Value::Char('C'),
        Value::Str("Halloea Friend".to_string()),
        Value::Str("Nuauan".to_string()),
        Value::Present(Box::new(Value::U8(42))),
        Value::Sequence(vec![
            Value::U8(42),
            Value::U8(41),
            Value::U8(67),
            Value::U8(69),
            Value::U8(1),
            Value::U8(3),
            Value::U8(5),
            Value::U8(6),
            Value::U8(99),
            Value::U8(0),
            Value::U8(255),
        ]),
        Value::Tuple(vec![Value::U32(69), Value::I32(69)]),
        Value::Dict(vec![
            (Value::Str("-1".to_string()), Value::U32(1)),
            (Value::Str("42".to_string()), Value::U32(42)),
            (Value::Str("69".to_string()), Value::U32(69)),
        ]),
    ]);

    let mut serializer = SerbfSerializer::new();
    serializer.encode_value(&testy).unwrap();
    let buf = serializer.into_inner();

    println!("{:?}", buf)
}

#[test]
fn de() {
    let testy = Value::Record(vec![
        Value::U8(42),
        Value::U16(42),
        Value::U32(42),
        Value::U64(42),
        Value::U128(42),
        Value::I8(-42),
        Value::I16(-42),
        Value::I32(-42),
        Value::I64(-42),
        Value::I128(-42),
        Value::Bool(true),
        Value::Char('C'),
        Value::Str("Halloea Friend".to_string()),
    ]);

    let shape = Shape::Record(vec![
        Shape::U8,
        Shape::U16,
        Shape::U32,
        Shape::U64,
        Shape::U128,
        Shape::I8,
        Shape::I16,
        Shape::I32,
        Shape::I64,
        Shape::I128,
        Shape::Bool,
        Shape::Char,
        Shape::Str,
    ]);

    let mut deserializer = SerbfDeserializer::new(vec![
        42, 42, 0, 42, 0, 0, 0, 42, 0, 0, 0, 0, 0, 0, 0, 42, 0, 0, 0, 0, 0, 0, 0, 0, 0, 0, 0, 0,
        0, 0, 0, 214, 214, 255, 214, 255, 255, 255, 214, 255, 255, 255, 255, 255, 255, 255, 214,
        255, 255, 255, 255, 255, 255, 255, 255, 255, 255, 255, 255, 255, 255, 255, 1, 1, 67, 14,
        72, 97, 108, 108, 111, 101, 97, 32, 70, 114, 105, 101, 110, 100, 6, 78, 117, 97, 117, 97,
        110, 1, 42, 11, 42, 41, 67, 69, 1, 3, 5, 6, 99, 0, 255, 2, 69, 0, 0, 0, 69, 0, 0, 0, 3, 2,
        45, 49, 1, 0, 0, 0, 2, 52, 50, 42, 0, 0, 0, 2, 54, 57, 69, 0, 0, 0,
    ]);

    let res = deserializer.decode_value(&shape).unwrap();

    assert_eq!(testy, res);
}

#[test]
fn round_trip_scalars() {
    let cases: Vec<(Value, Shape)> = vec![
        (Value::Bool(false), Shape::Bool),
        (Value::Bool(true), Shape::Bool),
        (Value::U8(0), Shape::U8),
        (Value::U8(255), Shape::U8),
        (Value::U16(65535), Shape::U16),
        (Value::U32(4294967295), Shape::U32),
        (Value::U64(18446744073709551615), Shape::U64),
        (Value::U128(u128::MAX), Shape::U128),
        (Value::I8(-128), Shape::I8),
        (Value::I8(127), Shape::I8),
        (Value::I16(-32768), Shape::I16),
        (Value::I32(i32::MIN), Shape::I32),
        (Value::I64(i64::MIN), Shape::I64),
        (Value::I128(i128::MIN), Shape::I128),
        (Value::I128(i128::MAX), Shape::I128),
        (Value::Char('A'), Shape::Char),
        (Value::Char('\u{e9}'), Shape::Char),
        (Value::Char('\u{20ac}'), Shape::Char),
        (Value::Char('\u{1d11e}'), Shape::Char),
        (Value::Str(String::new()), Shape::Str),
        (Value::Str("ascii and \u{e9}\u{20ac}\u{1d11e}".to_string()), Shape::Str),
        (Value::Bytes(vec![]), Shape::Bytes),
        (Value::Bytes(vec![0, 1, 254, 255]), Shape::Bytes),
        (Value::Unit, Shape::Unit),
    ];
    for (v, s) in cases {
        let bytes = encode(&v);
        let back = decode(bytes, &s).unwrap();
        assert_eq!(v, back);
    }
}

#[test]
fn round_trip_nested() {
    let v = Value::Record(vec![
        Value::Present(Box::new(Value::Sequence(vec![
            Value::Tuple(vec![Value::U8(1), Value::Str("x".to_string())]),
            Value::Tuple(vec![Value::U8(2), Value::Str("yy".to_string())]),
        ]))),
        Value::Union(1, Box::new(Value::Record(vec![Value::Bool(true), Value::I64(-7)]))),
        Value::Dict(vec![
            (Value::Str("k1".to_string()), Value::Sequence(vec![Value::U16(513)])),
            (Value::Str("k2".to_string()), Value::Sequence(vec![])),
        ]),
    ]);
    let s = Shape::Record(vec![
        Shape::Optional(Box::new(Shape::Sequence(Box::new(Shape::Tuple(vec![
            Shape::U8,
            Shape::Str,
        ]))))),
        Shape::Union(vec![
            Shape::Unit,
            Shape::Record(vec![Shape::Bool, Shape::I64]),
        ]),
        Shape::Dict(
            Box::new(Shape::Str),
            Box::new(Shape::Sequence(Box::new(Shape::U16))),
        ),
    ]);
    let bytes = encode(&v);
    let back = decode(bytes, &s).unwrap();
    assert_eq!(v, back);
}

#[test]
fn fixed_width_u32_and_bool() {
    assert_eq!(encode(&Value::U32(0x12345678)), vec![0x78, 0x56, 0x34, 0x12]);
    assert_eq!(encode(&Value::U32(0)), vec![0, 0, 0, 0]);
    assert_eq!(encode(&Value::Bool(true)), vec![1]);
    assert_eq!(encode(&Value::Bool(false)), vec![0]);
}

#[test]
fn fixed_width_signed() {
    assert_eq!(encode(&Value::I8(-1)), vec![0xFF]);
    assert_eq!(encode(&Value::I8(-42)), vec![214]);
    assert_eq!(encode(&Value::I32(-2)), vec![0xFE, 0xFF, 0xFF, 0xFF]);
    assert_eq!(encode(&Value::I16(-42)), vec![214, 255]);
}

#[test]
fn truncated_buffer_fails_with_io() {
    let cases: Vec<(Value, Shape)> = vec![
        (Value::Str("hi".to_string()), Shape::Str),
        (Value::U32(7), Shape::U32),
        (Value::Present(Box::new(Value::U8(7))), Shape::Optional(Box::new(Shape::U8))),
        (
            Value::Sequence(vec![Value::U8(1), Value::U8(2), Value::U8(3)]),
            Shape::Sequence(Box::new(Shape::U8)),
        ),
        (
            Value::Dict(vec![(Value::U8(1), Value::U16(2))]),
            Shape::Dict(Box::new(Shape::U8), Box::new(Shape::U16)),
        ),
    ];
    for (v, s) in cases {
        let mut bytes = encode(&v);
        assert!(!bytes.is_empty());
        bytes.pop();
        assert_eq!(decode(bytes, &s), Err(SerbfError::Io));
    }
}

#[test]
fn empty_buffer_fails_with_io() {
    assert_eq!(decode(vec![], &Shape::Bool), Err(SerbfError::Io));
    assert_eq!(decode(vec![], &Shape::U64), Err(SerbfError::Io));
    assert_eq!(decode(vec![], &Shape::Str), Err(SerbfError::Io));
}

#[test]
fn bad_optional_discriminant() {
    assert_eq!(
        decode(vec![2, 7], &Shape::Optional(Box::new(Shape::U8))),
        Err(SerbfError::InvalidDiscriminant)
    );
    assert_eq!(
        decode(vec![255], &Shape::Optional(Box::new(Shape::U8))),
        Err(SerbfError::InvalidDiscriminant)
    );
}

#[test]
fn bad_union_index() {
    let s = Shape::Union(vec![Shape::Unit, Shape::U8]);
    assert_eq!(decode(vec![2], &s), Err(SerbfError::InvalidDiscriminant));
    assert_eq!(decode(vec![200, 1], &s), Err(SerbfError::InvalidDiscriminant));
}

#[test]
fn bad_bool_discriminant() {
    assert_eq!(decode(vec![2], &Shape::Bool), Err(SerbfError::InvalidDiscriminant));
}

#[test]
fn invalid_utf8_fails() {
    assert_eq!(decode(vec![1, 0xFF], &Shape::Str), Err(SerbfError::InvalidUtf8));
    assert_eq!(
        decode(vec![2, 0xC3, 0x28], &Shape::Str),
        Err(SerbfError::InvalidUtf8)
    );
    assert_eq!(decode(vec![1, 0x80], &Shape::Char), Err(SerbfError::InvalidUtf8));
}

#[test]
fn empty_char_payload_is_invalid_char() {
    assert_eq!(decode(vec![0], &Shape::Char), Err(SerbfError::InvalidChar));
}

#[test]
fn record_wire_bytes() {
    let v = Value::Record(vec![
        Value::U8(42),
        Value::Bool(true),
        Value::Str("hi".to_string()),
    ]);
    assert_eq!(encode(&v), vec![42, 1, 2, b'h', b'i']);
}

#[test]
fn optional_round_trip() {
    let some = Value::Present(Box::new(Value::U8(7)));
    let s = Shape::Optional(Box::new(Shape::U8));
    assert_eq!(decode(encode(&some), &s).unwrap(), some);
    assert_eq!(encode(&some), vec![1, 7]);

    let none = Value::Absent;
    assert_eq!(decode(encode(&none), &s).unwrap(), none);
    assert_eq!(encode(&none), vec![0]);
}

#[test]
fn sequence_wire_bytes() {
    let v = Value::Sequence(vec![Value::U8(1), Value::U8(2), Value::U8(3)]);
    let s = Shape::Sequence(Box::new(Shape::U8));
    let bytes = encode(&v);
    assert_eq!(bytes, vec![3, 1, 2, 3]);
    assert_eq!(decode(bytes, &s).unwrap(), v);
}

#[test]
fn union_wire_bytes() {
    let unit_variant = Value::Union(0, Box::new(Value::Unit));
    let s = Shape::Union(vec![Shape::Unit, Shape::U16]);
    assert_eq!(encode(&unit_variant), vec![0]);
    assert_eq!(decode(vec![0], &s).unwrap(), unit_variant);

    let payload_variant = Value::Union(1, Box::new(Value::U16(300)));
    assert_eq!(encode(&payload_variant), vec![1, 44, 1]);
    assert_eq!(decode(vec![1, 44, 1], &s).unwrap(), payload_variant);
}

#[test]
fn map_wire_bytes() {
    let v = Value::Dict(vec![
        (Value::U8(1), Value::Bool(true)),
        (Value::U8(2), Value::Bool(false)),
    ]);
    let s = Shape::Dict(Box::new(Shape::U8), Box::new(Shape::Bool));
    let bytes = encode(&v);
    assert_eq!(bytes, vec![2, 1, 1, 2, 0]);
    assert_eq!(decode(bytes, &s).unwrap(), v);
}

#[test]
fn empty_composites() {
    let empty_seq = Value::Sequence(vec![]);
    let seq_shape = Shape::Sequence(Box::new(Shape::U8));
    assert_eq!(encode(&empty_seq), vec![0]);
    assert_eq!(decode(vec![0], &seq_shape).unwrap(), empty_seq);

    let empty_map = Value::Dict(vec![]);
    let map_shape = Shape::Dict(Box::new(Shape::Str), Box::new(Shape::U8));
    assert_eq!(encode(&empty_map), vec![0]);
    assert_eq!(decode(vec![0], &map_shape).unwrap(), empty_map);

    let empty_record = Value::Record(vec![]);
    let record_shape = Shape::Record(vec![]);
    assert_eq!(encode(&empty_record), Vec::<u8>::new());
    assert_eq!(decode(vec![], &record_shape).unwrap(), empty_record);
}

#[test]
fn trailing_bytes_are_left_unread() {
    let mut de = SerbfDeserializer::new(vec![7, 99, 99, 99]);
    let res = de.decode_value(&Shape::U8).unwrap();
    assert_eq!(res, Value::U8(7));
}

#[test]
fn char_wire_bytes() {
    assert_eq!(encode(&Value::Char('A')), vec![1, 65]);
    assert_eq!(encode(&Value::Char('\u{20ac}')), vec![3, 0xE2, 0x82, 0xAC]);
}

#[test]
fn char_takes_first_scalar_of_payload() {
    let res = decode(vec![2, b'h', b'i'], &Shape::Char).unwrap();
    assert_eq!(res, Value::Char('h'));
}
