use wirecodec::{decode, encode, DecodeError, Profile, Shape, Value};

const BOTH: [Profile; 2] = [Profile::LegacyFixed, Profile::StandardVarint];

fn text(s: &str) -> Value {
    Value::Text(s.as_bytes().to_vec())
}

fn message_shape() -> Shape {
    Shape::Enum(vec![
        Shape::Text,
        Shape::U32,
        Shape::Bool,
        Shape::Record(vec![Shape::Text, Shape::U32]),
    ])
}

fn message_data(content: &str, size: u32) -> Value {
    Value::Enum {
        index: 3,
        payload: Box::new(Value::Record(vec![text(content), Value::U32(size)])),
    }
}

fn person_shape() -> Shape {
    Shape::Record(vec![Shape::Text, Shape::U8, Shape::Bool])
}

fn person(name: &str, age: u8, active: bool) -> Value {
    Value::Record(vec![text(name), Value::U8(age), Value::Bool(active)])
}

fn catalogue_shape() -> Shape {
    Shape::Record(vec![
        Shape::U8,
        Shape::U16,
        Shape::U32,
        Shape::U64,
        Shape::I8,
        Shape::I16,
        Shape::I32,
        Shape::I64,
        Shape::F32,
        Shape::F64,
        Shape::Bool,
        Shape::Text,
        Shape::Sequence(Box::new(Shape::U32)),
        Shape::Sequence(Box::new(Shape::Text)),
        person_shape(),
        Shape::Record(vec![
            Shape::U32,
            Shape::F64,
            Shape::Sequence(Box::new(Shape::Text)),
            Shape::Dict(Box::new(Shape::Text), Box::new(Shape::Text)),
        ]),
        message_shape(),
        message_shape(),
        message_shape(),
        Shape::Tuple(vec![Shape::Text, Shape::U32, Shape::Bool]),
        Shape::Array(Box::new(Shape::U8), 5),
        Shape::Opt(Box::new(Shape::Text)),
        Shape::Opt(Box::new(Shape::Text)),
    ])
}

fn catalogue() -> Value {
    Value::Record(vec![
        Value::U8(255),
        Value::U16(65535),
        Value::U32(4294967295),
        Value::U64(18446744073709551615),
        Value::I8(-128),
        Value::I16(-32768),
        Value::I32(-2147483648),
        Value::I64(-9223372036854775808),
        Value::F32(3.14159f32.to_bits()),
        Value::F64(2.718281828459045f64.to_bits()),
        Value::Bool(true),
        text("Hello, Bincode!"),
        Value::Sequence((1..=5).map(Value::U32).collect()),
        Value::Sequence(vec![text("apple"), text("banana"), text("cherry")]),
        person("Alice", 30, true),
        Value::Record(vec![
            Value::U32(12345),
            Value::F64(98.5f64.to_bits()),
            Value::Sequence(vec![text("rust"), text("typescript"), text("bincode")]),
            Value::Dict(vec![(text("key1"), text("value1")), (text("key2"), text("value2"))]),
        ]),
        Value::Enum { index: 0, payload: Box::new(text("Hello from enum")) },
        Value::Enum { index: 1, payload: Box::new(Value::U32(42)) },
        message_data("Structured data", 1024),
        Value::Tuple(vec![text("tuple_test"), Value::U32(123), Value::Bool(false)]),
        Value::Array((1..=5).map(Value::U8).collect()),
        Value::Opt(Some(Box::new(text("Some value")))),
        Value::Opt(None),
    ])
}

#[test]
fn catalogue_round_trips_under_both_profiles() {
    for p in BOTH {
        let bytes = encode(p, &catalogue());
        let (v, n) = decode(p, &catalogue_shape(), &bytes).unwrap();
        assert_eq!(v, catalogue());
        assert_eq!(n, bytes.len());
    }
}

#[test]
fn legacy_fixed_widths() {
    let p = Profile::LegacyFixed;
    assert_eq!(encode(p, &Value::U64(u64::MAX)), vec![0xff; 8]);
    assert_eq!(encode(p, &Value::Bool(true)), vec![1]);
    assert_eq!(encode(p, &Value::Bool(false)), vec![0]);
    assert_eq!(encode(p, &Value::I8(i8::MIN)), vec![0x80]);
    assert_eq!(encode(p, &Value::U16(0x1234)), vec![0x34, 0x12]);
    assert_eq!(encode(p, &Value::I32(-1)), vec![0xff; 4]);
}

#[test]
fn varint_boundary() {
    let p = Profile::StandardVarint;
    assert_eq!(encode(p, &Value::U32(250)), vec![0xfa]);
    assert_eq!(encode(p, &Value::U32(251)), vec![251, 251, 0]);
    assert_eq!(encode(p, &Value::U16(u16::MAX)), vec![251, 0xff, 0xff]);
    assert_eq!(encode(p, &Value::U32(0x1_0000)), vec![252, 0, 0, 1, 0]);
    assert_eq!(encode(p, &Value::U64(u64::MAX)), vec![253, 0xff, 0xff, 0xff, 0xff, 0xff, 0xff, 0xff, 0xff]);
    assert_eq!(encode(p, &Value::U8(255)), vec![255]);
}

#[test]
fn signed_varints_use_zigzag() {
    let p = Profile::StandardVarint;
    assert_eq!(encode(p, &Value::I16(-1)), vec![1]);
    assert_eq!(encode(p, &Value::I16(1)), vec![2]);
    assert_eq!(encode(p, &Value::I16(i16::MIN)), vec![251, 0xff, 0xff]);
    assert_eq!(encode(p, &Value::I64(i64::MIN)), vec![253, 0xff, 0xff, 0xff, 0xff, 0xff, 0xff, 0xff, 0xff]);
    for x in [i32::MIN, -300, -1, 0, 1, 300, i32::MAX] {
        let bytes = encode(p, &Value::I32(x));
        assert_eq!(decode(p, &Shape::I32, &bytes), Ok((Value::I32(x), bytes.len())));
    }
}

#[test]
fn sequence_length_prefix() {
    let p = Profile::StandardVarint;
    let v = Value::Sequence((1..=5).map(Value::U32).collect());
    let mut bytes = encode(p, &v);
    assert_eq!(bytes, vec![5, 1, 2, 3, 4, 5]);
    bytes.extend_from_slice(&[9, 9]);
    let shape = Shape::Sequence(Box::new(Shape::U32));
    assert_eq!(decode(p, &shape, &bytes), Ok((v, 6)));
    let legacy = encode(Profile::LegacyFixed, &Value::Sequence(vec![Value::U32(7)]));
    assert_eq!(legacy, vec![1, 0, 0, 0, 0, 0, 0, 0, 7, 0, 0, 0]);
}

#[test]
fn enum_ordinal_of_last_variant() {
    let v = message_data("x", 2048);
    assert_eq!(&encode(Profile::LegacyFixed, &v)[..4], &[3, 0, 0, 0]);
    assert_eq!(encode(Profile::StandardVarint, &v)[0], 3);
    assert_eq!(encode(Profile::StandardVarint, &v), vec![3, 1, b'x', 251, 0, 8]);
}

#[test]
fn unicode_text_round_trips() {
    let s = "🦀 Rust + TypeScript = ❤️";
    assert!(s.len() > s.chars().count());
    for p in BOTH {
        let bytes = encode(p, &text(s));
        let prefix = if p == Profile::LegacyFixed { 8 } else { 1 };
        assert_eq!(bytes.len(), prefix + s.len());
        assert_eq!(bytes[0] as usize, s.len());
        assert_eq!(&bytes[prefix..], s.as_bytes());
        assert_eq!(decode(p, &Shape::Text, &bytes), Ok((text(s), bytes.len())));
    }
}

#[test]
fn absent_option_is_one_byte() {
    for p in BOTH {
        assert_eq!(encode(p, &Value::Opt(None)), vec![0]);
        let big = Shape::Opt(Box::new(catalogue_shape()));
        assert_eq!(decode(p, &big, &[0]), Ok((Value::Opt(None), 1)));
    }
    assert_eq!(encode(Profile::StandardVarint, &Value::Opt(Some(Box::new(text("a"))))), vec![1, 1, b'a']);
}

#[test]
fn every_truncation_is_reported() {
    for p in BOTH {
        let bytes = encode(p, &catalogue());
        for k in 0..bytes.len() {
            assert_eq!(decode(p, &catalogue_shape(), &bytes[..k]), Err(DecodeError::Truncated));
        }
    }
}

#[test]
fn empty_values() {
    for p in BOTH {
        assert_eq!(encode(p, &text("")).len(), if p == Profile::LegacyFixed { 8 } else { 1 });
        let empty = Value::Sequence(vec![]);
        let shape = Shape::Sequence(Box::new(Shape::Text));
        let bytes = encode(p, &empty);
        assert_eq!(decode(p, &shape, &bytes), Ok((empty, bytes.len())));
        assert_eq!(encode(p, &Value::Tuple(vec![])), Vec::<u8>::new());
        assert_eq!(decode(p, &Shape::Tuple(vec![]), &[]), Ok((Value::Tuple(vec![]), 0)));
    }
}

#[test]
fn invalid_discriminants() {
    for p in BOTH {
        assert_eq!(decode(p, &Shape::Bool, &[2]), Err(DecodeError::InvalidDiscriminant));
        assert_eq!(decode(p, &Shape::Opt(Box::new(Shape::U8)), &[2, 0]), Err(DecodeError::InvalidDiscriminant));
    }
    assert_eq!(decode(Profile::StandardVarint, &message_shape(), &[4]), Err(DecodeError::InvalidDiscriminant));
    assert_eq!(
        decode(Profile::LegacyFixed, &message_shape(), &[4, 0, 0, 0]),
        Err(DecodeError::InvalidDiscriminant)
    );
}

#[test]
fn invalid_text() {
    let p = Profile::StandardVarint;
    assert_eq!(decode(p, &Shape::Text, &[2, 0xff, 0xfe]), Err(DecodeError::InvalidText));
    assert_eq!(decode(p, &Shape::Text, &[2, 0xc3, 0xa9]), Ok((Value::Text(vec![0xc3, 0xa9]), 3)));
}

#[test]
fn oversized_varint_markers() {
    let p = Profile::StandardVarint;
    assert_eq!(decode(p, &Shape::U16, &[252, 0, 0, 1, 0]), Err(DecodeError::Overflow));
    assert_eq!(decode(p, &Shape::U64, &[254, 0]), Err(DecodeError::Overflow));
    assert_eq!(decode(p, &Shape::U64, &[255]), Err(DecodeError::Overflow));
    assert_eq!(decode(p, &Shape::U32, &[251, 5, 0]), Ok((Value::U32(5), 3)));
}

#[test]
fn truncated_fields() {
    let p = Profile::LegacyFixed;
    assert_eq!(decode(p, &Shape::U32, &[1, 2, 3]), Err(DecodeError::Truncated));
    assert_eq!(decode(p, &Shape::Text, &[5, 0, 0, 0, 0, 0, 0, 0, b'a']), Err(DecodeError::Truncated));
    assert_eq!(decode(Profile::StandardVarint, &Shape::U32, &[252, 1]), Err(DecodeError::Truncated));
}

#[test]
fn floats_keep_their_bits() {
    let nan = f64::from_bits(0x7ff8_0000_0000_1234);
    for p in BOTH {
        let bytes = encode(p, &Value::F64(nan.to_bits()));
        assert_eq!(bytes, 0x7ff8_0000_0000_1234u64.to_le_bytes().to_vec());
        assert_eq!(decode(p, &Shape::F64, &bytes), Ok((Value::F64(nan.to_bits()), 8)));
        assert_eq!(encode(p, &Value::F32(1.5f32.to_bits())), 1.5f32.to_le_bytes().to_vec());
    }
}
