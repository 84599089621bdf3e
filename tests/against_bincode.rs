use bincode::config::{legacy, standard};
use bincode::serde::encode_to_vec;
use wirecodec::{encode, Profile, Value};

fn text(s: &str) -> Value {
    Value::Text(s.as_bytes().to_vec())
}

fn both(v: &Value, legacy_bytes: Vec<u8>, standard_bytes: Vec<u8>) {
    assert_eq!(encode(Profile::LegacyFixed, v), legacy_bytes);
    assert_eq!(encode(Profile::StandardVarint, v), standard_bytes);
}

#[test]
fn primitives_match_bincode() {
    both(&Value::U8(255), encode_to_vec(255u8, legacy()).unwrap(), encode_to_vec(255u8, standard()).unwrap());
    both(&Value::U16(65535), encode_to_vec(65535u16, legacy()).unwrap(), encode_to_vec(65535u16, standard()).unwrap());
    both(&Value::U32(u32::MAX), encode_to_vec(u32::MAX, legacy()).unwrap(), encode_to_vec(u32::MAX, standard()).unwrap());
    both(&Value::U64(u64::MAX), encode_to_vec(u64::MAX, legacy()).unwrap(), encode_to_vec(u64::MAX, standard()).unwrap());
    both(&Value::I8(-128), encode_to_vec(-128i8, legacy()).unwrap(), encode_to_vec(-128i8, standard()).unwrap());
    both(&Value::I16(-32768), encode_to_vec(-32768i16, legacy()).unwrap(), encode_to_vec(-32768i16, standard()).unwrap());
    both(&Value::I32(i32::MIN), encode_to_vec(i32::MIN, legacy()).unwrap(), encode_to_vec(i32::MIN, standard()).unwrap());
    both(&Value::I64(i64::MIN), encode_to_vec(i64::MIN, legacy()).unwrap(), encode_to_vec(i64::MIN, standard()).unwrap());
    both(&Value::I32(1000), encode_to_vec(1000i32, legacy()).unwrap(), encode_to_vec(1000i32, standard()).unwrap());
    both(
        &Value::F32(3.14159f32.to_bits()),
        encode_to_vec(3.14159f32, legacy()).unwrap(),
        encode_to_vec(3.14159f32, standard()).unwrap(),
    );
    both(
        &Value::F64(2.718281828459045f64.to_bits()),
        encode_to_vec(2.718281828459045f64, legacy()).unwrap(),
        encode_to_vec(2.718281828459045f64, standard()).unwrap(),
    );
    both(&Value::Bool(true), encode_to_vec(true, legacy()).unwrap(), encode_to_vec(true, standard()).unwrap());
}

#[test]
fn collections_match_bincode() {
    let s = "🦀 Rust + TypeScript = ❤️";
    both(&text(s), encode_to_vec(s, legacy()).unwrap(), encode_to_vec(s, standard()).unwrap());
    let nums: Vec<u32> = vec![1, 2, 3, 4, 5];
    let v = Value::Sequence(nums.iter().map(|x| Value::U32(*x)).collect());
    both(&v, encode_to_vec(&nums, legacy()).unwrap(), encode_to_vec(&nums, standard()).unwrap());
    let arr: [u32; 4] = [100, 200, 300, 400];
    let v = Value::Array(arr.iter().map(|x| Value::U32(*x)).collect());
    both(&v, encode_to_vec(arr, legacy()).unwrap(), encode_to_vec(arr, standard()).unwrap());
    let tup = ("tuple_test".to_string(), 123u32, false);
    let v = Value::Tuple(vec![text("tuple_test"), Value::U32(123), Value::Bool(false)]);
    both(&v, encode_to_vec(&tup, legacy()).unwrap(), encode_to_vec(&tup, standard()).unwrap());
    let some: Option<String> = Some("Some value".to_string());
    let v = Value::Opt(Some(Box::new(text("Some value"))));
    both(&v, encode_to_vec(&some, legacy()).unwrap(), encode_to_vec(&some, standard()).unwrap());
    let none: Option<String> = None;
    both(&Value::Opt(None), encode_to_vec(&none, legacy()).unwrap(), encode_to_vec(&none, standard()).unwrap());
    let mut m = std::collections::BTreeMap::new();
    m.insert("key1".to_string(), "value1".to_string());
    m.insert("key2".to_string(), "value2".to_string());
    let v = Value::Dict(vec![(text("key1"), text("value1")), (text("key2"), text("value2"))]);
    both(&v, encode_to_vec(&m, legacy()).unwrap(), encode_to_vec(&m, standard()).unwrap());
}
