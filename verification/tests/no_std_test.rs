use rmp::encode::ByteBuf;
use rmpv::decode::read_value_ref;
use rmpv::encode::write_value;
use rmpv::Value;

fn encode(value: &Value) -> Vec<u8> {
    let mut writer = ByteBuf::new();
    write_value(&mut writer, value).unwrap();
    writer.into_vec()
}

#[test]
fn test_value_encode_decode() {
    let value = Value::from_str("hello no_std");
    let encoded = encode(&value);
    let decoded = read_value_ref(&mut &encoded[..]).unwrap().to_owned();
    assert_eq!(value, decoded);
}

#[test]
fn test_value_ref() {
    let value = Value::from_str("zero copy");
    let encoded = encode(&value);
    let value_ref = read_value_ref(&mut &encoded[..]).unwrap();
    let decoded = value_ref.to_owned();
    assert_eq!(value, decoded);
}

#[test]
fn test_complex_value() {
    let array = vec![Value::from(1), Value::from(2), Value::from(3)];
    let expected = Value::Array(array);
    let encoded = encode(&expected);
    let decoded = read_value_ref(&mut &encoded[..]).unwrap().to_owned();
    assert_eq!(expected, decoded);
}
