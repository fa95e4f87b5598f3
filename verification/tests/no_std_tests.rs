use rmp::encode::ByteBuf;
use rmpv::decode::read_value_ref;
use rmpv::encode::write_value;
use rmpv::Value;

fn encode(value: &Value) -> Vec<u8> {
    let mut writer = ByteBuf::new();
    write_value(&mut writer, value).unwrap();
    writer.into_vec()
}

#[test]
fn test_encode_decode_string() {
    let expected = Value::from_str("Hello World");
    let encoded = encode(&expected);
    let decoded = read_value_ref(&mut &encoded[..]).unwrap().to_owned();
    assert_eq!(expected, decoded);
}

#[test]
fn test_encode_decode_numbers() {
    let values = vec![
        Value::from(0),
        Value::from(-1),
        Value::from(42),
        Value::from(127),
        Value::from(128),
        Value::from(255),
        Value::from(256),
        Value::from(65535),
        Value::from(65536),
        Value::from(-128),
        Value::from(-129),
        Value::from(-32768),
        Value::from(-32769),
    ];
    for expected in values {
        let encoded = encode(&expected);
        let decoded = read_value_ref(&mut &encoded[..]).unwrap().to_owned();
        assert_eq!(expected, decoded);
    }
}

#[test]
fn test_encode_decode_array() {
    let expected = Value::Array(vec![
        Value::from(1),
        Value::from(2),
        Value::from(3),
        Value::from_str("test"),
    ]);
    let encoded = encode(&expected);
    let decoded = read_value_ref(&mut &encoded[..]).unwrap().to_owned();
    assert_eq!(expected, decoded);
}

#[test]
fn test_zero_copy_value_ref() {
    let expected = Value::from_str("zero copy");
    let encoded = encode(&expected);
    let value_ref = read_value_ref(&mut &encoded[..]).unwrap();
    assert_eq!(expected, value_ref.to_owned());
}
