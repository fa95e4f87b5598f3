use rmp::encode::ByteBuf;
use rmpv::decode::read_value_ref;
use rmpv::encode::write_value;
use rmpv::{Utf8String, Value, ValueRef};

/// A string of raw bytes that need not be UTF-8.
struct NonUtf8String(Vec<u8>);

impl NonUtf8String {
    fn new(bytes: Vec<u8>) -> Self {
        Self(bytes)
    }

    /// The MessagePack value of the string: a string, not a byte string.
    fn to_value(&self) -> Value {
        Value::String(Utf8String::from_bytes(self.0.clone()))
    }
}

fn encode(value: &Value) -> Vec<u8> {
    let mut writer = ByteBuf::new();
    write_value(&mut writer, value).unwrap();
    writer.into_vec()
}

#[test]
fn test_rmpv_to_value_non_utf8_string() {
    let expected = NonUtf8String::new(vec![0xff, 0xfe, 0xfd]);
    let value = expected.to_value();
    assert!(matches!(value, Value::String(_)));
    if let Value::String(s) = value {
        assert_eq!(s.as_bytes(), &[0xff, 0xfe, 0xfd]);
    } else {
        panic!("Expected Value::String");
    }
}

#[test]
fn test_rmpv_round_trip_non_utf8_string() {
    let expected = NonUtf8String::new(vec![0xff, 0xfe, 0xfd]);
    let value = expected.to_value();
    assert!(matches!(value, Value::String(_)));
    let buf = encode(&value);
    assert_eq!(buf, vec![0xa3, 0xff, 0xfe, 0xfd]);
    let decoded_value = read_value_ref(&mut &buf[..]).unwrap().to_owned();
    assert!(matches!(decoded_value, Value::String(_)));
    if let Value::String(s) = decoded_value {
        assert_eq!(s.as_bytes(), expected.0.as_slice());
    }
}

#[test]
fn test_rmpv_value_string_non_utf8_encode_decode() {
    let msgpack_bytes = vec![0xa3, 0xff, 0xfe, 0xfd];
    let value = read_value_ref(&mut &msgpack_bytes[..]).unwrap().to_owned();
    assert!(matches!(value, Value::String(_)));
    if let Value::String(ref s) = value {
        assert_eq!(s.as_bytes(), &[0xff, 0xfe, 0xfd]);
    } else {
        panic!("Expected Value::String");
    }
    let encoded_buf = encode(&value);
    assert_eq!(encoded_buf, msgpack_bytes);
    let decoded_again = read_value_ref(&mut &encoded_buf[..]).unwrap();
    assert!(matches!(decoded_again, ValueRef::String(_)));
    if let ValueRef::String(s) = decoded_again {
        assert_eq!(s.as_bytes(), &[0xff, 0xfe, 0xfd]);
    }
}
