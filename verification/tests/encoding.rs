use rmp::encode::ByteBuf;
use rmpv::encode::write_value;
use rmpv::{Integer, Utf8String, Value};

fn encode(value: &Value) -> Vec<u8> {
    let mut writer = ByteBuf::new();
    write_value(&mut writer, value).unwrap();
    writer.into_vec()
}

#[test]
fn encodes_nil_and_booleans() {
    assert_eq!(encode(&Value::Nil), vec![0xc0]);
    assert_eq!(encode(&Value::from(true)), vec![0xc3]);
    assert_eq!(encode(&Value::from(false)), vec![0xc2]);
}

#[test]
fn encodes_unsigned_integers_in_shortest_form() {
    assert_eq!(encode(&Value::from(0)), vec![0x00]);
    assert_eq!(encode(&Value::from(127)), vec![0x7f]);
    assert_eq!(encode(&Value::from(128)), vec![0xcc, 0x80]);
    assert_eq!(encode(&Value::from(255)), vec![0xcc, 0xff]);
    assert_eq!(encode(&Value::from(256)), vec![0xcd, 0x01, 0x00]);
    assert_eq!(encode(&Value::from(65535)), vec![0xcd, 0xff, 0xff]);
    assert_eq!(encode(&Value::from(65536)), vec![0xce, 0x00, 0x01, 0x00, 0x00]);
    assert_eq!(
        encode(&Value::from(0x1_0000_0000u64)),
        vec![0xcf, 0x00, 0x00, 0x00, 0x01, 0x00, 0x00, 0x00, 0x00]
    );
    assert_eq!(
        encode(&Value::from(u64::MAX)),
        vec![0xcf, 0xff, 0xff, 0xff, 0xff, 0xff, 0xff, 0xff, 0xff]
    );
}

#[test]
fn encodes_negative_integers_in_shortest_form() {
    assert_eq!(encode(&Value::from(-1)), vec![0xff]);
    assert_eq!(encode(&Value::from(-32)), vec![0xe0]);
    assert_eq!(encode(&Value::from(-33)), vec![0xd0, 0xdf]);
    assert_eq!(encode(&Value::from(-128)), vec![0xd0, 0x80]);
    assert_eq!(encode(&Value::from(-129)), vec![0xd1, 0xff, 0x7f]);
    assert_eq!(encode(&Value::from(-32768)), vec![0xd1, 0x80, 0x00]);
    assert_eq!(encode(&Value::from(-32769)), vec![0xd2, 0xff, 0xff, 0x7f, 0xff]);
    assert_eq!(
        encode(&Value::from(i64::MIN)),
        vec![0xd3, 0x80, 0x00, 0x00, 0x00, 0x00, 0x00, 0x00, 0x00]
    );
}

#[test]
fn encodes_floats_as_rmp_does() {
    let x: f32 = 1.5;
    let mut expected = Vec::new();
    rmp::encode::write_f32(&mut expected, x).unwrap();
    assert_eq!(encode(&Value::F32(x.to_bits())), expected);
    assert_eq!(expected, vec![0xca, 0x3f, 0xc0, 0x00, 0x00]);

    let y: f64 = -0.25;
    let mut expected = Vec::new();
    rmp::encode::write_f64(&mut expected, y).unwrap();
    assert_eq!(encode(&Value::F64(y.to_bits())), expected);
    assert_eq!(expected, vec![0xcb, 0xbf, 0xd0, 0, 0, 0, 0, 0, 0]);
}

#[test]
fn encodes_strings_with_their_length() {
    assert_eq!(encode(&Value::from_str("abc")), vec![0xa3, b'a', b'b', b'c']);
    assert_eq!(encode(&Value::from_str("")), vec![0xa0]);
    let s32 = "x".repeat(32);
    let bytes = encode(&Value::from_str(&s32));
    assert_eq!(&bytes[..2], &[0xd9, 32]);
    assert_eq!(bytes.len(), 34);
    let s256 = "y".repeat(256);
    let bytes = encode(&Value::from_str(&s256));
    assert_eq!(&bytes[..3], &[0xda, 0x01, 0x00]);
    assert_eq!(bytes.len(), 259);
    let s65536 = "z".repeat(65536);
    let bytes = encode(&Value::from_str(&s65536));
    assert_eq!(&bytes[..5], &[0xdb, 0x00, 0x01, 0x00, 0x00]);
}

#[test]
fn encodes_invalid_utf8_strings_as_strings() {
    let v = Value::String(Utf8String::from_bytes(vec![0xc3, 0x28]));
    assert_eq!(encode(&v), vec![0xa2, 0xc3, 0x28]);
}

#[test]
fn encodes_binary_and_ext() {
    assert_eq!(encode(&Value::Binary(vec![1, 2])), vec![0xc4, 0x02, 0x01, 0x02]);
    assert_eq!(encode(&Value::Binary(vec![])), vec![0xc4, 0x00]);
    assert_eq!(encode(&Value::Ext(5, vec![9])), vec![0xd4, 0x05, 0x09]);
    assert_eq!(encode(&Value::Ext(1, vec![0; 16]))[..2], [0xd8, 0x01]);
    assert_eq!(
        encode(&Value::Ext(-1, vec![1, 2, 3])),
        vec![0xc7, 0x03, 0xff, 0x01, 0x02, 0x03]
    );
    let bytes = encode(&Value::Ext(2, vec![0; 300]));
    assert_eq!(&bytes[..4], &[0xc8, 0x01, 0x2c, 0x02]);
}

#[test]
fn encodes_arrays_and_maps() {
    assert_eq!(
        encode(&Value::Array(vec![Value::from(1), Value::Nil])),
        vec![0x92, 0x01, 0xc0]
    );
    let sixteen: Vec<Value> = (0..16).map(|_| Value::Nil).collect();
    let bytes = encode(&Value::Array(sixteen));
    assert_eq!(&bytes[..3], &[0xdc, 0x00, 0x10]);
    assert_eq!(bytes.len(), 19);
    assert_eq!(
        encode(&Value::Mapping(vec![(Value::from(1), Value::from(true))])),
        vec![0x81, 0x01, 0xc3]
    );
    let entries: Vec<(Value, Value)> = (0..16).map(|i| (Value::from(i), Value::Nil)).collect();
    let bytes = encode(&Value::Mapping(entries));
    assert_eq!(&bytes[..3], &[0xde, 0x00, 0x10]);
}

#[test]
fn integers_report_their_ranges() {
    let i = Integer::from_i64(-5);
    assert!(i.is_i64());
    assert!(!i.is_u64());
    assert_eq!(i.as_i64(), Some(-5));
    assert_eq!(i.as_u64(), None);
    let u = Integer::from_u64(u64::MAX);
    assert!(!u.is_i64());
    assert_eq!(u.as_u64(), Some(u64::MAX));
    assert_eq!(u.as_i64(), None);
}

#[test]
fn appends_to_what_the_buffer_holds() {
    let mut writer = ByteBuf::new();
    write_value(&mut writer, &Value::from(1)).unwrap();
    write_value(&mut writer, &Value::from(2)).unwrap();
    assert_eq!(writer.as_slice(), &[0x01, 0x02]);
}
