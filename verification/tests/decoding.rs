use std::io::Cursor;

use rmp::encode::ByteBuf;
use rmpv::decode::{read_value_ref, read_value_ref_with_max_depth, BorrowRead, Error, ErrorKind};
use rmpv::encode::{write_value, write_value_to_vec};
use rmpv::format::Marker;
use rmpv::{Utf8StringRef, Value, ValueRef};

fn encode(value: &Value) -> Vec<u8> {
    let mut writer = ByteBuf::new();
    write_value(&mut writer, value).unwrap();
    writer.into_vec()
}

#[test]
fn reads_a_string_without_copying() {
    let buf = [0xaa, 0x6c, 0x65, 0x20, 0x6d, 0x65, 0x73, 0x73, 0x61, 0x67, 0x65];
    let mut rd = &buf[..];
    let v = read_value_ref(&mut rd).unwrap();
    assert_eq!(v, ValueRef::String(Utf8StringRef::from_str("le message")));
    assert!(rd.is_empty());
    if let ValueRef::String(s) = v {
        assert_eq!(s.as_bytes().as_ptr(), buf[1..].as_ptr());
        assert_eq!(s.as_str(), Some("le message"));
    }
}

#[test]
fn marker_table_agrees_with_rmp() {
    for b in 0..=255u8 {
        let ours = format!("{:?}", Marker::from_u8(b));
        let theirs = format!("{:?}", rmp::Marker::from_u8(b));
        assert_eq!(ours, theirs, "byte {:#x}", b);
    }
}

#[test]
fn reads_the_reserved_marker_as_nil() {
    let buf = [0xc1];
    assert_eq!(read_value_ref(&mut &buf[..]).unwrap(), ValueRef::Nil);
}

#[test]
fn reads_integers_of_every_width() {
    let cases: Vec<(Vec<u8>, Value)> = vec![
        (vec![0x05], Value::from(5)),
        (vec![0xe0], Value::from(-32)),
        (vec![0xcc, 0xff], Value::from(255)),
        (vec![0xcd, 0x01, 0x00], Value::from(256)),
        (vec![0xce, 0x00, 0x01, 0x00, 0x00], Value::from(65536)),
        (vec![0xcf, 0xff, 0xff, 0xff, 0xff, 0xff, 0xff, 0xff, 0xff], Value::from(u64::MAX)),
        (vec![0xd0, 0x80], Value::from(-128)),
        (vec![0xd0, 0x05], Value::from(5)),
        (vec![0xd1, 0xff, 0x7f], Value::from(-129)),
        (vec![0xd2, 0xff, 0xff, 0x7f, 0xff], Value::from(-32769)),
        (vec![0xd3, 0x80, 0, 0, 0, 0, 0, 0, 0], Value::from(i64::MIN)),
        (vec![0xcd, 0x00, 0x01], Value::from(1)),
    ];
    for (bytes, expected) in cases {
        assert_eq!(read_value_ref(&mut &bytes[..]).unwrap().to_owned(), expected);
    }
}

#[test]
fn reads_floats_as_their_bits() {
    let bytes = [0xca, 0x3f, 0xc0, 0x00, 0x00];
    let v = read_value_ref(&mut &bytes[..]).unwrap();
    assert_eq!(v, ValueRef::F32(1.5f32.to_bits()));
    let bytes = [0xcb, 0xbf, 0xd0, 0, 0, 0, 0, 0, 0];
    let v = read_value_ref(&mut &bytes[..]).unwrap();
    assert_eq!(v, ValueRef::F64((-0.25f64).to_bits()));
}

#[test]
fn reads_binary_and_ext() {
    let bytes = [0xc4, 0x02, 0x07, 0x08];
    assert_eq!(read_value_ref(&mut &bytes[..]).unwrap(), ValueRef::Binary(&[7, 8]));
    let bytes = [0xd4, 0xff, 0x09];
    assert_eq!(read_value_ref(&mut &bytes[..]).unwrap(), ValueRef::Ext(-1, &[9]));
    let bytes = [0xc7, 0x02, 0x03, 0x0a, 0x0b];
    assert_eq!(read_value_ref(&mut &bytes[..]).unwrap(), ValueRef::Ext(3, &[10, 11]));
}

#[test]
fn reads_invalid_utf8_as_raw_string() {
    let bytes = [0xa2, 0xc3, 0x28];
    let v = read_value_ref(&mut &bytes[..]).unwrap();
    if let ValueRef::String(s) = v {
        assert!(s.is_err());
        assert!(!s.is_str());
        assert_eq!(s.as_str(), None);
        assert_eq!(s.as_bytes(), &[0xc3, 0x28]);
    } else {
        panic!("expected a string");
    }
}

#[test]
fn truncated_input_reports_the_read_that_failed() {
    // The data of a u16 is cut short: the marker was read, the data was not.
    let bytes = [0xcd, 0x01];
    let mut rd = &bytes[..];
    match read_value_ref(&mut rd) {
        Err(Error::InvalidDataRead(e)) => assert_eq!(e.kind(), std::io::ErrorKind::UnexpectedEof),
        other => panic!("unexpected result: {:?}", other),
    }
    assert_eq!(rd, &[0x01]);

    // Nothing at all: the marker cannot be read.
    let bytes: [u8; 0] = [];
    let mut rd = &bytes[..];
    match read_value_ref(&mut rd) {
        Err(Error::InvalidMarkerRead(e)) => assert_eq!(e.kind(), std::io::ErrorKind::UnexpectedEof),
        other => panic!("unexpected result: {:?}", other),
    }

    // A string shorter than its header says.
    let bytes = [0xa3, b'a'];
    let mut rd = &bytes[..];
    assert!(matches!(read_value_ref(&mut rd), Err(Error::InvalidDataRead(_))));
    assert_eq!(rd, &[b'a']);

    // An array of two elements that holds one: the second marker is missing.
    let bytes = [0x92, 0x01];
    let mut rd = &bytes[..];
    assert!(matches!(read_value_ref(&mut rd), Err(Error::InvalidMarkerRead(_))));
    assert!(rd.is_empty());

    // An extension value without its type byte.
    let bytes = [0xd4];
    assert!(matches!(read_value_ref(&mut &bytes[..]), Err(Error::InvalidDataRead(_))));

    // A map whose 16-bit length is cut short.
    let bytes = [0xde, 0x00];
    assert!(matches!(read_value_ref(&mut &bytes[..]), Err(Error::InvalidDataRead(_))));
}

#[test]
fn cursor_moves_by_what_was_consumed() {
    let bytes = [0xc3, 0xcd, 0x01, 0x2c, 0xcd, 0x01];
    let mut cursor = Cursor::new(&bytes[..]);
    cursor.set_position(1);
    assert_eq!(read_value_ref(&mut cursor).unwrap().to_owned(), Value::from(300));
    assert_eq!(cursor.position(), 4);
    // The u16 is cut short: only its marker is consumed.
    assert!(matches!(read_value_ref(&mut cursor), Err(Error::InvalidDataRead(_))));
    assert_eq!(cursor.position(), 5);
    assert_eq!(cursor.get_ref(), &&bytes[..]);
}

#[test]
fn cursor_may_be_moved_past_its_end() {
    let bytes = [0x01, 0x02];
    let mut cursor = Cursor::new(&bytes[..]);
    BorrowRead::consume(&mut cursor, 10);
    assert_eq!(cursor.position(), 10);
    assert!(BorrowRead::fill_buf(&cursor).is_empty());
    assert!(matches!(read_value_ref(&mut cursor), Err(Error::InvalidMarkerRead(_))));
}

#[test]
fn a_higher_depth_limit_keeps_what_a_lower_one_read() {
    let bytes = [0x91, 0x91, 0xc0, 0xc3];
    let mut rd1 = &bytes[..];
    let mut rd2 = &bytes[..];
    let low = read_value_ref_with_max_depth(&mut rd1, 5).unwrap();
    let high = read_value_ref_with_max_depth(&mut rd2, 500).unwrap();
    assert_eq!(low, high);
    assert_eq!(rd1, rd2);
    assert_eq!(rd1, &[0xc3]);

    // A failure that is not the depth limit stays the same failure.
    let bytes = [0x91, 0x91];
    let mut rd1 = &bytes[..];
    let mut rd2 = &bytes[..];
    assert!(matches!(read_value_ref_with_max_depth(&mut rd1, 5), Err(Error::InvalidMarkerRead(_))));
    assert!(matches!(read_value_ref_with_max_depth(&mut rd2, 500), Err(Error::InvalidMarkerRead(_))));
    assert_eq!(rd1, rd2);

    // Only the depth limit itself can give way to a result.
    let bytes = [0x91, 0x91, 0xc0];
    assert!(matches!(
        read_value_ref_with_max_depth(&mut &bytes[..], 4),
        Err(Error::DepthLimitExceeded)
    ));
    assert!(read_value_ref_with_max_depth(&mut &bytes[..], 5).is_ok());
}

#[test]
fn a_read_needs_the_depth_of_the_value_it_gives() {
    // An array with a 16-bit length (not the shortest form) holding one string: the array
    // needs two levels, the string three, five in all.
    let bytes = [0xdc, 0x00, 0x01, 0xa1, b'a', 0xc0];
    assert!(matches!(
        read_value_ref_with_max_depth(&mut &bytes[..], 4),
        Err(Error::DepthLimitExceeded)
    ));
    for depth in [5, 6, 100, usize::MAX] {
        let mut rd = &bytes[..];
        let v = read_value_ref_with_max_depth(&mut rd, depth).unwrap();
        assert_eq!(v.to_owned(), Value::Array(vec![Value::from_str("a")]));
        assert_eq!(rd, &[0xc0]);
    }
    // Binary data needs two levels, an integer one.
    assert!(matches!(read_value_ref_with_max_depth(&mut &[0xc4, 0x00][..], 1), Err(Error::DepthLimitExceeded)));
    assert!(read_value_ref_with_max_depth(&mut &[0xc4, 0x00][..], 2).is_ok());
    assert!(matches!(read_value_ref_with_max_depth(&mut &[0xcc, 0x05][..], 0), Err(Error::DepthLimitExceeded)));
    assert!(read_value_ref_with_max_depth(&mut &[0xcc, 0x05][..], 1).is_ok());
}

#[test]
fn reencoding_canonical_bytes_gives_them_back() {
    let inputs: Vec<Vec<u8>> = vec![
        vec![0xa3, 0xff, 0xfe, 0xfd],
        vec![0xcd, 0x01, 0x2c],
        vec![0x92, 0xc4, 0x01, 0x07, 0x81, 0xa1, b'k', 0xd4, 0x05, 0x09],
        vec![0xd0, 0x80],
        vec![0xca, 0x3f, 0x00, 0x00, 0x00],
    ];
    for bytes in inputs {
        let value = read_value_ref(&mut &bytes[..]).unwrap().to_owned();
        assert_eq!(write_value_to_vec(&value), bytes);
    }
    // Bytes that are not the shortest form are read, but written in the shortest form.
    let bytes = [0xcd, 0x00, 0x01];
    let value = read_value_ref(&mut &bytes[..]).unwrap().to_owned();
    assert_eq!(write_value_to_vec(&value), vec![0x01]);
}

#[test]
fn write_value_to_vec_gives_the_shortest_form() {
    assert_eq!(write_value_to_vec(&Value::from(300)), vec![0xcd, 0x01, 0x2c]);
    assert_eq!(write_value_to_vec(&Value::Nil), vec![0xc0]);
    assert_eq!(write_value_to_vec(&Value::from(-33)), vec![0xd0, 0xdf]);
    assert_eq!(encode(&Value::from_str("ab")), write_value_to_vec(&Value::from_str("ab")));
}

#[test]
fn depth_limit_refuses_deep_values() {
    // [[nil]] needs five levels: two for each array, one for the nil.
    let bytes = [0x91, 0x91, 0xc0];
    assert!(matches!(
        read_value_ref_with_max_depth(&mut &bytes[..], 4),
        Err(Error::DepthLimitExceeded)
    ));
    let v = read_value_ref_with_max_depth(&mut &bytes[..], 5).unwrap();
    assert_eq!(v, ValueRef::Array(vec![ValueRef::Array(vec![ValueRef::Nil])]));
    // A string needs three levels.
    let bytes = [0xa1, b'a'];
    assert!(read_value_ref_with_max_depth(&mut &bytes[..], 2).is_err());
    assert!(read_value_ref_with_max_depth(&mut &bytes[..], 3).is_ok());
    assert!(read_value_ref_with_max_depth(&mut &bytes[..], usize::MAX).is_ok());
    // Nesting beyond the default limit.
    let mut deep = vec![0x91u8; 600];
    deep.push(0xc0);
    assert!(read_value_ref(&mut &deep[..]).is_err());
}

#[test]
fn error_kinds() {
    let e: Error = Error::DepthLimitExceeded;
    assert_eq!(e.kind(), ErrorKind::Unsupported);
    let e: Error = Error::InvalidDataRead(std::io::Error::new(std::io::ErrorKind::Other, "x"));
    assert_eq!(e.kind(), ErrorKind::Other);
}

#[test]
fn values_written_one_after_another_are_read_one_after_another() {
    let first = Value::Mapping(vec![(
        Value::from_str("k"),
        Value::Array(vec![Value::Binary(vec![1, 2]), Value::Ext(7, vec![0; 3])]),
    )]);
    let second = Value::F64(2.0f64.to_bits());
    let mut bytes = encode(&first);
    bytes.extend(encode(&second));
    bytes.push(0xc0);
    let mut rd = &bytes[..];
    assert_eq!(read_value_ref(&mut rd).unwrap().to_owned(), first);
    assert_eq!(read_value_ref(&mut rd).unwrap().to_owned(), second);
    assert_eq!(rd, &[0xc0]);
}

#[test]
fn cursor_tells_how_much_was_read() {
    let value = Value::Array(vec![Value::from(300), Value::from_str("abc")]);
    let bytes = encode(&value);
    let mut cursor = Cursor::new(&bytes[..]);
    let v = read_value_ref(&mut cursor).unwrap();
    assert_eq!(v.to_owned(), value);
    assert_eq!(cursor.position() as usize, bytes.len());
    assert!(read_value_ref(&mut cursor).is_err());
}

#[test]
fn roundtrip_of_every_kind_of_value() {
    let value = Value::Array(vec![
        Value::Nil,
        Value::from(true),
        Value::from(-1000),
        Value::from(u64::MAX),
        Value::F32(0.5f32.to_bits()),
        Value::from_str("héllo"),
        Value::Binary(vec![0; 70000]),
        Value::Ext(-3, vec![1, 2]),
        Value::Mapping(vec![(Value::from(1), Value::Array(vec![]))]),
    ]);
    let bytes = encode(&value);
    assert_eq!(read_value_ref(&mut &bytes[..]).unwrap().to_owned(), value);
}

#[test]
fn a_read_depends_only_on_the_bytes_it_consumes() {
    let value = Value::Array(vec![Value::from_str("ab"), Value::Ext(1, vec![5, 6])]);
    let exact = encode(&value);
    let mut longer = exact.clone();
    longer.extend_from_slice(&[0xde, 0xad]);
    let a = read_value_ref(&mut &exact[..]).unwrap();
    let mut rd = &longer[..];
    let b = read_value_ref(&mut rd).unwrap();
    assert_eq!(a, b);
    assert_eq!(rd, &[0xde, 0xad]);
}

#[test]
fn clones_are_equal() {
    let value = Value::Mapping(vec![(
        Value::from_str("k"),
        Value::Array(vec![Value::Binary(vec![1]), Value::from(-7)]),
    )]);
    assert_eq!(value.clone(), value);
    let bytes = encode(&value);
    let v = read_value_ref(&mut &bytes[..]).unwrap();
    assert_eq!(v.clone(), v);
}

#[test]
fn strings_from_bytes_are_text_when_valid() {
    let s = rmpv::Utf8String::from_bytes("héllo".as_bytes().to_vec());
    assert!(s.is_str());
    assert_eq!(s.as_str(), Some("héllo"));
    let s = rmpv::Utf8String::from_bytes(vec![0xff]);
    assert!(s.is_err());
    assert_eq!(s.as_bytes(), &[0xff]);
}
