use resp::ser::Serializer;
use resp::Error;

#[test]
fn test_struct() {
    // struct Test { int: u32, seq: Vec<&str> } with { int: 1, seq: ["a", "b"] }
    let mut s = Serializer::new();
    s.serialize_struct(2);
    s.serialize_field("int");
    s.serialize_u32(1);
    s.serialize_field("seq");
    s.serialize_seq(Some(2)).unwrap();
    s.serialize_str("a");
    s.serialize_str("b");
    let expected = "*2\r\n*2\r\n+int\r\n:1\r\n*2\r\n+seq\r\n*2\r\n+a\r\n+b\r\n";
    assert_eq!(s.into_string().unwrap(), expected);
}

#[test]
fn test_enum() {
    let mut s = Serializer::new();
    s.serialize_unit_variant("Unit");
    let expected = "+Unit\r\n";
    assert_eq!(s.into_string().unwrap(), expected);

    let mut s = Serializer::new();
    s.serialize_newtype_variant("Newtype");
    s.serialize_u32(1);
    let expected = "*2\r\n+Newtype\r\n:1\r\n";
    assert_eq!(s.into_string().unwrap(), expected);

    let mut s = Serializer::new();
    s.serialize_tuple_variant("Tuple", 2);
    s.serialize_u32(1);
    s.serialize_u32(2);
    let expected = "*2\r\n+Tuple\r\n*2\r\n:1\r\n:2\r\n";
    assert_eq!(s.into_string().unwrap(), expected);

    let mut s = Serializer::new();
    s.serialize_struct_variant("Struct", 1);
    s.serialize_field("a");
    s.serialize_u32(1);
    let expected = "*2\r\n+Struct\r\n*1\r\n*2\r\n+a\r\n:1\r\n";
    assert_eq!(s.into_string().unwrap(), expected);
}

fn encoded(f: impl FnOnce(&mut Serializer)) -> Vec<u8> {
    let mut s = Serializer::new();
    f(&mut s);
    s.into_bytes()
}

#[test]
fn none_is_empty_array() {
    assert_eq!(encoded(|s| s.serialize_none()), b"*0\r\n".to_vec());
}

#[test]
fn some_five_is_one_element_array() {
    let out = encoded(|s| {
        s.serialize_some();
        s.serialize_i32(5);
    });
    assert_eq!(out, b"*1\r\n:5\r\n".to_vec());
}

#[test]
fn unit_is_null_bulk_string() {
    assert_eq!(encoded(|s| s.serialize_unit()), b"$-1\r\n".to_vec());
    assert_eq!(encoded(|s| s.serialize_unit_struct()), b"$-1\r\n".to_vec());
}

#[test]
fn integers_in_decimal() {
    assert_eq!(encoded(|s| s.serialize_i64(-42)), b":-42\r\n".to_vec());
    assert_eq!(encoded(|s| s.serialize_i64(0)), b":0\r\n".to_vec());
    assert_eq!(encoded(|s| s.serialize_i64(i64::MIN)), b":-9223372036854775808\r\n".to_vec());
    assert_eq!(encoded(|s| s.serialize_u64(u64::MAX)), b":18446744073709551615\r\n".to_vec());
    assert_eq!(encoded(|s| s.serialize_i8(-128)), b":-128\r\n".to_vec());
    assert_eq!(encoded(|s| s.serialize_u8(255)), b":255\r\n".to_vec());
    assert_eq!(encoded(|s| s.serialize_i16(300)), b":300\r\n".to_vec());
    assert_eq!(encoded(|s| s.serialize_u16(7)), b":7\r\n".to_vec());
}

#[test]
fn booleans_as_one_and_zero() {
    assert_eq!(encoded(|s| s.serialize_bool(true)), b":1\r\n".to_vec());
    assert_eq!(encoded(|s| s.serialize_bool(false)), b":0\r\n".to_vec());
}

#[test]
fn text_without_line_break_is_simple_string() {
    assert_eq!(encoded(|s| s.serialize_str("hello world")), b"+hello world\r\n".to_vec());
    assert_eq!(encoded(|s| s.serialize_str("")), b"+\r\n".to_vec());
}

#[test]
fn text_with_line_break_is_bulk_string() {
    assert_eq!(encoded(|s| s.serialize_str("a\r\nb")), b"$4\r\na\r\nb\r\n".to_vec());
    assert_eq!(encoded(|s| s.serialize_str("x\n")), b"$2\r\nx\n\r\n".to_vec());
}

#[test]
fn char_and_multibyte_text() {
    assert_eq!(encoded(|s| s.serialize_char('é')), "+é\r\n".as_bytes().to_vec());
    assert_eq!(encoded(|s| s.serialize_char('z')), b"+z\r\n".to_vec());
}

#[test]
fn bytes_are_always_bulk() {
    assert_eq!(encoded(|s| s.serialize_bytes(b"abc")), b"$3\r\nabc\r\n".to_vec());
    assert_eq!(encoded(|s| s.serialize_bytes(b"")), b"$0\r\n\r\n".to_vec());
}

#[test]
fn map_of_entries() {
    let out = encoded(|s| {
        s.serialize_map(Some(2)).unwrap();
        s.serialize_entry();
        s.serialize_str("k");
        s.serialize_i64(1);
        s.serialize_entry();
        s.serialize_str("j");
        s.serialize_i64(2);
    });
    assert_eq!(out, b"*2\r\n*2\r\n+k\r\n:1\r\n*2\r\n+j\r\n:2\r\n".to_vec());
}

#[test]
fn tuples_are_arrays() {
    let out = encoded(|s| {
        s.serialize_tuple(2);
        s.serialize_i64(1);
        s.serialize_tuple_struct(0);
    });
    assert_eq!(out, b"*2\r\n:1\r\n*0\r\n".to_vec());
}

#[test]
fn unknown_length_fails() {
    let mut s = Serializer::new();
    assert_eq!(s.serialize_seq(None), Err(Error::LenNotKnown));
    assert_eq!(s.serialize_map(None), Err(Error::LenNotKnown));
    assert!(s.into_bytes().is_empty());
}

#[test]
fn invalid_utf8_output_is_rejected() {
    let mut s = Serializer::new();
    s.serialize_bytes(&[0xff, 0xfe]);
    assert_eq!(s.into_string(), Err(Error::Utf8));
}

#[test]
fn error_descriptions() {
    assert_eq!(Error::LenNotKnown.as_str(), "other error");
    assert_eq!(Error::Truncated.as_str(), "other error");
    assert_eq!(Error::Utf8.as_str(), "other error");
    assert_eq!(Error::Msg("x".to_string()).as_str(), "other error");
}
