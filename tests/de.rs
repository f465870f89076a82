use resp::de::Deserializer;
use resp::ser::Serializer;
use resp::Error;

fn de(b: &[u8]) -> Deserializer {
    Deserializer::new(b.to_vec())
}

#[test]
fn reads_integers() {
    let mut d = de(b":-42\r\n:18446744073709551615\r\n:1\r\n:0\r\n");
    assert_eq!(d.read_i64(), Ok(-42));
    assert_eq!(d.read_u64(), Ok(u64::MAX));
    assert_eq!(d.read_bool(), Ok(true));
    assert_eq!(d.read_bool(), Ok(false));
    assert!(d.is_done());
}

#[test]
fn integer_errors_leave_cursor() {
    let mut d = de(b":-1\r\n");
    assert_eq!(d.read_u64(), Err(Error::BadInteger));
    assert_eq!(d.remaining(), 5);
    assert_eq!(d.read_i64(), Ok(-1));
    assert_eq!(de(b":007\r\n").read_i64(), Err(Error::BadInteger));
    assert_eq!(de(b":99999999999999999999\r\n").read_u64(), Err(Error::BadInteger));
    assert_eq!(de(b":9223372036854775808\r\n").read_i64(), Err(Error::BadInteger));
    assert_eq!(de(b":-9223372036854775808\r\n").read_i64(), Ok(i64::MIN));
    assert_eq!(de(b":2\r\n").read_bool(), Err(Error::BadInteger));
    assert_eq!(de(b":12").read_i64(), Err(Error::BadInteger));
}

#[test]
fn tag_errors() {
    assert_eq!(de(b"").read_i64(), Err(Error::Eof));
    assert_eq!(de(b"x1\r\n").read_i64(), Err(Error::BadTag));
    assert_eq!(de(b"+1\r\n").read_i64(), Err(Error::ShapeMismatch));
    assert_eq!(de(b":1\r\n").read_str(), Err(Error::ShapeMismatch));
    assert_eq!(de(b":1\r\n").read_unit(), Err(Error::ShapeMismatch));
    assert_eq!(de(b"?").read_unit(), Err(Error::BadTag));
    assert_eq!(de(b"").read_unit(), Err(Error::Eof));
}

#[test]
fn reads_text_in_both_forms() {
    let mut d = de(b"+hello\r\n$4\r\na\r\nb\r\n$0\r\n\r\n");
    assert_eq!(d.read_str().unwrap(), "hello");
    assert_eq!(d.read_str().unwrap(), "a\r\nb");
    assert_eq!(d.read_bytes().unwrap(), Vec::<u8>::new());
    assert!(d.is_done());
}

#[test]
fn text_errors() {
    assert_eq!(de(b"$5\r\nab\r\n").read_bytes(), Err(Error::BadFrame));
    assert_eq!(de(b"+ab\ncd\r\n").read_bytes(), Err(Error::BadFrame));
    assert_eq!(de(b"$-1\r\n").read_str(), Err(Error::BadFrame));
    let mut d = de(b"$2\r\n\xff\xfe\r\n");
    assert_eq!(d.read_str(), Err(Error::Utf8));
    assert_eq!(d.read_bytes(), Ok(vec![0xff, 0xfe]));
}

#[test]
fn reads_unit_and_options() {
    let mut d = de(b"$-1\r\n*0\r\n*1\r\n:5\r\n");
    assert_eq!(d.read_unit(), Ok(()));
    assert_eq!(d.read_option(), Ok(false));
    assert_eq!(d.read_option(), Ok(true));
    assert_eq!(d.read_i64(), Ok(5));
    assert_eq!(de(b"*2\r\n:1\r\n:2\r\n").read_option(), Err(Error::BadOptional));
}

#[test]
fn array_longer_than_input_is_truncated() {
    assert_eq!(de(b"*3\r\n:1\r\n").read_array_len(), Err(Error::Truncated));
    assert_eq!(de(b"*1000\r\n").read_array_len(), Err(Error::Truncated));
    let mut d = de(b"*2\r\n+a\r\n+b\r\n");
    assert_eq!(d.read_array_len(), Ok(2));
    assert_eq!(d.remaining(), 8);
}

#[test]
fn tuple_arity() {
    assert_eq!(de(b"*2\r\n:1\r\n:2\r\n").read_tuple(3), Err(Error::ArityMismatch));
    assert_eq!(de(b"*2\r\n:1\r\n:2\r\n").read_tuple(2), Ok(()));
}

#[test]
fn reads_variants() {
    let names = ["Unit", "Newtype", "Tuple", "Struct"];
    let mut d = de(b"+Unit\r\n*2\r\n+Tuple\r\n*2\r\n:1\r\n:2\r\n");
    assert_eq!(d.read_variant(&names), Ok((0, false)));
    assert_eq!(d.read_variant(&names), Ok((2, true)));
    assert_eq!(d.read_tuple(2), Ok(()));
    assert_eq!(d.read_u64(), Ok(1));
    assert_eq!(d.read_u64(), Ok(2));
    assert!(d.is_done());
    assert_eq!(de(b"+Other\r\n").read_variant(&names), Err(Error::UnknownVariant));
    assert_eq!(de(b"*3\r\n+Unit\r\n:1\r\n:2\r\n").read_variant(&names), Err(Error::ArityMismatch));
}

#[test]
fn round_trip_record() {
    let mut s = Serializer::new();
    s.serialize_struct(2);
    s.serialize_field("int");
    s.serialize_u32(1);
    s.serialize_field("seq");
    s.serialize_seq(Some(2)).unwrap();
    s.serialize_str("a");
    s.serialize_str("line\nbreak");
    let bytes = s.into_bytes();

    let mut d = Deserializer::new(bytes.clone());
    assert_eq!(d.read_tuple(2), Ok(()));
    assert_eq!(d.read_tuple(2), Ok(()));
    assert_eq!(d.read_str().unwrap(), "int");
    assert_eq!(d.read_u64(), Ok(1));
    assert_eq!(d.read_tuple(2), Ok(()));
    assert_eq!(d.read_str().unwrap(), "seq");
    assert_eq!(d.read_array_len(), Ok(2));
    let a = d.read_str().unwrap();
    let b = d.read_str().unwrap();
    assert_eq!((a.as_str(), b.as_str()), ("a", "line\nbreak"));
    assert!(d.is_done());

    // encoding the decoded values again gives the same bytes
    let mut s = Serializer::new();
    s.serialize_struct(2);
    s.serialize_field("int");
    s.serialize_u32(1);
    s.serialize_field("seq");
    s.serialize_seq(Some(2)).unwrap();
    s.serialize_str(&a);
    s.serialize_str(&b);
    assert_eq!(s.into_bytes(), bytes);
}

#[test]
fn peeks_frame_tag() {
    let d = de(b":1\r\n");
    assert_eq!(d.peek_tag(), Ok(b':'));
    assert_eq!(d.remaining(), 4);
    assert_eq!(de(b"*0\r\n").peek_tag(), Ok(b'*'));
    assert_eq!(de(b"").peek_tag(), Err(Error::Eof));
    assert_eq!(de(b"x").peek_tag(), Err(Error::BadTag));
}

#[test]
fn cut_off_sequence_fails_with_eof() {
    let mut d = de(b"*3\r\n:1\r\n:22\r\n");
    assert_eq!(d.read_array_len(), Ok(3));
    assert_eq!(d.read_i64(), Ok(1));
    assert_eq!(d.read_i64(), Ok(22));
    assert_eq!(d.read_i64(), Err(Error::Eof));
}
