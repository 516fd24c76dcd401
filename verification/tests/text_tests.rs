use pybytes::bytes::PyBytes;
use pybytes::codec::BytesSource;
use pybytes::error::BytesError;

fn b(s: &[u8]) -> PyBytes {
    PyBytes::new(s.to_vec())
}

#[test]
fn hex_digits() {
    assert_eq!(b(b"\xde\xad\xbe\xef\x00\x0a").hex(), "deadbeef000a");
    assert_eq!(b(b"").hex(), "");
}

#[test]
fn fromhex_reads_pairs() {
    assert_eq!(PyBytes::fromhex("deadBEEF").unwrap().get_value(), b"\xde\xad\xbe\xef");
    assert_eq!(PyBytes::fromhex(" 01 02\t0a \n").unwrap().get_value(), b"\x01\x02\x0a");
    assert_eq!(PyBytes::fromhex("").unwrap().len(), 0);
}

#[test]
fn fromhex_errors_name_position() {
    assert_eq!(PyBytes::fromhex("0g").unwrap_err(), BytesError::NonHexadecimal(1));
    assert_eq!(PyBytes::fromhex("zz").unwrap_err(), BytesError::NonHexadecimal(0));
    assert_eq!(PyBytes::fromhex("012").unwrap_err(), BytesError::NonHexadecimal(3));
    assert_eq!(PyBytes::fromhex("0 1").unwrap_err(), BytesError::NonHexadecimal(1));
    assert_eq!(PyBytes::fromhex("é0").unwrap_err(), BytesError::NonHexadecimal(0));
}

#[test]
fn hex_roundtrip() {
    let x = b(b"\x00\x01\x7f\x80\xff hello");
    assert_eq!(PyBytes::fromhex(&x.hex()).unwrap().get_value(), x.get_value());
}

#[test]
fn repr_escapes() {
    assert_eq!(b(b"abc").repr(), "b'abc'");
    assert_eq!(b(b"a'b\\c").repr(), "b'a\\'b\\\\c'");
    assert_eq!(b(b"\t\n\r\x00\x7f\xff").repr(), "b'\\t\\n\\r\\x00\\x7f\\xff'");
    assert_eq!(b(b"").repr(), "b''");
}

#[test]
fn new_from_sources() {
    assert_eq!(PyBytes::tp_new(BytesSource::Nothing, None, None).unwrap().len(), 0);
    assert_eq!(PyBytes::tp_new(BytesSource::Count(3), None, None).unwrap().get_value(), b"\0\0\0");
    assert_eq!(PyBytes::tp_new(BytesSource::Ints(vec![104, 105]), None, None).unwrap().get_value(), b"hi");
    assert_eq!(PyBytes::tp_new(BytesSource::Buffer(b"xy".to_vec()), None, None).unwrap().get_value(), b"xy");
    assert_eq!(
        PyBytes::tp_new(BytesSource::Text("héllo".to_string()), Some("utf-8"), None).unwrap().get_value(),
        "héllo".as_bytes()
    );
    assert_eq!(
        PyBytes::tp_new(BytesSource::Text("abc".to_string()), Some("ASCII"), None).unwrap().get_value(),
        b"abc"
    );
}

#[test]
fn new_errors() {
    assert_eq!(PyBytes::tp_new(BytesSource::Count(-1), None, None).unwrap_err(), BytesError::NegativeCount);
    assert_eq!(PyBytes::tp_new(BytesSource::Ints(vec![1, 256]), None, None).unwrap_err(), BytesError::ByteOutOfRange);
    assert_eq!(PyBytes::tp_new(BytesSource::Ints(vec![-1]), None, None).unwrap_err(), BytesError::ByteOutOfRange);
    assert_eq!(
        PyBytes::tp_new(BytesSource::Text("x".to_string()), None, None).unwrap_err(),
        BytesError::StringWithoutEncoding
    );
    assert_eq!(
        PyBytes::tp_new(BytesSource::Count(2), Some("utf-8"), None).unwrap_err(),
        BytesError::EncodingWithoutString
    );
    assert_eq!(
        PyBytes::tp_new(BytesSource::Nothing, None, Some("strict")).unwrap_err(),
        BytesError::EncodingWithoutString
    );
    assert_eq!(
        PyBytes::tp_new(BytesSource::Text("x".to_string()), Some("klingon"), None).unwrap_err(),
        BytesError::UnknownEncoding
    );
    assert_eq!(
        PyBytes::tp_new(BytesSource::Text("aé".to_string()), Some("ascii"), None).unwrap_err(),
        BytesError::EncodeError(1)
    );
}

#[test]
fn ascii_encode_handlers() {
    let t = || BytesSource::Text("aéb".to_string());
    assert_eq!(PyBytes::tp_new(t(), Some("ascii"), Some("ignore")).unwrap().get_value(), b"ab");
    assert_eq!(PyBytes::tp_new(t(), Some("us_ascii"), Some("replace")).unwrap().get_value(), b"a?b");
    assert_eq!(PyBytes::tp_new(t(), Some("ascii"), Some("bogus")).unwrap_err(), BytesError::UnknownErrorHandler);
}

#[test]
fn decode_utf8() {
    assert_eq!(b("héllo".as_bytes()).decode(None, None).unwrap(), "héllo");
    assert_eq!(b(b"abc").decode(Some("UTF8"), None).unwrap(), "abc");
    assert_eq!(b(b"a\xffb").decode(None, None).unwrap_err(), BytesError::DecodeError(1));
    assert_eq!(b(b"\xc3\xa9\xff").decode(None, None).unwrap_err(), BytesError::DecodeError(2));
    assert_eq!(b(b"a\xffb\xfe").decode(None, Some("ignore")).unwrap(), "ab");
    assert_eq!(b(b"a\xe2\x82").decode(None, Some("ignore")).unwrap(), "a");
    assert_eq!(b(b"a\xe2\x82").decode(None, Some("replace")).unwrap(), "a\u{FFFD}");
    assert_eq!(b(b"\xe2\x82A\xff").decode(None, Some("replace")).unwrap(), "\u{FFFD}A\u{FFFD}");
    assert_eq!(b(b"a\xffb").decode(Some("utf_8"), Some("replace")).unwrap(), "a\u{FFFD}b");
    assert_eq!(b(b"a\xffb").decode(None, Some("nope")).unwrap_err(), BytesError::UnknownErrorHandler);
    assert_eq!(b(b"abc").decode(None, Some("nope")).unwrap(), "abc");
}

#[test]
fn decode_ascii() {
    assert_eq!(b(b"abc").decode(Some("ascii"), None).unwrap(), "abc");
    assert_eq!(b(b"a\xffb").decode(Some("ascii"), None).unwrap_err(), BytesError::DecodeError(1));
    assert_eq!(b(b"a\xffb").decode(Some("ascii"), Some("ignore")).unwrap(), "ab");
    assert_eq!(b(b"a\xffb").decode(Some("ascii"), Some("replace")).unwrap(), "a\u{FFFD}b");
    assert_eq!(b(b"abc").decode(Some("latin-9"), None).unwrap_err(), BytesError::UnknownEncoding);
}

#[test]
fn encode_then_decode_roundtrip() {
    for text in ["", "plain", "ünïcödé ✓"] {
        let v = PyBytes::tp_new(BytesSource::Text(text.to_string()), Some("utf-8"), None).unwrap();
        assert_eq!(v.decode(Some("utf-8"), None).unwrap(), text);
    }
    let v = PyBytes::tp_new(BytesSource::Text("ascii only".to_string()), Some("ascii"), None).unwrap();
    assert_eq!(v.decode(Some("ascii"), None).unwrap(), "ascii only");
}
