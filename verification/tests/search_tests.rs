use pybytes::bytes::PyBytes;
use pybytes::error::BytesError;
use pybytes::search::{Affix, ByteNeedle};

fn b(s: &[u8]) -> PyBytes {
    PyBytes::new(s.to_vec())
}

fn n(s: &[u8]) -> ByteNeedle {
    ByteNeedle::Bytes(s.to_vec())
}

#[test]
fn find_leftmost() {
    let x = b(b"abcabc");
    assert_eq!(x.find(&n(b"bc"), None, None), Ok(1));
    assert_eq!(x.find(&n(b"bc"), Some(2), None), Ok(4));
    assert_eq!(x.find(&n(b"bc"), Some(2), Some(5)), Ok(-1));
    assert_eq!(x.find(&n(b"zz"), None, None), Ok(-1));
    assert_eq!(x.find(&n(b""), None, None), Ok(0));
    assert_eq!(x.find(&n(b""), Some(6), None), Ok(6));
    assert_eq!(x.find(&n(b""), Some(7), None), Ok(-1));
    assert_eq!(x.find(&n(b"c"), Some(-2), None), Ok(5));
    assert_eq!(x.find(&ByteNeedle::Int(99), None, None), Ok(2));
}

#[test]
fn find_int_out_of_range() {
    let x = b(b"abc");
    assert_eq!(x.find(&ByteNeedle::Int(256), None, None), Err(BytesError::ByteOutOfRange));
    assert_eq!(x.find(&ByteNeedle::Int(-1), None, None), Err(BytesError::ByteOutOfRange));
}

#[test]
fn rfind_rightmost() {
    let x = b(b"abcabc");
    assert_eq!(x.rfind(&n(b"bc"), None, None), Ok(4));
    assert_eq!(x.rfind(&n(b"bc"), None, Some(5)), Ok(1));
    assert_eq!(x.rfind(&n(b""), None, None), Ok(6));
    assert_eq!(x.rfind(&n(b"x"), None, None), Ok(-1));
}

#[test]
fn index_and_rindex() {
    let x = b(b"abcabc");
    assert_eq!(x.index(&n(b"ca"), None, None), Ok(2));
    assert_eq!(x.rindex(&n(b"a"), None, None), Ok(3));
    assert_eq!(x.index(&n(b"x"), None, None), Err(BytesError::SubstringNotFound));
    assert_eq!(x.rindex(&n(b"x"), None, None), Err(BytesError::SubstringNotFound));
}

#[test]
fn count_non_overlapping() {
    let x = b(b"aaaa");
    assert_eq!(x.count(&n(b"aa"), None, None), Ok(2));
    assert_eq!(x.count(&n(b"a"), Some(1), Some(3)), Ok(2));
    assert_eq!(x.count(&n(b""), None, None), Ok(5));
    assert_eq!(x.count(&n(b""), Some(3), Some(1)), Ok(0));
    assert_eq!(x.count(&ByteNeedle::Int(97), None, None), Ok(4));
}

#[test]
fn contains_bytes_and_ints() {
    let x = b(b"hello");
    assert_eq!(x.contains(&n(b"ell")), Ok(true));
    assert_eq!(x.contains(&n(b"elo")), Ok(false));
    assert_eq!(x.contains(&n(b"")), Ok(true));
    assert_eq!(x.contains(&ByteNeedle::Int(104)), Ok(true));
    assert_eq!(x.contains(&ByteNeedle::Int(300)), Err(BytesError::ByteOutOfRange));
}

#[test]
fn find_agrees_with_contains() {
    let x = b(b"mississippi");
    for sub in [&b"ss"[..], b"pi", b"x", b"", b"mississippis"] {
        let found = x.find(&n(sub), None, None).unwrap() >= 0;
        assert_eq!(found, x.contains(&n(sub)).unwrap());
    }
}

#[test]
fn startswith_and_endswith() {
    let x = b(b"hello world");
    assert!(x.startswith(&Affix::One(b"hello".to_vec()), None, None));
    assert!(!x.startswith(&Affix::One(b"world".to_vec()), None, None));
    assert!(x.startswith(&Affix::One(b"world".to_vec()), Some(6), None));
    assert!(x.endswith(&Affix::One(b"world".to_vec()), None, None));
    assert!(x.endswith(&Affix::One(b"hello".to_vec()), None, Some(5)));
    assert!(x.startswith(&Affix::AnyOf(vec![b"x".to_vec(), b"he".to_vec()]), None, None));
    assert!(!x.endswith(&Affix::AnyOf(vec![]), None, None));
    assert!(x.startswith(&Affix::One(b"".to_vec()), Some(11), None));
    assert!(!x.startswith(&Affix::One(b"".to_vec()), Some(12), None));
    assert!(!x.endswith(&Affix::One(b"d".to_vec()), Some(3), Some(2)));
}
