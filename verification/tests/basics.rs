use pybytes::bytes::PyBytes;
use pybytes::error::{BytesError, ExceptionKind};

fn b(s: &[u8]) -> PyBytes {
    PyBytes::new(s.to_vec())
}

#[test]
fn new_keeps_bytes() {
    let x = PyBytes::new(vec![1, 2, 3]);
    assert_eq!(x.get_value(), &[1u8, 2, 3][..]);
    assert_eq!(x.len(), 3);
}

#[test]
fn from_vec_keeps_bytes() {
    let x: PyBytes = PyBytes::from(b"abc".to_vec());
    assert_eq!(x.get_value(), b"abc");
}

#[test]
fn equality_compares_contents() {
    assert!(b(b"abc").eq(&b(b"abc")));
    assert!(!b(b"abc").eq(&b(b"abd")));
    assert!(!b(b"abc").eq(&b(b"ab")));
    assert!(b(b"").eq(&b(b"")));
}

#[test]
fn order_is_lexicographic() {
    assert!(b(b"abc").lt(&b(b"abd")));
    assert!(b(b"ab").lt(&b(b"abc")));
    assert!(!b(b"abc").lt(&b(b"abc")));
    assert!(b(b"").lt(&b(b"\x00")));
    assert!(b(b"b").gt(&b(b"abc")));
    assert!(b(b"abc").le(&b(b"abc")));
    assert!(b(b"abc").ge(&b(b"abc")));
    assert!(!b(b"abc").ge(&b(b"abd")));
    assert!(b(b"\xff").gt(&b(b"\x7f")));
}

#[test]
fn order_trichotomy_on_samples() {
    let samples: Vec<&[u8]> = vec![b"", b"a", b"ab", b"b", b"\x00", b"ba"];
    for x in &samples {
        for y in &samples {
            let (p, q) = (b(x), b(y));
            let n = [p.lt(&q), p.eq(&q), p.gt(&q)].iter().filter(|t| **t).count();
            assert_eq!(n, 1);
        }
    }
}

#[test]
fn add_concatenates() {
    let r = b(b"ab").add(&b(b"cd"));
    assert_eq!(r.get_value(), b"abcd");
    assert_eq!(b(b"").add(&b(b"")).len(), 0);
}

#[test]
fn repeat_copies() {
    assert_eq!(b(b"ab").repeat(3).unwrap().get_value(), b"ababab");
    assert_eq!(b(b"ab").repeat(0).unwrap().len(), 0);
    assert_eq!(b(b"ab").repeat(-4).unwrap().len(), 0);
    assert_eq!(b(b"").repeat(isize::MAX).unwrap().len(), 0);
}

#[test]
fn repeat_too_long_is_overflow() {
    let e = b(b"ab").repeat(isize::MAX).unwrap_err();
    assert_eq!(e, BytesError::RepeatedTooLong);
    assert_eq!(e.kind(), ExceptionKind::OverflowError);
}

#[test]
fn sizeof_counts_the_bytes() {
    let empty = b(b"").sizeof().unwrap();
    let four = b(b"abcd").sizeof().unwrap();
    assert_eq!(four, empty + 4);
    assert_eq!(empty, std::mem::size_of::<PyBytes>());
}

#[test]
fn hash_respects_equality() {
    assert_eq!(b(b"spam").hash(), b(b"spam").hash());
    assert_eq!(b(b"").hash(), PyBytes::new(Vec::new()).hash());
}

#[test]
fn error_kinds() {
    assert_eq!(BytesError::SubstringNotFound.kind(), ExceptionKind::ValueError);
    assert_eq!(BytesError::IndexOutOfRange.kind(), ExceptionKind::IndexError);
    assert_eq!(BytesError::FillCharLength.kind(), ExceptionKind::TypeError);
    assert_eq!(BytesError::UnknownEncoding.kind(), ExceptionKind::LookupError);
    assert_eq!(BytesError::DecodeError(3).kind(), ExceptionKind::UnicodeDecodeError);
    assert_eq!(BytesError::EncodeError(0).kind(), ExceptionKind::UnicodeEncodeError);
    assert_eq!(BytesError::ResultTooLong.kind(), ExceptionKind::OverflowError);
}
