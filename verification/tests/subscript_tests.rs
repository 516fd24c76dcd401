use pybytes::bytes::PyBytes;
use pybytes::error::BytesError;
use pybytes::subscript::{Item, Subscript};

fn b(s: &[u8]) -> PyBytes {
    PyBytes::new(s.to_vec())
}

fn slice(x: &PyBytes, start: Option<isize>, stop: Option<isize>, step: Option<isize>) -> Vec<u8> {
    x.get_slice(start, stop, step).unwrap().get_value().to_vec()
}

#[test]
fn index_positive_and_negative() {
    let x = b(b"abc");
    assert_eq!(x.get_index(0), Ok(b'a'));
    assert_eq!(x.get_index(-1), Ok(b'c'));
    assert_eq!(x.get_index(3), Err(BytesError::IndexOutOfRange));
    assert_eq!(x.get_index(-4), Err(BytesError::IndexOutOfRange));
}

#[test]
fn slices_forward() {
    let x = b(b"0123456789");
    assert_eq!(slice(&x, None, None, None), b"0123456789".to_vec());
    assert_eq!(slice(&x, Some(2), Some(5), None), b"234".to_vec());
    assert_eq!(slice(&x, Some(-3), None, None), b"789".to_vec());
    assert_eq!(slice(&x, None, None, Some(3)), b"0369".to_vec());
    assert_eq!(slice(&x, Some(5), Some(2), None), b"".to_vec());
    assert_eq!(slice(&x, Some(-100), Some(100), Some(4)), b"048".to_vec());
}

#[test]
fn slices_backward() {
    let x = b(b"0123456789");
    assert_eq!(slice(&x, None, None, Some(-1)), b"9876543210".to_vec());
    assert_eq!(slice(&x, Some(8), Some(2), Some(-2)), b"864".to_vec());
    assert_eq!(slice(&x, Some(100), None, Some(-3)), b"9630".to_vec());
    assert_eq!(slice(&x, None, Some(-100), Some(-4)), b"951".to_vec());
    assert_eq!(slice(&x, Some(2), Some(8), Some(-1)), b"".to_vec());
    assert_eq!(slice(&x, None, None, Some(isize::MIN)), b"9".to_vec());
}

#[test]
fn slice_step_zero_is_error() {
    let x = b(b"abc");
    assert_eq!(x.get_slice(None, None, Some(0)).unwrap_err(), BytesError::SliceStepZero);
}

#[test]
fn getitem_dispatches() {
    let x = b(b"abc");
    match x.getitem(Subscript::Index(1)).unwrap() {
        Item::Byte(v) => assert_eq!(v, b'b'),
        Item::Bytes(_) => panic!("expected a byte"),
    }
    match x.getitem(Subscript::Slice(Some(1), None, None)).unwrap() {
        Item::Bytes(v) => assert_eq!(v.get_value(), b"bc"),
        Item::Byte(_) => panic!("expected bytes"),
    }
    assert!(x.getitem(Subscript::Index(5)).is_err());
}
