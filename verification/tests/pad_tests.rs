use pybytes::bytes::PyBytes;
use pybytes::error::BytesError;

fn b(s: &[u8]) -> PyBytes {
    PyBytes::new(s.to_vec())
}

#[test]
fn justify() {
    let x = b(b"abc");
    assert_eq!(x.ljust(6, None).unwrap().get_value(), b"abc   ");
    assert_eq!(x.rjust(6, Some(b"*")).unwrap().get_value(), b"***abc");
    assert_eq!(x.center(6, Some(b"*")).unwrap().get_value(), b"*abc**");
    assert_eq!(x.center(7, None).unwrap().get_value(), b"  abc  ");
    assert_eq!(b(b"ab").center(5, Some(b"-")).unwrap().get_value(), b"--ab-");
    assert_eq!(b(b"abcd").center(7, Some(b"-")).unwrap().get_value(), b"--abcd-");
    assert_eq!(x.ljust(2, None).unwrap().get_value(), b"abc");
    assert_eq!(x.rjust(-5, None).unwrap().get_value(), b"abc");
}

#[test]
fn fill_must_be_one_byte() {
    let x = b(b"abc");
    assert_eq!(x.center(6, Some(b"ab")).unwrap_err(), BytesError::FillCharLength);
    assert_eq!(x.ljust(6, Some(b"")).unwrap_err(), BytesError::FillCharLength);
}

#[test]
fn justified_length() {
    let x = b(b"hello");
    for w in [-1isize, 0, 3, 5, 6, 9, 10] {
        let want = if w > 5 { w as usize } else { 5 };
        assert_eq!(x.center(w, None).unwrap().len(), want);
        assert_eq!(x.ljust(w, None).unwrap().len(), want);
        assert_eq!(x.rjust(w, None).unwrap().len(), want);
        assert_eq!(x.zfill(w).len(), want);
    }
}

#[test]
fn zfill_keeps_sign() {
    assert_eq!(b(b"42").zfill(5).get_value(), b"00042");
    assert_eq!(b(b"-42").zfill(5).get_value(), b"-0042");
    assert_eq!(b(b"+42").zfill(5).get_value(), b"+0042");
    assert_eq!(b(b"").zfill(3).get_value(), b"000");
    assert_eq!(b(b"12345").zfill(3).get_value(), b"12345");
}

#[test]
fn expandtabs_columns() {
    assert_eq!(b(b"a\tb").expandtabs(8).unwrap().get_value(), b"a       b");
    assert_eq!(b(b"ab\tc\nd\te").expandtabs(4).unwrap().get_value(), b"ab  c\nd   e");
    assert_eq!(b(b"a\tb").expandtabs(0).unwrap().get_value(), b"ab");
    assert_eq!(b(b"a\tb").expandtabs(-3).unwrap().get_value(), b"ab");
    assert_eq!(b(b"\t").expandtabs(1).unwrap().get_value(), b" ");
    assert_eq!(b(b"no tabs").expandtabs(8).unwrap().get_value(), b"no tabs");
}

#[test]
fn expandtabs_too_long_is_overflow() {
    assert_eq!(b(b"\t\t").expandtabs(isize::MAX).unwrap_err(), BytesError::ResultTooLong);
}
