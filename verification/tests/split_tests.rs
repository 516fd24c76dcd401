use pybytes::bytes::PyBytes;
use pybytes::error::BytesError;

fn b(s: &[u8]) -> PyBytes {
    PyBytes::new(s.to_vec())
}

fn vals(v: Vec<PyBytes>) -> Vec<Vec<u8>> {
    v.iter().map(|p| p.get_value().to_vec()).collect()
}

fn owned(v: &[&[u8]]) -> Vec<Vec<u8>> {
    v.iter().map(|p| p.to_vec()).collect()
}

#[test]
fn split_with_separator() {
    let x = b(b"a,b,,c");
    assert_eq!(vals(x.split(Some(b","), -1).unwrap()), owned(&[b"a", b"b", b"", b"c"]));
    assert_eq!(vals(x.split(Some(b","), 1).unwrap()), owned(&[b"a", b"b,,c"]));
    assert_eq!(vals(x.split(Some(b","), 0).unwrap()), owned(&[b"a,b,,c"]));
    assert_eq!(vals(b(b"").split(Some(b","), -1).unwrap()), owned(&[b""]));
    assert_eq!(vals(b(b"a<>b<>").split(Some(b"<>"), -1).unwrap()), owned(&[b"a", b"b", b""]));
}

#[test]
fn rsplit_with_separator() {
    let x = b(b"a,b,,c");
    assert_eq!(vals(x.rsplit(Some(b","), -1).unwrap()), owned(&[b"a", b"b", b"", b"c"]));
    assert_eq!(vals(x.rsplit(Some(b","), 1).unwrap()), owned(&[b"a,b,", b"c"]));
    assert_eq!(vals(b(b"aaa").rsplit(Some(b"aa"), -1).unwrap()), owned(&[b"a", b""]));
    assert_eq!(vals(b(b"aaa").split(Some(b"aa"), -1).unwrap()), owned(&[b"", b"a"]));
}

#[test]
fn split_on_whitespace() {
    let x = b(b"  one two\t three  ");
    assert_eq!(vals(x.split(None, -1).unwrap()), owned(&[b"one", b"two", b"three"]));
    assert_eq!(vals(x.split(None, 1).unwrap()), owned(&[b"one", b"two\t three  "]));
    assert_eq!(vals(x.rsplit(None, 1).unwrap()), owned(&[b"  one two", b"three"]));
    assert_eq!(vals(x.rsplit(None, -1).unwrap()), owned(&[b"one", b"two", b"three"]));
    assert_eq!(vals(b(b"   ").split(None, -1).unwrap()), Vec::<Vec<u8>>::new());
    assert_eq!(vals(b(b"").rsplit(None, -1).unwrap()), Vec::<Vec<u8>>::new());
    assert_eq!(vals(x.split(None, 0).unwrap()), owned(&[b"one two\t three  "]));
}

#[test]
fn empty_separator_is_error() {
    let x = b(b"abc");
    assert_eq!(x.split(Some(b""), -1).unwrap_err(), BytesError::EmptySeparator);
    assert_eq!(x.rsplit(Some(b""), -1).unwrap_err(), BytesError::EmptySeparator);
    assert_eq!(x.partition(b"").unwrap_err(), BytesError::EmptySeparator);
    assert_eq!(x.rpartition(b"").unwrap_err(), BytesError::EmptySeparator);
}

#[test]
fn split_then_join_gives_back() {
    let x = b(b"a--b----c--");
    for m in [-1isize, 0, 1, 2, 10] {
        let parts = x.split(Some(b"--"), m).unwrap();
        assert_eq!(b(b"--").join(&parts).unwrap().get_value(), x.get_value());
        let parts = x.rsplit(Some(b"--"), m).unwrap();
        assert_eq!(b(b"--").join(&parts).unwrap().get_value(), x.get_value());
    }
}

#[test]
fn splitlines_breaks() {
    let x = b(b"ab\ncd\r\nef\rgh\n\n");
    assert_eq!(vals(x.splitlines(false)), owned(&[b"ab", b"cd", b"ef", b"gh", b""]));
    assert_eq!(vals(x.splitlines(true)), owned(&[b"ab\n", b"cd\r\n", b"ef\r", b"gh\n", b"\n"]));
    assert_eq!(vals(b(b"").splitlines(false)), Vec::<Vec<u8>>::new());
    assert_eq!(vals(b(b"no break").splitlines(true)), owned(&[b"no break"]));
}

#[test]
fn splitlines_with_ends_recompose() {
    let x = b(b"a\r\n\rb\n\nc");
    let joined: Vec<u8> = vals(x.splitlines(true)).concat();
    assert_eq!(joined, x.get_value().to_vec());
}

#[test]
fn partition_and_rpartition() {
    let x = b(b"key=value=more");
    let (a, m, c) = x.partition(b"=").unwrap();
    assert_eq!((a.get_value(), m.get_value(), c.get_value()), (&b"key"[..], &b"="[..], &b"value=more"[..]));
    let (a, m, c) = x.rpartition(b"=").unwrap();
    assert_eq!((a.get_value(), m.get_value(), c.get_value()), (&b"key=value"[..], &b"="[..], &b"more"[..]));
    let (a, m, c) = x.partition(b"#").unwrap();
    assert_eq!((a.get_value(), m.get_value(), c.get_value()), (&b"key=value=more"[..], &b"#"[..], &b""[..]));
    let (a, m, c) = x.rpartition(b"#").unwrap();
    assert_eq!((a.get_value(), m.get_value(), c.get_value()), (&b""[..], &b"#"[..], &b"key=value=more"[..]));
}
