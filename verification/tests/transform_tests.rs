use pybytes::bytes::PyBytes;
use pybytes::error::BytesError;

fn b(s: &[u8]) -> PyBytes {
    PyBytes::new(s.to_vec())
}

#[test]
fn strips() {
    let x = b(b"  \tspam \n");
    assert_eq!(x.strip(None).get_value(), b"spam");
    assert_eq!(x.lstrip(None).get_value(), b"spam \n");
    assert_eq!(x.rstrip(None).get_value(), b"  \tspam");
    let y = b(b"xxyspamyx");
    assert_eq!(y.strip(Some(b"xy")).get_value(), b"spam");
    assert_eq!(y.lstrip(Some(b"xy")).get_value(), b"spamyx");
    assert_eq!(y.rstrip(Some(b"xy")).get_value(), b"xxyspam");
    assert_eq!(b(b"   ").strip(None).len(), 0);
    assert_eq!(b(b"abc").strip(Some(b"")).get_value(), b"abc");
}

#[test]
fn translate_maps_and_deletes() {
    let mut table: Vec<u8> = (0..=255u8).collect();
    table[b'a' as usize] = b'A';
    let x = b(b"banana");
    assert_eq!(x.translate(Some(&table), b"n").unwrap().get_value(), b"bAAA");
    assert_eq!(x.translate(None, b"a").unwrap().get_value(), b"bnn");
    assert_eq!(x.translate(None, b"").unwrap().get_value(), b"banana");
}

#[test]
fn translate_table_must_have_256_entries() {
    assert_eq!(b(b"x").translate(Some(b"abc"), b"").unwrap_err(), BytesError::TranslationTableLength);
}

#[test]
fn join_puts_separator_between() {
    let parts = vec![b(b"a"), b(b"bc"), b(b"")];
    assert_eq!(b(b", ").join(&parts).unwrap().get_value(), b"a, bc, ");
    assert_eq!(b(b"-").join(&vec![b(b"x")]).unwrap().get_value(), b"x");
    assert_eq!(b(b"-").join(&vec![]).unwrap().len(), 0);
}

#[test]
fn replace_all_and_counted() {
    let x = b(b"one one one");
    assert_eq!(x.replace(b"one", b"two", None).unwrap().get_value(), b"two two two");
    assert_eq!(x.replace(b"one", b"2", Some(2)).unwrap().get_value(), b"2 2 one");
    assert_eq!(x.replace(b"one", b"2", Some(0)).unwrap().get_value(), b"one one one");
    assert_eq!(x.replace(b"one", b"2", Some(-1)).unwrap().get_value(), b"2 2 2");
    assert_eq!(b(b"aaa").replace(b"aa", b"b", None).unwrap().get_value(), b"ba");
    assert_eq!(x.replace(b"zz", b"y", None).unwrap().get_value(), b"one one one");
}

#[test]
fn replace_empty_old_interleaves() {
    let x = b(b"abc");
    assert_eq!(x.replace(b"", b"-", None).unwrap().get_value(), b"-a-b-c-");
    assert_eq!(x.replace(b"", b"-", Some(2)).unwrap().get_value(), b"-a-bc");
    assert_eq!(x.replace(b"", b"-", Some(10)).unwrap().get_value(), b"-a-b-c-");
    assert_eq!(b(b"").replace(b"", b"xy", None).unwrap().get_value(), b"xy");
}

#[test]
fn replace_with_itself_is_identity() {
    let x = b(b"abracadabra");
    for old in [&b"a"[..], b"abra", b"", b"zz"] {
        assert_eq!(x.replace(old, old, None).unwrap().get_value(), x.get_value());
    }
}

#[test]
fn maketrans_builds_table() {
    let t = PyBytes::maketrans(b"abca", b"xyzw").unwrap();
    let v = t.get_value();
    assert_eq!(v.len(), 256);
    assert_eq!(v[b'a' as usize], b'w');
    assert_eq!(v[b'b' as usize], b'y');
    assert_eq!(v[b'c' as usize], b'z');
    assert_eq!(v[b'd' as usize], b'd');
    assert_eq!(v[0], 0);
    assert_eq!(v[255], 255);
    assert_eq!(b(b"abcd").translate(Some(v), b"").unwrap().get_value(), b"wyzd");
}

#[test]
fn maketrans_needs_equal_lengths() {
    assert_eq!(PyBytes::maketrans(b"ab", b"x").unwrap_err(), BytesError::MaketransLength);
    assert_eq!(BytesError::MaketransLength.kind(), pybytes::error::ExceptionKind::ValueError);
}
