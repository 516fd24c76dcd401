use pybytes::bytes::PyBytes;

#[test]
fn iterator_walks_the_bytes() {
    let x = PyBytes::new(b"abc".to_vec());
    let it = x.iter();
    assert_eq!(it.next(), Some(b'a'));
    assert_eq!(it.next(), Some(b'b'));
    assert_eq!(it.next(), Some(b'c'));
    assert_eq!(it.next(), None);
    assert_eq!(it.next(), None);
}

#[test]
fn iterator_of_iterator_is_itself() {
    let x = PyBytes::new(b"xy".to_vec());
    let it = x.iter();
    assert_eq!(it.next(), Some(b'x'));
    let it = it.iter();
    assert_eq!(it.next(), Some(b'y'));
    assert_eq!(it.item_at(0), Some(b'x'));
    assert_eq!(it.item_at(2), None);
}

#[test]
fn iterator_of_empty_bytes() {
    let x = PyBytes::new(Vec::new());
    assert_eq!(x.iter().next(), None);
}
