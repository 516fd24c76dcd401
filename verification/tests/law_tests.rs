use pybytes::bytes::PyBytes;
use pybytes::search::ByteNeedle;

fn b(s: &[u8]) -> PyBytes {
    PyBytes::new(s.to_vec())
}

#[test]
fn deref_gives_the_bytes() {
    let x = b(b"abc");
    let s: &[u8] = &x;
    assert_eq!(s, b"abc");
}

#[test]
fn strip_is_lstrip_then_rstrip() {
    for v in [&b"  a b  "[..], b"", b"   ", b"x", b"\txy\n"] {
        let x = b(v);
        assert_eq!(x.strip(None).get_value(), x.lstrip(None).rstrip(None).get_value());
        assert_eq!(x.strip(Some(b" x")).get_value(), x.lstrip(Some(b" x")).rstrip(Some(b" x")).get_value());
    }
}

#[test]
fn translate_without_table_or_deletions_is_identity() {
    let x = b(b"any \x00\xff bytes");
    assert_eq!(x.translate(None, b"").unwrap().get_value(), x.get_value());
}

#[test]
fn whole_slice_and_simple_slices() {
    let x = b(b"abcdef");
    assert_eq!(x.get_slice(None, None, None).unwrap().get_value(), x.get_value());
    for i in 0..=6isize {
        for j in i..=6isize {
            assert_eq!(
                x.get_slice(Some(i), Some(j), None).unwrap().get_value(),
                &x.get_value()[i as usize..j as usize]
            );
        }
    }
}

#[test]
fn repeat_length_is_product() {
    let x = b(b"abc");
    for n in 0..5isize {
        assert_eq!(x.repeat(n).unwrap().len(), 3 * n as usize);
    }
    assert_eq!(x.repeat(3).unwrap().get_value(), x.repeat(2).unwrap().add(&x).get_value());
}

#[test]
fn order_is_transitive_on_samples() {
    let samples: Vec<&[u8]> = vec![b"", b"a", b"ab", b"abc", b"b", b"\x00", b"ba"];
    for x in &samples {
        for y in &samples {
            for z in &samples {
                let (p, q, r) = (b(x), b(y), b(z));
                if p.lt(&q) && q.lt(&r) {
                    assert!(p.lt(&r));
                }
            }
        }
    }
}

#[test]
fn split_makes_one_more_piece_than_count() {
    for v in [&b"a,b,,c"[..], b"", b",", b"abc", b",,,,"] {
        let x = b(v);
        let pieces = x.split(Some(b","), -1).unwrap().len();
        let count = x.count(&ByteNeedle::Bytes(b",".to_vec()), None, None).unwrap();
        assert_eq!(pieces, count + 1);
    }
    let x = b(b"aaaaa");
    let pieces = x.split(Some(b"aa"), -1).unwrap().len();
    let count = x.count(&ByteNeedle::Bytes(b"aa".to_vec()), None, None).unwrap();
    assert_eq!(pieces, count + 1);
}

fn vals(v: Vec<PyBytes>) -> Vec<Vec<u8>> {
    v.iter().map(|p| p.get_value().to_vec()).collect()
}

#[test]
fn split_limit_bounds_piece_count() {
    let x = b(b"a,b,c,d,e");
    for m in 0..7isize {
        assert!(x.split(Some(b","), m).unwrap().len() <= (m + 1) as usize);
        assert!(x.split(None, m).unwrap().len() <= (m + 1) as usize);
    }
}

#[test]
fn unlimited_split_pieces_hold_no_separator() {
    let x = b(b"xx--y---z--");
    for p in vals(x.split(Some(b"--"), -1).unwrap()) {
        assert!(!p.windows(2).any(|w| w == b"--"));
    }
}

#[test]
fn rsplit_equals_split_for_one_byte_or_whitespace() {
    for v in [&b"a,b,,c,"[..], b"", b",", b"  a  b c  ", b"abc"] {
        let x = b(v);
        assert_eq!(vals(x.split(Some(b","), -1).unwrap()), vals(x.rsplit(Some(b","), -1).unwrap()));
        assert_eq!(vals(x.split(None, -1).unwrap()), vals(x.rsplit(None, -1).unwrap()));
    }
}

#[test]
fn splitlines_keepends_and_plain_correspond() {
    let x = b(b"one\r\ntwo\n\rthree\rfour");
    let kept = vals(x.splitlines(true));
    let plain = vals(x.splitlines(false));
    assert_eq!(kept.len(), plain.len());
    for (k, p) in kept.iter().zip(plain.iter()) {
        assert!(!k.is_empty());
        assert!(k.starts_with(p));
        let ending = &k[p.len()..];
        assert!(ending == b"\r\n" || ending == b"\n" || ending == b"\r" || ending.is_empty());
    }
    assert_eq!(kept.concat(), x.get_value().to_vec());
}

#[test]
fn add_is_associative_with_empty_identity() {
    let (x, y, z, e) = (b(b"ab"), b(b"c"), b(b"de"), b(b""));
    assert_eq!(x.add(&y).add(&z).get_value(), x.add(&y.add(&z)).get_value());
    assert_eq!(x.add(&e).get_value(), x.get_value());
    assert_eq!(e.add(&x).get_value(), x.get_value());
    assert_eq!(x.add(&y).len(), x.len() + y.len());
}
