use pybytes::bytes::PyBytes;

fn b(s: &[u8]) -> PyBytes {
    PyBytes::new(s.to_vec())
}

#[test]
fn class_predicates() {
    assert!(b(b"abc123").isalnum());
    assert!(!b(b"abc 123").isalnum());
    assert!(!b(b"").isalnum());
    assert!(b(b"abcXYZ").isalpha());
    assert!(!b(b"abc1").isalpha());
    assert!(b(b"").isascii());
    assert!(b(b"\x7f").isascii());
    assert!(!b(b"\x80").isascii());
    assert!(b(b"0123").isdigit());
    assert!(!b(b"12a").isdigit());
    assert!(b(b" \t\n\r\x0b\x0c").isspace());
    assert!(!b(b" x").isspace());
    assert!(!b(b"").isspace());
}

#[test]
fn case_predicates() {
    assert!(b(b"hello world 1").islower());
    assert!(!b(b"Hello").islower());
    assert!(!b(b"123").islower());
    assert!(b(b"HELLO 1").isupper());
    assert!(!b(b"HeLLO").isupper());
    assert!(b(b"Hello World").istitle());
    assert!(b(b"A1B").istitle());
    assert!(!b(b"Hello world").istitle());
    assert!(!b(b"HEllo").istitle());
    assert!(!b(b"123").istitle());
    assert!(!b(b"").istitle());
}

#[test]
fn case_mappings() {
    assert_eq!(b(b"Hello, World! \xc3").lower().get_value(), b"hello, world! \xc3");
    assert_eq!(b(b"Hello, World!").upper().get_value(), b"HELLO, WORLD!");
    assert_eq!(b(b"Hello, World!").swapcase().get_value(), b"hELLO, wORLD!");
    assert_eq!(b(b"hELLO wORLD").capitalize().get_value(), b"Hello world");
    assert_eq!(b(b"hello wORLD 3rd").title().get_value(), b"Hello World 3Rd");
    assert_eq!(b(b"").title().len(), 0);
}

#[test]
fn swapcase_twice_is_identity() {
    let x = b(b"MiXeD cAsE 123 \xff");
    assert_eq!(x.swapcase().swapcase().get_value(), x.get_value());
}

#[test]
fn upper_of_lower_is_upper() {
    let x = b(b"MiXeD cAsE");
    assert_eq!(x.lower().upper().get_value(), x.upper().get_value());
    assert_eq!(x.upper().lower().get_value(), x.lower().get_value());
}
