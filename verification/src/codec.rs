use vstd::prelude::*;
use vstd::utf8::{valid_utf8, decode_utf8, encode_utf8};
use vstd::string::StringSliceAdditionalSpecFns;

use crate::bytes::{PyBytes, extend_fill};
use crate::error::BytesError;
use crate::text::{chars_of, string_push};

verus! {

broadcast use vstd::string::group_string_axioms;

/// The text codecs that bytes objects know.
#[derive(Debug, Clone, Copy, PartialEq, Eq, Structural)]
pub enum Codec {
    Utf8,
    Ascii,
}

/// The ways of handling bytes or characters that a codec cannot take.
#[derive(Debug, Clone, Copy, PartialEq, Eq, Structural)]
pub enum ErrorHandler {
    /// Raise an error (the default).
    Strict,
    /// Leave the offending item out.
    Ignore,
    /// Put a replacement in its place.
    Replace,
    /// A handler of another name, which is an error once it is needed.
    Unknown,
}

/// A name with ASCII letters in lower case and `_` written as `-`.
pub open spec fn normalized_name(n: Seq<char>) -> Seq<char> {
    Seq::new(
        n.len(),
        |i: int|
            if 'A' <= n[i] <= 'Z' {
                ((n[i] as u32) + 32) as char
            } else if n[i] == '_' {
                '-'
            } else {
                n[i]
            },
    )
}

/// The codec that a name denotes: `utf-8` or `utf8`, `ascii` or `us-ascii`,
/// in any case and with `_` for `-`; the default is UTF-8.
pub open spec fn codec_named(name: Option<Seq<char>>) -> Option<Codec> {
    match name {
        None => Some(Codec::Utf8),
        Some(n) => {
            let m = normalized_name(n);
            if m == seq!['u', 't', 'f', '-', '8'] || m == seq!['u', 't', 'f', '8'] {
                Some(Codec::Utf8)
            } else if m == seq!['a', 's', 'c', 'i', 'i'] || m == seq!['u', 's', '-', 'a', 's', 'c', 'i', 'i'] {
                Some(Codec::Ascii)
            } else {
                None
            }
        },
    }
}

/// The error handler that a name denotes; the default is `strict`.
pub open spec fn handler_named(name: Option<Seq<char>>) -> ErrorHandler {
    match name {
        None => ErrorHandler::Strict,
        Some(n) => if n == seq!['s', 't', 'r', 'i', 'c', 't'] {
            ErrorHandler::Strict
        } else if n == seq!['i', 'g', 'n', 'o', 'r', 'e'] {
            ErrorHandler::Ignore
        } else if n == seq!['r', 'e', 'p', 'l', 'a', 'c', 'e'] {
            ErrorHandler::Replace
        } else {
            ErrorHandler::Unknown
        },
    }
}

/// The optional view of an optional string.
pub open spec fn opt_str(s: Option<&str>) -> Option<Seq<char>> {
    match s {
        None => None,
        Some(t) => Some(t@),
    }
}

/// The first `i` bytes of `s` decoded as ASCII: each byte below 128 is the
/// character of that code; any other byte is left out (`Ignore`), becomes
/// U+FFFD (`Replace`), or stops the decoding with an error at its position.
pub open spec fn ascii_decode_prefix(s: Seq<u8>, h: ErrorHandler, i: int) -> Result<Seq<char>, BytesError>
    decreases i,
{
    if i <= 0 || i > s.len() {
        Ok(Seq::empty())
    } else {
        match ascii_decode_prefix(s, h, i - 1) {
            Err(e) => Err(e),
            Ok(out) => {
                let b = s[i - 1];
                if b < 128 {
                    Ok(out.push(b as char))
                } else {
                    match h {
                        ErrorHandler::Strict => Err(BytesError::DecodeError((i - 1) as usize)),
                        ErrorHandler::Ignore => Ok(out),
                        ErrorHandler::Replace => Ok(out.push('\u{FFFD}')),
                        ErrorHandler::Unknown => Err(BytesError::UnknownErrorHandler),
                    }
                }
            },
        }
    }
}

/// The first `i` characters of `t` encoded as ASCII: each character below 128
/// is the byte of that code; any other is left out (`Ignore`), becomes `?`
/// (`Replace`), or stops the encoding with an error at its position.
pub open spec fn ascii_encode_prefix(t: Seq<char>, h: ErrorHandler, i: int) -> Result<Seq<u8>, BytesError>
    decreases i,
{
    if i <= 0 || i > t.len() {
        Ok(Seq::empty())
    } else {
        match ascii_encode_prefix(t, h, i - 1) {
            Err(e) => Err(e),
            Ok(out) => {
                let c = t[i - 1];
                if (c as u32) < 128 {
                    Ok(out.push(c as u8))
                } else {
                    match h {
                        ErrorHandler::Strict => Err(BytesError::EncodeError((i - 1) as usize)),
                        ErrorHandler::Ignore => Ok(out),
                        ErrorHandler::Replace => Ok(out.push(63u8)),
                        ErrorHandler::Unknown => Err(BytesError::UnknownErrorHandler),
                    }
                }
            },
        }
    }
}

/// What `std::str::from_utf8` reports, for bytes that are not valid UTF-8, as
/// the length of the invalid sequence that follows the longest valid prefix
/// (`Utf8Error::error_len`), or `None` when the bytes end in the middle of a
/// sequence.
pub uninterp spec fn utf8_error_len_of(bytes: Seq<u8>) -> Option<usize>;

/// `s[..j]` is valid UTF-8 and no longer prefix of `s` is.
pub open spec fn is_longest_valid_prefix(s: Seq<u8>, j: int) -> bool {
    &&& 0 <= j <= s.len()
    &&& valid_utf8(s.take(j))
    &&& forall|k: int| j < k <= s.len() ==> !valid_utf8(#[trigger] s.take(k))
}

/// The length of the longest prefix of `s` that is valid UTF-8.
pub open spec fn utf8_valid_up_to(s: Seq<u8>) -> int {
    choose|j: int| is_longest_valid_prefix(s, j)
}

/// Every sequence has a longest valid UTF-8 prefix (the empty prefix is
/// valid), and only one.
pub proof fn lemma_valid_up_to(s: Seq<u8>)
    ensures
        is_longest_valid_prefix(s, utf8_valid_up_to(s)),
        forall|j: int| is_longest_valid_prefix(s, j) ==> j == utf8_valid_up_to(s),
{
    lemma_longest_valid_prefix_below(s, s.len() as int);
    let w = utf8_valid_up_to(s);
    assert forall|j: int| is_longest_valid_prefix(s, j) implies j == w by {
        if j < w {
            assert(valid_utf8(s.take(w)));
        } else if w < j {
            assert(valid_utf8(s.take(j)));
        }
    }
}

/// Searching down from `k`, past prefixes known to be invalid, finds a
/// longest valid prefix.
proof fn lemma_longest_valid_prefix_below(s: Seq<u8>, k: int)
    requires
        0 <= k <= s.len(),
        forall|j: int| k < j <= s.len() ==> !valid_utf8(#[trigger] s.take(j)),
    ensures
        exists|j: int| is_longest_valid_prefix(s, j),
    decreases k,
{
    if valid_utf8(s.take(k)) {
        assert(is_longest_valid_prefix(s, k));
    } else if k == 0 {
        assert(s.take(0) =~= Seq::<u8>::empty());
    } else {
        lemma_longest_valid_prefix_below(s, k - 1);
    }
}

/// The text that `s[i..]` encodes as UTF-8, or the outcome of the error
/// handler at the first invalid sequence: an error naming its position
/// (`Strict`), or the sequence left out (`Ignore`) or replaced by one U+FFFD
/// (`Replace`), decoding going on after it.
pub open spec fn utf8_decode_from(s: Seq<u8>, h: ErrorHandler, i: int) -> Result<Seq<char>, BytesError>
    decreases s.len() - i,
{
    if i < 0 || i > s.len() {
        Ok(Seq::empty())
    } else {
        let rest = s.subrange(i, s.len() as int);
        if valid_utf8(rest) {
            Ok(decode_utf8(rest))
        } else {
            let p = utf8_valid_up_to(rest);
            let l = utf8_error_len_of(rest);
            let good = decode_utf8(rest.take(p as int));
            match h {
                ErrorHandler::Strict => Err(BytesError::DecodeError((i + p) as usize)),
                ErrorHandler::Unknown => Err(BytesError::UnknownErrorHandler),
                _ => {
                    let mid = if h == ErrorHandler::Replace {
                        seq!['\u{FFFD}']
                    } else {
                        Seq::empty()
                    };
                    match l {
                        None => Ok(good + mid),
                        Some(n) => if n >= 1 && 0 <= p && i + p + n <= s.len() {
                            match utf8_decode_from(s, h, i + p + n) {
                                Ok(tail) => Ok(good + mid + tail),
                                Err(e) => Err(e),
                            }
                        } else {
                            Ok(Seq::empty())
                        },
                    }
                },
            }
        }
    }
}

/// Checks that `v` is UTF-8 and views it as text (`std::str::from_utf8`).
/// Trusted: the call succeeds exactly when the bytes are valid UTF-8 in the
/// sense of vstd's `valid_utf8`, and the string it gives encodes to those same
/// bytes.  On failure it gives the error's `valid_up_to` and `error_len`: the
/// valid prefix is shorter than the bytes, is valid UTF-8 and is the longest
/// prefix that is; the length of the invalid sequence is the named
/// [`utf8_error_len_of`] of the bytes, and a reported invalid sequence is
/// nonempty and inside the bytes.  Which bytes make up the invalid sequence
/// is left to the name.
#[verifier::external_body]
fn utf8_check(v: &[u8]) -> (r: Result<&str, (usize, Option<usize>)>)
    ensures
        r is Ok <==> valid_utf8(v@),
        r matches Ok(t) ==> t.spec_bytes() == v@,
        r matches Err(e) ==> e.1 == utf8_error_len_of(v@) && e.0 < v@.len() && valid_utf8(v@.take(e.0 as int))
            && (forall|j: int| e.0 < j <= v@.len() ==> !valid_utf8(#[trigger] v@.take(j)))
            && (e.1 matches Some(n) ==> 1 <= n && e.0 + n <= v@.len()),
{
    match std::str::from_utf8(v) {
        Ok(t) => Ok(t),
        Err(e) => Err((e.valid_up_to(), e.error_len())),
    }
}

/// Appends the string `t` to `s` (`String::push_str`).  Trusted: the
/// string's characters afterwards are those before, followed by those of `t`.
#[verifier::external_body]
fn string_push_str(s: &mut String, t: &str)
    ensures
        final(s)@ == old(s)@ + t@,
{
    s.push_str(t);
}

/// Appends the text of the valid UTF-8 bytes `v` to `out`.
fn push_valid_utf8(out: &mut String, v: &[u8])
    requires
        valid_utf8(v@),
    ensures
        final(out)@ == old(out)@ + decode_utf8(v@),
{
    match utf8_check(v) {
        Ok(t) => {
            proof {
                vstd::utf8::encode_utf8_decode_utf8(t@);
            }
            string_push_str(out, t);
        },
        Err(_) => {},
    }
}

/// The bytes `s` decoded as UTF-8 with the error handler.
fn utf8_decode(s: &[u8], h: ErrorHandler) -> (r: Result<String, BytesError>)
    ensures
        match utf8_decode_from(s@, h, 0) {
            Ok(t) => r matches Ok(o) && o@ == t,
            Err(e) => r == Err::<String, BytesError>(e),
        },
{
    let len = s.len();
    let mut out = String::new();
    let mut i: usize = 0;
    loop
        invariant
            len == s@.len(),
            i <= len,
            match utf8_decode_from(s@, h, 0) {
                Ok(t) => utf8_decode_from(s@, h, i as int) matches Ok(tail) && t == out@ + tail,
                Err(e) => utf8_decode_from(s@, h, i as int) == Err::<Seq<char>, BytesError>(e),
            },
        decreases len - i,
    {
        let rest = vstd::slice::slice_subrange(s, i, len);
        match utf8_check(rest) {
            Ok(t) => {
                proof {
                    vstd::utf8::encode_utf8_decode_utf8(t@);
                }
                string_push_str(&mut out, t);
                return Ok(out);
            },
            Err((p, l)) => {
                proof {
                    lemma_valid_up_to(rest@);
                    assert(is_longest_valid_prefix(rest@, p as int));
                }
                let good = vstd::slice::slice_subrange(rest, 0, p);
                assert(good@ =~= rest@.take(p as int));
                match h {
                    ErrorHandler::Strict => {
                        return Err(BytesError::DecodeError(i + p));
                    },
                    ErrorHandler::Unknown => {
                        return Err(BytesError::UnknownErrorHandler);
                    },
                    _ => {
                        let ghost before = out@;
                        push_valid_utf8(&mut out, good);
                        if h == ErrorHandler::Replace {
                            string_push(&mut out, '\u{FFFD}');
                        }
                        let ghost mid: Seq<char> = if h == ErrorHandler::Replace {
                            seq!['\u{FFFD}']
                        } else {
                            Seq::empty()
                        };
                        assert(out@ =~= before + decode_utf8(rest@.take(p as int)) + mid);
                        match l {
                            None => {
                                return Ok(out);
                            },
                            Some(n) => {
                                i = i + p + n;
                            },
                        }
                    },
                }
            },
        }
    }
}

/// Whether `m` spells the given word.
fn spells(m: &Vec<char>, word: &[char]) -> (r: bool)
    ensures
        r == (m@ == word@),
{
    if m.len() != word.len() {
        return false;
    }
    let mut i: usize = 0;
    while i < m.len()
        invariant
            m@.len() == word@.len(),
            i <= m@.len(),
            forall|j: int| 0 <= j < i ==> m@[j] == word@[j],
        decreases m@.len() - i,
    {
        if m[i] != word[i] {
            return false;
        }
        i += 1;
    }
    assert(m@ =~= word@);
    true
}

/// The name lowered and with `_` as `-`.
fn normalize_name(n: &str) -> (r: Vec<char>)
    ensures
        r@ == normalized_name(n@),
{
    let t = chars_of(n);
    let mut out: Vec<char> = Vec::new();
    let mut i: usize = 0;
    while i < t.len()
        invariant
            t@ == n@,
            i <= t@.len(),
            out@ =~= normalized_name(t@).take(i as int),
        decreases t@.len() - i,
    {
        let c = t[i];
        let d = if 'A' <= c && c <= 'Z' {
            let x: u32 = (c as u32) + 32;
            assert(x as u8 == x);
            x as u8 as char
        } else if c == '_' {
            '-'
        } else {
            c
        };
        out.push(d);
        i += 1;
    }
    out
}

/// The codec that an optional name denotes.
pub fn lookup_codec(name: Option<&str>) -> (r: Option<Codec>)
    ensures
        r == codec_named(opt_str(name)),
{
    match name {
        None => Some(Codec::Utf8),
        Some(n) => {
            let m = normalize_name(n);
            let utf_dash: [char; 5] = ['u', 't', 'f', '-', '8'];
            let utf: [char; 4] = ['u', 't', 'f', '8'];
            let ascii: [char; 5] = ['a', 's', 'c', 'i', 'i'];
            let us_ascii: [char; 8] = ['u', 's', '-', 'a', 's', 'c', 'i', 'i'];
            assert(utf_dash@ =~= seq!['u', 't', 'f', '-', '8']);
            assert(utf@ =~= seq!['u', 't', 'f', '8']);
            assert(ascii@ =~= seq!['a', 's', 'c', 'i', 'i']);
            assert(us_ascii@ =~= seq!['u', 's', '-', 'a', 's', 'c', 'i', 'i']);
            if spells(&m, &utf_dash) || spells(&m, &utf) {
                Some(Codec::Utf8)
            } else if spells(&m, &ascii) || spells(&m, &us_ascii) {
                Some(Codec::Ascii)
            } else {
                None
            }
        },
    }
}

/// The error handler that an optional name denotes.
pub fn lookup_handler(name: Option<&str>) -> (r: ErrorHandler)
    ensures
        r == handler_named(opt_str(name)),
{
    match name {
        None => ErrorHandler::Strict,
        Some(n) => {
            let m = chars_of(n);
            let strict: [char; 6] = ['s', 't', 'r', 'i', 'c', 't'];
            let ignore: [char; 6] = ['i', 'g', 'n', 'o', 'r', 'e'];
            let replace: [char; 7] = ['r', 'e', 'p', 'l', 'a', 'c', 'e'];
            assert(strict@ =~= seq!['s', 't', 'r', 'i', 'c', 't']);
            assert(ignore@ =~= seq!['i', 'g', 'n', 'o', 'r', 'e']);
            assert(replace@ =~= seq!['r', 'e', 'p', 'l', 'a', 'c', 'e']);
            if spells(&m, &strict) {
                ErrorHandler::Strict
            } else if spells(&m, &ignore) {
                ErrorHandler::Ignore
            } else if spells(&m, &replace) {
                ErrorHandler::Replace
            } else {
                ErrorHandler::Unknown
            }
        },
    }
}


/// An error in decoding a prefix stays the outcome of every longer prefix.
pub proof fn lemma_ascii_decode_error_sticks(s: Seq<u8>, h: ErrorHandler, i: int, j: int)
    requires
        0 <= i <= j <= s.len(),
        ascii_decode_prefix(s, h, i) is Err,
    ensures
        ascii_decode_prefix(s, h, j) == ascii_decode_prefix(s, h, i),
    decreases j - i,
{
    if i < j {
        lemma_ascii_decode_error_sticks(s, h, i, j - 1);
    }
}

/// An error in encoding a prefix stays the outcome of every longer prefix.
pub proof fn lemma_ascii_encode_error_sticks(t: Seq<char>, h: ErrorHandler, i: int, j: int)
    requires
        0 <= i <= j <= t.len(),
        ascii_encode_prefix(t, h, i) is Err,
    ensures
        ascii_encode_prefix(t, h, j) == ascii_encode_prefix(t, h, i),
    decreases j - i,
{
    if i < j {
        lemma_ascii_encode_error_sticks(t, h, i, j - 1);
    }
}

/// What a bytes object is built from.
#[derive(Debug, Clone)]
pub enum BytesSource {
    /// No argument: the empty object.
    Nothing,
    /// An integer: that many zero bytes.
    Count(isize),
    /// An iterable of integers, each of which must lie in `range(0, 256)`.
    Ints(Vec<i64>),
    /// An object with the buffer protocol: a copy of its bytes.
    Buffer(Vec<u8>),
    /// A string, which an encoding turns into bytes.
    Text(String),
}

/// Every integer of `v` lies in `range(0, 256)`.
pub open spec fn all_bytes(v: Seq<i64>) -> bool {
    forall|i: int| 0 <= i < v.len() ==> 0 <= #[trigger] v[i] < 256
}

/// The text `t` encoded with the codec and the error handler.
pub open spec fn encoded(t: Seq<char>, c: Codec, h: ErrorHandler) -> Result<Seq<u8>, BytesError> {
    match c {
        Codec::Utf8 => Ok(encode_utf8(t)),
        Codec::Ascii => ascii_encode_prefix(t, h, t.len() as int),
    }
}

/// The outcome of `bytes(source, encoding, errors)`.
pub open spec fn new_bytes(source: BytesSource, encoding: Option<Seq<char>>, errors: Option<Seq<char>>) -> Result<Seq<u8>, BytesError> {
    match source {
        BytesSource::Text(t) => if encoding is None {
            Err(BytesError::StringWithoutEncoding)
        } else {
            match codec_named(encoding) {
                None => Err(BytesError::UnknownEncoding),
                Some(c) => encoded(t@, c, handler_named(errors)),
            }
        },
        _ => if encoding is Some || errors is Some {
            Err(BytesError::EncodingWithoutString)
        } else {
            match source {
                BytesSource::Count(n) => if n < 0 {
                    Err(BytesError::NegativeCount)
                } else {
                    Ok(Seq::new(n as nat, |i: int| 0u8))
                },
                BytesSource::Ints(v) => if all_bytes(v@) {
                    Ok(Seq::new(v@.len(), |i: int| v@[i] as u8))
                } else {
                    Err(BytesError::ByteOutOfRange)
                },
                BytesSource::Buffer(v) => Ok(v@),
                _ => Ok(Seq::empty()),
            }
        },
    }
}

/// The outcome of `b.decode(encoding, errors)`.
pub open spec fn decoded(s: Seq<u8>, encoding: Option<Seq<char>>, errors: Option<Seq<char>>) -> Result<Seq<char>, BytesError> {
    match codec_named(encoding) {
        None => Err(BytesError::UnknownEncoding),
        Some(Codec::Ascii) => ascii_decode_prefix(s, handler_named(errors), s.len() as int),
        Some(Codec::Utf8) => utf8_decode_from(s, handler_named(errors), 0),
    }
}

/// The text `t` encoded as ASCII with the error handler.
fn ascii_encode(t: &Vec<char>, h: ErrorHandler) -> (r: Result<Vec<u8>, BytesError>)
    ensures
        match ascii_encode_prefix(t@, h, t@.len() as int) {
            Ok(v) => r matches Ok(o) && o@ == v,
            Err(e) => r == Err::<Vec<u8>, BytesError>(e),
        },
{
    let mut out: Vec<u8> = Vec::new();
    let mut i: usize = 0;
    while i < t.len()
        invariant
            i <= t@.len(),
            ascii_encode_prefix(t@, h, i as int) == Ok::<Seq<u8>, BytesError>(out@),
        decreases t@.len() - i,
    {
        let c = t[i];
        if (c as u32) < 128 {
            out.push(c as u8);
        } else {
            match h {
                ErrorHandler::Strict => {
                    proof {
                        lemma_ascii_encode_error_sticks(t@, h, i + 1, t@.len() as int);
                    }
                    return Err(BytesError::EncodeError(i));
                },
                ErrorHandler::Ignore => {},
                ErrorHandler::Replace => {
                    out.push(63);
                },
                ErrorHandler::Unknown => {
                    proof {
                        lemma_ascii_encode_error_sticks(t@, h, i + 1, t@.len() as int);
                    }
                    return Err(BytesError::UnknownErrorHandler);
                },
            }
        }
        i += 1;
    }
    Ok(out)
}

/// The integers of `v` as bytes, or `None` when one lies outside `range(0, 256)`.
fn ints_to_bytes(v: &Vec<i64>) -> (r: Option<Vec<u8>>)
    ensures
        r is Some <==> all_bytes(v@),
        r matches Some(o) ==> o@ == Seq::new(v@.len(), |i: int| v@[i] as u8),
{
    let mut out: Vec<u8> = Vec::new();
    let mut i: usize = 0;
    while i < v.len()
        invariant
            i <= v@.len(),
            out@.len() == i,
            forall|j: int| 0 <= j < i ==> 0 <= #[trigger] v@[j] < 256 && out@[j] == v@[j] as u8,
        decreases v@.len() - i,
    {
        let x = v[i];
        if x < 0 || x >= 256 {
            assert(!(0 <= v@[i as int] < 256));
            return None;
        }
        out.push(x as u8);
        i += 1;
    }
    assert(out@ =~= Seq::new(v@.len(), |i: int| v@[i] as u8));
    Some(out)
}

/// The bytes `s` decoded as ASCII with the error handler.
fn ascii_decode(s: &[u8], h: ErrorHandler) -> (r: Result<String, BytesError>)
    ensures
        match ascii_decode_prefix(s@, h, s@.len() as int) {
            Ok(t) => r matches Ok(o) && o@ == t,
            Err(e) => r == Err::<String, BytesError>(e),
        },
{
    let mut out = String::new();
    let mut i: usize = 0;
    while i < s.len()
        invariant
            i <= s@.len(),
            ascii_decode_prefix(s@, h, i as int) == Ok::<Seq<char>, BytesError>(out@),
        decreases s@.len() - i,
    {
        let b = s[i];
        if b < 128 {
            string_push(&mut out, b as char);
        } else {
            match h {
                ErrorHandler::Strict => {
                    proof {
                        lemma_ascii_decode_error_sticks(s@, h, i + 1, s@.len() as int);
                    }
                    return Err(BytesError::DecodeError(i));
                },
                ErrorHandler::Ignore => {},
                ErrorHandler::Replace => {
                    string_push(&mut out, '\u{FFFD}');
                },
                ErrorHandler::Unknown => {
                    proof {
                        lemma_ascii_decode_error_sticks(s@, h, i + 1, s@.len() as int);
                    }
                    return Err(BytesError::UnknownErrorHandler);
                },
            }
        }
        i += 1;
    }
    Ok(out)
}

impl PyBytes {
    /// `bytes(source, encoding, errors)`: see [`new_bytes`].
    pub fn tp_new(source: BytesSource, encoding: Option<&str>, errors: Option<&str>) -> (r: Result<PyBytes, BytesError>)
        ensures
            match new_bytes(source, opt_str(encoding), opt_str(errors)) {
                Ok(v) => r matches Ok(b) && b@ == v,
                Err(e) => r == Err::<PyBytes, BytesError>(e),
            },
    {
        match source {
            BytesSource::Text(t) => {
                if encoding.is_none() {
                    return Err(BytesError::StringWithoutEncoding);
                }
                match lookup_codec(encoding) {
                    None => Err(BytesError::UnknownEncoding),
                    Some(Codec::Utf8) => {
                        let bytes = t.as_str().as_bytes();
                        Ok(PyBytes::new(vstd::slice::slice_to_vec(bytes)))
                    },
                    Some(Codec::Ascii) => {
                        let h = lookup_handler(errors);
                        let chars = chars_of(t.as_str());
                        let v = ascii_encode(&chars, h)?;
                        Ok(PyBytes::new(v))
                    },
                }
            },
            _ => {
                if encoding.is_some() || errors.is_some() {
                    return Err(BytesError::EncodingWithoutString);
                }
                match source {
                    BytesSource::Count(n) => {
                        if n < 0 {
                            return Err(BytesError::NegativeCount);
                        }
                        let mut out: Vec<u8> = Vec::new();
                        extend_fill(&mut out, 0, n as usize);
                        assert(out@ =~= Seq::new(n as nat, |i: int| 0u8));
                        Ok(PyBytes::new(out))
                    },
                    BytesSource::Ints(v) => match ints_to_bytes(&v) {
                        Some(out) => Ok(PyBytes::new(out)),
                        None => Err(BytesError::ByteOutOfRange),
                    },
                    BytesSource::Buffer(v) => Ok(PyBytes::new(v)),
                    _ => Ok(PyBytes::new(Vec::new())),
                }
            },
        }
    }

    /// `b.decode(encoding, errors)`: see [`decoded`].
    pub fn decode(&self, encoding: Option<&str>, errors: Option<&str>) -> (r: Result<String, BytesError>)
        ensures
            match decoded(self@, opt_str(encoding), opt_str(errors)) {
                Ok(t) => r matches Ok(s) && s@ == t,
                Err(e) => r == Err::<String, BytesError>(e),
            },
    {
        let s = self.get_value();
        match lookup_codec(encoding) {
            None => Err(BytesError::UnknownEncoding),
            Some(Codec::Utf8) => utf8_decode(s, lookup_handler(errors)),
            Some(Codec::Ascii) => ascii_decode(s, lookup_handler(errors)),
        }
    }
}

} // verus!
