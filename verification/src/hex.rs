use vstd::prelude::*;

use crate::bytes::PyBytes;
use crate::error::BytesError;
use crate::text::{chars_of, string_push};

verus! {

/// The lowercase hexadecimal digit for a value below 16.
pub open spec fn hex_digit(d: int) -> char {
    if d < 10 {
        (d + 48) as char
    } else {
        (d + 87) as char
    }
}

/// `s` in hexadecimal: two lowercase digits per byte, the high one first.
pub open spec fn hexed(s: Seq<u8>) -> Seq<char> {
    Seq::new(
        2 * s.len(),
        |i: int|
            if i % 2 == 0 {
                hex_digit((s[i / 2] / 16) as int)
            } else {
                hex_digit((s[i / 2] % 16) as int)
            },
    )
}

/// The value of a hexadecimal digit of either case; 16 for any other character.
pub open spec fn hex_value(c: char) -> int {
    if '0' <= c <= '9' {
        c as int - 48
    } else if 'a' <= c <= 'f' {
        c as int - 87
    } else if 'A' <= c <= 'F' {
        c as int - 55
    } else {
        16
    }
}

/// ASCII whitespace, which `fromhex` skips between pairs of digits.
pub open spec fn is_hex_space(c: char) -> bool {
    c == ' ' || '\t' <= c <= '\r'
}

/// `out` put in front of the bytes of a successful result; an error stays.
pub open spec fn prefixed(out: Seq<u8>, r: Result<Seq<u8>, int>) -> Result<Seq<u8>, int> {
    match r {
        Ok(rest) => Ok(out + rest),
        Err(p) => Err(p),
    }
}

/// The bytes that the pairs of hexadecimal digits of `t[i..]` spell, skipping
/// whitespace between pairs; or the position of the first character that is
/// not a digit where one is due (the length, when a pair is cut short).
pub open spec fn fromhex_from(t: Seq<char>, i: int) -> Result<Seq<u8>, int>
    decreases t.len() - i,
{
    if i < 0 || i >= t.len() {
        Ok(Seq::empty())
    } else if is_hex_space(t[i]) {
        fromhex_from(t, i + 1)
    } else if hex_value(t[i]) >= 16 {
        Err(i)
    } else if i + 1 >= t.len() {
        Err(i + 1)
    } else if hex_value(t[i + 1]) >= 16 {
        Err(i + 1)
    } else {
        prefixed(seq![(hex_value(t[i]) * 16 + hex_value(t[i + 1])) as u8], fromhex_from(t, i + 2))
    }
}

/// How `repr` writes one byte: `\\`, `\'`, `\t`, `\n` and `\r` escaped, other
/// printable ASCII as itself, anything else as `\x` and two lowercase digits.
pub open spec fn escape_byte(b: u8) -> Seq<char> {
    if b == 92 {
        seq!['\\', '\\']
    } else if b == 39 {
        seq!['\\', '\'']
    } else if b == 9 {
        seq!['\\', 't']
    } else if b == 10 {
        seq!['\\', 'n']
    } else if b == 13 {
        seq!['\\', 'r']
    } else if 32 <= b < 127 {
        seq![b as char]
    } else {
        seq!['\\', 'x', hex_digit((b / 16) as int), hex_digit((b % 16) as int)]
    }
}

/// The escapes of the first `i` bytes of `s`, one after the other.
pub open spec fn escaped_prefix(s: Seq<u8>, i: int) -> Seq<char>
    decreases i,
{
    if i <= 0 || i > s.len() {
        Seq::empty()
    } else {
        escaped_prefix(s, i - 1) + escape_byte(s[i - 1])
    }
}

/// `repr(b)`: `b'`, the escapes of the bytes, and `'`.
pub open spec fn repr_of(s: Seq<u8>) -> Seq<char> {
    seq!['b', '\''] + escaped_prefix(s, s.len() as int) + seq!['\'']
}

/// The lowercase hexadecimal digit for `d`.
fn hex_digit_exec(d: u8) -> (c: char)
    requires
        d < 16,
    ensures
        c == hex_digit(d as int),
{
    if d < 10 {
        (d + 48) as char
    } else {
        (d + 87) as char
    }
}

/// The value of the hexadecimal digit `c`, or 16 for any other character.
fn hex_value_exec(c: char) -> (v: u8)
    ensures
        v == hex_value(c),
{
    if '0' <= c && c <= '9' {
        (c as u32 - 48) as u8
    } else if 'a' <= c && c <= 'f' {
        (c as u32 - 87) as u8
    } else if 'A' <= c && c <= 'F' {
        (c as u32 - 55) as u8
    } else {
        16
    }
}

/// Appends the escape of `b` to `out`.
fn push_escape(out: &mut String, b: u8)
    ensures
        final(out)@ == old(out)@ + escape_byte(b),
{
    let ghost start = out@;
    if b == 92 {
        string_push(out, '\\');
        string_push(out, '\\');
    } else if b == 39 {
        string_push(out, '\\');
        string_push(out, '\'');
    } else if b == 9 {
        string_push(out, '\\');
        string_push(out, 't');
    } else if b == 10 {
        string_push(out, '\\');
        string_push(out, 'n');
    } else if b == 13 {
        string_push(out, '\\');
        string_push(out, 'r');
    } else if 32 <= b && b < 127 {
        string_push(out, b as char);
    } else {
        string_push(out, '\\');
        string_push(out, 'x');
        string_push(out, hex_digit_exec(b / 16));
        string_push(out, hex_digit_exec(b % 16));
    }
    assert(out@ =~= start + escape_byte(b));
}

impl PyBytes {
    /// `b.hex()`: two lowercase hexadecimal digits per byte.
    pub fn hex(&self) -> (r: String)
        ensures
            r@ == hexed(self@),
    {
        let s = self.get_value();
        let mut out = String::new();
        let mut i: usize = 0;
        while i < s.len()
            invariant
                s@ == self@,
                i <= s@.len(),
                out@ == hexed(s@).take(2 * i),
            decreases s@.len() - i,
        {
            let b = s[i];
            let ghost before = out@;
            string_push(&mut out, hex_digit_exec(b / 16));
            string_push(&mut out, hex_digit_exec(b % 16));
            assert(out@ =~= hexed(s@).take(2 * (i + 1))) by {
                assert forall|j: int| 0 <= j < 2 * (i + 1) implies out@[j] == hexed(s@)[j] by {
                    if j < 2 * i {
                        assert(out@[j] == before[j]);
                    }
                }
            }
            i += 1;
        }
        assert(hexed(s@).take(2 * s@.len() as int) =~= hexed(s@));
        out
    }

    /// `bytes.fromhex(string)`: the bytes that the pairs of hexadecimal digits
    /// of `string` spell, whitespace allowed between pairs; otherwise the
    /// error names the position of the offending character.
    pub fn fromhex(string: &str) -> (r: Result<PyBytes, BytesError>)
        ensures
            match fromhex_from(string@, 0) {
                Ok(v) => r matches Ok(b) && b@ == v,
                Err(p) => r == Err::<PyBytes, BytesError>(BytesError::NonHexadecimal(p as usize)),
            },
    {
        let t = chars_of(string);
        let len = t.len();
        let mut out: Vec<u8> = Vec::new();
        let mut i: usize = 0;
        while i < len
            invariant
                t@ == string@,
                len == t@.len(),
                i <= len + 1,
                fromhex_from(t@, 0) == prefixed(out@, fromhex_from(t@, i as int)),
            decreases len - i,
        {
            let c = t[i];
            if '\t' <= c && c <= '\r' || c == ' ' {
                i += 1;
            } else {
                let top = hex_value_exec(c);
                if top >= 16 {
                    return Err(BytesError::NonHexadecimal(i));
                }
                if i + 1 >= len {
                    return Err(BytesError::NonHexadecimal(i + 1));
                }
                let bot = hex_value_exec(t[i + 1]);
                if bot >= 16 {
                    return Err(BytesError::NonHexadecimal(i + 1));
                }
                let ghost before = out@;
                out.push(top * 16 + bot);
                proof {
                    let byte = (hex_value(t@[i as int]) * 16 + hex_value(t@[i + 1])) as u8;
                    assert(byte == top * 16 + bot);
                    assert(fromhex_from(t@, i as int) == prefixed(seq![byte], fromhex_from(t@, i + 2)));
                    match fromhex_from(t@, i + 2) {
                        Ok(rest) => {
                            assert(out@ + rest =~= before + (seq![byte] + rest));
                        },
                        Err(p) => {},
                    }
                }
                i += 2;
            }
        }
        assert(out@ + Seq::<u8>::empty() =~= out@);
        Ok(PyBytes::new(out))
    }

    /// `repr(b)`: see [`repr_of`].
    pub fn repr(&self) -> (r: String)
        ensures
            r@ == repr_of(self@),
    {
        let s = self.get_value();
        let mut out = String::new();
        string_push(&mut out, 'b');
        string_push(&mut out, '\'');
        let mut i: usize = 0;
        while i < s.len()
            invariant
                s@ == self@,
                i <= s@.len(),
                out@ == seq!['b', '\''] + escaped_prefix(s@, i as int),
            decreases s@.len() - i,
        {
            push_escape(&mut out, s[i]);
            i += 1;
            assert(out@ =~= seq!['b', '\''] + escaped_prefix(s@, i as int));
        }
        string_push(&mut out, '\'');
        assert(out@ =~= repr_of(s@));
        out
    }
}

} // verus!
