use vstd::prelude::*;

use crate::bytes::PyBytes;

verus! {

/// An ASCII lowercase letter.
pub open spec fn is_lower(b: u8) -> bool {
    97 <= b <= 122
}

/// An ASCII uppercase letter.
pub open spec fn is_upper(b: u8) -> bool {
    65 <= b <= 90
}

/// An ASCII letter.
pub open spec fn is_alpha(b: u8) -> bool {
    is_lower(b) || is_upper(b)
}

/// An ASCII decimal digit.
pub open spec fn is_digit(b: u8) -> bool {
    48 <= b <= 57
}

/// An ASCII letter or digit.
pub open spec fn is_alnum(b: u8) -> bool {
    is_alpha(b) || is_digit(b)
}

/// ASCII whitespace: space, tab, line feed, vertical tab, form feed, carriage return.
pub open spec fn is_space(b: u8) -> bool {
    b == 32 || 9 <= b <= 13
}

/// A byte of the ASCII range.
pub open spec fn is_ascii_byte(b: u8) -> bool {
    b < 128
}

/// The uppercase form of an ASCII lowercase letter; other bytes stay.
pub open spec fn to_upper(b: u8) -> u8 {
    if is_lower(b) {
        (b - 32) as u8
    } else {
        b
    }
}

/// The lowercase form of an ASCII uppercase letter; other bytes stay.
pub open spec fn to_lower(b: u8) -> u8 {
    if is_upper(b) {
        (b + 32) as u8
    } else {
        b
    }
}

/// The other case of an ASCII letter; other bytes stay.
pub open spec fn swap_case(b: u8) -> u8 {
    if is_lower(b) {
        to_upper(b)
    } else {
        to_lower(b)
    }
}

/// A class of bytes that the `is...` predicates test for.
#[derive(Debug, Clone, Copy, PartialEq, Eq, Structural)]
pub enum ByteClass {
    Alnum,
    Alpha,
    Ascii,
    Digit,
    Space,
}

/// `b` belongs to the class.
pub open spec fn in_class(b: u8, c: ByteClass) -> bool {
    match c {
        ByteClass::Alnum => is_alnum(b),
        ByteClass::Alpha => is_alpha(b),
        ByteClass::Ascii => is_ascii_byte(b),
        ByteClass::Digit => is_digit(b),
        ByteClass::Space => is_space(b),
    }
}

/// Every byte of `s` belongs to the class.
pub open spec fn all_in_class(s: Seq<u8>, c: ByteClass) -> bool {
    forall|i: int| 0 <= i < s.len() ==> #[trigger] in_class(s[i], c)
}

/// `s` is in title case: each uppercase letter follows a byte that is not a
/// letter, each lowercase letter follows a letter, and some letter occurs.
pub open spec fn is_title(s: Seq<u8>) -> bool {
    &&& exists|i: int| 0 <= i < s.len() && #[trigger] is_alpha(s[i])
    &&& forall|i: int| 0 <= i < s.len() && #[trigger] is_upper(s[i]) ==> (i == 0 || !is_alpha(s[i - 1]))
    &&& forall|i: int| 0 <= i < s.len() && #[trigger] is_lower(s[i]) ==> (i > 0 && is_alpha(s[i - 1]))
}

/// A mapping of bytes applied to each byte on its own.
#[derive(Debug, Clone, Copy, PartialEq, Eq, Structural)]
pub enum CaseMap {
    Lower,
    Upper,
    Swap,
}

/// The image of `b` under the mapping.
pub open spec fn apply_case(m: CaseMap, b: u8) -> u8 {
    match m {
        CaseMap::Lower => to_lower(b),
        CaseMap::Upper => to_upper(b),
        CaseMap::Swap => swap_case(b),
    }
}

/// `s` with the mapping applied to each byte.
pub open spec fn map_case(s: Seq<u8>, m: CaseMap) -> Seq<u8> {
    Seq::new(s.len(), |i: int| apply_case(m, s[i]))
}

/// `s` capitalized: the first byte in upper case, all others in lower case.
pub open spec fn capitalized(s: Seq<u8>) -> Seq<u8> {
    Seq::new(s.len(), |i: int| if i == 0 { to_upper(s[i]) } else { to_lower(s[i]) })
}

/// `s` in title case: a letter that follows a letter in lower case, any other
/// letter in upper case.
pub open spec fn titled(s: Seq<u8>) -> Seq<u8> {
    Seq::new(
        s.len(),
        |i: int|
            if i > 0 && is_alpha(s[i - 1]) {
                to_lower(s[i])
            } else {
                to_upper(s[i])
            },
    )
}

/// Whether `b` is an ASCII lowercase letter.
pub fn byte_is_lower(b: u8) -> (r: bool)
    ensures
        r == is_lower(b),
{
    97 <= b && b <= 122
}

/// Whether `b` is an ASCII uppercase letter.
pub fn byte_is_upper(b: u8) -> (r: bool)
    ensures
        r == is_upper(b),
{
    65 <= b && b <= 90
}

/// Whether `b` is an ASCII letter.
pub fn byte_is_alpha(b: u8) -> (r: bool)
    ensures
        r == is_alpha(b),
{
    byte_is_lower(b) || byte_is_upper(b)
}

/// Whether `b` is ASCII whitespace.
pub fn byte_is_space(b: u8) -> (r: bool)
    ensures
        r == is_space(b),
{
    b == 32 || (9 <= b && b <= 13)
}

/// Whether `b` belongs to the class.
pub fn byte_in_class(b: u8, c: ByteClass) -> (r: bool)
    ensures
        r == in_class(b, c),
{
    match c {
        ByteClass::Alnum => byte_is_alpha(b) || (48 <= b && b <= 57),
        ByteClass::Alpha => byte_is_alpha(b),
        ByteClass::Ascii => b < 128,
        ByteClass::Digit => 48 <= b && b <= 57,
        ByteClass::Space => byte_is_space(b),
    }
}

/// The uppercase form of `b`.
pub fn byte_to_upper(b: u8) -> (r: u8)
    ensures
        r == to_upper(b),
{
    if byte_is_lower(b) {
        b - 32
    } else {
        b
    }
}

/// The lowercase form of `b`.
pub fn byte_to_lower(b: u8) -> (r: u8)
    ensures
        r == to_lower(b),
{
    if byte_is_upper(b) {
        b + 32
    } else {
        b
    }
}

/// The image of `b` under the mapping.
pub fn byte_apply_case(m: CaseMap, b: u8) -> (r: u8)
    ensures
        r == apply_case(m, b),
{
    match m {
        CaseMap::Lower => byte_to_lower(b),
        CaseMap::Upper => byte_to_upper(b),
        CaseMap::Swap => if byte_is_lower(b) {
            byte_to_upper(b)
        } else {
            byte_to_lower(b)
        },
    }
}

impl PyBytes {
    /// Whether every byte belongs to the class.
    pub fn all_in(&self, c: ByteClass) -> (r: bool)
        ensures
            r == all_in_class(self@, c),
    {
        let s = self.get_value();
        let mut i: usize = 0;
        while i < s.len()
            invariant
                s@ == self@,
                i <= s@.len(),
                forall|j: int| 0 <= j < i ==> #[trigger] in_class(s@[j], c),
            decreases s@.len() - i,
        {
            if !byte_in_class(s[i], c) {
                return false;
            }
            i += 1;
        }
        true
    }

    /// `b.isalnum()`: nonempty, and every byte an ASCII letter or digit.
    pub fn isalnum(&self) -> (r: bool)
        ensures
            r == (self@.len() > 0 && all_in_class(self@, ByteClass::Alnum)),
    {
        self.len() > 0 && self.all_in(ByteClass::Alnum)
    }

    /// `b.isalpha()`: nonempty, and every byte an ASCII letter.
    pub fn isalpha(&self) -> (r: bool)
        ensures
            r == (self@.len() > 0 && all_in_class(self@, ByteClass::Alpha)),
    {
        self.len() > 0 && self.all_in(ByteClass::Alpha)
    }

    /// `b.isascii()`: every byte below 128 (true of the empty object).
    pub fn isascii(&self) -> (r: bool)
        ensures
            r == all_in_class(self@, ByteClass::Ascii),
    {
        self.all_in(ByteClass::Ascii)
    }

    /// `b.isdigit()`: nonempty, and every byte an ASCII digit.
    pub fn isdigit(&self) -> (r: bool)
        ensures
            r == (self@.len() > 0 && all_in_class(self@, ByteClass::Digit)),
    {
        self.len() > 0 && self.all_in(ByteClass::Digit)
    }

    /// `b.isspace()`: nonempty, and every byte ASCII whitespace.
    pub fn isspace(&self) -> (r: bool)
        ensures
            r == (self@.len() > 0 && all_in_class(self@, ByteClass::Space)),
    {
        self.len() > 0 && self.all_in(ByteClass::Space)
    }

    /// Whether some byte is a letter of the given case (`upper`) and none a
    /// letter of the other case.
    fn cased_only(&self, upper: bool) -> (r: bool)
        ensures
            r == if upper {
                (exists|i: int| 0 <= i < self@.len() && #[trigger] is_upper(self@[i]))
                    && (forall|i: int| 0 <= i < self@.len() ==> !#[trigger] is_lower(self@[i]))
            } else {
                (exists|i: int| 0 <= i < self@.len() && #[trigger] is_lower(self@[i]))
                    && (forall|i: int| 0 <= i < self@.len() ==> !#[trigger] is_upper(self@[i]))
            },
    {
        let s = self.get_value();
        let mut seen = false;
        let mut i: usize = 0;
        while i < s.len()
            invariant
                s@ == self@,
                i <= s@.len(),
                seen == if upper {
                    exists|j: int| 0 <= j < i && #[trigger] is_upper(s@[j])
                } else {
                    exists|j: int| 0 <= j < i && #[trigger] is_lower(s@[j])
                },
                forall|j: int|
                    0 <= j < i ==> !(if upper {
                        is_lower(#[trigger] s@[j])
                    } else {
                        is_upper(s@[j])
                    }),
            decreases s@.len() - i,
        {
            let b = s[i];
            let wanted = if upper {
                byte_is_upper(b)
            } else {
                byte_is_lower(b)
            };
            let other = if upper {
                byte_is_lower(b)
            } else {
                byte_is_upper(b)
            };
            if other {
                return false;
            }
            if wanted {
                seen = true;
            }
            i += 1;
        }
        seen
    }

    /// `b.islower()`: some lowercase letter and no uppercase letter.
    pub fn islower(&self) -> (r: bool)
        ensures
            r == ((exists|i: int| 0 <= i < self@.len() && #[trigger] is_lower(self@[i]))
                && (forall|i: int| 0 <= i < self@.len() ==> !#[trigger] is_upper(self@[i]))),
    {
        self.cased_only(false)
    }

    /// `b.isupper()`: some uppercase letter and no lowercase letter.
    pub fn isupper(&self) -> (r: bool)
        ensures
            r == ((exists|i: int| 0 <= i < self@.len() && #[trigger] is_upper(self@[i]))
                && (forall|i: int| 0 <= i < self@.len() ==> !#[trigger] is_lower(self@[i]))),
    {
        self.cased_only(true)
    }

    /// `b.istitle()`: see [`is_title`].
    pub fn istitle(&self) -> (r: bool)
        ensures
            r == is_title(self@),
    {
        let s = self.get_value();
        let mut cased = false;
        let mut prev_cased = false;
        let mut i: usize = 0;
        while i < s.len()
            invariant
                s@ == self@,
                i <= s@.len(),
                cased ==> exists|j: int| 0 <= j < i && #[trigger] is_alpha(s@[j]),
                !cased ==> forall|j: int| 0 <= j < i ==> !#[trigger] is_alpha(s@[j]),
                prev_cased == (i > 0 && is_alpha(s@[i - 1])),
                forall|j: int| 0 <= j < i && #[trigger] is_upper(s@[j]) ==> (j == 0 || !is_alpha(s@[j - 1])),
                forall|j: int| 0 <= j < i && #[trigger] is_lower(s@[j]) ==> (j > 0 && is_alpha(s@[j - 1])),
            decreases s@.len() - i,
        {
            let b = s[i];
            let ghost k = i as int;
            if byte_is_upper(b) {
                if prev_cased {
                    assert(is_upper(s@[k]));
                    return false;
                }
                assert(is_alpha(s@[k]));
                prev_cased = true;
                cased = true;
            } else if byte_is_lower(b) {
                if !prev_cased {
                    assert(is_lower(s@[k]));
                    return false;
                }
                assert(is_alpha(s@[k]));
                prev_cased = true;
                cased = true;
            } else {
                assert(!is_alpha(s@[k]));
                prev_cased = false;
            }
            i += 1;
        }
        cased
    }

    /// `s` with the mapping applied to each byte.
    fn map_bytes(&self, m: CaseMap) -> (r: PyBytes)
        ensures
            r@ == map_case(self@, m),
    {
        let s = self.get_value();
        let mut out: Vec<u8> = Vec::new();
        let mut i: usize = 0;
        while i < s.len()
            invariant
                s@ == self@,
                i <= s@.len(),
                out@ =~= map_case(s@, m).take(i as int),
            decreases s@.len() - i,
        {
            out.push(byte_apply_case(m, s[i]));
            i += 1;
        }
        PyBytes::new(out)
    }

    /// `b.lower()`: every ASCII uppercase letter in lower case.
    pub fn lower(&self) -> (r: PyBytes)
        ensures
            r@ == map_case(self@, CaseMap::Lower),
    {
        self.map_bytes(CaseMap::Lower)
    }

    /// `b.upper()`: every ASCII lowercase letter in upper case.
    pub fn upper(&self) -> (r: PyBytes)
        ensures
            r@ == map_case(self@, CaseMap::Upper),
    {
        self.map_bytes(CaseMap::Upper)
    }

    /// `b.swapcase()`: every ASCII letter in the other case.
    pub fn swapcase(&self) -> (r: PyBytes)
        ensures
            r@ == map_case(self@, CaseMap::Swap),
    {
        self.map_bytes(CaseMap::Swap)
    }

    /// `b.capitalize()`: the first byte in upper case, the others in lower case.
    pub fn capitalize(&self) -> (r: PyBytes)
        ensures
            r@ == capitalized(self@),
    {
        let s = self.get_value();
        let mut out: Vec<u8> = Vec::new();
        let mut i: usize = 0;
        while i < s.len()
            invariant
                s@ == self@,
                i <= s@.len(),
                out@ =~= capitalized(s@).take(i as int),
            decreases s@.len() - i,
        {
            let b = if i == 0 {
                byte_to_upper(s[i])
            } else {
                byte_to_lower(s[i])
            };
            out.push(b);
            i += 1;
        }
        PyBytes::new(out)
    }

    /// `b.title()`: see [`titled`].
    pub fn title(&self) -> (r: PyBytes)
        ensures
            r@ == titled(self@),
    {
        let s = self.get_value();
        let mut out: Vec<u8> = Vec::new();
        let mut i: usize = 0;
        while i < s.len()
            invariant
                s@ == self@,
                i <= s@.len(),
                out@ =~= titled(s@).take(i as int),
            decreases s@.len() - i,
        {
            let b = if i > 0 && byte_is_alpha(s[i - 1]) {
                byte_to_lower(s[i])
            } else {
                byte_to_upper(s[i])
            };
            out.push(b);
            i += 1;
        }
        PyBytes::new(out)
    }
}

} // verus!
