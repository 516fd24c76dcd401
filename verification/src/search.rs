use vstd::prelude::*;

use crate::bytes::PyBytes;
use crate::error::BytesError;

verus! {

/// What a search looks for: a bytes-like object, or a single byte given as an integer.
#[derive(Debug, Clone)]
pub enum ByteNeedle {
    Bytes(Vec<u8>),
    Int(i64),
}

/// The bytes that a needle stands for; `None` for an integer outside `range(0, 256)`.
pub open spec fn needle_seq(n: ByteNeedle) -> Option<Seq<u8>> {
    match n {
        ByteNeedle::Bytes(v) => Some(v@),
        ByteNeedle::Int(i) => if 0 <= i < 256 {
            Some(seq![i as u8])
        } else {
            None
        },
    }
}

/// What `startswith` and `endswith` look for: one bytes object, or any of a tuple of them.
#[derive(Debug, Clone)]
pub enum Affix {
    One(Vec<u8>),
    AnyOf(Vec<Vec<u8>>),
}

/// `p` occurs at the start of the window `[lo, hi)` of `s` (`at_end` false),
/// or at its end (`at_end` true).
pub open spec fn window_match(s: Seq<u8>, p: Seq<u8>, lo: int, hi: int, at_end: bool) -> bool {
    if at_end {
        ends_with_in(s, p, lo, hi)
    } else {
        starts_with_in(s, p, lo, hi)
    }
}

/// Some candidate of the affix matches the window `[lo, hi)` of `s`, at its
/// start or at its end.
pub open spec fn affix_matches(s: Seq<u8>, a: Affix, lo: int, hi: int, at_end: bool) -> bool {
    match a {
        Affix::One(v) => window_match(s, v@, lo, hi, at_end),
        Affix::AnyOf(vs) => exists|k: int|
            #![trigger vs@[k]]
            0 <= k < vs@.len() && window_match(s, vs@[k]@, lo, hi, at_end),
    }
}

/// `sub` occurs in `s` starting at index `i`.
pub open spec fn occurs_at(s: Seq<u8>, sub: Seq<u8>, i: int) -> bool {
    0 <= i && i + sub.len() <= s.len() && s.subrange(i, i + sub.len()) == sub
}

/// `sub` occurs in `s` at index `i`, inside the window `[lo, hi)`.
pub open spec fn in_window(s: Seq<u8>, sub: Seq<u8>, lo: int, hi: int, i: int) -> bool {
    lo <= i && i + sub.len() <= hi && occurs_at(s, sub, i)
}

/// `sub` occurs somewhere inside the window `[lo, hi)` of `s`.
pub open spec fn occurs_in(s: Seq<u8>, sub: Seq<u8>, lo: int, hi: int) -> bool {
    exists|i: int| #[trigger] in_window(s, sub, lo, hi, i)
}

/// `i` is the leftmost occurrence of `sub` inside the window `[lo, hi)` of `s`.
pub open spec fn is_first_in(s: Seq<u8>, sub: Seq<u8>, lo: int, hi: int, i: int) -> bool {
    &&& in_window(s, sub, lo, hi, i)
    &&& forall|j: int| lo <= j < i ==> !#[trigger] in_window(s, sub, lo, hi, j)
}

/// `i` is the rightmost occurrence of `sub` inside the window `[lo, hi)` of `s`.
pub open spec fn is_last_in(s: Seq<u8>, sub: Seq<u8>, lo: int, hi: int, i: int) -> bool {
    &&& in_window(s, sub, lo, hi, i)
    &&& forall|j: int| i < j ==> !#[trigger] in_window(s, sub, lo, hi, j)
}

/// Where an optional slice start lands in a sequence of length `len`:
/// negative values count from the end, and what is still negative becomes 0.
pub open spec fn adjust_start(start: Option<isize>, len: int) -> int {
    match start {
        None => 0,
        Some(st) => if st < 0 {
            if st + len < 0 {
                0
            } else {
                st + len
            }
        } else {
            st as int
        },
    }
}

/// Where an optional slice end lands in a sequence of length `len`:
/// like [`adjust_start`], and besides, no further than `len`.
pub open spec fn adjust_end(end: Option<isize>, len: int) -> int {
    match end {
        None => len,
        Some(e) => if e > len {
            len
        } else if e < 0 {
            if e + len < 0 {
                0
            } else {
                e + len
            }
        } else {
            e as int
        },
    }
}

/// The leftmost occurrence of `sub` in `s` at index `i` or later.
pub open spec fn first_from(s: Seq<u8>, sub: Seq<u8>, i: int) -> Option<int>
    decreases s.len() - i,
{
    if i < 0 || i + sub.len() > s.len() {
        None
    } else if occurs_at(s, sub, i) {
        Some(i)
    } else if i >= s.len() {
        None
    } else {
        first_from(s, sub, i + 1)
    }
}

/// The rightmost occurrence of `sub` in `s` that ends at index `j` or before.
pub open spec fn last_before(s: Seq<u8>, sub: Seq<u8>, j: int) -> Option<int>
    decreases j,
{
    if j < sub.len() || j > s.len() {
        None
    } else if occurs_at(s, sub, j - sub.len()) {
        Some(j - sub.len())
    } else if j <= 0 {
        None
    } else {
        last_before(s, sub, j - 1)
    }
}

/// The number of non-overlapping occurrences of `sub` in the window `[i, hi)`,
/// taken greedily from the left.
pub open spec fn count_from(s: Seq<u8>, sub: Seq<u8>, i: int, hi: int) -> nat
    decreases hi - i,
{
    if sub.len() == 0 || i < 0 || i + sub.len() > hi {
        0
    } else if occurs_at(s, sub, i) {
        1 + count_from(s, sub, i + sub.len(), hi)
    } else {
        count_from(s, sub, i + 1, hi)
    }
}

/// The number of non-overlapping occurrences of `sub` in the window `[lo, hi)`;
/// the empty sequence occurs at each of the `hi - lo + 1` positions of a nonempty window.
pub open spec fn count_in(s: Seq<u8>, sub: Seq<u8>, lo: int, hi: int) -> int {
    if sub.len() == 0 {
        if lo <= hi {
            hi - lo + 1
        } else {
            0
        }
    } else {
        count_from(s, sub, lo, hi) as int
    }
}

/// `prefix` occurs in `s` at the start of the window `[lo, hi)`.
pub open spec fn starts_with_in(s: Seq<u8>, prefix: Seq<u8>, lo: int, hi: int) -> bool {
    lo + prefix.len() <= hi && occurs_at(s, prefix, lo)
}

/// `suffix` occurs in `s` at the end of the window `[lo, hi)`.
pub open spec fn ends_with_in(s: Seq<u8>, suffix: Seq<u8>, lo: int, hi: int) -> bool {
    lo + suffix.len() <= hi && occurs_at(s, suffix, hi - suffix.len())
}

/// The bytes of a needle, or the error for an integer outside `range(0, 256)`.
pub fn needle_bytes(needle: &ByteNeedle) -> (r: Result<Vec<u8>, BytesError>)
    ensures
        match needle_seq(*needle) {
            Some(n) => r matches Ok(v) && v@ == n,
            None => r == Err::<Vec<u8>, BytesError>(BytesError::ByteOutOfRange),
        },
{
    match needle {
        ByteNeedle::Bytes(v) => Ok(vstd::slice::slice_to_vec(v.as_slice())),
        ByteNeedle::Int(i) => {
            if 0 <= *i && *i < 256 {
                let mut v: Vec<u8> = Vec::new();
                v.push(*i as u8);
                assert(v@ =~= seq![*i as u8]);
                Ok(v)
            } else {
                Err(BytesError::ByteOutOfRange)
            }
        },
    }
}

/// Whether `sub` occurs in `s` at index `i`.
pub fn occurs_at_exec(s: &[u8], sub: &[u8], i: usize) -> (r: bool)
    ensures
        r == occurs_at(s@, sub@, i as int),
{
    if i > s.len() || s.len() - i < sub.len() {
        return false;
    }
    let slen = s.len();
    let mut k: usize = 0;
    while k < sub.len()
        invariant
            slen == s@.len(),
            k <= sub@.len(),
            i + sub@.len() <= s@.len(),
            forall|m: int| 0 <= m < k ==> s@[i + m] == sub@[m],
        decreases sub@.len() - k,
    {
        if s[i + k] != sub[k] {
            assert(s@.subrange(i as int, i + sub@.len())[k as int] != sub@[k as int]);
            return false;
        }
        k += 1;
    }
    assert(s@.subrange(i as int, i + sub@.len()) =~= sub@);
    true
}

/// The index that an optional slice start denotes in a sequence of length `len`.
pub fn adjust_start_exec(start: Option<isize>, len: usize) -> (r: usize)
    requires
        len <= isize::MAX,
    ensures
        r == adjust_start(start, len as int),
{
    match start {
        None => 0,
        Some(st) => {
            if st < 0 {
                let back: usize = (0 - (st as i128)) as usize;
                if back > len {
                    0
                } else {
                    len - back
                }
            } else {
                st as usize
            }
        },
    }
}

/// The index that an optional slice end denotes in a sequence of length `len`.
pub fn adjust_end_exec(end: Option<isize>, len: usize) -> (r: usize)
    requires
        len <= isize::MAX,
    ensures
        r == adjust_end(end, len as int),
        r <= len,
{
    match end {
        None => len,
        Some(e) => {
            if e >= 0 && e as usize > len {
                len
            } else if e < 0 {
                let back: usize = (0 - (e as i128)) as usize;
                if back > len {
                    0
                } else {
                    len - back
                }
            } else {
                e as usize
            }
        },
    }
}

/// The leftmost occurrence of `sub` in `s` at index `pos` or later.
pub fn find_from(s: &[u8], sub: &[u8], pos: usize) -> (r: Option<usize>)
    requires
        s@.len() <= isize::MAX,
    ensures
        match r {
            Some(i) => first_from(s@, sub@, pos as int) == Some(i as int),
            None => first_from(s@, sub@, pos as int) is None,
        },
        r matches Some(i) ==> pos <= i && i + sub@.len() <= s@.len(),
{
    let n = sub.len();
    let len = s.len();
    let mut i = pos;
    while i <= len && len - i >= n
        invariant
            len == s@.len(),
            len <= isize::MAX,
            n == sub@.len(),
            pos <= i,
            first_from(s@, sub@, pos as int) == first_from(s@, sub@, i as int),
        decreases len - i + 1,
    {
        if occurs_at_exec(s, sub, i) {
            return Some(i);
        }
        if i >= len {
            return None;
        }
        i += 1;
    }
    None
}

/// The rightmost occurrence of `sub` in `s` that ends at index `end` or before.
pub fn rfind_before(s: &[u8], sub: &[u8], end: usize) -> (r: Option<usize>)
    requires
        s@.len() <= isize::MAX,
    ensures
        match r {
            Some(i) => last_before(s@, sub@, end as int) == Some(i as int),
            None => last_before(s@, sub@, end as int) is None,
        },
        r matches Some(i) ==> i + sub@.len() <= end,
{
    let n = sub.len();
    if end < n || end > s.len() {
        return None;
    }
    let mut j = end;
    loop
        invariant
            n == sub@.len(),
            n <= j <= end <= s@.len(),
            last_before(s@, sub@, end as int) == last_before(s@, sub@, j as int),
        decreases j,
    {
        if occurs_at_exec(s, sub, j - n) {
            return Some(j - n);
        }
        if j == 0 || j - 1 < n {
            return None;
        }
        j -= 1;
    }
}

/// The leftmost occurrence of `sub` in the window `[lo, hi)` of `s`.
pub fn find_in(s: &[u8], sub: &[u8], lo: usize, hi: usize) -> (r: Option<usize>)
    requires
        hi <= s@.len(),
        s@.len() <= isize::MAX,
    ensures
        r matches Some(i) ==> is_first_in(s@, sub@, lo as int, hi as int, i as int),
        r is None ==> !occurs_in(s@, sub@, lo as int, hi as int),
{
    let n = sub.len();
    let mut i = lo;
    while i <= hi && hi - i >= n
        invariant
            hi <= s@.len(),
            s@.len() <= isize::MAX,
            n == sub@.len(),
            lo <= i,
            forall|j: int| lo <= j < i ==> !#[trigger] in_window(s@, sub@, lo as int, hi as int, j),
        decreases hi - i + 1,
    {
        if occurs_at_exec(s, sub, i) {
            return Some(i);
        }
        i += 1;
    }
    assert forall|j: int| #[trigger] in_window(s@, sub@, lo as int, hi as int, j) implies false by {
        assert(lo <= j < i);
    }
    None
}

/// The rightmost occurrence of `sub` in the window `[lo, hi)` of `s`.
pub fn rfind_in(s: &[u8], sub: &[u8], lo: usize, hi: usize) -> (r: Option<usize>)
    requires
        hi <= s@.len(),
    ensures
        r matches Some(i) ==> is_last_in(s@, sub@, lo as int, hi as int, i as int),
        r is None ==> !occurs_in(s@, sub@, lo as int, hi as int),
{
    let n = sub.len();
    if hi < n || hi - n < lo {
        assert forall|j: int| #[trigger] in_window(s@, sub@, lo as int, hi as int, j) implies false by {}
        return None;
    }
    let mut i = hi - n;
    loop
        invariant
            hi <= s@.len(),
            n == sub@.len(),
            lo <= i,
            i + n <= hi,
            forall|j: int| i < j ==> !#[trigger] in_window(s@, sub@, lo as int, hi as int, j),
        decreases i,
    {
        if occurs_at_exec(s, sub, i) {
            return Some(i);
        }
        if i == lo {
            assert forall|j: int| #[trigger] in_window(s@, sub@, lo as int, hi as int, j) implies false by {
                assert(i < j || j == i);
            }
            return None;
        }
        i -= 1;
    }
}

/// The number of non-overlapping occurrences of `sub` in the window `[lo, hi)` of `s`.
pub fn count_in_exec(s: &[u8], sub: &[u8], lo: usize, hi: usize) -> (r: usize)
    requires
        hi <= s@.len(),
        s@.len() < usize::MAX,
    ensures
        r == count_in(s@, sub@, lo as int, hi as int),
{
    let n = sub.len();
    if n == 0 {
        return if lo <= hi {
            hi - lo + 1
        } else {
            0
        };
    }
    let mut i = lo;
    let mut c: usize = 0;
    while i <= hi && hi - i >= n
        invariant
            hi <= s@.len(),
            s@.len() < usize::MAX,
            n == sub@.len(),
            n > 0,
            lo <= i,
            c <= i - lo,
            count_from(s@, sub@, lo as int, hi as int) == c + count_from(s@, sub@, i as int, hi as int),
        decreases hi - i + 1,
    {
        if occurs_at_exec(s, sub, i) {
            c += 1;
            i += n;
        } else {
            i += 1;
        }
    }
    c
}

impl PyBytes {
    /// The window `[start, end)` that optional slice bounds select, as Python
    /// slices do for searches.
    fn window(&self, start: Option<isize>, end: Option<isize>) -> (w: (usize, usize))
        requires
            self@.len() <= isize::MAX,
        ensures
            w.0 == adjust_start(start, self@.len() as int),
            w.1 == adjust_end(end, self@.len() as int),
            w.1 <= self@.len(),
    {
        let len = self.len();
        (adjust_start_exec(start, len), adjust_end_exec(end, len))
    }

    /// `b.find(sub, start, end)`: the lowest index at which `sub` occurs inside
    /// `b[start:end]`, or -1.
    pub fn find(&self, sub: &ByteNeedle, start: Option<isize>, end: Option<isize>) -> (r: Result<isize, BytesError>)
        requires
            self@.len() <= isize::MAX,
        ensures
            ({
                let lo = adjust_start(start, self@.len() as int);
                let hi = adjust_end(end, self@.len() as int);
                match needle_seq(*sub) {
                    None => r == Err::<isize, BytesError>(BytesError::ByteOutOfRange),
                    Some(n) => r matches Ok(i) && (if occurs_in(self@, n, lo, hi) {
                        is_first_in(self@, n, lo, hi, i as int)
                    } else {
                        i == -1
                    }),
                }
            }),
    {
        let needle = needle_bytes(sub)?;
        let (lo, hi) = self.window(start, end);
        match find_in(self.get_value(), needle.as_slice(), lo, hi) {
            Some(i) => Ok(i as isize),
            None => Ok(-1),
        }
    }

    /// `b.rfind(sub, start, end)`: the highest index at which `sub` occurs inside
    /// `b[start:end]`, or -1.
    pub fn rfind(&self, sub: &ByteNeedle, start: Option<isize>, end: Option<isize>) -> (r: Result<isize, BytesError>)
        requires
            self@.len() <= isize::MAX,
        ensures
            ({
                let lo = adjust_start(start, self@.len() as int);
                let hi = adjust_end(end, self@.len() as int);
                match needle_seq(*sub) {
                    None => r == Err::<isize, BytesError>(BytesError::ByteOutOfRange),
                    Some(n) => r matches Ok(i) && (if occurs_in(self@, n, lo, hi) {
                        is_last_in(self@, n, lo, hi, i as int)
                    } else {
                        i == -1
                    }),
                }
            }),
    {
        let needle = needle_bytes(sub)?;
        let (lo, hi) = self.window(start, end);
        match rfind_in(self.get_value(), needle.as_slice(), lo, hi) {
            Some(i) => Ok(i as isize),
            None => Ok(-1),
        }
    }

    /// `b.index(sub, start, end)`: like `find`, but a missing `sub` is an error.
    pub fn index(&self, sub: &ByteNeedle, start: Option<isize>, end: Option<isize>) -> (r: Result<usize, BytesError>)
        requires
            self@.len() <= isize::MAX,
        ensures
            ({
                let lo = adjust_start(start, self@.len() as int);
                let hi = adjust_end(end, self@.len() as int);
                match needle_seq(*sub) {
                    None => r == Err::<usize, BytesError>(BytesError::ByteOutOfRange),
                    Some(n) => if occurs_in(self@, n, lo, hi) {
                        r matches Ok(i) && is_first_in(self@, n, lo, hi, i as int)
                    } else {
                        r == Err::<usize, BytesError>(BytesError::SubstringNotFound)
                    },
                }
            }),
    {
        let needle = needle_bytes(sub)?;
        let (lo, hi) = self.window(start, end);
        match find_in(self.get_value(), needle.as_slice(), lo, hi) {
            Some(i) => Ok(i),
            None => Err(BytesError::SubstringNotFound),
        }
    }

    /// `b.rindex(sub, start, end)`: like `rfind`, but a missing `sub` is an error.
    pub fn rindex(&self, sub: &ByteNeedle, start: Option<isize>, end: Option<isize>) -> (r: Result<usize, BytesError>)
        requires
            self@.len() <= isize::MAX,
        ensures
            ({
                let lo = adjust_start(start, self@.len() as int);
                let hi = adjust_end(end, self@.len() as int);
                match needle_seq(*sub) {
                    None => r == Err::<usize, BytesError>(BytesError::ByteOutOfRange),
                    Some(n) => if occurs_in(self@, n, lo, hi) {
                        r matches Ok(i) && is_last_in(self@, n, lo, hi, i as int)
                    } else {
                        r == Err::<usize, BytesError>(BytesError::SubstringNotFound)
                    },
                }
            }),
    {
        let needle = needle_bytes(sub)?;
        let (lo, hi) = self.window(start, end);
        match rfind_in(self.get_value(), needle.as_slice(), lo, hi) {
            Some(i) => Ok(i),
            None => Err(BytesError::SubstringNotFound),
        }
    }

    /// `b.count(sub, start, end)`: the number of non-overlapping occurrences of
    /// `sub` in `b[start:end]`.
    pub fn count(&self, sub: &ByteNeedle, start: Option<isize>, end: Option<isize>) -> (r: Result<usize, BytesError>)
        requires
            self@.len() <= isize::MAX,
        ensures
            match needle_seq(*sub) {
                None => r == Err::<usize, BytesError>(BytesError::ByteOutOfRange),
                Some(n) => r matches Ok(c) && c == count_in(
                    self@,
                    n,
                    adjust_start(start, self@.len() as int),
                    adjust_end(end, self@.len() as int),
                ),
            },
    {
        let needle = needle_bytes(sub)?;
        let (lo, hi) = self.window(start, end);
        Ok(count_in_exec(self.get_value(), needle.as_slice(), lo, hi))
    }

    /// `needle in b`: whether the needle occurs anywhere in `b`.
    pub fn contains(&self, needle: &ByteNeedle) -> (r: Result<bool, BytesError>)
        requires
            self@.len() <= isize::MAX,
        ensures
            match needle_seq(*needle) {
                None => r == Err::<bool, BytesError>(BytesError::ByteOutOfRange),
                Some(n) => r == Ok::<bool, BytesError>(occurs_in(self@, n, 0, self@.len() as int)),
            },
    {
        let n = needle_bytes(needle)?;
        Ok(find_in(self.get_value(), n.as_slice(), 0, self.len()).is_some())
    }

    /// Whether one of the candidates matches the window `[lo, hi)` at its start
    /// (`at_end` false) or at its end (`at_end` true).
    fn tail_match(&self, affix: &Affix, lo: usize, hi: usize, at_end: bool) -> (r: bool)
        requires
            hi <= self@.len(),
            self@.len() <= isize::MAX,
        ensures
            r == affix_matches(self@, *affix, lo as int, hi as int, at_end),
    {
        match affix {
            Affix::One(p) => self.matches_window(p.as_slice(), lo, hi, at_end),
            Affix::AnyOf(ps) => {
                let mut k: usize = 0;
                while k < ps.len()
                    invariant
                        *affix == Affix::AnyOf(*ps),
                        hi <= self@.len(),
                        self@.len() <= isize::MAX,
                        k <= ps@.len(),
                        forall|m: int|
                            #![trigger ps@[m]]
                            0 <= m < k ==> !window_match(self@, ps@[m]@, lo as int, hi as int, at_end),
                    decreases ps@.len() - k,
                {
                    if self.matches_window(ps[k].as_slice(), lo, hi, at_end) {
                        assert(window_match(self@, ps@[k as int]@, lo as int, hi as int, at_end));
                        assert((*affix)->AnyOf_0 == *ps);
                        return true;
                    }
                    k += 1;
                }
                false
            },
        }
    }

    /// Whether `p` occurs at the start (or the end) of the window `[lo, hi)`.
    fn matches_window(&self, p: &[u8], lo: usize, hi: usize, at_end: bool) -> (r: bool)
        requires
            hi <= self@.len(),
            self@.len() <= isize::MAX,
        ensures
            r == window_match(self@, p@, lo as int, hi as int, at_end),
    {
        let n = p.len();
        if lo > hi || hi - lo < n {
            return false;
        }
        if at_end {
            occurs_at_exec(self.get_value(), p, hi - n)
        } else {
            occurs_at_exec(self.get_value(), p, lo)
        }
    }

    /// `b.startswith(prefix, start, end)`: whether `b[start:end]` begins with the
    /// prefix, or with one of a tuple of prefixes.
    pub fn startswith(&self, prefix: &Affix, start: Option<isize>, end: Option<isize>) -> (r: bool)
        requires
            self@.len() <= isize::MAX,
        ensures
            r == affix_matches(
                self@,
                *prefix,
                adjust_start(start, self@.len() as int),
                adjust_end(end, self@.len() as int),
                false,
            ),
    {
        let (lo, hi) = self.window(start, end);
        self.tail_match(prefix, lo, hi, false)
    }

    /// `b.endswith(suffix, start, end)`: whether `b[start:end]` ends with the
    /// suffix, or with one of a tuple of suffixes.
    pub fn endswith(&self, suffix: &Affix, start: Option<isize>, end: Option<isize>) -> (r: bool)
        requires
            self@.len() <= isize::MAX,
        ensures
            r == affix_matches(
                self@,
                *suffix,
                adjust_start(start, self@.len() as int),
                adjust_end(end, self@.len() as int),
                true,
            ),
    {
        let (lo, hi) = self.window(start, end);
        self.tail_match(suffix, lo, hi, true)
    }
}

} // verus!
