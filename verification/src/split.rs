use vstd::prelude::*;

use crate::bytes::{PyBytes, extend_range};
use crate::ctype::{is_space, byte_is_space};
use crate::error::BytesError;
use crate::search::{first_from, last_before, find_from, rfind_before};

verus! {

/// The views of a list of bytes objects.
pub open spec fn views(v: Seq<PyBytes>) -> Seq<Seq<u8>> {
    v.map_values(|b: PyBytes| b@)
}

/// The pieces of `s[pos..]` between up to `m` occurrences of the nonempty
/// `sep`, found from the left; a negative `m` sets no limit.
pub open spec fn split_from(s: Seq<u8>, sep: Seq<u8>, pos: int, m: int) -> Seq<Seq<u8>>
    decreases s.len() - pos,
{
    if sep.len() == 0 || pos < 0 || pos > s.len() {
        Seq::empty()
    } else if m == 0 {
        seq![s.subrange(pos, s.len() as int)]
    } else {
        match first_from(s, sep, pos) {
            None => seq![s.subrange(pos, s.len() as int)],
            Some(i) => if pos <= i && i + sep.len() <= s.len() {
                seq![s.subrange(pos, i)] + split_from(s, sep, i + sep.len(), m - 1)
            } else {
                Seq::empty()
            },
        }
    }
}

/// The pieces of `s[..end]` between up to `m` occurrences of the nonempty
/// `sep`, found from the right; a negative `m` sets no limit.
pub open spec fn rsplit_to(s: Seq<u8>, sep: Seq<u8>, end: int, m: int) -> Seq<Seq<u8>>
    decreases end,
{
    if sep.len() == 0 || end < 0 || end > s.len() {
        Seq::empty()
    } else if m == 0 {
        seq![s.subrange(0, end)]
    } else {
        match last_before(s, sep, end) {
            None => seq![s.subrange(0, end)],
            Some(i) => if 0 <= i && i + sep.len() <= end {
                rsplit_to(s, sep, i, m - 1).push(s.subrange(i + sep.len(), end))
            } else {
                Seq::empty()
            },
        }
    }
}

/// The first index at or after `i` that does not hold whitespace, or the length.
pub open spec fn skip_space(s: Seq<u8>, i: int) -> int
    decreases s.len() - i,
{
    if 0 <= i < s.len() && is_space(s[i]) {
        skip_space(s, i + 1)
    } else {
        i
    }
}

/// The first index at or after `i` that holds whitespace, or the length.
pub open spec fn skip_word(s: Seq<u8>, i: int) -> int
    decreases s.len() - i,
{
    if 0 <= i < s.len() && !is_space(s[i]) {
        skip_word(s, i + 1)
    } else {
        i
    }
}

/// The end of `s[..j]` once trailing whitespace is removed.
pub open spec fn skip_space_back(s: Seq<u8>, j: int) -> int
    decreases j,
{
    if 0 < j <= s.len() && is_space(s[j - 1]) {
        skip_space_back(s, j - 1)
    } else {
        j
    }
}

/// The start of the run of non-whitespace bytes that ends at `j`.
pub open spec fn skip_word_back(s: Seq<u8>, j: int) -> int
    decreases j,
{
    if 0 < j <= s.len() && !is_space(s[j - 1]) {
        skip_word_back(s, j - 1)
    } else {
        j
    }
}

/// The runs of non-whitespace bytes of `s[i..]`, from the left; after `m` of
/// them (none when `m` is negative), whatever follows the next whitespace run
/// is one last piece.
pub open spec fn split_ws_from(s: Seq<u8>, i: int, m: int) -> Seq<Seq<u8>>
    decreases s.len() - i,
{
    let p = skip_space(s, i);
    if i < 0 || i > s.len() || p >= s.len() {
        Seq::empty()
    } else if m == 0 {
        seq![s.subrange(p, s.len() as int)]
    } else {
        let q = skip_word(s, p);
        if i < q <= s.len() && p <= q {
            seq![s.subrange(p, q)] + split_ws_from(s, q, m - 1)
        } else {
            Seq::empty()
        }
    }
}

/// The runs of non-whitespace bytes of `s[..j]`, from the right; after `m` of
/// them (none when `m` is negative), whatever precedes the next whitespace run
/// is one last piece.
pub open spec fn rsplit_ws_to(s: Seq<u8>, j: int, m: int) -> Seq<Seq<u8>>
    decreases j,
{
    let p = skip_space_back(s, j);
    if j < 0 || j > s.len() || p <= 0 {
        Seq::empty()
    } else if m == 0 {
        seq![s.subrange(0, p)]
    } else {
        let q = skip_word_back(s, p);
        if 0 <= q < j && q <= p {
            rsplit_ws_to(s, q, m - 1).push(s.subrange(q, p))
        } else {
            Seq::empty()
        }
    }
}

/// A line break byte: line feed or carriage return.
pub open spec fn is_line_break(b: u8) -> bool {
    b == 10 || b == 13
}

/// The first index at or after `i` that holds a line break, or the length.
pub open spec fn line_end(s: Seq<u8>, i: int) -> int
    decreases s.len() - i,
{
    if 0 <= i < s.len() && !is_line_break(s[i]) {
        line_end(s, i + 1)
    } else {
        i
    }
}

/// Where the line that ends at `e` is followed by the next one: after a
/// `\r\n` pair or a single break byte.
pub open spec fn after_break(s: Seq<u8>, e: int) -> int {
    if e < s.len() {
        if s[e] == 13 && e + 1 < s.len() && s[e + 1] == 10 {
            e + 2
        } else {
            e + 1
        }
    } else {
        s.len() as int
    }
}

/// The lines of `s[j..]`, each with its line break when `keepends` holds.
pub open spec fn lines_from(s: Seq<u8>, j: int, keepends: bool) -> Seq<Seq<u8>>
    decreases s.len() - j,
{
    if j < 0 || j >= s.len() {
        Seq::empty()
    } else {
        let e = line_end(s, j);
        let next = after_break(s, e);
        if j < next <= s.len() && j <= e <= next {
            seq![s.subrange(j, if keepends { next } else { e })] + lines_from(s, next, keepends)
        } else {
            Seq::empty()
        }
    }
}

fn skip_space_exec(s: &[u8], i: usize) -> (r: usize)
    requires
        i <= s@.len(),
    ensures
        r == skip_space(s@, i as int),
        i <= r <= s@.len(),
        r < s@.len() ==> !is_space(s@[r as int]),
{
    let mut k = i;
    while k < s.len() && byte_is_space(s[k])
        invariant
            i <= k <= s@.len(),
            skip_space(s@, i as int) == skip_space(s@, k as int),
        decreases s@.len() - k,
    {
        k += 1;
    }
    k
}

fn skip_word_exec(s: &[u8], i: usize) -> (r: usize)
    requires
        i <= s@.len(),
    ensures
        r == skip_word(s@, i as int),
        i <= r <= s@.len(),
        i < s@.len() && !is_space(s@[i as int]) ==> i < r,
{
    let mut k = i;
    while k < s.len() && !byte_is_space(s[k])
        invariant
            i <= k <= s@.len(),
            skip_word(s@, i as int) == skip_word(s@, k as int),
        decreases s@.len() - k,
    {
        k += 1;
    }
    k
}

fn skip_space_back_exec(s: &[u8], j: usize) -> (r: usize)
    requires
        j <= s@.len(),
    ensures
        r == skip_space_back(s@, j as int),
        r <= j,
        r > 0 ==> !is_space(s@[r - 1]),
{
    let mut k = j;
    while k > 0 && byte_is_space(s[k - 1])
        invariant
            k <= j <= s@.len(),
            skip_space_back(s@, j as int) == skip_space_back(s@, k as int),
        decreases k,
    {
        k -= 1;
    }
    k
}

fn skip_word_back_exec(s: &[u8], j: usize) -> (r: usize)
    requires
        j <= s@.len(),
    ensures
        r == skip_word_back(s@, j as int),
        r <= j,
        j > 0 && !is_space(s@[j - 1]) ==> r < j,
{
    let mut k = j;
    while k > 0 && !byte_is_space(s[k - 1])
        invariant
            k <= j <= s@.len(),
            skip_word_back(s@, j as int) == skip_word_back(s@, k as int),
        decreases k,
    {
        k -= 1;
    }
    k
}

fn line_end_exec(s: &[u8], i: usize) -> (r: usize)
    requires
        i <= s@.len(),
    ensures
        r == line_end(s@, i as int),
        i <= r <= s@.len(),
{
    let mut k = i;
    while k < s.len() && s[k] != 10 && s[k] != 13
        invariant
            i <= k <= s@.len(),
            line_end(s@, i as int) == line_end(s@, k as int),
        decreases s@.len() - k,
    {
        k += 1;
    }
    k
}

/// A new bytes object holding `s[lo..hi]`.
fn piece(s: &[u8], lo: usize, hi: usize) -> (r: PyBytes)
    requires
        lo <= hi <= s@.len(),
    ensures
        r@ == s@.subrange(lo as int, hi as int),
{
    let mut out: Vec<u8> = Vec::new();
    extend_range(&mut out, s, lo, hi);
    PyBytes::new(out)
}

/// The list `v` reversed.
fn reversed(v: Vec<PyBytes>) -> (r: Vec<PyBytes>)
    ensures
        views(r@) == views(v@).reverse(),
{
    let mut v = v;
    let ghost orig = views(v@);
    let mut out: Vec<PyBytes> = Vec::new();
    while v.len() > 0
        invariant
            views(v@) + views(out@).reverse() == orig,
        decreases v@.len(),
    {
        let ghost before_v = v@;
        let ghost before_out = out@;
        let b = v.pop().unwrap();
        out.push(b);
        assert(views(before_v) =~= views(v@).push(b@));
        assert(views(out@).reverse() =~= seq![b@] + views(before_out).reverse());
        assert(views(v@) + views(out@).reverse() =~= views(before_v) + views(before_out).reverse());
    }
    assert(views(v@) =~= Seq::<Seq<u8>>::empty());
    assert(views(out@).reverse() =~= orig);
    assert(views(out@) =~= orig.reverse());
    out
}

impl PyBytes {
    /// The pieces between up to `m` occurrences of the nonempty `sep`, from the left.
    fn split_by(&self, sep: &[u8], maxsplit: isize) -> (r: Vec<PyBytes>)
        requires
            sep@.len() > 0,
            self@.len() <= isize::MAX,
        ensures
            views(r@) == split_from(self@, sep@, 0, maxsplit as int),
    {
        let s = self.get_value();
        let len = s.len();
        let n = sep.len();
        let mut out: Vec<PyBytes> = Vec::new();
        let mut pos: usize = 0;
        let mut m: i128 = maxsplit as i128;
        loop
            invariant
                s@ == self@,
                len == s@.len(),
                len <= isize::MAX,
                n == sep@.len(),
                n > 0,
                pos <= len,
                maxsplit - pos <= m <= maxsplit,
                split_from(s@, sep@, 0, maxsplit as int) == views(out@) + split_from(s@, sep@, pos as int, m as int),
            decreases len - pos,
        {
            let found = if m == 0 {
                None
            } else {
                find_from(s, sep, pos)
            };
            let ghost before = out@;
            match found {
                None => {
                    out.push(piece(s, pos, len));
                    assert(views(out@) =~= views(before) + split_from(s@, sep@, pos as int, m as int));
                    return out;
                },
                Some(i) => {
                    out.push(piece(s, pos, i));
                    assert(views(out@) + split_from(s@, sep@, (i + n) as int, m - 1) =~= views(before)
                        + split_from(s@, sep@, pos as int, m as int));
                    pos = i + n;
                    m = m - 1;
                },
            }
        }
    }

    /// The pieces between up to `m` occurrences of the nonempty `sep`, from the right.
    fn rsplit_by(&self, sep: &[u8], maxsplit: isize) -> (r: Vec<PyBytes>)
        requires
            sep@.len() > 0,
            self@.len() <= isize::MAX,
        ensures
            views(r@) == rsplit_to(self@, sep@, self@.len() as int, maxsplit as int),
    {
        let s = self.get_value();
        let len = s.len();
        let n = sep.len();
        let mut rev: Vec<PyBytes> = Vec::new();
        let mut end: usize = len;
        let mut m: i128 = maxsplit as i128;
        loop
            invariant
                s@ == self@,
                len == s@.len(),
                len <= isize::MAX,
                n == sep@.len(),
                n > 0,
                end <= len,
                maxsplit - (len - end) <= m <= maxsplit,
                rsplit_to(s@, sep@, len as int, maxsplit as int) == rsplit_to(s@, sep@, end as int, m as int)
                    + views(rev@).reverse(),
            decreases end,
        {
            let found = if m == 0 {
                None
            } else {
                rfind_before(s, sep, end)
            };
            let ghost before = rev@;
            match found {
                None => {
                    rev.push(piece(s, 0, end));
                    assert(views(rev@).reverse() =~= rsplit_to(s@, sep@, end as int, m as int) + views(before).reverse());
                    return reversed(rev);
                },
                Some(i) => {
                    rev.push(piece(s, i + n, end));
                    assert(rsplit_to(s@, sep@, i as int, m - 1) + views(rev@).reverse() =~= rsplit_to(
                        s@,
                        sep@,
                        end as int,
                        m as int,
                    ) + views(before).reverse());
                    end = i;
                    m = m - 1;
                },
            }
        }
    }

    /// The runs of non-whitespace bytes, from the left, at most `maxsplit` of
    /// them before the rest (none when `maxsplit` is negative).
    fn split_whitespace(&self, maxsplit: isize) -> (r: Vec<PyBytes>)
        requires
            self@.len() <= isize::MAX,
        ensures
            views(r@) == split_ws_from(self@, 0, maxsplit as int),
    {
        let s = self.get_value();
        let len = s.len();
        let mut out: Vec<PyBytes> = Vec::new();
        let mut i: usize = 0;
        let mut m: i128 = maxsplit as i128;
        loop
            invariant
                s@ == self@,
                len == s@.len(),
                len <= isize::MAX,
                i <= len,
                maxsplit - i <= m <= maxsplit,
                split_ws_from(s@, 0, maxsplit as int) == views(out@) + split_ws_from(s@, i as int, m as int),
            decreases len - i,
        {
            let p = skip_space_exec(s, i);
            let ghost before = out@;
            if p >= len {
                assert(views(out@) =~= views(out@) + split_ws_from(s@, i as int, m as int));
                return out;
            }
            if m == 0 {
                out.push(piece(s, p, len));
                assert(views(out@) =~= views(before) + split_ws_from(s@, i as int, m as int));
                return out;
            }
            let q = skip_word_exec(s, p);
            out.push(piece(s, p, q));
            assert(views(out@) + split_ws_from(s@, q as int, m - 1) =~= views(before) + split_ws_from(
                s@,
                i as int,
                m as int,
            ));
            i = q;
            m = m - 1;
        }
    }

    /// The runs of non-whitespace bytes, from the right, at most `maxsplit` of
    /// them after the rest (none when `maxsplit` is negative).
    fn rsplit_whitespace(&self, maxsplit: isize) -> (r: Vec<PyBytes>)
        requires
            self@.len() <= isize::MAX,
        ensures
            views(r@) == rsplit_ws_to(self@, self@.len() as int, maxsplit as int),
    {
        let s = self.get_value();
        let len = s.len();
        let mut rev: Vec<PyBytes> = Vec::new();
        let mut j: usize = len;
        let mut m: i128 = maxsplit as i128;
        loop
            invariant
                s@ == self@,
                len == s@.len(),
                len <= isize::MAX,
                j <= len,
                maxsplit - (len - j) <= m <= maxsplit,
                rsplit_ws_to(s@, len as int, maxsplit as int) == rsplit_ws_to(s@, j as int, m as int)
                    + views(rev@).reverse(),
            decreases j,
        {
            let p = skip_space_back_exec(s, j);
            let ghost before = rev@;
            if p == 0 {
                assert(views(rev@).reverse() =~= rsplit_ws_to(s@, j as int, m as int) + views(before).reverse());
                return reversed(rev);
            }
            if m == 0 {
                rev.push(piece(s, 0, p));
                assert(views(rev@).reverse() =~= rsplit_ws_to(s@, j as int, m as int) + views(before).reverse());
                return reversed(rev);
            }
            let q = skip_word_back_exec(s, p);
            rev.push(piece(s, q, p));
            assert(rsplit_ws_to(s@, q as int, m - 1) + views(rev@).reverse() =~= rsplit_ws_to(
                s@,
                j as int,
                m as int,
            ) + views(before).reverse());
            j = q;
            m = m - 1;
        }
    }

    /// `b.split(sep, maxsplit)`: the pieces of `b` between occurrences of `sep`,
    /// at most `maxsplit` splits from the left (no limit when negative); without
    /// `sep`, the runs of non-whitespace bytes.
    pub fn split(&self, sep: Option<&[u8]>, maxsplit: isize) -> (r: Result<Vec<PyBytes>, BytesError>)
        requires
            self@.len() <= isize::MAX,
        ensures
            match sep {
                None => r matches Ok(v) && views(v@) == split_ws_from(self@, 0, maxsplit as int),
                Some(p) => if p@.len() == 0 {
                    r matches Err(e) && e == BytesError::EmptySeparator
                } else {
                    r matches Ok(v) && views(v@) == split_from(self@, p@, 0, maxsplit as int)
                },
            },
    {
        match sep {
            None => Ok(self.split_whitespace(maxsplit)),
            Some(p) => {
                if p.len() == 0 {
                    return Err(BytesError::EmptySeparator);
                }
                Ok(self.split_by(p, maxsplit))
            },
        }
    }

    /// `b.rsplit(sep, maxsplit)`: like `split`, but the splits are made from the right.
    pub fn rsplit(&self, sep: Option<&[u8]>, maxsplit: isize) -> (r: Result<Vec<PyBytes>, BytesError>)
        requires
            self@.len() <= isize::MAX,
        ensures
            match sep {
                None => r matches Ok(v) && views(v@) == rsplit_ws_to(self@, self@.len() as int, maxsplit as int),
                Some(p) => if p@.len() == 0 {
                    r matches Err(e) && e == BytesError::EmptySeparator
                } else {
                    r matches Ok(v) && views(v@) == rsplit_to(self@, p@, self@.len() as int, maxsplit as int)
                },
            },
    {
        match sep {
            None => Ok(self.rsplit_whitespace(maxsplit)),
            Some(p) => {
                if p.len() == 0 {
                    return Err(BytesError::EmptySeparator);
                }
                Ok(self.rsplit_by(p, maxsplit))
            },
        }
    }

    /// `b.splitlines(keepends)`: the lines of `b`, broken at `\n`, `\r` and
    /// `\r\n`, each with its break when `keepends` holds.
    pub fn splitlines(&self, keepends: bool) -> (r: Vec<PyBytes>)
        ensures
            views(r@) == lines_from(self@, 0, keepends),
    {
        let s = self.get_value();
        let len = s.len();
        let mut out: Vec<PyBytes> = Vec::new();
        let mut j: usize = 0;
        while j < len
            invariant
                s@ == self@,
                len == s@.len(),
                j <= len,
                lines_from(s@, 0, keepends) == views(out@) + lines_from(s@, j as int, keepends),
            decreases len - j,
        {
            let e = line_end_exec(s, j);
            let next: usize = if e < len {
                if s[e] == 13 && e + 1 < len && s[e + 1] == 10 {
                    e + 2
                } else {
                    e + 1
                }
            } else {
                len
            };
            let ghost before = out@;
            let stop = if keepends {
                next
            } else {
                e
            };
            out.push(piece(s, j, stop));
            assert(views(out@) + lines_from(s@, next as int, keepends) =~= views(before) + lines_from(
                s@,
                j as int,
                keepends,
            ));
            j = next;
        }
        assert(views(out@) =~= views(out@) + lines_from(s@, j as int, keepends));
        out
    }

    /// `b.partition(sep)`: the part before the first occurrence of `sep`, `sep`
    /// itself, and the part after it; `(b, sep, b"")` when `sep` does not occur.
    /// The separator always stands in the middle.
    pub fn partition(&self, sep: &[u8]) -> (r: Result<(PyBytes, PyBytes, PyBytes), BytesError>)
        requires
            self@.len() <= isize::MAX,
        ensures
            sep@.len() == 0 ==> r == Err::<(PyBytes, PyBytes, PyBytes), BytesError>(BytesError::EmptySeparator),
            sep@.len() > 0 ==> match first_from(self@, sep@, 0) {
                Some(i) => r matches Ok((a, m, b)) && a@ == self@.subrange(0, i) && m@ == sep@
                    && b@ == self@.subrange(i + sep@.len(), self@.len() as int),
                None => r matches Ok((a, m, b)) && a@ == self@ && m@ == sep@ && b@.len() == 0,
            },
    {
        if sep.len() == 0 {
            return Err(BytesError::EmptySeparator);
        }
        let s = self.get_value();
        let len = s.len();
        match find_from(s, sep, 0) {
            Some(i) => Ok((piece(s, 0, i), piece(sep, 0, sep.len()), piece(s, i + sep.len(), len))),
            None => {
                let whole = piece(s, 0, len);
                assert(s@.subrange(0, len as int) =~= s@);
                assert(sep@.subrange(0, sep@.len() as int) =~= sep@);
                Ok((whole, piece(sep, 0, sep.len()), PyBytes::new(Vec::new())))
            },
        }
    }

    /// `b.rpartition(sep)`: the part before the last occurrence of `sep`, `sep`
    /// itself, and the part after it; `(b"", sep, b)` when `sep` does not occur.
    /// The separator always stands in the middle.
    pub fn rpartition(&self, sep: &[u8]) -> (r: Result<(PyBytes, PyBytes, PyBytes), BytesError>)
        requires
            self@.len() <= isize::MAX,
        ensures
            sep@.len() == 0 ==> r == Err::<(PyBytes, PyBytes, PyBytes), BytesError>(BytesError::EmptySeparator),
            sep@.len() > 0 ==> match last_before(self@, sep@, self@.len() as int) {
                Some(i) => r matches Ok((a, m, b)) && a@ == self@.subrange(0, i) && m@ == sep@
                    && b@ == self@.subrange(i + sep@.len(), self@.len() as int),
                None => r matches Ok((a, m, b)) && a@.len() == 0 && m@ == sep@ && b@ == self@,
            },
    {
        if sep.len() == 0 {
            return Err(BytesError::EmptySeparator);
        }
        let s = self.get_value();
        let len = s.len();
        match rfind_before(s, sep, len) {
            Some(i) => Ok((piece(s, 0, i), piece(sep, 0, sep.len()), piece(s, i + sep.len(), len))),
            None => {
                let whole = piece(s, 0, len);
                assert(s@.subrange(0, len as int) =~= s@);
                assert(sep@.subrange(0, sep@.len() as int) =~= sep@);
                Ok((PyBytes::new(Vec::new()), piece(sep, 0, sep.len()), whole))
            },
        }
    }
}

} // verus!
