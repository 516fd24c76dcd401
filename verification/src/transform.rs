use vstd::prelude::*;

use crate::bytes::{PyBytes, extend_range, set_contains};
use crate::ctype::{is_space, byte_is_space};
use crate::error::BytesError;
use crate::search::{first_from, find_from};

verus! {

/// `b` is one of the bytes to strip: one of `chars`, or ASCII whitespace when
/// no bytes were given.
pub open spec fn strippable(b: u8, chars: Option<Seq<u8>>) -> bool {
    match chars {
        None => is_space(b),
        Some(c) => c.contains(b),
    }
}

/// The first index at or after `i` that holds a byte not to strip, or the length.
pub open spec fn skip_left(s: Seq<u8>, chars: Option<Seq<u8>>, i: int) -> int
    decreases s.len() - i,
{
    if 0 <= i < s.len() && strippable(s[i], chars) {
        skip_left(s, chars, i + 1)
    } else {
        i
    }
}

/// The end of `s[..j]` once bytes to strip are removed from its right, though
/// never past `lo`.
pub open spec fn skip_right(s: Seq<u8>, chars: Option<Seq<u8>>, j: int, lo: int) -> int
    decreases j,
{
    if 0 <= lo < j <= s.len() && strippable(s[j - 1], chars) {
        skip_right(s, chars, j - 1, lo)
    } else {
        j
    }
}

/// `s` without the bytes to strip at its start.
pub open spec fn lstripped(s: Seq<u8>, chars: Option<Seq<u8>>) -> Seq<u8> {
    s.subrange(skip_left(s, chars, 0), s.len() as int)
}

/// `s` without the bytes to strip at its end.
pub open spec fn rstripped(s: Seq<u8>, chars: Option<Seq<u8>>) -> Seq<u8> {
    s.subrange(0, skip_right(s, chars, s.len() as int, 0))
}

/// `s` without the bytes to strip at either end.
pub open spec fn stripped(s: Seq<u8>, chars: Option<Seq<u8>>) -> Seq<u8> {
    let lo = skip_left(s, chars, 0);
    s.subrange(lo, skip_right(s, chars, s.len() as int, lo))
}

/// The optional byte set as a sequence.
pub open spec fn opt_view(chars: Option<&[u8]>) -> Option<Seq<u8>> {
    match chars {
        None => None,
        Some(c) => Some(c@),
    }
}

/// Whether `b` is a byte to strip.
fn is_strippable(b: u8, chars: Option<&[u8]>) -> (r: bool)
    ensures
        r == strippable(b, opt_view(chars)),
{
    match chars {
        None => byte_is_space(b),
        Some(c) => set_contains(c, b),
    }
}

/// `s` with each byte not in `delete` replaced by its entry in `table`
/// (kept when there is no table), taking the first `i` bytes.
pub open spec fn translate_prefix(s: Seq<u8>, table: Option<Seq<u8>>, delete: Seq<u8>, i: int) -> Seq<u8>
    decreases i,
{
    if i <= 0 || i > s.len() {
        Seq::empty()
    } else {
        let prev = translate_prefix(s, table, delete, i - 1);
        let b = s[i - 1];
        if delete.contains(b) {
            prev
        } else {
            prev.push(
                match table {
                    None => b,
                    Some(t) => t[b as int],
                },
            )
        }
    }
}

/// The separator-joined sequence of `parts[i..]`, each part preceded by `sep`.
pub open spec fn join_tail(sep: Seq<u8>, parts: Seq<Seq<u8>>, i: int) -> Seq<u8>
    decreases parts.len() - i,
{
    if i < 0 || i >= parts.len() {
        Seq::empty()
    } else {
        sep + parts[i] + join_tail(sep, parts, i + 1)
    }
}

/// The parts joined, with `sep` between each two neighbours.
pub open spec fn joined(sep: Seq<u8>, parts: Seq<Seq<u8>>) -> Seq<u8> {
    if parts.len() == 0 {
        Seq::empty()
    } else {
        parts[0] + join_tail(sep, parts, 1)
    }
}

/// `s[pos..]` with up to `m` non-overlapping occurrences of the nonempty `old`,
/// taken from the left, replaced by `new`; a negative `m` sets no limit.
pub open spec fn replace_from(s: Seq<u8>, old: Seq<u8>, new: Seq<u8>, pos: int, m: int) -> Seq<u8>
    decreases s.len() - pos,
{
    if old.len() == 0 || pos < 0 || pos > s.len() {
        Seq::empty()
    } else if m == 0 {
        s.subrange(pos, s.len() as int)
    } else {
        match first_from(s, old, pos) {
            None => s.subrange(pos, s.len() as int),
            Some(i) => if pos <= i && i + old.len() <= s.len() {
                s.subrange(pos, i) + new + replace_from(s, old, new, i + old.len(), m - 1)
            } else {
                Seq::empty()
            },
        }
    }
}

/// `new` inserted before each of the first `k` bytes of `s`, each insertion
/// followed by that byte.
pub open spec fn interleave_prefix(s: Seq<u8>, new: Seq<u8>, k: int) -> Seq<u8>
    decreases k,
{
    if k <= 0 {
        Seq::empty()
    } else {
        interleave_prefix(s, new, k - 1) + new + seq![s[k - 1]]
    }
}

/// The result of `s.replace(old, new, count)`: for an empty `old`, `new` is
/// inserted at the first `min(count, len + 1)` gaps of `s` (all when `count` is
/// negative); otherwise see [`replace_from`].
pub open spec fn replaced(s: Seq<u8>, old: Seq<u8>, new: Seq<u8>, count: int) -> Seq<u8> {
    if count == 0 {
        s
    } else if old.len() == 0 {
        let c = if count < 0 || count > s.len() + 1 {
            s.len() + 1int
        } else {
            count
        };
        interleave_prefix(s, new, c - 1) + new + s.subrange(c - 1, s.len() as int)
    } else {
        replace_from(s, old, new, 0, count)
    }
}

/// The table that `bytes.maketrans(from, to)` builds from its first `k`
/// pairs: each byte maps to itself, except that `from[i]` maps to `to[i]`,
/// later pairs overriding earlier ones.
pub open spec fn maketrans_prefix(from: Seq<u8>, to: Seq<u8>, k: int) -> Seq<u8>
    decreases k,
{
    if k <= 0 {
        Seq::new(256, |i: int| i as u8)
    } else {
        maketrans_prefix(from, to, k - 1).update(from[k - 1] as int, to[k - 1])
    }
}

/// The table of the first `k` pairs has 256 entries; a byte that none of those
/// pairs starts from maps to itself, and `from[i]` maps to `to[i]` when no
/// later one of those pairs starts from the same byte.
pub proof fn lemma_maketrans_table(from: Seq<u8>, to: Seq<u8>, k: int)
    requires
        0 <= k <= from.len(),
        from.len() == to.len(),
    ensures
        maketrans_prefix(from, to, k).len() == 256,
        forall|c: u8|
            (forall|j: int| 0 <= j < k ==> from[j] != c) ==> #[trigger] maketrans_prefix(from, to, k)[c as int] == c,
        forall|i: int|
            0 <= i < k && (forall|j: int| i < j < k ==> from[j] != from[i]) ==> #[trigger] maketrans_prefix(
                from,
                to,
                k,
            )[from[i] as int] == to[i],
    decreases k,
{
    if k > 0 {
        lemma_maketrans_table(from, to, k - 1);
        assert forall|i: int|
            0 <= i < k && (forall|j: int| i < j < k ==> from[j] != from[i]) implies #[trigger] maketrans_prefix(
                from,
                to,
                k,
            )[from[i] as int] == to[i] by {
            if i < k - 1 {
                assert(from[k - 1] != from[i]);
            }
        }
    }
}

/// The first index of `s` from `i` on that is not a byte to strip.
fn skip_left_exec(s: &[u8], chars: Option<&[u8]>, i: usize) -> (r: usize)
    requires
        i <= s@.len(),
    ensures
        r == skip_left(s@, opt_view(chars), i as int),
        i <= r <= s@.len(),
{
    let mut k = i;
    while k < s.len() && is_strippable(s[k], chars)
        invariant
            i <= k <= s@.len(),
            skip_left(s@, opt_view(chars), i as int) == skip_left(s@, opt_view(chars), k as int),
        decreases s@.len() - k,
    {
        k += 1;
    }
    k
}

/// The end of `s[..j]` once bytes to strip are removed from its right, never past `lo`.
fn skip_right_exec(s: &[u8], chars: Option<&[u8]>, j: usize, lo: usize) -> (r: usize)
    requires
        lo <= j <= s@.len(),
    ensures
        r == skip_right(s@, opt_view(chars), j as int, lo as int),
        lo <= r <= j,
{
    let mut k = j;
    while k > lo && is_strippable(s[k - 1], chars)
        invariant
            lo <= k <= j <= s@.len(),
            skip_right(s@, opt_view(chars), j as int, lo as int) == skip_right(s@, opt_view(chars), k as int, lo as int),
        decreases k,
    {
        k -= 1;
    }
    k
}

impl PyBytes {
    /// A new object holding `s[lo..hi]`.
    fn sub_bytes(&self, lo: usize, hi: usize) -> (r: PyBytes)
        requires
            lo <= hi <= self@.len(),
        ensures
            r@ == self@.subrange(lo as int, hi as int),
    {
        let mut out: Vec<u8> = Vec::new();
        extend_range(&mut out, self.get_value(), lo, hi);
        PyBytes::new(out)
    }

    /// `b.lstrip(chars)`: `b` without its leading bytes that are in `chars`
    /// (ASCII whitespace when `chars` is `None`).
    pub fn lstrip(&self, chars: Option<&[u8]>) -> (r: PyBytes)
        ensures
            r@ == lstripped(self@, opt_view(chars)),
    {
        let lo = skip_left_exec(self.get_value(), chars, 0);
        self.sub_bytes(lo, self.len())
    }

    /// `b.rstrip(chars)`: `b` without its trailing bytes that are in `chars`
    /// (ASCII whitespace when `chars` is `None`).
    pub fn rstrip(&self, chars: Option<&[u8]>) -> (r: PyBytes)
        ensures
            r@ == rstripped(self@, opt_view(chars)),
    {
        let hi = skip_right_exec(self.get_value(), chars, self.len(), 0);
        self.sub_bytes(0, hi)
    }

    /// `b.strip(chars)`: `b` without its leading and trailing bytes that are in
    /// `chars` (ASCII whitespace when `chars` is `None`).
    pub fn strip(&self, chars: Option<&[u8]>) -> (r: PyBytes)
        ensures
            r@ == stripped(self@, opt_view(chars)),
    {
        let lo = skip_left_exec(self.get_value(), chars, 0);
        let hi = skip_right_exec(self.get_value(), chars, self.len(), lo);
        self.sub_bytes(lo, hi)
    }

    /// `b.translate(table, delete)`: the bytes not in `delete`, each mapped
    /// through the 256-byte `table` (or kept as they are without one).
    pub fn translate(&self, table: Option<&[u8]>, delete: &[u8]) -> (r: Result<PyBytes, BytesError>)
        ensures
            match table {
                Some(t) => if t@.len() != 256 {
                    r == Err::<PyBytes, BytesError>(BytesError::TranslationTableLength)
                } else {
                    r matches Ok(b) && b@ == translate_prefix(self@, Some(t@), delete@, self@.len() as int)
                },
                None => r matches Ok(b) && b@ == translate_prefix(self@, None, delete@, self@.len() as int),
            },
    {
        if let Some(t) = table {
            if t.len() != 256 {
                return Err(BytesError::TranslationTableLength);
            }
        }
        let s = self.get_value();
        let mut out: Vec<u8> = Vec::new();
        let mut i: usize = 0;
        while i < s.len()
            invariant
                s@ == self@,
                i <= s@.len(),
                table matches Some(t) ==> t@.len() == 256,
                out@ == translate_prefix(s@, opt_view(table), delete@, i as int),
            decreases s@.len() - i,
        {
            let b = s[i];
            if !set_contains(delete, b) {
                let mapped = match table {
                    None => b,
                    Some(t) => t[b as usize],
                };
                out.push(mapped);
            }
            i += 1;
        }
        Ok(PyBytes::new(out))
    }

    /// `bytes.maketrans(from, to)`: a 256-byte table for `translate` in which
    /// each byte maps to itself, except that `from[i]` maps to `to[i]` (the
    /// last pair wins for a repeated byte); the two must be equally long.
    pub fn maketrans(from: &[u8], to: &[u8]) -> (r: Result<PyBytes, BytesError>)
        ensures
            from@.len() != to@.len() ==> r == Err::<PyBytes, BytesError>(BytesError::MaketransLength),
            from@.len() == to@.len() ==> (r matches Ok(t) && t@ == maketrans_prefix(
                from@,
                to@,
                from@.len() as int,
            ) && t@.len() == 256 && (forall|c: u8|
                !from@.contains(c) ==> #[trigger] t@[c as int] == c) && (forall|i: int|
                0 <= i < from@.len() && (forall|j: int| i < j < from@.len() ==> from@[j] != from@[i])
                    ==> #[trigger] t@[from@[i] as int] == to@[i])),
    {
        if from.len() != to.len() {
            return Err(BytesError::MaketransLength);
        }
        let mut table: Vec<u8> = Vec::new();
        let mut c: usize = 0;
        while c < 256
            invariant
                c <= 256,
                table@ =~= Seq::new(c as nat, |i: int| i as u8),
            decreases 256 - c,
        {
            table.push(c as u8);
            c += 1;
        }
        let mut k: usize = 0;
        while k < from.len()
            invariant
                k <= from@.len(),
                from@.len() == to@.len(),
                table@ == maketrans_prefix(from@, to@, k as int),
                table@.len() == 256,
            decreases from@.len() - k,
        {
            proof {
                lemma_maketrans_table(from@, to@, k as int);
            }
            table.set(from[k] as usize, to[k]);
            k += 1;
        }
        proof {
            lemma_maketrans_table(from@, to@, from@.len() as int);
            assert forall|c: u8| !from@.contains(c) implies (forall|j: int|
                0 <= j < from@.len() ==> from@[j] != c) by {
                assert forall|j: int| 0 <= j < from@.len() implies from@[j] != c by {
                    if from@[j] == c {
                        assert(from@.contains(c));
                    }
                }
            }
        }
        Ok(PyBytes::new(table))
    }

    /// `sep.join(parts)`: the parts with `sep` between each two neighbours; a
    /// result longer than `isize::MAX` is an error.
    pub fn join(&self, parts: &Vec<PyBytes>) -> (r: Result<PyBytes, BytesError>)
        ensures
            ({
                let j = joined(self@, parts@.map_values(|p: PyBytes| p@));
                if j.len() <= isize::MAX {
                    r matches Ok(b) && b@ == j
                } else {
                    r == Err::<PyBytes, BytesError>(BytesError::ResultTooLong)
                }
            }),
    {
        let ghost views = parts@.map_values(|p: PyBytes| p@);
        let sep = self.get_value();
        let mut out: Vec<u8> = Vec::new();
        if parts.len() == 0 {
            return Ok(PyBytes::new(out));
        }
        let first = parts[0].get_value();
        if first.len() > isize::MAX as usize {
            assert(views[0] == first@);
            return Err(BytesError::ResultTooLong);
        }
        extend_range(&mut out, first, 0, first.len());
        assert(first@.subrange(0, first@.len() as int) =~= first@);
        let mut i: usize = 1;
        while i < parts.len()
            invariant
                views == parts@.map_values(|p: PyBytes| p@),
                sep@ == self@,
                1 <= i <= parts@.len(),
                out@.len() <= isize::MAX,
                out@ + join_tail(sep@, views, i as int) == joined(sep@, views),
            decreases parts@.len() - i,
        {
            let part = parts[i].get_value();
            assert(views[i as int] == part@);
            if sep.len() > isize::MAX as usize - out.len()
                || part.len() > isize::MAX as usize - out.len() - sep.len() {
                assert(joined(sep@, views).len() >= out@.len() + sep@.len() + part@.len());
                return Err(BytesError::ResultTooLong);
            }
            let ghost before = out@;
            extend_range(&mut out, sep, 0, sep.len());
            extend_range(&mut out, part, 0, part.len());
            assert(sep@.subrange(0, sep@.len() as int) =~= sep@);
            assert(part@.subrange(0, part@.len() as int) =~= part@);
            assert(out@ + join_tail(sep@, views, i + 1) =~= before + join_tail(sep@, views, i as int));
            i += 1;
        }
        assert(out@ =~= joined(sep@, views));
        Ok(PyBytes::new(out))
    }

    /// `b.replace(old, new, count)`: see [`replaced`]; `count` defaults to -1.
    /// A result longer than `isize::MAX` is an error.
    pub fn replace(&self, old: &[u8], new: &[u8], count: Option<isize>) -> (r: Result<PyBytes, BytesError>)
        requires
            self@.len() <= isize::MAX,
        ensures
            ({
                let c = match count {
                    None => -1,
                    Some(c) => c as int,
                };
                let res = replaced(self@, old@, new@, c);
                if res.len() <= isize::MAX {
                    r matches Ok(b) && b@ == res
                } else {
                    r == Err::<PyBytes, BytesError>(BytesError::ResultTooLong)
                }
            }),
    {
        let c: isize = match count {
            None => -1,
            Some(c) => c,
        };
        let s = self.get_value();
        let len = s.len();
        let mut out: Vec<u8> = Vec::new();
        if c == 0 {
            extend_range(&mut out, s, 0, len);
            assert(s@.subrange(0, len as int) =~= s@);
            return Ok(PyBytes::new(out));
        }
        if old.len() == 0 {
            let n = new.len();
            let c_eff: usize = if c < 0 || c as usize > len {
                len + 1
            } else {
                c as usize
            };
            let ghost res = replaced(s@, old@, new@, c as int);
            proof {
                lemma_interleave_len(s@, new@, (c_eff - 1) as int);
                assert(res.len() == c_eff * n + len) by (nonlinear_arith)
                    requires
                        res.len() == (c_eff - 1) * (n + 1) + n + (len - (c_eff - 1)),
                        c_eff >= 1,
                ;
                assert(n * c_eff == c_eff * n) by (nonlinear_arith);
            }
            let size = match n.checked_mul(c_eff) {
                Some(x) => x.checked_add(len),
                None => None,
            };
            match size {
                Some(total) => {
                    if total > isize::MAX as usize {
                        return Err(BytesError::ResultTooLong);
                    }
                },
                None => {
                    return Err(BytesError::ResultTooLong);
                },
            }
            let mut k: usize = 0;
            while k < c_eff - 1
                invariant
                    1 <= c_eff <= len + 1,
                    len == s@.len(),
                    n == new@.len(),
                    k <= c_eff - 1,
                    out@ == interleave_prefix(s@, new@, k as int),
                decreases c_eff - 1 - k,
            {
                extend_range(&mut out, new, 0, n);
                out.push(s[k]);
                proof {
                    assert(new@.subrange(0, n as int) =~= new@);
                }
                k += 1;
            }
            extend_range(&mut out, new, 0, n);
            extend_range(&mut out, s, c_eff - 1, len);
            assert(new@.subrange(0, n as int) =~= new@);
            assert(out@ =~= res);
            return Ok(PyBytes::new(out));
        }
        let ghost res = replaced(s@, old@, new@, c as int);
        let n = old.len();
        let mut pos: usize = 0;
        let mut m: i128 = c as i128;
        loop
            invariant
                s@ == self@,
                c == (match count {
                    None => -1isize,
                    Some(x) => x,
                }),
                res == replaced(s@, old@, new@, c as int),
                len == s@.len(),
                len <= isize::MAX,
                n == old@.len(),
                n > 0,
                pos <= len,
                c - pos <= m <= c,
                out@.len() <= isize::MAX,
                res == out@ + replace_from(s@, old@, new@, pos as int, m as int),
            decreases len - pos,
        {
            let found = if m == 0 {
                None
            } else {
                find_from(s, old, pos)
            };
            match found {
                None => {
                    if len - pos > isize::MAX as usize - out.len() {
                        return Err(BytesError::ResultTooLong);
                    }
                    extend_range(&mut out, s, pos, len);
                    return Ok(PyBytes::new(out));
                },
                Some(i) => {
                    if i - pos > isize::MAX as usize - out.len()
                        || new.len() > isize::MAX as usize - out.len() - (i - pos) {
                        return Err(BytesError::ResultTooLong);
                    }
                    extend_range(&mut out, s, pos, i);
                    extend_range(&mut out, new, 0, new.len());
                    assert(new@.subrange(0, new@.len() as int) =~= new@);
                    pos = i + n;
                    m = m - 1;
                },
            }
        }
    }
}

/// `new` inserted before each of the first `k` bytes adds `k` times one more
/// than the length of `new`.
pub proof fn lemma_interleave_len(s: Seq<u8>, new: Seq<u8>, k: int)
    requires
        0 <= k <= s.len(),
    ensures
        interleave_prefix(s, new, k).len() == k * (new.len() + 1),
    decreases k,
{
    if k > 0 {
        lemma_interleave_len(s, new, k - 1);
        assert(k * (new.len() + 1) == (k - 1) * (new.len() + 1) + new.len() + 1) by (nonlinear_arith);
    } else {
        assert(k * (new.len() + 1) == 0) by (nonlinear_arith) requires k == 0;
    }
}

} // verus!
