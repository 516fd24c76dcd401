use vstd::prelude::*;

use crate::bytes::{PyBytes, extend_range, extend_fill};
use crate::error::BytesError;

verus! {

/// `n` copies of the byte `b`.
pub open spec fn fill(b: u8, n: int) -> Seq<u8> {
    Seq::new(if n > 0 { n as nat } else { 0 }, |i: int| b)
}

/// The fill byte that an optional fill argument stands for: a space when it
/// is absent, its only byte when it holds one; `None` when it holds any other
/// number of bytes.
pub open spec fn fill_byte(fillchar: Option<&[u8]>) -> Option<u8> {
    match fillchar {
        None => Some(32u8),
        Some(c) => if c@.len() == 1 {
            Some(c@[0])
        } else {
            None
        },
    }
}

/// How many fill bytes `center` puts on the left of `s` to reach `width`.
pub open spec fn center_left(len: int, width: int) -> int {
    let marg = width - len;
    marg / 2 + if marg % 2 == 1 && width % 2 == 1 {
        1int
    } else {
        0
    }
}

/// `s` padded with `f` up to `width`: on the right (`Left`), on the left
/// (`Right`), or on both sides (`Center`); unchanged when already that long.
pub open spec fn justified(s: Seq<u8>, width: int, f: u8, how: Justify) -> Seq<u8> {
    if width <= s.len() {
        s
    } else {
        match how {
            Justify::Left => s + fill(f, width - s.len()),
            Justify::Right => fill(f, width - s.len()) + s,
            Justify::Center => {
                let left = center_left(s.len() as int, width);
                fill(f, left) + s + fill(f, width - s.len() - left)
            },
        }
    }
}

/// Where the padding goes.
#[derive(Debug, Clone, Copy, PartialEq, Eq, Structural)]
pub enum Justify {
    Left,
    Right,
    Center,
}

/// `s` padded on the left with zeros up to `width`, any leading sign kept in front.
pub open spec fn zero_filled(s: Seq<u8>, width: int) -> Seq<u8> {
    if width <= s.len() {
        s
    } else if s.len() > 0 && (s[0] == 43 || s[0] == 45) {
        seq![s[0]] + fill(48, width - s.len()) + s.subrange(1, s.len() as int)
    } else {
        fill(48, width - s.len()) + s
    }
}

/// The output and the column reached after expanding the tabs of the first
/// `i` bytes of `s`: a tab becomes spaces up to the next multiple of
/// `tabsize` (nothing when `tabsize` is not positive), a line break resets the
/// column, and any other byte is copied.
pub open spec fn expand_prefix(s: Seq<u8>, tabsize: int, i: int) -> (Seq<u8>, int)
    decreases i,
{
    if i <= 0 || i > s.len() {
        (Seq::empty(), 0)
    } else {
        let (out, col) = expand_prefix(s, tabsize, i - 1);
        let c = s[i - 1];
        if c == 9 {
            if tabsize > 0 {
                let incr = tabsize - col % tabsize;
                (out + fill(32, incr), col + incr)
            } else {
                (out, col)
            }
        } else if c == 10 || c == 13 {
            (out.push(c), 0)
        } else {
            (out.push(c), col + 1)
        }
    }
}

/// `s` with its tabs expanded.
pub open spec fn expanded(s: Seq<u8>, tabsize: int) -> Seq<u8> {
    expand_prefix(s, tabsize, s.len() as int).0
}

/// Expanding more bytes never shortens the output, and the column is never
/// beyond the output's length.
pub proof fn lemma_expand_grows(s: Seq<u8>, tabsize: int, i: int, j: int)
    requires
        0 <= i <= j <= s.len(),
    ensures
        expand_prefix(s, tabsize, i).0.len() <= expand_prefix(s, tabsize, j).0.len(),
        0 <= expand_prefix(s, tabsize, j).1 <= expand_prefix(s, tabsize, j).0.len(),
    decreases j,
{
    if j > 0 {
        lemma_expand_grows(s, tabsize, if i == j { j - 1 } else { i }, j - 1);
        if tabsize > 0 {
            let col = expand_prefix(s, tabsize, j - 1).1;
            assert(0 <= col % tabsize < tabsize) by {
                vstd::arithmetic::div_mod::lemma_mod_pos_bound(col, tabsize);
            }
        }
    }
}

impl PyBytes {
    /// The fill byte of an optional fill argument, or the error for one that
    /// is not a single byte.
    fn fill_of(fillchar: Option<&[u8]>) -> (r: Result<u8, BytesError>)
        ensures
            match fill_byte(fillchar) {
                Some(f) => r == Ok::<u8, BytesError>(f),
                None => r == Err::<u8, BytesError>(BytesError::FillCharLength),
            },
    {
        match fillchar {
            None => Ok(32),
            Some(c) => if c.len() == 1 {
                Ok(c[0])
            } else {
                Err(BytesError::FillCharLength)
            },
        }
    }

    /// Pads to `width` with the fill byte, as `how` asks.
    fn justify(&self, width: isize, fillchar: Option<&[u8]>, how: Justify) -> (r: Result<PyBytes, BytesError>)
        ensures
            match fill_byte(fillchar) {
                Some(f) => r matches Ok(b) && b@ == justified(self@, width as int, f, how),
                None => r == Err::<PyBytes, BytesError>(BytesError::FillCharLength),
            },
    {
        let f = Self::fill_of(fillchar)?;
        let s = self.get_value();
        let len = s.len();
        let mut out: Vec<u8> = Vec::new();
        if width <= 0 || width as usize <= len {
            extend_range(&mut out, s, 0, len);
            assert(s@.subrange(0, len as int) =~= s@);
            return Ok(PyBytes::new(out));
        }
        let w = width as usize;
        let marg = w - len;
        let (left, right) = match how {
            Justify::Left => (0, marg),
            Justify::Right => (marg, 0),
            Justify::Center => {
                let extra: usize = if marg % 2 == 1 && w % 2 == 1 {
                    1
                } else {
                    0
                };
                let l = marg / 2 + extra;
                (l, marg - l)
            },
        };
        extend_fill(&mut out, f, left);
        extend_range(&mut out, s, 0, len);
        extend_fill(&mut out, f, right);
        assert(s@.subrange(0, len as int) =~= s@);
        assert(out@ =~= justified(s@, width as int, f, how));
        Ok(PyBytes::new(out))
    }

    /// `b.ljust(width, fillchar)`: `b` padded on the right up to `width`.
    pub fn ljust(&self, width: isize, fillchar: Option<&[u8]>) -> (r: Result<PyBytes, BytesError>)
        ensures
            match fill_byte(fillchar) {
                Some(f) => r matches Ok(b) && b@ == justified(self@, width as int, f, Justify::Left),
                None => r == Err::<PyBytes, BytesError>(BytesError::FillCharLength),
            },
    {
        self.justify(width, fillchar, Justify::Left)
    }

    /// `b.rjust(width, fillchar)`: `b` padded on the left up to `width`.
    pub fn rjust(&self, width: isize, fillchar: Option<&[u8]>) -> (r: Result<PyBytes, BytesError>)
        ensures
            match fill_byte(fillchar) {
                Some(f) => r matches Ok(b) && b@ == justified(self@, width as int, f, Justify::Right),
                None => r == Err::<PyBytes, BytesError>(BytesError::FillCharLength),
            },
    {
        self.justify(width, fillchar, Justify::Right)
    }

    /// `b.center(width, fillchar)`: `b` padded on both sides up to `width`.
    pub fn center(&self, width: isize, fillchar: Option<&[u8]>) -> (r: Result<PyBytes, BytesError>)
        ensures
            match fill_byte(fillchar) {
                Some(f) => r matches Ok(b) && b@ == justified(self@, width as int, f, Justify::Center),
                None => r == Err::<PyBytes, BytesError>(BytesError::FillCharLength),
            },
    {
        self.justify(width, fillchar, Justify::Center)
    }

    /// `b.zfill(width)`: `b` padded on the left with ASCII zeros up to
    /// `width`, a leading `+` or `-` kept in front.
    pub fn zfill(&self, width: isize) -> (r: PyBytes)
        ensures
            r@ == zero_filled(self@, width as int),
    {
        let s = self.get_value();
        let len = s.len();
        let mut out: Vec<u8> = Vec::new();
        if width <= 0 || width as usize <= len {
            extend_range(&mut out, s, 0, len);
            assert(s@.subrange(0, len as int) =~= s@);
            return PyBytes::new(out);
        }
        let n = width as usize - len;
        if len > 0 && (s[0] == 43 || s[0] == 45) {
            out.push(s[0]);
            extend_fill(&mut out, 48, n);
            extend_range(&mut out, s, 1, len);
        } else {
            extend_fill(&mut out, 48, n);
            extend_range(&mut out, s, 0, len);
            assert(s@.subrange(0, len as int) =~= s@);
        }
        assert(out@ =~= zero_filled(s@, width as int));
        PyBytes::new(out)
    }

    /// The length of `b` with its tabs expanded, or `None` when that exceeds `isize::MAX`.
    fn expanded_len(&self, tabsize: isize) -> (r: Option<usize>)
        ensures
            match r {
                Some(n) => n == expanded(self@, tabsize as int).len() && n <= isize::MAX,
                None => expanded(self@, tabsize as int).len() > isize::MAX,
            },
    {
        let s = self.get_value();
        let len = s.len();
        let mut total: usize = 0;
        let mut col: usize = 0;
        let mut i: usize = 0;
        while i < len
            invariant
                s@ == self@,
                len == s@.len(),
                i <= len,
                total <= isize::MAX,
                total == expand_prefix(s@, tabsize as int, i as int).0.len(),
                col == expand_prefix(s@, tabsize as int, i as int).1,
            decreases len - i,
        {
            proof {
                lemma_expand_grows(s@, tabsize as int, i as int, i as int);
            }
            let c = s[i];
            let incr: usize = if c == 9 {
                if tabsize > 0 {
                    let ts = tabsize as usize;
                    ts - col % ts
                } else {
                    0
                }
            } else {
                1
            };
            if incr > isize::MAX as usize - total {
                proof {
                    lemma_expand_grows(s@, tabsize as int, i + 1, len as int);
                }
                return None;
            }
            total = total + incr;
            if c == 9 {
                col = col + incr;
            } else if c == 10 || c == 13 {
                col = 0;
            } else {
                col = col + 1;
            }
            i += 1;
        }
        Some(total)
    }

    /// `b.expandtabs(tabsize)`: see [`expanded`]; a result longer than
    /// `isize::MAX` is an error, found before anything is built.
    pub fn expandtabs(&self, tabsize: isize) -> (r: Result<PyBytes, BytesError>)
        ensures
            expanded(self@, tabsize as int).len() <= isize::MAX ==> (r matches Ok(b) && b@ == expanded(
                self@,
                tabsize as int,
            )),
            expanded(self@, tabsize as int).len() > isize::MAX ==> r == Err::<PyBytes, BytesError>(
                BytesError::ResultTooLong,
            ),
    {
        let total = match self.expanded_len(tabsize) {
            None => return Err(BytesError::ResultTooLong),
            Some(n) => n,
        };
        let s = self.get_value();
        let len = s.len();
        let mut out: Vec<u8> = Vec::new();
        let mut col: usize = 0;
        let mut i: usize = 0;
        while i < len
            invariant
                s@ == self@,
                len == s@.len(),
                i <= len,
                total == expanded(s@, tabsize as int).len(),
                total <= isize::MAX,
                (out@, col as int) == expand_prefix(s@, tabsize as int, i as int),
            decreases len - i,
        {
            proof {
                lemma_expand_grows(s@, tabsize as int, i as int, i as int);
                lemma_expand_grows(s@, tabsize as int, i + 1, len as int);
            }
            let c = s[i];
            if c == 9 {
                if tabsize > 0 {
                    let ts = tabsize as usize;
                    let incr = ts - col % ts;
                    extend_fill(&mut out, 32, incr);
                    col = col + incr;
                }
            } else {
                out.push(c);
                if c == 10 || c == 13 {
                    col = 0;
                } else {
                    col = col + 1;
                }
            }
            i += 1;
        }
        Ok(PyBytes::new(out))
    }
}

} // verus!
