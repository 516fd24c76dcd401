use vstd::prelude::*;
use vstd::arithmetic::div_mod::{lemma_fundamental_div_mod, lemma_mod_pos_bound, lemma_div_is_ordered_by_denominator};
use vstd::arithmetic::mul::{lemma_mul_inequality, lemma_mul_is_commutative, lemma_mul_is_distributive_add};

use crate::bytes::PyBytes;
use crate::error::BytesError;

verus! {

/// A subscript of a bytes object: an integer index, or a slice `start:stop:step`
/// whose parts may be omitted.
#[derive(Debug, Clone, Copy)]
pub enum Subscript {
    Index(i32),
    Slice(Option<isize>, Option<isize>, Option<isize>),
}

/// What a subscript selects: one byte (Python gives it as an `int`), or a new bytes object.
#[derive(Debug, Clone)]
pub enum Item {
    Byte(u8),
    Bytes(PyBytes),
}

/// The step of a slice; an omitted step is 1.
pub open spec fn slice_step(step: Option<isize>) -> int {
    match step {
        None => 1,
        Some(st) => st as int,
    }
}

/// Where a slice bound lands in a sequence of length `len`, for a nonzero step:
/// an omitted bound is the end the step starts from (`is_start`) or runs to;
/// a negative bound counts from the end; what still falls outside is clamped
/// to the first position before the sequence or after it, as the step's
/// direction asks.
pub open spec fn slice_bound(b: Option<isize>, len: int, step: int, is_start: bool) -> int {
    match b {
        None => if step > 0 {
            if is_start {
                0
            } else {
                len
            }
        } else {
            if is_start {
                len - 1
            } else {
                -1
            }
        },
        Some(v) => if v < 0 {
            if v + len < 0 {
                if step < 0 {
                    -1
                } else {
                    0
                }
            } else {
                v + len
            }
        } else if v >= len {
            if step < 0 {
                len - 1
            } else {
                len
            }
        } else {
            v as int
        },
    }
}

/// The number of positions `lo, lo + step, ...` that lie before `hi` in the
/// direction of the nonzero `step`.
pub open spec fn slice_length(lo: int, hi: int, step: int) -> int {
    if step > 0 {
        if lo < hi {
            (hi - lo - 1) / step + 1
        } else {
            0
        }
    } else {
        if hi < lo {
            (lo - hi - 1) / (-step) + 1
        } else {
            0
        }
    }
}

/// `s[start:stop:step]` for a nonzero step: the bytes at `lo + k * step` for
/// `k` from 0 while the positions stay before the stop bound.
pub open spec fn slice_of(s: Seq<u8>, start: Option<isize>, stop: Option<isize>, step: Option<isize>) -> Seq<u8> {
    let st = slice_step(step);
    let lo = slice_bound(start, s.len() as int, st, true);
    let hi = slice_bound(stop, s.len() as int, st, false);
    Seq::new(slice_length(lo, hi, st) as nat, |k: int| s[lo + k * st])
}

/// The position that an integer index denotes, counting from the end when negative.
pub open spec fn index_position(i: int, len: int) -> int {
    if i < 0 {
        i + len
    } else {
        i
    }
}

/// If `k` is at most `x / d`, then `k * d` is at most `x`; and `x / d` is at most `x`.
proof fn lemma_mul_le_of_le_div(k: int, x: int, d: int)
    requires
        0 <= k <= x / d,
        0 <= x,
        0 < d,
    ensures
        k * d <= x,
        x / d <= x,
{
    lemma_fundamental_div_mod(x, d);
    lemma_mod_pos_bound(x, d);
    lemma_mul_inequality(k, x / d, d);
    lemma_mul_is_commutative(x / d, d);
    lemma_div_is_ordered_by_denominator(x, 1, d);
}

/// Each of the first `slice_length` positions of a slice lies inside the sequence.
proof fn lemma_slice_position_in_bounds(lo: int, hi: int, step: int, len: int, k: int)
    requires
        step != 0,
        step > 0 ==> 0 <= lo <= len && 0 <= hi <= len,
        step < 0 ==> -1 <= lo <= len - 1 && -1 <= hi <= len - 1,
        0 <= k < slice_length(lo, hi, step),
    ensures
        0 <= lo + k * step < len,
        slice_length(lo, hi, step) <= len,
{
    if step > 0 {
        lemma_mul_le_of_le_div(k, hi - lo - 1, step);
        assert(0 <= k * step) by (nonlinear_arith)
            requires
                0 <= k,
                0 < step,
        ;
    } else {
        lemma_mul_le_of_le_div(k, lo - hi - 1, -step);
        assert(k * step == -(k * (-step))) by (nonlinear_arith);
        assert(0 <= k * (-step)) by (nonlinear_arith)
            requires
                0 <= k,
                0 < -step,
        ;
    }
}

/// The bound of a slice, as [`slice_bound`] states it.
fn slice_bound_exec(b: Option<isize>, len: i128, step: i128, is_start: bool) -> (r: i128)
    requires
        0 <= len <= isize::MAX,
        step != 0,
    ensures
        r == slice_bound(b, len as int, step as int, is_start),
        step > 0 ==> 0 <= r <= len,
        step < 0 ==> -1 <= r <= len - 1,
{
    match b {
        None => {
            if step > 0 {
                if is_start {
                    0
                } else {
                    len
                }
            } else {
                if is_start {
                    len - 1
                } else {
                    -1
                }
            }
        },
        Some(v) => {
            let v = v as i128;
            if v < 0 {
                if v + len < 0 {
                    if step < 0 {
                        -1
                    } else {
                        0
                    }
                } else {
                    v + len
                }
            } else if v >= len {
                if step < 0 {
                    len - 1
                } else {
                    len
                }
            } else {
                v
            }
        },
    }
}

impl PyBytes {
    /// `b[start:stop:step]`.
    pub fn get_slice(&self, start: Option<isize>, stop: Option<isize>, step: Option<isize>) -> (r: Result<PyBytes, BytesError>)
        requires
            self@.len() <= isize::MAX,
        ensures
            step == Some(0isize) ==> r == Err::<PyBytes, BytesError>(BytesError::SliceStepZero),
            step != Some(0isize) ==> (r matches Ok(b) && b@ == slice_of(self@, start, stop, step)),
    {
        let st: i128 = match step {
            None => 1,
            Some(v) => v as i128,
        };
        if st == 0 {
            return Err(BytesError::SliceStepZero);
        }
        let s = self.get_value();
        let len = s.len() as i128;
        let lo = slice_bound_exec(start, len, st, true);
        let hi = slice_bound_exec(stop, len, st, false);
        let ghost n_spec = slice_length(lo as int, hi as int, st as int);
        let n: usize = if st > 0 {
            if lo < hi {
                (((hi - lo - 1) as u128 / st as u128) + 1) as usize
            } else {
                0
            }
        } else {
            if hi < lo {
                (((lo - hi - 1) as u128 / (0 - st) as u128) + 1) as usize
            } else {
                0
            }
        };
        assert(n == n_spec) by {
            if n_spec > 0 {
                lemma_slice_position_in_bounds(lo as int, hi as int, st as int, len as int, 0);
            }
        }
        let mut out: Vec<u8> = Vec::new();
        let mut pos: i128 = lo;
        let mut k: usize = 0;
        while k < n
            invariant
                0 <= len <= isize::MAX,
                len == s@.len(),
                st != 0,
                isize::MIN <= st <= isize::MAX,
                st > 0 ==> 0 <= lo <= len && 0 <= hi <= len,
                st < 0 ==> -1 <= lo <= len - 1 && -1 <= hi <= len - 1,
                n == slice_length(lo as int, hi as int, st as int),
                k <= n,
                pos == lo + k * st,
                out@.len() == k,
                forall|j: int| 0 <= j < k ==> out@[j] == s@[lo + j * st],
            decreases n - k,
        {
            proof {
                lemma_slice_position_in_bounds(lo as int, hi as int, st as int, len as int, k as int);
            }
            out.push(s[pos as usize]);
            proof {
                lemma_mul_is_distributive_add(st as int, k as int, 1);
                lemma_mul_is_commutative(st as int, k as int);
                lemma_mul_is_commutative(st as int, k + 1);
            }
            pos = pos + st;
            k += 1;
        }
        let b = PyBytes::new(out);
        assert(b@ =~= slice_of(self@, start, stop, step));
        Ok(b)
    }

    /// `b[i]`: the byte at index `i`, counting from the end when `i` is negative.
    pub fn get_index(&self, i: i32) -> (r: Result<u8, BytesError>)
        ensures
            ({
                let p = index_position(i as int, self@.len() as int);
                if 0 <= p < self@.len() {
                    r == Ok::<u8, BytesError>(self@[p])
                } else {
                    r == Err::<u8, BytesError>(BytesError::IndexOutOfRange)
                }
            }),
    {
        let len = self.len();
        let p: usize = if i < 0 {
            let back = (0 - (i as i64)) as usize;
            if back > len {
                return Err(BytesError::IndexOutOfRange);
            }
            len - back
        } else {
            i as usize
        };
        if p >= len {
            return Err(BytesError::IndexOutOfRange);
        }
        Ok(self.get_value()[p])
    }

    /// `b[subscript]`: a byte for an integer index, a new bytes object for a slice.
    pub fn getitem(&self, subscript: Subscript) -> (r: Result<Item, BytesError>)
        requires
            self@.len() <= isize::MAX,
        ensures
            match subscript {
                Subscript::Index(i) => {
                    let p = index_position(i as int, self@.len() as int);
                    if 0 <= p < self@.len() {
                        r matches Ok(Item::Byte(v)) && v == self@[p]
                    } else {
                        r matches Err(e) && e == BytesError::IndexOutOfRange
                    }
                },
                Subscript::Slice(start, stop, step) => if step == Some(0isize) {
                    r matches Err(e) && e == BytesError::SliceStepZero
                } else {
                    r matches Ok(Item::Bytes(b)) && b@ == slice_of(self@, start, stop, step)
                },
            },
    {
        match subscript {
            Subscript::Index(i) => {
                let v = self.get_index(i)?;
                Ok(Item::Byte(v))
            },
            Subscript::Slice(start, stop, step) => {
                let b = self.get_slice(start, stop, step)?;
                Ok(Item::Bytes(b))
            },
        }
    }
}

} // verus!
