use vstd::prelude::*;
use std::collections::hash_map::DefaultHasher;
use std::hash::Hasher;
use vstd::std_specs::hash::DefaultHasherAdditionalSpecFns;

use crate::error::BytesError;

verus! {

/// An immutable sequence of bytes: the value of a Python `bytes` object.
///
/// Its view is the sequence of bytes it holds.
#[derive(Clone, Debug)]
pub struct PyBytes {
    elements: Vec<u8>,
}

impl View for PyBytes {
    type V = Seq<u8>;

    closed spec fn view(&self) -> Seq<u8> {
        self.elements@
    }
}

impl PyBytes {
    /// Wraps the given bytes.
    pub fn new(elements: Vec<u8>) -> (b: PyBytes)
        ensures
            b@ == elements@,
    {
        PyBytes { elements }
    }

    /// The bytes held.
    pub fn get_value(&self) -> (v: &[u8])
        ensures
            v@ == self@,
    {
        self.elements.as_slice()
    }

    /// The number of bytes held (`len(b)`).
    pub fn len(&self) -> (n: usize)
        ensures
            n == self@.len(),
    {
        self.elements.len()
    }
}

/// `a` comes before `b` in lexicographic order, comparing from index `i` on,
/// where the two agree before `i`.
pub open spec fn lex_less_from(a: Seq<u8>, b: Seq<u8>, i: int) -> bool
    decreases a.len() - i,
{
    if i < 0 || i >= a.len() {
        0 <= i < b.len()
    } else if i >= b.len() {
        false
    } else if a[i] != b[i] {
        a[i] < b[i]
    } else {
        lex_less_from(a, b, i + 1)
    }
}

/// `a` comes before `b` in lexicographic order: at the first index where they
/// differ `a` holds the smaller byte, or `a` is a proper prefix of `b`.
pub open spec fn lex_less(a: Seq<u8>, b: Seq<u8>) -> bool {
    lex_less_from(a, b, 0)
}

/// The hash of a bytes object with the given contents: the default hasher's
/// value after it was fed those bytes, reinterpreted as a signed integer.
pub open spec fn bytes_hash(s: Seq<u8>) -> i64 {
    DefaultHasher::spec_finish(seq![s]) as i64
}

/// `n` copies of `s`, one after the other.
pub open spec fn repeat_seq(s: Seq<u8>, n: nat) -> Seq<u8>
    decreases n,
{
    if n == 0 {
        Seq::empty()
    } else {
        repeat_seq(s, (n - 1) as nat) + s
    }
}

/// `n` copies of `s` are `n` times as long as `s`.
pub proof fn lemma_repeat_len(s: Seq<u8>, n: nat)
    ensures
        repeat_seq(s, n).len() == n * s.len(),
    decreases n,
{
    if n > 0 {
        lemma_repeat_len(s, (n - 1) as nat);
        assert(n * s.len() == (n - 1) * s.len() + s.len()) by (nonlinear_arith);
    } else {
        assert(n * s.len() == 0) by (nonlinear_arith) requires n == 0;
    }
}

impl PyBytes {
    /// `a == b`: whether the two hold the same bytes.
    pub fn eq(&self, other: &PyBytes) -> (r: bool)
        ensures
            r == (self@ == other@),
    {
        let a = self.get_value();
        let b = other.get_value();
        if a.len() != b.len() {
            return false;
        }
        let mut i: usize = 0;
        while i < a.len()
            invariant
                a@ == self@,
                b@ == other@,
                a@.len() == b@.len(),
                i <= a@.len(),
                forall|j: int| 0 <= j < i ==> a@[j] == b@[j],
            decreases a@.len() - i,
        {
            if a[i] != b[i] {
                return false;
            }
            i += 1;
        }
        assert(a@ =~= b@);
        true
    }

    /// `a < b`: lexicographic order of the bytes.
    pub fn lt(&self, other: &PyBytes) -> (r: bool)
        ensures
            r == lex_less(self@, other@),
    {
        let a = self.get_value();
        let b = other.get_value();
        let mut i: usize = 0;
        while i < a.len() && i < b.len()
            invariant
                a@ == self@,
                b@ == other@,
                i <= a@.len(),
                i <= b@.len(),
                lex_less_from(a@, b@, 0) == lex_less_from(a@, b@, i as int),
            decreases a@.len() - i,
        {
            if a[i] != b[i] {
                return a[i] < b[i];
            }
            i += 1;
        }
        i < b.len()
    }

    /// `a > b`: `b` comes before `a`.
    pub fn gt(&self, other: &PyBytes) -> (r: bool)
        ensures
            r == lex_less(other@, self@),
    {
        other.lt(self)
    }

    /// `a <= b`: `a` comes before `b` or equals it.
    pub fn le(&self, other: &PyBytes) -> (r: bool)
        ensures
            r == (lex_less(self@, other@) || self@ == other@),
    {
        self.lt(other) || self.eq(other)
    }

    /// `a >= b`: `b` comes before `a` or equals it.
    pub fn ge(&self, other: &PyBytes) -> (r: bool)
        ensures
            r == (lex_less(other@, self@) || self@ == other@),
    {
        other.lt(self) || self.eq(other)
    }

    /// `a + b`: the bytes of `a` followed by those of `b`.
    pub fn add(&self, other: &PyBytes) -> (r: PyBytes)
        requires
            self@.len() + other@.len() <= isize::MAX,
        ensures
            r@ == self@ + other@,
    {
        let mut out = vstd::slice::slice_to_vec(self.get_value());
        let mut tail = vstd::slice::slice_to_vec(other.get_value());
        out.append(&mut tail);
        PyBytes::new(out)
    }

    /// `b * n`: `n` copies of `b`; none when `n` is not positive.  A result
    /// longer than `isize::MAX` is an error.
    pub fn repeat(&self, value: isize) -> (r: Result<PyBytes, BytesError>)
        requires
            self@.len() <= isize::MAX,
        ensures
            value > 0 && self@.len() > isize::MAX / value ==> r == Err::<PyBytes, BytesError>(
                BytesError::RepeatedTooLong,
            ),
            !(value > 0 && self@.len() > isize::MAX / value) ==> (r matches Ok(b) && b@ == repeat_seq(
                self@,
                if value > 0 {
                    value as nat
                } else {
                    0
                },
            )),
    {
        let len = self.len();
        if value > 0 && len > (isize::MAX / value) as usize {
            return Err(BytesError::RepeatedTooLong);
        }
        let times: usize = if value > 0 {
            value as usize
        } else {
            0
        };
        let s = self.get_value();
        let mut out: Vec<u8> = Vec::new();
        if len == 0 {
            proof {
                lemma_repeat_len(s@, times as nat);
            }
            assert(out@ =~= repeat_seq(s@, times as nat));
            return Ok(PyBytes::new(out));
        }
        proof {
            if times > 0 {
                assert(len * times <= isize::MAX) by (nonlinear_arith)
                    requires
                        (len as int) <= (isize::MAX as int) / (times as int),
                        times > 0,
                        len >= 0,
                ;
            }
        }
        let mut k: usize = 0;
        while k < times
            invariant
                k <= times,
                s@.len() == len,
                len * times <= isize::MAX,
                out@ == repeat_seq(s@, k as nat),
            decreases times - k,
        {
            proof {
                lemma_repeat_len(s@, k as nat);
                assert(k * len + len <= len * times) by (nonlinear_arith)
                    requires
                        k < times,
                        len >= 0,
                ;
            }
            let mut i: usize = 0;
            let ghost before = out@;
            while i < len
                invariant
                    i <= len,
                    s@.len() == len,
                    out@ == before + s@.take(i as int),
                decreases len - i,
            {
                out.push(s[i]);
                i += 1;
                assert(out@ =~= before + s@.take(i as int));
            }
            assert(s@.take(len as int) =~= s@);
            k += 1;
        }
        Ok(PyBytes::new(out))
    }

    /// `b.__sizeof__()`: the size of the object itself plus that of its bytes;
    /// an error when the sum does not fit in a `usize`.
    pub fn sizeof(&self) -> (r: Result<usize, BytesError>)
        ensures
            ({
                let total = vstd::layout::size_of::<PyBytes>() + self@.len() * vstd::layout::size_of::<u8>();
                if total <= usize::MAX {
                    r == Ok::<usize, BytesError>(total as usize)
                } else {
                    r == Err::<usize, BytesError>(BytesError::SizeTooLarge)
                }
            }),
    {
        let head = core::mem::size_of::<PyBytes>();
        let unit = core::mem::size_of::<u8>();
        match self.len().checked_mul(unit) {
            None => {
                assert(self@.len() * unit > usize::MAX);
                Err(BytesError::SizeTooLarge)
            },
            Some(body) => match head.checked_add(body) {
                None => Err(BytesError::SizeTooLarge),
                Some(total) => Ok(total),
            },
        }
    }

    /// `hash(b)`: the value of the process's default hasher after it was fed
    /// the bytes, reinterpreted as a signed integer.
    pub fn hash(&self) -> (h: i64)
        ensures
            h == bytes_hash(self@),
    {
        let mut hasher = DefaultHasher::new();
        hasher.write(self.get_value());
        assert(hasher@ =~= seq![self@]);
        hasher.finish() as i64
    }
}

impl core::ops::Deref for PyBytes {
    type Target = [u8];

    /// The bytes held, as a slice.
    fn deref(&self) -> (r: &[u8])
        ensures
            r@ == self@,
    {
        self.elements.as_slice()
    }
}

impl From<Vec<u8>> for PyBytes {
    fn from(elements: Vec<u8>) -> (b: PyBytes) {
        PyBytes { elements }
    }
}

impl vstd::std_specs::convert::FromSpecImpl<Vec<u8>> for PyBytes {
    open spec fn obeys_from_spec() -> bool {
        true
    }

    open spec fn from_spec(v: Vec<u8>) -> PyBytes {
        PyBytes::spec_from_vec(v)
    }
}

impl PyBytes {
    /// The bytes object that holds the given bytes.
    pub closed spec fn spec_from_vec(v: Vec<u8>) -> PyBytes {
        PyBytes { elements: v }
    }

    /// The object built from a vector holds that vector's bytes.
    pub broadcast proof fn lemma_from_vec_view(v: Vec<u8>)
        ensures
            #[trigger] PyBytes::spec_from_vec(v)@ == v@,
    {
    }
}

} // verus!

verus! {

/// Appends `s[lo..hi]` to `out`.
pub fn extend_range(out: &mut Vec<u8>, s: &[u8], lo: usize, hi: usize)
    requires
        lo <= hi <= s@.len(),
    ensures
        final(out)@ == old(out)@ + s@.subrange(lo as int, hi as int),
{
    let ghost start = out@;
    let mut i = lo;
    while i < hi
        invariant
            lo <= i <= hi <= s@.len(),
            out@ == start + s@.subrange(lo as int, i as int),
        decreases hi - i,
    {
        out.push(s[i]);
        i += 1;
        assert(out@ =~= start + s@.subrange(lo as int, i as int));
    }
}

/// Appends `n` copies of the byte `b` to `out`.
pub fn extend_fill(out: &mut Vec<u8>, b: u8, n: usize)
    ensures
        final(out)@ == old(out)@ + Seq::new(n as nat, |i: int| b),
{
    let ghost start = out@;
    let mut i: usize = 0;
    while i < n
        invariant
            i <= n,
            out@ == start + Seq::new(i as nat, |j: int| b),
        decreases n - i,
    {
        out.push(b);
        i += 1;
        assert(out@ =~= start + Seq::new(i as nat, |j: int| b));
    }
}

/// Whether the byte `b` occurs in `set`.
pub fn set_contains(set: &[u8], b: u8) -> (r: bool)
    ensures
        r == set@.contains(b),
{
    let mut i: usize = 0;
    while i < set.len()
        invariant
            i <= set@.len(),
            forall|j: int| 0 <= j < i ==> set@[j] != b,
        decreases set@.len() - i,
    {
        if set[i] == b {
            assert(set@[i as int] == b);
            return true;
        }
        i += 1;
    }
    false
}

} // verus!
