use vstd::prelude::*;
use crossbeam_utils::atomic::AtomicCell;

use crate::bytes::PyBytes;

verus! {

/// crossbeam's thread-safe mutable memory location.
#[verifier::external_type_specification]
#[verifier::external_body]
#[verifier::reject_recursive_types(T)]
pub struct ExAtomicCell<T>(AtomicCell<T>);

/// A new cell holding `value` (`AtomicCell::new`).  The cell's content is not
/// modelled: any thread may change it through a shared reference.
#[verifier::external_body]
fn atomic_cell_new(value: usize) -> AtomicCell<usize> {
    AtomicCell::new(value)
}

/// Increments the cell's value by one, wrapping, and returns the value it held
/// before (`AtomicCell::fetch_add`).  Nothing is stated of the returned value:
/// other holders of the cell may have changed it at any time.
#[verifier::external_body]
fn atomic_cell_fetch_increment(cell: &AtomicCell<usize>) -> usize {
    cell.fetch_add(1)
}

/// An iterator over the bytes of a bytes object, whose position a shared
/// reference advances.
pub struct PyBytesIterator {
    position: AtomicCell<usize>,
    bytes: PyBytes,
}

impl PyBytesIterator {
    /// The bytes that the iterator walks over.
    pub closed spec fn seq(&self) -> Seq<u8> {
        self.bytes@
    }

    /// The byte at position `pos`, or `None` once the position is past the end.
    pub fn item_at(&self, pos: usize) -> (r: Option<u8>)
        ensures
            pos < self.seq().len() ==> r == Some(self.seq()[pos as int]),
            pos >= self.seq().len() ==> r is None,
    {
        let v = self.bytes.get_value();
        if pos < v.len() {
            Some(v[pos])
        } else {
            None
        }
    }

    /// `next(it)`: advances the position by one and gives the byte at the
    /// position it held before, or `None` (Python's `StopIteration`) past the end.
    pub fn next(&self) -> (r: Option<u8>)
        ensures
            r matches Some(b) ==> self.seq().contains(b),
    {
        let pos = atomic_cell_fetch_increment(&self.position);
        self.item_at(pos)
    }

    /// `iter(it)`: the iterator itself.
    pub fn iter(self) -> (r: PyBytesIterator)
        ensures
            r.seq() == self.seq(),
    {
        self
    }
}

impl PyBytes {
    /// `iter(b)`: an iterator over the bytes, from the first.
    pub fn iter(&self) -> (r: PyBytesIterator)
        ensures
            r.seq() == self@,
    {
        PyBytesIterator {
            position: atomic_cell_new(0),
            bytes: PyBytes::new(vstd::slice::slice_to_vec(self.get_value())),
        }
    }
}

} // verus!
