//! The `bytes` object of a Python interpreter: an immutable sequence of
//! bytes together with the operations that Python's `bytes` type offers.
//!
//! Every operation is specified over the mathematical view of a value,
//! its sequence of bytes (`Seq<u8>`), and verified against that
//! specification.
pub mod error;
pub mod bytes;
pub mod search;
pub mod subscript;
pub mod ctype;
pub mod transform;
pub mod split;
pub mod pad;
pub mod text;
pub mod hex;
pub mod codec;
pub mod iter;
pub mod laws;
pub mod split_laws;
