//! Dense row-major 2-D matrices with verified construction, bounds-checked
//! access, elementwise arithmetic, multiplication, and transposition — both
//! as a fresh copy and in place via a cycle-chasing permutation.

pub mod bits;
pub mod elems;
pub mod laws;
pub mod matrix;
pub mod ops;
pub mod transpose;

pub use elems::{AddElem, MulElem, OneElem, RingElem, SubElem, ZeroElem};
pub use matrix::Matrix;
