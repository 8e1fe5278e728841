//! Derived constructors and operations: copy transpose, the identity-based
//! constructors, elementwise sum and difference, and the matrix product.

use crate::elems::{AddElem, MulElem, OneElem, SubElem, ZeroElem};
use crate::matrix::{is_transpose_of, Matrix};
use vstd::prelude::*;

verus! {

/// The product-sum `a(i,0)*b(0,j) + ... + a(i,k)*b(k,j)`, accumulated left to
/// right in index order — the order matters for element types whose addition
/// or multiplication is not associative or commutative.
pub open spec fn dot_prefix<T: AddElem + MulElem>(
    a: &Matrix<T>,
    b: &Matrix<T>,
    i: int,
    j: int,
    k: int,
) -> T
    decreases k,
{
    if k <= 0 {
        a.sel(i, 0).mul_spec(b.sel(0, j))
    } else {
        dot_prefix(a, b, i, j, k - 1).add_spec(a.sel(i, k).mul_spec(b.sel(k, j)))
    }
}

impl<T: Copy> Matrix<T> {
    /// Returns a fresh transpose of the matrix: shape `(columns, rows)`, with
    /// cell `(i, j)` holding the source's cell `(j, i)`. Never mutates the
    /// source.
    pub fn trans(&self) -> (m: Matrix<T>)
        requires
            self.wf(),
        ensures
            m.wf(),
            is_transpose_of(m, *self),
    {
        proof {
            self.lemma_size_fits();
            vstd::arithmetic::mul::lemma_mul_is_commutative(self.nrows(), self.ncols());
        }
        let f = |i: usize, j: usize| -> (r: T)
            requires
                self.wf(),
                i < self.ncols(),
                j < self.nrows(),
            ensures
                r == self.sel(j as int, i as int),
            { *self.index(j, i) };
        let m = Matrix::from_fn(self.column(), self.row(), f);
        proof {
            assert forall|i: int, j: int|
                0 <= i < m.nrows() && 0 <= j < m.ncols() implies #[trigger] m.sel(i, j) == self.sel(
                j,
                i,
            ) by {
                let iu = i as usize;
                let ju = j as usize;
                assert(call_ensures(f, (iu, ju), m.sel(iu as int, ju as int)));
            }
        }
        m
    }
}

impl<T: ZeroElem> Matrix<T> {
    /// Creates a matrix whose elements are all the additive identity.
    pub fn zero(row: usize, column: usize) -> (m: Matrix<T>)
        requires
            row * column <= usize::MAX,
        ensures
            m.wf(),
            m.nrows() == row,
            m.ncols() == column,
            forall|i: int, j: int|
                0 <= i < row && 0 <= j < column ==> #[trigger] m.sel(i, j) == T::zero_spec(),
    {
        let f = |i: usize, j: usize| -> (r: T)
            ensures
                r == T::zero_spec(),
            { T::zero_elem() };
        let m = Matrix::from_fn(row, column, f);
        proof {
            assert forall|i: int, j: int|
                0 <= i < row && 0 <= j < column implies #[trigger] m.sel(i, j)
                == T::zero_spec() by {
                let iu = i as usize;
                let ju = j as usize;
                assert(call_ensures(f, (iu, ju), m.sel(iu as int, ju as int)));
            }
        }
        m
    }
}

impl<T: ZeroElem + OneElem> Matrix<T> {
    /// Creates an identity-patterned matrix: the multiplicative identity on
    /// the diagonal and the additive identity elsewhere, for any shape,
    /// square or not.
    pub fn one(row: usize, column: usize) -> (m: Matrix<T>)
        requires
            row * column <= usize::MAX,
        ensures
            m.wf(),
            m.nrows() == row,
            m.ncols() == column,
            forall|i: int, j: int|
                0 <= i < row && 0 <= j < column ==> #[trigger] m.sel(i, j) == (if i == j {
                    T::one_spec()
                } else {
                    T::zero_spec()
                }),
    {
        let f = |i: usize, j: usize| -> (r: T)
            ensures
                r == (if i == j {
                    T::one_spec()
                } else {
                    T::zero_spec()
                }),
            {
                if i == j {
                    T::one_elem()
                } else {
                    T::zero_elem()
                }
            };
        let m = Matrix::from_fn(row, column, f);
        proof {
            assert forall|i: int, j: int|
                0 <= i < row && 0 <= j < column implies #[trigger] m.sel(i, j) == (if i == j {
                T::one_spec()
            } else {
                T::zero_spec()
            }) by {
                let iu = i as usize;
                let ju = j as usize;
                assert(call_ensures(f, (iu, ju), m.sel(iu as int, ju as int)));
            }
        }
        m
    }
}

impl<T: AddElem> Matrix<T> {
    /// Elementwise sum: a freshly allocated matrix of the same shape whose
    /// cell `(i, j)` is `self(i, j) + other(i, j)`.
    pub fn add(&self, other: &Matrix<T>) -> (m: Matrix<T>)
        requires
            self.wf(),
            other.wf(),
            self.nrows() == other.nrows(),
            self.ncols() == other.ncols(),
            forall|i: int, j: int|
                0 <= i < self.nrows() && 0 <= j < self.ncols() ==> #[trigger] self.sel(
                    i,
                    j,
                ).add_ok(other.sel(i, j)),
        ensures
            m.wf(),
            m.nrows() == self.nrows(),
            m.ncols() == self.ncols(),
            forall|i: int, j: int|
                0 <= i < self.nrows() && 0 <= j < self.ncols() ==> #[trigger] m.sel(i, j)
                    == self.sel(i, j).add_spec(other.sel(i, j)),
    {
        proof {
            self.lemma_size_fits();
        }
        let f = |i: usize, j: usize| -> (r: T)
            requires
                self.wf(),
                other.wf(),
                self.nrows() == other.nrows(),
                self.ncols() == other.ncols(),
                i < self.nrows(),
                j < self.ncols(),
                self.sel(i as int, j as int).add_ok(other.sel(i as int, j as int)),
            ensures
                r == self.sel(i as int, j as int).add_spec(other.sel(i as int, j as int)),
            { (*self.index(i, j)).add_elem(*other.index(i, j)) };
        let m = Matrix::from_fn(self.row(), self.column(), f);
        proof {
            assert forall|i: int, j: int|
                0 <= i < self.nrows() && 0 <= j < self.ncols() implies #[trigger] m.sel(i, j)
                == self.sel(i, j).add_spec(other.sel(i, j)) by {
                let iu = i as usize;
                let ju = j as usize;
                assert(call_ensures(f, (iu, ju), m.sel(iu as int, ju as int)));
            }
        }
        m
    }
}

impl<T: SubElem> Matrix<T> {
    /// Elementwise difference: a freshly allocated matrix of the same shape
    /// whose cell `(i, j)` is `self(i, j) - other(i, j)`.
    pub fn sub(&self, other: &Matrix<T>) -> (m: Matrix<T>)
        requires
            self.wf(),
            other.wf(),
            self.nrows() == other.nrows(),
            self.ncols() == other.ncols(),
            forall|i: int, j: int|
                0 <= i < self.nrows() && 0 <= j < self.ncols() ==> #[trigger] self.sel(
                    i,
                    j,
                ).sub_ok(other.sel(i, j)),
        ensures
            m.wf(),
            m.nrows() == self.nrows(),
            m.ncols() == self.ncols(),
            forall|i: int, j: int|
                0 <= i < self.nrows() && 0 <= j < self.ncols() ==> #[trigger] m.sel(i, j)
                    == self.sel(i, j).sub_spec(other.sel(i, j)),
    {
        proof {
            self.lemma_size_fits();
        }
        let f = |i: usize, j: usize| -> (r: T)
            requires
                self.wf(),
                other.wf(),
                self.nrows() == other.nrows(),
                self.ncols() == other.ncols(),
                i < self.nrows(),
                j < self.ncols(),
                self.sel(i as int, j as int).sub_ok(other.sel(i as int, j as int)),
            ensures
                r == self.sel(i as int, j as int).sub_spec(other.sel(i as int, j as int)),
            { (*self.index(i, j)).sub_elem(*other.index(i, j)) };
        let m = Matrix::from_fn(self.row(), self.column(), f);
        proof {
            assert forall|i: int, j: int|
                0 <= i < self.nrows() && 0 <= j < self.ncols() implies #[trigger] m.sel(i, j)
                == self.sel(i, j).sub_spec(other.sel(i, j)) by {
                let iu = i as usize;
                let ju = j as usize;
                assert(call_ensures(f, (iu, ju), m.sel(iu as int, ju as int)));
            }
        }
        m
    }
}

impl<T: AddElem + MulElem> Matrix<T> {
    /// Matrix product: shape `(self.rows, other.columns)`, with cell `(i, j)`
    /// the product-sum over the shared dimension, accumulated left to right
    /// from `self(i, 0) * other(0, j)`. Whenever the result has a cell, the
    /// shared dimension must not be empty: each cell needs a first term.
    pub fn mul(&self, other: &Matrix<T>) -> (m: Matrix<T>)
        requires
            self.wf(),
            other.wf(),
            self.ncols() == other.nrows(),
            0 < self.ncols() || self.nrows() == 0 || other.ncols() == 0,
            self.nrows() * other.ncols() <= usize::MAX,
            forall|i: int, j: int, k: int|
                0 <= i < self.nrows() && 0 <= j < other.ncols() && 0 <= k < self.ncols()
                    ==> #[trigger] self.sel(i, k).mul_ok(other.sel(k, j)),
            forall|i: int, j: int, k: int|
                0 <= i < self.nrows() && 0 <= j < other.ncols() && 1 <= k < self.ncols()
                    ==> #[trigger] dot_prefix(self, other, i, j, k - 1).add_ok(
                    self.sel(i, k).mul_spec(other.sel(k, j)),
                ),
        ensures
            m.wf(),
            m.nrows() == self.nrows(),
            m.ncols() == other.ncols(),
            forall|i: int, j: int|
                0 <= i < self.nrows() && 0 <= j < other.ncols() ==> #[trigger] m.sel(i, j)
                    == dot_prefix(self, other, i, j, self.ncols() - 1),
    {
        proof {
            self.lemma_size_fits();
            other.lemma_size_fits();
        }
        let f = |i: usize, j: usize| -> (r: T)
            requires
                self.wf(),
                other.wf(),
                self.ncols() == other.nrows(),
                0 < self.ncols(),
                i < self.nrows(),
                j < other.ncols(),
                forall|k: int|
                    0 <= k < self.ncols() ==> #[trigger] self.sel(i as int, k).mul_ok(
                        other.sel(k, j as int),
                    ),
                forall|k: int|
                    1 <= k < self.ncols() ==> #[trigger] dot_prefix(
                        self,
                        other,
                        i as int,
                        j as int,
                        k - 1,
                    ).add_ok(self.sel(i as int, k).mul_spec(other.sel(k, j as int))),
            ensures
                r == dot_prefix(self, other, i as int, j as int, self.ncols() - 1),
            {
                let mut sum = (*self.index(i, 0)).mul_elem(*other.index(0, j));
                let mut k: usize = 1;
                while k < self.column()
                    invariant
                        self.wf(),
                        other.wf(),
                        self.ncols() == other.nrows(),
                        i < self.nrows(),
                        j < other.ncols(),
                        1 <= k <= self.ncols(),
                        sum == dot_prefix(self, other, i as int, j as int, k - 1),
                        forall|k2: int|
                            0 <= k2 < self.ncols() ==> #[trigger] self.sel(i as int, k2).mul_ok(
                                other.sel(k2, j as int),
                            ),
                        forall|k2: int|
                            1 <= k2 < self.ncols() ==> #[trigger] dot_prefix(
                                self,
                                other,
                                i as int,
                                j as int,
                                k2 - 1,
                            ).add_ok(self.sel(i as int, k2).mul_spec(other.sel(k2, j as int))),
                    decreases self.ncols() - k,
                {
                    let term = (*self.index(i, k)).mul_elem(*other.index(k, j));
                    sum = sum.add_elem(term);
                    k = k + 1;
                }
                sum
            };
        let m = Matrix::from_fn(self.row(), other.column(), f);
        proof {
            assert forall|i: int, j: int|
                0 <= i < self.nrows() && 0 <= j < other.ncols() implies #[trigger] m.sel(i, j)
                == dot_prefix(self, other, i, j, self.ncols() - 1) by {
                let iu = i as usize;
                let ju = j as usize;
                assert(call_ensures(f, (iu, ju), m.sel(iu as int, ju as int)));
            }
        }
        m
    }
}

} // verus!
