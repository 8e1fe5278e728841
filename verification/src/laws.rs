//! The library's laws: structural equality of matrices, uniqueness and
//! involutivity of transposition, and neutrality of the identity matrix
//! under multiplication.

use crate::elems::{OneElem, RingElem, ZeroElem};
use crate::matrix::{is_transpose_of, lemma_offset_unpack, Matrix};
use crate::ops::dot_prefix;
use vstd::prelude::*;

verus! {

use vstd::arithmetic::div_mod::{
    lemma_div_pos_is_pos,
    lemma_fundamental_div_mod,
    lemma_mod_division_less_than_divisor,
};

/// Structural equality: same shape and the same flat contents.
pub open spec fn mat_equal<T>(a: Matrix<T>, b: Matrix<T>) -> bool {
    &&& a.nrows() == b.nrows()
    &&& a.ncols() == b.ncols()
    &&& a.entries() == b.entries()
}

/// The identity pattern: the multiplicative identity on the diagonal, the
/// additive identity everywhere else.
pub open spec fn is_identity<T: ZeroElem + OneElem>(e: Matrix<T>) -> bool {
    forall|i: int, j: int|
        0 <= i < e.nrows() && 0 <= j < e.ncols() ==> #[trigger] e.sel(i, j) == (if i == j {
            T::one_spec()
        } else {
            T::zero_spec()
        })
}

/// Two well-formed matrices of one shape that agree on every cell are
/// structurally equal.
pub proof fn lemma_mat_ext<T>(a: Matrix<T>, b: Matrix<T>)
    requires
        a.wf(),
        b.wf(),
        a.nrows() == b.nrows(),
        a.ncols() == b.ncols(),
        forall|i: int, j: int|
            0 <= i < a.nrows() && 0 <= j < a.ncols() ==> #[trigger] a.sel(i, j) == b.sel(i, j),
    ensures
        mat_equal(a, b),
{
    let c = a.ncols();
    assert forall|p: int| 0 <= p < a.entries().len() implies a.entries()[p]
        == b.entries()[p] by {
        if c > 0 {
            let i = p / c;
            let j = p % c;
            lemma_mod_division_less_than_divisor(p, c);
            lemma_div_pos_is_pos(p, c);
            lemma_fundamental_div_mod(p, c);
            assert(i < a.nrows()) by (nonlinear_arith)
                requires
                    0 < c,
                    p < a.nrows() * c,
                    p == c * i + j,
                    0 <= j,
            ;
            lemma_offset_unpack(i, j, c);
            assert(a.sel(i, j) == b.sel(i, j));
            assert(i * c + j == p);
        } else {
            assert(a.nrows() * c == 0) by (nonlinear_arith)
                requires
                    c == 0,
            ;
        }
    }
    assert(a.entries() =~= b.entries());
}

/// Transposing is an involution: a transpose of a transpose of `a` is `a`
/// itself, in shape and in every cell. Both the copying and the in-place
/// transpose establish `is_transpose_of`, so the law covers each, and either
/// one applied after the other.
pub proof fn lemma_transpose_roundtrip<T>(a: Matrix<T>, b: Matrix<T>, c: Matrix<T>)
    requires
        a.wf(),
        b.wf(),
        c.wf(),
        is_transpose_of(b, a),
        is_transpose_of(c, b),
    ensures
        mat_equal(c, a),
{
    lemma_mat_ext(c, a);
}

/// A matrix has one transpose: any two matrices that each hold the transpose
/// of `a` are structurally equal. In particular the copying transpose and the
/// in-place transpose agree on every shape.
pub proof fn lemma_transpose_unique<T>(a: Matrix<T>, b: Matrix<T>, c: Matrix<T>)
    requires
        b.wf(),
        c.wf(),
        is_transpose_of(b, a),
        is_transpose_of(c, a),
    ensures
        mat_equal(b, c),
{
    lemma_mat_ext(b, c);
}

/// The running product-sum against an identity matrix on the left: the terms
/// before column `i` contribute nothing, and the term at `i` contributes the
/// cell itself.
proof fn lemma_identity_dot_left<T: RingElem>(e: &Matrix<T>, m: &Matrix<T>, i: int, j: int, k: int)
    requires
        is_identity(*e),
        e.nrows() == m.nrows(),
        e.ncols() == m.nrows(),
        0 <= i < m.nrows(),
        0 <= j < m.ncols(),
        0 <= k < e.ncols(),
    ensures
        dot_prefix(e, m, i, j, k) == (if k < i {
            T::zero_spec()
        } else {
            m.sel(i, j)
        }),
    decreases k,
{
    if k == 0 {
        if i == 0 {
            T::mul_one_left(m.sel(0, j));
        } else {
            T::mul_zero_left(m.sel(0, j));
        }
    } else {
        lemma_identity_dot_left(e, m, i, j, k - 1);
        if k == i {
            T::mul_one_left(m.sel(k, j));
            T::add_zero_left(m.sel(i, j));
        } else if k < i {
            T::mul_zero_left(m.sel(k, j));
            T::add_zero_left(T::zero_spec());
        } else {
            T::mul_zero_left(m.sel(k, j));
            T::add_zero_right(m.sel(i, j));
        }
    }
}

/// The running product-sum against an identity matrix on the right: the terms
/// before row `j` contribute nothing, and the term at `j` contributes the
/// cell itself.
proof fn lemma_identity_dot_right<T: RingElem>(m: &Matrix<T>, e: &Matrix<T>, i: int, j: int, k: int)
    requires
        is_identity(*e),
        e.nrows() == m.ncols(),
        e.ncols() == m.ncols(),
        0 <= i < m.nrows(),
        0 <= j < e.ncols(),
        0 <= k < m.ncols(),
    ensures
        dot_prefix(m, e, i, j, k) == (if k < j {
            T::zero_spec()
        } else {
            m.sel(i, j)
        }),
    decreases k,
{
    if k == 0 {
        if j == 0 {
            T::mul_one_right(m.sel(i, 0));
        } else {
            T::mul_zero_right(m.sel(i, 0));
        }
    } else {
        lemma_identity_dot_right(m, e, i, j, k - 1);
        if k == j {
            T::mul_one_right(m.sel(i, k));
            T::add_zero_left(m.sel(i, j));
        } else if k < j {
            T::mul_zero_right(m.sel(i, k));
            T::add_zero_left(T::zero_spec());
        } else {
            T::mul_zero_right(m.sel(i, k));
            T::add_zero_right(m.sel(i, j));
        }
    }
}

/// Identity law, left: a product whose cells are the product-sums of an
/// identity matrix and a square matrix `m` of the same size — exactly what
/// `mul` ensures for `e.mul(&m)` — is structurally equal to `m`.
pub proof fn lemma_identity_mul_left<T: RingElem>(e: Matrix<T>, m: Matrix<T>, p: Matrix<T>)
    requires
        e.wf(),
        m.wf(),
        p.wf(),
        m.nrows() == m.ncols(),
        e.nrows() == m.nrows(),
        e.ncols() == m.nrows(),
        is_identity(e),
        p.nrows() == e.nrows(),
        p.ncols() == m.ncols(),
        forall|i: int, j: int|
            0 <= i < p.nrows() && 0 <= j < p.ncols() ==> #[trigger] p.sel(i, j) == dot_prefix(
                &e,
                &m,
                i,
                j,
                e.ncols() - 1,
            ),
    ensures
        mat_equal(p, m),
{
    assert forall|i: int, j: int|
        0 <= i < p.nrows() && 0 <= j < p.ncols() implies #[trigger] p.sel(i, j) == m.sel(i, j) by {
        lemma_identity_dot_left(&e, &m, i, j, e.ncols() - 1);
    }
    lemma_mat_ext(p, m);
}

/// Identity law, right: a product whose cells are the product-sums of a
/// square matrix `m` and an identity matrix of the same size — exactly what
/// `mul` ensures for `m.mul(&e)` — is structurally equal to `m`.
pub proof fn lemma_identity_mul_right<T: RingElem>(m: Matrix<T>, e: Matrix<T>, p: Matrix<T>)
    requires
        e.wf(),
        m.wf(),
        p.wf(),
        m.nrows() == m.ncols(),
        e.nrows() == m.ncols(),
        e.ncols() == m.ncols(),
        is_identity(e),
        p.nrows() == m.nrows(),
        p.ncols() == e.ncols(),
        forall|i: int, j: int|
            0 <= i < p.nrows() && 0 <= j < p.ncols() ==> #[trigger] p.sel(i, j) == dot_prefix(
                &m,
                &e,
                i,
                j,
                m.ncols() - 1,
            ),
    ensures
        mat_equal(p, m),
{
    assert forall|i: int, j: int|
        0 <= i < p.nrows() && 0 <= j < p.ncols() implies #[trigger] p.sel(i, j) == m.sel(i, j) by {
        lemma_identity_dot_right(&m, &e, i, j, m.ncols() - 1);
    }
    lemma_mat_ext(p, m);
}

} // verus!
