//! The matrix container: row-major layout, construction, and access.

use vstd::pervasive::VecAdditionalExecFns;
use vstd::prelude::*;

verus! {

/// A dense 2-D matrix stored as a flat row-major buffer of length
/// `row * column`: the element at `(i, j)` lives at offset `i * column + j`.
#[derive(Clone, PartialEq, Eq, Debug, Hash)]
pub struct Matrix<T> {
    row: usize,
    column: usize,
    data: Vec<T>,
}

/// Position `(i, j)` lies inside an `r x c` shape, so its row-major offset
/// `i * c + j` lies inside the flat buffer.
pub proof fn lemma_offset_bound(i: int, j: int, r: int, c: int)
    requires
        0 <= i < r,
        0 <= j < c,
    ensures
        0 <= i * c + j < r * c,
{
    assert(0 <= i * c + j < r * c) by (nonlinear_arith)
        requires
            0 <= i < r,
            0 <= j < c,
    ;
}

/// A row-major offset decomposes uniquely: dividing `i * c + j` by the
/// column count recovers the row `i` and the column `j`.
pub proof fn lemma_offset_unpack(i: int, j: int, c: int)
    requires
        0 <= i,
        0 <= j < c,
    ensures
        (i * c + j) / c == i,
        (i * c + j) % c == j,
{
    vstd::arithmetic::mul::lemma_mul_is_commutative(i, c);
    vstd::arithmetic::div_mod::lemma_fundamental_div_mod_converse(i * c + j, c, i, j);
}

/// Equal row-major offsets under one column count decompose identically.
pub proof fn lemma_offsets_match(a: int, b: int, x: int, y: int, c: int)
    requires
        0 <= a,
        0 <= x,
        0 <= b < c,
        0 <= y < c,
        a * c + b == x * c + y,
    ensures
        a == x,
        b == y,
{
    lemma_offset_unpack(a, b, c);
    lemma_offset_unpack(x, y, c);
}

/// `b` holds, cell for cell, the transpose of `a`.
pub open spec fn is_transpose_of<T>(b: Matrix<T>, a: Matrix<T>) -> bool {
    &&& b.nrows() == a.ncols()
    &&& b.ncols() == a.nrows()
    &&& forall|i: int, j: int|
        0 <= i < b.nrows() && 0 <= j < b.ncols() ==> b.sel(i, j) == a.sel(j, i)
}

impl<T> Matrix<T> {

    /// The number of rows, as a mathematical integer.
    pub closed spec fn nrows(&self) -> int {
        self.row as int
    }

    /// The number of columns, as a mathematical integer.
    pub closed spec fn ncols(&self) -> int {
        self.column as int
    }

    /// The flat row-major contents.
    pub closed spec fn entries(&self) -> Seq<T> {
        self.data@
    }

    /// Shape invariant: the dimensions are counts, and the buffer holds
    /// exactly `row * column` elements.
    pub open spec fn wf(&self) -> bool {
        &&& 0 <= self.nrows()
        &&& 0 <= self.ncols()
        &&& self.entries().len() == self.nrows() * self.ncols()
    }

    /// The element at row `i`, column `j`.
    pub open spec fn sel(&self, i: int, j: int) -> T {
        self.entries()[i * self.ncols() + j]
    }

    /// Whether `(i, j)` addresses a cell of this matrix.
    pub open spec fn in_bounds(&self, i: int, j: int) -> bool {
        0 <= i < self.nrows() && 0 <= j < self.ncols()
    }

    /// The buffer is held in a `Vec`, so a well-formed shape fits in `usize`.
    pub proof fn lemma_size_fits(&self)
        requires
            self.wf(),
        ensures
            self.nrows() * self.ncols() <= usize::MAX,
    {
        assert(self.data.len() == self.data@.len());
    }

    /// Creates a new `Matrix` by evaluating a generator at every position in
    /// row-major order: the element at `(i, j)` is a result of `f(i, j)`.
    pub fn from_fn<F: Fn(usize, usize) -> T>(row: usize, column: usize, f: F) -> (m: Matrix<T>)
        requires
            row * column <= usize::MAX,
            forall|i: usize, j: usize|
                i < row && j < column ==> #[trigger] call_requires(f, (i, j)),
        ensures
            m.wf(),
            m.nrows() == row,
            m.ncols() == column,
            forall|i: usize, j: usize|
                i < row && j < column ==> call_ensures(
                    f,
                    (i, j),
                    #[trigger] m.sel(i as int, j as int),
                ),
    {
        let total = row * column;
        let mut data: Vec<T> = Vec::new();
        let mut k: usize = 0;
        while k < total
            invariant
                total == row * column,
                k <= total,
                data@.len() == k,
                forall|i: usize, j: usize|
                    i < row && j < column ==> #[trigger] call_requires(f, (i, j)),
                forall|i: usize, j: usize|
                    i < row && j < column && i * column + j < k ==> call_ensures(
                        f,
                        (i, j),
                        #[trigger] data@[i * column + j],
                    ),
            decreases total - k,
        {
            proof {
                if column == 0 {
                    assert(row * column == 0) by (nonlinear_arith)
                        requires
                            column == 0,
                    ;
                }
            }
            let i = k / column;
            let j = k % column;
            proof {
                vstd::arithmetic::div_mod::lemma_remainder_lower(k as int, column as int);
                vstd::arithmetic::div_mod::lemma_mod_division_less_than_divisor(
                    k as int,
                    column as int,
                );
                vstd::arithmetic::div_mod::lemma_fundamental_div_mod(k as int, column as int);
                assert(i < row) by (nonlinear_arith)
                    requires
                        column > 0,
                        k < row * column,
                        i == k as int / column as int,
                        k as int == column as int * (k as int / column as int) + (k as int
                            % column as int),
                        (k as int % column as int) < column as int,
                ;
                lemma_offset_unpack(i as int, j as int, column as int);
            }
            let v = f(i, j);
            data.push(v);
            k = k + 1;
            proof {
                assert forall|a: usize, b: usize|
                    a < row && b < column && a * column + b < k implies call_ensures(
                    f,
                    (a, b),
                    #[trigger] data@[a * column + b],
                ) by {
                    if a * column + b == k - 1 {
                        lemma_offset_unpack(a as int, b as int, column as int);
                    }
                }
            }
        }
        let m = Matrix { row, column, data };
        proof {
            assert forall|i: usize, j: usize| i < row && j < column implies call_ensures(
                f,
                (i, j),
                #[trigger] m.sel(i as int, j as int),
            ) by {
                lemma_offset_bound(i as int, j as int, row as int, column as int);
            }
        }
        m
    }

    /// Creates a new `Matrix` that takes ownership of a flat row-major buffer.
    pub fn from_vec(row: usize, column: usize, data: Vec<T>) -> (m: Matrix<T>)
        requires
            row * column == data@.len(),
        ensures
            m.wf(),
            m.nrows() == row,
            m.ncols() == column,
            m.entries() == data@,
    {
        Matrix { row, column, data }
    }

    /// Returns the matrix's row and column counts.
    pub fn size(&self) -> (s: (usize, usize))
        ensures
            s.0 == self.nrows(),
            s.1 == self.ncols(),
    {
        (self.row(), self.column())
    }

    /// Returns the matrix's row count.
    pub fn row(&self) -> (r: usize)
        ensures
            r == self.nrows(),
    {
        self.row
    }

    /// Returns the matrix's column count.
    pub fn column(&self) -> (c: usize)
        ensures
            c == self.ncols(),
    {
        self.column
    }

    /// Bounds-checked read access to the element at `(i, j)`.
    pub fn index(&self, i: usize, j: usize) -> (r: &T)
        requires
            self.wf(),
            self.in_bounds(i as int, j as int),
        ensures
            *r == self.sel(i as int, j as int),
    {
        proof {
            self.lemma_size_fits();
            lemma_offset_bound(i as int, j as int, self.nrows(), self.ncols());
        }
        &self.data[i * self.column + j]
    }

    /// Total read access: `Some` exactly on in-bounds positions, `None` on any
    /// out-of-bounds pair, never clamping or wrapping.
    pub fn get(&self, i: usize, j: usize) -> (r: Option<&T>)
        requires
            self.wf(),
        ensures
            r is Some <==> self.in_bounds(i as int, j as int),
            r matches Some(v) ==> *v == self.sel(i as int, j as int),
    {
        if i < self.row && j < self.column {
            Some(self.index(i, j))
        } else {
            None
        }
    }

    /// Bounds-checked write access: replaces the element at `(i, j)`.
    pub fn set(&mut self, i: usize, j: usize, value: T)
        requires
            old(self).wf(),
            old(self).in_bounds(i as int, j as int),
        ensures
            final(self).wf(),
            final(self).nrows() == old(self).nrows(),
            final(self).ncols() == old(self).ncols(),
            final(self).sel(i as int, j as int) == value,
            forall|p: int, q: int|
                old(self).in_bounds(p, q) && (p != i || q != j) ==> final(self).sel(p, q) == old(
                    self,
                ).sel(p, q),
    {
        proof {
            self.lemma_size_fits();
            lemma_offset_bound(i as int, j as int, self.nrows(), self.ncols());
        }
        let offset = i * self.column + j;
        self.data.set(offset, value);
        proof {
            assert forall|p: int, q: int|
                old(self).in_bounds(p, q) && (p != i || q != j) implies self.sel(p, q) == old(
                self,
            ).sel(p, q) by {
                lemma_offset_bound(p, q, self.nrows(), self.ncols());
                if p * self.ncols() + q == i as int * self.ncols() + j as int {
                    lemma_offset_unpack(p, q, self.ncols());
                    lemma_offset_unpack(i as int, j as int, self.ncols());
                }
            }
        }
    }

    /// Transposes the matrix in place, reusing the backing buffer: a square
    /// matrix gets a below-diagonal swap sweep; a degenerate shape (either
    /// dimension at most one) only relabels its dimensions; any other shape
    /// relabels and then permutes the buffer cycle by cycle.
    pub fn trans_in_place(&mut self)
        requires
            old(self).wf(),
        ensures
            final(self).wf(),
            is_transpose_of(*final(self), *old(self)),
    {
        proof {
            self.lemma_size_fits();
        }
        let ghost orig = self.data@;
        if self.row == self.column {
            let nn = self.row;
            let ghost n = nn as int;
            let mut i: usize = 0;
            while i < nn
                invariant
                    self.row == nn,
                    self.column == nn,
                    n == nn as int,
                    self.data@.len() == n * n,
                    n * n <= usize::MAX,
                    orig.len() == n * n,
                    orig == old(self).data@,
                    i <= nn,
                    forall|a: int, b: int|
                        0 <= b <= a < n && a < i ==> #[trigger] self.data@[a * n + b] == orig[b * n
                            + a] && self.data@[b * n + a] == orig[a * n + b],
                    forall|a: int, b: int|
                        0 <= b <= a < n && a >= i ==> #[trigger] self.data@[a * n + b] == orig[a * n
                            + b] && self.data@[b * n + a] == orig[b * n + a],
                decreases nn - i,
            {
                let mut j: usize = 0;
                while j < i
                    invariant
                        self.row == nn,
                        self.column == nn,
                        n == nn as int,
                        self.data@.len() == n * n,
                        n * n <= usize::MAX,
                        orig.len() == n * n,
                        orig == old(self).data@,
                        j <= i < nn,
                        forall|a: int, b: int|
                            0 <= b <= a < n && (a < i || (a == i && b < j)) ==> #[trigger] self.data@[a
                                * n + b] == orig[b * n + a] && self.data@[b * n + a] == orig[a * n
                                + b],
                        forall|a: int, b: int|
                            0 <= b <= a < n && (a > i || (a == i && b >= j)) ==> #[trigger] self.data@[a
                                * n + b] == orig[a * n + b] && self.data@[b * n + a] == orig[b * n
                                + a],
                    decreases i - j,
                {
                    proof {
                        lemma_offset_bound(i as int, j as int, n, n);
                        lemma_offset_bound(j as int, i as int, n, n);
                        if i as int * n + j == j as int * n + i {
                            lemma_offsets_match(i as int, j as int, j as int, i as int, n);
                        }
                    }
                    let ghost pre = self.data@;
                    let oij = i * nn + j;
                    let oji = j * nn + i;
                    crate::transpose::swap_in_vec(&mut self.data, oij, oji);
                    proof {
                        assert forall|a: int, b: int|
                            0 <= b <= a < n && (a < i || (a == i && b < j + 1)) implies #[trigger] self.data@[a
                            * n + b] == orig[b * n + a] && self.data@[b * n + a] == orig[a * n
                            + b] by {
                            lemma_offset_bound(a, b, n, n);
                            lemma_offset_bound(b, a, n, n);
                            if a == i && b == j {
                                assert(pre[j as int * n + i as int] == orig[j as int * n
                                    + i as int]);
                                assert(pre[i as int * n + j as int] == orig[i as int * n
                                    + j as int]);
                                assert(self.data@[i as int * n + j as int] == pre[j as int * n
                                    + i as int]);
                                assert(self.data@[j as int * n + i as int] == pre[i as int * n
                                    + j as int]);
                            } else {
                                if a * n + b == i as int * n + j {
                                    lemma_offsets_match(a, b, i as int, j as int, n);
                                }
                                if a * n + b == j as int * n + i {
                                    lemma_offsets_match(a, b, j as int, i as int, n);
                                }
                                if b * n + a == i as int * n + j {
                                    lemma_offsets_match(b, a, i as int, j as int, n);
                                }
                                if b * n + a == j as int * n + i {
                                    lemma_offsets_match(b, a, j as int, i as int, n);
                                }
                                assert(self.data@[a * n + b] == pre[a * n + b]);
                                assert(self.data@[b * n + a] == pre[b * n + a]);
                            }
                        }
                        assert forall|a: int, b: int|
                            0 <= b <= a < n && (a > i || (a == i && b >= j + 1)) implies #[trigger] self.data@[a
                            * n + b] == orig[a * n + b] && self.data@[b * n + a] == orig[b * n
                            + a] by {
                            lemma_offset_bound(a, b, n, n);
                            lemma_offset_bound(b, a, n, n);
                            if a * n + b == i as int * n + j {
                                lemma_offsets_match(a, b, i as int, j as int, n);
                            }
                            if a * n + b == j as int * n + i {
                                lemma_offsets_match(a, b, j as int, i as int, n);
                            }
                            if b * n + a == i as int * n + j {
                                lemma_offsets_match(b, a, i as int, j as int, n);
                            }
                            if b * n + a == j as int * n + i {
                                lemma_offsets_match(b, a, j as int, i as int, n);
                            }
                            assert(self.data@[a * n + b] == pre[a * n + b]);
                            assert(self.data@[b * n + a] == pre[b * n + a]);
                        }
                    }
                    j = j + 1;
                }
                proof {
                    assert forall|a: int, b: int| 0 <= b <= a < n && a <= i implies #[trigger] self.data@[a
                        * n + b] == orig[b * n + a] && self.data@[b * n + a] == orig[a * n
                        + b] by {
                        if a == i && b == i {
                            assert(self.data@[a * n + b] == orig[a * n + b]);
                        }
                    }
                }
                i = i + 1;
            }
            proof {
                assert forall|i2: int, j2: int|
                    0 <= i2 < n && 0 <= j2 < n implies #[trigger] self.sel(i2, j2) == old(self).sel(
                    j2,
                    i2,
                ) by {
                    lemma_offset_bound(i2, j2, n, n);
                    lemma_offset_bound(j2, i2, n, n);
                    if i2 >= j2 {
                        assert(self.data@[i2 * n + j2] == orig[j2 * n + i2]);
                    } else {
                        assert(self.data@[j2 * n + i2] == orig[i2 * n + j2]);
                        assert(self.data@[i2 * n + j2] == orig[j2 * n + i2]);
                    }
                }
            }
        } else {
            let tmp = self.row;
            self.row = self.column;
            self.column = tmp;
            proof {
                vstd::arithmetic::mul::lemma_mul_is_commutative(
                    old(self).nrows(),
                    old(self).ncols(),
                );
            }
            if self.row > 1 && self.column > 1 {
                crate::transpose::permute_to_transpose(&mut self.data, self.row, self.column);
                proof {
                    let r = self.nrows();
                    let c = self.ncols();
                    assert forall|i: int, j: int|
                        0 <= i < r && 0 <= j < c implies #[trigger] self.sel(i, j) == old(self).sel(
                        j,
                        i,
                    ) by {
                        lemma_offset_bound(i, j, r, c);
                        lemma_offset_unpack(i, j, c);
                        assert(crate::transpose::src_of(i * c + j, r, c) == j * r + i);
                    }
                }
            } else {
                proof {
                    let r = self.nrows();
                    let c = self.ncols();
                    assert forall|i: int, j: int|
                        0 <= i < r && 0 <= j < c implies #[trigger] self.sel(i, j) == old(self).sel(
                        j,
                        i,
                    ) by {
                        lemma_offset_bound(i, j, r, c);
                        lemma_offset_bound(j, i, c, r);
                        if r == 1 {
                            assert(i == 0);
                            assert(j * r + i == j) by (nonlinear_arith)
                                requires
                                    r == 1,
                                    i == 0,
                            ;
                            assert(i * c + j == j) by (nonlinear_arith)
                                requires
                                    i == 0,
                            ;
                        } else {
                            assert(c == 1);
                            assert(j == 0);
                            assert(i * c + j == i) by (nonlinear_arith)
                                requires
                                    c == 1,
                                    j == 0,
                            ;
                            assert(j * r + i == i) by (nonlinear_arith)
                                requires
                                    j == 0,
                            ;
                        }
                    }
                }
            }
        }
    }
}

} // verus!
