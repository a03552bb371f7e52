//! Dense row-major matrices of machine integers, with exact contracts.
//!
//! Every operation states its result entry by entry over unbounded integers.
//! Shape violations and results that fall outside the scalar range are
//! reported through `MatrixError`, with `ensures` clauses that say exactly
//! when each error occurs.

use vstd::prelude::*;

verus! {

/// Why a matrix operation refused its operands.
#[derive(Clone, Copy, Debug, PartialEq, Eq, Structural)]
pub enum MatrixError {
    /// A matrix was requested with zero rows or zero columns, or with more
    /// entries than a buffer can hold.
    DimensionError,
    /// The operand shapes violate the operation's shape contract.
    DimensionMismatch,
    /// Some entry of the exact mathematical result falls outside the range
    /// of the scalar type.
    Overflow,
}

/// A dense matrix: row count, column count, and a flat row-major buffer.
/// The entry in row `y` and column `x` lives at index `y * cols + x`.
#[derive(Clone, Debug)]
pub struct Matrix {
    pub rows: usize,
    pub cols: usize,
    pub data: Vec<i32>,
}

/// The range of values a single matrix entry can hold.
pub open spec fn in_scalar_range(v: int) -> bool {
    i32::MIN <= v <= i32::MAX
}

/// Two matrices have the same shape.
pub open spec fn same_shape(a: Matrix, b: Matrix) -> bool {
    a.rows == b.rows && a.cols == b.cols
}

impl Matrix {
    /// Structural invariant: positive dimensions, buffer of exactly
    /// `rows * cols` entries.
    pub open spec fn wf(self) -> bool {
        &&& self.rows > 0
        &&& self.cols > 0
        &&& self.data@.len() == self.rows * self.cols
    }

    /// The entry in row `y`, column `x`, as an unbounded integer.
    pub open spec fn ent(self, y: int, x: int) -> int {
        self.data@[y * self.cols + x] as int
    }

    /// `(y, x)` lies inside this matrix.
    pub open spec fn in_bounds(self, y: int, x: int) -> bool {
        0 <= y < self.rows && 0 <= x < self.cols
    }
}

/// Every entry of the pointwise sum stays in the scalar range.
pub open spec fn add_fits(a: Matrix, b: Matrix) -> bool {
    forall|y: int, x: int| a.in_bounds(y, x) ==> in_scalar_range(a.ent(y, x) + b.ent(y, x))
}

/// Every entry of the pointwise difference stays in the scalar range.
pub open spec fn sub_fits(a: Matrix, b: Matrix) -> bool {
    forall|y: int, x: int| a.in_bounds(y, x) ==> in_scalar_range(a.ent(y, x) - b.ent(y, x))
}

/// Every entry of the pointwise product stays in the scalar range.
pub open spec fn mul_fits(a: Matrix, b: Matrix) -> bool {
    forall|y: int, x: int| a.in_bounds(y, x) ==> in_scalar_range(a.ent(y, x) * b.ent(y, x))
}

/// Every entry scaled by `k` stays in the scalar range.
pub open spec fn scale_fits(a: Matrix, k: int) -> bool {
    forall|y: int, x: int| a.in_bounds(y, x) ==> in_scalar_range(a.ent(y, x) * k)
}

/// The entry in row `y`, column `x` of a row-major buffer with `cols`
/// columns.  Mirrors `Matrix::ent` for a buffer that is still being built.
pub open spec fn flat_ent(s: Seq<i32>, cols: int, y: int, x: int) -> int {
    s[y * cols + x] as int
}

/// `b` holds exactly the entries of `a` with rows and columns exchanged.
pub open spec fn is_transpose(a: Matrix, b: Matrix) -> bool {
    &&& b.rows == a.cols
    &&& b.cols == a.rows
    &&& forall|y: int, x: int| b.in_bounds(y, x) ==> b.ent(y, x) == a.ent(x, y)
}

/// The inner product of row `y` of `a` with column `x` of `b`, over the
/// first `k` terms.
pub open spec fn dot_prefix(a: Matrix, b: Matrix, y: int, x: int, k: int) -> int
    decreases k,
{
    if k <= 0 {
        0
    } else {
        dot_prefix(a, b, y, x, k - 1) + a.ent(y, k - 1) * b.ent(k - 1, x)
    }
}

/// The entry in row `y`, column `x` of the exact matrix product of `a`
/// and `b`: the inner product of row `y` of `a` with column `x` of `b`.
pub open spec fn prod_ent(a: Matrix, b: Matrix, y: int, x: int) -> int {
    dot_prefix(a, b, y, x, a.cols as int)
}

/// Every entry of the exact matrix product stays in the scalar range.
pub open spec fn dot_fits(a: Matrix, b: Matrix) -> bool {
    forall|y: int, x: int|
        0 <= y < a.rows && 0 <= x < b.cols ==> in_scalar_range(prod_ent(a, b, y, x))
}

/// The sum of the first `k` values of a buffer.
pub open spec fn sum_prefix(s: Seq<i32>, k: int) -> int
    decreases k,
{
    if k <= 0 {
        0
    } else {
        sum_prefix(s, k - 1) + s[k - 1]
    }
}

/// The sum of all values of a buffer.
pub open spec fn sum_of(s: Seq<i32>) -> int {
    sum_prefix(s, s.len() as int)
}

/// The sum of the squared differences `(b[i] - a[i])^2` over the first `k`
/// buffer positions.
pub open spec fn squared_error_prefix(a: Matrix, b: Matrix, k: int) -> int
    decreases k,
{
    if k <= 0 {
        0
    } else {
        squared_error_prefix(a, b, k - 1) + (b.data@[k - 1] - a.data@[k - 1]) * (b.data@[k - 1]
            - a.data@[k - 1])
    }
}

/// The sum of the squared differences over the whole buffers.
pub open spec fn squared_error_sum(a: Matrix, b: Matrix) -> int {
    squared_error_prefix(a, b, a.data@.len() as int)
}

/// Squared-error prefix sums are nonnegative and grow with the prefix.
proof fn lemma_squared_error_prefix_mono(a: Matrix, b: Matrix, k1: int, k2: int)
    requires
        0 <= k1 <= k2,
    ensures
        0 <= squared_error_prefix(a, b, k1) <= squared_error_prefix(a, b, k2),
    decreases k2,
{
    if k2 > k1 {
        lemma_squared_error_prefix_mono(a, b, k1, k2 - 1);
        let d = b.data@[k2 - 1] - a.data@[k2 - 1];
        assert(d * d >= 0) by (nonlinear_arith);
    } else if k1 > 0 {
        lemma_squared_error_prefix_mono(a, b, k1 - 1, k1 - 1);
        let d = b.data@[k1 - 1] - a.data@[k1 - 1];
        assert(d * d >= 0) by (nonlinear_arith);
    }
}

/// The square of a difference of two scalar-range values fits well inside
/// the widest machine integer.
proof fn lemma_diff_square_bound(d: int)
    by (nonlinear_arith)
    requires
        -0x1_0000_0000 < d < 0x1_0000_0000,
    ensures
        0 <= d * d <= 0x1_0000_0000_0000_0000,
{
}

/// The product of two scalar-range values stays within one bit of the
/// doubled scalar width.
proof fn lemma_scalar_product_bound(u: int, v: int)
    by (nonlinear_arith)
    requires
        in_scalar_range(u),
        in_scalar_range(v),
    ensures
        -0x4000_0000_0000_0000 <= u * v <= 0x4000_0000_0000_0000,
{
}

/// A row-major index computed from an in-bounds position lies inside the
/// flat buffer, and distinct positions give distinct indices.
pub proof fn lemma_row_major_index(rows: int, cols: int, y: int, x: int)
    by (nonlinear_arith)
    requires
        0 <= y < rows,
        0 <= x < cols,
    ensures
        0 <= y * cols + x < rows * cols,
{
}

/// Positions that differ give different flat indices.
pub proof fn lemma_row_major_injective(cols: int, y1: int, x1: int, y2: int, x2: int)
    by (nonlinear_arith)
    requires
        0 <= x1 < cols,
        0 <= x2 < cols,
        0 <= y1,
        0 <= y2,
        y1 * cols + x1 == y2 * cols + x2,
    ensures
        y1 == y2 && x1 == x2,
{
}

impl Matrix {
    /// A zero-filled matrix of the requested shape.  Refused when a
    /// dimension is zero or the entry count does not fit in a buffer.
    pub fn new(rows: usize, cols: usize) -> (r: Result<Matrix, MatrixError>)
        ensures
            (match r {
                Ok(m) => {
                    &&& rows > 0
                    &&& cols > 0
                    &&& rows * cols <= usize::MAX
                    &&& m.wf()
                    &&& m.rows == rows
                    &&& m.cols == cols
                    &&& forall|y: int, x: int| m.in_bounds(y, x) ==> m.ent(y, x) == 0
                },
                Err(e) => {
                    &&& e == MatrixError::DimensionError
                    &&& (rows == 0 || cols == 0 || rows * cols > usize::MAX)
                },
            }),
    {
        if rows == 0 || cols == 0 {
            return Err(MatrixError::DimensionError);
        }
        let size = match rows.checked_mul(cols) {
            Some(s) => s,
            None => {
                return Err(MatrixError::DimensionError);
            },
        };
        let mut data: Vec<i32> = Vec::new();
        let mut i: usize = 0;
        while i < size
            invariant
                i <= size,
                data@.len() == i,
                forall|k: int| 0 <= k < i ==> data@[k] == 0i32,
            decreases size - i,
        {
            data.push(0);
            i = i + 1;
        }
        let m = Matrix { rows, cols, data };
        proof {
            assert forall|y: int, x: int| m.in_bounds(y, x) implies m.ent(y, x) == 0 by {
                lemma_row_major_index(rows as int, cols as int, y, x);
            }
        }
        Ok(m)
    }

    /// Flat index of the entry in column `x`, row `y`.
    fn index(&self, x: usize, y: usize) -> (i: usize)
        requires
            self.wf(),
            x < self.cols,
            y < self.rows,
        ensures
            i == y * self.cols + x,
            i < self.data@.len(),
    {
        let n = self.data.len();
        proof {
            lemma_row_major_index(self.rows as int, self.cols as int, y as int, x as int);
        }
        y * self.cols + x
    }

    /// The value in column `x`, row `y`.
    pub fn get(&self, x: usize, y: usize) -> (v: i32)
        requires
            self.wf(),
            x < self.cols,
            y < self.rows,
        ensures
            v as int == self.ent(y as int, x as int),
    {
        let i = self.index(x, y);
        self.data[i]
    }

    /// Overwrite the value in column `x`, row `y`; every other entry and the
    /// shape stay as they were.
    pub fn set(&mut self, x: usize, y: usize, v: i32)
        requires
            old(self).wf(),
            x < old(self).cols,
            y < old(self).rows,
        ensures
            final(self).wf(),
            final(self).rows == old(self).rows,
            final(self).cols == old(self).cols,
            final(self).ent(y as int, x as int) == v as int,
            forall|y2: int, x2: int|
                old(self).in_bounds(y2, x2) && !(y2 == y && x2 == x)
                    ==> final(self).ent(y2, x2) == old(self).ent(y2, x2),
    {
        let i = self.index(x, y);
        self.data.set(i, v);
        proof {
            assert forall|y2: int, x2: int|
                old(self).in_bounds(y2, x2) && !(y2 == y as int && x2 == x as int)
                    implies self.ent(y2, x2) == old(self).ent(y2, x2) by {
                lemma_row_major_index(self.rows as int, self.cols as int, y2, x2);
                if y2 * self.cols + x2 == y as int * self.cols + x as int {
                    lemma_row_major_injective(self.cols as int, y2, x2, y as int, x as int);
                }
            }
        }
    }

    /// The transpose: shape `(cols, rows)`, with `out[y, x] == self[x, y]`.
    pub fn t(&self) -> (r: Matrix)
        requires
            self.wf(),
        ensures
            r.wf(),
            is_transpose(*self, r),
    {
        let rows = self.cols;  // rows of the result
        let cols = self.rows;  // columns of the result
        let n = self.data.len();
        let mut data: Vec<i32> = Vec::new();
        let mut y: usize = 0;
        while y < rows
            invariant
                self.wf(),
                rows == self.cols,
                cols == self.rows,
                n == self.data@.len(),
                y <= rows,
                data@.len() == y * cols,
                forall|yy: int, xx: int|
                    0 <= yy < y && 0 <= xx < cols ==> flat_ent(data@, cols as int, yy, xx)
                        == flat_ent(self.data@, self.cols as int, xx, yy),
            decreases rows - y,
        {
            let mut x: usize = 0;
            while x < cols
                invariant
                    self.wf(),
                    rows == self.cols,
                    cols == self.rows,
                    n == self.data@.len(),
                    y < rows,
                    x <= cols,
                    data@.len() == y * cols + x,
                    forall|yy: int, xx: int|
                        0 <= yy < y && 0 <= xx < cols ==> flat_ent(data@, cols as int, yy, xx)
                            == flat_ent(self.data@, self.cols as int, xx, yy),
                    forall|xx: int|
                        0 <= xx < x ==> flat_ent(data@, cols as int, y as int, xx)
                            == flat_ent(self.data@, self.cols as int, xx, y as int),
                decreases cols - x,
            {
                proof {
                    lemma_row_major_index(self.rows as int, self.cols as int, x as int, y as int);
                }
                let j = x * self.cols + y;
                let ghost pre = data@;
                data.push(self.data[j]);
                proof {
                    assert(flat_ent(data@, cols as int, y as int, x as int) == flat_ent(
                        self.data@,
                        self.cols as int,
                        x as int,
                        y as int,
                    ));
                    assert forall|yy: int, xx: int| 0 <= yy < y && 0 <= xx < cols implies flat_ent(
                        data@,
                        cols as int,
                        yy,
                        xx,
                    ) == flat_ent(self.data@, self.cols as int, xx, yy) by {
                        lemma_row_major_index(y as int, cols as int, yy, xx);
                        assert(flat_ent(pre, cols as int, yy, xx) == flat_ent(
                            self.data@,
                            self.cols as int,
                            xx,
                            yy,
                        ));
                    }
                    assert forall|xx: int| 0 <= xx < x + 1 implies flat_ent(
                        data@,
                        cols as int,
                        y as int,
                        xx,
                    ) == flat_ent(self.data@, self.cols as int, xx, y as int) by {
                        if xx < x {
                            assert(flat_ent(pre, cols as int, y as int, xx) == flat_ent(
                                self.data@,
                                self.cols as int,
                                xx,
                                y as int,
                            ));
                        }
                    }
                }
                x = x + 1;
            }
            proof {
                assert((y + 1) * cols == y * cols + cols) by (nonlinear_arith);
                assert forall|yy: int, xx: int|
                    0 <= yy < y + 1 && 0 <= xx < cols implies flat_ent(data@, cols as int, yy, xx)
                        == flat_ent(self.data@, self.cols as int, xx, yy) by {
                    if yy == y {
                        assert(flat_ent(data@, cols as int, y as int, xx) == flat_ent(
                            self.data@,
                            self.cols as int,
                            xx,
                            y as int,
                        ));
                    }
                }
            }
            y = y + 1;
        }
        let m = Matrix { rows, cols, data };
        proof {
            assert forall|y2: int, x2: int| m.in_bounds(y2, x2) implies m.ent(y2, x2) == self.ent(
                x2,
                y2,
            ) by {
                lemma_row_major_index(rows as int, cols as int, y2, x2);
                assert(flat_ent(m.data@, cols as int, y2, x2) == flat_ent(
                    self.data@,
                    self.cols as int,
                    x2,
                    y2,
                ));
            }
        }
        m
    }

    /// The sum of all entries, as an exact wide integer.
    pub fn sum(&self) -> (s: i128)
        requires
            self.wf(),
        ensures
            s == sum_of(self.data@),
    {
        let n = self.data.len();
        let mut acc: i128 = 0;
        let mut i: usize = 0;
        while i < n
            invariant
                n == self.data@.len(),
                i <= n,
                acc == sum_prefix(self.data@, i as int),
                -(i as int) * 0x8000_0000 <= acc <= (i as int) * 0x7fff_ffff,
            decreases n - i,
        {
            acc = acc + (self.data[i] as i128);
            i = i + 1;
        }
        acc
    }

    /// The flat-buffer position of the largest entry; among equal maxima the
    /// lowest position wins.
    pub fn argmax(&self) -> (r: usize)
        requires
            self.wf(),
        ensures
            r < self.data@.len(),
            forall|i: int| 0 <= i < self.data@.len() ==> self.data@[i] <= self.data@[r as int],
            forall|i: int| 0 <= i < r ==> self.data@[i] < self.data@[r as int],
    {
        proof {
            lemma_row_major_index(self.rows as int, self.cols as int, 0, 0);
        }
        let n = self.data.len();
        let mut best: usize = 0;
        let mut i: usize = 1;
        while i < n
            invariant
                n == self.data@.len(),
                1 <= i <= n,
                best < i,
                forall|j: int| 0 <= j < i ==> self.data@[j] <= self.data@[best as int],
                forall|j: int| 0 <= j < best ==> self.data@[j] < self.data@[best as int],
            decreases n - i,
        {
            if self.data[i] > self.data[best] {
                best = i;
            }
            i = i + 1;
        }
        best
    }

    /// The mean squared difference against `target`: the sum of the squared
    /// entry differences, divided (rounding towards zero) by the entry
    /// count.  Refused when the shapes differ or the sum of squares exceeds
    /// the widest machine integer.
    pub fn mean_squared_error(&self, target: &Matrix) -> (r: Result<i128, MatrixError>)
        requires
            self.wf(),
            target.wf(),
        ensures
            (match r {
                Ok(e) => {
                    &&& same_shape(*self, *target)
                    &&& squared_error_sum(*self, *target) <= i128::MAX
                    &&& e == squared_error_sum(*self, *target) / (self.rows * self.cols)
                },
                Err(MatrixError::DimensionMismatch) => !same_shape(*self, *target),
                Err(MatrixError::Overflow) => same_shape(*self, *target) && squared_error_sum(
                    *self,
                    *target,
                ) > i128::MAX,
                Err(_) => false,
            }),
    {
        if self.rows != target.rows || self.cols != target.cols {
            return Err(MatrixError::DimensionMismatch);
        }
        proof {
            lemma_row_major_index(self.rows as int, self.cols as int, 0, 0);
        }
        let n = self.data.len();
        let mut acc: i128 = 0;
        let mut i: usize = 0;
        while i < n
            invariant
                self.wf(),
                target.wf(),
                same_shape(*self, *target),
                n == self.data@.len(),
                i <= n,
                acc == squared_error_prefix(*self, *target, i as int),
                acc >= 0,
            decreases n - i,
        {
            let d: i64 = (target.data[i] as i64) - (self.data[i] as i64);
            proof {
                lemma_diff_square_bound(d as int);
            }
            let sq: i128 = (d as i128) * (d as i128);
            match acc.checked_add(sq) {
                Some(a2) => acc = a2,
                None => {
                    proof {
                        lemma_squared_error_prefix_mono(*self, *target, i + 1, n as int);
                    }
                    return Err(MatrixError::Overflow);
                },
            }
            i = i + 1;
        }
        let q: u128 = (acc as u128) / (n as u128);
        proof {
            vstd::arithmetic::div_mod::lemma_div_is_ordered_by_denominator(
                acc as int,
                1,
                n as int,
            );
            assert(acc as int / 1 == acc as int) by (nonlinear_arith);
        }
        Ok(q as i128)
    }
}

/// Pointwise sum of two matrices of the same shape.
pub fn add(a: &Matrix, b: &Matrix) -> (r: Result<Matrix, MatrixError>)
    requires
        a.wf(),
        b.wf(),
    ensures
        (match r {
            Ok(m) => {
                &&& same_shape(*a, *b)
                &&& add_fits(*a, *b)
                &&& m.wf()
                &&& m.rows == a.rows
                &&& m.cols == a.cols
                &&& forall|y: int, x: int|
                    m.in_bounds(y, x) ==> m.ent(y, x) == a.ent(y, x) + b.ent(y, x)
            },
            Err(MatrixError::DimensionMismatch) => !same_shape(*a, *b),
            Err(MatrixError::Overflow) => same_shape(*a, *b) && !add_fits(*a, *b),
            Err(_) => false,
        }),
{
    if a.rows != b.rows || a.cols != b.cols {
        return Err(MatrixError::DimensionMismatch);
    }
    let rows = a.rows;
    let cols = a.cols;
    let mut data: Vec<i32> = Vec::new();
    let mut y: usize = 0;
    while y < rows
        invariant
            a.wf(),
            b.wf(),
            same_shape(*a, *b),
            rows == a.rows,
            cols == a.cols,
            y <= rows,
            data@.len() == y * cols,
            forall|k: int|
                0 <= k < y * cols ==> data@[k] == a.data@[k] + b.data@[k],
        decreases rows - y,
    {
        let mut x: usize = 0;
        while x < cols
            invariant
                a.wf(),
                b.wf(),
                same_shape(*a, *b),
                rows == a.rows,
                cols == a.cols,
                y < rows,
                x <= cols,
                data@.len() == y * cols + x,
                forall|k: int|
                    0 <= k < y * cols + x ==> data@[k] == a.data@[k] + b.data@[k],
            decreases cols - x,
        {
            let k = data.len();
            proof {
                lemma_row_major_index(rows as int, cols as int, y as int, x as int);
            }
            match a.data[k].checked_add(b.data[k]) {
                Some(v) => data.push(v),
                None => {
                    proof {
                        assert(!in_scalar_range(a.ent(y as int, x as int) + b.ent(y as int, x as int)));
                        assert(!add_fits(*a, *b)) by {
                            if add_fits(*a, *b) {
                                assert(a.in_bounds(y as int, x as int));
                                assert(in_scalar_range(a.ent(y as int, x as int) + b.ent(y as int, x as int)));
                            }
                        }
                    }
                    return Err(MatrixError::Overflow);
                },
            }
            x = x + 1;
        }
        proof {
            assert((y + 1) * cols == y * cols + cols) by (nonlinear_arith);
        }
        y = y + 1;
    }
    let m = Matrix { rows, cols, data };
    proof {
        assert forall|y2: int, x2: int| m.in_bounds(y2, x2) implies m.ent(y2, x2) == a.ent(y2, x2)
            + b.ent(y2, x2) by {
            lemma_row_major_index(rows as int, cols as int, y2, x2);
        }
        assert forall|y2: int, x2: int| a.in_bounds(y2, x2) implies in_scalar_range(
            a.ent(y2, x2) + b.ent(y2, x2),
        ) by {
            lemma_row_major_index(rows as int, cols as int, y2, x2);
            assert(m.ent(y2, x2) == a.ent(y2, x2) + b.ent(y2, x2));
        }
    }
    Ok(m)
}

/// Pointwise difference of two matrices of the same shape.
pub fn sub(a: &Matrix, b: &Matrix) -> (r: Result<Matrix, MatrixError>)
    requires
        a.wf(),
        b.wf(),
    ensures
        (match r {
            Ok(m) => {
                &&& same_shape(*a, *b)
                &&& sub_fits(*a, *b)
                &&& m.wf()
                &&& m.rows == a.rows
                &&& m.cols == a.cols
                &&& forall|y: int, x: int|
                    m.in_bounds(y, x) ==> m.ent(y, x) == a.ent(y, x) - b.ent(y, x)
            },
            Err(MatrixError::DimensionMismatch) => !same_shape(*a, *b),
            Err(MatrixError::Overflow) => same_shape(*a, *b) && !sub_fits(*a, *b),
            Err(_) => false,
        }),
{
    if a.rows != b.rows || a.cols != b.cols {
        return Err(MatrixError::DimensionMismatch);
    }
    let rows = a.rows;
    let cols = a.cols;
    let mut data: Vec<i32> = Vec::new();
    let mut y: usize = 0;
    while y < rows
        invariant
            a.wf(),
            b.wf(),
            same_shape(*a, *b),
            rows == a.rows,
            cols == a.cols,
            y <= rows,
            data@.len() == y * cols,
            forall|k: int|
                0 <= k < y * cols ==> data@[k] == a.data@[k] - b.data@[k],
        decreases rows - y,
    {
        let mut x: usize = 0;
        while x < cols
            invariant
                a.wf(),
                b.wf(),
                same_shape(*a, *b),
                rows == a.rows,
                cols == a.cols,
                y < rows,
                x <= cols,
                data@.len() == y * cols + x,
                forall|k: int|
                    0 <= k < y * cols + x ==> data@[k] == a.data@[k] - b.data@[k],
            decreases cols - x,
        {
            let k = data.len();
            proof {
                lemma_row_major_index(rows as int, cols as int, y as int, x as int);
            }
            match a.data[k].checked_sub(b.data[k]) {
                Some(v) => data.push(v),
                None => {
                    proof {
                        assert(!in_scalar_range(a.ent(y as int, x as int) - b.ent(y as int, x as int)));
                        assert(!sub_fits(*a, *b)) by {
                            if sub_fits(*a, *b) {
                                assert(a.in_bounds(y as int, x as int));
                                assert(in_scalar_range(a.ent(y as int, x as int) - b.ent(y as int, x as int)));
                            }
                        }
                    }
                    return Err(MatrixError::Overflow);
                },
            }
            x = x + 1;
        }
        proof {
            assert((y + 1) * cols == y * cols + cols) by (nonlinear_arith);
        }
        y = y + 1;
    }
    let m = Matrix { rows, cols, data };
    proof {
        assert forall|y2: int, x2: int| m.in_bounds(y2, x2) implies m.ent(y2, x2) == a.ent(y2, x2)
            - b.ent(y2, x2) by {
            lemma_row_major_index(rows as int, cols as int, y2, x2);
        }
        assert forall|y2: int, x2: int| a.in_bounds(y2, x2) implies in_scalar_range(
            a.ent(y2, x2) - b.ent(y2, x2),
        ) by {
            lemma_row_major_index(rows as int, cols as int, y2, x2);
            assert(m.ent(y2, x2) == a.ent(y2, x2) - b.ent(y2, x2));
        }
    }
    Ok(m)
}

/// Pointwise (entry by entry) product of two matrices of the same shape.
pub fn mul(a: &Matrix, b: &Matrix) -> (r: Result<Matrix, MatrixError>)
    requires
        a.wf(),
        b.wf(),
    ensures
        (match r {
            Ok(m) => {
                &&& same_shape(*a, *b)
                &&& mul_fits(*a, *b)
                &&& m.wf()
                &&& m.rows == a.rows
                &&& m.cols == a.cols
                &&& forall|y: int, x: int|
                    m.in_bounds(y, x) ==> m.ent(y, x) == a.ent(y, x) * b.ent(y, x)
            },
            Err(MatrixError::DimensionMismatch) => !same_shape(*a, *b),
            Err(MatrixError::Overflow) => same_shape(*a, *b) && !mul_fits(*a, *b),
            Err(_) => false,
        }),
{
    if a.rows != b.rows || a.cols != b.cols {
        return Err(MatrixError::DimensionMismatch);
    }
    let rows = a.rows;
    let cols = a.cols;
    let mut data: Vec<i32> = Vec::new();
    let mut y: usize = 0;
    while y < rows
        invariant
            a.wf(),
            b.wf(),
            same_shape(*a, *b),
            rows == a.rows,
            cols == a.cols,
            y <= rows,
            data@.len() == y * cols,
            forall|k: int|
                0 <= k < y * cols ==> data@[k] == a.data@[k] * b.data@[k],
        decreases rows - y,
    {
        let mut x: usize = 0;
        while x < cols
            invariant
                a.wf(),
                b.wf(),
                same_shape(*a, *b),
                rows == a.rows,
                cols == a.cols,
                y < rows,
                x <= cols,
                data@.len() == y * cols + x,
                forall|k: int|
                    0 <= k < y * cols + x ==> data@[k] == a.data@[k] * b.data@[k],
            decreases cols - x,
        {
            let k = data.len();
            proof {
                lemma_row_major_index(rows as int, cols as int, y as int, x as int);
            }
            match a.data[k].checked_mul(b.data[k]) {
                Some(v) => data.push(v),
                None => {
                    proof {
                        assert(!in_scalar_range(a.ent(y as int, x as int) * b.ent(y as int, x as int)));
                        assert(!mul_fits(*a, *b)) by {
                            if mul_fits(*a, *b) {
                                assert(a.in_bounds(y as int, x as int));
                                assert(in_scalar_range(a.ent(y as int, x as int) * b.ent(y as int, x as int)));
                            }
                        }
                    }
                    return Err(MatrixError::Overflow);
                },
            }
            x = x + 1;
        }
        proof {
            assert((y + 1) * cols == y * cols + cols) by (nonlinear_arith);
        }
        y = y + 1;
    }
    let m = Matrix { rows, cols, data };
    proof {
        assert forall|y2: int, x2: int| m.in_bounds(y2, x2) implies m.ent(y2, x2) == a.ent(y2, x2)
            * b.ent(y2, x2) by {
            lemma_row_major_index(rows as int, cols as int, y2, x2);
        }
        assert forall|y2: int, x2: int| a.in_bounds(y2, x2) implies in_scalar_range(
            a.ent(y2, x2) * b.ent(y2, x2),
        ) by {
            lemma_row_major_index(rows as int, cols as int, y2, x2);
            assert(m.ent(y2, x2) == a.ent(y2, x2) * b.ent(y2, x2));
        }
    }
    Ok(m)
}

/// Every entry multiplied by the scalar `k`; the shape is preserved.
pub fn scale(a: &Matrix, k: i32) -> (r: Result<Matrix, MatrixError>)
    requires
        a.wf(),
    ensures
        (match r {
            Ok(m) => {
                &&& scale_fits(*a, k as int)
                &&& m.wf()
                &&& m.rows == a.rows
                &&& m.cols == a.cols
                &&& forall|y: int, x: int|
                    m.in_bounds(y, x) ==> m.ent(y, x) == a.ent(y, x) * k
            },
            Err(e) => e == MatrixError::Overflow && !scale_fits(*a, k as int),
        }),
{
    let rows = a.rows;
    let cols = a.cols;
    let mut data: Vec<i32> = Vec::new();
    let mut y: usize = 0;
    while y < rows
        invariant
            a.wf(),
            rows == a.rows,
            cols == a.cols,
            y <= rows,
            data@.len() == y * cols,
            forall|i: int|
                0 <= i < y * cols ==> data@[i] == a.data@[i] * k,
        decreases rows - y,
    {
        let mut x: usize = 0;
        while x < cols
            invariant
                a.wf(),
                rows == a.rows,
                cols == a.cols,
                y < rows,
                x <= cols,
                data@.len() == y * cols + x,
                forall|i: int|
                    0 <= i < y * cols + x ==> data@[i] == a.data@[i] * k,
            decreases cols - x,
        {
            let i = data.len();
            proof {
                lemma_row_major_index(rows as int, cols as int, y as int, x as int);
            }
            match a.data[i].checked_mul(k) {
                Some(v) => data.push(v),
                None => {
                    proof {
                        assert(!in_scalar_range(a.ent(y as int, x as int) * k));
                        assert(!scale_fits(*a, k as int)) by {
                            if scale_fits(*a, k as int) {
                                assert(a.in_bounds(y as int, x as int));
                                assert(in_scalar_range(a.ent(y as int, x as int) * k));
                            }
                        }
                    }
                    return Err(MatrixError::Overflow);
                },
            }
            x = x + 1;
        }
        proof {
            assert((y + 1) * cols == y * cols + cols) by (nonlinear_arith);
        }
        y = y + 1;
    }
    let m = Matrix { rows, cols, data };
    proof {
        assert forall|y2: int, x2: int| m.in_bounds(y2, x2) implies m.ent(y2, x2) == a.ent(y2, x2)
            * k by {
            lemma_row_major_index(rows as int, cols as int, y2, x2);
        }
        assert forall|y2: int, x2: int| a.in_bounds(y2, x2) implies in_scalar_range(
            a.ent(y2, x2) * k,
        ) by {
            lemma_row_major_index(rows as int, cols as int, y2, x2);
            assert(m.ent(y2, x2) == a.ent(y2, x2) * k);
        }
    }
    Ok(m)
}

impl PartialEq for Matrix {
    /// Two matrices are equal when their shapes and all their entries agree.
    fn eq(&self, other: &Matrix) -> (r: bool) {
        if self.rows != other.rows || self.cols != other.cols {
            return false;
        }
        if self.data.len() != other.data.len() {
            return false;
        }
        let n = self.data.len();
        let mut i: usize = 0;
        while i < n
            invariant
                n == self.data@.len(),
                n == other.data@.len(),
                i <= n,
                forall|j: int| 0 <= j < i ==> self.data@[j] == other.data@[j],
            decreases n - i,
        {
            if self.data[i] != other.data[i] {
                return false;
            }
            i = i + 1;
        }
        proof {
            assert(self.data@ =~= other.data@);
        }
        true
    }
}

impl vstd::std_specs::cmp::PartialEqSpecImpl for Matrix {
    open spec fn obeys_eq_spec() -> bool {
        true
    }

    open spec fn eq_spec(&self, other: &Matrix) -> bool {
        self.rows == other.rows && self.cols == other.cols && self.data@ == other.data@
    }
}

/// Transposing a transpose restores the original: the outer result has the
/// original's shape and all the original's entries.
pub proof fn lemma_transpose_involution(a: Matrix, b: Matrix, c: Matrix)
    requires
        a.wf(),
        is_transpose(a, b),
        is_transpose(b, c),
    ensures
        c.rows == a.rows,
        c.cols == a.cols,
        forall|y: int, x: int| a.in_bounds(y, x) ==> c.ent(y, x) == a.ent(y, x),
{
    assert forall|y: int, x: int| a.in_bounds(y, x) implies c.ent(y, x) == a.ent(y, x) by {
        assert(c.in_bounds(y, x));
        assert(b.in_bounds(x, y));
        assert(c.ent(y, x) == b.ent(x, y));
        assert(b.ent(x, y) == a.ent(y, x));
    }
}

/// A matrix has zero squared error against itself, so its mean squared
/// error against itself is zero.
pub proof fn lemma_squared_error_self_zero(m: Matrix)
    ensures
        squared_error_sum(m, m) == 0,
{
    lemma_squared_error_prefix_self_zero(m, m.data@.len() as int);
}

proof fn lemma_squared_error_prefix_self_zero(m: Matrix, k: int)
    ensures
        squared_error_prefix(m, m, k) == 0,
    decreases k,
{
    if k > 0 {
        lemma_squared_error_prefix_self_zero(m, k - 1);
        let v = m.data@[k - 1];
        assert((v - v) * (v - v) == 0) by (nonlinear_arith);
    }
}

/// Adding to a matrix its own scaling by `-1` yields the zero matrix of the
/// same shape.
pub proof fn lemma_add_scaled_negation_zero(a: Matrix, neg: Matrix, z: Matrix)
    requires
        a.wf(),
        same_shape(a, neg),
        forall|y: int, x: int| a.in_bounds(y, x) ==> neg.ent(y, x) == a.ent(y, x) * -1,
        same_shape(a, z),
        forall|y: int, x: int| a.in_bounds(y, x) ==> z.ent(y, x) == a.ent(y, x) + neg.ent(y, x),
    ensures
        z.rows == a.rows,
        z.cols == a.cols,
        forall|y: int, x: int| a.in_bounds(y, x) ==> z.ent(y, x) == 0,
{
    assert forall|y: int, x: int| a.in_bounds(y, x) implies z.ent(y, x) == 0 by {
        assert(neg.ent(y, x) == a.ent(y, x) * -1);
        assert(z.ent(y, x) == a.ent(y, x) + neg.ent(y, x));
    }
}

/// Every entry of `m` is zero.
pub open spec fn is_zero_matrix(m: Matrix) -> bool {
    forall|y: int, x: int| m.in_bounds(y, x) ==> m.ent(y, x) == 0
}

/// A product against an all-zero left factor has only zero entries, so with
/// zero weights and zero bias every pre-activation entry of an affine layer
/// is the same.
pub proof fn lemma_zero_matrix_product(a: Matrix, b: Matrix, y: int, x: int)
    requires
        a.wf(),
        b.wf(),
        a.cols == b.rows,
        is_zero_matrix(a),
        0 <= y < a.rows,
        0 <= x < b.cols,
    ensures
        prod_ent(a, b, y, x) == 0,
{
    lemma_zero_matrix_product_prefix(a, b, y, x, a.cols as int);
}

proof fn lemma_zero_matrix_product_prefix(a: Matrix, b: Matrix, y: int, x: int, k: int)
    requires
        a.wf(),
        b.wf(),
        a.cols == b.rows,
        is_zero_matrix(a),
        0 <= y < a.rows,
        0 <= x < b.cols,
        k <= a.cols,
    ensures
        dot_prefix(a, b, y, x, k) == 0,
    decreases k,
{
    if k > 0 {
        lemma_zero_matrix_product_prefix(a, b, y, x, k - 1);
        assert(a.in_bounds(y, k - 1));
        assert(a.ent(y, k - 1) == 0);
        let v = b.ent(k - 1, x);
        assert(0 * v == 0) by (nonlinear_arith);
    }
}

/// Matrix product.  Requires the inner dimensions to agree; the result has
/// shape `(a.rows, b.cols)` and its entry in row `y`, column `x` is the
/// inner product of row `y` of `a` with column `x` of `b`.
pub fn dot(a: &Matrix, b: &Matrix) -> (r: Result<Matrix, MatrixError>)
    requires
        a.wf(),
        b.wf(),
    ensures
        (match r {
            Ok(m) => {
                &&& a.cols == b.rows
                &&& dot_fits(*a, *b)
                &&& m.wf()
                &&& m.rows == a.rows
                &&& m.cols == b.cols
                &&& forall|y: int, x: int|
                    m.in_bounds(y, x) ==> m.ent(y, x) == prod_ent(*a, *b, y, x)
            },
            Err(MatrixError::DimensionMismatch) => a.cols != b.rows,
            Err(MatrixError::Overflow) => a.cols == b.rows && !dot_fits(*a, *b),
            Err(_) => false,
        }),
{
    if a.cols != b.rows {
        return Err(MatrixError::DimensionMismatch);
    }
    let rows = a.rows;
    let cols = b.cols;
    let na = a.data.len();
    let nb = b.data.len();
    let mut data: Vec<i32> = Vec::new();
    let mut y: usize = 0;
    while y < rows
        invariant
            a.wf(),
            b.wf(),
            a.cols == b.rows,
            rows == a.rows,
            cols == b.cols,
            na == a.data@.len(),
            nb == b.data@.len(),
            y <= rows,
            data@.len() == y * cols,
            forall|yy: int, xx: int|
                0 <= yy < y && 0 <= xx < cols ==> flat_ent(data@, cols as int, yy, xx) == prod_ent(
                    *a,
                    *b,
                    yy,
                    xx,
                ),
        decreases rows - y,
    {
        let mut x: usize = 0;
        while x < cols
            invariant
                a.wf(),
                b.wf(),
                a.cols == b.rows,
                rows == a.rows,
                cols == b.cols,
                na == a.data@.len(),
                nb == b.data@.len(),
                y < rows,
                x <= cols,
                data@.len() == y * cols + x,
                forall|yy: int, xx: int|
                    0 <= yy < y && 0 <= xx < cols ==> flat_ent(data@, cols as int, yy, xx)
                        == prod_ent(*a, *b, yy, xx),
                forall|xx: int|
                    0 <= xx < x ==> flat_ent(data@, cols as int, y as int, xx) == prod_ent(
                        *a,
                        *b,
                        y as int,
                        xx,
                    ),
            decreases cols - x,
        {
            let mut acc: i128 = 0;
            let mut i: usize = 0;
            while i < a.cols
                invariant
                    a.wf(),
                    b.wf(),
                    a.cols == b.rows,
                    na == a.data@.len(),
                    nb == b.data@.len(),
                    y < a.rows,
                    x < b.cols,
                    i <= a.cols,
                    acc == dot_prefix(*a, *b, y as int, x as int, i as int),
                    -(i as int) * 0x4000_0000_0000_0000 <= acc <= (i as int)
                        * 0x4000_0000_0000_0000,
                decreases a.cols - i,
            {
                proof {
                    lemma_row_major_index(a.rows as int, a.cols as int, y as int, i as int);
                    lemma_row_major_index(b.rows as int, b.cols as int, i as int, x as int);
                    lemma_scalar_product_bound(
                        a.ent(y as int, i as int),
                        b.ent(i as int, x as int),
                    );
                }
                let j1 = y * a.cols + i;
                let j2 = i * b.cols + x;
                let p: i64 = (a.data[j1] as i64) * (b.data[j2] as i64);
                acc = acc + (p as i128);
                i = i + 1;
            }
            if acc > i32::MAX as i128 || acc < i32::MIN as i128 {
                proof {
                    assert(!in_scalar_range(prod_ent(*a, *b, y as int, x as int)));
                    assert(!dot_fits(*a, *b)) by {
                        if dot_fits(*a, *b) {
                            assert(in_scalar_range(prod_ent(*a, *b, y as int, x as int)));
                        }
                    }
                }
                return Err(MatrixError::Overflow);
            }
            let ghost pre = data@;
            data.push(acc as i32);
            proof {
                assert(flat_ent(data@, cols as int, y as int, x as int) == prod_ent(
                    *a,
                    *b,
                    y as int,
                    x as int,
                ));
                assert forall|yy: int, xx: int| 0 <= yy < y && 0 <= xx < cols implies flat_ent(
                    data@,
                    cols as int,
                    yy,
                    xx,
                ) == prod_ent(*a, *b, yy, xx) by {
                    lemma_row_major_index(y as int, cols as int, yy, xx);
                    assert(flat_ent(pre, cols as int, yy, xx) == prod_ent(*a, *b, yy, xx));
                }
                assert forall|xx: int| 0 <= xx < x + 1 implies flat_ent(
                    data@,
                    cols as int,
                    y as int,
                    xx,
                ) == prod_ent(*a, *b, y as int, xx) by {
                    if xx < x {
                        assert(flat_ent(pre, cols as int, y as int, xx) == prod_ent(
                            *a,
                            *b,
                            y as int,
                            xx,
                        ));
                    }
                }
            }
            x = x + 1;
        }
        proof {
            assert((y + 1) * cols == y * cols + cols) by (nonlinear_arith);
            assert forall|yy: int, xx: int| 0 <= yy < y + 1 && 0 <= xx < cols implies flat_ent(
                data@,
                cols as int,
                yy,
                xx,
            ) == prod_ent(*a, *b, yy, xx) by {
                if yy == y {
                    assert(flat_ent(data@, cols as int, y as int, xx) == prod_ent(
                        *a,
                        *b,
                        y as int,
                        xx,
                    ));
                }
            }
        }
        y = y + 1;
    }
    let m = Matrix { rows, cols, data };
    proof {
        assert forall|y2: int, x2: int| m.in_bounds(y2, x2) implies m.ent(y2, x2) == prod_ent(
            *a,
            *b,
            y2,
            x2,
        ) by {
            lemma_row_major_index(rows as int, cols as int, y2, x2);
            assert(flat_ent(m.data@, cols as int, y2, x2) == prod_ent(*a, *b, y2, x2));
        }
        assert forall|y2: int, x2: int| 0 <= y2 < a.rows && 0 <= x2 < b.cols implies
            in_scalar_range(prod_ent(*a, *b, y2, x2)) by {
            lemma_row_major_index(rows as int, cols as int, y2, x2);
            assert(m.ent(y2, x2) == prod_ent(*a, *b, y2, x2));
        }
    }
    Ok(m)
}

} // verus!
