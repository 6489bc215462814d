use vstd::prelude::*;
use crate::error::MathError;
use crate::scalar::Scalar;
use crate::text::{decimal, push_decimal};
use crate::validate::{
    ensure_bounds, ensure_shape, ensure_square, is_dimension_mismatch, is_invalid_input, shape_text,
};
use crate::vector::{Vector, fits, products, sum, sum_of_products, sums_fit, zero_entries};

verus! {

/// A matrix as the contracts see it: its shape and its entries row by row.
pub struct MatrixView<T> {
    pub rows: nat,
    pub cols: nat,
    pub data: Seq<T>,
}

impl<T> MatrixView<T> {
    /// The entries fill the shape exactly.
    pub open spec fn well_formed(self) -> bool {
        self.data.len() == self.rows * self.cols
    }

    /// The entry in row `r` and column `c`.
    pub open spec fn entry(self, r: int, c: int) -> T {
        self.data[r * self.cols + c]
    }

    /// Row `r`, left to right.
    pub open spec fn row(self, r: int) -> Seq<T> {
        Seq::new(self.cols, |c: int| self.entry(r, c))
    }

    /// Column `c`, top to bottom.
    pub open spec fn column(self, c: int) -> Seq<T> {
        Seq::new(self.rows, |r: int| self.entry(r, c))
    }

    /// `self` has this shape and its entries are given by `f`.
    pub open spec fn has_entries(self, rows: nat, cols: nat, f: spec_fn(int, int) -> T) -> bool {
        &&& self.well_formed()
        &&& self.rows == rows
        &&& self.cols == cols
        &&& forall|r: int, c: int| 0 <= r < rows && 0 <= c < cols ==> #[trigger] self.entry(r, c) == f(r, c)
    }
}

/// The position of an entry lies within the entries, and a whole row fits
/// after the start of its row.
pub proof fn lemma_offset(rows: int, cols: int, r: int, c: int)
    requires
        0 <= r < rows,
        0 <= c < cols,
    ensures
        0 <= r * cols,
        r * cols + c < rows * cols,
        r * cols + cols <= rows * cols,
{
    assert(0 <= r * cols) by (nonlinear_arith)
        requires
            0 <= r,
            0 <= c < cols,
    ;
    assert(r * cols + cols <= rows * cols) by (nonlinear_arith)
        requires
            0 <= r < rows,
            0 <= c < cols,
    ;
}

/// Distinct positions hold distinct entries.
proof fn lemma_offset_distinct(cols: int, r1: int, c1: int, r2: int, c2: int)
    requires
        0 <= c1 < cols,
        0 <= c2 < cols,
        r1 * cols + c1 == r2 * cols + c2,
    ensures
        r1 == r2,
        c1 == c2,
{
    assert(r1 == r2) by (nonlinear_arith)
        requires
            0 <= c1 < cols,
            0 <= c2 < cols,
            r1 * cols + c1 == r2 * cols + c2,
    ;
}

/// A dense matrix stored row by row.
#[derive(Debug, Clone, PartialEq)]
pub struct Matrix<T> {
    rows: usize,
    cols: usize,
    data: Vec<T>,
}

/// An LU factorisation with partial pivoting: the strictly lower part of
/// `lu` holds the multipliers below a unit diagonal, the rest holds the
/// upper factor; `pivots` records the row order and `permutation_sign` its
/// parity.
#[derive(Debug, PartialEq)]
pub struct LUDecomposition<T> {
    lu: Matrix<T>,
    pivots: Vec<usize>,
    permutation_sign: i32,
}

/// A thin QR factorisation.
#[derive(Debug, Clone, PartialEq)]
pub struct QRDecomposition<T> {
    pub q: Matrix<T>,
    pub r: Matrix<T>,
}

impl<T> View for Matrix<T> {
    type V = MatrixView<T>;

    closed spec fn view(&self) -> MatrixView<T> {
        MatrixView { rows: self.rows as nat, cols: self.cols as nat, data: self.data@ }
    }
}

/// The text `"<rows>x<cols> matrix payload"`.
pub open spec fn payload_text(rows: nat, cols: nat) -> Seq<char> {
    shape_text(rows, cols) + " matrix payload"@
}

/// The text `"vector of length <n>"`.
pub open spec fn vector_length_text(n: nat) -> Seq<char> {
    "vector of length "@ + decimal(n)
}

impl<T> Matrix<T> {
    /// A matrix of the given shape over `data`, read row by row; fails when
    /// the number of values is not `rows * cols`.
    pub fn new(rows: usize, cols: usize, data: Vec<T>) -> (r: Result<Self, MathError>)
        ensures
            r is Ok <==> rows * cols == data@.len(),
            r matches Ok(m) ==> m@ == (MatrixView { rows: rows as nat, cols: cols as nat, data: data@ }),
            r matches Err(e) ==> is_dimension_mismatch(
                e,
                payload_text(rows as nat, cols as nat),
                decimal(data@.len()) + " values"@,
            ),
    {
        let fits = match rows.checked_mul(cols) {
            Some(n) => n == data.len(),
            None => false,
        };
        if !fits {
            let mut expected = String::new();
            push_decimal(&mut expected, rows);
            expected.append("x");
            push_decimal(&mut expected, cols);
            expected.append(" matrix payload");
            let mut found = String::new();
            push_decimal(&mut found, data.len());
            found.append(" values");
            proof {
                reveal_strlit("x");
            }
            assert(expected@ =~= payload_text(rows as nat, cols as nat));
            return Err(MathError::DimensionMismatch { expected, found });
        }
        Ok(Matrix { rows, cols, data })
    }

    pub fn rows(&self) -> (r: usize)
        ensures
            r == self@.rows,
    {
        self.rows
    }

    pub fn cols(&self) -> (r: usize)
        ensures
            r == self@.cols,
    {
        self.cols
    }

    pub fn shape(&self) -> (r: (usize, usize))
        ensures
            r.0 == self@.rows,
            r.1 == self@.cols,
    {
        (self.rows, self.cols)
    }

    /// The entries, row by row.
    pub fn as_slice(&self) -> (r: &[T])
        ensures
            r@ == self@.data,
    {
        self.data.as_slice()
    }

    pub fn into_vec(self) -> (r: Vec<T>)
        ensures
            r@ == self@.data,
    {
        self.data
    }

    /// The position of an entry in the row-by-row storage.
    fn offset(&self, row: usize, col: usize) -> (r: usize)
        requires
            self@.well_formed(),
            row < self@.rows,
            col < self@.cols,
        ensures
            r == row * self@.cols + col,
            r < self@.data.len(),
    {
        proof {
            lemma_offset(self.rows as int, self.cols as int, row as int, col as int);
            assert(row * self.cols + col < self.data.len());
        }
        row * self.cols + col
    }

    /// The entry in row `row` and column `col`.
    pub fn get(&self, row: usize, col: usize) -> (r: &T)
        requires
            self@.well_formed(),
            row < self@.rows,
            col < self@.cols,
        ensures
            *r == self@.entry(row as int, col as int),
    {
        let k = self.offset(row, col);
        &self.data[k]
    }

    /// Replaces the entry in row `row` and column `col`.
    pub fn set(&mut self, row: usize, col: usize, value: T)
        requires
            old(self)@.well_formed(),
            row < old(self)@.rows,
            col < old(self)@.cols,
        ensures
            final(self)@.well_formed(),
            final(self)@.rows == old(self)@.rows,
            final(self)@.cols == old(self)@.cols,
            final(self)@.data == old(self)@.data.update(row * old(self)@.cols + col, value),
    {
        let k = self.offset(row, col);
        self.data.set(k, value);
    }

    /// Row `row` as a slice; fails when the row does not exist.
    pub fn row_slice(&self, row: usize) -> (r: Result<&[T], MathError>)
        requires
            self@.well_formed(),
        ensures
            r is Ok <==> row < self@.rows,
            r matches Ok(s) ==> s@ == self@.row(row as int),
            r matches Err(e) ==> is_invalid_input(
                e,
                "matrix row access"@,
                "index "@ + decimal(row as nat) + " out of bounds for length "@ + decimal(self@.rows),
            ),
    {
        let checked = ensure_bounds(row, self.rows, "matrix row access");
        match checked {
            Err(e) => return Err(e),
            Ok(()) => {},
        }
        if self.cols == 0 {
            let (empty, _) = self.data.as_slice().split_at(0);
            assert(empty@ =~= self@.row(row as int));
            return Ok(empty);
        }
        proof {
            lemma_offset(self.rows as int, self.cols as int, row as int, 0);
            assert(row * self.cols + self.cols <= self.data.len());
        }
        let start = row * self.cols;
        let (_, rest) = self.data.as_slice().split_at(start);
        let (slice, _) = rest.split_at(self.cols);
        assert(slice@ =~= self@.row(row as int));
        Ok(slice)
    }

    /// Row `row` as a vector; fails when the row does not exist.
    pub fn row(&self, row: usize) -> (r: Result<Vector<T>, MathError>)
        where T: Copy,
        requires
            self@.well_formed(),
        ensures
            r is Ok <==> row < self@.rows,
            r matches Ok(v) ==> v@ == self@.row(row as int),
            r matches Err(e) ==> is_invalid_input(
                e,
                "matrix row access"@,
                "index "@ + decimal(row as nat) + " out of bounds for length "@ + decimal(self@.rows),
            ),
    {
        let slice = match self.row_slice(row) {
            Err(e) => return Err(e),
            Ok(s) => s,
        };
        let mut data: Vec<T> = Vec::new();
        let mut i: usize = 0;
        while i < slice.len()
            invariant
                i <= slice@.len(),
                data@ == slice@.take(i as int),
            decreases slice@.len() - i,
        {
            data.push(slice[i]);
            i = i + 1;
            assert(data@ =~= slice@.take(i as int));
        }
        assert(data@ =~= slice@);
        Ok(Vector::new(data))
    }

    /// Column `col` as a vector; fails when the column does not exist.
    pub fn column(&self, col: usize) -> (r: Result<Vector<T>, MathError>)
        where T: Copy,
        requires
            self@.well_formed(),
        ensures
            r is Ok <==> col < self@.cols,
            r matches Ok(v) ==> v@ == self@.column(col as int),
            r matches Err(e) ==> is_invalid_input(
                e,
                "matrix column access"@,
                "index "@ + decimal(col as nat) + " out of bounds for length "@ + decimal(self@.cols),
            ),
    {
        let checked = ensure_bounds(col, self.cols, "matrix column access");
        match checked {
            Err(e) => return Err(e),
            Ok(()) => {},
        }
        let mut data: Vec<T> = Vec::new();
        let mut row: usize = 0;
        while row < self.rows
            invariant
                self@.well_formed(),
                col < self@.cols,
                row <= self@.rows,
                data@ == self@.column(col as int).take(row as int),
            decreases self@.rows - row,
        {
            data.push(*self.get(row, col));
            row = row + 1;
            assert(data@ =~= self@.column(col as int).take(row as int));
        }
        assert(data@ =~= self@.column(col as int));
        Ok(Vector::new(data))
    }

    /// Applies `f` to each entry.
    pub fn map<U, F: Fn(T) -> U>(&self, f: F) -> (r: Matrix<U>)
        where T: Copy,
        requires
            forall|i: int| 0 <= i < self@.data.len() ==> f.requires((#[trigger] self@.data[i],)),
        ensures
            r@.rows == self@.rows,
            r@.cols == self@.cols,
            r@.data.len() == self@.data.len(),
            forall|i: int| 0 <= i < self@.data.len() ==> f.ensures((self@.data[i],), #[trigger] r@.data[i]),
    {
        let mut data: Vec<U> = Vec::new();
        let mut i: usize = 0;
        while i < self.data.len()
            invariant
                i <= self@.data.len(),
                data@.len() == i,
                forall|j: int| 0 <= j < self@.data.len() ==> f.requires((#[trigger] self@.data[j],)),
                forall|j: int| 0 <= j < i ==> f.ensures((self@.data[j],), #[trigger] data@[j]),
            decreases self@.data.len() - i,
        {
            data.push(f(self.data[i]));
            i = i + 1;
        }
        Matrix { rows: self.rows, cols: self.cols, data }
    }

    /// Applies `f` to the entries of `self` and `other` at each position; the
    /// two must have the same shape.
    pub fn zip_map<U, V, F: Fn(T, U) -> V>(&self, other: &Matrix<U>, f: F) -> (r: Result<Matrix<V>, MathError>)
        where T: Copy, U: Copy,
        requires
            self@.well_formed(),
            other@.well_formed(),
            (self@.rows == other@.rows && self@.cols == other@.cols) ==> forall|i: int|
                0 <= i < self@.data.len() ==> f.requires((#[trigger] self@.data[i], other@.data[i])),
        ensures
            r is Ok <==> (self@.rows == other@.rows && self@.cols == other@.cols),
            r matches Ok(m) ==> m@.rows == self@.rows && m@.cols == self@.cols
                && m@.data.len() == self@.data.len()
                && forall|i: int| 0 <= i < self@.data.len()
                    ==> f.ensures((self@.data[i], other@.data[i]), #[trigger] m@.data[i]),
            r matches Err(e) ==> is_dimension_mismatch(
                e,
                shape_text(self@.rows, self@.cols) + " in "@ + "matrix zip_map"@,
                shape_text(other@.rows, other@.cols),
            ),
    {
        let checked = ensure_shape(other.rows, other.cols, self.rows, self.cols, "matrix zip_map");
        match checked {
            Err(e) => return Err(e),
            Ok(()) => {},
        }
        let mut data: Vec<V> = Vec::new();
        let mut i: usize = 0;
        while i < self.data.len()
            invariant
                self@.data.len() == other@.data.len(),
                i <= self@.data.len(),
                data@.len() == i,
                forall|j: int| 0 <= j < self@.data.len() ==> f.requires((#[trigger] self@.data[j], other@.data[j])),
                forall|j: int| 0 <= j < i ==> f.ensures((self@.data[j], other@.data[j]), #[trigger] data@[j]),
            decreases self@.data.len() - i,
        {
            data.push(f(self.data[i], other.data[i]));
            i = i + 1;
        }
        Ok(Matrix { rows: self.rows, cols: self.cols, data })
    }

    /// The transpose.
    pub fn transpose(&self) -> (r: Matrix<T>)
        where T: Copy,
        requires
            self@.well_formed(),
        ensures
            r@.has_entries(self@.cols, self@.rows, |i: int, j: int| self@.entry(j, i)),
    {
        let ghost m = self@;
        let mut data: Vec<T> = Vec::new();
        let mut col: usize = 0;
        while col < self.cols
            invariant
                m == self@,
                m.well_formed(),
                col <= m.cols,
                data@.len() == col * m.rows,
                forall|i: int, j: int| 0 <= i < col && 0 <= j < m.rows
                    ==> #[trigger] data@[i * m.rows + j] == m.entry(j, i),
            decreases m.cols - col,
        {
            let mut row: usize = 0;
            let ghost base = data@.len();
            while row < self.rows
                invariant
                    m == self@,
                    m.well_formed(),
                    col < m.cols,
                    row <= m.rows,
                    base == col * m.rows,
                    data@.len() == base + row,
                    forall|i: int, j: int| 0 <= i < col && 0 <= j < m.rows
                        ==> #[trigger] data@[i * m.rows + j] == m.entry(j, i),
                    forall|j: int| 0 <= j < row ==> #[trigger] data@[base + j] == m.entry(j, col as int),
                decreases m.rows - row,
            {
                data.push(*self.get(row, col));
                proof {
                    assert forall|i: int, j: int| 0 <= i < col && 0 <= j < m.rows
                        implies #[trigger] data@[i * m.rows + j] == m.entry(j, i) by {
                        lemma_offset(col as int, m.rows as int, i, j);
                    }
                }
                row = row + 1;
            }
            proof {
                assert forall|i: int, j: int| 0 <= i < col + 1 && 0 <= j < m.rows
                    implies #[trigger] data@[i * m.rows + j] == m.entry(j, i) by {
                    if i == col {
                        assert(data@[base + j] == m.entry(j, col as int));
                    }
                }
                assert((col + 1) * m.rows == col * m.rows + m.rows) by (nonlinear_arith);
            }
            col = col + 1;
        }
        let r = Matrix { rows: self.cols, cols: self.rows, data };
        proof {
            assert(r@.data.len() == m.cols * m.rows);
            assert(m.cols * m.rows == r@.rows * r@.cols);
        }
        r
    }
}


impl<T: Copy> Matrix<T> {
    /// Exchanges rows `a` and `b`.
    pub fn swap_rows(&mut self, a: usize, b: usize)
        requires
            old(self)@.well_formed(),
            a < old(self)@.rows,
            b < old(self)@.rows,
        ensures
            final(self)@.well_formed(),
            final(self)@.rows == old(self)@.rows,
            final(self)@.cols == old(self)@.cols,
            forall|r: int, c: int| 0 <= r < old(self)@.rows && 0 <= c < old(self)@.cols
                ==> #[trigger] final(self)@.entry(r, c) == old(self)@.entry(
                    if r == a { b as int } else if r == b { a as int } else { r },
                    c,
                ),
    {
        if a == b {
            return;
        }
        let ghost m = self@;
        let mut col: usize = 0;
        while col < self.cols
            invariant
                self@.well_formed(),
                self@.rows == m.rows,
                self@.cols == m.cols,
                a < m.rows,
                b < m.rows,
                a != b,
                col <= m.cols,
                forall|r: int, c: int| 0 <= r < m.rows && 0 <= c < m.cols
                    ==> #[trigger] self@.entry(r, c) == if c < col {
                        m.entry(if r == a { b as int } else if r == b { a as int } else { r }, c)
                    } else {
                        m.entry(r, c)
                    },
            decreases m.cols - col,
        {
            let x = *self.get(a, col);
            let y = *self.get(b, col);
            let ghost before = self@;
            self.set(a, col, y);
            self.set(b, col, x);
            let ghost swapped = before.data.update(a * m.cols + col, y).update(b * m.cols + col, x);
            assert(self@.data == swapped);
            proof {
                lemma_offset(m.rows as int, m.cols as int, a as int, col as int);
                lemma_offset(m.rows as int, m.cols as int, b as int, col as int);
                assert forall|r: int, c: int| 0 <= r < m.rows && 0 <= c < m.cols
                    implies #[trigger] self@.entry(r, c) == if c < col + 1 {
                        m.entry(if r == a { b as int } else if r == b { a as int } else { r }, c)
                    } else {
                        m.entry(r, c)
                    } by {
                    lemma_offset(m.rows as int, m.cols as int, r, c);
                    if r * m.cols + c == a * m.cols + col {
                        lemma_offset_distinct(m.cols as int, r, c, a as int, col as int);
                    } else if r * m.cols + c == b * m.cols + col {
                        lemma_offset_distinct(m.cols as int, r, c, b as int, col as int);
                    } else {
                        assert(swapped[r * m.cols + c] == before.data[r * m.cols + c]);
                        assert(self@.entry(r, c) == before.entry(r, c));
                        if c == col {
                            if r == a {
                                lemma_offset_distinct(m.cols as int, r, c, a as int, col as int);
                            }
                            if r == b {
                                lemma_offset_distinct(m.cols as int, r, c, b as int, col as int);
                            }
                        }
                    }
                }
            }
            col = col + 1;
        }
    }
}

/// The integers on the diagonal of a square matrix.
pub open spec fn diagonal<T: Scalar>(m: MatrixView<T>) -> Seq<int> {
    Seq::new(m.rows, |i: int| m.entry(i, i).value())
}

/// Each entry of `m` stands for the integer `f` gives at its position.
pub open spec fn has_values<T: Scalar>(m: MatrixView<T>, rows: nat, cols: nat, f: spec_fn(int, int) -> int) -> bool {
    &&& m.well_formed()
    &&& m.rows == rows
    &&& m.cols == cols
    &&& forall|r: int, c: int| 0 <= r < rows && 0 <= c < cols ==> (#[trigger] m.entry(r, c)).value() == f(r, c)
}

impl<T: Scalar> Matrix<T> {
    /// The `rows` by `cols` matrix of zeros.
    pub fn zeros(rows: usize, cols: usize) -> (r: Self)
        requires
            rows * cols <= usize::MAX,
        ensures
            has_values(r@, rows as nat, cols as nat, |i: int, j: int| 0int),
    {
        let data: Vec<T> = zero_entries(rows * cols);
        let r = Matrix { rows, cols, data };
        proof {
            assert forall|i: int, j: int| 0 <= i < rows && 0 <= j < cols
                implies (#[trigger] r@.entry(i, j)).value() == 0 by {
                lemma_offset(rows as int, cols as int, i, j);
            }
        }
        r
    }

    /// The `size` by `size` identity matrix.
    pub fn identity(size: usize) -> (r: Self)
        requires
            size * size <= usize::MAX,
        ensures
            has_values(r@, size as nat, size as nat, |i: int, j: int| if i == j { 1int } else { 0int }),
    {
        let mut m = Self::zeros(size, size);
        let mut k: usize = 0;
        while k < size
            invariant
                k <= size,
                m@.well_formed(),
                m@.rows == size,
                m@.cols == size,
                forall|i: int, j: int| 0 <= i < size && 0 <= j < size
                    ==> (#[trigger] m@.entry(i, j)).value() == if i == j && i < k { 1int } else { 0int },
            decreases size - k,
        {
            let ghost before = m@;
            m.set(k, k, T::one());
            proof {
                lemma_offset(size as int, size as int, k as int, k as int);
                assert forall|i: int, j: int| 0 <= i < size && 0 <= j < size
                    implies (#[trigger] m@.entry(i, j)).value() == if i == j && i < k + 1 { 1int } else { 0int } by {
                    lemma_offset(size as int, size as int, i, j);
                    if i * size + j == k * size + k {
                        lemma_offset_distinct(size as int, i, j, k as int, k as int);
                    } else {
                        assert(m@.entry(i, j) == before.entry(i, j));
                    }
                }
            }
            k = k + 1;
        }
        m
    }

    /// The sum of the diagonal; the matrix must be square.
    pub fn trace(&self) -> (r: Result<T, MathError>)
        requires
            self@.well_formed(),
            self@.rows == self@.cols ==> sums_fit::<T>(diagonal(self@)),
        ensures
            r is Ok <==> self@.rows == self@.cols,
            r matches Ok(v) ==> v.value() == sum(diagonal(self@)),
            r matches Err(e) ==> is_dimension_mismatch(
                e,
                "square matrix in "@ + "matrix trace"@,
                shape_text(self@.rows, self@.cols),
            ),
    {
        let checked = ensure_square(self.rows, self.cols, "matrix trace");
        match checked {
            Err(e) => return Err(e),
            Ok(()) => {},
        }
        let ghost terms = diagonal(self@);
        let mut acc = T::zero();
        let mut i: usize = 0;
        assert(terms.take(0) =~= Seq::<int>::empty());
        while i < self.rows
            invariant
                self@.well_formed(),
                self@.rows == self@.cols,
                terms == diagonal(self@),
                sums_fit::<T>(terms),
                i <= self@.rows,
                acc.value() == sum(terms.take(i as int)),
            decreases self@.rows - i,
        {
            assert(terms.take(i + 1).drop_last() =~= terms.take(i as int));
            assert(fits::<T>(sum(terms.take(i + 1))));
            acc = acc.plus(*self.get(i, i));
            i = i + 1;
        }
        assert(terms.take(i as int) =~= terms);
        Ok(acc)
    }

    /// The product of the matrix and a column vector of length `cols`.
    pub fn mul_vector(&self, vector: &Vector<T>) -> (r: Result<Vector<T>, MathError>)
        requires
            self@.well_formed(),
            self@.cols == vector@.len() ==> forall|i: int| 0 <= i < self@.rows
                ==> sums_fit::<T>(#[trigger] products(self@.row(i), vector@)),
        ensures
            r is Ok <==> self@.cols == vector@.len(),
            r matches Ok(v) ==> v@.len() == self@.rows && forall|i: int| 0 <= i < self@.rows
                ==> (#[trigger] v@[i]).value() == sum(products(self@.row(i), vector@)),
            r matches Err(e) ==> is_dimension_mismatch(
                e,
                vector_length_text(self@.cols),
                vector_length_text(vector@.len()),
            ),
    {
        if self.cols != vector.len() {
            let mut expected = String::from_str("vector of length ");
            push_decimal(&mut expected, self.cols);
            let mut found = String::from_str("vector of length ");
            push_decimal(&mut found, vector.len());
            return Err(MathError::DimensionMismatch { expected, found });
        }
        let column = vector.as_slice();
        let mut result: Vec<T> = Vec::new();
        let mut row: usize = 0;
        while row < self.rows
            invariant
                self@.well_formed(),
                self@.cols == column@.len(),
                column@ == vector@,
                forall|i: int| 0 <= i < self@.rows
                    ==> sums_fit::<T>(#[trigger] products(self@.row(i), vector@)),
                row <= self@.rows,
                result@.len() == row,
                forall|i: int| 0 <= i < row
                    ==> (#[trigger] result@[i]).value() == sum(products(self@.row(i), vector@)),
            decreases self@.rows - row,
        {
            let line = match self.row_slice(row) {
                Ok(s) => s,
                Err(_) => return Err(MathError::SingularMatrix),
            };
            let acc = sum_of_products(line, column);
            result.push(acc);
            row = row + 1;
        }
        Ok(Vector::new(result))
    }

    /// The product `self * other`; the inner dimensions must agree.
    pub fn mul_matrix(&self, other: &Matrix<T>) -> (r: Result<Matrix<T>, MathError>)
        requires
            self@.well_formed(),
            other@.well_formed(),
            self@.cols == other@.rows ==> self@.rows * other@.cols <= usize::MAX,
            self@.cols == other@.rows ==> forall|i: int, j: int| 0 <= i < self@.rows && 0 <= j < other@.cols
                ==> sums_fit::<T>(#[trigger] products(self@.row(i), other@.column(j))),
        ensures
            r is Ok <==> self@.cols == other@.rows,
            r matches Ok(m) ==> has_values(
                m@,
                self@.rows,
                other@.cols,
                |i: int, j: int| sum(products(self@.row(i), other@.column(j))),
            ),
            r matches Err(e) ==> is_dimension_mismatch(
                e,
                "inner dimensions "@ + decimal(self@.cols) + " == "@ + decimal(other@.rows),
                decimal(self@.cols) + " vs "@ + decimal(other@.rows),
            ),
    {
        if self.cols != other.rows {
            let mut expected = String::from_str("inner dimensions ");
            push_decimal(&mut expected, self.cols);
            expected.append(" == ");
            push_decimal(&mut expected, other.rows);
            let mut found = String::new();
            push_decimal(&mut found, self.cols);
            found.append(" vs ");
            push_decimal(&mut found, other.rows);
            return Err(MathError::DimensionMismatch { expected, found });
        }
        let flipped = other.transpose();
        let ghost a = self@;
        let ghost b = other@;
        let mut data: Vec<T> = Vec::new();
        let mut row: usize = 0;
        while row < self.rows
            invariant
                a == self@,
                b == other@,
                a.well_formed(),
                b.well_formed(),
                a.cols == b.rows,
                a.rows * b.cols <= usize::MAX,
                flipped@.has_entries(b.cols, b.rows, |i: int, j: int| b.entry(j, i)),
                forall|i: int, j: int| 0 <= i < a.rows && 0 <= j < b.cols
                    ==> sums_fit::<T>(#[trigger] products(a.row(i), b.column(j))),
                row <= a.rows,
                data@.len() == row * b.cols,
                forall|i: int, j: int| 0 <= i < row && 0 <= j < b.cols
                    ==> (#[trigger] data@[i * b.cols + j]).value() == sum(products(a.row(i), b.column(j))),
            decreases a.rows - row,
        {
            let line = match self.row_slice(row) {
                Ok(s) => s,
                Err(_) => return Err(MathError::SingularMatrix),
            };
            let ghost base = data@.len();
            let mut col: usize = 0;
            while col < other.cols
                invariant
                    a == self@,
                    b == other@,
                    a.well_formed(),
                    b.well_formed(),
                    a.cols == b.rows,
                    flipped@.has_entries(b.cols, b.rows, |i: int, j: int| b.entry(j, i)),
                    forall|i: int, j: int| 0 <= i < a.rows && 0 <= j < b.cols
                        ==> sums_fit::<T>(#[trigger] products(a.row(i), b.column(j))),
                    row < a.rows,
                    line@ == a.row(row as int),
                    col <= b.cols,
                    base == row * b.cols,
                    data@.len() == base + col,
                    forall|i: int, j: int| 0 <= i < row && 0 <= j < b.cols
                        ==> (#[trigger] data@[i * b.cols + j]).value() == sum(products(a.row(i), b.column(j))),
                    forall|j: int| 0 <= j < col ==> (#[trigger] data@[base + j]).value() == sum(products(a.row(row as int), b.column(j))),
                decreases b.cols - col,
            {
                let across = match flipped.row_slice(col) {
                    Ok(s) => s,
                    Err(_) => return Err(MathError::SingularMatrix),
                };
                assert(across@ =~= b.column(col as int));
                let acc = sum_of_products(line, across);
                assert(acc.value() == sum(products(a.row(row as int), b.column(col as int))));
                data.push(acc);
                proof {
                    assert forall|i: int, j: int| 0 <= i < row && 0 <= j < b.cols
                        implies (#[trigger] data@[i * b.cols + j]).value() == sum(products(a.row(i), b.column(j))) by {
                        lemma_offset(row as int, b.cols as int, i, j);
                    }
                }
                col = col + 1;
            }
            proof {
                assert forall|i: int, j: int| 0 <= i < row + 1 && 0 <= j < b.cols
                    implies (#[trigger] data@[i * b.cols + j]).value() == sum(products(a.row(i), b.column(j))) by {
                    if i == row {
                        assert(data@[base + j].value() == sum(products(a.row(row as int), b.column(j))));
                    }
                }
                assert((row + 1) * b.cols == row * b.cols + b.cols) by (nonlinear_arith);
            }
            row = row + 1;
        }
        let m = Matrix { rows: self.rows, cols: other.cols, data };
        proof {
            assert forall|i: int, j: int| 0 <= i < a.rows && 0 <= j < b.cols
                implies (#[trigger] m@.entry(i, j)).value() == sum(products(a.row(i), b.column(j))) by {
                assert(data@[i * b.cols + j].value() == sum(products(a.row(i), b.column(j))));
            }
        }
        Ok(m)
    }
}

/// `p` lists each of `0..n` exactly once.
pub open spec fn is_permutation(p: Seq<usize>, n: nat) -> bool {
    &&& p.len() == n
    &&& forall|i: int| 0 <= i < p.len() ==> #[trigger] p[i] < n
    &&& forall|i: int, j: int| 0 <= i < j < p.len() ==> #[trigger] p[i] != #[trigger] p[j]
}

/// How many of the first `i` entries of `p` exceed `p[j]`.
pub open spec fn greater_before(p: Seq<usize>, j: int, i: int) -> nat
    decreases i,
{
    if i <= 0 {
        0
    } else {
        greater_before(p, j, i - 1) + if p[i - 1] > p[j] { 1nat } else { 0nat }
    }
}

/// How many pairs among the first `j` entries of `p` stand out of order.
pub open spec fn inversions(p: Seq<usize>, j: int) -> nat
    decreases j,
{
    if j <= 0 {
        0
    } else {
        inversions(p, j - 1) + greater_before(p, j - 1, j - 1)
    }
}

/// The sign of the row order `p`: `1` when an even number of its pairs stand
/// out of order, `-1` when an odd number do.
pub open spec fn parity_sign(p: Seq<usize>) -> int {
    if inversions(p, p.len() as int) % 2 == 0 { 1 } else { -1 }
}

/// The pairs of positions out of order among those with the later position
/// below `j`, and the pairs `(a, j)` with `a` below `i` out of order.
spec fn pairs_out_of_order_upto(p: Seq<usize>, j: int, i: int) -> Set<(int, int)> {
    Set::new(|pr: (int, int)|
        (0 <= pr.0 < pr.1 < j && p[pr.0] > p[pr.1]) || (pr.1 == j && 0 <= pr.0 < i && p[pr.0] > p[j]))
}

/// Counting the pairs out of order one by one gives `inversions`.
proof fn lemma_pairs_counted(p: Seq<usize>, j: int, i: int)
    requires
        0 <= i <= j <= p.len(),
        i == 0 || j < p.len(),
    ensures
        pairs_out_of_order_upto(p, j, i).finite(),
        pairs_out_of_order_upto(p, j, i).len() == inversions(p, j) + greater_before(p, j, i),
    decreases j, i,
{
    broadcast use vstd::set::group_set_axioms;
    let cur = pairs_out_of_order_upto(p, j, i);
    if i == 0 {
        if j == 0 {
            assert(cur =~= Set::<(int, int)>::empty());
        } else {
            lemma_pairs_counted(p, j - 1, j - 1);
            assert(cur =~= pairs_out_of_order_upto(p, j - 1, j - 1));
        }
    } else {
        lemma_pairs_counted(p, j, i - 1);
        let prev = pairs_out_of_order_upto(p, j, i - 1);
        assert(!prev.contains((i - 1, j)));
        if p[i - 1] > p[j] {
            assert(cur =~= prev.insert((i - 1, j)));
        } else {
            assert(cur =~= prev);
        }
    }
}

/// The sign of a row order is `-1` raised to the number of its pairs out of
/// order, counted over all pairs of positions `a < b` with `p[a] > p[b]`.
pub proof fn lemma_sign_counts_all_pairs(p: Seq<usize>)
    ensures
        Set::new(|pr: (int, int)| 0 <= pr.0 < pr.1 < p.len() && p[pr.0] > p[pr.1]).finite(),
        parity_sign(p) == if Set::new(|pr: (int, int)| 0 <= pr.0 < pr.1 < p.len() && p[pr.0] > p[pr.1]).len() % 2 == 0 {
            1int
        } else {
            -1int
        },
{
    lemma_pairs_counted(p, p.len() as int, 0);
    assert(pairs_out_of_order_upto(p, p.len() as int, 0)
        =~= Set::new(|pr: (int, int)| 0 <= pr.0 < pr.1 < p.len() && p[pr.0] > p[pr.1]));
}

/// Index `a` with positions `k` and `k + 1` exchanged.
spec fn swap_index(k: int, a: int) -> int {
    if a == k {
        k + 1
    } else if a == k + 1 {
        k
    } else {
        a
    }
}

/// The row order that keeps every row in place has sign 1.
pub proof fn lemma_identity_sign(n: usize)
    ensures
        parity_sign(Seq::new(n as nat, |i: int| i as usize)) == 1,
{
    broadcast use vstd::set::group_set_axioms;
    let p = Seq::new(n as nat, |i: int| i as usize);
    lemma_sign_counts_all_pairs(p);
    assert(Set::new(|pr: (int, int)| 0 <= pr.0 < pr.1 < p.len() && p[pr.0] > p[pr.1]) =~= Set::<(int, int)>::empty());
}

/// Exchanging two neighbouring rows of a row order, whose entries differ,
/// flips its sign.
pub proof fn lemma_adjacent_swap_flips_sign(p: Seq<usize>, k: int)
    requires
        0 <= k,
        k + 1 < p.len(),
        p[k] != p[k + 1],
    ensures
        parity_sign(p.update(k, p[k + 1]).update(k + 1, p[k])) == -parity_sign(p),
{
    broadcast use vstd::set::group_set_axioms;
    let q = p.update(k, p[k + 1]).update(k + 1, p[k]);
    lemma_sign_counts_all_pairs(p);
    lemma_sign_counts_all_pairs(q);
    let sp = Set::new(|pr: (int, int)| 0 <= pr.0 < pr.1 < p.len() && p[pr.0] > p[pr.1]);
    let sq = Set::new(|pr: (int, int)| 0 <= pr.0 < pr.1 < q.len() && q[pr.0] > q[pr.1]);
    let f = |pr: (int, int)| (swap_index(k, pr.0), swap_index(k, pr.1));
    let x = sp.remove((k, k + 1));
    let y = sq.remove((k, k + 1));
    assert forall|i: int| 0 <= i < p.len() implies #[trigger] q[swap_index(k, i)] == p[i] by {}
    assert(x.map(f) =~= y) by {
        assert forall|pr2: (int, int)| y.contains(pr2) implies x.map(f).contains(pr2) by {
            let pr = f(pr2);
            assert(q[swap_index(k, pr.0)] == p[pr.0]);
            assert(q[swap_index(k, pr.1)] == p[pr.1]);
            assert(f(pr) == pr2);
            assert(x.contains(pr));
        }
        assert forall|pr2: (int, int)| x.map(f).contains(pr2) implies y.contains(pr2) by {
            let pr = choose|pr: (int, int)| x.contains(pr) && f(pr) == pr2;
            assert(q[swap_index(k, pr.0)] == p[pr.0]);
            assert(q[swap_index(k, pr.1)] == p[pr.1]);
        }
    }
    assert(vstd::relations::injective_on(f, x)) by {
        assert forall|a: (int, int), b: (int, int)| x.contains(a) && x.contains(b) && #[trigger] f(a) == #[trigger] f(b)
            implies a == b by {
            assert(f(f(a)) == a);
            assert(f(f(b)) == b);
        }
    }
    vstd::set_lib::lemma_map_size(x, y, f);
    if p[k] > p[k + 1] {
        assert(sp.contains((k, k + 1)));
        assert(!sq.contains((k, k + 1)));
    } else {
        assert(!sp.contains((k, k + 1)));
        assert(sq.contains((k, k + 1)));
    }
}

/// Whether `p` lists each of `0..n` exactly once.
fn check_permutation(p: &Vec<usize>, n: usize) -> (r: bool)
    ensures
        r == is_permutation(p@, n as nat),
{
    if p.len() != n {
        return false;
    }
    let mut seen: Vec<bool> = vec![false; n];
    let mut i: usize = 0;
    while i < n
        invariant
            p@.len() == n,
            seen@.len() == n,
            i <= n,
            forall|k: int| 0 <= k < i ==> #[trigger] p@[k] < n,
            forall|a: int, b: int| 0 <= a < b < i ==> #[trigger] p@[a] != #[trigger] p@[b],
            forall|v: int| 0 <= v < n ==> (seen@[v] <==> exists|k: int| 0 <= k < i && p@[k] == v),
        decreases n - i,
    {
        let v = p[i];
        if v >= n {
            return false;
        }
        if seen[v] {
            proof {
                let k = choose|k: int| 0 <= k < i && p@[k] == v;
                assert(p@[k] == p@[i as int]);
            }
            return false;
        }
        let ghost seen0 = seen@;
        seen.set(v, true);
        proof {
            assert forall|w: int| 0 <= w < n implies (seen@[w] <==> exists|k: int| 0 <= k < i + 1 && p@[k] == w) by {
                if w == v {
                    assert(p@[i as int] == w);
                } else if seen0[w] {
                    let k = choose|k: int| 0 <= k < i && p@[k] == w;
                    assert(0 <= k < i + 1 && p@[k] == w);
                }
            }
            assert forall|a: int, b: int| 0 <= a < b < i + 1 implies #[trigger] p@[a] != #[trigger] p@[b] by {
                if b == i {
                    if p@[a] == v {
                        assert(seen0[v as int]);
                    }
                }
            }
        }
        i = i + 1;
    }
    true
}

/// The sign of the row order `p`, from its pairs out of order.
fn sign_of(p: &Vec<usize>) -> (r: i32)
    ensures
        r == parity_sign(p@),
{
    let mut odd = false;
    let mut j: usize = 0;
    while j < p.len()
        invariant
            j <= p@.len(),
            odd == (inversions(p@, j as int) % 2 == 1),
        decreases p@.len() - j,
    {
        let mut i: usize = 0;
        while i < j
            invariant
                i <= j < p@.len(),
                odd == ((inversions(p@, j as int) + greater_before(p@, j as int, i as int)) % 2 == 1),
            decreases j - i,
        {
            if p[i] > p[j] {
                odd = !odd;
            }
            i = i + 1;
        }
        j = j + 1;
    }
    if odd {
        -1
    } else {
        1
    }
}

impl<T: Clone> Clone for LUDecomposition<T> {
    fn clone(&self) -> (r: Self)
        ensures
            r.factors_view().rows == self.factors_view().rows,
            r.factors_view().cols == self.factors_view().cols,
            r.pivots_view() == self.pivots_view(),
            r.sign_view() == self.sign_view(),
    {
        proof {
            use_type_invariant(self);
        }
        let lu = Matrix { rows: self.lu.rows, cols: self.lu.cols, data: self.lu.data.clone() };
        let pivots = self.pivots.clone();
        proof {
            assert(pivots@ =~= self.pivots@);
        }
        LUDecomposition { lu, pivots, permutation_sign: self.permutation_sign }
    }
}

impl<T> LUDecomposition<T> {
    /// The row order lists each row once, and the sign is its parity.
    #[verifier::type_invariant]
    spec fn parts_agree(self) -> bool {
        &&& is_permutation(self.pivots@, self.lu@.rows)
        &&& self.permutation_sign == parity_sign(self.pivots@)
    }

    /// The combined factors.
    pub closed spec fn factors_view(&self) -> MatrixView<T> {
        self.lu@
    }

    /// The row order.
    pub closed spec fn pivots_view(&self) -> Seq<usize> {
        self.pivots@
    }

    /// The parity of the row order, `1` or `-1`.
    pub closed spec fn sign_view(&self) -> i32 {
        self.permutation_sign
    }

    /// Assembles a factorisation from its combined factors and its row order,
    /// taking the sign from the parity of that order. `None` unless the row
    /// order lists each row of `lu` exactly once.
    pub fn from_parts(lu: Matrix<T>, pivots: Vec<usize>) -> (r: Option<Self>)
        ensures
            r is Some <==> is_permutation(pivots@, lu@.rows),
            r matches Some(d) ==> {
                &&& d.factors_view() == lu@
                &&& d.pivots_view() == pivots@
                &&& d.sign_view() == parity_sign(pivots@)
                &&& d.sign_view() == if Set::new(|pr: (int, int)| 0 <= pr.0 < pr.1 < pivots@.len()
                    && pivots@[pr.0] > pivots@[pr.1]).len() % 2 == 0 { 1int } else { -1int }
            },
    {
        if !check_permutation(&pivots, lu.rows) {
            return None;
        }
        let permutation_sign = sign_of(&pivots);
        proof {
            lemma_sign_counts_all_pairs(pivots@);
        }
        Some(LUDecomposition { lu, pivots, permutation_sign })
    }

    /// The combined factors.
    pub fn factors(&self) -> (r: &Matrix<T>)
        ensures
            r@ == self.factors_view(),
    {
        &self.lu
    }

    /// The row order: entry `i` is the index, before pivoting, of row `i`;
    /// it lists each row once.
    pub fn pivots(&self) -> (r: &[usize])
        ensures
            r@ == self.pivots_view(),
            is_permutation(r@, self.factors_view().rows),
    {
        proof {
            use_type_invariant(self);
        }
        self.pivots.as_slice()
    }

    /// The parity of the row order: `1` or `-1`.
    pub fn permutation_sign(&self) -> (r: i32)
        ensures
            r == self.sign_view(),
            r == parity_sign(self.pivots_view()),
            r == if Set::new(|pr: (int, int)| 0 <= pr.0 < pr.1 < self.pivots_view().len()
                && self.pivots_view()[pr.0] > self.pivots_view()[pr.1]).len() % 2 == 0 { 1int } else { -1int },
    {
        proof {
            use_type_invariant(self);
            lemma_sign_counts_all_pairs(self.pivots_view());
        }
        self.permutation_sign
    }
}

impl<T: Scalar> LUDecomposition<T> {
    /// The unit lower triangular factor: ones on the diagonal, the stored
    /// multipliers below it and zeros above.
    pub fn lower(&self) -> (r: Matrix<T>)
        requires
            self.factors_view().well_formed(),
            self.factors_view().rows == self.factors_view().cols,
        ensures
            has_values(
                r@,
                self.factors_view().rows,
                self.factors_view().rows,
                |i: int, j: int| if i == j {
                    1int
                } else if j < i {
                    self.factors_view().entry(i, j).value()
                } else {
                    0int
                },
            ),
    {
        let ghost lu = self.lu@;
        let n = self.lu.rows;
        assert(self.lu.data.len() == n * n);
        let mut m: Matrix<T> = Matrix::identity(n);
        let mut row: usize = 1;
        while row < n
            invariant
                lu == self.lu@,
                lu.well_formed(),
                lu.rows == n,
                lu.cols == n,
                1 <= row <= n || n == 0,
                m@.well_formed(),
                m@.rows == n,
                m@.cols == n,
                forall|i: int, j: int| 0 <= i < n && 0 <= j < n ==> (#[trigger] m@.entry(i, j)).value() == if i == j {
                    1int
                } else if j < i && i < row {
                    lu.entry(i, j).value()
                } else {
                    0int
                },
            decreases n - row,
        {
            let mut col: usize = 0;
            while col < row
                invariant
                    lu == self.lu@,
                    lu.well_formed(),
                    lu.rows == n,
                    lu.cols == n,
                    1 <= row < n,
                    col <= row,
                    m@.well_formed(),
                    m@.rows == n,
                    m@.cols == n,
                    forall|i: int, j: int| 0 <= i < n && 0 <= j < n ==> (#[trigger] m@.entry(i, j)).value() == if i == j {
                        1int
                    } else if j < i && (i < row || (i == row && j < col)) {
                        lu.entry(i, j).value()
                    } else {
                        0int
                    },
                decreases row - col,
            {
                let ghost before = m@;
                let x = *self.lu.get(row, col);
                m.set(row, col, x);
                proof {
                    lemma_offset(n as int, n as int, row as int, col as int);
                    assert forall|i: int, j: int| 0 <= i < n && 0 <= j < n implies (#[trigger] m@.entry(i, j)).value() == if i == j {
                        1int
                    } else if j < i && (i < row || (i == row && j < col + 1)) {
                        lu.entry(i, j).value()
                    } else {
                        0int
                    } by {
                        lemma_offset(n as int, n as int, i, j);
                        if i * n + j == row * n + col {
                            lemma_offset_distinct(n as int, i, j, row as int, col as int);
                        } else {
                            assert(m@.entry(i, j) == before.entry(i, j));
                        }
                    }
                }
                col = col + 1;
            }
            row = row + 1;
        }
        m
    }

    /// The upper triangular factor: the stored entries on and above the
    /// diagonal and zeros below.
    pub fn upper(&self) -> (r: Matrix<T>)
        requires
            self.factors_view().well_formed(),
        ensures
            has_values(
                r@,
                self.factors_view().rows,
                self.factors_view().cols,
                |i: int, j: int| if j >= i { self.factors_view().entry(i, j).value() } else { 0int },
            ),
    {
        let ghost lu = self.lu@;
        let rows = self.lu.rows;
        let cols = self.lu.cols;
        assert(self.lu.data.len() == rows * cols);
        let mut m: Matrix<T> = Matrix::zeros(rows, cols);
        let mut row: usize = 0;
        while row < rows
            invariant
                lu == self.lu@,
                lu.well_formed(),
                lu.rows == rows,
                lu.cols == cols,
                row <= rows,
                m@.well_formed(),
                m@.rows == rows,
                m@.cols == cols,
                forall|i: int, j: int| 0 <= i < rows && 0 <= j < cols ==> (#[trigger] m@.entry(i, j)).value() == if j >= i && i < row {
                    lu.entry(i, j).value()
                } else {
                    0int
                },
            decreases rows - row,
        {
            let mut col: usize = row;
            while col < cols
                invariant
                    lu == self.lu@,
                    lu.well_formed(),
                    lu.rows == rows,
                    lu.cols == cols,
                    row < rows,
                    row <= col,
                    m@.well_formed(),
                    m@.rows == rows,
                    m@.cols == cols,
                    forall|i: int, j: int| 0 <= i < rows && 0 <= j < cols ==> (#[trigger] m@.entry(i, j)).value() == if j >= i && (i < row || (i == row && j < col)) {
                        lu.entry(i, j).value()
                    } else {
                        0int
                    },
                decreases cols - col,
            {
                let ghost before = m@;
                let x = *self.lu.get(row, col);
                m.set(row, col, x);
                proof {
                    lemma_offset(rows as int, cols as int, row as int, col as int);
                    assert forall|i: int, j: int| 0 <= i < rows && 0 <= j < cols implies (#[trigger] m@.entry(i, j)).value() == if j >= i && (i < row || (i == row && j < col + 1)) {
                        lu.entry(i, j).value()
                    } else {
                        0int
                    } by {
                        lemma_offset(rows as int, cols as int, i, j);
                        if i * cols + j == row * cols + col {
                            lemma_offset_distinct(cols as int, i, j, row as int, col as int);
                        } else {
                            assert(m@.entry(i, j) == before.entry(i, j));
                        }
                    }
                }
                col = col + 1;
            }
            row = row + 1;
        }
        m
    }
}

/// Two well-formed matrices of the same shape with the same entries are equal.
pub proof fn lemma_same_entries<T>(a: MatrixView<T>, b: MatrixView<T>)
    requires
        a.well_formed(),
        b.well_formed(),
        a.rows == b.rows,
        a.cols == b.cols,
        forall|r: int, c: int| 0 <= r < a.rows && 0 <= c < a.cols ==> #[trigger] a.entry(r, c) == b.entry(r, c),
    ensures
        a == b,
{
    assert forall|k: int| 0 <= k < a.data.len() implies a.data[k] == b.data[k] by {
        let cols = a.cols as int;
        if cols > 0 {
            let r = k / cols;
            let c = k % cols;
            vstd::arithmetic::div_mod::lemma_fundamental_div_mod(k, cols);
            assert(0 <= c < cols);
            assert(0 <= r) by (nonlinear_arith)
                requires
                    0 <= k,
                    cols > 0,
                    r == k / cols,
            ;
            assert(r < a.rows) by (nonlinear_arith)
                requires
                    k < a.rows * cols,
                    k == cols * r + c,
                    0 <= c < cols,
            ;
            assert(a.entry(r, c) == b.entry(r, c));
            assert(k == r * cols + c) by (nonlinear_arith)
                requires
                    k == cols * r + c,
            ;
        } else {
            assert(a.data.len() == a.rows * 0);
        }
    }
    assert(a.data =~= b.data);
}

/// Transposing twice gives back the matrix.
pub proof fn lemma_transpose_twice<T>(m: MatrixView<T>, t: MatrixView<T>, tt: MatrixView<T>)
    requires
        m.well_formed(),
        t.has_entries(m.cols, m.rows, |i: int, j: int| m.entry(j, i)),
        tt.has_entries(t.cols, t.rows, |i: int, j: int| t.entry(j, i)),
    ensures
        tt == m,
{
    assert forall|r: int, c: int| 0 <= r < tt.rows && 0 <= c < tt.cols implies #[trigger] tt.entry(r, c) == m.entry(r, c) by {
        assert(tt.entry(r, c) == t.entry(c, r));
    }
    lemma_same_entries(tt, m);
}

/// Summing the products with a unit sequence picks out one term.
proof fn lemma_sum_unit(x: Seq<int>, u: Seq<int>, c: int)
    requires
        x.len() == u.len(),
        0 <= c < x.len(),
        forall|k: int| 0 <= k < u.len() ==> #[trigger] u[k] == if k == c { 1int } else { 0int },
    ensures
        sum(Seq::new(x.len(), |k: int| x[k] * u[k])) == x[c],
    decreases x.len(),
{
    let terms = Seq::new(x.len(), |k: int| x[k] * u[k]);
    let n = x.len() as int;
    if n - 1 == c {
        assert forall|k: int| 0 <= k < n - 1 implies #[trigger] terms.drop_last()[k] == 0 by {
            assert(u[k] == 0);
        }
        lemma_sum_zero(terms.drop_last());
        assert(terms.last() == x[c] * 1);
    } else {
        let x1 = x.drop_last();
        let u1 = u.drop_last();
        assert forall|k: int| 0 <= k < u1.len() implies #[trigger] u1[k] == if k == c { 1int } else { 0int } by {
            assert(u1[k] == u[k]);
        }
        lemma_sum_unit(x1, u1, c);
        assert(terms.drop_last() =~= Seq::new(x1.len(), |k: int| x1[k] * u1[k]));
        assert(u[n - 1] == 0);
        assert(terms.last() == x[n - 1] * 0);
    }
}

/// A sum of zeros is zero.
proof fn lemma_sum_zero(s: Seq<int>)
    requires
        forall|k: int| 0 <= k < s.len() ==> #[trigger] s[k] == 0,
    ensures
        sum(s) == 0,
    decreases s.len(),
{
    if s.len() > 0 {
        lemma_sum_zero(s.drop_last());
    }
}

/// Multiplying by the identity, on either side, gives back the matrix.
pub proof fn lemma_identity_product<T: Scalar>(a: MatrixView<T>, left: MatrixView<T>, right: MatrixView<T>)
    requires
        a.well_formed(),
        has_values(left, a.rows, a.rows, |i: int, j: int| if i == j { 1int } else { 0int }),
        has_values(right, a.cols, a.cols, |i: int, j: int| if i == j { 1int } else { 0int }),
    ensures
        forall|i: int, j: int| 0 <= i < a.rows && 0 <= j < a.cols
            ==> #[trigger] sum(products(left.row(i), a.column(j))) == a.entry(i, j).value(),
        forall|i: int, j: int| 0 <= i < a.rows && 0 <= j < a.cols
            ==> #[trigger] sum(products(a.row(i), right.column(j))) == a.entry(i, j).value(),
{
    assert forall|i: int, j: int| 0 <= i < a.rows && 0 <= j < a.cols
        implies #[trigger] sum(products(left.row(i), a.column(j))) == a.entry(i, j).value() by {
        let x = Seq::new(a.rows, |k: int| a.entry(k, j).value());
        let u = Seq::new(a.rows, |k: int| left.entry(i, k).value());
        lemma_sum_unit(x, u, i);
        assert(products(left.row(i), a.column(j)) =~= Seq::new(x.len(), |k: int| x[k] * u[k])) by {
            assert forall|k: int| 0 <= k < x.len() implies products(left.row(i), a.column(j))[k] == x[k] * u[k] by {
                assert(x[k] * u[k] == u[k] * x[k]) by (nonlinear_arith);
            }
        }
    }
    assert forall|i: int, j: int| 0 <= i < a.rows && 0 <= j < a.cols
        implies #[trigger] sum(products(a.row(i), right.column(j))) == a.entry(i, j).value() by {
        let x = Seq::new(a.cols, |k: int| a.entry(i, k).value());
        let u = Seq::new(a.cols, |k: int| right.entry(k, j).value());
        lemma_sum_unit(x, u, j);
        assert(products(a.row(i), right.column(j)) =~= Seq::new(x.len(), |k: int| x[k] * u[k]));
    }
}

} // verus!
