//! Matrices of integers with a sum, a difference and a product.

use std::ops::{Add, Mul, Sub};
use vstd::prelude::*;
use vstd::std_specs::ops::{AddSpecImpl, MulSpecImpl, SubSpecImpl};

verus! {

/// A matrix with at least one row and one column.
#[derive(Debug, PartialEq, Eq)]
pub struct Matrix {
    rows: usize,
    cols: usize,
    matrix: Vec<Vec<isize>>,
}

/// The rows of a vector of vectors, as sequences.
pub open spec fn rows_of(m: Seq<Vec<isize>>) -> Seq<Seq<isize>> {
    Seq::new(m.len(), |r: int| m[r]@)
}

/// Whether `m` has a row, and all its rows have one and the same length that
/// is not zero.
pub open spec fn rectangular(m: Seq<Seq<isize>>) -> bool {
    &&& m.len() > 0
    &&& m[0].len() > 0
    &&& forall|r: int| 0 <= r < m.len() ==> (#[trigger] m[r]).len() == m[0].len()
}

/// Whether `a` and `b` have the same numbers of rows and of columns.
pub open spec fn same_shape(a: Seq<Seq<isize>>, b: Seq<Seq<isize>>) -> bool {
    a.len() == b.len() && a[0].len() == b[0].len()
}

/// The sum of the elements of `a` and `b` in row `r` and column `c`, or their
/// difference where `minus` is true.
pub open spec fn cell(a: Seq<Seq<isize>>, b: Seq<Seq<isize>>, r: int, c: int, minus: bool) -> int {
    if minus {
        a[r][c] - b[r][c]
    } else {
        a[r][c] + b[r][c]
    }
}

/// The sum of the products of the first `k` elements of row `r` of `a` with
/// those of column `c` of `b`.
pub open spec fn dot(a: Seq<Seq<isize>>, b: Seq<Seq<isize>>, r: int, c: int, k: nat) -> int
    decreases k,
{
    if k == 0 {
        0
    } else {
        dot(a, b, r, c, (k - 1) as nat) + a[r][k - 1] * b[k - 1][c]
    }
}

/// Whether the product of `a` and `b` can be computed in `isize`: whether
/// every product of two elements that meet, and every sum on the way from the
/// first of them to the last, is in range.
pub open spec fn product_fits(a: Seq<Seq<isize>>, b: Seq<Seq<isize>>) -> bool {
    forall|r: int, c: int, k: int|
        0 <= r < a.len() && 0 <= c < b[0].len() && 0 <= k < b.len() ==> {
            &&& isize::MIN <= a[r][k] * b[k][c] <= isize::MAX
            &&& isize::MIN <= #[trigger] dot(a, b, r, c, (k + 1) as nat) <= isize::MAX
        }
}

impl View for Matrix {
    type V = Seq<Seq<isize>>;

    closed spec fn view(&self) -> Seq<Seq<isize>> {
        rows_of(self.matrix@)
    }
}

/// A row of `cols` zeros.
fn zero_row(cols: usize) -> (row: Vec<isize>)
    ensures
        row@.len() == cols,
        forall|c: int| 0 <= c < cols ==> row@[c] == 0,
{
    let mut row: Vec<isize> = Vec::new();
    let mut c: usize = 0;
    while c < cols
        invariant
            c <= cols,
            row@.len() == c,
            forall|j: int| 0 <= j < c ==> row@[j] == 0,
        decreases cols - c,
    {
        row.push(0);
        c += 1;
    }
    row
}

impl Matrix {
    #[verifier::type_invariant]
    spec fn well_formed(self) -> bool {
        &&& self.rows == self.matrix@.len()
        &&& self.rows > 0
        &&& self.cols > 0
        &&& forall|r: int| 0 <= r < self.matrix@.len() ==> (#[trigger] self.matrix@[r])@.len()
            == self.cols
    }

    /// Creates a matrix of zeros, or nothing where it would have no row or no
    /// column.
    pub fn new_default(rows: usize, cols: usize) -> (m: Option<Self>)
        ensures
            m is None <==> rows == 0 || cols == 0,
            m matches Some(m) ==> {
                &&& rectangular(m@)
                &&& m@.len() == rows
                &&& m@[0].len() == cols
                &&& forall|r: int, c: int| 0 <= r < rows && 0 <= c < cols ==> m@[r][c] == 0
            },
    {
        if rows == 0 || cols == 0 {
            return None;
        }
        let mut matrix: Vec<Vec<isize>> = Vec::new();
        let mut r: usize = 0;
        while r < rows
            invariant
                r <= rows,
                matrix@.len() == r,
                forall|i: int| 0 <= i < r ==> (#[trigger] matrix@[i])@.len() == cols,
                forall|i: int, c: int| 0 <= i < r && 0 <= c < cols ==> matrix@[i]@[c] == 0,
            decreases rows - r,
        {
            matrix.push(zero_row(cols));
            r += 1;
        }
        Some(Matrix { rows, cols, matrix })
    }

    /// Creates a matrix from its rows, or nothing where there is no row, the
    /// rows are empty, or they differ in length.
    pub fn new_with_vector(m: Vec<Vec<isize>>) -> (made: Option<Self>)
        ensures
            made is Some <==> rectangular(rows_of(m@)),
            made matches Some(made) ==> made@ == rows_of(m@),
    {
        if m.len() == 0 {
            return None;
        }
        let length = m[0].len();
        let mut r: usize = 0;
        while r < m.len()
            invariant
                r <= m.len(),
                m@.len() > 0,
                length == m@[0]@.len(),
                forall|i: int| 0 <= i < r ==> (#[trigger] m@[i])@.len() == length,
            decreases m.len() - r,
        {
            if m[r].len() != length {
                assert(rows_of(m@)[r as int].len() != rows_of(m@)[0].len());
                return None;
            }
            r += 1;
        }
        if length == 0 {
            return None;
        }
        assert(rectangular(rows_of(m@))) by {
            assert forall|i: int| 0 <= i < rows_of(m@).len() implies (#[trigger] rows_of(
                m@,
            )[i]).len() == rows_of(m@)[0].len() by {
                assert(m@[i]@.len() == length);
            }
        }
        Some(Matrix { rows: m.len(), cols: length, matrix: m })
    }

    /// The number of rows.
    pub fn rows(&self) -> (n: usize)
        ensures
            n == self@.len(),
            n > 0,
    {
        proof {
            use_type_invariant(self);
        }
        self.rows
    }

    /// The number of columns.
    pub fn cols(&self) -> (n: usize)
        ensures
            n == self@[0].len(),
            n > 0,
            rectangular(self@),
    {
        proof {
            use_type_invariant(self);
            assert(self.matrix@[0]@.len() == self.cols);
            assert forall|r: int| 0 <= r < self@.len() implies (#[trigger] self@[r]).len()
                == self@[0].len() by {
                assert(self.matrix@[r]@.len() == self.cols);
            }
        }
        self.cols
    }

    /// The element in row `r` and column `c`, both counted from 0.
    pub fn get(&self, r: usize, c: usize) -> (x: isize)
        requires
            r < self@.len(),
            c < self@[0].len(),
        ensures
            x == self@[r as int][c as int],
    {
        proof {
            use_type_invariant(self);
            assert(self.matrix@[0]@.len() == self.cols);
            assert(self.matrix@[r as int]@.len() == self.cols);
        }
        self.matrix[r][c]
    }

    /// The sum of two matrices where `minus` is false, their difference where
    /// it is true.
    fn combine(&self, other: &Self, minus: bool) -> (out: Self)
        requires
            same_shape(self@, other@),
            cells_fit(self@, other@, minus),
        ensures
            rectangular(out@),
            same_shape(out@, self@),
            forall|r: int, c: int|
                0 <= r < self@.len() && 0 <= c < self@[0].len() ==> out@[r][c] == #[trigger] cell(
                    self@,
                    other@,
                    r,
                    c,
                    minus,
                ),
    {
        let rows = self.rows();
        let cols = self.cols();
        let other_rows = other.rows();
        let other_cols = other.cols();
        let mut matrix: Vec<Vec<isize>> = Vec::new();
        let mut r: usize = 0;
        while r < rows
            invariant
                r <= rows,
                rows == self@.len(),
                cols == self@[0].len(),
                rows > 0,
                cols > 0,
                rectangular(self@),
                rectangular(other@),
                same_shape(self@, other@),
                cells_fit(self@, other@, minus),
                matrix@.len() == r,
                forall|i: int| 0 <= i < r ==> (#[trigger] matrix@[i])@.len() == cols,
                forall|i: int, c: int|
                    0 <= i < r && 0 <= c < cols ==> matrix@[i]@[c] == #[trigger] cell(
                        self@,
                        other@,
                        i,
                        c,
                        minus,
                    ),
            decreases rows - r,
        {
            let mut row: Vec<isize> = Vec::new();
            let mut c: usize = 0;
            while c < cols
                invariant
                    c <= cols,
                    r < rows,
                    rows == self@.len(),
                    cols == self@[0].len(),
                    rectangular(self@),
                    rectangular(other@),
                    same_shape(self@, other@),
                    cells_fit(self@, other@, minus),
                    row@.len() == c,
                    forall|j: int|
                        0 <= j < c ==> row@[j] == #[trigger] cell(
                            self@,
                            other@,
                            r as int,
                            j,
                            minus,
                        ),
                decreases cols - c,
            {
                let a = self.get(r, c);
                let b = other.get(r, c);
                assert(isize::MIN <= cell(self@, other@, r as int, c as int, minus) <= isize::MAX);
                let x = if minus {
                    a - b
                } else {
                    a + b
                };
                row.push(x);
                c += 1;
            }
            matrix.push(row);
            r += 1;
        }
        let out = Matrix { rows, cols, matrix };
        proof {
            assert(out@[0] == out.matrix@[0]@);
            assert forall|i: int| 0 <= i < out@.len() implies (#[trigger] out@[i]).len()
                == out@[0].len() by {
                assert(out.matrix@[i]@.len() == cols);
            }
        }
        out
    }

    /// The element of the product in row `r` and column `c`.
    fn product_at(&self, other: &Self, r: usize, c: usize) -> (total: isize)
        requires
            rectangular(self@),
            rectangular(other@),
            self@[0].len() == other@.len(),
            product_fits(self@, other@),
            r < self@.len(),
            c < other@[0].len(),
        ensures
            total == dot(self@, other@, r as int, c as int, other@.len()),
    {
        let inner = other.rows();
        let mut total: isize = 0;
        let mut k: usize = 0;
        while k < inner
            invariant
                k <= inner,
                inner == other@.len(),
                rectangular(self@),
                rectangular(other@),
                self@[0].len() == other@.len(),
                product_fits(self@, other@),
                r < self@.len(),
                c < other@[0].len(),
                total == dot(self@, other@, r as int, c as int, k as nat),
            decreases inner - k,
        {
            proof {
                assert(self@[r as int].len() == self@[0].len());
                assert(other@[k as int].len() == other@[0].len());
                assert(isize::MIN <= dot(self@, other@, r as int, c as int, (k + 1) as nat)
                    <= isize::MAX);
            }
            let a = self.get(r, k);
            let b = other.get(k, c);
            total = total + a * b;
            k += 1;
        }
        total
    }

    /// The product of two matrices.
    fn times(&self, other: &Self) -> (out: Self)
        requires
            self@[0].len() == other@.len(),
            product_fits(self@, other@),
        ensures
            rectangular(out@),
            out@.len() == self@.len(),
            out@[0].len() == other@[0].len(),
            forall|r: int, c: int|
                0 <= r < self@.len() && 0 <= c < other@[0].len() ==> out@[r][c] == dot(
                    self@,
                    other@,
                    r,
                    c,
                    other@.len(),
                ),
    {
        let rows = self.rows();
        let _ = self.cols();
        let _ = other.rows();
        let cols = other.cols();
        let mut matrix: Vec<Vec<isize>> = Vec::new();
        let mut r: usize = 0;
        while r < rows
            invariant
                r <= rows,
                rows == self@.len(),
                cols == other@[0].len(),
                rows > 0,
                cols > 0,
                rectangular(self@),
                rectangular(other@),
                self@[0].len() == other@.len(),
                product_fits(self@, other@),
                matrix@.len() == r,
                forall|i: int| 0 <= i < r ==> (#[trigger] matrix@[i])@.len() == cols,
                forall|i: int, c: int|
                    0 <= i < r && 0 <= c < cols ==> matrix@[i]@[c] == dot(
                        self@,
                        other@,
                        i,
                        c,
                        other@.len(),
                    ),
            decreases rows - r,
        {
            let mut row: Vec<isize> = Vec::new();
            let mut c: usize = 0;
            while c < cols
                invariant
                    c <= cols,
                    r < rows,
                    rows == self@.len(),
                    cols == other@[0].len(),
                    rectangular(self@),
                    rectangular(other@),
                    self@[0].len() == other@.len(),
                    product_fits(self@, other@),
                    row@.len() == c,
                    forall|j: int|
                        0 <= j < c ==> row@[j] == dot(self@, other@, r as int, j, other@.len()),
                decreases cols - c,
            {
                row.push(self.product_at(other, r, c));
                c += 1;
            }
            matrix.push(row);
            r += 1;
        }
        let out = Matrix { rows, cols, matrix };
        proof {
            assert(out@[0] == out.matrix@[0]@);
            assert forall|i: int| 0 <= i < out@.len() implies (#[trigger] out@[i]).len()
                == out@[0].len() by {
                assert(out.matrix@[i]@.len() == cols);
            }
        }
        out
    }
}

/// Whether every element of the sum of `a` and `b`, or of their difference
/// where `minus` is true, is in range.
pub open spec fn cells_fit(a: Seq<Seq<isize>>, b: Seq<Seq<isize>>, minus: bool) -> bool {
    forall|r: int, c: int|
        0 <= r < a.len() && 0 <= c < a[0].len() ==> isize::MIN <= #[trigger] cell(a, b, r, c, minus)
            <= isize::MAX
}

impl AddSpecImpl for Matrix {
    open spec fn obeys_add_spec() -> bool {
        false
    }

    open spec fn add_req(self, rhs: Matrix) -> bool {
        same_shape(self@, rhs@) && cells_fit(self@, rhs@, false)
    }

    open spec fn add_spec(self, rhs: Matrix) -> Matrix {
        self
    }
}

impl Add for Matrix {
    type Output = Self;

    /// The sum of two matrices of the same shape, element by element.
    fn add(self, other: Self) -> (out: Self)
        ensures
            rectangular(out@),
            same_shape(out@, self@),
            forall|r: int, c: int|
                0 <= r < self@.len() && 0 <= c < self@[0].len() ==> out@[r][c] == self@[r][c]
                    + other@[r][c],
    {
        let out = self.combine(&other, false);
        proof {
            assert forall|r: int, c: int|
                0 <= r < self@.len() && 0 <= c < self@[0].len() implies out@[r][c] == self@[r][c]
                + other@[r][c] by {
                assert(out@[r][c] == cell(self@, other@, r, c, false));
            }
        }
        out
    }
}

impl SubSpecImpl for Matrix {
    open spec fn obeys_sub_spec() -> bool {
        false
    }

    open spec fn sub_req(self, rhs: Matrix) -> bool {
        same_shape(self@, rhs@) && cells_fit(self@, rhs@, true)
    }

    open spec fn sub_spec(self, rhs: Matrix) -> Matrix {
        self
    }
}

impl Sub for Matrix {
    type Output = Self;

    /// The difference of two matrices of the same shape, element by element.
    fn sub(self, other: Self) -> (out: Self)
        ensures
            rectangular(out@),
            same_shape(out@, self@),
            forall|r: int, c: int|
                0 <= r < self@.len() && 0 <= c < self@[0].len() ==> out@[r][c] == self@[r][c]
                    - other@[r][c],
    {
        let out = self.combine(&other, true);
        proof {
            assert forall|r: int, c: int|
                0 <= r < self@.len() && 0 <= c < self@[0].len() implies out@[r][c] == self@[r][c]
                - other@[r][c] by {
                assert(out@[r][c] == cell(self@, other@, r, c, true));
            }
        }
        out
    }
}

impl MulSpecImpl for Matrix {
    open spec fn obeys_mul_spec() -> bool {
        false
    }

    open spec fn mul_req(self, rhs: Matrix) -> bool {
        self@[0].len() == rhs@.len() && product_fits(self@, rhs@)
    }

    open spec fn mul_spec(self, rhs: Matrix) -> Matrix {
        self
    }
}

impl Mul for Matrix {
    type Output = Self;

    /// The product of a matrix with one that has as many rows as the first
    /// has columns.
    fn mul(self, other: Self) -> (out: Self)
        ensures
            rectangular(out@),
            out@.len() == self@.len(),
            out@[0].len() == other@[0].len(),
            forall|r: int, c: int|
                0 <= r < self@.len() && 0 <= c < other@[0].len() ==> out@[r][c] == dot(
                    self@,
                    other@,
                    r,
                    c,
                    other@.len(),
                ),
    {
        self.times(&other)
    }
}

} // verus!
