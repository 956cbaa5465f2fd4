use crate::linalg::{identity, Mat};
use vstd::prelude::*;

verus! {

/// A dense matrix of `i128` entries, stored in an `ndarray::Array2`.
#[verifier::external_body]
pub struct Matrix {
    inner: ndarray::Array2<i128>,
}

/// The entries of the array, by `(row, column)`.
pub uninterp spec fn cells(m: Matrix) -> Map<(int, int), i128>;

/// The array's `(rows, columns)`.
pub uninterp spec fn shape(m: Matrix) -> (nat, nat);

impl View for Matrix {
    type V = Mat;

    open spec fn view(&self) -> Mat {
        Mat::build(shape(*self).0, shape(*self).1, |i: int, j: int| cells(*self)[(i, j)] as int)
    }
}

/// Whether an array of this shape, of 16-byte entries, can be allocated:
/// the byte size of its buffer, with empty axes counted as one, is at most
/// `isize::MAX`.
pub open spec fn allocatable(rows: nat, cols: nat) -> bool {
    (if rows == 0 { 1 } else { rows }) * (if cols == 0 { 1 } else { cols }) * 16 <= isize::MAX
}

/// `ndarray::Array2::zeros`: an array of the given shape with every entry
/// zero. It panics when the shape is too large to allocate, which the
/// precondition excludes.
#[verifier::external_body]
fn array_zeros(rows: usize, cols: usize) -> (m: Matrix)
    requires
        allocatable(rows as nat, cols as nat),
    ensures
        shape(m) == (rows as nat, cols as nat),
        forall|i: int, j: int| 0 <= i < rows && 0 <= j < cols ==> #[trigger] cells(m)[(i, j)] == 0,
{
    Matrix { inner: ndarray::Array2::zeros((rows, cols)) }
}

/// `ndarray::Array2::eye`: the square array of size `n` with ones on the
/// diagonal and zeros elsewhere.
#[verifier::external_body]
fn array_eye(n: usize) -> (m: Matrix)
    requires
        allocatable(n as nat, n as nat),
    ensures
        shape(m) == (n as nat, n as nat),
        forall|i: int, j: int|
            0 <= i < n && 0 <= j < n ==> #[trigger] cells(m)[(i, j)] == (if i == j {
                1i128
            } else {
                0i128
            }),
{
    Matrix { inner: ndarray::Array2::eye(n) }
}

/// `ndarray::ArrayBase::nrows`: the length of the first axis.
#[verifier::external_body]
fn array_nrows(m: &Matrix) -> (n: usize)
    ensures
        n == shape(*m).0,
{
    m.inner.nrows()
}

/// `ndarray::ArrayBase::ncols`: the length of the second axis.
#[verifier::external_body]
fn array_ncols(m: &Matrix) -> (n: usize)
    ensures
        n == shape(*m).1,
{
    m.inner.ncols()
}

/// Indexing an `ndarray::Array2` by `(row, column)`: the entry there. It
/// panics out of bounds, which the precondition excludes.
#[verifier::external_body]
fn array_get(m: &Matrix, i: usize, j: usize) -> (v: i128)
    requires
        i < shape(*m).0,
        j < shape(*m).1,
    ensures
        v == cells(*m)[(i as int, j as int)],
{
    m.inner[(i, j)]
}

/// Assigning through the mutable index of an `ndarray::Array2`: the entry
/// at `(row, column)` is replaced, every other entry and the shape stay.
#[verifier::external_body]
fn array_set(m: &mut Matrix, i: usize, j: usize, v: i128)
    requires
        i < shape(*old(m)).0,
        j < shape(*old(m)).1,
    ensures
        shape(*final(m)) == shape(*old(m)),
        cells(*final(m)) == cells(*old(m)).insert((i as int, j as int), v),
{
    m.inner[(i, j)] = v;
}

/// `Clone::clone` of an `ndarray::Array2`: an array of the same shape with
/// the same entries.
#[verifier::external_body]
fn array_clone(m: &Matrix) -> (c: Matrix)
    ensures
        shape(c) == shape(*m),
        cells(c) == cells(*m),
{
    Matrix { inner: m.inner.clone() }
}

/// Whether an array of the given shape can be allocated.
pub fn can_allocate(rows: usize, cols: usize) -> (ok: bool)
    ensures
        ok == allocatable(rows as nat, cols as nat),
{
    let r: usize = if rows == 0 { 1 } else { rows };
    let c: usize = if cols == 0 { 1 } else { cols };
    match r.checked_mul(c) {
        None => {
            assert(r * c * 16 >= r * c) by (nonlinear_arith)
                requires
                    r * c >= 0,
            ;
            false
        },
        Some(n) => match n.checked_mul(16) {
            None => false,
            Some(bytes) => bytes <= isize::MAX as usize,
        },
    }
}

impl Matrix {
    /// The zero matrix of the given shape, or `None` when a matrix of that
    /// shape cannot be allocated.
    pub fn zeros(rows: usize, cols: usize) -> (r: Option<Matrix>)
        ensures
            r is Some <==> allocatable(rows as nat, cols as nat),
            r is Some ==> r.unwrap()@ == Mat::build(
                rows as nat,
                cols as nat,
                |i: int, j: int| 0int,
            ),
    {
        if can_allocate(rows, cols) {
            let m = array_zeros(rows, cols);
            proof {
                crate::linalg::lemma_mat_ext(
                    m@,
                    Mat::build(rows as nat, cols as nat, |i: int, j: int| 0int),
                );
            }
            Some(m)
        } else {
            None
        }
    }

    /// The identity matrix of size `n`, or `None` when a matrix of that
    /// shape cannot be allocated.
    pub fn identity(n: usize) -> (r: Option<Matrix>)
        ensures
            r is Some <==> allocatable(n as nat, n as nat),
            r is Some ==> r.unwrap()@ == identity(n as nat),
    {
        if can_allocate(n, n) {
            let m = array_eye(n);
            proof {
                crate::linalg::lemma_mat_ext(m@, identity(n as nat));
            }
            Some(m)
        } else {
            None
        }
    }

    /// The number of rows.
    pub fn nrows(&self) -> (n: usize)
        ensures
            n == self@.rows(),
    {
        array_nrows(self)
    }

    /// The number of columns.
    pub fn ncols(&self) -> (n: usize)
        ensures
            n == self@.cols(),
    {
        array_ncols(self)
    }

    /// The entry at row `i` and column `j`.
    pub fn get(&self, i: usize, j: usize) -> (v: i128)
        requires
            self@.has_cell(i as int, j as int),
        ensures
            v == self@.at(i as int, j as int),
    {
        array_get(self, i, j)
    }

    /// Replaces the entry at row `i` and column `j` by `v`.
    pub fn set(&mut self, i: usize, j: usize, v: i128)
        requires
            old(self)@.has_cell(i as int, j as int),
        ensures
            final(self)@ == old(self)@.with_cell(i as int, j as int, v as int),
    {
        array_set(self, i, j, v);
        proof {
            crate::linalg::lemma_mat_ext(self@, old(self)@.with_cell(i as int, j as int, v as int));
        }
    }

    /// A copy of the matrix.
    pub fn duplicate(&self) -> (c: Matrix)
        ensures
            c@ == self@,
    {
        array_clone(self)
    }
}

/// The width of a list of rows: the length of the first, or zero where
/// there is none.
pub open spec fn width_of(rows: Seq<Vec<i128>>) -> nat {
    if rows.len() == 0 {
        0
    } else {
        rows[0]@.len()
    }
}

/// Every row has the width of the first.
pub open spec fn rectangular(rows: Seq<Vec<i128>>) -> bool {
    forall|i: int| 0 <= i < rows.len() ==> (#[trigger] rows[i])@.len() == width_of(rows)
}

/// The matrix that a rectangular list of rows holds.
pub open spec fn mat_of_rows(rows: Seq<Vec<i128>>) -> Mat {
    Mat::build(rows.len(), width_of(rows), |i: int, j: int| rows[i]@[j] as int)
}

impl Matrix {
    /// The matrix with the given rows, or `None` when the rows differ in
    /// length or a matrix of that shape cannot be allocated.
    pub fn from_rows(rows: &Vec<Vec<i128>>) -> (r: Option<Matrix>)
        ensures
            r is Some <==> rectangular(rows@) && allocatable(rows@.len(), width_of(rows@)),
            r is Some ==> r.unwrap()@ == mat_of_rows(rows@),
    {
        let height = rows.len();
        let width = if height == 0 { 0 } else { rows[0].len() };
        let mut m = match Matrix::zeros(height, width) {
            Some(m) => m,
            None => {
                return None;
            },
        };
        let ghost goal = mat_of_rows(rows@);
        let mut i: usize = 0;
        while i < height
            invariant
                i <= height,
                height == rows@.len(),
                width == width_of(rows@),
                goal == mat_of_rows(rows@),
                m@.rows() == height,
                m@.cols() == width,
                forall|k: int| 0 <= k < i ==> (#[trigger] rows@[k])@.len() == width,
                forall|x: int, y: int|
                    m@.has_cell(x, y) && x < i ==> #[trigger] m@.at(x, y) == goal.at(x, y),
            decreases height - i,
        {
            let row = &rows[i];
            if row.len() != width {
                return None;
            }
            let mut j: usize = 0;
            while j < width
                invariant
                    j <= width,
                    i < height,
                    height == rows@.len(),
                    width == width_of(rows@),
                    goal == mat_of_rows(rows@),
                    row@ == rows@[i as int]@,
                    row@.len() == width,
                    m@.rows() == height,
                    m@.cols() == width,
                    forall|x: int, y: int|
                        m@.has_cell(x, y) && (x < i || (x == i && y < j)) ==> #[trigger] m@.at(x, y)
                            == goal.at(x, y),
                decreases width - j,
            {
                m.set(i, j, row[j]);
                j += 1;
            }
            i += 1;
        }
        proof {
            crate::linalg::lemma_mat_ext(m@, goal);
        }
        Some(m)
    }

    /// The rows of the matrix.
    pub fn to_rows(&self) -> (r: Vec<Vec<i128>>)
        ensures
            r@.len() == self@.rows(),
            forall|i: int| 0 <= i < r@.len() ==> (#[trigger] r@[i])@.len() == self@.cols(),
            forall|i: int, j: int|
                self@.has_cell(i, j) ==> (#[trigger] r@[i]@[j]) as int == self@.at(i, j),
    {
        let height = self.nrows();
        let width = self.ncols();
        let mut out: Vec<Vec<i128>> = Vec::new();
        let mut i: usize = 0;
        while i < height
            invariant
                i <= height,
                height == self@.rows(),
                width == self@.cols(),
                out@.len() == i,
                forall|x: int| 0 <= x < i ==> (#[trigger] out@[x])@.len() == width,
                forall|x: int, y: int|
                    0 <= x < i && 0 <= y < width ==> (#[trigger] out@[x]@[y]) as int == self@.at(x, y),
            decreases height - i,
        {
            let mut row: Vec<i128> = Vec::new();
            let mut j: usize = 0;
            while j < width
                invariant
                    j <= width,
                    i < height,
                    height == self@.rows(),
                    width == self@.cols(),
                    row@.len() == j,
                    forall|y: int| 0 <= y < j ==> (#[trigger] row@[y]) as int == self@.at(i as int, y),
                decreases width - j,
            {
                row.push(self.get(i, j));
                j += 1;
            }
            out.push(row);
            i += 1;
        }
        out
    }
}

} // verus!
