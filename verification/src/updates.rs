use crate::arith::fits;
use crate::error::Error;
use crate::linalg::{col_op, lemma_mat_ext, Mat, row_op};
use crate::matrix::Matrix;
use vstd::prelude::*;

verus! {

/// Whether `a * x + b * y` can be computed in `i128`: both products and
/// their sum are representable.
pub open spec fn combine_fits(a: int, x: int, b: int, y: int) -> bool {
    fits(a * x) && fits(b * y) && fits(a * x + b * y)
}

/// Whether column `k` of the row operation can be computed in `i128`.
pub open spec fn row_cell_fits(m: Mat, i: int, j: int, a: int, b: int, c: int, d: int, k: int) -> bool {
    combine_fits(a, m.at(i, k), b, m.at(j, k)) && combine_fits(c, m.at(i, k), d, m.at(j, k))
}

/// Whether the whole row operation can be computed in `i128`.
pub open spec fn row_op_fits(m: Mat, i: int, j: int, a: int, b: int, c: int, d: int) -> bool {
    forall|k: int| 0 <= k < m.cols() ==> #[trigger] row_cell_fits(m, i, j, a, b, c, d, k)
}

/// Whether row `k` of the column operation can be computed in `i128`.
pub open spec fn col_cell_fits(m: Mat, i: int, j: int, a: int, b: int, c: int, d: int, k: int) -> bool {
    combine_fits(a, m.at(k, i), c, m.at(k, j)) && combine_fits(b, m.at(k, i), d, m.at(k, j))
}

/// Whether the whole column operation can be computed in `i128`.
pub open spec fn col_op_fits(m: Mat, i: int, j: int, a: int, b: int, c: int, d: int) -> bool {
    forall|k: int| 0 <= k < m.rows() ==> #[trigger] col_cell_fits(m, i, j, a, b, c, d, k)
}

/// `a * x + b * y`, or `None` when a product or the sum overflows.
pub fn combine(a: i128, x: i128, b: i128, y: i128) -> (r: Option<i128>)
    ensures
        r is Some <==> combine_fits(a as int, x as int, b as int, y as int),
        r is Some ==> r.unwrap() == a * x + b * y,
{
    match a.checked_mul(x) {
        None => None,
        Some(p) => match b.checked_mul(y) {
            None => None,
            Some(q) => p.checked_add(q),
        },
    }
}

/// Replaces rows `i` and `j` of `m` by `a * row_i + b * row_j` and
/// `c * row_i + d * row_j`: a multiplication from the left by a matrix that
/// differs from the identity in two rows and columns.
///
/// Fails with `Error::Overflow` exactly when an entry cannot be computed in
/// `i128`; the matrix then holds a partial result.
pub fn left_mul2(m: &mut Matrix, i: usize, j: usize, a: i128, b: i128, c: i128, d: i128) -> (r:
    Result<(), Error>)
    requires
        i < old(m)@.rows(),
        j < old(m)@.rows(),
        i != j,
    ensures
        final(m)@.same_shape(old(m)@),
        r is Ok <==> row_op_fits(old(m)@, i as int, j as int, a as int, b as int, c as int, d as int),
        r is Ok ==> final(m)@ == row_op(
            old(m)@,
            i as int,
            j as int,
            a as int,
            b as int,
            c as int,
            d as int,
        ),
        r is Err ==> r == Err::<(), Error>(Error::Overflow),
{
    let ghost before = m@;
    let ghost after = row_op(before, i as int, j as int, a as int, b as int, c as int, d as int);
    let cols = m.ncols();
    let mut k: usize = 0;
    while k < cols
        invariant
            k <= cols,
            cols == before.cols(),
            i < before.rows(),
            j < before.rows(),
            i != j,
            m@.same_shape(before),
            before == old(m)@,
            before.wf(),
            after == row_op(before, i as int, j as int, a as int, b as int, c as int, d as int),
            forall|kk: int|
                0 <= kk < k ==> #[trigger] row_cell_fits(
                    before,
                    i as int,
                    j as int,
                    a as int,
                    b as int,
                    c as int,
                    d as int,
                    kk,
                ),
            forall|r: int, kk: int|
                before.has_cell(r, kk) ==> #[trigger] m@.at(r, kk) == (if kk < k {
                    after.at(r, kk)
                } else {
                    before.at(r, kk)
                }),
        decreases cols - k,
    {
        let x = m.get(i, k);
        let y = m.get(j, k);
        let ghost mid = m@;
        match combine(a, x, b, y) {
            None => {
                assert(!row_cell_fits(
                    before,
                    i as int,
                    j as int,
                    a as int,
                    b as int,
                    c as int,
                    d as int,
                    k as int,
                ));
                return Err(Error::Overflow);
            },
            Some(u) => match combine(c, x, d, y) {
                None => {
                    assert(!row_cell_fits(
                        before,
                        i as int,
                        j as int,
                        a as int,
                        b as int,
                        c as int,
                        d as int,
                        k as int,
                    ));
                    return Err(Error::Overflow);
                },
                Some(v) => {
                    m.set(i, k, u);
                    m.set(j, k, v);
                },
            },
        }
        assert(row_cell_fits(
            before,
            i as int,
            j as int,
            a as int,
            b as int,
            c as int,
            d as int,
            k as int,
        ));
        k += 1;
    }
    proof {
        lemma_mat_ext(m@, after);
    }
    Ok(())
}

/// Replaces columns `i` and `j` of `m` by `a * col_i + c * col_j` and
/// `b * col_i + d * col_j`: a multiplication from the right by a matrix that
/// differs from the identity in two rows and columns.
///
/// Fails with `Error::Overflow` exactly when an entry cannot be computed in
/// `i128`; the matrix then holds a partial result.
pub fn right_mul2(m: &mut Matrix, i: usize, j: usize, a: i128, b: i128, c: i128, d: i128) -> (r:
    Result<(), Error>)
    requires
        i < old(m)@.cols(),
        j < old(m)@.cols(),
        i != j,
    ensures
        final(m)@.same_shape(old(m)@),
        r is Ok <==> col_op_fits(old(m)@, i as int, j as int, a as int, b as int, c as int, d as int),
        r is Ok ==> final(m)@ == col_op(
            old(m)@,
            i as int,
            j as int,
            a as int,
            b as int,
            c as int,
            d as int,
        ),
        r is Err ==> r == Err::<(), Error>(Error::Overflow),
{
    let ghost before = m@;
    let ghost after = col_op(before, i as int, j as int, a as int, b as int, c as int, d as int);
    let rows = m.nrows();
    let mut k: usize = 0;
    while k < rows
        invariant
            k <= rows,
            rows == before.rows(),
            i < before.cols(),
            j < before.cols(),
            i != j,
            m@.same_shape(before),
            before == old(m)@,
            before.wf(),
            after == col_op(before, i as int, j as int, a as int, b as int, c as int, d as int),
            forall|kk: int|
                0 <= kk < k ==> #[trigger] col_cell_fits(
                    before,
                    i as int,
                    j as int,
                    a as int,
                    b as int,
                    c as int,
                    d as int,
                    kk,
                ),
            forall|kk: int, r: int|
                before.has_cell(kk, r) ==> #[trigger] m@.at(kk, r) == (if kk < k {
                    after.at(kk, r)
                } else {
                    before.at(kk, r)
                }),
        decreases rows - k,
    {
        let x = m.get(k, i);
        let y = m.get(k, j);
        match combine(a, x, c, y) {
            None => {
                assert(!col_cell_fits(
                    before,
                    i as int,
                    j as int,
                    a as int,
                    b as int,
                    c as int,
                    d as int,
                    k as int,
                ));
                return Err(Error::Overflow);
            },
            Some(u) => match combine(b, x, d, y) {
                None => {
                    assert(!col_cell_fits(
                        before,
                        i as int,
                        j as int,
                        a as int,
                        b as int,
                        c as int,
                        d as int,
                        k as int,
                    ));
                    return Err(Error::Overflow);
                },
                Some(v) => {
                    m.set(k, i, u);
                    m.set(k, j, v);
                },
            },
        }
        assert(col_cell_fits(
            before,
            i as int,
            j as int,
            a as int,
            b as int,
            c as int,
            d as int,
            k as int,
        ));
        k += 1;
    }
    proof {
        lemma_mat_ext(m@, after);
    }
    Ok(())
}

} // verus!
