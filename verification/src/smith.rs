use crate::arith::{extended_euclid, lemma_extended_gcd, magnitude, quotient};
use crate::error::Error;
use crate::linalg::{col_op, lemma_mat_ext, Mat, neg_col, neg_row, row_op};
use crate::matrix::Matrix;
use crate::scan::{first_nonzero, lemma_first_nonzero};
use crate::smith_model::{
    blank_cols, chained, clutter, column, decomposes, diag_inner, diag_len, diag_outer,
    diag_pair_step, diagonal, has_magnitude, lemma_chain_step, lemma_cofactors,
    lemma_diag_pair_step, lemma_neg_chain, lemma_neg_update, lemma_pivot_none, lemma_pivot_some,
    lemma_start, lemma_zero_col_measure, lemma_zero_col_step, lemma_zero_row_measure,
    lemma_zero_row_step, live_column, neg_col_fits, neg_row_fits, normalize_from, phases, pivot_col,
    pivot_step, reduce_from, row, rows_from, settled, smith_decomposition, snf, Snf, zero_col_step,
    zero_row_step,
};
use crate::updates::{col_cell_fits, left_mul2, right_mul2, row_cell_fits};
use vstd::prelude::*;

verus! {

/// The three matrices of a decomposition in progress: `a`, and the
/// transforms `s` and `t` applied to it from the left and from the right.
pub struct Decomposition {
    pub s: Matrix,
    pub a: Matrix,
    pub t: Matrix,
}

impl View for Decomposition {
    type V = Snf;

    open spec fn view(&self) -> Snf {
        Snf { s: self.s@, a: self.a@, t: self.t@ }
    }
}

/// The first row from `from` on at which column `col` is not zero.
pub fn find_nonzero_in_column(m: &Matrix, col: usize, from: usize) -> (r: Option<usize>)
    requires
        col < m@.cols(),
    ensures
        match r {
            Some(k) => first_nonzero(column(m@, col as int), from as int, m@.rows() as int) == Some(
                k as int,
            ),
            None => first_nonzero(column(m@, col as int), from as int, m@.rows() as int) is None,
        },
{
    let rows = m.nrows();
    let mut k: usize = from;
    while k < rows
        invariant
            from <= k,
            rows == m@.rows(),
            col < m@.cols(),
            first_nonzero(column(m@, col as int), k as int, rows as int) == first_nonzero(
                column(m@, col as int),
                from as int,
                rows as int,
            ),
        decreases rows - k,
    {
        if m.get(k, col) != 0 {
            return Some(k);
        }
        k += 1;
    }
    None
}

/// The first column from `from` on at which row `row_index` is not zero.
pub fn find_nonzero_in_row(m: &Matrix, row_index: usize, from: usize) -> (r: Option<usize>)
    requires
        row_index < m@.rows(),
    ensures
        match r {
            Some(k) => first_nonzero(row(m@, row_index as int), from as int, m@.cols() as int)
                == Some(k as int),
            None => first_nonzero(row(m@, row_index as int), from as int, m@.cols() as int) is None,
        },
{
    let cols = m.ncols();
    let mut k: usize = from;
    while k < cols
        invariant
            from <= k,
            cols == m@.cols(),
            row_index < m@.rows(),
            first_nonzero(row(m@, row_index as int), k as int, cols as int) == first_nonzero(
                row(m@, row_index as int),
                from as int,
                cols as int,
            ),
        decreases cols - k,
    {
        if m.get(row_index, k) != 0 {
            return Some(k);
        }
        k += 1;
    }
    None
}

/// The leftmost column from `start` on that has a nonzero entry in a row
/// from `i` on.
pub fn find_nonzero_column(m: &Matrix, i: usize, start: usize) -> (r: Option<usize>)
    ensures
        match r {
            Some(j) => pivot_col(m@, i as int, start as int) == Some(j as int),
            None => pivot_col(m@, i as int, start as int) is None,
        },
{
    let cols = m.ncols();
    let mut c: usize = start;
    while c < cols
        invariant
            start <= c,
            cols == m@.cols(),
            first_nonzero(live_column(m@, i as int), c as int, cols as int) == pivot_col(
                m@,
                i as int,
                start as int,
            ),
        decreases cols - c,
    {
        if find_nonzero_in_column(m, c, i).is_some() {
            return Some(c);
        }
        c += 1;
    }
    None
}

/// Exchanges rows `i` and `j`.
fn exchange_rows(m: &mut Matrix, i: usize, j: usize)
    requires
        i < old(m)@.rows(),
        j < old(m)@.rows(),
        i != j,
    ensures
        final(m)@ == row_op(old(m)@, i as int, j as int, 0, 1, 1, 0),
{
    let r = left_mul2(m, i, j, 0, 1, 1, 0);
    proof {
        assert forall|k: int| 0 <= k < old(m)@.cols() implies #[trigger] row_cell_fits(
            old(m)@,
            i as int,
            j as int,
            0,
            1,
            1,
            0,
            k,
        ) by {
            assert(old(m)@.has_cell(i as int, k) && old(m)@.has_cell(j as int, k));
        }
    }
}

/// Exchanges columns `i` and `j`.
fn exchange_cols(m: &mut Matrix, i: usize, j: usize)
    requires
        i < old(m)@.cols(),
        j < old(m)@.cols(),
        i != j,
    ensures
        final(m)@ == col_op(old(m)@, i as int, j as int, 0, 1, 1, 0),
{
    let r = right_mul2(m, i, j, 0, 1, 1, 0);
    proof {
        assert forall|k: int| 0 <= k < old(m)@.rows() implies #[trigger] col_cell_fits(
            old(m)@,
            i as int,
            j as int,
            0,
            1,
            1,
            0,
            k,
        ) by {
            assert(old(m)@.has_cell(k, i as int) && old(m)@.has_cell(k, j as int));
        }
    }
}

/// Pivot selection at row `i`: finds the leftmost column from `start_j` on
/// with a nonzero entry in a row from `i` on, and brings the first such
/// entry to `(i, i)` by exchanging two rows and two columns, with the
/// matching exchanges in `s` and `t`. Returns the column after the one
/// found, or `None`, with nothing changed, where there is no such entry.
pub fn make_pivot(st: &mut Decomposition, i: usize, start_j: usize) -> (r: Option<usize>)
    requires
        old(st)@.wf(),
        i < old(st)@.a.rows(),
        i <= start_j,
    ensures
        match pivot_step(old(st)@, i as int, start_j as int) {
            Some((st2, next)) => r == Some(next as usize) && next <= usize::MAX && final(st)@ == st2,
            None => r is None && final(st)@ == old(st)@,
        },
{
    let cols = st.a.ncols();
    let j = match find_nonzero_column(&st.a, i, start_j) {
        Some(j) => j,
        None => {
            return None;
        },
    };
    proof {
        lemma_first_nonzero(live_column(st@.a, i as int), start_j as int, st@.a.cols() as int);
        assert(live_column(st@.a, i as int)(j as int) != 0);
        lemma_first_nonzero(column(st@.a, j as int), i as int, st@.a.rows() as int);
        assert(j < cols);
    }
    let nonzero_i = match find_nonzero_in_column(&st.a, j, i) {
        Some(k) => k,
        None => {
            return None;
        },
    };
    if i != nonzero_i {
        exchange_rows(&mut st.a, i, nonzero_i);
        exchange_cols(&mut st.s, i, nonzero_i);
    }
    if i != j {
        exchange_cols(&mut st.a, i, j);
        exchange_rows(&mut st.t, i, j);
    }
    Some(j + 1)
}

/// Clears the entry at `(i1, i0)` against the pivot at `(i0, i0)`: with
/// `(g, x, y)` the extended gcd of the pivot and the entry, rows `i0` and
/// `i1` of `a` are combined by `[[x, y], [-z, w]]`, which leaves `g` at the
/// pivot and zero below, and columns `i0` and `i1` of `s` by the inverse.
pub fn zero_row_entry(st: &mut Decomposition, i0: usize, i1: usize) -> (r: Result<(), Error>)
    requires
        old(st)@.wf(),
        old(st)@.a.has_cell(i0 as int, i0 as int),
        i0 < i1 < old(st)@.a.rows(),
        old(st)@.a.at(i0 as int, i0 as int) != 0,
    ensures
        final(st)@.wf(),
        final(st)@.a.same_shape(old(st)@.a),
        match zero_row_step(old(st)@, i0 as int, i1 as int) {
            Some(st2) => r is Ok && final(st)@ == st2,
            None => r == Err::<(), Error>(Error::Overflow),
        },
{
    let p = st.a.get(i0, i0);
    let q = st.a.get(i1, i0);
    if p == i128::MIN || q == i128::MIN {
        return Err(Error::Overflow);
    }
    let (g, x, y) = extended_euclid(p, q);
    proof {
        lemma_cofactors(p as int, q as int);
        lemma_extended_gcd(p as int, q as int);
    }
    let z = quotient(q, g);
    let w = quotient(p, g);
    match left_mul2(&mut st.a, i0, i1, x, y, -z, w) {
        Err(e) => {
            return Err(e);
        },
        Ok(()) => {},
    }
    right_mul2(&mut st.s, i0, i1, w, -y, z, x)
}

/// Clears the entry at `(i0, i1)` against the pivot at `(i0, i0)`: with
/// `(g, x, y)` the extended gcd of the pivot and the entry, columns `i0`
/// and `i1` of `a` are combined so that `g` is left at the pivot and zero
/// to its right, and rows `i0` and `i1` of `t` by the inverse.
pub fn zero_column_entry(st: &mut Decomposition, i0: usize, i1: usize) -> (r: Result<(), Error>)
    requires
        old(st)@.wf(),
        old(st)@.a.has_cell(i0 as int, i0 as int),
        i0 < i1 < old(st)@.a.cols(),
        old(st)@.a.at(i0 as int, i0 as int) != 0,
    ensures
        final(st)@.wf(),
        final(st)@.a.same_shape(old(st)@.a),
        match zero_col_step(old(st)@, i0 as int, i1 as int) {
            Some(st2) => r is Ok && final(st)@ == st2,
            None => r == Err::<(), Error>(Error::Overflow),
        },
{
    let p = st.a.get(i0, i0);
    let q = st.a.get(i0, i1);
    if p == i128::MIN || q == i128::MIN {
        return Err(Error::Overflow);
    }
    let (g, x, y) = extended_euclid(p, q);
    proof {
        lemma_cofactors(p as int, q as int);
        lemma_extended_gcd(p as int, q as int);
    }
    let z = quotient(q, g);
    let w = quotient(p, g);
    match right_mul2(&mut st.a, i0, i1, x, -z, y, w) {
        Err(e) => {
            return Err(e);
        },
        Ok(()) => {},
    }
    left_mul2(&mut st.t, i0, i1, w, z, -y, x)
}

/// Step P and step R at row `i0`: selects a pivot, then clears the pivot's
/// column below it and its row to the right of it, by row steps while an
/// entry below is not zero and by column steps otherwise. Returns the
/// column at which the next search starts, or `None`, with nothing
/// changed, where no pivot is left.
pub fn reduce_row(st: &mut Decomposition, i0: usize, start_j: usize, Ghost(m): Ghost<Mat>) -> (r:
    Result<Option<usize>, Error>)
    requires
        decomposes(old(st)@, m),
        i0 < old(st)@.a.rows(),
        i0 <= start_j,
        settled(old(st)@.a, i0 as int),
        blank_cols(old(st)@.a, i0 as int, start_j as int),
    ensures
        final(st)@.wf(),
        final(st)@.a.same_shape(old(st)@.a),
        match pivot_step(old(st)@, i0 as int, start_j as int) {
            None => r == Ok::<Option<usize>, Error>(None) && final(st)@ == old(st)@ && diagonal(
                old(st)@.a,
            ),
            Some((st1, next)) => match reduce_from(st1, i0 as int) {
                None => r == Err::<Option<usize>, Error>(Error::Overflow),
                Some(st2) => {
                    &&& r == Ok::<Option<usize>, Error>(Some(next as usize))
                    &&& final(st)@ == st2
                    &&& decomposes(st2, m)
                    &&& settled(st2.a, i0 + 1)
                    &&& blank_cols(st2.a, i0 + 1, next)
                    &&& start_j < next <= st2.a.cols()
                },
            },
        },
{
    let ghost begin = st@;
    let next_j = match make_pivot(st, i0, start_j) {
        Some(n) => n,
        None => {
            proof {
                lemma_pivot_none(begin.a, i0 as int, start_j as int);
            }
            return Ok(None);
        },
    };
    proof {
        lemma_pivot_some(begin, m, i0 as int, start_j as int);
    }
    let ghost st1 = st@;
    let rows = st.a.nrows();
    let cols = st.a.ncols();
    let mut done = false;
    while !done
        invariant
            decomposes(st@, m),
            st@.a.same_shape(st1.a),
            begin == old(st)@,
            st1.a.same_shape(begin.a),
            pivot_step(begin, i0 as int, start_j as int) == Some((st1, next_j as int)),
            start_j < next_j <= cols,
            rows == st@.a.rows(),
            cols == st@.a.cols(),
            i0 < rows,
            i0 < cols,
            st@.a.at(i0 as int, i0 as int) != 0,
            settled(st@.a, i0 as int),
            blank_cols(st@.a, i0 + 1, next_j as int),
            reduce_from(st@, i0 as int) == reduce_from(st1, i0 as int),
            done ==> first_nonzero(column(st@.a, i0 as int), i0 + 1, rows as int) is None,
            done ==> first_nonzero(row(st@.a, i0 as int), i0 + 1, cols as int) is None,
        decreases
                magnitude(st@.a.at(i0 as int, i0 as int)),
                clutter(st@.a, i0 as int),
                (if done {
                    0int
                } else {
                    1int
                }),
    {
        let ghost cur = st@;
        match find_nonzero_in_column(&st.a, i0, i0 + 1) {
            Some(i1) => {
                proof {
                    lemma_first_nonzero(column(cur.a, i0 as int), i0 + 1, rows as int);
                    assert(column(cur.a, i0 as int)(i1 as int) != 0);
                }
                match zero_row_entry(st, i0, i1) {
                    Err(e) => {
                        return Err(e);
                    },
                    Ok(()) => {
                        proof {
                            lemma_zero_row_step(cur, m, i0 as int, i1 as int, next_j as int);
                            lemma_zero_row_measure(cur, i0 as int, i1 as int);
                        }
                    },
                }
            },
            None => match find_nonzero_in_row(&st.a, i0, i0 + 1) {
                Some(j1) => {
                    proof {
                        lemma_first_nonzero(row(cur.a, i0 as int), i0 + 1, cols as int);
                        assert(row(cur.a, i0 as int)(j1 as int) != 0);
                    }
                    match zero_column_entry(st, i0, j1) {
                        Err(e) => {
                            return Err(e);
                        },
                        Ok(()) => {
                            proof {
                                lemma_zero_col_step(cur, m, i0 as int, j1 as int, next_j as int);
                                lemma_zero_col_measure(cur, i0 as int, j1 as int);
                            }
                        },
                    }
                },
                None => {
                    done = true;
                },
            },
        }
    }
    proof {
        let a = st@.a;
        lemma_first_nonzero(column(a, i0 as int), i0 + 1, rows as int);
        lemma_first_nonzero(row(a, i0 as int), i0 + 1, cols as int);
        assert forall|r: int, c: int| a.has_cell(r, c) && r != c && (r < i0 + 1 || c < i0 + 1) implies #[trigger] a.at(
            r,
            c,
        ) == 0 by {
            if r == i0 && c > i0 {
                assert(row(a, i0 as int)(c) == 0);
            }
            if c == i0 && r > i0 {
                assert(column(a, i0 as int)(r) == 0);
            }
        }
    }
    Ok(Some(next_j))
}

/// Step D for one pair of diagonal entries `i0 < i1`: replaces them by
/// their gcd and by their product over the gcd, with the matching updates
/// of `s` and `t`. A pair of zeros is left alone.
pub fn pair_diagonal(st: &mut Decomposition, i0: usize, i1: usize) -> (r: Result<(), Error>)
    requires
        old(st)@.wf(),
        i0 < i1 < diag_len(old(st)@.a),
    ensures
        final(st)@.wf(),
        final(st)@.a.same_shape(old(st)@.a),
        match diag_pair_step(old(st)@, i0 as int, i1 as int) {
            Some(st2) => r is Ok && final(st)@ == st2,
            None => r == Err::<(), Error>(Error::Overflow),
        },
{
    let p = st.a.get(i0, i0);
    let q = st.a.get(i1, i1);
    if p == i128::MIN || q == i128::MIN {
        return Err(Error::Overflow);
    }
    let (g, x, y) = extended_euclid(p, q);
    if g == 0 {
        return Ok(());
    }
    proof {
        lemma_extended_gcd(p as int, q as int);
    }
    let z = quotient(q, g);
    let w = quotient(p, g);
    let yz = match y.checked_mul(z) {
        Some(v) => v,
        None => {
            return Err(Error::Overflow);
        },
    };
    let yz_less = match yz.checked_sub(1) {
        Some(v) => v,
        None => {
            return Err(Error::Overflow);
        },
    };
    let one_less_yz = match 1i128.checked_sub(yz) {
        Some(v) => v,
        None => {
            return Err(Error::Overflow);
        },
    };
    let xw = match x.checked_mul(w) {
        Some(v) => v,
        None => {
            return Err(Error::Overflow);
        },
    };
    let one_less_xw = match 1i128.checked_sub(xw) {
        Some(v) => v,
        None => {
            return Err(Error::Overflow);
        },
    };
    match left_mul2(&mut st.a, i0, i1, 1, y, z, yz_less) {
        Err(e) => {
            return Err(e);
        },
        Ok(()) => {},
    }
    match right_mul2(&mut st.s, i0, i1, one_less_yz, y, z, -1) {
        Err(e) => {
            return Err(e);
        },
        Ok(()) => {},
    }
    match right_mul2(&mut st.a, i0, i1, x, one_less_xw, 1, -w) {
        Err(e) => {
            return Err(e);
        },
        Ok(()) => {},
    }
    left_mul2(&mut st.t, i0, i1, w, one_less_xw, 1, -x)
}

/// Step D for the diagonal entry at `i1`: pairs it with each earlier
/// entry in turn, after which every entry up to `i1` divides the next.
pub fn reduce_diagonal(st: &mut Decomposition, i1: usize, Ghost(m): Ghost<Mat>) -> (r: Result<
    (),
    Error,
>)
    requires
        decomposes(old(st)@, m),
        diagonal(old(st)@.a),
        i1 < diag_len(old(st)@.a),
        chained(old(st)@.a, 0, i1 as int),
    ensures
        final(st)@.wf(),
        final(st)@.a.same_shape(old(st)@.a),
        match diag_inner(old(st)@, i1 as int, 0) {
            Some(st2) => {
                &&& r is Ok
                &&& final(st)@ == st2
                &&& decomposes(st2, m)
                &&& diagonal(st2.a)
                &&& chained(st2.a, 0, i1 + 1)
            },
            None => r == Err::<(), Error>(Error::Overflow),
        },
{
    let ghost begin = st@;
    let mut i0: usize = 0;
    while i0 < i1
        invariant
            i0 <= i1,
            decomposes(st@, m),
            st@.a.same_shape(begin.a),
            begin == old(st)@,
            i1 < diag_len(begin.a),
            diagonal(st@.a),
            chained(st@.a, i0 as int, i1 as int),
            diag_inner(st@, i1 as int, i0 as int) == diag_inner(begin, i1 as int, 0),
        decreases i1 - i0,
    {
        let ghost cur = st@;
        match pair_diagonal(st, i0, i1) {
            Err(e) => {
                return Err(e);
            },
            Ok(()) => {
                proof {
                    lemma_diag_pair_step(cur, m, i0 as int, i1 as int);
                    lemma_chain_step(cur.a, st@.a, i0 as int, i1 as int);
                }
            },
        }
        i0 += 1;
    }
    Ok(())
}

/// Negates row `i`. Fails exactly when an entry of the row is `i128::MIN`.
pub fn negate_row(m: &mut Matrix, i: usize) -> (r: Result<(), Error>)
    requires
        i < old(m)@.rows(),
    ensures
        final(m)@.same_shape(old(m)@),
        r is Ok <==> neg_row_fits(old(m)@, i as int),
        r is Ok ==> final(m)@ == neg_row(old(m)@, i as int),
        r is Err ==> r == Err::<(), Error>(Error::Overflow),
{
    let ghost before = m@;
    let cols = m.ncols();
    let mut k: usize = 0;
    while k < cols
        invariant
            k <= cols,
            cols == before.cols(),
            i < before.rows(),
            before == old(m)@,
            before.wf(),
            m@.same_shape(before),
            forall|kk: int| 0 <= kk < k ==> has_magnitude(#[trigger] before.at(i as int, kk)),
            forall|r: int, kk: int|
                before.has_cell(r, kk) ==> #[trigger] m@.at(r, kk) == (if r == i && kk < k {
                    -before.at(r, kk)
                } else {
                    before.at(r, kk)
                }),
        decreases cols - k,
    {
        let x = m.get(i, k);
        if x == i128::MIN {
            assert(!has_magnitude(before.at(i as int, k as int)));
            return Err(Error::Overflow);
        }
        m.set(i, k, -x);
        k += 1;
    }
    proof {
        lemma_mat_ext(m@, neg_row(before, i as int));
    }
    Ok(())
}

/// Negates column `i`. Fails exactly when an entry of the column is
/// `i128::MIN`.
pub fn negate_col(m: &mut Matrix, i: usize) -> (r: Result<(), Error>)
    requires
        i < old(m)@.cols(),
    ensures
        final(m)@.same_shape(old(m)@),
        r is Ok <==> neg_col_fits(old(m)@, i as int),
        r is Ok ==> final(m)@ == neg_col(old(m)@, i as int),
        r is Err ==> r == Err::<(), Error>(Error::Overflow),
{
    let ghost before = m@;
    let rows = m.nrows();
    let mut k: usize = 0;
    while k < rows
        invariant
            k <= rows,
            rows == before.rows(),
            i < before.cols(),
            before == old(m)@,
            before.wf(),
            m@.same_shape(before),
            forall|kk: int| 0 <= kk < k ==> has_magnitude(#[trigger] before.at(kk, i as int)),
            forall|kk: int, c: int|
                before.has_cell(kk, c) ==> #[trigger] m@.at(kk, c) == (if c == i && kk < k {
                    -before.at(kk, c)
                } else {
                    before.at(kk, c)
                }),
        decreases rows - k,
    {
        let x = m.get(k, i);
        if x == i128::MIN {
            assert(!has_magnitude(before.at(k as int, i as int)));
            return Err(Error::Overflow);
        }
        m.set(k, i, -x);
        k += 1;
    }
    proof {
        lemma_mat_ext(m@, neg_col(before, i as int));
    }
    Ok(())
}

/// Brings `a` into Smith normal form in place, with `s` and `t` updated so
/// that the product `s * a * t` stays what it was: step P and step R for
/// each row until no pivot is left, then step D along the diagonal, then
/// the negation of each row whose diagonal entry is negative.
///
/// Fails with `Error::Overflow` exactly when a value that the computation
/// needs is not representable in `i128`; the matrices then hold a partial
/// result.
pub fn smith_normal_form_in_place(st: &mut Decomposition, Ghost(m): Ghost<Mat>) -> (r: Result<
    (),
    Error,
>)
    requires
        decomposes(old(st)@, m),
    ensures
        final(st)@.wf(),
        final(st)@.a.same_shape(old(st)@.a),
        match phases(old(st)@) {
            Some(st2) => r is Ok && final(st)@ == st2 && smith_decomposition(st2, m),
            None => r == Err::<(), Error>(Error::Overflow),
        },
{
    let ghost begin = st@;
    let rows = st.a.nrows();
    let cols = st.a.ncols();
    let len = if rows <= cols { rows } else { cols };
    let mut j: usize = 0;
    let mut i: usize = 0;
    let mut stopped = false;
    while i < rows && !stopped
        invariant
            i <= rows,
            i <= j,
            begin == old(st)@,
            rows == begin.a.rows(),
            cols == begin.a.cols(),
            decomposes(st@, m),
            st@.a.same_shape(begin.a),
            settled(st@.a, i as int),
            blank_cols(st@.a, i as int, j as int),
            rows_from(st@, i as int, j as int, rows as int) == rows_from(begin, 0, 0, rows as int),
            stopped ==> diagonal(st@.a) && rows_from(st@, i as int, j as int, rows as int) == Some(
                st@,
            ),
        decreases
                rows - i,
                (if stopped {
                    0int
                } else {
                    1int
                }),
    {
        match reduce_row(st, i, j, Ghost(m)) {
            Err(e) => {
                return Err(e);
            },
            Ok(None) => {
                stopped = true;
            },
            Ok(Some(next_j)) => {
                j = next_j;
                i += 1;
            },
        }
    }
    assert(diagonal(st@.a));
    let ghost reduced = st@;
    assert(rows_from(begin, 0, 0, rows as int) == Some(reduced));
    let mut i1: usize = 1;
    while i1 < len
        invariant
            1 <= i1,
            begin == old(st)@,
            len == diag_len(begin.a),
            rows == begin.a.rows(),
            rows_from(begin, 0, 0, rows as int) == Some(reduced),
            decomposes(st@, m),
            st@.a.same_shape(begin.a),
            diagonal(st@.a),
            chained(st@.a, 0, i1 as int),
            diag_outer(st@, i1 as int, len as int) == diag_outer(reduced, 1, len as int),
        decreases len - i1,
    {
        match reduce_diagonal(st, i1, Ghost(m)) {
            Err(e) => {
                return Err(e);
            },
            Ok(()) => {},
        }
        i1 += 1;
    }
    let ghost chain = st@;
    assert(diag_outer(reduced, 1, len as int) == Some(chain));
    assert(chained(chain.a, 0, len as int));
    let mut k: usize = 0;
    while k < len
        invariant
            k <= len,
            begin == old(st)@,
            len == diag_len(begin.a),
            rows == begin.a.rows(),
            cols == begin.a.cols(),
            decomposes(st@, m),
            st@.a.same_shape(begin.a),
            diagonal(st@.a),
            chained(st@.a, 0, len as int),
            forall|x: int| 0 <= x < k ==> #[trigger] st@.a.at(x, x) >= 0,
            normalize_from(st@, k as int, len as int) == normalize_from(chain, 0, len as int),
            rows_from(begin, 0, 0, rows as int) == Some(reduced),
            diag_outer(reduced, 1, len as int) == Some(chain),
        decreases len - k,
    {
        let ghost cur = st@;
        if st.a.get(k, k) < 0 {
            match negate_row(&mut st.a, k) {
                Err(e) => {
                    return Err(e);
                },
                Ok(()) => {},
            }
            match negate_col(&mut st.s, k) {
                Err(e) => {
                    return Err(e);
                },
                Ok(()) => {},
            }
            proof {
                lemma_neg_update(cur, m, k as int);
                lemma_neg_chain(cur.a, k as int, len as int);
            }
        }
        k += 1;
    }
    proof {
        let a = st@.a;
        crate::determinant::lemma_unit_det(st@.s);
        crate::determinant::lemma_unit_det(st@.t);
        assert forall|x: int| 0 <= x && x + 1 < diag_len(a) implies crate::arith::divides(
            #[trigger] a.at(x, x),
            a.at(x + 1, x + 1),
        ) by {
            assert(crate::smith_model::diag_divides(a, x, x + 1));
        }
    }
    Ok(())
}

/// Computes the Smith normal form `m = s * a * t`: all three matrices are
/// integer, `s` and `t` are unimodular (their determinants are 1 or -1,
/// and their inverses are integer), and `a` is diagonal with nonnegative
/// entries each of which divides the next, so that the zero entries come
/// last. Returns `(s, a, t)`.
///
/// All arithmetic is in `i128`. Fails with `Error::Overflow` exactly when
/// a value that the computation needs, or the size of `s` or `t`, is not
/// representable.
pub fn smith_normal_form(m: &Matrix) -> (r: Result<(Matrix, Matrix, Matrix), Error>)
    ensures
        match snf(m@) {
            Some(st) => {
                &&& r is Ok
                &&& r.unwrap().0@ == st.s
                &&& r.unwrap().1@ == st.a
                &&& r.unwrap().2@ == st.t
                &&& smith_decomposition(st, m@)
            },
            None => r == Err::<(Matrix, Matrix, Matrix), Error>(Error::Overflow),
        },
{
    let s = match Matrix::identity(m.nrows()) {
        Some(s) => s,
        None => {
            return Err(Error::Overflow);
        },
    };
    let t = match Matrix::identity(m.ncols()) {
        Some(t) => t,
        None => {
            return Err(Error::Overflow);
        },
    };
    let a = m.duplicate();
    let mut st = Decomposition { s, a, t };
    proof {
        lemma_start(m@);
    }
    match smith_normal_form_in_place(&mut st, Ghost(m@)) {
        Err(e) => Err(e),
        Ok(()) => Ok((st.s, st.a, st.t)),
    }
}

} // verus!
