use crate::arith::{
    divides, extended_gcd, fits, is_gcd, lemma_divides_elim, lemma_divides_multiple,
    lemma_divides_negation, lemma_divides_transitive, lemma_extended_gcd, magnitude, signum,
};
use crate::determinant::{
    det, is_step, lemma_block_is_step, lemma_flip_is_step, lemma_unit_identity,
    lemma_unit_times_step, unit_product,
};
use crate::linalg::{
    block, col_op, flip, identity, inverse_pair, invertible, lemma_block_identity,
    lemma_block_product, lemma_cancel_middle, lemma_col_op_is_product, lemma_flip_squared,
    lemma_identity_invertible, lemma_invertible_product, lemma_neg_col_is_product,
    lemma_neg_row_is_product, lemma_product_assoc, lemma_product_identity_left,
    lemma_product_identity_right, lemma_row_op_is_product, Mat, neg_col, neg_row, product, product3,
    row_op,
};
use crate::scan::{
    first_nonzero, lemma_first_nonzero, lemma_nonzeros_cleared, lemma_nonzeros_same, nonzeros,
};
use crate::matrix::allocatable;
use crate::updates::{col_op_fits, row_op_fits};
use vstd::prelude::*;

verus! {

/// A matrix `a` together with the two transforms `s` and `t` that are
/// applied to it from the left and from the right.
pub struct Snf {
    pub s: Mat,
    pub a: Mat,
    pub t: Mat,
}

impl Snf {
    /// The three matrices are well formed; `s` and `t` are square, of the
    /// height and the width of `a`.
    pub open spec fn wf(self) -> bool {
        &&& self.s.wf()
        &&& self.a.wf()
        &&& self.t.wf()
        &&& self.s.rows() == self.a.rows()
        &&& self.s.cols() == self.a.rows()
        &&& self.t.rows() == self.a.cols()
        &&& self.t.cols() == self.a.cols()
    }

    /// The product `s * a * t`.
    pub open spec fn value(self) -> Mat {
        product3(self.s, self.a, self.t)
    }
}

/// Column `c` of `m`, as a function of the row.
pub open spec fn column(m: Mat, c: int) -> spec_fn(int) -> int {
    |r: int| m.at(r, c)
}

/// Row `r` of `m`, as a function of the column.
pub open spec fn row(m: Mat, r: int) -> spec_fn(int) -> int {
    |c: int| m.at(r, c)
}

/// Whether the magnitude of `x` is representable as an `i128`.
pub open spec fn has_magnitude(x: int) -> bool {
    i128::MIN < x <= i128::MAX
}

/// Every entry off the main diagonal is zero.
pub open spec fn diagonal(a: Mat) -> bool {
    forall|i: int, j: int| a.has_cell(i, j) && i != j ==> #[trigger] a.at(i, j) == 0
}

/// The length of the main diagonal.
pub open spec fn diag_len(a: Mat) -> nat {
    if a.rows() <= a.cols() {
        a.rows()
    } else {
        a.cols()
    }
}

/// `a` is in Smith normal form: diagonal, with nonnegative diagonal entries
/// each of which divides the next. As zero divides only zero, the zero
/// entries come last.
pub open spec fn smith_form(a: Mat) -> bool {
    &&& a.wf()
    &&& diagonal(a)
    &&& forall|i: int| 0 <= i < diag_len(a) ==> #[trigger] a.at(i, i) >= 0
    &&& forall|i: int| 0 <= i && i + 1 < diag_len(a) ==> divides(#[trigger] a.at(i, i), a.at(i + 1, i + 1))
}

/// `st` decomposes `m`: `s * a * t == m`, where `s` and `t` have integer
/// inverses and are products of elementary factors.
pub open spec fn decomposes(st: Snf, m: Mat) -> bool {
    &&& st.wf()
    &&& m.wf()
    &&& st.a.same_shape(m)
    &&& st.value() == m
    &&& invertible(st.s)
    &&& invertible(st.t)
    &&& unit_product(st.s)
    &&& unit_product(st.t)
}

/// The determinant of `m` is 1 or -1.
pub open spec fn unit_det(m: Mat) -> bool {
    det(m) == 1 || det(m) == -1
}

/// `st` is a Smith normal form decomposition of `m`: `s * a * t == m`,
/// `a` is in Smith normal form, and `s` and `t` are unimodular: they have
/// integer inverses, and their determinants are 1 or -1.
pub open spec fn smith_decomposition(st: Snf, m: Mat) -> bool {
    &&& decomposes(st, m)
    &&& smith_form(st.a)
    &&& unit_det(st.s)
    &&& unit_det(st.t)
}

/// Rows and columns before `i` hold nothing but their diagonal entry.
pub open spec fn settled(a: Mat, i: int) -> bool {
    forall|r: int, c: int| a.has_cell(r, c) && r != c && (r < i || c < i) ==> #[trigger] a.at(r, c) == 0
}

/// The columns in `lo..hi` are zero.
pub open spec fn blank_cols(a: Mat, lo: int, hi: int) -> bool {
    forall|r: int, c: int| a.has_cell(r, c) && lo <= c < hi ==> #[trigger] a.at(r, c) == 0
}

/// 1 where column `c` has a nonzero entry in a row from `i` on, else 0.
pub open spec fn live_column(a: Mat, i: int) -> spec_fn(int) -> int {
    |c: int|
        if first_nonzero(column(a, c), i, a.rows() as int) is Some {
            1int
        } else {
            0int
        }
}

/// The leftmost column from `start` on that has a nonzero entry in a row
/// from `i` on.
pub open spec fn pivot_col(a: Mat, i: int, start: int) -> Option<int> {
    first_nonzero(live_column(a, i), start, a.cols() as int)
}

/// Rows `i` and `r` of `a` exchanged, with the matching exchange of columns of `s`.
pub open spec fn swap_rows(st: Snf, i: int, r: int) -> Snf {
    if i == r {
        st
    } else {
        Snf { s: col_op(st.s, i, r, 0, 1, 1, 0), a: row_op(st.a, i, r, 0, 1, 1, 0), t: st.t }
    }
}

/// Columns `i` and `j` of `a` exchanged, with the matching exchange of rows of `t`.
pub open spec fn swap_cols(st: Snf, i: int, j: int) -> Snf {
    if i == j {
        st
    } else {
        Snf { s: st.s, a: col_op(st.a, i, j, 0, 1, 1, 0), t: row_op(st.t, i, j, 0, 1, 1, 0) }
    }
}

/// Pivot selection at row `i`: the first nonzero entry, in rows from `i`
/// on, of the leftmost column from `start` on that has one, is brought to
/// `(i, i)` by a row and a column exchange. The result comes with the
/// column at which the next search starts; `None` when there is no such entry.
pub open spec fn pivot_step(st: Snf, i: int, start: int) -> Option<(Snf, int)> {
    match pivot_col(st.a, i, start) {
        None => None,
        Some(j) => {
            let r = first_nonzero(column(st.a, j), i, st.a.rows() as int).unwrap();
            Some((swap_cols(swap_rows(st, i, r), i, j), j + 1))
        },
    }
}

/// Clears the entry at `(i1, i0)` against the pivot at `(i0, i0)` by a row
/// operation of determinant 1 built from their Bezout coefficients, which
/// leaves their gcd at the pivot. `None` when a value is not representable.
pub open spec fn zero_row_step(st: Snf, i0: int, i1: int) -> Option<Snf> {
    let p = st.a.at(i0, i0);
    let q = st.a.at(i1, i0);
    let (g, x, y) = extended_gcd(p, q);
    let z = q / g;
    let w = p / g;
    if has_magnitude(p) && has_magnitude(q) && row_op_fits(st.a, i0, i1, x, y, -z, w) && col_op_fits(
        st.s,
        i0,
        i1,
        w,
        -y,
        z,
        x,
    ) {
        Some(Snf { s: col_op(st.s, i0, i1, w, -y, z, x), a: row_op(st.a, i0, i1, x, y, -z, w), t: st.t })
    } else {
        None
    }
}

/// Clears the entry at `(i0, i1)` against the pivot at `(i0, i0)` by a
/// column operation of determinant 1, which leaves their gcd at the pivot.
/// `None` when a value is not representable.
pub open spec fn zero_col_step(st: Snf, i0: int, i1: int) -> Option<Snf> {
    let p = st.a.at(i0, i0);
    let q = st.a.at(i0, i1);
    let (g, x, y) = extended_gcd(p, q);
    let z = q / g;
    let w = p / g;
    if has_magnitude(p) && has_magnitude(q) && col_op_fits(st.a, i0, i1, x, -z, y, w) && row_op_fits(
        st.t,
        i0,
        i1,
        w,
        z,
        -y,
        x,
    ) {
        Some(Snf { s: st.s, a: col_op(st.a, i0, i1, x, -z, y, w), t: row_op(st.t, i0, i1, w, z, -y, x) })
    } else {
        None
    }
}

/// Multiplying `s` from the right and `a` from the left by a pair of
/// inverse matrices keeps the decomposition.
pub proof fn lemma_left_pair(st: Snf, m: Mat, u: Mat, v: Mat)
    requires
        decomposes(st, m),
        inverse_pair(u, v),
        u.rows() == st.a.rows(),
        is_step(u, st.a.rows()),
    ensures
        decomposes(Snf { s: product(st.s, u), a: product(v, st.a), t: st.t }, m),
{
    lemma_cancel_middle(st.s, u, v, st.a);
    lemma_invertible_product(st.s, u, v);
    lemma_unit_times_step(st.s, u);
}

/// Multiplying `a` from the right and `t` from the left by a pair of
/// inverse matrices keeps the decomposition.
pub proof fn lemma_right_pair(st: Snf, m: Mat, u: Mat, v: Mat)
    requires
        decomposes(st, m),
        inverse_pair(u, v),
        u.rows() == st.a.cols(),
        is_step(v, st.a.cols()),
    ensures
        decomposes(Snf { s: st.s, a: product(st.a, u), t: product(v, st.t) }, m),
{
    let sa = product(st.s, st.a);
    lemma_product_assoc(st.s, st.a, u);
    lemma_cancel_middle(sa, u, v, st.t);
    lemma_invertible_product(st.t, v, u);
    lemma_unit_times_step(st.t, v);
}

/// Two block matrices whose squares are inverse to each other are inverse
/// to each other.
pub proof fn lemma_block_inverse(
    n: nat,
    i: int,
    j: int,
    a1: int,
    b1: int,
    c1: int,
    d1: int,
    a2: int,
    b2: int,
    c2: int,
    d2: int,
)
    requires
        0 <= i < n,
        0 <= j < n,
        i != j,
        a1 * a2 + b1 * c2 == 1,
        a1 * b2 + b1 * d2 == 0,
        c1 * a2 + d1 * c2 == 0,
        c1 * b2 + d1 * d2 == 1,
        a2 * a1 + b2 * c1 == 1,
        a2 * b1 + b2 * d1 == 0,
        c2 * a1 + d2 * c1 == 0,
        c2 * b1 + d2 * d1 == 1,
    ensures
        inverse_pair(block(n, i, j, a1, b1, c1, d1), block(n, i, j, a2, b2, c2, d2)),
{
    lemma_block_product(n, i, j, a1, b1, c1, d1, a2, b2, c2, d2);
    lemma_block_product(n, i, j, a2, b2, c2, d2, a1, b1, c1, d1);
    lemma_block_identity(n, i, j);
}

/// A row operation on `a` with the inverse column operation on `s` keeps
/// the decomposition.
pub proof fn lemma_row_update(
    st: Snf,
    m: Mat,
    i: int,
    j: int,
    a1: int,
    b1: int,
    c1: int,
    d1: int,
    a2: int,
    b2: int,
    c2: int,
    d2: int,
)
    requires
        decomposes(st, m),
        0 <= i < st.a.rows(),
        0 <= j < st.a.rows(),
        i != j,
        a1 * a2 + b1 * c2 == 1,
        a1 * b2 + b1 * d2 == 0,
        c1 * a2 + d1 * c2 == 0,
        c1 * b2 + d1 * d2 == 1,
        a2 * a1 + b2 * c1 == 1,
        a2 * b1 + b2 * d1 == 0,
        c2 * a1 + d2 * c1 == 0,
        c2 * b1 + d2 * d1 == 1,
        a2 * d2 - b2 * c2 == 1 || a2 * d2 - b2 * c2 == -1,
    ensures
        decomposes(
            Snf {
                s: col_op(st.s, i, j, a2, b2, c2, d2),
                a: row_op(st.a, i, j, a1, b1, c1, d1),
                t: st.t,
            },
            m,
        ),
{
    let n = st.a.rows();
    lemma_block_inverse(n, i, j, a2, b2, c2, d2, a1, b1, c1, d1);
    lemma_col_op_is_product(st.s, i, j, a2, b2, c2, d2);
    lemma_row_op_is_product(st.a, i, j, a1, b1, c1, d1);
    lemma_block_is_step(n, i, j, a2, b2, c2, d2);
    lemma_left_pair(st, m, block(n, i, j, a2, b2, c2, d2), block(n, i, j, a1, b1, c1, d1));
}

/// A column operation on `a` with the inverse row operation on `t` keeps
/// the decomposition.
pub proof fn lemma_col_update(
    st: Snf,
    m: Mat,
    i: int,
    j: int,
    a1: int,
    b1: int,
    c1: int,
    d1: int,
    a2: int,
    b2: int,
    c2: int,
    d2: int,
)
    requires
        decomposes(st, m),
        0 <= i < st.a.cols(),
        0 <= j < st.a.cols(),
        i != j,
        a1 * a2 + b1 * c2 == 1,
        a1 * b2 + b1 * d2 == 0,
        c1 * a2 + d1 * c2 == 0,
        c1 * b2 + d1 * d2 == 1,
        a2 * a1 + b2 * c1 == 1,
        a2 * b1 + b2 * d1 == 0,
        c2 * a1 + d2 * c1 == 0,
        c2 * b1 + d2 * d1 == 1,
        a2 * d2 - b2 * c2 == 1 || a2 * d2 - b2 * c2 == -1,
    ensures
        decomposes(
            Snf {
                s: st.s,
                a: col_op(st.a, i, j, a1, b1, c1, d1),
                t: row_op(st.t, i, j, a2, b2, c2, d2),
            },
            m,
        ),
{
    let n = st.a.cols();
    lemma_block_inverse(n, i, j, a1, b1, c1, d1, a2, b2, c2, d2);
    lemma_col_op_is_product(st.a, i, j, a1, b1, c1, d1);
    lemma_row_op_is_product(st.t, i, j, a2, b2, c2, d2);
    lemma_block_is_step(n, i, j, a2, b2, c2, d2);
    lemma_right_pair(st, m, block(n, i, j, a1, b1, c1, d1), block(n, i, j, a2, b2, c2, d2));
}

/// Where no pivot is left, a matrix that is settled before `i` and blank
/// from `i` to the start of the search is diagonal.
pub proof fn lemma_pivot_none(a: Mat, i: int, start: int)
    requires
        a.wf(),
        0 <= i <= start,
        settled(a, i),
        blank_cols(a, i, start),
        pivot_col(a, i, start) is None,
    ensures
        diagonal(a),
{
    lemma_first_nonzero(live_column(a, i), start, a.cols() as int);
    assert forall|r: int, c: int| a.has_cell(r, c) && r != c implies #[trigger] a.at(r, c) == 0 by {
        if r >= i && c >= start {
            assert(live_column(a, i)(c) == 0);
            lemma_first_nonzero(column(a, c), i, a.rows() as int);
            assert(column(a, c)(r) == 0);
        }
    }
}

/// What pivot selection achieves: the decomposition is kept, the entry at
/// `(i, i)` is not zero, what was settled stays settled, and the columns
/// after `i` up to the next start are blank.
pub proof fn lemma_pivot_some(st: Snf, m: Mat, i: int, start: int)
    requires
        decomposes(st, m),
        0 <= i < st.a.rows(),
        i <= start,
        settled(st.a, i),
        blank_cols(st.a, i, start),
        pivot_step(st, i, start) is Some,
    ensures
        ({
            let (st2, next) = pivot_step(st, i, start).unwrap();
            &&& decomposes(st2, m)
            &&& start < next <= st.a.cols()
            &&& st2.a.at(i, i) != 0
            &&& settled(st2.a, i)
            &&& blank_cols(st2.a, i + 1, next)
        }),
{
    let a = st.a;
    let j = pivot_col(a, i, start).unwrap();
    lemma_first_nonzero(live_column(a, i), start, a.cols() as int);
    assert(live_column(a, i)(j) != 0);
    let r = first_nonzero(column(a, j), i, a.rows() as int).unwrap();
    lemma_first_nonzero(column(a, j), i, a.rows() as int);
    assert(column(a, j)(r) != 0);
    // every column from i up to j is zero
    assert forall|x: int, c: int| a.has_cell(x, c) && i <= c < j implies #[trigger] a.at(x, c) == 0 by {
        if c >= start && x >= i {
            assert(live_column(a, i)(c) == 0);
            lemma_first_nonzero(column(a, c), i, a.rows() as int);
            assert(column(a, c)(x) == 0);
        }
    }
    let st1 = swap_rows(st, i, r);
    if i != r {
        lemma_row_update(st, m, i, r, 0, 1, 1, 0, 0, 1, 1, 0);
    }
    assert(decomposes(st1, m));
    assert(st1.a.at(i, j) != 0);
    assert(settled(st1.a, i));
    assert forall|x: int, c: int| st1.a.has_cell(x, c) && i <= c < j implies #[trigger] st1.a.at(x, c)
        == 0 by {
        assert(a.at(x, c) == 0 && a.at(i, c) == 0 && a.at(r, c) == 0);
    }
    let st2 = swap_cols(st1, i, j);
    if i != j {
        lemma_col_update(st1, m, i, j, 0, 1, 1, 0, 0, 1, 1, 0);
        assert forall|x: int, c: int| st2.a.has_cell(x, c) && x != c && (x < i || c < i) implies #[trigger] st2.a.at(
            x,
            c,
        ) == 0 by {
            if x < i {
                assert(st1.a.at(x, i) == 0 && st1.a.at(x, j) == 0);
            }
            if c != i && c != j {
                assert(st1.a.at(x, c) == 0);
            }
        }
        assert forall|x: int, c: int| st2.a.has_cell(x, c) && i + 1 <= c < j + 1 implies #[trigger] st2.a.at(
            x,
            c,
        ) == 0 by {
            assert(st1.a.at(x, i) == 0);
            if c < j {
                assert(st1.a.at(x, c) == 0);
            }
        }
    }
}

/// The number of nonzero entries below and to the right of `(i0, i0)`, in
/// its column and its row.
pub open spec fn clutter(a: Mat, i0: int) -> nat {
    nonzeros(column(a, i0), i0 + 1, a.rows() as int) + nonzeros(row(a, i0), i0 + 1, a.cols() as int)
}

/// The Bezout coefficients and cofactors of a pair `(p, q)` with `p != 0`:
/// `g > 0`, `p == w * g`, `q == z * g` and `x * w + y * z == 1`.
pub proof fn lemma_cofactors(p: int, q: int)
    requires
        p != 0,
    ensures
        ({
            let (g, x, y) = extended_gcd(p, q);
            let z = q / g;
            let w = p / g;
            &&& 0 < g <= magnitude(p)
            &&& p == w * g
            &&& q == z * g
            &&& x * p + y * q == g
            &&& x * w + y * z == 1
            &&& divides(magnitude(p), q) ==> g == magnitude(p) && x == signum(p) && y == 0 && w
                == signum(p)
            &&& !divides(magnitude(p), q) ==> g < magnitude(p)
        }),
{
    let (g, x, y) = extended_gcd(p, q);
    let z = q / g;
    let w = p / g;
    lemma_extended_gcd(p, q);
    lemma_divides_elim(g, p);
    lemma_divides_elim(g, q);
    assert(x * w + y * z == 1) by (nonlinear_arith)
        requires
            x * p + y * q == g,
            p == w * g,
            q == z * g,
            g > 0,
    ;
    if divides(magnitude(p), q) {
        assert(w == signum(p)) by (nonlinear_arith)
            requires
                p == w * g,
                g == magnitude(p),
                p != 0,
                magnitude(p) == (if p < 0 { -p } else { p }),
                signum(p) == (if p < 0 { -1int } else { 1int }),
        ;
    }
}

/// The eight products that make `[[x, y], [-z, w]]` and `[[w, -y], [z, x]]`
/// inverse to each other when `x * w + y * z == 1`.
pub proof fn lemma_unit_square(x: int, y: int, z: int, w: int)
    requires
        x * w + y * z == 1,
    ensures
        x * w + y * z == 1,
        x * (-y) + y * x == 0,
        (-z) * w + w * z == 0,
        (-z) * (-y) + w * x == 1,
        w * x + (-y) * (-z) == 1,
        w * y + (-y) * w == 0,
        z * x + x * (-z) == 0,
        z * y + x * w == 1,
        x * z + (-z) * x == 0,
        y * w + w * (-y) == 0,
        y * z + w * x == 1,
        w * (-z) + z * w == 0,
        (-y) * x + x * y == 0,
        w * x - (-y) * z == 1,
        w * x - z * (-y) == 1,
{
    assert(w * x - (-y) * z == x * w + y * z) by (nonlinear_arith);
    assert(w * x - z * (-y) == x * w + y * z) by (nonlinear_arith);
    assert(x * (-y) + y * x == 0) by (nonlinear_arith);
    assert((-z) * w + w * z == 0) by (nonlinear_arith);
    assert((-z) * (-y) + w * x == x * w + y * z) by (nonlinear_arith);
    assert(w * x + (-y) * (-z) == x * w + y * z) by (nonlinear_arith);
    assert(w * y + (-y) * w == 0) by (nonlinear_arith);
    assert(z * x + x * (-z) == 0) by (nonlinear_arith);
    assert(z * y + x * w == x * w + y * z) by (nonlinear_arith);
    assert(x * z + (-z) * x == 0) by (nonlinear_arith);
    assert(y * w + w * (-y) == 0) by (nonlinear_arith);
    assert(y * z + w * x == x * w + y * z) by (nonlinear_arith);
    assert(w * (-z) + z * w == 0) by (nonlinear_arith);
    assert((-y) * x + x * y == 0) by (nonlinear_arith);
}

/// A product with zero, and a combination of zeros, is zero.
pub proof fn lemma_zero_terms(x: int, y: int)
    ensures
        x * 0 + y * 0 == 0,
        x * 0 == 0,
        0 * x == 0,
        1 * x == x,
        (-1) * x == -x,
{
    assert(x * 0 + y * 0 == 0 && x * 0 == 0 && 0 * x == 0 && 1 * x == x && (-1) * x == -x)
        by (nonlinear_arith);
}

/// A row step on a nonzero pivot and a nonzero entry below it leaves a
/// nonzero pivot and lowers the measure of the reduction: the pivot's
/// magnitude falls, or it stays and the clutter falls.
pub proof fn lemma_zero_row_measure(st: Snf, i0: int, i1: int)
    requires
        st.a.wf(),
        st.a.has_cell(i0, i0),
        i0 < i1 < st.a.rows(),
        st.a.at(i0, i0) != 0,
        st.a.at(i1, i0) != 0,
    ensures
        ({
            let p = st.a.at(i0, i0);
            let q = st.a.at(i1, i0);
            let (g, x, y) = extended_gcd(p, q);
            let a2 = row_op(st.a, i0, i1, x, y, -(q / g), p / g);
            &&& a2.at(i0, i0) == g
            &&& a2.at(i1, i0) == 0
            &&& g > 0
            &&& magnitude(g) < magnitude(p) || (magnitude(g) == magnitude(p) && clutter(a2, i0)
                < clutter(st.a, i0))
        }),
{
    let a = st.a;
    let p = a.at(i0, i0);
    let q = a.at(i1, i0);
    let (g, x, y) = extended_gcd(p, q);
    let z = q / g;
    let w = p / g;
    let a2 = row_op(a, i0, i1, x, y, -z, w);
    lemma_cofactors(p, q);
    assert(a2.at(i1, i0) == 0) by {
        assert((-z) * p + w * q == 0) by (nonlinear_arith)
            requires
                p == w * g,
                q == z * g,
        ;
    }
    if divides(magnitude(p), q) {
        assert forall|c: int| i0 + 1 <= c < a.cols() implies (#[trigger] row(a, i0)(c) == 0) == (#[trigger] row(
            a2,
            i0,
        )(c) == 0) by {
            lemma_zero_terms(a.at(i0, c), a.at(i1, c));
        }
        lemma_nonzeros_same(row(a, i0), row(a2, i0), i0 + 1, a.cols() as int);
        assert forall|r: int| i0 + 1 <= r < a.rows() && r != i1 implies (#[trigger] column(a, i0)(r)
            == 0) == (#[trigger] column(a2, i0)(r) == 0) by {}
        assert(column(a, i0)(i1) != 0);
        assert(column(a2, i0)(i1) == 0);
        lemma_nonzeros_cleared(column(a, i0), column(a2, i0), i0 + 1, a.rows() as int, i1);
    }
}

/// A column step on a nonzero pivot and a nonzero entry to its right
/// leaves a nonzero pivot and lowers the measure of the reduction.
pub proof fn lemma_zero_col_measure(st: Snf, i0: int, i1: int)
    requires
        st.a.wf(),
        st.a.has_cell(i0, i0),
        i0 < i1 < st.a.cols(),
        st.a.at(i0, i0) != 0,
        st.a.at(i0, i1) != 0,
    ensures
        ({
            let p = st.a.at(i0, i0);
            let q = st.a.at(i0, i1);
            let (g, x, y) = extended_gcd(p, q);
            let a2 = col_op(st.a, i0, i1, x, -(q / g), y, p / g);
            &&& a2.at(i0, i0) == g
            &&& a2.at(i0, i1) == 0
            &&& g > 0
            &&& magnitude(g) < magnitude(p) || (magnitude(g) == magnitude(p) && clutter(a2, i0)
                < clutter(st.a, i0))
        }),
{
    let a = st.a;
    let p = a.at(i0, i0);
    let q = a.at(i0, i1);
    let (g, x, y) = extended_gcd(p, q);
    let z = q / g;
    let w = p / g;
    let a2 = col_op(a, i0, i1, x, -z, y, w);
    lemma_cofactors(p, q);
    assert(a2.at(i0, i1) == 0) by {
        assert((-z) * p + w * q == 0) by (nonlinear_arith)
            requires
                p == w * g,
                q == z * g,
        ;
    }
    if divides(magnitude(p), q) {
        assert forall|r: int| i0 + 1 <= r < a.rows() implies (#[trigger] column(a, i0)(r) == 0) == (#[trigger] column(
            a2,
            i0,
        )(r) == 0) by {
            lemma_zero_terms(a.at(r, i0), a.at(r, i1));
        }
        lemma_nonzeros_same(column(a, i0), column(a2, i0), i0 + 1, a.rows() as int);
        assert forall|c: int| i0 + 1 <= c < a.cols() && c != i1 implies (#[trigger] row(a, i0)(c)
            == 0) == (#[trigger] row(a2, i0)(c) == 0) by {}
        assert(row(a, i0)(i1) != 0);
        assert(row(a2, i0)(i1) == 0);
        lemma_nonzeros_cleared(row(a, i0), row(a2, i0), i0 + 1, a.cols() as int, i1);
    }
}

/// Reduction at the pivot `(i0, i0)`: while an entry below the pivot is not
/// zero, the first such is cleared by a row step; else, while an entry to
/// its right is not zero, the first such is cleared by a column step. It
/// ends when the pivot's column and row hold nothing else from `i0` on.
/// `None` when a value is not representable.
pub open spec fn reduce_from(st: Snf, i0: int) -> Option<Snf>
    decreases magnitude(st.a.at(i0, i0)), clutter(st.a, i0),
    when st.a.wf() && st.a.has_cell(i0, i0) && st.a.at(i0, i0) != 0
    via reduce_from_decreases
{
    match first_nonzero(column(st.a, i0), i0 + 1, st.a.rows() as int) {
        Some(i1) => match zero_row_step(st, i0, i1) {
            None => None,
            Some(st2) => reduce_from(st2, i0),
        },
        None => match first_nonzero(row(st.a, i0), i0 + 1, st.a.cols() as int) {
            Some(j1) => match zero_col_step(st, i0, j1) {
                None => None,
                Some(st2) => reduce_from(st2, i0),
            },
            None => Some(st),
        },
    }
}

#[via_fn]
proof fn reduce_from_decreases(st: Snf, i0: int) {
    match first_nonzero(column(st.a, i0), i0 + 1, st.a.rows() as int) {
        Some(i1) => {
            lemma_first_nonzero(column(st.a, i0), i0 + 1, st.a.rows() as int);
            assert(column(st.a, i0)(i1) != 0);
            lemma_zero_row_measure(st, i0, i1);
        },
        None => match first_nonzero(row(st.a, i0), i0 + 1, st.a.cols() as int) {
            Some(j1) => {
                lemma_first_nonzero(row(st.a, i0), i0 + 1, st.a.cols() as int);
                assert(row(st.a, i0)(j1) != 0);
                lemma_zero_col_measure(st, i0, j1);
            },
            None => {},
        },
    }
}

/// A row step keeps the decomposition, and the shape that pivot selection
/// and earlier steps have given the matrix.
pub proof fn lemma_zero_row_step(st: Snf, m: Mat, i0: int, i1: int, next: int)
    requires
        decomposes(st, m),
        st.a.has_cell(i0, i0),
        i0 < i1 < st.a.rows(),
        st.a.at(i0, i0) != 0,
        settled(st.a, i0),
        blank_cols(st.a, i0 + 1, next),
        zero_row_step(st, i0, i1) is Some,
    ensures
        ({
            let st2 = zero_row_step(st, i0, i1).unwrap();
            &&& decomposes(st2, m)
            &&& settled(st2.a, i0)
            &&& blank_cols(st2.a, i0 + 1, next)
        }),
{
    let a = st.a;
    let p = a.at(i0, i0);
    let q = a.at(i1, i0);
    let (g, x, y) = extended_gcd(p, q);
    let z = q / g;
    let w = p / g;
    let st2 = zero_row_step(st, i0, i1).unwrap();
    lemma_cofactors(p, q);
    lemma_unit_square(x, y, z, w);
    lemma_row_update(st, m, i0, i1, x, y, -z, w, w, -y, z, x);
    assert forall|r: int, c: int| st2.a.has_cell(r, c) && r != c && (r < i0 || c < i0) implies #[trigger] st2.a.at(
        r,
        c,
    ) == 0 by {
        if r == i0 || r == i1 {
            assert(a.at(i0, c) == 0 && a.at(i1, c) == 0);
            lemma_zero_terms(x, y);
            lemma_zero_terms(-z, w);
        } else {
            assert(a.at(r, c) == 0);
        }
    }
    assert forall|r: int, c: int| st2.a.has_cell(r, c) && i0 + 1 <= c < next implies #[trigger] st2.a.at(
        r,
        c,
    ) == 0 by {
        assert(a.at(r, c) == 0 && a.at(i0, c) == 0 && a.at(i1, c) == 0);
        lemma_zero_terms(x, y);
        lemma_zero_terms(-z, w);
    }
}

/// A column step keeps the decomposition, and the shape that pivot
/// selection and earlier steps have given the matrix.
pub proof fn lemma_zero_col_step(st: Snf, m: Mat, i0: int, i1: int, next: int)
    requires
        decomposes(st, m),
        st.a.has_cell(i0, i0),
        i0 < i1 < st.a.cols(),
        st.a.at(i0, i0) != 0,
        st.a.at(i0, i1) != 0,
        settled(st.a, i0),
        blank_cols(st.a, i0 + 1, next),
        zero_col_step(st, i0, i1) is Some,
    ensures
        ({
            let st2 = zero_col_step(st, i0, i1).unwrap();
            &&& decomposes(st2, m)
            &&& settled(st2.a, i0)
            &&& blank_cols(st2.a, i0 + 1, next)
        }),
{
    let a = st.a;
    let p = a.at(i0, i0);
    let q = a.at(i0, i1);
    let (g, x, y) = extended_gcd(p, q);
    let z = q / g;
    let w = p / g;
    let st2 = zero_col_step(st, i0, i1).unwrap();
    lemma_cofactors(p, q);
    lemma_unit_square(x, y, z, w);
    lemma_col_update(st, m, i0, i1, x, -z, y, w, w, z, -y, x);
    assert(i1 >= next) by {
        if i1 < next {
            assert(a.at(i0, i1) == 0);
        }
    }
    assert forall|r: int, c: int| st2.a.has_cell(r, c) && r != c && (r < i0 || c < i0) implies #[trigger] st2.a.at(
        r,
        c,
    ) == 0 by {
        if c == i0 || c == i1 {
            assert(a.at(r, i0) == 0 && a.at(r, i1) == 0);
            lemma_zero_terms(x, y);
            lemma_zero_terms(-z, w);
        } else {
            assert(a.at(r, c) == 0);
        }
    }
    assert forall|r: int, c: int| st2.a.has_cell(r, c) && i0 + 1 <= c < next implies #[trigger] st2.a.at(
        r,
        c,
    ) == 0 by {
        assert(a.at(r, c) == 0);
    }
}

/// The first phase from row `i` on: pivot selection and reduction, row
/// after row, until no pivot is left.
pub open spec fn rows_from(st: Snf, i: int, start: int, rows: int) -> Option<Snf>
    decreases rows - i,
{
    if i >= rows {
        Some(st)
    } else {
        match pivot_step(st, i, start) {
            None => Some(st),
            Some((st1, next)) => match reduce_from(st1, i) {
                None => None,
                Some(st2) => rows_from(st2, i + 1, next, rows),
            },
        }
    }
}

/// The second phase for one pair of diagonal entries: `(p, q)` at `i0 < i1`
/// is replaced by `(gcd(p, q), p * q / gcd(p, q))`, by a row and a column
/// operation on `a` and their inverses on `s` and `t`. A pair of zeros is
/// left alone. `None` when a value is not representable.
pub open spec fn diag_pair_step(st: Snf, i0: int, i1: int) -> Option<Snf> {
    let p = st.a.at(i0, i0);
    let q = st.a.at(i1, i1);
    let (g, x, y) = extended_gcd(p, q);
    let z = q / g;
    let w = p / g;
    let yz = y * z;
    let xw = x * w;
    if !has_magnitude(p) || !has_magnitude(q) {
        None
    } else if g == 0 {
        Some(st)
    } else if !fits(yz) || !fits(yz - 1) || !fits(1 - yz) || !fits(xw) || !fits(1 - xw) {
        None
    } else if !row_op_fits(st.a, i0, i1, 1, y, z, yz - 1) || !col_op_fits(
        st.s,
        i0,
        i1,
        1 - yz,
        y,
        z,
        -1,
    ) {
        None
    } else {
        let a1 = row_op(st.a, i0, i1, 1, y, z, yz - 1);
        if !col_op_fits(a1, i0, i1, x, 1 - xw, 1, -w) || !row_op_fits(st.t, i0, i1, w, 1 - xw, 1, -x) {
            None
        } else {
            Some(
                Snf {
                    s: col_op(st.s, i0, i1, 1 - yz, y, z, -1),
                    a: col_op(a1, i0, i1, x, 1 - xw, 1, -w),
                    t: row_op(st.t, i0, i1, w, 1 - xw, 1, -x),
                },
            )
        }
    }
}

/// The second phase for the diagonal entry at `i1`: it is paired with each
/// earlier entry from `i0` on, in order.
pub open spec fn diag_inner(st: Snf, i1: int, i0: int) -> Option<Snf>
    decreases i1 - i0,
{
    if i0 >= i1 {
        Some(st)
    } else {
        match diag_pair_step(st, i0, i1) {
            None => None,
            Some(st2) => diag_inner(st2, i1, i0 + 1),
        }
    }
}

/// The second phase from the diagonal entry `i1` on.
pub open spec fn diag_outer(st: Snf, i1: int, len: int) -> Option<Snf>
    decreases len - i1,
{
    if i1 >= len {
        Some(st)
    } else {
        match diag_inner(st, i1, 0) {
            None => None,
            Some(st2) => diag_outer(st2, i1 + 1, len),
        }
    }
}

/// Whether row `i` can be negated in `i128`.
pub open spec fn neg_row_fits(m: Mat, i: int) -> bool {
    forall|k: int| 0 <= k < m.cols() ==> has_magnitude(#[trigger] m.at(i, k))
}

/// Whether column `i` can be negated in `i128`.
pub open spec fn neg_col_fits(m: Mat, i: int) -> bool {
    forall|k: int| 0 <= k < m.rows() ==> has_magnitude(#[trigger] m.at(k, i))
}

/// The third phase from the diagonal entry `i` on: where an entry is
/// negative, its row of `a` and the matching column of `s` are negated.
/// `None` when a value is not representable.
pub open spec fn normalize_from(st: Snf, i: int, len: int) -> Option<Snf>
    decreases len - i,
{
    if i >= len {
        Some(st)
    } else if st.a.at(i, i) >= 0 {
        normalize_from(st, i + 1, len)
    } else if neg_row_fits(st.a, i) && neg_col_fits(st.s, i) {
        normalize_from(Snf { s: neg_col(st.s, i), a: neg_row(st.a, i), t: st.t }, i + 1, len)
    } else {
        None
    }
}

/// The three phases in order, from any state: reduction row by row, the
/// divisibility chain along the diagonal, and nonnegative diagonal entries.
pub open spec fn phases(st: Snf) -> Option<Snf> {
    match rows_from(st, 0, 0, st.a.rows() as int) {
        None => None,
        Some(st1) => match diag_outer(st1, 1, diag_len(st.a) as int) {
            None => None,
            Some(st2) => normalize_from(st2, 0, diag_len(st.a) as int),
        },
    }
}

/// The state from which the computation on `m` starts.
pub open spec fn start(m: Mat) -> Snf {
    Snf { s: identity(m.rows()), a: m, t: identity(m.cols()) }
}

/// The Smith normal form computation on `m`, in `i128`: the three phases
/// from `(identity, m, identity)`. `None` when a value, or the size of a
/// transform, is not representable.
pub open spec fn snf(m: Mat) -> Option<Snf> {
    if !allocatable(m.rows(), m.rows()) || !allocatable(m.cols(), m.cols()) {
        None
    } else {
        phases(start(m))
    }
}

/// The start of the computation decomposes `m`.
pub proof fn lemma_start(m: Mat)
    requires
        m.wf(),
    ensures
        decomposes(start(m), m),
{
    lemma_product_identity_left(m);
    lemma_product_identity_right(m);
    lemma_identity_invertible(m.rows());
    lemma_identity_invertible(m.cols());
    lemma_unit_identity(m.rows());
    lemma_unit_identity(m.cols());
}

/// Whether the diagonal entry at `k` divides the one at `j`, up to sign.
pub open spec fn diag_divides(a: Mat, k: int, j: int) -> bool {
    divides(magnitude(a.at(k, k)), a.at(j, j))
}

/// The state of the divisibility chain while the entry at `i1` is paired
/// with the entries before `i0`: every entry before `i0` divides all that
/// follow it up to `i1`, and every entry before `i1` divides all that
/// follow it before `i1`.
pub open spec fn chained(a: Mat, i0: int, i1: int) -> bool {
    forall|k: int, j: int|
        0 <= k < j <= i1 && (k < i0 || j < i1) ==> #[trigger] diag_divides(a, k, j)
}

/// What the pairing of two diagonal entries achieves on a diagonal matrix:
/// the decomposition is kept, the matrix stays diagonal, the earlier entry
/// becomes the gcd and the later one `p / g * q`; the other entries stay.
pub proof fn lemma_diag_pair_step(st: Snf, m: Mat, i0: int, i1: int)
    requires
        decomposes(st, m),
        diagonal(st.a),
        0 <= i0 < i1 < diag_len(st.a),
        diag_pair_step(st, i0, i1) is Some,
    ensures
        ({
            let st2 = diag_pair_step(st, i0, i1).unwrap();
            let p = st.a.at(i0, i0);
            let q = st.a.at(i1, i1);
            let g = extended_gcd(p, q).0;
            &&& decomposes(st2, m)
            &&& diagonal(st2.a)
            &&& is_gcd(g, p, q)
            &&& g == 0 ==> st2 == st
            &&& g != 0 ==> st2.a.at(i0, i0) == g && st2.a.at(i1, i1) == (p / g) * q
            &&& forall|k: int|
                0 <= k < diag_len(st.a) && k != i0 && k != i1 ==> #[trigger] st2.a.at(k, k)
                    == st.a.at(k, k)
        }),
{
    let a = st.a;
    let p = a.at(i0, i0);
    let q = a.at(i1, i1);
    let (g, x, y) = extended_gcd(p, q);
    let z = q / g;
    let w = p / g;
    let yz = y * z;
    let xw = x * w;
    let st2 = diag_pair_step(st, i0, i1).unwrap();
    lemma_extended_gcd(p, q);
    if g != 0 {
        lemma_divides_elim(g, p);
        lemma_divides_elim(g, q);
        assert(1 * (1 - yz) + y * z == 1 && 1 * y + y * (-1) == 0 && z * (1 - yz) + (yz - 1) * z
            == 0 && z * y + (yz - 1) * (-1) == 1 && (1 - yz) * 1 + y * z == 1 && (1 - yz) * y + y
            * (yz - 1) == 0 && z * 1 + (-1) * z == 0 && z * y + (-1) * (yz - 1) == 1)
            by (nonlinear_arith)
            requires
                yz == y * z,
        ;
        assert((1 - yz) * (-1) - y * z == -1) by (nonlinear_arith)
            requires
                yz == y * z,
        ;
        lemma_row_update(st, m, i0, i1, 1, y, z, yz - 1, 1 - yz, y, z, -1);
        let a1 = row_op(a, i0, i1, 1, y, z, yz - 1);
        let st1 = Snf { s: col_op(st.s, i0, i1, 1 - yz, y, z, -1), a: a1, t: st.t };
        assert(x * w + (1 - xw) * 1 == 1 && x * (1 - xw) + (1 - xw) * (-x) == 0 && 1 * w + (-w) * 1
            == 0 && 1 * (1 - xw) + (-w) * (-x) == 1 && w * x + (1 - xw) * 1 == 1 && w * (1 - xw) + (
        1 - xw) * (-w) == 0 && 1 * x + (-x) * 1 == 0 && 1 * (1 - xw) + (-x) * (-w) == 1)
            by (nonlinear_arith)
            requires
                xw == x * w,
        ;
        assert(w * (-x) - (1 - xw) * 1 == -1) by (nonlinear_arith)
            requires
                xw == x * w,
        ;
        lemma_col_update(st1, m, i0, i1, x, 1 - xw, 1, -w, w, 1 - xw, 1, -x);
        let a2 = st2.a;
        assert(a2 == col_op(a1, i0, i1, x, 1 - xw, 1, -w));
        // the two changed rows of a1
        assert forall|k: int| 0 <= k < a.cols() implies #[trigger] a1.at(i0, k) == (if k == i0 {
            p
        } else if k == i1 {
            y * q
        } else {
            0
        }) && #[trigger] a1.at(i1, k) == (if k == i0 {
            z * p
        } else if k == i1 {
            (yz - 1) * q
        } else {
            0
        }) by {
            assert(a.at(i0, k) == (if k == i0 { p } else { 0 }));
            assert(a.at(i1, k) == (if k == i1 { q } else { 0 }));
            lemma_zero_terms(y, z);
            lemma_zero_terms(yz - 1, p);
            lemma_zero_terms(q, y * q);
            lemma_zero_terms(z * p, (yz - 1) * q);
        }
        assert(x * p + 1 * (y * q) == g) by (nonlinear_arith)
            requires
                x * p + y * q == g,
        ;
        assert((1 - xw) * p + (-w) * (y * q) == 0) by (nonlinear_arith)
            requires
                x * p + y * q == g,
                p == w * g,
                xw == x * w,
        ;
        assert(x * (z * p) + 1 * ((yz - 1) * q) == 0) by (nonlinear_arith)
            requires
                x * p + y * q == g,
                q == z * g,
                yz == y * z,
        ;
        assert((1 - xw) * (z * p) + (-w) * ((yz - 1) * q) == w * q) by {
            let wz = w * z;
            assert(xw * (z * p) == wz * (x * p)) by (nonlinear_arith)
                requires
                    xw == x * w,
                    wz == w * z,
            ;
            assert(w * (yz * q) == wz * (y * q)) by (nonlinear_arith)
                requires
                    yz == y * z,
                    wz == w * z,
            ;
            assert(wz * (x * p) + wz * (y * q) == wz * g) by (nonlinear_arith)
                requires
                    x * p + y * q == g,
            ;
            assert(wz * g == w * q && z * p == w * q) by (nonlinear_arith)
                requires
                    q == z * g,
                    p == w * g,
                    wz == w * z,
            ;
            assert((1 - xw) * (z * p) == z * p - xw * (z * p)) by (nonlinear_arith);
            assert((-w) * ((yz - 1) * q) == w * q - w * (yz * q)) by (nonlinear_arith);
        }
        assert forall|r: int, c: int| a2.has_cell(r, c) implies #[trigger] a2.at(r, c) == (if r == i0
            && c == i0 {
            g
        } else if r == i1 && c == i1 {
            w * q
        } else if r == i0 || r == i1 || c == i0 || c == i1 {
            0
        } else {
            a.at(r, c)
        }) by {
            assert(a1.at(i0, c) == (if c == i0 { p } else if c == i1 { y * q } else { 0 }));
            assert(a1.at(i1, c) == (if c == i0 { z * p } else if c == i1 { (yz - 1) * q } else { 0 }));
            assert(a1.at(i0, i0) == p && a1.at(i0, i1) == y * q);
            assert(a1.at(i1, i0) == z * p && a1.at(i1, i1) == (yz - 1) * q);
            if r != i0 && r != i1 {
                assert(a1.at(r, c) == a.at(r, c));
                assert(a1.at(r, i0) == 0 && a1.at(r, i1) == 0) by {
                    assert(a.at(r, i0) == 0 && a.at(r, i1) == 0);
                }
                lemma_zero_terms(x, 1);
                lemma_zero_terms(1 - xw, -w);
            }
        }
        assert(diagonal(a2)) by {
            assert forall|r: int, c: int| a2.has_cell(r, c) && r != c implies #[trigger] a2.at(r, c)
                == 0 by {
                assert(a.at(r, c) == 0);
            }
        }
    }
}

/// Pairing the entries at `i0` and `i1` extends the divisibility chain by
/// the entry at `i0`.
pub proof fn lemma_chain_step(a: Mat, a2: Mat, i0: int, i1: int)
    requires
        0 <= i0 < i1 < diag_len(a),
        diag_len(a2) == diag_len(a),
        chained(a, i0, i1),
        ({
            let p = a.at(i0, i0);
            let q = a.at(i1, i1);
            let g = extended_gcd(p, q).0;
            &&& g == 0 ==> a2.at(i0, i0) == p && a2.at(i1, i1) == q
            &&& g != 0 ==> a2.at(i0, i0) == g && a2.at(i1, i1) == (p / g) * q
            &&& forall|k: int|
                0 <= k < diag_len(a) && k != i0 && k != i1 ==> #[trigger] a2.at(k, k) == a.at(k, k)
        }),
    ensures
        chained(a2, i0 + 1, i1),
{
    let p = a.at(i0, i0);
    let q = a.at(i1, i1);
    let g = extended_gcd(p, q).0;
    lemma_extended_gcd(p, q);
    assert forall|k: int, j: int| 0 <= k < j <= i1 && (k < i0 + 1 || j < i1) implies #[trigger] diag_divides(
        a2,
        k,
        j,
    ) by {
        if g == 0 {
            if k == i0 {
                if j < i1 {
                    assert(diag_divides(a, i0, j));
                }
            } else {
                assert(diag_divides(a, k, j));
            }
        } else if k < i0 {
            let d = magnitude(a.at(k, k));
            assert(a2.at(k, k) == a.at(k, k));
            assert(diag_divides(a, k, i0));
            assert(diag_divides(a, k, i1));
            if j == i0 {
                if d == 0 {
                    assert(p == 0 && q == 0);
                } else {
                    assert(divides(d, g));
                }
            } else if j == i1 {
                lemma_divides_multiple(d, q, p / g);
            } else {
                assert(diag_divides(a, k, j));
            }
        } else if k == i0 {
            if j == i1 {
                lemma_divides_multiple(g, q, p / g);
            } else {
                assert(diag_divides(a, i0, j));
                lemma_divides_transitive(g, p, a.at(j, j));
            }
        } else {
            assert(diag_divides(a, k, j));
        }
    }
}

/// Negating row `i` of `a` and column `i` of `s` keeps the decomposition.
pub proof fn lemma_neg_update(st: Snf, m: Mat, i: int)
    requires
        decomposes(st, m),
        0 <= i < st.a.rows(),
    ensures
        decomposes(Snf { s: neg_col(st.s, i), a: neg_row(st.a, i), t: st.t }, m),
{
    let n = st.a.rows();
    lemma_flip_squared(n, i);
    lemma_neg_col_is_product(st.s, i);
    lemma_neg_row_is_product(st.a, i);
    lemma_flip_is_step(n, i);
    lemma_left_pair(st, m, flip(n, i), flip(n, i));
}

/// Negating a row of a diagonal matrix keeps it diagonal and keeps the
/// divisibility chain along its diagonal.
pub proof fn lemma_neg_chain(a: Mat, i: int, len: int)
    requires
        a.wf(),
        diagonal(a),
        0 <= i < diag_len(a),
        len == diag_len(a),
        chained(a, 0, len),
    ensures
        diagonal(neg_row(a, i)),
        chained(neg_row(a, i), 0, len),
        neg_row(a, i).at(i, i) == -a.at(i, i),
        forall|k: int| 0 <= k < len && k != i ==> #[trigger] neg_row(a, i).at(k, k) == a.at(k, k),
{
    let b = neg_row(a, i);
    assert forall|r: int, c: int| b.has_cell(r, c) && r != c implies #[trigger] b.at(r, c) == 0 by {
        assert(a.at(r, c) == 0);
    }
    assert forall|k: int, j: int| 0 <= k < j <= len && (k < 0 || j < len) implies #[trigger] diag_divides(
        b,
        k,
        j,
    ) by {
        assert(diag_divides(a, k, j));
        let d = magnitude(a.at(k, k));
        if d > 0 {
            lemma_divides_negation(d, a.at(j, j));
        }
    }
}

/// In a Smith normal form each diagonal entry divides all later ones, so
/// that no nonzero entry follows a zero.
pub proof fn lemma_smith_chain(a: Mat, i: int, j: int)
    requires
        smith_form(a),
        0 <= i <= j < diag_len(a),
    ensures
        divides(a.at(i, i), a.at(j, j)),
        a.at(i, i) == 0 ==> a.at(j, j) == 0,
    decreases j - i,
{
    if i == j {
        if a.at(i, i) != 0 {
            crate::arith::lemma_divides_intro(a.at(i, i), 1, a.at(i, i));
        }
    } else {
        lemma_smith_chain(a, i, j - 1);
        assert(divides(a.at(j - 1, j - 1), a.at(j - 1 + 1, j - 1 + 1)));
        assert(a.at(j - 1, j - 1) >= 0);
        lemma_divides_transitive(a.at(i, i), a.at(j - 1, j - 1), a.at(j, j));
    }
}

} // verus!
