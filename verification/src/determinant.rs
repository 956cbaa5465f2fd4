use crate::linalg::{
    block, col_op, flip, identity, lemma_col_op_is_product, lemma_mat_ext, lemma_neg_col_is_product,
    lemma_product_assoc, lemma_product_identity_right, lemma_sum_add, lemma_sum_ext, lemma_sum_one,
    lemma_sum_scale, lemma_sum_two, Mat, neg_col, product, sum,
};
use vstd::prelude::*;

verus! {

/// The matrix is well formed and has as many rows as columns.
pub open spec fn square(m: Mat) -> bool {
    m.wf() && m.rows() == m.cols()
}

/// The sign `(-1)^c`.
pub open spec fn alternating(c: int) -> int {
    if c % 2 == 0 {
        1
    } else {
        -1
    }
}

/// The matrix without its first row and its column `c`.
pub open spec fn minor(m: Mat, c: int) -> Mat {
    Mat::build(
        (m.rows() - 1) as nat,
        (m.cols() - 1) as nat,
        |i: int, j: int|
            m.at(
                i + 1,
                if j < c {
                    j
                } else {
                    j + 1
                },
            ),
    )
}

/// The determinant of a square matrix, by expansion along the first row.
pub open spec fn det(m: Mat) -> int
    decreases m.rows(), m.rows() + 1,
{
    if m.rows() == 0 {
        1
    } else {
        expansion(m, m.rows())
    }
}

/// The sum of the first `k` terms of the expansion along the first row.
pub open spec fn expansion(m: Mat, k: nat) -> int
    decreases m.rows(), k,
{
    if k == 0 || m.rows() == 0 {
        0
    } else {
        expansion(m, (k - 1) as nat) + alternating(k - 1) * m.at(0, k - 1) * det(minor(m, k - 1))
    }
}

/// The term of column `c` in the expansion along the first row.
pub open spec fn term(m: Mat, c: int) -> int {
    alternating(c) * m.at(0, c) * det(minor(m, c))
}

/// The matrix with column `k` replaced by the values of `u`.
pub open spec fn with_col(m: Mat, k: int, u: spec_fn(int) -> int) -> Mat {
    Mat::build(
        m.rows(),
        m.cols(),
        |r: int, c: int|
            if c == k {
                u(r)
            } else {
                m.at(r, c)
            },
    )
}

/// A column function shifted by one row.
pub open spec fn shifted(u: spec_fn(int) -> int) -> spec_fn(int) -> int {
    |r: int| u(r + 1)
}

/// The combination `a * u + b * v` of two column functions.
pub open spec fn combined(a: int, u: spec_fn(int) -> int, b: int, v: spec_fn(int) -> int) -> spec_fn(
    int,
) -> int {
    |r: int| a * u(r) + b * v(r)
}

/// Column `k` of `m`, as a function of the row.
pub open spec fn col_of(m: Mat, k: int) -> spec_fn(int) -> int {
    |r: int| m.at(r, k)
}

/// A term of a combination is the combination of the terms.
pub proof fn lemma_term_combination(s: int, a: int, x: int, b: int, y: int, d: int)
    ensures
        s * (a * x + b * y) * d == a * (s * x * d) + b * (s * y * d),
{
    let sx = s * x;
    let sy = s * y;
    assert(s * (a * x + b * y) == a * sx + b * sy) by (nonlinear_arith)
        requires
            sx == s * x,
            sy == s * y,
    ;
    assert((a * sx + b * sy) * d == a * (sx * d) + b * (sy * d)) by (nonlinear_arith);
}

/// A term whose minor is a combination is the combination of the terms.
pub proof fn lemma_term_minors(s: int, x: int, a: int, du: int, b: int, dv: int)
    ensures
        s * x * (a * du + b * dv) == a * (s * x * du) + b * (s * x * dv),
{
    let sx = s * x;
    assert(sx * (a * du + b * dv) == a * (sx * du) + b * (sx * dv)) by (nonlinear_arith);
}

/// The expansion is the sum of its terms.
pub proof fn lemma_expansion_is_sum(m: Mat, k: nat)
    requires
        m.rows() > 0,
    ensures
        expansion(m, k) == sum(|c: int| term(m, c), k),
    decreases k,
{
    if k > 0 {
        lemma_expansion_is_sum(m, (k - 1) as nat);
    }
}

/// The determinant of a matrix with a row is the sum of the terms of its
/// first row.
pub proof fn lemma_det_is_sum(m: Mat)
    requires
        m.rows() > 0,
    ensures
        det(m) == sum(|c: int| term(m, c), m.rows()),
{
    lemma_expansion_is_sum(m, m.rows());
}

/// Replacing a column and taking a minor: the minor at the replaced
/// column forgets the replacement, and any other minor has the shifted
/// values in the column's new place.
pub proof fn lemma_minor_with_col(m: Mat, k: int, u: spec_fn(int) -> int, c: int)
    requires
        square(m),
        m.rows() > 0,
        0 <= k < m.cols(),
        0 <= c < m.cols(),
    ensures
        square(minor(m, c)),
        minor(m, c).rows() == m.rows() - 1,
        c == k ==> minor(with_col(m, k, u), c) == minor(m, c),
        c != k ==> minor(with_col(m, k, u), c) == with_col(
            minor(m, c),
            if k < c {
                k
            } else {
                k - 1
            },
            shifted(u),
        ),
{
    let a = minor(with_col(m, k, u), c);
    if c == k {
        lemma_mat_ext(a, minor(m, c));
    } else {
        let kk = if k < c { k } else { k - 1 };
        lemma_mat_ext(a, with_col(minor(m, c), kk, shifted(u)));
    }
}

/// The determinant is linear in each column.
pub proof fn lemma_det_linear(
    m: Mat,
    k: int,
    a: int,
    u: spec_fn(int) -> int,
    b: int,
    v: spec_fn(int) -> int,
)
    requires
        square(m),
        0 <= k < m.cols(),
    ensures
        det(with_col(m, k, combined(a, u, b, v))) == a * det(with_col(m, k, u)) + b * det(
            with_col(m, k, v),
        ),
    decreases m.rows(),
{
    let n = m.rows();
    let w = combined(a, u, b, v);
    let mw = with_col(m, k, w);
    let mu = with_col(m, k, u);
    let mv = with_col(m, k, v);
    let fw = |c: int| term(mw, c);
    let fu = |c: int| term(mu, c);
    let fv = |c: int| term(mv, c);
    let au = |c: int| a * fu(c);
    let bv = |c: int| b * fv(c);
    let both = |c: int| au(c) + bv(c);
    assert forall|c: int| 0 <= c < n implies #[trigger] fw(c) == both(c) by {
        lemma_minor_with_col(m, k, w, c);
        lemma_minor_with_col(m, k, u, c);
        lemma_minor_with_col(m, k, v, c);
        let s = alternating(c);
        if c == k {
            let d = det(minor(m, c));
            lemma_term_combination(s, a, u(0), b, v(0), d);
        } else {
            let kk = if k < c { k } else { k - 1 };
            let mm = minor(m, c);
            lemma_det_linear(mm, kk, a, shifted(u), b, shifted(v));
            lemma_mat_ext(
                with_col(mm, kk, shifted(w)),
                with_col(mm, kk, combined(a, shifted(u), b, shifted(v))),
            );
            let x = m.at(0, c);
            let du = det(with_col(mm, kk, shifted(u)));
            let dv = det(with_col(mm, kk, shifted(v)));
            lemma_term_minors(s, x, a, du, b, dv);
        }
    }
    lemma_det_is_sum(mw);
    lemma_det_is_sum(mu);
    lemma_det_is_sum(mv);
    lemma_sum_ext(fw, both, n);
    lemma_sum_add(au, bv, n);
    lemma_sum_scale(a, fu, n);
    lemma_sum_scale(b, fv, n);
}

/// The matrix with column `i` replaced by the values of `x` and column
/// `j` by those of `y`.
pub open spec fn two_cols(
    m: Mat,
    i: int,
    x: spec_fn(int) -> int,
    j: int,
    y: spec_fn(int) -> int,
) -> Mat {
    with_col(with_col(m, i, x), j, y)
}

/// A matrix with two equal columns next to each other has determinant
/// zero.
pub proof fn lemma_det_adjacent(m: Mat, k: int, u: spec_fn(int) -> int)
    requires
        square(m),
        0 <= k,
        k + 1 < m.cols(),
    ensures
        det(two_cols(m, k, u, k + 1, u)) == 0,
    decreases m.rows(),
{
    let n = m.rows();
    let b = with_col(m, k, u);
    let a = two_cols(m, k, u, k + 1, u);
    let f = |c: int| term(a, c);
    assert forall|c: int| 0 <= c < n && c != k && c != k + 1 implies #[trigger] f(c) == 0 by {
        lemma_minor_with_col(b, k + 1, u, c);
        lemma_minor_with_col(m, k, u, c);
        let kk = if k < c { k } else { k - 1 };
        lemma_det_adjacent(minor(m, c), kk, shifted(u));
        assert(minor(a, c) == two_cols(minor(m, c), kk, shifted(u), kk + 1, shifted(u)));
        assert(alternating(c) * a.at(0, c) * 0 == 0) by (nonlinear_arith);
    }
    lemma_mat_ext(minor(a, k), minor(a, k + 1));
    let d = det(minor(a, k));
    let x = u(0);
    assert(a.at(0, k) == x && a.at(0, k + 1) == x);
    assert(alternating(k) * x * d + alternating(k + 1) * x * d == 0) by (nonlinear_arith)
        requires
            alternating(k) + alternating(k + 1) == 0,
    ;
    lemma_sum_two(f, n, k, k + 1);
    lemma_det_is_sum(a);
}

/// Where a repeated column makes the determinant vanish, exchanging two
/// columns negates it.
pub proof fn lemma_swap_from_repeats(
    m: Mat,
    i: int,
    j: int,
    a: spec_fn(int) -> int,
    b: spec_fn(int) -> int,
)
    requires
        square(m),
        0 <= i < m.cols(),
        0 <= j < m.cols(),
        i != j,
        det(two_cols(m, i, a, j, a)) == 0,
        det(two_cols(m, i, b, j, b)) == 0,
        det(two_cols(m, i, combined(1, a, 1, b), j, combined(1, a, 1, b))) == 0,
    ensures
        det(two_cols(m, i, a, j, b)) + det(two_cols(m, i, b, j, a)) == 0,
{
    let ab = combined(1, a, 1, b);
    let m1 = with_col(m, i, ab);
    lemma_det_linear(m1, j, 1, a, 1, b);
    // the part with `a` in column j
    let m2 = with_col(m, j, a);
    lemma_det_linear(m2, i, 1, a, 1, b);
    lemma_mat_ext(with_col(m1, j, a), with_col(m2, i, ab));
    lemma_mat_ext(with_col(m2, i, a), two_cols(m, i, a, j, a));
    lemma_mat_ext(with_col(m2, i, b), two_cols(m, i, b, j, a));
    // the part with `b` in column j
    let m3 = with_col(m, j, b);
    lemma_det_linear(m3, i, 1, a, 1, b);
    lemma_mat_ext(with_col(m1, j, b), with_col(m3, i, ab));
    lemma_mat_ext(with_col(m3, i, a), two_cols(m, i, a, j, b));
    lemma_mat_ext(with_col(m3, i, b), two_cols(m, i, b, j, b));
}

/// A matrix with two equal columns has determinant zero.
pub proof fn lemma_det_equal_columns(m: Mat, k: int, l: int, u: spec_fn(int) -> int)
    requires
        square(m),
        0 <= k < l < m.cols(),
    ensures
        det(two_cols(m, k, u, l, u)) == 0,
    decreases l - k,
{
    if l == k + 1 {
        lemma_det_adjacent(m, k, u);
    } else {
        let a = two_cols(m, k, u, l, u);
        let x = col_of(a, l - 1);
        lemma_det_adjacent(a, l - 1, x);
        lemma_det_adjacent(a, l - 1, u);
        lemma_det_adjacent(a, l - 1, combined(1, x, 1, u));
        lemma_swap_from_repeats(a, l - 1, l, x, u);
        lemma_mat_ext(two_cols(a, l - 1, x, l, u), a);
        let b = two_cols(a, l - 1, u, l, x);
        lemma_mat_ext(b, two_cols(b, k, u, l - 1, u));
        lemma_det_equal_columns(b, k, l - 1, u);
    }
}

/// A matrix in which two columns are given the same values has
/// determinant zero, whichever column comes first.
pub proof fn lemma_det_repeated(m: Mat, i: int, j: int, u: spec_fn(int) -> int)
    requires
        square(m),
        0 <= i < m.cols(),
        0 <= j < m.cols(),
        i != j,
    ensures
        det(two_cols(m, i, u, j, u)) == 0,
{
    if i < j {
        lemma_det_equal_columns(m, i, j, u);
    } else {
        lemma_det_equal_columns(m, j, i, u);
        lemma_mat_ext(two_cols(m, i, u, j, u), two_cols(m, j, u, i, u));
    }
}

/// Exchanging the values of two columns negates the determinant.
pub proof fn lemma_det_swap(
    m: Mat,
    i: int,
    j: int,
    a: spec_fn(int) -> int,
    b: spec_fn(int) -> int,
)
    requires
        square(m),
        0 <= i < m.cols(),
        0 <= j < m.cols(),
        i != j,
    ensures
        det(two_cols(m, i, b, j, a)) == -det(two_cols(m, i, a, j, b)),
{
    lemma_det_repeated(m, i, j, a);
    lemma_det_repeated(m, i, j, b);
    lemma_det_repeated(m, i, j, combined(1, a, 1, b));
    lemma_swap_from_repeats(m, i, j, a, b);
}

/// A column operation multiplies the determinant by the determinant of
/// its square.
pub proof fn lemma_det_col_op(m: Mat, i: int, j: int, a: int, b: int, c: int, d: int)
    requires
        square(m),
        0 <= i < m.cols(),
        0 <= j < m.cols(),
        i != j,
    ensures
        det(col_op(m, i, j, a, b, c, d)) == (a * d - b * c) * det(m),
{
    let ci = col_of(m, i);
    let cj = col_of(m, j);
    let x = combined(a, ci, c, cj);
    let y = combined(b, ci, d, cj);
    lemma_mat_ext(col_op(m, i, j, a, b, c, d), two_cols(m, i, x, j, y));
    let m1 = with_col(m, i, x);
    lemma_det_linear(m1, j, b, ci, d, cj);
    // column j keeps its values: a * det(m)
    lemma_mat_ext(with_col(m1, j, cj), m1);
    lemma_det_linear(m, i, a, ci, c, cj);
    lemma_mat_ext(with_col(m, i, ci), m);
    lemma_mat_ext(with_col(m, i, cj), two_cols(m, i, cj, j, cj));
    lemma_det_repeated(m, i, j, cj);
    let keep = det(with_col(m1, j, cj));
    assert(keep == a * det(m)) by (nonlinear_arith)
        requires
            keep == a * det(m) + c * 0,
    ;
    // column j takes the values of column i: -c * det(m)
    let m2 = with_col(m, j, ci);
    lemma_mat_ext(with_col(m1, j, ci), with_col(m2, i, x));
    lemma_det_linear(m2, i, a, ci, c, cj);
    lemma_mat_ext(with_col(m2, i, ci), two_cols(m, i, ci, j, ci));
    lemma_det_repeated(m, i, j, ci);
    lemma_mat_ext(with_col(m2, i, cj), two_cols(m, i, cj, j, ci));
    lemma_det_swap(m, i, j, ci, cj);
    lemma_mat_ext(two_cols(m, i, ci, j, cj), m);
    let take = det(with_col(m1, j, ci));
    let dm = det(m);
    assert(take == -(c * dm)) by (nonlinear_arith)
        requires
            take == a * 0 + c * (-dm),
    ;
    assert(b * take + d * keep == (a * d - b * c) * dm) by (nonlinear_arith)
        requires
            take == -(c * dm),
            keep == a * dm,
    ;
}

/// Negating a column negates the determinant.
pub proof fn lemma_det_neg_col(m: Mat, i: int)
    requires
        square(m),
        0 <= i < m.cols(),
    ensures
        det(neg_col(m, i)) == -det(m),
{
    let ci = col_of(m, i);
    lemma_det_linear(m, i, -1, ci, 0, ci);
    lemma_mat_ext(neg_col(m, i), with_col(m, i, combined(-1, ci, 0, ci)));
    lemma_mat_ext(with_col(m, i, ci), m);
    let dm = det(m);
    assert((-1) * dm + 0 * dm == -dm) by (nonlinear_arith);
}

/// The identity matrix has determinant one.
pub proof fn lemma_det_identity(n: nat)
    ensures
        det(identity(n)) == 1,
    decreases n,
{
    if n > 0 {
        let id = identity(n);
        let f = |c: int| term(id, c);
        lemma_det_identity((n - 1) as nat);
        lemma_mat_ext(minor(id, 0), identity((n - 1) as nat));
        assert forall|c: int| 0 <= c < n && c != 0 implies #[trigger] f(c) == 0 by {
            assert(alternating(c) * 0 * det(minor(id, c)) == 0) by (nonlinear_arith);
        }
        assert(f(0) == 1) by {
            assert(alternating(0) * 1 * 1 == 1) by (nonlinear_arith);
        }
        lemma_sum_one(f, n, 0);
        lemma_det_is_sum(id);
    }
}

/// `b` is an elementary factor of size `n`: the identity with a square of
/// determinant 1 or -1 on two of its rows and columns, or with one
/// diagonal entry negated.
pub open spec fn is_step(b: Mat, n: nat) -> bool {
    ||| exists|i: int, j: int, p: int, q: int, r: int, s: int|
        0 <= i < n && 0 <= j < n && i != j && (p * s - q * r == 1 || p * s - q * r == -1) && b
            == #[trigger] block(n, i, j, p, q, r, s)
    ||| exists|i: int| 0 <= i < n && b == #[trigger] flip(n, i)
}

/// Every matrix of the list is an elementary factor of size `n`.
pub open spec fn steps(l: Seq<Mat>, n: nat) -> bool {
    forall|k: int| 0 <= k < l.len() ==> is_step(#[trigger] l[k], n)
}

/// The product of the matrices of the list, in order; the identity for
/// the empty list.
pub open spec fn chain(l: Seq<Mat>, n: nat) -> Mat
    decreases l.len(),
{
    if l.len() == 0 {
        identity(n)
    } else {
        product(chain(l.drop_last(), n), l.last())
    }
}

/// `t` is a product of elementary factors.
pub open spec fn unit_product(t: Mat) -> bool {
    exists|l: Seq<Mat>| steps(l, t.rows()) && t == #[trigger] chain(l, t.rows())
}

/// An elementary factor is a square matrix of its size.
pub proof fn lemma_step_square(b: Mat, n: nat)
    requires
        is_step(b, n),
    ensures
        square(b),
        b.rows() == n,
{
}

/// A product of elementary factors is a square matrix of their size.
pub proof fn lemma_chain_square(l: Seq<Mat>, n: nat)
    requires
        steps(l, n),
    ensures
        square(chain(l, n)),
        chain(l, n).rows() == n,
    decreases l.len(),
{
    if l.len() > 0 {
        lemma_chain_square(l.drop_last(), n);
        lemma_step_square(l.last(), n);
    }
}

/// Multiplying a product of elementary factors by one more from the left
/// gives the product of the list with that factor in front.
pub proof fn lemma_chain_front(b: Mat, l: Seq<Mat>, n: nat)
    requires
        is_step(b, n),
        steps(l, n),
    ensures
        product(b, chain(l, n)) == chain(seq![b] + l, n),
        steps(seq![b] + l, n),
    decreases l.len(),
{
    let bl = seq![b] + l;
    lemma_step_square(b, n);
    assert forall|k: int| 0 <= k < bl.len() implies is_step(#[trigger] bl[k], n) by {
        if k > 0 {
            assert(bl[k] == l[k - 1]);
        }
    }
    if l.len() == 0 {
        assert(bl.drop_last() =~= Seq::<Mat>::empty());
        assert(bl.last() == b);
        assert(chain(bl.drop_last(), n) == identity(n));
        crate::linalg::lemma_product_identity_left(b);
        lemma_product_identity_right(b);
    } else {
        let d = l.drop_last();
        lemma_chain_front(b, d, n);
        lemma_chain_square(d, n);
        lemma_step_square(l.last(), n);
        assert(bl.drop_last() =~= seq![b] + d);
        assert(bl.last() == l.last());
        lemma_product_assoc(b, chain(d, n), l.last());
    }
}

/// Multiplying by an elementary factor from the right keeps the
/// determinant up to sign.
pub proof fn lemma_det_step(x: Mat, b: Mat)
    requires
        square(x),
        is_step(b, x.rows()),
    ensures
        det(product(x, b)) == det(x) || det(product(x, b)) == -det(x),
{
    let n = x.rows();
    if exists|i: int| 0 <= i < n && b == #[trigger] flip(n, i) {
        let i = choose|i: int| 0 <= i < n && b == #[trigger] flip(n, i);
        lemma_neg_col_is_product(x, i);
        lemma_det_neg_col(x, i);
    } else {
        let (i, j, p, q, r, s) = choose|i: int, j: int, p: int, q: int, r: int, s: int|
            0 <= i < n && 0 <= j < n && i != j && (p * s - q * r == 1 || p * s - q * r == -1) && b
                == #[trigger] block(n, i, j, p, q, r, s);
        lemma_col_op_is_product(x, i, j, p, q, r, s);
        lemma_det_col_op(x, i, j, p, q, r, s);
        let dx = det(x);
        assert(1 * dx == dx && (-1) * dx == -dx) by (nonlinear_arith);
    }
}

/// A product of elementary factors has determinant 1 or -1.
pub proof fn lemma_det_chain(l: Seq<Mat>, n: nat)
    requires
        steps(l, n),
    ensures
        det(chain(l, n)) == 1 || det(chain(l, n)) == -1,
    decreases l.len(),
{
    if l.len() == 0 {
        lemma_det_identity(n);
    } else {
        lemma_det_chain(l.drop_last(), n);
        lemma_chain_square(l.drop_last(), n);
        lemma_det_step(chain(l.drop_last(), n), l.last());
    }
}

/// The identity is the empty product.
pub proof fn lemma_unit_identity(n: nat)
    ensures
        unit_product(identity(n)),
{
    let l = Seq::<Mat>::empty();
    let id = identity(n);
    assert(id.rows() == n);
    assert(steps(l, id.rows()) && id == chain(l, id.rows()));
}

/// A product of elementary factors times one more factor, on either side,
/// is a product of elementary factors.
pub proof fn lemma_unit_times_step(t: Mat, b: Mat)
    requires
        unit_product(t),
        is_step(b, t.rows()),
    ensures
        unit_product(product(t, b)),
        unit_product(product(b, t)),
{
    let n = t.rows();
    let l = choose|l: Seq<Mat>| steps(l, n) && t == #[trigger] chain(l, n);
    let right = l.push(b);
    assert(right.drop_last() =~= l);
    assert(steps(right, n));
    let tb = product(t, b);
    assert(tb.rows() == n);
    assert(steps(right, tb.rows()) && tb == chain(right, tb.rows()));
    lemma_chain_front(b, l, n);
    lemma_step_square(b, n);
    let left = seq![b] + l;
    let bt = product(b, t);
    assert(bt.rows() == n);
    assert(steps(left, bt.rows()) && bt == chain(left, bt.rows()));
}

/// A product of elementary factors has determinant 1 or -1.
pub proof fn lemma_unit_det(t: Mat)
    requires
        unit_product(t),
    ensures
        det(t) == 1 || det(t) == -1,
{
    let l = choose|l: Seq<Mat>| steps(l, t.rows()) && t == #[trigger] chain(l, t.rows());
    lemma_det_chain(l, t.rows());
}

/// The block matrix of a square of determinant 1 or -1 is an elementary
/// factor.
pub proof fn lemma_block_is_step(n: nat, i: int, j: int, p: int, q: int, r: int, s: int)
    requires
        0 <= i < n,
        0 <= j < n,
        i != j,
        p * s - q * r == 1 || p * s - q * r == -1,
    ensures
        is_step(block(n, i, j, p, q, r, s), n),
{
}

/// The identity with one diagonal entry negated is an elementary factor.
pub proof fn lemma_flip_is_step(n: nat, i: int)
    requires
        0 <= i < n,
    ensures
        is_step(flip(n, i), n),
{
}

} // verus!
