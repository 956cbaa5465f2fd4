use vstd::prelude::*;

verus! {

/// A mathematical integer matrix: `body` holds the rows, each of length
/// `width`. A matrix with no rows still has a width.
pub struct Mat {
    pub width: nat,
    pub body: Seq<Seq<int>>,
}

impl Mat {
    pub open spec fn rows(self) -> nat {
        self.body.len()
    }

    pub open spec fn cols(self) -> nat {
        self.width
    }

    pub open spec fn at(self, i: int, j: int) -> int {
        self.body[i][j]
    }

    /// Every row has the matrix's width.
    pub open spec fn wf(self) -> bool {
        forall|i: int| 0 <= i < self.body.len() ==> (#[trigger] self.body[i]).len() == self.width
    }

    pub open spec fn has_cell(self, i: int, j: int) -> bool {
        0 <= i < self.rows() && 0 <= j < self.cols()
    }

    /// The matrix of the given shape whose entry at `(i, j)` is `f(i, j)`.
    pub open spec fn build(rows: nat, cols: nat, f: spec_fn(int, int) -> int) -> Mat {
        Mat { width: cols, body: Seq::new(rows, |i: int| Seq::new(cols, |j: int| f(i, j))) }
    }

    pub open spec fn same_shape(self, other: Mat) -> bool {
        self.rows() == other.rows() && self.cols() == other.cols()
    }

    /// The matrix with the entry at `(i, j)` replaced by `v`.
    pub open spec fn with_cell(self, i: int, j: int, v: int) -> Mat {
        Mat::build(
            self.rows(),
            self.cols(),
            |r: int, c: int|
                if r == i && c == j {
                    v
                } else {
                    self.at(r, c)
                },
        )
    }
}

/// Two well-formed matrices of one shape with the same entries are equal.
pub proof fn lemma_mat_ext(a: Mat, b: Mat)
    requires
        a.wf(),
        b.wf(),
        a.same_shape(b),
        forall|i: int, j: int| a.has_cell(i, j) ==> a.at(i, j) == b.at(i, j),
    ensures
        a == b,
{
    assert forall|i: int| 0 <= i < a.body.len() implies a.body[i] == b.body[i] by {
        assert forall|j: int| 0 <= j < a.body[i].len() implies a.body[i][j] == b.body[i][j] by {
            assert(a.has_cell(i, j));
            assert(a.at(i, j) == b.at(i, j));
        }
        assert(a.body[i] =~= b.body[i]);
    }
    assert(a.body =~= b.body);
}

/// The sum of `f(0), ..., f(n - 1)`.
pub open spec fn sum(f: spec_fn(int) -> int, n: nat) -> int
    decreases n,
{
    if n == 0 {
        0
    } else {
        sum(f, (n - 1) as nat) + f(n - 1)
    }
}

pub proof fn lemma_sum_ext(f: spec_fn(int) -> int, g: spec_fn(int) -> int, n: nat)
    requires
        forall|k: int| 0 <= k < n ==> #[trigger] f(k) == g(k),
    ensures
        sum(f, n) == sum(g, n),
    decreases n,
{
    if n > 0 {
        lemma_sum_ext(f, g, (n - 1) as nat);
    }
}

pub proof fn lemma_sum_zero(f: spec_fn(int) -> int, n: nat)
    requires
        forall|k: int| 0 <= k < n ==> #[trigger] f(k) == 0,
    ensures
        sum(f, n) == 0,
    decreases n,
{
    if n > 0 {
        lemma_sum_zero(f, (n - 1) as nat);
    }
}

pub proof fn lemma_sum_add(f: spec_fn(int) -> int, g: spec_fn(int) -> int, n: nat)
    ensures
        sum(f, n) + sum(g, n) == sum(|k: int| f(k) + g(k), n),
    decreases n,
{
    if n > 0 {
        lemma_sum_add(f, g, (n - 1) as nat);
    }
}

pub proof fn lemma_sum_scale(c: int, f: spec_fn(int) -> int, n: nat)
    ensures
        c * sum(f, n) == sum(|k: int| c * f(k), n),
    decreases n,
{
    if n > 0 {
        lemma_sum_scale(c, f, (n - 1) as nat);
        let s = sum(f, (n - 1) as nat);
        let v = f(n - 1);
        assert(c * (s + v) == c * s + c * v) by (nonlinear_arith);
    } else {
        assert(c * 0 == 0) by (nonlinear_arith);
    }
}

/// A sum whose terms vanish everywhere but at `i` is the term at `i`.
pub proof fn lemma_sum_one(f: spec_fn(int) -> int, n: nat, i: int)
    requires
        0 <= i < n,
        forall|k: int| 0 <= k < n && k != i ==> #[trigger] f(k) == 0,
    ensures
        sum(f, n) == f(i),
    decreases n,
{
    if n - 1 == i {
        lemma_sum_zero(f, (n - 1) as nat);
    } else {
        lemma_sum_one(f, (n - 1) as nat, i);
    }
}

/// A sum whose terms vanish everywhere but at `i` and `j` is the sum of
/// those two terms.
pub proof fn lemma_sum_two(f: spec_fn(int) -> int, n: nat, i: int, j: int)
    requires
        0 <= i < n,
        0 <= j < n,
        i != j,
        forall|k: int| 0 <= k < n && k != i && k != j ==> #[trigger] f(k) == 0,
    ensures
        sum(f, n) == f(i) + f(j),
    decreases n,
{
    if n - 1 == i {
        lemma_sum_one(f, (n - 1) as nat, j);
    } else if n - 1 == j {
        lemma_sum_one(f, (n - 1) as nat, i);
    } else {
        lemma_sum_two(f, (n - 1) as nat, i, j);
    }
}

/// The order of a double sum can be exchanged.
pub proof fn lemma_sum_swap(h: spec_fn(int, int) -> int, n: nat, p: nat)
    ensures
        sum(|k: int| sum(|j: int| h(j, k), n), p) == sum(|j: int| sum(|k: int| h(j, k), p), n),
    decreases p,
{
    let outer_k = |k: int| sum(|j: int| h(j, k), n);
    let outer_j = |j: int| sum(|k: int| h(j, k), p);
    if p == 0 {
        lemma_sum_zero(outer_j, n);
    } else {
        let q = (p - 1) as nat;
        lemma_sum_swap(h, n, q);
        let prev_j = |j: int| sum(|k: int| h(j, k), q);
        let last = |j: int| h(j, p - 1);
        assert(sum(outer_k, q) == sum(prev_j, n));
        assert(outer_k(p - 1) == sum(last, n));
        lemma_sum_add(prev_j, last, n);
        lemma_sum_ext(|j: int| prev_j(j) + last(j), outer_j, n);
    }
}

/// The dot product of row `i` of `a` with column `j` of `b`.
pub open spec fn dot(a: Mat, b: Mat, i: int, j: int) -> int {
    sum(|k: int| a.at(i, k) * b.at(k, j), a.cols())
}

/// The matrix product `a * b`.
pub open spec fn product(a: Mat, b: Mat) -> Mat {
    Mat::build(a.rows(), b.cols(), |i: int, j: int| dot(a, b, i, j))
}

/// The identity matrix of size `n`.
pub open spec fn identity(n: nat) -> Mat {
    Mat::build(
        n,
        n,
        |i: int, j: int|
            if i == j {
                1int
            } else {
                0int
            },
    )
}

/// The identity of size `n` with the square formed by rows and columns `i`
/// and `j` replaced by `[[a, b], [c, d]]`.
pub open spec fn block(n: nat, i: int, j: int, a: int, b: int, c: int, d: int) -> Mat {
    Mat::build(
        n,
        n,
        |r: int, k: int|
            if r == i && k == i {
                a
            } else if r == i && k == j {
                b
            } else if r == j && k == i {
                c
            } else if r == j && k == j {
                d
            } else if r == k {
                1int
            } else {
                0int
            },
    )
}

/// Rows `i` and `j` replaced by `a * row_i + b * row_j` and
/// `c * row_i + d * row_j`.
pub open spec fn row_op(m: Mat, i: int, j: int, a: int, b: int, c: int, d: int) -> Mat {
    Mat::build(
        m.rows(),
        m.cols(),
        |r: int, k: int|
            if r == i {
                a * m.at(i, k) + b * m.at(j, k)
            } else if r == j {
                c * m.at(i, k) + d * m.at(j, k)
            } else {
                m.at(r, k)
            },
    )
}

/// Columns `i` and `j` replaced by `a * col_i + c * col_j` and
/// `b * col_i + d * col_j`.
pub open spec fn col_op(m: Mat, i: int, j: int, a: int, b: int, c: int, d: int) -> Mat {
    Mat::build(
        m.rows(),
        m.cols(),
        |r: int, k: int|
            if k == i {
                a * m.at(r, i) + c * m.at(r, j)
            } else if k == j {
                b * m.at(r, i) + d * m.at(r, j)
            } else {
                m.at(r, k)
            },
    )
}

pub proof fn lemma_product_identity_left(m: Mat)
    requires
        m.wf(),
    ensures
        product(identity(m.rows()), m) == m,
{
    let id = identity(m.rows());
    let p = product(id, m);
    assert forall|i: int, j: int| p.has_cell(i, j) implies p.at(i, j) == m.at(i, j) by {
        let f = |k: int| id.at(i, k) * m.at(k, j);
        assert forall|k: int| 0 <= k < m.rows() && k != i implies #[trigger] f(k) == 0 by {
            assert(0 * m.at(k, j) == 0) by (nonlinear_arith);
        }
        lemma_sum_one(f, m.rows(), i);
        assert(1 * m.at(i, j) == m.at(i, j)) by (nonlinear_arith);
    }
    lemma_mat_ext(p, m);
}

pub proof fn lemma_product_identity_right(m: Mat)
    requires
        m.wf(),
    ensures
        product(m, identity(m.cols())) == m,
{
    let id = identity(m.cols());
    let p = product(m, id);
    assert forall|i: int, j: int| p.has_cell(i, j) implies p.at(i, j) == m.at(i, j) by {
        let f = |k: int| m.at(i, k) * id.at(k, j);
        assert forall|k: int| 0 <= k < m.cols() && k != j implies #[trigger] f(k) == 0 by {
            assert(m.at(i, k) * 0 == 0) by (nonlinear_arith);
        }
        lemma_sum_one(f, m.cols(), j);
        assert(m.at(i, j) * 1 == m.at(i, j)) by (nonlinear_arith);
    }
    lemma_mat_ext(p, m);
}

/// Matrix multiplication is associative.
pub proof fn lemma_product_assoc(a: Mat, b: Mat, c: Mat)
    requires
        a.wf(),
        b.wf(),
        c.wf(),
        a.cols() == b.rows(),
        b.cols() == c.rows(),
    ensures
        product(product(a, b), c) == product(a, product(b, c)),
{
    let ab = product(a, b);
    let bc = product(b, c);
    let l = product(ab, c);
    let r = product(a, bc);
    let n = a.cols();
    let p = b.cols();
    assert forall|i: int, j: int| l.has_cell(i, j) implies l.at(i, j) == r.at(i, j) by {
        let h = |x: int, k: int| a.at(i, x) * b.at(x, k) * c.at(k, j);
        let lf = |k: int| ab.at(i, k) * c.at(k, j);
        let lg = |k: int| sum(|x: int| h(x, k), n);
        assert forall|k: int| 0 <= k < p implies #[trigger] lf(k) == lg(k) by {
            let inner = |x: int| a.at(i, x) * b.at(x, k);
            assert(ab.at(i, k) == sum(inner, n));
            lemma_sum_scale(c.at(k, j), inner, n);
            assert(ab.at(i, k) * c.at(k, j) == c.at(k, j) * sum(inner, n)) by (nonlinear_arith)
                requires
                    ab.at(i, k) == sum(inner, n),
            ;
            let scaled = |x: int| c.at(k, j) * inner(x);
            let slice = |x: int| h(x, k);
            assert forall|x: int| 0 <= x < n implies #[trigger] scaled(x) == slice(x) by {
                assert(c.at(k, j) * (a.at(i, x) * b.at(x, k)) == a.at(i, x) * b.at(x, k) * c.at(
                    k,
                    j,
                )) by (nonlinear_arith);
            }
            lemma_sum_ext(scaled, slice, n);
        }
        lemma_sum_ext(lf, lg, p);
        lemma_sum_swap(h, n, p);
        let rf = |x: int| a.at(i, x) * bc.at(x, j);
        let rg = |x: int| sum(|k: int| h(x, k), p);
        assert forall|x: int| 0 <= x < n implies #[trigger] rf(x) == rg(x) by {
            let inner = |k: int| b.at(x, k) * c.at(k, j);
            assert(bc.at(x, j) == sum(inner, p));
            lemma_sum_scale(a.at(i, x), inner, p);
            let scaled = |k: int| a.at(i, x) * inner(k);
            let slice = |k: int| h(x, k);
            assert forall|k: int| 0 <= k < p implies #[trigger] scaled(k) == slice(k) by {
                assert(a.at(i, x) * (b.at(x, k) * c.at(k, j)) == a.at(i, x) * b.at(x, k) * c.at(
                    k,
                    j,
                )) by (nonlinear_arith);
            }
            lemma_sum_ext(scaled, slice, p);
        }
        lemma_sum_ext(rf, rg, n);
        assert(l.at(i, j) == sum(lf, p));
        assert(r.at(i, j) == sum(rf, n));
    }
    lemma_mat_ext(l, r);
}

/// A row operation is a multiplication by a block matrix from the left.
pub proof fn lemma_row_op_is_product(m: Mat, i: int, j: int, a: int, b: int, c: int, d: int)
    requires
        m.wf(),
        0 <= i < m.rows(),
        0 <= j < m.rows(),
        i != j,
    ensures
        row_op(m, i, j, a, b, c, d) == product(block(m.rows(), i, j, a, b, c, d), m),
{
    let n = m.rows();
    let e = block(n, i, j, a, b, c, d);
    let l = row_op(m, i, j, a, b, c, d);
    let r = product(e, m);
    assert forall|x: int, y: int| l.has_cell(x, y) implies l.at(x, y) == r.at(x, y) by {
        let f = |k: int| e.at(x, k) * m.at(k, y);
        assert(r.at(x, y) == sum(f, n));
        assert forall|k: int| 0 <= k < n && e.at(x, k) == 0 implies #[trigger] f(k) == 0 by {
            assert(0 * m.at(k, y) == 0) by (nonlinear_arith);
        }
        if x == i || x == j {
            lemma_sum_two(f, n, i, j);
        } else {
            lemma_sum_one(f, n, x);
            assert(1 * m.at(x, y) == m.at(x, y)) by (nonlinear_arith);
        }
    }
    lemma_mat_ext(l, r);
}

/// A column operation is a multiplication by a block matrix from the right.
pub proof fn lemma_col_op_is_product(m: Mat, i: int, j: int, a: int, b: int, c: int, d: int)
    requires
        m.wf(),
        0 <= i < m.cols(),
        0 <= j < m.cols(),
        i != j,
    ensures
        col_op(m, i, j, a, b, c, d) == product(m, block(m.cols(), i, j, a, b, c, d)),
{
    let n = m.cols();
    let e = block(n, i, j, a, b, c, d);
    let l = col_op(m, i, j, a, b, c, d);
    let r = product(m, e);
    assert forall|x: int, y: int| l.has_cell(x, y) implies l.at(x, y) == r.at(x, y) by {
        let f = |k: int| m.at(x, k) * e.at(k, y);
        assert(r.at(x, y) == sum(f, n));
        assert forall|k: int| 0 <= k < n && e.at(k, y) == 0 implies #[trigger] f(k) == 0 by {
            assert(m.at(x, k) * 0 == 0) by (nonlinear_arith);
        }
        if y == i {
            lemma_sum_two(f, n, i, j);
            assert(m.at(x, i) * a == a * m.at(x, i) && m.at(x, j) * c == c * m.at(x, j))
                by (nonlinear_arith);
        } else if y == j {
            lemma_sum_two(f, n, i, j);
            assert(m.at(x, i) * b == b * m.at(x, i) && m.at(x, j) * d == d * m.at(x, j))
                by (nonlinear_arith);
        } else {
            lemma_sum_one(f, n, y);
            assert(m.at(x, y) * 1 == m.at(x, y)) by (nonlinear_arith);
        }
    }
    lemma_mat_ext(l, r);
}

/// The product of two block matrices on the same pair of indices is the
/// block matrix of the product of their squares.
pub proof fn lemma_block_product(
    n: nat,
    i: int,
    j: int,
    a1: int,
    b1: int,
    c1: int,
    d1: int,
    a2: int,
    b2: int,
    c2: int,
    d2: int,
)
    requires
        0 <= i < n,
        0 <= j < n,
        i != j,
    ensures
        product(block(n, i, j, a1, b1, c1, d1), block(n, i, j, a2, b2, c2, d2)) == block(
            n,
            i,
            j,
            a1 * a2 + b1 * c2,
            a1 * b2 + b1 * d2,
            c1 * a2 + d1 * c2,
            c1 * b2 + d1 * d2,
        ),
{
    let e2 = block(n, i, j, a2, b2, c2, d2);
    let l = row_op(e2, i, j, a1, b1, c1, d1);
    let r = block(
        n,
        i,
        j,
        a1 * a2 + b1 * c2,
        a1 * b2 + b1 * d2,
        c1 * a2 + d1 * c2,
        c1 * b2 + d1 * d2,
    );
    lemma_row_op_is_product(e2, i, j, a1, b1, c1, d1);
    assert forall|x: int, y: int| l.has_cell(x, y) implies l.at(x, y) == r.at(x, y) by {
        assert(a1 * 0 == 0 && b1 * 0 == 0 && c1 * 0 == 0 && d1 * 0 == 0) by (nonlinear_arith);
    }
    lemma_mat_ext(l, r);
}

pub proof fn lemma_block_identity(n: nat, i: int, j: int)
    requires
        0 <= i < n,
        0 <= j < n,
        i != j,
    ensures
        block(n, i, j, 1, 0, 0, 1) == identity(n),
{
    lemma_mat_ext(block(n, i, j, 1, 0, 0, 1), identity(n));
}

/// The identity of size `n` with the entry at `(i, i)` replaced by `-1`.
pub open spec fn flip(n: nat, i: int) -> Mat {
    Mat::build(
        n,
        n,
        |r: int, k: int|
            if r != k {
                0int
            } else if r == i {
                -1int
            } else {
                1int
            },
    )
}

/// Row `i` negated.
pub open spec fn neg_row(m: Mat, i: int) -> Mat {
    Mat::build(
        m.rows(),
        m.cols(),
        |r: int, k: int|
            if r == i {
                -m.at(r, k)
            } else {
                m.at(r, k)
            },
    )
}

/// Column `i` negated.
pub open spec fn neg_col(m: Mat, i: int) -> Mat {
    Mat::build(
        m.rows(),
        m.cols(),
        |r: int, k: int|
            if k == i {
                -m.at(r, k)
            } else {
                m.at(r, k)
            },
    )
}

pub proof fn lemma_neg_row_is_product(m: Mat, i: int)
    requires
        m.wf(),
        0 <= i < m.rows(),
    ensures
        neg_row(m, i) == product(flip(m.rows(), i), m),
{
    let n = m.rows();
    let e = flip(n, i);
    let l = neg_row(m, i);
    let r = product(e, m);
    assert forall|x: int, y: int| l.has_cell(x, y) implies l.at(x, y) == r.at(x, y) by {
        let f = |k: int| e.at(x, k) * m.at(k, y);
        assert forall|k: int| 0 <= k < n && k != x implies #[trigger] f(k) == 0 by {
            assert(0 * m.at(k, y) == 0) by (nonlinear_arith);
        }
        lemma_sum_one(f, n, x);
        assert(1 * m.at(x, y) == m.at(x, y) && (-1) * m.at(x, y) == -m.at(x, y))
            by (nonlinear_arith);
    }
    lemma_mat_ext(l, r);
}

pub proof fn lemma_neg_col_is_product(m: Mat, i: int)
    requires
        m.wf(),
        0 <= i < m.cols(),
    ensures
        neg_col(m, i) == product(m, flip(m.cols(), i)),
{
    let n = m.cols();
    let e = flip(n, i);
    let l = neg_col(m, i);
    let r = product(m, e);
    assert forall|x: int, y: int| l.has_cell(x, y) implies l.at(x, y) == r.at(x, y) by {
        let f = |k: int| m.at(x, k) * e.at(k, y);
        assert forall|k: int| 0 <= k < n && k != y implies #[trigger] f(k) == 0 by {
            assert(m.at(x, k) * 0 == 0) by (nonlinear_arith);
        }
        lemma_sum_one(f, n, y);
        assert(m.at(x, y) * 1 == m.at(x, y) && m.at(x, y) * (-1) == -m.at(x, y))
            by (nonlinear_arith);
    }
    lemma_mat_ext(l, r);
}

pub proof fn lemma_flip_squared(n: nat, i: int)
    requires
        0 <= i < n,
    ensures
        product(flip(n, i), flip(n, i)) == identity(n),
{
    let e = flip(n, i);
    lemma_neg_row_is_product(e, i);
    lemma_mat_ext(neg_row(e, i), identity(n));
}

/// `inv` is a two-sided inverse of the square matrix `m`.
pub open spec fn inverse_pair(m: Mat, inv: Mat) -> bool {
    &&& m.wf()
    &&& inv.wf()
    &&& m.rows() == m.cols()
    &&& inv.rows() == m.rows()
    &&& inv.cols() == m.rows()
    &&& product(m, inv) == identity(m.rows())
    &&& product(inv, m) == identity(m.rows())
}

/// The square integer matrix `m` has a two-sided integer inverse.
pub open spec fn invertible(m: Mat) -> bool {
    exists|inv: Mat| inverse_pair(m, inv)
}

pub proof fn lemma_identity_invertible(n: nat)
    ensures
        invertible(identity(n)),
{
    lemma_product_identity_left(identity(n));
    assert(inverse_pair(identity(n), identity(n)));
}

/// Multiplying by matrices whose product is the identity cancels:
/// `(s * u) * (v * a) == s * a`.
pub proof fn lemma_cancel_middle(s: Mat, u: Mat, v: Mat, a: Mat)
    requires
        s.wf(),
        u.wf(),
        v.wf(),
        a.wf(),
        s.cols() == a.rows(),
        u.rows() == s.cols() && u.cols() == s.cols(),
        v.rows() == s.cols() && v.cols() == s.cols(),
        product(u, v) == identity(s.cols()),
    ensures
        product(product(s, u), product(v, a)) == product(s, a),
{
    let va = product(v, a);
    lemma_product_assoc(s, u, va);
    lemma_product_assoc(u, v, a);
    lemma_product_identity_left(a);
}

/// The product of two matrices with integer inverses has an integer
/// inverse, on either side.
pub proof fn lemma_invertible_product(m: Mat, u: Mat, v: Mat)
    requires
        invertible(m),
        inverse_pair(u, v),
        u.rows() == m.rows(),
    ensures
        invertible(product(m, u)),
        invertible(product(u, m)),
{
    let inv = choose|inv: Mat| inverse_pair(m, inv);
    let n = m.rows();
    // (m u)(v inv) = m inv and (v inv)(m u) = v u
    lemma_cancel_middle(m, u, v, inv);
    lemma_product_assoc(v, inv, product(m, u));
    lemma_product_assoc(inv, m, u);
    lemma_product_identity_left(u);
    assert(inverse_pair(product(m, u), product(v, inv)));
    // (u m)(inv v) = u v and (inv v)(u m) = inv m
    lemma_cancel_middle(inv, v, u, m);
    lemma_product_assoc(u, m, product(inv, v));
    lemma_product_assoc(m, inv, v);
    lemma_product_identity_left(v);
    assert(inverse_pair(product(u, m), product(inv, v)));
}

/// The product of three matrices, as in a decomposition `s * a * t`.
pub open spec fn product3(s: Mat, a: Mat, t: Mat) -> Mat {
    product(product(s, a), t)
}

} // verus!
