use crate::bits::{lemma_popcount_update, popcount};
use crate::complex_model::{
    boundary_matrix, coefficient, face, is_face, is_face_at, lemma_coefficient_at, lemma_face,
    lemma_select, rank, select, sign_of, well_formed,
};
use crate::linalg::{lemma_mat_ext, lemma_sum_two, lemma_sum_zero, Mat, product};
use vstd::prelude::*;

verus! {

/// The zero matrix of a shape.
pub open spec fn zero_matrix(rows: nat, cols: nat) -> Mat {
    Mat::build(rows, cols, |i: int, j: int| 0int)
}

/// Removing a vertex lowers the rank of the vertices after it by one, and
/// keeps that of the others.
pub proof fn lemma_rank_of_face(s: Seq<bool>, v: int, u: int)
    requires
        0 <= v < s.len(),
        0 <= u <= s.len(),
        s[v],
    ensures
        rank(face(s, v), u) + (if v < u { 1int } else { 0int }) == rank(s, u),
{
    if v < u {
        assert(face(s, v).take(u) =~= s.take(u).update(v, false));
        lemma_popcount_update(s.take(u), v, false);
    } else {
        assert(face(s, v).take(u) =~= s.take(u));
    }
}

/// The signs of the two ways from a simplex to a face of a face of it are
/// opposite.
pub proof fn lemma_opposite_signs(s: Seq<bool>, u: int, v: int)
    requires
        0 <= u < s.len(),
        0 <= v < s.len(),
        u != v,
        s[u],
        s[v],
    ensures
        sign_of(rank(face(s, v), u)) * sign_of(rank(s, v)) + sign_of(rank(face(s, u), v)) * sign_of(
            rank(s, u),
        ) == 0,
{
    lemma_rank_of_face(s, v, u);
    lemma_rank_of_face(s, u, v);
    let ru = rank(s, u) as int;
    let rv = rank(s, v) as int;
    if u < v {
        assert(rank(face(s, v), u) == ru);
        assert(rank(face(s, u), v) == rv - 1);
    } else {
        assert(rank(face(s, v), u) == ru - 1);
        assert(rank(face(s, u), v) == rv);
    }
}

/// Removing two vertices in either order gives the same face.
pub proof fn lemma_faces_commute(s: Seq<bool>, u: int, v: int)
    requires
        0 <= u < s.len(),
        0 <= v < s.len(),
    ensures
        face(face(s, v), u) == face(face(s, u), v),
{
    assert(face(face(s, v), u) =~= face(face(s, u), v));
}

/// The boundary of a boundary is zero: in a complex, the product of the
/// boundary map into the simplices of `p` vertices and the boundary map
/// into the simplices of `p + 1` vertices is the zero matrix.
pub proof fn lemma_boundary_squared(c: Seq<Seq<bool>>, n: nat, p: nat)
    requires
        well_formed(c, n),
    ensures
        product(boundary_matrix(c, p), boundary_matrix(c, p + 1)) == zero_matrix(
            select(c, p).len(),
            select(c, p + 2).len(),
        ),
{
    let low = boundary_matrix(c, p);
    let high = boundary_matrix(c, p + 1);
    let faces = select(c, p);
    let mid = select(c, p + 1);
    let top = select(c, p + 2);
    let prod = product(low, high);
    let zero = zero_matrix(faces.len(), top.len());
    lemma_select(c, p);
    lemma_select(c, p + 1);
    lemma_select(c, p + 2);
    assert forall|i: int, j: int| prod.has_cell(i, j) implies prod.at(i, j) == zero.at(i, j) by {
        let r = faces[i];
        let s = top[j];
        let f = |x: int| low.at(i, x) * high.at(x, j);
        assert(prod.at(i, j) == crate::linalg::sum(f, mid.len()));
        assert forall|x: int| 0 <= x < mid.len() implies #[trigger] f(x) == coefficient(r, mid[x])
            * coefficient(mid[x], s) by {}
        if exists|x: int| 0 <= x < mid.len() && #[trigger] f(x) != 0 {
            let x = choose|x: int| 0 <= x < mid.len() && #[trigger] f(x) != 0;
            let t = mid[x];
            assert(coefficient(r, t) != 0 && coefficient(t, s) != 0) by (nonlinear_arith)
                requires
                    coefficient(r, t) * coefficient(t, s) != 0,
            ;
            assert(is_face(r, t));
            assert(is_face(t, s));
            let u = choose|u: int| is_face_at(r, t, u);
            let v = choose|v: int| is_face_at(t, s, v);
            assert(u != v);
            assert(s[u]);
            let t2 = face(s, u);
            lemma_faces_commute(s, u, v);
            assert(is_face_at(t2, s, u));
            assert(is_face_at(r, t2, v));
            // the other way is in the complex
            assert(c.contains(s));
            let w = choose|w: int| 0 <= w < c.len() && c[w] == s;
            lemma_face(s, u);
            assert(c.contains(face(c[w], u)));
            assert(mid.contains(t2)) by {
                let y = choose|y: int| 0 <= y < c.len() && c[y] == t2;
                assert(popcount(c[y]) == p + 1);
            }
            let x2 = choose|x2: int| 0 <= x2 < mid.len() && mid[x2] == t2;
            assert(t2[u] == false && t[u] == true);
            assert(x2 != x);
            // no third way
            assert forall|y: int| 0 <= y < mid.len() && y != x && y != x2 implies #[trigger] f(y)
                == 0 by {
                let t3 = mid[y];
                if coefficient(r, t3) != 0 && coefficient(t3, s) != 0 {
                    assert(is_face(r, t3));
                    assert(is_face(t3, s));
                    let u3 = choose|u3: int| is_face_at(r, t3, u3);
                    let v3 = choose|v3: int| is_face_at(t3, s, v3);
                    assert(s[v3] && !r[v3]);
                    assert(forall|z: int| 0 <= z < s.len() && z != u && z != v ==> r[z] == s[z]);
                    assert(v3 == u || v3 == v);
                    assert(t3 == t || t3 == t2);
                    assert(false);
                } else {
                    assert(coefficient(r, t3) * coefficient(t3, s) == 0) by (nonlinear_arith)
                        requires
                            coefficient(r, t3) == 0 || coefficient(t3, s) == 0,
                    ;
                }
            }
            lemma_sum_two(f, mid.len(), x, x2);
            lemma_coefficient_at(r, t, u);
            lemma_coefficient_at(t, s, v);
            lemma_coefficient_at(r, t2, v);
            lemma_coefficient_at(t2, s, u);
            lemma_opposite_signs(s, u, v);
        } else {
            lemma_sum_zero(f, mid.len());
        }
    }
    lemma_mat_ext(prod, zero);
}

} // verus!
