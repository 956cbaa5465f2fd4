use crate::bits::{lemma_popcount_bound, lemma_popcount_update, lemma_popcount_zero, popcount};
use crate::linalg::Mat;
use vstd::prelude::*;

verus! {

/// Every vertex of `a` is a vertex of `b`, over the same range.
pub open spec fn subset(a: Seq<bool>, b: Seq<bool>) -> bool {
    a.len() == b.len() && forall|v: int| 0 <= v < a.len() && a[v] ==> b[v]
}

/// The face of `s` opposite to vertex `v`: `s` without `v`.
pub open spec fn face(s: Seq<bool>, v: int) -> Seq<bool> {
    s.update(v, false)
}

/// The number of vertices of `s` that are less than `v`.
pub open spec fn rank(s: Seq<bool>, v: int) -> nat {
    popcount(s.take(v))
}

/// The set of the listed vertices, over the range `0..n`.
pub open spec fn mask_of(points: Seq<usize>, n: nat) -> Seq<bool> {
    Seq::new(n, |v: int| exists|k: int| 0 <= k < points.len() && #[trigger] points[k] == v)
}

/// `n` is one more than the largest vertex that occurs in `facets`.
pub open spec fn is_vertex_count(facets: Seq<Seq<usize>>, n: nat) -> bool {
    &&& forall|i: int, k: int|
        0 <= i < facets.len() && 0 <= k < facets[i].len() ==> #[trigger] facets[i][k] < n
    &&& exists|i: int, k: int|
        0 <= i < facets.len() && 0 <= k < facets[i].len() && #[trigger] facets[i][k] + 1 == n
}

/// The input holds at least one facet, and every facet at least one vertex.
pub open spec fn valid_facets(facets: Seq<Seq<usize>>) -> bool {
    facets.len() > 0 && forall|i: int| 0 <= i < facets.len() ==> (#[trigger] facets[i]).len() > 0
}

/// `s` is a simplex of the complex that `facets` generate over `n`
/// vertices: a nonempty subset of one of them.
pub open spec fn is_simplex_of(s: Seq<bool>, facets: Seq<Seq<usize>>, n: nat) -> bool {
    &&& s.len() == n
    &&& popcount(s) >= 1
    &&& exists|i: int| 0 <= i < facets.len() && subset(s, #[trigger] mask_of(facets[i], n))
}

/// `c` lists the simplices of a complex over `n` vertices: each is a
/// nonempty set over that range, none occurs twice, and with each simplex
/// of two or more vertices the list holds all its faces.
pub open spec fn well_formed(c: Seq<Seq<bool>>, n: nat) -> bool {
    &&& c.len() > 0
    &&& forall|i: int| 0 <= i < c.len() ==> (#[trigger] c[i]).len() == n
    &&& forall|i: int| 0 <= i < c.len() ==> popcount(#[trigger] c[i]) >= 1
    &&& forall|i: int, j: int| 0 <= i < c.len() && 0 <= j < c.len() && i != j ==> c[i] != c[j]
    &&& forall|i: int, v: int|
        0 <= i < c.len() && 0 <= v < n && c[i][v] && popcount(c[i]) >= 2 ==> c.contains(
            #[trigger] face(c[i], v),
        )
}

/// The simplices of `c` with `p` vertices, in the order of `c`.
pub open spec fn select(c: Seq<Seq<bool>>, p: nat) -> Seq<Seq<bool>>
    decreases c.len(),
{
    if c.len() == 0 {
        Seq::empty()
    } else {
        let rest = select(c.drop_last(), p);
        if popcount(c.last()) == p {
            rest.push(c.last())
        } else {
            rest
        }
    }
}

/// `t` is the face of `s` opposite to its vertex `v`.
pub open spec fn is_face_at(t: Seq<bool>, s: Seq<bool>, v: int) -> bool {
    0 <= v < s.len() && s[v] && t == face(s, v)
}

/// `t` is a face of `s`.
pub open spec fn is_face(t: Seq<bool>, s: Seq<bool>) -> bool {
    exists|v: int| is_face_at(t, s, v)
}

/// The sign of the face opposite to the vertex of rank `r`: `(-1)^r`.
pub open spec fn sign_of(r: nat) -> int {
    if r % 2 == 0 {
        1
    } else {
        -1
    }
}

/// The coefficient of `t` in the boundary of `s`: `(-1)^r` where `t` is the
/// face of `s` opposite to its vertex of rank `r`, and 0 where `t` is no
/// face of `s`.
pub open spec fn coefficient(t: Seq<bool>, s: Seq<bool>) -> int {
    if is_face(t, s) {
        sign_of(rank(s, choose|v: int| is_face_at(t, s, v)))
    } else {
        0
    }
}

/// The boundary matrix from the simplices with `p + 1` vertices to those
/// with `p` vertices: rows and columns follow the order of `c`.
pub open spec fn boundary_matrix(c: Seq<Seq<bool>>, p: nat) -> Mat {
    Mat::build(
        select(c, p).len(),
        select(c, p + 1).len(),
        |i: int, j: int| coefficient(select(c, p)[i], select(c, p + 1)[j]),
    )
}

/// The rank grows by one past a vertex of `s`, and stays past a non-vertex.
pub proof fn lemma_rank_step(s: Seq<bool>, v: int)
    requires
        0 <= v < s.len(),
    ensures
        rank(s, v + 1) == rank(s, v) + (if s[v] { 1nat } else { 0nat }),
        rank(s, 0) == 0,
        rank(s, s.len() as int) == popcount(s),
{
    assert(s.take(v + 1).drop_last() =~= s.take(v));
    assert(s.take(s.len() as int) =~= s);
    assert(s.take(0).len() == 0);
}

/// The rank of a vertex is less than the number of vertices.
pub proof fn lemma_rank_bound(s: Seq<bool>, v: int)
    requires
        0 <= v < s.len(),
        s[v],
    ensures
        rank(s, v) < popcount(s),
    decreases s.len() - v,
{
    lemma_rank_step(s, v);
    lemma_rank_monotone(s, v + 1, s.len() as int);
}

/// The rank does not fall as the position grows.
pub proof fn lemma_rank_monotone(s: Seq<bool>, u: int, v: int)
    requires
        0 <= u <= v <= s.len(),
    ensures
        rank(s, u) <= rank(s, v),
    decreases v - u,
{
    if u < v {
        lemma_rank_step(s, v - 1);
        lemma_rank_monotone(s, u, v - 1);
    }
}

/// A face is opposite to one vertex only.
pub proof fn lemma_face_vertex_unique(t: Seq<bool>, s: Seq<bool>, u: int, v: int)
    requires
        is_face_at(t, s, u),
        is_face_at(t, s, v),
    ensures
        u == v,
{
    if u != v {
        assert(face(s, u)[v] == s[v]);
        assert(face(s, v)[v] == false);
    }
}

/// The coefficient of the face opposite to `v` is the sign of the rank of `v`.
pub proof fn lemma_coefficient_at(t: Seq<bool>, s: Seq<bool>, v: int)
    requires
        is_face_at(t, s, v),
    ensures
        coefficient(t, s) == sign_of(rank(s, v)),
{
    let w = choose|w: int| is_face_at(t, s, w);
    lemma_face_vertex_unique(t, s, v, w);
}

/// A face has one vertex less, and is a subset.
pub proof fn lemma_face(s: Seq<bool>, v: int)
    requires
        0 <= v < s.len(),
        s[v],
    ensures
        popcount(face(s, v)) + 1 == popcount(s),
        subset(face(s, v), s),
        face(s, v).len() == s.len(),
{
    lemma_popcount_update(s, v, false);
}

/// Subsets of a set are subsets of what it is a subset of.
pub proof fn lemma_subset_transitive(a: Seq<bool>, b: Seq<bool>, c: Seq<bool>)
    requires
        subset(a, b),
        subset(b, c),
    ensures
        subset(a, c),
{
}

/// What `select` holds: exactly the members of `c` with `p` vertices, and
/// none of them twice where `c` holds none twice.
pub proof fn lemma_select(c: Seq<Seq<bool>>, p: nat)
    ensures
        forall|k: int|
            0 <= k < select(c, p).len() ==> popcount(#[trigger] select(c, p)[k]) == p && c.contains(
                select(c, p)[k],
            ),
        forall|i: int|
            0 <= i < c.len() && popcount(#[trigger] c[i]) == p ==> select(c, p).contains(c[i]),
        (forall|i: int, j: int| 0 <= i < c.len() && 0 <= j < c.len() && i != j ==> c[i] != c[j])
            ==> (forall|i: int, j: int|
            0 <= i < select(c, p).len() && 0 <= j < select(c, p).len() && i != j ==> select(c, p)[i]
                != select(c, p)[j]),
        select(c, p).len() <= c.len(),
    decreases c.len(),
{
    if c.len() > 0 {
        let d = c.drop_last();
        let rest = select(d, p);
        let sel = select(c, p);
        lemma_select(d, p);
        assert forall|k: int| 0 <= k < sel.len() implies popcount(#[trigger] sel[k]) == p
            && c.contains(sel[k]) by {
            if k < rest.len() {
                assert(sel[k] == rest[k]);
                assert(d.contains(rest[k]));
                let x = choose|x: int| 0 <= x < d.len() && d[x] == rest[k];
                assert(c[x] == rest[k]);
            } else {
                assert(sel[k] == c.last());
                assert(c[c.len() - 1] == c.last());
            }
        }
        assert forall|i: int| 0 <= i < c.len() && popcount(#[trigger] c[i]) == p implies sel.contains(
            c[i],
        ) by {
            if i < d.len() {
                assert(d[i] == c[i]);
                assert(rest.contains(d[i]));
                let x = choose|x: int| 0 <= x < rest.len() && rest[x] == d[i];
                assert(sel[x] == c[i]);
            } else {
                assert(sel[sel.len() - 1] == c[i]);
            }
        }
        if forall|i: int, j: int| 0 <= i < c.len() && 0 <= j < c.len() && i != j ==> c[i] != c[j] {
            assert forall|i: int, j: int| 0 <= i < d.len() && 0 <= j < d.len() && i != j implies d[i]
                != d[j] by {
                assert(d[i] == c[i] && d[j] == c[j]);
            }
            assert forall|i: int, j: int|
                0 <= i < sel.len() && 0 <= j < sel.len() && i != j implies sel[i] != sel[j] by {
                if i < rest.len() && j < rest.len() {
                    assert(sel[i] == rest[i] && sel[j] == rest[j]);
                } else {
                    let small = if i < rest.len() { i } else { j };
                    assert(small < rest.len());
                    assert(d.contains(rest[small]));
                    let x = choose|x: int| 0 <= x < d.len() && d[x] == rest[small];
                    assert(c[x] == rest[small]);
                    assert(c[c.len() - 1] == c.last());
                }
            }
        }
    }
}

/// A well-formed list holds every nonempty subset of each of its members.
pub proof fn lemma_closed_under_subsets(c: Seq<Seq<bool>>, n: nat, t: Seq<bool>, s: Seq<bool>)
    requires
        well_formed(c, n),
        c.contains(s),
        subset(t, s),
        popcount(t) >= 1,
    ensures
        c.contains(t),
    decreases popcount(s),
{
    let i = choose|i: int| 0 <= i < c.len() && c[i] == s;
    if t =~= s {
    } else {
        // some vertex of s is not in t
        let v = choose|v: int| 0 <= v < s.len() && s[v] != t[v];
        assert(s[v] && !t[v]);
        lemma_face(s, v);
        let f = face(s, v);
        assert(subset(t, f));
        // t is nonempty, so s has another vertex
        lemma_popcount_zero(t);
        let u = choose|u: int| 0 <= u < t.len() && t[u];
        assert(f[u]);
        lemma_popcount_zero(f);
        assert(popcount(f) >= 1);
        assert(popcount(s) >= 2);
        assert(c.contains(face(c[i], v)));
        lemma_closed_under_subsets(c, n, t, f);
    }
}

/// Two vertices of one rank are the same vertex.
pub proof fn lemma_rank_injective(s: Seq<bool>, u: int, v: int)
    requires
        0 <= u < s.len(),
        0 <= v < s.len(),
        s[u],
        s[v],
        rank(s, u) == rank(s, v),
    ensures
        u == v,
{
    if u < v {
        lemma_rank_step(s, u);
        lemma_rank_monotone(s, u + 1, v);
    } else if v < u {
        lemma_rank_step(s, v);
        lemma_rank_monotone(s, v + 1, u);
    }
}

/// Some vertex in `facets` is `limit` or more.
pub open spec fn exceeds(facets: Seq<Seq<usize>>, limit: nat) -> bool {
    exists|i: int, k: int|
        0 <= i < facets.len() && 0 <= k < facets[i].len() && #[trigger] facets[i][k] >= limit
}

/// `d` is the dimension of the complex: one less than the largest number
/// of vertices of a simplex.
pub open spec fn is_dimension(c: Seq<Seq<bool>>, d: nat) -> bool {
    &&& forall|i: int| 0 <= i < c.len() ==> popcount(#[trigger] c[i]) <= d + 1
    &&& exists|i: int| 0 <= i < c.len() && popcount(#[trigger] c[i]) == d + 1
}

/// Selecting from a list extended by one simplex.
pub proof fn lemma_select_step(c: Seq<Seq<bool>>, i: int, p: nat)
    requires
        0 <= i < c.len(),
    ensures
        select(c.take(i + 1), p) == (if popcount(c[i]) == p {
            select(c.take(i), p).push(c[i])
        } else {
            select(c.take(i), p)
        }),
        select(c.take(0), p).len() == 0,
        select(c.take(c.len() as int), p) == select(c, p),
{
    assert(c.take(i + 1).drop_last() =~= c.take(i));
    assert(c.take(c.len() as int) =~= c);
}

/// No simplex has more vertices than the complex has.
pub proof fn lemma_select_empty(c: Seq<Seq<bool>>, n: nat, p: nat)
    requires
        well_formed(c, n),
        p > n || p == 0,
    ensures
        select(c, p).len() == 0,
{
    lemma_select(c, p);
    if select(c, p).len() > 0 {
        let x = select(c, p)[0];
        assert(c.contains(x));
        let i = choose|i: int| 0 <= i < c.len() && c[i] == x;
        lemma_popcount_bound(c[i]);
    }
}

} // verus!
