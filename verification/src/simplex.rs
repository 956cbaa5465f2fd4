use crate::bits::{lemma_popcount_zero, max_bits, popcount, Simplex};
use crate::complex_model::{
    boundary_matrix, coefficient, exceeds, face, is_dimension, is_face, is_face_at, is_simplex_of,
    is_vertex_count, lemma_closed_under_subsets, lemma_coefficient_at, lemma_face,
    lemma_face_vertex_unique, lemma_rank_bound, lemma_rank_injective, lemma_rank_step, lemma_select,
    lemma_select_empty, lemma_select_step, lemma_subset_transitive, mask_of, rank, select, sign_of,
    subset, valid_facets, well_formed,
};
use crate::linalg::lemma_mat_ext;
use crate::matrix::{allocatable, Matrix};
use crate::error::Error;
use std::collections::VecDeque;
use vstd::prelude::*;

verus! {

/// A face of a simplex: the vertex it is opposite to, the face itself, and
/// whether it counts positively in the boundary.
pub struct Face {
    pub vertex: usize,
    pub simplex: Simplex,
    pub sign: bool,
}

/// The list of vertex lists that a vector of vectors holds.
pub open spec fn facets_of(v: Seq<Vec<usize>>) -> Seq<Seq<usize>> {
    Seq::new(v.len(), |i: int| v[i]@)
}

/// The list of vertex sets that a list of simplices holds.
pub open spec fn masks(v: Seq<Simplex>) -> Seq<Seq<bool>> {
    Seq::new(v.len(), |i: int| v[i]@)
}

/// Whether the list holds the vertex set `x`.
pub open spec fn holds(list: Seq<Simplex>, x: Seq<bool>) -> bool {
    exists|i: int| 0 <= i < list.len() && (#[trigger] list[i])@ == x
}

pub open spec fn factorial(n: nat) -> nat
    decreases n,
{
    if n == 0 {
        1
    } else {
        n * factorial((n - 1) as nat)
    }
}

/// The work that a simplex waiting in the queue stands for: `(p + 1)!`
/// for a simplex of `p` vertices, which is more than that of its `p` faces
/// together.
pub open spec fn weight(s: Seq<bool>) -> nat {
    factorial(popcount(s) + 1)
}

/// The work that a queue stands for.
pub open spec fn weight_sum(q: Seq<Simplex>) -> nat
    decreases q.len(),
{
    if q.len() == 0 {
        0
    } else {
        weight_sum(q.drop_last()) + weight(q.last()@)
    }
}

proof fn lemma_factorial_positive(n: nat)
    ensures
        factorial(n) > 0,
    decreases n,
{
    if n > 0 {
        lemma_factorial_positive((n - 1) as nat);
        assert(n * factorial((n - 1) as nat) > 0) by (nonlinear_arith)
            requires
                n > 0,
                factorial((n - 1) as nat) > 0,
        ;
    }
}

proof fn lemma_weight_push(q: Seq<Simplex>, s: Simplex)
    ensures
        weight_sum(q.push(s)) == weight_sum(q) + weight(s@),
{
    assert(q.push(s).drop_last() =~= q);
}

proof fn lemma_weight_tail(q: Seq<Simplex>)
    requires
        q.len() > 0,
    ensures
        weight_sum(q.subrange(1, q.len() as int)) + weight(q[0]@) == weight_sum(q),
    decreases q.len(),
{
    let t = q.subrange(1, q.len() as int);
    if q.len() == 1 {
        assert(q.drop_last().len() == 0);
        assert(weight_sum(q.drop_last()) == 0);
        assert(t.len() == 0);
        assert(q.last() == q[0]);
    } else {
        let d = q.drop_last();
        lemma_weight_tail(d);
        assert(t.drop_last() =~= d.subrange(1, d.len() as int));
        assert(t.last() == q.last());
        assert(d[0] == q[0]);
        assert(weight_sum(t) == weight_sum(t.drop_last()) + weight(t.last()@));
    }
}

proof fn lemma_holds_push(list: Seq<Simplex>, s: Simplex, x: Seq<bool>)
    ensures
        holds(list.push(s), x) <==> holds(list, x) || s@ == x,
{
    let l2 = list.push(s);
    if holds(list, x) {
        let i = choose|i: int| 0 <= i < list.len() && (#[trigger] list[i])@ == x;
        assert(l2[i]@ == x);
    }
    if s@ == x {
        assert(l2[list.len() as int]@ == x);
    }
    if holds(l2, x) {
        let i = choose|i: int| 0 <= i < l2.len() && (#[trigger] l2[i])@ == x;
        if i < list.len() {
            assert(list[i]@ == x);
        }
    }
}

proof fn lemma_holds_tail(list: Seq<Simplex>, x: Seq<bool>)
    requires
        list.len() > 0,
    ensures
        holds(list, x) <==> holds(list.subrange(1, list.len() as int), x) || list[0]@ == x,
{
    let t = list.subrange(1, list.len() as int);
    if holds(list, x) {
        let i = choose|i: int| 0 <= i < list.len() && (#[trigger] list[i])@ == x;
        if i > 0 {
            assert(t[i - 1]@ == x);
        }
    }
    if holds(t, x) {
        let i = choose|i: int| 0 <= i < t.len() && (#[trigger] t[i])@ == x;
        assert(list[i + 1]@ == x);
    }
}

/// The first position of the vertex set of `s` in the list, if it is
/// there.
pub fn position(list: &Vec<Simplex>, s: &Simplex) -> (r: Option<usize>)
    ensures
        match r {
            Some(i) => i < list.len() && list[i as int]@ == s@ && forall|k: int|
                0 <= k < i ==> (#[trigger] list[k])@ != s@,
            None => !holds(list@, s@),
        },
{
    let mut i: usize = 0;
    while i < list.len()
        invariant
            i <= list.len(),
            forall|k: int| 0 <= k < i ==> (#[trigger] list[k])@ != s@,
        decreases list.len() - i,
    {
        if list[i].same(s) {
            return Some(i);
        }
        i += 1;
    }
    None
}

/// The simplex over `bit_size` vertices with the listed vertices.
pub fn simplex_of_vec(points: &Vec<usize>, bit_size: usize) -> (simp: Simplex)
    requires
        bit_size <= max_bits(),
        forall|k: int| 0 <= k < points.len() ==> #[trigger] points[k] < bit_size,
    ensures
        simp@ == mask_of(points@, bit_size as nat),
{
    let mut simp = Simplex::empty(bit_size);
    let mut k: usize = 0;
    while k < points.len()
        invariant
            k <= points.len(),
            forall|x: int| 0 <= x < points.len() ==> #[trigger] points[x] < bit_size,
            simp@ == mask_of(points@.take(k as int), bit_size as nat),
        decreases points.len() - k,
    {
        let ghost before = simp@;
        let p = points[k];
        simp.set(p, true);
        proof {
            let seen = points@.take(k as int);
            let next = points@.take(k + 1);
            let target = mask_of(next, bit_size as nat);
            assert forall|v: int| 0 <= v < bit_size implies simp@[v] == target[v] by {
                if simp@[v] {
                    if v == p {
                        assert(next[k as int] == v);
                    } else {
                        assert(before[v]);
                        let x = choose|x: int| 0 <= x < seen.len() && #[trigger] seen[x] == v;
                        assert(next[x] == v);
                    }
                }
                if target[v] {
                    let x = choose|x: int| 0 <= x < next.len() && #[trigger] next[x] == v;
                    if x < k {
                        assert(seen[x] == v);
                    }
                }
            }
            assert(simp@ =~= target);
        }
        k += 1;
    }
    assert(points@.take(points.len() as int) =~= points@);
    simp
}

/// The faces of `simp`, one for each of its vertices in increasing order:
/// the face opposite to the vertex of rank `k` stands at `k`, and its sign
/// is positive for even `k`.
pub fn faces(simp: &Simplex) -> (r: Vec<Face>)
    ensures
        r.len() == popcount(simp@),
        forall|k: int|
            0 <= k < r.len() ==> {
                &&& (#[trigger] r[k]).vertex < simp@.len()
                &&& simp@[r[k].vertex as int]
                &&& rank(simp@, r[k].vertex as int) == k
                &&& r[k].simplex@ == face(simp@, r[k].vertex as int)
                &&& r[k].sign == (k % 2 == 0)
            },
{
    let mut out: Vec<Face> = Vec::new();
    let mut subset = simp.duplicate();
    let mut sign = true;
    let n = subset.len();
    let mut i: usize = 0;
    proof {
        if n > 0 {
            lemma_rank_step(simp@, 0);
        } else {
            assert(simp@.take(0) =~= simp@);
        }
    }
    while i < n
        invariant
            i <= n,
            n == simp@.len(),
            subset@ == simp@,
            out.len() == rank(simp@, i as int),
            sign == (out.len() % 2 == 0),
            forall|k: int|
                0 <= k < out.len() ==> {
                    &&& (#[trigger] out[k]).vertex < simp@.len()
                    &&& simp@[out[k].vertex as int]
                    &&& rank(simp@, out[k].vertex as int) == k
                    &&& out[k].simplex@ == face(simp@, out[k].vertex as int)
                    &&& out[k].sign == (k % 2 == 0)
                },
        decreases n - i,
    {
        proof {
            lemma_rank_step(simp@, i as int);
        }
        if subset.contains(i) {
            subset.set(i, false);
            out.push(Face { vertex: i, simplex: subset.duplicate(), sign });
            subset.set(i, true);
            sign = !sign;
            assert(subset@ =~= simp@);
        }
        i += 1;
    }
    proof {
        if n > 0 {
            lemma_rank_step(simp@, 0);
        }
    }
    out
}

/// Appends the faces of `simp` to the queue, in the order of the vertices
/// they are opposite to.
fn enqueue_faces(queue: &mut VecDeque<Simplex>, simp: &Simplex)
    requires
        popcount(simp@) >= 1,
    ensures
        forall|x: Seq<bool>|
            #![trigger holds(final(queue)@, x)]
            #![trigger is_face(x, simp@)]
            holds(final(queue)@, x) <==> holds(old(queue)@, x) || is_face(x, simp@),
        forall|i: int| 0 <= i < old(queue)@.len() ==> final(queue)@[i] == old(queue)@[i],
        final(queue)@.len() == old(queue)@.len() + popcount(simp@),
        forall|i: int|
            old(queue)@.len() <= i < final(queue)@.len() ==> is_face(
                (#[trigger] final(queue)@[i])@,
                simp@,
            ),
        weight_sum(final(queue)@) == weight_sum(old(queue)@) + popcount(simp@) * factorial(
            popcount(simp@),
        ),
{
    let fs = faces(simp);
    let ghost q0 = queue@;
    let ghost p = popcount(simp@);
    let mut k: usize = 0;
    assert(0 * factorial(p) == 0) by (nonlinear_arith);
    while k < fs.len()
        invariant
            k <= fs.len(),
            q0 == old(queue)@,
            p == popcount(simp@),
            p >= 1,
            fs.len() == p,
            forall|x: int|
                0 <= x < fs.len() ==> {
                    &&& (#[trigger] fs[x]).vertex < simp@.len()
                    &&& simp@[fs[x].vertex as int]
                    &&& rank(simp@, fs[x].vertex as int) == x
                    &&& fs[x].simplex@ == face(simp@, fs[x].vertex as int)
                },
            queue@.len() == q0.len() + k,
            forall|i: int| 0 <= i < q0.len() ==> queue@[i] == q0[i],
            forall|i: int|
                0 <= i < k ==> (#[trigger] queue@[q0.len() + i])@ == face(
                    simp@,
                    fs[i].vertex as int,
                ),
            weight_sum(queue@) == weight_sum(q0) + k * factorial(p),
        decreases fs.len() - k,
    {
        let ghost before = queue@;
        let f = fs[k].simplex.duplicate();
        proof {
            lemma_weight_push(before, f);
            lemma_face(simp@, fs[k as int].vertex as int);
            assert(weight(f@) == factorial(p));
            assert((k + 1) * factorial(p) == k * factorial(p) + factorial(p)) by (nonlinear_arith);
        }
        queue.push_back(f);
        k += 1;
    }
    proof {
        let q1 = queue@;
        assert forall|x: Seq<bool>|
            #![trigger holds(q1, x)]
            #![trigger is_face(x, simp@)]
            holds(q1, x) <==> holds(q0, x) || is_face(x, simp@) by {
            if holds(q1, x) {
                let i = choose|i: int| 0 <= i < q1.len() && (#[trigger] q1[i])@ == x;
                if i < q0.len() {
                    assert(q0[i]@ == x);
                } else {
                    let kk = i - q0.len();
                    assert(q1[q0.len() + kk]@ == face(simp@, fs[kk].vertex as int));
                    assert(is_face_at(x, simp@, fs[kk].vertex as int));
                }
            }
            if holds(q0, x) {
                let i = choose|i: int| 0 <= i < q0.len() && (#[trigger] q0[i])@ == x;
                assert(q1[i]@ == x);
            }
            if is_face(x, simp@) {
                let v = choose|v: int| is_face_at(x, simp@, v);
                lemma_rank_bound(simp@, v);
                let kk = rank(simp@, v) as int;
                lemma_rank_injective(simp@, v, fs[kk].vertex as int);
                assert(q1[q0.len() + kk]@ == x);
            }
        }
        assert forall|i: int| q0.len() <= i < q1.len() implies is_face(
            (#[trigger] q1[i])@,
            simp@,
        ) by {
            let kk = i - q0.len();
            assert(q1[q0.len() + kk]@ == face(simp@, fs[kk].vertex as int));
            assert(is_face_at(q1[i]@, simp@, fs[kk].vertex as int));
        }
    }
}

/// A finite abstract simplicial complex: the set of all nonempty subsets
/// of the facets it was built from, each stored once as a set of vertices
/// over the range `0..width`.
pub struct SimplicialComplex {
    simplices: Vec<Simplex>,
    points: usize,
}

impl View for SimplicialComplex {
    type V = Seq<Seq<bool>>;

    closed spec fn view(&self) -> Seq<Seq<bool>> {
        masks(self.simplices@)
    }
}

impl SimplicialComplex {
    /// The number of vertices that the simplices range over: one more than
    /// the largest vertex of the input.
    pub closed spec fn width(&self) -> nat {
        self.points as nat
    }

    #[verifier::type_invariant]
    spec fn inv(&self) -> bool {
        well_formed(masks(self.simplices@), self.points as nat) && self.points <= max_bits()
    }

    /// The number of vertices that the simplices range over. Every complex
    /// is well formed: its simplices are nonempty sets over that range,
    /// none occurs twice, and with each simplex of two or more vertices the
    /// complex holds every face of it.
    pub fn vertex_count(&self) -> (n: usize)
        ensures
            n == self.width(),
            n <= max_bits(),
            well_formed(self@, self.width()),
    {
        proof {
            use_type_invariant(self);
        }
        self.points
    }

    /// Builds the complex that the facets generate: every nonempty subset
    /// of a facet, found by a breadth-first closure from the facets.
    ///
    /// Fails with `Error::InputMalformed` when there is no facet or a facet
    /// has no vertex, and with `Error::Overflow` when a vertex is too large
    /// for a bit vector to range over.
    pub fn new(simp_vec: Vec<Vec<usize>>) -> (r: Result<SimplicialComplex, Error>)
        ensures
            match r {
                Ok(c) => {
                    &&& valid_facets(facets_of(simp_vec@))
                    &&& !exceeds(facets_of(simp_vec@), max_bits())
                    &&& is_vertex_count(facets_of(simp_vec@), c.width())
                    &&& well_formed(c@, c.width())
                    &&& forall|s: Seq<bool>|
                        c@.contains(s) <==> is_simplex_of(s, facets_of(simp_vec@), c.width())
                },
                Err(Error::InputMalformed) => !valid_facets(facets_of(simp_vec@)),
                Err(Error::Overflow) => valid_facets(facets_of(simp_vec@)) && exceeds(
                    facets_of(simp_vec@),
                    max_bits(),
                ),
                Err(Error::InternalInvariant) => false,
            },
    {
        let ghost f = facets_of(simp_vec@);
        if simp_vec.len() == 0 {
            return Err(Error::InputMalformed);
        }
        let mut max: usize = 0;
        let ghost mut wi: int = 0;
        let ghost mut wk: int = 0;
        let mut i: usize = 0;
        while i < simp_vec.len()
            invariant
                i <= simp_vec.len(),
                f == facets_of(simp_vec@),
                forall|ii: int| 0 <= ii < i ==> (#[trigger] f[ii]).len() > 0,
                forall|ii: int, k: int|
                    0 <= ii < i && 0 <= k < f[ii].len() ==> #[trigger] f[ii][k] <= max,
                i > 0 ==> 0 <= wi < f.len() && 0 <= wk < f[wi].len() && f[wi][wk] == max,
            decreases simp_vec.len() - i,
        {
            let facet = &simp_vec[i];
            assert(facet@ == f[i as int]);
            if facet.len() == 0 {
                return Err(Error::InputMalformed);
            }
            let mut k: usize = 0;
            while k < facet.len()
                invariant
                    k <= facet.len(),
                    i < simp_vec.len(),
                    f == facets_of(simp_vec@),
                    facet@ == f[i as int],
                    forall|ii: int, kk: int|
                        0 <= ii < i && 0 <= kk < f[ii].len() ==> #[trigger] f[ii][kk] <= max,
                    forall|kk: int| 0 <= kk < k ==> #[trigger] facet[kk] <= max,
                    (i > 0 || k > 0) ==> 0 <= wi < f.len() && 0 <= wk < f[wi].len() && f[wi][wk]
                        == max,
                decreases facet.len() - k,
            {
                if facet[k] > max || (i == 0 && k == 0) {
                    max = facet[k];
                    proof {
                        wi = i as int;
                        wk = k as int;
                    }
                }
                k += 1;
            }
            i += 1;
        }
        if max >= usize::MAX / 8 {
            assert(f[wi][wk] >= max_bits());
            return Err(Error::Overflow);
        }
        let n: usize = max + 1;
        assert(f[wi][wk] + 1 == n);
        assert(!exceeds(f, max_bits()));
        let mut queue: VecDeque<Simplex> = VecDeque::new();
        let mut j: usize = 0;
        while j < simp_vec.len()
            invariant
                j <= simp_vec.len(),
                n <= max_bits(),
                f == facets_of(simp_vec@),
                valid_facets(f),
                forall|ii: int, k: int|
                    0 <= ii < f.len() && 0 <= k < f[ii].len() ==> #[trigger] f[ii][k] < n,
                queue@.len() == j,
                forall|ii: int| 0 <= ii < j ==> (#[trigger] queue@[ii])@ == mask_of(f[ii], n as nat),
            decreases simp_vec.len() - j,
        {
            let facet = &simp_vec[j];
            assert(facet@ == f[j as int]);
            assert forall|k: int| 0 <= k < facet.len() implies #[trigger] facet[k] < n by {
                assert(f[j as int][k] < n);
            }
            let simp = simplex_of_vec(facet, n);
            queue.push_back(simp);
            j += 1;
        }
        proof {
            assert forall|ii: int| 0 <= ii < queue.len() implies is_simplex_of(
                (#[trigger] queue@[ii])@,
                f,
                n as nat,
            ) by {
                let m = mask_of(f[ii], n as nat);
                let v = f[ii][0];
                assert(m[v as int]);
                lemma_popcount_zero(m);
                assert(subset(m, mask_of(f[ii], n as nat)));
            }
            assert forall|ii: int| 0 <= ii < f.len() implies holds(
                queue@,
                #[trigger] mask_of(f[ii], n as nat),
            ) by {
                assert(queue@[ii]@ == mask_of(f[ii], n as nat));
            }
        }
        let mut simplices: Vec<Simplex> = Vec::new();
        while queue.len() > 0
            invariant
                n <= max_bits(),
                f == facets_of(simp_vec@),
                valid_facets(f),
                forall|ii: int|
                    0 <= ii < simplices.len() ==> is_simplex_of(
                        (#[trigger] simplices[ii])@,
                        f,
                        n as nat,
                    ),
                forall|ii: int|
                    0 <= ii < queue.len() ==> is_simplex_of((#[trigger] queue@[ii])@, f, n as nat),
                forall|a: int, b: int|
                    0 <= a < b < simplices.len() ==> (#[trigger] simplices[a])@ != (
                    #[trigger] simplices[b])@,
                forall|ii: int|
                    0 <= ii < f.len() ==> holds(simplices@, #[trigger] mask_of(f[ii], n as nat))
                        || holds(queue@, mask_of(f[ii], n as nat)),
                forall|ii: int, v: int|
                    0 <= ii < simplices.len() && 0 <= v < n && simplices[ii]@[v] && popcount(
                        simplices[ii]@,
                    ) >= 2 ==> holds(simplices@, #[trigger] face(simplices[ii]@, v)) || holds(
                        queue@,
                        face(simplices[ii]@, v),
                    ),
            decreases weight_sum(queue@),
        {
            let ghost q0 = queue@;
            let ghost s0 = simplices@;
            let simp = match queue.pop_front() {
                Some(s) => s,
                None => {
                    return Err(Error::InternalInvariant);
                },
            };
            let ghost q1 = queue@;
            let ghost sv = simp@;
            let ghost p = popcount(sv);
            proof {
                lemma_weight_tail(q0);
                lemma_factorial_positive(p + 1);
                lemma_factorial_positive(p);
                assert(is_simplex_of(q0[0]@, f, n as nat));
                assert forall|ii: int| 0 <= ii < q1.len() implies is_simplex_of(
                    (#[trigger] q1[ii])@,
                    f,
                    n as nat,
                ) by {
                    assert(q1[ii] == q0[ii + 1]);
                }
            }
            match position(&simplices, &simp) {
                Some(at) => {
                    proof {
                        assert(s0[at as int]@ == sv);
                        assert forall|ii: int| 0 <= ii < f.len() implies holds(
                            s0,
                            #[trigger] mask_of(f[ii], n as nat),
                        ) || holds(q1, mask_of(f[ii], n as nat)) by {
                            lemma_holds_tail(q0, mask_of(f[ii], n as nat));
                        }
                        assert forall|ii: int, v: int|
                            0 <= ii < s0.len() && 0 <= v < n && s0[ii]@[v] && popcount(s0[ii]@)
                                >= 2 implies holds(s0, #[trigger] face(s0[ii]@, v)) || holds(
                            q1,
                            face(s0[ii]@, v),
                        ) by {
                            lemma_holds_tail(q0, face(s0[ii]@, v));
                        }
                    }
                },
                None => {
                    if simp.count_ones() >= 2 {
                        enqueue_faces(&mut queue, &simp);
                        proof {
                            assert(factorial(p + 1) == (p + 1) * factorial(p));
                            assert(p * factorial(p) < (p + 1) * factorial(p)) by (nonlinear_arith)
                                requires
                                    factorial(p) > 0,
                            ;
                        }
                    }
                    let ghost q2 = queue@;
                    simplices.push(simp);
                    let ghost s1 = simplices@;
                    proof {
                        assert forall|x: Seq<bool>| holds(q1, x) implies holds(q2, x) by {}
                        assert forall|ii: int| 0 <= ii < s1.len() implies is_simplex_of(
                            (#[trigger] s1[ii])@,
                            f,
                            n as nat,
                        ) by {
                            if ii < s0.len() {
                                assert(s1[ii] == s0[ii]);
                            }
                        }
                        assert forall|ii: int| 0 <= ii < q2.len() implies is_simplex_of(
                            (#[trigger] q2[ii])@,
                            f,
                            n as nat,
                        ) by {
                            if ii < q1.len() {
                                assert(q2[ii] == q1[ii]);
                            } else {
                                assert(is_face(q2[ii]@, sv));
                                let v = choose|v: int| is_face_at(q2[ii]@, sv, v);
                                lemma_face(sv, v);
                                let w = choose|w: int|
                                    0 <= w < f.len() && subset(sv, #[trigger] mask_of(f[w], n as nat));
                                lemma_subset_transitive(q2[ii]@, sv, mask_of(f[w], n as nat));
                            }
                        }
                        assert forall|a: int, b: int| 0 <= a < b < s1.len() implies (
                        #[trigger] s1[a])@ != (#[trigger] s1[b])@ by {
                            assert(s1[a] == s0[a]);
                            if b < s0.len() {
                                assert(s1[b] == s0[b]);
                            }
                        }
                        assert forall|ii: int| 0 <= ii < f.len() implies holds(
                            s1,
                            #[trigger] mask_of(f[ii], n as nat),
                        ) || holds(q2, mask_of(f[ii], n as nat)) by {
                            lemma_holds_tail(q0, mask_of(f[ii], n as nat));
                            lemma_holds_push(s0, s1[s0.len() as int], mask_of(f[ii], n as nat));
                            assert(s1 =~= s0.push(s1[s0.len() as int]));
                        }
                        assert forall|ii: int, v: int|
                            0 <= ii < s1.len() && 0 <= v < n && s1[ii]@[v] && popcount(s1[ii]@)
                                >= 2 implies holds(s1, #[trigger] face(s1[ii]@, v)) || holds(
                            q2,
                            face(s1[ii]@, v),
                        ) by {
                            let x = face(s1[ii]@, v);
                            assert(s1 =~= s0.push(s1[s0.len() as int]));
                            lemma_holds_push(s0, s1[s0.len() as int], x);
                            if ii < s0.len() {
                                assert(s1[ii] == s0[ii]);
                                lemma_holds_tail(q0, x);
                            } else {
                                assert(is_face_at(x, sv, v));
                            }
                        }
                    }
                },
            }
        }
        proof {
            let c = masks(simplices@);
            assert(holds(simplices@, mask_of(f[0], n as nat)));
            assert forall|ii: int, v: int|
                0 <= ii < c.len() && 0 <= v < n && c[ii][v] && popcount(c[ii]) >= 2 implies c.contains(
                #[trigger] face(c[ii], v),
            ) by {
                let x = face(simplices[ii]@, v);
                assert(holds(simplices@, x));
                let w = choose|w: int| 0 <= w < simplices.len() && (#[trigger] simplices[w])@ == x;
                assert(c[w] == x);
            }
            assert forall|a: int, b: int| 0 <= a < c.len() && 0 <= b < c.len() && a != b implies c[a]
                != c[b] by {
                if a < b {
                    assert(simplices[a]@ != simplices[b]@);
                } else {
                    assert(simplices[b]@ != simplices[a]@);
                }
            }
            assert(well_formed(c, n as nat));
            assert forall|s: Seq<bool>| c.contains(s) <==> is_simplex_of(s, f, n as nat) by {
                if c.contains(s) {
                    let w = choose|w: int| 0 <= w < c.len() && c[w] == s;
                    assert(is_simplex_of(simplices[w]@, f, n as nat));
                }
                if is_simplex_of(s, f, n as nat) {
                    let w = choose|w: int|
                        0 <= w < f.len() && subset(s, #[trigger] mask_of(f[w], n as nat));
                    let m = mask_of(f[w], n as nat);
                    assert(holds(simplices@, m));
                    let at = choose|at: int| 0 <= at < simplices.len() && (#[trigger] simplices[at])@
                        == m;
                    assert(c[at] == m);
                    lemma_closed_under_subsets(c, n as nat, s, m);
                }
            }
        }
        Ok(SimplicialComplex { simplices, points: n })
    }
}

impl SimplicialComplex {
    /// The dimension of the complex: one less than the largest number of
    /// vertices of a simplex.
    pub fn dimension(&self) -> (d: usize)
        ensures
            is_dimension(self@, d as nat),
    {
        proof {
            use_type_invariant(self);
        }
        let mut best: usize = self.simplices[0].count_ones();
        let mut i: usize = 1;
        assert(self@[0] == self.simplices[0]@);
        while i < self.simplices.len()
            invariant
                1 <= i <= self.simplices.len(),
                forall|k: int| 0 <= k < i ==> popcount(#[trigger] self@[k]) <= best,
                exists|k: int| 0 <= k < i && popcount(#[trigger] self@[k]) == best,
                forall|k: int| 0 <= k < self@.len() ==> popcount(#[trigger] self@[k]) >= 1,
            decreases self.simplices.len() - i,
        {
            let count = self.simplices[i].count_ones();
            assert(self@[i as int] == self.simplices[i as int]@);
            if count > best {
                best = count;
            }
            i += 1;
        }
        assert(popcount(self@[0]) >= 1);
        best - 1
    }

    /// The positions of the simplices with `count` vertices, in order.
    fn indices_with(&self, count: usize) -> (r: Vec<usize>)
        ensures
            r.len() == select(self@, count as nat).len(),
            forall|k: int|
                0 <= k < r.len() ==> (#[trigger] r[k]) < self@.len() && self@[r[k] as int] == select(
                    self@,
                    count as nat,
                )[k],
    {
        let mut out: Vec<usize> = Vec::new();
        let mut i: usize = 0;
        proof {
            if self@.len() > 0 {
                lemma_select_step(self@, 0, count as nat);
            }
        }
        while i < self.simplices.len()
            invariant
                i <= self.simplices.len(),
                self.simplices.len() == self@.len(),
                out.len() == select(self@.take(i as int), count as nat).len(),
                forall|k: int|
                    0 <= k < out.len() ==> (#[trigger] out[k]) < self@.len() && self@[out[k] as int]
                        == select(self@.take(i as int), count as nat)[k],
            decreases self.simplices.len() - i,
        {
            proof {
                lemma_select_step(self@, i as int, count as nat);
                assert(self@[i as int] == self.simplices[i as int]@);
            }
            if self.simplices[i].count_ones() == count {
                out.push(i);
            }
            i += 1;
        }
        proof {
            if self@.len() > 0 {
                lemma_select_step(self@, 0, count as nat);
            } else {
                assert(self@.take(0) =~= self@);
            }
        }
        out
    }

    /// The position in `among` of the index of the simplex equal to `s`.
    fn find_among(&self, among: &Vec<usize>, s: &Simplex) -> (r: Option<usize>)
        requires
            forall|k: int| 0 <= k < among.len() ==> (#[trigger] among[k]) < self@.len(),
        ensures
            match r {
                Some(i) => i < among.len() && self@[among[i as int] as int] == s@,
                None => forall|k: int| 0 <= k < among.len() ==> self@[(#[trigger] among[k]) as int] != s@,
            },
    {
        let mut i: usize = 0;
        while i < among.len()
            invariant
                i <= among.len(),
                forall|k: int| 0 <= k < among.len() ==> (#[trigger] among[k]) < self@.len(),
                forall|k: int| 0 <= k < i ==> self@[(#[trigger] among[k]) as int] != s@,
            decreases among.len() - i,
        {
            let at = among[i];
            assert(self@[at as int] == self.simplices[at as int]@);
            if self.simplices[at].same(s) {
                return Some(i);
            }
            i += 1;
        }
        None
    }

    /// The boundary map from the simplices with `dim + 1` vertices to
    /// those with `dim` vertices, as an integer matrix: one row for each
    /// simplex with `dim` vertices and one column for each simplex with
    /// `dim + 1` vertices, both in the order of the complex. The entry of a
    /// face in the column of a simplex is `(-1)^r`, where the face is
    /// opposite to the vertex of rank `r` among the simplex's vertices in
    /// increasing order; every other entry is zero. With `dim == 0` the
    /// matrix has no rows.
    ///
    /// Fails with `Error::Overflow` exactly when a matrix of that shape
    /// cannot be allocated.
    pub fn boundary_map(&self, dim: usize) -> (r: Result<Matrix, Error>)
        ensures
            match r {
                Ok(m) => m@ == boundary_matrix(self@, dim as nat),
                Err(e) => e == Error::Overflow,
            },
            r is Ok <==> allocatable(
                select(self@, dim as nat).len(),
                select(self@, (dim + 1) as nat).len(),
            ),
    {
        proof {
            use_type_invariant(self);
        }
        let ghost c = self@;
        let ghost n = self.points as nat;
        let ghost rows = select(c, dim as nat);
        let ghost cols = select(c, (dim + 1) as nat);
        let target = self.indices_with(dim);
        let source = match dim.checked_add(1) {
            Some(d) => self.indices_with(d),
            None => {
                proof {
                    lemma_select_empty(c, n, (dim + 1) as nat);
                }
                Vec::new()
            },
        };
        let mut map = match Matrix::zeros(target.len(), source.len()) {
            Some(m) => m,
            None => {
                return Err(Error::Overflow);
            },
        };
        let ghost goal = boundary_matrix(c, dim as nat);
        proof {
            lemma_select(c, dim as nat);
            lemma_select(c, (dim + 1) as nat);
        }
        let mut j: usize = 0;
        while j < source.len()
            invariant
                j <= source.len(),
                c == self@,
                n == self.points,
                well_formed(c, n),
                rows == select(c, dim as nat),
                cols == select(c, (dim + 1) as nat),
                goal == boundary_matrix(c, dim as nat),
                target.len() == rows.len(),
                source.len() == cols.len(),
                forall|k: int|
                    0 <= k < target.len() ==> (#[trigger] target[k]) < c.len() && c[target[k] as int]
                        == rows[k],
                forall|k: int|
                    0 <= k < source.len() ==> (#[trigger] source[k]) < c.len() && c[source[k] as int]
                        == cols[k],
                forall|k: int| 0 <= k < rows.len() ==> popcount(#[trigger] rows[k]) == dim,
                forall|k: int| 0 <= k < cols.len() ==> popcount(#[trigger] cols[k]) == dim + 1,
                forall|a: int, b: int|
                    0 <= a < rows.len() && 0 <= b < rows.len() && a != b ==> rows[a] != rows[b],
                forall|x: Seq<bool>|
                    c.contains(x) && popcount(x) == dim ==> #[trigger] rows.contains(x),
                map@.rows() == target.len(),
                map@.cols() == source.len(),
                forall|i: int, jj: int|
                    map@.has_cell(i, jj) ==> #[trigger] map@.at(i, jj) == (if jj < j {
                        goal.at(i, jj)
                    } else {
                        0
                    }),
            decreases source.len() - j,
        {
            let at = source[j];
            let simp = &self.simplices[at];
            assert(simp@ == cols[j as int]);
            let ghost sv = simp@;
            let fs = if dim >= 1 {
                faces(simp)
            } else {
                Vec::new()
            };
            let ghost before = map@;
            let mut k: usize = 0;
            while k < fs.len()
                invariant
                    k <= fs.len(),
                    j < source.len(),
                    c == self@,
                    n == self.points,
                    well_formed(c, n),
                    sv == cols[j as int],
                    sv.len() == n,
                    popcount(sv) == dim + 1,
                    dim >= 1 || fs.len() == 0,
                    c.contains(sv),
                    rows == select(c, dim as nat),
                    target.len() == rows.len(),
                    source.len() == cols.len(),
                    forall|x: int|
                        0 <= x < target.len() ==> (#[trigger] target[x]) < c.len() && c[target[x] as int]
                            == rows[x],
                    forall|a: int, b: int|
                        0 <= a < rows.len() && 0 <= b < rows.len() && a != b ==> rows[a] != rows[b],
                    forall|x: Seq<bool>|
                        c.contains(x) && popcount(x) == dim ==> #[trigger] rows.contains(x),
                    forall|x: int|
                        0 <= x < fs.len() ==> {
                            &&& (#[trigger] fs[x]).vertex < sv.len()
                            &&& sv[fs[x].vertex as int]
                            &&& rank(sv, fs[x].vertex as int) == x
                            &&& fs[x].simplex@ == face(sv, fs[x].vertex as int)
                            &&& fs[x].sign == (x % 2 == 0)
                        },
                    map@.rows() == target.len(),
                    map@.cols() == source.len(),
                    forall|i: int, jj: int|
                        map@.has_cell(i, jj) && jj != j ==> #[trigger] map@.at(i, jj) == before.at(
                            i,
                            jj,
                        ),
                    forall|i: int, x: int|
                        0 <= i < rows.len() && 0 <= x < k && fs[x].simplex@ == rows[i] ==> map@.at(
                            i,
                            j as int,
                        ) == sign_of(x as nat),
                    forall|i: int|
                        0 <= i < rows.len() && (forall|x: int|
                            0 <= x < k ==> (#[trigger] fs[x]).simplex@ != rows[i]) ==> #[trigger] map@.at(
                            i,
                            j as int,
                        ) == 0,
                decreases fs.len() - k,
            {
                let ghost v = fs[k as int].vertex as int;
                let ghost fv = fs[k as int].simplex@;
                proof {
                    lemma_face(sv, v);
                    let w = choose|w: int| 0 <= w < c.len() && c[w] == sv;
                    assert(c.contains(face(c[w], v)));
                    assert(rows.contains(fv));
                }
                let found = match self.find_among(&target, &fs[k].simplex) {
                    Some(i) => i,
                    None => {
                        proof {
                            let x = choose|x: int| 0 <= x < rows.len() && rows[x] == fv;
                            assert(c[target[x] as int] == rows[x]);
                        }
                        return Err(Error::InternalInvariant);
                    },
                };
                let ghost mid = map@;
                let value: i128 = if fs[k].sign { 1 } else { -1 };
                map.set(found, j, value);
                proof {
                    assert(rows[found as int] == fv);
                    assert forall|i: int, x: int|
                        0 <= i < rows.len() && 0 <= x < k + 1 && fs[x].simplex@
                            == rows[i] implies map@.at(i, j as int) == sign_of(x as nat) by {
                        if x < k {
                            if i == found {
                                lemma_face_vertex_unique(fv, sv, fs[x].vertex as int, v);
                            } else {
                                assert(map@.at(i, j as int) == mid.at(i, j as int));
                            }
                        } else {
                            assert(i == found);
                        }
                    }
                    assert forall|i: int|
                        0 <= i < rows.len() && (forall|x: int|
                            0 <= x < k + 1 ==> (#[trigger] fs[x]).simplex@ != rows[i]) implies #[trigger] map@.at(
                        i,
                        j as int,
                    ) == 0 by {
                        assert(fs[k as int].simplex@ != rows[i]);
                        assert(i != found);
                        assert(map@.at(i, j as int) == mid.at(i, j as int));
                        assert forall|x: int| 0 <= x < k implies (#[trigger] fs[x]).simplex@
                            != rows[i] by {}
                    }
                }
                k += 1;
            }
            proof {
                assert forall|i: int| 0 <= i < rows.len() implies map@.at(i, j as int) == goal.at(
                    i,
                    j as int,
                ) by {
                    let t = rows[i];
                    assert(goal.at(i, j as int) == coefficient(t, sv));
                    if is_face(t, sv) {
                        let u = choose|u: int| is_face_at(t, sv, u);
                        lemma_face(sv, u);
                        lemma_rank_bound(sv, u);
                        let x = rank(sv, u) as int;
                        if dim == 0 {
                            lemma_select_empty(c, n, 0);
                        }
                        lemma_rank_injective(sv, u, fs[x].vertex as int);
                        lemma_coefficient_at(t, sv, u);
                        assert(fs[x].simplex@ == rows[i]);
                    } else {
                        assert forall|x: int| 0 <= x < fs.len() implies (#[trigger] fs[x]).simplex@
                            != t by {
                            if fs[x].simplex@ == t {
                                assert(is_face_at(t, sv, fs[x].vertex as int));
                            }
                        }
                    }
                }
            }
            j += 1;
        }
        proof {
            lemma_mat_ext(map@, goal);
        }
        Ok(map)
    }
}

} // verus!
