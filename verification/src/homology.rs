use crate::complex_model::{boundary_matrix, is_dimension, select};
use crate::bits::{lemma_popcount_bound, popcount};
use crate::error::Error;
use crate::linalg::Mat;
use crate::matrix::{allocatable, Matrix};
use crate::simplex::SimplicialComplex;
use crate::smith::smith_normal_form;
use crate::smith_model::{diag_len, lemma_smith_chain, smith_form, snf};
use vstd::prelude::*;

verus! {

/// A finitely generated abelian group in invariant-factor form:
/// `Z^free` plus one cyclic factor `Z/d` for each torsion coefficient `d`.
#[derive(Debug, PartialEq, Eq)]
pub struct HomologyGroup {
    pub free: usize,
    pub torsion: Vec<usize>,
}

/// The mathematical value of a homology group.
pub struct Group {
    pub free: nat,
    pub torsion: Seq<int>,
}

impl View for HomologyGroup {
    type V = Group;

    open spec fn view(&self) -> Group {
        Group { free: self.free as nat, torsion: Seq::new(self.torsion@.len(), |i: int| self.torsion@[i] as int) }
    }
}

/// The entries on the main diagonal.
pub open spec fn diag_entries(a: Mat) -> Seq<int> {
    Seq::new(diag_len(a), |i: int| a.at(i, i))
}

/// The number of entries that are not zero.
pub open spec fn count_nonzero(d: Seq<int>) -> nat
    decreases d.len(),
{
    if d.len() == 0 {
        0
    } else {
        count_nonzero(d.drop_last()) + if d.last() != 0 {
            1nat
        } else {
            0nat
        }
    }
}

/// The entries that are neither zero nor one, in order: those that stand
/// for a finite cyclic factor.
pub open spec fn torsion_of(d: Seq<int>) -> Seq<int>
    decreases d.len(),
{
    if d.len() == 0 {
        Seq::empty()
    } else if d.last() != 0 && d.last() != 1 {
        torsion_of(d.drop_last()).push(d.last())
    } else {
        torsion_of(d.drop_last())
    }
}

/// Every coefficient is representable as a `usize`.
pub open spec fn representable(t: Seq<int>) -> bool {
    forall|i: int| 0 <= i < t.len() ==> 0 <= #[trigger] t[i] <= usize::MAX
}

/// Torsion coefficients are 2 or more, and each divides the next.
pub open spec fn torsion_chain(t: Seq<int>) -> bool {
    &&& forall|i: int| 0 <= i < t.len() ==> #[trigger] t[i] >= 2
    &&& forall|i: int| 0 <= i && i + 1 < t.len() ==> #[trigger] t[i + 1] % t[i] == 0
}

/// The homology group at a dimension, from the diagonal forms `a0` of the
/// boundary map out of that dimension and `a1` of the boundary map into
/// it: the free rank is the number of columns of `a0` less the two ranks,
/// and the torsion coefficients are the diagonal entries of `a1` other
/// than 0 and 1.
///
/// `Error::Overflow` where a coefficient is not representable, else
/// `Error::InternalInvariant` where the ranks exceed the number of columns.
pub open spec fn group_of(a0: Mat, a1: Mat) -> Result<Group, Error> {
    let rank0 = count_nonzero(diag_entries(a0));
    let rank1 = count_nonzero(diag_entries(a1));
    let torsion = torsion_of(diag_entries(a1));
    if !representable(torsion) {
        Err(Error::Overflow)
    } else if rank0 + rank1 > a0.cols() {
        Err(Error::InternalInvariant)
    } else {
        Ok(Group { free: (a0.cols() - rank0 - rank1) as nat, torsion })
    }
}

/// The homology group between two consecutive boundary maps: `d0` out of
/// the dimension and `d1` into it, through their Smith normal forms.
pub open spec fn homology_of(d0: Mat, d1: Mat) -> Result<Group, Error> {
    match snf(d0) {
        None => Err(Error::Overflow),
        Some(x) => match snf(d1) {
            None => Err(Error::Overflow),
            Some(y) => group_of(x.a, y.a),
        },
    }
}

/// The homology group of the complex `c` at dimension `k`.
pub open spec fn group_at(c: Seq<Seq<bool>>, k: nat) -> Result<Group, Error> {
    if !allocatable(select(c, k).len(), select(c, k + 1).len()) || !allocatable(
        select(c, k + 1).len(),
        select(c, k + 2).len(),
    ) {
        Err(Error::Overflow)
    } else {
        homology_of(boundary_matrix(c, k), boundary_matrix(c, k + 1))
    }
}

proof fn lemma_scan_step(d: Seq<int>, i: int)
    requires
        0 <= i < d.len(),
    ensures
        count_nonzero(d.take(i + 1)) == count_nonzero(d.take(i)) + (if d[i] != 0 {
            1nat
        } else {
            0nat
        }),
        torsion_of(d.take(i + 1)) == (if d[i] != 0 && d[i] != 1 {
            torsion_of(d.take(i)).push(d[i])
        } else {
            torsion_of(d.take(i))
        }),
        count_nonzero(d.take(0)) == 0,
        torsion_of(d.take(0)).len() == 0,
        d.take(d.len() as int) == d,
{
    assert(d.take(i + 1).drop_last() =~= d.take(i));
    assert(d.take(d.len() as int) =~= d);
}

/// The torsion coefficients read off a Smith normal form are 2 or more,
/// and each divides the next.
pub proof fn lemma_torsion_chain(a: Mat, n: int)
    requires
        smith_form(a),
        0 <= n <= diag_len(a),
    ensures
        torsion_chain(torsion_of(diag_entries(a).take(n))),
        forall|k: int|
            #![trigger torsion_of(diag_entries(a).take(n))[k]]
            0 <= k < torsion_of(diag_entries(a).take(n)).len() ==> exists|i: int|
                0 <= i < n && a.at(i, i) == torsion_of(diag_entries(a).take(n))[k],
    decreases n,
{
    let d = diag_entries(a);
    if n > 0 {
        lemma_torsion_chain(a, n - 1);
        lemma_scan_step(d, n - 1);
        let prev = torsion_of(d.take(n - 1));
        let cur = torsion_of(d.take(n));
        let x = d[n - 1];
        assert(x == a.at(n - 1, n - 1));
        assert(x >= 0);
        assert forall|k: int| #![trigger cur[k]] 0 <= k < cur.len() implies exists|i: int|
            0 <= i < n && a.at(i, i) == cur[k] by {
            if k < prev.len() {
                let i = choose|i: int| 0 <= i < n - 1 && a.at(i, i) == prev[k];
                assert(a.at(i, i) == cur[k]);
            } else {
                assert(a.at(n - 1, n - 1) == cur[k]);
            }
        }
        if x != 0 && x != 1 && prev.len() > 0 {
            let last = prev[prev.len() - 1];
            let i = choose|i: int| 0 <= i < n - 1 && a.at(i, i) == last;
            lemma_smith_chain(a, i, n - 1);
            assert(cur[prev.len() - 1 + 1] % cur[prev.len() - 1] == 0);
        }
    } else {
        assert(d.take(0).len() == 0);
    }
}

impl HomologyGroup {
    /// Reads the homology group at a dimension off the diagonal forms `a0`
    /// of the boundary map out of that dimension and `a1` of the boundary
    /// map into it.
    pub fn from_normal_forms(a0: &Matrix, a1: &Matrix) -> (r: Result<HomologyGroup, Error>)
        ensures
            match r {
                Ok(g) => group_of(a0@, a1@) == Ok::<Group, Error>(g@),
                Err(e) => group_of(a0@, a1@) == Err::<Group, Error>(e),
            },
            smith_form(a1@) && r is Ok ==> torsion_chain(r.unwrap()@.torsion),
    {
        let ghost d0 = diag_entries(a0@);
        let ghost d1 = diag_entries(a1@);
        let len0 = if a0.nrows() <= a0.ncols() { a0.nrows() } else { a0.ncols() };
        let len1 = if a1.nrows() <= a1.ncols() { a1.nrows() } else { a1.ncols() };
        let mut rank0: usize = 0;
        let mut i: usize = 0;
        proof {
            if len0 > 0 {
                lemma_scan_step(d0, 0);
            } else {
                assert(d0.take(0) =~= d0);
            }
            if len1 > 0 {
                lemma_scan_step(d1, 0);
            } else {
                assert(d1.take(0) =~= d1);
            }
        }
        while i < len0
            invariant
                i <= len0,
                len0 == diag_len(a0@),
                d0 == diag_entries(a0@),
                rank0 == count_nonzero(d0.take(i as int)),
                rank0 <= i,
            decreases len0 - i,
        {
            proof {
                lemma_scan_step(d0, i as int);
            }
            if a0.get(i, i) != 0 {
                rank0 += 1;
            }
            i += 1;
        }
        let mut rank1: usize = 0;
        let mut torsion: Vec<usize> = Vec::new();
        let mut j: usize = 0;
        while j < len1
            invariant
                j <= len1,
                len1 == diag_len(a1@),
                d1 == diag_entries(a1@),
                rank1 == count_nonzero(d1.take(j as int)),
                rank1 <= j,
                torsion@.len() == torsion_of(d1.take(j as int)).len(),
                forall|k: int|
                    0 <= k < torsion@.len() ==> #[trigger] torsion@[k] as int == torsion_of(
                        d1.take(j as int),
                    )[k],
            decreases len1 - j,
        {
            proof {
                lemma_scan_step(d1, j as int);
            }
            let x = a1.get(j, j);
            if x != 0 {
                rank1 += 1;
                if x != 1 {
                    if x < 0 || x > usize::MAX as i128 {
                        proof {
                            lemma_torsion_prefix(d1, j + 1);
                            let t = torsion_of(d1.take(j + 1));
                            assert(t[t.len() - 1] == x);
                        }
                        return Err(Error::Overflow);
                    }
                    torsion.push(x as usize);
                }
            }
            j += 1;
        }
        proof {
            assert(d0.take(len0 as int) =~= d0);
            assert(d1.take(len1 as int) =~= d1);
            let t = torsion_of(d1);
            assert forall|k: int| 0 <= k < t.len() implies 0 <= #[trigger] t[k] <= usize::MAX by {
                assert(torsion@[k] as int == t[k]);
            }
        }
        let dim = a0.ncols();
        let free = match dim.checked_sub(rank0) {
            None => {
                return Err(Error::InternalInvariant);
            },
            Some(rest) => match rest.checked_sub(rank1) {
                None => {
                    return Err(Error::InternalInvariant);
                },
                Some(free) => free,
            },
        };
        let g = HomologyGroup { free, torsion };
        proof {
            assert(g@.torsion =~= torsion_of(d1));
            if smith_form(a1@) {
                lemma_torsion_chain(a1@, len1 as int);
            }
        }
        Ok(g)
    }

    /// The homology group between two consecutive boundary maps: `d0` out
    /// of the dimension and `d1` into it. The free rank is the number of
    /// columns of `d0` less the ranks of both maps; the torsion
    /// coefficients are the invariant factors of `d1` other than 1.
    pub fn of_boundary_maps(d0: &Matrix, d1: &Matrix) -> (r: Result<HomologyGroup, Error>)
        ensures
            match r {
                Ok(g) => homology_of(d0@, d1@) == Ok::<Group, Error>(g@) && torsion_chain(g@.torsion),
                Err(e) => homology_of(d0@, d1@) == Err::<Group, Error>(e),
            },
    {
        let (_, a0, _) = match smith_normal_form(d0) {
            Ok(x) => x,
            Err(e) => {
                return Err(e);
            },
        };
        let (_, a1, _) = match smith_normal_form(d1) {
            Ok(x) => x,
            Err(e) => {
                return Err(e);
            },
        };
        HomologyGroup::from_normal_forms(&a0, &a1)
    }
}

/// Where a prefix holds a coefficient that is not representable, so does
/// the whole list.
proof fn lemma_torsion_prefix(d: Seq<int>, n: int)
    requires
        0 <= n <= d.len(),
    ensures
        torsion_of(d.take(n)).len() <= torsion_of(d).len(),
        forall|k: int|
            0 <= k < torsion_of(d.take(n)).len() ==> #[trigger] torsion_of(d.take(n))[k] == torsion_of(
                d,
            )[k],
    decreases d.len() - n,
{
    if n < d.len() {
        lemma_scan_step(d, n);
        lemma_torsion_prefix(d, n + 1);
        let small = torsion_of(d.take(n));
        let next = torsion_of(d.take(n + 1));
        assert forall|k: int| 0 <= k < small.len() implies #[trigger] small[k] == torsion_of(d)[k] by {
            assert(small[k] == next[k]);
        }
    } else {
        assert(d.take(n) =~= d);
    }
}

/// In the complex `c` of dimension `d`, dimension `k` is the first at
/// which the homology cannot be computed, and `e` is why.
pub open spec fn first_failure(c: Seq<Seq<bool>>, d: nat, k: nat, e: Error) -> bool {
    &&& is_dimension(c, d)
    &&& k <= d
    &&& group_at(c, k) == Err::<Group, Error>(e)
    &&& forall|x: nat| x < k ==> #[trigger] group_at(c, x) is Ok
}

/// The homology groups `H_0, ..., H_d` of a complex of dimension `d`, each
/// computed from the Smith normal forms of the two boundary maps at its
/// dimension. Torsion coefficients are 2 or more, and each divides the
/// next.
///
/// Fails with the error of the first dimension at which a boundary matrix
/// cannot be allocated, a Smith normal form or a coefficient is not
/// representable, or the ranks are inconsistent.
pub fn homology_groups(simplex: SimplicialComplex) -> (r: Result<Vec<HomologyGroup>, Error>)
    ensures
        match r {
            Ok(groups) => {
                &&& groups.len() >= 1
                &&& is_dimension(simplex@, (groups.len() - 1) as nat)
                &&& forall|k: int|
                    0 <= k < groups.len() ==> group_at(simplex@, k as nat) == Ok::<Group, Error>(
                        (#[trigger] groups[k])@,
                    ) && torsion_chain(groups[k]@.torsion)
            },
            Err(e) => exists|d: nat, k: nat| first_failure(simplex@, d, k, e),
        },
{
    let ghost c = simplex@;
    let n = simplex.vertex_count();
    let dim = simplex.dimension();
    proof {
        let i = choose|i: int| 0 <= i < c.len() && popcount(#[trigger] c[i]) == dim + 1;
        lemma_popcount_bound(c[i]);
    }
    let mut groups: Vec<HomologyGroup> = Vec::new();
    let mut d0 = match simplex.boundary_map(0) {
        Ok(m) => m,
        Err(e) => {
            assert(first_failure(c, dim as nat, 0, e));
            return Err(e);
        },
    };
    let mut k: usize = 0;
    while k <= dim
        invariant
            k <= dim + 1,
            dim + 1 <= usize::MAX / 8,
            c == simplex@,
            is_dimension(c, dim as nat),
            d0@ == boundary_matrix(c, k as nat),
            allocatable(select(c, k as nat).len(), select(c, (k + 1) as nat).len()),
            groups.len() == k,
            forall|x: int|
                0 <= x < k ==> group_at(c, x as nat) == Ok::<Group, Error>((#[trigger] groups[x])@)
                    && torsion_chain(groups[x]@.torsion),
        decreases dim + 1 - k,
    {
        let d1 = match simplex.boundary_map(k + 1) {
            Ok(m) => m,
            Err(e) => {
                proof {
                    assert forall|x: nat| x < k implies #[trigger] group_at(c, x) is Ok by {
                        assert(group_at(c, x) == Ok::<Group, Error>(groups[x as int]@));
                    }
                    assert(first_failure(c, dim as nat, k as nat, e));
                }
                return Err(e);
            },
        };
        let hom = match HomologyGroup::of_boundary_maps(&d0, &d1) {
            Ok(g) => g,
            Err(e) => {
                proof {
                    assert forall|x: nat| x < k implies #[trigger] group_at(c, x) is Ok by {
                        assert(group_at(c, x) == Ok::<Group, Error>(groups[x as int]@));
                    }
                    assert(first_failure(c, dim as nat, k as nat, e));
                }
                return Err(e);
            },
        };
        d0 = d1;
        groups.push(hom);
        k += 1;
    }
    Ok(groups)
}

/// The character of a decimal digit.
pub open spec fn digit_char(d: nat) -> char {
    if d == 0 {
        '0'
    } else if d == 1 {
        '1'
    } else if d == 2 {
        '2'
    } else if d == 3 {
        '3'
    } else if d == 4 {
        '4'
    } else if d == 5 {
        '5'
    } else if d == 6 {
        '6'
    } else if d == 7 {
        '7'
    } else if d == 8 {
        '8'
    } else {
        '9'
    }
}

/// The decimal numeral of `n`, without leading zeros.
pub open spec fn decimal_text(n: nat) -> Seq<char>
    decreases n,
{
    if n < 10 {
        seq![digit_char(n)]
    } else {
        decimal_text(n / 10).push(digit_char(n % 10))
    }
}

/// The text of the torsion part: ` x Z/dZ` for each coefficient `d`.
pub open spec fn torsion_text(t: Seq<int>) -> Seq<char>
    decreases t.len(),
{
    if t.len() == 0 {
        Seq::empty()
    } else {
        torsion_text(t.drop_last()) + seq![' ', 'x', ' ', 'Z', '/'] + decimal_text(t.last() as nat)
            + seq!['Z']
    }
}

/// The text of a group: `Z^b` followed by the torsion part.
pub open spec fn group_text(g: Group) -> Seq<char> {
    seq!['Z', '^'] + decimal_text(g.free) + torsion_text(g.torsion)
}

fn digit_str(d: usize) -> (r: &'static str)
    requires
        d < 10,
    ensures
        r@ == seq![digit_char(d as nat)],
{
    proof {
        reveal_strlit("0");
        reveal_strlit("1");
        reveal_strlit("2");
        reveal_strlit("3");
        reveal_strlit("4");
        reveal_strlit("5");
        reveal_strlit("6");
        reveal_strlit("7");
        reveal_strlit("8");
        reveal_strlit("9");
    }
    let r = if d == 0 {
        "0"
    } else if d == 1 {
        "1"
    } else if d == 2 {
        "2"
    } else if d == 3 {
        "3"
    } else if d == 4 {
        "4"
    } else if d == 5 {
        "5"
    } else if d == 6 {
        "6"
    } else if d == 7 {
        "7"
    } else if d == 8 {
        "8"
    } else {
        "9"
    };
    assert(r@ =~= seq![digit_char(d as nat)]);
    r
}

/// The decimal numeral of `n`.
pub fn decimal(n: usize) -> (r: String)
    ensures
        r@ == decimal_text(n as nat),
    decreases n,
{
    if n < 10 {
        String::from_str(digit_str(n))
    } else {
        let mut s = decimal(n / 10);
        s.append(digit_str(n % 10));
        assert(s@ =~= decimal_text(n as nat));
        s
    }
}

impl HomologyGroup {
    /// The group as text: `Z^b`, followed by ` x Z/dZ` for each torsion
    /// coefficient `d` in order.
    pub fn to_string(&self) -> (r: String)
        ensures
            r@ == group_text(self@),
    {
        proof {
            reveal_strlit("Z^");
            reveal_strlit(" x Z/");
            reveal_strlit("Z");
        }
        let mut out = String::from_str("Z^");
        let free = decimal(self.free);
        out.append(free.as_str());
        let ghost t = self@.torsion;
        let mut i: usize = 0;
        assert(t.take(0).len() == 0);
        assert(out@ =~= seq!['Z', '^'] + decimal_text(self.free as nat) + torsion_text(t.take(0)));
        while i < self.torsion.len()
            invariant
                i <= self.torsion.len(),
                t == self@.torsion,
                out@ == seq!['Z', '^'] + decimal_text(self.free as nat) + torsion_text(
                    t.take(i as int),
                ),
            decreases self.torsion.len() - i,
        {
            let d = decimal(self.torsion[i]);
            let ghost before = out@;
            out.append(" x Z/");
            out.append(d.as_str());
            out.append("Z");
            proof {
                reveal_strlit(" x Z/");
                reveal_strlit("Z");
                assert(t.take(i + 1).drop_last() =~= t.take(i as int));
                assert(t.take(i + 1).last() == self.torsion@[i as int] as int);
                assert(" x Z/"@ =~= seq![' ', 'x', ' ', 'Z', '/']);
                assert("Z"@ =~= seq!['Z']);
                assert(out@ =~= seq!['Z', '^'] + decimal_text(self.free as nat) + torsion_text(
                    t.take(i + 1),
                ));
            }
            i += 1;
        }
        assert(t.take(self.torsion.len() as int) =~= t);
        out
    }
}

} // verus!
