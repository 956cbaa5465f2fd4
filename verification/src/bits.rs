use vstd::prelude::*;

verus! {

/// A set of vertices, stored as a bit vector of the `bitvec` crate: bit
/// `v` is set when vertex `v` belongs to the set.
#[verifier::external_body]
pub struct Simplex {
    bits: bitvec::vec::BitVec,
}

/// The bits of the vector, in order.
pub uninterp spec fn bits_of(s: Simplex) -> Seq<bool>;

impl View for Simplex {
    type V = Seq<bool>;

    open spec fn view(&self) -> Seq<bool> {
        bits_of(*self)
    }
}

/// The number of bits that are set.
pub open spec fn popcount(b: Seq<bool>) -> nat
    decreases b.len(),
{
    if b.len() == 0 {
        0
    } else {
        popcount(b.drop_last()) + if b.last() {
            1nat
        } else {
            0nat
        }
    }
}

/// The largest number of bits that a bit vector can hold.
pub open spec fn max_bits() -> nat {
    (usize::MAX / 8) as nat
}

/// `bitvec::vec::BitVec::new`: the empty bit vector.
#[verifier::external_body]
fn bitvec_new() -> (s: Simplex)
    ensures
        bits_of(s) == Seq::<bool>::empty(),
{
    Simplex { bits: bitvec::vec::BitVec::new() }
}

/// `bitvec::vec::BitVec::resize`: the vector is cut to `new_len` bits, or
/// grown to it with copies of `value`. It panics when `new_len` exceeds
/// the largest length a bit vector can have, which the precondition
/// excludes.
#[verifier::external_body]
fn bitvec_resize(s: &mut Simplex, new_len: usize, value: bool)
    requires
        new_len <= max_bits(),
    ensures
        bits_of(*final(s)) == Seq::new(
            new_len as nat,
            |i: int|
                if i < bits_of(*old(s)).len() {
                    bits_of(*old(s))[i]
                } else {
                    value
                },
        ),
{
    s.bits.resize(new_len, value);
}

/// `bitvec::slice::BitSlice::set`: the bit at `index` is replaced, the
/// others stay. It panics out of bounds, which the precondition excludes.
#[verifier::external_body]
fn bitvec_set(s: &mut Simplex, index: usize, value: bool)
    requires
        index < bits_of(*old(s)).len(),
    ensures
        bits_of(*final(s)) == bits_of(*old(s)).update(index as int, value),
{
    s.bits.set(index, value);
}

/// Indexing a `bitvec::slice::BitSlice` by position: the bit there. It
/// panics out of bounds, which the precondition excludes.
#[verifier::external_body]
fn bitvec_get(s: &Simplex, index: usize) -> (b: bool)
    requires
        index < bits_of(*s).len(),
    ensures
        b == bits_of(*s)[index as int],
{
    s.bits[index]
}

/// `bitvec::slice::BitSlice::len`: the number of bits.
#[verifier::external_body]
fn bitvec_len(s: &Simplex) -> (n: usize)
    ensures
        n == bits_of(*s).len(),
{
    s.bits.len()
}

/// `bitvec::slice::BitSlice::count_ones`: the number of bits that are set.
#[verifier::external_body]
fn bitvec_count_ones(s: &Simplex) -> (n: usize)
    ensures
        n == popcount(bits_of(*s)),
{
    s.bits.count_ones()
}

/// `==` on two `bitvec::vec::BitVec`: whether they have the same length
/// and the same bit at each position.
#[verifier::external_body]
fn bitvec_eq(a: &Simplex, b: &Simplex) -> (r: bool)
    ensures
        r == (bits_of(*a) == bits_of(*b)),
{
    a.bits == b.bits
}

/// `Clone::clone` of a `bitvec::vec::BitVec`: a vector with the same bits.
#[verifier::external_body]
fn bitvec_clone(s: &Simplex) -> (c: Simplex)
    ensures
        bits_of(c) == bits_of(*s),
{
    Simplex { bits: s.bits.clone() }
}

/// The number of set bits is at most the number of bits.
pub proof fn lemma_popcount_bound(b: Seq<bool>)
    ensures
        popcount(b) <= b.len(),
    decreases b.len(),
{
    if b.len() > 0 {
        lemma_popcount_bound(b.drop_last());
    }
}

/// A sequence without a set bit has count zero, and conversely.
pub proof fn lemma_popcount_zero(b: Seq<bool>)
    ensures
        popcount(b) == 0 <==> (forall|i: int| 0 <= i < b.len() ==> !b[i]),
    decreases b.len(),
{
    if b.len() > 0 {
        lemma_popcount_zero(b.drop_last());
        if popcount(b) == 0 {
            assert forall|i: int| 0 <= i < b.len() implies !b[i] by {
                if i < b.len() - 1 {
                    assert(b.drop_last()[i] == b[i]);
                }
            }
        } else if !b.last() {
            let i = choose|i: int| 0 <= i < b.drop_last().len() && b.drop_last()[i];
            assert(b[i]);
        }
    }
}

/// Clearing a set bit lowers the count by one; setting a clear bit raises
/// it by one; writing the value a bit has keeps it.
pub proof fn lemma_popcount_update(b: Seq<bool>, v: int, value: bool)
    requires
        0 <= v < b.len(),
    ensures
        popcount(b.update(v, value)) + (if b[v] { 1int } else { 0int }) == popcount(b) + (if value {
            1int
        } else {
            0int
        }),
    decreases b.len(),
{
    let c = b.update(v, value);
    if v == b.len() - 1 {
        assert(c.drop_last() =~= b.drop_last());
    } else {
        lemma_popcount_update(b.drop_last(), v, value);
        assert(c.drop_last() =~= b.drop_last().update(v, value));
    }
}

impl Simplex {
    /// The empty set over `n` vertices: `n` bits, none of them set.
    pub fn empty(n: usize) -> (s: Simplex)
        requires
            n <= max_bits(),
        ensures
            s@ == Seq::new(n as nat, |i: int| false),
    {
        let mut s = bitvec_new();
        bitvec_resize(&mut s, n, false);
        assert(s@ =~= Seq::new(n as nat, |i: int| false));
        s
    }

    /// The number of vertices that the set ranges over.
    pub fn len(&self) -> (n: usize)
        ensures
            n == self@.len(),
    {
        bitvec_len(self)
    }

    /// Whether vertex `v` belongs to the set.
    pub fn contains(&self, v: usize) -> (b: bool)
        requires
            v < self@.len(),
        ensures
            b == self@[v as int],
    {
        bitvec_get(self, v)
    }

    /// Adds vertex `v` to the set, or removes it.
    pub fn set(&mut self, v: usize, value: bool)
        requires
            v < old(self)@.len(),
        ensures
            final(self)@ == old(self)@.update(v as int, value),
    {
        bitvec_set(self, v, value);
    }

    /// The number of vertices in the set.
    pub fn count_ones(&self) -> (n: usize)
        ensures
            n == popcount(self@),
    {
        bitvec_count_ones(self)
    }

    /// Whether two sets have the same vertices, over the same range.
    pub fn same(&self, other: &Simplex) -> (r: bool)
        ensures
            r == (self@ == other@),
    {
        bitvec_eq(self, other)
    }

    /// A copy of the set.
    pub fn duplicate(&self) -> (c: Simplex)
        ensures
            c@ == self@,
    {
        bitvec_clone(self)
    }
}

} // verus!
