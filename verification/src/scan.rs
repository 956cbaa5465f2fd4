use vstd::prelude::*;

verus! {

/// The least index in `lo..hi` at which `f` is not zero, if there is one.
pub open spec fn first_nonzero(f: spec_fn(int) -> int, lo: int, hi: int) -> Option<int>
    decreases hi - lo,
{
    if lo >= hi {
        None
    } else if f(lo) != 0 {
        Some(lo)
    } else {
        first_nonzero(f, lo + 1, hi)
    }
}

/// The number of indices in `lo..hi` at which `f` is not zero.
pub open spec fn nonzeros(f: spec_fn(int) -> int, lo: int, hi: int) -> nat
    decreases hi - lo,
{
    if lo >= hi {
        0
    } else {
        nonzeros(f, lo + 1, hi) + if f(lo) != 0 {
            1nat
        } else {
            0nat
        }
    }
}

/// What `first_nonzero` finds: the index is in range, `f` is not zero
/// there and is zero before it; nothing is found only where `f` is zero
/// throughout.
pub proof fn lemma_first_nonzero(f: spec_fn(int) -> int, lo: int, hi: int)
    ensures
        match first_nonzero(f, lo, hi) {
            Some(k) => lo <= k < hi && f(k) != 0 && forall|x: int| lo <= x < k ==> #[trigger] f(x) == 0,
            None => forall|x: int| lo <= x < hi ==> #[trigger] f(x) == 0,
        },
    decreases hi - lo,
{
    if lo < hi && f(lo) == 0 {
        lemma_first_nonzero(f, lo + 1, hi);
    }
}

/// Two functions that vanish at the same places have the same count.
pub proof fn lemma_nonzeros_same(f: spec_fn(int) -> int, g: spec_fn(int) -> int, lo: int, hi: int)
    requires
        forall|x: int| lo <= x < hi ==> (#[trigger] f(x) == 0) == (#[trigger] g(x) == 0),
    ensures
        nonzeros(f, lo, hi) == nonzeros(g, lo, hi),
    decreases hi - lo,
{
    if lo < hi {
        assert((f(lo) == 0) == (g(lo) == 0));
        lemma_nonzeros_same(f, g, lo + 1, hi);
    }
}

/// Clearing one nonzero value, with the others vanishing at the same
/// places as before, lowers the count by one.
pub proof fn lemma_nonzeros_cleared(
    f: spec_fn(int) -> int,
    g: spec_fn(int) -> int,
    lo: int,
    hi: int,
    at: int,
)
    requires
        lo <= at < hi,
        f(at) != 0,
        g(at) == 0,
        forall|x: int| lo <= x < hi && x != at ==> (#[trigger] f(x) == 0) == (#[trigger] g(x) == 0),
    ensures
        nonzeros(g, lo, hi) + 1 == nonzeros(f, lo, hi),
    decreases hi - lo,
{
    if lo == at {
        assert forall|x: int| lo + 1 <= x < hi implies (#[trigger] f(x) == 0) == (#[trigger] g(x)
            == 0) by {}
        lemma_nonzeros_same(f, g, lo + 1, hi);
    } else {
        assert((f(lo) == 0) == (g(lo) == 0));
        lemma_nonzeros_cleared(f, g, lo + 1, hi, at);
    }
}

} // verus!
