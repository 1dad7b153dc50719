use vstd::prelude::*;

verus! {

/// What `align` computes on machine words: `n` rounded up with the mask of `to`.
pub open spec fn align_spec(n: usize, to: usize) -> usize {
    ((n + to - 1) as usize) & !((to - 1) as usize)
}

/// What `align_back` computes: `n` with the bits of `to - 1` cleared.
pub open spec fn align_back_spec(n: usize, to: usize) -> usize {
    n & !((to - 1) as usize)
}

/// What `is_aligned` decides: no bit of `to - 1` is set in `n`.
pub open spec fn is_aligned_spec(n: usize, to: usize) -> bool {
    n & ((to - 1) as usize) == 0
}

proof fn lemma_mask_round(x: usize, m: usize)
    by (bit_vector)
    ensures
        x & !m == x - (x & m),
        x & m <= m,
        (x & !m) & m == 0,
        x & !m <= x,
{
}

/// Rounding `n` up with the mask of `to` gives a value from `n` to below `n + to`.
pub proof fn lemma_align_bounds(n: usize, to: usize)
    requires
        to >= 1,
        n + to - 1 <= usize::MAX,
    ensures
        n <= align_spec(n, to) < n + to,
{
    lemma_mask_round((n + to - 1) as usize, (to - 1) as usize);
}

/// Round `n` up with the mask of `to`.
pub fn align(n: usize, to: usize) -> (r: usize)
    requires
        to >= 1,
        n + to - 1 <= usize::MAX,
    ensures
        r == align_spec(n, to),
        is_aligned_spec(r, to),
        n <= r < n + to,
{
    proof {
        lemma_mask_round((n + to - 1) as usize, (to - 1) as usize);
    }
    (n + (to - 1)) & !(to - 1)
}

/// Round `n` down with the mask of `to`.
pub fn align_back(n: usize, to: usize) -> (r: usize)
    requires
        to >= 1,
    ensures
        r == align_back_spec(n, to),
        is_aligned_spec(r, to),
        r <= n,
{
    proof {
        lemma_mask_round(n, (to - 1) as usize);
    }
    n & !(to - 1)
}

/// Whether `n` has no bit of `to - 1` set.
pub fn is_aligned(n: usize, to: usize) -> (r: bool)
    requires
        to >= 1,
    ensures
        r == is_aligned_spec(n, to),
{
    n & (to - 1) == 0
}

/// Whether an aligned boundary of `align_to` lies between `base` and `end`.
pub fn on_boundary(base: usize, end: usize, align_to: usize) -> (r: bool)
    requires
        align_to >= 1,
        base + align_to - 1 <= usize::MAX,
    ensures
        r == (align_spec(base, align_to) <= align_back_spec(end, align_to)),
{
    align(base, align_to) <= align_back(end, align_to)
}

} // verus!
