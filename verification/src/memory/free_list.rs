//! The memory allocator's heap: a free list of blocks whose headers sit at the blocks' own
//! addresses, with a running hint of the bytes it holds.
//!
//! As for the general heap of `simple`, the heap is modelled by its headers, kept as records
//! keyed by their address, and by the address of the first header. A field written at an
//! address that holds no header yet starts from an all-zero header.

use vstd::prelude::*;
use std::collections::HashMap;
use super::MemoryError;
use super::simple::{Block, chain, linked, path_of, with_next, with_last, with_end, alloc_fits, alloc_stop, free_byte, lemma_chain_unique, back_linked, lemma_alloc_stop};
use crate::kernel_constants;
use crate::kernel_constants::{align_spec, is_aligned_spec, lemma_align_bounds};

verus! {

broadcast use vstd::std_specs::hash::group_hash_axioms;

/// The header at `a`, or an all-zero one when there is none.
pub open spec fn record(h: Map<usize, Block>, a: usize) -> Block {
    if h.contains_key(a) {
        h[a]
    } else {
        Block { base: 0, end: 0, next: 0, last: 0 }
    }
}

/// The headers after writing `base` into the header at `a`.
pub open spec fn set_base(h: Map<usize, Block>, a: usize, base: usize) -> Map<usize, Block> {
    let b = record(h, a);
    h.insert(a, Block { base, end: b.end, next: b.next, last: b.last })
}

/// The headers after writing `end` into the header at `a`.
pub open spec fn set_end(h: Map<usize, Block>, a: usize, end: usize) -> Map<usize, Block> {
    h.insert(a, with_end(record(h, a), end))
}

/// The headers after writing `next` into the header at `a`.
pub open spec fn set_next(h: Map<usize, Block>, a: usize, next: usize) -> Map<usize, Block> {
    h.insert(a, with_next(record(h, a), next))
}

/// The headers after writing `last` into the header at `a`.
pub open spec fn set_last(h: Map<usize, Block>, a: usize, last: usize) -> Map<usize, Block> {
    h.insert(a, with_last(record(h, a), last))
}

/// The position on `path`, from `i` on, of the first header at or before `around` whose next
/// header lies after `around` or is none; the length of `path` when there is none.
pub open spec fn around_stop(h: Map<usize, Block>, path: Seq<usize>, i: int, around: usize) -> int
    decreases path.len() - i,
{
    if i >= path.len() {
        path.len() as int
    } else if path[i] <= around && (h[path[i]].next > around || h[path[i]].next == 0) {
        i
    } else {
        around_stop(h, path, i + 1, around)
    }
}

/// The headers around `around` on the list from `free`: the last one at or before it and the
/// one after that; none before when the list starts after it, and neither when no header fits.
pub open spec fn find_around_spec(h: Map<usize, Block>, free: usize, around: usize) -> (usize, usize) {
    if free > around {
        (0, free)
    } else {
        let path = path_of(h, free);
        let i = around_stop(h, path, 0, around);
        if i < path.len() {
            (path[i], h[path[i]].next)
        } else {
            (0, 0)
        }
    }
}

/// The headers and first header after linking the header at `new` between `before` and
/// `after`; on an empty list it becomes the only header.
pub open spec fn insert_outcome(h: Map<usize, Block>, free: usize, before: usize, after: usize, new: usize) -> (
    Map<usize, Block>,
    usize,
) {
    if free == 0 {
        (set_next(set_last(h, new, 0), new, 0), new)
    } else {
        let h1 = if before != 0 {
            set_next(h, before, new)
        } else {
            h
        };
        let f = if before != 0 {
            free
        } else {
            new
        };
        let h2 = set_next(set_last(h1, new, before), new, after);
        let h3 = if after != 0 {
            set_last(h2, after, new)
        } else {
            h2
        };
        (h3, f)
    }
}

/// Whether forgetting the `size` bytes at `ptr` runs to its end: the headers it needs are
/// there and the hint holds the size.
pub open spec fn forget_ok(h: Map<usize, Block>, free: usize, hint: usize, ptr: usize, size: usize) -> bool {
    let (before, _) = find_around_spec(h, free, ptr);
    let (last, after) = find_around_spec(h, free, (ptr + size) as usize);
    &&& ptr + size <= usize::MAX
    &&& last != 0 ==> before != 0 && hint >= size && (record(h, last).end < ptr + size ==> after != 0)
}

/// What forgetting the `size` bytes at `ptr` returns, and the headers, first header and hint
/// it leaves.
pub open spec fn forget_outcome(h: Map<usize, Block>, free: usize, hint: usize, ptr: usize, size: usize) -> (
    Result<usize, MemoryError>,
    Map<usize, Block>,
    usize,
    usize,
) {
    let (before, _) = find_around_spec(h, free, ptr);
    let end_at = (ptr + size) as usize;
    let (last, after) = find_around_spec(h, free, end_at);
    if last == 0 {
        (Err(MemoryError::NoPlace), h, free, hint)
    } else if record(h, last).end < end_at {
        // no block reaches past the memory: the block before it ends at `ptr` and links to the
        // block after
        let h1 = set_last(set_next(set_end(h, before, ptr), before, after), after, before);
        (Ok(size), h1, free, (hint - size) as usize)
    } else {
        // the memory's end lies in a block: a header goes at the memory's end
        let maybe_last = record(h, before).last;
        let end = record(h, last).end;
        let h2 = set_end(set_base(h, end_at, end_at), end_at, end);
        let (h4, f4) = if before != ptr {
            insert_outcome(set_end(h2, before, ptr), free, before, after, end_at)
        } else {
            insert_outcome(h2, free, maybe_last, after, end_at)
        };
        (Ok(size), h4, f4, (hint - size) as usize)
    }
}

/// Whether allocating `size` bytes aligned to `align` runs to its end: the addresses of the
/// blocks leave room to align, and where a block fits, the hint holds the size twice over
/// (it is taken off before forgetting, and again by forgetting) and forgetting runs to its end.
pub open spec fn allocate_ok(h: Map<usize, Block>, free: usize, hint: usize, size: usize, align: usize) -> bool {
    let g = super::simple_granularity(size);
    let path = path_of(h, free);
    let i = alloc_stop(h, path, 0, align, g);
    &&& align >= 1
    &&& forall|j: int| 0 <= j < path.len() ==> #[trigger] path[j] + align <= usize::MAX
    &&& i < path.len() ==> hint >= g && forget_ok(h, free, (hint - g) as usize, align_spec(path[i], align), g)
}

/// What allocating `size` bytes aligned to `align` returns, and the headers, first header and
/// hint it leaves: the first block whose aligned address leaves room for the size is found,
/// and the memory there is forgotten.
pub open spec fn allocate_outcome(h: Map<usize, Block>, free: usize, hint: usize, size: usize, align: usize) -> (
    Result<usize, MemoryError>,
    Map<usize, Block>,
    usize,
    usize,
) {
    let g = super::simple_granularity(size);
    let path = path_of(h, free);
    let i = alloc_stop(h, path, 0, align, g);
    if i >= path.len() {
        (Err(MemoryError::OutOfMemory), h, free, hint)
    } else {
        let p = align_spec(path[i], align);
        let (fr, h2, f2, hint2) = forget_outcome(h, free, (hint - g) as usize, p, g);
        match fr {
            Ok(_) => (Ok(p), h2, f2, hint2),
            Err(e) => (Err(e), h2, f2, hint2),
        }
    }
}

/// Whether growing the allocation of `old_size` bytes at `ptr` to `size` bytes runs to its
/// end.
pub open spec fn grow_ok(h: Map<usize, Block>, free: usize, hint: usize, ptr: usize, old_size: usize, size: usize) -> bool {
    let g = super::simple_granularity(size);
    let go = super::simple_granularity(old_size);
    let (before, _) = find_around_spec(h, free, (ptr + go) as usize);
    &&& ptr + go <= usize::MAX
    &&& ptr + g <= usize::MAX
    &&& before == ptr && record(h, before).end >= ptr + g ==> g >= go && forget_ok(
        h,
        free,
        hint,
        (ptr + go) as usize,
        (g - go) as usize,
    )
}

/// What growing the allocation of `old_size` bytes at `ptr` to `size` bytes returns, and the
/// headers, first header and hint it leaves.
pub open spec fn grow_outcome(h: Map<usize, Block>, free: usize, hint: usize, ptr: usize, old_size: usize, size: usize) -> (
    Result<(), MemoryError>,
    Map<usize, Block>,
    usize,
    usize,
) {
    let g = super::simple_granularity(size);
    let go = super::simple_granularity(old_size);
    let (before, _) = find_around_spec(h, free, (ptr + go) as usize);
    if before != ptr || record(h, before).end < ptr + g {
        (Err(MemoryError::OutOfSpace), h, free, hint)
    } else {
        let (fr, h2, f2, hint2) = forget_outcome(h, free, hint, (ptr + go) as usize, (g - go) as usize);
        match fr {
            Ok(_) => (Ok(()), h2, f2, hint2),
            Err(e) => (Err(e), h2, f2, hint2),
        }
    }
}

/// The headers, first header and hint after registering the `size` bytes at `ptr`.
pub open spec fn register_state(h: Map<usize, Block>, free: usize, hint: usize, ptr: usize, size: usize) -> (
    Map<usize, Block>,
    usize,
    usize,
) {
    let (before, after) = find_around_spec(h, free, ptr);
    let h1 = set_end(set_base(h, ptr, ptr), ptr, (ptr + size) as usize);
    let (h2, f2) = insert_outcome(h1, free, before, after, ptr);
    (h2, f2, (hint + size) as usize)
}

/// Whether resizing moves the allocation: `ptr` is not aligned, or the allocation grows and
/// cannot grow in place.
pub open spec fn resize_moves(h: Map<usize, Block>, free: usize, hint: usize, ptr: usize, old_size: usize, size: usize, align: usize) -> bool {
    let gs = super::simple_granularity(size);
    let go = super::simple_granularity(old_size);
    !is_aligned_spec(ptr, align) || (gs > go && grow_outcome(h, free, hint, ptr, old_size, size).0 is Err)
}

/// The heap after the allocation at `ptr` is given back on the way to moving it: the state
/// a failed attempt to grow left (the same as before), with the memory registered and the
/// hint raised twice over.
pub open spec fn resize_released(h: Map<usize, Block>, free: usize, hint: usize, ptr: usize, old_size: usize, size: usize, align: usize) -> (
    Map<usize, Block>,
    usize,
    usize,
) {
    let go = super::simple_granularity(old_size);
    let (g, h0, f0, hint0) = if is_aligned_spec(ptr, align) && super::simple_granularity(size) > go {
        grow_outcome(h, free, hint, ptr, old_size, size)
    } else {
        (Ok(()), h, free, hint)
    };
    let (h1, f1, hint1) = register_state(h0, f0, hint0, ptr, go);
    (h1, f1, (hint1 + go) as usize)
}

/// Whether resizing runs to its end: it does not really shrink an aligned allocation, growing
/// in place runs to its end, and when the allocation moves, giving it back, allocating anew
/// and, when that fails, taking the memory back all run to their ends.
pub open spec fn resize_ok(h: Map<usize, Block>, free: usize, hint: usize, ptr: usize, old_size: usize, size: usize, align: usize) -> bool {
    let gs = super::simple_granularity(size);
    let go = super::simple_granularity(old_size);
    let aligned = is_aligned_spec(ptr, align);
    let (h0, f0, hint0) = if aligned && gs > go {
        let (g, h0, f0, hint0) = grow_outcome(h, free, hint, ptr, old_size, size);
        (h0, f0, hint0)
    } else {
        (h, free, hint)
    };
    let (h1, f1, hint1) = resize_released(h, free, hint, ptr, old_size, size, align);
    let (ar, h2, f2, hint2) = allocate_outcome(h1, f1, hint1, size, align);
    &&& align >= 1
    &&& aligned ==> gs >= go
    &&& aligned && gs > go ==> grow_ok(h, free, hint, ptr, old_size, size)
    &&& resize_moves(h, free, hint, ptr, old_size, size, align) ==> {
        &&& ptr != 0
        &&& ptr + go <= usize::MAX
        &&& hint0 + 2 * go <= usize::MAX
        &&& linked(h1, f1)
        &&& allocate_ok(h1, f1, hint1, size, align)
        &&& ar is Err ==> linked(h2, f2) && if old_size > size {
            ptr + size != 0 && ptr + old_size <= usize::MAX && hint2 + (old_size - size) <= usize::MAX
        } else {
            forget_ok(h2, f2, hint2, (ptr + old_size) as usize, (size - old_size) as usize) && forget_outcome(
                h2,
                f2,
                hint2,
                (ptr + old_size) as usize,
                (size - old_size) as usize,
            ).0 is Ok
        }
    }
}

/// What resizing the allocation of `old_size` bytes at `ptr` to `size` bytes aligned to
/// `align` returns, and the headers, first header and hint it leaves.
pub open spec fn resize_outcome(h: Map<usize, Block>, free: usize, hint: usize, ptr: usize, old_size: usize, size: usize, align: usize) -> (
    Result<usize, MemoryError>,
    Map<usize, Block>,
    usize,
    usize,
) {
    let gs = super::simple_granularity(size);
    let go = super::simple_granularity(old_size);
    if !resize_moves(h, free, hint, ptr, old_size, size, align) {
        if gs > go {
            let (g, h0, f0, hint0) = grow_outcome(h, free, hint, ptr, old_size, size);
            (Ok(ptr), h0, f0, hint0)
        } else {
            (Ok(ptr), h, free, hint)
        }
    } else {
        let (h1, f1, hint1) = resize_released(h, free, hint, ptr, old_size, size, align);
        let (ar, h2, f2, hint2) = allocate_outcome(h1, f1, hint1, size, align);
        match ar {
            Ok(p) => (Ok(p), h2, f2, hint2),
            Err(_) => {
                if old_size > size {
                    // the tail the smaller size leaves is given back
                    let (h3, f3, hint3) = register_state(h2, f2, hint2, (ptr + size) as usize, (old_size - size) as usize);
                    (Err(MemoryError::OutOfMemory), h3, f3, hint3)
                } else {
                    // the bytes the larger size needs are taken
                    let (fr, h3, f3, hint3) = forget_outcome(h2, f2, hint2, (ptr + old_size) as usize, (size - old_size) as usize);
                    (Err(MemoryError::OutOfMemory), h3, f3, hint3)
                }
            },
        }
    }
}

/// Whether the headers on the list from `free` lie in increasing address order.
pub open spec fn ordered(h: Map<usize, Block>, free: usize) -> bool {
    forall|i: int, j: int| 0 <= i < j < path_of(h, free).len() ==> #[trigger] path_of(h, free)[i]
        < #[trigger] path_of(h, free)[j]
}

/// On a list in address order, the search for the headers around `around` settles at the
/// last header at or before it.
proof fn lemma_around_stop(h: Map<usize, Block>, path: Seq<usize>, free: usize, i: int, around: usize)
    requires
        chain(h, path, free),
        forall|a: int, b: int| 0 <= a < b < path.len() ==> #[trigger] path[a] < #[trigger] path[b],
        0 <= i < path.len(),
        path[i] <= around,
    ensures
        i <= around_stop(h, path, i, around) < path.len(),
        path[around_stop(h, path, i, around)] <= around,
        around_stop(h, path, i, around) + 1 < path.len() ==> path[around_stop(h, path, i, around) + 1] > around,
    decreases path.len() - i,
{
    assert(h.contains_key(path[i]));
    if i + 1 < path.len() {
        assert(h[path[i]].next == path[i + 1]);
        assert(h.contains_key(path[i + 1]) && path[i + 1] != 0);
    } else {
        assert(h[path.last()].next == 0);
    }
    if !(path[i] <= around && (h[path[i]].next > around || h[path[i]].next == 0)) {
        lemma_around_stop(h, path, free, i + 1, around);
    }
}

/// A byte is free on the list `p` of blocks exactly when it lies in one of them.
proof fn lemma_free_on(h: Map<usize, Block>, free: usize, p: Seq<usize>)
    requires
        chain(h, p, free),
    ensures
        path_of(h, free) == p,
        forall|x: int| #[trigger] free_byte(h, free, x) == exists|i: int| 0 <= i < p.len() && p[i] <= x < #[trigger] h[p[i]].end,
{
    lemma_chain_unique(h, path_of(h, free), p, free);
}

/// Registering memory at an address that holds no header of a list in address order gives
/// the heap exactly the registered bytes: a byte is free afterwards exactly when it was free
/// before or lies in the memory. The list stays in address order, gains the memory's header
/// and loses none.
#[verifier::rlimit(50)]
#[verifier::spinoff_prover]
pub proof fn lemma_register_gives(h: Map<usize, Block>, free: usize, hint: usize, ptr: usize, size: usize)
    requires
        linked(h, free),
        ordered(h, free),
        ptr != 0,
        ptr + size <= usize::MAX,
        !path_of(h, free).contains(ptr),
    ensures
        ({
            let (h2, f2, hint2) = register_state(h, free, hint, ptr, size);
            &&& linked(h2, f2)
            &&& ordered(h2, f2)
            &&& path_of(h2, f2).to_set() == path_of(h, free).to_set().insert(ptr)
            &&& forall|x: int| #[trigger] free_byte(h2, f2, x) == (free_byte(h, free, x) || ptr <= x < ptr + size)
            &&& tidy(h, free) && apart(h, free, ptr, size) ==> tidy(h2, f2)
        }),
{
    let path = path_of(h, free);
    let n = path.len() as int;
    assert(chain(h, path, free));
    let (before, after) = find_around_spec(h, free, ptr);
    let h1 = set_end(set_base(h, ptr, ptr), ptr, (ptr + size) as usize);
    assert(h1[ptr].end == ptr + size);
    assert forall|j: int| 0 <= j < n implies #[trigger] h1[path[j]] == h[path[j]] by {
        assert(path[j] != ptr);
    }
    let (h2, f2, hint2) = register_state(h, free, hint, ptr, size);
    let (h3, f3) = insert_outcome(h1, free, before, after, ptr);
    assert(h2 == h3 && f2 == f3);
    // the new list, and the position of the new header in it
    let (p2, k) = if free == 0 {
        (seq![ptr], 0int)
    } else if free > ptr {
        (seq![ptr] + path, 0int)
    } else {
        let i = around_stop(h, path, 0, ptr);
        (path.insert(i + 1, ptr), i + 1)
    };
    if free == 0 {
        assert(n == 0);
        assert(before == 0 && after == 0);
        assert(h2[ptr].next == 0 && h2[ptr].end == ptr + size);
        assert(h2[ptr].last == 0);
        assert(chain(h2, p2, f2));
    } else if free > ptr {
        assert(before == 0 && after == free);
        assert(path[0] == free);
        assert(f2 == ptr);
        assert(h2[ptr].next == free && h2[ptr].end == ptr + size);
        assert forall|j: int| 0 <= j < n implies (#[trigger] h2[path[j]]).next == h[path[j]].next && h2[path[j]].end
            == h[path[j]].end && h2.contains_key(path[j]) by {
            assert(path[j] != ptr);
            assert(h.contains_key(path[j]));
        }
        assert forall|m: int| 0 <= m < p2.len() implies #[trigger] h2.contains_key(p2[m]) && p2[m] != 0 by {
            if m > 0 {
                assert(p2[m] == path[m - 1]);
            }
        }
        assert forall|m: int| 0 <= m < p2.len() - 1 implies h2[#[trigger] p2[m]].next == p2[m + 1] by {
            if m > 0 {
                assert(p2[m] == path[m - 1]);
                assert(p2[m + 1] == path[m]);
                assert(h[path[m - 1]].next == path[m]);
            }
        }
        assert(p2.last() == path.last());
        assert(h[path.last()].next == 0);
        assert(chain(h2, p2, f2));
        assert(h2[ptr].last == 0);
        assert(h2[path[0]].last == ptr);
        assert forall|j: int| 0 < j < n implies (#[trigger] h2[path[j]]).last == h[path[j]].last by {
            assert(path[j] != ptr);
            assert(path[0] < path[j]);
        }
    } else {
        assert(path[0] == free);
        lemma_around_stop(h, path, free, 0, ptr);
        let i = around_stop(h, path, 0, ptr);
        assert(before == path[i]);
        assert(path[i] != ptr);
        assert(h.contains_key(path[i]));
        if i + 1 < n {
            assert(h[path[i]].next == path[i + 1]);
        } else {
            assert(h[path.last()].next == 0);
        }
        assert(after == (if i + 1 < n { path[i + 1] } else { 0usize }));
        path.insert_ensures(i + 1, ptr);
        assert(f2 == free);
        assert(h2[ptr].next == after && h2[ptr].end == ptr + size);
        assert(h2[path[i]].next == ptr);
        assert forall|j: int| 0 <= j < n implies h2.contains_key(#[trigger] path[j]) && h2[path[j]].end
            == h[path[j]].end && (j != i ==> h2[path[j]].next == h[path[j]].next) by {
            assert(path[j] != ptr);
            assert(h.contains_key(path[j]));
        }
        assert forall|m: int| 0 <= m < p2.len() implies #[trigger] h2.contains_key(p2[m]) && p2[m] != 0 by {
            if m < i + 1 {
                assert(p2[m] == path[m]);
            } else if m > i + 1 {
                assert(p2[m] == path[m - 1]);
            }
        }
        assert forall|m: int| 0 <= m < p2.len() - 1 implies h2[#[trigger] p2[m]].next == p2[m + 1] by {
            if m < i {
                assert(p2[m] == path[m]);
                assert(p2[m + 1] == path[m + 1]);
                assert(h[path[m]].next == path[m + 1]);
            } else if m == i {
                assert(p2[m] == path[i]);
            } else if m > i + 1 {
                assert(p2[m] == path[m - 1]);
                assert(p2[m + 1] == path[m]);
                assert(h[path[m - 1]].next == path[m]);
            }
        }
        if i + 1 < n {
            assert(p2.last() == path.last());
            assert(h[path.last()].next == 0);
        } else {
            assert(p2.last() == ptr);
        }
        assert(p2[0] == path[0]);
        assert(chain(h2, p2, f2));
        assert(h2[ptr].last == path[i]);
        if i + 1 < n {
            assert(h2[path[i + 1]].last == ptr);
        }
        assert forall|j: int| 0 <= j < n && j != i + 1 implies (#[trigger] h2[path[j]]).last == h[path[j]].last by {
            assert(path[j] != ptr);
            if j > i + 1 {
                assert(path[i + 1] < path[j]);
            }
        }
    }
    assert(h2[ptr].last == (if k == 0 { 0usize } else { path[k - 1] }));
    assert(k < n ==> h2[path[k]].last == ptr);
    assert(forall|j: int| 0 <= j < n && j != k ==> (#[trigger] h2[path[j]]).last == h[path[j]].last);
    lemma_free_on(h2, f2, p2);
    assert(linked(h2, f2));
    // the new list holds the old one with the new header at position `k`
    assert(p2.len() == n + 1 && 0 <= k <= n && p2[k] == ptr);
    assert(forall|m: int| 0 <= m < k ==> #[trigger] p2[m] == path[m]);
    assert(forall|m: int| k < m < p2.len() ==> #[trigger] p2[m] == path[m - 1]);
    assert(h2[ptr].end == ptr + size);
    assert forall|j: int| 0 <= j < n implies (#[trigger] h2[path[j]]).end == h[path[j]].end by {
        assert(path[j] != ptr);
    }
    assert(k > 0 ==> path[k - 1] < ptr);
    assert(k < n ==> ptr < path[k]);
    assert forall|a: int, b: int| 0 <= a < b < p2.len() implies #[trigger] p2[a] < #[trigger] p2[b] by {
        let a0 = if a < k { a } else { a - 1 };
        let b0 = if b < k { b } else { b - 1 };
        if a != k && b != k {
            assert(p2[a] == path[a0] && p2[b] == path[b0]);
        } else if a == k {
            assert(p2[b] == path[b - 1]);
            assert(path[k] <= path[b - 1]);
        } else {
            assert(p2[a] == path[a]);
            assert(path[a] <= path[k - 1]);
        }
    }
    assert(p2.to_set() =~= path.to_set().insert(ptr)) by {
        assert forall|y: usize| p2.to_set().contains(y) implies path.to_set().insert(ptr).contains(y) by {
            let m = choose|m: int| 0 <= m < p2.len() && p2[m] == y;
            if m < k {
                assert(path[m] == y);
            } else if m > k {
                assert(path[m - 1] == y);
            }
        }
        assert forall|y: usize| path.to_set().insert(ptr).contains(y) implies p2.to_set().contains(y) by {
            if y == ptr {
                assert(p2[k] == y);
            } else {
                let j = choose|j: int| 0 <= j < n && path[j] == y;
                if j < k {
                    assert(p2[j] == y);
                } else {
                    assert(p2[j + 1] == y);
                }
            }
        }
    }
    lemma_free_on(h, free, path);
    assert forall|x: int| #[trigger] free_byte(h2, f2, x) == (free_byte(h, free, x) || ptr <= x < ptr + size) by {
        if free_byte(h2, f2, x) {
            let m = choose|m: int| 0 <= m < p2.len() && p2[m] <= x < #[trigger] h2[p2[m]].end;
            if m < k {
                assert(p2[m] == path[m]);
                assert(path[m] <= x < h[path[m]].end);
            } else if m > k {
                assert(p2[m] == path[m - 1]);
                assert(path[m - 1] <= x < h[path[m - 1]].end);
            }
        }
        if ptr <= x < ptr + size {
            assert(p2[k] <= x < h2[p2[k]].end);
        }
        if free_byte(h, free, x) {
            let j = choose|j: int| 0 <= j < n && path[j] <= x < #[trigger] h[path[j]].end;
            if j < k {
                assert(p2[j] == path[j]);
                assert(p2[j] <= x < h2[p2[j]].end);
            } else {
                assert(p2[j + 1] == path[j]);
                assert(p2[j + 1] <= x < h2[p2[j + 1]].end);
            }
        }
    }
    if tidy(h, free) && apart(h, free, ptr, size) {
        lemma_register_tidy(h, free, h2, f2, p2, k, ptr, size);
    }
}

/// Whether each block on the list from `free` ends at or after its header and before the
/// next header.
pub open spec fn spaced(h: Map<usize, Block>, free: usize) -> bool {
    let path = path_of(h, free);
    &&& forall|i: int| 0 <= i < path.len() ==> path[i] <= #[trigger] h[path[i]].end
    &&& forall|i: int| 0 <= i < path.len() - 1 ==> #[trigger] h[path[i]].end < path[i + 1]
}

/// A well-kept heap: its list reaches an end, lies in address order with each block ending
/// before the next header, and links each header back to the one before it.
pub open spec fn tidy(h: Map<usize, Block>, free: usize) -> bool {
    &&& linked(h, free)
    &&& ordered(h, free)
    &&& spaced(h, free)
    &&& back_linked(h, path_of(h, free))
}

/// A list `p` from `free` that is in order, spaced and linked back makes a well-kept heap,
/// and is its list.
proof fn lemma_tidy_witness(h: Map<usize, Block>, free: usize, p: Seq<usize>)
    requires
        chain(h, p, free),
        forall|a: int, b: int| 0 <= a < b < p.len() ==> #[trigger] p[a] < #[trigger] p[b],
        forall|i: int| 0 <= i < p.len() ==> p[i] <= #[trigger] h[p[i]].end,
        forall|i: int| 0 <= i < p.len() - 1 ==> #[trigger] h[p[i]].end < p[i + 1],
        back_linked(h, p),
    ensures
        tidy(h, free),
        path_of(h, free) == p,
{
    lemma_chain_unique(h, path_of(h, free), p, free);
}

/// On a well-kept heap, the headers around an address in the memory of the block at
/// position `i` (its end included) are that block and the next one.
proof fn lemma_find_in_block(h: Map<usize, Block>, free: usize, i: int, x: usize)
    requires
        tidy(h, free),
        0 <= i < path_of(h, free).len(),
        path_of(h, free)[i] <= x <= h[path_of(h, free)[i]].end,
    ensures
        find_around_spec(h, free, x) == (path_of(h, free)[i], h[path_of(h, free)[i]].next),
{
    let path = path_of(h, free);
    assert(chain(h, path, free));
    assert(path[0] == free);
    if i > 0 {
        assert(path[0] < path[i]);
    }
    lemma_around_stop(h, path, free, 0, x);
    let k = around_stop(h, path, 0, x);
    if k < i {
        assert(path[k + 1] <= path[i]);
    } else if k > i {
        assert(h[path[i]].end < path[i + 1]);
        assert(path[i + 1] <= path[k]);
    }
}

/// The headers and first header after taking the memory from `p` to `p + g` out of the block
/// at position `i`, which starts before `p`: the block ends at `p` and a new header at `p + g`
/// holds the rest.
spec fn cut_outcome(h: Map<usize, Block>, free: usize, i: int, p: usize, g: usize) -> (Map<usize, Block>, usize) {
    let a = path_of(h, free)[i];
    let b = h[a];
    let e = (p + g) as usize;
    let h2 = set_end(set_base(h, e, e), e, b.end);
    insert_outcome(set_end(h2, a, p), free, a, b.next, e)
}

/// The headers the cut leaves, one by one.
#[verifier::rlimit(50)]
#[verifier::spinoff_prover]
proof fn lemma_cut_headers(h: Map<usize, Block>, free: usize, i: int, p: usize, g: usize)
    requires
        tidy(h, free),
        0 <= i < path_of(h, free).len(),
        path_of(h, free)[i] < p,
        g > 0,
        p + g <= h[path_of(h, free)[i]].end,
    ensures
        ({
            let path = path_of(h, free);
            let a = path[i];
            let b = h[a];
            let e = (p + g) as usize;
            let (h4, f4) = cut_outcome(h, free, i, p, g);
            &&& f4 == free
            &&& h4[a] == Block { base: b.base, end: p, next: e, last: b.last }
            &&& h4[e] == Block { base: e, end: b.end, next: b.next, last: a }
            &&& b.next == (if i + 1 < path.len() { path[i + 1] } else { 0usize })
            &&& i + 1 < path.len() ==> h4[path[i + 1]] == with_last(h[path[i + 1]], e)
            &&& forall|j: int| 0 <= j < path.len() && j != i && j != i + 1 ==> #[trigger] h4[path[j]] == h[path[j]]
            &&& forall|j: int| 0 <= j < path.len() ==> #[trigger] h4.contains_key(path[j])
            &&& h4.contains_key(e) && e != 0
            &&& forall|j: int| 0 <= j < i ==> #[trigger] path[j] < a
            &&& forall|j: int| i < j < path.len() ==> #[trigger] path[j] > b.end
        }),
{
    let path = path_of(h, free);
    let n = path.len() as int;
    assert(chain(h, path, free));
    let a = path[i];
    let b = h[a];
    let nx = b.next;
    let e = (p + g) as usize;
    assert(h.contains_key(a) && a != 0);
    if i + 1 < n {
        assert(nx == path[i + 1]);
        assert(b.end < path[i + 1]);
    } else {
        assert(nx == 0);
    }
    assert forall|j: int| i < j < path.len() implies #[trigger] path[j] > b.end by {
        assert(h[path[i]].end < path[i + 1]);
        assert(path[i + 1] <= path[j]);
    }
    assert forall|j: int| 0 <= j < i implies #[trigger] path[j] < a by {}
    assert forall|j: int| 0 <= j < path.len() implies #[trigger] h.contains_key(path[j]) by {}
    assert forall|j: int| 0 <= j < n && j != i && j != i + 1 implies #[trigger] cut_outcome(h, free, i, p, g).0[path[j]]
        == h[path[j]] by {
        if j > i {
            assert(path[j] > b.end);
        }
    }
}

/// The cut leaves a well-kept heap whose list has the new header right after the cut block.
#[verifier::rlimit(50)]
#[verifier::spinoff_prover]
proof fn lemma_cut_tidy(h: Map<usize, Block>, free: usize, i: int, p: usize, g: usize)
    requires
        tidy(h, free),
        0 <= i < path_of(h, free).len(),
        path_of(h, free)[i] < p,
        g > 0,
        p + g <= h[path_of(h, free)[i]].end,
    ensures
        tidy(cut_outcome(h, free, i, p, g).0, cut_outcome(h, free, i, p, g).1),
        path_of(cut_outcome(h, free, i, p, g).0, cut_outcome(h, free, i, p, g).1) == path_of(h, free).insert(
            i + 1,
            (p + g) as usize,
        ),
{
    lemma_cut_headers(h, free, i, p, g);
    let path = path_of(h, free);
    let n = path.len() as int;
    assert(chain(h, path, free));
    assert(back_linked(h, path));
    let a = path[i];
    let b = h[a];
    let e = (p + g) as usize;
    let (h4, f4) = cut_outcome(h, free, i, p, g);
    let p2 = path.insert(i + 1, e);
    path.insert_ensures(i + 1, e);
    assert(forall|m: int| 0 <= m <= i ==> #[trigger] p2[m] == path[m]);
    assert(forall|m: int| i + 1 < m < p2.len() ==> #[trigger] p2[m] == path[m - 1]);
    assert(p2[i + 1] == e);
    assert(chain(h4, p2, f4)) by {
        assert(p2[0] == free);
        assert forall|m: int| 0 <= m < p2.len() implies #[trigger] h4.contains_key(p2[m]) && p2[m] != 0 by {
            if m <= i {
                assert(h.contains_key(path[m]) && path[m] != 0);
            } else if m > i + 1 {
                assert(h.contains_key(path[m - 1]) && path[m - 1] != 0);
            }
        }
        assert forall|m: int| 0 <= m < p2.len() - 1 implies h4[#[trigger] p2[m]].next == p2[m + 1] by {
            if m < i {
                assert(h[path[m]].next == path[m + 1]);
                assert(h4[path[m]] == h[path[m]]);
            } else if m > i + 1 {
                assert(h[path[m - 1]].next == path[m]);
                if m - 1 > i + 1 {
                    assert(h4[path[m - 1]] == h[path[m - 1]]);
                }
            } else if m == i + 1 {
                assert(p2[m + 1] == path[i + 1]);
            }
        }
        if i + 1 < n {
            assert(p2.last() == path.last());
            assert(h[path.last()].next == 0);
            if n - 1 > i + 1 {
                assert(h4[path[n - 1]] == h[path[n - 1]]);
            }
        }
    }
    assert forall|x: int, y: int| 0 <= x < y < p2.len() implies #[trigger] p2[x] < #[trigger] p2[y] by {
        if x <= i && y <= i {
        } else if x > i + 1 && y > i + 1 {
            assert(path[x - 1] < path[y - 1]);
        } else if x <= i && y == i + 1 {
            if x < i {
                assert(path[x] < a);
            }
        } else if x <= i {
            if x < i {
                assert(path[x] < a);
            }
            assert(path[y - 1] > b.end);
        } else {
            assert(path[y - 1] > b.end);
        }
    }
    assert forall|m: int| 0 <= m < p2.len() implies p2[m] <= #[trigger] h4[p2[m]].end by {
        if m < i {
            assert(path[m] <= h[path[m]].end);
            assert(h4[path[m]] == h[path[m]]);
        } else if m > i + 1 {
            assert(path[m - 1] <= h[path[m - 1]].end);
        }
    }
    assert forall|m: int| 0 <= m < p2.len() - 1 implies #[trigger] h4[p2[m]].end < p2[m + 1] by {
        if m < i {
            assert(h[path[m]].end < path[m + 1]);
            assert(h4[path[m]] == h[path[m]]);
        } else if m > i + 1 {
            assert(h[path[m - 1]].end < path[m]);
        } else if m == i + 1 {
            assert(p2[m + 1] == path[i + 1]);
            assert(h[path[i]].end < path[i + 1]);
        }
    }
    assert(back_linked(h4, p2)) by {
        assert forall|m: int| 0 <= m < p2.len() implies #[trigger] h4[p2[m]].last == (if m == 0 {
            0usize
        } else {
            p2[m - 1]
        }) by {
            if m < i {
                assert(h[path[m]].last == (if m == 0 { 0usize } else { path[m - 1] }));
                assert(h4[path[m]] == h[path[m]]);
            } else if m == i {
                assert(h[path[m]].last == (if m == 0 { 0usize } else { path[m - 1] }));
            } else if m == i + 2 {
                assert(p2[m] == path[i + 1]);
            } else if m > i + 2 {
                assert(h[path[m - 1]].last == path[m - 2]);
            }
        }
    }
    lemma_tidy_witness(h4, f4, p2);
}

/// The cut takes exactly the memory from `p` to `p + g` out of the heap's free bytes.
#[verifier::rlimit(50)]
#[verifier::spinoff_prover]
proof fn lemma_cut_bytes(h: Map<usize, Block>, free: usize, i: int, p: usize, g: usize)
    requires
        tidy(h, free),
        0 <= i < path_of(h, free).len(),
        path_of(h, free)[i] < p,
        g > 0,
        p + g <= h[path_of(h, free)[i]].end,
    ensures
        forall|x: int| #[trigger] free_byte(cut_outcome(h, free, i, p, g).0, cut_outcome(h, free, i, p, g).1, x)
            == (free_byte(h, free, x) && !(p <= x < p + g)),
{
    lemma_cut_headers(h, free, i, p, g);
    lemma_cut_tidy(h, free, i, p, g);
    let path = path_of(h, free);
    let n = path.len() as int;
    let a = path[i];
    let b = h[a];
    let e = (p + g) as usize;
    let (h4, f4) = cut_outcome(h, free, i, p, g);
    let p2 = path.insert(i + 1, e);
    path.insert_ensures(i + 1, e);
    assert(forall|m: int| 0 <= m <= i ==> #[trigger] p2[m] == path[m]);
    assert(forall|m: int| i + 1 < m < p2.len() ==> #[trigger] p2[m] == path[m - 1]);
    assert(p2[i + 1] == e);
    lemma_free_on(h, free, path);
    lemma_free_on(h4, f4, p2);
    assert forall|x: int| #[trigger] free_byte(h4, f4, x) == (free_byte(h, free, x) && !(p <= x < p + g)) by {
        if free_byte(h4, f4, x) {
            let m = choose|m: int| 0 <= m < p2.len() && p2[m] <= x < #[trigger] h4[p2[m]].end;
            if m < i {
                assert(h4[path[m]] == h[path[m]]);
                assert(path[m] <= x < h[path[m]].end);
                assert(h[path[m]].end < path[m + 1]);
                assert(path[m + 1] <= a);
            } else if m == i {
                assert(path[i] <= x < h[path[i]].end);
            } else if m == i + 1 {
                assert(path[i] <= x < h[path[i]].end);
            } else {
                assert(path[m - 1] <= x < h[path[m - 1]].end);
                if m - 1 > i + 1 {
                    assert(h4[path[m - 1]] == h[path[m - 1]]);
                }
            }
        }
        if free_byte(h, free, x) && !(p <= x < p + g) {
            let j = choose|j: int| 0 <= j < n && path[j] <= x < #[trigger] h[path[j]].end;
            if j < i {
                assert(h4[path[j]] == h[path[j]]);
                assert(p2[j] <= x < h4[p2[j]].end);
            } else if j == i {
                if x < p {
                    assert(p2[i] <= x < h4[p2[i]].end);
                } else {
                    assert(p2[i + 1] <= x < h4[p2[i + 1]].end);
                }
            } else {
                assert(p2[j + 1] == path[j]);
                if j > i + 1 {
                    assert(h4[path[j]] == h[path[j]]);
                }
                assert(p2[j + 1] <= x < h4[p2[j + 1]].end);
            }
        }
    }
}

/// The headers and first header after taking the memory from the header of the block at
/// position `i` to `p + g` out of it: a new header at `p + g` holds the rest and takes the
/// block's place on the list.
spec fn head_outcome(h: Map<usize, Block>, free: usize, i: int, p: usize, g: usize) -> (Map<usize, Block>, usize) {
    let a = path_of(h, free)[i];
    let b = h[a];
    let e = (p + g) as usize;
    let h2 = set_end(set_base(h, e, e), e, b.end);
    insert_outcome(h2, free, b.last, b.next, e)
}

/// The headers taking from the front of a block leaves, one by one.
#[verifier::rlimit(50)]
#[verifier::spinoff_prover]
proof fn lemma_head_headers(h: Map<usize, Block>, free: usize, i: int, p: usize, g: usize)
    requires
        tidy(h, free),
        0 <= i < path_of(h, free).len(),
        path_of(h, free)[i] == p,
        g > 0,
        p + g <= h[path_of(h, free)[i]].end,
    ensures
        ({
            let path = path_of(h, free);
            let a = path[i];
            let b = h[a];
            let e = (p + g) as usize;
            let (h4, f4) = head_outcome(h, free, i, p, g);
            &&& f4 == (if i == 0 { e } else { free })
            &&& h4[e] == Block { base: e, end: b.end, next: b.next, last: b.last }
            &&& b.next == (if i + 1 < path.len() { path[i + 1] } else { 0usize })
            &&& b.last == (if i == 0 { 0usize } else { path[i - 1] })
            &&& i > 0 ==> h4[path[i - 1]] == with_next(h[path[i - 1]], e)
            &&& i + 1 < path.len() ==> h4[path[i + 1]] == with_last(h[path[i + 1]], e)
            &&& forall|j: int| 0 <= j < path.len() && j != i - 1 && j != i && j != i + 1 ==> #[trigger] h4[path[j]]
                == h[path[j]]
            &&& forall|j: int| 0 <= j < path.len() ==> #[trigger] h4.contains_key(path[j])
            &&& h4.contains_key(e) && e != 0
            &&& forall|j: int| 0 <= j < i ==> #[trigger] path[j] < a
            &&& forall|j: int| i < j < path.len() ==> #[trigger] path[j] > b.end
        }),
{
    let path = path_of(h, free);
    let n = path.len() as int;
    assert(chain(h, path, free));
    assert(back_linked(h, path));
    let a = path[i];
    let b = h[a];
    let nx = b.next;
    let e = (p + g) as usize;
    assert(h.contains_key(a) && a != 0);
    assert(b.last == (if i == 0 { 0usize } else { path[i - 1] }));
    if i > 0 {
        assert(path[i - 1] != 0);
    }
    if i + 1 < n {
        assert(nx == path[i + 1]);
        assert(b.end < path[i + 1]);
    } else {
        assert(nx == 0);
    }
    assert forall|j: int| i < j < path.len() implies #[trigger] path[j] > b.end by {
        assert(h[path[i]].end < path[i + 1]);
        assert(path[i + 1] <= path[j]);
    }
    assert forall|j: int| 0 <= j < i implies #[trigger] path[j] < a by {}
    assert forall|j: int| 0 <= j < path.len() implies #[trigger] h.contains_key(path[j]) by {}
    assert forall|j: int| 0 <= j < n && j != i - 1 && j != i && j != i + 1 implies #[trigger] head_outcome(h, free, i, p, g).0[path[j]]
        == h[path[j]] by {
        if j > i {
            assert(path[j] > b.end);
        }
        if j < i - 1 {
            assert(path[j] < path[i - 1]);
        }
    }
}

/// Taking from the front of a block leaves a well-kept heap whose list has the new header in
/// the block's place.
#[verifier::rlimit(50)]
#[verifier::spinoff_prover]
proof fn lemma_head_tidy(h: Map<usize, Block>, free: usize, i: int, p: usize, g: usize)
    requires
        tidy(h, free),
        0 <= i < path_of(h, free).len(),
        path_of(h, free)[i] == p,
        g > 0,
        p + g <= h[path_of(h, free)[i]].end,
    ensures
        tidy(head_outcome(h, free, i, p, g).0, head_outcome(h, free, i, p, g).1),
        path_of(head_outcome(h, free, i, p, g).0, head_outcome(h, free, i, p, g).1) == path_of(h, free).update(
            i,
            (p + g) as usize,
        ),
{
    lemma_head_headers(h, free, i, p, g);
    let path = path_of(h, free);
    let n = path.len() as int;
    assert(chain(h, path, free));
    assert(back_linked(h, path));
    let a = path[i];
    let b = h[a];
    let e = (p + g) as usize;
    let (h4, f4) = head_outcome(h, free, i, p, g);
    let p2 = path.update(i, e);
    assert(forall|m: int| 0 <= m < n && m != i ==> #[trigger] p2[m] == path[m]);
    assert(p2[i] == e);
    assert(forall|m: int| 0 <= m < n && m != i - 1 && m != i && m != i + 1 ==> #[trigger] h4[path[m]] == h[path[m]]);
    assert(chain(h4, p2, f4)) by {
        if i > 0 {
            assert(p2[0] == path[0]);
        }
        assert forall|m: int| 0 <= m < p2.len() implies #[trigger] h4.contains_key(p2[m]) && p2[m] != 0 by {
            if m != i {
                assert(h.contains_key(path[m]) && path[m] != 0);
            }
        }
        assert forall|m: int| 0 <= m < p2.len() - 1 implies h4[#[trigger] p2[m]].next == p2[m + 1] by {
            if m < i - 1 {
                assert(h[path[m]].next == path[m + 1]);
                assert(h4[path[m]] == h[path[m]]);
            } else if m == i - 1 {
            } else if m == i {
            } else if m > i {
                assert(h[path[m]].next == path[m + 1]);
                if m > i + 1 {
                    assert(h4[path[m]] == h[path[m]]);
                }
            }
        }
        if i + 1 < n {
            assert(p2.last() == path.last());
            assert(h[path.last()].next == 0);
            if n - 1 > i + 1 {
                assert(h4[path[n - 1]] == h[path[n - 1]]);
            }
        }
    }
    assert forall|x: int, y: int| 0 <= x < y < p2.len() implies #[trigger] p2[x] < #[trigger] p2[y] by {
        if x != i && y != i {
            assert(path[x] < path[y]);
        } else if x == i {
            assert(path[y] > b.end);
        } else {
            assert(path[x] < a);
        }
    }
    assert forall|m: int| 0 <= m < p2.len() implies p2[m] <= #[trigger] h4[p2[m]].end by {
        if m != i {
            assert(path[m] <= h[path[m]].end);
        }
    }
    assert forall|m: int| 0 <= m < p2.len() - 1 implies #[trigger] h4[p2[m]].end < p2[m + 1] by {
        if m != i && m != i - 1 {
            assert(h[path[m]].end < path[m + 1]);
        } else if m == i - 1 {
            assert(h[path[m]].end < path[i]);
        } else {
            assert(h[path[i]].end < path[i + 1]);
        }
    }
    assert(back_linked(h4, p2)) by {
        assert forall|m: int| 0 <= m < p2.len() implies #[trigger] h4[p2[m]].last == (if m == 0 {
            0usize
        } else {
            p2[m - 1]
        }) by {
            if m != i && m != i + 1 {
                assert(h[path[m]].last == (if m == 0 { 0usize } else { path[m - 1] }));
                if m > 0 {
                    assert(p2[m - 1] == path[m - 1]);
                }
            } else if m == i + 1 {
            } else if m > 0 {
                assert(p2[m - 1] == path[m - 1]);
            }
        }
    }
    lemma_tidy_witness(h4, f4, p2);
}

/// Taking from the front of a block takes exactly the memory from `p` to `p + g` out of the
/// heap's free bytes.
#[verifier::rlimit(50)]
#[verifier::spinoff_prover]
proof fn lemma_head_bytes(h: Map<usize, Block>, free: usize, i: int, p: usize, g: usize)
    requires
        tidy(h, free),
        0 <= i < path_of(h, free).len(),
        path_of(h, free)[i] == p,
        g > 0,
        p + g <= h[path_of(h, free)[i]].end,
    ensures
        forall|x: int| #[trigger] free_byte(head_outcome(h, free, i, p, g).0, head_outcome(h, free, i, p, g).1, x)
            == (free_byte(h, free, x) && !(p <= x < p + g)),
{
    lemma_head_headers(h, free, i, p, g);
    lemma_head_tidy(h, free, i, p, g);
    let path = path_of(h, free);
    let n = path.len() as int;
    let a = path[i];
    let b = h[a];
    let e = (p + g) as usize;
    let (h4, f4) = head_outcome(h, free, i, p, g);
    let p2 = path.update(i, e);
    assert(forall|m: int| 0 <= m < n && m != i ==> #[trigger] p2[m] == path[m]);
    assert(p2[i] == e);
    assert(forall|m: int| 0 <= m < n && m != i ==> (#[trigger] h4[path[m]]).end == h[path[m]].end) by {
        assert forall|m: int| 0 <= m < n && m != i implies (#[trigger] h4[path[m]]).end == h[path[m]].end by {
            if m != i - 1 && m != i + 1 {
                assert(h4[path[m]] == h[path[m]]);
            }
        }
    }
    lemma_free_on(h, free, path);
    lemma_free_on(h4, f4, p2);
    assert forall|x: int| #[trigger] free_byte(h4, f4, x) == (free_byte(h, free, x) && !(p <= x < p + g)) by {
        if free_byte(h4, f4, x) {
            let m = choose|m: int| 0 <= m < p2.len() && p2[m] <= x < #[trigger] h4[p2[m]].end;
            if m < i {
                assert(path[m] <= x < h[path[m]].end);
                assert(h[path[m]].end < path[m + 1]);
                assert(path[m + 1] <= a);
            } else if m == i {
                assert(path[i] <= x < h[path[i]].end);
            } else {
                assert(path[m] <= x < h[path[m]].end);
            }
        }
        if free_byte(h, free, x) && !(p <= x < p + g) {
            let j = choose|j: int| 0 <= j < n && path[j] <= x < #[trigger] h[path[j]].end;
            if j != i {
                assert(p2[j] <= x < h4[p2[j]].end);
            } else {
                assert(p2[i] <= x < h4[p2[i]].end);
            }
        }
    }
}

/// Forgetting memory that lies inside one block of a well-kept heap succeeds and takes
/// exactly that memory out of the heap: a byte is free afterwards exactly when it was free
/// before and lies outside the memory. The heap stays well kept.
pub proof fn lemma_forget_inside(h: Map<usize, Block>, free: usize, hint: usize, ptr: usize, size: usize, i: int)
    requires
        tidy(h, free),
        0 <= i < path_of(h, free).len(),
        path_of(h, free)[i] <= ptr,
        size > 0,
        ptr + size <= h[path_of(h, free)[i]].end,
    ensures
        ({
            let (r, h2, f2, hint2) = forget_outcome(h, free, hint, ptr, size);
            &&& r == Ok::<usize, MemoryError>(size)
            &&& hint2 == (hint - size) as usize
            &&& forall|x: int| #[trigger] free_byte(h2, f2, x) == (free_byte(h, free, x) && !(ptr <= x < ptr + size))
            &&& tidy(h2, f2)
        }),
{
    let path = path_of(h, free);
    let e = (ptr + size) as usize;
    lemma_find_in_block(h, free, i, ptr);
    lemma_find_in_block(h, free, i, e);
    let fo = forget_outcome(h, free, hint, ptr, size);
    if path[i] != ptr {
        assert(fo.1 == cut_outcome(h, free, i, ptr, size).0 && fo.2 == cut_outcome(h, free, i, ptr, size).1);
        lemma_cut_tidy(h, free, i, ptr, size);
        lemma_cut_bytes(h, free, i, ptr, size);
    } else {
        assert(fo.1 == head_outcome(h, free, i, ptr, size).0 && fo.2 == head_outcome(h, free, i, ptr, size).1);
        lemma_head_tidy(h, free, i, ptr, size);
        lemma_head_bytes(h, free, i, ptr, size);
    }
}

/// Allocating from a well-kept heap hands out memory that was free and takes exactly that
/// memory out of the heap: a byte is free afterwards exactly when it was free before and lies
/// outside the allocation. Allocating fails, changing nothing, exactly when the allocation
/// fits in no block; the heap stays well kept.
pub proof fn lemma_allocate_takes(h: Map<usize, Block>, free: usize, hint: usize, size: usize, align: usize)
    requires
        tidy(h, free),
        align >= 1,
        forall|j: int| 0 <= j < path_of(h, free).len() ==> #[trigger] path_of(h, free)[j] + align
            + super::simple_granularity(size) <= usize::MAX,
    ensures
        ({
            let g = super::simple_granularity(size);
            let path = path_of(h, free);
            let (r, h2, f2, hint2) = allocate_outcome(h, free, hint, size, align);
            &&& r is Err <==> forall|j: int| 0 <= j < path.len() ==> !alloc_fits(path[j], #[trigger] h[path[j]], align, g)
            &&& r is Err ==> h2 == h && f2 == free
            &&& r matches Ok(p) ==> {
                &&& forall|x: int| p <= x < p + g ==> #[trigger] free_byte(h, free, x)
                &&& forall|x: int| #[trigger] free_byte(h2, f2, x) == (free_byte(h, free, x) && !(p <= x < p + g))
                &&& tidy(h2, f2)
            }
        }),
{
    let g = super::simple_granularity(size);
    let path = path_of(h, free);
    lemma_alloc_stop(h, path, 0, align, g);
    let i = alloc_stop(h, path, 0, align, g);
    if i < path.len() {
        let a = path[i];
        let b = h[a];
        assert(a + align + g <= usize::MAX);
        lemma_align_bounds(a, align);
        let p = align_spec(a, align);
        assert(alloc_fits(a, b, align, g));
        assert(p + g <= b.end);
        lemma_free_on(h, free, path);
        assert forall|x: int| p <= x < p + g implies #[trigger] free_byte(h, free, x) by {
            assert(path[i] <= x < h[path[i]].end);
        }
        lemma_forget_inside(h, free, (hint - g) as usize, p, g, i);
    }
}

/// Whether the `size` bytes at `ptr` lie apart from the blocks on the list from `free`, with
/// a byte of room on either side: blocks before the memory end before it, and blocks after it
/// start past its end.
pub open spec fn apart(h: Map<usize, Block>, free: usize, ptr: usize, size: usize) -> bool {
    forall|j: int| 0 <= j < path_of(h, free).len() ==> {
        &&& (path_of(h, free)[j] < ptr ==> #[trigger] h[path_of(h, free)[j]].end < ptr)
        &&& (ptr < path_of(h, free)[j] ==> ptr + size < path_of(h, free)[j])
    }
}

/// Inserting a header at position `k` of a well-kept list, for memory apart from its blocks,
/// with the links set around it, leaves a well-kept heap.
#[verifier::rlimit(50)]
#[verifier::spinoff_prover]
proof fn lemma_register_tidy(
    h: Map<usize, Block>,
    free: usize,
    h2: Map<usize, Block>,
    f2: usize,
    p2: Seq<usize>,
    k: int,
    ptr: usize,
    size: usize,
)
    requires
        tidy(h, free),
        apart(h, free, ptr, size),
        chain(h2, p2, f2),
        p2.len() == path_of(h, free).len() + 1,
        0 <= k <= path_of(h, free).len(),
        p2[k] == ptr,
        forall|m: int| 0 <= m < k ==> #[trigger] p2[m] == path_of(h, free)[m],
        forall|m: int| k < m < p2.len() ==> #[trigger] p2[m] == path_of(h, free)[m - 1],
        forall|a: int, b: int| 0 <= a < b < p2.len() ==> #[trigger] p2[a] < #[trigger] p2[b],
        h2[ptr].end == ptr + size,
        forall|j: int| 0 <= j < path_of(h, free).len() ==> (#[trigger] h2[path_of(h, free)[j]]).end == h[path_of(
            h,
            free,
        )[j]].end,
        h2[ptr].last == (if k == 0 { 0usize } else { path_of(h, free)[k - 1] }),
        k < path_of(h, free).len() ==> h2[path_of(h, free)[k]].last == ptr,
        forall|j: int| 0 <= j < path_of(h, free).len() && j != k ==> (#[trigger] h2[path_of(h, free)[j]]).last == h[path_of(
            h,
            free,
        )[j]].last,
    ensures
        tidy(h2, f2),
{
    let path = path_of(h, free);
    let n = path.len() as int;
    assert(back_linked(h, path));
    if k > 0 {
        assert(path[k - 1] < ptr) by {
            assert(p2[k - 1] < p2[k]);
        }
        assert(h[path[k - 1]].end < ptr);
    }
    if k < n {
        assert(ptr < path[k]) by {
            assert(p2[k] < p2[k + 1]);
        }
        assert(ptr + size < path[k]);
    }
    assert forall|m: int| 0 <= m < p2.len() implies p2[m] <= #[trigger] h2[p2[m]].end by {
        if m < k {
            assert(path[m] <= h[path[m]].end);
        } else if m > k {
            assert(path[m - 1] <= h[path[m - 1]].end);
        }
    }
    assert forall|m: int| 0 <= m < p2.len() - 1 implies #[trigger] h2[p2[m]].end < p2[m + 1] by {
        if m < k - 1 {
            assert(h[path[m]].end < path[m + 1]);
        } else if m > k {
            assert(h[path[m - 1]].end < path[m]);
        }
    }
    assert(back_linked(h2, p2)) by {
        assert forall|m: int| 0 <= m < p2.len() implies #[trigger] h2[p2[m]].last == (if m == 0 {
            0usize
        } else {
            p2[m - 1]
        }) by {
            if m < k {
                assert(h[path[m]].last == (if m == 0 { 0usize } else { path[m - 1] }));
            } else if m > k + 1 {
                assert(h[path[m - 1]].last == path[m - 2]);
            }
        }
    }
    lemma_tidy_witness(h2, f2, p2);
}

/// The heap's free list, and a hint of the bytes it holds.
pub struct Manager {
    hint: usize,
    free: usize,
    headers: HashMap<usize, Block>,
}

impl Manager {
    /// The block headers, by address.
    pub closed spec fn headers_view(&self) -> Map<usize, Block> {
        self.headers@
    }

    /// The address of the first header on the free list, zero when the list is empty.
    pub closed spec fn free_view(&self) -> usize {
        self.free
    }

    /// The hint of the bytes the heap holds.
    pub closed spec fn hint_view(&self) -> usize {
        self.hint
    }

    /// The headers on the free list, in order.
    pub open spec fn path(&self) -> Seq<usize> {
        path_of(self.headers_view(), self.free_view())
    }

    /// A heap with no free memory.
    pub fn new() -> (r: Manager)
        ensures
            r.free_view() == 0,
            r.hint_view() == 0,
            r.headers_view() == Map::<usize, Block>::empty(),
            linked(r.headers_view(), r.free_view()),
            tidy(r.headers_view(), r.free_view()),
    {
        let r = Manager { hint: 0, free: 0, headers: HashMap::new() };
        proof {
            assert(chain(r.headers@, Seq::empty(), 0));
            lemma_tidy_witness(r.headers@, 0, Seq::empty());
        }
        r
    }

    /// The hint of the bytes the heap holds.
    pub fn hint(&self) -> (r: usize)
        ensures
            r == self.hint_view(),
    {
        self.hint
    }

    /// The headers around `around`: the last at or before it whose next header lies after it,
    /// and that next header.
    fn find_around(&self, around: usize) -> (r: (usize, usize))
        requires
            linked(self.headers_view(), self.free_view()),
        ensures
            r == find_around_spec(self.headers_view(), self.free_view(), around),
    {
        let ghost h = self.headers_view();
        let ghost path = path_of(h, self.free);
        let mut pointer = self.free;
        if pointer > around {
            return (0, pointer);
        }
        let ghost mut k: int = 0;
        proof {
            assert(chain(h, path, self.free));
        }
        while pointer != 0
            invariant
                h == self.headers_view(),
                path == path_of(h, self.free_view()),
                chain(h, path, self.free_view()),
                self.free_view() <= around,
                0 <= k <= path.len(),
                k < path.len() ==> pointer == path[k],
                k == path.len() ==> pointer == 0,
                around_stop(h, path, 0, around) == around_stop(h, path, k, around),
            decreases path.len() - k,
        {
            proof {
                if k == path.len() {
                    assert(pointer == 0);
                }
                assert(h.contains_key(path[k]));
            }
            let b = self.read(pointer);
            if pointer <= around {
                if b.next > around || b.next == 0 {
                    proof {
                        assert(around_stop(h, path, k, around) == k);
                    }
                    return (pointer, b.next);
                }
            }
            proof {
                if k + 1 < path.len() {
                    assert(h[path[k]].next == path[k + 1]);
                } else {
                    assert(h[path.last()].next == 0);
                }
            }
            pointer = b.next;
            proof {
                k = k + 1;
            }
        }
        proof {
            if k < path.len() {
                assert(h.contains_key(path[k]));
            }
            assert(around_stop(h, path, k, around) == path.len());
        }
        (0, 0)
    }

    /// Link the header at `new` between `before` and `after`.
    fn insert_between(&mut self, before: usize, after: usize, new: usize)
        ensures
            (final(self).headers_view(), final(self).free_view()) == insert_outcome(
                old(self).headers_view(),
                old(self).free_view(),
                before,
                after,
                new,
            ),
            final(self).hint_view() == old(self).hint_view(),
    {
        if self.free == 0 {
            self.free = new;
            let b = self.read(new);
            self.write(new, Block { base: b.base, end: b.end, next: b.next, last: 0 });
            let b = self.read(new);
            self.write(new, Block { base: b.base, end: b.end, next: 0, last: b.last });
            return;
        }
        if before != 0 {
            let b = self.read(before);
            self.write(before, Block { base: b.base, end: b.end, next: new, last: b.last });
        } else {
            self.free = new;
        }
        let b = self.read(new);
        self.write(new, Block { base: b.base, end: b.end, next: b.next, last: before });
        let b = self.read(new);
        self.write(new, Block { base: b.base, end: b.end, next: after, last: b.last });
        if after != 0 {
            let b = self.read(after);
            self.write(after, Block { base: b.base, end: b.end, next: b.next, last: new });
        }
    }

    /// Give the `size` bytes at `ptr` to the heap: a header goes at `ptr`, linked after the
    /// last header at or before it. Neither overlap nor adjacency is looked at.
    pub fn register(&mut self, ptr: usize, size: usize) -> (r: Result<usize, MemoryError>)
        requires
            ptr != 0,
            ptr + size <= usize::MAX,
            old(self).hint_view() + size <= usize::MAX,
            linked(old(self).headers_view(), old(self).free_view()),
        ensures
            r == Ok::<usize, MemoryError>(size),
            (final(self).headers_view(), final(self).free_view(), final(self).hint_view()) == register_state(
                old(self).headers_view(),
                old(self).free_view(),
                old(self).hint_view(),
                ptr,
                size,
            ),
            final(self).hint_view() == old(self).hint_view() + size,
            ({
                let h = old(self).headers_view();
                let (before, after) = find_around_spec(h, old(self).free_view(), ptr);
                let h1 = set_end(set_base(h, ptr, ptr), ptr, (ptr + size) as usize);
                (final(self).headers_view(), final(self).free_view()) == insert_outcome(
                    h1,
                    old(self).free_view(),
                    before,
                    after,
                    ptr,
                )
            }),
    {
        let (before, after) = self.find_around(ptr);
        let b = self.read(ptr);
        self.write(ptr, Block { base: ptr, end: b.end, next: b.next, last: b.last });
        let b = self.read(ptr);
        self.write(ptr, Block { base: b.base, end: ptr + size, next: b.next, last: b.last });
        self.insert_between(before, after, ptr);
        self.hint = self.hint + size;
        Ok(size)
    }

    /// Take the `size` bytes at `ptr` out of the heap.
    pub fn forget(&mut self, ptr: usize, size: usize) -> (r: Result<usize, MemoryError>)
        requires
            linked(old(self).headers_view(), old(self).free_view()),
            forget_ok(old(self).headers_view(), old(self).free_view(), old(self).hint_view(), ptr, size),
        ensures
            (r, final(self).headers_view(), final(self).free_view(), final(self).hint_view()) == forget_outcome(
                old(self).headers_view(),
                old(self).free_view(),
                old(self).hint_view(),
                ptr,
                size,
            ),
    {
        let (before, _) = self.find_around(ptr);
        let end_at = ptr + size;
        let (last, after) = self.find_around(end_at);
        if last == 0 {
            return Err(MemoryError::NoPlace);
        }
        let l = self.read(last);
        if l.end < end_at {
            let b = self.read(before);
            self.write(before, Block { base: b.base, end: ptr, next: b.next, last: b.last });
            let b = self.read(before);
            self.write(before, Block { base: b.base, end: b.end, next: after, last: b.last });
            let a = self.read(after);
            self.write(after, Block { base: a.base, end: a.end, next: a.next, last: before });
        } else {
            let maybe_last = self.read(before).last;
            let end = l.end;
            let n = self.read(end_at);
            self.write(end_at, Block { base: end_at, end: n.end, next: n.next, last: n.last });
            let n = self.read(end_at);
            self.write(end_at, Block { base: n.base, end: end, next: n.next, last: n.last });
            if before != ptr {
                let b = self.read(before);
                self.write(before, Block { base: b.base, end: ptr, next: b.next, last: b.last });
                self.insert_between(before, after, end_at);
            } else {
                self.insert_between(maybe_last, after, end_at);
            }
        }
        self.hint = self.hint - size;
        Ok(size)
    }

    /// Take `size` bytes aligned to `align` (a power of two) from the first free block they
    /// fit in, and hand out their address.
    pub fn allocate(&mut self, size: usize, align: usize) -> (r: Result<usize, MemoryError>)
        requires
            linked(old(self).headers_view(), old(self).free_view()),
            allocate_ok(old(self).headers_view(), old(self).free_view(), old(self).hint_view(), size, align),
        ensures
            (r, final(self).headers_view(), final(self).free_view(), final(self).hint_view()) == allocate_outcome(
                old(self).headers_view(),
                old(self).free_view(),
                old(self).hint_view(),
                size,
                align,
            ),
    {
        let gsize = super::simple::granularity(size, align);
        let ghost h = self.headers_view();
        let ghost path = path_of(h, self.free);
        let mut pointer = self.free;
        let ghost mut k: int = 0;
        proof {
            assert(chain(h, path, self.free));
        }
        while pointer != 0
            invariant
                h == self.headers_view(),
                h == old(self).headers_view(),
                self.free_view() == old(self).free_view(),
                self.hint_view() == old(self).hint_view(),
                path == path_of(h, self.free_view()),
                chain(h, path, self.free_view()),
                gsize == super::simple_granularity(size),
                allocate_ok(h, self.free_view(), self.hint_view(), size, align),
                0 <= k <= path.len(),
                k < path.len() ==> pointer == path[k],
                k == path.len() ==> pointer == 0,
                alloc_stop(h, path, 0, align, gsize) == alloc_stop(h, path, k, align, gsize),
            decreases path.len() - k,
        {
            proof {
                if k == path.len() {
                    assert(pointer == 0);
                }
                assert(h.contains_key(path[k]));
                assert(path[k] + align <= usize::MAX);
            }
            let aligned = kernel_constants::align(pointer, align);
            let b = self.read(pointer);
            if b.end > aligned && b.end - aligned >= gsize {
                proof {
                    assert(alloc_stop(h, path, k, align, gsize) == k);
                }
                self.hint = self.hint - gsize;
                return match self.forget(aligned, gsize) {
                    Ok(_) => Ok(aligned),
                    Err(e) => Err(e),
                };
            }
            proof {
                if k + 1 < path.len() {
                    assert(h[path[k]].next == path[k + 1]);
                } else {
                    assert(h[path.last()].next == 0);
                }
            }
            pointer = b.next;
            proof {
                k = k + 1;
            }
        }
        proof {
            if k < path.len() {
                assert(h.contains_key(path[k]));
            }
        }
        Err(MemoryError::OutOfMemory)
    }

    /// Give the `size` bytes at `ptr`, allocated with alignment `align`, back to the heap; the
    /// hint grows by the size twice over (once by registering, once here).
    pub fn release(&mut self, ptr: usize, size: usize, align: usize) -> (r: Result<usize, MemoryError>)
        requires
            ptr != 0,
            ptr + super::simple_granularity(size) <= usize::MAX,
            old(self).hint_view() + 2 * super::simple_granularity(size) <= usize::MAX,
            linked(old(self).headers_view(), old(self).free_view()),
        ensures
            r == Ok::<usize, MemoryError>(super::simple_granularity(size)),
            ({
                let g = super::simple_granularity(size);
                let (h1, f1, hint1) = register_state(old(self).headers_view(), old(self).free_view(), old(self).hint_view(), ptr, g);
                (final(self).headers_view(), final(self).free_view(), final(self).hint_view()) == (h1, f1, (hint1 + g) as usize)
            }),
            final(self).hint_view() == old(self).hint_view() + 2 * super::simple_granularity(size),
            ({
                let g = super::simple_granularity(size);
                let h = old(self).headers_view();
                let (before, after) = find_around_spec(h, old(self).free_view(), ptr);
                let h1 = set_end(set_base(h, ptr, ptr), ptr, (ptr + g) as usize);
                (final(self).headers_view(), final(self).free_view()) == insert_outcome(
                    h1,
                    old(self).free_view(),
                    before,
                    after,
                    ptr,
                )
            }),
    {
        let size = super::simple::granularity(size, align);
        let registered = self.register(ptr, size)?;
        if registered == size {
            self.hint = self.hint + size;
            Ok(size)
        } else {
            Err(MemoryError::Overlap)
        }
    }

    /// Grow the allocation of `old_size` bytes at `ptr` in place to `size` bytes. This needs a
    /// block whose header is at `ptr` itself to reach past the new end; the bytes from the old
    /// end to the new end are then forgotten.
    pub fn grow(&mut self, ptr: usize, old_size: usize, size: usize, align: usize) -> (r: Result<(), MemoryError>)
        requires
            linked(old(self).headers_view(), old(self).free_view()),
            grow_ok(old(self).headers_view(), old(self).free_view(), old(self).hint_view(), ptr, old_size, size),
        ensures
            (r, final(self).headers_view(), final(self).free_view(), final(self).hint_view()) == grow_outcome(
                old(self).headers_view(),
                old(self).free_view(),
                old(self).hint_view(),
                ptr,
                old_size,
                size,
            ),
    {
        let size = super::simple::granularity(size, align);
        let old_size = super::simple::granularity(old_size, align);
        let (before, _) = self.find_around(ptr + old_size);
        if before != ptr {
            return Err(MemoryError::OutOfSpace);
        }
        if self.read(before).end < ptr + size {
            return Err(MemoryError::OutOfSpace);
        }
        match self.forget(ptr + old_size, size - old_size) {
            Ok(_) => Ok(()),
            Err(e) => Err(e),
        }
    }

    /// Shrink an allocation in place. Only a call that does not really shrink it (the new size
    /// takes at least the bytes the old one took) returns; it changes nothing.
    pub fn shrink(&mut self, ptr: usize, old_size: usize, size: usize, align: usize) -> (r: Result<(), MemoryError>)
        requires
            super::simple_granularity(size) >= super::simple_granularity(old_size),
        ensures
            r == Ok::<(), MemoryError>(()),
            final(self).headers_view() == old(self).headers_view(),
            final(self).free_view() == old(self).free_view(),
            final(self).hint_view() == old(self).hint_view(),
    {
        let size = super::simple::granularity(size, align);
        let old_size = super::simple::granularity(old_size, align);
        assert(size >= old_size);
        Ok(())
    }

    /// Resize the allocation of `old_size` bytes at `ptr` to `size` bytes aligned to `align`:
    /// in place when `ptr` is aligned and the allocation keeps its size or can grow in place,
    /// else by giving the memory back and allocating anew. When no new place is found, the
    /// difference between the two sizes is given back or taken, and the call fails. When the
    /// allocation moves, its bytes go over with `memory::copy_kept`.
    #[verifier::rlimit(60)]
    pub fn resize(&mut self, ptr: usize, old_size: usize, size: usize, align: usize) -> (r: Result<usize, MemoryError>)
        requires
            linked(old(self).headers_view(), old(self).free_view()),
            resize_ok(
                old(self).headers_view(),
                old(self).free_view(),
                old(self).hint_view(),
                ptr,
                old_size,
                size,
                align,
            ),
        ensures
            (r, final(self).headers_view(), final(self).free_view(), final(self).hint_view()) == resize_outcome(
                old(self).headers_view(),
                old(self).free_view(),
                old(self).hint_view(),
                ptr,
                old_size,
                size,
                align,
            ),
    {
        if kernel_constants::is_aligned(ptr, align) {
            let gs = super::simple::granularity(size, align);
            let go = super::simple::granularity(old_size, align);
            if gs > go {
                if self.grow(ptr, old_size, size, align).is_ok() {
                    return Ok(ptr);
                }
            } else if gs < go {
                if self.shrink(ptr, old_size, size, align).is_ok() {
                    return Ok(ptr);
                }
            } else {
                return Ok(ptr);
            }
        }
        match self.release(ptr, old_size, align) {
            Err(e) => {
                return Err(e);
            },
            Ok(_) => {},
        }
        match self.allocate(size, align) {
            Ok(new_ptr) => Ok(new_ptr),
            Err(_) => {
                if old_size > size {
                    let rolled = self.register(ptr + size, old_size - size);
                    assert(rolled is Ok);
                } else {
                    let rolled = self.forget(ptr + old_size, size - old_size);
                    assert(rolled is Ok);
                }
                Err(MemoryError::OutOfMemory)
            },
        }
    }

    fn read(&self, at: usize) -> (r: Block)
        ensures
            r == record(self.headers_view(), at),
    {
        match self.headers.get(&at) {
            Some(b) => *b,
            None => Block { base: 0, end: 0, next: 0, last: 0 },
        }
    }

    fn write(&mut self, at: usize, block: Block)
        ensures
            final(self).headers_view() == old(self).headers_view().insert(at, block),
            final(self).free_view() == old(self).free_view(),
            final(self).hint_view() == old(self).hint_view(),
    {
        self.headers.insert(at, block);
    }
}

} // verus!
