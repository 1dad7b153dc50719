//! The general heap: a list of free blocks, each described by a header at its start.
//!
//! A header records the block's first byte after the header (`base`), its end, and the
//! addresses of the next and the previous header on the list (zero for none). The heap is
//! modelled by its headers, kept as records keyed by their address, and by the address of
//! the first header; the operations read and write these records exactly as they would read
//! and write the headers in memory. A header written over part of another is kept as a record
//! of its own.

use vstd::prelude::*;
use std::collections::HashMap;
use super::MemoryError;
use crate::kernel_constants;
use crate::kernel_constants::{align_spec, is_aligned_spec, lemma_align_bounds};

verus! {

broadcast use vstd::std_specs::hash::group_hash_axioms;

/// The bytes a block header takes.
pub const BLOCK_SIZE: usize = 32;

/// The bytes an allocation of `size` takes on the general heap: at least 32.
pub fn granularity(size: usize, align: usize) -> (r: usize)
    ensures
        r == super::simple_granularity(size),
        r >= size,
        r >= 32,
{
    if size < 32 {
        32
    } else {
        size
    }
}

/// A block header: where the block's memory after the header starts, where the block ends,
/// and the addresses of the next and the previous header (zero for none).
#[derive(Debug, Clone, Copy, PartialEq, Eq, Structural)]
pub struct Block {
    pub base: usize,
    pub end: usize,
    pub next: usize,
    pub last: usize,
}

/// The headers reached from `start` by following `next`, in order, ending at a header whose
/// `next` is zero; empty when `start` is zero.
pub open spec fn chain(h: Map<usize, Block>, path: Seq<usize>, start: usize) -> bool {
    &&& (path.len() == 0 <==> start == 0)
    &&& path.len() > 0 ==> path[0] == start
    &&& forall|i: int| 0 <= i < path.len() ==> #[trigger] h.contains_key(path[i]) && path[i] != 0
    &&& forall|i: int| 0 <= i < path.len() - 1 ==> h[#[trigger] path[i]].next == path[i + 1]
    &&& path.len() > 0 ==> h[path.last()].next == 0
}

/// Whether following `next` from `start` reaches the end of the list.
pub open spec fn linked(h: Map<usize, Block>, start: usize) -> bool {
    exists|path: Seq<usize>| chain(h, path, start)
}

/// The headers on the list that starts at `start`, in order.
pub open spec fn path_of(h: Map<usize, Block>, start: usize) -> Seq<usize> {
    choose|path: Seq<usize>| chain(h, path, start)
}

/// A header `b` with `next` changed to `next`.
pub open spec fn with_next(b: Block, next: usize) -> Block {
    Block { base: b.base, end: b.end, next, last: b.last }
}

/// A header `b` with `last` changed to `last`.
pub open spec fn with_last(b: Block, last: usize) -> Block {
    Block { base: b.base, end: b.end, next: b.next, last }
}

/// A header `b` with `end` changed to `end`.
pub open spec fn with_end(b: Block, end: usize) -> Block {
    Block { base: b.base, end, next: b.next, last: b.last }
}

/// Whether registering the memory from `ptr` to `end` settles at the block `b`: it is the
/// last block, or the memory lies between it and the next one, touching either or both or
/// neither.
pub open spec fn reg_fires(b: Block, ptr: usize, end: usize) -> bool {
    ||| b.next == 0
    ||| (ptr > b.end && end < b.next)
    ||| (ptr == b.end && end == b.next)
    ||| (ptr == b.end && end < b.next)
    ||| (ptr > b.end && end == b.next)
}

/// The position on `path`, from `i` on, of the block where registering settles.
pub open spec fn reg_stop(h: Map<usize, Block>, path: Seq<usize>, i: int, ptr: usize, end: usize) -> int
    decreases path.len() - i,
{
    if i >= path.len() - 1 || reg_fires(h[path[i]], ptr, end) {
        i
    } else {
        reg_stop(h, path, i + 1, ptr, end)
    }
}

/// What registering the `size` bytes at `ptr` returns, and the headers and first header it
/// leaves, on the headers `h` with first header `free`.
pub open spec fn register_outcome(h: Map<usize, Block>, free: usize, ptr: usize, size: usize) -> (
    Result<usize, MemoryError>,
    Map<usize, Block>,
    usize,
) {
    let base = (ptr + BLOCK_SIZE) as usize;
    let end = (ptr + size) as usize;
    if free == 0 {
        if size < BLOCK_SIZE {
            (Err(MemoryError::TinyBlock), h, free)
        } else {
            (Ok(size), h.insert(ptr, Block { base, end, next: 0, last: 0 }), ptr)
        }
    } else if end < free {
        // a new first block
        if size < BLOCK_SIZE {
            (Err(MemoryError::TinyBlock), h, free)
        } else {
            (Ok(size), h.insert(ptr, Block { base, end, next: free, last: 0 }), ptr)
        }
    } else if end == free {
        // the first block grows backwards
        let b = h[free];
        let h1 = h.insert(ptr, Block { base, end: b.end, next: b.next, last: 0 });
        let h2 = if b.next != 0 {
            h1.insert(b.next, with_last(h1[b.next], ptr))
        } else {
            h1
        };
        (Ok(size), h2, ptr)
    } else {
        let path = path_of(h, free);
        let a = path[reg_stop(h, path, 0, ptr, end)];
        let b = h[a];
        if b.next == 0 {
            if ptr > b.end {
                // a new last block
                if size < BLOCK_SIZE {
                    (Err(MemoryError::TinyBlock), h, free)
                } else {
                    (
                        Ok(size),
                        h.insert(a, with_next(b, ptr)).insert(ptr, Block { base, end, next: 0, last: a }),
                        free,
                    )
                }
            } else if ptr == b.end {
                // the last block grows
                (Ok(size), h.insert(a, with_end(b, end)), free)
            } else {
                (Err(MemoryError::NoPlace), h, free)
            }
        } else {
            let n = h[b.next];
            if ptr > b.end && end < b.next {
                // a new block between two: the links are set before the size is checked
                let h1 = h.insert(a, with_next(b, ptr));
                let h2 = h1.insert(b.next, with_last(h1[b.next], ptr));
                if size < BLOCK_SIZE {
                    (Err(MemoryError::TinyBlock), h2, free)
                } else {
                    (Ok(size), h2.insert(ptr, Block { base, end, next: b.next, last: a }), free)
                }
            } else if ptr == b.end && end == b.next {
                // the memory joins the block and the next one
                (Ok(size), h.insert(a, Block { base: b.base, end: n.end, next: n.next, last: b.last }), free)
            } else if ptr == b.end {
                // the block grows
                (Ok(size), h.insert(a, with_end(b, end)), free)
            } else {
                // the next block grows backwards
                (
                    Ok(size),
                    h.insert(a, with_next(b, ptr)).insert(ptr, Block { base, end: n.end, next: n.next, last: a }),
                    free,
                )
            }
        }
    }
}

/// Every header's previous header is zero or a header of `h`.
pub open spec fn backed(h: Map<usize, Block>) -> bool {
    forall|a: usize| #[trigger] h.contains_key(a) ==> h[a].last == 0 || h.contains_key(h[a].last)
}

/// Whether `size` bytes aligned to `align` fit in the block at `a`: the free memory counts
/// from the header's own address.
pub open spec fn alloc_fits(a: usize, b: Block, align: usize, size: usize) -> bool {
    let aligned = align_spec(a, align);
    aligned < b.end && b.end - aligned >= size
}

/// The position on `path`, from `i` on, of the first block where the allocation fits; the
/// length of `path` when there is none.
pub open spec fn alloc_stop(h: Map<usize, Block>, path: Seq<usize>, i: int, align: usize, size: usize) -> int
    decreases path.len() - i,
{
    if i >= path.len() {
        path.len() as int
    } else if alloc_fits(path[i], h[path[i]], align, size) {
        i
    } else {
        alloc_stop(h, path, i + 1, align, size)
    }
}

/// The headers after the neighbours of the block `b` are linked past it: the next header's
/// previous link becomes `last`, and the previous header's next link becomes `next`.
pub open spec fn relink(h: Map<usize, Block>, b: Block, last: usize, next: usize) -> Map<usize, Block> {
    let h1 = if b.next != 0 {
        h.insert(b.next, with_last(h[b.next], last))
    } else {
        h
    };
    if b.last != 0 {
        h1.insert(b.last, with_next(h1[b.last], next))
    } else {
        h1
    }
}

/// What allocating `size` bytes aligned to `align` returns, and the headers and first header
/// it leaves, on the headers `h` with first header `free`.
pub open spec fn allocate_outcome(h: Map<usize, Block>, free: usize, size: usize, align: usize) -> (
    Result<usize, MemoryError>,
    Map<usize, Block>,
    usize,
) {
    let size = super::simple_granularity(size);
    let path = path_of(h, free);
    let i = alloc_stop(h, path, 0, align, size);
    if i >= path.len() {
        (Err(MemoryError::OutOfMemory), h, free)
    } else {
        let a = path[i];
        let b = h[a];
        let aligned = align_spec(a, align);
        let end = (aligned + size) as usize;
        if aligned <= b.base {
            if end + BLOCK_SIZE <= b.end {
                // the block's header moves to the end of the allocation
                let nb = Block { base: (end + BLOCK_SIZE) as usize, end: b.end, next: b.next, last: b.last };
                let f = if b.last != 0 {
                    free
                } else {
                    end
                };
                (Ok(aligned), relink(h, b, end, end).insert(end, nb), f)
            } else {
                // the block is taken off the list
                let f = if b.last != 0 {
                    free
                } else {
                    b.next
                };
                (Ok(aligned), relink(h, b, b.last, b.next), f)
            }
        } else {
            // the block is split around the allocation
            let h1 = h.insert(end, Block { base: (end + BLOCK_SIZE) as usize, end: b.end, next: b.next, last: a });
            let h2 = if b.next != 0 {
                h1.insert(b.next, with_last(h1[b.next], end))
            } else {
                h1
            };
            (Ok(aligned), h2.insert(a, Block { base: h2[a].base, end: aligned, next: end, last: h2[a].last }), free)
        }
    }
}

/// The layout that forgetting needs: each block's base lies between its header and its end,
/// each block ends before the next header, and each header's previous link is an address
/// below it.
pub open spec fn laid_out(h: Map<usize, Block>, path: Seq<usize>) -> bool {
    &&& forall|i: int| 0 <= i < path.len() ==> path[i] <= #[trigger] h[path[i]].base <= h[path[i]].end
        && h[path[i]].last < path[i]
    &&& forall|i: int| 0 <= i < path.len() - 1 ==> #[trigger] h[path[i]].end < path[i + 1]
}

proof fn lemma_end_before(h: Map<usize, Block>, path: Seq<usize>, i: int, j: int)
    requires
        laid_out(h, path),
        0 <= i < j < path.len(),
    ensures
        h[path[i]].end < path[j],
    decreases j - i,
{
    assert(h[path[i]].end < path[i + 1]);
    if i + 1 < j {
        lemma_end_before(h, path, i + 1, j);
        assert(path[i + 1] <= h[path[i + 1]].base <= h[path[i + 1]].end);
    }
}

/// On a list laid out in order, every block ends before every later header.
proof fn lemma_laid_out_sorted(h: Map<usize, Block>, path: Seq<usize>)
    requires
        laid_out(h, path),
    ensures
        forall|i: int, j: int| 0 <= i < j < path.len() ==> h[#[trigger] path[i]].end < #[trigger] path[j],
        forall|i: int, j: int| 0 <= i < j < path.len() ==> #[trigger] path[i] < #[trigger] path[j],
        forall|i: int, j: int| 0 <= i <= j < path.len() ==> h[#[trigger] path[i]].last != #[trigger] path[j],
{
    assert forall|i: int, j: int| 0 <= i < j < path.len() implies h[#[trigger] path[i]].end < #[trigger] path[j] by {
        lemma_end_before(h, path, i, j);
    }
    assert forall|i: int, j: int| 0 <= i <= j < path.len() implies h[#[trigger] path[i]].last != #[trigger] path[j] by {
        assert(path[i] <= h[path[i]].base <= h[path[i]].end);
        if i < j {
            lemma_end_before(h, path, i, j);
            assert(path[i] <= h[path[i]].base <= h[path[i]].end);
        }
    }
    assert forall|i: int, j: int| 0 <= i < j < path.len() implies #[trigger] path[i] < #[trigger] path[j] by {
        lemma_end_before(h, path, i, j);
        assert(path[i] <= h[path[i]].base <= h[path[i]].end);
    }
}

/// What forgetting the memory from `ptr` to `end` does at the header at `a`: the headers it
/// leaves, the bytes it takes off, and whether it is done.
pub open spec fn forget_node(h: Map<usize, Block>, a: usize, ptr: usize, end: usize) -> (
    Map<usize, Block>,
    int,
    bool,
) {
    let b = h[a];
    if b.base >= ptr && end >= b.end {
        // the whole block goes
        let h1 = if b.last != 0 {
            h.insert(b.last, with_next(h[b.last], b.next))
        } else {
            h
        };
        let b1 = h1[a];
        let h2 = if b1.next != 0 {
            h1.insert(b1.next, with_last(h1[b1.next], b1.last))
        } else {
            h1
        };
        (h2, b.end - b.base, false)
    } else if ptr > b.base && ptr < b.end && end >= b.end {
        // the block loses its tail
        (h.insert(a, with_end(b, ptr)), b.end - ptr, false)
    } else if b.base >= ptr && end >= b.base && b.end > end {
        // the block loses its front: its header moves to `end`
        let h1 = h.insert(end, Block { base: (end + BLOCK_SIZE) as usize, end: b.end, next: b.next, last: b.last });
        let b1 = h1[a];
        let h2 = if b1.last != 0 {
            h1.insert(b1.last, with_next(h1[b1.last], end))
        } else {
            h1
        };
        let b2 = h2[a];
        let h3 = if b2.next != 0 {
            h2.insert(b2.next, with_last(h2[b2.next], end))
        } else {
            h2
        };
        (h3, end - b.base, false)
    } else if ptr > b.base && b.end > end {
        // the memory lies inside the block, which is split around it
        let h1 = h.insert(end, Block { base: (end + BLOCK_SIZE) as usize, end: b.end, next: b.next, last: a });
        let h2 = h1.insert(a, with_end(h1[a], ptr));
        let b2 = h2[a];
        let h3 = if b2.next != 0 {
            h2.insert(b2.next, with_last(h2[b2.next], end))
        } else {
            h2
        };
        (h3.insert(a, with_next(h3[a], end)), 0, true)
    } else {
        (h, 0, false)
    }
}

/// The part of a laid-out list from position `k` on, as forgetting walks it.
pub open spec fn suffix_ok(h: Map<usize, Block>, path: Seq<usize>, k: int) -> bool {
    &&& 0 <= k < path.len()
    &&& forall|j: int| k <= j < path.len() ==> #[trigger] h.contains_key(path[j])
    &&& forall|j: int| k <= j < path.len() ==> path[j] <= #[trigger] h[path[j]].base <= h[path[j]].end
    &&& forall|j: int| k <= j < path.len() - 1 ==> #[trigger] h[path[j]].next == path[j + 1]
    &&& h[path.last()].next == 0
    &&& forall|i: int, j: int| k <= i < j < path.len() ==> h[#[trigger] path[i]].end < #[trigger] path[j]
    &&& forall|i: int, j: int| k <= i < j < path.len() ==> #[trigger] path[i] < #[trigger] path[j]
    &&& forall|i: int, j: int| k <= i <= j < path.len() ==> h[#[trigger] path[i]].last != #[trigger] path[j]
}

/// Writing a header whose previous link is zero or a header keeps every previous link on a
/// header.
proof fn lemma_backed_insert(h: Map<usize, Block>, a: usize, b: Block)
    requires
        backed(h),
        b.last == 0 || b.last == a || h.contains_key(b.last),
    ensures
        backed(h.insert(a, b)),
{
    assert forall|x: usize| #[trigger] h.insert(a, b).contains_key(x) implies h.insert(a, b)[x].last == 0
        || h.insert(a, b).contains_key(h.insert(a, b)[x].last) by {
        if x != a {
            assert(h.contains_key(x));
        }
    }
}

/// One step of forgetting keeps the rest of the list as it was, its previous links on
/// headers, and takes off no more than the block holds.
proof fn lemma_forget_node(h: Map<usize, Block>, path: Seq<usize>, k: int, ptr: usize, end: usize)
    requires
        suffix_ok(h, path, k),
        backed(h),
        ptr < end,
        end + BLOCK_SIZE <= usize::MAX,
    ensures
        ({
            let (h1, piece, done) = forget_node(h, path[k], ptr, end);
            &&& backed(h1)
            &&& 0 <= piece <= h[path[k]].end - path[k]
            &&& !done ==> h1[path[k]].next == h[path[k]].next
            &&& !done && k + 1 < path.len() ==> suffix_ok(h1, path, k + 1)
        }),
{
    let a = path[k];
    let b = h[a];
    assert(h.contains_key(a));
    assert(a <= b.base <= b.end);
    assert(b.last != a);
    assert(b.last == 0 || h.contains_key(b.last));
    if k + 1 < path.len() {
        assert(h[path[k]].next == path[k + 1]);
        assert(h.contains_key(path[k + 1]));
    } else {
        assert(b.next == 0);
    }
    assert forall|j: int| k < j < path.len() implies path[j] != a && path[j] != b.last && path[j] > b.end by {
        assert(path[k] < path[j]);
        assert(h[path[k]].end < path[j]);
        assert(h[path[k]].last != path[j]);
    }
    let (h1, piece, done) = forget_node(h, a, ptr, end);
    if b.base >= ptr && end >= b.end {
        let hh = if b.last != 0 {
            h.insert(b.last, with_next(h[b.last], b.next))
        } else {
            h
        };
        if b.last != 0 {
            lemma_backed_insert(h, b.last, with_next(h[b.last], b.next));
        }
        assert(hh[a] == b);
        if b.next != 0 {
            lemma_backed_insert(hh, b.next, with_last(hh[b.next], b.last));
        }
    } else if ptr > b.base && ptr < b.end && end >= b.end {
        lemma_backed_insert(h, a, with_end(b, ptr));
    } else if b.base >= ptr && end >= b.base && b.end > end {
        let nb = Block { base: (end + BLOCK_SIZE) as usize, end: b.end, next: b.next, last: b.last };
        let g1 = h.insert(end, nb);
        lemma_backed_insert(h, end, nb);
        let b1 = g1[a];
        assert(b1.last == b.last);
        assert(b1.next == b.next);
        let g2 = if b1.last != 0 {
            g1.insert(b1.last, with_next(g1[b1.last], end))
        } else {
            g1
        };
        if b1.last != 0 {
            lemma_backed_insert(g1, b1.last, with_next(g1[b1.last], end));
        }
        let b2 = g2[a];
        assert(b2.next == b.next);
        if b2.next != 0 {
            lemma_backed_insert(g2, b2.next, with_last(g2[b2.next], end));
        }
    } else if ptr > b.base && b.end > end {
        let nb = Block { base: (end + BLOCK_SIZE) as usize, end: b.end, next: b.next, last: a };
        let g1 = h.insert(end, nb);
        lemma_backed_insert(h, end, nb);
        let g2 = g1.insert(a, with_end(g1[a], ptr));
        lemma_backed_insert(g1, a, with_end(g1[a], ptr));
        let b2 = g2[a];
        if b2.next != 0 {
            lemma_backed_insert(g2, b2.next, with_last(g2[b2.next], end));
        }
        let g3 = if b2.next != 0 {
            g2.insert(b2.next, with_last(g2[b2.next], end))
        } else {
            g2
        };
        lemma_backed_insert(g3, a, with_next(g3[a], end));
    }
}

/// What forgetting the `size` bytes from `ptr` to `end` returns and leaves, walking `path`
/// from position `i` with `acc` bytes taken off so far.
pub open spec fn forget_walk(
    h: Map<usize, Block>,
    path: Seq<usize>,
    i: int,
    ptr: usize,
    end: usize,
    size: usize,
    acc: int,
) -> (Result<usize, MemoryError>, Map<usize, Block>)
    decreases path.len() - i,
{
    if i < 0 || i >= path.len() {
        (Err(MemoryError::NoPlace), h)
    } else {
        let (h1, piece, done) = forget_node(h, path[i], ptr, end);
        if done {
            (Ok(size), h1)
        } else if i + 1 < path.len() {
            forget_walk(h1, path, i + 1, ptr, end, size, acc + piece)
        } else if acc + piece > 0 {
            (Ok((acc + piece) as usize), h1)
        } else {
            (Err(MemoryError::NoPlace), h1)
        }
    }
}

/// What forgetting the `size` bytes at `ptr` returns, and the headers it leaves, on the
/// headers `h` with first header `free`; the first header never changes.
pub open spec fn forget_outcome(h: Map<usize, Block>, free: usize, ptr: usize, size: usize) -> (
    Result<usize, MemoryError>,
    Map<usize, Block>,
) {
    if free == 0 {
        (Err(MemoryError::OutOfMemory), h)
    } else if size == 0 {
        (Err(MemoryError::TinyBlock), h)
    } else {
        forget_walk(h, path_of(h, free), 0, ptr, (ptr + size) as usize, size, 0)
    }
}

/// The position on `path`, from `i` on, of the block whose header sits at `end` and that
/// reaches `new_end`; the length of `path` when there is none.
pub open spec fn grow_stop(h: Map<usize, Block>, path: Seq<usize>, i: int, end: usize, new_end: usize) -> int
    decreases path.len() - i,
{
    if i >= path.len() {
        path.len() as int
    } else if path[i] == end && h[path[i]].end >= new_end {
        i
    } else {
        grow_stop(h, path, i + 1, end, new_end)
    }
}

/// What growing the allocation of `old_size` bytes at `ptr` to `size` bytes returns, and the
/// headers and first header it leaves, on the headers `h` with first header `free`.
pub open spec fn grow_outcome(h: Map<usize, Block>, free: usize, ptr: usize, old_size: usize, size: usize) -> (
    Result<(), MemoryError>,
    Map<usize, Block>,
    usize,
) {
    let size = super::simple_granularity(size);
    if size <= old_size {
        (Ok(()), h, free)
    } else {
        let end = (ptr + old_size) as usize;
        let new_end = (ptr + size) as usize;
        let path = path_of(h, free);
        let i = grow_stop(h, path, 0, end, new_end);
        if i >= path.len() {
            (Err(MemoryError::OutOfSpace), h, free)
        } else {
            let b = h[end];
            if b.end > new_end {
                // the free block right after the allocation now starts at `new_end`
                let nb = Block { base: (new_end + BLOCK_SIZE) as usize, end: b.end, next: b.next, last: b.last };
                let h1 = if b.last != 0 {
                    h.insert(b.last, with_next(h[b.last], new_end))
                } else {
                    h
                };
                let f = if b.last != 0 {
                    free
                } else {
                    new_end
                };
                (Ok(()), h1.insert(new_end, nb), f)
            } else {
                // the free block right after the allocation is used up
                let h1 = if b.last != 0 {
                    h.insert(b.last, with_next(h[b.last], b.next))
                } else {
                    h
                };
                let b1 = h1[end];
                let h2 = if b1.next != 0 {
                    h1.insert(b1.next, with_last(h1[b1.next], b1.last))
                } else {
                    h1
                };
                (Ok(()), h2, free)
            }
        }
    }
}

/// The list from a header is the same whichever way it is found.
pub proof fn lemma_chain_unique(h: Map<usize, Block>, p: Seq<usize>, q: Seq<usize>, start: usize)
    requires
        chain(h, p, start),
        chain(h, q, start),
    ensures
        p == q,
{
    if p.len() > 0 && q.len() > 0 {
        assert forall|i: int| 0 <= i < p.len() && i < q.len() implies p[i] == q[i] by {
            lemma_chain_prefix(h, p, q, start, i);
        }
        if p.len() < q.len() {
            let n = p.len() - 1;
            assert(p[n] == q[n]);
            assert(h[p.last()].next == 0);
            assert(h[q[n]].next == q[n + 1]);
            assert(h.contains_key(q[n + 1]));
        } else if q.len() < p.len() {
            let n = q.len() - 1;
            assert(p[n] == q[n]);
            assert(h[q.last()].next == 0);
            assert(h[p[n]].next == p[n + 1]);
            assert(h.contains_key(p[n + 1]));
        }
        assert(p =~= q);
    }
}

proof fn lemma_chain_prefix(h: Map<usize, Block>, p: Seq<usize>, q: Seq<usize>, start: usize, i: int)
    requires
        chain(h, p, start),
        chain(h, q, start),
        0 <= i < p.len(),
        i < q.len(),
    ensures
        p[i] == q[i],
    decreases i,
{
    if i > 0 {
        lemma_chain_prefix(h, p, q, start, i - 1);
        assert(h[p[i - 1]].next == p[i]);
        assert(h[q[i - 1]].next == q[i]);
    }
}

/// A well-kept heap: its list reaches an end, every previous link lands on a header, the
/// blocks lie in order with room for their headers, and no previous link points forward.
#[verifier::opaque]
pub open spec fn heap_ok(h: Map<usize, Block>, free: usize) -> bool {
    &&& linked(h, free)
    &&& backed(h)
    &&& laid_out(h, path_of(h, free))
    &&& forall|i: int| 0 <= i < path_of(h, free).len() ==> path_of(h, free)[i] + BLOCK_SIZE
        <= #[trigger] h[path_of(h, free)[i]].base
}

/// A list that meets the conditions of a well-kept heap makes the heap well kept, and is its
/// list.
proof fn lemma_heap_ok_witness(h: Map<usize, Block>, free: usize, p: Seq<usize>)
    requires
        chain(h, p, free),
        backed(h),
        laid_out(h, p),
        forall|i: int| 0 <= i < p.len() ==> p[i] + BLOCK_SIZE <= #[trigger] h[p[i]].base,
    ensures
        heap_ok(h, free),
        path_of(h, free) == p,
{
    reveal(heap_ok);
    assert(linked(h, free));
    lemma_chain_unique(h, path_of(h, free), p, free);
}

/// Where registering settles: a position on the list at or after `k`, at the last block or
/// at a block where it fires.
proof fn lemma_reg_stop(h: Map<usize, Block>, path: Seq<usize>, k: int, ptr: usize, end: usize)
    requires
        0 <= k < path.len(),
    ensures
        k <= reg_stop(h, path, k, ptr, end) < path.len(),
        reg_stop(h, path, k, ptr, end) == path.len() - 1 || reg_fires(
            h[path[reg_stop(h, path, k, ptr, end)]],
            ptr,
            end,
        ),
    decreases path.len() - k,
{
    if k < path.len() - 1 && !reg_fires(h[path[k]], ptr, end) {
        lemma_reg_stop(h, path, k + 1, ptr, end);
    }
}

/// The facts a well-kept heap gives about its list.
proof fn lemma_heap_ok_facts(h: Map<usize, Block>, free: usize)
    requires
        heap_ok(h, free),
    ensures
        chain(h, path_of(h, free), free),
        laid_out(h, path_of(h, free)),
        linked(h, free),
        backed(h),
        forall|i: int| 0 <= i < path_of(h, free).len() ==> path_of(h, free)[i] + BLOCK_SIZE
            <= #[trigger] h[path_of(h, free)[i]].base,
{
    reveal(heap_ok);
}

/// A well-kept heap's list reaches its end.
proof fn lemma_heap_chain(h: Map<usize, Block>, free: usize)
    requires
        heap_ok(h, free),
    ensures
        chain(h, path_of(h, free), free),
{
    reveal(heap_ok);
}

/// On a well-kept heap a block ends before any later header.
proof fn lemma_ordered_pair(h: Map<usize, Block>, free: usize, j: int, k: int)
    requires
        heap_ok(h, free),
        0 <= j < k < path_of(h, free).len(),
    ensures
        path_of(h, free)[j] < path_of(h, free)[k],
        h[path_of(h, free)[j]].end < path_of(h, free)[k],
{
    reveal(heap_ok);
    let path = path_of(h, free);
    lemma_end_before(h, path, j, k);
    assert(path[j] <= h[path[j]].base <= h[path[j]].end);
}

/// An address past the end of the block before position `k` and before the header at `k`
/// is no header of the list.
proof fn lemma_not_on_path(h: Map<usize, Block>, free: usize, x: usize, k: int)
    requires
        heap_ok(h, free),
        0 <= k <= path_of(h, free).len(),
        k > 0 ==> h[path_of(h, free)[k - 1]].end < x,
        k < path_of(h, free).len() ==> x < path_of(h, free)[k],
    ensures
        forall|j: int| 0 <= j < path_of(h, free).len() ==> #[trigger] path_of(h, free)[j] != x,
{
    let path = path_of(h, free);
    lemma_heap_ok_facts(h, free);
    assert forall|j: int| 0 <= j < path.len() implies #[trigger] path[j] != x by {
        if j < k {
            if j < k - 1 {
                lemma_ordered_pair(h, free, j, k - 1);
            }
            assert(path[k - 1] <= h[path[k - 1]].base <= h[path[k - 1]].end);
        } else if j > k {
            lemma_ordered_pair(h, free, k, j);
        }
    }
}

/// Registering at least a header's worth of memory on an empty heap makes a heap of one block.
proof fn lemma_register_empty(h: Map<usize, Block>, ptr: usize, size: usize)
    requires
        backed(h),
        ptr != 0,
        size >= BLOCK_SIZE,
        ptr + size <= usize::MAX,
    ensures
        heap_ok(h.insert(ptr, Block { base: (ptr + BLOCK_SIZE) as usize, end: (ptr + size) as usize, next: 0, last: 0 }), ptr),
        path_of(h.insert(ptr, Block { base: (ptr + BLOCK_SIZE) as usize, end: (ptr + size) as usize, next: 0, last: 0 }), ptr)
            == seq![ptr],
{
    let nb = Block { base: (ptr + BLOCK_SIZE) as usize, end: (ptr + size) as usize, next: 0, last: 0 };
    lemma_backed_insert(h, ptr, nb);
    lemma_heap_ok_witness(h.insert(ptr, nb), ptr, seq![ptr]);
}

/// Registering memory that ends before the first block puts a new block first.
#[verifier::rlimit(60)]
#[verifier::spinoff_prover]
proof fn lemma_register_before(h: Map<usize, Block>, free: usize, ptr: usize, size: usize)
    requires
        heap_ok(h, free),
        free != 0,
        ptr != 0,
        size >= BLOCK_SIZE,
        ptr + size < free,
    ensures
        ({
            let h2 = h.insert(ptr, Block { base: (ptr + BLOCK_SIZE) as usize, end: (ptr + size) as usize, next: free, last: 0 });
            &&& heap_ok(h2, ptr)
            &&& path_of(h2, ptr) == seq![ptr] + path_of(h, free)
        }),
{
    let path = path_of(h, free);
    lemma_heap_ok_facts(h, free);
    let nb = Block { base: (ptr + BLOCK_SIZE) as usize, end: (ptr + size) as usize, next: free, last: 0 };
    let h2 = h.insert(ptr, nb);
    lemma_backed_insert(h, ptr, nb);
    lemma_not_on_path(h, free, ptr, 0);
    let p2 = seq![ptr] + path;
    assert forall|j: int| 0 <= j < p2.len() implies #[trigger] p2[j] == (if j == 0 { ptr } else { path[j - 1] }) by {}
    assert forall|j: int| 0 <= j < path.len() implies #[trigger] h2[path[j]] == h[path[j]] by {}
    assert forall|j: int| 0 <= j < p2.len() implies #[trigger] h2.contains_key(p2[j]) && p2[j] != 0 by {
        if j > 0 {
            assert(h.contains_key(path[j - 1]));
        }
    }
    assert forall|j: int| 0 <= j < p2.len() - 1 implies h2[#[trigger] p2[j]].next == p2[j + 1] by {
        if j > 0 {
            assert(h[path[j - 1]].next == path[j]);
        }
    }
    assert(h[path.last()].next == 0);
    assert(chain(h2, p2, ptr));
    assert forall|x: int| 0 <= x < p2.len() - 1 implies #[trigger] h2[p2[x]].end < p2[x + 1] by {
        if x > 0 {
            assert(h[path[x - 1]].end < path[x]);
        }
    }
    assert forall|x: int| 0 <= x < p2.len() implies p2[x] <= #[trigger] h2[p2[x]].base <= h2[p2[x]].end
        && p2[x] + BLOCK_SIZE <= h2[p2[x]].base by {
        if x > 0 {
            assert(h[path[x - 1]].base <= h[path[x - 1]].end);
        }
    }
    lemma_heap_ok_witness(h2, ptr, p2);
}

/// Registering memory that ends where the first block starts moves the first header back.
#[verifier::rlimit(60)]
#[verifier::spinoff_prover]
proof fn lemma_register_front(h: Map<usize, Block>, free: usize, ptr: usize, size: usize)
    requires
        heap_ok(h, free),
        free != 0,
        ptr != 0,
        ptr + BLOCK_SIZE <= usize::MAX,
        ptr + size == free,
    ensures
        ({
            let (r, h2, f2) = register_outcome(h, free, ptr, size);
            &&& heap_ok(h2, f2)
            &&& path_of(h2, f2) == seq![ptr] + path_of(h, free).skip(1)
        }),
{
    let path = path_of(h, free);
    lemma_heap_ok_facts(h, free);
    let (r, h2, f2) = register_outcome(h, free, ptr, size);
    let b = h[free];
    assert(h.contains_key(path[0]));
    assert(path[0] + BLOCK_SIZE <= h[path[0]].base <= h[path[0]].end);
    let nb = Block { base: (ptr + BLOCK_SIZE) as usize, end: b.end, next: b.next, last: 0 };
    let h1 = h.insert(ptr, nb);
    lemma_backed_insert(h, ptr, nb);
    if b.next != 0 {
        assert(path.len() > 1) by {
            if path.len() == 1 {
                assert(h[path.last()].next == 0);
            }
        }
        assert(h[path[0]].next == path[1]);
        assert(h.contains_key(path[1]));
        lemma_backed_insert(h1, b.next, with_last(h1[b.next], ptr));
    }
    let p2 = seq![ptr] + path.skip(1);
    assert forall|j: int| 0 <= j < p2.len() implies #[trigger] p2[j] == (if j == 0 { ptr } else { path[j] }) by {}
    assert forall|j: int| 1 <= j < path.len() implies #[trigger] path[j] != ptr && path[j] != free by {
        lemma_ordered_pair(h, free, 0, j);
    }
    assert forall|j: int| 2 <= j < path.len() implies #[trigger] h2[path[j]] == h[path[j]] by {
        lemma_ordered_pair(h, free, 1, j);
    }
    assert forall|j: int| 0 <= j < p2.len() implies #[trigger] h2.contains_key(p2[j]) && p2[j] != 0 by {
        if j > 0 {
            assert(h.contains_key(path[j]));
        }
    }
    assert forall|j: int| 0 <= j < p2.len() - 1 implies h2[#[trigger] p2[j]].next == p2[j + 1] by {
        if j > 0 {
            assert(h[path[j]].next == path[j + 1]);
        } else {
            assert(h[path[0]].next == path[1]);
        }
    }
    assert(h[path.last()].next == 0);
    assert(chain(h2, p2, f2));
    assert forall|x: int| 0 <= x < p2.len() - 1 implies #[trigger] h2[p2[x]].end < p2[x + 1] by {
        assert(h[path[x]].end < path[x + 1]);
    }
    assert forall|x: int| 0 <= x < p2.len() implies p2[x] <= #[trigger] h2[p2[x]].base <= h2[p2[x]].end
        && p2[x] + BLOCK_SIZE <= h2[p2[x]].base by {
        assert(h[path[x]].base <= h[path[x]].end);
    }
    lemma_heap_ok_witness(h2, f2, p2);
}

/// Making a block end later, but before the next block, keeps the heap well kept.
proof fn lemma_register_extend(h: Map<usize, Block>, free: usize, i: int, end: usize)
    requires
        heap_ok(h, free),
        0 <= i < path_of(h, free).len(),
        h[path_of(h, free)[i]].end <= end,
        i + 1 < path_of(h, free).len() ==> end < path_of(h, free)[i + 1],
    ensures
        heap_ok(h.insert(path_of(h, free)[i], with_end(h[path_of(h, free)[i]], end)), free),
        path_of(h.insert(path_of(h, free)[i], with_end(h[path_of(h, free)[i]], end)), free) == path_of(h, free),
{
    let path = path_of(h, free);
    lemma_heap_ok_facts(h, free);
    let a = path[i];
    let h2 = h.insert(a, with_end(h[a], end));
    assert(h.contains_key(a));
    lemma_backed_insert(h, a, with_end(h[a], end));
    assert forall|j: int| 0 <= j < path.len() implies #[trigger] h2.contains_key(path[j]) && path[j] != 0 by {
        assert(h.contains_key(path[j]));
    }
    assert forall|j: int| 0 <= j < path.len() - 1 implies h2[#[trigger] path[j]].next == path[j + 1] by {}
    assert(chain(h2, path, free));
    assert forall|x: int| 0 <= x < path.len() - 1 implies #[trigger] h2[path[x]].end < path[x + 1] by {}
    assert forall|x: int| 0 <= x < path.len() implies path[x] <= #[trigger] h2[path[x]].base <= h2[path[x]].end
        && path[x] + BLOCK_SIZE <= h2[path[x]].base by {}
    lemma_heap_ok_witness(h2, free, path);
}

/// Registering memory after the last block adds a block at the end.
#[verifier::rlimit(100)]
#[verifier::spinoff_prover]
proof fn lemma_register_append(h: Map<usize, Block>, free: usize, ptr: usize, size: usize)
    requires
        heap_ok(h, free),
        free != 0,
        ptr + size <= usize::MAX,
        size >= BLOCK_SIZE,
        ptr > h[path_of(h, free).last()].end,
    ensures
        ({
            let a = path_of(h, free).last();
            let h2 = h.insert(a, with_next(h[a], ptr)).insert(
                ptr,
                Block { base: (ptr + BLOCK_SIZE) as usize, end: (ptr + size) as usize, next: 0, last: a },
            );
            &&& heap_ok(h2, free)
            &&& path_of(h2, free) == path_of(h, free).push(ptr)
        }),
{
    let path = path_of(h, free);
    lemma_heap_ok_facts(h, free);
    let i = path.len() - 1;
    let a = path[i];
    let b = h[a];
    assert(h.contains_key(a));
    assert(a <= b.base <= b.end);
    let h1 = h.insert(a, with_next(b, ptr));
    lemma_backed_insert(h, a, with_next(b, ptr));
    let nb = Block { base: (ptr + BLOCK_SIZE) as usize, end: (ptr + size) as usize, next: 0, last: a };
    lemma_backed_insert(h1, ptr, nb);
    let h2 = h1.insert(ptr, nb);
    lemma_not_on_path(h, free, ptr, path.len() as int);
    assert(h2[ptr] == nb);
    assert(h2[a] == with_next(b, ptr));
    let p2 = path.push(ptr);
    assert forall|j: int| 0 <= j < p2.len() implies #[trigger] p2[j] == (if j < path.len() { path[j] } else { ptr }) by {}
    assert forall|j: int| 0 <= j < i implies #[trigger] h2[path[j]] == h[path[j]] by {
        lemma_ordered_pair(h, free, j, i);
    }
    assert forall|j: int| 0 <= j < p2.len() implies #[trigger] h2.contains_key(p2[j]) && p2[j] != 0 by {
        if j < path.len() {
            assert(h.contains_key(path[j]));
        }
    }
    assert forall|j: int| 0 <= j < p2.len() - 1 implies h2[#[trigger] p2[j]].next == p2[j + 1] by {
        if j < i {
            assert(h[path[j]].next == path[j + 1]);
        }
    }
    assert(chain(h2, p2, free));
    assert forall|x: int| 0 <= x < p2.len() - 1 implies #[trigger] h2[p2[x]].end < p2[x + 1] by {
        if x < i {
            assert(h[path[x]].end < path[x + 1]);
        }
    }
    assert forall|x: int| 0 <= x < p2.len() implies p2[x] <= #[trigger] h2[p2[x]].base <= h2[p2[x]].end
        && p2[x] + BLOCK_SIZE <= h2[p2[x]].base by {
        if x < path.len() {
            assert(h[path[x]].base <= h[path[x]].end);
        }
    }
    lemma_heap_ok_witness(h2, free, p2);
}

/// The headers after registering `size` bytes at `ptr` in the gap after the block at
/// position `i` of `path`.
pub open spec fn between_heap(h: Map<usize, Block>, path: Seq<usize>, i: int, ptr: usize, size: usize) -> Map<usize, Block> {
    let a = path[i];
    let next = path[i + 1];
    let h1 = h.insert(a, with_next(h[a], ptr));
    h1.insert(next, with_last(h1[next], ptr)).insert(
        ptr,
        Block { base: (ptr + BLOCK_SIZE) as usize, end: (ptr + size) as usize, next, last: a },
    )
}

/// The headers of the heap after registering in a gap: the new header, the two it sits
/// between with their links set, and all others as they were.
#[verifier::rlimit(60)]
#[verifier::spinoff_prover]
proof fn lemma_between_values(h: Map<usize, Block>, free: usize, i: int, ptr: usize, size: usize)
    requires
        heap_ok(h, free),
        0 <= i < path_of(h, free).len() - 1,
        ptr + size <= usize::MAX,
        ptr > h[path_of(h, free)[i]].end,
        ptr + size < path_of(h, free)[i + 1],
    ensures
        ({
            let path = path_of(h, free);
            let h2 = between_heap(h, path, i, ptr, size);
            &&& forall|j: int| 0 <= j < path.len() ==> #[trigger] path[j] != ptr
            &&& forall|j: int| 0 <= j < path.len() && j != i && j != i + 1 ==> #[trigger] h2[path[j]] == h[path[j]]
            &&& h2[path[i]] == with_next(h[path[i]], ptr)
            &&& h2[path[i + 1]] == with_last(h[path[i + 1]], ptr)
            &&& h2[ptr] == (Block { base: (ptr + BLOCK_SIZE) as usize, end: (ptr + size) as usize, next: path[i + 1], last: path[i] })
            &&& forall|x: usize| #[trigger] h2.contains_key(x) <==> h.contains_key(x) || x == ptr
            &&& backed(h2)
        }),
{
    let path = path_of(h, free);
    lemma_heap_ok_facts(h, free);
    let a = path[i];
    let next = path[i + 1];
    assert(h.contains_key(a) && h.contains_key(next));
    assert(h[path[i]].next == next);
    lemma_ordered_pair(h, free, i, i + 1);
    assert(a <= h[a].base);
    lemma_not_on_path(h, free, ptr, i + 1);
    let h2 = between_heap(h, path, i, ptr, size);
    assert forall|j: int| 0 <= j < path.len() && j != i && j != i + 1 implies #[trigger] h2[path[j]] == h[path[j]] by {
        if j < i {
            lemma_ordered_pair(h, free, j, i);
        } else {
            lemma_ordered_pair(h, free, i + 1, j);
        }
    }
    assert forall|x: usize| #[trigger] h2.contains_key(x) implies h2[x].last == 0 || h2.contains_key(h2[x].last) by {
        if x != ptr && x != next && x != a {
            assert(h.contains_key(x));
        }
    }
}

/// Registering memory that lies in the gap after the block at position `i`, touching
/// neither neighbour, adds a block between them.
#[verifier::rlimit(100)]
#[verifier::spinoff_prover]
proof fn lemma_register_between(h: Map<usize, Block>, free: usize, i: int, ptr: usize, size: usize)
    requires
        heap_ok(h, free),
        0 <= i < path_of(h, free).len() - 1,
        ptr + size <= usize::MAX,
        size >= BLOCK_SIZE,
        ptr > h[path_of(h, free)[i]].end,
        ptr + size < path_of(h, free)[i + 1],
    ensures
        ({
            let path = path_of(h, free);
            let h2 = between_heap(h, path, i, ptr, size);
            &&& heap_ok(h2, free)
            &&& path_of(h2, free) == path.take(i + 1).push(ptr) + path.skip(i + 1)
        }),
{
    let path = path_of(h, free);
    lemma_heap_ok_facts(h, free);
    lemma_between_values(h, free, i, ptr, size);
    let h2 = between_heap(h, path, i, ptr, size);
    let a = path[i];
    let next = path[i + 1];
    assert(h[path[i]].next == next);
    assert(h2[a].next == ptr);
    let p2 = path.take(i + 1).push(ptr) + path.skip(i + 1);
    assert(p2.len() == path.len() + 1);
    assert forall|j: int| 0 <= j < p2.len() implies #[trigger] p2[j] == (if j <= i {
        path[j]
    } else if j == i + 1 {
        ptr
    } else {
        path[j - 1]
    }) by {}
    assert forall|j: int| 0 <= j < p2.len() implies #[trigger] h2.contains_key(p2[j]) && p2[j] != 0 by {
        if j != i + 1 {
            assert(h.contains_key(p2[j]));
        }
    }
    assert forall|j: int| 0 <= j < p2.len() - 1 implies h2[#[trigger] p2[j]].next == p2[j + 1] by {
        if j < i {
            assert(h[path[j]].next == path[j + 1]);
        } else if j > i + 1 {
            assert(h[path[j - 1]].next == path[j]);
        }
    }
    assert(p2.last() == path.last());
    assert(h[path.last()].next == 0);
    assert(chain(h2, p2, free));
    assert forall|x: int| 0 <= x < p2.len() - 1 implies #[trigger] h2[p2[x]].end < p2[x + 1] by {
        if x < i {
            assert(h[path[x]].end < path[x + 1]);
        } else if x > i + 1 {
            assert(h[path[x - 1]].end < path[x]);
        }
    }
    assert forall|x: int| 0 <= x < p2.len() implies p2[x] <= #[trigger] h2[p2[x]].base <= h2[p2[x]].end
        && h2[p2[x]].last < p2[x] && p2[x] + BLOCK_SIZE <= h2[p2[x]].base by {
        if x <= i {
            assert(h[path[x]].base <= h[path[x]].end);
        } else if x > i + 1 {
            assert(h[path[x - 1]].base <= h[path[x - 1]].end);
        }
    }
    lemma_heap_ok_witness(h2, free, p2);
}

/// Registering exactly the gap between the block at position `i` and the next joins the two.
#[verifier::rlimit(100)]
#[verifier::spinoff_prover]
proof fn lemma_register_join(h: Map<usize, Block>, free: usize, i: int)
    requires
        heap_ok(h, free),
        0 <= i < path_of(h, free).len() - 1,
    ensures
        ({
            let path = path_of(h, free);
            let a = path[i];
            let b = h[a];
            let n = h[path[i + 1]];
            let h2 = h.insert(a, Block { base: b.base, end: n.end, next: n.next, last: b.last });
            &&& heap_ok(h2, free)
            &&& path_of(h2, free) == path.take(i + 1) + path.skip(i + 2)
        }),
{
    let path = path_of(h, free);
    lemma_heap_ok_facts(h, free);
    let a = path[i];
    let b = h[a];
    let next = path[i + 1];
    assert(h.contains_key(a) && h.contains_key(next));
    assert(h[path[i]].next == next);
    let n = h[next];
    assert(a <= b.base <= b.end);
    assert(next <= n.base <= n.end);
    let nb = Block { base: b.base, end: n.end, next: n.next, last: b.last };
    let h2 = h.insert(a, nb);
    lemma_backed_insert(h, a, nb);
    let p2 = path.take(i + 1) + path.skip(i + 2);
    assert(p2.len() == path.len() - 1);
    assert forall|j: int| 0 <= j < p2.len() implies #[trigger] p2[j] == (if j <= i {
        path[j]
    } else {
        path[j + 1]
    }) by {}
    assert forall|j: int| 0 <= j < path.len() && j != i implies #[trigger] h2[path[j]] == h[path[j]] by {
        if j < i {
            lemma_ordered_pair(h, free, j, i);
        } else {
            lemma_ordered_pair(h, free, i, j);
        }
    }
    assert forall|j: int| 0 <= j < p2.len() implies #[trigger] h2.contains_key(p2[j]) && p2[j] != 0 by {
        assert(h.contains_key(p2[j]));
    }
    assert forall|j: int| 0 <= j < p2.len() - 1 implies h2[#[trigger] p2[j]].next == p2[j + 1] by {
        if j < i {
            assert(h[path[j]].next == path[j + 1]);
        } else if j == i {
            assert(h[path[i + 1]].next == path[i + 2]);
        } else {
            assert(h[path[j + 1]].next == path[j + 2]);
        }
    }
    if i + 1 == path.len() - 1 {
        assert(h[path.last()].next == 0);
        assert(p2.last() == a);
    } else {
        assert(p2.last() == path.last());
        assert(h[path.last()].next == 0);
    }
    assert(chain(h2, p2, free));
    assert forall|x: int| 0 <= x < p2.len() - 1 implies #[trigger] h2[p2[x]].end < p2[x + 1] by {
        if x < i {
            assert(h[path[x]].end < path[x + 1]);
        } else if x == i {
            assert(n.end < path[i + 2]);
        } else {
            assert(h[path[x + 1]].end < path[x + 2]);
        }
    }
    assert forall|x: int| 0 <= x < p2.len() implies p2[x] <= #[trigger] h2[p2[x]].base <= h2[p2[x]].end
        && h2[p2[x]].last < p2[x] && p2[x] + BLOCK_SIZE <= h2[p2[x]].base by {
        if x < i {
            assert(h[path[x]].base <= h[path[x]].end);
        } else if x > i {
            assert(h[path[x + 1]].base <= h[path[x + 1]].end);
        } else {
            assert(b.end < next);
        }
    }
    lemma_heap_ok_witness(h2, free, p2);
}

/// Registering memory that ends where the block after position `i` starts, without touching
/// the block at `i`, moves that next header back.
#[verifier::rlimit(100)]
#[verifier::spinoff_prover]
proof fn lemma_register_next(h: Map<usize, Block>, free: usize, i: int, ptr: usize, size: usize)
    requires
        heap_ok(h, free),
        0 <= i < path_of(h, free).len() - 1,
        ptr + BLOCK_SIZE <= usize::MAX,
        ptr > h[path_of(h, free)[i]].end,
        ptr + size == path_of(h, free)[i + 1],
        size > 0,
    ensures
        ({
            let path = path_of(h, free);
            let a = path[i];
            let n = h[path[i + 1]];
            let h2 = h.insert(a, with_next(h[a], ptr)).insert(
                ptr,
                Block { base: (ptr + BLOCK_SIZE) as usize, end: n.end, next: n.next, last: a },
            );
            &&& heap_ok(h2, free)
            &&& path_of(h2, free) == path.take(i + 1).push(ptr) + path.skip(i + 2)
        }),
{
    let path = path_of(h, free);
    lemma_heap_ok_facts(h, free);
    let a = path[i];
    let b = h[a];
    let next = path[i + 1];
    assert(h.contains_key(a) && h.contains_key(next));
    assert(h[path[i]].next == next);
    let n = h[next];
    assert(a <= b.base <= b.end);
    assert(next <= n.base <= n.end);
    assert(next + BLOCK_SIZE <= n.base);
    let h1 = h.insert(a, with_next(b, ptr));
    lemma_backed_insert(h, a, with_next(b, ptr));
    let nb = Block { base: (ptr + BLOCK_SIZE) as usize, end: n.end, next: n.next, last: a };
    lemma_backed_insert(h1, ptr, nb);
    let h2 = h1.insert(ptr, nb);
    lemma_not_on_path(h, free, ptr, i + 1);
    assert(h2[ptr] == nb);
    assert(h2[a] == with_next(b, ptr));
    let p2 = path.take(i + 1).push(ptr) + path.skip(i + 2);
    assert(p2.len() == path.len());
    assert forall|j: int| 0 <= j < p2.len() implies #[trigger] p2[j] == (if j <= i {
        path[j]
    } else if j == i + 1 {
        ptr
    } else {
        path[j]
    }) by {}
    assert forall|j: int| 0 <= j < path.len() && j != i && j != i + 1 implies #[trigger] h2[path[j]] == h[path[j]] by {
        if j < i {
            lemma_ordered_pair(h, free, j, i);
        } else {
            lemma_ordered_pair(h, free, i + 1, j);
        }
    }
    assert forall|j: int| 0 <= j < p2.len() implies #[trigger] h2.contains_key(p2[j]) && p2[j] != 0 by {
        if j != i + 1 {
            assert(h.contains_key(p2[j]));
        }
    }
    assert forall|j: int| 0 <= j < p2.len() - 1 implies h2[#[trigger] p2[j]].next == p2[j + 1] by {
        if j < i {
            assert(h[path[j]].next == path[j + 1]);
        } else if j == i + 1 {
            assert(h[path[i + 1]].next == path[i + 2]);
        } else if j > i + 1 {
            assert(h[path[j]].next == path[j + 1]);
        }
    }
    if i + 1 == path.len() - 1 {
        assert(h[path.last()].next == 0);
    } else {
        assert(p2.last() == path.last());
        assert(h[path.last()].next == 0);
    }
    assert(chain(h2, p2, free));
    assert forall|x: int| 0 <= x < p2.len() - 1 implies #[trigger] h2[p2[x]].end < p2[x + 1] by {
        if x < i {
            assert(h[path[x]].end < path[x + 1]);
        } else if x == i + 1 {
            assert(n.end < path[i + 2]);
        } else if x > i + 1 {
            assert(h[path[x]].end < path[x + 1]);
        }
    }
    assert forall|x: int| 0 <= x < p2.len() implies p2[x] <= #[trigger] h2[p2[x]].base <= h2[p2[x]].end
        && h2[p2[x]].last < p2[x] && p2[x] + BLOCK_SIZE <= h2[p2[x]].base by {
        if x <= i {
            assert(h[path[x]].base <= h[path[x]].end);
        } else if x > i + 1 {
            assert(h[path[x]].base <= h[path[x]].end);
        }
    }
    lemma_heap_ok_witness(h2, free, p2);
}

/// Registering nothing right at the start of the block after position `i` rewrites that
/// header in place.
#[verifier::rlimit(100)]
#[verifier::spinoff_prover]
proof fn lemma_register_next_empty(h: Map<usize, Block>, free: usize, i: int)
    requires
        heap_ok(h, free),
        0 <= i < path_of(h, free).len() - 1,
        path_of(h, free)[i + 1] + BLOCK_SIZE <= usize::MAX,
    ensures
        ({
            let path = path_of(h, free);
            let a = path[i];
            let ptr = path[i + 1];
            let n = h[ptr];
            let h2 = h.insert(a, with_next(h[a], ptr)).insert(
                ptr,
                Block { base: (ptr + BLOCK_SIZE) as usize, end: n.end, next: n.next, last: a },
            );
            &&& heap_ok(h2, free)
            &&& path_of(h2, free) == path
        }),
{
    let path = path_of(h, free);
    lemma_heap_ok_facts(h, free);
    let a = path[i];
    let b = h[a];
    let next = path[i + 1];
    assert(h.contains_key(a) && h.contains_key(next));
    assert(h[path[i]].next == next);
    let n = h[next];
    assert(a <= b.base <= b.end);
    assert(next <= n.base <= n.end);
    assert(next + BLOCK_SIZE <= n.base);
    assert(b.end < next);
    let h1 = h.insert(a, with_next(b, next));
    lemma_backed_insert(h, a, with_next(b, next));
    let nb = Block { base: (next + BLOCK_SIZE) as usize, end: n.end, next: n.next, last: a };
    lemma_backed_insert(h1, next, nb);
    let h2 = h1.insert(next, nb);
    assert(h2[next] == nb);
    assert(h2[a] == with_next(b, next));
    assert forall|j: int| 0 <= j < path.len() && j != i && j != i + 1 implies #[trigger] h2[path[j]] == h[path[j]] by {
        if j < i {
            lemma_ordered_pair(h, free, j, i);
        } else {
            lemma_ordered_pair(h, free, i + 1, j);
        }
    }
    assert forall|j: int| 0 <= j < path.len() implies #[trigger] h2.contains_key(path[j]) && path[j] != 0 by {
        assert(h.contains_key(path[j]));
    }
    assert forall|j: int| 0 <= j < path.len() - 1 implies h2[#[trigger] path[j]].next == path[j + 1] by {}
    assert(h[path.last()].next == 0);
    assert(chain(h2, path, free));
    assert forall|x: int| 0 <= x < path.len() - 1 implies #[trigger] h2[path[x]].end < path[x + 1] by {}
    assert forall|x: int| 0 <= x < path.len() implies path[x] <= #[trigger] h2[path[x]].base <= h2[path[x]].end
        && h2[path[x]].last < path[x] && path[x] + BLOCK_SIZE <= h2[path[x]].base by {}
    lemma_heap_ok_witness(h2, free, path);
}

/// Registering memory on a well-kept heap keeps it well kept whenever it succeeds, and the
/// list afterwards holds no header but the old ones and one at the registered address.
#[verifier::spinoff_prover]
pub proof fn lemma_register_keeps(h: Map<usize, Block>, free: usize, ptr: usize, size: usize)
    requires
        heap_ok(h, free),
        ptr != 0,
        ptr + BLOCK_SIZE <= usize::MAX,
        ptr + size <= usize::MAX,
        register_outcome(h, free, ptr, size).0 is Ok,
    ensures
        ({
            let (r, h2, f2) = register_outcome(h, free, ptr, size);
            &&& heap_ok(h2, f2)
            &&& forall|a: usize| path_of(h2, f2).contains(a) ==> a == ptr || path_of(h, free).contains(a)
        }),
{
    let path = path_of(h, free);
    lemma_heap_ok_facts(h, free);
    let (r, h2, f2) = register_outcome(h, free, ptr, size);
    let end = (ptr + size) as usize;
    if free == 0 {
        lemma_register_empty(h, ptr, size);
        assert forall|a: usize| path_of(h2, f2).contains(a) implies a == ptr || path.contains(a) by {
            assert(path_of(h2, f2)[0] == ptr);
        }
    } else if end < free {
        lemma_register_before(h, free, ptr, size);
        assert forall|a: usize| path_of(h2, f2).contains(a) implies a == ptr || path.contains(a) by {
            let p2 = path_of(h2, f2);
            let j = choose|j: int| 0 <= j < p2.len() && p2[j] == a;
            if j > 0 {
                assert(p2[j] == path[j - 1]);
            }
        }
    } else if end == free {
        lemma_register_front(h, free, ptr, size);
        assert forall|a: usize| path_of(h2, f2).contains(a) implies a == ptr || path.contains(a) by {
            let p2 = path_of(h2, f2);
            let j = choose|j: int| 0 <= j < p2.len() && p2[j] == a;
            if j > 0 {
                assert(p2[j] == path[j]);
            }
        }
    } else {
        lemma_register_keeps_inside(h, free, ptr, size);
    }
}

/// Registering past the first block keeps the heap well kept.
#[verifier::rlimit(100)]
#[verifier::spinoff_prover]
proof fn lemma_register_keeps_inside(h: Map<usize, Block>, free: usize, ptr: usize, size: usize)
    requires
        heap_ok(h, free),
        ptr != 0,
        ptr + BLOCK_SIZE <= usize::MAX,
        ptr + size <= usize::MAX,
        free != 0,
        ptr + size > free,
        register_outcome(h, free, ptr, size).0 is Ok,
    ensures
        ({
            let (r, h2, f2) = register_outcome(h, free, ptr, size);
            &&& heap_ok(h2, f2)
            &&& forall|a: usize| path_of(h2, f2).contains(a) ==> a == ptr || path_of(h, free).contains(a)
        }),
{
    let path = path_of(h, free);
    lemma_heap_ok_facts(h, free);
    let (r, h2, f2) = register_outcome(h, free, ptr, size);
    let end = (ptr + size) as usize;
    lemma_reg_stop(h, path, 0, ptr, end);
    let i = reg_stop(h, path, 0, ptr, end);
    let a = path[i];
    let b = h[a];
    assert(h.contains_key(a));
    if b.next == 0 {
        assert(i == path.len() - 1) by {
            if i < path.len() - 1 {
                assert(h[path[i]].next == path[i + 1]);
                assert(h.contains_key(path[i + 1]));
            }
        }
        if ptr > b.end {
            lemma_register_append(h, free, ptr, size);
            assert forall|y: usize| path_of(h2, f2).contains(y) implies y == ptr || path.contains(y) by {
                let p2 = path_of(h2, f2);
                let j = choose|j: int| 0 <= j < p2.len() && p2[j] == y;
                if j < path.len() {
                    assert(p2[j] == path[j]);
                }
            }
        } else {
            lemma_register_extend(h, free, i, end);
        }
    } else {
        assert(i < path.len() - 1) by {
            if i == path.len() - 1 {
                assert(h[path.last()].next == 0);
            }
        }
        assert(h[path[i]].next == path[i + 1]);
        assert(reg_fires(b, ptr, end));
        if ptr > b.end && end < b.next {
            lemma_register_between(h, free, i, ptr, size);
            assert forall|y: usize| path_of(h2, f2).contains(y) implies y == ptr || path.contains(y) by {
                let p2 = path_of(h2, f2);
                let j = choose|j: int| 0 <= j < p2.len() && p2[j] == y;
                if j <= i {
                    assert(p2[j] == path[j]);
                } else if j > i + 1 {
                    assert(p2[j] == path[j - 1]);
                }
            }
        } else if ptr == b.end && end == b.next {
            lemma_register_join(h, free, i);
            assert forall|y: usize| path_of(h2, f2).contains(y) implies y == ptr || path.contains(y) by {
                let p2 = path_of(h2, f2);
                let j = choose|j: int| 0 <= j < p2.len() && p2[j] == y;
                if j <= i {
                    assert(p2[j] == path[j]);
                } else {
                    assert(p2[j] == path[j + 1]);
                }
            }
        } else if ptr == b.end {
            lemma_register_extend(h, free, i, end);
        } else if size > 0 {
            lemma_register_next(h, free, i, ptr, size);
            assert forall|y: usize| path_of(h2, f2).contains(y) implies y == ptr || path.contains(y) by {
                let p2 = path_of(h2, f2);
                let j = choose|j: int| 0 <= j < p2.len() && p2[j] == y;
                if j != i + 1 {
                    assert(p2[j] == path[j]);
                }
            }
        } else {
            lemma_register_next_empty(h, free, i);
        }
    }
}

/// Whether registering the `size` bytes at `ptr` sets every previous link that it changes: it
/// does not when the memory becomes a new first block before the list (the old first block
/// keeps a zero link), joins two blocks, or extends the next block backwards (the block after
/// keeps its link to the old header).
pub open spec fn register_keeps_links(h: Map<usize, Block>, free: usize, ptr: usize, size: usize) -> bool {
    let end = (ptr + size) as usize;
    if free == 0 {
        true
    } else if end < free {
        false
    } else if end == free {
        true
    } else {
        let path = path_of(h, free);
        let b = h[path[reg_stop(h, path, 0, ptr, end)]];
        b.next == 0 || (ptr > b.end && end < b.next) || (ptr == b.end && end != b.next)
    }
}

/// Registering keeps the previous links exact: on a well-kept heap where each listed header's
/// previous link names the header before it (zero for the first), a successful registration
/// leaves every listed header's previous link naming the header before it, wherever
/// registering sets the links it changes (see `register_keeps_links`).
#[verifier::rlimit(100)]
#[verifier::spinoff_prover]
pub proof fn lemma_register_back_links(h: Map<usize, Block>, free: usize, ptr: usize, size: usize)
    requires
        heap_ok(h, free),
        back_linked(h, path_of(h, free)),
        ptr != 0,
        ptr + BLOCK_SIZE <= usize::MAX,
        ptr + size <= usize::MAX,
        register_outcome(h, free, ptr, size).0 is Ok,
        register_keeps_links(h, free, ptr, size),
    ensures
        ({
            let (r, h2, f2) = register_outcome(h, free, ptr, size);
            back_linked(h2, path_of(h2, f2))
        }),
{
    let path = path_of(h, free);
    lemma_heap_ok_facts(h, free);
    lemma_laid_out_sorted(h, path);
    let (r, h2, f2) = register_outcome(h, free, ptr, size);
    let end = (ptr + size) as usize;
    if free == 0 {
        lemma_register_empty(h, ptr, size);
    } else if end == free {
        lemma_register_front(h, free, ptr, size);
        assert(path[0] == free);
        let p2 = path_of(h2, f2);
        if path.len() > 1 {
            assert(h[path[0]].next == path[1]);
        } else {
            assert(h[path.last()].next == 0);
        }
        assert forall|j: int| 0 <= j < p2.len() implies #[trigger] h2[p2[j]].last == (if j == 0 {
            0usize
        } else {
            p2[j - 1]
        }) by {
            if j >= 2 {
                assert(p2[j] == path[j] && p2[j - 1] == path[j - 1]);
                assert(path[1] < path[j]);
            } else if j == 1 {
                assert(p2[1] == path[1]);
            }
        }
    } else {
        lemma_back_links_inside(h, free, ptr, size);
    }
}

/// The previous links after registering memory that lies past the first block.
#[verifier::rlimit(100)]
#[verifier::spinoff_prover]
proof fn lemma_back_links_inside(h: Map<usize, Block>, free: usize, ptr: usize, size: usize)
    requires
        heap_ok(h, free),
        back_linked(h, path_of(h, free)),
        ptr != 0,
        ptr + BLOCK_SIZE <= usize::MAX,
        ptr + size <= usize::MAX,
        free != 0,
        ptr + size > free,
        register_outcome(h, free, ptr, size).0 is Ok,
        register_keeps_links(h, free, ptr, size),
    ensures
        ({
            let (r, h2, f2) = register_outcome(h, free, ptr, size);
            back_linked(h2, path_of(h2, f2))
        }),
{
    let path = path_of(h, free);
    lemma_heap_ok_facts(h, free);
    let end = (ptr + size) as usize;
    lemma_reg_stop(h, path, 0, ptr, end);
    let b = h[path[reg_stop(h, path, 0, ptr, end)]];
    if b.next == 0 {
        lemma_back_links_last(h, free, ptr, size);
    } else if ptr > b.end && end < b.next {
        lemma_back_links_between(h, free, ptr, size);
    } else {
        lemma_back_links_extend(h, free, ptr, size);
    }
}

/// The previous links of a list with a new block between blocks `i` and `i + 1`.
proof fn lemma_between_back(h: Map<usize, Block>, path: Seq<usize>, i: int, ptr: usize, size: usize)
    requires
        0 <= i < path.len() - 1,
        back_linked(h, path),
        forall|j: int, k: int| 0 <= j < k < path.len() ==> #[trigger] path[j] < #[trigger] path[k],
        forall|j: int| 0 <= j < path.len() ==> #[trigger] path[j] != ptr,
    ensures
        back_linked(between_heap(h, path, i, ptr, size), path.take(i + 1).push(ptr) + path.skip(i + 1)),
{
    let x = between_heap(h, path, i, ptr, size);
    let p2 = path.take(i + 1).push(ptr) + path.skip(i + 1);
    let a = path[i];
    let next = path[i + 1];
    assert forall|j: int| 0 <= j < p2.len() implies #[trigger] x[p2[j]].last == (if j == 0 {
        0usize
    } else {
        p2[j - 1]
    }) by {
        if j <= i {
            assert(p2[j] == path[j]);
            if j > 0 {
                assert(p2[j - 1] == path[j - 1]);
            }
            assert(path[j] < next);
            assert(h[path[j]].last == (if j == 0 { 0usize } else { path[j - 1] }));
        } else if j == i + 1 {
            assert(p2[j] == ptr && p2[j - 1] == a);
        } else if j == i + 2 {
            assert(p2[j] == next && p2[j - 1] == ptr);
        } else {
            assert(p2[j] == path[j - 1] && p2[j - 1] == path[j - 2]);
            assert(a < next && next < path[j - 1]);
            assert(h[path[j - 1]].last == path[j - 2]);
        }
    }
}

/// The previous links after registering memory past the last block.
#[verifier::rlimit(100)]
#[verifier::spinoff_prover]
proof fn lemma_back_links_last(h: Map<usize, Block>, free: usize, ptr: usize, size: usize)
    requires
        heap_ok(h, free),
        back_linked(h, path_of(h, free)),
        ptr != 0,
        ptr + BLOCK_SIZE <= usize::MAX,
        ptr + size <= usize::MAX,
        free != 0,
        ptr + size > free,
        register_outcome(h, free, ptr, size).0 is Ok,
        ({
            let path = path_of(h, free);
            let end = (ptr + size) as usize;
            let b = h[path[reg_stop(h, path, 0, ptr, end)]];
            b.next == 0
        }),
    ensures
        ({
            let (r, h2, f2) = register_outcome(h, free, ptr, size);
            back_linked(h2, path_of(h2, f2))
        }),
{
    let path = path_of(h, free);
    lemma_heap_ok_facts(h, free);
    lemma_laid_out_sorted(h, path);
    let (r, h2, f2) = register_outcome(h, free, ptr, size);
    let end = (ptr + size) as usize;
    lemma_reg_stop(h, path, 0, ptr, end);
    let i = reg_stop(h, path, 0, ptr, end);
    let a = path[i];
    let b = h[a];
    assert(h.contains_key(a));
    assert(i == path.len() - 1) by {
        if i < path.len() - 1 {
            assert(h[path[i]].next == path[i + 1]);
            assert(h.contains_key(path[i + 1]));
        }
    }
    if ptr > b.end {
        lemma_register_append(h, free, ptr, size);
        lemma_not_on_path(h, free, ptr, path.len() as int);
        let p2 = path_of(h2, f2);
        assert forall|j: int| 0 <= j < p2.len() implies #[trigger] h2[p2[j]].last == (if j == 0 {
            0usize
        } else {
            p2[j - 1]
        }) by {
            if j < path.len() {
                assert(p2[j] == path[j]);
                if j > 0 {
                    assert(p2[j - 1] == path[j - 1]);
                }
            } else {
                assert(p2[j - 1] == path[j - 1]);
            }
        }
    } else {
        lemma_register_extend(h, free, i, end);
        assert forall|j: int| 0 <= j < path.len() implies #[trigger] h2[path[j]].last == (if j == 0 {
            0usize
        } else {
            path[j - 1]
        }) by {}
    }
}

/// The previous links after registering a new block between two.
#[verifier::rlimit(100)]
#[verifier::spinoff_prover]
proof fn lemma_back_links_between(h: Map<usize, Block>, free: usize, ptr: usize, size: usize)
    requires
        heap_ok(h, free),
        back_linked(h, path_of(h, free)),
        ptr != 0,
        ptr + BLOCK_SIZE <= usize::MAX,
        ptr + size <= usize::MAX,
        free != 0,
        ptr + size > free,
        register_outcome(h, free, ptr, size).0 is Ok,
        ({
            let path = path_of(h, free);
            let end = (ptr + size) as usize;
            let b = h[path[reg_stop(h, path, 0, ptr, end)]];
            b.next != 0 && ptr > b.end && end < b.next
        }),
    ensures
        ({
            let (r, h2, f2) = register_outcome(h, free, ptr, size);
            back_linked(h2, path_of(h2, f2))
        }),
{
    let path = path_of(h, free);
    lemma_heap_ok_facts(h, free);
    lemma_laid_out_sorted(h, path);
    let (r, h2, f2) = register_outcome(h, free, ptr, size);
    let end = (ptr + size) as usize;
    lemma_reg_stop(h, path, 0, ptr, end);
    let i = reg_stop(h, path, 0, ptr, end);
    let a = path[i];
    let b = h[a];
    assert(h.contains_key(a));
    assert(i < path.len() - 1) by {
        if i == path.len() - 1 {
            assert(h[path.last()].next == 0);
        }
    }
    assert(h[path[i]].next == path[i + 1]);
    assert(reg_fires(b, ptr, end));
    let next = path[i + 1];
    lemma_register_between(h, free, i, ptr, size);
    lemma_not_on_path(h, free, ptr, i + 1);
    assert(h2 == between_heap(h, path, i, ptr, size));
    lemma_between_back(h, path, i, ptr, size);
}

/// The previous links after registering memory that extends a block.
#[verifier::rlimit(100)]
#[verifier::spinoff_prover]
proof fn lemma_back_links_extend(h: Map<usize, Block>, free: usize, ptr: usize, size: usize)
    requires
        heap_ok(h, free),
        back_linked(h, path_of(h, free)),
        ptr != 0,
        ptr + BLOCK_SIZE <= usize::MAX,
        ptr + size <= usize::MAX,
        free != 0,
        ptr + size > free,
        register_outcome(h, free, ptr, size).0 is Ok,
        ({
            let path = path_of(h, free);
            let end = (ptr + size) as usize;
            let b = h[path[reg_stop(h, path, 0, ptr, end)]];
            b.next != 0 && ptr == b.end && end != b.next
        }),
    ensures
        ({
            let (r, h2, f2) = register_outcome(h, free, ptr, size);
            back_linked(h2, path_of(h2, f2))
        }),
{
    let path = path_of(h, free);
    lemma_heap_ok_facts(h, free);
    lemma_laid_out_sorted(h, path);
    let (r, h2, f2) = register_outcome(h, free, ptr, size);
    let end = (ptr + size) as usize;
    lemma_reg_stop(h, path, 0, ptr, end);
    let i = reg_stop(h, path, 0, ptr, end);
    let a = path[i];
    let b = h[a];
    assert(h.contains_key(a));
    assert(i < path.len() - 1) by {
        if i == path.len() - 1 {
            assert(h[path.last()].next == 0);
        }
    }
    assert(h[path[i]].next == path[i + 1]);
    assert(reg_fires(b, ptr, end));
    let next = path[i + 1];
    lemma_register_extend(h, free, i, end);
    assert forall|j: int| 0 <= j < path.len() implies #[trigger] h2[path[j]].last == (if j == 0 {
        0usize
    } else {
        path[j - 1]
    }) by {}
}

/// The position on `path`, from `i` on, of the first block whose memory after its base holds
/// all of `ptr` to `end`; the length of `path` when there is none.
pub open spec fn rollback_stop(h: Map<usize, Block>, path: Seq<usize>, i: int, ptr: usize, end: usize) -> int
    decreases path.len() - i,
{
    if i >= path.len() {
        path.len() as int
    } else if h[path[i]].base <= ptr && end <= h[path[i]].end {
        i
    } else {
        rollback_stop(h, path, i + 1, ptr, end)
    }
}

/// The headers left when the memory from `ptr` to `end`, just given back, is taken again
/// from the block that holds it.
pub open spec fn rollback_outcome(h: Map<usize, Block>, free: usize, ptr: usize, end: usize) -> Map<usize, Block> {
    let path = path_of(h, free);
    let a = path[rollback_stop(h, path, 0, ptr, end)];
    let b = h[a];
    if ptr > b.base {
        // the block keeps what lies before `ptr`, and what lies after `end` gets a header
        let h1 = if end < b.end {
            let g1 = h.insert(end, Block { base: end, end: b.end, next: b.next, last: a });
            let g2 = g1.insert(a, with_next(g1[a], end));
            if b.next != 0 {
                g2.insert(b.next, with_last(g2[b.next], end))
            } else {
                g2
            }
        } else {
            h
        };
        h1.insert(a, with_end(h1[a], ptr))
    } else if end < b.end {
        // the block's base moves past the memory; its header stays
        h.insert(a, Block { base: end, end: b.end, next: b.next, last: b.last })
    } else {
        // the block is taken off the list
        let h1 = if b.last != 0 {
            h.insert(b.last, with_next(h[b.last], b.next))
        } else {
            h
        };
        let b1 = h1[a];
        if b1.next != 0 {
            h1.insert(b1.next, with_last(h1[b1.next], b1.last))
        } else {
            h1
        }
    }
}

/// Whether resizing moves the allocation: it is not aligned, or it grows and cannot grow in
/// place.
pub open spec fn resize_moves(h: Map<usize, Block>, free: usize, ptr: usize, old_size: usize, size: usize, align: usize) -> bool {
    let gs = super::simple_granularity(size);
    let go = super::simple_granularity(old_size);
    !is_aligned_spec(ptr, align) || (gs > go && grow_outcome(h, free, ptr, old_size, size).0 is Err)
}

/// What resizing the allocation of `old_size` bytes at `ptr` to `size` bytes aligned to
/// `align` returns, and the headers and first header it leaves, on the headers `h` with first
/// header `free`.
pub open spec fn resize_outcome(h: Map<usize, Block>, free: usize, ptr: usize, old_size: usize, size: usize, align: usize) -> (
    Result<usize, MemoryError>,
    Map<usize, Block>,
    usize,
) {
    let go = super::simple_granularity(old_size);
    if !resize_moves(h, free, ptr, old_size, size, align) {
        let (g, h1, f1) = grow_outcome(h, free, ptr, old_size, size);
        if super::simple_granularity(size) > go {
            (Ok(ptr), h1, f1)
        } else {
            (Ok(ptr), h, free)
        }
    } else {
        let (rr, h1, f1) = register_outcome(h, free, ptr, go);
        match rr {
            Err(e) => (Err(e), h1, f1),
            Ok(_) => {
                let (ar, h2, f2) = allocate_outcome(h1, f1, size, align);
                match ar {
                    Ok(p) => (Ok(p), h2, f2),
                    Err(_) => (
                        Err(MemoryError::OutOfMemory),
                        rollback_outcome(h1, f1, ptr, (ptr + old_size) as usize),
                        f1,
                    ),
                }
            },
        }
    }
}

/// Each header's previous link is the header before it on the list, zero for the first.
pub open spec fn back_linked(h: Map<usize, Block>, path: Seq<usize>) -> bool {
    forall|i: int| 0 <= i < path.len() ==> #[trigger] h[path[i]].last == (if i == 0 {
        0usize
    } else {
        path[i - 1]
    })
}

/// Whether the byte at `x` lies in a free block of the heap; a block's memory counts from its
/// header's address.
pub open spec fn free_byte(h: Map<usize, Block>, free: usize, x: int) -> bool {
    exists|i: int| 0 <= i < path_of(h, free).len() && path_of(h, free)[i] <= x < #[trigger] h[path_of(h, free)[i]].end
}

/// The list `p2` of a heap is its list, and a byte is free there exactly when it lies in a
/// block of `p2`.
proof fn lemma_free_byte_on(h: Map<usize, Block>, free: usize, p2: Seq<usize>, x: int)
    requires
        chain(h, p2, free),
        free_byte(h, free, x),
    ensures
        exists|j: int| 0 <= j < p2.len() && p2[j] <= x < #[trigger] h[p2[j]].end,
{
    lemma_chain_unique(h, path_of(h, free), p2, free);
}

/// A byte in a block of a heap's list is free.
proof fn lemma_free_byte_at(h: Map<usize, Block>, free: usize, j: int, x: int)
    requires
        linked(h, free),
        0 <= j < path_of(h, free).len(),
        path_of(h, free)[j] <= x < h[path_of(h, free)[j]].end,
    ensures
        free_byte(h, free, x),
{
}

/// Allocating by moving the block's header to the end of the allocation takes the block's
/// memory up to that end off the list and keeps the rest.
#[verifier::rlimit(100)]
#[verifier::spinoff_prover]
proof fn lemma_allocate_move(h: Map<usize, Block>, free: usize, i: int, p: usize, g: usize)
    requires
        heap_ok(h, free),
        back_linked(h, path_of(h, free)),
        0 <= i < path_of(h, free).len(),
        path_of(h, free)[i] <= p,
        g >= BLOCK_SIZE,
        p + g + BLOCK_SIZE <= h[path_of(h, free)[i]].end,
    ensures
        ({
            let path = path_of(h, free);
            let b = h[path[i]];
            let end = (p + g) as usize;
            let nb = Block { base: (end + BLOCK_SIZE) as usize, end: b.end, next: b.next, last: b.last };
            let h2 = relink(h, b, end, end).insert(end, nb);
            let f2 = if b.last != 0 {
                free
            } else {
                end
            };
            &&& linked(h2, f2)
            &&& chain(h2, path.update(i, end), f2)
            &&& forall|x: int| free_byte(h2, f2, x) ==> free_byte(h, free, x) && !(p <= x < p + g)
        }),
{
    let path = path_of(h, free);
    lemma_heap_ok_facts(h, free);
    let a = path[i];
    let b = h[a];
    let end = (p + g) as usize;
    assert(h.contains_key(a));
    assert(a <= b.base <= b.end);
    let nb = Block { base: (end + BLOCK_SIZE) as usize, end: b.end, next: b.next, last: b.last };
    let h1 = relink(h, b, end, end);
    let h2 = h1.insert(end, nb);
    let f2 = if b.last != 0 {
        free
    } else {
        end
    };
    assert(b.last == (if i == 0 { 0usize } else { path[i - 1] }));
    if i > 0 {
        assert(h.contains_key(path[i - 1]));
        assert(h[path[i - 1]].next == a);
        lemma_ordered_pair(h, free, i - 1, i);
    }
    if i + 1 < path.len() {
        assert(h[path[i]].next == path[i + 1]);
        assert(h.contains_key(path[i + 1]));
        lemma_ordered_pair(h, free, i, i + 1);
    } else {
        assert(h[path.last()].next == 0);
    }
    assert forall|j: int| 0 <= j < path.len() implies #[trigger] path[j] != end by {
        if j < i {
            lemma_ordered_pair(h, free, j, i);
        } else if j > i {
            lemma_ordered_pair(h, free, i, j);
        }
    }
    assert forall|j: int| 0 <= j < path.len() && j != i - 1 && j != i && j != i + 1 implies #[trigger] h2[path[j]] == h[path[j]] by {
        if j < i - 1 {
            lemma_ordered_pair(h, free, j, i - 1);
        } else if j > i + 1 {
            lemma_ordered_pair(h, free, i + 1, j);
        }
    }
    let p2 = path.update(i, end);
    assert forall|j: int| 0 <= j < p2.len() implies #[trigger] h2.contains_key(p2[j]) && p2[j] != 0 by {
        if j != i {
            assert(h.contains_key(path[j]));
        }
    }
    assert forall|j: int| 0 <= j < p2.len() - 1 implies h2[#[trigger] p2[j]].next == p2[j + 1] by {
        if j < i - 1 || j > i {
            assert(h[path[j]].next == path[j + 1]);
        }
    }
    if i == path.len() - 1 {
        assert(h2[end].next == 0);
    } else {
        assert(h[path.last()].next == 0);
        assert(h2[p2.last()] == h[path.last()] || h2[p2.last()] == with_last(h[path.last()], end));
    }
    assert(chain(h2, p2, f2));
    assert(linked(h2, f2));
    assert forall|x: int| free_byte(h2, f2, x) implies free_byte(h, free, x) && !(p <= x < p + g) by {
        lemma_free_byte_on(h2, f2, p2, x);
        let j = choose|j: int| 0 <= j < p2.len() && p2[j] <= x < #[trigger] h2[p2[j]].end;
        if j == i {
            lemma_free_byte_at(h, free, i, x);
        } else {
            assert(h2[p2[j]].end == h[path[j]].end);
            lemma_free_byte_at(h, free, j, x);
            if j < i {
                lemma_ordered_pair(h, free, j, i);
            } else {
                lemma_ordered_pair(h, free, i, j);
            }
        }
    }
}

/// Allocating a whole block takes it off the list and keeps the rest.
#[verifier::rlimit(100)]
#[verifier::spinoff_prover]
proof fn lemma_allocate_delete(h: Map<usize, Block>, free: usize, i: int, p: usize, g: usize)
    requires
        heap_ok(h, free),
        back_linked(h, path_of(h, free)),
        0 <= i < path_of(h, free).len(),
        path_of(h, free)[i] <= p,
        p + g <= h[path_of(h, free)[i]].end,
    ensures
        ({
            let path = path_of(h, free);
            let b = h[path[i]];
            let h2 = relink(h, b, b.last, b.next);
            let f2 = if b.last != 0 {
                free
            } else {
                b.next
            };
            &&& linked(h2, f2)
            &&& chain(h2, path.remove(i), f2)
            &&& forall|x: int| free_byte(h2, f2, x) ==> free_byte(h, free, x) && !(p <= x < p + g)
        }),
{
    let path = path_of(h, free);
    lemma_heap_ok_facts(h, free);
    let a = path[i];
    let b = h[a];
    assert(h.contains_key(a));
    assert(a <= b.base <= b.end);
    let h2 = relink(h, b, b.last, b.next);
    let f2 = if b.last != 0 {
        free
    } else {
        b.next
    };
    assert(b.last == (if i == 0 { 0usize } else { path[i - 1] }));
    if i > 0 {
        assert(h.contains_key(path[i - 1]));
        assert(h[path[i - 1]].next == a);
        lemma_ordered_pair(h, free, i - 1, i);
    }
    if i + 1 < path.len() {
        assert(h[path[i]].next == path[i + 1]);
        assert(h.contains_key(path[i + 1]));
        lemma_ordered_pair(h, free, i, i + 1);
    } else {
        assert(h[path.last()].next == 0);
    }
    assert forall|j: int| 0 <= j < path.len() && j != i - 1 && j != i && j != i + 1 implies #[trigger] h2[path[j]] == h[path[j]] by {
        if j < i - 1 {
            lemma_ordered_pair(h, free, j, i - 1);
        } else if j > i + 1 {
            lemma_ordered_pair(h, free, i + 1, j);
        }
    }
    if i > 0 && i + 1 < path.len() {
        lemma_ordered_pair(h, free, i - 1, i + 1);
    }
    let p2 = path.remove(i);
    assert forall|j: int| 0 <= j < p2.len() implies #[trigger] p2[j] == (if j < i { path[j] } else { path[j + 1] }) by {}
    assert forall|j: int| 0 <= j < p2.len() implies #[trigger] h2.contains_key(p2[j]) && p2[j] != 0 by {
        if j < i {
            assert(h.contains_key(path[j]));
        } else {
            assert(h.contains_key(path[j + 1]));
        }
    }
    assert forall|j: int| 0 <= j < p2.len() - 1 implies h2[#[trigger] p2[j]].next == p2[j + 1] by {
        if j < i - 1 {
            assert(h[path[j]].next == path[j + 1]);
        } else if j >= i {
            assert(h[path[j + 1]].next == path[j + 2]);
        }
    }
    if p2.len() > 0 {
        if i == path.len() - 1 {
            assert(p2.last() == path[i - 1]);
        } else {
            assert(p2.last() == path.last());
            assert(h[path.last()].next == 0);
        }
    }
    assert(chain(h2, p2, f2));
    assert(linked(h2, f2));
    assert forall|x: int| free_byte(h2, f2, x) implies free_byte(h, free, x) && !(p <= x < p + g) by {
        lemma_free_byte_on(h2, f2, p2, x);
        let j = choose|j: int| 0 <= j < p2.len() && p2[j] <= x < #[trigger] h2[p2[j]].end;
        let k = if j < i {
            j
        } else {
            j + 1
        };
        assert(p2[j] == path[k]);
        assert(h2[p2[j]].end == h[path[k]].end);
        lemma_free_byte_at(h, free, k, x);
        if k < i {
            lemma_ordered_pair(h, free, k, i);
        } else {
            lemma_ordered_pair(h, free, i, k);
        }
    }
}

/// Allocating from the middle of a block splits it: the part before the allocation keeps the
/// header, the part after gets a header at the allocation's end.
#[verifier::rlimit(100)]
#[verifier::spinoff_prover]
proof fn lemma_allocate_split(h: Map<usize, Block>, free: usize, i: int, p: usize, g: usize)
    requires
        heap_ok(h, free),
        0 <= i < path_of(h, free).len(),
        h[path_of(h, free)[i]].base < p,
        g >= BLOCK_SIZE,
        p + g + BLOCK_SIZE <= usize::MAX,
        p + g <= h[path_of(h, free)[i]].end,
    ensures
        ({
            let path = path_of(h, free);
            let a = path[i];
            let b = h[a];
            let end = (p + g) as usize;
            let h1 = h.insert(end, Block { base: (end + BLOCK_SIZE) as usize, end: b.end, next: b.next, last: a });
            let h2 = if b.next != 0 {
                h1.insert(b.next, with_last(h1[b.next], end))
            } else {
                h1
            };
            let h3 = h2.insert(a, Block { base: h2[a].base, end: p, next: end, last: h2[a].last });
            &&& linked(h3, free)
            &&& chain(h3, path.take(i + 1).push(end) + path.skip(i + 1), free)
            &&& forall|x: int| free_byte(h3, free, x) ==> free_byte(h, free, x) && !(p <= x < p + g)
        }),
{
    let path = path_of(h, free);
    lemma_heap_ok_facts(h, free);
    let a = path[i];
    let b = h[a];
    let end = (p + g) as usize;
    assert(h.contains_key(a));
    assert(a <= b.base <= b.end);
    let h1 = h.insert(end, Block { base: (end + BLOCK_SIZE) as usize, end: b.end, next: b.next, last: a });
    let h2 = if b.next != 0 {
        h1.insert(b.next, with_last(h1[b.next], end))
    } else {
        h1
    };
    let h3 = h2.insert(a, Block { base: h2[a].base, end: p, next: end, last: h2[a].last });
    if i + 1 < path.len() {
        assert(h[path[i]].next == path[i + 1]);
        assert(h.contains_key(path[i + 1]));
        lemma_ordered_pair(h, free, i, i + 1);
    } else {
        assert(h[path.last()].next == 0);
    }
    assert forall|j: int| 0 <= j < path.len() implies #[trigger] path[j] != end by {
        if j < i {
            lemma_ordered_pair(h, free, j, i);
        } else if j > i {
            lemma_ordered_pair(h, free, i, j);
        }
    }
    assert forall|j: int| 0 <= j < path.len() && j != i && j != i + 1 implies #[trigger] h3[path[j]] == h[path[j]] by {
        if j < i {
            lemma_ordered_pair(h, free, j, i);
        } else {
            lemma_ordered_pair(h, free, i + 1, j);
        }
    }
    assert(h3[a].end == p && h3[a].next == end);
    assert(h3[end].end == b.end && h3[end].next == b.next);
    let p2 = path.take(i + 1).push(end) + path.skip(i + 1);
    assert(p2.len() == path.len() + 1);
    assert forall|j: int| 0 <= j < p2.len() implies #[trigger] p2[j] == (if j <= i {
        path[j]
    } else if j == i + 1 {
        end
    } else {
        path[j - 1]
    }) by {}
    assert forall|j: int| 0 <= j < p2.len() implies #[trigger] h3.contains_key(p2[j]) && p2[j] != 0 by {
        if j <= i {
            assert(h.contains_key(path[j]));
        } else if j > i + 1 {
            assert(h.contains_key(path[j - 1]));
        }
    }
    assert forall|j: int| 0 <= j < p2.len() - 1 implies h3[#[trigger] p2[j]].next == p2[j + 1] by {
        if j < i {
            assert(h[path[j]].next == path[j + 1]);
        } else if j > i + 1 {
            assert(h[path[j - 1]].next == path[j]);
        } else if j == i + 1 {
            assert(h[path[i]].next == path[i + 1]);
        }
    }
    if i == path.len() - 1 {
        assert(p2.last() == end);
    } else {
        assert(p2.last() == path.last());
        assert(h[path.last()].next == 0);
    }
    assert(chain(h3, p2, free));
    assert(linked(h3, free));
    assert forall|x: int| free_byte(h3, free, x) implies free_byte(h, free, x) && !(p <= x < p + g) by {
        lemma_free_byte_on(h3, free, p2, x);
        let j = choose|j: int| 0 <= j < p2.len() && p2[j] <= x < #[trigger] h3[p2[j]].end;
        if j == i || j == i + 1 {
            lemma_free_byte_at(h, free, i, x);
        } else {
            let k = if j < i {
                j
            } else {
                j - 1
            };
            assert(p2[j] == path[k]);
            assert(h3[p2[j]].end == h[path[k]].end);
            lemma_free_byte_at(h, free, k, x);
            if k < i {
                lemma_ordered_pair(h, free, k, i);
            } else {
                lemma_ordered_pair(h, free, i, k);
            }
        }
    }
}

/// Where allocation settles: the first block from `k` on where it fits, none of those before
/// fitting; the length of the list when none fits.
pub(crate) proof fn lemma_alloc_stop(h: Map<usize, Block>, path: Seq<usize>, k: int, align: usize, size: usize)
    requires
        0 <= k <= path.len(),
    ensures
        k <= alloc_stop(h, path, k, align, size) <= path.len(),
        alloc_stop(h, path, k, align, size) < path.len() ==> alloc_fits(
            path[alloc_stop(h, path, k, align, size)],
            h[path[alloc_stop(h, path, k, align, size)]],
            align,
            size,
        ),
        forall|j: int| k <= j < alloc_stop(h, path, k, align, size) ==> !alloc_fits(path[j], #[trigger] h[path[j]], align, size),
    decreases path.len() - k,
{
    if k < path.len() && !alloc_fits(path[k], h[path[k]], align, size) {
        lemma_alloc_stop(h, path, k + 1, align, size);
    }
}

/// Allocation takes free memory. On a well-kept heap whose previous links are exact, the
/// memory handed out lay in a free block, and afterwards the list still reaches its end and
/// no free block holds any of that memory, nor anything that was not free before. Allocation
/// fails only when no free block can hold the request.
#[verifier::rlimit(100)]
#[verifier::spinoff_prover]
pub proof fn lemma_allocate_takes_free(h: Map<usize, Block>, free: usize, size: usize, align: usize)
    requires
        heap_ok(h, free),
        back_linked(h, path_of(h, free)),
        align >= 1,
        forall|i: int| 0 <= i < path_of(h, free).len() ==> #[trigger] path_of(h, free)[i] + align
            + super::simple_granularity(size) + BLOCK_SIZE <= usize::MAX,
    ensures
        ({
            let (r, h2, f2) = allocate_outcome(h, free, size, align);
            let g = super::simple_granularity(size);
            &&& r matches Ok(p) ==> {
                &&& forall|x: int| p <= x < p + g ==> free_byte(h, free, x)
                &&& linked(h2, f2)
                &&& forall|x: int| free_byte(h2, f2, x) ==> free_byte(h, free, x) && !(p <= x < p + g)
            }
            &&& r is Err ==> forall|i: int| 0 <= i < path_of(h, free).len() ==> !alloc_fits(
                path_of(h, free)[i],
                #[trigger] h[path_of(h, free)[i]],
                align,
                g,
            )
        }),
{
    let path = path_of(h, free);
    lemma_heap_ok_facts(h, free);
    let g = super::simple_granularity(size);
    lemma_alloc_stop(h, path, 0, align, g);
    let i = alloc_stop(h, path, 0, align, g);
    lemma_allocate_cases(h, free, size, align);
    let (r, h2, f2) = allocate_outcome(h, free, size, align);
    if i < path.len() {
        let a = path[i];
        let b = h[a];
        assert(h.contains_key(a));
        assert(a + align + g + BLOCK_SIZE <= usize::MAX);
        lemma_align_bounds(a, align);
        let p = align_spec(a, align);
        let end = (p + g) as usize;
        assert forall|x: int| p <= x < p + g implies free_byte(h, free, x) by {
            lemma_free_byte_at(h, free, i, x);
        }
        if p <= b.base {
            if p + g + BLOCK_SIZE <= b.end {
                lemma_allocate_move(h, free, i, p, g);
            } else {
                lemma_allocate_delete(h, free, i, p, g);
            }
        } else {
            lemma_allocate_split(h, free, i, p, g);
        }
    }
}

/// The outcome of allocating, case by case.
proof fn lemma_allocate_cases(h: Map<usize, Block>, free: usize, size: usize, align: usize)
    ensures
        ({
            let (r, h2, f2) = allocate_outcome(h, free, size, align);
            let g = super::simple_granularity(size);
            let path = path_of(h, free);
            let i = alloc_stop(h, path, 0, align, g);
            let a = path[i];
            let b = h[a];
            let p = align_spec(a, align);
            let end = (p + g) as usize;
            &&& i >= path.len() ==> r == Err::<usize, MemoryError>(MemoryError::OutOfMemory) && h2 == h && f2 == free
            &&& i < path.len() ==> r == Ok::<usize, MemoryError>(p)
            &&& i < path.len() && p <= b.base && end + BLOCK_SIZE <= b.end ==> h2 == relink(h, b, end, end).insert(
                end,
                Block { base: (end + BLOCK_SIZE) as usize, end: b.end, next: b.next, last: b.last },
            ) && f2 == (if b.last != 0 {
                free
            } else {
                end
            })
            &&& i < path.len() && p <= b.base && end + BLOCK_SIZE > b.end ==> h2 == relink(h, b, b.last, b.next) && f2
                == (if b.last != 0 {
                free
            } else {
                b.next
            })
            &&& i < path.len() && p > b.base ==> f2 == free && h2 == ({
                let h1 = h.insert(end, Block { base: (end + BLOCK_SIZE) as usize, end: b.end, next: b.next, last: a });
                let hh = if b.next != 0 {
                    h1.insert(b.next, with_last(h1[b.next], end))
                } else {
                    h1
                };
                hh.insert(a, Block { base: hh[a].base, end: p, next: end, last: hh[a].last })
            })
        }),
{
}

/// The bytes a heap holds free are those in the blocks of its list.
proof fn lemma_free_iff(h: Map<usize, Block>, free: usize, p: Seq<usize>, x: int)
    requires
        chain(h, p, free),
    ensures
        free_byte(h, free, x) <==> exists|j: int| 0 <= j < p.len() && p[j] <= x < #[trigger] h[p[j]].end,
{
    lemma_chain_unique(h, path_of(h, free), p, free);
    if exists|j: int| 0 <= j < p.len() && p[j] <= x < #[trigger] h[p[j]].end {
        let j = choose|j: int| 0 <= j < p.len() && p[j] <= x < #[trigger] h[p[j]].end;
        lemma_free_byte_at(h, free, j, x);
    }
}

/// Registering on an empty heap frees exactly the registered bytes.
proof fn lemma_frees_empty(h: Map<usize, Block>, ptr: usize, size: usize, x: int)
    requires
        backed(h),
        ptr != 0,
        size >= BLOCK_SIZE,
        ptr + size <= usize::MAX,
    ensures
        ({
            let h2 = h.insert(ptr, Block { base: (ptr + BLOCK_SIZE) as usize, end: (ptr + size) as usize, next: 0, last: 0 });
            free_byte(h2, ptr, x) <==> free_byte(h, 0, x) || ptr <= x < ptr + size
        }),
{
    let h2 = h.insert(ptr, Block { base: (ptr + BLOCK_SIZE) as usize, end: (ptr + size) as usize, next: 0, last: 0 });
    lemma_register_empty(h, ptr, size);
    lemma_heap_chain(h2, ptr);
    lemma_free_iff(h2, ptr, seq![ptr], x);
    assert(chain(h, Seq::empty(), 0));
    lemma_free_iff(h, 0, Seq::empty(), x);
    let p2 = seq![ptr];
    assert(p2[0] == ptr);
    assert(h2[ptr].end == ptr + size);
    if ptr <= x < ptr + size {
        assert(p2[0] <= x < h2[p2[0]].end);
    }
}

/// Registering before the first block frees exactly the registered bytes as well.
#[verifier::rlimit(60)]
#[verifier::spinoff_prover]
proof fn lemma_frees_before(h: Map<usize, Block>, free: usize, ptr: usize, size: usize, x: int)
    requires
        heap_ok(h, free),
        free != 0,
        ptr != 0,
        size >= BLOCK_SIZE,
        ptr + size < free,
    ensures
        ({
            let h2 = h.insert(ptr, Block { base: (ptr + BLOCK_SIZE) as usize, end: (ptr + size) as usize, next: free, last: 0 });
            free_byte(h2, ptr, x) <==> free_byte(h, free, x) || ptr <= x < ptr + size
        }),
{
    let path = path_of(h, free);
    let h2 = h.insert(ptr, Block { base: (ptr + BLOCK_SIZE) as usize, end: (ptr + size) as usize, next: free, last: 0 });
    lemma_register_before(h, free, ptr, size);
    lemma_heap_ok_facts(h, free);
    lemma_heap_chain(h2, ptr);
    let p2 = seq![ptr] + path;
    lemma_free_iff(h2, ptr, p2, x);
    lemma_free_iff(h, free, path, x);
    lemma_not_on_path(h, free, ptr, 0);
    assert forall|j: int| 0 <= j < path.len() implies #[trigger] h2[path[j]] == h[path[j]] && p2[j + 1] == path[j] by {}
    if free_byte(h2, ptr, x) {
        let j = choose|j: int| 0 <= j < p2.len() && p2[j] <= x < #[trigger] h2[p2[j]].end;
        if j > 0 {
            assert(p2[j] == path[j - 1]);
        }
    }
    if free_byte(h, free, x) {
        let j = choose|j: int| 0 <= j < path.len() && path[j] <= x < #[trigger] h[path[j]].end;
        assert(p2[j + 1] == path[j] && h2[p2[j + 1]].end == h[path[j]].end);
    }
    if ptr <= x < ptr + size {
        assert(p2[0] == ptr && h2[p2[0]].end == ptr + size);
    }
}

/// Registering the memory right before the first block frees exactly the registered bytes.
#[verifier::rlimit(60)]
#[verifier::spinoff_prover]
proof fn lemma_frees_front(h: Map<usize, Block>, free: usize, ptr: usize, size: usize, x: int)
    requires
        heap_ok(h, free),
        free != 0,
        ptr != 0,
        ptr + BLOCK_SIZE <= usize::MAX,
        ptr + size == free,
    ensures
        ({
            let (r, h2, f2) = register_outcome(h, free, ptr, size);
            free_byte(h2, f2, x) <==> free_byte(h, free, x) || ptr <= x < ptr + size
        }),
{
    let path = path_of(h, free);
    let (r, h2, f2) = register_outcome(h, free, ptr, size);
    lemma_register_front(h, free, ptr, size);
    lemma_heap_ok_facts(h, free);
    lemma_heap_chain(h2, f2);
    let p2 = seq![ptr] + path.skip(1);
    lemma_free_iff(h2, f2, p2, x);
    lemma_free_iff(h, free, path, x);
    assert(h.contains_key(path[0]));
    let b = h[free];
    assert(h2[ptr].end == b.end);
    assert forall|j: int| 1 <= j < path.len() implies #[trigger] h2[path[j]].end == h[path[j]].end && p2[j] == path[j] by {
        lemma_ordered_pair(h, free, 0, j);
    }
    if free_byte(h2, f2, x) {
        let j = choose|j: int| 0 <= j < p2.len() && p2[j] <= x < #[trigger] h2[p2[j]].end;
        if j > 0 {
            assert(p2[j] == path[j]);
        } else if x >= free {
            assert(path[0] <= x < h[path[0]].end);
        }
    }
    if free_byte(h, free, x) {
        let j = choose|j: int| 0 <= j < path.len() && path[j] <= x < #[trigger] h[path[j]].end;
        if j == 0 {
            assert(p2[0] <= x < h2[p2[0]].end);
        } else {
            assert(p2[j] <= x < h2[p2[j]].end);
        }
    }
    if ptr <= x < ptr + size {
        assert(path[0] <= h[path[0]].base <= h[path[0]].end);
        assert(p2[0] <= x < h2[p2[0]].end);
    }
}

/// Making the block at position `i` end at `end` frees exactly the bytes from its old end up
/// to `end`.
#[verifier::rlimit(100)]
#[verifier::spinoff_prover]
proof fn lemma_frees_extend(h: Map<usize, Block>, free: usize, i: int, end: usize, x: int)
    requires
        heap_ok(h, free),
        0 <= i < path_of(h, free).len(),
        h[path_of(h, free)[i]].end <= end,
        i + 1 < path_of(h, free).len() ==> end < path_of(h, free)[i + 1],
    ensures
        ({
            let path = path_of(h, free);
            let h2 = h.insert(path[i], with_end(h[path[i]], end));
            free_byte(h2, free, x) <==> free_byte(h, free, x) || h[path[i]].end <= x < end
        }),
{
    let path = path_of(h, free);
    let a = path[i];
    let h2 = h.insert(a, with_end(h[a], end));
    lemma_register_extend(h, free, i, end);
    lemma_heap_ok_facts(h, free);
    lemma_heap_chain(h2, free);
    lemma_free_iff(h2, free, path, x);
    lemma_free_iff(h, free, path, x);
    assert(h.contains_key(a));
    assert(a <= h[a].base <= h[a].end);
    if free_byte(h2, free, x) {
        let j = choose|j: int| 0 <= j < path.len() && path[j] <= x < #[trigger] h2[path[j]].end;
        if j < i {
            lemma_ordered_pair(h, free, j, i);
        } else if j > i {
            lemma_ordered_pair(h, free, i, j);
        }
        if j != i {
            assert(h2[path[j]] == h[path[j]]);
            assert(path[j] <= x < h[path[j]].end);
        }
    }
    if free_byte(h, free, x) {
        let j = choose|j: int| 0 <= j < path.len() && path[j] <= x < #[trigger] h[path[j]].end;
        if j < i {
            lemma_ordered_pair(h, free, j, i);
        } else if j > i {
            lemma_ordered_pair(h, free, i, j);
        }
        if j != i {
            assert(h2[path[j]] == h[path[j]]);
        }
        assert(path[j] <= x < h2[path[j]].end);
    }
    if h[a].end <= x < end {
        assert(path[i] <= x < h2[path[i]].end);
    }
}

/// Registering after the last block frees exactly the registered bytes.
#[verifier::rlimit(60)]
#[verifier::spinoff_prover]
proof fn lemma_frees_append(h: Map<usize, Block>, free: usize, ptr: usize, size: usize, x: int)
    requires
        heap_ok(h, free),
        free != 0,
        ptr + size <= usize::MAX,
        size >= BLOCK_SIZE,
        ptr > h[path_of(h, free).last()].end,
    ensures
        ({
            let a = path_of(h, free).last();
            let h2 = h.insert(a, with_next(h[a], ptr)).insert(
                ptr,
                Block { base: (ptr + BLOCK_SIZE) as usize, end: (ptr + size) as usize, next: 0, last: a },
            );
            free_byte(h2, free, x) <==> free_byte(h, free, x) || ptr <= x < ptr + size
        }),
{
    let path = path_of(h, free);
    let a = path.last();
    let h2 = h.insert(a, with_next(h[a], ptr)).insert(
        ptr,
        Block { base: (ptr + BLOCK_SIZE) as usize, end: (ptr + size) as usize, next: 0, last: a },
    );
    lemma_register_append(h, free, ptr, size);
    lemma_heap_ok_facts(h, free);
    lemma_heap_chain(h2, free);
    let p2 = path.push(ptr);
    lemma_free_iff(h2, free, p2, x);
    lemma_free_iff(h, free, path, x);
    lemma_not_on_path(h, free, ptr, path.len() as int);
    assert forall|j: int| 0 <= j < path.len() implies #[trigger] h2[path[j]].end == h[path[j]].end && p2[j] == path[j] by {}
    if free_byte(h2, free, x) {
        let j = choose|j: int| 0 <= j < p2.len() && p2[j] <= x < #[trigger] h2[p2[j]].end;
        if j < path.len() {
            assert(p2[j] == path[j]);
        }
    }
    if free_byte(h, free, x) {
        let j = choose|j: int| 0 <= j < path.len() && path[j] <= x < #[trigger] h[path[j]].end;
        assert(p2[j] <= x < h2[p2[j]].end);
    }
    if ptr <= x < ptr + size {
        assert(p2[path.len() as int] == ptr);
        assert(p2[path.len() as int] <= x < h2[p2[path.len() as int]].end);
    }
}

/// Registering in the gap after the block at position `i` frees exactly the registered bytes.
#[verifier::rlimit(60)]
#[verifier::spinoff_prover]
proof fn lemma_frees_between(h: Map<usize, Block>, free: usize, i: int, ptr: usize, size: usize, x: int)
    requires
        heap_ok(h, free),
        0 <= i < path_of(h, free).len() - 1,
        ptr + size <= usize::MAX,
        size >= BLOCK_SIZE,
        ptr > h[path_of(h, free)[i]].end,
        ptr + size < path_of(h, free)[i + 1],
    ensures
        free_byte(between_heap(h, path_of(h, free), i, ptr, size), free, x) <==> free_byte(h, free, x) || ptr
            <= x < ptr + size,
{
    let path = path_of(h, free);
    let h2 = between_heap(h, path, i, ptr, size);
    lemma_register_between(h, free, i, ptr, size);
    lemma_between_values(h, free, i, ptr, size);
    lemma_heap_ok_facts(h, free);
    lemma_heap_chain(h2, free);
    let p2 = path.take(i + 1).push(ptr) + path.skip(i + 1);
    lemma_free_iff(h2, free, p2, x);
    lemma_free_iff(h, free, path, x);
    assert forall|j: int| 0 <= j < path.len() implies #[trigger] h2[path[j]].end == h[path[j]].end by {}
    if free_byte(h2, free, x) {
        let j = choose|j: int| 0 <= j < p2.len() && p2[j] <= x < #[trigger] h2[p2[j]].end;
        if j <= i {
            assert(p2[j] == path[j]);
        } else if j > i + 1 {
            assert(p2[j] == path[j - 1]);
        }
    }
    if free_byte(h, free, x) {
        let j = choose|j: int| 0 <= j < path.len() && path[j] <= x < #[trigger] h[path[j]].end;
        if j <= i {
            assert(p2[j] == path[j]);
            assert(p2[j] <= x < h2[p2[j]].end);
        } else {
            assert(p2[j + 1] == path[j]);
            assert(p2[j + 1] <= x < h2[p2[j + 1]].end);
        }
    }
    if ptr <= x < ptr + size {
        assert(p2[i + 1] == ptr);
        assert(p2[i + 1] <= x < h2[p2[i + 1]].end);
    }
}

/// Registering exactly the gap after the block at position `i` frees exactly that gap.
#[verifier::rlimit(60)]
#[verifier::spinoff_prover]
proof fn lemma_frees_join(h: Map<usize, Block>, free: usize, i: int, x: int)
    requires
        heap_ok(h, free),
        0 <= i < path_of(h, free).len() - 1,
    ensures
        ({
            let path = path_of(h, free);
            let a = path[i];
            let b = h[a];
            let n = h[path[i + 1]];
            let h2 = h.insert(a, Block { base: b.base, end: n.end, next: n.next, last: b.last });
            free_byte(h2, free, x) <==> free_byte(h, free, x) || b.end <= x < path[i + 1]
        }),
{
    let path = path_of(h, free);
    let a = path[i];
    let b = h[a];
    let next = path[i + 1];
    let n = h[next];
    let h2 = h.insert(a, Block { base: b.base, end: n.end, next: n.next, last: b.last });
    lemma_register_join(h, free, i);
    lemma_heap_ok_facts(h, free);
    lemma_heap_chain(h2, free);
    let p2 = path.take(i + 1) + path.skip(i + 2);
    lemma_free_iff(h2, free, p2, x);
    lemma_free_iff(h, free, path, x);
    assert(h.contains_key(a) && h.contains_key(next));
    assert(a <= b.base <= b.end);
    assert(next <= n.base <= n.end);
    lemma_ordered_pair(h, free, i, i + 1);
    assert forall|j: int| 0 <= j < path.len() && j != i implies #[trigger] h2[path[j]] == h[path[j]] by {
        if j < i {
            lemma_ordered_pair(h, free, j, i);
        } else {
            lemma_ordered_pair(h, free, i, j);
        }
    }
    if free_byte(h2, free, x) {
        let j = choose|j: int| 0 <= j < p2.len() && p2[j] <= x < #[trigger] h2[p2[j]].end;
        if j < i {
            assert(p2[j] == path[j]);
        } else if j > i {
            assert(p2[j] == path[j + 1]);
        } else if x >= next {
            assert(path[i + 1] <= x < h[path[i + 1]].end);
        } else if x < b.end {
            assert(path[i] <= x < h[path[i]].end);
        }
    }
    if free_byte(h, free, x) {
        let j = choose|j: int| 0 <= j < path.len() && path[j] <= x < #[trigger] h[path[j]].end;
        if j < i {
            assert(p2[j] == path[j] && p2[j] <= x < h2[p2[j]].end);
        } else if j == i || j == i + 1 {
            assert(p2[i] == a && p2[i] <= x < h2[p2[i]].end);
        } else {
            assert(p2[j - 1] == path[j] && p2[j - 1] <= x < h2[p2[j - 1]].end);
        }
    }
    if b.end <= x < next {
        assert(p2[i] == a && p2[i] <= x < h2[p2[i]].end);
    }
}

/// Registering memory that ends at the block after position `i` frees exactly the
/// registered bytes.
#[verifier::rlimit(100)]
#[verifier::spinoff_prover]
proof fn lemma_frees_next(h: Map<usize, Block>, free: usize, i: int, ptr: usize, size: usize, x: int)
    requires
        heap_ok(h, free),
        0 <= i < path_of(h, free).len() - 1,
        ptr + BLOCK_SIZE <= usize::MAX,
        ptr > h[path_of(h, free)[i]].end,
        ptr + size == path_of(h, free)[i + 1],
        size > 0,
    ensures
        ({
            let path = path_of(h, free);
            let a = path[i];
            let n = h[path[i + 1]];
            let h2 = h.insert(a, with_next(h[a], ptr)).insert(
                ptr,
                Block { base: (ptr + BLOCK_SIZE) as usize, end: n.end, next: n.next, last: a },
            );
            free_byte(h2, free, x) <==> free_byte(h, free, x) || ptr <= x < ptr + size
        }),
{
    let path = path_of(h, free);
    let a = path[i];
    let next = path[i + 1];
    let n = h[next];
    let h2 = h.insert(a, with_next(h[a], ptr)).insert(
        ptr,
        Block { base: (ptr + BLOCK_SIZE) as usize, end: n.end, next: n.next, last: a },
    );
    lemma_register_next(h, free, i, ptr, size);
    lemma_heap_ok_facts(h, free);
    lemma_heap_chain(h2, free);
    let p2 = path.take(i + 1).push(ptr) + path.skip(i + 2);
    lemma_free_iff(h2, free, p2, x);
    lemma_free_iff(h, free, path, x);
    lemma_not_on_path(h, free, ptr, i + 1);
    assert(h.contains_key(next));
    assert forall|j: int| 0 <= j < path.len() && j != i + 1 implies #[trigger] h2[path[j]].end == h[path[j]].end by {}
    assert(h2[ptr].end == n.end);
    if free_byte(h2, free, x) {
        let j = choose|j: int| 0 <= j < p2.len() && p2[j] <= x < #[trigger] h2[p2[j]].end;
        if j != i + 1 {
            assert(p2[j] == path[j]);
        } else if x >= next {
            assert(path[i + 1] <= x < h[path[i + 1]].end);
        }
    }
    if free_byte(h, free, x) {
        let j = choose|j: int| 0 <= j < path.len() && path[j] <= x < #[trigger] h[path[j]].end;
        if j != i + 1 {
            assert(p2[j] == path[j] && p2[j] <= x < h2[p2[j]].end);
        } else {
            assert(p2[j] == ptr && p2[j] <= x < h2[p2[j]].end);
        }
    }
    if ptr <= x < ptr + size {
        assert(next <= n.base <= n.end);
        assert(p2[i + 1] == ptr && p2[i + 1] <= x < h2[p2[i + 1]].end);
    }
}

/// Registering nothing at the start of the block after position `i` frees nothing.
#[verifier::rlimit(60)]
#[verifier::spinoff_prover]
proof fn lemma_frees_next_empty(h: Map<usize, Block>, free: usize, i: int, x: int)
    requires
        heap_ok(h, free),
        0 <= i < path_of(h, free).len() - 1,
        path_of(h, free)[i + 1] + BLOCK_SIZE <= usize::MAX,
    ensures
        ({
            let path = path_of(h, free);
            let a = path[i];
            let ptr = path[i + 1];
            let n = h[ptr];
            let h2 = h.insert(a, with_next(h[a], ptr)).insert(
                ptr,
                Block { base: (ptr + BLOCK_SIZE) as usize, end: n.end, next: n.next, last: a },
            );
            free_byte(h2, free, x) <==> free_byte(h, free, x)
        }),
{
    let path = path_of(h, free);
    let a = path[i];
    let next = path[i + 1];
    let n = h[next];
    let h2 = h.insert(a, with_next(h[a], next)).insert(
        next,
        Block { base: (next + BLOCK_SIZE) as usize, end: n.end, next: n.next, last: a },
    );
    lemma_register_next_empty(h, free, i);
    lemma_heap_ok_facts(h, free);
    lemma_heap_chain(h2, free);
    lemma_free_iff(h2, free, path, x);
    lemma_free_iff(h, free, path, x);
    assert forall|j: int| 0 <= j < path.len() implies #[trigger] h2[path[j]].end == h[path[j]].end by {}
    if free_byte(h2, free, x) {
        let j = choose|j: int| 0 <= j < path.len() && path[j] <= x < #[trigger] h2[path[j]].end;
        assert(path[j] <= x < h[path[j]].end);
    }
    if free_byte(h, free, x) {
        let j = choose|j: int| 0 <= j < path.len() && path[j] <= x < #[trigger] h[path[j]].end;
        assert(path[j] <= x < h2[path[j]].end);
    }
}

/// Registering past the first block frees exactly the registered bytes.
#[verifier::rlimit(60)]
#[verifier::spinoff_prover]
proof fn lemma_register_frees_inside(h: Map<usize, Block>, free: usize, ptr: usize, size: usize, x: int)
    requires
        heap_ok(h, free),
        ptr != 0,
        ptr + BLOCK_SIZE <= usize::MAX,
        ptr + size <= usize::MAX,
        free != 0,
        ptr + size > free,
        register_outcome(h, free, ptr, size).0 is Ok,
    ensures
        ({
            let (r, h2, f2) = register_outcome(h, free, ptr, size);
            free_byte(h2, f2, x) <==> free_byte(h, free, x) || ptr <= x < ptr + size
        }),
{
    let path = path_of(h, free);
    lemma_heap_ok_facts(h, free);
    let end = (ptr + size) as usize;
    lemma_reg_stop(h, path, 0, ptr, end);
    let i = reg_stop(h, path, 0, ptr, end);
    let a = path[i];
    let b = h[a];
    assert(h.contains_key(a));
    if b.next == 0 {
        assert(i == path.len() - 1) by {
            if i < path.len() - 1 {
                assert(h[path[i]].next == path[i + 1]);
                assert(h.contains_key(path[i + 1]));
            }
        }
        if ptr > b.end {
            lemma_frees_append(h, free, ptr, size, x);
        } else {
            lemma_frees_extend(h, free, i, end, x);
        }
    } else {
        assert(i < path.len() - 1) by {
            if i == path.len() - 1 {
                assert(h[path.last()].next == 0);
            }
        }
        assert(h[path[i]].next == path[i + 1]);
        assert(reg_fires(b, ptr, end));
        if ptr > b.end && end < b.next {
            lemma_frees_between(h, free, i, ptr, size, x);
        } else if ptr == b.end && end == b.next {
            lemma_frees_join(h, free, i, x);
        } else if ptr == b.end {
            lemma_frees_extend(h, free, i, end, x);
        } else if size > 0 {
            lemma_frees_next(h, free, i, ptr, size, x);
        } else {
            lemma_frees_next_empty(h, free, i, x);
        }
    }
}

/// Registering frees exactly the registered memory: on a well-kept heap, when registering
/// succeeds, a byte is free afterwards exactly when it was free before or was registered.
#[verifier::spinoff_prover]
pub proof fn lemma_register_frees(h: Map<usize, Block>, free: usize, ptr: usize, size: usize)
    requires
        heap_ok(h, free),
        ptr != 0,
        ptr + BLOCK_SIZE <= usize::MAX,
        ptr + size <= usize::MAX,
        register_outcome(h, free, ptr, size).0 is Ok,
    ensures
        ({
            let (r, h2, f2) = register_outcome(h, free, ptr, size);
            forall|x: int| free_byte(h2, f2, x) <==> free_byte(h, free, x) || ptr <= x < ptr + size
        }),
{
    let (r, h2, f2) = register_outcome(h, free, ptr, size);
    let end = (ptr + size) as usize;
    assert forall|x: int| free_byte(h2, f2, x) <==> free_byte(h, free, x) || ptr <= x < ptr + size by {
        if free == 0 {
            lemma_heap_ok_facts(h, free);
            lemma_frees_empty(h, ptr, size, x);
        } else if end < free {
            lemma_frees_before(h, free, ptr, size, x);
        } else if end == free {
            lemma_frees_front(h, free, ptr, size, x);
        } else {
            lemma_register_frees_inside(h, free, ptr, size, x);
        }
    }
}

/// Growing into the block right after the allocation, when it reaches past the new end,
/// moves that block's header to the new end.
#[verifier::rlimit(100)]
#[verifier::spinoff_prover]
proof fn lemma_grow_move(h: Map<usize, Block>, free: usize, i: int, new_end: usize)
    requires
        heap_ok(h, free),
        back_linked(h, path_of(h, free)),
        0 <= i < path_of(h, free).len(),
        path_of(h, free)[i] < new_end < h[path_of(h, free)[i]].end,
        new_end + BLOCK_SIZE <= usize::MAX,
    ensures
        ({
            let path = path_of(h, free);
            let b = h[path[i]];
            let nb = Block { base: (new_end + BLOCK_SIZE) as usize, end: b.end, next: b.next, last: b.last };
            let h1 = if b.last != 0 {
                h.insert(b.last, with_next(h[b.last], new_end))
            } else {
                h
            };
            let f2 = if b.last != 0 {
                free
            } else {
                new_end
            };
            let h2 = h1.insert(new_end, nb);
            &&& linked(h2, f2)
            &&& forall|x: int| free_byte(h2, f2, x) ==> free_byte(h, free, x) && !(path[i] <= x < new_end)
        }),
{
    let path = path_of(h, free);
    lemma_heap_ok_facts(h, free);
    let a = path[i];
    let b = h[a];
    assert(h.contains_key(a));
    assert(a <= b.base <= b.end);
    let nb = Block { base: (new_end + BLOCK_SIZE) as usize, end: b.end, next: b.next, last: b.last };
    let h1 = if b.last != 0 {
        h.insert(b.last, with_next(h[b.last], new_end))
    } else {
        h
    };
    let f2 = if b.last != 0 {
        free
    } else {
        new_end
    };
    let h2 = h1.insert(new_end, nb);
    assert(b.last == (if i == 0 { 0usize } else { path[i - 1] }));
    if i > 0 {
        assert(h.contains_key(path[i - 1]));
        assert(h[path[i - 1]].next == a);
        lemma_ordered_pair(h, free, i - 1, i);
    }
    if i + 1 < path.len() {
        assert(h[path[i]].next == path[i + 1]);
        assert(h.contains_key(path[i + 1]));
        lemma_ordered_pair(h, free, i, i + 1);
    } else {
        assert(h[path.last()].next == 0);
    }
    assert forall|j: int| 0 <= j < path.len() implies #[trigger] path[j] != new_end by {
        if j < i {
            lemma_ordered_pair(h, free, j, i);
        } else if j > i {
            lemma_ordered_pair(h, free, i, j);
        }
    }
    assert forall|j: int| 0 <= j < path.len() && j != i - 1 && j != i implies #[trigger] h2[path[j]] == h[path[j]] by {
        if j < i - 1 {
            lemma_ordered_pair(h, free, j, i - 1);
        } else if j > i {
            lemma_ordered_pair(h, free, i, j);
        }
    }
    let p2 = path.update(i, new_end);
    assert forall|j: int| 0 <= j < p2.len() implies #[trigger] h2.contains_key(p2[j]) && p2[j] != 0 by {
        if j != i {
            assert(h.contains_key(path[j]));
        }
    }
    assert forall|j: int| 0 <= j < p2.len() - 1 implies h2[#[trigger] p2[j]].next == p2[j + 1] by {
        if j < i - 1 || j > i {
            assert(h[path[j]].next == path[j + 1]);
        }
    }
    if i == path.len() - 1 {
        assert(h2[new_end].next == 0);
    } else {
        assert(h[path.last()].next == 0);
        assert(h2[p2.last()] == h[path.last()]);
    }
    assert(chain(h2, p2, f2));
    assert(linked(h2, f2));
    assert forall|x: int| free_byte(h2, f2, x) implies free_byte(h, free, x) && !(a <= x < new_end) by {
        lemma_free_byte_on(h2, f2, p2, x);
        let j = choose|j: int| 0 <= j < p2.len() && p2[j] <= x < #[trigger] h2[p2[j]].end;
        if j == i {
            lemma_free_byte_at(h, free, i, x);
        } else {
            assert(h2[p2[j]].end == h[path[j]].end);
            lemma_free_byte_at(h, free, j, x);
            if j < i {
                lemma_ordered_pair(h, free, j, i);
            } else {
                lemma_ordered_pair(h, free, i, j);
            }
        }
    }
}

/// Growing into a block that is not the first and ends at the new end takes it off the list.
#[verifier::rlimit(100)]
#[verifier::spinoff_prover]
proof fn lemma_grow_delete(h: Map<usize, Block>, free: usize, i: int)
    requires
        heap_ok(h, free),
        back_linked(h, path_of(h, free)),
        0 < i < path_of(h, free).len(),
    ensures
        ({
            let path = path_of(h, free);
            let a = path[i];
            let b = h[a];
            let h1 = h.insert(b.last, with_next(h[b.last], b.next));
            let b1 = h1[a];
            let h2 = if b1.next != 0 {
                h1.insert(b1.next, with_last(h1[b1.next], b1.last))
            } else {
                h1
            };
            &&& linked(h2, free)
            &&& forall|x: int| free_byte(h2, free, x) ==> free_byte(h, free, x) && !(a <= x < b.end)
        }),
{
    let path = path_of(h, free);
    lemma_heap_ok_facts(h, free);
    let a = path[i];
    let b = h[a];
    assert(h.contains_key(a));
    assert(a <= b.base <= b.end);
    assert(b.last == path[i - 1]);
    assert(h.contains_key(path[i - 1]));
    assert(h[path[i - 1]].next == a);
    lemma_ordered_pair(h, free, i - 1, i);
    let h1 = h.insert(b.last, with_next(h[b.last], b.next));
    assert(h1[a] == b);
    let h2 = if b.next != 0 {
        h1.insert(b.next, with_last(h1[b.next], b.last))
    } else {
        h1
    };
    if i + 1 < path.len() {
        assert(h[path[i]].next == path[i + 1]);
        assert(h.contains_key(path[i + 1]));
        lemma_ordered_pair(h, free, i, i + 1);
        lemma_ordered_pair(h, free, i - 1, i + 1);
    } else {
        assert(h[path.last()].next == 0);
    }
    assert forall|j: int| 0 <= j < path.len() && j != i - 1 && j != i && j != i + 1 implies #[trigger] h2[path[j]] == h[path[j]] by {
        if j < i - 1 {
            lemma_ordered_pair(h, free, j, i - 1);
        } else if j > i + 1 {
            lemma_ordered_pair(h, free, i + 1, j);
        }
    }
    let p2 = path.remove(i);
    assert forall|j: int| 0 <= j < p2.len() implies #[trigger] p2[j] == (if j < i { path[j] } else { path[j + 1] }) by {}
    assert forall|j: int| 0 <= j < p2.len() implies #[trigger] h2.contains_key(p2[j]) && p2[j] != 0 by {
        if j < i {
            assert(h.contains_key(path[j]));
        } else {
            assert(h.contains_key(path[j + 1]));
        }
    }
    assert forall|j: int| 0 <= j < p2.len() - 1 implies h2[#[trigger] p2[j]].next == p2[j + 1] by {
        if j < i - 1 {
            assert(h[path[j]].next == path[j + 1]);
        } else if j >= i {
            assert(h[path[j + 1]].next == path[j + 2]);
        }
    }
    if i == path.len() - 1 {
        assert(p2.last() == path[i - 1]);
    } else {
        assert(p2.last() == path.last());
        assert(h[path.last()].next == 0);
    }
    assert(chain(h2, p2, free));
    assert(linked(h2, free));
    assert forall|x: int| free_byte(h2, free, x) implies free_byte(h, free, x) && !(a <= x < b.end) by {
        lemma_free_byte_on(h2, free, p2, x);
        let j = choose|j: int| 0 <= j < p2.len() && p2[j] <= x < #[trigger] h2[p2[j]].end;
        let k = if j < i {
            j
        } else {
            j + 1
        };
        assert(p2[j] == path[k]);
        assert(h2[p2[j]].end == h[path[k]].end);
        lemma_free_byte_at(h, free, k, x);
        if k < i {
            lemma_ordered_pair(h, free, k, i);
        } else {
            lemma_ordered_pair(h, free, i, k);
        }
    }
}

/// Where growing settles: the block at the allocation's end that reaches the new end, when
/// there is one.
proof fn lemma_grow_stop(h: Map<usize, Block>, path: Seq<usize>, k: int, end: usize, new_end: usize)
    requires
        0 <= k <= path.len(),
    ensures
        k <= grow_stop(h, path, k, end, new_end) <= path.len(),
        grow_stop(h, path, k, end, new_end) < path.len() ==> path[grow_stop(h, path, k, end, new_end)] == end
            && h[end].end >= new_end,
    decreases path.len() - k,
{
    if k < path.len() && !(path[k] == end && h[path[k]].end >= new_end) {
        lemma_grow_stop(h, path, k + 1, end, new_end);
    }
}

/// Growing in place takes the grown memory off the free list: on a well-kept heap whose
/// previous links are exact, the bytes from the old end to the new end were free, and
/// afterwards the list still reaches its end and no free block holds them, nor anything that
/// was not free before. This holds unless the block used up is the first on the list.
#[verifier::rlimit(60)]
#[verifier::spinoff_prover]
pub proof fn lemma_grow_takes_free(h: Map<usize, Block>, free: usize, ptr: usize, old_size: usize, size: usize)
    requires
        heap_ok(h, free),
        back_linked(h, path_of(h, free)),
        ptr + old_size <= usize::MAX,
        ptr + super::simple_granularity(size) + BLOCK_SIZE <= usize::MAX,
        super::simple_granularity(size) > old_size,
        grow_outcome(h, free, ptr, old_size, size).0 is Ok,
        ({
            let end = (ptr + old_size) as usize;
            let new_end = (ptr + super::simple_granularity(size)) as usize;
            end == free ==> h[free].end > new_end
        }),
    ensures
        ({
            let (r, h2, f2) = grow_outcome(h, free, ptr, old_size, size);
            let end = ptr + old_size;
            let new_end = ptr + super::simple_granularity(size);
            &&& forall|x: int| end <= x < new_end ==> free_byte(h, free, x)
            &&& linked(h2, f2)
            &&& forall|x: int| free_byte(h2, f2, x) ==> free_byte(h, free, x) && !(end <= x < new_end)
        }),
{
    let path = path_of(h, free);
    lemma_heap_ok_facts(h, free);
    let end = (ptr + old_size) as usize;
    let new_end = (ptr + super::simple_granularity(size)) as usize;
    lemma_grow_stop(h, path, 0, end, new_end);
    let i = grow_stop(h, path, 0, end, new_end);
    assert(i < path.len());
    assert(path[i] == end);
    let b = h[end];
    assert(h.contains_key(path[i]));
    assert forall|x: int| end <= x < new_end implies free_byte(h, free, x) by {
        lemma_free_byte_at(h, free, i, x);
    }
    if b.end > new_end {
        lemma_grow_move(h, free, i, new_end);
    } else {
        assert(i > 0);
        assert(b.last == path[i - 1]);
        lemma_grow_delete(h, free, i);
    }
}

/// Moving a block's header forward keeps a well-kept heap with exact previous links so.
#[verifier::rlimit(100)]
#[verifier::spinoff_prover]
proof fn lemma_allocate_move_keeps(h: Map<usize, Block>, free: usize, i: int, p: usize, g: usize)
    requires
        heap_ok(h, free),
        back_linked(h, path_of(h, free)),
        0 <= i < path_of(h, free).len(),
        path_of(h, free)[i] <= p,
        g >= BLOCK_SIZE,
        p + g + BLOCK_SIZE <= h[path_of(h, free)[i]].end,
    ensures
        ({
            let path = path_of(h, free);
            let b = h[path[i]];
            let end = (p + g) as usize;
            let nb = Block { base: (end + BLOCK_SIZE) as usize, end: b.end, next: b.next, last: b.last };
            let h2 = relink(h, b, end, end).insert(end, nb);
            let f2 = if b.last != 0 {
                free
            } else {
                end
            };
            heap_ok(h2, f2) && back_linked(h2, path_of(h2, f2))
        }),
{
    let path = path_of(h, free);
    lemma_heap_ok_facts(h, free);
    lemma_allocate_move(h, free, i, p, g);
    let a = path[i];
    let b = h[a];
    let end = (p + g) as usize;
    let nb = Block { base: (end + BLOCK_SIZE) as usize, end: b.end, next: b.next, last: b.last };
    let h2 = relink(h, b, end, end).insert(end, nb);
    let f2 = if b.last != 0 {
        free
    } else {
        end
    };
    let p2 = path.update(i, end);
    assert(h.contains_key(a));
    assert(a <= h[a].base <= h[a].end && h[a].last < a);
    assert(b.last == (if i == 0 { 0usize } else { path[i - 1] }));
    if i > 0 {
        assert(h.contains_key(path[i - 1]));
        lemma_ordered_pair(h, free, i - 1, i);
        assert(h[path[i - 1]].last == (if i - 1 == 0 { 0usize } else { path[i - 2] }));
    }
    if i + 1 < path.len() {
        assert(h[path[i]].next == path[i + 1]);
        assert(h.contains_key(path[i + 1]));
        lemma_ordered_pair(h, free, i, i + 1);
    }
    assert forall|j: int| 0 <= j < path.len() implies #[trigger] path[j] != end by {
        if j < i {
            lemma_ordered_pair(h, free, j, i);
        } else if j > i {
            lemma_ordered_pair(h, free, i, j);
        }
    }
    assert forall|j: int| 0 <= j < path.len() && j != i - 1 && j != i && j != i + 1 implies #[trigger] h2[path[j]] == h[path[j]] by {
        if j < i - 1 {
            lemma_ordered_pair(h, free, j, i - 1);
        } else if j > i + 1 {
            lemma_ordered_pair(h, free, i + 1, j);
        }
    }
    assert(h2[end] == nb);
    assert forall|x: usize| #[trigger] h2.contains_key(x) implies h2[x].last == 0 || h2.contains_key(h2[x].last) by {
        if x != end && x != b.next && x != b.last {
            assert(h.contains_key(x));
        }
        if x == b.last && x != end && x != b.next {
            assert(h.contains_key(x));
        }
    }
    assert forall|x: int| 0 <= x < p2.len() - 1 implies #[trigger] h2[p2[x]].end < p2[x + 1] by {
        if x == i - 1 {
            assert(h[path[i - 1]].end < a);
        } else if x != i {
            assert(h[path[x]].end < path[x + 1]);
        }
    }
    assert forall|x: int| 0 <= x < p2.len() implies p2[x] <= #[trigger] h2[p2[x]].base <= h2[p2[x]].end
        && h2[p2[x]].last < p2[x] && p2[x] + BLOCK_SIZE <= h2[p2[x]].base by {
        if x != i {
            assert(path[x] <= h[path[x]].base <= h[path[x]].end);
        }
        if x == i + 1 {
            assert(h2[p2[x]].last == end);
        }
    }
    assert forall|x: int| 0 <= x < p2.len() implies #[trigger] h2[p2[x]].last == (if x == 0 {
        0usize
    } else {
        p2[x - 1]
    }) by {
        if x != i && x != i + 1 {
            assert(h[path[x]].last == (if x == 0 { 0usize } else { path[x - 1] }));
        }
    }
    lemma_heap_ok_witness(h2, f2, p2);
}

/// Taking a whole block off the list keeps a well-kept heap with exact previous links so.
#[verifier::rlimit(100)]
#[verifier::spinoff_prover]
proof fn lemma_allocate_delete_keeps(h: Map<usize, Block>, free: usize, i: int, p: usize, g: usize)
    requires
        heap_ok(h, free),
        back_linked(h, path_of(h, free)),
        0 <= i < path_of(h, free).len(),
        path_of(h, free)[i] <= p,
        p + g <= h[path_of(h, free)[i]].end,
    ensures
        ({
            let path = path_of(h, free);
            let b = h[path[i]];
            let h2 = relink(h, b, b.last, b.next);
            let f2 = if b.last != 0 {
                free
            } else {
                b.next
            };
            heap_ok(h2, f2) && back_linked(h2, path_of(h2, f2))
        }),
{
    let path = path_of(h, free);
    lemma_heap_ok_facts(h, free);
    lemma_allocate_delete(h, free, i, p, g);
    let a = path[i];
    let b = h[a];
    let h2 = relink(h, b, b.last, b.next);
    let f2 = if b.last != 0 {
        free
    } else {
        b.next
    };
    let p2 = path.remove(i);
    assert(h.contains_key(a));
    assert(b.last == (if i == 0 { 0usize } else { path[i - 1] }));
    if i > 0 {
        assert(h.contains_key(path[i - 1]));
        lemma_ordered_pair(h, free, i - 1, i);
        assert(path[i - 1] <= h[path[i - 1]].base <= h[path[i - 1]].end);
    }
    if i + 1 < path.len() {
        assert(h[path[i]].next == path[i + 1]);
        assert(h.contains_key(path[i + 1]));
        lemma_ordered_pair(h, free, i, i + 1);
        assert(path[i + 1] <= h[path[i + 1]].base <= h[path[i + 1]].end);
    }
    if i > 0 && i + 1 < path.len() {
        lemma_ordered_pair(h, free, i - 1, i + 1);
    }
    assert forall|j: int| 0 <= j < path.len() && j != i - 1 && j != i && j != i + 1 implies #[trigger] h2[path[j]] == h[path[j]] by {
        if j < i - 1 {
            lemma_ordered_pair(h, free, j, i - 1);
        } else if j > i + 1 {
            lemma_ordered_pair(h, free, i + 1, j);
        }
    }
    assert forall|j: int| 0 <= j < p2.len() implies #[trigger] p2[j] == (if j < i { path[j] } else { path[j + 1] }) by {}
    assert forall|x: usize| #[trigger] h2.contains_key(x) implies h2[x].last == 0 || h2.contains_key(h2[x].last) by {
        assert(h.contains_key(x));
    }
    assert forall|x: int| 0 <= x < p2.len() - 1 implies #[trigger] h2[p2[x]].end < p2[x + 1] by {
        if x < i - 1 {
            assert(h[path[x]].end < path[x + 1]);
        } else if x >= i {
            assert(h[path[x + 1]].end < path[x + 2]);
        }
    }
    assert forall|x: int| 0 <= x < p2.len() implies p2[x] <= #[trigger] h2[p2[x]].base <= h2[p2[x]].end
        && h2[p2[x]].last < p2[x] && p2[x] + BLOCK_SIZE <= h2[p2[x]].base by {
        let k = if x < i {
            x
        } else {
            x + 1
        };
        assert(path[k] <= h[path[k]].base <= h[path[k]].end);
    }
    assert forall|x: int| 0 <= x < p2.len() implies #[trigger] h2[p2[x]].last == (if x == 0 {
        0usize
    } else {
        p2[x - 1]
    }) by {
        let k = if x < i {
            x
        } else {
            x + 1
        };
        assert(h[path[k]].last == (if k == 0 { 0usize } else { path[k - 1] }));
    }
    lemma_heap_ok_witness(h2, f2, p2);
}

/// The headers after splitting the block at `a` (header `b`) around an allocation from `p` to
/// `end`.
pub open spec fn split_heap(h: Map<usize, Block>, a: usize, b: Block, p: usize, end: usize) -> Map<usize, Block> {
    let h1 = h.insert(end, Block { base: (end + BLOCK_SIZE) as usize, end: b.end, next: b.next, last: a });
    let h2 = if b.next != 0 {
        h1.insert(b.next, with_last(h1[b.next], end))
    } else {
        h1
    };
    h2.insert(a, Block { base: h2[a].base, end: p, next: end, last: h2[a].last })
}

/// The headers after a split: the block keeps its part before the allocation, a header goes
/// after it, the next header links back to that one, and all others stay.
#[verifier::rlimit(100)]
#[verifier::spinoff_prover]
proof fn lemma_split_values(h: Map<usize, Block>, free: usize, i: int, p: usize, g: usize)
    requires
        heap_ok(h, free),
        0 <= i < path_of(h, free).len(),
        h[path_of(h, free)[i]].base < p,
        g >= BLOCK_SIZE,
        p + g + BLOCK_SIZE <= h[path_of(h, free)[i]].end,
    ensures
        ({
            let path = path_of(h, free);
            let a = path[i];
            let b = h[a];
            let end = (p + g) as usize;
            let h3 = split_heap(h, a, b, p, end);
            &&& forall|j: int| 0 <= j < path.len() ==> #[trigger] path[j] != end
            &&& forall|j: int| 0 <= j < path.len() && j != i && j != i + 1 ==> #[trigger] h3[path[j]] == h[path[j]]
            &&& h3[a] == (Block { base: b.base, end: p, next: end, last: b.last })
            &&& h3[end] == (Block { base: (end + BLOCK_SIZE) as usize, end: b.end, next: b.next, last: a })
            &&& i + 1 < path.len() ==> h3[path[i + 1]] == with_last(h[path[i + 1]], end)
            &&& backed(h3)
        }),
{
    let path = path_of(h, free);
    lemma_heap_ok_facts(h, free);
    let a = path[i];
    let b = h[a];
    let end = (p + g) as usize;
    let h3 = split_heap(h, a, b, p, end);
    assert(h.contains_key(a));
    assert(a <= b.base <= b.end);
    if i + 1 < path.len() {
        assert(h[path[i]].next == path[i + 1]);
        assert(h.contains_key(path[i + 1]));
        lemma_ordered_pair(h, free, i, i + 1);
    } else {
        assert(h[path.last()].next == 0);
    }
    assert forall|j: int| 0 <= j < path.len() implies #[trigger] path[j] != end by {
        if j < i {
            lemma_ordered_pair(h, free, j, i);
        } else if j > i {
            lemma_ordered_pair(h, free, i, j);
        }
    }
    assert forall|j: int| 0 <= j < path.len() && j != i && j != i + 1 implies #[trigger] h3[path[j]] == h[path[j]] by {
        if j < i {
            lemma_ordered_pair(h, free, j, i);
        } else {
            lemma_ordered_pair(h, free, i + 1, j);
        }
    }
    assert forall|x: usize| #[trigger] h3.contains_key(x) implies h3[x].last == 0 || h3.contains_key(h3[x].last) by {
        if x != end && x != a && x != b.next {
            assert(h.contains_key(x));
        }
    }
}

/// Splitting a block around an allocation keeps a well-kept heap with exact previous links
/// so, when the part after the allocation has room for its header.
#[verifier::rlimit(100)]
#[verifier::spinoff_prover]
proof fn lemma_allocate_split_keeps(h: Map<usize, Block>, free: usize, i: int, p: usize, g: usize)
    requires
        heap_ok(h, free),
        back_linked(h, path_of(h, free)),
        0 <= i < path_of(h, free).len(),
        h[path_of(h, free)[i]].base < p,
        g >= BLOCK_SIZE,
        p + g + BLOCK_SIZE <= h[path_of(h, free)[i]].end,
    ensures
        ({
            let path = path_of(h, free);
            let a = path[i];
            let b = h[a];
            let end = (p + g) as usize;
            let h3 = split_heap(h, a, b, p, end);
            heap_ok(h3, free) && back_linked(h3, path_of(h3, free))
        }),
{
    let path = path_of(h, free);
    lemma_heap_ok_facts(h, free);
    lemma_allocate_split(h, free, i, p, g);
    lemma_split_values(h, free, i, p, g);
    let a = path[i];
    let b = h[a];
    let end = (p + g) as usize;
    let h3 = split_heap(h, a, b, p, end);
    let p2 = path.take(i + 1).push(end) + path.skip(i + 1);
    assert(h.contains_key(a));
    assert(a <= b.base <= b.end && b.last < a);
    assert(b.last == (if i == 0 { 0usize } else { path[i - 1] }));
    if i + 1 < path.len() {
        assert(h[path[i]].next == path[i + 1]);
        assert(h.contains_key(path[i + 1]));
        lemma_ordered_pair(h, free, i, i + 1);
        assert(path[i + 1] <= h[path[i + 1]].base <= h[path[i + 1]].end);
        assert(h[path[i + 1]].last == a);
    }
    assert forall|j: int| 0 <= j < p2.len() implies #[trigger] p2[j] == (if j <= i {
        path[j]
    } else if j == i + 1 {
        end
    } else {
        path[j - 1]
    }) by {}
    assert forall|x: int| 0 <= x < p2.len() - 1 implies #[trigger] h3[p2[x]].end < p2[x + 1] by {
        if x < i {
            assert(h[path[x]].end < path[x + 1]);
        } else if x > i + 1 {
            assert(h[path[x - 1]].end < path[x]);
        }
    }
    assert forall|x: int| 0 <= x < p2.len() implies p2[x] <= #[trigger] h3[p2[x]].base <= h3[p2[x]].end
        && h3[p2[x]].last < p2[x] && p2[x] + BLOCK_SIZE <= h3[p2[x]].base by {
        if x < i {
            assert(path[x] <= h[path[x]].base <= h[path[x]].end);
        } else if x > i + 1 {
            assert(path[x - 1] <= h[path[x - 1]].base <= h[path[x - 1]].end);
        }
    }
    assert forall|x: int| 0 <= x < p2.len() implies #[trigger] h3[p2[x]].last == (if x == 0 {
        0usize
    } else {
        p2[x - 1]
    }) by {
        if x < i {
            assert(h[path[x]].last == (if x == 0 { 0usize } else { path[x - 1] }));
        } else if x > i + 2 {
            assert(h[path[x - 1]].last == path[x - 2]);
        }
    }
    lemma_heap_ok_witness(h3, free, p2);
}

/// Allocation keeps a well-kept heap with exact previous links so, unless it splits a block
/// and leaves after the allocation less room than a header takes.
#[verifier::rlimit(100)]
#[verifier::spinoff_prover]
pub proof fn lemma_allocate_keeps(h: Map<usize, Block>, free: usize, size: usize, align: usize)
    requires
        heap_ok(h, free),
        back_linked(h, path_of(h, free)),
        align >= 1,
        forall|i: int| 0 <= i < path_of(h, free).len() ==> #[trigger] path_of(h, free)[i] + align
            + super::simple_granularity(size) + BLOCK_SIZE <= usize::MAX,
        ({
            let g = super::simple_granularity(size);
            let path = path_of(h, free);
            let i = alloc_stop(h, path, 0, align, g);
            let p = align_spec(path[i], align);
            i < path.len() && p > h[path[i]].base ==> p + g + BLOCK_SIZE <= h[path[i]].end
        }),
    ensures
        ({
            let (r, h2, f2) = allocate_outcome(h, free, size, align);
            heap_ok(h2, f2) && back_linked(h2, path_of(h2, f2))
        }),
{
    let path = path_of(h, free);
    lemma_heap_ok_facts(h, free);
    let g = super::simple_granularity(size);
    lemma_alloc_stop(h, path, 0, align, g);
    let i = alloc_stop(h, path, 0, align, g);
    lemma_allocate_cases(h, free, size, align);
    if i < path.len() {
        let a = path[i];
        let b = h[a];
        assert(h.contains_key(a));
        assert(a + align + g + BLOCK_SIZE <= usize::MAX);
        lemma_align_bounds(a, align);
        let p = align_spec(a, align);
        if p <= b.base {
            if p + g + BLOCK_SIZE <= b.end {
                lemma_allocate_move_keeps(h, free, i, p, g);
            } else {
                lemma_allocate_delete_keeps(h, free, i, p, g);
            }
        } else {
            lemma_allocate_split_keeps(h, free, i, p, g);
        }
    }
}

/// Whether the byte at `x` lies in the memory of the block whose header is at `a`: from its
/// base up to its end.
pub open spec fn in_block(h: Map<usize, Block>, a: usize, x: int) -> bool {
    h[a].base <= x < h[a].end
}

/// Whether the byte at `x` lies in the memory of one of the blocks `q`.
pub open spec fn covered(h: Map<usize, Block>, q: Seq<usize>, x: int) -> bool {
    exists|k: int| 0 <= k < q.len() && #[trigger] in_block(h, q[k], x)
}

/// Whether the byte at `x` is usable memory of the heap: it lies after the header of a free
/// block and before that block's end.
pub open spec fn usable_byte(h: Map<usize, Block>, free: usize, x: int) -> bool {
    covered(h, path_of(h, free), x)
}

/// Blocks whose memory is the same in two sets of headers cover the same bytes.
proof fn lemma_covered_frame(h1: Map<usize, Block>, h2: Map<usize, Block>, q: Seq<usize>)
    requires
        forall|k: int| 0 <= k < q.len() ==> (#[trigger] h1[q[k]]).base == h2[q[k]].base && h1[q[k]].end
            == h2[q[k]].end,
    ensures
        forall|x: int| #[trigger] covered(h1, q, x) == covered(h2, q, x),
{
    assert forall|x: int| #[trigger] covered(h1, q, x) == covered(h2, q, x) by {
        if covered(h1, q, x) {
            let k = choose|k: int| 0 <= k < q.len() && #[trigger] in_block(h1, q[k], x);
            assert(in_block(h2, q[k], x));
        }
        if covered(h2, q, x) {
            let k = choose|k: int| 0 <= k < q.len() && #[trigger] in_block(h2, q[k], x);
            assert(in_block(h1, q[k], x));
        }
    }
}

/// The bytes two lists of blocks cover together.
proof fn lemma_covered_concat(h: Map<usize, Block>, q: Seq<usize>, r: Seq<usize>)
    ensures
        forall|x: int| #[trigger] covered(h, q + r, x) == (covered(h, q, x) || covered(h, r, x)),
{
    assert forall|x: int| #[trigger] covered(h, q + r, x) == (covered(h, q, x) || covered(h, r, x)) by {
        if covered(h, q + r, x) {
            let k = choose|k: int| 0 <= k < (q + r).len() && #[trigger] in_block(h, (q + r)[k], x);
            if k < q.len() {
                assert(in_block(h, q[k], x));
            } else {
                assert(in_block(h, r[k - q.len()], x));
            }
        }
        if covered(h, q, x) {
            let k = choose|k: int| 0 <= k < q.len() && #[trigger] in_block(h, q[k], x);
            assert((q + r)[k] == q[k]);
            assert(in_block(h, (q + r)[k], x));
        }
        if covered(h, r, x) {
            let k = choose|k: int| 0 <= k < r.len() && #[trigger] in_block(h, r[k], x);
            assert((q + r)[q.len() + k] == r[k]);
            assert(in_block(h, (q + r)[q.len() + k], x));
        }
    }
}

/// The bytes a list covers with one more block.
proof fn lemma_covered_push(h: Map<usize, Block>, q: Seq<usize>, a: usize)
    ensures
        forall|x: int| #[trigger] covered(h, q.push(a), x) == (covered(h, q, x) || in_block(h, a, x)),
{
    lemma_covered_concat(h, q, seq![a]);
    assert(q.push(a) =~= q + seq![a]);
    assert forall|x: int| covered(h, seq![a], x) == in_block(h, a, x) by {
        if in_block(h, a, x) {
            assert(in_block(h, seq![a][0], x));
        }
    }
}

/// The shape of forgetting the memory when it reaches position `i` of the list `path` of the
/// headers `h0`: the headers are `hi`, and the list is the blocks `q` kept so far, in order
/// and before the block at `i`, followed by the untouched rest of `path`.
#[verifier::opaque]
spec fn forget_links(h0: Map<usize, Block>, path: Seq<usize>, hi: Map<usize, Block>, q: Seq<usize>, i: int) -> bool {
    let s = q + path.subrange(i, path.len() as int);
    &&& 0 <= i < path.len()
    &&& suffix_ok(hi, path, i)
    &&& backed(hi)
    &&& forall|j: int| i <= j < path.len() ==> (#[trigger] hi[path[j]]).base == h0[path[j]].base
        && hi[path[j]].end == h0[path[j]].end
    &&& forall|j: int| i <= j < path.len() ==> #[trigger] path[j] + BLOCK_SIZE <= h0[path[j]].base
    &&& chain(hi, s, path[0])
    &&& back_linked(hi, s)
    &&& (q.len() == 0 <==> i == 0)
    &&& forall|k: int| 0 <= k < q.len() ==> #[trigger] q[k] < path[i]
    &&& forall|k1: int, k2: int| 0 <= k1 < k2 < q.len() ==> #[trigger] q[k1] < #[trigger] q[k2]
}

/// The bytes when forgetting the memory from `ptr` to `end` reaches position `i`: the blocks
/// `q` kept hold no byte of the memory and nothing that was not free before, and every free
/// byte before position `i` away from the memory and the header room after it.
#[verifier::opaque]
spec fn forget_bytes(
    h0: Map<usize, Block>,
    path: Seq<usize>,
    hi: Map<usize, Block>,
    q: Seq<usize>,
    i: int,
    ptr: usize,
    end: usize,
) -> bool {
    &&& forall|x: int| #[trigger] covered(hi, q, x) ==> covered(h0, path.subrange(0, i), x) && !(ptr <= x < end)
    &&& forall|x: int| #[trigger] covered(h0, path.subrange(0, i), x) && !(ptr <= x < end + BLOCK_SIZE)
        ==> covered(hi, q, x)
}

/// A list made of the blocks `q` and then the rest of `path` after position `i` runs from
/// `start`, when each link holds.
proof fn lemma_chain_join(h: Map<usize, Block>, q: Seq<usize>, path: Seq<usize>, i: int, start: usize)
    requires
        q.len() > 0,
        q[0] == start,
        0 <= i < path.len(),
        forall|k: int| 0 <= k < q.len() ==> #[trigger] h.contains_key(q[k]) && q[k] != 0,
        forall|k: int| 0 <= k < q.len() - 1 ==> h[#[trigger] q[k]].next == q[k + 1],
        h[q.last()].next == (if i + 1 < path.len() { path[i + 1] } else { 0usize }),
        forall|j: int| i < j < path.len() ==> #[trigger] h.contains_key(path[j]) && path[j] != 0,
        forall|j: int| i < j < path.len() - 1 ==> h[#[trigger] path[j]].next == path[j + 1],
        i + 1 < path.len() ==> h[path.last()].next == 0,
    ensures
        chain(h, q + path.subrange(i + 1, path.len() as int), start),
{
    let r = path.subrange(i + 1, path.len() as int);
    let s = q + r;
    assert(s[0] == q[0]);
    assert(h.contains_key(q[0]) && q[0] != 0);
    assert(s.len() > 0 && start != 0);
    assert forall|m: int| 0 <= m < s.len() implies #[trigger] h.contains_key(s[m]) && s[m] != 0 by {
        if m < q.len() {
            assert(s[m] == q[m]);
        } else {
            assert(s[m] == path[i + 1 + m - q.len()]);
        }
    }
    assert forall|m: int| 0 <= m < s.len() - 1 implies h[#[trigger] s[m]].next == s[m + 1] by {
        if m < q.len() - 1 {
            assert(s[m] == q[m]);
            assert(s[m + 1] == q[m + 1]);
        } else if m == q.len() - 1 {
            assert(s[m] == q[m]);
            assert(s[m + 1] == path[i + 1]);
        } else {
            assert(s[m] == path[i + 1 + m - q.len()]);
            assert(s[m + 1] == path[i + 2 + m - q.len()]);
        }
    }
    if r.len() > 0 {
        assert(s.last() == path.last());
    } else {
        assert(s.last() == q.last());
    }
}

/// A list made of the blocks `q` and then the rest of `path` after position `i` links each
/// block back to the one before it, when each previous link holds.
proof fn lemma_back_join(h: Map<usize, Block>, q: Seq<usize>, path: Seq<usize>, i: int)
    requires
        q.len() > 0,
        0 <= i < path.len(),
        h[q[0]].last == 0,
        forall|k: int| 0 < k < q.len() ==> h[#[trigger] q[k]].last == q[k - 1],
        i + 1 < path.len() ==> h[path[i + 1]].last == q.last(),
        forall|j: int| i + 1 < j < path.len() ==> h[#[trigger] path[j]].last == path[j - 1],
    ensures
        back_linked(h, q + path.subrange(i + 1, path.len() as int)),
{
    let r = path.subrange(i + 1, path.len() as int);
    let s = q + r;
    assert forall|m: int| 0 <= m < s.len() implies #[trigger] h[s[m]].last == (if m == 0 {
        0usize
    } else {
        s[m - 1]
    }) by {
        if m < q.len() {
            assert(s[m] == q[m]);
            if m > 0 {
                assert(s[m - 1] == q[m - 1]);
            }
        } else if m == q.len() {
            assert(s[m] == path[i + 1]);
            assert(s[m - 1] == q.last());
        } else {
            assert(s[m] == path[i + 1 + m - q.len()]);
            assert(s[m - 1] == path[i + m - q.len()]);
        }
    }
}

/// The parts of the shape of a forgetting state.
proof fn lemma_links_open(h0: Map<usize, Block>, path: Seq<usize>, hi: Map<usize, Block>, q: Seq<usize>, i: int)
    requires
        forget_links(h0, path, hi, q, i),
    ensures
        0 <= i < path.len(),
        suffix_ok(hi, path, i),
        backed(hi),
        forall|j: int| i <= j < path.len() ==> (#[trigger] hi[path[j]]).base == h0[path[j]].base
            && hi[path[j]].end == h0[path[j]].end,
        forall|j: int| i <= j < path.len() ==> #[trigger] path[j] + BLOCK_SIZE <= h0[path[j]].base,
        chain(hi, q + path.subrange(i, path.len() as int), path[0]),
        back_linked(hi, q + path.subrange(i, path.len() as int)),
        (q.len() == 0 <==> i == 0),
        forall|k: int| 0 <= k < q.len() ==> #[trigger] q[k] < path[i],
        forall|k1: int, k2: int| 0 <= k1 < k2 < q.len() ==> #[trigger] q[k1] < #[trigger] q[k2],
{
    reveal(forget_links);
}

/// The blocks of the list made of the blocks `q` and then `path` from position `i`.
proof fn lemma_concat_index(q: Seq<usize>, path: Seq<usize>, i: int)
    requires
        0 <= i <= path.len(),
    ensures
        (q + path.subrange(i, path.len() as int)).len() == q.len() + path.len() - i,
        forall|m: int| 0 <= m < q.len() ==> #[trigger] (q + path.subrange(i, path.len() as int))[m] == q[m],
        forall|j: int| i <= j < path.len() ==> (q + path.subrange(i, path.len() as int))[q.len() + j - i]
            == #[trigger] path[j],
{
    assert forall|j: int| i <= j < path.len() implies (q + path.subrange(i, path.len() as int))[q.len() + j - i]
        == #[trigger] path[j] by {
        assert(path.subrange(i, path.len() as int)[j - i] == path[j]);
    }
}

/// The links at position `m` of a list that runs from `start` and links each block back.
proof fn lemma_link_at(h: Map<usize, Block>, s: Seq<usize>, start: usize, m: int)
    requires
        chain(h, s, start),
        back_linked(h, s),
        0 <= m < s.len(),
    ensures
        h.contains_key(s[m]),
        s[m] != 0,
        h[s[m]].next == (if m + 1 < s.len() { s[m + 1] } else { 0usize }),
        h[s[m]].last == (if m == 0 { 0usize } else { s[m - 1] }),
{
}

/// The links of the blocks `q` at the front of the list `s`, block by block.
proof fn lemma_front_links(hi: Map<usize, Block>, s: Seq<usize>, q: Seq<usize>, start: usize)
    requires
        chain(hi, s, start),
        back_linked(hi, s),
        q.len() < s.len(),
        forall|m: int| 0 <= m < q.len() ==> #[trigger] s[m] == q[m],
    ensures
        forall|k: int| 0 <= k < q.len() ==> #[trigger] hi.contains_key(q[k]) && q[k] != 0,
        forall|k: int| 0 <= k < q.len() - 1 ==> hi[#[trigger] q[k]].next == q[k + 1],
        q.len() > 0 ==> hi[q.last()].next == s[q.len() as int],
        q.len() > 0 ==> hi[q[0]].last == 0 && q[0] == start,
        forall|k: int| 0 < k < q.len() ==> hi[#[trigger] q[k]].last == q[k - 1],
        hi[s[q.len() as int]].last == (if q.len() == 0 { 0usize } else { q.last() }),
        q.len() == 0 ==> s[0] == start,
{
    let n = q.len() as int;
    assert forall|k: int| 0 <= k < q.len() implies #[trigger] hi.contains_key(q[k]) && q[k] != 0 by {
        assert(s[k] == q[k]);
        lemma_link_at(hi, s, start, k);
    }
    assert forall|k: int| 0 <= k < q.len() - 1 implies hi[#[trigger] q[k]].next == q[k + 1] by {
        assert(s[k] == q[k]);
        assert(s[k + 1] == q[k + 1]);
        lemma_link_at(hi, s, start, k);
    }
    if n > 0 {
        assert(s[n - 1] == q.last());
        assert(s[0] == q[0]);
        lemma_link_at(hi, s, start, 0);
        lemma_link_at(hi, s, start, n - 1);
    }
    assert forall|k: int| 0 < k < q.len() implies hi[#[trigger] q[k]].last == q[k - 1] by {
        assert(s[k] == q[k]);
        assert(s[k - 1] == q[k - 1]);
        lemma_link_at(hi, s, start, k);
    }
    lemma_link_at(hi, s, start, n);
}

/// The links of the blocks of `path` from position `i` at the back of the list `s`.
proof fn lemma_back_links(hi: Map<usize, Block>, s: Seq<usize>, n: int, path: Seq<usize>, i: int, start: usize)
    requires
        chain(hi, s, start),
        back_linked(hi, s),
        0 <= i < path.len(),
        0 <= n,
        s.len() == n + path.len() - i,
        forall|j: int| i <= j < path.len() ==> s[n + j - i] == #[trigger] path[j],
    ensures
        forall|j: int| i < j < path.len() ==> hi[#[trigger] path[j]].last == path[j - 1],
        forall|j: int| i <= j < path.len() ==> #[trigger] path[j] != 0,
{
    assert forall|j: int| i < j < path.len() implies hi[#[trigger] path[j]].last == path[j - 1] by {
        assert(s[n + j - i] == path[j]);
        assert(s[n + (j - 1) - i] == path[j - 1]);
        lemma_link_at(hi, s, start, n + j - i);
    }
    assert forall|j: int| i <= j < path.len() implies #[trigger] path[j] != 0 by {
        assert(s[n + j - i] == path[j]);
        lemma_link_at(hi, s, start, n + j - i);
    }
}

/// The links of a list made of the blocks `q` and then `path` from position `i`, block by
/// block.
proof fn lemma_seq_links(hi: Map<usize, Block>, q: Seq<usize>, path: Seq<usize>, i: int)
    requires
        0 <= i < path.len(),
        chain(hi, q + path.subrange(i, path.len() as int), path[0]),
        back_linked(hi, q + path.subrange(i, path.len() as int)),
    ensures
        forall|k: int| 0 <= k < q.len() ==> #[trigger] hi.contains_key(q[k]) && q[k] != 0,
        forall|k: int| 0 <= k < q.len() - 1 ==> hi[#[trigger] q[k]].next == q[k + 1],
        q.len() > 0 ==> hi[q.last()].next == path[i],
        q.len() > 0 ==> hi[q[0]].last == 0 && q[0] == path[0],
        forall|k: int| 0 < k < q.len() ==> hi[#[trigger] q[k]].last == q[k - 1],
        hi[path[i]].last == (if q.len() == 0 { 0usize } else { q.last() }),
        forall|j: int| i < j < path.len() ==> hi[#[trigger] path[j]].last == path[j - 1],
        forall|j: int| i <= j < path.len() ==> #[trigger] path[j] != 0,
        q.len() == 0 ==> path[i] == path[0],
{
    let s = q + path.subrange(i, path.len() as int);
    lemma_concat_index(q, path, i);
    assert(s[q.len() + i - i] == path[i]);
    lemma_front_links(hi, s, q, path[0]);
    lemma_back_links(hi, s, q.len() as int, path, i, path[0]);
}

/// The links of the list of a forgetting state, block by block.
proof fn lemma_state_links(
    h0: Map<usize, Block>,
    path: Seq<usize>,
    hi: Map<usize, Block>,
    q: Seq<usize>,
    i: int,
)
    requires
        forget_links(h0, path, hi, q, i),
    ensures
        forall|k: int| 0 <= k < q.len() ==> #[trigger] hi.contains_key(q[k]) && q[k] != 0,
        forall|k: int| 0 <= k < q.len() - 1 ==> hi[#[trigger] q[k]].next == q[k + 1],
        q.len() > 0 ==> hi[q.last()].next == path[i],
        q.len() > 0 ==> hi[q[0]].last == 0 && q[0] == path[0],
        forall|k: int| 0 < k < q.len() ==> hi[#[trigger] q[k]].last == q[k - 1],
        hi[path[i]].last == (if q.len() == 0 { 0usize } else { q.last() }),
        forall|j: int| i < j < path.len() ==> hi[#[trigger] path[j]].last == path[j - 1],
        forall|j: int| i <= j < path.len() ==> #[trigger] path[j] != 0,
        q.len() == 0 ==> path[i] == path[0],
        path[i] + BLOCK_SIZE <= hi[path[i]].base <= hi[path[i]].end,
        hi.contains_key(path[i]),
        hi[path[i]].next == (if i + 1 < path.len() { path[i + 1] } else { 0usize }),
        forall|j: int| i < j < path.len() ==> #[trigger] path[j] > hi[path[i]].end && path[j] > path[i]
            && hi.contains_key(path[j]),
        forall|j: int| i < j < path.len() - 1 ==> hi[#[trigger] path[j]].next == path[j + 1],
        i + 1 < path.len() ==> hi[path.last()].next == 0,
        0 <= i < path.len(),
        forall|j1: int, j2: int| i <= j1 < j2 < path.len() ==> #[trigger] path[j1] < #[trigger] path[j2],
        forall|j: int| i <= j < path.len() ==> (#[trigger] hi[path[j]]).base == h0[path[j]].base
            && hi[path[j]].end == h0[path[j]].end,
        forall|k: int| 0 <= k < q.len() ==> #[trigger] q[k] < path[i],
        forall|k1: int, k2: int| 0 <= k1 < k2 < q.len() ==> #[trigger] q[k1] < #[trigger] q[k2],
        (q.len() == 0 <==> i == 0),
{
    lemma_links_open(h0, path, hi, q, i);
    lemma_seq_links(hi, q, path, i);
    assert(hi[path[i]].base == h0[path[i]].base);
    assert(path[i] + BLOCK_SIZE <= h0[path[i]].base);
    if i + 1 < path.len() {
        assert(hi[path[i]].next == path[i + 1]);
    }
    assert forall|j: int| i < j < path.len() implies #[trigger] path[j] > hi[path[i]].end && path[j] > path[i]
        && hi.contains_key(path[j]) by {
        assert(hi[path[i]].end < path[j]);
        assert(path[i] < path[j]);
    }
}

/// What a step of forgetting leaves, for the blocks `q2` kept once position `i` is done.
#[verifier::opaque]
spec fn step_ok(
    h0: Map<usize, Block>,
    path: Seq<usize>,
    h1: Map<usize, Block>,
    q2: Seq<usize>,
    i: int,
    ptr: usize,
    end: usize,
) -> bool {
    let rest = path.subrange(i + 1, path.len() as int);
    &&& chain(h1, q2 + rest, path[0])
    &&& back_linked(h1, q2 + rest)
    &&& q2.len() > 0
    &&& forall|j: int| i < j < path.len() ==> (#[trigger] h1[path[j]]).base == h0[path[j]].base
        && h1[path[j]].end == h0[path[j]].end
    &&& forall|k: int| 0 <= k < q2.len() && i + 1 < path.len() ==> #[trigger] q2[k] < path[i + 1]
    &&& forall|k1: int, k2: int| 0 <= k1 < k2 < q2.len() ==> #[trigger] q2[k1] < #[trigger] q2[k2]
    &&& forall|x: int| #[trigger] covered(h1, q2, x) ==> covered(h0, path.subrange(0, i + 1), x) && !(ptr <= x < end)
    &&& forall|x: int| #[trigger] covered(h0, path.subrange(0, i + 1), x) && !(ptr <= x < end + BLOCK_SIZE)
        ==> covered(h1, q2, x)
}

/// The parts of what a step of forgetting leaves make it.
proof fn lemma_step_intro(
    h0: Map<usize, Block>,
    path: Seq<usize>,
    h1: Map<usize, Block>,
    q2: Seq<usize>,
    i: int,
    ptr: usize,
    end: usize,
)
    requires
        chain(h1, q2 + path.subrange(i + 1, path.len() as int), path[0]),
        back_linked(h1, q2 + path.subrange(i + 1, path.len() as int)),
        q2.len() > 0,
        forall|j: int| i < j < path.len() ==> (#[trigger] h1[path[j]]).base == h0[path[j]].base
            && h1[path[j]].end == h0[path[j]].end,
        forall|k: int| 0 <= k < q2.len() && i + 1 < path.len() ==> #[trigger] q2[k] < path[i + 1],
        forall|k1: int, k2: int| 0 <= k1 < k2 < q2.len() ==> #[trigger] q2[k1] < #[trigger] q2[k2],
        forall|x: int| #[trigger] covered(h1, q2, x) ==> covered(h0, path.subrange(0, i + 1), x) && !(ptr <= x < end),
        forall|x: int| #[trigger] covered(h0, path.subrange(0, i + 1), x) && !(ptr <= x < end + BLOCK_SIZE)
            ==> covered(h1, q2, x),
    ensures
        step_ok(h0, path, h1, q2, i, ptr, end),
{
    reveal(step_ok);
}

/// Forgetting a block that lies wholly in the memory unlinks it.
#[verifier::rlimit(50)]
#[verifier::spinoff_prover]
proof fn lemma_forget_whole(
    h0: Map<usize, Block>,
    path: Seq<usize>,
    hi: Map<usize, Block>,
    q: Seq<usize>,
    i: int,
    ptr: usize,
    end: usize,
)
    requires
        forget_links(h0, path, hi, q, i),
        forget_bytes(h0, path, hi, q, i, ptr, end),
        ptr < end,
        q.len() > 0,
        hi[path[i]].base >= ptr && end >= hi[path[i]].end,
    ensures
        step_ok(h0, path, forget_node(hi, path[i], ptr, end).0, q, i, ptr, end),
{
    lemma_state_links(h0, path, hi, q, i);
    let n = q.len() as int;
    let a = path[i];
    let b = hi[a];
    let l = q[n - 1];
    let nx = b.next;
    assert(b.last == l);
    let h1 = hi.insert(l, with_next(hi[l], nx));
    assert(h1[a] == b);
    let h2 = if nx != 0 {
        h1.insert(nx, with_last(h1[nx], l))
    } else {
        h1
    };
    assert(forget_node(hi, a, ptr, end).0 == h2);
    let rest = path.subrange(i + 1, path.len() as int);
    assert(forall|k: int| 0 <= k < n - 1 ==> #[trigger] h2[q[k]] == hi[q[k]]) by {
        assert forall|k: int| 0 <= k < n - 1 implies #[trigger] h2[q[k]] == hi[q[k]] by {
            assert(q[k] < q[n - 1]);
            assert(q[k] < a);
            if i + 1 < path.len() {
                assert(path[i + 1] > a);
            }
        }
    }
    assert(forall|j: int| i + 1 < j < path.len() ==> #[trigger] h2[path[j]] == hi[path[j]]) by {
        assert forall|j: int| i + 1 < j < path.len() implies #[trigger] h2[path[j]] == hi[path[j]] by {
            assert(path[j] > path[i + 1]);
            assert(path[j] > a);
        }
    }
    assert(h2[l] == with_next(hi[l], nx));
    assert(i + 1 < path.len() ==> nx == path[i + 1] && h2[nx] == with_last(hi[nx], l));
    assert(chain(h2, q + rest, path[0])) by {
        assert forall|k: int| 0 <= k < q.len() implies #[trigger] h2.contains_key(q[k]) && q[k] != 0 by {}
        assert forall|k: int| 0 <= k < q.len() - 1 implies h2[#[trigger] q[k]].next == q[k + 1] by {
            assert(h2[q[k]] == hi[q[k]]);
        }
        assert forall|j: int| i < j < path.len() implies #[trigger] h2.contains_key(path[j]) && path[j] != 0 by {}
        assert forall|j: int| i < j < path.len() - 1 implies h2[#[trigger] path[j]].next == path[j + 1] by {
            if j > i + 1 {
                assert(h2[path[j]] == hi[path[j]]);
            }
        }
        if i + 1 < path.len() && path.len() - 1 > i + 1 {
            assert(h2[path.last()] == hi[path.last()]);
        }
        lemma_chain_join(h2, q, path, i, path[0]);
    }
    assert(back_linked(h2, q + rest)) by {
        assert forall|k: int| 0 < k < q.len() implies h2[#[trigger] q[k]].last == q[k - 1] by {
            if k < n - 1 {
                assert(h2[q[k]] == hi[q[k]]);
            }
        }
        if n > 1 {
            assert(h2[q[0]] == hi[q[0]]);
        }
        assert forall|j: int| i + 1 < j < path.len() implies h2[#[trigger] path[j]].last == path[j - 1] by {
            assert(h2[path[j]] == hi[path[j]]);
        }
        lemma_back_join(h2, q, path, i);
    }
    assert forall|j: int| i < j < path.len() implies (#[trigger] h2[path[j]]).base == h0[path[j]].base
        && h2[path[j]].end == h0[path[j]].end by {
        if j > i + 1 {
            assert(h2[path[j]] == hi[path[j]]);
        }
    }
    assert forall|k: int| 0 <= k < q.len() && i + 1 < path.len() implies #[trigger] q[k] < path[i + 1] by {
        assert(path[i + 1] > a);
    }
    let before = path.subrange(0, i);
    assert(path.subrange(0, i + 1) =~= before.push(a));
    assert(forall|x: int| #[trigger] covered(h2, q, x) == covered(hi, q, x)) by {
        assert forall|k: int| 0 <= k < q.len() implies (#[trigger] h2[q[k]]).base == hi[q[k]].base
            && h2[q[k]].end == hi[q[k]].end by {
            if k < n - 1 {
                assert(h2[q[k]] == hi[q[k]]);
            }
        }
        lemma_covered_frame(h2, hi, q);
    }
    lemma_covered_push(h0, before, a);
    assert forall|x: int| #[trigger] covered(h2, q, x) implies covered(h0, path.subrange(0, i + 1), x) && !(ptr
        <= x < end) by {
        reveal(forget_bytes);
        assert(covered(hi, q, x));
    }
    assert forall|x: int| #[trigger] covered(h0, path.subrange(0, i + 1), x) && !(ptr <= x < end + BLOCK_SIZE)
        implies covered(h2, q, x) by {
        reveal(forget_bytes);
        if in_block(h0, a, x) {
            assert(false);
        }
        assert(covered(h0, before, x));
        assert(covered(hi, q, x));
    }
    lemma_step_intro(h0, path, h2, q, i, ptr, end);
}

/// The list after shortening a block to end at the memory it loses.
#[verifier::rlimit(100)]
#[verifier::spinoff_prover]
proof fn lemma_tail_links(
    h0: Map<usize, Block>,
    path: Seq<usize>,
    hi: Map<usize, Block>,
    q: Seq<usize>,
    i: int,
    ptr: usize,
    end: usize,
)
    requires
        forget_links(h0, path, hi, q, i),
        ptr < end,
        !(hi[path[i]].base >= ptr && end >= hi[path[i]].end),
        ptr > hi[path[i]].base && ptr < hi[path[i]].end && end >= hi[path[i]].end,
    ensures
        ({
            let h1 = forget_node(hi, path[i], ptr, end).0;
            let q2 = q.push(path[i]);
            let rest = path.subrange(i + 1, path.len() as int);
            &&& h1 == hi.insert(path[i], with_end(hi[path[i]], ptr))
            &&& chain(h1, q2 + rest, path[0])
            &&& back_linked(h1, q2 + rest)
            &&& forall|j: int| i < j < path.len() ==> (#[trigger] h1[path[j]]).base == h0[path[j]].base
                && h1[path[j]].end == h0[path[j]].end
            &&& forall|k: int| 0 <= k < q2.len() && i + 1 < path.len() ==> #[trigger] q2[k] < path[i + 1]
            &&& forall|k1: int, k2: int| 0 <= k1 < k2 < q2.len() ==> #[trigger] q2[k1] < #[trigger] q2[k2]
            &&& forall|k: int| 0 <= k < q.len() ==> (#[trigger] h1[q[k]]).base == hi[q[k]].base
                && h1[q[k]].end == hi[q[k]].end
        }),
{
    lemma_state_links(h0, path, hi, q, i);
    let n = q.len() as int;
    let a = path[i];
    let b = hi[a];
    let nx = b.next;
    let h1 = hi.insert(a, with_end(b, ptr));
    assert(forget_node(hi, a, ptr, end).0 == h1);
    let q2 = q.push(a);
    let rest = path.subrange(i + 1, path.len() as int);
    assert(forall|k: int| 0 <= k < n ==> #[trigger] q2[k] == q[k] && h1[q[k]] == hi[q[k]]) by {
        assert forall|k: int| 0 <= k < n implies #[trigger] q2[k] == q[k] && h1[q[k]] == hi[q[k]] by {
            assert(q[k] < a);
        }
    }
    assert(q2[n] == a);
    assert(forall|j: int| i < j < path.len() ==> #[trigger] h1[path[j]] == hi[path[j]]) by {
        assert forall|j: int| i < j < path.len() implies #[trigger] h1[path[j]] == hi[path[j]] by {
            assert(path[j] > a);
        }
    }
    assert(h1[a] == with_end(b, ptr));
    assert(chain(h1, q2 + rest, path[0])) by {
        if n > 0 {
            assert(q2[0] == q[0]);
        }
        assert forall|k: int| 0 <= k < q2.len() implies #[trigger] h1.contains_key(q2[k]) && q2[k] != 0 by {
            if k < n {
                assert(q2[k] == q[k]);
            }
        }
        assert forall|k: int| 0 <= k < q2.len() - 1 implies h1[#[trigger] q2[k]].next == q2[k + 1] by {
            assert(q2[k] == q[k]);
            if k < n - 1 {
                assert(q2[k + 1] == q[k + 1]);
            } else {
                assert(q[k] == q.last());
            }
        }
        assert(q2.last() == a);
        assert forall|j: int| i < j < path.len() implies #[trigger] h1.contains_key(path[j]) && path[j] != 0 by {}
        assert forall|j: int| i < j < path.len() - 1 implies h1[#[trigger] path[j]].next == path[j + 1] by {
            assert(h1[path[j]] == hi[path[j]]);
        }
        if i + 1 < path.len() {
            assert(h1[path.last()] == hi[path.last()]);
        }
        lemma_chain_join(h1, q2, path, i, path[0]);
    }
    assert(back_linked(h1, q2 + rest)) by {
        if n > 0 {
            assert(q2[0] == q[0]);
        }
        assert forall|k: int| 0 < k < q2.len() implies h1[#[trigger] q2[k]].last == q2[k - 1] by {
            if k < n {
                assert(q2[k] == q[k]);
                assert(q2[k - 1] == q[k - 1]);
            } else {
                assert(q2[k - 1] == q.last());
            }
        }
        assert forall|j: int| i + 1 < j < path.len() implies h1[#[trigger] path[j]].last == path[j - 1] by {
            assert(h1[path[j]] == hi[path[j]]);
        }
        if i + 1 < path.len() {
            assert(h1[path[i + 1]] == hi[path[i + 1]]);
        }
        lemma_back_join(h1, q2, path, i);
    }
    assert forall|j: int| i < j < path.len() implies (#[trigger] h1[path[j]]).base == h0[path[j]].base
        && h1[path[j]].end == h0[path[j]].end by {
        assert(h1[path[j]] == hi[path[j]]);
    }
    assert forall|k: int| 0 <= k < q2.len() && i + 1 < path.len() implies #[trigger] q2[k] < path[i + 1] by {
        assert(path[i + 1] > a);
        if k < n {
            assert(q2[k] == q[k]);
        }
    }
    assert forall|k1: int, k2: int| 0 <= k1 < k2 < q2.len() implies #[trigger] q2[k1] < #[trigger] q2[k2] by {
        assert(q2[k1] == q[k1]);
        if k2 < n {
            assert(q2[k2] == q[k2]);
        }
    }
    assert forall|k: int| 0 <= k < q.len() implies (#[trigger] h1[q[k]]).base == hi[q[k]].base
        && h1[q[k]].end == hi[q[k]].end by {
        assert(q2[k] == q[k]);
    }
}

/// Forgetting the memory over the tail of a block shortens the block to end at the memory.
#[verifier::rlimit(50)]
#[verifier::spinoff_prover]
proof fn lemma_forget_tail(
    h0: Map<usize, Block>,
    path: Seq<usize>,
    hi: Map<usize, Block>,
    q: Seq<usize>,
    i: int,
    ptr: usize,
    end: usize,
)
    requires
        forget_links(h0, path, hi, q, i),
        forget_bytes(h0, path, hi, q, i, ptr, end),
        ptr < end,
        !(hi[path[i]].base >= ptr && end >= hi[path[i]].end),
        ptr > hi[path[i]].base && ptr < hi[path[i]].end && end >= hi[path[i]].end,
    ensures
        step_ok(h0, path, forget_node(hi, path[i], ptr, end).0, q.push(path[i]), i, ptr, end),
{
    lemma_tail_links(h0, path, hi, q, i, ptr, end);
    lemma_links_open(h0, path, hi, q, i);
    let a = path[i];
    let b = hi[a];
    let h1 = forget_node(hi, a, ptr, end).0;
    let q2 = q.push(a);
    assert(h1[a] == with_end(b, ptr));
    assert(hi[a].base == h0[a].base && hi[a].end == h0[a].end);
    let before = path.subrange(0, i);
    assert(path.subrange(0, i + 1) =~= before.push(a));
    lemma_covered_frame(h1, hi, q);
    lemma_covered_push(h0, before, a);
    lemma_covered_push(h1, q, a);
    assert forall|x: int| #[trigger] covered(h1, q2, x) implies covered(h0, path.subrange(0, i + 1), x) && !(ptr
        <= x < end) by {
        reveal(forget_bytes);
        if covered(h1, q, x) {
            assert(covered(hi, q, x));
        } else {
            assert(in_block(h1, a, x));
            assert(in_block(h0, a, x));
        }
    }
    assert forall|x: int| #[trigger] covered(h0, path.subrange(0, i + 1), x) && !(ptr <= x < end + BLOCK_SIZE)
        implies covered(h1, q2, x) by {
        reveal(forget_bytes);
        if in_block(h0, a, x) {
            assert(in_block(h1, a, x));
        } else {
            assert(covered(h0, before, x));
            assert(covered(hi, q, x));
        }
    }
    lemma_step_intro(h0, path, h1, q2, i, ptr, end);
}

/// Forgetting the memory over the front of a block moves the block's header to the end of the
/// memory.
#[verifier::rlimit(50)]
#[verifier::spinoff_prover]
proof fn lemma_forget_front(
    h0: Map<usize, Block>,
    path: Seq<usize>,
    hi: Map<usize, Block>,
    q: Seq<usize>,
    i: int,
    ptr: usize,
    end: usize,
)
    requires
        forget_links(h0, path, hi, q, i),
        forget_bytes(h0, path, hi, q, i, ptr, end),
        ptr < end,
        end + BLOCK_SIZE <= usize::MAX,
        q.len() > 0,
        hi[path[i]].base >= ptr && end >= hi[path[i]].base && hi[path[i]].end > end,
    ensures
        step_ok(h0, path, forget_node(hi, path[i], ptr, end).0, q.push(end), i, ptr, end),
{
    lemma_state_links(h0, path, hi, q, i);
    let n = q.len() as int;
    let a = path[i];
    let b = hi[a];
    let l = q[n - 1];
    let nx = b.next;
    assert(b.last == l);
    let nb = Block { base: (end + BLOCK_SIZE) as usize, end: b.end, next: b.next, last: b.last };
    let g1 = hi.insert(end, nb);
    assert(g1[a] == b);
    assert(g1[l] == hi[l]);
    let g2 = g1.insert(l, with_next(hi[l], end));
    assert(g2[a] == b);
    let g3 = if nx != 0 {
        g2.insert(nx, with_last(g2[nx], end))
    } else {
        g2
    };
    assert(forget_node(hi, a, ptr, end).0 == g3);
    let q2 = q.push(end);
    let rest = path.subrange(i + 1, path.len() as int);
    assert(forall|k: int| 0 <= k < n - 1 ==> #[trigger] q2[k] == q[k] && g3[q[k]] == hi[q[k]]) by {
        assert forall|k: int| 0 <= k < n - 1 implies #[trigger] q2[k] == q[k] && g3[q[k]] == hi[q[k]] by {
            assert(q[k] < q[n - 1]);
            assert(q[k] < a);
            if i + 1 < path.len() {
                assert(path[i + 1] > a);
            }
        }
    }
    assert(q2[n - 1] == l);
    assert(q2[n] == end);
    assert(forall|j: int| i + 1 < j < path.len() ==> #[trigger] g3[path[j]] == hi[path[j]]) by {
        assert forall|j: int| i + 1 < j < path.len() implies #[trigger] g3[path[j]] == hi[path[j]] by {
            assert(path[j] > path[i + 1]);
            assert(path[j] > a);
            assert(path[j] > b.end);
        }
    }
    assert(g3[l] == with_next(hi[l], end));
    assert(g3[end] == nb);
    assert(i + 1 < path.len() ==> nx == path[i + 1] && g3[nx] == with_last(hi[nx], end));
    assert(chain(g3, q2 + rest, path[0])) by {
        assert(q2[0] == q[0]);
        assert forall|k: int| 0 <= k < q2.len() implies #[trigger] g3.contains_key(q2[k]) && q2[k] != 0 by {
            if k < n {
                assert(q2[k] == q[k]);
            }
        }
        assert forall|k: int| 0 <= k < q2.len() - 1 implies g3[#[trigger] q2[k]].next == q2[k + 1] by {
            assert(q2[k] == q[k]);
            if k < n - 1 {
                assert(q2[k + 1] == q[k + 1]);
            }
        }
        assert(q2.last() == end);
        assert forall|j: int| i < j < path.len() implies #[trigger] g3.contains_key(path[j]) && path[j] != 0 by {}
        assert forall|j: int| i < j < path.len() - 1 implies g3[#[trigger] path[j]].next == path[j + 1] by {
            if j > i + 1 {
                assert(g3[path[j]] == hi[path[j]]);
            }
        }
        if i + 1 < path.len() && path.len() - 1 > i + 1 {
            assert(g3[path.last()] == hi[path.last()]);
        }
        lemma_chain_join(g3, q2, path, i, path[0]);
    }
    assert(back_linked(g3, q2 + rest)) by {
        assert(q2[0] == q[0]);
        if n > 1 {
            assert(g3[q[0]] == hi[q[0]]);
        }
        assert forall|k: int| 0 < k < q2.len() implies g3[#[trigger] q2[k]].last == q2[k - 1] by {
            if k < n {
                assert(q2[k] == q[k]);
                assert(q2[k - 1] == q[k - 1]);
                if k < n - 1 {
                    assert(g3[q[k]] == hi[q[k]]);
                }
            }
        }
        assert forall|j: int| i + 1 < j < path.len() implies g3[#[trigger] path[j]].last == path[j - 1] by {
            assert(g3[path[j]] == hi[path[j]]);
        }
        lemma_back_join(g3, q2, path, i);
    }
    assert forall|j: int| i < j < path.len() implies (#[trigger] g3[path[j]]).base == h0[path[j]].base
        && g3[path[j]].end == h0[path[j]].end by {
        if j > i + 1 {
            assert(g3[path[j]] == hi[path[j]]);
        }
    }
    assert forall|k: int| 0 <= k < q2.len() && i + 1 < path.len() implies #[trigger] q2[k] < path[i + 1] by {
        assert(path[i + 1] > b.end);
        if k < n {
            assert(q2[k] == q[k]);
        }
    }
    assert forall|k1: int, k2: int| 0 <= k1 < k2 < q2.len() implies #[trigger] q2[k1] < #[trigger] q2[k2] by {
        assert(q2[k1] == q[k1]);
        if k2 < n {
            assert(q2[k2] == q[k2]);
        }
    }
    let before = path.subrange(0, i);
    assert(path.subrange(0, i + 1) =~= before.push(a));
    assert(forall|x: int| #[trigger] covered(g3, q, x) == covered(hi, q, x)) by {
        assert forall|k: int| 0 <= k < q.len() implies (#[trigger] g3[q[k]]).base == hi[q[k]].base
            && g3[q[k]].end == hi[q[k]].end by {
            if k < n - 1 {
                assert(g3[q[k]] == hi[q[k]]);
            }
        }
        lemma_covered_frame(g3, hi, q);
    }
    lemma_covered_push(h0, before, a);
    lemma_covered_push(g3, q, end);
    assert forall|x: int| #[trigger] covered(g3, q2, x) implies covered(h0, path.subrange(0, i + 1), x) && !(ptr
        <= x < end) by {
        reveal(forget_bytes);
        if covered(g3, q, x) {
            assert(covered(hi, q, x));
        } else {
            assert(in_block(g3, end, x));
            assert(in_block(h0, a, x));
        }
    }
    assert forall|x: int| #[trigger] covered(h0, path.subrange(0, i + 1), x) && !(ptr <= x < end + BLOCK_SIZE)
        implies covered(g3, q2, x) by {
        reveal(forget_bytes);
        if in_block(h0, a, x) {
            assert(in_block(g3, end, x));
        } else {
            assert(covered(h0, before, x));
            assert(covered(hi, q, x));
        }
    }
    lemma_step_intro(h0, path, g3, q2, i, ptr, end);
}

/// The list after splitting a block around the memory: the block ends at the memory and a
/// new header at the memory's end takes the rest.
#[verifier::rlimit(100)]
#[verifier::spinoff_prover]
proof fn lemma_split_links(
    h0: Map<usize, Block>,
    path: Seq<usize>,
    hi: Map<usize, Block>,
    q: Seq<usize>,
    i: int,
    ptr: usize,
    end: usize,
)
    requires
        forget_links(h0, path, hi, q, i),
        ptr < end,
        end + BLOCK_SIZE <= usize::MAX,
        ptr > hi[path[i]].base && hi[path[i]].end > end,
    ensures
        ({
            let b = hi[path[i]];
            let h1 = forget_node(hi, path[i], ptr, end).0;
            let q2 = q.push(path[i]).push(end);
            let rest = path.subrange(i + 1, path.len() as int);
            &&& h1[path[i]] == Block { base: b.base, end: ptr, next: end, last: b.last }
            &&& h1[end] == Block { base: (end + BLOCK_SIZE) as usize, end: b.end, next: b.next, last: path[i] }
            &&& chain(h1, q2 + rest, path[0])
            &&& back_linked(h1, q2 + rest)
            &&& forall|j: int| i < j < path.len() ==> (#[trigger] h1[path[j]]).base == h0[path[j]].base
                && h1[path[j]].end == h0[path[j]].end
            &&& forall|k: int| 0 <= k < q2.len() && i + 1 < path.len() ==> #[trigger] q2[k] < path[i + 1]
            &&& forall|k1: int, k2: int| 0 <= k1 < k2 < q2.len() ==> #[trigger] q2[k1] < #[trigger] q2[k2]
            &&& forall|k: int| 0 <= k < q.len() ==> (#[trigger] h1[q[k]]).base == hi[q[k]].base
                && h1[q[k]].end == hi[q[k]].end
        }),
{
    lemma_state_links(h0, path, hi, q, i);
    let n = q.len() as int;
    let a = path[i];
    let b = hi[a];
    let nx = b.next;
    assert(end > a);
    let nb = Block { base: (end + BLOCK_SIZE) as usize, end: b.end, next: b.next, last: a };
    let g1 = hi.insert(end, nb);
    let g2 = g1.insert(a, with_end(g1[a], ptr));
    assert(g1[a] == b);
    assert(g2[a] == with_end(b, ptr));
    let g3 = if nx != 0 {
        g2.insert(nx, with_last(g2[nx], end))
    } else {
        g2
    };
    assert(g3[a] == with_end(b, ptr));
    let g4 = g3.insert(a, with_next(g3[a], end));
    assert(forget_node(hi, a, ptr, end).0 == g4);
    let q1 = q.push(a);
    let q2 = q1.push(end);
    let rest = path.subrange(i + 1, path.len() as int);
    assert(forall|k: int| 0 <= k < n ==> #[trigger] q2[k] == q[k] && g4[q[k]] == hi[q[k]]) by {
        assert forall|k: int| 0 <= k < n implies #[trigger] q2[k] == q[k] && g4[q[k]] == hi[q[k]] by {
            assert(q1[k] == q[k]);
            assert(q[k] < a);
            if i + 1 < path.len() {
                assert(path[i + 1] > a);
            }
        }
    }
    assert(q2[n] == a);
    assert(q2[n + 1] == end);
    assert(forall|j: int| i + 1 < j < path.len() ==> #[trigger] g4[path[j]] == hi[path[j]]) by {
        assert forall|j: int| i + 1 < j < path.len() implies #[trigger] g4[path[j]] == hi[path[j]] by {
            assert(path[j] > path[i + 1]);
            assert(path[j] > a);
            assert(path[j] > b.end);
        }
    }
    assert(g4[a] == Block { base: b.base, end: ptr, next: end, last: b.last });
    assert(g4[end] == nb);
    assert(i + 1 < path.len() ==> nx == path[i + 1] && nx > b.end && g4[nx] == with_last(hi[nx], end));
    assert(chain(g4, q2 + rest, path[0])) by {
        if n > 0 {
            assert(q2[0] == q[0]);
        }
        assert forall|k: int| 0 <= k < q2.len() implies #[trigger] g4.contains_key(q2[k]) && q2[k] != 0 by {
            if k < n {
                assert(q2[k] == q[k]);
            }
        }
        assert forall|k: int| 0 <= k < q2.len() - 1 implies g4[#[trigger] q2[k]].next == q2[k + 1] by {
            if k < n {
                assert(q2[k] == q[k]);
                if k < n - 1 {
                    assert(q2[k + 1] == q[k + 1]);
                } else {
                    assert(q[k] == q.last());
                }
            }
        }
        assert(q2.last() == end);
        assert forall|j: int| i < j < path.len() implies #[trigger] g4.contains_key(path[j]) && path[j] != 0 by {}
        assert forall|j: int| i < j < path.len() - 1 implies g4[#[trigger] path[j]].next == path[j + 1] by {
            if j > i + 1 {
                assert(g4[path[j]] == hi[path[j]]);
            }
        }
        if i + 1 < path.len() && path.len() - 1 > i + 1 {
            assert(g4[path.last()] == hi[path.last()]);
        }
        lemma_chain_join(g4, q2, path, i, path[0]);
    }
    assert(back_linked(g4, q2 + rest)) by {
        if n > 0 {
            assert(q2[0] == q[0]);
        }
        assert forall|k: int| 0 < k < q2.len() implies g4[#[trigger] q2[k]].last == q2[k - 1] by {
            if k < n {
                assert(q2[k] == q[k]);
                assert(q2[k - 1] == q[k - 1]);
            } else if k == n {
                assert(q2[k - 1] == q.last());
            }
        }
        assert forall|j: int| i + 1 < j < path.len() implies g4[#[trigger] path[j]].last == path[j - 1] by {
            assert(g4[path[j]] == hi[path[j]]);
        }
        lemma_back_join(g4, q2, path, i);
    }
    assert forall|j: int| i < j < path.len() implies (#[trigger] g4[path[j]]).base == h0[path[j]].base
        && g4[path[j]].end == h0[path[j]].end by {
        if j > i + 1 {
            assert(g4[path[j]] == hi[path[j]]);
        }
    }
    assert forall|k: int| 0 <= k < q2.len() && i + 1 < path.len() implies #[trigger] q2[k] < path[i + 1] by {
        assert(path[i + 1] > b.end);
        if k < n {
            assert(q2[k] == q[k]);
        }
    }
    assert forall|k1: int, k2: int| 0 <= k1 < k2 < q2.len() implies #[trigger] q2[k1] < #[trigger] q2[k2] by {
        if k1 < n {
            assert(q2[k1] == q[k1]);
        }
        if k2 < n {
            assert(q2[k2] == q[k2]);
        }
    }
    assert forall|k: int| 0 <= k < q.len() implies (#[trigger] g4[q[k]]).base == hi[q[k]].base
        && g4[q[k]].end == hi[q[k]].end by {
        assert(q2[k] == q[k]);
    }
}

/// Forgetting memory that lies inside a block splits the block around it, and ends the walk.
#[verifier::rlimit(50)]
#[verifier::spinoff_prover]
proof fn lemma_forget_split(
    h0: Map<usize, Block>,
    path: Seq<usize>,
    hi: Map<usize, Block>,
    q: Seq<usize>,
    i: int,
    ptr: usize,
    end: usize,
)
    requires
        forget_links(h0, path, hi, q, i),
        forget_bytes(h0, path, hi, q, i, ptr, end),
        ptr < end,
        end + BLOCK_SIZE <= usize::MAX,
        ptr > hi[path[i]].base && hi[path[i]].end > end,
    ensures
        step_ok(h0, path, forget_node(hi, path[i], ptr, end).0, q.push(path[i]).push(end), i, ptr, end),
        h0[path[i]].end > end,
{
    lemma_split_links(h0, path, hi, q, i, ptr, end);
    lemma_links_open(h0, path, hi, q, i);
    let a = path[i];
    let b = hi[a];
    let h1 = forget_node(hi, a, ptr, end).0;
    let q1 = q.push(a);
    let q2 = q1.push(end);
    assert(hi[a].base == h0[a].base && hi[a].end == h0[a].end);
    let before = path.subrange(0, i);
    assert(path.subrange(0, i + 1) =~= before.push(a));
    lemma_covered_frame(h1, hi, q);
    lemma_covered_push(h0, before, a);
    lemma_covered_push(h1, q, a);
    lemma_covered_push(h1, q1, end);
    assert forall|x: int| #[trigger] covered(h1, q2, x) implies covered(h0, path.subrange(0, i + 1), x) && !(ptr
        <= x < end) by {
        reveal(forget_bytes);
        if covered(h1, q, x) {
            assert(covered(hi, q, x));
        } else if in_block(h1, a, x) {
            assert(in_block(h0, a, x));
        } else {
            assert(in_block(h1, end, x));
            assert(in_block(h0, a, x));
        }
    }
    assert forall|x: int| #[trigger] covered(h0, path.subrange(0, i + 1), x) && !(ptr <= x < end + BLOCK_SIZE)
        implies covered(h1, q2, x) by {
        reveal(forget_bytes);
        if in_block(h0, a, x) {
            if x < ptr {
                assert(in_block(h1, a, x));
                assert(covered(h1, q1, x));
            } else {
                assert(in_block(h1, end, x));
            }
        } else {
            assert(covered(h0, before, x));
            assert(covered(hi, q, x));
            assert(covered(h1, q1, x));
        }
    }
    lemma_step_intro(h0, path, h1, q2, i, ptr, end);
}

/// The list after passing a block that the memory misses.
#[verifier::rlimit(100)]
#[verifier::spinoff_prover]
proof fn lemma_pass_links(
    h0: Map<usize, Block>,
    path: Seq<usize>,
    hi: Map<usize, Block>,
    q: Seq<usize>,
    i: int,
)
    requires
        forget_links(h0, path, hi, q, i),
    ensures
        ({
            let q2 = q.push(path[i]);
            let rest = path.subrange(i + 1, path.len() as int);
            &&& chain(hi, q2 + rest, path[0])
            &&& back_linked(hi, q2 + rest)
            &&& forall|k: int| 0 <= k < q2.len() && i + 1 < path.len() ==> #[trigger] q2[k] < path[i + 1]
            &&& forall|k1: int, k2: int| 0 <= k1 < k2 < q2.len() ==> #[trigger] q2[k1] < #[trigger] q2[k2]
        }),
{
    lemma_state_links(h0, path, hi, q, i);
    let n = q.len() as int;
    let a = path[i];
    let b = hi[a];
    let q2 = q.push(a);
    let rest = path.subrange(i + 1, path.len() as int);
    assert(forall|k: int| 0 <= k < n ==> #[trigger] q2[k] == q[k]);
    assert(q2[n] == a);
    assert(chain(hi, q2 + rest, path[0])) by {
        if n > 0 {
            assert(q2[0] == q[0]);
        }
        assert forall|k: int| 0 <= k < q2.len() implies #[trigger] hi.contains_key(q2[k]) && q2[k] != 0 by {
            if k < n {
                assert(q2[k] == q[k]);
            }
        }
        assert forall|k: int| 0 <= k < q2.len() - 1 implies hi[#[trigger] q2[k]].next == q2[k + 1] by {
            assert(q2[k] == q[k]);
            if k < n - 1 {
                assert(q2[k + 1] == q[k + 1]);
            } else {
                assert(q[k] == q.last());
            }
        }
        assert(q2.last() == a);
        lemma_chain_join(hi, q2, path, i, path[0]);
    }
    assert(back_linked(hi, q2 + rest)) by {
        if n > 0 {
            assert(q2[0] == q[0]);
        }
        assert forall|k: int| 0 < k < q2.len() implies hi[#[trigger] q2[k]].last == q2[k - 1] by {
            if k < n {
                assert(q2[k] == q[k]);
                assert(q2[k - 1] == q[k - 1]);
            } else {
                assert(q2[k - 1] == q.last());
            }
        }
        lemma_back_join(hi, q2, path, i);
    }
    assert forall|k: int| 0 <= k < q2.len() && i + 1 < path.len() implies #[trigger] q2[k] < path[i + 1] by {
        assert(path[i + 1] > a);
        if k < n {
            assert(q2[k] == q[k]);
        }
    }
    assert forall|k1: int, k2: int| 0 <= k1 < k2 < q2.len() implies #[trigger] q2[k1] < #[trigger] q2[k2] by {
        assert(q2[k1] == q[k1]);
        if k2 < n {
            assert(q2[k2] == q[k2]);
        }
    }
}

/// Forgetting memory that misses a block keeps the block as it is.
#[verifier::rlimit(50)]
#[verifier::spinoff_prover]
proof fn lemma_forget_none(
    h0: Map<usize, Block>,
    path: Seq<usize>,
    hi: Map<usize, Block>,
    q: Seq<usize>,
    i: int,
    ptr: usize,
    end: usize,
)
    requires
        forget_links(h0, path, hi, q, i),
        forget_bytes(h0, path, hi, q, i, ptr, end),
        ptr < end,
        !(hi[path[i]].base >= ptr && end >= hi[path[i]].end),
        !(ptr > hi[path[i]].base && ptr < hi[path[i]].end && end >= hi[path[i]].end),
        !(hi[path[i]].base >= ptr && end >= hi[path[i]].base && hi[path[i]].end > end),
        !(ptr > hi[path[i]].base && hi[path[i]].end > end),
    ensures
        step_ok(h0, path, forget_node(hi, path[i], ptr, end).0, q.push(path[i]), i, ptr, end),
{
    lemma_pass_links(h0, path, hi, q, i);
    lemma_links_open(h0, path, hi, q, i);
    let a = path[i];
    assert(forget_node(hi, a, ptr, end).0 == hi);
    let q2 = q.push(a);
    let before = path.subrange(0, i);
    assert(path.subrange(0, i + 1) =~= before.push(a));
    lemma_covered_push(h0, before, a);
    lemma_covered_push(hi, q, a);
    assert(hi[a].base == h0[a].base && hi[a].end == h0[a].end);
    assert forall|x: int| #[trigger] covered(hi, q2, x) implies covered(h0, path.subrange(0, i + 1), x) && !(ptr
        <= x < end) by {
        reveal(forget_bytes);
        if covered(hi, q, x) {
        } else {
            assert(in_block(hi, a, x));
            assert(in_block(h0, a, x));
        }
    }
    assert forall|x: int| #[trigger] covered(h0, path.subrange(0, i + 1), x) && !(ptr <= x < end + BLOCK_SIZE)
        implies covered(hi, q2, x) by {
        reveal(forget_bytes);
        if in_block(h0, a, x) {
            assert(in_block(hi, a, x));
        } else {
            assert(covered(h0, before, x));
        }
    }
    lemma_step_intro(h0, path, hi, q2, i, ptr, end);
}

/// One step of forgetting, whichever way the memory meets the block at position `i`.
proof fn lemma_forget_step(
    h0: Map<usize, Block>,
    path: Seq<usize>,
    hi: Map<usize, Block>,
    q: Seq<usize>,
    i: int,
    ptr: usize,
    end: usize,
) -> (q2: Seq<usize>)
    requires
        forget_links(h0, path, hi, q, i),
        forget_bytes(h0, path, hi, q, i, ptr, end),
        ptr < end,
        end + BLOCK_SIZE <= usize::MAX,
        i == 0 ==> !(ptr <= h0[path[0]].base <= end),
    ensures
        step_ok(h0, path, forget_node(hi, path[i], ptr, end).0, q2, i, ptr, end),
        forget_node(hi, path[i], ptr, end).2 ==> h0[path[i]].end > end,
{
    lemma_links_open(h0, path, hi, q, i);
    let a = path[i];
    let b = hi[a];
    assert(b.base == h0[a].base && b.end == h0[a].end);
    assert(b.base <= b.end);
    if b.base >= ptr && end >= b.end {
        lemma_forget_whole(h0, path, hi, q, i, ptr, end);
        q
    } else if ptr > b.base && ptr < b.end && end >= b.end {
        lemma_forget_tail(h0, path, hi, q, i, ptr, end);
        q.push(a)
    } else if b.base >= ptr && end >= b.base && b.end > end {
        lemma_forget_front(h0, path, hi, q, i, ptr, end);
        q.push(end)
    } else if ptr > b.base && b.end > end {
        lemma_forget_split(h0, path, hi, q, i, ptr, end);
        q.push(a).push(end)
    } else {
        lemma_forget_none(h0, path, hi, q, i, ptr, end);
        q.push(a)
    }
}

/// When forgetting ends at position `i`, the list is the blocks kept and the untouched rest.
#[verifier::rlimit(50)]
#[verifier::spinoff_prover]
proof fn lemma_forget_finish(
    h0: Map<usize, Block>,
    path: Seq<usize>,
    h1: Map<usize, Block>,
    q2: Seq<usize>,
    i: int,
    ptr: usize,
    end: usize,
)
    requires
        step_ok(h0, path, h1, q2, i, ptr, end),
        0 <= i < path.len(),
        forall|j: int| i < j < path.len() ==> #[trigger] path[j] > h0[path[i]].end,
        forall|j: int| i < j < path.len() ==> #[trigger] path[j] + BLOCK_SIZE <= h0[path[j]].base,
        i + 1 < path.len() ==> h0[path[i]].end > end,
    ensures
        forall|x: int| #[trigger] usable_byte(h1, path[0], x) ==> covered(h0, path, x) && !(ptr <= x < end),
        forall|x: int| #[trigger] covered(h0, path, x) && !(ptr <= x < end + BLOCK_SIZE) ==> usable_byte(h1, path[0], x),
{
    reveal(step_ok);
    let rest = path.subrange(i + 1, path.len() as int);
    let front = path.subrange(0, i + 1);
    assert(path =~= front + rest);
    lemma_covered_concat(h0, front, rest);
    let p2 = q2 + rest;
    assert(linked(h1, path[0]));
    lemma_chain_unique(h1, path_of(h1, path[0]), p2, path[0]);
    lemma_covered_concat(h1, q2, rest);
    assert forall|j: int| 0 <= j < rest.len() implies (#[trigger] h1[rest[j]]).base == h0[rest[j]].base
        && h1[rest[j]].end == h0[rest[j]].end by {
        assert(rest[j] == path[i + 1 + j]);
    }
    lemma_covered_frame(h1, h0, rest);
    assert forall|x: int| #[trigger] covered(h0, rest, x) implies x > end by {
        let j = choose|j: int| 0 <= j < rest.len() && #[trigger] in_block(h0, rest[j], x);
        assert(rest[j] == path[i + 1 + j]);
        assert(path[i + 1 + j] > h0[path[i]].end);
        assert(path[i + 1 + j] + BLOCK_SIZE <= h0[path[i + 1 + j]].base);
    }
    assert forall|x: int| #[trigger] usable_byte(h1, path[0], x) implies covered(h0, path, x) && !(ptr <= x
        < end) by {
        assert(usable_byte(h1, path[0], x) == covered(h1, p2, x));
        if !covered(h1, q2, x) {
            assert(covered(h0, rest, x));
        }
    }
    assert forall|x: int| #[trigger] covered(h0, path, x) && !(ptr <= x < end + BLOCK_SIZE) implies usable_byte(
        h1,
        path[0],
        x,
    ) by {
        assert(usable_byte(h1, path[0], x) == covered(h1, p2, x));
        if covered(h0, front, x) {
            assert(covered(h1, q2, x));
        } else {
            assert(covered(h1, rest, x));
        }
    }
}

/// When forgetting goes on past position `i`, the state holds at the next position.
proof fn lemma_forget_continue(
    h0: Map<usize, Block>,
    path: Seq<usize>,
    h1: Map<usize, Block>,
    q2: Seq<usize>,
    i: int,
    ptr: usize,
    end: usize,
)
    requires
        step_ok(h0, path, h1, q2, i, ptr, end),
        0 <= i,
        i + 1 < path.len(),
        suffix_ok(h1, path, i + 1),
        backed(h1),
        forall|j: int| i < j < path.len() ==> #[trigger] path[j] + BLOCK_SIZE <= h0[path[j]].base,
    ensures
        forget_links(h0, path, h1, q2, i + 1),
        forget_bytes(h0, path, h1, q2, i + 1, ptr, end),
{
    reveal(step_ok);
    reveal(forget_links);
    reveal(forget_bytes);
}

/// Forgetting from position `i` on leaves no usable byte of the memory and nothing usable
/// that was not, and keeps every usable byte away from the memory and the header room after
/// it.
proof fn lemma_forget_walk_bytes(
    h0: Map<usize, Block>,
    path: Seq<usize>,
    hi: Map<usize, Block>,
    q: Seq<usize>,
    i: int,
    ptr: usize,
    end: usize,
    size: usize,
    acc: int,
)
    requires
        forget_links(h0, path, hi, q, i),
        forget_bytes(h0, path, hi, q, i, ptr, end),
        ptr < end,
        end + BLOCK_SIZE <= usize::MAX,
        i == 0 ==> !(ptr <= h0[path[0]].base <= end),
    ensures
        ({
            let hf = forget_walk(hi, path, i, ptr, end, size, acc).1;
            &&& forall|x: int| #[trigger] usable_byte(hf, path[0], x) ==> covered(h0, path, x) && !(ptr <= x < end)
            &&& forall|x: int| #[trigger] covered(h0, path, x) && !(ptr <= x < end + BLOCK_SIZE) ==> usable_byte(
                hf,
                path[0],
                x,
            )
        }),
    decreases path.len() - i,
{
    lemma_links_open(h0, path, hi, q, i);
    let a = path[i];
    let (h1, piece, done) = forget_node(hi, a, ptr, end);
    let q2 = lemma_forget_step(h0, path, hi, q, i, ptr, end);
    lemma_forget_node(hi, path, i, ptr, end);
    assert(forall|j: int| i < j < path.len() ==> #[trigger] path[j] + BLOCK_SIZE <= h0[path[j]].base);
    if done || i + 1 >= path.len() {
        assert(forget_walk(hi, path, i, ptr, end, size, acc).1 == h1);
        assert forall|j: int| i < j < path.len() implies #[trigger] path[j] > h0[path[i]].end by {
            assert(hi[path[i]].end < path[j]);
        }
        lemma_forget_finish(h0, path, h1, q2, i, ptr, end);
    } else {
        lemma_forget_continue(h0, path, h1, q2, i, ptr, end);
        assert(forget_walk(hi, path, i, ptr, end, size, acc) == forget_walk(
            h1,
            path,
            i + 1,
            ptr,
            end,
            size,
            acc + piece,
        ));
        lemma_forget_walk_bytes(h0, path, h1, q2, i + 1, ptr, end, size, acc + piece);
    }
}

/// The state forgetting starts from: no block kept yet, the whole list ahead.
#[verifier::rlimit(50)]
#[verifier::spinoff_prover]
proof fn lemma_forget_start(h: Map<usize, Block>, free: usize, ptr: usize, end: usize)
    requires
        heap_ok(h, free),
        back_linked(h, path_of(h, free)),
        free != 0,
    ensures
        path_of(h, free).len() > 0,
        path_of(h, free)[0] == free,
        forget_links(h, path_of(h, free), h, Seq::empty(), 0),
        forget_bytes(h, path_of(h, free), h, Seq::empty(), 0, ptr, end),
{
    lemma_heap_ok_facts(h, free);
    let path = path_of(h, free);
    lemma_laid_out_sorted(h, path);
    let q = Seq::<usize>::empty();
    assert(q + path.subrange(0, path.len() as int) =~= path);
    assert(forget_links(h, path, h, q, 0)) by {
        reveal(forget_links);
        assert(suffix_ok(h, path, 0));
    }
    assert(forget_bytes(h, path, h, q, 0, ptr, end)) by {
        reveal(forget_bytes);
        assert(path.subrange(0, 0) =~= q);
    }
}

/// Forgetting takes the memory out of the heap's usable bytes and makes nothing usable that
/// was not; of the usable bytes away from the memory, only those in the header room right
/// after it can go, where a header moves to the memory's end. It holds while the first block
/// keeps its header, that is, unless the memory reaches from at or before the first block's
/// base to that base, as the list keeps starting at the first header.
pub proof fn lemma_forget_takes(h: Map<usize, Block>, free: usize, ptr: usize, size: usize)
    requires
        heap_ok(h, free),
        back_linked(h, path_of(h, free)),
        ptr + size + BLOCK_SIZE <= usize::MAX,
        free != 0 ==> !(ptr <= h[free].base <= ptr + size),
    ensures
        ({
            let h1 = forget_outcome(h, free, ptr, size).1;
            &&& forall|x: int| #[trigger] usable_byte(h1, free, x) ==> usable_byte(h, free, x) && !(ptr <= x < ptr
                + size)
            &&& forall|x: int| #[trigger] usable_byte(h, free, x) && !(ptr <= x < ptr + size + BLOCK_SIZE)
                ==> usable_byte(h1, free, x)
        }),
{
    if free == 0 || size == 0 {
        assert(forget_outcome(h, free, ptr, size).1 == h);
        if free == 0 {
            lemma_heap_chain(h, free);
            assert(path_of(h, free).len() == 0);
        }
    } else {
        let end = (ptr + size) as usize;
        lemma_forget_start(h, free, ptr, end);
        lemma_forget_walk_bytes(h, path_of(h, free), h, Seq::empty(), 0, ptr, end, size, 0);
    }
}

/// The general heap's free list.
pub struct Manager {
    free: usize,
    headers: HashMap<usize, Block>,
}

impl Manager {
    /// The block headers, by address.
    pub closed spec fn headers_view(&self) -> Map<usize, Block> {
        self.headers@
    }

    /// The address of the first header on the free list, zero when the list is empty.
    pub closed spec fn free_view(&self) -> usize {
        self.free
    }

    /// The headers on the free list, in order.
    pub open spec fn path(&self) -> Seq<usize> {
        path_of(self.headers_view(), self.free_view())
    }

    /// A heap with no free memory.
    pub fn new() -> (r: Manager)
        ensures
            r.free_view() == 0,
            r.headers_view() == Map::<usize, Block>::empty(),
            heap_ok(r.headers_view(), r.free_view()),
            back_linked(r.headers_view(), r.path()),
    {
        let r = Manager { free: 0, headers: HashMap::new() };
        proof {
            assert(chain(r.headers@, Seq::empty(), 0));
            lemma_heap_ok_witness(r.headers@, 0, Seq::empty());
        }
        r
    }

    /// Give the `size` bytes at `ptr` to the heap.
    pub fn register(&mut self, ptr: usize, size: usize) -> (r: Result<usize, MemoryError>)
        requires
            ptr != 0,
            ptr + BLOCK_SIZE <= usize::MAX,
            ptr + size <= usize::MAX,
            linked(old(self).headers_view(), old(self).free_view()),
        ensures
            (r, final(self).headers_view(), final(self).free_view()) == register_outcome(
                old(self).headers_view(),
                old(self).free_view(),
                ptr,
                size,
            ),
    {
        let ghost h = self.headers_view();
        let ghost path = path_of(h, self.free);
        if self.free == 0 {
            if size < BLOCK_SIZE {
                return Err(MemoryError::TinyBlock);
            }
            self.free = ptr;
            self.write(ptr, Block { base: ptr + BLOCK_SIZE, end: ptr + size, next: 0, last: 0 });
            return Ok(size);
        }
        let base = ptr + BLOCK_SIZE;
        let end = ptr + size;
        proof {
            assert(chain(h, path, self.free));
            assert(h.contains_key(path[0]));
        }
        let first = self.free;
        let head = self.read(first);
        if end < first {
            if size < BLOCK_SIZE {
                return Err(MemoryError::TinyBlock);
            }
            self.free = ptr;
            self.write(ptr, Block { base: base, end: end, next: first, last: 0 });
            return Ok(size);
        } else if end == first {
            self.write(ptr, Block { base: base, end: head.end, next: head.next, last: 0 });
            if head.next != 0 {
                proof {
                    if path.len() == 1 {
                        assert(h[path.last()].next == 0);
                    }
                    assert(h[path[0]].next == path[1]);
                    assert(h.contains_key(path[1]));
                }
                let n = self.read(head.next);
                self.write(head.next, Block { base: n.base, end: n.end, next: n.next, last: ptr });
            }
            self.free = ptr;
            return Ok(size);
        }
        let mut cur = first;
        let ghost mut k: int = 0;
        loop
            invariant
                self.headers_view() == h,
                self.free_view() == first,
                first == old(self).free_view(),
                h == old(self).headers_view(),
                path == path_of(h, first),
                chain(h, path, first),
                first != 0,
                end > first,
                base == ptr + BLOCK_SIZE,
                end == ptr + size,
                0 <= k < path.len(),
                cur == path[k],
                reg_stop(h, path, 0, ptr, end) == reg_stop(h, path, k, ptr, end),
            decreases path.len() - k,
        {
            let b = self.read(cur);
            if b.next == 0 {
                proof {
                    if k < path.len() - 1 {
                        assert(h[path[k]].next == path[k + 1]);
                    }
                    assert(reg_stop(h, path, k, ptr, end) == k);
                }
                if ptr > b.end {
                    if size < BLOCK_SIZE {
                        return Err(MemoryError::TinyBlock);
                    }
                    self.write(cur, Block { base: b.base, end: b.end, next: ptr, last: b.last });
                    self.write(ptr, Block { base: base, end: end, next: 0, last: cur });
                    return Ok(size);
                } else if ptr == b.end {
                    self.write(cur, Block { base: b.base, end: end, next: b.next, last: b.last });
                    return Ok(size);
                } else {
                    return Err(MemoryError::NoPlace);
                }
            }
            proof {
                if k == path.len() - 1 {
                    assert(h[path.last()].next == 0);
                }
                assert(h[path[k]].next == path[k + 1]);
                assert(h.contains_key(path[k + 1]));
            }
            let next = b.next;
            let n = self.read(next);
            if ptr > b.end && end < next {
                proof {
                    assert(reg_stop(h, path, k, ptr, end) == k);
                }
                self.write(cur, Block { base: b.base, end: b.end, next: ptr, last: b.last });
                let n1 = self.read(next);
                self.write(next, Block { base: n1.base, end: n1.end, next: n1.next, last: ptr });
                if size < BLOCK_SIZE {
                    return Err(MemoryError::TinyBlock);
                }
                self.write(ptr, Block { base: base, end: end, next: next, last: cur });
                return Ok(size);
            } else if ptr == b.end && end == next {
                proof {
                    assert(reg_stop(h, path, k, ptr, end) == k);
                }
                self.write(cur, Block { base: b.base, end: n.end, next: n.next, last: b.last });
                return Ok(size);
            } else if ptr == b.end && end < next {
                proof {
                    assert(reg_stop(h, path, k, ptr, end) == k);
                }
                self.write(cur, Block { base: b.base, end: end, next: b.next, last: b.last });
                return Ok(size);
            } else if ptr > b.end && end == next {
                proof {
                    assert(reg_stop(h, path, k, ptr, end) == k);
                }
                self.write(cur, Block { base: b.base, end: b.end, next: ptr, last: b.last });
                self.write(ptr, Block { base: base, end: n.end, next: n.next, last: cur });
                return Ok(size);
            }
            cur = next;
            proof {
                k = k + 1;
            }
        }
    }

    /// Take `size` bytes aligned to `align` (a power of two) from the first free block they fit
    /// in, and hand out their address.
    pub fn allocate(&mut self, size: usize, align: usize) -> (r: Result<usize, MemoryError>)
        requires
            align >= 1,
            linked(old(self).headers_view(), old(self).free_view()),
            backed(old(self).headers_view()),
            forall|i: int| 0 <= i < old(self).path().len() ==> #[trigger] old(self).path()[i] + align
                + super::simple_granularity(size) + BLOCK_SIZE <= usize::MAX,
        ensures
            (r, final(self).headers_view(), final(self).free_view()) == allocate_outcome(
                old(self).headers_view(),
                old(self).free_view(),
                size,
                align,
            ),
    {
        let ghost h = self.headers_view();
        let ghost path = path_of(h, self.free);
        let gsize = granularity(size, align);
        let first = self.free;
        let mut cur = first;
        let ghost mut k: int = 0;
        proof {
            assert(chain(h, path, first));
            assert(path == old(self).path());
        }
        loop
            invariant
                self.headers_view() == h,
                self.free_view() == first,
                first == old(self).free_view(),
                h == old(self).headers_view(),
                path == path_of(h, first),
                chain(h, path, first),
                backed(h),
                align >= 1,
                gsize == super::simple_granularity(size),
                forall|i: int| 0 <= i < path.len() ==> #[trigger] path[i] + align + gsize + BLOCK_SIZE <= usize::MAX,
                0 <= k <= path.len(),
                k < path.len() ==> cur == path[k],
                k == path.len() ==> cur == 0,
                alloc_stop(h, path, 0, align, gsize) == alloc_stop(h, path, k, align, gsize),
            decreases path.len() - k,
        {
            if cur == 0 {
                proof {
                    if k < path.len() {
                        assert(h.contains_key(path[k]));
                        assert(path[k] != 0);
                    }
                }
                return Err(MemoryError::OutOfMemory);
            }
            proof {
                assert(h.contains_key(path[k]));
                assert(path[k] + align + gsize + BLOCK_SIZE <= usize::MAX);
            }
            let b = self.read(cur);
            let aligned = kernel_constants::align(cur, align);
            let end = aligned + gsize;
            if aligned < b.end && b.end - aligned >= gsize {
                proof {
                    assert(alloc_stop(h, path, k, align, gsize) == k);
                }
                if aligned <= b.base {
                    if end + BLOCK_SIZE <= b.end {
                        let moved = Block { base: end + BLOCK_SIZE, end: b.end, next: b.next, last: b.last };
                        if b.next != 0 {
                            proof {
                                if k == path.len() - 1 {
                                    assert(h[path.last()].next == 0);
                                }
                                assert(h[path[k]].next == path[k + 1]);
                                assert(h.contains_key(path[k + 1]));
                            }
                            let n = self.read(b.next);
                            self.write(b.next, Block { base: n.base, end: n.end, next: n.next, last: end });
                        }
                        if b.last != 0 {
                            proof {
                                assert(h.contains_key(path[k]));
                            }
                            let l = self.read(b.last);
                            self.write(b.last, Block { base: l.base, end: l.end, next: end, last: l.last });
                        } else {
                            self.free = end;
                        }
                        self.write(end, moved);
                    } else {
                        if b.next != 0 {
                            proof {
                                if k == path.len() - 1 {
                                    assert(h[path.last()].next == 0);
                                }
                                assert(h[path[k]].next == path[k + 1]);
                                assert(h.contains_key(path[k + 1]));
                            }
                            let n = self.read(b.next);
                            self.write(b.next, Block { base: n.base, end: n.end, next: n.next, last: b.last });
                        }
                        if b.last != 0 {
                            proof {
                                assert(h.contains_key(path[k]));
                            }
                            let l = self.read(b.last);
                            self.write(b.last, Block { base: l.base, end: l.end, next: b.next, last: l.last });
                        } else {
                            self.free = b.next;
                        }
                    }
                } else {
                    self.write(end, Block { base: end + BLOCK_SIZE, end: b.end, next: b.next, last: cur });
                    if b.next != 0 {
                        proof {
                            if k == path.len() - 1 {
                                assert(h[path.last()].next == 0);
                            }
                            assert(h[path[k]].next == path[k + 1]);
                            assert(h.contains_key(path[k + 1]));
                        }
                        let n = self.read(b.next);
                        self.write(b.next, Block { base: n.base, end: n.end, next: n.next, last: end });
                    }
                    let c = self.read(cur);
                    self.write(cur, Block { base: c.base, end: aligned, next: end, last: c.last });
                }
                return Ok(aligned);
            }
            proof {
                if k < path.len() - 1 {
                    assert(h[path[k]].next == path[k + 1]);
                } else {
                    assert(h[path.last()].next == 0);
                }
            }
            cur = b.next;
            proof {
                k = k + 1;
            }
        }
    }

    /// Take the `size` bytes at `ptr` out of the heap, wherever they are free: blocks inside go,
    /// blocks that overlap lose the overlap. The bytes taken off are returned when the memory
    /// touched the ends of blocks; the size itself when it lay inside one block.
    pub fn forget(&mut self, ptr: usize, size: usize) -> (r: Result<usize, MemoryError>)
        requires
            linked(old(self).headers_view(), old(self).free_view()),
            backed(old(self).headers_view()),
            laid_out(old(self).headers_view(), old(self).path()),
            ptr + size + BLOCK_SIZE <= usize::MAX,
        ensures
            (r, final(self).headers_view()) == forget_outcome(
                old(self).headers_view(),
                old(self).free_view(),
                ptr,
                size,
            ),
            final(self).free_view() == old(self).free_view(),
    {
        if self.free == 0 {
            return Err(MemoryError::OutOfMemory);
        }
        if size == 0 {
            return Err(MemoryError::TinyBlock);
        }
        let end = ptr + size;
        let ghost h0 = self.headers_view();
        let ghost path = path_of(h0, self.free);
        let ghost first = self.free;
        proof {
            assert(chain(h0, path, first));
            lemma_laid_out_sorted(h0, path);
            assert(suffix_ok(h0, path, 0));
        }
        let mut cur = self.free;
        let mut forgotten: usize = 0;
        let ghost mut k: int = 0;
        loop
            invariant
                h0 == old(self).headers_view(),
                first == old(self).free_view(),
                self.free_view() == first,
                path == path_of(h0, first),
                end == ptr + size,
                end + BLOCK_SIZE <= usize::MAX,
                size > 0,
                first != 0,
                suffix_ok(self.headers_view(), path, k),
                backed(self.headers_view()),
                cur == path[k],
                forgotten <= path[k],
                forget_walk(h0, path, 0, ptr, end, size, 0) == forget_walk(
                    self.headers_view(),
                    path,
                    k,
                    ptr,
                    end,
                    size,
                    forgotten as int,
                ),
            decreases path.len() - k,
        {
            let ghost hc = self.headers_view();
            proof {
                lemma_forget_node(hc, path, k, ptr, end);
                assert(hc.contains_key(path[k]));
                if k + 1 < path.len() {
                    assert(hc[path[k]].next == path[k + 1]);
                    assert(hc.contains_key(path[k + 1]));
                }
                assert(path[k] <= hc[path[k]].base <= hc[path[k]].end);
            }
            let (piece, done) = self.forget_at(cur, ptr, end);
            if done {
                return Ok(size);
            }
            forgotten = forgotten + piece;
            let b = self.read(cur);
            if b.next == 0 {
                proof {
                    if k + 1 < path.len() {
                        assert(hc[path[k]].next == path[k + 1]);
                        assert(hc.contains_key(path[k + 1]));
                        assert(path[k + 1] != 0);
                    }
                }
                if forgotten > 0 {
                    return Ok(forgotten);
                } else {
                    return Err(MemoryError::NoPlace);
                }
            }
            proof {
                if k + 1 >= path.len() {
                    assert(hc[path.last()].next == 0);
                }
                assert(hc[path[k]].next == path[k + 1]);
                assert(hc[path[k]].end < path[k + 1]);
            }
            cur = b.next;
            proof {
                k = k + 1;
            }
        }
    }

    /// Give the `size` bytes at `ptr`, allocated with alignment `align`, back to the heap.
    pub fn release(&mut self, ptr: usize, size: usize, align: usize) -> (r: Result<usize, MemoryError>)
        requires
            ptr != 0,
            ptr + BLOCK_SIZE <= usize::MAX,
            ptr + super::simple_granularity(size) <= usize::MAX,
            linked(old(self).headers_view(), old(self).free_view()),
        ensures
            ({
                let (reg, h, f) = register_outcome(
                    old(self).headers_view(),
                    old(self).free_view(),
                    ptr,
                    super::simple_granularity(size),
                );
                &&& final(self).headers_view() == h
                &&& final(self).free_view() == f
                &&& r == reg
            }),
    {
        let size = granularity(size, align);
        let registered = self.register(ptr, size)?;
        if registered == size {
            Ok(size)
        } else {
            Err(MemoryError::Overlap)
        }
    }

    /// Grow the allocation of `old_size` bytes at `ptr` in place to `size` bytes, taking the
    /// free block that starts right where the allocation ends.
    pub fn grow(&mut self, ptr: usize, old_size: usize, size: usize, align: usize) -> (r: Result<(), MemoryError>)
        requires
            linked(old(self).headers_view(), old(self).free_view()),
            backed(old(self).headers_view()),
            ptr + old_size <= usize::MAX,
            ptr + super::simple_granularity(size) + BLOCK_SIZE <= usize::MAX,
        ensures
            (r, final(self).headers_view(), final(self).free_view()) == grow_outcome(
                old(self).headers_view(),
                old(self).free_view(),
                ptr,
                old_size,
                size,
            ),
    {
        let gsize = granularity(size, align);
        if gsize <= old_size {
            return Ok(());
        }
        let end = ptr + old_size;
        let new_end = ptr + gsize;
        let ghost h = self.headers_view();
        let ghost path = path_of(h, self.free);
        let first = self.free;
        let mut cur = first;
        let ghost mut k: int = 0;
        proof {
            assert(chain(h, path, first));
        }
        loop
            invariant
                self.headers_view() == h,
                self.free_view() == first,
                first == old(self).free_view(),
                h == old(self).headers_view(),
                path == path_of(h, first),
                chain(h, path, first),
                backed(h),
                end == ptr + old_size,
                new_end == ptr + gsize,
                gsize == super::simple_granularity(size),
                gsize > old_size,
                new_end + BLOCK_SIZE <= usize::MAX,
                0 <= k <= path.len(),
                k < path.len() ==> cur == path[k],
                k == path.len() ==> cur == 0,
                grow_stop(h, path, 0, end, new_end) == grow_stop(h, path, k, end, new_end),
            decreases path.len() - k,
        {
            if cur == 0 {
                proof {
                    if k < path.len() {
                        assert(h.contains_key(path[k]));
                    }
                }
                return Err(MemoryError::OutOfSpace);
            }
            proof {
                assert(h.contains_key(path[k]));
            }
            let b = self.read(cur);
            if cur == end && b.end >= new_end {
                proof {
                    assert(grow_stop(h, path, k, end, new_end) == k);
                    assert(b.last == 0 || h.contains_key(b.last));
                }
                if b.end > new_end {
                    let moved = Block { base: new_end + BLOCK_SIZE, end: b.end, next: b.next, last: b.last };
                    if b.last != 0 {
                        let l = self.read(b.last);
                        self.write(b.last, Block { base: l.base, end: l.end, next: new_end, last: l.last });
                    } else {
                        self.free = new_end;
                    }
                    self.write(new_end, moved);
                    return Ok(());
                } else {
                    if b.last != 0 {
                        let l = self.read(b.last);
                        self.write(b.last, Block { base: l.base, end: l.end, next: b.next, last: l.last });
                    }
                    let b1 = self.read(cur);
                    if b1.next != 0 {
                        proof {
                            if k + 1 < path.len() {
                                assert(h[path[k]].next == path[k + 1]);
                                assert(h.contains_key(path[k + 1]));
                            } else {
                                assert(h[path.last()].next == 0);
                            }
                        }
                        let n = self.read(b1.next);
                        self.write(b1.next, Block { base: n.base, end: n.end, next: n.next, last: b1.last });
                    }
                    return Ok(());
                }
            }
            proof {
                if k + 1 < path.len() {
                    assert(h[path[k]].next == path[k + 1]);
                } else {
                    assert(h[path.last()].next == 0);
                }
            }
            cur = b.next;
            proof {
                k = k + 1;
            }
        }
    }

    /// Shrink an allocation in place. Only a call that does not really shrink it (the new size
    /// takes at least the bytes the old one took) returns; it changes nothing.
    pub fn shrink(&mut self, ptr: usize, old_size: usize, size: usize, align: usize) -> (r: Result<(), MemoryError>)
        requires
            super::simple_granularity(size) >= super::simple_granularity(old_size),
        ensures
            r == Ok::<(), MemoryError>(()),
            final(self).headers_view() == old(self).headers_view(),
            final(self).free_view() == old(self).free_view(),
    {
        let size = granularity(size, align);
        let old_size = granularity(old_size, align);
        assert(size >= old_size);
        Ok(())
    }

    /// Resize the allocation of `old_size` bytes at `ptr` to `size` bytes aligned to `align` (a
    /// power of two): in place when `ptr` is aligned and the allocation keeps its size or can
    /// grow into the free block right after it, else by giving the memory back and allocating
    /// anew. When no new place is found the memory is taken back and the call fails. When the
    /// allocation moves, its bytes go over with `memory::copy_kept`.
    #[verifier::rlimit(100)]
    #[verifier::spinoff_prover]
    pub fn resize(&mut self, ptr: usize, old_size: usize, size: usize, align: usize) -> (r: Result<usize, MemoryError>)
        requires
            align >= 1,
            heap_ok(old(self).headers_view(), old(self).free_view()),
            ptr != 0,
            ptr + BLOCK_SIZE <= usize::MAX,
            ptr + super::simple_granularity(old_size) <= usize::MAX,
            ptr + align + super::simple_granularity(size) + BLOCK_SIZE <= usize::MAX,
            forall|i: int| 0 <= i < old(self).path().len() ==> #[trigger] old(self).path()[i] + align
                + super::simple_granularity(size) + BLOCK_SIZE <= usize::MAX,
            is_aligned_spec(ptr, align) ==> super::simple_granularity(size) >= super::simple_granularity(old_size),
            ({
                let (rr, h1, f1) = register_outcome(
                    old(self).headers_view(),
                    old(self).free_view(),
                    ptr,
                    super::simple_granularity(old_size),
                );
                resize_moves(old(self).headers_view(), old(self).free_view(), ptr, old_size, size, align)
                    && rr is Ok && allocate_outcome(h1, f1, size, align).0 is Err
                    ==> rollback_stop(h1, path_of(h1, f1), 0, ptr, (ptr + old_size) as usize) < path_of(h1, f1).len()
            }),
        ensures
            (r, final(self).headers_view(), final(self).free_view()) == resize_outcome(
                old(self).headers_view(),
                old(self).free_view(),
                ptr,
                old_size,
                size,
                align,
            ),
    {
        proof {
            lemma_heap_ok_facts(self.headers_view(), self.free);
        }
        if kernel_constants::is_aligned(ptr, align) {
            let gs = granularity(size, align);
            let go = granularity(old_size, align);
            if gs > go {
                if self.grow(ptr, old_size, size, align).is_ok() {
                    return Ok(ptr);
                }
            } else if gs < go {
                if self.shrink(ptr, old_size, size, align).is_ok() {
                    return Ok(ptr);
                }
            } else {
                return Ok(ptr);
            }
        }
        let ghost h0 = self.headers_view();
        let ghost f0 = self.free;
        let ghost go = super::simple_granularity(old_size);
        assert(h0 == old(self).headers_view() && f0 == old(self).free_view());
        assert(path_of(h0, f0) == old(self).path());
        match self.release(ptr, old_size, align) {
            Err(e) => {
                return Err(e);
            },
            Ok(_) => {},
        }
        proof {
            lemma_register_keeps(h0, f0, ptr, go);
            lemma_heap_ok_facts(self.headers_view(), self.free);
            assert forall|i: int| 0 <= i < self.path().len() implies #[trigger] self.path()[i] + align
                + super::simple_granularity(size) + BLOCK_SIZE <= usize::MAX by {
                assert(self.path().contains(self.path()[i]));
                if self.path()[i] != ptr {
                    let j = choose|j: int| 0 <= j < old(self).path().len() && old(self).path()[j] == self.path()[i];
                    assert(old(self).path()[j] + align + super::simple_granularity(size) + BLOCK_SIZE <= usize::MAX);
                }
            }
        }
        match self.allocate(size, align) {
            Ok(p) => Ok(p),
            Err(_) => {
                self.roll_back(ptr, ptr + old_size);
                Err(MemoryError::OutOfMemory)
            },
        }
    }

    /// Take back, from the block that holds it, the memory from `ptr` to `end` that was just
    /// given back.
    fn roll_back(&mut self, ptr: usize, end: usize)
        requires
            linked(old(self).headers_view(), old(self).free_view()),
            backed(old(self).headers_view()),
            rollback_stop(old(self).headers_view(), old(self).path(), 0, ptr, end) < old(self).path().len(),
        ensures
            final(self).headers_view() == rollback_outcome(old(self).headers_view(), old(self).free_view(), ptr, end),
            final(self).free_view() == old(self).free_view(),
    {
        let ghost h = self.headers_view();
        let ghost path = path_of(h, self.free);
        let first = self.free;
        let mut cur = first;
        let ghost mut k: int = 0;
        proof {
            assert(chain(h, path, first));
            assert(path == old(self).path());
        }
        loop
            invariant
                self.headers_view() == h,
                self.free_view() == first,
                first == old(self).free_view(),
                h == old(self).headers_view(),
                path == path_of(h, first),
                chain(h, path, first),
                backed(h),
                0 <= k < path.len(),
                cur == path[k],
                rollback_stop(h, path, 0, ptr, end) == rollback_stop(h, path, k, ptr, end),
                rollback_stop(h, path, k, ptr, end) < path.len(),
            decreases path.len() - k,
        {
            proof {
                assert(h.contains_key(path[k]));
            }
            let b = self.read(cur);
            if b.base <= ptr && end <= b.end {
                proof {
                    assert(rollback_stop(h, path, k, ptr, end) == k);
                    if b.next != 0 {
                        if k + 1 < path.len() {
                            assert(h[path[k]].next == path[k + 1]);
                            assert(h.contains_key(path[k + 1]));
                        } else {
                            assert(h[path.last()].next == 0);
                        }
                    }
                }
                if ptr > b.base {
                    if end < b.end {
                        self.write(end, Block { base: end, end: b.end, next: b.next, last: cur });
                        let c = self.read(cur);
                        self.write(cur, Block { base: c.base, end: c.end, next: end, last: c.last });
                        if b.next != 0 {
                            let n = self.read(b.next);
                            self.write(b.next, Block { base: n.base, end: n.end, next: n.next, last: end });
                        }
                    }
                    let c = self.read(cur);
                    self.write(cur, Block { base: c.base, end: ptr, next: c.next, last: c.last });
                } else if end < b.end {
                    self.write(cur, Block { base: end, end: b.end, next: b.next, last: b.last });
                } else {
                    if b.last != 0 {
                        let l = self.read(b.last);
                        self.write(b.last, Block { base: l.base, end: l.end, next: b.next, last: l.last });
                    }
                    let b1 = self.read(cur);
                    if b1.next != 0 {
                        let n = self.read(b1.next);
                        self.write(b1.next, Block { base: n.base, end: n.end, next: n.next, last: b1.last });
                    }
                }
                return;
            }
            proof {
                if k + 1 >= path.len() {
                    assert(rollback_stop(h, path, k + 1, ptr, end) == path.len());
                }
                assert(h[path[k]].next == path[k + 1]);
            }
            cur = b.next;
            proof {
                k = k + 1;
            }
        }
    }

    /// Forget the memory from `ptr` to `end` at the header at `cur`: the bytes taken off, and
    /// whether forgetting is done.
    fn forget_at(&mut self, cur: usize, ptr: usize, end: usize) -> (r: (usize, bool))
        requires
            old(self).headers_view().contains_key(cur),
            backed(old(self).headers_view()),
            old(self).headers_view()[cur].next != 0 ==> old(self).headers_view().contains_key(
                old(self).headers_view()[cur].next,
            ),
            old(self).headers_view()[cur].base <= old(self).headers_view()[cur].end,
            end + BLOCK_SIZE <= usize::MAX,
        ensures
            (final(self).headers_view(), r.0 as int, r.1) == forget_node(old(self).headers_view(), cur, ptr, end),
            final(self).free_view() == old(self).free_view(),
    {
        let b = self.read(cur);
        if b.base >= ptr && end >= b.end {
            if b.last != 0 {
                let l = self.read(b.last);
                self.write(b.last, Block { base: l.base, end: l.end, next: b.next, last: l.last });
            }
            let b1 = self.read(cur);
            if b1.next != 0 {
                let n = self.read(b1.next);
                self.write(b1.next, Block { base: n.base, end: n.end, next: n.next, last: b1.last });
            }
            (b.end - b.base, false)
        } else if ptr > b.base && ptr < b.end && end >= b.end {
            self.write(cur, Block { base: b.base, end: ptr, next: b.next, last: b.last });
            (b.end - ptr, false)
        } else if b.base >= ptr && end >= b.base && b.end > end {
            self.write(end, Block { base: end + BLOCK_SIZE, end: b.end, next: b.next, last: b.last });
            let b1 = self.read(cur);
            if b1.last != 0 {
                let l = self.read(b1.last);
                self.write(b1.last, Block { base: l.base, end: l.end, next: end, last: l.last });
            }
            let b2 = self.read(cur);
            if b2.next != 0 {
                let n = self.read(b2.next);
                self.write(b2.next, Block { base: n.base, end: n.end, next: n.next, last: end });
            }
            (end - b.base, false)
        } else if ptr > b.base && b.end > end {
            self.write(end, Block { base: end + BLOCK_SIZE, end: b.end, next: b.next, last: cur });
            let b1 = self.read(cur);
            self.write(cur, Block { base: b1.base, end: ptr, next: b1.next, last: b1.last });
            let b2 = self.read(cur);
            if b2.next != 0 {
                let n = self.read(b2.next);
                self.write(b2.next, Block { base: n.base, end: n.end, next: n.next, last: end });
            }
            let b3 = self.read(cur);
            self.write(cur, Block { base: b3.base, end: b3.end, next: end, last: b3.last });
            (0, true)
        } else {
            (0, false)
        }
    }

    fn read(&self, at: usize) -> (r: Block)
        requires
            self.headers_view().contains_key(at),
        ensures
            r == self.headers_view()[at],
    {
        *self.headers.get(&at).unwrap()
    }

    fn write(&mut self, at: usize, block: Block)
        ensures
            final(self).headers_view() == old(self).headers_view().insert(at, block),
            final(self).free_view() == old(self).free_view(),
    {
        self.headers.insert(at, block);
    }
}

} // verus!
