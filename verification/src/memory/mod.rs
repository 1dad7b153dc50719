pub mod reserve;

use vstd::prelude::*;
use self::reserve::{Reserve, RESERVE_SLOTS, count_spec, allocate_result, shrink_result, grow_result, resize_slots};
use self::free_list::{allocate_ok, forget_ok, grow_ok, resize_ok};
use self::simple::linked;

verus! {

/// Why a memory operation failed.
#[derive(Debug, Clone, Copy, PartialEq, Eq, Structural)]
pub enum MemoryError {
    OutOfMemory,
    OutOfSpace,
    Disabled,
    EmptyAllocation,
    TinyBlock,
    NoPlace,
    Overlap,
}

impl MemoryError {
    /// A sentence that says what went wrong.
    pub fn description(&self) -> (r: &'static str)
        ensures
            *self == MemoryError::OutOfMemory ==> r@ == "Out of memory"@,
            *self == MemoryError::OutOfSpace ==> r@ == "In-place realloc ran out of space"@,
            *self == MemoryError::Disabled ==> r@ == "Memory disabled"@,
            *self == MemoryError::EmptyAllocation ==> r@ == "Empty allocation"@,
            *self == MemoryError::TinyBlock ==> r@ == "Block was too small"@,
            *self == MemoryError::NoPlace ==> r@ == "Could not place memory region"@,
            *self == MemoryError::Overlap ==> r@ == "Overlap in memory region"@,
    {
        match self {
            MemoryError::OutOfMemory => "Out of memory",
            MemoryError::OutOfSpace => "In-place realloc ran out of space",
            MemoryError::Disabled => "Memory disabled",
            MemoryError::EmptyAllocation => "Empty allocation",
            MemoryError::TinyBlock => "Block was too small",
            MemoryError::NoPlace => "Could not place memory region",
            MemoryError::Overlap => "Overlap in memory region",
        }
    }
}

/// The switches of the memory manager: whether memory may be used at all, and whether
/// allocations come from the reserve slab rather than the general heap.
pub struct Manager {
    enabled: bool,
    use_reserve: bool,
}

impl Manager {
    pub closed spec fn enabled_view(&self) -> bool {
        self.enabled
    }

    pub closed spec fn reserve_view(&self) -> bool {
        self.use_reserve
    }

    /// Memory starts disabled, allocating from the reserve slab.
    pub fn new() -> (r: Manager)
        ensures
            !r.enabled_view(),
            r.reserve_view(),
    {
        Manager { enabled: false, use_reserve: true }
    }

    /// `Ok` when memory is enabled, else `Disabled`.
    pub fn enabled(&self) -> (r: Result<(), MemoryError>)
        ensures
            self.enabled_view() ==> r is Ok,
            !self.enabled_view() ==> r == Err::<(), MemoryError>(MemoryError::Disabled),
    {
        if self.enabled {
            Ok(())
        } else {
            Err(MemoryError::Disabled)
        }
    }
}

pub fn is_enabled(memory: &Manager) -> (r: bool)
    ensures
        r == memory.enabled_view(),
{
    memory.enabled
}

pub fn enable(memory: &mut Manager)
    ensures
        final(memory).enabled_view(),
        final(memory).reserve_view() == old(memory).reserve_view(),
{
    memory.enabled = true;
}

pub fn disable(memory: &mut Manager)
    ensures
        !final(memory).enabled_view(),
        final(memory).reserve_view() == old(memory).reserve_view(),
{
    memory.enabled = false;
}

/// Switch to the reserve slab; give back whether it was already in use.
pub fn enter_reserved(memory: &mut Manager) -> (r: bool)
    ensures
        r == old(memory).reserve_view(),
        final(memory).reserve_view(),
        final(memory).enabled_view() == old(memory).enabled_view(),
{
    let was = memory.use_reserve;
    memory.use_reserve = true;
    was
}

/// Switch to the general heap; give back whether the reserve slab was in use.
pub fn exit_reserved(memory: &mut Manager) -> (r: bool)
    ensures
        r == old(memory).reserve_view(),
        !final(memory).reserve_view(),
        final(memory).enabled_view() == old(memory).enabled_view(),
{
    let was = memory.use_reserve;
    memory.use_reserve = false;
    was
}

/// The bytes an allocation of `size` really takes on the general heap: at least 32.
pub open spec fn simple_granularity(size: usize) -> usize {
    if size < 32 {
        32
    } else {
        size
    }
}

/// The bytes an allocation of `size` really takes: from the allocator in use.
pub fn granularity(memory: &Manager, size: usize, align: usize) -> (r: usize)
    requires
        memory.reserve_view() ==> size + 7 <= usize::MAX,
    ensures
        memory.reserve_view() ==> r == reserve::granularity_spec(size),
        !memory.reserve_view() ==> r == simple_granularity(size),
{
    if memory.use_reserve {
        reserve::granularity(size, align)
    } else {
        simple::granularity(size, align)
    }
}

/// Give the `size` bytes at `ptr` to the general heap; nothing while memory is disabled.
pub fn register(memory: &Manager, heap: &mut free_list::Manager, ptr: usize, size: usize) -> (r: Result<usize, MemoryError>)
    requires
        memory.enabled_view() ==> ptr != 0 && ptr + size <= usize::MAX && old(heap).hint_view() + size
            <= usize::MAX && linked(old(heap).headers_view(), old(heap).free_view()),
    ensures
        !memory.enabled_view() ==> r == Err::<usize, MemoryError>(MemoryError::Disabled) && *final(heap) == *old(heap),
        memory.enabled_view() ==> r == Ok::<usize, MemoryError>(size) && (
        final(heap).headers_view(),
        final(heap).free_view(),
        final(heap).hint_view(),
        ) == free_list::register_state(
            old(heap).headers_view(),
            old(heap).free_view(),
            old(heap).hint_view(),
            ptr,
            size,
        ),
{
    if let Err(e) = memory.enabled() {
        return Err(e);
    }
    heap.register(ptr, size)
}

/// Take the `size` bytes at `ptr` out of the general heap; nothing while memory is disabled.
pub fn forget(memory: &Manager, heap: &mut free_list::Manager, ptr: usize, size: usize) -> (r: Result<usize, MemoryError>)
    requires
        memory.enabled_view() ==> linked(old(heap).headers_view(), old(heap).free_view()) && forget_ok(
            old(heap).headers_view(),
            old(heap).free_view(),
            old(heap).hint_view(),
            ptr,
            size,
        ),
    ensures
        !memory.enabled_view() ==> r == Err::<usize, MemoryError>(MemoryError::Disabled) && *final(heap) == *old(heap),
        memory.enabled_view() ==> (r, final(heap).headers_view(), final(heap).free_view(), final(heap).hint_view())
            == free_list::forget_outcome(
            old(heap).headers_view(),
            old(heap).free_view(),
            old(heap).hint_view(),
            ptr,
            size,
        ),
{
    if let Err(e) = memory.enabled() {
        return Err(e);
    }
    heap.forget(ptr, size)
}

/// Allocate `size` bytes aligned to `align`: from the reserve slab while it is in use, else
/// from the general heap. Nothing while memory is disabled, and nothing for zero bytes.
pub fn allocate(memory: &Manager, reserve: &mut Reserve, heap: &mut free_list::Manager, size: usize, align: usize) -> (r: Result<usize, MemoryError>)
    requires
        memory.enabled_view() && size > 0 && memory.reserve_view() ==> old(reserve).wf() && size + 7 <= usize::MAX,
        memory.enabled_view() && size > 0 && !memory.reserve_view() ==> old(heap).hint_view() >= size && linked(
            old(heap).headers_view(),
            old(heap).free_view(),
        ) && allocate_ok(old(heap).headers_view(), old(heap).free_view(), old(heap).hint_view(), size, align),
    ensures
        !memory.enabled_view() ==> r == Err::<usize, MemoryError>(MemoryError::Disabled),
        memory.enabled_view() && size == 0 ==> r == Err::<usize, MemoryError>(MemoryError::EmptyAllocation),
        !(memory.enabled_view() && size > 0 && memory.reserve_view()) ==> *final(reserve) == *old(reserve),
        !(memory.enabled_view() && size > 0 && !memory.reserve_view()) ==> *final(heap) == *old(heap),
        memory.enabled_view() && size > 0 && memory.reserve_view() ==> final(reserve).wf() && final(reserve).slab_view()
            == old(reserve).slab_view() && final(reserve).hint_view() == old(reserve).hint_view() && (
        r,
        final(reserve).slots_view(),
        ) == allocate_result(old(reserve).slots_view(), old(reserve).slab_view(), size, align),
        memory.enabled_view() && size > 0 && !memory.reserve_view() ==> (
        r,
        final(heap).headers_view(),
        final(heap).free_view(),
        final(heap).hint_view(),
        ) == free_list::allocate_outcome(
            old(heap).headers_view(),
            old(heap).free_view(),
            old(heap).hint_view(),
            size,
            align,
        ),
{
    if let Err(e) = memory.enabled() {
        return Err(e);
    }
    if size == 0 {
        return Err(MemoryError::EmptyAllocation);
    }
    if memory.use_reserve {
        reserve.allocate(size, align)
    } else {
        heap.allocate(size, align)
    }
}

/// Give back the allocation of `size` bytes at `ptr`: to the reserve slab when it lies there,
/// else to the general heap. Nothing while memory is disabled, and nothing for a null pointer.
pub fn release(memory: &Manager, reserve: &mut Reserve, heap: &mut free_list::Manager, ptr: usize, size: usize, align: usize) -> (r: Result<usize, MemoryError>)
    requires
        memory.enabled_view() && ptr != 0 ==> old(reserve).wf(),
        memory.enabled_view() && ptr != 0 && old(reserve).slab_view() <= ptr < old(reserve).slab_view() + 8 * RESERVE_SLOTS
            ==> size + 7 <= usize::MAX && (ptr - old(reserve).slab_view()) / 8 + count_spec(size) <= RESERVE_SLOTS,
        memory.enabled_view() && ptr != 0 && !(old(reserve).slab_view() <= ptr < old(reserve).slab_view() + 8
            * RESERVE_SLOTS) ==> ptr + simple_granularity(size) <= usize::MAX && old(heap).hint_view() + 2
            * simple_granularity(size) <= usize::MAX && linked(old(heap).headers_view(), old(heap).free_view()),
    ensures
        !memory.enabled_view() ==> r == Err::<usize, MemoryError>(MemoryError::Disabled) && *final(reserve)
            == *old(reserve) && *final(heap) == *old(heap),
        memory.enabled_view() && ptr == 0 ==> r == Err::<usize, MemoryError>(MemoryError::EmptyAllocation)
            && *final(reserve) == *old(reserve) && *final(heap) == *old(heap),
        memory.enabled_view() && ptr != 0 && old(reserve).slab_view() <= ptr < old(reserve).slab_view() + 8 * RESERVE_SLOTS
            ==> r == Ok::<usize, MemoryError>(size) && *final(heap) == *old(heap) && final(reserve).wf()
            && final(reserve).slab_view() == old(reserve).slab_view() && final(reserve).hint_view()
            == old(reserve).hint_view() && final(reserve).slots_view() == reserve::with_range(
            old(reserve).slots_view(),
            (ptr - old(reserve).slab_view()) / 8,
            count_spec(size),
            false,
        ),
        memory.enabled_view() && ptr != 0 && !(old(reserve).slab_view() <= ptr < old(reserve).slab_view() + 8
            * RESERVE_SLOTS) ==> r == Ok::<usize, MemoryError>(simple_granularity(size)) && *final(reserve)
            == *old(reserve) && ({
            let g = simple_granularity(size);
            let (h1, f1, hint1) = free_list::register_state(
                old(heap).headers_view(),
                old(heap).free_view(),
                old(heap).hint_view(),
                ptr,
                g,
            );
            (final(heap).headers_view(), final(heap).free_view(), final(heap).hint_view()) == (h1, f1, (hint1 + g) as usize)
        }),
{
    if let Err(e) = memory.enabled() {
        return Err(e);
    }
    if ptr == 0 {
        return Err(MemoryError::EmptyAllocation);
    }
    if reserve.belongs(ptr) {
        reserve.release(ptr, size, align)
    } else {
        heap.release(ptr, size, align)
    }
}

/// Grow the allocation of `old_size` bytes at `ptr` in place to `size` bytes, in the reserve
/// slab when it lies there, else on the general heap; nothing while memory is disabled.
pub fn grow(memory: &Manager, reserve: &mut Reserve, heap: &mut free_list::Manager, ptr: usize, old_size: usize, size: usize, align: usize) -> (r: Result<(), MemoryError>)
    requires
        memory.enabled_view() ==> old(reserve).wf(),
        memory.enabled_view() && old(reserve).slab_view() <= ptr < old(reserve).slab_view() + 8 * RESERVE_SLOTS
            ==> old_size + 7 <= usize::MAX && size + 7 <= usize::MAX && (ptr - old(reserve).slab_view()) / 8
            + count_spec(size) <= usize::MAX,
        memory.enabled_view() && !(old(reserve).slab_view() <= ptr < old(reserve).slab_view() + 8 * RESERVE_SLOTS)
            ==> linked(old(heap).headers_view(), old(heap).free_view()) && grow_ok(
            old(heap).headers_view(),
            old(heap).free_view(),
            old(heap).hint_view(),
            ptr,
            old_size,
            size,
        ),
    ensures
        !memory.enabled_view() ==> r == Err::<(), MemoryError>(MemoryError::Disabled) && *final(reserve) == *old(reserve)
            && *final(heap) == *old(heap),
        memory.enabled_view() && old(reserve).slab_view() <= ptr < old(reserve).slab_view() + 8 * RESERVE_SLOTS
            ==> *final(heap) == *old(heap) && final(reserve).wf() && final(reserve).slab_view()
            == old(reserve).slab_view() && final(reserve).hint_view() == old(reserve).hint_view() && (
        r,
        final(reserve).slots_view(),
        ) == grow_result(old(reserve).slots_view(), old(reserve).slab_view(), ptr, old_size, size),
        memory.enabled_view() && !(old(reserve).slab_view() <= ptr < old(reserve).slab_view() + 8 * RESERVE_SLOTS)
            ==> *final(reserve) == *old(reserve) && (
        r,
        final(heap).headers_view(),
        final(heap).free_view(),
        final(heap).hint_view(),
        ) == free_list::grow_outcome(
            old(heap).headers_view(),
            old(heap).free_view(),
            old(heap).hint_view(),
            ptr,
            old_size,
            size,
        ),
{
    if let Err(e) = memory.enabled() {
        return Err(e);
    }
    if reserve.belongs(ptr) {
        reserve.grow(ptr, old_size, size, align)
    } else {
        heap.grow(ptr, old_size, size, align)
    }
}

/// Shrink the allocation of `old_size` bytes at `ptr` in place to `size` bytes, in the
/// reserve slab when it lies there, else on the general heap; nothing while memory is
/// disabled.
pub fn shrink(memory: &Manager, reserve: &mut Reserve, heap: &mut free_list::Manager, ptr: usize, old_size: usize, size: usize, align: usize) -> (r: Result<(), MemoryError>)
    requires
        memory.enabled_view() ==> old(reserve).wf(),
        memory.enabled_view() && old(reserve).slab_view() <= ptr < old(reserve).slab_view() + 8 * RESERVE_SLOTS
            ==> old_size + 7 <= usize::MAX && size + 7 <= usize::MAX && (reserve::granularity_spec(old_size)
            > size ==> (ptr - old(reserve).slab_view()) / 8 + count_spec(old_size) <= RESERVE_SLOTS),
        memory.enabled_view() && !(old(reserve).slab_view() <= ptr < old(reserve).slab_view() + 8 * RESERVE_SLOTS)
            ==> simple_granularity(size) >= simple_granularity(old_size),
    ensures
        !memory.enabled_view() ==> r == Err::<(), MemoryError>(MemoryError::Disabled) && *final(reserve) == *old(reserve)
            && *final(heap) == *old(heap),
        memory.enabled_view() ==> r is Ok,
        memory.enabled_view() && old(reserve).slab_view() <= ptr < old(reserve).slab_view() + 8 * RESERVE_SLOTS
            ==> *final(heap) == *old(heap) && final(reserve).wf() && final(reserve).slab_view()
            == old(reserve).slab_view() && final(reserve).hint_view() == old(reserve).hint_view()
            && final(reserve).slots_view() == shrink_result(
            old(reserve).slots_view(),
            old(reserve).slab_view(),
            ptr,
            old_size,
            size,
        ),
        memory.enabled_view() && !(old(reserve).slab_view() <= ptr < old(reserve).slab_view() + 8 * RESERVE_SLOTS)
            ==> *final(reserve) == *old(reserve) && final(heap).headers_view() == old(heap).headers_view()
            && final(heap).free_view() == old(heap).free_view() && final(heap).hint_view() == old(heap).hint_view(),
{
    if let Err(e) = memory.enabled() {
        return Err(e);
    }
    if reserve.belongs(ptr) {
        reserve.shrink(ptr, old_size, size, align)
    } else {
        heap.shrink(ptr, old_size, size, align)
    }
}

/// What memory holds once `count` bytes were copied from `from` to `to`, the two ranges
/// allowed to overlap: the bytes at `to` are those that were at `from`, the rest stays.
pub open spec fn copied(bytes: Seq<u8>, from: int, to: int, count: int) -> Seq<u8> {
    Seq::new(bytes.len(), |j: int| if to <= j < to + count { bytes[from + j - to] } else { bytes[j] })
}

/// The step a resize leaves to its caller when the allocation moved: copy the bytes the
/// allocation keeps, the smaller of its two sizes, from the old place `from` to the new place
/// `to` in `memory` (a byte image of the address space from address zero). The two places may
/// overlap.
pub fn copy_kept(memory: &mut Vec<u8>, from: usize, to: usize, old_size: usize, size: usize)
    requires
        from + (if old_size < size { old_size } else { size }) <= old(memory)@.len(),
        to + (if old_size < size { old_size } else { size }) <= old(memory)@.len(),
    ensures
        final(memory)@ == copied(
            old(memory)@,
            from as int,
            to as int,
            (if old_size < size { old_size } else { size }) as int,
        ),
{
    let count = if old_size < size {
        old_size
    } else {
        size
    };
    let ghost start = memory@;
    let n = memory.len();
    if to <= from {
        let mut i: usize = 0;
        while i < count
            invariant
                0 <= i <= count,
                to <= from,
                n == start.len(),
                from + count <= start.len(),
                to + count <= start.len(),
                memory@.len() == start.len(),
                forall|j: int| 0 <= j < memory@.len() ==> #[trigger] memory@[j] == if to <= j < to + i {
                    start[from + j - to]
                } else {
                    start[j]
                },
            decreases count - i,
        {
            let b = memory[from + i];
            memory.set(to + i, b);
            i = i + 1;
        }
    } else {
        let mut i: usize = count;
        while i > 0
            invariant
                0 <= i <= count,
                from < to,
                n == start.len(),
                from + count <= start.len(),
                to + count <= start.len(),
                memory@.len() == start.len(),
                forall|j: int| 0 <= j < memory@.len() ==> #[trigger] memory@[j] == if to + i <= j < to + count {
                    start[from + j - to]
                } else {
                    start[j]
                },
            decreases i,
        {
            let b = memory[from + i - 1];
            memory.set(to + i - 1, b);
            i = i - 1;
        }
    }
    proof {
        assert(memory@ =~= copied(start, from as int, to as int, count as int));
    }
}

/// Resize the allocation of `old_size` bytes at `ptr` to `size` bytes, in the reserve slab
/// when it lies there (always in place), else on the general heap; nothing while memory is
/// disabled. When the allocation moves, its bytes go over with `copy_kept`.
pub fn resize(memory: &Manager, reserve: &mut Reserve, heap: &mut free_list::Manager, ptr: usize, old_size: usize, size: usize, align: usize) -> (r: Result<usize, MemoryError>)
    requires
        memory.enabled_view() ==> old(reserve).wf(),
        memory.enabled_view() && old(reserve).slab_view() <= ptr < old(reserve).slab_view() + 8 * RESERVE_SLOTS
            ==> old_size + 7 <= usize::MAX && size + 7 <= usize::MAX && (ptr - old(reserve).slab_view()) / 8
            + count_spec(size) <= usize::MAX && (reserve::granularity_spec(old_size) > size ==> (ptr
            - old(reserve).slab_view()) / 8 + count_spec(old_size) <= RESERVE_SLOTS),
        memory.enabled_view() && !(old(reserve).slab_view() <= ptr < old(reserve).slab_view() + 8 * RESERVE_SLOTS)
            ==> linked(old(heap).headers_view(), old(heap).free_view()) && resize_ok(
            old(heap).headers_view(),
            old(heap).free_view(),
            old(heap).hint_view(),
            ptr,
            old_size,
            size,
            align,
        ),
    ensures
        !memory.enabled_view() ==> r == Err::<usize, MemoryError>(MemoryError::Disabled) && *final(reserve)
            == *old(reserve) && *final(heap) == *old(heap),
        memory.enabled_view() && old(reserve).slab_view() <= ptr < old(reserve).slab_view() + 8 * RESERVE_SLOTS
            ==> r == Ok::<usize, MemoryError>(ptr) && *final(heap) == *old(heap) && final(reserve).wf()
            && final(reserve).slab_view() == old(reserve).slab_view() && final(reserve).hint_view()
            == old(reserve).hint_view() && final(reserve).slots_view() == resize_slots(
            old(reserve).slots_view(),
            old(reserve).slab_view(),
            ptr,
            old_size,
            size,
        ),
        memory.enabled_view() && !(old(reserve).slab_view() <= ptr < old(reserve).slab_view() + 8 * RESERVE_SLOTS)
            ==> *final(reserve) == *old(reserve) && (
        r,
        final(heap).headers_view(),
        final(heap).free_view(),
        final(heap).hint_view(),
        ) == free_list::resize_outcome(
            old(heap).headers_view(),
            old(heap).free_view(),
            old(heap).hint_view(),
            ptr,
            old_size,
            size,
            align,
        ),
{
    if let Err(e) = memory.enabled() {
        return Err(e);
    }
    if reserve.belongs(ptr) {
        reserve.resize(ptr, old_size, size, align)
    } else {
        heap.resize(ptr, old_size, size, align)
    }
}

/// The hint of the bytes the allocator in use holds.
pub fn hint(memory: &Manager, reserve: &Reserve, heap: &free_list::Manager) -> (r: usize)
    ensures
        memory.reserve_view() ==> r == reserve.hint_view(),
        !memory.reserve_view() ==> r == heap.hint_view(),
{
    if memory.use_reserve {
        reserve.hint()
    } else {
        heap.hint()
    }
}

} // verus!

pub mod simple;
pub mod free_list;
