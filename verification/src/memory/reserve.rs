use vstd::prelude::*;
use super::MemoryError;
use crate::kernel_constants::{align, align_spec};

verus! {

/// Eight-byte slots in the reserve slab.
pub const RESERVE_SLOTS: usize = 0x1000;

/// Bytes of the slot map: one bit per slot.
pub const MAP_BYTES: usize = 0x200;

/// Slot `p` is marked allocated in `map`.
pub open spec fn bit(map: Seq<u8>, p: int) -> bool {
    (map[p / 8] >> ((p % 8) as u8)) & 1u8 == 1u8
}

/// Which slots are allocated.
pub open spec fn slots(map: Seq<u8>) -> Seq<bool> {
    Seq::new(RESERVE_SLOTS as nat, |p: int| bit(map, p))
}

/// Slots needed for `size` bytes.
pub open spec fn count_spec(size: usize) -> int {
    (size + 7) / 8
}

/// The bytes an allocation of `size` really takes: rounded up to whole slots.
pub open spec fn granularity_spec(size: usize) -> usize {
    (((size + 7) / 8) * 8) as usize
}

/// `old` with the slots `[base, base + count)` set to `value`.
pub open spec fn with_range(old: Seq<bool>, base: int, count: int, value: bool) -> Seq<bool> {
    Seq::new(old.len(), |p: int| if base <= p < base + count { value } else { old[p] })
}

/// The slots `[lo, hi)` all lie in the slab and are free.
pub open spec fn all_free(bits: Seq<bool>, lo: int, hi: int) -> bool {
    forall|p: int| lo <= p < hi ==> p < RESERVE_SLOTS && !#[trigger] bits[p]
}

/// The slot where `allocate` puts `count` slots, scanning from `position` with the current
/// candidate `base`: an allocated slot moves the candidate to the next multiple of `to` from
/// it; a free slot at least `count` past a lower candidate settles on that candidate.
pub open spec fn scan(bits: Seq<bool>, count: int, to: usize, position: int, base: int) -> Option<int>
    decreases RESERVE_SLOTS - position,
{
    if position < 0 || position >= RESERVE_SLOTS {
        None
    } else if bits[position] {
        scan(bits, count, to, position + 1, align_spec(position as usize, to) as int)
    } else if base < position && position - base >= count {
        Some(base)
    } else {
        scan(bits, count, to, position + 1, base)
    }
}

/// The multiple that allocation candidates are aligned to: an eighth of the byte alignment,
/// at least one.
pub open spec fn slot_align(align: usize) -> usize {
    if align / 8 >= 1 {
        align / 8
    } else {
        1
    }
}

proof fn lemma_slot_index(p: usize)
    by (bit_vector)
    ensures
        p & 7 == p % 8,
        p >> 3 == p / 8,
        p % 8 < 8,
{
}

/// Setting or clearing bit `b` of a byte changes that bit only.
proof fn lemma_byte_bits(x: u8, b: u8, c: u8)
    by (bit_vector)
    requires
        b < 8,
        c < 8,
    ensures
        ((x | (1u8 << b)) >> c) & 1u8 == (if b == c { 1u8 } else { (x >> c) & 1u8 }),
        ((x & !(1u8 << b)) >> c) & 1u8 == (if b == c { 0u8 } else { (x >> c) & 1u8 }),
        (x >> c) & 1u8 == 1u8 || (x >> c) & 1u8 == 0u8,
        (0u8 >> c) & 1u8 == 0u8,
{
}

/// The reserve slab: `RESERVE_SLOTS` eight-byte slots from the address `slab`, with a bit
/// map of the allocated ones.
pub struct Reserve {
    hint: usize,
    slab: usize,
    map: Vec<u8>,
}

impl Reserve {
    pub closed spec fn wf(&self) -> bool {
        &&& self.map@.len() == MAP_BYTES
        &&& self.slab + 8 * RESERVE_SLOTS <= usize::MAX
    }

    /// A well-formed reserve lies wholly below the top of the address space, and has one slot
    /// state per slot.
    pub proof fn lemma_wf_bounds(&self)
        requires
            self.wf(),
        ensures
            self.slab_view() + 8 * RESERVE_SLOTS <= usize::MAX,
            self.slots_view().len() == RESERVE_SLOTS,
    {
    }

    /// Which slots are allocated.
    pub closed spec fn slots_view(&self) -> Seq<bool> {
        slots(self.map@)
    }

    pub closed spec fn slab_view(&self) -> usize {
        self.slab
    }

    pub closed spec fn hint_view(&self) -> usize {
        self.hint
    }

    /// An empty slab at `slab`.
    pub fn new(slab: usize) -> (r: Reserve)
        requires
            slab + 8 * RESERVE_SLOTS <= usize::MAX,
        ensures
            r.wf(),
            r.slab_view() == slab,
            r.hint_view() == 8 * RESERVE_SLOTS,
            r.slots_view().len() == RESERVE_SLOTS,
            forall|p: int| 0 <= p < RESERVE_SLOTS ==> !#[trigger] r.slots_view()[p],
    {
        let mut map: Vec<u8> = Vec::new();
        let mut i: usize = 0;
        while i < MAP_BYTES
            invariant
                0 <= i <= MAP_BYTES,
                map@.len() == i,
                forall|j: int| 0 <= j < i ==> map@[j] == 0,
            decreases MAP_BYTES - i,
        {
            map.push(0);
            i = i + 1;
        }
        let r = Reserve { hint: 8 * RESERVE_SLOTS, slab: slab, map: map };
        proof {
            assert forall|p: int| 0 <= p < RESERVE_SLOTS implies !#[trigger] r.slots_view()[p] by {
                let c = (p % 8) as u8;
                lemma_byte_bits(0u8, 0u8, c);
            }
        }
        r
    }

    /// Whether `ptr` lies in the slab.
    pub fn belongs(&self, ptr: usize) -> (r: bool)
        requires
            self.wf(),
        ensures
            r == (self.slab_view() <= ptr < self.slab_view() + 8 * RESERVE_SLOTS),
    {
        ptr >= self.slab && ptr < self.slab + 8 * RESERVE_SLOTS
    }

    /// Bytes the slab can hold.
    pub fn hint(&self) -> (r: usize)
        ensures
            r == self.hint_view(),
    {
        self.hint
    }

    /// Whether slot `position` is allocated; `OutOfMemory` past the slab.
    pub fn is_allocated(&self, position: usize) -> (r: Result<bool, MemoryError>)
        requires
            self.wf(),
        ensures
            position >= RESERVE_SLOTS ==> r == Err::<bool, MemoryError>(MemoryError::OutOfMemory),
            position < RESERVE_SLOTS ==> r == Ok::<bool, MemoryError>(
                self.slots_view()[position as int],
            ),
    {
        if position >= RESERVE_SLOTS {
            return Err(MemoryError::OutOfMemory);
        }
        let bit_position = position & 0x7;
        let index = position >> 3;
        proof {
            lemma_slot_index(position);
        }
        let entry = self.map[index];
        let bit = (entry >> (bit_position as u8)) & 0x1;
        Ok(bit == 1)
    }

    /// Mark the slots `[base, base + count)` allocated (`value`) or free.
    fn set_range(&mut self, base: usize, count: usize, value: bool)
        requires
            old(self).wf(),
            base + count <= RESERVE_SLOTS,
        ensures
            final(self).wf(),
            final(self).slab_view() == old(self).slab_view(),
            final(self).hint_view() == old(self).hint_view(),
            final(self).slots_view() == with_range(old(self).slots_view(), base as int, count as int, value),
    {
        let ghost start = self.slots_view();
        let mut position = base;
        while position < base + count
            invariant
                self.wf(),
                base <= position <= base + count,
                base + count <= RESERVE_SLOTS,
                self.slab == old(self).slab,
                self.hint == old(self).hint,
                self.slots_view() == with_range(start, base as int, position - base, value),
                start.len() == RESERVE_SLOTS,
            decreases base + count - position,
        {
            let bit_position = position & 0x7;
            let index = position >> 3;
            proof {
                lemma_slot_index(position);
            }
            let ghost before = self.map@;
            let entry = self.map[index];
            let b = bit_position as u8;
            let updated = if value {
                entry | (1u8 << b)
            } else {
                entry & !(1u8 << b)
            };
            self.map.set(index, updated);
            proof {
                assert forall|p: int| 0 <= p < RESERVE_SLOTS implies #[trigger] slots(self.map@)[p]
                    == with_range(start, base as int, position + 1 - base, value)[p] by {
                    let c = (p % 8) as u8;
                    lemma_byte_bits(entry, b, c);
                    if p / 8 == index as int {
                        if p == position as int {
                            assert(c == b);
                        } else {
                            assert(c != b);
                            assert(bit(before, p) == slots(before)[p]);
                        }
                    } else {
                        assert(bit(before, p) == slots(before)[p]);
                    }
                }
                assert(slots(self.map@) =~= with_range(start, base as int, position + 1 - base, value));
            }
            position = position + 1;
        }
    }

    /// Mark the slots `[base, base + count)` allocated.
    pub fn set_allocated(&mut self, base: usize, count: usize)
        requires
            old(self).wf(),
            base + count <= RESERVE_SLOTS,
        ensures
            final(self).wf(),
            final(self).slab_view() == old(self).slab_view(),
            final(self).hint_view() == old(self).hint_view(),
            final(self).slots_view() == with_range(old(self).slots_view(), base as int, count as int, true),
    {
        self.set_range(base, count, true);
    }

    /// Mark the slots `[base, base + count)` free.
    pub fn set_unallocated(&mut self, base: usize, count: usize)
        requires
            old(self).wf(),
            base + count <= RESERVE_SLOTS,
        ensures
            final(self).wf(),
            final(self).slab_view() == old(self).slab_view(),
            final(self).hint_view() == old(self).hint_view(),
            final(self).slots_view() == with_range(old(self).slots_view(), base as int, count as int, false),
    {
        self.set_range(base, count, false);
    }

    /// The slot that holds the address `ptr`.
    pub fn get_position(&self, ptr: usize) -> (r: usize)
        requires
            ptr >= self.slab_view(),
        ensures
            r == (ptr - self.slab_view()) / 8,
    {
        let offset = ptr - self.slab;
        proof {
            lemma_slot_index(offset);
        }
        offset >> 3
    }
}

/// What allocating `size` bytes aligned to `align` from the slab at `slab` with slots
/// `slots` returns, and the slots it leaves.
pub open spec fn allocate_result(slots: Seq<bool>, slab: usize, size: usize, align: usize) -> (Result<usize, MemoryError>, Seq<bool>) {
    match scan(slots, count_spec(size), slot_align(align), 0, 0) {
        Some(b) => (Ok((slab + 8 * b) as usize), with_range(slots, b, count_spec(size), true)),
        None => (Err(MemoryError::OutOfMemory), slots),
    }
}

/// The slots left by shrinking the allocation of `old_size` bytes at `ptr` to `size` bytes.
pub open spec fn shrink_result(slots: Seq<bool>, slab: usize, ptr: usize, old_size: usize, size: usize) -> Seq<bool> {
    if granularity_spec(old_size) <= size {
        slots
    } else {
        with_range(slots, (ptr - slab) / 8 + count_spec(size), count_spec(old_size) - count_spec(size), false)
    }
}

/// The slots left by resizing the allocation of `old_size` bytes at `ptr` to `size` bytes.
pub open spec fn resize_slots(slots: Seq<bool>, slab: usize, ptr: usize, old_size: usize, size: usize) -> Seq<bool> {
    let base = (ptr - slab) / 8;
    if size > old_size && granularity_spec(old_size) < size && all_free(
        slots,
        base + count_spec(old_size),
        base + count_spec(size),
    ) {
        with_range(slots, base + count_spec(old_size), count_spec(size) - count_spec(old_size), true)
    } else if size <= old_size && granularity_spec(old_size) > size {
        with_range(slots, base + count_spec(size), count_spec(old_size) - count_spec(size), false)
    } else {
        slots
    }
}

/// What growing the allocation of `old_size` bytes at `ptr` to `size` bytes returns, and the
/// slots it leaves.
pub open spec fn grow_result(slots: Seq<bool>, slab: usize, ptr: usize, old_size: usize, size: usize) -> (Result<(), MemoryError>, Seq<bool>) {
    let base = (ptr - slab) / 8;
    if granularity_spec(old_size) >= size {
        (Ok(()), slots)
    } else if all_free(slots, base + count_spec(old_size), base + count_spec(size)) {
        (Ok(()), with_range(slots, base + count_spec(old_size), count_spec(size) - count_spec(old_size), true))
    } else {
        (Err(MemoryError::OutOfSpace), slots)
    }
}

/// A scan settles only on a slot of the slab.
pub proof fn lemma_scan_in_slab(bits: Seq<bool>, count: int, to: usize, position: int, base: int)
    requires
        0 <= base,
        scan(bits, count, to, position, base) is Some,
    ensures
        0 <= scan(bits, count, to, position, base)->0 < RESERVE_SLOTS,
    decreases RESERVE_SLOTS - position,
{
    if position < 0 || position >= RESERVE_SLOTS {
    } else if bits[position] {
        lemma_scan_in_slab(bits, count, to, position + 1, align_spec(position as usize, to) as int);
    } else if base < position && position - base >= count {
    } else {
        lemma_scan_in_slab(bits, count, to, position + 1, base);
    }
}

/// Releasing an allocation gives back the slots as they were before it, when the slots it
/// took were all free.
pub proof fn lemma_release_undoes_allocate(bits: Seq<bool>, size: usize, align: usize)
    requires
        bits.len() == RESERVE_SLOTS,
        scan(bits, count_spec(size), slot_align(align), 0, 0) is Some,
        all_free(
            bits,
            scan(bits, count_spec(size), slot_align(align), 0, 0)->0,
            scan(bits, count_spec(size), slot_align(align), 0, 0)->0 + count_spec(size),
        ),
    ensures
        ({
            let b = scan(bits, count_spec(size), slot_align(align), 0, 0)->0;
            with_range(with_range(bits, b, count_spec(size), true), b, count_spec(size), false) == bits
        }),
{
    let b = scan(bits, count_spec(size), slot_align(align), 0, 0)->0;
    let c = count_spec(size);
    let once = with_range(bits, b, c, true);
    assert forall|p: int| 0 <= p < bits.len() implies #[trigger] with_range(once, b, c, false)[p] == bits[p] by {
        if b <= p < b + c {
            assert(!bits[p]);
        }
    }
    assert(with_range(once, b, c, false) =~= bits);
}

impl Reserve {
    /// Allocate room for `size` bytes aligned to `align` (see `scan`); give back its address.
    pub fn allocate(&mut self, size: usize, align: usize) -> (r: Result<usize, MemoryError>)
        requires
            old(self).wf(),
            size + 7 <= usize::MAX,
        ensures
            (r, final(self).slots_view()) == allocate_result(old(self).slots_view(), old(self).slab_view(), size, align),
            final(self).wf(),
            final(self).slab_view() == old(self).slab_view(),
            final(self).hint_view() == old(self).hint_view(),
            r matches Ok(p) ==> final(self).slab_view() <= p < final(self).slab_view() + 8 * RESERVE_SLOTS,
            match scan(old(self).slots_view(), count_spec(size), slot_align(align), 0, 0) {
                Some(b) => {
                    &&& r == Ok::<usize, MemoryError>((old(self).slab_view() + 8 * b) as usize)
                    &&& 0 <= b < RESERVE_SLOTS
                    &&& final(self).slots_view() == with_range(
                        old(self).slots_view(),
                        b,
                        count_spec(size),
                        true,
                    )
                },
                None => {
                    &&& r == Err::<usize, MemoryError>(MemoryError::OutOfMemory)
                    &&& final(self).slots_view() == old(self).slots_view()
                },
            },
    {
        let count = get_count(size);
        let shifted = align >> 3;
        proof {
            lemma_slot_index(align);
        }
        let to = if shifted > 1 {
            shifted
        } else {
            1
        };
        let ghost bits = self.slots_view();
        let mut base: usize = 0;
        let mut position: usize = 0;
        while position < RESERVE_SLOTS
            invariant
                self.wf(),
                self.slab == old(self).slab,
                self.hint == old(self).hint,
                self.slots_view() == bits,
                bits == old(self).slots_view(),
                0 <= position <= RESERVE_SLOTS,
                count == count_spec(size),
                to == slot_align(align),
                to <= usize::MAX / 8,
                scan(bits, count as int, to, 0, 0) == scan(bits, count as int, to, position as int, base as int),
            decreases RESERVE_SLOTS - position,
        {
            let allocated = self.is_allocated(position);
            match allocated {
                Ok(true) => {
                    base = crate::kernel_constants::align(position, to);
                },
                Ok(false) => {
                    if base < position && position - base >= count {
                        proof {
                            lemma_scan_in_slab(bits, count as int, to, 0, 0);
                        }
                        self.set_allocated(base, count);
                        return Ok(self.slab + base * 8);
                    }
                },
                Err(e) => {
                    return Err(e);
                },
            }
            position = position + 1;
        }
        Err(MemoryError::OutOfMemory)
    }

    /// Free the slots of an allocation of `size` bytes at `ptr`.
    pub fn release(&mut self, ptr: usize, size: usize, align: usize) -> (r: Result<usize, MemoryError>)
        requires
            old(self).wf(),
            size + 7 <= usize::MAX,
            ptr >= old(self).slab_view(),
            (ptr - old(self).slab_view()) / 8 + count_spec(size) <= RESERVE_SLOTS,
        ensures
            final(self).wf(),
            final(self).slab_view() == old(self).slab_view(),
            final(self).hint_view() == old(self).hint_view(),
            r == Ok::<usize, MemoryError>(size),
            final(self).slots_view() == with_range(
                old(self).slots_view(),
                (ptr - old(self).slab_view()) / 8,
                count_spec(size),
                false,
            ),
    {
        let count = get_count(size);
        let base = self.get_position(ptr);
        self.set_unallocated(base, count);
        Ok(size)
    }

    /// Free the slots an allocation no longer needs after shrinking from `old_size` to `size`
    /// bytes; nothing to do when the rounded old size already fits.
    pub fn shrink(&mut self, ptr: usize, old_size: usize, size: usize, align: usize) -> (r: Result<(), MemoryError>)
        requires
            old(self).wf(),
            old_size + 7 <= usize::MAX,
            size + 7 <= usize::MAX,
            ptr >= old(self).slab_view(),
            granularity_spec(old_size) > size ==> (ptr - old(self).slab_view()) / 8 + count_spec(old_size)
                <= RESERVE_SLOTS,
        ensures
            final(self).slots_view() == shrink_result(old(self).slots_view(), old(self).slab_view(), ptr, old_size, size),
            final(self).wf(),
            final(self).slab_view() == old(self).slab_view(),
            final(self).hint_view() == old(self).hint_view(),
            r is Ok,
            granularity_spec(old_size) <= size ==> final(self).slots_view() == old(self).slots_view(),
            granularity_spec(old_size) > size ==> final(self).slots_view() == with_range(
                old(self).slots_view(),
                (ptr - old(self).slab_view()) / 8 + count_spec(size),
                count_spec(old_size) - count_spec(size),
                false,
            ),
    {
        if granularity(old_size, align) <= size {
            return Ok(());
        }
        let base = self.get_position(ptr);
        let old_count = get_count(old_size);
        let count = get_count(size);
        self.set_unallocated(base + count, old_count - count);
        Ok(())
    }

    /// Whether the slots `[base + old_count, base + count)` are all free slots of the slab.
    pub fn can_grow_inplace(&self, base: usize, old_count: usize, count: usize) -> (r: bool)
        requires
            self.wf(),
            base + count <= usize::MAX,
            base + old_count <= usize::MAX,
        ensures
            r == all_free(self.slots_view(), base + old_count, base + count),
    {
        let mut position = base + old_count;
        while position < base + count
            invariant
                self.wf(),
                base + old_count <= position,
                position <= base + count || position == base + old_count,
                base + count <= usize::MAX,
                all_free(self.slots_view(), base + old_count, position as int),
            decreases base + count - position,
        {
            let allocated = self.is_allocated(position);
            let taken = match allocated {
                Ok(b) => b,
                Err(_) => true,
            };
            if taken {
                proof {
                    let p = position as int;
                    assert(!(p < RESERVE_SLOTS && !self.slots_view()[p]));
                    let lo = base + old_count;
                    let hi = base + count;
                    assert(lo <= p < hi);
                    if all_free(self.slots_view(), lo, hi) {
                        lemma_all_free(self.slots_view(), lo, hi, p);
                    }
                }
                return false;
            }
            proof {
                assert(all_free(self.slots_view(), base + old_count, position + 1));
            }
            position = position + 1;
        }
        proof {
            let lo = base + old_count;
            let hi = base + count;
            assert forall|p: int| lo <= p < hi implies p < RESERVE_SLOTS
                && !#[trigger] self.slots_view()[p] by {
                assert(p < position);
                lemma_all_free(self.slots_view(), lo, position as int, p);
            }
        }
        true
    }

    /// Take the slots after an allocation to grow it from `old_size` to `size` bytes; nothing
    /// to do when the rounded old size already holds `size`; `OutOfSpace` when a slot is taken
    /// or past the slab.
    pub fn grow(&mut self, ptr: usize, old_size: usize, size: usize, align: usize) -> (r: Result<(), MemoryError>)
        requires
            old(self).wf(),
            old_size + 7 <= usize::MAX,
            size + 7 <= usize::MAX,
            ptr >= old(self).slab_view(),
            (ptr - old(self).slab_view()) / 8 + count_spec(size) <= usize::MAX,
        ensures
            (r, final(self).slots_view()) == grow_result(old(self).slots_view(), old(self).slab_view(), ptr, old_size, size),
            final(self).wf(),
            final(self).slab_view() == old(self).slab_view(),
            final(self).hint_view() == old(self).hint_view(),
            ({
                let base = (ptr - old(self).slab_view()) / 8;
                let free = all_free(
                    old(self).slots_view(),
                    base + count_spec(old_size),
                    base + count_spec(size),
                );
                &&& granularity_spec(old_size) >= size ==> r is Ok && final(self).slots_view()
                    == old(self).slots_view()
                &&& granularity_spec(old_size) < size && free ==> r is Ok && final(self).slots_view()
                    == with_range(
                    old(self).slots_view(),
                    base + count_spec(old_size),
                    count_spec(size) - count_spec(old_size),
                    true,
                )
                &&& granularity_spec(old_size) < size && !free ==> r == Err::<(), MemoryError>(
                    MemoryError::OutOfSpace,
                ) && final(self).slots_view() == old(self).slots_view()
            }),
    {
        if granularity(old_size, align) >= size {
            return Ok(());
        }
        let base = self.get_position(ptr);
        let old_count = get_count(old_size);
        let count = get_count(size);
        if self.can_grow_inplace(base, old_count, count) {
            proof {
                let p = base + count - 1;
                assert(base + old_count <= p < base + count);
                lemma_all_free(self.slots_view(), base + old_count, base + count, p);
            }
            self.set_allocated(base + old_count, count - old_count);
            Ok(())
        } else {
            Err(MemoryError::OutOfSpace)
        }
    }

    /// Resize an allocation in place: grow it when it gets larger and the slots after it are
    /// free, else shrink it, which always succeeds, so the allocation stays at `ptr`.
    pub fn resize(&mut self, ptr: usize, old_size: usize, size: usize, align: usize) -> (r: Result<usize, MemoryError>)
        requires
            old(self).wf(),
            old_size + 7 <= usize::MAX,
            size + 7 <= usize::MAX,
            ptr >= old(self).slab_view(),
            (ptr - old(self).slab_view()) / 8 + count_spec(size) <= usize::MAX,
            granularity_spec(old_size) > size ==> (ptr - old(self).slab_view()) / 8 + count_spec(old_size)
                <= RESERVE_SLOTS,
        ensures
            final(self).slots_view() == resize_slots(old(self).slots_view(), old(self).slab_view(), ptr, old_size, size),
            final(self).hint_view() == old(self).hint_view(),
            final(self).wf(),
            r == Ok::<usize, MemoryError>(ptr),
            final(self).slab_view() == old(self).slab_view(),
            ({
                let base = (ptr - old(self).slab_view()) / 8;
                let free = all_free(
                    old(self).slots_view(),
                    base + count_spec(old_size),
                    base + count_spec(size),
                );
                &&& size > old_size && granularity_spec(old_size) < size && free ==> final(self).slots_view()
                    == with_range(
                    old(self).slots_view(),
                    base + count_spec(old_size),
                    count_spec(size) - count_spec(old_size),
                    true,
                )
                &&& size <= old_size && granularity_spec(old_size) > size ==> final(self).slots_view()
                    == with_range(
                    old(self).slots_view(),
                    base + count_spec(size),
                    count_spec(old_size) - count_spec(size),
                    false,
                )
                &&& !(size > old_size && granularity_spec(old_size) < size && free) && !(size
                    <= old_size && granularity_spec(old_size) > size) ==> final(self).slots_view()
                    == old(self).slots_view()
            }),
    {
        if size > old_size && self.grow(ptr, old_size, size, align).is_ok() {
            return Ok(ptr);
        } else if self.shrink(ptr, old_size, size, align).is_ok() {
            return Ok(ptr);
        }
        let base = self.get_position(ptr);
        let old_count = get_count(old_size);
        self.set_unallocated(base, old_count);
        match self.allocate(size, align) {
            Ok(new_ptr) => Ok(new_ptr),
            Err(_) => {
                self.set_allocated(base, old_count);
                Err(MemoryError::OutOfMemory)
            },
        }
    }
}

/// Slots needed for `size` bytes.
pub fn get_count(size: usize) -> (r: usize)
    requires
        size + 7 <= usize::MAX,
    ensures
        r == count_spec(size),
{
    proof {
        lemma_slot_index((size + 7) as usize);
    }
    (size + 7) >> 3
}

/// The bytes an allocation of `size` really takes: rounded up to whole slots.
pub fn granularity(size: usize, align: usize) -> (r: usize)
    requires
        size + 7 <= usize::MAX,
    ensures
        r == granularity_spec(size),
        size <= r,
{
    ((size + 7) / 8) * 8
}

} // verus!
verus! {
proof fn lemma_all_free(bits: Seq<bool>, lo: int, hi: int, p: int)
    requires
        all_free(bits, lo, hi),
        lo <= p < hi,
    ensures
        p < RESERVE_SLOTS,
        !bits[p],
{
    let _ = bits[p];
}
}
