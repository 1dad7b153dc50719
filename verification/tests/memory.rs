use kernel_std::memory::reserve::{get_count, granularity, Reserve};
use kernel_std::memory::{
    disable, enable, enter_reserved, exit_reserved, is_enabled, Manager, MemoryError,
};

#[test]
fn error_descriptions() {
    assert_eq!(MemoryError::OutOfMemory.description(), "Out of memory");
    assert_eq!(MemoryError::OutOfSpace.description(), "In-place realloc ran out of space");
    assert_eq!(MemoryError::Disabled.description(), "Memory disabled");
    assert_eq!(MemoryError::EmptyAllocation.description(), "Empty allocation");
    assert_eq!(MemoryError::TinyBlock.description(), "Block was too small");
    assert_eq!(MemoryError::NoPlace.description(), "Could not place memory region");
    assert_eq!(MemoryError::Overlap.description(), "Overlap in memory region");
}

#[test]
fn manager_switches() {
    let mut memory = Manager::new();
    assert!(!is_enabled(&memory));
    assert_eq!(memory.enabled(), Err(MemoryError::Disabled));
    enable(&mut memory);
    assert!(is_enabled(&memory));
    assert_eq!(memory.enabled(), Ok(()));
    assert!(exit_reserved(&mut memory));
    assert!(!exit_reserved(&mut memory));
    assert_eq!(kernel_std::memory::granularity(&memory, 5, 8), 32);
    assert!(!enter_reserved(&mut memory));
    assert_eq!(kernel_std::memory::granularity(&memory, 5, 8), 8);
    disable(&mut memory);
    assert!(!is_enabled(&memory));
}

#[test]
fn granularities() {
    assert_eq!(granularity(0, 8), 0);
    assert_eq!(granularity(1, 8), 8);
    assert_eq!(granularity(8, 8), 8);
    assert_eq!(granularity(9, 1), 16);
    assert_eq!(get_count(17), 3);
    assert_eq!(kernel_std::memory::simple::granularity(31, 8), 32);
    assert_eq!(kernel_std::memory::simple::granularity(33, 8), 33);
}

#[test]
fn reserve_allocates_and_releases() {
    let slab = 0x10000usize;
    let mut reserve = Reserve::new(slab);
    assert_eq!(reserve.hint(), 0x8000);
    assert!(reserve.belongs(slab));
    assert!(reserve.belongs(slab + 0x7fff));
    assert!(!reserve.belongs(slab + 0x8000));
    assert!(!reserve.belongs(slab - 1));
    // a free slot needs a free slot after it to be taken
    let first = reserve.allocate(16, 8).unwrap();
    assert_eq!(first, slab);
    assert_eq!(reserve.is_allocated(0), Ok(true));
    assert_eq!(reserve.is_allocated(1), Ok(true));
    assert_eq!(reserve.is_allocated(2), Ok(false));
    assert_eq!(reserve.is_allocated(0x1000), Err(MemoryError::OutOfMemory));
    assert_eq!(reserve.get_position(slab + 0x18), 3);
    assert_eq!(reserve.release(first, 16, 8), Ok(16));
    assert_eq!(reserve.is_allocated(0), Ok(false));
    assert_eq!(reserve.is_allocated(1), Ok(false));
}

#[test]
fn reserve_grows_and_shrinks_in_place() {
    let slab = 0x20000usize;
    let mut reserve = Reserve::new(slab);
    reserve.set_allocated(4, 2);
    assert!(reserve.can_grow_inplace(4, 2, 4));
    assert_eq!(reserve.grow(slab + 32, 16, 32, 8), Ok(()));
    assert_eq!(reserve.is_allocated(7), Ok(true));
    assert_eq!(reserve.is_allocated(8), Ok(false));
    // a taken slot stops growth
    reserve.set_allocated(9, 1);
    assert_eq!(reserve.grow(slab + 32, 32, 48, 8), Err(MemoryError::OutOfSpace));
    assert_eq!(reserve.is_allocated(8), Ok(false));
    assert_eq!(reserve.shrink(slab + 32, 32, 8, 8), Ok(()));
    assert_eq!(reserve.is_allocated(4), Ok(true));
    assert_eq!(reserve.is_allocated(5), Ok(false));
    reserve.set_unallocated(4, 1);
    assert_eq!(reserve.is_allocated(4), Ok(false));
    // resizing always keeps the allocation where it is
    assert_eq!(reserve.resize(slab + 80, 8, 64, 8), Ok(slab + 80));
}

#[test]
fn memory_routes_to_the_allocator_in_use() {
    let mut memory = Manager::new();
    let slab = 0x10000usize;
    let mut reserve = Reserve::new(slab);
    let mut heap = kernel_std::memory::free_list::Manager::new();
    // nothing while memory is disabled
    assert_eq!(kernel_std::memory::register(&memory, &mut heap, 0x100000, 0x1000), Err(MemoryError::Disabled));
    assert_eq!(
        kernel_std::memory::allocate(&memory, &mut reserve, &mut heap, 16, 8),
        Err(MemoryError::Disabled)
    );
    enable(&mut memory);
    assert_eq!(kernel_std::memory::register(&memory, &mut heap, 0x100000, 0x1000), Ok(0x1000));
    assert_eq!(
        kernel_std::memory::allocate(&memory, &mut reserve, &mut heap, 0, 8),
        Err(MemoryError::EmptyAllocation)
    );
    // the reserve slab is in use first
    assert_eq!(kernel_std::memory::allocate(&memory, &mut reserve, &mut heap, 16, 8), Ok(slab));
    assert_eq!(kernel_std::memory::hint(&memory, &reserve, &heap), 0x8000);
    assert!(exit_reserved(&mut memory));
    assert_eq!(kernel_std::memory::allocate(&memory, &mut reserve, &mut heap, 0x100, 8), Ok(0x100000));
    assert_eq!(kernel_std::memory::hint(&memory, &reserve, &heap), 0xe00);
    // giving back goes to where the memory lies
    assert_eq!(kernel_std::memory::release(&memory, &mut reserve, &mut heap, slab, 16, 8), Ok(16));
    assert_eq!(reserve.is_allocated(0), Ok(false));
    assert_eq!(
        kernel_std::memory::release(&memory, &mut reserve, &mut heap, 0, 16, 8),
        Err(MemoryError::EmptyAllocation)
    );
    assert_eq!(kernel_std::memory::release(&memory, &mut reserve, &mut heap, 0x100000, 0x100, 8), Ok(0x100));
    assert_eq!(kernel_std::memory::allocate(&memory, &mut reserve, &mut heap, 0x100, 8), Ok(0x100000));
    // in-place changes in the slab
    assert_eq!(kernel_std::memory::resize(&memory, &mut reserve, &mut heap, slab + 80, 8, 64, 8), Ok(slab + 80));
    assert_eq!(kernel_std::memory::shrink(&memory, &mut reserve, &mut heap, slab + 80, 64, 8, 8), Ok(()));
    assert_eq!(kernel_std::memory::grow(&memory, &mut reserve, &mut heap, slab + 80, 8, 16, 8), Ok(()));
    assert_eq!(kernel_std::memory::forget(&memory, &mut heap, 0x1000, 0x10), Err(MemoryError::NoPlace));
}

#[test]
fn copy_kept_moves_the_smaller_size_even_when_overlapping() {
    let mut bytes: Vec<u8> = (0u8..16).collect();
    // four bytes kept (new size smaller), moved two places up over themselves
    kernel_std::memory::copy_kept(&mut bytes, 2, 4, 8, 4);
    assert_eq!(bytes, vec![0, 1, 2, 3, 2, 3, 4, 5, 8, 9, 10, 11, 12, 13, 14, 15]);
    let mut down: Vec<u8> = (0u8..8).collect();
    kernel_std::memory::copy_kept(&mut down, 3, 1, 3, 5);
    assert_eq!(down, vec![0, 3, 4, 5, 4, 5, 6, 7]);
}

#[test]
fn reserve_allocations_lie_in_the_slab() {
    let slab = 0x40000usize;
    let mut reserve = Reserve::new(slab);
    let first = reserve.allocate(8, 8).unwrap();
    assert_eq!(first, slab);
    assert!(reserve.belongs(first));
    // an allocated slot sets the candidate back to its own aligned position, so the scan
    // settles on the first slot again
    let second = reserve.allocate(24, 16).unwrap();
    assert_eq!(second, slab);
    assert!(reserve.belongs(second));
}
