use kernel_std::memory::free_list::Manager;
use kernel_std::memory::MemoryError;

#[test]
fn free_list_allocates_and_counts_twice() {
    let mut heap = Manager::new();
    assert_eq!(heap.register(0x1000, 0x1000), Ok(0x1000));
    assert_eq!(heap.hint(), 0x1000);
    assert_eq!(heap.allocate(0x100, 8), Ok(0x1000));
    // the hint drops by the size before forgetting, and again while forgetting
    assert_eq!(heap.hint(), 0xe00);
    assert_eq!(heap.allocate(0x100, 8), Ok(0x1100));
    assert_eq!(heap.hint(), 0xc00);
}

#[test]
fn free_list_release_then_allocate() {
    let mut heap = Manager::new();
    heap.register(0x1000, 0x1000).unwrap();
    assert_eq!(heap.allocate(0x100, 8), Ok(0x1000));
    assert_eq!(heap.allocate(0x100, 8), Ok(0x1100));
    assert_eq!(heap.release(0x1000, 0x100, 8), Ok(0x100));
    // registering raises the hint, and releasing raises it again
    assert_eq!(heap.hint(), 0xe00);
    assert_eq!(heap.allocate(0x100, 8), Ok(0x1000));
    assert_eq!(heap.allocate(0x100, 8), Ok(0x1200));
}

#[test]
fn free_list_forget_on_empty_heap() {
    let mut heap = Manager::new();
    assert_eq!(heap.forget(0x1000, 0x10), Err(MemoryError::NoPlace));
}

#[test]
fn free_list_grow_needs_a_block_at_the_allocation() {
    let mut heap = Manager::new();
    heap.register(0x1000, 0x1000).unwrap();
    // a block starts at 0x1000 and reaches past 0x1200: its bytes 0x1100..0x1200 are taken
    assert_eq!(heap.grow(0x1000, 0x100, 0x200, 8), Ok(()));
    assert_eq!(heap.hint(), 0xf00);
    assert_eq!(heap.allocate(0x200, 8), Ok(0x1200));

    let mut heap = Manager::new();
    heap.register(0x1000, 0x1000).unwrap();
    assert_eq!(heap.allocate(0x100, 8), Ok(0x1000));
    // the allocation itself is no free block, so it cannot grow
    assert_eq!(heap.grow(0x1000, 0x100, 0x200, 8), Err(MemoryError::OutOfSpace));
}

#[test]
fn free_list_shrink_that_keeps_the_size() {
    let mut heap = Manager::new();
    assert_eq!(heap.shrink(0x1000, 0x20, 0x10, 8), Ok(()));
}

#[test]
fn free_list_resize_moves() {
    let mut heap = Manager::new();
    heap.register(0x1000, 0x1000).unwrap();
    assert_eq!(heap.allocate(0x40, 8), Ok(0x1000));
    assert_eq!(heap.resize(0x1000, 0x40, 0x40, 8), Ok(0x1000));
    assert_eq!(heap.resize(0x1000, 0x40, 0x100, 8), Ok(0x1040));
    // the old place is free again
    assert_eq!(heap.allocate(0x40, 8), Ok(0x1000));
}

#[test]
fn free_list_resize_that_fails_gives_back_the_tail() {
    let mut heap = Manager::new();
    heap.register(0x1008, 0x100).unwrap();
    assert_eq!(heap.allocate(0x40, 8), Ok(0x1008));
    assert_eq!(heap.hint(), 0x80);
    // no block can be aligned to 0x10000: the allocation is given back, then its tail past the
    // new size is registered once more
    assert_eq!(heap.resize(0x1008, 0x40, 0x20, 0x10000), Err(MemoryError::OutOfMemory));
    assert_eq!(heap.hint(), 0x120);
}

#[test]
fn free_list_register_keeps_address_order() {
    let mut heap = Manager::new();
    // registered out of order, the blocks are kept in address order: the lowest fits first
    heap.register(0x3000, 0x100).unwrap();
    heap.register(0x1000, 0x100).unwrap();
    heap.register(0x2000, 0x100).unwrap();
    assert_eq!(heap.hint(), 0x300);
    assert_eq!(heap.allocate(0x80, 8), Ok(0x1000));
    // the rest of the lowest block is too small; the next in address order serves
    assert_eq!(heap.allocate(0x100, 8), Ok(0x2000));
}

#[test]
fn free_list_allocate_takes_exactly_the_allocation() {
    let mut heap = Manager::new();
    heap.register(0x1000, 0x1000).unwrap();
    // from the front of the block
    assert_eq!(heap.allocate(0x100, 0x100), Ok(0x1000));
    // aligned past the block's header: the block keeps 0x1100..0x1200, a new one 0x1300..0x2000
    assert_eq!(heap.allocate(0x100, 0x200), Ok(0x1200));
    assert_eq!(heap.allocate(0x100, 8), Ok(0x1100));
    assert_eq!(heap.allocate(0x100, 8), Ok(0x1300));
    assert_eq!(heap.hint(), 0x800);
}

#[test]
fn free_list_forget_inside_a_block_takes_exactly_it() {
    let mut heap = Manager::new();
    heap.register(0x1000, 0x1000).unwrap();
    assert_eq!(heap.forget(0x1400, 0x100), Ok(0x100));
    assert_eq!(heap.hint(), 0xf00);
    // 0x1000..0x1400 is left before the memory, 0x1500..0x2000 after it
    assert_eq!(heap.allocate(0x400, 8), Ok(0x1000));
    assert_eq!(heap.allocate(0x100, 8), Ok(0x1500));
}
