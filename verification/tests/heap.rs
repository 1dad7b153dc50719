use kernel_std::memory::simple::Manager;
use kernel_std::memory::MemoryError;

#[test]
fn heap_register_needs_room_for_a_header() {
    let mut heap = Manager::new();
    assert_eq!(heap.register(0x1000, 16), Err(MemoryError::TinyBlock));
    assert_eq!(heap.register(0x1000, 0x1000), Ok(0x1000));
    // overlapping memory finds no place
    assert_eq!(heap.register(0x1800, 0x100), Err(MemoryError::NoPlace));
}

#[test]
fn heap_allocates_in_order_and_aligns() {
    let mut heap = Manager::new();
    heap.register(0x1000, 0x1000).unwrap();
    assert_eq!(heap.allocate(0x100, 8), Ok(0x1000));
    // small requests take the granularity of 32 bytes
    assert_eq!(heap.allocate(0x10, 8), Ok(0x1100));
    // alignment rounds the block's address up; the block is split around the allocation
    assert_eq!(heap.allocate(0x100, 0x100), Ok(0x1200));
    // neither the part before (0x1120..0x1200) nor the part after (0x1300..0x2000) holds this
    assert_eq!(heap.allocate(0x1000, 8), Err(MemoryError::OutOfMemory));
    // the part before still serves small requests
    assert_eq!(heap.allocate(0x40, 8), Ok(0x1120));
}

#[test]
fn heap_release_then_allocate_reuses_memory() {
    let mut heap = Manager::new();
    heap.register(0x1000, 0x1000).unwrap();
    assert_eq!(heap.allocate(0x100, 8), Ok(0x1000));
    assert_eq!(heap.allocate(0x10, 8), Ok(0x1100));
    assert_eq!(heap.release(0x1000, 0x100, 8), Ok(0x100));
    assert_eq!(heap.allocate(0x100, 8), Ok(0x1000));
    assert_eq!(heap.allocate(0x100, 8), Ok(0x1120));
}

#[test]
fn heap_register_joins_neighbours() {
    let mut heap = Manager::new();
    heap.register(0x1000, 0x1000).unwrap();
    heap.register(0x3000, 0x1000).unwrap();
    assert_eq!(heap.register(0x2000, 0x1000), Ok(0x1000));
    // one block now spans 0x1000..0x4000
    assert_eq!(heap.allocate(0x2800, 8), Ok(0x1000));
    assert_eq!(heap.allocate(0x7e0, 8), Ok(0x3800));
}

#[test]
fn heap_forget_trims_blocks() {
    let mut heap = Manager::new();
    heap.register(0x1000, 0x1000).unwrap();
    heap.register(0x3000, 0x1000).unwrap();
    // the first block loses its tail (0x800 bytes), the second its front up to 0x3800
    // (counted from its base at 0x3020)
    assert_eq!(heap.forget(0x1800, 0x2000), Ok(0xfe0));
    assert_eq!(heap.allocate(0x800, 8), Ok(0x1000));
    assert_eq!(heap.allocate(0x100, 8), Ok(0x3800));
}

#[test]
fn heap_forget_inside_a_block_splits_it() {
    let mut heap = Manager::new();
    heap.register(0x1000, 0x1000).unwrap();
    assert_eq!(heap.forget(0x1400, 0x100), Ok(0x100));
    assert_eq!(heap.allocate(0x300, 8), Ok(0x1000));
    assert_eq!(heap.allocate(0x100, 8), Ok(0x1300));
    // 0x1400..0x1500 is gone; the next block starts at 0x1500
    assert_eq!(heap.allocate(0x100, 8), Ok(0x1500));
}

#[test]
fn heap_forgotten_memory_is_never_handed_out() {
    let mut heap = Manager::new();
    heap.register(0x1000, 0x1000).unwrap();
    heap.register(0x3000, 0x1000).unwrap();
    assert_eq!(heap.forget(0x1800, 0x2000), Ok(0xfe0));
    let mut handed_out = Vec::new();
    while let Ok(p) = heap.allocate(0x100, 8) {
        // nothing of 0x1800..0x3800 comes back
        assert!(p + 0x100 <= 0x1800 || p >= 0x3800, "0x{:x} overlaps forgotten memory", p);
        handed_out.push(p);
    }
    assert_eq!(handed_out.len(), 16);
    assert_eq!(handed_out[0], 0x1000);
    assert_eq!(handed_out[8], 0x3800);
}

#[test]
fn heap_forget_over_the_first_block_leaves_it_listed() {
    let mut heap = Manager::new();
    heap.register(0x1000, 0x1000).unwrap();
    // the whole first block is forgotten, but the list still starts at its header
    assert_eq!(heap.forget(0x1000, 0x1000), Ok(0xfe0));
    assert_eq!(heap.allocate(0x100, 8), Ok(0x1000));
}

#[test]
fn heap_forget_errors() {
    let mut heap = Manager::new();
    assert_eq!(heap.forget(0x1000, 0x100), Err(MemoryError::OutOfMemory));
    heap.register(0x1000, 0x1000).unwrap();
    assert_eq!(heap.forget(0x1000, 0), Err(MemoryError::TinyBlock));
    assert_eq!(heap.forget(0x5000, 0x100), Err(MemoryError::NoPlace));
}

#[test]
fn heap_grows_in_place() {
    let mut heap = Manager::new();
    heap.register(0x1000, 0x1000).unwrap();
    assert_eq!(heap.allocate(0x100, 8), Ok(0x1000));
    assert_eq!(heap.grow(0x1000, 0x100, 0x80, 8), Ok(()));
    assert_eq!(heap.grow(0x1000, 0x100, 0x200, 8), Ok(()));
    // the grown allocation's bytes are taken: the next allocation starts after them
    assert_eq!(heap.allocate(0x100, 8), Ok(0x1200));
    assert_eq!(heap.grow(0x1200, 0x100, 0x2000, 8), Err(MemoryError::OutOfSpace));
}

#[test]
fn heap_shrink_that_keeps_the_size() {
    let mut heap = Manager::new();
    heap.register(0x1000, 0x1000).unwrap();
    assert_eq!(heap.shrink(0x1000, 0x20, 0x10, 8), Ok(()));
}

#[test]
fn heap_resize_in_place_and_moved() {
    let mut heap = Manager::new();
    heap.register(0x1000, 0x1000).unwrap();
    assert_eq!(heap.allocate(0x40, 8), Ok(0x1000));
    // same size: nothing to do
    assert_eq!(heap.resize(0x1000, 0x40, 0x40, 8), Ok(0x1000));
    // grows into the free block right after it
    assert_eq!(heap.resize(0x1000, 0x40, 0x100, 8), Ok(0x1000));
    assert_eq!(heap.allocate(0x40, 8), Ok(0x1100));
    // cannot grow in place (0x1100 is taken): moves to the next place that fits
    assert_eq!(heap.resize(0x1000, 0x100, 0x200, 8), Ok(0x1140));
    // the old place went back in front of the list, but the header after it kept no link
    // back to it, so taking that next block made the list start after it
    assert_eq!(heap.allocate(0x100, 8), Ok(0x1340));
}

#[test]
fn heap_resize_that_fails_takes_the_memory_back() {
    let mut heap = Manager::new();
    heap.register(0x1000, 0x200).unwrap();
    assert_eq!(heap.allocate(0x40, 8), Ok(0x1000));
    assert_eq!(heap.allocate(0x40, 8), Ok(0x1040));
    assert_eq!(heap.release(0x1000, 0x40, 8), Ok(0x40));
    assert_eq!(heap.resize(0x1040, 0x40, 0x1000, 8), Err(MemoryError::OutOfMemory));
    // 0x1040..0x1080 is still allocated; the memory around it is free
    assert_eq!(heap.allocate(0x40, 8), Ok(0x1000));
    assert_eq!(heap.allocate(0x40, 8), Ok(0x1080));
}

#[test]
fn heap_registered_memory_can_be_allocated_whole() {
    let mut heap = Manager::new();
    assert_eq!(heap.register(0x4000, 0x1000), Ok(0x1000));
    assert_eq!(heap.allocate(0x1000, 8), Ok(0x4000));
    // nothing is left
    assert_eq!(heap.allocate(0x20, 8), Err(MemoryError::OutOfMemory));
}

#[test]
fn heap_allocations_do_not_overlap() {
    let mut heap = Manager::new();
    heap.register(0x1000, 0x400).unwrap();
    let mut taken: Vec<(usize, usize)> = Vec::new();
    while let Ok(p) = heap.allocate(0x60, 0x20) {
        for &(q, size) in taken.iter() {
            assert!(p + 0x60 <= q || q + size <= p);
        }
        assert!(p >= 0x1000 && p + 0x60 <= 0x1400);
        assert_eq!(p % 0x20, 0);
        taken.push((p, 0x60));
    }
    assert!(!taken.is_empty());
}

#[test]
fn heap_grow_using_up_the_first_block_leaves_it_listed() {
    let mut heap = Manager::new();
    heap.register(0x1000, 0x1000).unwrap();
    assert_eq!(heap.allocate(0x100, 8), Ok(0x1000));
    // the allocation grows over the whole first free block...
    assert_eq!(heap.grow(0x1000, 0x100, 0x1000, 8), Ok(()));
    // ...but the list still starts at that block, which is handed out again
    assert_eq!(heap.allocate(0x100, 8), Ok(0x1100));
}
