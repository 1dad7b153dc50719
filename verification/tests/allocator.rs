use kernel_std::region::{Allocator, Region};

#[test]
fn test_allocate() {
    let mut allocator = Allocator::new();

    assert!(allocator.register(Region::new(0x200000, 0x200000)));
    assert!(allocator.allocate(0x1000, 0x1000).is_some());
    assert!(allocator.allocate(0x1000, 0x1000).is_some());
}

#[test]
fn allocator_test_allocator_limit() {
    let mut allocator = Allocator::new();

    assert!(allocator.register(Region::new(0xfffffff810000000, 0x7e0000000)));
}

#[test]
fn test_multiple_overlap() {
    let mut allocator = Allocator::new();

    assert!(allocator.register(Region::new(0x0, 0x1000)));
    assert!(allocator.register(Region::new(0x2000, 0x1000)));
    assert!(allocator.register(Region::new(0x4000, 0x1000)));
    assert!(allocator.register(Region::new(0x6000, 0x1000)));
    assert!(allocator.register(Region::new(0x8000, 0x1000)));

    assert!(allocator.forget(Region::new(0x0, 0x10000)));

    assert!(allocator.allocate(0x1, 0x1).is_none());
}

#[test]
fn test_allocator() {
    let mut allocator = Allocator::new();

    assert!(allocator.register(Region::new(0x200000, 0x200000)));
    assert!(allocator.allocate(0x1000, 0x1000).is_some());
}

#[test]
fn allocate_takes_lowest_fit_and_aligns() {
    let mut allocator = Allocator::new();
    assert!(allocator.register(Region::new(0x1800, 0x3000)));
    assert!(allocator.register(Region::new(0x10000, 0x1000)));
    let first = allocator.allocate(0x1000, 0x1000).unwrap();
    assert_eq!(first.base(), 0x2000);
    assert_eq!(first.size(), 0x1000);
    // used memory cannot be registered as free again
    assert!(!allocator.register(Region::new(0x2000, 0x10)));
    // releasing gives it back, and the lowest fit is found again
    assert!(allocator.release(first));
    assert_eq!(allocator.allocate(0x1000, 0x1000).unwrap().base(), 0x2000);
    // what is left below the carved region is still free
    let low = allocator.allocate(0x800, 0x1).unwrap();
    assert_eq!(low.base(), 0x1800);
}

#[test]
fn set_used_refuses_free_memory() {
    let mut allocator = Allocator::new();
    assert!(allocator.register(Region::new(0x1000, 0x1000)));
    assert!(!allocator.set_used(Region::new(0x1800, 0x100)));
    assert!(allocator.set_used(Region::new(0x4000, 0x100)));
    assert!(!allocator.register(Region::new(0x4000, 0x100)));
}

#[test]
fn region_arithmetic() {
    let r = Region::new(0x1001, 0x2000);
    assert_eq!(r.end(), 0x3001);
    assert_eq!(r.aligned_size(0x1000), 0x1001);
    assert!(r.contains(&Region::new(0x2000, 0x10)));
    assert!(!r.contains(&Region::new(0x4000, 0x10)));
    assert!(r.before(&Region::new(0x3001, 0x10)));
    assert!(!r.before(&Region::new(0x4000, 0x10)));
    assert!(r.after(&Region::new(0x1000, 0x1)));
    assert!(!r.after(&Region::new(0x0, 0x10)));
}

#[test]
fn allocate_leaves_the_gap_between_regions_unused() {
    let mut allocator = Allocator::new();
    assert!(allocator.register(Region::new(0x1000, 0x800)));
    assert!(allocator.register(Region::new(0x5000, 0x2000)));
    assert_eq!(allocator.allocate(0x1000, 0x1000).unwrap().base(), 0x5000);
    // the memory between the two regions never became free
    assert!(allocator.allocate(0x3000, 0x1000).is_none());
    assert_eq!(allocator.allocate(0x800, 0x1).unwrap().base(), 0x1000);
}
