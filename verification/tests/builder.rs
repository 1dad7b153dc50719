use kernel_std::paging::builder::{build_layout_relative, can_build};
use kernel_std::paging::layout::Layout;
use kernel_std::paging::segment::Segment;
use kernel_std::paging::table::{Entry, Level};

fn words(buffer: &Vec<u8>) -> Vec<u64> {
    buffer
        .chunks(8)
        .map(|c| {
            let mut b = [0u8; 8];
            b.copy_from_slice(c);
            u64::from_le_bytes(b)
        })
        .collect()
}

fn build(layout: &mut Layout) -> (u64, Vec<u64>) {
    let (addr, buffer) = build_layout_relative(layout, 0x180000);
    let cap = buffer.capacity();
    assert!(cap % 8 == 0, "buffer length was not a multiple of eight");
    assert!(buffer.len() % 8 == 0, "buffer length was not a multiple of eight");
    (addr, words(&buffer))
}

fn mask() -> u64 {
    ((1 << 41) - 1) << 12
}

#[test]
fn builder_test_layout() {
    let mut layout = Layout::new();
    layout.insert(Segment::new(0x200000, 0x200000, 0x4000, false, false, false, false));

    let (addr, tables) = build(&mut layout);
    let head_idx = (addr - 0x180000) / 0x8;

    let next_entry = tables[head_idx as usize + 0];
    assert!(next_entry & 0x1 == 0x1, "No 0th entry");
    let next_addr = next_entry & mask();
    let next_idx = (next_addr - 0x180000) / 0x8;

    let next_entry = tables[next_idx as usize + 0];
    assert!(next_entry & 0x1 == 0x1, "No 0th entry");
    assert!(next_entry & 0x80 == 0, "510th entry was a frame");
    let next_addr = next_entry & mask();
    let next_idx = (next_addr - 0x180000) / 0x8;

    let next_entry = tables[next_idx as usize + 1];
    assert!(next_entry & 0x1 == 0x1, "No 1st entry");
    assert!(next_entry & 0x80 == 0, "3rd entry was a frame");
    let next_addr = next_entry & mask();
    let next_idx = (next_addr - 0x180000) / 0x8;

    let next_entry = tables[next_idx as usize + 0];
    assert!(next_entry & 0x1 == 0x1, "No 0th entry");
    let frame_addr = next_entry & mask();
    assert!(frame_addr == 0x200000, "Frame was not at the right address: 0x{:x}", frame_addr);
}

#[test]
fn test_layout_aligned() {
    let mut layout = Layout::new();
    layout.insert(Segment::new(0x200000, 0x200000, 0x200000, false, false, false, false));

    let (addr, tables) = build(&mut layout);
    let head_idx = (addr - 0x180000) / 0x8;

    let next_entry = tables[head_idx as usize + 0];
    assert!(next_entry & 0x1 == 0x1, "No 0th entry");
    let next_addr = next_entry & mask();
    let next_idx = (next_addr - 0x180000) / 0x8;

    let next_entry = tables[next_idx as usize + 0];
    assert!(next_entry & 0x1 == 0x1, "No 0th entry");
    assert!(next_entry & 0x80 == 0, "510th entry was a frame");
    let next_addr = next_entry & mask();
    let next_idx = (next_addr - 0x180000) / 0x8;

    let next_entry = tables[next_idx as usize + 1];
    assert!(next_entry & 0x1 == 0x1, "No 1st entry");
    assert!(next_entry & 0x80 == 0x80, "3rd entry was not a frame");
    let frame_addr = next_entry & mask();
    assert!(frame_addr == 0x200000, "Frame was not at the right address: 0x{:x}", frame_addr);
}

#[test]
fn builder_test_layout_high() {
    let mut layout = Layout::new();
    layout.insert(Segment::new(0x200000, 0xffffffff80200000, 0x4000, false, false, false, false));

    let (addr, tables) = build(&mut layout);
    let head_idx = (addr - 0x180000) / 0x8;

    let next_entry = tables[head_idx as usize + 511];
    assert!(next_entry & 0x1 == 0x1, "No 511th entry");
    let next_addr = next_entry & mask();
    let next_idx = (next_addr - 0x180000) / 0x8;

    let next_entry = tables[next_idx as usize + 510];
    assert!(next_entry & 0x1 == 0x1, "No 510th entry");
    assert!(next_entry & 0x80 == 0, "510th entry was a frame");
    let next_addr = next_entry & mask();
    let next_idx = (next_addr - 0x180000) / 0x8;

    let next_entry = tables[next_idx as usize + 1];
    assert!(next_entry & 0x1 == 0x1, "No 1st entry");
    assert!(next_entry & 0x80 == 0, "1st entry was a frame");
    let next_addr = next_entry & mask();
    let next_idx = (next_addr - 0x180000) / 0x8;

    let next_entry = tables[next_idx as usize + 0];
    assert!(next_entry & 0x1 == 0x1, "No 0th entry");
    let frame_addr = next_entry & mask();
    assert!(frame_addr == 0x200000, "Frame was not at the right address: 0x{:x}", frame_addr);
}

fn walk_layout() -> Layout {
    let mut layout = Layout::new();
    layout.insert(Segment::new(0, 0, 0x200000, false, false, true, false));
    layout.insert(Segment::new(0x200000, 0xffff80200000, 0x34ddf, false, false, true, false));
    layout.insert(Segment::new(0x235000, 0xffff80400000, 0x4fac, false, false, false, false));
    layout.insert(Segment::new(0x23b000, 0xffff80600000, 0x4a00, true, false, false, false));
    layout.insert(Segment::new(0x23f000, 0xffff80800000, 0x17648, true, false, false, false));
    layout
}

#[test]
fn test_walk_data() {
    let mut layout = walk_layout();

    let (addr, tables) = build(&mut layout);
    let head_idx = (addr - 0x180000) / 0x8;

    let next_entry = tables[head_idx as usize + 511];
    assert!(next_entry & 0x1 == 0x1, "No 511th entry");
    let next_addr = next_entry & mask();
    let next_idx = (next_addr - 0x180000) / 0x8;

    let next_entry = tables[next_idx as usize + 510];
    assert!(next_entry & 0x1 == 0x1, "No 510th entry");
    assert!(next_entry & 0x80 == 0, "510th entry was a frame");
    let next_addr = next_entry & mask();
    let next_idx = (next_addr - 0x180000) / 0x8;

    let next_entry = tables[next_idx as usize + 4];
    assert!(next_entry & 0x1 == 0x1, "No 3rd entry");
    assert!(next_entry & 0x80 == 0, "3rd entry was a frame");
    let next_addr = next_entry & mask();
    let next_idx = (next_addr - 0x180000) / 0x8;

    let next_entry = tables[next_idx as usize + 0];
    assert!(next_entry & 0x1 == 0x1, "No 4th entry");
    let frame_addr = next_entry & mask();
    assert!(frame_addr == 0x23f000, "Frame was not at the right address: 0x{:x}", frame_addr);
}

#[test]
fn test_walk_data_again() {
    let mut layout = walk_layout();
    layout.insert(Segment::new(0x400000, 0x400000, 0x400000, true, true, true, false));

    let (addr, tables) = build(&mut layout);
    let head_idx = (addr - 0x180000) / 0x8;

    let next_entry = tables[head_idx as usize + 511];
    assert!(next_entry & 0x1 == 0x1, "No 511th entry");
    let next_addr = next_entry & mask();
    let next_idx = (next_addr - 0x180000) / 0x8;

    let next_entry = tables[next_idx as usize + 510];
    assert!(next_entry & 0x1 == 0x1, "No 510th entry");
    assert!(next_entry & 0x80 == 0, "510th entry was a frame");
    let next_addr = next_entry & mask();
    let next_idx = (next_addr - 0x180000) / 0x8;

    let next_entry = tables[next_idx as usize + 3];
    assert!(next_entry & 0x1 == 0x1, "No 3rd entry");
    assert!(next_entry & 0x80 == 0, "3rd entry was a frame");
    let next_addr = next_entry & mask();
    let next_idx = (next_addr - 0x180000) / 0x8;

    let next_entry = tables[next_idx as usize + 0];
    assert!(next_entry & 0x1 == 0x1, "No 0th entry");
    let frame_addr = next_entry & mask();
    assert!(frame_addr == 0x23b000, "Frame was not at the right address: 0x{:x}", frame_addr);
}

#[test]
fn build_gives_root_at_base_and_whole_tables() {
    let mut layout = Layout::new();
    layout.insert(Segment::new(0x200000, 0x200000, 0x4000, true, false, false, false));
    let (addr, buffer) = build_layout_relative(&mut layout, 0x180000);
    assert_eq!(addr, 0x180000);
    // root, one PDPT, one PD and one PT
    assert_eq!(buffer.len(), 4 * 0x1000);
    let tables = words(&buffer);
    // the page entry: present, writable, page bit, no-execute, address 0x200000
    let pt = 3 * 512;
    assert_eq!(tables[pt], 0x8000_0000_0020_0083);
    assert_eq!(tables[pt + 1], 0x8000_0000_0020_1083);
    assert_eq!(tables[pt + 4], 0);
}

#[test]
fn can_build_refuses_unaligned_base_and_tables_past_the_limit() {
    let mut layout = Layout::new();
    assert!(layout.insert(Segment::new(0x200000, 0x200000, 0x1000, false, false, false, false)));
    assert!(can_build(&layout, 0x180000));
    assert!(!can_build(&layout, 0x180800));
    // the root and three tables for the one page need four pages below 2^47
    assert!(can_build(&layout, 0x7fff_ffff_c000));
    assert!(!can_build(&layout, 0x7fff_ffff_d000));
}

#[test]
fn physical_subframe_follows_the_virtual_offset() {
    let s = Segment::new(0x200000, 0x400000, 0x4000, false, false, false, false);
    assert_eq!(s.get_physical_subframe(0x401000), 0x201000);
    assert_eq!(s.get_physical_subframe(0x3ff000), 0x1ff000);
}

#[test]
fn entry_address_keeps_bit_twelve_outside_large_pages() {
    let e = Entry { entry: 0x201007 };
    assert_eq!(e.address(Level::PTE), 0x201000);
    assert_eq!(e.address(Level::PDE), 0x201000);
    let large = Entry { entry: 0x201087 };
    assert_eq!(large.address(Level::PDE), 0x200000);
    assert_eq!(large.address(Level::PDPTE), 0x200000);
    assert_eq!(large.address(Level::PTE), 0x201000);
}
