use kernel_std::boot::{memory_region, module, parse_command_line, parse_memory_info, parse_modules};
use kernel_std::multiboot::{
    build_initial_heap, memory_map_readable, multiboot_tags, parse_cmdline, parse_command, parse_memory,
    setup_memory, string_ends, tag_string, tags_readable, valid_utf8, LevelSetting,
};
use kernel_std::region::Region;

#[test]
fn command_line_log_level() {
    assert_eq!(parse_command_line(b"log=debug "), Some(4));
    assert_eq!(parse_command_line(b"quiet log=trace rest=1 "), Some(5));
    // the last word is not read without a space after it
    assert_eq!(parse_command_line(b"log=debug"), None);
    // an unknown level leaves the level unset
    assert_eq!(parse_command_line(b"log=loud "), None);
    assert_eq!(parse_command_line(b""), None);
}

#[test]
fn memory_map_by_type() {
    let map = [
        memory_region { start: 0, len: 0x9f000, ty: 1 },
        memory_region { start: 0x9f000, len: 0x1000, ty: 2 },
        memory_region { start: 0x100000, len: 0x7ee0000, ty: 1 },
        memory_region { start: 0x7fe0000, len: 0x20000, ty: 3 },
        memory_region { start: 0xfffc0000, len: 0x40000, ty: 4 },
        memory_region { start: 0x8000000, len: 0x1000, ty: 5 },
    ];
    let info = parse_memory_info(&map);
    assert_eq!(info.available, vec![Region::new(0, 0x9f000), Region::new(0x100000, 0x7ee0000)]);
    assert_eq!(info.reserved, vec![Region::new(0x9f000, 0x1000)]);
    assert_eq!(info.acpi, vec![Region::new(0x7fe0000, 0x20000)]);
    assert_eq!(info.nvs, vec![Region::new(0xfffc0000, 0x40000)]);
    assert_eq!(info.bad, vec![Region::new(0x8000000, 0x1000)]);
}

#[test]
fn modules_keep_order() {
    let modules = [
        module { start: 0x300000, len: 0x1000, cmdline: b"kernel".to_vec() },
        module { start: 0x400000, len: 0x2000, cmdline: b"init".to_vec() },
    ];
    let info = parse_modules(&modules);
    assert_eq!(info.len(), 2);
    assert_eq!(info[0].command_line, b"kernel".to_vec());
    assert_eq!(info[1].memory, Region::new(0x400000, 0x2000));
}

#[test]
fn kernel_command_line_pairs() {
    let pairs = parse_cmdline(b"log=debug,paging=trace quiet root=a=b");
    assert_eq!(pairs.len(), 2);
    assert_eq!(pairs[0], (b"log".to_vec(), b"debug,paging=trace".to_vec()));
    assert_eq!(pairs[1], (b"root".to_vec(), b"a=b".to_vec()));
}

#[test]
fn log_settings() {
    let settings = parse_command(b"log", b"info,paging=trace,loud");
    assert_eq!(settings.len(), 3);
    match &settings[0] {
        LevelSetting::Level { level, filter } => {
            assert_eq!(*level, Some(3));
            assert!(filter.is_none());
        }
        _ => panic!("expected a level"),
    }
    match &settings[1] {
        LevelSetting::Level { level, filter } => {
            assert_eq!(*level, Some(5));
            assert_eq!(filter.as_deref(), Some(&b"paging"[..]));
        }
        _ => panic!("expected a level"),
    }
    match &settings[2] {
        LevelSetting::Unknown { word } => assert_eq!(word, &b"loud".to_vec()),
        _ => panic!("expected an unknown word"),
    }
    assert!(parse_command(b"root", b"info").is_empty());
}

#[test]
fn initial_heap_placement() {
    let regions = [(0x100000usize, 0x300000usize), (0x1000000, 0x1000000)];
    // the first region has 0x200000 bytes above 0x200000
    assert_eq!(build_initial_heap(&regions, 0x200000), Some((0x200000, 0x200000)));
    // above 0x300000 only the second region is large enough
    assert_eq!(build_initial_heap(&regions, 0x300000), Some((0x1000000, 0x200000)));
    assert_eq!(build_initial_heap(&[(0x0, 0x9f000)], 0x0), None);
}

#[test]
fn memory_registered_after_heap() {
    let regions = [(0x100000usize, 0x100000usize), (0x100000, 0x500000), (0x1000000, 0x1000)];
    let registered = setup_memory(&regions, 0x200000);
    assert_eq!(registered, vec![(0x400000, 0x200000), (0x1000000, 0x1000)]);
}

fn push_u32(out: &mut Vec<u8>, x: u32) {
    out.extend_from_slice(&x.to_le_bytes());
}

fn push_u64(out: &mut Vec<u8>, x: u64) {
    out.extend_from_slice(&x.to_le_bytes());
}

fn pad8(out: &mut Vec<u8>) {
    while out.len() % 8 != 0 {
        out.push(0);
    }
}

/// Multiboot information with a command line, a boot loader name, a memory map of two entries
/// and the end tag, followed by `trailing` bytes of whatever lies after it in memory.
fn multiboot_info(trailing: &[u8]) -> Vec<u8> {
    let mut info = Vec::new();
    push_u32(&mut info, 120);
    push_u32(&mut info, 0);
    push_u32(&mut info, 1);
    push_u32(&mut info, 18);
    info.extend_from_slice(b"log=debug\0");
    pad8(&mut info);
    push_u32(&mut info, 2);
    push_u32(&mut info, 13);
    info.extend_from_slice(b"GRUB\0");
    pad8(&mut info);
    push_u32(&mut info, 6);
    push_u32(&mut info, 64);
    push_u32(&mut info, 24);
    push_u32(&mut info, 0);
    push_u64(&mut info, 0);
    push_u64(&mut info, 0x9fc00);
    push_u32(&mut info, 1);
    push_u32(&mut info, 0);
    push_u64(&mut info, 0x100000);
    push_u64(&mut info, 0x7ee0000);
    push_u32(&mut info, 1);
    push_u32(&mut info, 0);
    push_u32(&mut info, 0);
    push_u32(&mut info, 8);
    info.extend_from_slice(trailing);
    info
}

#[test]
fn multiboot_tags_in_order() {
    let info = multiboot_info(&[0; 16]);
    assert!(tags_readable(&info, 120));
    assert_eq!(multiboot_tags(&info, 120), vec![(1, 8), (2, 32), (6, 48)]);
    assert!(string_ends(&info[8..]));
    assert_eq!(tag_string(&info[8..]), b"log=debug".to_vec());
    assert_eq!(tag_string(&info[32..]), b"GRUB".to_vec());
    assert!(!string_ends(&info[8..16]));
    // a tag of length zero would be walked forever
    let mut stuck = info.clone();
    stuck[12..16].copy_from_slice(&0u32.to_le_bytes());
    assert!(!tags_readable(&stuck, 120));
}

#[test]
fn memory_map_keeps_available_memory_above_the_boot_mapping() {
    let info = multiboot_info(&[0; 16]);
    assert!(memory_map_readable(&info[48..]));
    // the first entry ends below 0x400000; the read past the tag finds no available memory
    assert_eq!(parse_memory(&info[48..], 0x400000), vec![(0x100000, 0x7ee0000)]);
    assert_eq!(parse_memory(&info[48..], 0), vec![(0, 0x9fc00), (0x100000, 0x7ee0000)]);
    // the entries are read as far past their start as the tag is long, one entry past the tag:
    // there the end tag and what follows it read as an available region
    let mut trailing = vec![0u8; 16];
    trailing[0..8].copy_from_slice(&0x1000u64.to_le_bytes());
    trailing[8..12].copy_from_slice(&1u32.to_le_bytes());
    let info = multiboot_info(&trailing);
    assert_eq!(parse_memory(&info[48..], 0x400000), vec![(0x100000, 0x7ee0000), (0x8_0000_0000, 0x1000)]);
    // too short to read that far
    assert!(!memory_map_readable(&info[48..120]));
}

#[test]
fn kernel_command_line_that_is_not_utf8_gives_nothing() {
    assert!(parse_cmdline(b"log=debug \xff root=a").is_empty());
    let pairs = parse_cmdline("log=d\u{e9}bug".as_bytes());
    assert_eq!(pairs.len(), 1);
    assert_eq!(pairs[0].1, "d\u{e9}bug".as_bytes().to_vec());
}

#[test]
fn utf8_check_follows_the_well_formed_sequences() {
    assert!(valid_utf8(b""));
    assert!(valid_utf8("a\u{e9}\u{20ac}\u{1f600}".as_bytes()));
    // overlong, surrogate, past the last code point, cut short, stray continuation
    assert!(!valid_utf8(&[0xc0, 0x80]));
    assert!(!valid_utf8(&[0xed, 0xa0, 0x80]));
    assert!(!valid_utf8(&[0xf4, 0x90, 0x80, 0x80]));
    assert!(!valid_utf8(&[0xe2, 0x82]));
    assert!(!valid_utf8(&[0x80]));
    for b in 0u8..=255 {
        let bytes = [b];
        assert_eq!(valid_utf8(&bytes), std::str::from_utf8(&bytes).is_ok());
    }
}
