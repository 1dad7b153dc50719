use kernel_std::boot_info::{BootInfo, BootProto, LogLevelFilter, MemoryInfo, ModuleInfo};
use kernel_std::bootstrap::{find_entry, partition_offset, plan_boot, plan_boot_for, text_access, BootError};
use kernel_std::constants::BOOT_INFO_MAGIC;
use kernel_std::module::{Data, Module, Partition, Placement, Port, Text, Type};
use kernel_std::paging::builder::{build_layout_relative, can_build};
use kernel_std::region::Region;

const MAGIC: u128 = 0x0af979b7_02c3_4ca6_b354_b709bec81199;
const ENTRY: u128 = 0xb3de1342_4d70_449d_9752_3122338aa864;

fn text(base: u64, size: u64, ty: Type, data: Data, provides: Vec<Port>) -> Text {
    Text {
        id: 1,
        base: Placement::Absolute(base),
        size,
        ty,
        provides,
        requires: vec![],
        exports: vec![],
        imports: vec![],
        data,
    }
}

fn kernel_module() -> Module {
    Module {
        magic: MAGIC,
        identity: 7,
        size: 0x1000,
        partitions: vec![Partition { index: 0, align: 0x1000, size: 0x2000 }],
        texts: vec![
            text(
                0xffff_ffff_8000_0000,
                0x2000,
                Type::Code,
                Data::Offset { partition: 0, offset: 0 },
                vec![Port { identity: ENTRY, offset: 0x10 }],
            ),
            text(0xffff_ffff_8010_0000, 0x3000, Type::Data { write: true }, Data::Empty, vec![]),
        ],
    }
}

#[test]
fn partition_offsets() {
    let parts = [
        Partition { index: 0, align: 0x1000, size: 0x1800 },
        Partition { index: 1, align: 0x1000, size: 0x100 },
    ];
    assert_eq!(partition_offset(0x300000, 0x800, &parts, 0), Some(0x301000));
    assert_eq!(partition_offset(0x300000, 0x800, &parts, 1), Some(0x303000));
    assert_eq!(partition_offset(u64::MAX, 1, &parts, 0), None);
    let zero = [Partition { index: 0, align: 0, size: 0 }];
    assert_eq!(partition_offset(0, 0, &zero, 0), None);
}

#[test]
fn text_access_and_entry() {
    assert_eq!(text_access(&Type::Code), (false, true));
    assert_eq!(text_access(&Type::Data { write: true }), (true, false));
    assert_eq!(text_access(&Type::Info { identity: 3 }), (false, false));
    let t = text(0x1000, 0x10, Type::Code, Data::Empty, vec![
        Port { identity: ENTRY, offset: 4 },
        Port { identity: 9, offset: 8 },
        Port { identity: ENTRY, offset: 12 },
    ]);
    assert_eq!(find_entry(&t, 0x1000, ENTRY, None), Ok(Some(0x100c)));
    assert_eq!(find_entry(&t, 0x1000, 5, Some(3)), Ok(Some(3)));
    assert_eq!(find_entry(&t, u64::MAX, ENTRY, None), Err(BootError::Overflow));
}

#[test]
fn boot_plan_maps_module_image_and_heap() {
    let available = [Region::new(0, 0x1000_0000)];
    let grub = [ModuleInfo { command_line: b"kernel".to_vec(), memory: Region::new(0x300000, 0x10000) }];
    let modules = [kernel_module()];
    let plan = plan_boot(&available, &grub, &modules, 0x100000).unwrap();
    assert_eq!(plan.entry, 0xffff_ffff_8000_0010);
    assert_eq!(plan.heap, Region::new(0x310000, 0x200000));
    assert_eq!(plan.pages, Region::new(0x510000, 0x200000));
    let segments = plan.layout.segments();
    assert_eq!(segments.len(), 4);
    assert_eq!(segments[0].physical_base(), 0x301000);
    assert_eq!(segments[0].virtual_base(), 0xffff_8000_0000);
    assert!(segments[0].execute() && !segments[0].write());
    // the empty text got fresh memory
    assert_eq!(segments[1].physical_base(), 0x200000);
    assert!(segments[1].write() && !segments[1].execute());
    assert_eq!(segments[2].size(), 0x100000);
    assert_eq!(segments[3].physical_base(), 0x310000);
    assert_eq!(segments[3].virtual_base(), 0xffff_8100_0000);
    // the tables can be built where the plan put them
    assert!(can_build(&plan.layout, plan.pages.base()));
    let (root, tables) = build_layout_relative(&plan.layout, plan.pages.base());
    assert_eq!(root, 0x510000);
    assert_eq!(tables.len() % 0x1000, 0);
}

#[test]
fn boot_plan_errors() {
    let available = [Region::new(0, 0x1000_0000)];
    let grub = [ModuleInfo { command_line: vec![], memory: Region::new(0x300000, 0x10000) }];
    assert_eq!(plan_boot(&available, &grub, &[], 0x100000).err(), Some(BootError::ModuleCount));
    let mut bad = kernel_module();
    bad.magic = 1;
    assert_eq!(plan_boot(&available, &grub, &[bad], 0x100000).err(), Some(BootError::InvalidMagic));
    let mut no_entry = kernel_module();
    no_entry.texts[0].provides.clear();
    assert_eq!(plan_boot(&available, &grub, &[no_entry], 0x100000).err(), Some(BootError::NoEntry));
    let mut relative = kernel_module();
    relative.texts[1].base = Placement::Arbitrary(0x1000);
    assert_eq!(
        plan_boot(&available, &grub, &[relative], 0x100000).err(),
        Some(BootError::UnsupportedPlacement)
    );
    let mut direct = kernel_module();
    direct.texts[1].data = Data::Direct(vec![1, 2, 3]);
    assert_eq!(plan_boot(&available, &grub, &[direct], 0x100000).err(), Some(BootError::UnsupportedData));
}

#[test]
fn boot_plan_for_given_uuid_values() {
    let available = [Region::new(0, 0x1000_0000)];
    let grub = [ModuleInfo { command_line: b"kernel".to_vec(), memory: Region::new(0x300000, 0x10000) }];
    // the plan made from the parsed UUIDs is the plan for their values
    let plan = plan_boot_for(&available, &grub, &[kernel_module()], 0x100000, MAGIC, ENTRY).unwrap();
    assert_eq!(plan.entry, 0xffff_ffff_8000_0010);
    assert_eq!(plan.heap, Region::new(0x310000, 0x200000));
    // other values: the module's magic does not match, or the kernel provides no such port
    assert_eq!(
        plan_boot_for(&available, &grub, &[kernel_module()], 0x100000, MAGIC + 1, ENTRY).err(),
        Some(BootError::InvalidMagic)
    );
    assert_eq!(
        plan_boot_for(&available, &grub, &[kernel_module()], 0x100000, MAGIC, ENTRY + 1).err(),
        Some(BootError::NoEntry)
    );
}

#[test]
fn boot_proto_round_trip() {
    let info = BootInfo {
        log_level: LogLevelFilter::Debug,
        memory: MemoryInfo {
            available: vec![Region::new(0x100000, 0x1000)],
            reserved: vec![],
            acpi: vec![Region::new(0x2000, 0x10)],
            nvs: vec![],
            bad: vec![],
        },
        modules: vec![ModuleInfo { command_line: b"init".to_vec(), memory: Region::new(0x400000, 0x100) }],
    };
    let proto = BootProto::create(info, 0x600000);
    assert_eq!(proto.log_level(), LogLevelFilter::Debug);
    assert_eq!(proto.optimistic_heap(), 0x600000);
    assert_eq!(proto.memory().available(), &[Region::new(0x100000, 0x1000)][..]);
    assert_eq!(proto.memory().acpi(), &[Region::new(0x2000, 0x10)][..]);
    assert!(proto.memory().reserved().is_empty());
    assert!(proto.memory().nvs().is_empty());
    assert!(proto.memory().bad().is_empty());
    assert_eq!(proto.modules().len(), 1);
    assert_eq!(proto.modules()[0].command_line(), b"init");
    assert_eq!(proto.modules()[0].memory(), Region::new(0x400000, 0x100));
    let proto = BootProto::parse(proto).unwrap();
    assert_eq!(proto.log_level(), LogLevelFilter::Debug);
    let _ = BOOT_INFO_MAGIC;
}
