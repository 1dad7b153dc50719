use vstd::prelude::*;
use crate::region::Region;
use crate::boot_info::{MemoryInfo, ModuleInfo};
use crate::log::{to_level_bytes, to_level_spec};

verus! {

/// One entry of the memory map that the boot loader reports.
#[allow(non_camel_case_types)]
#[derive(Debug, Clone, Copy)]
pub struct memory_region {
    pub start: u64,
    pub len: u64,
    pub ty: u32,
}

/// A module that the boot loader loaded: where it lies and its command line.
#[allow(non_camel_case_types)]
#[derive(Debug)]
pub struct module {
    pub start: u64,
    pub len: u64,
    pub cmdline: Vec<u8>,
}

/// What the command-line parser knows after some bytes: the log level set so far, the word
/// being read, and whether the word follows `log=`.
pub struct CommandState {
    pub level: Option<usize>,
    pub acc: Seq<u8>,
    pub log_item: bool,
}

/// The bytes of the word `log`.
pub open spec fn log_word() -> Seq<u8> {
    seq![108u8, 111u8, 103u8]
}

/// One byte of the command line: a space ends a word, which sets the level when it follows
/// `log=` and names a level; `=` ends the name of an item; any other byte extends the word.
pub open spec fn command_step(st: CommandState, ch: u8) -> CommandState {
    if ch == 32u8 {
        CommandState {
            level: if st.log_item && to_level_spec(st.acc) is Ok {
                to_level_spec(st.acc)->Ok_0
            } else {
                st.level
            },
            acc: Seq::empty(),
            log_item: st.log_item,
        }
    } else if ch == 61u8 {
        CommandState { level: st.level, acc: Seq::empty(), log_item: st.acc == log_word() }
    } else {
        CommandState { level: st.level, acc: st.acc.push(ch), log_item: st.log_item }
    }
}

/// The parser's state after the bytes `line`.
pub open spec fn command_run(line: Seq<u8>) -> CommandState
    decreases line.len(),
{
    if line.len() == 0 {
        CommandState { level: None, acc: Seq::empty(), log_item: false }
    } else {
        command_step(command_run(line.drop_last()), line.last())
    }
}

/// The log level that a boot command line sets with `log=<level> `; a word is only read up
/// to the space that ends it.
pub fn parse_command_line(cmdline: &[u8]) -> (r: Option<usize>)
    ensures
        r == command_run(cmdline@).level,
{
    let mut log_level: Option<usize> = None;
    let mut acc: Vec<u8> = Vec::new();
    let mut log_item = false;
    let mut i: usize = 0;
    while i < cmdline.len()
        invariant
            0 <= i <= cmdline@.len(),
            command_run(cmdline@.take(i as int)) == (CommandState {
                level: log_level,
                acc: acc@,
                log_item: log_item,
            }),
        decreases cmdline@.len() - i,
    {
        let ch = cmdline[i];
        proof {
            assert(cmdline@.take(i + 1).drop_last() =~= cmdline@.take(i as int));
            assert(cmdline@.take(i + 1).last() == ch);
        }
        if ch == 32u8 {
            if log_item {
                if let Ok(level) = to_level_bytes(acc.as_slice()) {
                    log_level = level;
                }
            }
            acc.clear();
        } else if ch == 61u8 {
            log_item = acc.len() == 3 && acc[0] == 108u8 && acc[1] == 111u8 && acc[2] == 103u8;
            proof {
                if acc@.len() == 3 && acc@[0] == 108u8 && acc@[1] == 111u8 && acc@[2] == 103u8 {
                    assert(acc@ =~= log_word());
                }
            }
            acc.clear();
        } else {
            acc.push(ch);
        }
        proof {
            assert(acc@ =~= command_step(command_run(cmdline@.take(i as int)), ch).acc);
        }
        i = i + 1;
    }
    proof {
        assert(cmdline@.take(i as int) =~= cmdline@);
    }
    log_level
}

/// The regions of the entries of type `ty`, in order.
pub open spec fn regions_of_type(entries: Seq<memory_region>, ty: u32) -> Seq<Region>
    decreases entries.len(),
{
    if entries.len() == 0 {
        Seq::empty()
    } else {
        let rest = regions_of_type(entries.drop_last(), ty);
        let e = entries.last();
        if e.ty == ty {
            rest.push(Region { base: e.start, size: e.len })
        } else {
            rest
        }
    }
}

/// The memory types that the boot loader reports: available, reserved, ACPI reclaimable,
/// non-volatile and bad memory.
pub open spec fn known_type(ty: u32) -> bool {
    1 <= ty <= 5
}

/// Sort the memory map into regions by type.
pub fn parse_memory_info(memory: &[memory_region]) -> (r: MemoryInfo)
    requires
        forall|i: int| 0 <= i < memory@.len() ==> known_type(#[trigger] memory@[i].ty),
    ensures
        r.available@ == regions_of_type(memory@, crate::constants::MULTIBOOT_MEMORY_AVAILABLE),
        r.reserved@ == regions_of_type(memory@, crate::constants::MULTIBOOT_MEMORY_RESERVED),
        r.acpi@ == regions_of_type(memory@, crate::constants::MULTIBOOT_MEMORY_ACPI_RECLAIMABLE),
        r.nvs@ == regions_of_type(memory@, crate::constants::MULTIBOOT_MEMORY_NVS),
        r.bad@ == regions_of_type(memory@, crate::constants::MULTIBOOT_MEMORY_BADRAM),
{
    let mut info = MemoryInfo {
        available: Vec::new(),
        reserved: Vec::new(),
        acpi: Vec::new(),
        nvs: Vec::new(),
        bad: Vec::new(),
    };
    let mut i: usize = 0;
    while i < memory.len()
        invariant
            0 <= i <= memory@.len(),
            forall|k: int| 0 <= k < memory@.len() ==> known_type(#[trigger] memory@[k].ty),
            info.available@ == regions_of_type(memory@.take(i as int), 1),
            info.reserved@ == regions_of_type(memory@.take(i as int), 2),
            info.acpi@ == regions_of_type(memory@.take(i as int), 3),
            info.nvs@ == regions_of_type(memory@.take(i as int), 4),
            info.bad@ == regions_of_type(memory@.take(i as int), 5),
        decreases memory@.len() - i,
    {
        let entry = memory[i];
        proof {
            assert(memory@.take(i + 1).drop_last() =~= memory@.take(i as int));
            assert(memory@.take(i + 1).last() == entry);
            assert(known_type(memory@[i as int].ty));
        }
        let region = Region::new(entry.start, entry.len);
        if entry.ty == crate::constants::MULTIBOOT_MEMORY_AVAILABLE {
            info.available.push(region);
        } else if entry.ty == crate::constants::MULTIBOOT_MEMORY_RESERVED {
            info.reserved.push(region);
        } else if entry.ty == crate::constants::MULTIBOOT_MEMORY_ACPI_RECLAIMABLE {
            info.acpi.push(region);
        } else if entry.ty == crate::constants::MULTIBOOT_MEMORY_NVS {
            info.nvs.push(region);
        } else {
            info.bad.push(region);
        }
        i = i + 1;
    }
    proof {
        assert(memory@.take(i as int) =~= memory@);
    }
    info
}

/// The modules with their command lines and the memory they occupy, in order.
pub fn parse_modules(modules: &[module]) -> (r: Vec<ModuleInfo>)
    ensures
        r@.len() == modules@.len(),
        forall|i: int|
            0 <= i < modules@.len() ==> (#[trigger] r@[i]).command_line@ == modules@[i].cmdline@
                && r@[i].memory == (Region { base: modules@[i].start, size: modules@[i].len }),
{
    let mut module_info: Vec<ModuleInfo> = Vec::new();
    let mut i: usize = 0;
    while i < modules.len()
        invariant
            0 <= i <= modules@.len(),
            module_info@.len() == i,
            forall|k: int|
                0 <= k < i ==> (#[trigger] module_info@[k]).command_line@ == modules@[k].cmdline@
                    && module_info@[k].memory == (Region { base: modules@[k].start, size: modules@[k].len }),
        decreases modules@.len() - i,
    {
        let command_line = modules[i].cmdline.clone();
        proof {
            assert(command_line@ =~= modules@[i as int].cmdline@);
        }
        module_info.push(
            ModuleInfo {
                command_line: command_line,
                memory: Region::new(modules[i].start, modules[i].len),
            },
        );
        i = i + 1;
    }
    module_info
}

} // verus!
