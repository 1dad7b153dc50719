use vstd::prelude::*;
use crate::region::Region;
use crate::constants::BOOT_INFO_MAGIC;

verus! {

/// How much the kernel logs: nothing, or messages up to a level.
#[derive(Debug, Clone, Copy, PartialEq, Eq, Structural)]
pub enum LogLevelFilter {
    Off,
    Error,
    Warn,
    Info,
    Debug,
    Trace,
}

/// The number under which a filter travels in the boot protocol.
pub open spec fn filter_number(filter: LogLevelFilter) -> u64 {
    match filter {
        LogLevelFilter::Off => 0,
        LogLevelFilter::Error => 1,
        LogLevelFilter::Warn => 2,
        LogLevelFilter::Info => 3,
        LogLevelFilter::Debug => 4,
        LogLevelFilter::Trace => 5,
    }
}

/// The filter with a given number, for numbers up to five.
pub open spec fn filter_of_number(n: u64) -> LogLevelFilter {
    if n == 0 {
        LogLevelFilter::Off
    } else if n == 1 {
        LogLevelFilter::Error
    } else if n == 2 {
        LogLevelFilter::Warn
    } else if n == 3 {
        LogLevelFilter::Info
    } else if n == 4 {
        LogLevelFilter::Debug
    } else {
        LogLevelFilter::Trace
    }
}

/// The regions of physical memory, by kind.
#[derive(Debug)]
pub struct MemoryInfo {
    pub available: Vec<Region>,
    pub reserved: Vec<Region>,
    pub acpi: Vec<Region>,
    pub nvs: Vec<Region>,
    pub bad: Vec<Region>,
}

/// A loaded module: its command line and where it lies in memory.
#[derive(Debug)]
pub struct ModuleInfo {
    pub command_line: Vec<u8>,
    pub memory: Region,
}

/// What the boot stage tells the kernel.
#[derive(Debug)]
pub struct BootInfo {
    pub log_level: LogLevelFilter,
    pub memory: MemoryInfo,
    pub modules: Vec<ModuleInfo>,
}

/// A module as handed over to the kernel.
#[derive(Debug)]
pub struct ModuleProto {
    command_line: Vec<u8>,
    memory: Region,
}

/// The memory map as handed over to the kernel.
#[derive(Debug)]
pub struct MemoryProto {
    available: Vec<Region>,
    reserved: Vec<Region>,
    acpi: Vec<Region>,
    nvs: Vec<Region>,
    bad: Vec<Region>,
}

/// The boot information as handed over to the kernel, marked with a magic number.
#[derive(Debug)]
pub struct BootProto {
    magic: u64,
    log_level: u64,
    optimistic_heap: u64,
    memory: MemoryProto,
    modules: Vec<ModuleProto>,
}

impl ModuleProto {
    pub closed spec fn command_line_view(&self) -> Seq<u8> {
        self.command_line@
    }

    pub closed spec fn memory_view(&self) -> Region {
        self.memory
    }

    /// The bytes of the module's command line.
    pub fn command_line(&self) -> (r: &[u8])
        ensures
            r@ == self.command_line_view(),
    {
        self.command_line.as_slice()
    }

    pub fn memory(&self) -> (r: Region)
        ensures
            r == self.memory_view(),
    {
        self.memory
    }
}

impl MemoryProto {
    pub closed spec fn available_view(&self) -> Seq<Region> {
        self.available@
    }

    pub closed spec fn reserved_view(&self) -> Seq<Region> {
        self.reserved@
    }

    pub closed spec fn acpi_view(&self) -> Seq<Region> {
        self.acpi@
    }

    pub closed spec fn nvs_view(&self) -> Seq<Region> {
        self.nvs@
    }

    pub closed spec fn bad_view(&self) -> Seq<Region> {
        self.bad@
    }

    pub fn available(&self) -> (r: &[Region])
        ensures
            r@ == self.available_view(),
    {
        self.available.as_slice()
    }

    pub fn reserved(&self) -> (r: &[Region])
        ensures
            r@ == self.reserved_view(),
    {
        self.reserved.as_slice()
    }

    pub fn acpi(&self) -> (r: &[Region])
        ensures
            r@ == self.acpi_view(),
    {
        self.acpi.as_slice()
    }

    pub fn nvs(&self) -> (r: &[Region])
        ensures
            r@ == self.nvs_view(),
    {
        self.nvs.as_slice()
    }

    pub fn bad(&self) -> (r: &[Region])
        ensures
            r@ == self.bad_view(),
    {
        self.bad.as_slice()
    }
}

impl BootProto {
    pub closed spec fn magic_view(&self) -> u64 {
        self.magic
    }

    pub closed spec fn log_level_view(&self) -> u64 {
        self.log_level
    }

    pub closed spec fn optimistic_heap_view(&self) -> u64 {
        self.optimistic_heap
    }

    pub closed spec fn memory_view(&self) -> &MemoryProto {
        &self.memory
    }

    pub closed spec fn modules_view(&self) -> Seq<ModuleProto> {
        self.modules@
    }

    /// Pack the boot information for the kernel.
    pub fn create(info: BootInfo, optimistic_heap: u64) -> (r: BootProto)
        ensures
            r.magic_view() == BOOT_INFO_MAGIC,
            r.log_level_view() == filter_number(info.log_level),
            r.optimistic_heap_view() == optimistic_heap,
            r.memory_view().available_view() == info.memory.available@,
            r.memory_view().reserved_view() == info.memory.reserved@,
            r.memory_view().acpi_view() == info.memory.acpi@,
            r.memory_view().nvs_view() == info.memory.nvs@,
            r.memory_view().bad_view() == info.memory.bad@,
            r.modules_view().len() == info.modules@.len(),
            forall|i: int|
                0 <= i < info.modules@.len() ==> (#[trigger] r.modules_view()[i]).command_line_view()
                    == info.modules@[i].command_line@ && r.modules_view()[i].memory_view()
                    == info.modules@[i].memory,
    {
        let BootInfo { log_level, memory, modules } = info;
        let MemoryInfo { available, reserved, acpi, nvs, bad } = memory;
        let memory = MemoryProto {
            available: available,
            reserved: reserved,
            acpi: acpi,
            nvs: nvs,
            bad: bad,
        };
        let mut modules_list: Vec<ModuleProto> = Vec::new();
        let mut i: usize = 0;
        while i < modules.len()
            invariant
                0 <= i <= modules@.len(),
                modules_list@.len() == i,
                forall|j: int|
                    0 <= j < i ==> (#[trigger] modules_list@[j]).command_line@ == modules@[j].command_line@
                        && modules_list@[j].memory == modules@[j].memory,
            decreases modules@.len() - i,
        {
            let command_line = modules[i].command_line.clone();
            proof {
                assert(command_line@ =~= modules@[i as int].command_line@);
            }
            modules_list.push(ModuleProto { command_line: command_line, memory: modules[i].memory });
            i = i + 1;
        }
        let level = match log_level {
            LogLevelFilter::Off => 0,
            LogLevelFilter::Error => 1,
            LogLevelFilter::Warn => 2,
            LogLevelFilter::Info => 3,
            LogLevelFilter::Debug => 4,
            LogLevelFilter::Trace => 5,
        };
        BootProto {
            magic: BOOT_INFO_MAGIC,
            log_level: level,
            optimistic_heap: optimistic_heap,
            memory: memory,
            modules: modules_list,
        }
    }

    /// Accept boot information read from memory when it carries the magic number.
    pub fn parse(info: BootProto) -> (r: Result<BootProto, ()>)
        ensures
            info.magic_view() == BOOT_INFO_MAGIC ==> r == Ok::<BootProto, ()>(info),
            info.magic_view() != BOOT_INFO_MAGIC ==> r is Err,
    {
        if info.magic != BOOT_INFO_MAGIC {
            Err(())
        } else {
            Ok(info)
        }
    }

    /// The log level filter; the protocol carries numbers up to five.
    pub fn log_level(&self) -> (r: LogLevelFilter)
        requires
            self.log_level_view() <= 5,
        ensures
            r == filter_of_number(self.log_level_view()),
            filter_number(r) == self.log_level_view(),
    {
        match self.log_level {
            0 => LogLevelFilter::Off,
            1 => LogLevelFilter::Error,
            2 => LogLevelFilter::Warn,
            3 => LogLevelFilter::Info,
            4 => LogLevelFilter::Debug,
            _ => LogLevelFilter::Trace,
        }
    }

    pub fn optimistic_heap(&self) -> (r: u64)
        ensures
            r == self.optimistic_heap_view(),
    {
        self.optimistic_heap
    }

    pub fn memory(&self) -> (r: &MemoryProto)
        ensures
            r == self.memory_view(),
    {
        &self.memory
    }

    pub fn modules(&self) -> (r: &[ModuleProto])
        ensures
            r@ == self.modules_view(),
    {
        self.modules.as_slice()
    }
}

/// A filter survives the trip through its protocol number.
pub proof fn lemma_filter_round_trip(filter: LogLevelFilter)
    ensures
        filter_number(filter) <= 5,
        filter_of_number(filter_number(filter)) == filter,
{
}

} // verus!
