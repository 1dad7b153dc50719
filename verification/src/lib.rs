pub mod constants;
pub mod region;
pub mod paging;
pub mod boot_info;
pub mod log;
pub mod user_log;
pub mod kernel_constants;
pub mod memory;
pub mod boot;
pub mod multiboot;
pub mod cpu;
pub mod module;
pub mod bootstrap;
pub mod serial;
pub mod point;
pub mod division;
