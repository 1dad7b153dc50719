pub mod idt;
pub mod tss;
pub mod stack;
pub mod gdt;
pub mod features;
pub mod syscall;
