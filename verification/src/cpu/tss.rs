use vstd::prelude::*;

verus! {

/// The descriptor of a task-state segment in the global table.
#[derive(Debug, Clone, Copy)]
pub struct Descriptor {
    pub base: u64,
    pub size: u32,
    pub privilege_level: u8,
    pub busy: bool,
}

/// The two 64-bit words of the system-segment descriptor that `d` describes: base and
/// limit spread over their fields, present, 64-bit TSS, the privilege level and the busy bit.
pub open spec fn descriptor_words(d: Descriptor) -> (u64, u64) {
    let lower = ((d.base & (0xffu64 << 24u64)) << 32u64) | ((d.base & 0xffffff) << 16u64) | ((d.size
        & (0xfu32 << 16u32)) as u64) | (((d.size - 1) as u32 & 0xffff) as u64) | (1u64 << 47u64) | (1u64
        << 43u64) | (1u64 << 40u64) | ((d.privilege_level as u64) << 45u64);
    (if d.busy { lower | (1u64 << 41u64) } else { lower }, d.base >> 32u64)
}

impl Descriptor {
    /// The descriptor as two 64-bit words; the privilege level must be below four and the size
    /// at least one byte.
    pub fn as_entry(&self) -> (r: [u64; 2])
        requires
            self.privilege_level < 4,
            self.size >= 1,
        ensures
            r@ == seq![descriptor_words(*self).0, descriptor_words(*self).1],
    {
        let mut lower = ((self.base & (0xff << 24)) << 32) | ((self.base & 0xffffff) << 16) | (
        self.size & (0xf << 16)) as u64 | ((self.size - 1) & 0xffff) as u64 | (1 << 47) | (1 << 43)
            | (1 << 40);
        lower = lower | ((self.privilege_level as u64) << 45);
        if self.busy {
            lower = lower | (1 << 41);
        }
        let r = [lower, self.base >> 32];
        proof {
            assert(r@ =~= seq![descriptor_words(*self).0, descriptor_words(*self).1]);
        }
        r
    }
}

/// A task-state segment: where its image is stored, its privilege level, the I/O map offset,
/// and the tops of its interrupt and privilege-level stacks (zero for none).
#[derive(Debug, Clone, Copy)]
pub struct Segment {
    pub buffer: u64,
    pub privilege_level: u8,
    pub io_offset: u16,
    pub interrupt_stack_table: [u64; 7],
    pub stack_pointers: [u64; 3],
}

impl Segment {
    /// A segment stored at `buffer` with the given stack tops and privilege level.
    pub fn new(buffer: u64, interrupt_stack_table: [u64; 7], stack_pointers: [u64; 3], privilege_level: u8) -> (r: Segment)
        ensures
            r.buffer == buffer,
            r.privilege_level == privilege_level,
            r.io_offset == 0,
            r.interrupt_stack_table == interrupt_stack_table,
            r.stack_pointers == stack_pointers,
    {
        Segment {
            buffer: buffer,
            privilege_level: privilege_level,
            io_offset: 0,
            interrupt_stack_table: interrupt_stack_table,
            stack_pointers: stack_pointers,
        }
    }

    /// The descriptor of this segment: its 0x68-byte image at its buffer, not busy.
    pub fn get_register(&self) -> (r: Descriptor)
        ensures
            r == (Descriptor {
                base: self.buffer,
                size: 0x68,
                privilege_level: self.privilege_level,
                busy: false,
            }),
    {
        Descriptor { base: self.buffer, size: 0x68, privilege_level: self.privilege_level, busy: false }
    }
}

} // verus!
