use kernel_std::cpu::syscall::{syscall_registers, sysenter_call, Call};
use kernel_std::cpu::idt;
use kernel_std::cpu::stack::Stack;
use kernel_std::cpu::tss;

#[test]
fn interrupt_gates() {
    assert_eq!(idt::Descriptor::placeholder().as_entry(), [0, 0]);
    let gate = idt::Descriptor::new(0xffff_ffff_8012_3456, 1);
    let entry = gate.as_entry();
    // offset 15..0, selector 8, stack 1, present interrupt gate, offset 31..16
    assert_eq!(entry[0], 0x8012_8e01_0008_3456);
    assert_eq!(entry[1], 0xffff_ffff);
}

#[test]
fn task_segment_descriptor() {
    let segment = tss::Segment::new(0x1234_5678_9abc, [0; 7], [0; 3], 0);
    let descriptor = segment.get_register();
    assert_eq!(descriptor.size, 0x68);
    assert!(!descriptor.busy);
    let entry = descriptor.as_entry();
    // base 23..0 in bits 16..39, base 31..24 in 56..63, limit 0x67, present, 64-bit TSS
    assert_eq!(entry[0], 0x5600_8978_9abc_0067);
    assert_eq!(entry[1], 0x1234);
    let busy = tss::Descriptor { base: 0, size: 1, privilege_level: 3, busy: true };
    assert_eq!(busy.as_entry()[0], (1 << 47) | (1 << 43) | (1 << 40) | (3 << 45) | (1 << 41));
}

#[test]
fn stacks() {
    assert_eq!(Stack::dummy().get_ptr(), 0);
    assert_eq!(Stack::new(0x1000, 0x2000).get_ptr(), 0x3000);
}

#[test]
fn interrupt_table_words_and_register() {
    let table = idt::Table::new(vec![
        idt::Descriptor::placeholder(),
        idt::Descriptor::new(0xffff_ffff_8012_3456, 1),
    ]);
    let (words, register) = table.save(0x7000);
    assert_eq!(words, vec![0, 0, 0x8012_8e01_0008_3456, 0xffff_ffff]);
    assert_eq!(register.size, 31);
    assert_eq!(register.base, 0x7000);
}

#[test]
fn empty_interrupt_table() {
    let table = idt::Table::new(vec![]);
    let (words, register) = table.save(0x7000);
    assert!(words.is_empty());
    assert_eq!(register.size, 0);
    assert_eq!(register.base, 0x7000);
    assert!(idt::Table::early_install(&[], 0x7000).is_none());
}

#[test]
fn early_interrupt_table() {
    let mut descriptors = Vec::new();
    for vector in 0..15u64 {
        if vector == 3 || vector == 13 || vector == 14 {
            descriptors.push(idt::Descriptor::new(0x1000 * vector, 0));
        } else {
            descriptors.push(idt::Descriptor::placeholder());
        }
    }
    let (words, register) = idt::Table::early_install(&descriptors, 0x20_0000).unwrap();
    assert_eq!(words.len(), 30);
    assert_eq!(register.size, 15 * 16 - 1);
    assert_eq!(register.base, 0x20_0000);
    assert_eq!(words[6], descriptors[3].as_entry()[0]);
    assert_eq!(words[0], 0);
}

#[test]
fn interrupt_table_register_keeps_low_bits() {
    // 4096 gates take 0x10000 bytes: the register's sixteen bits hold 0xffff
    let table = idt::Table::new(vec![idt::Descriptor::placeholder(); 4096]);
    let (words, register) = table.copy_to(0);
    assert_eq!(words.len(), 8192);
    assert_eq!(register.size, 0xffff);
}

#[test]
fn kernel_fault_gates() {
    let descriptors = idt::fault_descriptors(0x1000, 0x2000, 0x3000);
    assert_eq!(descriptors.len(), 15);
    for (vector, d) in descriptors.iter().enumerate() {
        let entry = d.as_entry();
        match vector {
            3 => assert_eq!(entry, idt::Descriptor::new(0x1000, 0).as_entry()),
            13 => assert_eq!(entry, idt::Descriptor::new(0x2000, 0).as_entry()),
            14 => assert_eq!(entry, idt::Descriptor::new(0x3000, 0).as_entry()),
            _ => assert_eq!(entry, [0, 0]),
        }
    }
    let (words, register) = idt::Table::new(descriptors).save(0x9000);
    assert_eq!(words.len(), 30);
    assert_eq!(register.size, 239);
}

#[test]
fn syscall_entry_registers_and_calls() {
    assert_eq!(
        syscall_registers(0x1000, 0x2000, 0x3000),
        vec![(0x174, 0x8), (0x176, 0x1000), (0x175, 0x2000), (0xC000_0081, 0x8_0000_0000), (0xC000_0082, 0x3000)]
    );
    assert_eq!(sysenter_call(0, 0), Call::Release);
    assert_eq!(sysenter_call(0, 1), Call::Exit);
    assert_eq!(sysenter_call(0, 2), Call::Wait);
    assert_eq!(sysenter_call(0, 3), Call::UnknownArgument);
    assert_eq!(sysenter_call(1, 0), Call::UnknownBranch);
}
