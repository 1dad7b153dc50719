use vstd::prelude::*;
use crate::cpu::gdt::Register;

verus! {

/// An interrupt descriptor: the handler's address, its code segment, whether the entry is
/// present, and the interrupt stack to switch to.
#[derive(Debug, Clone, Copy)]
pub struct Descriptor {
    pub target: u64,
    pub segment: u16,
    pub present: bool,
    pub stack: u8,
}

/// The two 64-bit words of the interrupt gate that `d` describes; all zero when it is not
/// present.
pub open spec fn gate_words(d: Descriptor) -> (u64, u64) {
    if !d.present {
        (0, 0)
    } else {
        (
            ((d.target & (0xffffu64 << 16u64)) << 32u64) | (d.target & 0xffff) | ((d.segment as u64)
                << 16u64) | ((d.stack as u64) << 32u64) | (1u64 << 47u64) | (0x0eu64 << 40u64),
            d.target >> 32u64,
        )
    }
}

impl Descriptor {
    /// The empty entry.
    pub open spec fn placeholder_spec() -> Descriptor {
        Descriptor { target: 0, segment: 0, present: false, stack: 0 }
    }

    /// The present entry for the handler at `target` switching to interrupt stack `stack`.
    pub open spec fn new_spec(target: u64, stack: u8) -> Descriptor {
        Descriptor { target, segment: 8, present: true, stack }
    }

    /// An empty entry: not present, so its gate is all zero.
    pub fn placeholder() -> (r: Descriptor)
        ensures
            r == Self::placeholder_spec(),
            !r.present,
            r.segment == 0,
            r.stack == 0,
            gate_words(r) == (0u64, 0u64),
    {
        Descriptor { target: 0, segment: 0, present: false, stack: 0 }
    }

    /// A present entry for the handler at `target` in the kernel code segment (the second
    /// entry of the global table, privilege 0), switching to interrupt stack `stack`.
    pub fn new(target: u64, stack: u8) -> (r: Descriptor)
        ensures
            r == Self::new_spec(target, stack),
    {
        // selector of the second entry of the global table, at privilege 0
        Descriptor { target: target, segment: 0x8, present: true, stack: stack }
    }

    /// The interrupt gate as two 64-bit words.
    pub fn as_entry(&self) -> (r: [u64; 2])
        ensures
            r@ == seq![gate_words(*self).0, gate_words(*self).1],
    {
        if !self.present {
            let r = [0u64, 0u64];
            proof {
                assert(r@ =~= seq![0u64, 0u64]);
            }
            return r;
        }
        let lower = ((self.target & (0xffff << 16)) << 32) | (self.target & 0xffff) | ((
        self.segment as u64) << 16) | ((self.stack as u64) << 32) | (1 << 47) | (0x0e << 40);
        let r = [lower, self.target >> 32];
        proof {
            assert(r@ =~= seq![gate_words(*self).0, gate_words(*self).1]);
        }
        r
    }
}

/// The words of the gates of `descriptors`, two per descriptor, in order.
pub open spec fn table_words(descriptors: Seq<Descriptor>) -> Seq<u64>
    decreases descriptors.len(),
{
    if descriptors.len() == 0 {
        Seq::empty()
    } else {
        let g = gate_words(descriptors.last());
        table_words(descriptors.drop_last()) + seq![g.0, g.1]
    }
}

proof fn lemma_table_words_len(descriptors: Seq<Descriptor>)
    ensures
        table_words(descriptors).len() == 2 * descriptors.len(),
    decreases descriptors.len(),
{
    if descriptors.len() > 0 {
        lemma_table_words_len(descriptors.drop_last());
    }
}

/// The words of the gates of `descriptors`, in order.
fn gates_of(descriptors: &[Descriptor]) -> (r: Vec<u64>)
    ensures
        r@ == table_words(descriptors@),
        r@.len() == 2 * descriptors@.len(),
{
    let mut words: Vec<u64> = Vec::new();
    let mut i: usize = 0;
    proof {
        assert(descriptors@.take(0) =~= Seq::<Descriptor>::empty());
    }
    while i < descriptors.len()
        invariant
            0 <= i <= descriptors@.len(),
            words@ == table_words(descriptors@.take(i as int)),
        decreases descriptors@.len() - i,
    {
        let entry = descriptors[i].as_entry();
        words.push(entry[0]);
        words.push(entry[1]);
        proof {
            assert(descriptors@.take(i + 1).drop_last() =~= descriptors@.take(i as int));
            assert(descriptors@.take(i + 1).last() == descriptors@[i as int]);
            assert(words@ =~= table_words(descriptors@.take(i + 1)));
        }
        i = i + 1;
    }
    proof {
        assert(descriptors@.take(i as int) =~= descriptors@);
        lemma_table_words_len(descriptors@);
    }
    words
}

/// The register that describes a table of `count` gates at `base`: the table's size in
/// bytes minus one, kept to its low sixteen bits as the register holds them.
pub open spec fn table_register(count: nat, base: u64) -> Register {
    Register { size: (16 * count - 1) as u16, base }
}

/// The interrupt descriptor table: a gate per vector, from vector 0 on.
pub struct Table {
    descriptors: Vec<Descriptor>,
}

impl Table {
    pub closed spec fn descriptors(&self) -> Seq<Descriptor> {
        self.descriptors@
    }

    pub fn new(descriptors: Vec<Descriptor>) -> (r: Table)
        ensures
            r.descriptors() == descriptors@,
    {
        Table { descriptors: descriptors }
    }

    /// The table's words, to be stored at `base`, and the register that describes them.
    pub fn copy_to(&self, base: u64) -> (r: (Vec<u64>, Register))
        requires
            self.descriptors().len() > 0,
            base + 16 * self.descriptors().len() <= u64::MAX,
        ensures
            r.0@ == table_words(self.descriptors()),
            r.1 == table_register(self.descriptors().len(), base),
    {
        let words = gates_of(self.descriptors.as_slice());
        let bytes = 16 * (self.descriptors.len() as u64);
        (words, Register { size: (bytes - 1) as u16, base: base })
    }

    /// What installing the table at `base` writes and loads: nothing and a register of size
    /// zero for an empty table, else the table's words and their register.
    pub fn save(&self, base: u64) -> (r: (Vec<u64>, Register))
        requires
            base + 16 * self.descriptors().len() <= u64::MAX,
        ensures
            self.descriptors().len() == 0 ==> r.0@.len() == 0 && r.1 == (Register { size: 0, base }),
            self.descriptors().len() > 0 ==> r.0@ == table_words(self.descriptors())
                && r.1 == table_register(self.descriptors().len(), base),
    {
        if self.descriptors.len() == 0 {
            return (Vec::new(), Register { size: 0, base: base });
        }
        self.copy_to(base)
    }

    /// The words and register of the early table made of `descriptors` at `base`; nothing
    /// when there are no descriptors.
    pub fn early_install(descriptors: &[Descriptor], base: u64) -> (r: Option<(Vec<u64>, Register)>)
        requires
            base + 16 * descriptors@.len() <= u64::MAX,
        ensures
            descriptors@.len() == 0 ==> r is None,
            descriptors@.len() > 0 ==> (r matches Some((words, reg)) && words@ == table_words(descriptors@)
                && reg == table_register(descriptors@.len(), base)),
    {
        if descriptors.len() == 0 {
            return None;
        }
        let words = gates_of(descriptors);
        let bytes = 16 * (descriptors.len() as u64);
        Some((words, Register { size: (bytes - 1) as u16, base: base }))
    }
}

/// The kernel's interrupt gates: vectors 0 to 14, where the breakpoint (3), the general
/// protection fault (13) and the page fault (14) go to the given handlers on the current
/// stack, and every other vector is empty.
pub fn fault_descriptors(breakpoint: u64, general_protection: u64, page_fault: u64) -> (r: Vec<Descriptor>)
    ensures
        r@.len() == 15,
        r@[3] == Descriptor::new_spec(breakpoint, 0),
        r@[13] == Descriptor::new_spec(general_protection, 0),
        r@[14] == Descriptor::new_spec(page_fault, 0),
        forall|v: int| 0 <= v < 15 && v != 3 && v != 13 && v != 14 ==> r@[v] == Descriptor::placeholder_spec(),
{
    let mut r: Vec<Descriptor> = Vec::new();
    let mut vector: usize = 0;
    while vector < 15
        invariant
            vector <= 15,
            r@.len() == vector,
            forall|v: int| 0 <= v < vector && v == 3 ==> r@[v] == Descriptor::new_spec(breakpoint, 0),
            forall|v: int| 0 <= v < vector && v == 13 ==> r@[v] == Descriptor::new_spec(general_protection, 0),
            forall|v: int| 0 <= v < vector && v == 14 ==> r@[v] == Descriptor::new_spec(page_fault, 0),
            forall|v: int| 0 <= v < vector && v != 3 && v != 13 && v != 14 ==> r@[v] == Descriptor::placeholder_spec(),
        decreases 15 - vector,
    {
        let d = if vector == 3 {
            Descriptor::new(breakpoint, 0)
        } else if vector == 13 {
            Descriptor::new(general_protection, 0)
        } else if vector == 14 {
            Descriptor::new(page_fault, 0)
        } else {
            Descriptor::placeholder()
        };
        r.push(d);
        vector = vector + 1;
    }
    r
}

} // verus!
