use vstd::prelude::*;
use crate::cpu::tss;

verus! {

/// The value loaded into a descriptor-table register: the table's size in bytes minus one,
/// and its address.
#[derive(Debug, Clone, Copy)]
pub struct Register {
    pub size: u16,
    pub base: u64,
}

/// The first three entries of the global descriptor table: null, the 64-bit kernel code
/// segment and the kernel data segment, as set up before the jump to long mode.
pub open spec fn gdt_header() -> Seq<u64> {
    seq![
        0u64,
        (0xffffu64 | (0x9u64 << 44u64) | (0xbfu64 << 48u64) | (0xau64 << 40u64)) as u64,
        (0xffffu64 | (0x9u64 << 44u64) | (0xdfu64 << 48u64) | (0x2u64 << 40u64)) as u64,
    ]
}

/// The words of the descriptors of `tss`, two per segment.
pub open spec fn tss_words(tss: Seq<tss::Segment>) -> Seq<u64>
    decreases tss.len(),
{
    if tss.len() == 0 {
        Seq::empty()
    } else {
        let d = tss::descriptor_words(
            tss::Descriptor {
                base: tss.last().buffer,
                size: 0x68,
                privilege_level: tss.last().privilege_level,
                busy: false,
            },
        );
        tss_words(tss.drop_last()) + seq![d.0, d.1]
    }
}

/// The global descriptor table: the fixed header, then one descriptor per task-state segment.
pub struct Table {
    tss: Vec<tss::Segment>,
}

impl Table {
    pub closed spec fn segments(&self) -> Seq<tss::Segment> {
        self.tss@
    }

    pub fn new(tss: Vec<tss::Segment>) -> (r: Table)
        ensures
            r.segments() == tss@,
    {
        Table { tss: tss }
    }

    /// The selector of task `task_index`: the entries after the header take two slots each,
    /// from the fourth on.
    pub fn set_task(&self, task_index: u16) -> (r: u16)
        requires
            (task_index as int) < self.segments().len(),
            task_index + 3 < 0x2000,
        ensures
            r == (task_index + 3) * 8,
    {
        (task_index + 3) * 8
    }

    /// The table's words, to be stored at `base`, and the register that describes it; every
    /// segment's privilege level must be below four.
    pub fn copy_to(&self, base: u64) -> (r: (Vec<u64>, Register))
        requires
            forall|i: int| 0 <= i < self.segments().len() ==> (#[trigger] self.segments()[i]).privilege_level < 4,
            3 + 2 * self.segments().len() <= 0x1000,
        ensures
            r.0@ == gdt_header() + tss_words(self.segments()),
            r.1.size == 8 * r.0@.len() - 1,
            r.1.base == base,
    {
        let mut words: Vec<u64> = Vec::new();
        words.push(0);
        words.push(0xffff | (0x9 << 44) | (0xbf << 48) | (0xa << 40));
        words.push(0xffff | (0x9 << 44) | (0xdf << 48) | (0x2 << 40));
        proof {
            assert(words@ =~= gdt_header());
            assert(self.tss@.take(0) =~= Seq::<tss::Segment>::empty());
        }
        let mut i: usize = 0;
        while i < self.tss.len()
            invariant
                0 <= i <= self.tss@.len(),
                3 + 2 * self.tss@.len() <= 0x1000,
                forall|k: int| 0 <= k < self.tss@.len() ==> (#[trigger] self.tss@[k]).privilege_level < 4,
                words@ == gdt_header() + tss_words(self.tss@.take(i as int)),
            decreases self.tss@.len() - i,
        {
            let entry = self.tss[i].get_register().as_entry();
            let ghost before = words@;
            words.push(entry[0]);
            words.push(entry[1]);
            proof {
                assert(self.tss@.take(i + 1).drop_last() =~= self.tss@.take(i as int));
                assert(self.tss@.take(i + 1).last() == self.tss@[i as int]);
                assert(entry@[0] == entry[0]);
                assert(words@ =~= gdt_header() + tss_words(self.tss@.take(i + 1)));
            }
            i = i + 1;
        }
        proof {
            assert(self.tss@.take(i as int) =~= self.tss@);
            lemma_tss_words_len(self.tss@);
        }
        let size = (8 * words.len() - 1) as u16;
        (words, Register { size: size, base: base })
    }
}

proof fn lemma_tss_words_len(tss: Seq<tss::Segment>)
    ensures
        tss_words(tss).len() == 2 * tss.len(),
    decreases tss.len(),
{
    if tss.len() > 0 {
        lemma_tss_words_len(tss.drop_last());
    }
}

} // verus!
