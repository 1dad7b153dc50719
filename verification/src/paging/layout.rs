use vstd::prelude::*;
use crate::region::{
    Region, Allocator, space_contains, space_accepts, space_insert, space_remove, space_can_insert,
    remove_all_ok, remove_all_result, first_fit, carved,
};
use crate::paging::segment::{Segment, segments_overlap, canonical_part};

verus! {

/// No two segments overlap.
pub open spec fn segments_disjoint(segs: Seq<Segment>) -> bool {
    forall|i: int, j: int|
        0 <= i < segs.len() && 0 <= j < segs.len() && i != j ==> !segments_overlap(
            #[trigger] segs[i],
            #[trigger] segs[j],
        )
}

/// The segment's span can be rounded up to a page without overflow.
pub open spec fn segment_in_range(s: Segment) -> bool {
    s.virtual_base + s.size + 0x1000 <= u64::MAX
}

/// The index of the first segment of `segs` that overlaps `s`, if any.
pub open spec fn first_overlap(segs: Seq<Segment>, s: Segment) -> Option<int> {
    if exists|i: int| 0 <= i < segs.len() && segments_overlap(segs[i], s) {
        Some(
            choose|i: int|
                0 <= i < segs.len() && segments_overlap(segs[i], s) && forall|j: int|
                    0 <= j < i ==> !segments_overlap(segs[j], s),
        )
    } else {
        None
    }
}

proof fn lemma_first_overlap_is(segs: Seq<Segment>, s: Segment, i: int)
    requires
        0 <= i < segs.len(),
        segments_overlap(segs[i], s),
        forall|j: int| 0 <= j < i ==> !segments_overlap(segs[j], s),
    ensures
        first_overlap(segs, s) == Some(i),
{
    let c = choose|k: int|
        0 <= k < segs.len() && segments_overlap(segs[k], s) && forall|j: int|
            0 <= j < k ==> !segments_overlap(segs[j], s);
    assert(0 <= c < segs.len() && segments_overlap(segs[c], s) && forall|j: int|
        0 <= j < c ==> !segments_overlap(segs[j], s));
    if c < i {
        assert(!segments_overlap(segs[c], s));
    }
    if i < c {
        assert(!segments_overlap(segs[i], s));
    }
}

/// The segments of an address space and the allocator of its virtual addresses.
pub struct Layout {
    map: Vec<Segment>,
    free: Allocator,
}

impl Layout {
    /// The segments, in the order they were inserted.
    pub closed spec fn segments_view(&self) -> Seq<Segment> {
        self.map@
    }

    /// The allocator of virtual addresses.
    pub closed spec fn allocator(&self) -> Allocator {
        self.free
    }

    pub open spec fn wf(&self) -> bool {
        &&& self.allocator().wf()
        &&& segments_disjoint(self.segments_view())
        &&& forall|i: int|
            0 <= i < self.segments_view().len() ==> segment_in_range(
                #[trigger] self.segments_view()[i],
            )
    }

    pub fn new() -> (r: Layout)
        ensures
            r.wf(),
            r.segments_view() == Seq::<Segment>::empty(),
            r.allocator().free_view().0 == Map::<u64, Region>::empty(),
            r.allocator().used_view().0 == Map::<u64, Region>::empty(),
    {
        Layout { map: Vec::new(), free: Allocator::new() }
    }

    /// Allocate virtual addresses from the free regions.
    pub fn allocate(&mut self, size: u64, align_to: u64) -> (r: Option<Region>)
        requires
            old(self).wf(),
            old(self).allocator().allocate_ok(size, align_to),
        ensures
            final(self).wf(),
            final(self).segments_view() == old(self).segments_view(),
            match first_fit(old(self).allocator().free_view().0, size, align_to) {
                Some(k) => {
                    let nr = carved(old(self).allocator().free_view().0, k, size, align_to);
                    &&& r == Some(nr)
                    &&& final(self).allocator().used_view() == space_insert(
                        old(self).allocator().used_view(),
                        nr,
                    )
                    &&& final(self).allocator().free_view() == remove_all_result(
                        old(self).allocator().free_view(),
                        nr,
                    )
                },
                None => {
                    &&& r is None
                    &&& final(self).allocator().free_view() == old(self).allocator().free_view()
                    &&& final(self).allocator().used_view() == old(self).allocator().used_view()
                },
            },
    {
        self.free.allocate(size, align_to)
    }

    /// Add a region of free virtual addresses.
    pub fn register(&mut self, region: Region) -> (r: bool)
        requires
            old(self).wf(),
            region.spec_end() < u64::MAX,
            !space_contains(old(self).allocator().used_view(), region) ==> space_accepts(
                old(self).allocator().free_view(),
                region,
            ),
        ensures
            final(self).wf(),
            final(self).segments_view() == old(self).segments_view(),
            r == !space_contains(old(self).allocator().used_view(), region),
            final(self).allocator().used_view() == old(self).allocator().used_view(),
            r ==> final(self).allocator().free_view() == space_insert(
                old(self).allocator().free_view(),
                region,
            ),
            !r ==> final(self).allocator().free_view() == old(self).allocator().free_view(),
    {
        self.free.register(region)
    }

    /// Whether some segment overlaps `segment`.
    fn map_contains(&self, segment: &Segment) -> (r: Option<usize>)
        requires
            segment_in_range(*segment),
            forall|i: int|
                0 <= i < self.map@.len() ==> segment_in_range(#[trigger] self.map@[i]),
        ensures
            r matches Some(i) ==> i < self.map@.len() && first_overlap(self.map@, *segment) == Some(
                i as int,
            ),
            r is None ==> first_overlap(self.map@, *segment) is None,
    {
        let mut i: usize = 0;
        while i < self.map.len()
            invariant
                0 <= i <= self.map@.len(),
                segment_in_range(*segment),
                forall|k: int|
                    0 <= k < self.map@.len() ==> segment_in_range(#[trigger] self.map@[k]),
                forall|j: int| 0 <= j < i ==> !segments_overlap(#[trigger] self.map@[j], *segment),
            decreases self.map@.len() - i,
        {
            if self.map[i].overlaps(segment) {
                proof {
                    lemma_first_overlap_is(self.map@, *segment, i as int);
                }
                return Some(i);
            }
            i = i + 1;
        }
        None
    }

    /// Take `region` out of the free virtual addresses, unless a segment lies in it.
    pub fn forget(&mut self, region: Region) -> (r: bool)
        requires
            old(self).wf(),
            region.spec_end() < u64::MAX,
            segment_in_range(Segment::dummy_range_spec(region.base, region.size)),
            first_overlap(old(self).segments_view(), Segment::dummy_range_spec(region.base, region.size))
                is None ==> (space_contains(old(self).allocator().free_view(), region)
                ==> remove_all_ok(old(self).allocator().free_view(), region)),
        ensures
            final(self).wf(),
            final(self).segments_view() == old(self).segments_view(),
            final(self).allocator().used_view() == old(self).allocator().used_view(),
            r == (first_overlap(
                old(self).segments_view(),
                Segment::dummy_range_spec(region.base, region.size),
            ) is None && space_contains(old(self).allocator().free_view(), region)),
            r ==> final(self).allocator().free_view() == remove_all_result(
                old(self).allocator().free_view(),
                region,
            ),
            !r ==> final(self).allocator().free_view() == old(self).allocator().free_view(),
    {
        let dummy = Segment::dummy_range(region.base(), region.size());
        if self.map_contains(&dummy).is_none() {
            self.free.forget(region)
        } else {
            false
        }
    }

    /// The segments, in the order they were inserted.
    pub fn segments(&self) -> (r: &[Segment])
        ensures
            r@ == self.segments_view(),
    {
        self.map.as_slice()
    }

    /// Add `segment` unless it overlaps another; its virtual range is then marked used.
    pub fn insert(&mut self, segment: Segment) -> (r: bool)
        requires
            old(self).wf(),
            segment_in_range(segment),
            ({
                let region = Region { base: segment.virtual_base, size: segment.size };
                first_overlap(old(self).segments_view(), segment) is None ==> (!space_contains(
                    old(self).allocator().free_view(),
                    region,
                ) ==> space_accepts(old(self).allocator().used_view(), region))
            }),
        ensures
            final(self).wf(),
            r == first_overlap(old(self).segments_view(), segment) is None,
            r ==> final(self).segments_view() == old(self).segments_view().push(segment),
            !r ==> final(self).segments_view() == old(self).segments_view(),
            !r ==> final(self).allocator().free_view() == old(self).allocator().free_view(),
            !r ==> final(self).allocator().used_view() == old(self).allocator().used_view(),
            ({
                let region = Region { base: segment.virtual_base, size: segment.size };
                r ==> final(self).allocator().free_view() == old(self).allocator().free_view() && (
                if space_contains(old(self).allocator().free_view(), region) {
                    final(self).allocator().used_view() == old(self).allocator().used_view()
                } else {
                    final(self).allocator().used_view() == space_insert(
                        old(self).allocator().used_view(),
                        region,
                    )
                })
            }),
    {
        if self.map_contains(&segment).is_some() {
            return false;
        }
        proof {
            assert forall|j: int| 0 <= j < self.map@.len() implies !segments_overlap(
                #[trigger] self.map@[j],
                segment,
            ) by {
                if segments_overlap(self.map@[j], segment) {
                    assert(exists|i: int|
                        0 <= i < self.map@.len() && segments_overlap(self.map@[i], segment));
                }
            }
        }
        let ghost old_map = self.map@;
        self.map.push(segment);
        proof {
            let m = self.map@;
            assert forall|i: int, j: int|
                0 <= i < m.len() && 0 <= j < m.len() && i != j implies !segments_overlap(
                #[trigger] m[i],
                #[trigger] m[j],
            ) by {
                if i == m.len() - 1 {
                    assert(!segments_overlap(old_map[j], segment));
                    lemma_overlap_symmetric(segment, old_map[j]);
                } else if j == m.len() - 1 {
                    assert(!segments_overlap(old_map[i], segment));
                } else {
                    assert(m[i] == old_map[i] && m[j] == old_map[j]);
                }
            }
        }
        let region = Region::new(segment.virtual_base(), segment.size());
        let marked = self.free.set_used(region);
        true
    }

    /// Whether `insert(segment)` finishes without a failed check.
    pub fn can_insert(&self, segment: &Segment) -> (r: bool)
        requires
            self.wf(),
        ensures
            r == (segment_in_range(*segment) && ({
                let region = Region { base: segment.virtual_base, size: segment.size };
                first_overlap(self.segments_view(), *segment) is None ==> (!space_contains(
                    self.allocator().free_view(),
                    region,
                ) ==> space_accepts(self.allocator().used_view(), region))
            })),
    {
        if segment.virtual_base > u64::MAX - 0x1000 || segment.size > u64::MAX - 0x1000
            - segment.virtual_base {
            return false;
        }
        if self.map_contains(segment).is_some() {
            return true;
        }
        self.free.can_set_used(Region::new(segment.virtual_base, segment.size))
    }

    /// Remove the segment that overlaps `segment`, releasing its virtual range; both must
    /// succeed.
    #[verifier::rlimit(40)]
    pub fn remove(&mut self, segment: Segment) -> (r: bool)
        requires
            old(self).wf(),
            segment_in_range(segment),
            ({
                let region = Region { base: segment.virtual_base, size: segment.size };
                space_contains(old(self).allocator().used_view(), region) ==> {
                    &&& old(self).allocator().used_view().0.contains_key(region.base)
                    &&& old(self).allocator().used_view().0[region.base] == region
                    &&& space_can_insert(old(self).allocator().free_view(), region)
                }
            }),
        ensures
            final(self).wf(),
            ({
                let region = Region { base: segment.virtual_base, size: segment.size };
                let released = space_contains(old(self).allocator().used_view(), region)
                    && !space_contains(old(self).allocator().free_view(), region);
                &&& r == (released && first_overlap(old(self).segments_view(), segment) is Some)
                &&& released ==> (first_overlap(old(self).segments_view(), segment) matches Some(i)
                    ==> final(self).segments_view() == old(self).segments_view().remove(i))
                &&& !(released && first_overlap(old(self).segments_view(), segment) is Some)
                    ==> final(self).segments_view() == old(self).segments_view()
                &&& released ==> final(self).allocator().free_view() == space_insert(
                    old(self).allocator().free_view(),
                    region,
                )
                &&& space_contains(old(self).allocator().used_view(), region)
                    ==> final(self).allocator().used_view() == space_remove(
                    old(self).allocator().used_view(),
                    region,
                )
            }),
    {
        let region = Region::new(segment.virtual_base(), segment.size());
        if self.free.release(region) {
            match self.map_contains(&segment) {
                Some(i) => {
                    let ghost old_map = self.map@;
                    self.map.remove(i);
                    proof {
                        lemma_remove_keeps_disjoint(old_map, i as int);
                        assert(self.map@ == old_map.remove(i as int));
                    }
                    true
                },
                None => false,
            }
        } else {
            false
        }
    }

    /// The physical address that the virtual address `addr` translates to, if a segment maps it.
    pub fn to_physical(&self, addr: u64) -> (r: Option<u64>)
        requires
            forall|i: int|
                0 <= i < self.segments_view().len() ==> segment_in_range(
                    #[trigger] self.segments_view()[i],
                ),
            first_overlap(self.segments_view(), Segment::dummy_spec(addr)) matches Some(i) ==> {
                let s = self.segments_view()[i];
                &&& s.virtual_base <= canonical_part(addr)
                &&& canonical_part(addr) - s.virtual_base + s.physical_base <= u64::MAX
            },
            segment_in_range(Segment::dummy_spec(addr)),
        ensures
            r == match first_overlap(self.segments_view(), Segment::dummy_spec(addr)) {
                Some(i) => {
                    let s = self.segments_view()[i];
                    Some((canonical_part(addr) - s.virtual_base + s.physical_base) as u64)
                },
                None => None,
            },
    {
        let dummy = Segment::dummy(addr);
        match self.map_contains(&dummy) {
            Some(i) => {
                let segment = &self.map[i];
                Some((addr & 0xffff_ffff_ffffu64) - segment.virtual_base() + segment.physical_base())
            },
            None => None,
        }
    }

    /// The virtual address that the physical address `addr` is mapped at: the first segment
    /// whose physical range holds it (its end included) decides.
    pub fn to_virtual(&self, addr: u64) -> (r: Option<u64>)
        requires
            forall|i: int|
                0 <= i < self.segments_view().len() && (forall|j: int|
                    0 <= j < i ==> !phys_holds(#[trigger] self.segments_view()[j], addr)) ==> {
                    let s = #[trigger] self.segments_view()[i];
                    &&& s.physical_base + s.size <= u64::MAX
                    &&& phys_holds(s, addr) ==> addr - s.physical_base + s.virtual_base
                        <= u64::MAX
                },
        ensures
            r == match first_phys_holder(self.segments_view(), addr) {
                Some(i) => {
                    let s = self.segments_view()[i];
                    Some((addr - s.physical_base + s.virtual_base) as u64)
                },
                None => None,
            },
    {
        let mut i: usize = 0;
        while i < self.map.len()
            invariant
                0 <= i <= self.map@.len(),
                self.map@ == self.segments_view(),
                forall|k: int|
                    0 <= k < self.segments_view().len() && (forall|j: int|
                        0 <= j < k ==> !phys_holds(#[trigger] self.segments_view()[j], addr)) ==> {
                        let s = #[trigger] self.segments_view()[k];
                        &&& s.physical_base + s.size <= u64::MAX
                        &&& phys_holds(s, addr) ==> addr - s.physical_base + s.virtual_base
                            <= u64::MAX
                    },
                forall|j: int| 0 <= j < i ==> !phys_holds(#[trigger] self.map@[j], addr),
            decreases self.map@.len() - i,
        {
            let segment = &self.map[i];
            proof {
                assert(self.segments_view()[i as int] == *segment);
            }
            if segment.physical_base() <= addr && addr <= segment.physical_base() + segment.size() {
                proof {
                    lemma_first_phys_holder_is(self.map@, addr, i as int);
                }
                return Some(addr - segment.physical_base() + segment.virtual_base());
            }
            i = i + 1;
        }
        proof {
            assert forall|k: int| !(0 <= k < self.map@.len() && phys_holds(self.map@[k], addr)) by {
                if 0 <= k < self.map@.len() {
                    assert(!phys_holds(self.map@[k], addr));
                }
            }
        }
        None
    }
}

/// The physical range of `s`, its end included, holds `addr`.
pub open spec fn phys_holds(s: Segment, addr: u64) -> bool {
    s.physical_base <= addr && addr <= s.physical_base + s.size
}

/// The first segment whose physical range holds `addr`.
pub open spec fn first_phys_holder(segs: Seq<Segment>, addr: u64) -> Option<int> {
    if exists|i: int| 0 <= i < segs.len() && phys_holds(segs[i], addr) {
        Some(
            choose|i: int|
                0 <= i < segs.len() && phys_holds(segs[i], addr) && forall|j: int|
                    0 <= j < i ==> !phys_holds(segs[j], addr),
        )
    } else {
        None
    }
}

proof fn lemma_first_phys_holder_is(segs: Seq<Segment>, addr: u64, i: int)
    requires
        0 <= i < segs.len(),
        phys_holds(segs[i], addr),
        forall|j: int| 0 <= j < i ==> !phys_holds(segs[j], addr),
    ensures
        first_phys_holder(segs, addr) == Some(i),
{
    let c = choose|k: int|
        0 <= k < segs.len() && phys_holds(segs[k], addr) && forall|j: int|
            0 <= j < k ==> !phys_holds(segs[j], addr);
    assert(0 <= c < segs.len() && phys_holds(segs[c], addr) && forall|j: int|
        0 <= j < c ==> !phys_holds(segs[j], addr));
    if c < i {
        assert(!phys_holds(segs[c], addr));
    }
    if i < c {
        assert(!phys_holds(segs[i], addr));
    }
}

/// Removing a segment keeps the rest disjoint and in range.
proof fn lemma_remove_keeps_disjoint(segs: Seq<Segment>, i: int)
    requires
        0 <= i < segs.len(),
        segments_disjoint(segs),
        forall|k: int| 0 <= k < segs.len() ==> segment_in_range(#[trigger] segs[k]),
    ensures
        segments_disjoint(segs.remove(i)),
        forall|k: int|
            0 <= k < segs.remove(i).len() ==> segment_in_range(#[trigger] segs.remove(i)[k]),
{
    let m = segs.remove(i);
    assert forall|a: int, b: int|
        0 <= a < m.len() && 0 <= b < m.len() && a != b implies !segments_overlap(
        #[trigger] m[a],
        #[trigger] m[b],
    ) by {
        let oa = if a < i { a } else { a + 1 };
        let ob = if b < i { b } else { b + 1 };
        assert(m[a] == segs[oa] && m[b] == segs[ob]);
    }
    assert forall|k: int| 0 <= k < m.len() implies segment_in_range(#[trigger] m[k]) by {
        let ok = if k < i { k } else { k + 1 };
        assert(m[k] == segs[ok]);
    }
}

/// Overlap of segments does not depend on their order.
pub proof fn lemma_overlap_symmetric(a: Segment, b: Segment)
    ensures
        segments_overlap(a, b) == segments_overlap(b, a),
{
}

} // verus!
