use vstd::prelude::*;
use vstd::string::StringSliceAdditionalSpecFns;
use crate::constants::{align, align_spec, is_aligned_spec, HEAP_BEGIN, OPTIMISTIC_HEAP_SIZE};
use crate::region::{
    Region, Allocator, SpaceView, first_fit, carved, space_accepts, space_insert, space_apart, space_inside,
    region_inside, regions_meet, remove_all_result, remove_all_ok, space_contains,
};
use crate::paging::layout::{first_overlap, segment_in_range};
use crate::boot_info::ModuleInfo;
use crate::module::{Module, Text, Placement, Data, Type, Partition};
use crate::paging::layout::Layout;
use crate::paging::segment::{Segment, canonical_part};

verus! {

/// The UUID that every module starts with.
pub const MODULE_MAGIC: &'static str = "0af979b7-02c3-4ca6-b354-b709bec81199";

/// The UUID of the port that marks the kernel's entry point.
pub const ENTRY_PORT: &'static str = "b3de1342-4d70-449d-9752-3122338aa864";

/// The 128-bit value of the UUID that `text` spells, if it spells one.
pub uninterp spec fn uuid_value(text: Seq<char>) -> Option<u128>;

/// Parses a UUID with `uuid::Uuid::parse_str` and gives its 128-bit value
/// (`uuid::Uuid::as_u128`). The contract claims only that the result depends on the text
/// alone; which texts parse, and to what, is left to the uuid crate.
#[verifier::external_body]
fn parse_uuid(text: &str) -> (r: Option<u128>)
    ensures
        r == uuid_value(text@),
{
    match uuid::Uuid::parse_str(text) {
        Ok(id) => Some(id.as_u128()),
        Err(_) => None,
    }
}

/// Why the boot plan could not be made.
#[derive(Debug, Clone, Copy, PartialEq, Eq, Structural)]
pub enum BootError {
    /// A constant UUID did not parse.
    BadUuid,
    /// Not one decoded module per loaded module.
    ModuleCount,
    /// A module did not start with the module magic number.
    InvalidMagic,
    /// A text is not placed at an absolute address.
    UnsupportedPlacement,
    /// A text carries its data directly.
    UnsupportedData,
    /// An address computation overflows, or an alignment is zero.
    Overflow,
    /// A segment's bases are not page-aligned.
    Unaligned,
    /// No room for an empty text, the heap or the page tables.
    NoSpace,
    /// A segment overlaps one already mapped.
    SegmentRejected,
    /// The regions given break a check of the allocator or the layout.
    Inconsistent,
    /// No text provides the entry port.
    NoEntry,
}

/// Whether a text of this type is writable.
pub open spec fn text_write(ty: Type) -> bool {
    match ty {
        Type::Data { write } => write,
        _ => false,
    }
}

/// Whether a text of this type is executable.
pub open spec fn text_execute(ty: Type) -> bool {
    ty is Code
}

/// The start of partition `partition` of a module whose partitions begin at `offset`: each
/// partition starts at the next multiple of its alignment, and the ones with a lower index are
/// skipped; `None` when an alignment is zero or an address overflows.
pub open spec fn partition_offset_spec(parts: Seq<Partition>, partition: u64, offset: u64) -> Option<u64>
    decreases parts.len(),
{
    if parts.len() == 0 {
        Some(offset)
    } else {
        let p = parts[0];
        if p.align == 0 || offset + p.align > u64::MAX {
            None
        } else {
            let o = align_spec(offset, p.align);
            if p.index < partition {
                if o + p.size > u64::MAX {
                    None
                } else {
                    partition_offset_spec(parts.drop_first(), partition, (o + p.size) as u64)
                }
            } else {
                Some(o)
            }
        }
    }
}

/// The physical address where partition `partition` of a module loaded at `base` begins.
pub fn partition_offset(base: u64, module_size: u64, partitions: &[Partition], partition: u64) -> (r: Option<u64>)
    ensures
        r == (if base + module_size > u64::MAX {
            None
        } else {
            partition_offset_spec(partitions@, partition, (base + module_size) as u64)
        }),
{
    if module_size > u64::MAX - base {
        return None;
    }
    let start = base + module_size;
    let mut offset = start;
    let mut i: usize = 0;
    proof {
        assert(partitions@.subrange(0, partitions@.len() as int) =~= partitions@);
    }
    while i < partitions.len()
        invariant
            0 <= i <= partitions@.len(),
            start == base + module_size,
            partition_offset_spec(partitions@, partition, start) == partition_offset_spec(
                partitions@.subrange(i as int, partitions@.len() as int),
                partition,
                offset,
            ),
        decreases partitions@.len() - i,
    {
        let p = partitions[i];
        proof {
            let rest = partitions@.subrange(i as int, partitions@.len() as int);
            assert(rest[0] == p);
            assert(rest.drop_first() =~= partitions@.subrange(i + 1, partitions@.len() as int));
        }
        let ghost rest = partitions@.subrange(i as int, partitions@.len() as int);
        if p.align == 0 || offset > u64::MAX - p.align {
            proof {
                assert(partition_offset_spec(rest, partition, offset) == None::<u64>);
            }
            return None;
        }
        let aligned = align(offset, p.align);
        if p.index < partition {
            if p.size > u64::MAX - aligned {
                proof {
                    assert(partition_offset_spec(rest, partition, offset) == None::<u64>);
                }
                return None;
            }
            offset = aligned + p.size;
        } else {
            proof {
                assert(partition_offset_spec(rest, partition, offset) == Some(aligned));
            }
            return Some(aligned);
        }
        i = i + 1;
    }
    proof {
        assert(partitions@.subrange(i as int, partitions@.len() as int) =~= Seq::<Partition>::empty());
    }
    Some(offset)
}

/// Whether a text is writable, and whether it is executable.
pub fn text_access(ty: &Type) -> (r: (bool, bool))
    ensures
        r == (text_write(*ty), text_execute(*ty)),
{
    let write = match ty {
        Type::Data { write } => *write,
        _ => false,
    };
    let execute = match ty {
        Type::Code => true,
        _ => false,
    };
    (write, execute)
}

/// The last port of `ports` with identity `port`, as an address from `base`.
pub open spec fn port_entry(ports: Seq<crate::module::Port>, base: u64, port: u128, found: Option<u64>) -> Option<u64>
    decreases ports.len(),
{
    if ports.len() == 0 {
        found
    } else {
        let next = if ports[0].identity == port {
            Some((base + ports[0].offset) as u64)
        } else {
            found
        };
        port_entry(ports.drop_first(), base, port, next)
    }
}

/// Every port with identity `port` lies at an address from `base` that fits in 64 bits.
pub open spec fn ports_fit(ports: Seq<crate::module::Port>, base: u64, port: u128) -> bool {
    forall|i: int| 0 <= i < ports.len() && (#[trigger] ports[i]).identity == port ==> base
        + ports[i].offset <= u64::MAX
}

/// The entry point that a text provides at `base`, or `found` when it provides none.
pub fn find_entry(text: &Text, base: u64, port: u128, found: Option<u64>) -> (r: Result<Option<u64>, BootError>)
    ensures
        ports_fit(text.provides@, base, port) ==> r == Ok::<Option<u64>, BootError>(
            port_entry(text.provides@, base, port, found),
        ),
        !ports_fit(text.provides@, base, port) ==> r == Err::<Option<u64>, BootError>(
            BootError::Overflow,
        ),
{
    let mut entry = found;
    let mut i: usize = 0;
    proof {
        assert(text.provides@.subrange(0, text.provides@.len() as int) =~= text.provides@);
    }
    while i < text.provides.len()
        invariant
            0 <= i <= text.provides@.len(),
            forall|j: int|
                0 <= j < i && (#[trigger] text.provides@[j]).identity == port ==> base
                    + text.provides@[j].offset <= u64::MAX,
            port_entry(text.provides@, base, port, found) == port_entry(
                text.provides@.subrange(i as int, text.provides@.len() as int),
                base,
                port,
                entry,
            ),
        decreases text.provides@.len() - i,
    {
        let p = text.provides[i];
        proof {
            let rest = text.provides@.subrange(i as int, text.provides@.len() as int);
            assert(rest[0] == p);
            assert(rest.drop_first() =~= text.provides@.subrange(i + 1, text.provides@.len() as int));
        }
        if p.identity == port {
            if p.offset > u64::MAX - base {
                proof {
                    assert(!ports_fit(text.provides@, base, port)) by {
                        assert(text.provides@[i as int].identity == port);
                    }
                }
                return Err(BootError::Overflow);
            }
            entry = Some(base + p.offset);
        }
        i = i + 1;
    }
    proof {
        assert(text.provides@.subrange(i as int, text.provides@.len() as int) =~= Seq::<
            crate::module::Port,
        >::empty());
    }
    Ok(entry)
}

/// The address of a text placed absolutely (zero otherwise).
pub open spec fn text_base(t: Text) -> u64 {
    match t.base {
        Placement::Absolute(a) => a,
        _ => 0,
    }
}

/// The texts of a sequence of modules, module after module: pairs of module and text index.
pub open spec fn flat_texts(modules: Seq<Module>) -> Seq<(int, int)>
    decreases modules.len(),
{
    if modules.len() == 0 {
        Seq::empty()
    } else {
        let i = modules.len() - 1;
        flat_texts(modules.drop_last()) + Seq::new(
            modules.last().texts@.len(),
            |j: int| (i, j),
        )
    }
}

/// The text that a flat index names.
pub open spec fn text_at(modules: Seq<Module>, at: (int, int)) -> Text {
    modules[at.0].texts@[at.1]
}

/// The entry point found in the first `n` texts: the last port with identity `port`.
pub open spec fn entry_upto(modules: Seq<Module>, flat: Seq<(int, int)>, port: u128, n: int) -> Option<u64>
    decreases n,
{
    if n <= 0 {
        None
    } else {
        let t = text_at(modules, flat[n - 1]);
        port_entry(t.provides@, text_base(t), port, entry_upto(modules, flat, port, n - 1))
    }
}

/// `seg` maps text `t` of `module`, loaded at `module_base`: at the text's absolute address,
/// with its size and access, from its partition data or from a page-aligned allocation.
pub open spec fn maps_text(t: Text, module: Module, module_base: u64, seg: Segment) -> bool {
    &&& t.base is Absolute
    &&& seg.virtual_base == canonical_part(text_base(t))
    &&& seg.size == t.size
    &&& seg.allocate
    &&& seg.write == text_write(t.ty)
    &&& seg.execute == text_execute(t.ty)
    &&& !seg.user
    &&& !seg.global
    &&& match t.data {
        Data::Offset { partition, offset } => {
            &&& module_base + module.size <= u64::MAX
            &&& partition_offset_spec(module.partitions@, partition, (module_base + module.size) as u64)
                matches Some(o)
            &&& seg.physical_base == o + offset
        },
        Data::Empty => is_aligned_spec(seg.physical_base, 0x1000),
        Data::Direct(_) => false,
    }
}

/// What booting plans: the address-space layout of the kernel, its entry point, and the
/// physical memory of the early heap and of the page tables.
pub struct BootPlan {
    pub layout: Layout,
    pub entry: u64,
    pub heap: Region,
    pub pages: Region,
}

/// The low memory that boot never hands out: the first 2 megabytes.
pub open spec fn low_memory() -> Region {
    Region { base: 0, size: 0x200000 }
}

/// Where boot may place memory: inside one of the `available` regions, away from the first
/// `n` loaded modules and, when `low` holds, from the first 2 megabytes.
pub open spec fn placeable(x: Region, available: Seq<Region>, grub: Seq<ModuleInfo>, n: int, low: bool) -> bool {
    &&& exists|i: int| 0 <= i < available.len() && region_inside(x, #[trigger] available[i])
    &&& forall|q: int| 0 <= q < n ==> !regions_meet(x, #[trigger] grub[q].memory)
    &&& low ==> !regions_meet(x, low_memory())
}

/// Every free region of `s` is placeable.
pub open spec fn space_placeable(s: SpaceView, available: Seq<Region>, grub: Seq<ModuleInfo>, n: int, low: bool) -> bool {
    forall|k: u64| #[trigger] s.0.contains_key(k) ==> placeable(s.0[k], available, grub, n, low)
}

/// What lies inside a placeable region is placeable.
proof fn lemma_inside_placeable(x: Region, y: Region, available: Seq<Region>, grub: Seq<ModuleInfo>, n: int, low: bool)
    requires
        region_inside(x, y),
        placeable(y, available, grub, n, low),
    ensures
        placeable(x, available, grub, n, low),
{
    let i = choose|i: int| 0 <= i < available.len() && region_inside(y, #[trigger] available[i]);
    assert(region_inside(x, available[i]));
}

/// A space whose regions lie inside those of a placeable space is placeable.
proof fn lemma_space_inside_placeable(t: SpaceView, s: SpaceView, available: Seq<Region>, grub: Seq<ModuleInfo>, n: int, low: bool)
    requires
        space_inside(t, s),
        space_placeable(s, available, grub, n, low),
    ensures
        space_placeable(t, available, grub, n, low),
{
    assert forall|k: u64| #[trigger] t.0.contains_key(k) implies placeable(t.0[k], available, grub, n, low) by {
        let j = choose|j: u64| #[trigger] s.0.contains_key(j) && region_inside(t.0[k], s.0[j]);
        lemma_inside_placeable(t.0[k], s.0[j], available, grub, n, low);
    }
}

/// Where the memory of `text` of `module`, loaded at `module_base`, lies: in the module's
/// partition, or taken from `allocator` for an empty text.
#[verifier::rlimit(50)]
fn text_physical_place(allocator: &mut Allocator, module: &Module, module_base: u64, text: &Text) -> (r: Result<u64, BootError>)
    requires
        old(allocator).wf(),
    ensures
        final(allocator).wf(),
        match text_physical(old(allocator).free_view(), old(allocator).used_view(), *module, module_base, *text) {
            Ok((f, u, p)) => r == Ok::<u64, BootError>(p) && final(allocator).free_view() == f
                && final(allocator).used_view() == u,
            Err(e) => r == Err::<u64, BootError>(e),
        },
        space_apart(old(allocator).free_view()) ==> space_apart(final(allocator).free_view())
            && space_inside(final(allocator).free_view(), old(allocator).free_view()),
{
    let ghost free0 = allocator.free_view();
    proof {
        assert forall|k: u64| #[trigger] free0.0.contains_key(k) implies exists|j: u64|
            #[trigger] free0.0.contains_key(j) && region_inside(free0.0[k], free0.0[j]) by {
            assert(region_inside(free0.0[k], free0.0[k]));
        }
    }
    let physical = match &text.data {
        Data::Offset { partition, offset: data_offset } => {
            let start = match partition_offset(
                module_base,
                module.size,
                module.partitions.as_slice(),
                *partition,
            ) {
                Some(o) => o,
                None => {
                    return Err(BootError::Overflow);
                },
            };
            if *data_offset > u64::MAX - start {
                return Err(BootError::Overflow);
            }
            start + *data_offset
        },
        Data::Empty => {
            if !allocator.can_allocate(text.size, 0x1000) {
                return Err(BootError::Inconsistent);
            }
            match allocator.allocate(text.size, 0x1000) {
                Some(place) => {
                    proof {
                        let k = first_fit(free0.0, text.size, 0x1000)->0;
                        assert(place == carved(free0.0, k, text.size, 0x1000));
                        if space_apart(free0) {
                            crate::region::lemma_remove_all_apart(free0, place);
                        }
                    }
                    place.base()
                },
                None => {
                    return Err(BootError::NoSpace);
                },
            }
        },
        Data::Direct(_) => {
            return Err(BootError::UnsupportedData);
        },
    };
    Ok(physical)
}

/// Map one text of a module into `layout`, taking physical memory from `allocator` for an empty
/// text.
#[verifier::rlimit(100)]
#[verifier::spinoff_prover]
fn place_text(
    layout: &mut Layout,
    allocator: &mut Allocator,
    module: &Module,
    module_base: u64,
    text: &Text,
    found: Ghost<Option<u64>>,
) -> (r: Result<(), BootError>)
    requires
        old(layout).wf(),
        old(allocator).wf(),
    ensures
        final(layout).wf(),
        final(allocator).wf(),
        r is Ok ==> final(layout).segments_view().len() == old(layout).segments_view().len() + 1
            && final(layout).segments_view().drop_last() == old(layout).segments_view() && maps_text(
            *text,
            *module,
            module_base,
            final(layout).segments_view().last(),
        ),
        r == Err::<(), BootError>(BootError::UnsupportedPlacement) <==> !(text.base is Absolute),
        r == Err::<(), BootError>(BootError::UnsupportedData) ==> text.data is Direct,
        r matches Err(e) ==> e != BootError::BadUuid && e != BootError::ModuleCount && e
            != BootError::InvalidMagic && e != BootError::NoEntry,
        space_apart(old(allocator).free_view()) ==> space_apart(final(allocator).free_view())
            && space_inside(final(allocator).free_view(), old(allocator).free_view()),
        match place_spec(state_of(*old(layout), *old(allocator), found@), *module, module_base, *text) {
            Ok(st) => r is Ok && state_of(*final(layout), *final(allocator), found@) == st,
            Err(e) => r == Err::<(), BootError>(e),
        },
{
    let ghost st0 = state_of(*layout, *allocator, found@);
    let base = match text.base {
        Placement::Absolute(a) => a,
        _ => {
            return Err(BootError::UnsupportedPlacement);
        },
    };
    let (write, execute) = text_access(&text.ty);
    let physical = match text_physical_place(allocator, module, module_base, text) {
        Ok(p) => p,
        Err(e) => {
            return Err(e);
        },
    };
    if !crate::constants::is_aligned(physical, 0x1000) || !crate::constants::is_aligned(base, 0x1000) {
        return Err(BootError::Unaligned);
    }
    let segment = Segment::new(physical, base, text.size, write, false, execute, false);
    if !layout.can_insert(&segment) {
        return Err(BootError::Inconsistent);
    }
    let ghost before = layout.segments_view();
    if !layout.insert(segment) {
        return Err(BootError::SegmentRejected);
    }
    proof {
        assert(layout.segments_view().drop_last() =~= before);
    }
    Ok(())
}

/// The texts of the first `i + 1` modules are those of the first `i`, then those of module `i`.
proof fn lemma_flat_step(modules: Seq<Module>, i: int)
    requires
        0 <= i < modules.len(),
    ensures
        flat_texts(modules.take(i + 1)) == flat_texts(modules.take(i)) + Seq::new(
            modules[i].texts@.len(),
            |j: int| (i, j),
        ),
{
    let m = modules.take(i + 1);
    assert(m.drop_last() =~= modules.take(i));
    assert(m.last() == modules[i]);
}

/// Every flat index of the first `i` modules names a module below `i` and one of its texts.
proof fn lemma_flat_bounds(modules: Seq<Module>, i: int)
    requires
        0 <= i <= modules.len(),
    ensures
        forall|k: int|
            0 <= k < flat_texts(modules.take(i)).len() ==> {
                let at = #[trigger] flat_texts(modules.take(i))[k];
                0 <= at.0 < i && 0 <= at.1 < modules[at.0].texts@.len()
            },
    decreases i,
{
    if i > 0 {
        lemma_flat_bounds(modules, i - 1);
        lemma_flat_step(modules, i - 1);
        let prev = flat_texts(modules.take(i - 1));
        assert forall|k: int| 0 <= k < flat_texts(modules.take(i)).len() implies {
            let at = #[trigger] flat_texts(modules.take(i))[k];
            0 <= at.0 < i && 0 <= at.1 < modules[at.0].texts@.len()
        } by {
            if k < prev.len() {
                assert(flat_texts(modules.take(i))[k] == prev[k]);
            }
        }
    } else {
        assert(modules.take(0) =~= Seq::<Module>::empty());
    }
}

/// The entry found in a prefix of the texts depends on that prefix only.
proof fn lemma_entry_prefix(modules: Seq<Module>, a: Seq<(int, int)>, b: Seq<(int, int)>, port: u128, n: int)
    requires
        0 <= n <= a.len(),
        n <= b.len(),
        forall|k: int| 0 <= k < n ==> a[k] == b[k],
    ensures
        entry_upto(modules, a, port, n) == entry_upto(modules, b, port, n),
    decreases n,
{
    if n > 0 {
        lemma_entry_prefix(modules, a, b, port, n - 1);
        assert(a[n - 1] == b[n - 1]);
    }
}

/// The state that planning the boot goes through: the segments mapped so far and the free and
/// used virtual addresses of the layout, the free and used physical memory, and the entry
/// found so far.
pub struct BootState {
    pub segs: Seq<Segment>,
    pub vfree: SpaceView,
    pub vused: SpaceView,
    pub pfree: SpaceView,
    pub pused: SpaceView,
    pub entry: Option<u64>,
}

/// The state that `layout`, `allocator` and `entry` stand for.
pub open spec fn state_of(layout: Layout, allocator: Allocator, entry: Option<u64>) -> BootState {
    BootState {
        segs: layout.segments_view(),
        vfree: layout.allocator().free_view(),
        vused: layout.allocator().used_view(),
        pfree: allocator.free_view(),
        pused: allocator.used_view(),
        entry,
    }
}

/// A space with no regions.
pub open spec fn empty_space() -> SpaceView {
    (Map::empty(), Map::empty())
}

/// The free memory after registering `r` with free memory `free` and used memory `used`;
/// `None` where registering it would fail a check.
pub open spec fn register_step(free: SpaceView, used: SpaceView, r: Region) -> Option<SpaceView> {
    if !(r.spec_end() < u64::MAX && (!space_contains(used, r) ==> space_accepts(free, r))) {
        None
    } else if !space_contains(used, r) {
        Some(space_insert(free, r))
    } else {
        Some(free)
    }
}

/// The free memory after registering the first `n` regions of `rs` into an empty allocator.
pub open spec fn registered_space(rs: Seq<Region>, n: int) -> Option<SpaceView>
    decreases n,
{
    if n <= 0 {
        Some(empty_space())
    } else {
        match registered_space(rs, n - 1) {
            Some(f) => register_step(f, empty_space(), rs[n - 1]),
            None => None,
        }
    }
}

/// The free memory after forgetting `r`; `None` where forgetting it would fail a check.
pub open spec fn forget_step(free: SpaceView, r: Region) -> Option<SpaceView> {
    if !(r.spec_end() < u64::MAX && (space_contains(free, r) ==> remove_all_ok(free, r))) {
        None
    } else if space_contains(free, r) {
        Some(remove_all_result(free, r))
    } else {
        Some(free)
    }
}

/// The free memory after forgetting the memory of the first `n` loaded modules.
pub open spec fn forgotten_space(free: SpaceView, grub: Seq<ModuleInfo>, n: int) -> Option<SpaceView>
    decreases n,
{
    if n <= 0 {
        Some(free)
    } else {
        match forgotten_space(free, grub, n - 1) {
            Some(f) => forget_step(f, grub[n - 1].memory),
            None => None,
        }
    }
}

/// The physical memory boot starts from: the available regions, less the loaded modules and
/// the first 2 megabytes.
pub open spec fn boot_memory(available: Seq<Region>, grub: Seq<ModuleInfo>) -> Option<SpaceView> {
    match registered_space(available, available.len() as int) {
        Some(f) => match forgotten_space(f, grub, grub.len() as int) {
            Some(g) => forget_step(g, low_memory()),
            None => None,
        },
        None => None,
    }
}

/// Whether allocating `size` bytes aligned to `align_to` from free memory `free` and used
/// memory `used` runs without a failed check.
pub open spec fn allocate_runs(free: SpaceView, used: SpaceView, size: u64, align_to: u64) -> bool {
    &&& align_to >= 1
    &&& crate::region::fit_search_ok(free.0, size, align_to)
    &&& match first_fit(free.0, size, align_to) {
        Some(k) => {
            let nr = carved(free.0, k, size, align_to);
            &&& space_accepts(used, nr)
            &&& remove_all_ok(free, nr)
        },
        None => true,
    }
}

/// A copy of `st` with other physical memory.
pub open spec fn with_physical(st: BootState, pfree: SpaceView, pused: SpaceView) -> BootState {
    BootState { segs: st.segs, vfree: st.vfree, vused: st.vused, pfree, pused, entry: st.entry }
}

/// Taking `size` bytes of physical memory, page-aligned: the state after and the region.
pub open spec fn phys_allocate(st: BootState, size: u64) -> Result<(BootState, Region), BootError> {
    if !allocate_runs(st.pfree, st.pused, size, 0x1000) {
        Err(BootError::Inconsistent)
    } else {
        match first_fit(st.pfree.0, size, 0x1000) {
            Some(k) => {
                let nr = carved(st.pfree.0, k, size, 0x1000);
                Ok((with_physical(st, remove_all_result(st.pfree, nr), space_insert(st.pused, nr)), nr))
            },
            None => Err(BootError::NoSpace),
        }
    }
}

/// Mapping `seg` in the layout.
pub open spec fn insert_step(st: BootState, seg: Segment) -> Result<BootState, BootError> {
    let region = Region { base: seg.virtual_base, size: seg.size };
    if !(segment_in_range(seg) && (first_overlap(st.segs, seg) is None ==> (!space_contains(st.vfree, region)
        ==> space_accepts(st.vused, region)))) {
        Err(BootError::Inconsistent)
    } else if first_overlap(st.segs, seg) is Some {
        Err(BootError::SegmentRejected)
    } else {
        Ok(
            BootState {
                segs: st.segs.push(seg),
                vfree: st.vfree,
                vused: if space_contains(st.vfree, region) {
                    st.vused
                } else {
                    space_insert(st.vused, region)
                },
                pfree: st.pfree,
                pused: st.pused,
                entry: st.entry,
            },
        )
    }
}

/// The segment that maps `text`, with its physical memory at `physical`.
pub open spec fn text_segment(text: Text, base: u64, physical: u64) -> Segment {
    Segment {
        physical_base: physical,
        virtual_base: canonical_part(base),
        size: text.size,
        allocate: true,
        write: text_write(text.ty),
        user: false,
        execute: text_execute(text.ty),
        global: false,
    }
}

/// Where the memory of `text` of `module`, loaded at `module_base`, lies: in the module's
/// partition, or taken from free physical memory `free` (with used memory `used`) for an empty
/// text. Gives the free and used memory after, and the physical address.
pub open spec fn text_physical(free: SpaceView, used: SpaceView, module: Module, module_base: u64, text: Text) -> Result<(SpaceView, SpaceView, u64), BootError> {
    match text.data {
        Data::Offset { partition, offset } => {
            if module_base + module.size > u64::MAX {
                Err(BootError::Overflow)
            } else {
                match partition_offset_spec(module.partitions@, partition, (module_base + module.size) as u64) {
                    Some(start) => if offset > u64::MAX - start {
                        Err(BootError::Overflow)
                    } else {
                        Ok((free, used, (start + offset) as u64))
                    },
                    None => Err(BootError::Overflow),
                }
            }
        },
        Data::Empty => if !allocate_runs(free, used, text.size, 0x1000) {
            Err(BootError::Inconsistent)
        } else {
            match first_fit(free.0, text.size, 0x1000) {
                Some(k) => {
                    let nr = carved(free.0, k, text.size, 0x1000);
                    Ok((remove_all_result(free, nr), space_insert(used, nr), nr.base))
                },
                None => Err(BootError::NoSpace),
            }
        },
        Data::Direct(_) => Err(BootError::UnsupportedData),
    }
}

/// Mapping one text of `module`, loaded at `module_base`.
pub open spec fn place_spec(st: BootState, module: Module, module_base: u64, text: Text) -> Result<BootState, BootError> {
    match text.base {
        Placement::Absolute(base) => match text_physical(st.pfree, st.pused, module, module_base, text) {
            Ok((f, u, physical)) => if !(is_aligned_spec(physical, 0x1000) && is_aligned_spec(base, 0x1000)) {
                Err(BootError::Unaligned)
            } else {
                insert_step(with_physical(st, f, u), text_segment(text, base, physical))
            },
            Err(e) => Err(e),
        },
        _ => Err(BootError::UnsupportedPlacement),
    }
}

/// Text `j` of module `i`: its entry port looked up, then the text mapped.
pub open spec fn text_step(st: BootState, modules: Seq<Module>, grub: Seq<ModuleInfo>, i: int, j: int, port: u128) -> Result<BootState, BootError> {
    let text = modules[i].texts@[j];
    match text.base {
        Placement::Absolute(base) => if !ports_fit(text.provides@, base, port) {
            Err(BootError::Overflow)
        } else {
            let found = port_entry(text.provides@, base, port, st.entry);
            place_spec(
                BootState { segs: st.segs, vfree: st.vfree, vused: st.vused, pfree: st.pfree, pused: st.pused, entry: found },
                modules[i],
                grub[i].memory.base,
                text,
            )
        },
        _ => Err(BootError::UnsupportedPlacement),
    }
}

/// The first `m` texts of module `i`, from state `st`.
pub open spec fn texts_fold(st: BootState, modules: Seq<Module>, grub: Seq<ModuleInfo>, i: int, m: int, port: u128) -> Result<BootState, BootError>
    decreases m,
{
    if m <= 0 {
        Ok(st)
    } else {
        match texts_fold(st, modules, grub, i, m - 1, port) {
            Ok(s) => text_step(s, modules, grub, i, m - 1, port),
            Err(e) => Err(e),
        }
    }
}

/// The first `n` modules, from state `st`: each is checked for the magic, then its texts are
/// mapped.
pub open spec fn modules_fold(st: BootState, modules: Seq<Module>, grub: Seq<ModuleInfo>, magic: u128, port: u128, n: int) -> Result<BootState, BootError>
    decreases n,
{
    if n <= 0 {
        Ok(st)
    } else {
        match modules_fold(st, modules, grub, magic, port, n - 1) {
            Ok(s) => if modules[n - 1].magic != magic {
                Err(BootError::InvalidMagic)
            } else {
                texts_fold(s, modules, grub, n - 1, modules[n - 1].texts@.len() as int, port)
            },
            Err(e) => Err(e),
        }
    }
}

/// The segment of the boot image.
pub open spec fn image_segment(image_end: u64) -> Segment {
    Segment {
        physical_base: 0,
        virtual_base: canonical_part(0),
        size: image_end,
        allocate: true,
        write: true,
        user: false,
        execute: true,
        global: false,
    }
}

/// The segment of the early heap, at `physical`.
pub open spec fn heap_segment(physical: u64) -> Segment {
    Segment {
        physical_base: physical,
        virtual_base: canonical_part(HEAP_BEGIN),
        size: OPTIMISTIC_HEAP_SIZE as u64,
        allocate: true,
        write: true,
        user: false,
        execute: false,
        global: false,
    }
}

/// The last steps: the heap and the page tables are taken, the boot image and the heap are
/// mapped, and an entry must have been found.
pub open spec fn finish_error(st: BootState, image_end: u64) -> Option<BootError> {
    match phys_allocate(st, OPTIMISTIC_HEAP_SIZE as u64) {
        Ok((s1, heap)) => match phys_allocate(s1, OPTIMISTIC_HEAP_SIZE as u64) {
            Ok((s2, pages)) => match insert_step(s2, image_segment(image_end)) {
                Ok(s3) => if !is_aligned_spec(HEAP_BEGIN, 0x1000) {
                    Some(BootError::Unaligned)
                } else {
                    match insert_step(s3, heap_segment(heap.base)) {
                        Ok(s4) => if s4.entry is None {
                            Some(BootError::NoEntry)
                        } else {
                            None
                        },
                        Err(e) => Some(e),
                    }
                },
                Err(e) => Some(e),
            },
            Err(e) => Some(e),
        },
        Err(e) => Some(e),
    }
}

/// The state texts are mapped from: nothing mapped, and physical memory `free`.
pub open spec fn start_state(free: SpaceView) -> BootState {
    BootState {
        segs: Seq::empty(),
        vfree: empty_space(),
        vused: empty_space(),
        pfree: free,
        pused: empty_space(),
        entry: None,
    }
}

/// Why planning the boot fails, `None` when it succeeds.
pub open spec fn plan_error(
    available: Seq<Region>,
    grub: Seq<ModuleInfo>,
    modules: Seq<Module>,
    image_end: u64,
    magic: u128,
    port: u128,
) -> Option<BootError> {
    if modules.len() != grub.len() {
        Some(BootError::ModuleCount)
    } else {
        match boot_memory(available, grub) {
            Some(f) => if image_end >= HEAP_BEGIN {
                Some(BootError::NoSpace)
            } else {
                match modules_fold(start_state(f), modules, grub, magic, port, modules.len() as int) {
                    Ok(st) => finish_error(st, image_end),
                    Err(e) => Some(e),
                }
            },
            None => Some(BootError::Inconsistent),
        }
    }
}

/// Once registering fails a check, it stays failed.
proof fn lemma_registered_stuck(rs: Seq<Region>, n: int, m: int)
    requires
        0 <= n <= m,
        registered_space(rs, n) is None,
    ensures
        registered_space(rs, m) is None,
    decreases m - n,
{
    if m > n {
        lemma_registered_stuck(rs, n, m - 1);
    }
}

/// Once forgetting fails a check, it stays failed.
proof fn lemma_forgotten_stuck(free: SpaceView, grub: Seq<ModuleInfo>, n: int, m: int)
    requires
        0 <= n <= m,
        forgotten_space(free, grub, n) is None,
    ensures
        forgotten_space(free, grub, m) is None,
    decreases m - n,
{
    if m > n {
        lemma_forgotten_stuck(free, grub, n, m - 1);
    }
}

/// Once a text fails, the texts of its module fail the same way.
proof fn lemma_texts_stuck(st: BootState, modules: Seq<Module>, grub: Seq<ModuleInfo>, i: int, n: int, m: int, port: u128, e: BootError)
    requires
        0 <= n <= m,
        texts_fold(st, modules, grub, i, n, port) == Err::<BootState, BootError>(e),
    ensures
        texts_fold(st, modules, grub, i, m, port) == Err::<BootState, BootError>(e),
    decreases m - n,
{
    if m > n {
        lemma_texts_stuck(st, modules, grub, i, n, m - 1, port, e);
    }
}

/// Once a module fails, planning fails the same way.
proof fn lemma_modules_stuck(st: BootState, modules: Seq<Module>, grub: Seq<ModuleInfo>, magic: u128, port: u128, n: int, m: int, e: BootError)
    requires
        0 <= n <= m,
        modules_fold(st, modules, grub, magic, port, n) == Err::<BootState, BootError>(e),
    ensures
        modules_fold(st, modules, grub, magic, port, m) == Err::<BootState, BootError>(e),
    decreases m - n,
{
    if m > n {
        lemma_modules_stuck(st, modules, grub, magic, port, n, m - 1, e);
    }
}

/// A well-formed space with no region under any base is empty.
proof fn lemma_empty_space(s: SpaceView)
    requires
        crate::region::space_wf(s),
        s.0 == Map::<u64, Region>::empty(),
    ensures
        s == empty_space(),
{
    assert forall|e: u64| !s.1.contains_key(e) by {
        if s.1.contains_key(e) {
            assert(s.0.contains_key(s.1[e].base));
        }
    }
    assert(s.1 =~= Map::<u64, Region>::empty());
}

/// The physical memory boot starts from: the `available` regions registered, then the
/// memory of the loaded modules and the first 2 megabytes forgotten; `None` where a step would
/// fail a check.
#[verifier::rlimit(50)]
fn boot_allocator(available: &[Region], grub_modules: &[ModuleInfo]) -> (r: Option<Allocator>)
    ensures
        r is None <==> boot_memory(available@, grub_modules@) is None,
        r matches Some(a) ==> {
            &&& a.wf()
            &&& Some(a.free_view()) == boot_memory(available@, grub_modules@)
            &&& a.used_view() == empty_space()
            &&& space_apart(a.free_view())
            &&& space_placeable(a.free_view(), available@, grub_modules@, grub_modules@.len() as int, true)
        },
{
    let mut available_memory = Allocator::new();
    proof {
        assert(space_apart(available_memory.free_view()));
        lemma_empty_space(available_memory.free_view());
        lemma_empty_space(available_memory.used_view());
    }
    let mut i: usize = 0;
    while i < available.len()
        invariant
            available_memory.wf(),
            0 <= i <= available@.len(),
            space_apart(available_memory.free_view()),
            space_placeable(available_memory.free_view(), available@, grub_modules@, 0, false),
            registered_space(available@, i as int) == Some(available_memory.free_view()),
            available_memory.used_view() == empty_space(),
        decreases available@.len() - i,
    {
        if !available_memory.can_register(available[i]) {
            proof {
                assert(registered_space(available@, i + 1) is None);
                lemma_registered_stuck(available@, i + 1, available@.len() as int);
            }
            return None;
        }
        let ghost f0 = available_memory.free_view();
        let registered = available_memory.register(available[i]);
        proof {
            if registered {
                crate::region::lemma_insert_apart(f0, available@[i as int]);
                let f1 = available_memory.free_view();
                assert forall|k: u64| #[trigger] f1.0.contains_key(k) implies placeable(
                    f1.0[k],
                    available@,
                    grub_modules@,
                    0,
                    false,
                ) by {
                    if k == available@[i as int].base {
                        assert(region_inside(f1.0[k], available@[i as int]));
                    } else {
                        assert(f0.0.contains_key(k));
                    }
                }
            }
        }
        i = i + 1;
    }
    let ghost registered_free = available_memory.free_view();
    let mut i: usize = 0;
    while i < grub_modules.len()
        invariant
            available_memory.wf(),
            0 <= i <= grub_modules@.len(),
            space_apart(available_memory.free_view()),
            space_placeable(available_memory.free_view(), available@, grub_modules@, i as int, false),
            registered_space(available@, available@.len() as int) == Some(registered_free),
            forgotten_space(registered_free, grub_modules@, i as int) == Some(available_memory.free_view()),
            available_memory.used_view() == empty_space(),
        decreases grub_modules@.len() - i,
    {
        if !available_memory.can_forget(grub_modules[i].memory) {
            proof {
                assert(forgotten_space(registered_free, grub_modules@, i + 1) is None);
                lemma_forgotten_stuck(registered_free, grub_modules@, i + 1, grub_modules@.len() as int);
            }
            return None;
        }
        let ghost f0 = available_memory.free_view();
        let forgotten = available_memory.forget(grub_modules[i].memory);
        proof {
            let m = grub_modules@[i as int].memory;
            if forgotten {
                crate::region::lemma_remove_all_apart(f0, m);
                lemma_space_inside_placeable(
                    available_memory.free_view(),
                    f0,
                    available@,
                    grub_modules@,
                    i as int,
                    false,
                );
            } else {
                crate::region::lemma_apart_misses(f0, m);
            }
            let f1 = available_memory.free_view();
            assert forall|k: u64| #[trigger] f1.0.contains_key(k) implies placeable(
                f1.0[k],
                available@,
                grub_modules@,
                i + 1,
                false,
            ) by {
                assert(!regions_meet(f1.0[k], m));
                assert(placeable(f1.0[k], available@, grub_modules@, i as int, false));
            }
        }
        i = i + 1;
    }
    let low = Region::new(0x0, 0x200000);
    let ghost modules_free = available_memory.free_view();
    if !available_memory.can_forget(low) {
        return None;
    }
    let ghost f0 = available_memory.free_view();
    let forgotten = available_memory.forget(low);
    proof {
        let n = grub_modules@.len() as int;
        if forgotten {
            crate::region::lemma_remove_all_apart(f0, low);
            lemma_space_inside_placeable(available_memory.free_view(), f0, available@, grub_modules@, n, false);
        } else {
            crate::region::lemma_apart_misses(f0, low);
        }
        let f1 = available_memory.free_view();
        assert forall|k: u64| #[trigger] f1.0.contains_key(k) implies placeable(
            f1.0[k],
            available@,
            grub_modules@,
            n,
            true,
        ) by {
            assert(!regions_meet(f1.0[k], low));
            assert(placeable(f1.0[k], available@, grub_modules@, n, false));
        }
    }
    Some(available_memory)
}

/// Map every text of every module into a new layout, taking physical memory for empty texts
/// from `available_memory`, and find the kernel's entry port; the modules must carry `magic`.
#[verifier::rlimit(100)]
#[verifier::spinoff_prover]
fn map_modules(
    available_memory: &mut Allocator,
    grub_modules: &[ModuleInfo],
    modules: &[Module],
    magic: u128,
    entry_port: u128,
    available: Ghost<Seq<Region>>,
) -> (r: Result<(Layout, Option<u64>), BootError>)
    requires
        old(available_memory).wf(),
        modules@.len() == grub_modules@.len(),
        space_apart(old(available_memory).free_view()),
        space_placeable(old(available_memory).free_view(), available@, grub_modules@, grub_modules@.len() as int, true),
    ensures
        final(available_memory).wf(),
        space_apart(final(available_memory).free_view()),
        space_placeable(final(available_memory).free_view(), available@, grub_modules@, grub_modules@.len() as int, true),
        match modules_fold(
            mapping_start(old(available_memory).free_view(), old(available_memory).used_view()),
            modules@,
            grub_modules@,
            magic,
            entry_port,
            modules@.len() as int,
        ) {
            Ok(st) => r matches Ok((layout, entry)) && state_of(layout, *final(available_memory), entry) == st,
            Err(e) => r == Err::<(Layout, Option<u64>), BootError>(e),
        },
        r matches Err(e) ==> e != BootError::BadUuid && e != BootError::ModuleCount && e != BootError::NoEntry,
        r == Err::<(Layout, Option<u64>), BootError>(BootError::InvalidMagic) ==> exists|i: int|
            0 <= i < modules@.len() && #[trigger] modules@[i].magic != magic,
        r == Err::<(Layout, Option<u64>), BootError>(BootError::UnsupportedPlacement) ==> exists|i: int, j: int|
            0 <= i < modules@.len() && 0 <= j < modules@[i].texts@.len() && !(#[trigger] modules@[i].texts@[j].base is Absolute),
        r == Err::<(Layout, Option<u64>), BootError>(BootError::UnsupportedData) ==> exists|i: int, j: int|
            0 <= i < modules@.len() && 0 <= j < modules@[i].texts@.len() && (#[trigger] modules@[i].texts@[j].data is Direct),
        r matches Ok((layout, entry)) ==> {
            let flat = flat_texts(modules@);
            &&& layout.wf()
            &&& forall|i: int| 0 <= i < modules@.len() ==> #[trigger] modules@[i].magic == magic
            &&& layout.segments_view().len() == flat.len()
            &&& forall|k: int|
                0 <= k < flat.len() ==> maps_text(
                    text_at(modules@, #[trigger] flat[k]),
                    modules@[flat[k].0],
                    grub_modules@[flat[k].0].memory.base,
                    layout.segments_view()[k],
                )
            &&& entry == entry_upto(modules@, flat, entry_port, flat.len() as int)
        },
{
    let ghost st0 = mapping_start(available_memory.free_view(), available_memory.used_view());
    let mut layout = Layout::new();
    let mut entry: Option<u64> = None;
    let ghost all = modules@;
    let mut i: usize = 0;
    proof {
        assert(modules@.take(0) =~= Seq::<Module>::empty());
        lemma_empty_space(layout.allocator().free_view());
        lemma_empty_space(layout.allocator().used_view());
        assert(state_of(layout, *available_memory, entry) == st0);
    }
    while i < modules.len()
        invariant
            all == modules@,
            modules@.len() == grub_modules@.len(),
            0 <= i <= modules@.len(),
            modules_fold(st0, modules@, grub_modules@, magic, entry_port, i as int) == Ok::<BootState, BootError>(
                state_of(layout, *available_memory, entry),
            ),
            st0 == mapping_start(old(available_memory).free_view(), old(available_memory).used_view()),
            layout.wf(),
            available_memory.wf(),
            space_apart(available_memory.free_view()),
            space_placeable(available_memory.free_view(), available@, grub_modules@, grub_modules@.len() as int, true),
            forall|q: int| 0 <= q < i ==> #[trigger] modules@[q].magic == magic,
            layout.segments_view().len() == flat_texts(modules@.take(i as int)).len(),
            forall|k: int|
                0 <= k < flat_texts(modules@.take(i as int)).len() ==> maps_text(
                    text_at(modules@, #[trigger] flat_texts(modules@.take(i as int))[k]),
                    modules@[flat_texts(modules@.take(i as int))[k].0],
                    grub_modules@[flat_texts(modules@.take(i as int))[k].0].memory.base,
                    layout.segments_view()[k],
                ),
            entry == entry_upto(
                modules@,
                flat_texts(modules@.take(i as int)),
                entry_port,
                flat_texts(modules@.take(i as int)).len() as int,
            ),
        decreases modules@.len() - i,
    {
        let module = &modules[i];
        let module_base = grub_modules[i].memory.base;
        if module.magic != magic {
            proof {
                lemma_modules_stuck(st0, modules@, grub_modules@, magic, entry_port, i + 1, modules@.len() as int, BootError::InvalidMagic);
            }
            return Err(BootError::InvalidMagic);
        }
        let ghost st_i = state_of(layout, *available_memory, entry);
        let ghost prev = flat_texts(modules@.take(i as int));
        let ghost next = flat_texts(modules@.take(i + 1));
        proof {
            lemma_flat_step(modules@, i as int);
            lemma_flat_bounds(modules@, i as int);
            lemma_flat_bounds(modules@, i + 1);
            lemma_entry_prefix(modules@, prev, next, entry_port, prev.len() as int);
        }
        let mut j: usize = 0;
        while j < module.texts.len()
            invariant
                all == modules@,
                modules@.len() == grub_modules@.len(),
                0 <= i < modules@.len(),
                0 <= j <= modules@[i as int].texts@.len(),
                modules@[i as int].magic == magic,
                modules_fold(st0, modules@, grub_modules@, magic, entry_port, i as int) == Ok::<BootState, BootError>(st_i),
                st0 == mapping_start(old(available_memory).free_view(), old(available_memory).used_view()),
                texts_fold(st_i, modules@, grub_modules@, i as int, j as int, entry_port) == Ok::<BootState, BootError>(
                    state_of(layout, *available_memory, entry),
                ),
                *module == modules@[i as int],
                module_base == grub_modules@[i as int].memory.base,
                layout.wf(),
                available_memory.wf(),
                space_apart(available_memory.free_view()),
                space_placeable(available_memory.free_view(), available@, grub_modules@, grub_modules@.len() as int, true),
                forall|q: int| 0 <= q <= i ==> #[trigger] modules@[q].magic == magic,
                prev == flat_texts(modules@.take(i as int)),
                next == flat_texts(modules@.take(i + 1)),
                next == prev + Seq::new(modules@[i as int].texts@.len(), |q: int| (i as int, q)),
                forall|k: int|
                    0 <= k < prev.len() ==> {
                        let at = #[trigger] prev[k];
                        0 <= at.0 < i && 0 <= at.1 < modules@[at.0].texts@.len()
                    },
                layout.segments_view().len() == prev.len() + j,
                forall|k: int|
                    0 <= k < prev.len() + j ==> maps_text(
                        text_at(modules@, #[trigger] next[k]),
                        modules@[next[k].0],
                        grub_modules@[next[k].0].memory.base,
                        layout.segments_view()[k],
                    ),
                entry == entry_upto(modules@, next, entry_port, prev.len() + j),
            decreases modules@[i as int].texts@.len() - j,
        {
            let text = &module.texts[j];
            let base = match text.base {
                Placement::Absolute(a) => a,
                _ => {
                    proof {
                        assert(!(modules@[i as int].texts@[j as int].base is Absolute));
                        lemma_text_fails(st0, st_i, state_of(layout, *available_memory, entry), modules@, grub_modules@, magic, entry_port, i as int, j as int, BootError::UnsupportedPlacement);
                    }
                    return Err(BootError::UnsupportedPlacement);
                },
            };
            let ghost cur = state_of(layout, *available_memory, entry);
            let found = find_entry(text, base, entry_port, entry);
            let ghost k = prev.len() + j;
            proof {
                assert(next[k] == (i as int, j as int));
                assert(text_at(modules@, next[k]) == *text);
            }
            entry = match found {
                Ok(e) => e,
                Err(e) => {
                    proof {
                        lemma_text_fails(st0, st_i, cur, modules@, grub_modules@, magic, entry_port, i as int, j as int, e);
                    }
                    return Err(e);
                },
            };
            let ghost before = layout.segments_view();
            let ghost f0 = available_memory.free_view();
            match place_text(&mut layout, available_memory, module, module_base, text, Ghost(entry)) {
                Ok(()) => {},
                Err(e) => {
                    proof {
                        if e == BootError::UnsupportedData {
                            assert(modules@[i as int].texts@[j as int].data is Direct);
                        }
                        lemma_text_fails(st0, st_i, cur, modules@, grub_modules@, magic, entry_port, i as int, j as int, e);
                    }
                    return Err(e);
                },
            }
            proof {
                lemma_space_inside_placeable(
                    available_memory.free_view(),
                    f0,
                    available@,
                    grub_modules@,
                    grub_modules@.len() as int,
                    true,
                );
                assert forall|q: int| 0 <= q < prev.len() + j + 1 implies maps_text(
                    text_at(modules@, #[trigger] next[q]),
                    modules@[next[q].0],
                    grub_modules@[next[q].0].memory.base,
                    layout.segments_view()[q],
                ) by {
                    if q < prev.len() + j {
                        assert(layout.segments_view()[q] == before[q]);
                    }
                }
            }
            j = j + 1;
        }
        proof {
            assert(next.len() == prev.len() + j);
        }
        i = i + 1;
    }
    proof {
        assert(modules@.take(i as int) =~= modules@);
    }
    Ok((layout, entry))
}

/// The state mapping starts from: an empty layout, and physical memory `pfree` and `pused`.
pub open spec fn mapping_start(pfree: SpaceView, pused: SpaceView) -> BootState {
    BootState { segs: Seq::empty(), vfree: empty_space(), vused: empty_space(), pfree, pused, entry: None }
}

/// A text that fails makes planning fail the same way.
proof fn lemma_text_fails(
    st0: BootState,
    st_i: BootState,
    cur: BootState,
    modules: Seq<Module>,
    grub: Seq<ModuleInfo>,
    magic: u128,
    port: u128,
    i: int,
    j: int,
    e: BootError,
)
    requires
        0 <= i < modules.len(),
        0 <= j < modules[i].texts@.len(),
        modules[i].magic == magic,
        modules_fold(st0, modules, grub, magic, port, i) == Ok::<BootState, BootError>(st_i),
        texts_fold(st_i, modules, grub, i, j, port) == Ok::<BootState, BootError>(cur),
        text_step(cur, modules, grub, i, j, port) == Err::<BootState, BootError>(e),
    ensures
        modules_fold(st0, modules, grub, magic, port, modules.len() as int) == Err::<BootState, BootError>(e),
{
    lemma_texts_stuck(st_i, modules, grub, i, j + 1, modules[i].texts@.len() as int, port, e);
    lemma_modules_stuck(st0, modules, grub, magic, port, i + 1, modules.len() as int, e);
}

/// Plan the boot for modules that start with the UUID value `magic` and a kernel entry port
/// with the UUID value `entry_port`: take the available physical memory minus the loaded
/// modules and the first 2 megabytes, map every text of every module at its absolute address
/// (from its partition, or from fresh memory when it is empty), find the kernel's entry port,
/// take memory for the early heap and the page tables, and map the boot image and the heap.
#[verifier::rlimit(100)]
#[verifier::spinoff_prover]
pub fn plan_boot_for(
    available: &[Region],
    grub_modules: &[ModuleInfo],
    modules: &[Module],
    image_end: u64,
    magic: u128,
    entry_port: u128,
) -> (r: Result<BootPlan, BootError>)
    ensures
        r != Err::<BootPlan, BootError>(BootError::BadUuid),
        (r == Err::<BootPlan, BootError>(BootError::ModuleCount)) <==> modules@.len() != grub_modules@.len(),
        r == Err::<BootPlan, BootError>(BootError::InvalidMagic) ==> exists|i: int|
            0 <= i < modules@.len() && #[trigger] modules@[i].magic != magic,
        r == Err::<BootPlan, BootError>(BootError::UnsupportedPlacement) ==> exists|i: int, j: int|
            0 <= i < modules@.len() && 0 <= j < modules@[i].texts@.len() && !(#[trigger] modules@[i].texts@[j].base is Absolute),
        r == Err::<BootPlan, BootError>(BootError::UnsupportedData) ==> exists|i: int, j: int|
            0 <= i < modules@.len() && 0 <= j < modules@[i].texts@.len() && (#[trigger] modules@[i].texts@[j].data is Direct),
        r matches Ok(plan) ==> {
            let flat = flat_texts(modules@);
            let segs = plan.layout.segments_view();
            &&& plan.layout.wf()
            &&& forall|i: int| 0 <= i < modules@.len() ==> #[trigger] modules@[i].magic == magic
            &&& segs.len() == flat.len() + 2
            &&& forall|k: int|
                0 <= k < flat.len() ==> maps_text(
                    text_at(modules@, #[trigger] flat[k]),
                    modules@[flat[k].0],
                    grub_modules@[flat[k].0].memory.base,
                    segs[k],
                )
            &&& segs[flat.len() as int] == Segment {
                physical_base: 0,
                virtual_base: canonical_part(0),
                size: image_end,
                allocate: true,
                write: true,
                user: false,
                execute: true,
                global: false,
            }
            &&& segs[flat.len() as int + 1] == Segment {
                physical_base: plan.heap.base,
                virtual_base: canonical_part(HEAP_BEGIN),
                size: OPTIMISTIC_HEAP_SIZE as u64,
                allocate: true,
                write: true,
                user: false,
                execute: false,
                global: false,
            }
            &&& Some(plan.entry) == entry_upto(
                modules@,
                flat,
                entry_port,
                flat.len() as int,
            )
            &&& plan.heap.size == OPTIMISTIC_HEAP_SIZE
            &&& is_aligned_spec(plan.heap.base, 0x1000)
            &&& plan.pages.size == OPTIMISTIC_HEAP_SIZE
            &&& is_aligned_spec(plan.pages.base, 0x1000)
            &&& plan.heap.spec_end() <= plan.pages.base || plan.pages.spec_end() <= plan.heap.base
            &&& placeable(plan.heap, available@, grub_modules@, grub_modules@.len() as int, true)
            &&& placeable(plan.pages, available@, grub_modules@, grub_modules@.len() as int, true)
        },
        r == Err::<BootPlan, BootError>(BootError::NoEntry) ==> entry_upto(
            modules@,
            flat_texts(modules@),
            entry_port,
            flat_texts(modules@).len() as int,
        ) is None,
        match r {
            Ok(_) => plan_error(available@, grub_modules@, modules@, image_end, magic, entry_port) is None,
            Err(e) => plan_error(available@, grub_modules@, modules@, image_end, magic, entry_port) == Some(e),
        },
{
    if modules.len() != grub_modules.len() {
        return Err(BootError::ModuleCount);
    }
    // the physical memory that is free for the kernel

    let mut available_memory = match boot_allocator(available, grub_modules) {
        Some(a) => a,
        None => {
            return Err(BootError::Inconsistent);
        },
    };
    if image_end >= HEAP_BEGIN {
        return Err(BootError::NoSpace);
    }
    // map the texts of every module

    let (mut layout, entry) = match map_modules(
        &mut available_memory,
        grub_modules,
        modules,
        magic,
        entry_port,
        Ghost(available@),
    ) {
        Ok(mapped) => mapped,
        Err(e) => {
            return Err(e);
        },
    };
    // the early heap and the page tables

    if !available_memory.can_allocate(OPTIMISTIC_HEAP_SIZE as u64, 0x1000) {
        return Err(BootError::Inconsistent);
    }
    let ghost used0 = available_memory.used_view();
    let ghost free0 = available_memory.free_view();
    let heap = match available_memory.allocate(OPTIMISTIC_HEAP_SIZE as u64, 0x1000) {
        Some(h) => h,
        None => {
            return Err(BootError::NoSpace);
        },
    };
    proof {
        let n = grub_modules@.len() as int;
        let k = first_fit(free0.0, OPTIMISTIC_HEAP_SIZE as u64, 0x1000)->0;
        assert(heap == carved(free0.0, k, OPTIMISTIC_HEAP_SIZE as u64, 0x1000));
        assert(space_accepts(used0, heap));
        let k2 = choose|k2: u64| #[trigger] free0.0.contains_key(k2) && k2 <= heap.base && (
        OPTIMISTIC_HEAP_SIZE > 0 ==> heap.spec_end() <= free0.0[k2].spec_end());
        assert(region_inside(heap, free0.0[k2]));
        lemma_inside_placeable(heap, free0.0[k2], available@, grub_modules@, n, true);
        crate::region::lemma_remove_all_apart(free0, heap);
        lemma_space_inside_placeable(available_memory.free_view(), free0, available@, grub_modules@, n, true);
    }
    if !available_memory.can_allocate(OPTIMISTIC_HEAP_SIZE as u64, 0x1000) {
        return Err(BootError::Inconsistent);
    }
    let ghost used1 = available_memory.used_view();
    let ghost free1 = available_memory.free_view();
    let pages = match available_memory.allocate(OPTIMISTIC_HEAP_SIZE as u64, 0x1000) {
        Some(p) => p,
        None => {
            return Err(BootError::NoSpace);
        },
    };
    proof {
        let k = first_fit(free1.0, OPTIMISTIC_HEAP_SIZE as u64, 0x1000)->0;
        assert(pages == carved(free1.0, k, OPTIMISTIC_HEAP_SIZE as u64, 0x1000));
        assert(used1 == space_insert(used0, heap));
        assert(space_accepts(used1, pages));
        crate::region::lemma_accepted_apart(used0, heap, pages);
        let n = grub_modules@.len() as int;
        let k2 = choose|k2: u64| #[trigger] free1.0.contains_key(k2) && k2 <= pages.base && (
        OPTIMISTIC_HEAP_SIZE > 0 ==> pages.spec_end() <= free1.0[k2].spec_end());
        assert(region_inside(pages, free1.0[k2]));
        lemma_inside_placeable(pages, free1.0[k2], available@, grub_modules@, n, true);
    }
    // the boot image, and the heap at its fixed virtual address

    let ghost flat = flat_texts(modules@);
    let ghost texts_segs = layout.segments_view();
    assert(0u64 & 0xfffu64 == 0) by (bit_vector);
    let image = Segment::new(0, 0, image_end, true, false, true, false);
    if !layout.can_insert(&image) {
        return Err(BootError::Inconsistent);
    }
    if !layout.insert(image) {
        return Err(BootError::SegmentRejected);
    }
    if !crate::constants::is_aligned(HEAP_BEGIN, 0x1000) {
        return Err(BootError::Unaligned);
    }
    let heap_segment = Segment::new(
        heap.base(),
        HEAP_BEGIN,
        OPTIMISTIC_HEAP_SIZE as u64,
        true,
        false,
        false,
        false,
    );
    if !layout.can_insert(&heap_segment) {
        return Err(BootError::Inconsistent);
    }
    if !layout.insert(heap_segment) {
        return Err(BootError::SegmentRejected);
    }
    proof {
        assert forall|k: int| 0 <= k < flat.len() implies layout.segments_view()[k] == texts_segs[k] by {}
    }
    let entry = match entry {
        Some(e) => e,
        None => {
            return Err(BootError::NoEntry);
        },
    };
    Ok(BootPlan { layout: layout, entry: entry, heap: heap, pages: pages })
}

/// Plan the boot: take the available physical memory minus the loaded modules and the first
/// 2 megabytes, map every text of every module at its absolute address (from its partition, or
/// from fresh memory when it is empty), find the kernel's entry port, take memory for the early
/// heap and the page tables, and map the boot image and the heap.
pub fn plan_boot(
    available: &[Region],
    grub_modules: &[ModuleInfo],
    modules: &[Module],
    image_end: u64,
) -> (r: Result<BootPlan, BootError>)
    ensures
        (r == Err::<BootPlan, BootError>(BootError::BadUuid)) <==> (uuid_value(MODULE_MAGIC@) is None
            || uuid_value(ENTRY_PORT@) is None),
        (r == Err::<BootPlan, BootError>(BootError::ModuleCount)) <==> (uuid_value(
            MODULE_MAGIC@,
        ) is Some && uuid_value(ENTRY_PORT@) is Some && modules@.len() != grub_modules@.len()),
        r == Err::<BootPlan, BootError>(BootError::InvalidMagic) ==> exists|i: int|
            0 <= i < modules@.len() && Some(#[trigger] modules@[i].magic) != uuid_value(
                MODULE_MAGIC@,
            ),
        r == Err::<BootPlan, BootError>(BootError::UnsupportedPlacement) ==> exists|i: int, j: int|
            0 <= i < modules@.len() && 0 <= j < modules@[i].texts@.len() && !(#[trigger] modules@[i].texts@[j].base is Absolute),
        r == Err::<BootPlan, BootError>(BootError::UnsupportedData) ==> exists|i: int, j: int|
            0 <= i < modules@.len() && 0 <= j < modules@[i].texts@.len() && (#[trigger] modules@[i].texts@[j].data is Direct),
        r matches Ok(plan) ==> {
            let flat = flat_texts(modules@);
            let segs = plan.layout.segments_view();
            &&& plan.layout.wf()
            &&& forall|i: int| 0 <= i < modules@.len() ==> Some(#[trigger] modules@[i].magic)
                == uuid_value(MODULE_MAGIC@)
            &&& segs.len() == flat.len() + 2
            &&& forall|k: int|
                0 <= k < flat.len() ==> maps_text(
                    text_at(modules@, #[trigger] flat[k]),
                    modules@[flat[k].0],
                    grub_modules@[flat[k].0].memory.base,
                    segs[k],
                )
            &&& segs[flat.len() as int] == Segment {
                physical_base: 0,
                virtual_base: canonical_part(0),
                size: image_end,
                allocate: true,
                write: true,
                user: false,
                execute: true,
                global: false,
            }
            &&& segs[flat.len() as int + 1] == Segment {
                physical_base: plan.heap.base,
                virtual_base: canonical_part(HEAP_BEGIN),
                size: OPTIMISTIC_HEAP_SIZE as u64,
                allocate: true,
                write: true,
                user: false,
                execute: false,
                global: false,
            }
            &&& Some(plan.entry) == entry_upto(
                modules@,
                flat,
                uuid_value(ENTRY_PORT@)->0,
                flat.len() as int,
            )
            &&& plan.heap.size == OPTIMISTIC_HEAP_SIZE
            &&& is_aligned_spec(plan.heap.base, 0x1000)
            &&& plan.pages.size == OPTIMISTIC_HEAP_SIZE
            &&& is_aligned_spec(plan.pages.base, 0x1000)
            &&& plan.heap.spec_end() <= plan.pages.base || plan.pages.spec_end() <= plan.heap.base
            &&& placeable(plan.heap, available@, grub_modules@, grub_modules@.len() as int, true)
            &&& placeable(plan.pages, available@, grub_modules@, grub_modules@.len() as int, true)
        },
        r == Err::<BootPlan, BootError>(BootError::NoEntry) ==> entry_upto(
            modules@,
            flat_texts(modules@),
            uuid_value(ENTRY_PORT@)->0,
            flat_texts(modules@).len() as int,
        ) is None,
        uuid_value(MODULE_MAGIC@) is Some && uuid_value(ENTRY_PORT@) is Some ==> match r {
            Ok(_) => plan_error(
                available@,
                grub_modules@,
                modules@,
                image_end,
                uuid_value(MODULE_MAGIC@)->0,
                uuid_value(ENTRY_PORT@)->0,
            ) is None,
            Err(e) => plan_error(
                available@,
                grub_modules@,
                modules@,
                image_end,
                uuid_value(MODULE_MAGIC@)->0,
                uuid_value(ENTRY_PORT@)->0,
            ) == Some(e),
        },
{
    let magic = match parse_uuid(MODULE_MAGIC) {
        Some(m) => m,
        None => {
            return Err(BootError::BadUuid);
        },
    };
    let entry_port = match parse_uuid(ENTRY_PORT) {
        Some(p) => p,
        None => {
            return Err(BootError::BadUuid);
        },
    };
    plan_boot_for(available, grub_modules, modules, image_end, magic, entry_port)
}

} // verus!
