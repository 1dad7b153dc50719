use vstd::prelude::*;
use std::collections::BTreeMap;
use vstd::std_specs::iter::IteratorSpec;
use vstd::std_specs::cmp::OrdSpec;
use crate::constants::{align, align_spec, is_aligned_spec};

verus! {

broadcast use vstd::std_specs::btree::group_btree_axioms, vstd::laws_cmp::group_laws_cmp;

/// A span of addresses `[base, base + size)`.
#[derive(Clone, Copy, PartialEq, Eq, Structural, Debug)]
pub struct Region {
    pub base: u64,
    pub size: u64,
}

impl Region {
    /// One past the last address of the region.
    pub open spec fn spec_end(self) -> int {
        self.base + self.size
    }

    pub open spec fn end_key(self) -> u64 {
        (self.base + self.size) as u64
    }

    /// What `aligned_size` returns: the room left after aligning the base up.
    pub open spec fn aligned_size_spec(self, align_to: u64) -> u64 {
        if align_spec(self.base, align_to) > self.spec_end() {
            0
        } else {
            (self.spec_end() - align_spec(self.base, align_to)) as u64
        }
    }

    pub fn new(base: u64, size: u64) -> (r: Region)
        ensures
            r.base == base,
            r.size == size,
    {
        Region { base: base, size: size }
    }

    /// Bytes left in the region once its base is aligned up to `align_to`.
    pub fn aligned_size(&self, align_to: u64) -> (r: u64)
        requires
            align_to >= 1,
            self.base + align_to <= u64::MAX,
            self.spec_end() <= u64::MAX,
        ensures
            r == self.aligned_size_spec(align_to),
    {
        let aligned_base = align(self.base, align_to);
        if aligned_base > self.end() {
            0
        } else {
            self.end() - aligned_base
        }
    }

    /// Whether `other` lies entirely inside this region.
    pub fn contains(&self, other: &Region) -> (r: bool)
        requires
            self.spec_end() <= u64::MAX,
            other.spec_end() <= u64::MAX,
        ensures
            r == (other.base >= self.base && other.spec_end() <= self.spec_end()),
    {
        other.base() >= self.base() && other.end() <= self.end()
    }

    pub fn base(&self) -> (r: u64)
        ensures
            r == self.base,
    {
        self.base
    }

    pub fn end(&self) -> (r: u64)
        requires
            self.spec_end() <= u64::MAX,
        ensures
            r == self.spec_end(),
    {
        self.base + self.size
    }

    pub fn size(&self) -> (r: u64)
        ensures
            r == self.size,
    {
        self.size
    }

    /// Whether this region ends exactly where `other` begins.
    pub fn before(&self, other: &Region) -> (r: bool)
        requires
            self.spec_end() <= u64::MAX,
        ensures
            r == (self.spec_end() == other.base),
    {
        self.base + self.size == other.base
    }

    /// Whether `other` ends exactly where this region begins.
    pub fn after(&self, other: &Region) -> (r: bool)
        requires
            other.spec_end() <= u64::MAX,
        ensures
            r == (other.spec_end() == self.base),
    {
        other.base + other.size == self.base
    }
}

/// The two indexes of an address space: regions by base address and by end address.
pub type SpaceView = (Map<u64, Region>, Map<u64, Region>);

/// Both indexes hold the same regions, each under its own base and its own end.
pub open spec fn space_wf(s: SpaceView) -> bool {
    &&& forall|k: u64|
        #[trigger] s.0.contains_key(k) ==> {
            &&& s.0[k].base == k
            &&& s.0[k].spec_end() <= u64::MAX
            &&& s.1.contains_key(s.0[k].end_key())
            &&& s.1[s.0[k].end_key()] == s.0[k]
        }
    &&& forall|e: u64|
        #[trigger] s.1.contains_key(e) ==> {
            &&& s.1[e].spec_end() == e
            &&& s.0.contains_key(s.1[e].base)
            &&& s.0[s.1[e].base] == s.1[e]
        }
}

/// Some region of the space begins inside `r`.
pub open spec fn begins_within(s: SpaceView, r: Region) -> bool {
    exists|k: u64| #[trigger] s.0.contains_key(k) && r.base <= k && k < r.spec_end()
}

/// Some region of the space ends inside `r` (past its first byte, up to its end).
pub open spec fn ends_within(s: SpaceView, r: Region) -> bool {
    exists|e: u64| #[trigger] s.1.contains_key(e) && r.base < e && e <= r.spec_end()
}

/// `k` is the greatest key of `m` below `b`.
pub open spec fn is_last_below(m: Map<u64, Region>, b: u64, k: u64) -> bool {
    &&& m.contains_key(k)
    &&& k < b
    &&& forall|j: u64| #[trigger] m.contains_key(j) && j < b ==> j <= k
}

/// The greatest key of `m` below `b`, if any.
pub open spec fn last_below(m: Map<u64, Region>, b: u64) -> Option<u64> {
    if exists|k: u64| is_last_below(m, b, k) {
        Some(choose|k: u64| is_last_below(m, b, k))
    } else {
        None
    }
}

/// `k` is the least key of `m` at or above `e`.
pub open spec fn is_first_from(m: Map<u64, Region>, e: u64, k: u64) -> bool {
    &&& m.contains_key(k)
    &&& e <= k
    &&& forall|j: u64| #[trigger] m.contains_key(j) && e <= j ==> k <= j
}

/// The least key of `m` at or above `e`, if any.
pub open spec fn first_from(m: Map<u64, Region>, e: u64) -> Option<u64> {
    if exists|k: u64| is_first_from(m, e, k) {
        Some(choose|k: u64| is_first_from(m, e, k))
    } else {
        None
    }
}

/// The last region starting below `r` reaches past the base of `r`.
pub open spec fn straddles(s: SpaceView, r: Region) -> bool {
    match last_below(s.0, r.base) {
        Some(k) => s.0[k].spec_end() > r.base,
        None => false,
    }
}

/// What `AddressSpace::contains` decides for `r`.
pub open spec fn space_contains(s: SpaceView, r: Region) -> bool {
    begins_within(s, r) || ends_within(s, r) || straddles(s, r)
}

pub open spec fn space_insert(s: SpaceView, r: Region) -> SpaceView {
    (s.0.insert(r.base, r), s.1.insert(r.end_key(), r))
}

pub open spec fn space_remove(s: SpaceView, r: Region) -> SpaceView {
    (s.0.remove(r.base), s.1.remove(r.end_key()))
}

/// `insert(r)` finishes without a failed check: it is refused, or both keys are free.
pub open spec fn space_can_insert(s: SpaceView, r: Region) -> bool {
    &&& r.spec_end() < u64::MAX
    &&& space_contains(s, r) || (!s.0.contains_key(r.base) && !s.1.contains_key(r.end_key()))
}

/// `insert(r)` succeeds.
pub open spec fn space_accepts(s: SpaceView, r: Region) -> bool {
    &&& r.spec_end() < u64::MAX
    &&& !space_contains(s, r)
    &&& !s.0.contains_key(r.base)
    &&& !s.1.contains_key(r.end_key())
}

/// `remove_contained(r)` drops the region under key `k`.
pub open spec fn removed_by(m: Map<u64, Region>, r: Region, k: u64) -> bool {
    &&& m.contains_key(k)
    &&& r.base <= k
    &&& k < r.spec_end()
    &&& m[k].spec_end() <= r.spec_end()
}

/// The space without the regions that lie entirely inside `r` and start in it.
pub open spec fn after_remove_contained(s: SpaceView, r: Region) -> SpaceView {
    (
        Map::new(|k: u64| s.0.contains_key(k) && !removed_by(s.0, r, k), |k: u64| s.0[k]),
        Map::new(
            |e: u64| s.1.contains_key(e) && !removed_by(s.0, r, s.1[e].base),
            |e: u64| s.1[e],
        ),
    )
}

/// The part of `c` before `r`.
pub open spec fn piece_before(c: Region, r: Region) -> Region {
    Region { base: c.base, size: (r.base - c.base) as u64 }
}

/// The part of `c` after `r`.
pub open spec fn piece_after(c: Region, r: Region) -> Region {
    Region { base: r.end_key(), size: (c.spec_end() - r.spec_end()) as u64 }
}

/// The region that starts last below `r`, once the regions inside `r` are gone, when it
/// reaches into `r`: the one whose end `remove_all` cuts off.
pub open spec fn region_below(s: SpaceView, r: Region) -> Option<Region> {
    match last_below(s.0, r.base) {
        Some(k) => if s.0[k].spec_end() > r.base {
            Some(s.0[k])
        } else {
            None
        },
        None => None,
    }
}

/// The region that ends first at or after the end of `r`, when it overlaps `r`: the one
/// whose front `remove_all` cuts off.
pub open spec fn region_from(s: SpaceView, r: Region) -> Option<Region> {
    match first_from(s.1, r.end_key()) {
        Some(e) => if s.1[e].base < r.spec_end() && s.1[e].spec_end() > r.base {
            Some(s.1[e])
        } else {
            None
        },
        None => None,
    }
}

/// The space after `remove_all` once the region below has been trimmed.
pub open spec fn trimmed_below(s1: SpaceView, r: Region) -> SpaceView {
    match region_below(s1, r) {
        Some(c) => space_insert(space_remove(s1, c), piece_before(c, r)),
        None => s1,
    }
}

/// `remove_all(r)` finishes without a failed check.
pub open spec fn remove_all_ok(s: SpaceView, r: Region) -> bool {
    let s1 = after_remove_contained(s, r);
    let below = region_below(s1, r);
    let from = region_from(s1, r);
    if below is Some && below == from {
        let c = below->0;
        let s2 = space_remove(s1, c);
        &&& space_accepts(s2, piece_before(c, r))
        &&& space_accepts(space_insert(s2, piece_before(c, r)), piece_after(c, r))
    } else {
        &&& (below matches Some(c) ==> space_accepts(space_remove(s1, c), piece_before(c, r)))
        &&& (from matches Some(d) ==> space_accepts(
            space_remove(trimmed_below(s1, r), d),
            piece_after(d, r),
        ))
    }
}

/// The space after `remove_all(r)`.
pub open spec fn remove_all_result(s: SpaceView, r: Region) -> SpaceView {
    let s1 = after_remove_contained(s, r);
    let below = region_below(s1, r);
    let from = region_from(s1, r);
    if below is Some && below == from {
        let c = below->0;
        space_insert(
            space_insert(space_remove(s1, c), piece_before(c, r)),
            piece_after(c, r),
        )
    } else {
        let s2 = trimmed_below(s1, r);
        match from {
            Some(d) => space_insert(space_remove(s2, d), piece_after(d, r)),
            None => s2,
        }
    }
}

pub open spec fn strictly_increasing(s: Seq<u64>) -> bool {
    forall|i: int, j: int| 0 <= i < j < s.len() ==> s[i] < s[j]
}

proof fn lemma_increasing_keys(ks: Seq<&u64>)
    requires
        vstd::std_specs::btree::increasing_seq(ks),
    ensures
        forall|i: int, j: int| 0 <= i < j < ks.len() ==> *ks[i] < *ks[j],
{
    assert(vstd::laws_cmp::obeys_cmp::<u64>());
    assert(vstd::laws_cmp::obeys_cmp::<&u64>());
    vstd::std_specs::btree::axiom_increasing_seq_meaning(ks);
    assert forall|i: int, j: int| 0 <= i < j < ks.len() implies *ks[i] < *ks[j] by {
        assert((&ks[i]).cmp_spec(&ks[j]) is Less);
    }
}

/// The keys of a map in increasing order.
fn sorted_keys(m: &BTreeMap<u64, Region>) -> (v: Vec<u64>)
    ensures
        strictly_increasing(v@),
        forall|i: int| 0 <= i < v@.len() ==> #[trigger] m@.contains_key(v@[i]),
        forall|k: u64| #[trigger] m@.contains_key(k) ==> v@.contains(k),
{
    let mut v: Vec<u64> = Vec::new();
    let keys = m.keys();
    let ghost ks = keys.remaining();
    for k in it: keys
        invariant
            v@ == it.seq().take(it.index() as int).map_values(|x: &u64| *x),
            it.seq() == ks,
    {
        v.push(*k);
    }
    proof {
        assert(v@ =~= ks.unref());
        lemma_increasing_keys(ks);
        assert forall|k: u64| #[trigger] m@.contains_key(k) implies v@.contains(k) by {
            assert(ks.unref().to_set().contains(k));
        }
        assert forall|i: int| 0 <= i < v@.len() implies #[trigger] m@.contains_key(v@[i]) by {
            assert(ks.unref().to_set().contains(v@[i]));
        }
    }
    v
}

proof fn lemma_last_below_is(m: Map<u64, Region>, b: u64, k: u64)
    requires
        is_last_below(m, b, k),
    ensures
        last_below(m, b) == Some(k),
{
    let c = choose|j: u64| is_last_below(m, b, j);
    assert(is_last_below(m, b, c));
    assert(c <= k && k <= c);
}

proof fn lemma_last_below_none(m: Map<u64, Region>, b: u64)
    requires
        forall|j: u64| #[trigger] m.contains_key(j) ==> j >= b,
    ensures
        last_below(m, b) is None,
{
}

proof fn lemma_first_from_is(m: Map<u64, Region>, e: u64, k: u64)
    requires
        is_first_from(m, e, k),
    ensures
        first_from(m, e) == Some(k),
{
    let c = choose|j: u64| is_first_from(m, e, j);
    assert(is_first_from(m, e, c));
    assert(c <= k && k <= c);
}

proof fn lemma_first_from_none(m: Map<u64, Region>, e: u64)
    requires
        forall|j: u64| #[trigger] m.contains_key(j) ==> j < e,
    ensures
        first_from(m, e) is None,
{
}

/// Two regions that a space accepts one after the other, the first then being in the space,
/// do not overlap.
pub proof fn lemma_accepted_apart(s: SpaceView, a: Region, b: Region)
    requires
        space_wf(s),
        a.size > 0,
        b.size > 0,
        space_accepts(s, a),
        space_accepts(space_insert(s, a), b),
    ensures
        a.spec_end() <= b.base || b.spec_end() <= a.base,
{
    let s1 = space_insert(s, a);
    assert(s1.0.contains_key(a.base) && s1.0[a.base] == a);
    assert(s1.1.contains_key(a.end_key()));
    if !(a.spec_end() <= b.base || b.spec_end() <= a.base) {
        if b.base <= a.base {
            assert(begins_within(s1, b));
        } else if a.spec_end() <= b.spec_end() {
            assert(ends_within(s1, b));
        } else {
            assert forall|j: u64| #[trigger] s1.0.contains_key(j) && j < b.base implies j <= a.base by {
                if j > a.base {
                    assert(s.0.contains_key(j));
                    assert(begins_within(s, a));
                }
            }
            assert(is_last_below(s1.0, b.base, a.base));
            lemma_last_below_is(s1.0, b.base, a.base);
            assert(straddles(s1, b));
        }
    }
}

/// Whether two regions share an address.
pub open spec fn regions_meet(a: Region, b: Region) -> bool {
    a.base < b.spec_end() && b.base < a.spec_end()
}

/// Whether `a` lies inside `b`.
pub open spec fn region_inside(a: Region, b: Region) -> bool {
    b.base <= a.base && a.spec_end() <= b.spec_end()
}

/// The regions of the space lie apart and in order: each ends at or before the next base.
pub open spec fn space_apart(s: SpaceView) -> bool {
    forall|k: u64, j: u64|
        #[trigger] s.0.contains_key(k) && #[trigger] s.0.contains_key(j) && k < j ==> s.0[k].spec_end() <= j
}

/// No region of the space shares an address with `r`.
pub open spec fn space_misses(s: SpaceView, r: Region) -> bool {
    forall|k: u64| #[trigger] s.0.contains_key(k) ==> !regions_meet(s.0[k], r)
}

/// Every region of `t` lies inside a region of `s`.
pub open spec fn space_inside(t: SpaceView, s: SpaceView) -> bool {
    forall|k: u64|
        #[trigger] t.0.contains_key(k) ==> exists|j: u64| #[trigger] s.0.contains_key(j) && region_inside(t.0[k], s.0[j])
}

/// In a space whose regions lie apart, the region below `r` that reaches into it is the last
/// one below `r`.
proof fn lemma_below_is(s: SpaceView, r: Region, k: u64)
    requires
        space_apart(s),
        s.0.contains_key(k),
        k < r.base,
        s.0[k].spec_end() > r.base,
    ensures
        region_below(s, r) == Some(s.0[k]),
{
    assert forall|j: u64| #[trigger] s.0.contains_key(j) && j < r.base implies j <= k by {
        if j > k {
            assert(s.0[k].spec_end() <= j);
        }
    }
    lemma_last_below_is(s.0, r.base, k);
}

/// In a well-formed space whose regions lie apart, a region that starts inside `r` and ends
/// past it is the first to end at or after the end of `r`.
proof fn lemma_from_is(s: SpaceView, r: Region, k: u64)
    requires
        space_wf(s),
        space_apart(s),
        r.spec_end() <= u64::MAX,
        s.0.contains_key(k),
        r.base <= k < r.spec_end(),
        s.0[k].spec_end() > r.spec_end(),
    ensures
        region_from(s, r) == Some(s.0[k]),
{
    let e = s.0[k].end_key();
    assert(s.1.contains_key(e) && s.1[e] == s.0[k]);
    assert forall|e2: u64| #[trigger] s.1.contains_key(e2) && r.end_key() <= e2 implies e <= e2 by {
        let w = s.1[e2];
        assert(s.0.contains_key(w.base) && s.0[w.base] == w);
        if w.base < k {
            assert(w.spec_end() <= k);
        } else if w.base > k {
            assert(s.0[k].spec_end() <= w.base);
        }
    }
    lemma_first_from_is(s.1, r.end_key(), e);
}

/// Inserting a region that a space accepts keeps its regions apart.
pub proof fn lemma_insert_apart(s: SpaceView, r: Region)
    requires
        space_wf(s),
        space_apart(s),
        space_accepts(s, r),
    ensures
        space_apart(space_insert(s, r)),
{
    let t = space_insert(s, r);
    assert forall|k: u64| #[trigger] s.0.contains_key(k) implies (k < r.base ==> s.0[k].spec_end() <= r.base)
        && (k > r.base ==> r.spec_end() <= k) by {
        if k > r.base && k < r.spec_end() {
            assert(begins_within(s, r));
        }
        if k < r.base && s.0[k].spec_end() > r.base {
            assert forall|j: u64| #[trigger] s.0.contains_key(j) && j < r.base implies j <= k by {
                if j > k {
                    assert(s.0[k].spec_end() <= j);
                }
            }
            lemma_last_below_is(s.0, r.base, k);
            assert(straddles(s, r));
        }
    }
    assert forall|k: u64, j: u64| #[trigger] t.0.contains_key(k) && #[trigger] t.0.contains_key(j) && k < j implies t.0[k].spec_end() <= j by {
        if k != r.base && j != r.base {
            assert(s.0.contains_key(k) && s.0.contains_key(j));
        } else if k == r.base {
            assert(s.0.contains_key(j));
        } else {
            assert(s.0.contains_key(k));
        }
    }
}

/// A space whose regions lie apart and that does not contain `r` has no region that shares
/// an address with `r`.
pub proof fn lemma_apart_misses(s: SpaceView, r: Region)
    requires
        space_wf(s),
        space_apart(s),
        !space_contains(s, r),
    ensures
        space_misses(s, r),
{
    assert forall|k: u64| #[trigger] s.0.contains_key(k) implies !regions_meet(s.0[k], r) by {
        if regions_meet(s.0[k], r) {
            if k >= r.base {
                assert(s.0[k].base == k);
                assert(begins_within(s, r));
            } else {
                lemma_below_is(s, r, k);
                assert(straddles(s, r));
            }
        }
    }
}

/// Removing `r` from a space whose regions lie apart leaves regions that lie apart, that share
/// no address with `r`, and that each lie inside a region of the space before.
pub proof fn lemma_remove_all_apart(s: SpaceView, r: Region)
    requires
        space_wf(s),
        space_apart(s),
        r.spec_end() <= u64::MAX,
        remove_all_ok(s, r),
    ensures
        space_apart(remove_all_result(s, r)),
        space_misses(remove_all_result(s, r), r),
        space_inside(remove_all_result(s, r), s),
{
    let s1 = after_remove_contained(s, r);
    let res = remove_all_result(s, r);
    let below = region_below(s1, r);
    let from = region_from(s1, r);
    assert(space_wf(s1));
    assert(space_apart(s1));
    // the regions of `s1` that meet `r` are the one below and the one from
    assert forall|k: u64| #[trigger] s1.0.contains_key(k) && regions_meet(s1.0[k], r) implies (k < r.base
        && below == Some(s1.0[k])) || (k >= r.base && from == Some(s1.0[k])) by {
        assert(s1.0[k].base == k);
        if k < r.base {
            lemma_below_is(s1, r, k);
        } else {
            assert(!removed_by(s.0, r, k));
            lemma_from_is(s1, r, k);
        }
    }
    if let Some(c) = below {
        let kc = last_below(s1.0, r.base)->0;
        assert(s1.0.contains_key(kc) && s1.0[kc] == c && kc < r.base);
        assert(c.base == kc);
    }
    if let Some(d) = from {
        let e = first_from(s1.1, r.end_key())->0;
        assert(s1.1.contains_key(e) && s1.1[e] == d && r.end_key() <= e);
        assert(s1.0.contains_key(d.base) && s1.0[d.base] == d);
    }
    assert forall|k: u64| #[trigger] res.0.contains_key(k) implies !regions_meet(res.0[k], r) && exists|j: u64|
        #[trigger] s.0.contains_key(j) && region_inside(res.0[k], s.0[j]) by {
        if s1.0.contains_key(k) && res.0[k] == s1.0[k] {
            assert(s.0.contains_key(k) && s.0[k] == s1.0[k]);
            assert(region_inside(res.0[k], s.0[k]));
        } else if below is Some && k == (below->0).base {
            let c = below->0;
            assert(s.0.contains_key(c.base));
            assert(region_inside(res.0[k], s.0[c.base]));
        } else {
            let d = if below is Some && below == from { below->0 } else { from->0 };
            assert(s.0.contains_key(d.base));
            assert(region_inside(res.0[k], s.0[d.base]));
        }
    }
    assert forall|k: u64, j: u64| #[trigger] res.0.contains_key(k) && #[trigger] res.0.contains_key(j) && k < j
        implies res.0[k].spec_end() <= j by {
    }
}

/// The greatest key of `m` below `b`, found among its sorted keys.
fn last_key_below(m: &BTreeMap<u64, Region>, b: u64) -> (r: Option<u64>)
    ensures
        r == last_below(m@, b),
{
    let keys = sorted_keys(m);
    let mut found: Option<u64> = None;
    let mut i: usize = 0;
    while i < keys.len()
        invariant
            0 <= i <= keys@.len(),
            forall|j: int| 0 <= j < keys@.len() ==> #[trigger] m@.contains_key(keys@[j]),
            match found {
                Some(k) => m@.contains_key(k) && k < b && forall|j: int|
                    0 <= j < i && keys@[j] < b ==> keys@[j] <= k,
                None => forall|j: int| 0 <= j < i ==> keys@[j] >= b,
            },
        decreases keys@.len() - i,
    {
        let k = keys[i];
        if k < b {
            match found {
                Some(f) => {
                    if k > f {
                        found = Some(k);
                    }
                },
                None => {
                    found = Some(k);
                },
            }
        }
        i = i + 1;
    }
    proof {
        match found {
            Some(k) => {
                assert forall|j: u64| #[trigger] m@.contains_key(j) && j < b implies j <= k by {
                    let idx = keys@.index_of(j);
                    assert(keys@[idx] == j);
                }
                lemma_last_below_is(m@, b, k);
            },
            None => {
                assert forall|j: u64| #[trigger] m@.contains_key(j) implies j >= b by {
                    let idx = keys@.index_of(j);
                    assert(keys@[idx] == j);
                }
                lemma_last_below_none(m@, b);
            },
        }
    }
    found
}

/// The least key of `m` at or above `e`, found among its sorted keys.
fn first_key_from(m: &BTreeMap<u64, Region>, e: u64) -> (r: Option<u64>)
    ensures
        r == first_from(m@, e),
{
    let keys = sorted_keys(m);
    let mut found: Option<u64> = None;
    let mut i: usize = 0;
    while i < keys.len()
        invariant
            0 <= i <= keys@.len(),
            forall|j: int| 0 <= j < keys@.len() ==> #[trigger] m@.contains_key(keys@[j]),
            match found {
                Some(k) => m@.contains_key(k) && e <= k && forall|j: int|
                    0 <= j < i && e <= keys@[j] ==> k <= keys@[j],
                None => forall|j: int| 0 <= j < i ==> keys@[j] < e,
            },
        decreases keys@.len() - i,
    {
        let k = keys[i];
        if e <= k {
            match found {
                Some(f) => {
                    if k < f {
                        found = Some(k);
                    }
                },
                None => {
                    found = Some(k);
                },
            }
        }
        i = i + 1;
    }
    proof {
        match found {
            Some(k) => {
                assert forall|j: u64| #[trigger] m@.contains_key(j) && e <= j implies k <= j by {
                    let idx = keys@.index_of(j);
                    assert(keys@[idx] == j);
                }
                lemma_first_from_is(m@, e, k);
            },
            None => {
                assert forall|j: u64| #[trigger] m@.contains_key(j) implies j < e by {
                    let idx = keys@.index_of(j);
                    assert(keys@[idx] == j);
                }
                lemma_first_from_none(m@, e);
            },
        }
    }
    found
}

/// Regions indexed both by base address and by end address.
#[derive(Debug, Clone)]
struct AddressSpace {
    by_base: BTreeMap<u64, Region>,
    by_end: BTreeMap<u64, Region>,
}

impl AddressSpace {
    spec fn view(&self) -> SpaceView {
        (self.by_base@, self.by_end@)
    }

    spec fn wf(&self) -> bool {
        space_wf(self.view())
    }

    fn new() -> (r: AddressSpace)
        ensures
            r.view().0 == Map::<u64, Region>::empty(),
            r.view().1 == Map::<u64, Region>::empty(),
            r.wf(),
    {
        AddressSpace { by_base: BTreeMap::new(), by_end: BTreeMap::new() }
    }

    /// Whether any region of the space overlaps `region`.
    fn contains(&self, region: Region) -> (r: bool)
        requires
            self.wf(),
            region.spec_end() < u64::MAX,
        ensures
            r == space_contains(self.view(), region),
    {
        let end = region.end();
        let keys = sorted_keys(&self.by_base);
        let mut i: usize = 0;
        while i < keys.len()
            invariant
                0 <= i <= keys@.len(),
                end == region.spec_end(),
                forall|j: int| 0 <= j < keys@.len() ==> #[trigger] self.by_base@.contains_key(keys@[j]),
                forall|k: u64| #[trigger] self.by_base@.contains_key(k) ==> keys@.contains(k),
                forall|j: int| 0 <= j < i ==> !(region.base <= #[trigger] keys@[j] && keys@[j] < end),
            decreases keys@.len() - i,
        {
            if region.base() <= keys[i] && keys[i] < end {
                proof {
                    assert(self.by_base@.contains_key(keys@[i as int]));
                }
                return true;
            }
            i = i + 1;
        }
        proof {
            assert forall|k: u64| #[trigger] self.by_base@.contains_key(k) implies !(region.base <= k
                && k < end) by {
                let idx = keys@.index_of(k);
                assert(keys@[idx] == k);
            }
        }
        let ends = sorted_keys(&self.by_end);
        let mut i: usize = 0;
        while i < ends.len()
            invariant
                0 <= i <= ends@.len(),
                end == region.spec_end(),
                end < u64::MAX,
                forall|j: int| 0 <= j < ends@.len() ==> #[trigger] self.by_end@.contains_key(ends@[j]),
                forall|j: int| 0 <= j < i ==> !(region.base + 1 <= #[trigger] ends@[j] && ends@[j] < end + 1),
            decreases ends@.len() - i,
        {
            if region.base() + 1 <= ends[i] && ends[i] < end + 1 {
                proof {
                    let e = ends@[i as int];
                    assert(self.by_end@.contains_key(e));
                    assert(self.view().1.contains_key(e));
                    assert(region.base < e && e <= region.spec_end());
                    assert(ends_within(self.view(), region));
                }
                return true;
            }
            i = i + 1;
        }
        proof {
            assert forall|e: u64| #[trigger] self.by_end@.contains_key(e) implies !(region.base < e
                && e <= end) by {
                let idx = ends@.index_of(e);
                assert(ends@[idx] == e);
            }
        }
        if let Some(k) = last_key_below(&self.by_base, region.base()) {
            proof {
                assert(is_last_below(self.by_base@, region.base, k));
                assert(self.by_base@.contains_key(k));
            }
            let containing = self.by_base.get(&k).unwrap();
            proof {
                assert(self.view().0.contains_key(k));
                assert(*containing == self.by_base@[k]);
            }
            if containing.end() > region.base() {
                return true;
            }
        }
        false
    }

    /// Remove exactly `region`: it must be stored under both its base and its end.
    fn remove(&mut self, region: Region) -> (r: bool)
        requires
            old(self).wf(),
            region.spec_end() <= u64::MAX,
        ensures
            final(self).wf(),
            r == (old(self).view().0.contains_key(region.base) && old(self).view().0[region.base]
                == region),
            r ==> final(self).view() == space_remove(old(self).view(), region),
            !r ==> final(self).view() == old(self).view(),
    {
        let base = region.base();
        let end = region.end();
        match self.by_base.get(&base) {
            Some(base_region) => {
                match self.by_end.get(&end) {
                    Some(end_region) => {
                        if *base_region != *end_region {
                            return false;
                        }
                    },
                    None => {
                        return false;
                    },
                }
            },
            None => {
                return false;
            },
        }
        let ghost s = self.view();
        self.by_base.remove(&base);
        self.by_end.remove(&end);
        proof {
            assert(s.0[base] == region);
            let n = self.view();
            assert forall|k: u64| #[trigger] n.0.contains_key(k) implies {
                &&& n.0[k].base == k
                &&& n.0[k].spec_end() <= u64::MAX
                &&& n.1.contains_key(n.0[k].end_key())
                &&& n.1[n.0[k].end_key()] == n.0[k]
            } by {
                assert(s.0.contains_key(k));
                assert(s.1.contains_key(s.0[k].end_key()));
                if s.0[k].end_key() == end {
                    assert(s.1[end] == s.0[k]);
                }
            }
            assert forall|e: u64| #[trigger] n.1.contains_key(e) implies {
                &&& n.1[e].spec_end() == e
                &&& n.0.contains_key(n.1[e].base)
                &&& n.0[n.1[e].base] == n.1[e]
            } by {
                assert(s.1.contains_key(e));
                if s.1[e].base == base {
                    assert(s.0[base] == s.1[e]);
                }
            }
        }
        true
    }

    /// Add `region` unless it overlaps a region already in the space.
    fn insert(&mut self, region: Region) -> (r: bool)
        requires
            old(self).wf(),
            space_can_insert(old(self).view(), region),
        ensures
            final(self).wf(),
            r == !space_contains(old(self).view(), region),
            r ==> final(self).view() == space_insert(old(self).view(), region),
            !r ==> final(self).view() == old(self).view(),
    {
        if self.contains(region) {
            return false;
        }
        let ghost s = self.view();
        self.by_base.insert(region.base(), region);
        self.by_end.insert(region.end(), region);
        proof {
            let n = self.view();
            assert forall|k: u64| #[trigger] n.0.contains_key(k) implies {
                &&& n.0[k].base == k
                &&& n.0[k].spec_end() <= u64::MAX
                &&& n.1.contains_key(n.0[k].end_key())
                &&& n.1[n.0[k].end_key()] == n.0[k]
            } by {
                if k != region.base {
                    assert(s.0.contains_key(k));
                    assert(s.1.contains_key(s.0[k].end_key()));
                }
            }
            assert forall|e: u64| #[trigger] n.1.contains_key(e) implies {
                &&& n.1[e].spec_end() == e
                &&& n.0.contains_key(n.1[e].base)
                &&& n.0[n.1[e].base] == n.1[e]
            } by {
                if e != region.end_key() {
                    assert(s.1.contains_key(e));
                    assert(s.0.contains_key(s.1[e].base));
                }
            }
        }
        true
    }

    /// Remove every region that starts inside `region` and ends by its end.
    fn remove_contained(&mut self, region: Region)
        requires
            old(self).wf(),
            region.spec_end() <= u64::MAX,
        ensures
            final(self).wf(),
            final(self).view() == after_remove_contained(old(self).view(), region),
    {
        let ghost s0 = self.view();
        let end = region.end();
        let keys = sorted_keys(&self.by_base);
        let mut to_remove: Vec<Region> = Vec::new();
        let mut i: usize = 0;
        while i < keys.len()
            invariant
                self.view() == s0,
                space_wf(s0),
                0 <= i <= keys@.len(),
                end == region.spec_end(),
                strictly_increasing(keys@),
                forall|j: int| 0 <= j < keys@.len() ==> #[trigger] s0.0.contains_key(keys@[j]),
                forall|a: int|
                    0 <= a < to_remove@.len() ==> {
                        &&& s0.0.contains_key(#[trigger] to_remove@[a].base)
                        &&& s0.0[to_remove@[a].base] == to_remove@[a]
                        &&& removed_by(s0.0, region, to_remove@[a].base)
                    },
                forall|a: int, b: int|
                    0 <= a < b < to_remove@.len() ==> #[trigger] to_remove@[a].base
                        < #[trigger] to_remove@[b].base,
                i > 0 ==> forall|a: int|
                    0 <= a < to_remove@.len() ==> #[trigger] to_remove@[a].base <= keys@[i - 1],
                i == 0 ==> to_remove@.len() == 0,
                forall|j: int|
                    0 <= j < i && removed_by(s0.0, region, #[trigger] keys@[j]) ==> to_remove@.contains(
                        s0.0[keys@[j]],
                    ),
            decreases keys@.len() - i,
        {
            let k = keys[i];
            let ghost prev = to_remove@;
            if region.base() <= k && k < end {
                proof {
                    assert(s0.0.contains_key(k));
                }
                let other = *self.by_base.get(&k).unwrap();
                proof {
                    assert(other == s0.0[k]);
                }
                if region.contains(&other) {
                    to_remove.push(other);
                    proof {
                        assert(to_remove@[to_remove@.len() - 1] == other);
                    }
                }
            }
            proof {
                assert forall|j: int|
                    0 <= j < i + 1 && removed_by(s0.0, region, #[trigger] keys@[j]) implies to_remove@.contains(
                    s0.0[keys@[j]],
                ) by {
                    if j < i {
                        assert(prev.contains(s0.0[keys@[j]]));
                        let a = prev.index_of(s0.0[keys@[j]]);
                        assert(to_remove@[a] == prev[a]);
                    } else {
                        assert(to_remove@[to_remove@.len() - 1] == s0.0[keys@[j]]);
                    }
                }
            }
            i = i + 1;
        }
        let mut j: usize = 0;
        while j < to_remove.len()
            invariant
                space_wf(s0),
                self.wf(),
                0 <= j <= to_remove@.len(),
                self.view() == without(s0, to_remove@.take(j as int)),
                forall|a: int|
                    0 <= a < to_remove@.len() ==> {
                        &&& s0.0.contains_key(#[trigger] to_remove@[a].base)
                        &&& s0.0[to_remove@[a].base] == to_remove@[a]
                        &&& removed_by(s0.0, region, to_remove@[a].base)
                    },
                forall|a: int, b: int|
                    0 <= a < b < to_remove@.len() ==> #[trigger] to_remove@[a].base
                        < #[trigger] to_remove@[b].base,
            decreases to_remove@.len() - j,
        {
            let r = to_remove[j];
            proof {
                let pre = to_remove@.take(j as int);
                assert(!pre.contains(r)) by {
                    if pre.contains(r) {
                        let a = pre.index_of(r);
                        assert(to_remove@[a].base < to_remove@[j as int].base);
                    }
                }
                assert(s0.0[r.base] == r);
            }
            let removed = self.remove(r);
            proof {
                lemma_without_step(s0, to_remove@.take(j as int), r);
                assert(to_remove@.take(j as int).push(r) =~= to_remove@.take(j + 1));
            }
            j = j + 1;
        }
        proof {
            assert(to_remove@.take(to_remove@.len() as int) =~= to_remove@);
            let target = after_remove_contained(s0, region);
            let got = without(s0, to_remove@);
            assert forall|k: u64| s0.0.contains_key(k) implies (removed_by(s0.0, region, k)
                <==> to_remove@.contains(s0.0[k])) by {
                if removed_by(s0.0, region, k) {
                    let idx = keys@.index_of(k);
                    assert(keys@[idx] == k);
                }
                if to_remove@.contains(s0.0[k]) {
                    let a = to_remove@.index_of(s0.0[k]);
                    assert(to_remove@[a] == s0.0[k]);
                    assert(s0.0[k].base == k);
                }
            }
            assert forall|e: u64| s0.1.contains_key(e) implies (removed_by(s0.0, region, s0.1[e].base)
                <==> to_remove@.contains(s0.1[e])) by {
                assert(s0.0[s0.1[e].base] == s0.1[e]);
            }
            assert(got.0 =~= target.0);
            assert(got.1 =~= target.1);
        }
    }

    /// Replace `container` by its part before `region`.
    fn shrink_before_region(&mut self, container: Region, region: Region)
        requires
            old(self).wf(),
            old(self).view().0.contains_key(container.base),
            old(self).view().0[container.base] == container,
            container.base < region.base,
            space_accepts(space_remove(old(self).view(), container), piece_before(container, region)),
        ensures
            final(self).wf(),
            final(self).view() == space_insert(
                space_remove(old(self).view(), container),
                piece_before(container, region),
            ),
    {
        let piece = Region::new(container.base(), region.base() - container.base());
        let removed = self.remove(container);
        let inserted = self.insert(piece);
    }

    /// Replace `container` by its part after `region`.
    fn shrink_after_region(&mut self, container: Region, region: Region)
        requires
            old(self).wf(),
            old(self).view().0.contains_key(container.base),
            old(self).view().0[container.base] == container,
            region.spec_end() <= container.spec_end(),
            space_accepts(space_remove(old(self).view(), container), piece_after(container, region)),
        ensures
            final(self).wf(),
            final(self).view() == space_insert(
                space_remove(old(self).view(), container),
                piece_after(container, region),
            ),
    {
        let piece = Region::new(region.end(), container.end() - region.end());
        let removed = self.remove(container);
        let inserted = self.insert(piece);
    }

    /// Replace `container` by its parts before and after `region`.
    fn split_region(&mut self, container: Region, region: Region)
        requires
            old(self).wf(),
            old(self).view().0.contains_key(container.base),
            old(self).view().0[container.base] == container,
            container.base < region.base,
            region.spec_end() <= container.spec_end(),
            space_accepts(space_remove(old(self).view(), container), piece_before(container, region)),
            space_accepts(
                space_insert(space_remove(old(self).view(), container), piece_before(container, region)),
                piece_after(container, region),
            ),
        ensures
            final(self).wf(),
            final(self).view() == space_insert(
                space_insert(
                    space_remove(old(self).view(), container),
                    piece_before(container, region),
                ),
                piece_after(container, region),
            ),
    {
        let piece_before = Region::new(container.base(), region.base() - container.base());
        let piece_after = Region::new(region.end(), container.end() - region.end());
        let removed = self.remove(container);
        let inserted_before = self.insert(piece_before);
        let inserted_after = self.insert(piece_after);
    }

    /// Remove `region` from the space, trimming the regions around it.
    fn remove_all(&mut self, region: Region)
        requires
            old(self).wf(),
            region.spec_end() <= u64::MAX,
            remove_all_ok(old(self).view(), region),
        ensures
            final(self).wf(),
            final(self).view() == remove_all_result(old(self).view(), region),
    {
        let ghost s = self.view();
        self.remove_contained(region);
        let ghost s1 = self.view();
        let last_before = match last_key_below(&self.by_base, region.base()) {
            Some(k) => {
                proof {
                    assert(is_last_below(s1.0, region.base, k));
                }
                let c = *self.by_base.get(&k).unwrap();
                // only a region that reaches into `region` is cut
                if c.end() > region.base() {
                    Some(c)
                } else {
                    None
                }
            },
            None => None,
        };
        let first_after = match first_key_from(&self.by_end, region.end()) {
            Some(e) => {
                proof {
                    assert(is_first_from(s1.1, region.end_key(), e));
                }
                let c = *self.by_end.get(&e).unwrap();
                if c.base() < region.end() && c.end() > region.base() {
                    Some(c)
                } else {
                    None
                }
            },
            None => None,
        };
        proof {
            assert(last_before == region_below(s1, region));
            assert(first_after == region_from(s1, region));
        }
        let same = match (last_before, first_after) {
            (Some(a), Some(b)) => a == b,
            (None, None) => true,
            _ => false,
        };
        if last_before.is_some() && same {
            let container = last_before.unwrap();
            self.split_region(container, region);
        } else {
            if let Some(container) = last_before {
                self.shrink_before_region(container, region);
            }
            proof {
                assert(self.view() == trimmed_below(s1, region));
            }
            if let Some(container) = first_after {
                proof {
                    let e = first_from(s1.1, region.end_key())->0;
                    assert(s1.1.contains_key(e));
                    assert(s1.0[container.base] == container);
                    if let Some(c) = last_before {
                        assert(c != container);
                        assert(s1.0[c.base] == c);
                    }
                }
                self.shrink_after_region(container, region);
            }
        }
    }
}

/// The space without the regions of `rs`.
pub open spec fn without(s: SpaceView, rs: Seq<Region>) -> SpaceView {
    (
        Map::new(|k: u64| s.0.contains_key(k) && !rs.contains(s.0[k]), |k: u64| s.0[k]),
        Map::new(|e: u64| s.1.contains_key(e) && !rs.contains(s.1[e]), |e: u64| s.1[e]),
    )
}

proof fn lemma_without_step(s: SpaceView, rs: Seq<Region>, r: Region)
    requires
        space_wf(s),
        s.0.contains_key(r.base),
        s.0[r.base] == r,
    ensures
        space_remove(without(s, rs), r) == without(s, rs.push(r)),
{
    let lhs = space_remove(without(s, rs), r);
    let rhs = without(s, rs.push(r));
    assert forall|k: u64| s.0.contains_key(k) implies (rs.push(r).contains(s.0[k]) <==> (rs.contains(
        s.0[k],
    ) || k == r.base)) by {
        assert(s.0[k].base == k);
        if rs.push(r).contains(s.0[k]) && !rs.contains(s.0[k]) {
            let a = rs.push(r).index_of(s.0[k]);
            if a < rs.len() {
                assert(rs[a] == s.0[k]);
            }
            assert(a == rs.len());
            assert(s.0[k] == r);
        }
        if rs.contains(s.0[k]) {
            let a = rs.index_of(s.0[k]);
            assert(rs.push(r)[a] == s.0[k]);
        }
        if k == r.base {
            assert(rs.push(r)[rs.len() as int] == r);
        }
    }
    assert(lhs.0 =~= rhs.0);
    assert forall|e: u64| s.1.contains_key(e) implies (rs.push(r).contains(s.1[e]) <==> (rs.contains(
        s.1[e],
    ) || e == r.end_key())) by {
        assert(s.1[e].spec_end() == e);
        if rs.push(r).contains(s.1[e]) && !rs.contains(s.1[e]) {
            let a = rs.push(r).index_of(s.1[e]);
            if a < rs.len() {
                assert(rs[a] == s.1[e]);
            }
            assert(a == rs.len());
            assert(s.1[e] == r);
        }
        if rs.contains(s.1[e]) {
            let a = rs.index_of(s.1[e]);
            assert(rs.push(r)[a] == s.1[e]);
        }
        if e == r.end_key() {
            assert(rs.push(r)[rs.len() as int] == r);
        }
    }
    assert(lhs.1 =~= rhs.1);
}

/// `r` has room for `size` bytes once its base is aligned up to `align_to`.
pub open spec fn fits(r: Region, size: u64, align_to: u64) -> bool {
    r.aligned_size_spec(align_to) >= size
}

/// `k` is the lowest base whose region fits the request.
pub open spec fn is_first_fit(m: Map<u64, Region>, size: u64, align_to: u64, k: u64) -> bool {
    &&& m.contains_key(k)
    &&& fits(m[k], size, align_to)
    &&& forall|j: u64| #[trigger] m.contains_key(j) && j < k ==> !fits(m[j], size, align_to)
}

/// The lowest base whose region fits the request, if any.
pub open spec fn first_fit(m: Map<u64, Region>, size: u64, align_to: u64) -> Option<u64> {
    if exists|k: u64| is_first_fit(m, size, align_to, k) {
        Some(choose|k: u64| is_first_fit(m, size, align_to, k))
    } else {
        None
    }
}

/// Every region that the first-fit search looks at can have its base aligned without overflow.
pub open spec fn fit_search_ok(m: Map<u64, Region>, size: u64, align_to: u64) -> bool {
    forall|k: u64|
        #[trigger] m.contains_key(k) && (forall|j: u64|
            #[trigger] m.contains_key(j) && j < k ==> !fits(m[j], size, align_to)) ==> k + align_to
            <= u64::MAX
}

/// The region handed out from the free region under key `k`.
pub open spec fn carved(m: Map<u64, Region>, k: u64, size: u64, align_to: u64) -> Region {
    Region { base: align_spec(m[k].base, align_to), size: size }
}

proof fn lemma_first_fit_is(m: Map<u64, Region>, size: u64, align_to: u64, k: u64)
    requires
        is_first_fit(m, size, align_to, k),
    ensures
        first_fit(m, size, align_to) == Some(k),
{
    let c = choose|j: u64| is_first_fit(m, size, align_to, j);
    assert(is_first_fit(m, size, align_to, c));
    if c < k {
        assert(!fits(m[c], size, align_to));
    }
    if k < c {
        assert(!fits(m[k], size, align_to));
    }
}

/// A physical or virtual memory allocator: a space of free regions and a space of used ones.
#[derive(Debug, Clone)]
pub struct Allocator {
    free: AddressSpace,
    used: AddressSpace,
}

impl Allocator {
    /// The free regions, indexed by base and by end.
    pub closed spec fn free_view(&self) -> SpaceView {
        self.free.view()
    }

    /// The used regions, indexed by base and by end.
    pub closed spec fn used_view(&self) -> SpaceView {
        self.used.view()
    }

    pub open spec fn wf(&self) -> bool {
        space_wf(self.free_view()) && space_wf(self.used_view())
    }

    /// What `allocate(size, align_to)` needs to finish without a failed check.
    pub open spec fn allocate_ok(&self, size: u64, align_to: u64) -> bool {
        &&& align_to >= 1
        &&& fit_search_ok(self.free_view().0, size, align_to)
        &&& match first_fit(self.free_view().0, size, align_to) {
            Some(k) => {
                let nr = carved(self.free_view().0, k, size, align_to);
                &&& space_accepts(self.used_view(), nr)
                &&& remove_all_ok(self.free_view(), nr)
            },
            None => true,
        }
    }

    pub fn new() -> (r: Allocator)
        ensures
            r.wf(),
            r.free_view().0 == Map::<u64, Region>::empty(),
            r.free_view().1 == Map::<u64, Region>::empty(),
            r.used_view().0 == Map::<u64, Region>::empty(),
            r.used_view().1 == Map::<u64, Region>::empty(),
    {
        Allocator { free: AddressSpace::new(), used: AddressSpace::new() }
    }

    /// Mark `region` as used, unless it overlaps free memory.
    pub fn set_used(&mut self, region: Region) -> (r: bool)
        requires
            old(self).wf(),
            region.spec_end() < u64::MAX,
            !space_contains(old(self).free_view(), region) ==> space_accepts(
                old(self).used_view(),
                region,
            ),
        ensures
            final(self).wf(),
            r == !space_contains(old(self).free_view(), region),
            final(self).free_view() == old(self).free_view(),
            r ==> final(self).used_view() == space_insert(old(self).used_view(), region),
            !r ==> final(self).used_view() == old(self).used_view(),
    {
        if self.free.contains(region) {
            return false;
        }
        let inserted = self.used.insert(region);
        true
    }

    /// Add `region` to free memory, unless it overlaps used memory.
    pub fn register(&mut self, region: Region) -> (r: bool)
        requires
            old(self).wf(),
            region.spec_end() < u64::MAX,
            !space_contains(old(self).used_view(), region) ==> space_accepts(
                old(self).free_view(),
                region,
            ),
        ensures
            final(self).wf(),
            r == !space_contains(old(self).used_view(), region),
            final(self).used_view() == old(self).used_view(),
            r ==> final(self).free_view() == space_insert(old(self).free_view(), region),
            !r ==> final(self).free_view() == old(self).free_view(),
    {
        if self.used.contains(region) {
            return false;
        }
        let inserted = self.free.insert(region);
        true
    }

    /// Take `region` out of free memory, if it overlaps free memory at all.
    pub fn forget(&mut self, region: Region) -> (r: bool)
        requires
            old(self).wf(),
            region.spec_end() < u64::MAX,
            space_contains(old(self).free_view(), region) ==> remove_all_ok(
                old(self).free_view(),
                region,
            ),
        ensures
            final(self).wf(),
            r == space_contains(old(self).free_view(), region),
            final(self).used_view() == old(self).used_view(),
            r ==> final(self).free_view() == remove_all_result(old(self).free_view(), region),
            !r ==> final(self).free_view() == old(self).free_view(),
    {
        if !self.free.contains(region) {
            return false;
        }
        self.free.remove_all(region);
        true
    }

    /// Carve `size` bytes aligned to `align_to` out of the free region with the lowest base
    /// that has room for them.
    pub fn allocate(&mut self, size: u64, align_to: u64) -> (r: Option<Region>)
        requires
            old(self).wf(),
            old(self).allocate_ok(size, align_to),
        ensures
            final(self).wf(),
            match first_fit(old(self).free_view().0, size, align_to) {
                Some(k) => {
                    let nr = carved(old(self).free_view().0, k, size, align_to);
                    &&& r == Some(nr)
                    &&& final(self).used_view() == space_insert(old(self).used_view(), nr)
                    &&& final(self).free_view() == remove_all_result(old(self).free_view(), nr)
                },
                None => {
                    &&& r is None
                    &&& final(self).used_view() == old(self).used_view()
                    &&& final(self).free_view() == old(self).free_view()
                },
            },
            r matches Some(nr) ==> {
                &&& nr.size == size
                &&& is_aligned_spec(nr.base, align_to)
                &&& exists|k: u64|
                    #[trigger] old(self).free_view().0.contains_key(k) && k <= nr.base && (size > 0
                        ==> nr.spec_end() <= old(self).free_view().0[k].spec_end())
            },
    {
        let ghost m = self.free.by_base@;
        let keys = sorted_keys(&self.free.by_base);
        let mut selected: Option<Region> = None;
        let mut i: usize = 0;
        while i < keys.len()
            invariant
                m == self.free.by_base@,
                space_wf(self.free.view()),
                fit_search_ok(m, size, align_to),
                align_to >= 1,
                0 <= i <= keys@.len(),
                strictly_increasing(keys@),
                forall|j: int| 0 <= j < keys@.len() ==> #[trigger] m.contains_key(keys@[j]),
                forall|k: u64| #[trigger] m.contains_key(k) ==> keys@.contains(k),
                forall|j: int| 0 <= j < i ==> !fits(m[#[trigger] keys@[j]], size, align_to),
                selected matches Some(reg) ==> i < keys@.len() && reg == m[keys@[i as int]]
                    && is_first_fit(m, size, align_to, keys@[i as int]),
            ensures
                selected is None ==> i >= keys@.len(),
                selected matches Some(reg) ==> i < keys@.len() && reg == m[keys@[i as int]]
                    && is_first_fit(m, size, align_to, keys@[i as int]),
                forall|j: int| 0 <= j < i ==> !fits(m[#[trigger] keys@[j]], size, align_to),
            decreases keys@.len() - i,
        {
            let k = keys[i];
            proof {
                assert(m.contains_key(k));
                assert forall|j: u64| #[trigger] m.contains_key(j) && j < k implies !fits(
                    m[j],
                    size,
                    align_to,
                ) by {
                    let idx = keys@.index_of(j);
                    assert(keys@[idx] == j);
                    if idx >= i {
                        assert(keys@[i as int] <= keys@[idx]);
                    }
                }
            }
            let region = *self.free.by_base.get(&k).unwrap();
            proof {
                assert(region == m[k]);
                assert(self.free.view().0.contains_key(k));
                assert(region.base == k);
                assert(k + align_to <= u64::MAX);
            }
            if region.aligned_size(align_to) >= size {
                selected = Some(region);
                break;
            }
            i = i + 1;
        }
        match selected {
            Some(region) => {
                let ghost k = keys@[i as int];
                proof {
                    lemma_first_fit_is(m, size, align_to, k);
                }
                let aligned_base = align(region.base(), align_to);
                let new_region = Region::new(aligned_base, size);
                let inserted = self.used.insert(new_region);
                self.free.remove_all(new_region);
                proof {
                    assert(m.contains_key(k) && k <= new_region.base);
                    assert(fits(m[k], size, align_to));
                    assert(size > 0 ==> new_region.spec_end() <= m[k].spec_end());
                }
                Some(new_region)
            },
            None => {
                proof {
                    assert forall|k: u64| !is_first_fit(m, size, align_to, k) by {
                        if m.contains_key(k) {
                            let idx = keys@.index_of(k);
                            assert(keys@[idx] == k);
                        }
                    }
                }
                None
            },
        }
    }

    /// Return `region` from used memory to free memory.
    pub fn release(&mut self, region: Region) -> (r: bool)
        requires
            old(self).wf(),
            region.spec_end() < u64::MAX,
            space_contains(old(self).used_view(), region) ==> {
                &&& old(self).used_view().0.contains_key(region.base)
                &&& old(self).used_view().0[region.base] == region
                &&& space_can_insert(old(self).free_view(), region)
            },
        ensures
            final(self).wf(),
            r == (space_contains(old(self).used_view(), region) && !space_contains(
                old(self).free_view(),
                region,
            )),
            space_contains(old(self).used_view(), region) ==> final(self).used_view()
                == space_remove(old(self).used_view(), region),
            !space_contains(old(self).used_view(), region) ==> final(self).used_view() == old(
                self,
            ).used_view(),
            r ==> final(self).free_view() == space_insert(old(self).free_view(), region),
            !r ==> final(self).free_view() == old(self).free_view(),
    {
        if !self.used.contains(region) {
            return false;
        }
        let removed = self.used.remove(region);
        self.free.insert(region)
    }
}

impl AddressSpace {
    /// A copy of the space.
    fn copy(&self) -> (r: AddressSpace)
        ensures
            r.view() == self.view(),
    {
        AddressSpace { by_base: self.by_base.clone(), by_end: self.by_end.clone() }
    }

    /// Whether `insert(region)` adds the region.
    fn accepts(&self, region: Region) -> (r: bool)
        requires
            self.wf(),
        ensures
            r == space_accepts(self.view(), region),
    {
        if region.size >= u64::MAX - region.base {
            return false;
        }
        if self.contains(region) {
            return false;
        }
        !self.by_base.contains_key(&region.base) && !self.by_end.contains_key(&region.end())
    }

    /// Whether `remove_all(region)` finishes without a failed check: the steps are tried on a
    /// copy.
    fn can_remove_all(&self, region: Region) -> (r: bool)
        requires
            self.wf(),
            region.spec_end() <= u64::MAX,
        ensures
            r == remove_all_ok(self.view(), region),
    {
        let mut c = self.copy();
        c.remove_contained(region);
        let ghost s1 = c.view();
        let last_before = match last_key_below(&c.by_base, region.base()) {
            Some(k) => {
                proof {
                    assert(is_last_below(s1.0, region.base, k));
                }
                let b = *c.by_base.get(&k).unwrap();
                if b.end() > region.base() {
                    Some(b)
                } else {
                    None
                }
            },
            None => None,
        };
        let first_after = match first_key_from(&c.by_end, region.end()) {
            Some(e) => {
                proof {
                    assert(is_first_from(s1.1, region.end_key(), e));
                }
                let b = *c.by_end.get(&e).unwrap();
                if b.base() < region.end() && b.end() > region.base() {
                    Some(b)
                } else {
                    None
                }
            },
            None => None,
        };
        proof {
            assert(last_before == region_below(s1, region));
            assert(first_after == region_from(s1, region));
        }
        let same = match (last_before, first_after) {
            (Some(a), Some(b)) => a == b,
            (None, None) => true,
            _ => false,
        };
        if last_before.is_some() && same {
            let container = last_before.unwrap();
            proof {
                assert(s1.0.contains_key(container.base) && s1.0[container.base] == container) by {
                    let k = last_below(s1.0, region.base)->0;
                    assert(s1.0.contains_key(k));
                }
            }
            let removed = c.remove(container);
            let before = Region::new(container.base(), region.base() - container.base());
            if !c.accepts(before) {
                return false;
            }
            let inserted = c.insert(before);
            let after = Region::new(region.end(), container.end() - region.end());
            c.accepts(after)
        } else {
            match last_before {
                Some(container) => {
                    proof {
                        let k = last_below(s1.0, region.base)->0;
                        assert(s1.0.contains_key(k));
                    }
                    let mut d = c.copy();
                    let removed = d.remove(container);
                    let before = Region::new(container.base(), region.base() - container.base());
                    if !d.accepts(before) {
                        return false;
                    }
                    let inserted = d.insert(before);
                    c = d;
                },
                None => {},
            }
            proof {
                assert(c.view() == trimmed_below(s1, region));
            }
            match first_after {
                Some(container) => {
                    proof {
                        let e = first_from(s1.1, region.end_key())->0;
                        assert(s1.1.contains_key(e));
                        assert(s1.0[container.base] == container);
                        if let Some(b) = last_before {
                            assert(b != container);
                            assert(s1.0[b.base] == b);
                        }
                    }
                    let removed = c.remove(container);
                    let after = Region::new(region.end(), container.end() - region.end());
                    c.accepts(after)
                },
                None => true,
            }
        }
    }
}

impl Allocator {
    /// Whether `register(region)` finishes without a failed check.
    pub fn can_register(&self, region: Region) -> (r: bool)
        requires
            self.wf(),
        ensures
            r == (region.spec_end() < u64::MAX && (!space_contains(self.used_view(), region)
                ==> space_accepts(self.free_view(), region))),
    {
        if region.size >= u64::MAX - region.base {
            return false;
        }
        if self.used.contains(region) {
            return true;
        }
        self.free.accepts(region)
    }

    /// Whether `set_used(region)` finishes without a failed check.
    pub fn can_set_used(&self, region: Region) -> (r: bool)
        requires
            self.wf(),
        ensures
            r == (region.spec_end() < u64::MAX && (!space_contains(self.free_view(), region)
                ==> space_accepts(self.used_view(), region))),
    {
        if region.size >= u64::MAX - region.base {
            return false;
        }
        if self.free.contains(region) {
            return true;
        }
        self.used.accepts(region)
    }

    /// Whether `forget(region)` finishes without a failed check.
    pub fn can_forget(&self, region: Region) -> (r: bool)
        requires
            self.wf(),
        ensures
            r == (region.spec_end() < u64::MAX && (space_contains(self.free_view(), region)
                ==> remove_all_ok(self.free_view(), region))),
    {
        if region.size >= u64::MAX - region.base {
            return false;
        }
        if !self.free.contains(region) {
            return true;
        }
        self.free.can_remove_all(region)
    }

    /// Whether `allocate(size, align_to)` finishes without a failed check.
    pub fn can_allocate(&self, size: u64, align_to: u64) -> (r: bool)
        requires
            self.wf(),
        ensures
            r == self.allocate_ok(size, align_to),
    {
        if align_to == 0 {
            return false;
        }
        let ghost m = self.free.by_base@;
        let keys = sorted_keys(&self.free.by_base);
        let mut i: usize = 0;
        while i < keys.len()
            invariant
                m == self.free.by_base@,
                space_wf(self.free.view()),
                space_wf(self.used.view()),
                align_to >= 1,
                0 <= i <= keys@.len(),
                strictly_increasing(keys@),
                forall|j: int| 0 <= j < keys@.len() ==> #[trigger] m.contains_key(keys@[j]),
                forall|k: u64| #[trigger] m.contains_key(k) ==> keys@.contains(k),
                forall|j: int| 0 <= j < i ==> !fits(m[#[trigger] keys@[j]], size, align_to),
                forall|j: int| 0 <= j < i ==> #[trigger] keys@[j] + align_to <= u64::MAX,
            decreases keys@.len() - i,
        {
            let k = keys[i];
            proof {
                assert(m.contains_key(k));
                assert forall|j: u64| #[trigger] m.contains_key(j) && j < k implies !fits(
                    m[j],
                    size,
                    align_to,
                ) by {
                    let idx = keys@.index_of(j);
                    assert(keys@[idx] == j);
                    if idx >= i {
                        assert(keys@[i as int] <= keys@[idx]);
                    }
                }
            }
            if k > u64::MAX - align_to {
                proof {
                    assert(!fit_search_ok(m, size, align_to));
                }
                return false;
            }
            let region = *self.free.by_base.get(&k).unwrap();
            proof {
                assert(region == m[k]);
                assert(self.free.view().0.contains_key(k));
                assert(region.base == k);
            }
            if region.aligned_size(align_to) >= size {
                proof {
                    assert forall|j: u64|
                        #[trigger] m.contains_key(j) && (forall|q: u64|
                            #[trigger] m.contains_key(q) && q < j ==> !fits(m[q], size, align_to))
                            implies j + align_to <= u64::MAX by {
                        let idx = keys@.index_of(j);
                        assert(keys@[idx] == j);
                        if idx > i {
                            assert(keys@[i as int] < keys@[idx]);
                            assert(!fits(m[k], size, align_to));
                        }
                    }
                    lemma_first_fit_is(m, size, align_to, k);
                }
                let aligned_base = align(region.base(), align_to);
                let new_region = Region::new(aligned_base, size);
                if !self.used.accepts(new_region) {
                    return false;
                }
                return self.free.can_remove_all(new_region);
            }
            i = i + 1;
        }
        proof {
            assert forall|k: u64| !is_first_fit(m, size, align_to, k) by {
                if m.contains_key(k) {
                    let idx = keys@.index_of(k);
                    assert(keys@[idx] == k);
                }
            }
            assert forall|j: u64|
                #[trigger] m.contains_key(j) && (forall|q: u64|
                    #[trigger] m.contains_key(q) && q < j ==> !fits(m[q], size, align_to))
                    implies j + align_to <= u64::MAX by {
                let idx = keys@.index_of(j);
                assert(keys@[idx] == j);
            }
        }
        true
    }
}

} // verus!
