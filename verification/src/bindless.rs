//! Bindless descriptor slot management.
//!
//! There is one descriptor set per descriptor type. Each set has a large
//! number of slots; resources are bound to a free slot and addressed by a
//! [`ResourceHandle`] whose index is the slot. A sampled and storage image can
//! be bound to both image sets under one common index.
use vstd::prelude::*;
use std::collections::VecDeque;
use ahash::AHashMap;
use crate::handle::{
    DescriptorType, ResourceHandle, spec_descriptor_type_bits, spec_index_bits, spec_pack, spec_type_bits,
};
use crate::maps::{slot_map, slot_map_new, slot_map_insert, slot_map_remove, slot_map_contains};

verus! {

/// The highest number of slots a set can have: handles keep the index in 24 bits.
pub const MAX_SLOT: u32 = 0x100_0000;

/// Image usage bit: the image can be sampled.
pub const IMAGE_USAGE_SAMPLED: u32 = 0x4;
/// Image usage bit: the image can be used as storage image.
pub const IMAGE_USAGE_STORAGE: u32 = 0x8;

/// Handles one descriptor set of one type: which slots are bound to which
/// resource, and which slots can be reused.
pub struct SetManager {
    /// Freed handles whose index can be used again.
    pub free: VecDeque<ResourceHandle>,
    /// Bound resources (by id), under the raw value of their handle.
    pub stored: AHashMap<u32, u64>,
    /// Number of slots of the set.
    pub max_idx: u32,
    /// Biggest index that was allocated until now (exclusive).
    pub head_idx: u32,
    pub ty: DescriptorType,
}

/// Free and bound handles of a set have indices below the head and type bits
/// within `mask`, bound handles carry the set's own bit, and no index is free
/// twice, bound twice, or free and bound at once.
pub open spec fn slots_wf(free: Seq<ResourceHandle>, bound: Map<u32, u64>, head: u32, max: u32, own: u8, mask: u8) -> bool {
    &&& max <= MAX_SLOT
    &&& head <= max
    &&& mask <= ResourceHandle::TYPE_ACCELERATION_STRUCTURE
    &&& own & !mask == 0
    &&& own != 0
    &&& bound.dom().finite()
    &&& forall|i: int| 0 <= i < free.len() ==> spec_index_bits((#[trigger] free[i])@) < head
        && bits_within(free[i]@, mask) && spec_type_bits(free[i]@) & own != 0
    &&& forall|i: int, j: int| 0 <= i < j < free.len()
        ==> spec_index_bits((#[trigger] free[i])@) != spec_index_bits((#[trigger] free[j])@)
    &&& forall|k: u32| #[trigger] bound.contains_key(k) ==> spec_index_bits(k) < head
        && bits_within(k, mask) && spec_type_bits(k) & own != 0
    &&& forall|k1: u32, k2: u32| #[trigger] bound.contains_key(k1) && #[trigger] bound.contains_key(k2)
        && spec_index_bits(k1) == spec_index_bits(k2) ==> k1 == k2
    &&& forall|i: int, k: u32| 0 <= i < free.len() && #[trigger] bound.contains_key(k)
        ==> spec_index_bits((#[trigger] free[i])@) != spec_index_bits(k)
}

/// Index `idx` is below the head, neither free nor bound.
pub open spec fn slot_available(free: Seq<ResourceHandle>, bound: Map<u32, u64>, head: u32, idx: u32) -> bool {
    &&& idx < head
    &&& forall|i: int| 0 <= i < free.len() ==> spec_index_bits((#[trigger] free[i])@) != idx
    &&& forall|k: u32| #[trigger] bound.contains_key(k) ==> spec_index_bits(k) != idx
}

/// Taking an entry out of the free list keeps the set well formed and leaves
/// its index available.
proof fn lemma_take_free(free: Seq<ResourceHandle>, bound: Map<u32, u64>, head: u32, max: u32, own: u8, mask: u8, f: int)
    requires
        slots_wf(free, bound, head, max, own, mask),
        0 <= f < free.len(),
    ensures
        slots_wf(free.remove(f), bound, head, max, own, mask),
        slot_available(free.remove(f), bound, head, spec_index_bits(free[f]@)),
{
    let fr = free.remove(f);
    assert forall|i: int| 0 <= i < fr.len() implies #[trigger] fr[i] == (if i < f { free[i] } else { free[i + 1] }) by {}
    assert forall|i: int, j: int| 0 <= i < j < fr.len()
        implies spec_index_bits((#[trigger] fr[i])@) != spec_index_bits((#[trigger] fr[j])@) by {
        let a = if i < f { i } else { i + 1 };
        let b = if j < f { j } else { j + 1 };
        assert(fr[i] == free[a] && fr[j] == free[b]);
        assert(spec_index_bits(free[a]@) != spec_index_bits(free[b]@));
    }
    assert forall|i: int| 0 <= i < fr.len() implies spec_index_bits((#[trigger] fr[i])@) != spec_index_bits(free[f]@) by {
        let a = if i < f { i } else { i + 1 };
        assert(fr[i] == free[a]);
        if a < f {
            assert(spec_index_bits(free[a]@) != spec_index_bits(free[f]@));
        } else {
            assert(spec_index_bits(free[f]@) != spec_index_bits(free[a]@));
        }
    }
    assert forall|i: int, k: u32| 0 <= i < fr.len() && #[trigger] bound.contains_key(k)
        implies spec_index_bits((#[trigger] fr[i])@) != spec_index_bits(k) by {
        let a = if i < f { i } else { i + 1 };
        assert(fr[i] == free[a]);
    }
    assert forall|k: u32| #[trigger] bound.contains_key(k) implies spec_index_bits(k) != spec_index_bits(free[f]@) by {
    }
}

/// Appending the indices `from..to` as free entries, and moving the head past
/// `to`, keeps the set well formed and leaves index `to` available.
proof fn lemma_extend_free(free: Seq<ResourceHandle>, bound: Map<u32, u64>, head: u32, max: u32, own: u8, mask: u8, to: u32)
    requires
        slots_wf(free, bound, head, max, own, mask),
        head <= to < max,
    ensures
        slots_wf(free + handle_range(own, head as int, to as int), bound, (to + 1) as u32, max, own, mask),
        slot_available(free + handle_range(own, head as int, to as int), bound, (to + 1) as u32, to),
{
    let r = handle_range(own, head as int, to as int);
    let fr = free + r;
    lemma_bits_union(own, own, mask);
    assert forall|k: int| 0 <= k < r.len() implies spec_index_bits((#[trigger] r[k])@) == head + k
        && spec_type_bits(r[k]@) == own by {
        crate::handle::lemma_handle_round_trip(own, (head + k) as u32);
        lemma_bits_union(own, own, mask);
    }
    assert(own != 0 ==> own & own != 0) by (bit_vector);
    assert forall|i: int| 0 <= i < fr.len() implies spec_index_bits((#[trigger] fr[i])@) < to + 1
        && bits_within(fr[i]@, mask) && spec_index_bits(fr[i]@) != to && spec_type_bits(fr[i]@) & own != 0 by {
        if i >= free.len() {
            assert(fr[i] == r[i - free.len()]);
        }
    }
    assert forall|i: int, j: int| 0 <= i < j < fr.len()
        implies spec_index_bits((#[trigger] fr[i])@) != spec_index_bits((#[trigger] fr[j])@) by {
        if j >= free.len() {
            assert(fr[j] == r[j - free.len()]);
            if i >= free.len() {
                assert(fr[i] == r[i - free.len()]);
            }
        }
    }
    assert forall|i: int, k: u32| 0 <= i < fr.len() && #[trigger] bound.contains_key(k)
        implies spec_index_bits((#[trigger] fr[i])@) != spec_index_bits(k) by {
        if i >= free.len() {
            assert(fr[i] == r[i - free.len()]);
        }
    }
}

/// The type bits of a handle lie within `mask`.
pub open spec fn bits_within(raw: u32, mask: u8) -> bool {
    spec_type_bits(raw) & !mask == 0
}

/// The handles `bits`:`from..to`, in order.
pub open spec fn handle_range(bits: u8, from: int, to: int) -> Seq<ResourceHandle> {
    Seq::new((to - from) as nat, |k: int| ResourceHandle(spec_pack(bits, (from + k) as u32)))
}

impl SetManager {
    /// The type bits of this set's descriptor type.
    pub open spec fn own_bits(&self) -> u8 {
        spec_descriptor_type_bits(self.ty)
    }

    /// What is bound: raw handle to resource id.
    pub open spec fn bound(&self) -> Map<u32, u64> {
        slot_map(self.stored)
    }

    /// The invariant of a set whose handles carry type bits within `mask`:
    /// free and bound handles have indices below the head, and no index is
    /// free twice, bound twice, or free and bound at once.
    pub open spec fn wf(&self, mask: u8) -> bool {
        slots_wf(self.free@, self.bound(), self.head_idx, self.max_idx, self.own_bits(), mask)
    }

    /// The resource bound under raw handle `raw`, if any: what unbinding that
    /// handle gives back.
    pub open spec fn bound_at(&self, raw: u32) -> Option<u64> {
        if self.bound().contains_key(raw) { Some(self.bound()[raw]) } else { None }
    }

    /// Index `idx` can take a new binding: it is below the head, neither free nor bound.
    pub open spec fn index_available(&self, idx: u32) -> bool {
        &&& idx < self.head_idx
        &&& forall|i: int| 0 <= i < self.free@.len() ==> spec_index_bits((#[trigger] self.free@[i])@) != idx
        &&& forall|k: u32| #[trigger] self.bound().contains_key(k) ==> spec_index_bits(k) != idx
    }

    /// The raw handle the next allocation hands out: the index at the back of
    /// the free list, which was freed longest ago (with this set's own type
    /// bits), else the head index; none when nothing is free and the head has
    /// reached the slot count.
    pub open spec fn next_handle(&self) -> Option<u32> {
        if self.free@.len() > 0 {
            Some(spec_pack(self.own_bits(), spec_index_bits(self.free@.last()@)))
        } else if self.head_idx < self.max_idx {
            Some(spec_pack(self.own_bits(), self.head_idx))
        } else {
            None
        }
    }

    /// `new` is `old` after binding `dta` to the next handle: the handle is
    /// bound to `dta` and taken from the free list or the head. When the set
    /// is full, nothing changes.
    pub open spec fn binds_next(old: SetManager, new: SetManager, dta: u64) -> bool {
        &&& new.ty == old.ty
        &&& new.max_idx == old.max_idx
        &&& match old.next_handle() {
            None => new.bound() == old.bound() && new.free@ == old.free@ && new.head_idx == old.head_idx,
            Some(raw) => {
                &&& new.bound() == old.bound().insert(raw, dta)
                &&& new.free@ == (if old.free@.len() > 0 { old.free@.drop_last() } else { old.free@ })
                &&& new.head_idx == (if old.free@.len() > 0 { old.head_idx } else { (old.head_idx + 1) as u32 })
            },
        }
    }

    /// The raw handle that `allocate_common` gives for sets `a` and `b`: the
    /// last index of `a`'s free list that is also free in `b`, with the type
    /// bits of both entries; else the larger of the two heads, with both sets'
    /// type bits, as long as that index is below both sets' slot counts; else
    /// none.
    pub open spec fn common_handle(a: SetManager, b: SetManager) -> Option<u32> {
        if has_any_common(a.free@, b.free@) {
            let f = last_common(a.free@, b.free@);
            let o = common_partner(a.free@, b.free@, f);
            Some(spec_pack(spec_type_bits(a.free@[f]@) | spec_type_bits(b.free@[o]@), spec_index_bits(a.free@[f]@)))
        } else if max_head(a, b) < a.max_idx && max_head(a, b) < b.max_idx {
            Some(spec_pack(a.own_bits() | b.own_bits(), max_head(a, b)))
        } else {
            None
        }
    }

    /// `na` and `nb` are `a` and `b` after the common index was taken: the two
    /// free entries are removed; or every index below the larger head is
    /// marked free in the set with the smaller head and both heads move past
    /// it; or, when no common index is left, both stay as they are.
    pub open spec fn takes_common(a: SetManager, b: SetManager, na: SetManager, nb: SetManager) -> bool {
        if has_any_common(a.free@, b.free@) {
            let f = last_common(a.free@, b.free@);
            let o = common_partner(a.free@, b.free@, f);
            &&& na.free@ == a.free@.remove(f)
            &&& nb.free@ == b.free@.remove(o)
            &&& na.head_idx == a.head_idx && nb.head_idx == b.head_idx
        } else if max_head(a, b) < a.max_idx && max_head(a, b) < b.max_idx {
            let m = max_head(a, b);
            &&& na.free@ == a.free@ + handle_range(a.own_bits(), a.head_idx as int, m as int)
            &&& nb.free@ == b.free@ + handle_range(b.own_bits(), b.head_idx as int, m as int)
            &&& na.head_idx == m + 1 && nb.head_idx == m + 1
        } else {
            &&& na.free@ == a.free@
            &&& nb.free@ == b.free@
            &&& na.head_idx == a.head_idx && nb.head_idx == b.head_idx
        }
    }

    /// `new` is `old` with the binding under `raw` removed and `raw` put in
    /// front of the free list.
    pub open spec fn unbinds(old: SetManager, new: SetManager, raw: u32) -> bool {
        &&& new.ty == old.ty
        &&& new.max_idx == old.max_idx
        &&& new.head_idx == old.head_idx
        &&& new.bound() == old.bound().remove(raw)
        &&& new.free@ == seq![ResourceHandle(raw)] + old.free@
    }

    /// An empty set of type `ty` with `max_count` slots.
    pub fn new(ty: DescriptorType, max_count: u32) -> (r: SetManager)
        requires
            max_count <= MAX_SLOT,
        ensures
            r.ty == ty,
            r.max_idx == max_count,
            r.head_idx == 0,
            r.free@.len() == 0,
            r.bound() == Map::<u32, u64>::empty(),
            forall|mask: u8| mask <= ResourceHandle::TYPE_ACCELERATION_STRUCTURE
                && spec_descriptor_type_bits(ty) & !mask == 0 ==> #[trigger] r.wf(mask),
    {
        let stored = slot_map_new();
        let r = SetManager { free: VecDeque::new(), stored, max_idx: max_count, head_idx: 0, ty };
        proof {
            assert(r.bound() =~= Map::<u32, u64>::empty());
            assert(spec_descriptor_type_bits(ty) != 0);
        }
        r
    }

    /// Takes a handle: the one at the back of the free list (with this set's
    /// type bits), else the next index, else none if all slots are in use.
    fn allocate_handle(&mut self, Ghost(mask): Ghost<u8>) -> (r: Option<ResourceHandle>)
        requires
            old(self).wf(mask),
        ensures
            final(self).ty == old(self).ty,
            final(self).max_idx == old(self).max_idx,
            final(self).stored == old(self).stored,
            old(self).free@.len() > 0 ==> {
                &&& r == Some(ResourceHandle(spec_pack(old(self).own_bits(), spec_index_bits(old(self).free@.last()@))))
                &&& final(self).free@ == old(self).free@.drop_last()
                &&& final(self).head_idx == old(self).head_idx
            },
            old(self).free@.len() == 0 && old(self).head_idx >= old(self).max_idx ==> {
                &&& r is None
                &&& final(self).free@ == old(self).free@
                &&& final(self).head_idx == old(self).head_idx
            },
            old(self).free@.len() == 0 && old(self).head_idx < old(self).max_idx ==> {
                &&& r == Some(ResourceHandle(spec_pack(old(self).own_bits(), old(self).head_idx)))
                &&& final(self).free@ == old(self).free@
                &&& final(self).head_idx == old(self).head_idx + 1
            },
    {
        if let Some(hdl) = self.free.pop_back() {
            proof {
                assert(self.free@.len() + 1 == old(self).free@.len());
                assert(hdl == old(self).free@[old(self).free@.len() - 1]);
                assert(old(self).free@.drop_last() =~= self.free@);
            }
            let ty_bits = ResourceHandle::descriptor_type_to_u8(self.ty);
            Some(ResourceHandle::new(ty_bits, hdl.index()))
        } else if self.head_idx >= self.max_idx {
            None
        } else {
            let new_idx = self.head_idx;
            self.head_idx = self.head_idx + 1;
            Some(ResourceHandle::new_from_desc_ty(self.ty, new_idx))
        }
    }

    /// Gives `hdl` back to the front of the free list, to be reused after the
    /// handles freed before it.
    fn free_handle(&mut self, hdl: ResourceHandle)
        requires
            spec_type_bits(hdl@) & old(self).own_bits() != 0,
        ensures
            final(self).free@ == seq![hdl] + old(self).free@,
            final(self).stored == old(self).stored,
            final(self).head_idx == old(self).head_idx,
            final(self).max_idx == old(self).max_idx,
            final(self).ty == old(self).ty,
    {
        let own = ResourceHandle::descriptor_type_to_u8(self.ty);
        let contains = hdl.contains_type(own);
        assert(contains);
        self.free.push_front(hdl);
    }

    /// Binds resource `dta` to a slot and returns its handle: to
    /// `allocated_slot` if given, which must not be bound already, else to a
    /// newly allocated handle. If no slot is left, `dta` is returned. The set
    /// stays well formed when the given handle was allocated for this set
    /// (its index available, its type bits this set's).
    fn bind(&mut self, dta: u64, allocated_slot: Option<ResourceHandle>, Ghost(mask): Ghost<u8>) -> (r: Result<ResourceHandle, u64>)
        requires
            old(self).wf(mask),
            allocated_slot matches Some(h) ==> !old(self).bound().contains_key(h@),
        ensures
            (allocated_slot matches Some(h) ==> old(self).index_available(spec_index_bits(h@))
                && bits_within(h@, mask) && spec_type_bits(h@) & old(self).own_bits() != 0) ==> final(self).wf(mask),
            final(self).ty == old(self).ty,
            final(self).max_idx == old(self).max_idx,
            allocated_slot matches Some(h) ==> {
                &&& r == Ok::<ResourceHandle, u64>(h)
                &&& final(self).bound() == old(self).bound().insert(h@, dta)
                &&& final(self).free@ == old(self).free@
                &&& final(self).head_idx == old(self).head_idx
            },
            allocated_slot is None ==> (r is Err <==> old(self).free@.len() == 0 && old(self).head_idx >= old(self).max_idx),
            allocated_slot is None && r is Err ==> {
                &&& r == Err::<ResourceHandle, u64>(dta)
                &&& final(self).bound() == old(self).bound()
                &&& final(self).free@ == old(self).free@
                &&& final(self).head_idx == old(self).head_idx
            },
            allocated_slot is None && old(self).free@.len() > 0 ==> {
                &&& r == Ok::<ResourceHandle, u64>(ResourceHandle(spec_pack(old(self).own_bits(), spec_index_bits(old(self).free@.last()@))))
                &&& final(self).bound() == old(self).bound().insert(spec_pack(old(self).own_bits(), spec_index_bits(old(self).free@.last()@)), dta)
                &&& final(self).free@ == old(self).free@.drop_last()
                &&& final(self).head_idx == old(self).head_idx
            },
            allocated_slot is None && old(self).free@.len() == 0 && old(self).head_idx < old(self).max_idx ==> {
                &&& r == Ok::<ResourceHandle, u64>(ResourceHandle(spec_pack(old(self).own_bits(), old(self).head_idx)))
                &&& final(self).bound() == old(self).bound().insert(spec_pack(old(self).own_bits(), old(self).head_idx), dta)
                &&& final(self).free@ == old(self).free@
                &&& final(self).head_idx == old(self).head_idx + 1
            },
    {
        let hdl = if let Some(h) = allocated_slot {
            h
        } else {
            proof {
                let own = old(self).own_bits();
                lemma_bits_union(own, own, mask);
                assert(own != 0 ==> own & own != 0) by (bit_vector);
                if old(self).free@.len() > 0 {
                    let f = old(self).free@.len() - 1;
                    lemma_take_free(old(self).free@, old(self).bound(), old(self).head_idx, old(self).max_idx, own, mask, f);
                    assert(old(self).free@.remove(f) =~= old(self).free@.drop_last());
                    crate::handle::lemma_handle_round_trip(own, spec_index_bits(old(self).free@[f]@));
                } else if old(self).head_idx < old(self).max_idx {
                    crate::handle::lemma_handle_round_trip(own, old(self).head_idx);
                }
            }
            if let Some(h) = self.allocate_handle(Ghost(mask)) {
                h
            } else {
                return Err(dta);
            }
        };
        let in_use = slot_map_contains(&self.stored, hdl.0);
        proof {
            if in_use && allocated_slot is None {
                assert(self.bound().contains_key(hdl@));
                assert(spec_index_bits(hdl@) != spec_index_bits(hdl@));
            }
        }
        assert(!in_use);
        slot_map_insert(&mut self.stored, hdl.0, dta);
        proof {
            let b = self.bound();
            assert(b.dom().finite()) by {
                assert(b.dom() == old(self).bound().dom().insert(hdl@));
            }
            if allocated_slot matches Some(h) ==> old(self).index_available(spec_index_bits(h@))
                && bits_within(h@, mask) && spec_type_bits(h@) & old(self).own_bits() != 0 {
                assert forall|k1: u32, k2: u32| #[trigger] b.contains_key(k1) && #[trigger] b.contains_key(k2)
                    && spec_index_bits(k1) == spec_index_bits(k2) implies k1 == k2 by {
                }
                assert(self.wf(mask));
            }
        }
        Ok(hdl)
    }

    /// Removes the binding under `hdl`, frees the handle and returns the
    /// resource that was bound; none if nothing was bound under `hdl`.
    fn unbind_handle(&mut self, hdl: ResourceHandle, Ghost(mask): Ghost<u8>) -> (r: Option<u64>)
        requires
            old(self).wf(mask),
        ensures
            final(self).wf(mask),
            final(self).ty == old(self).ty,
            final(self).max_idx == old(self).max_idx,
            final(self).head_idx == old(self).head_idx,
            r == old(self).bound_at(hdl@),
            r is Some ==> final(self).bound() == old(self).bound().remove(hdl@)
                && final(self).free@ == seq![hdl] + old(self).free@,
            r is None ==> final(self).bound() == old(self).bound() && final(self).free@ == old(self).free@,
    {
        if let Some(res) = slot_map_remove(&mut self.stored, hdl.0) {
            self.free_handle(hdl);
            proof {
                let fr = self.free@;
                let b = self.bound();
                let ob = old(self).bound();
                assert(ob.contains_key(hdl@));
                assert forall|i: int| 0 <= i < fr.len() implies #[trigger] fr[i] == (if i == 0 { hdl } else { old(self).free@[i - 1] }) by {}
                assert forall|i: int, j: int| 0 <= i < j < fr.len()
                    implies spec_index_bits((#[trigger] fr[i])@) != spec_index_bits((#[trigger] fr[j])@) by {
                    if i == 0 {
                        assert(fr[j] == old(self).free@[j - 1]);
                    } else {
                        assert(fr[i] == old(self).free@[i - 1] && fr[j] == old(self).free@[j - 1]);
                    }
                }
                assert forall|i: int, k: u32| 0 <= i < fr.len() && #[trigger] b.contains_key(k)
                    implies spec_index_bits((#[trigger] fr[i])@) != spec_index_bits(k) by {
                    assert(ob.contains_key(k));
                    if i == 0 {
                        assert(k != hdl@);
                    } else {
                        assert(fr[i] == old(self).free@[i - 1]);
                    }
                }
                assert forall|i: int| 0 <= i < fr.len() implies spec_index_bits((#[trigger] fr[i])@) < self.head_idx
                    && bits_within(fr[i]@, mask) && spec_type_bits(fr[i]@) & self.own_bits() != 0 by {
                    if i > 0 {
                        assert(fr[i] == old(self).free@[i - 1]);
                    }
                }
                assert forall|k1: u32, k2: u32| #[trigger] b.contains_key(k1) && #[trigger] b.contains_key(k2)
                    && spec_index_bits(k1) == spec_index_bits(k2) implies k1 == k2 by {
                    assert(ob.contains_key(k1) && ob.contains_key(k2));
                }
            }
            Some(res)
        } else {
            None
        }
    }

    /// Like `allocate_handle`, but finds one index that is free in both sets:
    /// reuses an index freed in both (the last such one of this set's free
    /// list), or else marks all indices below the larger head as free in the
    /// set with the smaller head and takes the index at the larger head in both.
    /// The handle carries the type bits of both. Like `allocate_handle`, none
    /// when that index has reached the slot count of either set.
    fn allocate_common(&mut self, other: &mut SetManager, Ghost(mask): Ghost<u8>) -> (r: Option<ResourceHandle>)
        requires
            old(self).wf(mask),
            old(other).wf(mask),
        ensures
            final(self).wf(mask),
            final(other).wf(mask),
            final(self).ty == old(self).ty && final(other).ty == old(other).ty,
            final(self).max_idx == old(self).max_idx && final(other).max_idx == old(other).max_idx,
            final(self).stored == old(self).stored && final(other).stored == old(other).stored,
            r matches Some(h) ==> final(self).index_available(spec_index_bits(h@))
                && final(other).index_available(spec_index_bits(h@))
                && spec_index_bits(h@) < final(self).max_idx
                && spec_index_bits(h@) < final(other).max_idx
                && bits_within(h@, mask)
                && spec_type_bits(h@) & final(self).own_bits() != 0
                && spec_type_bits(h@) & final(other).own_bits() != 0,
            r == (match SetManager::common_handle(*old(self), *old(other)) {
                Some(raw) => Some(ResourceHandle(raw)),
                None => None::<ResourceHandle>,
            }),
            SetManager::takes_common(*old(self), *old(other), *final(self), *final(other)),
    {
        let mut free_index: Option<(usize, usize, u32)> = None;
        let n = self.free.len();
        let on = other.free.len();
        let mut fidx: usize = 0;
        while fidx < n
            invariant
                n == self.free@.len(),
                on == other.free@.len(),
                fidx <= n,
                self.wf(mask),
                other.wf(mask),
                self == old(self),
                other == old(other),
                match free_index {
                    Some((f, o, idx)) => f < fidx && o < on && has_common(self.free@, other.free@, f as int)
                        && spec_index_bits(other.free@[o as int]@) == spec_index_bits(self.free@[f as int]@)
                        && idx == spec_index_bits(self.free@[f as int]@)
                        && forall|g: int| f < g < fidx ==> !has_common(self.free@, other.free@, g),
                    None => forall|g: int| 0 <= g < fidx ==> !has_common(self.free@, other.free@, g),
                },
            decreases n - fidx,
        {
            let f = self.free[fidx];
            let mut ofidx: usize = 0;
            let mut found = false;
            while ofidx < on
                invariant_except_break
                    !found,
                invariant
                    n == self.free@.len(),
                    on == other.free@.len(),
                    ofidx <= on,
                    fidx < n,
                    f == self.free@[fidx as int],
                    self == old(self),
                    other == old(other),
                    forall|o: int| 0 <= o < ofidx ==> spec_index_bits(other.free@[o]@) != spec_index_bits(f@),
                ensures
                    found ==> ofidx < on && spec_index_bits(other.free@[ofidx as int]@) == spec_index_bits(f@),
                    !found ==> forall|o: int| 0 <= o < on ==> spec_index_bits(other.free@[o]@) != spec_index_bits(f@),
                decreases on - ofidx,
            {
                let of = other.free[ofidx];
                if of.index() == f.index() {
                    found = true;
                    break;
                }
                ofidx = ofidx + 1;
            }
            if found {
                free_index = Some((fidx, ofidx, f.index()));
            }
            fidx = fidx + 1;
        }
        proof {
            lemma_common_partner_unique(self.free@, other.free@, mask, self.head_idx, other.head_idx);
        }
        if let Some((fi, oi, idx)) = free_index {
            let this_hdl = self.free.remove(fi).unwrap();
            let other_hdl = other.free.remove(oi).unwrap();
            let t1 = this_hdl.handle_type();
            let t2 = other_hdl.handle_type();
            proof {
                lemma_bits_union(t1, t2, mask);
            }
            let hdl = ResourceHandle::new(t1 | t2, this_hdl.index());
            proof {
                assert(last_common(old(self).free@, old(other).free@) == fi as int);
                lemma_take_free(old(self).free@, old(self).bound(), old(self).head_idx, old(self).max_idx, old(self).own_bits(), mask, fi as int);
                lemma_take_free(old(other).free@, old(other).bound(), old(other).head_idx, old(other).max_idx, old(other).own_bits(), mask, oi as int);
                assert(bits_within(old(self).free@[fi as int]@, mask));
                assert(bits_within(old(other).free@[oi as int]@, mask));
                lemma_bits_union(t1, t2, mask);
                crate::handle::lemma_handle_round_trip(t1 | t2, idx);
                assert((t1 | t2) & t1 == t1 && (t1 | t2) & t2 == t2) by (bit_vector);
                let o1 = old(self).own_bits();
                let o2 = old(other).own_bits();
                assert(t1 & o1 != 0 ==> (t1 | t2) & o1 != 0) by (bit_vector);
                assert(t2 & o2 != 0 ==> (t1 | t2) & o2 != 0) by (bit_vector);
                assert(self.wf(mask));
                assert(other.wf(mask));
                assert(self.index_available(spec_index_bits(hdl@)));
                assert(other.index_available(spec_index_bits(hdl@)));
            }
            Some(hdl)
        } else {
            let max_idx = if self.head_idx >= other.head_idx { self.head_idx } else { other.head_idx };
            if max_idx >= self.max_idx || max_idx >= other.max_idx {
                return None;
            }
            let mut idx = self.head_idx;
            while idx < max_idx
                invariant
                    old(self).head_idx <= idx <= max_idx,
                    max_idx < old(self).max_idx && max_idx < old(other).max_idx,
                    max_idx < MAX_SLOT,
                    self.ty == old(self).ty,
                    self.head_idx == old(self).head_idx,
                    self.max_idx == old(self).max_idx,
                    self.stored == old(self).stored,
                    other == old(other),
                    max_idx == (if old(self).head_idx >= old(other).head_idx { old(self).head_idx } else { old(other).head_idx }),
                    self.free@ == old(self).free@ + handle_range(old(self).own_bits(), old(self).head_idx as int, idx as int),
                decreases max_idx - idx,
            {
                self.free.push_back(ResourceHandle::new_from_desc_ty(self.ty, idx));
                proof {
                    assert(handle_range(old(self).own_bits(), old(self).head_idx as int, idx + 1)
                        =~= handle_range(old(self).own_bits(), old(self).head_idx as int, idx as int)
                            .push(ResourceHandle(spec_pack(old(self).own_bits(), idx))));
                }
                idx = idx + 1;
            }
            let mut idx = other.head_idx;
            while idx < max_idx
                invariant
                    old(other).head_idx <= idx <= max_idx,
                    max_idx < old(self).max_idx && max_idx < old(other).max_idx,
                    max_idx < MAX_SLOT,
                    other.ty == old(other).ty,
                    other.head_idx == old(other).head_idx,
                    other.max_idx == old(other).max_idx,
                    other.stored == old(other).stored,
                    self.ty == old(self).ty,
                    self.head_idx == old(self).head_idx,
                    self.max_idx == old(self).max_idx,
                    self.stored == old(self).stored,
                    max_idx == (if old(self).head_idx >= old(other).head_idx { old(self).head_idx } else { old(other).head_idx }),
                    self.free@ == old(self).free@ + handle_range(old(self).own_bits(), old(self).head_idx as int, max_idx as int),
                    other.free@ == old(other).free@ + handle_range(old(other).own_bits(), old(other).head_idx as int, idx as int),
                decreases max_idx - idx,
            {
                other.free.push_back(ResourceHandle::new_from_desc_ty(other.ty, idx));
                proof {
                    assert(handle_range(old(other).own_bits(), old(other).head_idx as int, idx + 1)
                        =~= handle_range(old(other).own_bits(), old(other).head_idx as int, idx as int)
                            .push(ResourceHandle(spec_pack(old(other).own_bits(), idx))));
                }
                idx = idx + 1;
            }
            self.head_idx = max_idx + 1;
            other.head_idx = max_idx + 1;
            let b1 = ResourceHandle::descriptor_type_to_u8(self.ty);
            let b2 = ResourceHandle::descriptor_type_to_u8(other.ty);
            proof {
                lemma_bits_union(b1, b2, mask);
                lemma_extend_free(old(self).free@, old(self).bound(), old(self).head_idx, old(self).max_idx, b1, mask, max_idx);
                lemma_extend_free(old(other).free@, old(other).bound(), old(other).head_idx, old(other).max_idx, b2, mask, max_idx);
                crate::handle::lemma_handle_round_trip(b1 | b2, max_idx);
                assert((b1 | b2) & b1 == b1 && (b1 | b2) & b2 == b2) by (bit_vector);
                assert(b1 != 0 && b2 != 0);
                assert(b1 != 0 ==> b1 & b1 != 0) by (bit_vector);
                assert(b2 != 0 ==> b2 & b2 != 0) by (bit_vector);
                assert(self.wf(mask));
                assert(other.wf(mask));
            }
            let hdl = ResourceHandle::new(b1 | b2, max_idx);
            proof {
                assert(spec_index_bits(hdl@) == max_idx);
                assert(self.index_available(max_idx));
                assert(other.index_available(max_idx));
                assert(bits_within(hdl@, mask));
                assert(spec_type_bits(hdl@) & self.own_bits() != 0);
                assert(spec_type_bits(hdl@) & other.own_bits() != 0);
            }
            Some(hdl)
        }
    }
}

/// Unbinding the handle a resource was bound to gives the resource back and
/// puts the handle in front of the free list; after that nothing is bound
/// under the handle, so unbinding it again finds nothing and changes nothing.
/// `m0` to `m1` is the binding (every successful `bind` inserts the resource
/// under the handle it returns), `m1` to `m2` the first `unbind_handle`.
pub proof fn lemma_unbind_after_bind(m0: SetManager, m1: SetManager, m2: SetManager, h: ResourceHandle, dta: u64)
    requires
        m1.bound() == m0.bound().insert(h@, dta),
        SetManager::unbinds(m1, m2, h@),
    ensures
        m1.bound_at(h@) == Some(dta),
        m2.bound_at(h@) is None,
        m2.free@[0] == h,
        m2.bound() == m0.bound().remove(h@),
{
    assert(m2.bound() =~= m0.bound().remove(h@));
}

/// What the device offers for bindless descriptors: its features (each
/// nonzero when present, as the device reports it) and the limits the
/// descriptor sets are sized by.
#[derive(Clone, Copy, Debug)]
pub struct BindlessDeviceInfo {
    /// Vulkan 1.0: dynamic indexing into storage image arrays.
    pub shader_storage_image_array_dynamic_indexing: u32,
    /// Vulkan 1.0: dynamic indexing into storage buffer arrays.
    pub shader_storage_buffer_array_dynamic_indexing: u32,
    /// Vulkan 1.0: dynamic indexing into uniform buffer arrays.
    pub shader_uniform_buffer_array_dynamic_indexing: u32,
    /// Vulkan 1.0: dynamic indexing into sampled image arrays.
    pub shader_sampled_image_array_dynamic_indexing: u32,
    /// Vulkan 1.2: descriptor indexing.
    pub descriptor_indexing: u32,
    /// Vulkan 1.2: sampled images may be updated after binding.
    pub descriptor_binding_sampled_image_update_after_bind: u32,
    /// Vulkan 1.2: storage images may be updated after binding.
    pub descriptor_binding_storage_image_update_after_bind: u32,
    /// Vulkan 1.2: storage buffers may be updated after binding.
    pub descriptor_binding_storage_buffer_update_after_bind: u32,
    /// Vulkan 1.2: descriptor sets may be partially bound.
    pub descriptor_binding_partially_bound: u32,
    /// Vulkan 1.2: variable descriptor counts.
    pub descriptor_binding_variable_descriptor_count: u32,
    /// Vulkan 1.2: non-uniform indexing into storage buffer arrays.
    pub shader_storage_buffer_array_non_uniform_indexing: u32,
    /// Vulkan 1.2: non-uniform indexing into storage image arrays.
    pub shader_storage_image_array_non_uniform_indexing: u32,
    /// Vulkan 1.2: non-uniform indexing into sampled image arrays.
    pub shader_sampled_image_array_non_uniform_indexing: u32,
    pub max_bound_descriptor_sets: u32,
    pub max_descriptor_set_sampled_images: u32,
    pub max_descriptor_set_storage_images: u32,
    pub max_descriptor_set_storage_buffers: u32,
    pub max_descriptor_set_samplers: u32,
    pub max_push_constants_size: u32,
}

/// Why a device cannot host the bindless setup.
#[derive(Clone, Copy, Debug, PartialEq, Eq, Structural)]
pub enum BindlessError {
    /// Dynamic indexing into descriptor arrays is missing.
    DynamicArrayDescriptorIndexing,
    /// Update after bind, partial binding, variable counts or non-uniform indexing is missing.
    DescriptorIndexing,
    /// The device binds fewer descriptor sets at once than bindless uses.
    TooFewDescriptorSets,
}

/// Some of the dynamic indexing features is missing.
pub open spec fn lacks_dynamic_indexing(info: BindlessDeviceInfo) -> bool {
    ||| info.shader_storage_image_array_dynamic_indexing == 0
    ||| info.shader_storage_buffer_array_dynamic_indexing == 0
    ||| info.shader_uniform_buffer_array_dynamic_indexing == 0
    ||| info.shader_sampled_image_array_dynamic_indexing == 0
}

/// Some of the descriptor indexing, update after bind, partial binding,
/// variable count or non-uniform indexing features is missing.
pub open spec fn lacks_descriptor_indexing(info: BindlessDeviceInfo) -> bool {
    ||| info.descriptor_indexing == 0
    ||| info.descriptor_binding_sampled_image_update_after_bind == 0
    ||| info.descriptor_binding_storage_image_update_after_bind == 0
    ||| info.descriptor_binding_storage_buffer_update_after_bind == 0
    ||| info.descriptor_binding_partially_bound == 0
    ||| info.descriptor_binding_variable_descriptor_count == 0
    ||| info.shader_storage_buffer_array_non_uniform_indexing == 0
    ||| info.shader_storage_image_array_non_uniform_indexing == 0
    ||| info.shader_sampled_image_array_non_uniform_indexing == 0
}

/// The first reason, in the order they are checked, why `info` cannot host
/// the bindless sets.
pub open spec fn setup_error(info: BindlessDeviceInfo) -> Option<BindlessError> {
    if lacks_dynamic_indexing(info) {
        Some(BindlessError::DynamicArrayDescriptorIndexing)
    } else if lacks_descriptor_indexing(info) {
        Some(BindlessError::DescriptorIndexing)
    } else if info.max_bound_descriptor_sets < Bindless::NUM_SETS {
        Some(BindlessError::TooFewDescriptorSets)
    } else {
        None
    }
}


/// The bindless setup needs each of the four dynamic indexing features and
/// each of the nine descriptor indexing, update after bind, partial binding,
/// variable count and non-uniform indexing features, and at least four bound
/// descriptor sets; a missing dynamic indexing feature is reported first,
/// then a missing descriptor indexing feature, then the limit.
pub proof fn lemma_setup_requirements(info: BindlessDeviceInfo)
    ensures
        info.shader_storage_image_array_dynamic_indexing == 0 ==> setup_error(info) == Some(BindlessError::DynamicArrayDescriptorIndexing),
        info.shader_storage_buffer_array_dynamic_indexing == 0 ==> setup_error(info) == Some(BindlessError::DynamicArrayDescriptorIndexing),
        info.shader_uniform_buffer_array_dynamic_indexing == 0 ==> setup_error(info) == Some(BindlessError::DynamicArrayDescriptorIndexing),
        info.shader_sampled_image_array_dynamic_indexing == 0 ==> setup_error(info) == Some(BindlessError::DynamicArrayDescriptorIndexing),
        (info.shader_storage_image_array_dynamic_indexing != 0 && info.shader_storage_buffer_array_dynamic_indexing != 0 && info.shader_uniform_buffer_array_dynamic_indexing != 0 && info.shader_sampled_image_array_dynamic_indexing != 0) && info.descriptor_indexing == 0 ==> setup_error(info) == Some(BindlessError::DescriptorIndexing),
        (info.shader_storage_image_array_dynamic_indexing != 0 && info.shader_storage_buffer_array_dynamic_indexing != 0 && info.shader_uniform_buffer_array_dynamic_indexing != 0 && info.shader_sampled_image_array_dynamic_indexing != 0) && info.descriptor_binding_sampled_image_update_after_bind == 0 ==> setup_error(info) == Some(BindlessError::DescriptorIndexing),
        (info.shader_storage_image_array_dynamic_indexing != 0 && info.shader_storage_buffer_array_dynamic_indexing != 0 && info.shader_uniform_buffer_array_dynamic_indexing != 0 && info.shader_sampled_image_array_dynamic_indexing != 0) && info.descriptor_binding_storage_image_update_after_bind == 0 ==> setup_error(info) == Some(BindlessError::DescriptorIndexing),
        (info.shader_storage_image_array_dynamic_indexing != 0 && info.shader_storage_buffer_array_dynamic_indexing != 0 && info.shader_uniform_buffer_array_dynamic_indexing != 0 && info.shader_sampled_image_array_dynamic_indexing != 0) && info.descriptor_binding_storage_buffer_update_after_bind == 0 ==> setup_error(info) == Some(BindlessError::DescriptorIndexing),
        (info.shader_storage_image_array_dynamic_indexing != 0 && info.shader_storage_buffer_array_dynamic_indexing != 0 && info.shader_uniform_buffer_array_dynamic_indexing != 0 && info.shader_sampled_image_array_dynamic_indexing != 0) && info.descriptor_binding_partially_bound == 0 ==> setup_error(info) == Some(BindlessError::DescriptorIndexing),
        (info.shader_storage_image_array_dynamic_indexing != 0 && info.shader_storage_buffer_array_dynamic_indexing != 0 && info.shader_uniform_buffer_array_dynamic_indexing != 0 && info.shader_sampled_image_array_dynamic_indexing != 0) && info.descriptor_binding_variable_descriptor_count == 0 ==> setup_error(info) == Some(BindlessError::DescriptorIndexing),
        (info.shader_storage_image_array_dynamic_indexing != 0 && info.shader_storage_buffer_array_dynamic_indexing != 0 && info.shader_uniform_buffer_array_dynamic_indexing != 0 && info.shader_sampled_image_array_dynamic_indexing != 0) && info.shader_storage_buffer_array_non_uniform_indexing == 0 ==> setup_error(info) == Some(BindlessError::DescriptorIndexing),
        (info.shader_storage_image_array_dynamic_indexing != 0 && info.shader_storage_buffer_array_dynamic_indexing != 0 && info.shader_uniform_buffer_array_dynamic_indexing != 0 && info.shader_sampled_image_array_dynamic_indexing != 0) && info.shader_storage_image_array_non_uniform_indexing == 0 ==> setup_error(info) == Some(BindlessError::DescriptorIndexing),
        (info.shader_storage_image_array_dynamic_indexing != 0 && info.shader_storage_buffer_array_dynamic_indexing != 0 && info.shader_uniform_buffer_array_dynamic_indexing != 0 && info.shader_sampled_image_array_dynamic_indexing != 0) && info.shader_sampled_image_array_non_uniform_indexing == 0 ==> setup_error(info) == Some(BindlessError::DescriptorIndexing),
        (info.shader_storage_image_array_dynamic_indexing != 0 && info.shader_storage_buffer_array_dynamic_indexing != 0 && info.shader_uniform_buffer_array_dynamic_indexing != 0 && info.shader_sampled_image_array_dynamic_indexing != 0) && (info.descriptor_indexing != 0 && info.descriptor_binding_sampled_image_update_after_bind != 0 && info.descriptor_binding_storage_image_update_after_bind != 0 && info.descriptor_binding_storage_buffer_update_after_bind != 0 && info.descriptor_binding_partially_bound != 0 && info.descriptor_binding_variable_descriptor_count != 0 && info.shader_storage_buffer_array_non_uniform_indexing != 0 && info.shader_storage_image_array_non_uniform_indexing != 0 && info.shader_sampled_image_array_non_uniform_indexing != 0) && info.max_bound_descriptor_sets < 4 ==> setup_error(info) == Some(BindlessError::TooFewDescriptorSets),
        (info.shader_storage_image_array_dynamic_indexing != 0 && info.shader_storage_buffer_array_dynamic_indexing != 0 && info.shader_uniform_buffer_array_dynamic_indexing != 0 && info.shader_sampled_image_array_dynamic_indexing != 0) && (info.descriptor_indexing != 0 && info.descriptor_binding_sampled_image_update_after_bind != 0 && info.descriptor_binding_storage_image_update_after_bind != 0 && info.descriptor_binding_storage_buffer_update_after_bind != 0 && info.descriptor_binding_partially_bound != 0 && info.descriptor_binding_variable_descriptor_count != 0 && info.shader_storage_buffer_array_non_uniform_indexing != 0 && info.shader_storage_image_array_non_uniform_indexing != 0 && info.shader_sampled_image_array_non_uniform_indexing != 0) && info.max_bound_descriptor_sets >= 4 ==> setup_error(info) is None,
{
}

/// The smaller of two counts.
pub open spec fn min_count(a: u32, b: u32) -> u32 {
    if a <= b { a } else { b }
}

/// The bindless setup: one descriptor set for storage buffers, storage images,
/// sampled images and samplers each. Resources are known by an id.
pub struct Bindless {
    pub stbuffer: SetManager,
    pub stimage: SetManager,
    pub saimage: SetManager,
    pub sampler: SetManager,
    /// The largest push constant size, to check bound push constants against.
    pub push_constant_size: u32,
}

impl Bindless {
    /// Default maximum number of bound sampled images: 2^24, all that a handle's
    /// index can address.
    pub const MAX_BOUND_SAMPLED_IMAGES: u32 = 0x100_0000;
    /// Default maximum number of bound storage images.
    pub const MAX_BOUND_STORAGE_IMAGES: u32 = 0x100_0000;
    /// Default maximum number of bound storage buffers.
    pub const MAX_BOUND_STORAGE_BUFFER: u32 = 0x100_0000;
    /// Default maximum number of bound samplers.
    pub const MAX_BOUND_SAMPLER: u32 = 0x100_0000;
    /// Number of descriptor sets, one per descriptor type.
    pub const NUM_SETS: u32 = 4;

    /// Each set has its own descriptor type and is well formed; the two image
    /// sets share type bits, since an image can be bound to both.
    pub open spec fn wf(&self) -> bool {
        &&& self.stbuffer.ty == DescriptorType::StorageBuffer && self.stbuffer.wf(1)
        &&& self.stimage.ty == DescriptorType::StorageImage && self.stimage.wf(6)
        &&& self.saimage.ty == DescriptorType::SampledImage && self.saimage.wf(6)
        &&& self.sampler.ty == DescriptorType::Sampler && self.sampler.wf(8)
    }

    /// A set of type `ty` with `max` slots, nothing bound or allocated yet.
    pub open spec fn empty_set(s: SetManager, ty: DescriptorType, max: u32) -> bool {
        &&& s.ty == ty
        &&& s.max_idx == max
        &&& s.head_idx == 0
        &&& s.free@.len() == 0
        &&& s.bound() == Map::<u32, u64>::empty()
    }

    /// `b` is well formed, binds nothing yet, and each set is as large as the
    /// `MAX_*` default or the device limit of `info`, whichever is smaller.
    pub open spec fn default_for(b: Bindless, info: BindlessDeviceInfo) -> bool {
        &&& b.wf()
        &&& Bindless::empty_set(b.saimage, DescriptorType::SampledImage,
            min_count(Bindless::MAX_BOUND_SAMPLED_IMAGES, info.max_descriptor_set_sampled_images))
        &&& Bindless::empty_set(b.stimage, DescriptorType::StorageImage,
            min_count(Bindless::MAX_BOUND_STORAGE_IMAGES, info.max_descriptor_set_storage_images))
        &&& Bindless::empty_set(b.stbuffer, DescriptorType::StorageBuffer,
            min_count(Bindless::MAX_BOUND_STORAGE_BUFFER, info.max_descriptor_set_storage_buffers))
        &&& Bindless::empty_set(b.sampler, DescriptorType::Sampler,
            min_count(Bindless::MAX_BOUND_SAMPLER, info.max_descriptor_set_samplers))
        &&& b.push_constant_size == info.max_push_constants_size
    }

    /// Sets up bindless descriptors with the given slot counts per set, after
    /// checking that the device supports them. The push constant size is the
    /// device maximum.
    pub fn new(info: &BindlessDeviceInfo, max_sampled_image: u32, max_storage_image: u32, max_storage_buffer: u32, max_sampler: u32) -> (r: Result<Bindless, BindlessError>)
        requires
            max_sampled_image <= MAX_SLOT,
            max_storage_image <= MAX_SLOT,
            max_storage_buffer <= MAX_SLOT,
            max_sampler <= MAX_SLOT,
        ensures
            setup_error(*info) matches Some(e) ==> r == Err::<Bindless, BindlessError>(e),
            setup_error(*info) is None ==> r is Ok,
            r matches Ok(b) ==> {
                &&& b.wf()
                &&& Bindless::empty_set(b.saimage, DescriptorType::SampledImage, max_sampled_image)
                &&& Bindless::empty_set(b.stimage, DescriptorType::StorageImage, max_storage_image)
                &&& Bindless::empty_set(b.stbuffer, DescriptorType::StorageBuffer, max_storage_buffer)
                &&& Bindless::empty_set(b.sampler, DescriptorType::Sampler, max_sampler)
                &&& b.push_constant_size == info.max_push_constants_size
            },
    {
        if info.shader_storage_image_array_dynamic_indexing == 0
            || info.shader_storage_buffer_array_dynamic_indexing == 0
            || info.shader_uniform_buffer_array_dynamic_indexing == 0
            || info.shader_sampled_image_array_dynamic_indexing == 0
        {
            return Err(BindlessError::DynamicArrayDescriptorIndexing);
        }
        if info.descriptor_indexing == 0
            || info.descriptor_binding_sampled_image_update_after_bind == 0
            || info.descriptor_binding_storage_image_update_after_bind == 0
            || info.descriptor_binding_storage_buffer_update_after_bind == 0
            || info.descriptor_binding_partially_bound == 0
            || info.descriptor_binding_variable_descriptor_count == 0
            || info.shader_storage_buffer_array_non_uniform_indexing == 0
            || info.shader_storage_image_array_non_uniform_indexing == 0
            || info.shader_sampled_image_array_non_uniform_indexing == 0
        {
            return Err(BindlessError::DescriptorIndexing);
        }
        if info.max_bound_descriptor_sets < Self::NUM_SETS {
            return Err(BindlessError::TooFewDescriptorSets);
        }
        let saimage = SetManager::new(DescriptorType::SampledImage, max_sampled_image);
        let stimage = SetManager::new(DescriptorType::StorageImage, max_storage_image);
        let stbuffer = SetManager::new(DescriptorType::StorageBuffer, max_storage_buffer);
        let sampler = SetManager::new(DescriptorType::Sampler, max_sampler);
        let b = Bindless { stbuffer, stimage, saimage, sampler, push_constant_size: info.max_push_constants_size };
        proof {
            assert(1u8 & !1u8 == 0 && 2u8 & !6u8 == 0 && 4u8 & !6u8 == 0 && 8u8 & !8u8 == 0) by (bit_vector);
            assert(b.stbuffer.wf(1u8));
            assert(b.stimage.wf(6u8));
            assert(b.saimage.wf(6u8));
            assert(b.sampler.wf(8u8));
        }
        Ok(b)
    }

    /// Like `new`, with each set as large as the `MAX_*` default or the
    /// device limit, whichever is smaller.
    pub fn new_default(info: &BindlessDeviceInfo) -> (r: Result<Bindless, BindlessError>)
        ensures
            setup_error(*info) matches Some(e) ==> r == Err::<Bindless, BindlessError>(e),
            setup_error(*info) is None ==> r is Ok,
            r matches Ok(b) ==> Bindless::default_for(b, *info),
    {
        let sa = if Self::MAX_BOUND_SAMPLED_IMAGES <= info.max_descriptor_set_sampled_images {
            Self::MAX_BOUND_SAMPLED_IMAGES
        } else {
            info.max_descriptor_set_sampled_images
        };
        let st = if Self::MAX_BOUND_STORAGE_IMAGES <= info.max_descriptor_set_storage_images {
            Self::MAX_BOUND_STORAGE_IMAGES
        } else {
            info.max_descriptor_set_storage_images
        };
        let sb = if Self::MAX_BOUND_STORAGE_BUFFER <= info.max_descriptor_set_storage_buffers {
            Self::MAX_BOUND_STORAGE_BUFFER
        } else {
            info.max_descriptor_set_storage_buffers
        };
        let sm = if Self::MAX_BOUND_SAMPLER <= info.max_descriptor_set_samplers {
            Self::MAX_BOUND_SAMPLER
        } else {
            info.max_descriptor_set_samplers
        };
        Self::new(info, sa, st, sb, sm)
    }

    /// Binds a storage buffer and returns its handle; gives the buffer back if
    /// the set is full.
    pub fn bind_storage_buffer(&mut self, buffer: u64) -> (r: Result<ResourceHandle, u64>)
        requires
            old(self).wf(),
        ensures
            final(self).wf(),
            r == match old(self).stbuffer.next_handle() {
                Some(raw) => Ok::<ResourceHandle, u64>(ResourceHandle(raw)),
                None => Err::<ResourceHandle, u64>(buffer),
            },
            SetManager::binds_next(old(self).stbuffer, final(self).stbuffer, buffer),
            final(self).stimage == old(self).stimage,
            final(self).saimage == old(self).saimage,
            final(self).sampler == old(self).sampler,
            final(self).push_constant_size == old(self).push_constant_size,
    {
        self.stbuffer.bind(buffer, None, Ghost(1u8))
    }

    /// Removes the storage buffer bound under `handle` and frees its slot.
    pub fn remove_storage_buffer(&mut self, handle: ResourceHandle)
        requires
            old(self).wf(),
            old(self).stbuffer.bound().contains_key(handle@),
        ensures
            final(self).wf(),
            SetManager::unbinds(old(self).stbuffer, final(self).stbuffer, handle@),
            final(self).stimage == old(self).stimage,
            final(self).saimage == old(self).saimage,
            final(self).sampler == old(self).sampler,
            final(self).push_constant_size == old(self).push_constant_size,
    {
        let removed = self.stbuffer.unbind_handle(handle, Ghost(1u8));
        assert(removed is Some);
    }

    /// Binds an image as storage image and returns its handle. The image is
    /// given back if its usage lacks the storage bit, or if the set is full.
    pub fn bind_storage_image(&mut self, image: u64, usage: u32) -> (r: Result<ResourceHandle, u64>)
        requires
            old(self).wf(),
        ensures
            final(self).wf(),
            usage & IMAGE_USAGE_STORAGE == 0 ==> r == Err::<ResourceHandle, u64>(image) && *final(self) == *old(self),
            usage & IMAGE_USAGE_STORAGE != 0 ==> {
                &&& r == match old(self).stimage.next_handle() {
                    Some(raw) => Ok::<ResourceHandle, u64>(ResourceHandle(raw)),
                    None => Err::<ResourceHandle, u64>(image),
                }
                &&& SetManager::binds_next(old(self).stimage, final(self).stimage, image)
            },
            final(self).stbuffer == old(self).stbuffer,
            final(self).saimage == old(self).saimage,
            final(self).sampler == old(self).sampler,
            final(self).push_constant_size == old(self).push_constant_size,
    {
        if usage & IMAGE_USAGE_STORAGE == 0 {
            return Err(image);
        }
        self.stimage.bind(image, None, Ghost(6u8))
    }

    /// Removes the storage image bound under `handle` and frees its slot.
    pub fn remove_storage_image(&mut self, handle: ResourceHandle)
        requires
            old(self).wf(),
            old(self).stimage.bound().contains_key(handle@),
        ensures
            final(self).wf(),
            SetManager::unbinds(old(self).stimage, final(self).stimage, handle@),
            final(self).stbuffer == old(self).stbuffer,
            final(self).saimage == old(self).saimage,
            final(self).sampler == old(self).sampler,
            final(self).push_constant_size == old(self).push_constant_size,
    {
        let removed = self.stimage.unbind_handle(handle, Ghost(6u8));
        assert(removed is Some);
    }

    /// Binds an image as sampled image and returns its handle. The image is
    /// given back if its usage lacks the sampled bit, or if the set is full.
    pub fn bind_sampled_image(&mut self, image: u64, usage: u32) -> (r: Result<ResourceHandle, u64>)
        requires
            old(self).wf(),
        ensures
            final(self).wf(),
            usage & IMAGE_USAGE_SAMPLED == 0 ==> r == Err::<ResourceHandle, u64>(image) && *final(self) == *old(self),
            usage & IMAGE_USAGE_SAMPLED != 0 ==> {
                &&& r == match old(self).saimage.next_handle() {
                    Some(raw) => Ok::<ResourceHandle, u64>(ResourceHandle(raw)),
                    None => Err::<ResourceHandle, u64>(image),
                }
                &&& SetManager::binds_next(old(self).saimage, final(self).saimage, image)
            },
            final(self).stbuffer == old(self).stbuffer,
            final(self).stimage == old(self).stimage,
            final(self).sampler == old(self).sampler,
            final(self).push_constant_size == old(self).push_constant_size,
    {
        if usage & IMAGE_USAGE_SAMPLED == 0 {
            return Err(image);
        }
        self.saimage.bind(image, None, Ghost(6u8))
    }

    /// Binds an image as sampled and as storage image under one common index,
    /// and returns the handle, which carries both type bits. The image is given
    /// back if its usage lacks the sampled or the storage bit, or if no index
    /// below both sets' slot counts is left.
    pub fn bind_sampled_storage_image(&mut self, image: u64, usage: u32) -> (r: Result<ResourceHandle, u64>)
        requires
            old(self).wf(),
        ensures
            final(self).wf(),
            (usage & IMAGE_USAGE_SAMPLED == 0 || usage & IMAGE_USAGE_STORAGE == 0)
                ==> r == Err::<ResourceHandle, u64>(image) && *final(self) == *old(self),
            (usage & IMAGE_USAGE_SAMPLED != 0 && usage & IMAGE_USAGE_STORAGE != 0
                && SetManager::common_handle(old(self).saimage, old(self).stimage) is None)
                ==> r == Err::<ResourceHandle, u64>(image) && final(self).saimage.bound() == old(self).saimage.bound()
                    && final(self).stimage.bound() == old(self).stimage.bound()
                    && SetManager::takes_common(old(self).saimage, old(self).stimage, final(self).saimage, final(self).stimage),
            (usage & IMAGE_USAGE_SAMPLED != 0 && usage & IMAGE_USAGE_STORAGE != 0) ==> (SetManager::common_handle(old(self).saimage, old(self).stimage) matches Some(raw) ==> {
                &&& r == Ok::<ResourceHandle, u64>(ResourceHandle(raw))
                &&& spec_index_bits(raw) < old(self).saimage.max_idx && spec_index_bits(raw) < old(self).stimage.max_idx
                &&& SetManager::takes_common(old(self).saimage, old(self).stimage, final(self).saimage, final(self).stimage)
                &&& final(self).saimage.bound() == old(self).saimage.bound().insert(raw, image)
                &&& final(self).stimage.bound() == old(self).stimage.bound().insert(raw, image)
                &&& final(self).saimage.ty == old(self).saimage.ty && final(self).saimage.max_idx == old(self).saimage.max_idx
                &&& final(self).stimage.ty == old(self).stimage.ty && final(self).stimage.max_idx == old(self).stimage.max_idx
                &&& spec_type_bits(raw) & ResourceHandle::TYPE_SAMPLED_IMAGE != 0
                &&& spec_type_bits(raw) & ResourceHandle::TYPE_STORAGE_IMAGE != 0
            }),
            final(self).stbuffer == old(self).stbuffer,
            final(self).sampler == old(self).sampler,
            final(self).push_constant_size == old(self).push_constant_size,
    {
        let both = IMAGE_USAGE_SAMPLED | IMAGE_USAGE_STORAGE;
        if usage & both != both {
            proof {
                assert((usage & (4u32 | 8u32) != (4u32 | 8u32)) == (usage & 4u32 == 0 || usage & 8u32 == 0)) by (bit_vector);
            }
            return Err(image);
        }
        proof {
            assert((usage & (4u32 | 8u32) == (4u32 | 8u32)) ==> (usage & 4u32 != 0 && usage & 8u32 != 0)) by (bit_vector);
        }
        let allocated = self.saimage.allocate_common(&mut self.stimage, Ghost(6u8));
        let hdl = match allocated {
            Some(h) => h,
            None => {
                return Err(image);
            },
        };
        let hdl_sa = self.saimage.bind(image, Some(hdl), Ghost(6u8));
        let hdl_st = self.stimage.bind(image, Some(hdl), Ghost(6u8));
        assert(hdl_sa == Ok::<ResourceHandle, u64>(hdl) && hdl_st == Ok::<ResourceHandle, u64>(hdl));
        Ok(hdl)
    }

    /// Removes the sampled image bound under `handle` and frees its slot.
    pub fn remove_sampled_image(&mut self, handle: ResourceHandle)
        requires
            old(self).wf(),
            old(self).saimage.bound().contains_key(handle@),
        ensures
            final(self).wf(),
            SetManager::unbinds(old(self).saimage, final(self).saimage, handle@),
            final(self).stbuffer == old(self).stbuffer,
            final(self).stimage == old(self).stimage,
            final(self).sampler == old(self).sampler,
            final(self).push_constant_size == old(self).push_constant_size,
    {
        let removed = self.saimage.unbind_handle(handle, Ghost(6u8));
        assert(removed is Some);
    }

    /// Binds a sampler and returns its handle; gives the sampler back if the
    /// set is full.
    pub fn bind_sampler(&mut self, sampler: u64) -> (r: Result<ResourceHandle, u64>)
        requires
            old(self).wf(),
        ensures
            final(self).wf(),
            r == match old(self).sampler.next_handle() {
                Some(raw) => Ok::<ResourceHandle, u64>(ResourceHandle(raw)),
                None => Err::<ResourceHandle, u64>(sampler),
            },
            SetManager::binds_next(old(self).sampler, final(self).sampler, sampler),
            final(self).stbuffer == old(self).stbuffer,
            final(self).stimage == old(self).stimage,
            final(self).saimage == old(self).saimage,
            final(self).push_constant_size == old(self).push_constant_size,
    {
        self.sampler.bind(sampler, None, Ghost(8u8))
    }

    /// Removes the sampler bound under `handle` and frees its slot.
    pub fn remove_sampler(&mut self, handle: ResourceHandle)
        requires
            old(self).wf(),
            old(self).sampler.bound().contains_key(handle@),
        ensures
            final(self).wf(),
            SetManager::unbinds(old(self).sampler, final(self).sampler, handle@),
            final(self).stbuffer == old(self).stbuffer,
            final(self).stimage == old(self).stimage,
            final(self).saimage == old(self).saimage,
            final(self).push_constant_size == old(self).push_constant_size,
    {
        let removed = self.sampler.unbind_handle(handle, Ghost(8u8));
        assert(removed is Some);
    }
}

/// The next handle of a well formed set holds nothing yet: binding a resource
/// to it and then removing the binding leaves the set's bindings as they were.
pub proof fn lemma_next_handle_unbound(s: SetManager, mask: u8, dta: u64)
    requires
        s.wf(mask),
        s.next_handle() is Some,
    ensures
        !s.bound().contains_key(s.next_handle()->0),
        s.bound().insert(s.next_handle()->0, dta).remove(s.next_handle()->0) == s.bound(),
{
    let own = s.own_bits();
    let raw = s.next_handle()->0;
    lemma_bits_union(own, own, mask);
    if s.free@.len() > 0 {
        let f = s.free@.len() - 1;
        lemma_take_free(s.free@, s.bound(), s.head_idx, s.max_idx, own, mask, f);
        crate::handle::lemma_handle_round_trip(own, spec_index_bits(s.free@[f]@));
    } else {
        crate::handle::lemma_handle_round_trip(own, s.head_idx);
    }
    if s.bound().contains_key(raw) {
        assert(spec_index_bits(raw) != spec_index_bits(raw));
    }
    assert(s.bound().insert(raw, dta).remove(raw) =~= s.bound());
}

/// Some index is free in both lists.
pub open spec fn has_any_common(a: Seq<ResourceHandle>, b: Seq<ResourceHandle>) -> bool {
    exists|f: int| 0 <= f < a.len() && has_common(a, b, f)
}

/// The larger head of two sets.
pub open spec fn max_head(a: SetManager, b: SetManager) -> u32 {
    if a.head_idx >= b.head_idx { a.head_idx } else { b.head_idx }
}

/// Index `f` of the free list `a` is also free in `b`.
pub open spec fn has_common(a: Seq<ResourceHandle>, b: Seq<ResourceHandle>, f: int) -> bool {
    exists|o: int| 0 <= o < b.len() && spec_index_bits(b[o]@) == spec_index_bits(a[f]@)
}

/// The last index of `a` that is also free in `b`.
pub open spec fn last_common(a: Seq<ResourceHandle>, b: Seq<ResourceHandle>) -> int {
    choose|f: int| 0 <= f < a.len() && has_common(a, b, f)
        && forall|g: int| f < g < a.len() ==> !has_common(a, b, g)
}

/// The position in `b` with the same index as position `f` of `a`.
pub open spec fn common_partner(a: Seq<ResourceHandle>, b: Seq<ResourceHandle>, f: int) -> int {
    choose|o: int| 0 <= o < b.len() && spec_index_bits(b[o]@) == spec_index_bits(a[f]@)
}

proof fn lemma_common_partner_unique(a: Seq<ResourceHandle>, b: Seq<ResourceHandle>, mask: u8, ha: u32, hb: u32)
    requires
        forall|i: int, j: int| 0 <= i < j < b.len() ==> spec_index_bits((#[trigger] b[i])@) != spec_index_bits((#[trigger] b[j])@),
        forall|i: int, j: int| 0 <= i < j < a.len() ==> spec_index_bits((#[trigger] a[i])@) != spec_index_bits((#[trigger] a[j])@),
    ensures
        forall|f: int, o: int| #![trigger common_partner(a, b, f), b[o]]
            0 <= f < a.len() && 0 <= o < b.len() && spec_index_bits(b[o]@) == spec_index_bits(a[f]@)
            ==> common_partner(a, b, f) == o,
        forall|f: int| 0 <= f < a.len() && has_common(a, b, f) && (forall|g: int| f < g < a.len() ==> !has_common(a, b, g))
            ==> #[trigger] last_common(a, b) == f,
{
    assert forall|f: int, o: int| #![trigger common_partner(a, b, f), b[o]]
        0 <= f < a.len() && 0 <= o < b.len() && spec_index_bits(b[o]@) == spec_index_bits(a[f]@)
        implies common_partner(a, b, f) == o by {
        let p = common_partner(a, b, f);
        if p != o {
            if p < o {
                assert(spec_index_bits(b[p]@) != spec_index_bits(b[o]@));
            } else {
                assert(spec_index_bits(b[o]@) != spec_index_bits(b[p]@));
            }
        }
    }
    assert forall|f: int| 0 <= f < a.len() && has_common(a, b, f) && (forall|g: int| f < g < a.len() ==> !has_common(a, b, g))
        implies #[trigger] last_common(a, b) == f by {
        let l = last_common(a, b);
        if l < f {
            assert(!has_common(a, b, f));
        } else if l > f {
            assert(!has_common(a, b, l));
        }
    }
}

/// Bits within a mask stay within it when combined, and are at most the mask.
proof fn lemma_bits_union(a: u8, b: u8, mask: u8)
    ensures
        (a & !mask == 0 && b & !mask == 0) ==> ((a | b) & !mask == 0 && (a | b) <= mask),
        a & !mask == 0 ==> a <= mask,
{
    assert((a & !mask == 0 && b & !mask == 0) ==> ((a | b) & !mask == 0 && (a | b) <= mask)) by (bit_vector);
    assert(a & !mask == 0 ==> a <= mask) by (bit_vector);
}

} // verus!
