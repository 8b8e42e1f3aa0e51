//! The hash maps of the `ahash` and `fxhash` crates and the slot maps of the
//! `slotmap` crate, as the library uses them.
//!
//! Each map instantiation has a name for its contents and a wrapper for each
//! map operation the library calls. The wrappers state, over those names, what
//! the crates' sources show: `AHashMap` and `FxHashMap` are `std::collections::HashMap`
//! with another hasher, and the library only uses their map operations; a
//! slot map stores values under versioned keys.
use vstd::prelude::*;
use ahash::{AHashMap, AHashSet};
use fxhash::FxHashMap;
use slotmap::{DefaultKey, Key, KeyData, SlotMap};
use crate::track::Track;
use crate::schedule::TrackSchedule;
use crate::temporary::RuntimeInfo;
use crate::res_states::{ResBuffer, ResImage, ResSampler};

verus! {

/// The map type of the `ahash` crate.
#[verifier::external_type_specification]
#[verifier::external_body]
#[verifier::reject_recursive_types(K)]
#[verifier::reject_recursive_types(V)]
#[verifier::reject_recursive_types(S)]
pub struct ExAHashMap<K, V, S>(AHashMap<K, V, S>);

/// The set type of the `ahash` crate.
#[verifier::external_type_specification]
#[verifier::external_body]
#[verifier::reject_recursive_types(T)]
#[verifier::reject_recursive_types(S)]
pub struct ExAHashSet<T, S>(AHashSet<T, S>);

/// The default hash builder of the `ahash` crate.
#[verifier::external_type_specification]
#[verifier::external_body]
pub struct ExAHashRandomState(ahash::RandomState);

/// The std hash builder that `FxHashMap` is built with.
#[verifier::external_type_specification]
#[verifier::external_body]
#[verifier::reject_recursive_types(H)]
pub struct ExBuildHasherDefault<H>(core::hash::BuildHasherDefault<H>);

/// The hasher of the `fxhash` crate.
#[verifier::external_type_specification]
#[verifier::external_body]
pub struct ExFxHasher(fxhash::FxHasher);

// ---------------------------------------------------------------------------
// Tracks by track id.
// ---------------------------------------------------------------------------

/// What a map of tracks holds.
pub uninterp spec fn track_map(m: AHashMap<u32, Track>) -> Map<u32, Track>;

/// `AHashMap::default`: an empty map.
#[verifier::external_body]
pub(crate) fn track_map_new() -> (r: AHashMap<u32, Track>)
    ensures
        track_map(r).dom() == Set::<u32>::empty(),
{
    AHashMap::default()
}

/// `AHashMap::insert`: the key now maps to the value; the former value is returned.
#[verifier::external_body]
pub(crate) fn track_map_insert(m: &mut AHashMap<u32, Track>, k: u32, v: Track) -> (r: Option<Track>)
    ensures
        track_map(*final(m)) == track_map(*old(m)).insert(k, v),
        r == (if track_map(*old(m)).contains_key(k) { Some(track_map(*old(m))[k]) } else { None }),
{
    m.insert(k, v)
}

/// `AHashMap::get`: the value under the key, if there is one.
#[verifier::external_body]
pub(crate) fn track_map_get(m: &AHashMap<u32, Track>, k: u32) -> (r: Option<&Track>)
    ensures
        r matches Some(v) ==> track_map(*m).contains_key(k) && *v == track_map(*m)[k],
        r is None ==> !track_map(*m).contains_key(k),
{
    m.get(&k)
}

/// `AHashMap::remove` (through `DerefMut` to `HashMap`): the key is gone; its value is returned.
#[verifier::external_body]
pub(crate) fn track_map_remove(m: &mut AHashMap<u32, Track>, k: u32) -> (r: Option<Track>)
    ensures
        track_map(*final(m)) == track_map(*old(m)).remove(k),
        r == (if track_map(*old(m)).contains_key(k) { Some(track_map(*old(m))[k]) } else { None }),
{
    m.remove(&k)
}

/// `AHashMap::keys` (through `Deref` to `HashMap`), collected: every key once,
/// in the map's own order, which this contract leaves open.
#[verifier::external_body]
pub(crate) fn track_map_keys(m: &AHashMap<u32, Track>) -> (r: Vec<u32>)
    ensures
        r@.no_duplicates(),
        r@.to_set() == track_map(*m).dom(),
{
    m.keys().copied().collect()
}

// ---------------------------------------------------------------------------
// Track schedules by track id.
// ---------------------------------------------------------------------------

/// What a map of track schedules holds.
pub uninterp spec fn schedule_map(m: AHashMap<u32, TrackSchedule>) -> Map<u32, TrackSchedule>;

/// `AHashMap::default`: an empty map.
#[verifier::external_body]
pub(crate) fn schedule_map_new() -> (r: AHashMap<u32, TrackSchedule>)
    ensures
        schedule_map(r).dom() == Set::<u32>::empty(),
{
    AHashMap::default()
}

/// `AHashMap::insert`: the key now maps to the value; the former value is returned.
#[verifier::external_body]
pub(crate) fn schedule_map_insert(
    m: &mut AHashMap<u32, TrackSchedule>,
    k: u32,
    v: TrackSchedule,
) -> (r: Option<TrackSchedule>)
    ensures
        schedule_map(*final(m)) == schedule_map(*old(m)).insert(k, v),
        r == (if schedule_map(*old(m)).contains_key(k) {
            Some(schedule_map(*old(m))[k])
        } else {
            None
        }),
{
    m.insert(k, v)
}

/// `AHashMap::get`: the value under the key, if there is one.
#[verifier::external_body]
pub(crate) fn schedule_map_get(m: &AHashMap<u32, TrackSchedule>, k: u32) -> (r: Option<&TrackSchedule>)
    ensures
        r matches Some(v) ==> schedule_map(*m).contains_key(k) && *v == schedule_map(*m)[k],
        r is None ==> !schedule_map(*m).contains_key(k),
{
    m.get(&k)
}

/// `AHashMap::remove`: the key is gone; its value is returned.
#[verifier::external_body]
pub(crate) fn schedule_map_remove(m: &mut AHashMap<u32, TrackSchedule>, k: u32) -> (r: Option<TrackSchedule>)
    ensures
        schedule_map(*final(m)) == schedule_map(*old(m)).remove(k),
        r == (if schedule_map(*old(m)).contains_key(k) {
            Some(schedule_map(*old(m))[k])
        } else {
            None
        }),
{
    m.remove(&k)
}

/// `AHashMap::keys` (through `Deref` to `HashMap`), collected: every key once,
/// in the map's own order, which this contract leaves open.
#[verifier::external_body]
pub(crate) fn schedule_map_keys(m: &AHashMap<u32, TrackSchedule>) -> (r: Vec<u32>)
    ensures
        r@.no_duplicates(),
        r@.to_set() == schedule_map(*m).dom(),
{
    m.keys().copied().collect()
}

// ---------------------------------------------------------------------------
// Resource residency: resource code to (track id, node index).
// ---------------------------------------------------------------------------

/// What a residency map holds.
pub uninterp spec fn residency_map(m: AHashMap<(u8, u64), (u32, usize)>) -> Map<(u8, u64), (u32, usize)>;

/// `AHashMap::default`: an empty map.
#[verifier::external_body]
pub(crate) fn residency_map_new() -> (r: AHashMap<(u8, u64), (u32, usize)>)
    ensures
        residency_map(r).dom() == Set::<(u8, u64)>::empty(),
{
    AHashMap::default()
}

/// `AHashMap::insert`: the key now maps to the value; the former value is returned.
#[verifier::external_body]
pub(crate) fn residency_map_insert(
    m: &mut AHashMap<(u8, u64), (u32, usize)>,
    k: (u8, u64),
    v: (u32, usize),
) -> (r: Option<(u32, usize)>)
    ensures
        residency_map(*final(m)) == residency_map(*old(m)).insert(k, v),
        r == (if residency_map(*old(m)).contains_key(k) {
            Some(residency_map(*old(m))[k])
        } else {
            None
        }),
{
    m.insert(k, v)
}

/// `AHashMap::get`, copied out: the value under the key, if there is one.
#[verifier::external_body]
pub(crate) fn residency_map_get(m: &AHashMap<(u8, u64), (u32, usize)>, k: (u8, u64)) -> (r: Option<(u32, usize)>)
    ensures
        r == (if residency_map(*m).contains_key(k) { Some(residency_map(*m)[k]) } else { None }),
{
    m.get(&k).copied()
}

// ---------------------------------------------------------------------------
// Next frame index by track id.
// ---------------------------------------------------------------------------

/// What a map of frame indices holds.
pub uninterp spec fn index_map(m: AHashMap<u32, usize>) -> Map<u32, usize>;

/// `AHashMap::default`: an empty map.
#[verifier::external_body]
pub(crate) fn index_map_new() -> (r: AHashMap<u32, usize>)
    ensures
        index_map(r).dom() == Set::<u32>::empty(),
{
    AHashMap::default()
}

/// `AHashMap::insert`: the key now maps to the value; the former value is returned.
#[verifier::external_body]
pub(crate) fn index_map_insert(m: &mut AHashMap<u32, usize>, k: u32, v: usize) -> (r: Option<usize>)
    ensures
        index_map(*final(m)) == index_map(*old(m)).insert(k, v),
        r == (if index_map(*old(m)).contains_key(k) { Some(index_map(*old(m))[k]) } else { None }),
{
    m.insert(k, v)
}

/// `AHashMap::get`, copied out: the value under the key, if there is one.
#[verifier::external_body]
pub(crate) fn index_map_get(m: &AHashMap<u32, usize>, k: u32) -> (r: Option<usize>)
    ensures
        r == (if index_map(*m).contains_key(k) { Some(index_map(*m)[k]) } else { None }),
{
    m.get(&k).copied()
}

/// `AHashMap::keys` (through `Deref` to `HashMap`), collected: every key once,
/// in the map's own order, which this contract leaves open.
#[verifier::external_body]
pub(crate) fn index_map_keys(m: &AHashMap<u32, usize>) -> (r: Vec<u32>)
    ensures
        r@.no_duplicates(),
        r@.to_set() == index_map(*m).dom(),
{
    m.keys().copied().collect()
}

// ---------------------------------------------------------------------------
// Bound descriptors: raw handle to resource id.
// ---------------------------------------------------------------------------

/// What a map of bound descriptors holds.
pub uninterp spec fn slot_map(m: AHashMap<u32, u64>) -> Map<u32, u64>;

/// `AHashMap::default`: an empty map.
#[verifier::external_body]
pub(crate) fn slot_map_new() -> (r: AHashMap<u32, u64>)
    ensures
        slot_map(r).dom() == Set::<u32>::empty(),
{
    AHashMap::default()
}

/// `AHashMap::insert`: the key now maps to the value; the former value is returned.
#[verifier::external_body]
pub(crate) fn slot_map_insert(m: &mut AHashMap<u32, u64>, k: u32, v: u64) -> (r: Option<u64>)
    ensures
        slot_map(*final(m)) == slot_map(*old(m)).insert(k, v),
        r == (if slot_map(*old(m)).contains_key(k) { Some(slot_map(*old(m))[k]) } else { None }),
{
    m.insert(k, v)
}

/// `AHashMap::remove`: the key is gone; its value is returned.
#[verifier::external_body]
pub(crate) fn slot_map_remove(m: &mut AHashMap<u32, u64>, k: u32) -> (r: Option<u64>)
    ensures
        slot_map(*final(m)) == slot_map(*old(m)).remove(k),
        r == (if slot_map(*old(m)).contains_key(k) { Some(slot_map(*old(m))[k]) } else { None }),
{
    m.remove(&k)
}

/// `AHashMap::contains_key` (through `Deref` to `HashMap`).
#[verifier::external_body]
pub(crate) fn slot_map_contains(m: &AHashMap<u32, u64>, k: u32) -> (r: bool)
    ensures
        r == slot_map(*m).contains_key(k),
{
    m.contains_key(&k)
}

// ---------------------------------------------------------------------------
// Temporary resources: resource code to runtime info (fxhash).
// ---------------------------------------------------------------------------

/// What a map of temporary resources holds.
pub uninterp spec fn temp_map(m: FxHashMap<(u8, u64), RuntimeInfo>) -> Map<(u8, u64), RuntimeInfo>;

/// `FxHashMap::default` (`HashMap::default` with the `fxhash` hasher): an empty map.
#[verifier::external_body]
pub(crate) fn temp_map_new() -> (r: FxHashMap<(u8, u64), RuntimeInfo>)
    ensures
        temp_map(r).dom() == Set::<(u8, u64)>::empty(),
{
    FxHashMap::default()
}

/// `HashMap::insert` on an `FxHashMap`: the key now maps to the value; the former value is returned.
#[verifier::external_body]
pub(crate) fn temp_map_insert(
    m: &mut FxHashMap<(u8, u64), RuntimeInfo>,
    k: (u8, u64),
    v: RuntimeInfo,
) -> (r: Option<RuntimeInfo>)
    ensures
        temp_map(*final(m)) == temp_map(*old(m)).insert(k, v),
        r == (if temp_map(*old(m)).contains_key(k) { Some(temp_map(*old(m))[k]) } else { None }),
{
    m.insert(k, v)
}

/// `HashMap::remove` on an `FxHashMap`: the key is gone; its value is returned.
#[verifier::external_body]
pub(crate) fn temp_map_remove(m: &mut FxHashMap<(u8, u64), RuntimeInfo>, k: (u8, u64)) -> (r: Option<RuntimeInfo>)
    ensures
        temp_map(*final(m)) == temp_map(*old(m)).remove(k),
        r == (if temp_map(*old(m)).contains_key(k) { Some(temp_map(*old(m))[k]) } else { None }),
{
    m.remove(&k)
}

/// `HashMap::iter` on an `FxHashMap`, collected: every entry once, in the map's
/// own order, which this contract leaves open.
#[verifier::external_body]
pub(crate) fn temp_map_entries(m: &FxHashMap<(u8, u64), RuntimeInfo>) -> (r: Vec<((u8, u64), RuntimeInfo)>)
    ensures
        r@.len() == temp_map(*m).dom().len(),
        forall|i: int| 0 <= i < r@.len() ==> #[trigger] temp_map(*m).contains_key(r@[i].0)
            && temp_map(*m)[r@[i].0] == r@[i].1,
        forall|i: int, j: int| 0 <= i < j < r@.len() ==> #[trigger] r@[i].0 != #[trigger] r@[j].0,
        forall|k: (u8, u64)| #[trigger] temp_map(*m).contains_key(k)
            ==> exists|i: int| 0 <= i < r@.len() && #[trigger] r@[i].0 == k,
{
    m.iter().map(|(k, v)| (*k, *v)).collect()
}

// ---------------------------------------------------------------------------
// Requested images: image key to (stage mask, access mask, layout).
// ---------------------------------------------------------------------------

/// What a map of image requests holds.
pub uninterp spec fn image_req_map(m: AHashMap<u64, (u64, u64, i32)>) -> Map<u64, (u64, u64, i32)>;

/// `AHashMap::new`: an empty map.
#[verifier::external_body]
pub(crate) fn image_req_map_new() -> (r: AHashMap<u64, (u64, u64, i32)>)
    ensures
        image_req_map(r).dom() == Set::<u64>::empty(),
{
    AHashMap::new()
}

/// `AHashMap::insert`: the key now maps to the value; the former value is returned.
#[verifier::external_body]
pub(crate) fn image_req_map_insert(m: &mut AHashMap<u64, (u64, u64, i32)>, k: u64, v: (u64, u64, i32)) -> (r: Option<(u64, u64, i32)>)
    ensures
        image_req_map(*final(m)) == image_req_map(*old(m)).insert(k, v),
        r == (if image_req_map(*old(m)).contains_key(k) { Some(image_req_map(*old(m))[k]) } else { None }),
{
    m.insert(k, v)
}

/// `AHashMap::get`, copied out: the value under the key, if there is one.
#[verifier::external_body]
pub(crate) fn image_req_map_get(m: &AHashMap<u64, (u64, u64, i32)>, k: u64) -> (r: Option<(u64, u64, i32)>)
    ensures
        r == (if image_req_map(*m).contains_key(k) { Some(image_req_map(*m)[k]) } else { None }),
{
    m.get(&k).copied()
}

/// `AHashMap::keys` (through `Deref` to `HashMap`), collected: every key once,
/// in the map's own order, which this contract leaves open.
#[verifier::external_body]
pub(crate) fn image_req_map_keys(m: &AHashMap<u64, (u64, u64, i32)>) -> (r: Vec<u64>)
    ensures
        r@.no_duplicates(),
        r@.to_set() == image_req_map(*m).dom(),
{
    m.keys().copied().collect()
}

// ---------------------------------------------------------------------------
// Requested buffers: buffer key to (stage mask, access mask).
// ---------------------------------------------------------------------------

/// What a map of buffer requests holds.
pub uninterp spec fn buffer_req_map(m: AHashMap<u64, (u64, u64)>) -> Map<u64, (u64, u64)>;

/// `AHashMap::new`: an empty map.
#[verifier::external_body]
pub(crate) fn buffer_req_map_new() -> (r: AHashMap<u64, (u64, u64)>)
    ensures
        buffer_req_map(r).dom() == Set::<u64>::empty(),
{
    AHashMap::new()
}

/// `AHashMap::insert`: the key now maps to the value; the former value is returned.
#[verifier::external_body]
pub(crate) fn buffer_req_map_insert(m: &mut AHashMap<u64, (u64, u64)>, k: u64, v: (u64, u64)) -> (r: Option<(u64, u64)>)
    ensures
        buffer_req_map(*final(m)) == buffer_req_map(*old(m)).insert(k, v),
        r == (if buffer_req_map(*old(m)).contains_key(k) { Some(buffer_req_map(*old(m))[k]) } else { None }),
{
    m.insert(k, v)
}

/// `AHashMap::get`, copied out: the value under the key, if there is one.
#[verifier::external_body]
pub(crate) fn buffer_req_map_get(m: &AHashMap<u64, (u64, u64)>, k: u64) -> (r: Option<(u64, u64)>)
    ensures
        r == (if buffer_req_map(*m).contains_key(k) { Some(buffer_req_map(*m)[k]) } else { None }),
{
    m.get(&k).copied()
}

/// `AHashMap::keys` (through `Deref` to `HashMap`), collected: every key once,
/// in the map's own order, which this contract leaves open.
#[verifier::external_body]
pub(crate) fn buffer_req_map_keys(m: &AHashMap<u64, (u64, u64)>) -> (r: Vec<u64>)
    ensures
        r@.no_duplicates(),
        r@.to_set() == buffer_req_map(*m).dom(),
{
    m.keys().copied().collect()
}

// ---------------------------------------------------------------------------
// Requested samplers: a set of sampler keys.
// ---------------------------------------------------------------------------

/// What a set of sampler requests holds.
pub uninterp spec fn sampler_set(m: AHashSet<u64>) -> Set<u64>;

/// `AHashSet::new`: an empty set.
#[verifier::external_body]
pub(crate) fn sampler_set_new() -> (r: AHashSet<u64>)
    ensures
        sampler_set(r) == Set::<u64>::empty(),
{
    AHashSet::new()
}

/// `HashSet::insert` (through `DerefMut`): the key is in the set; true if it
/// was not in it before.
#[verifier::external_body]
pub(crate) fn sampler_set_insert(m: &mut AHashSet<u64>, k: u64) -> (r: bool)
    ensures
        sampler_set(*final(m)) == sampler_set(*old(m)).insert(k),
        r == !sampler_set(*old(m)).contains(k),
{
    m.insert(k)
}

/// `HashSet::contains` (through `Deref`): whether the key is in the set.
#[verifier::external_body]
pub(crate) fn sampler_set_contains(m: &AHashSet<u64>, k: u64) -> (r: bool)
    ensures
        r == sampler_set(*m).contains(k),
{
    m.contains(&k)
}

/// `HashSet::iter` (through `Deref`), collected: every key once, in the set's
/// own order, which this contract leaves open.
#[verifier::external_body]
pub(crate) fn sampler_set_keys(m: &AHashSet<u64>) -> (r: Vec<u64>)
    ensures
        r@.no_duplicates(),
        r@.to_set() == sampler_set(*m),
{
    m.iter().copied().collect()
}

// ---------------------------------------------------------------------------
// Slot maps of resource states. A key is kept as the `u64` that
// `KeyData::as_ffi` gives: the slot version in the upper half, the slot index
// in the lower half. The version of a slot in use is odd.
// ---------------------------------------------------------------------------

/// A slot map of the `slotmap` crate with its default key type. Verus cannot
/// take the map's key trait bound, so the map is held here, out of Verus's
/// sight; what it holds is named per value type below.
#[verifier::external_body]
#[verifier::reject_recursive_types(V)]
pub struct SlotStore<V> {
    store: SlotMap<DefaultKey, V>,
}

/// The key that `KeyData::from_ffi(k)` stands for: the version's lowest bit is set.
pub open spec fn slot_canon(k: u64) -> u64 {
    k | 0x1_0000_0000
}

/// What a slot map of image states holds, by key.
pub uninterp spec fn image_slots(m: SlotStore<ResImage>) -> Map<u64, ResImage>;

/// `SlotMap::remove` with the key from `KeyData::from_ffi`: takes the value
/// stored under the key out, if the key is in use.
#[verifier::external_body]
pub(crate) fn image_slots_remove(m: &mut SlotStore<ResImage>, k: u64) -> (r: Option<ResImage>)
    ensures
        r == (if image_slots(*old(m)).contains_key(slot_canon(k)) { Some(image_slots(*old(m))[slot_canon(k)]) } else { None }),
        image_slots(*final(m)) == image_slots(*old(m)).remove(slot_canon(k)),
{
    m.store.remove(KeyData::from_ffi(k).into())
}

/// `SlotMap::new`: an empty slot map.
#[verifier::external_body]
pub(crate) fn image_slots_new() -> (r: SlotStore<ResImage>)
    ensures
        image_slots(r).dom() == Set::<u64>::empty(),
{
    SlotStore { store: SlotMap::new() }
}

/// `SlotMap::insert`, with the key as `u64`: stores the value under a key
/// that was not in use, whose version is odd, and returns that key. The slot
/// map keeps an unused slot 0 and panics when it has no free slot left and
/// already `u32::MAX` slots, which cannot happen while it holds fewer than
/// `u32::MAX - 1` values.
#[verifier::external_body]
pub(crate) fn image_slots_insert(m: &mut SlotStore<ResImage>, v: ResImage) -> (r: u64)
    requires
        image_slots(*old(m)).dom().len() + 1 < u32::MAX,
    ensures
        !image_slots(*old(m)).contains_key(r),
        slot_canon(r) == r,
        image_slots(*final(m)) == image_slots(*old(m)).insert(r, v),
{
    m.store.insert(v).data().as_ffi()
}

/// `SlotMap::get` with the key from `KeyData::from_ffi`, copied out: the
/// value stored under the key, if any.
#[verifier::external_body]
pub(crate) fn image_slots_get(m: &SlotStore<ResImage>, k: u64) -> (r: Option<ResImage>)
    ensures
        r == (if image_slots(*m).contains_key(slot_canon(k)) { Some(image_slots(*m)[slot_canon(k)]) } else { None }),
{
    m.store.get(KeyData::from_ffi(k).into()).copied()
}

/// `SlotMap::get_mut` with the key from `KeyData::from_ffi`, written through:
/// the key now holds `v`. False, and nothing changes, if the key is not in use.
#[verifier::external_body]
pub(crate) fn image_slots_set(m: &mut SlotStore<ResImage>, k: u64, v: ResImage) -> (r: bool)
    ensures
        r == image_slots(*old(m)).contains_key(slot_canon(k)),
        r ==> image_slots(*final(m)) == image_slots(*old(m)).insert(slot_canon(k), v),
        !r ==> image_slots(*final(m)) == image_slots(*old(m)),
{
    match m.store.get_mut(KeyData::from_ffi(k).into()) {
        Some(slot) => {
            *slot = v;
            true
        },
        None => false,
    }
}

/// What a slot map of buffer states holds, by key.
pub uninterp spec fn buffer_slots(m: SlotStore<ResBuffer>) -> Map<u64, ResBuffer>;

/// `SlotMap::remove` with the key from `KeyData::from_ffi`: takes the value
/// stored under the key out, if the key is in use.
#[verifier::external_body]
pub(crate) fn buffer_slots_remove(m: &mut SlotStore<ResBuffer>, k: u64) -> (r: Option<ResBuffer>)
    ensures
        r == (if buffer_slots(*old(m)).contains_key(slot_canon(k)) { Some(buffer_slots(*old(m))[slot_canon(k)]) } else { None }),
        buffer_slots(*final(m)) == buffer_slots(*old(m)).remove(slot_canon(k)),
{
    m.store.remove(KeyData::from_ffi(k).into())
}

/// `SlotMap::new`: an empty slot map.
#[verifier::external_body]
pub(crate) fn buffer_slots_new() -> (r: SlotStore<ResBuffer>)
    ensures
        buffer_slots(r).dom() == Set::<u64>::empty(),
{
    SlotStore { store: SlotMap::new() }
}

/// `SlotMap::insert`, with the key as `u64`: stores the value under a key
/// that was not in use, whose version is odd, and returns that key. The slot
/// map keeps an unused slot 0 and panics when it has no free slot left and
/// already `u32::MAX` slots, which cannot happen while it holds fewer than
/// `u32::MAX - 1` values.
#[verifier::external_body]
pub(crate) fn buffer_slots_insert(m: &mut SlotStore<ResBuffer>, v: ResBuffer) -> (r: u64)
    requires
        buffer_slots(*old(m)).dom().len() + 1 < u32::MAX,
    ensures
        !buffer_slots(*old(m)).contains_key(r),
        slot_canon(r) == r,
        buffer_slots(*final(m)) == buffer_slots(*old(m)).insert(r, v),
{
    m.store.insert(v).data().as_ffi()
}

/// `SlotMap::get` with the key from `KeyData::from_ffi`, copied out: the
/// value stored under the key, if any.
#[verifier::external_body]
pub(crate) fn buffer_slots_get(m: &SlotStore<ResBuffer>, k: u64) -> (r: Option<ResBuffer>)
    ensures
        r == (if buffer_slots(*m).contains_key(slot_canon(k)) { Some(buffer_slots(*m)[slot_canon(k)]) } else { None }),
{
    m.store.get(KeyData::from_ffi(k).into()).copied()
}

/// `SlotMap::get_mut` with the key from `KeyData::from_ffi`, written through:
/// the key now holds `v`. False, and nothing changes, if the key is not in use.
#[verifier::external_body]
pub(crate) fn buffer_slots_set(m: &mut SlotStore<ResBuffer>, k: u64, v: ResBuffer) -> (r: bool)
    ensures
        r == buffer_slots(*old(m)).contains_key(slot_canon(k)),
        r ==> buffer_slots(*final(m)) == buffer_slots(*old(m)).insert(slot_canon(k), v),
        !r ==> buffer_slots(*final(m)) == buffer_slots(*old(m)),
{
    match m.store.get_mut(KeyData::from_ffi(k).into()) {
        Some(slot) => {
            *slot = v;
            true
        },
        None => false,
    }
}

/// What a slot map of sampler states holds, by key.
pub uninterp spec fn sampler_slots(m: SlotStore<ResSampler>) -> Map<u64, ResSampler>;

/// `SlotMap::remove` with the key from `KeyData::from_ffi`: takes the value
/// stored under the key out, if the key is in use.
#[verifier::external_body]
pub(crate) fn sampler_slots_remove(m: &mut SlotStore<ResSampler>, k: u64) -> (r: Option<ResSampler>)
    ensures
        r == (if sampler_slots(*old(m)).contains_key(slot_canon(k)) { Some(sampler_slots(*old(m))[slot_canon(k)]) } else { None }),
        sampler_slots(*final(m)) == sampler_slots(*old(m)).remove(slot_canon(k)),
{
    m.store.remove(KeyData::from_ffi(k).into())
}

/// `SlotMap::new`: an empty slot map.
#[verifier::external_body]
pub(crate) fn sampler_slots_new() -> (r: SlotStore<ResSampler>)
    ensures
        sampler_slots(r).dom() == Set::<u64>::empty(),
{
    SlotStore { store: SlotMap::new() }
}

/// `SlotMap::insert`, with the key as `u64`: stores the value under a key
/// that was not in use, whose version is odd, and returns that key. The slot
/// map keeps an unused slot 0 and panics when it has no free slot left and
/// already `u32::MAX` slots, which cannot happen while it holds fewer than
/// `u32::MAX - 1` values.
#[verifier::external_body]
pub(crate) fn sampler_slots_insert(m: &mut SlotStore<ResSampler>, v: ResSampler) -> (r: u64)
    requires
        sampler_slots(*old(m)).dom().len() + 1 < u32::MAX,
    ensures
        !sampler_slots(*old(m)).contains_key(r),
        slot_canon(r) == r,
        sampler_slots(*final(m)) == sampler_slots(*old(m)).insert(r, v),
{
    m.store.insert(v).data().as_ffi()
}

/// `SlotMap::get` with the key from `KeyData::from_ffi`, copied out: the
/// value stored under the key, if any.
#[verifier::external_body]
pub(crate) fn sampler_slots_get(m: &SlotStore<ResSampler>, k: u64) -> (r: Option<ResSampler>)
    ensures
        r == (if sampler_slots(*m).contains_key(slot_canon(k)) { Some(sampler_slots(*m)[slot_canon(k)]) } else { None }),
{
    m.store.get(KeyData::from_ffi(k).into()).copied()
}

/// `SlotMap::get_mut` with the key from `KeyData::from_ffi`, written through:
/// the key now holds `v`. False, and nothing changes, if the key is not in use.
#[verifier::external_body]
pub(crate) fn sampler_slots_set(m: &mut SlotStore<ResSampler>, k: u64, v: ResSampler) -> (r: bool)
    ensures
        r == sampler_slots(*old(m)).contains_key(slot_canon(k)),
        r ==> sampler_slots(*final(m)) == sampler_slots(*old(m)).insert(slot_canon(k), v),
        !r ==> sampler_slots(*final(m)) == sampler_slots(*old(m)),
{
    match m.store.get_mut(KeyData::from_ffi(k).into()) {
        Some(slot) => {
            *slot = v;
            true
        },
        None => false,
    }
}

// ---------------------------------------------------------------------------
// Largest wait value by track id.
// ---------------------------------------------------------------------------

/// What a map of wait values holds.
pub uninterp spec fn wait_map(m: AHashMap<u32, u64>) -> Map<u32, u64>;

/// `AHashMap::default`: an empty map.
#[verifier::external_body]
pub(crate) fn wait_map_new() -> (r: AHashMap<u32, u64>)
    ensures
        wait_map(r).dom() == Set::<u32>::empty(),
{
    AHashMap::default()
}

/// `AHashMap::get`, copied out: the value under the key, if there is one.
#[verifier::external_body]
pub(crate) fn wait_map_get(m: &AHashMap<u32, u64>, k: u32) -> (r: Option<u64>)
    ensures
        r == (if wait_map(*m).contains_key(k) { Some(wait_map(*m)[k]) } else { None }),
{
    m.get(&k).copied()
}

/// `AHashMap::insert`: the key now maps to the value; the former value is returned.
#[verifier::external_body]
pub(crate) fn wait_map_insert(m: &mut AHashMap<u32, u64>, k: u32, v: u64) -> (r: Option<u64>)
    ensures
        wait_map(*final(m)) == wait_map(*old(m)).insert(k, v),
        r == (if wait_map(*old(m)).contains_key(k) { Some(wait_map(*old(m))[k]) } else { None }),
{
    m.insert(k, v)
}

/// `AHashMap::iter` (through `Deref` to `HashMap`), collected: every entry
/// once, in the map's own order, which this contract leaves open.
#[verifier::external_body]
pub(crate) fn wait_map_entries(m: &AHashMap<u32, u64>) -> (r: Vec<(u32, u64)>)
    ensures
        forall|i: int| 0 <= i < r@.len() ==> #[trigger] wait_map(*m).contains_key(r@[i].0)
            && wait_map(*m)[r@[i].0] == r@[i].1,
        forall|i: int, j: int| 0 <= i < j < r@.len() ==> #[trigger] r@[i].0 != #[trigger] r@[j].0,
        forall|k: u32| #[trigger] wait_map(*m).contains_key(k)
            ==> exists|i: int| 0 <= i < r@.len() && #[trigger] r@[i].0 == k,
{
    m.iter().map(|(k, v)| (*k, *v)).collect()
}

} // verus!
