//! Queue ownership transfers of resources: before a frame runs on a track,
//! the resources it takes over from other tracks (or uses for the first time)
//! are acquired for the track's queue family; resources imported from another
//! queue family are released by their owner first.
use vstd::prelude::*;
use crate::error::RecordError;
use crate::maps::slot_canon;
use crate::resources::Resources;
use crate::res_states::{AnyHandle, AnyResKey, QueueOwnership, ResBuffer, ResImage};
use crate::track::{Guard, Track, TrackId, Tracks};
use crate::executor::ReleaseOp;
use crate::maps::track_map;
use crate::maps::{image_slots_get, image_slots_set, buffer_slots_get, buffer_slots_set};

verus! {

/// A queue family ownership transfer of one resource, as a barrier records it.
#[derive(Clone, Copy, Debug, PartialEq, Eq, Structural)]
pub struct QueueTransfer {
    pub res: AnyResKey,
    pub src_family: u32,
    pub dst_family: u32,
}

/// The one-element sequence of `o`'s value, or the empty one.
pub open spec fn opt_seq<A>(o: Option<A>) -> Seq<A> {
    match o {
        Some(a) => seq![a],
        None => Seq::empty(),
    }
}

/// The image and buffer states the transfers work on.
pub struct OwnedStates {
    pub images: Map<u64, ResImage>,
    pub buffers: Map<u64, ResBuffer>,
}

/// Acquiring `key` for queue family `family` can be done on `s` without a
/// fault: an image or buffer is in the store and, if it was released, it was
/// released to `family`.
pub open spec fn acquire_ready(s: OwnedStates, key: AnyResKey, family: u32) -> bool {
    match key {
        AnyResKey::Image(k) => s.images.contains_key(slot_canon(k.0)) && match s.images[slot_canon(k.0)].ownership {
            QueueOwnership::Released { src_family, dst_family } => dst_family == family,
            _ => true,
        },
        AnyResKey::Buffer(k) => s.buffers.contains_key(slot_canon(k.0)) && match s.buffers[slot_canon(k.0)].ownership {
            QueueOwnership::Released { src_family, dst_family } => dst_family == family,
            _ => true,
        },
        AnyResKey::Sampler(_) => true,
    }
}

/// Acquiring `key` for queue family `family` under guard `g`: a released
/// resource becomes owned by `family` through a transfer; an uninitialised
/// one is initialised to `family`; one that is still owned cannot be acquired.
/// The guard the resource had is handed back and `g` guards it from now on.
/// Samplers have no ownership. On failure, the states it failed on.
pub open spec fn acquire_step(s: OwnedStates, key: AnyResKey, family: u32, g: Guard)
    -> Result<(OwnedStates, Option<QueueTransfer>, Option<Guard>), (RecordError, OwnedStates)>
{
    match key {
        AnyResKey::Image(k) => {
            let c = slot_canon(k.0);
            let st = s.images[c];
            let ns = OwnedStates {
                images: s.images.insert(c, ResImage { ownership: QueueOwnership::Owned(family), guard: Some(g), ..st }),
                buffers: s.buffers,
            };
            match st.ownership {
                QueueOwnership::Released { src_family, dst_family } => Ok((ns, Some(QueueTransfer { res: key, src_family, dst_family }), st.guard)),
                QueueOwnership::Uninitialized => Ok((ns, None, st.guard)),
                QueueOwnership::Owned(_) => Err((RecordError::AcquireRecord(AnyHandle { atomic_ref: None, key }, family), s)),
            }
        },
        AnyResKey::Buffer(k) => {
            let c = slot_canon(k.0);
            let st = s.buffers[c];
            let ns = OwnedStates {
                images: s.images,
                buffers: s.buffers.insert(c, ResBuffer { ownership: QueueOwnership::Owned(family), guard: Some(g), ..st }),
            };
            match st.ownership {
                QueueOwnership::Released { src_family, dst_family } => Ok((ns, Some(QueueTransfer { res: key, src_family, dst_family }), st.guard)),
                QueueOwnership::Uninitialized => Ok((ns, None, st.guard)),
                QueueOwnership::Owned(_) => Err((RecordError::AcquireRecord(AnyHandle { atomic_ref: None, key }, family), s)),
            }
        },
        AnyResKey::Sampler(_) => Ok((s, None, None)),
    }
}

/// Acquiring `keys` one after the other: the final states, the transfers and
/// the guards handed back, in order; or the first failure with the states it
/// failed on.
pub open spec fn acquire_all(s: OwnedStates, keys: Seq<AnyResKey>, family: u32, g: Guard)
    -> Result<(OwnedStates, Seq<QueueTransfer>, Seq<Guard>), (RecordError, OwnedStates)>
    decreases keys.len(),
{
    if keys.len() == 0 {
        Ok((s, Seq::empty(), Seq::empty()))
    } else {
        match acquire_all(s, keys.drop_last(), family, g) {
            Err(e) => Err(e),
            Ok((s2, ts, gs)) => match acquire_step(s2, keys.last(), family, g) {
                Err(e) => Err(e),
                Ok((s3, t, og)) => Ok((s3, ts + opt_seq(t), gs + opt_seq(og))),
            },
        }
    }
}

/// Each step of acquiring `keys` one after the other starts from states it
/// can work on without a fault, up to the first failure.
pub open spec fn acquire_all_ready(s: OwnedStates, keys: Seq<AnyResKey>, family: u32, g: Guard) -> bool
    decreases keys.len(),
{
    keys.len() == 0 || {
        &&& acquire_all_ready(s, keys.drop_last(), family, g)
        &&& match acquire_all(s, keys.drop_last(), family, g) {
            Err(_) => true,
            Ok((s2, _, _)) => acquire_ready(s2, keys.last(), family),
        }
    }
}

/// Releasing the resource of `op` from queue family `src` to `dst`: an image
/// or buffer becomes released and hands back the guard it had; the guard is
/// taken off. A resource that is not in the store fails. Samplers have no
/// ownership.
pub open spec fn release_step(s: OwnedStates, op: ReleaseOp, src: u32, dst: u32)
    -> Result<(OwnedStates, Option<Guard>), (RecordError, OwnedStates)>
{
    match op.res {
        AnyResKey::Image(k) => {
            let c = slot_canon(k.0);
            if s.images.contains_key(c) {
                let st = s.images[c];
                Ok((OwnedStates {
                    images: s.images.insert(c, ResImage {
                        ownership: QueueOwnership::Released { src_family: src, dst_family: dst },
                        guard: None,
                        ..st
                    }),
                    buffers: s.buffers,
                }, st.guard))
            } else {
                Err((RecordError::NoSuchResource(AnyHandle { atomic_ref: None, key: op.res }), s))
            }
        },
        AnyResKey::Buffer(k) => {
            let c = slot_canon(k.0);
            if s.buffers.contains_key(c) {
                let st = s.buffers[c];
                Ok((OwnedStates {
                    images: s.images,
                    buffers: s.buffers.insert(c, ResBuffer {
                        ownership: QueueOwnership::Released { src_family: src, dst_family: dst },
                        guard: None,
                        ..st
                    }),
                }, st.guard))
            } else {
                Err((RecordError::NoSuchResource(AnyHandle { atomic_ref: None, key: op.res }), s))
            }
        },
        AnyResKey::Sampler(_) => Ok((s, None)),
    }
}

/// Releasing the resources of `ops` one after the other, each from the queue
/// family of its owning track to that of its destination track (as `tm`
/// gives them): the final states and the guards handed back, in order; or the
/// first failure with the states it failed on.
pub open spec fn release_all(s: OwnedStates, ops: Seq<ReleaseOp>, tm: Map<u32, Track>)
    -> Result<(OwnedStates, Seq<Guard>), (RecordError, OwnedStates)>
    decreases ops.len(),
{
    if ops.len() == 0 {
        Ok((s, Seq::empty()))
    } else {
        match release_all(s, ops.drop_last(), tm) {
            Err(e) => Err(e),
            Ok((s2, gs)) => {
                let op = ops.last();
                match release_step(s2, op, tm[op.current_owner.0].queue_idx, tm[op.destination_owner.0].queue_idx) {
                    Err(e) => Err(e),
                    Ok((s3, og)) => Ok((s3, gs + opt_seq(og))),
                }
            },
        }
    }
}

/// Once releasing a prefix fails, releasing all of `ops` fails the same way.
proof fn lemma_release_all_err_extends(s: OwnedStates, ops: Seq<ReleaseOp>, n: int, tm: Map<u32, Track>)
    requires
        0 <= n <= ops.len(),
        release_all(s, ops.take(n), tm) is Err,
    ensures
        release_all(s, ops, tm) == release_all(s, ops.take(n), tm),
    decreases ops.len(),
{
    if n < ops.len() {
        assert(ops.drop_last().take(n) =~= ops.take(n));
        lemma_release_all_err_extends(s, ops.drop_last(), n, tm);
    } else {
        assert(ops.take(n) =~= ops);
    }
}

/// The store slot of a resource: its kind and its key as the slot map reads it.
pub open spec fn res_slot(key: AnyResKey) -> (u8, u64) {
    match key {
        AnyResKey::Image(k) => (0u8, slot_canon(k.0)),
        AnyResKey::Buffer(k) => (1u8, slot_canon(k.0)),
        AnyResKey::Sampler(k) => (2u8, k.0),
    }
}

/// `key` is the key the store hands out for its slot.
pub open spec fn canonical_key(key: AnyResKey) -> bool {
    match key {
        AnyResKey::Image(k) => slot_canon(k.0) == k.0,
        AnyResKey::Buffer(k) => slot_canon(k.0) == k.0,
        AnyResKey::Sampler(_) => true,
    }
}

/// `rg` lists a guard for track `t`.
pub open spec fn lists_track(rg: Seq<(TrackId, Guard)>, t: TrackId) -> bool {
    exists|j: int| 0 <= j < rg.len() && rg[j].0 == t
}

/// Image or buffer `key` is in the states (samplers always are).
pub open spec fn in_states(s: OwnedStates, key: AnyResKey) -> bool {
    match key {
        AnyResKey::Image(k) => s.images.contains_key(slot_canon(k.0)),
        AnyResKey::Buffer(k) => s.buffers.contains_key(slot_canon(k.0)),
        AnyResKey::Sampler(_) => true,
    }
}

/// Image or buffer `key` is in the states and has no guard (samplers have none).
pub open spec fn unguarded(s: OwnedStates, key: AnyResKey) -> bool {
    match key {
        AnyResKey::Image(k) => s.images.contains_key(slot_canon(k.0)) && s.images[slot_canon(k.0)].guard is None,
        AnyResKey::Buffer(k) => s.buffers.contains_key(slot_canon(k.0)) && s.buffers[slot_canon(k.0)].guard is None,
        AnyResKey::Sampler(_) => true,
    }
}

/// Releasing resources that are all in the store never fails; afterwards
/// they are all without guard, and the store holds the same keys.
pub proof fn lemma_release_all_ok(s: OwnedStates, ops: Seq<ReleaseOp>, tm: Map<u32, Track>)
    requires
        forall|p: int| 0 <= p < ops.len() ==> in_states(s, #[trigger] ops[p].res),
    ensures
        release_all(s, ops, tm) is Ok,
        release_all(s, ops, tm) matches Ok((s2, _)) && s2.images.dom() == s.images.dom() && s2.buffers.dom() == s.buffers.dom()
            && forall|p: int| 0 <= p < ops.len() ==> unguarded(s2, #[trigger] ops[p].res),
    decreases ops.len(),
{
    if ops.len() > 0 {
        let init = ops.drop_last();
        assert forall|p: int| 0 <= p < init.len() implies in_states(s, #[trigger] init[p].res) by {
            assert(init[p] == ops[p]);
        }
        lemma_release_all_ok(s, init, tm);
        let s2 = release_all(s, init, tm)->Ok_0.0;
        let op = ops.last();
        assert(in_states(s, ops[ops.len() - 1].res));
        let s3 = release_step(s2, op, tm[op.current_owner.0].queue_idx, tm[op.destination_owner.0].queue_idx)->Ok_0.0;
        assert(s3.images.dom() =~= s.images.dom());
        assert(s3.buffers.dom() =~= s.buffers.dom());
        assert forall|p: int| 0 <= p < ops.len() implies unguarded(s3, #[trigger] ops[p].res) by {
            if p < init.len() {
                assert(init[p] == ops[p]);
                assert(unguarded(s2, init[p].res));
            }
        }
    }
}

/// Guard `g` now guards image or buffer `key`.
pub open spec fn guard_step(s: OwnedStates, key: AnyResKey, g: Guard) -> OwnedStates {
    match key {
        AnyResKey::Image(k) => OwnedStates {
            images: s.images.insert(slot_canon(k.0), ResImage { guard: Some(g), ..s.images[slot_canon(k.0)] }),
            buffers: s.buffers,
        },
        AnyResKey::Buffer(k) => OwnedStates {
            images: s.images,
            buffers: s.buffers.insert(slot_canon(k.0), ResBuffer { guard: Some(g), ..s.buffers[slot_canon(k.0)] }),
        },
        AnyResKey::Sampler(_) => s,
    }
}

/// The guard listed last for track `t` in `rg`.
pub open spec fn guard_of(rg: Seq<(TrackId, Guard)>, t: u32) -> Guard
    decreases rg.len(),
{
    if rg.len() == 0 {
        Guard { track: TrackId(t), target_value: 0 }
    } else if rg.last().0.0 == t {
        rg.last().1
    } else {
        guard_of(rg.drop_last(), t)
    }
}

/// Each release of `ops` in turn puts its resource under the guard of its
/// releasing track.
pub open spec fn guards_for(s: OwnedStates, ops: Seq<ReleaseOp>, rg: Seq<(TrackId, Guard)>) -> OwnedStates
    decreases ops.len(),
{
    if ops.len() == 0 {
        s
    } else {
        guard_step(guards_for(s, ops.drop_last(), rg), ops.last().res, guard_of(rg, ops.last().current_owner.0))
    }
}

/// The states `s` where `acquire_all` stops on `keys`, whether it fails or not.
pub open spec fn acquired_states(s: OwnedStates, keys: Seq<AnyResKey>, family: u32, g: Guard) -> OwnedStates {
    match acquire_all(s, keys, family, g) {
        Ok((s2, _, _)) => s2,
        Err((_, s2)) => s2,
    }
}

/// `s` is `s0` with the slots in `seen` (tag 0 for images, 1 for buffers)
/// owned by `family` and all others unchanged.
pub open spec fn owned_where_seen(s0: OwnedStates, s: OwnedStates, seen: Seq<(u8, u64)>, family: u32) -> bool {
    &&& s.images.dom() == s0.images.dom()
    &&& s.buffers.dom() == s0.buffers.dom()
    &&& forall|c: u64| #[trigger] seen.contains((0u8, c)) ==> s.images.contains_key(c)
    &&& forall|c: u64| #[trigger] seen.contains((1u8, c)) ==> s.buffers.contains_key(c)
    &&& forall|c: u64| #[trigger] s.images.contains_key(c) ==> if seen.contains((0u8, c)) {
        s.images[c].ownership == QueueOwnership::Owned(family)
    } else {
        s.images[c] == s0.images[c]
    }
    &&& forall|c: u64| #[trigger] s.buffers.contains_key(c) ==> if seen.contains((1u8, c)) {
        s.buffers[c].ownership == QueueOwnership::Owned(family)
    } else {
        s.buffers[c] == s0.buffers[c]
    }
}

/// Once acquiring a prefix of `keys` fails, and up to there everything was
/// ready, acquiring all of them is ready.
proof fn lemma_ready_after_err(s: OwnedStates, keys: Seq<AnyResKey>, n: int, family: u32, g: Guard)
    requires
        0 <= n <= keys.len(),
        acquire_all(s, keys.take(n), family, g) is Err,
        acquire_all_ready(s, keys.take(n), family, g),
    ensures
        acquire_all_ready(s, keys, family, g),
    decreases keys.len(),
{
    if n < keys.len() {
        assert(keys.drop_last().take(n) =~= keys.take(n));
        lemma_ready_after_err(s, keys.drop_last(), n, family, g);
        lemma_acquire_all_err_extends(s, keys.drop_last(), n, family, g);
    } else {
        assert(keys.take(n) =~= keys);
    }
}

/// What `seen` holds after pushing `e`.
proof fn lemma_push_contains(seen: Seq<(u8, u64)>, e: (u8, u64), y: (u8, u64))
    ensures
        seen.push(e).contains(y) <==> seen.contains(y) || y == e,
{
    if seen.push(e).contains(y) && y != e {
        let j = choose|j: int| 0 <= j < seen.push(e).len() && seen.push(e)[j] == y;
        assert(j < seen.len());
        assert(seen[j] == y);
    }
    if seen.contains(y) {
        let j = choose|j: int| 0 <= j < seen.len() && seen[j] == y;
        assert(seen.push(e)[j] == y);
    }
    if y == e {
        assert(seen.push(e)[seen.len() as int] == y);
    }
}

/// Whether `seen` holds `c`.
fn slot_seen(seen: &Vec<(u8, u64)>, c: (u8, u64)) -> (r: bool)
    ensures
        r == seen@.contains(c),
{
    let mut i: usize = 0;
    while i < seen.len()
        invariant
            i <= seen@.len(),
            forall|j: int| 0 <= j < i ==> seen@[j] != c,
        decreases seen@.len() - i,
    {
        if seen[i].0 == c.0 && seen[i].1 == c.1 {
            return true;
        }
        i = i + 1;
    }
    false
}

impl Resources {
    /// The image and buffer states of the store.
    pub open spec fn owned_states(&self) -> OwnedStates {
        OwnedStates { images: self.image_states(), buffers: self.buffer_states() }
    }

    /// Whether acquiring `keys` one after the other for queue family `family`
    /// under guard `g` can be done without a fault (`acquire_all_ready`):
    /// every image and buffer up to the first failure is in the store, and
    /// each released one was released to `family`.
    pub fn acquire_all_is_ready(&self, keys: &Vec<AnyResKey>, family: u32, g: Guard) -> (r: bool)
        ensures
            r == acquire_all_ready(self.owned_states(), keys@, family, g),
    {
        let ghost s0 = self.owned_states();
        let mut seen: Vec<(u8, u64)> = Vec::new();
        let mut i: usize = 0;
        proof {
            assert(keys@.take(0) =~= Seq::<AnyResKey>::empty());
        }
        while i < keys.len()
            invariant
                s0 == self.owned_states(),
                i <= keys@.len(),
                acquire_all_ready(s0, keys@.take(i as int), family, g),
                acquire_all(s0, keys@.take(i as int), family, g) is Ok,
                owned_where_seen(s0, acquired_states(s0, keys@.take(i as int), family, g), seen@, family),
            decreases keys@.len() - i,
        {
            let key = keys[i];
            let ghost si = acquired_states(s0, keys@.take(i as int), family, g);
            proof {
                assert(keys@.take(i + 1).drop_last() =~= keys@.take(i as int));
                assert(keys@.take(i + 1).last() == key);
            }
            match key {
                AnyResKey::Sampler(_) => {
                    assert(acquired_states(s0, keys@.take(i + 1), family, g) == si);
                },
                AnyResKey::Image(k) => {
                    let c: u64 = k.0 | 0x1_0000_0000;
                    assert(c == slot_canon(k.0));
                    if slot_seen(&seen, (0u8, c)) {
                        proof {
                            lemma_ready_after_err(s0, keys@, i + 1, family, g);
                        }
                        return true;
                    }
                    match image_slots_get(&self.images, k.0) {
                        None => {
                            proof {
                                if acquire_all_ready(s0, keys@, family, g) {
                                    lemma_acquire_ready_prefix(s0, keys@, i + 1, family, g);
                                }
                            }
                            return false;
                        },
                        Some(st) => {
                            assert(si.images[c] == st);
                            match st.ownership {
                                QueueOwnership::Released { src_family, dst_family } => {
                                    if dst_family != family {
                                        proof {
                                            if acquire_all_ready(s0, keys@, family, g) {
                                                lemma_acquire_ready_prefix(s0, keys@, i + 1, family, g);
                                            }
                                        }
                                        return false;
                                    }
                                },
                                QueueOwnership::Uninitialized => {},
                                QueueOwnership::Owned(_) => {
                                    proof {
                                        lemma_ready_after_err(s0, keys@, i + 1, family, g);
                                    }
                                    return true;
                                },
                            }
                            let ghost before = seen@;
                            seen.push((0u8, c));
                            proof {
                                let sn = acquired_states(s0, keys@.take(i + 1), family, g);
                                assert(sn.images.dom() =~= s0.images.dom());
                                assert(sn.buffers.dom() =~= s0.buffers.dom());
                                assert forall|x: u64| #[trigger] sn.images.contains_key(x) implies if seen@.contains((0u8, x)) {
                                    sn.images[x].ownership == QueueOwnership::Owned(family)
                                } else {
                                    sn.images[x] == s0.images[x]
                                } by {
                                    lemma_push_contains(before, (0u8, c), (0u8, x));
                                }
                                assert forall|x: u64| #[trigger] sn.buffers.contains_key(x) implies if seen@.contains((1u8, x)) {
                                    sn.buffers[x].ownership == QueueOwnership::Owned(family)
                                } else {
                                    sn.buffers[x] == s0.buffers[x]
                                } by {
                                    lemma_push_contains(before, (0u8, c), (1u8, x));
                                }
                                assert forall|x: u64| #[trigger] seen@.contains((0u8, x)) implies sn.images.contains_key(x) by {
                                    lemma_push_contains(before, (0u8, c), (0u8, x));
                                }
                                assert forall|x: u64| #[trigger] seen@.contains((1u8, x)) implies sn.buffers.contains_key(x) by {
                                    lemma_push_contains(before, (0u8, c), (1u8, x));
                                }
                            }
                        },
                    }
                },
                AnyResKey::Buffer(k) => {
                    let c: u64 = k.0 | 0x1_0000_0000;
                    assert(c == slot_canon(k.0));
                    if slot_seen(&seen, (1u8, c)) {
                        proof {
                            lemma_ready_after_err(s0, keys@, i + 1, family, g);
                        }
                        return true;
                    }
                    match buffer_slots_get(&self.buffer, k.0) {
                        None => {
                            proof {
                                if acquire_all_ready(s0, keys@, family, g) {
                                    lemma_acquire_ready_prefix(s0, keys@, i + 1, family, g);
                                }
                            }
                            return false;
                        },
                        Some(st) => {
                            assert(si.buffers[c] == st);
                            match st.ownership {
                                QueueOwnership::Released { src_family, dst_family } => {
                                    if dst_family != family {
                                        proof {
                                            if acquire_all_ready(s0, keys@, family, g) {
                                                lemma_acquire_ready_prefix(s0, keys@, i + 1, family, g);
                                            }
                                        }
                                        return false;
                                    }
                                },
                                QueueOwnership::Uninitialized => {},
                                QueueOwnership::Owned(_) => {
                                    proof {
                                        lemma_ready_after_err(s0, keys@, i + 1, family, g);
                                    }
                                    return true;
                                },
                            }
                            let ghost before = seen@;
                            seen.push((1u8, c));
                            proof {
                                let sn = acquired_states(s0, keys@.take(i + 1), family, g);
                                assert(sn.images.dom() =~= s0.images.dom());
                                assert(sn.buffers.dom() =~= s0.buffers.dom());
                                assert forall|x: u64| #[trigger] sn.buffers.contains_key(x) implies if seen@.contains((1u8, x)) {
                                    sn.buffers[x].ownership == QueueOwnership::Owned(family)
                                } else {
                                    sn.buffers[x] == s0.buffers[x]
                                } by {
                                    lemma_push_contains(before, (1u8, c), (1u8, x));
                                }
                                assert forall|x: u64| #[trigger] sn.images.contains_key(x) implies if seen@.contains((0u8, x)) {
                                    sn.images[x].ownership == QueueOwnership::Owned(family)
                                } else {
                                    sn.images[x] == s0.images[x]
                                } by {
                                    lemma_push_contains(before, (1u8, c), (0u8, x));
                                }
                                assert forall|x: u64| #[trigger] seen@.contains((1u8, x)) implies sn.buffers.contains_key(x) by {
                                    lemma_push_contains(before, (1u8, c), (1u8, x));
                                }
                                assert forall|x: u64| #[trigger] seen@.contains((0u8, x)) implies sn.images.contains_key(x) by {
                                    lemma_push_contains(before, (1u8, c), (0u8, x));
                                }
                            }
                        },
                    }
                },
            }
            i = i + 1;
        }
        proof {
            assert(keys@.take(i as int) =~= keys@);
        }
        true
    }

    /// Acquires `key` for queue family `family` under guard `exec_guard`, as
    /// `acquire_step` says: returns the transfer barrier it needs, if any, and
    /// the guard it had.
    pub fn acquire(&mut self, key: AnyResKey, family: u32, exec_guard: Guard)
        -> (r: Result<(Option<QueueTransfer>, Option<Guard>), RecordError>)
        requires
            old(self).wf(),
            acquire_ready(old(self).owned_states(), key, family),
        ensures
            final(self).wf(),
            final(self).bindless == old(self).bindless,
            final(self).sampler_states() == old(self).sampler_states(),
            match acquire_step(old(self).owned_states(), key, family, exec_guard) {
                Ok((s, t, og)) => r == Ok::<(Option<QueueTransfer>, Option<Guard>), RecordError>((t, og))
                    && final(self).owned_states() == s,
                Err((e, s)) => r == Err::<(Option<QueueTransfer>, Option<Guard>), RecordError>(e)
                    && final(self).owned_states() == s,
            },
    {
        match key {
            AnyResKey::Buffer(buf) => {
                let mut state = buffer_slots_get(&self.buffer, buf.0).unwrap();
                let transfer = match state.ownership {
                    QueueOwnership::Released { src_family, dst_family } => {
                        assert(dst_family == family);
                        Some(QueueTransfer { res: key, src_family, dst_family })
                    },
                    QueueOwnership::Uninitialized => None,
                    QueueOwnership::Owned(_) => {
                        return Err(RecordError::AcquireRecord(AnyHandle::from(key), family));
                    },
                };
                let old_guard = state.guard;
                state.ownership = QueueOwnership::Owned(family);
                state.guard = Some(exec_guard);
                buffer_slots_set(&mut self.buffer, buf.0, state);
                Ok((transfer, old_guard))
            },
            AnyResKey::Image(img) => {
                let mut state = image_slots_get(&self.images, img.0).unwrap();
                let transfer = match state.ownership {
                    QueueOwnership::Released { src_family, dst_family } => {
                        assert(dst_family == family);
                        Some(QueueTransfer { res: key, src_family, dst_family })
                    },
                    QueueOwnership::Uninitialized => None,
                    QueueOwnership::Owned(_) => {
                        return Err(RecordError::AcquireRecord(AnyHandle::from(key), family));
                    },
                };
                let old_guard = state.guard;
                state.ownership = QueueOwnership::Owned(family);
                state.guard = Some(exec_guard);
                image_slots_set(&mut self.images, img.0, state);
                Ok((transfer, old_guard))
            },
            AnyResKey::Sampler(_) => Ok((None, None)),
        }
    }

    /// Acquires `keys` one after the other for queue family `family` under
    /// guard `exec_guard`, as `acquire_all` says: returns the transfer barriers
    /// and the guards the resources had, or the first failure.
    pub fn acquire_all(&mut self, keys: &Vec<AnyResKey>, family: u32, exec_guard: Guard)
        -> (r: Result<(Vec<QueueTransfer>, Vec<Guard>), RecordError>)
        requires
            old(self).wf(),
            acquire_all_ready(old(self).owned_states(), keys@, family, exec_guard),
        ensures
            final(self).wf(),
            final(self).bindless == old(self).bindless,
            final(self).sampler_states() == old(self).sampler_states(),
            match acquire_all(old(self).owned_states(), keys@, family, exec_guard) {
                Ok((s, ts, gs)) => r matches Ok((rt, rg)) && rt@ == ts && rg@ == gs && final(self).owned_states() == s,
                Err((e, s)) => r == Err::<(Vec<QueueTransfer>, Vec<Guard>), RecordError>(e) && final(self).owned_states() == s,
            },
    {
        let ghost s0 = self.owned_states();
        let mut transfers: Vec<QueueTransfer> = Vec::new();
        let mut guards: Vec<Guard> = Vec::new();
        let mut i: usize = 0;
        while i < keys.len()
            invariant
                self.wf(),
                self.bindless == old(self).bindless,
                self.sampler_states() == old(self).sampler_states(),
                s0 == old(self).owned_states(),
                i <= keys@.len(),
                acquire_all_ready(s0, keys@, family, exec_guard),
                acquire_all(s0, keys@.take(i as int), family, exec_guard) == Ok::<(OwnedStates, Seq<QueueTransfer>, Seq<Guard>), (RecordError, OwnedStates)>(
                    (self.owned_states(), transfers@, guards@)),
            decreases keys@.len() - i,
        {
            proof {
                lemma_acquire_ready_prefix(s0, keys@, i as int + 1, family, exec_guard);
                assert(keys@.take(i as int + 1).drop_last() =~= keys@.take(i as int));
                assert(keys@.take(i as int + 1).last() == keys@[i as int]);
            }
            match self.acquire(keys[i], family, exec_guard) {
                Ok((t, og)) => {
                    let ghost ot = transfers@;
                    let ghost og_seq = guards@;
                    match t {
                        Some(x) => transfers.push(x),
                        None => {},
                    }
                    match og {
                        Some(x) => guards.push(x),
                        None => {},
                    }
                    proof {
                        assert(transfers@ =~= ot + opt_seq(t));
                        assert(guards@ =~= og_seq + opt_seq(og));
                    }
                },
                Err(e) => {
                    proof {
                        lemma_acquire_all_err_extends(s0, keys@, i as int + 1, family, exec_guard);
                    }
                    return Err(e);
                },
            }
            i = i + 1;
        }
        proof {
            assert(keys@.take(i as int) =~= keys@);
        }
        Ok((transfers, guards))
    }

    /// Releases the resources of `ops` one after the other, as `release_all`
    /// says. Returns the guards the resources had, which the releases wait
    /// for; or the first failure.
    pub fn release_all(&mut self, ops: &Vec<ReleaseOp>, tracks: &Tracks) -> (r: Result<Vec<Guard>, RecordError>)
        requires
            old(self).wf(),
            forall|p: int| 0 <= p < ops@.len() ==> track_map(tracks.0).contains_key((#[trigger] ops@[p]).current_owner.0)
                && track_map(tracks.0).contains_key(ops@[p].destination_owner.0),
        ensures
            final(self).wf(),
            final(self).bindless == old(self).bindless,
            final(self).sampler_states() == old(self).sampler_states(),
            match release_all(old(self).owned_states(), ops@, track_map(tracks.0)) {
                Ok((s, gs)) => r matches Ok(rg) && rg@ == gs && final(self).owned_states() == s,
                Err((e, s)) => r == Err::<Vec<Guard>, RecordError>(e) && final(self).owned_states() == s,
            },
    {
        let ghost s0 = self.owned_states();
        let ghost tm = track_map(tracks.0);
        let mut guards: Vec<Guard> = Vec::new();
        let mut i: usize = 0;
        while i < ops.len()
            invariant
                self.wf(),
                self.bindless == old(self).bindless,
                self.sampler_states() == old(self).sampler_states(),
                s0 == old(self).owned_states(),
                tm == track_map(tracks.0),
                i <= ops@.len(),
                forall|p: int| 0 <= p < ops@.len() ==> tm.contains_key((#[trigger] ops@[p]).current_owner.0)
                    && tm.contains_key(ops@[p].destination_owner.0),
                release_all(s0, ops@.take(i as int), tm) == Ok::<(OwnedStates, Seq<Guard>), (RecordError, OwnedStates)>(
                    (self.owned_states(), guards@)),
            decreases ops@.len() - i,
        {
            let op = ops[i];
            proof {
                assert(ops@.take(i as int + 1).drop_last() =~= ops@.take(i as int));
                assert(ops@.take(i as int + 1).last() == op);
            }
            let src_family = tracks.trackid_to_queue_idx(op.current_owner);
            let dst_family = tracks.trackid_to_queue_idx(op.destination_owner);
            let ghost before = guards@;
            match op.res {
                AnyResKey::Buffer(buf) => {
                    let mut state = match buffer_slots_get(&self.buffer, buf.0) {
                        Some(st) => st,
                        None => {
                            proof {
                                lemma_release_all_err_extends(s0, ops@, i as int + 1, tm);
                            }
                            return Err(RecordError::NoSuchResource(AnyHandle::from(op.res)));
                        },
                    };
                    let old_guard = state.guard;
                    state.ownership = QueueOwnership::Released { src_family, dst_family };
                    state.guard = None;
                    buffer_slots_set(&mut self.buffer, buf.0, state);
                    if let Some(g) = old_guard {
                        guards.push(g);
                    }
                    proof {
                        assert(guards@ =~= before + opt_seq(old_guard));
                    }
                },
                AnyResKey::Image(img) => {
                    let mut state = match image_slots_get(&self.images, img.0) {
                        Some(st) => st,
                        None => {
                            proof {
                                lemma_release_all_err_extends(s0, ops@, i as int + 1, tm);
                            }
                            return Err(RecordError::NoSuchResource(AnyHandle::from(op.res)));
                        },
                    };
                    let old_guard = state.guard;
                    state.ownership = QueueOwnership::Released { src_family, dst_family };
                    state.guard = None;
                    image_slots_set(&mut self.images, img.0, state);
                    if let Some(g) = old_guard {
                        guards.push(g);
                    }
                    proof {
                        assert(guards@ =~= before + opt_seq(old_guard));
                    }
                },
                AnyResKey::Sampler(_) => {
                    proof {
                        assert(guards@ =~= before + opt_seq(None::<Guard>));
                    }
                },
            }
            i = i + 1;
        }
        proof {
            assert(ops@.take(i as int) =~= ops@);
        }
        Ok(guards)
    }

    /// Puts the resource of each release in `ops` under the guard that `rg`
    /// lists for its releasing track. Each resource must be in the store
    /// without a guard, and released only once.
    pub fn set_release_guards(&mut self, ops: &Vec<ReleaseOp>, rg: &Vec<(TrackId, Guard)>)
        requires
            old(self).wf(),
            forall|p: int| 0 <= p < ops@.len() ==> unguarded(old(self).owned_states(), #[trigger] ops@[p].res),
            forall|p: int, q: int| 0 <= p < q < ops@.len() ==> res_slot((#[trigger] ops@[p]).res) != res_slot((#[trigger] ops@[q]).res),
            forall|p: int| 0 <= p < ops@.len() ==> lists_track(rg@, (#[trigger] ops@[p]).current_owner),
        ensures
            final(self).wf(),
            final(self).bindless == old(self).bindless,
            final(self).sampler_states() == old(self).sampler_states(),
            final(self).owned_states() == guards_for(old(self).owned_states(), ops@, rg@),
    {
        let ghost s0 = self.owned_states();
        let mut p: usize = 0;
        while p < ops.len()
            invariant
                self.wf(),
                self.bindless == old(self).bindless,
                self.sampler_states() == old(self).sampler_states(),
                s0 == old(self).owned_states(),
                p <= ops@.len(),
                self.owned_states() == guards_for(s0, ops@.take(p as int), rg@),
                forall|q: int| p <= q < ops@.len() ==> unguarded(self.owned_states(), #[trigger] ops@[q].res),
                forall|a: int, b: int| 0 <= a < b < ops@.len() ==> res_slot((#[trigger] ops@[a]).res) != res_slot((#[trigger] ops@[b]).res),
                forall|q: int| 0 <= q < ops@.len() ==> lists_track(rg@, (#[trigger] ops@[q]).current_owner),
            decreases ops@.len() - p,
        {
            let op = ops[p];
            let g = find_guard(rg, op.current_owner);
            let ghost sp = self.owned_states();
            proof {
                assert(ops@.take(p as int + 1).drop_last() =~= ops@.take(p as int));
                assert(ops@.take(p as int + 1).last() == op);
                assert(unguarded(sp, ops@[p as int].res));
            }
            match op.res {
                AnyResKey::Buffer(buf) => {
                    let mut state = buffer_slots_get(&self.buffer, buf.0).unwrap();
                    assert(state.guard is None);
                    state.guard = Some(g);
                    buffer_slots_set(&mut self.buffer, buf.0, state);
                },
                AnyResKey::Image(img) => {
                    let mut state = image_slots_get(&self.images, img.0).unwrap();
                    assert(state.guard is None);
                    state.guard = Some(g);
                    image_slots_set(&mut self.images, img.0, state);
                },
                AnyResKey::Sampler(_) => {},
            }
            proof {
                assert(self.owned_states() == guard_step(sp, op.res, g));
                assert forall|q: int| p + 1 <= q < ops@.len() implies unguarded(self.owned_states(), #[trigger] ops@[q].res) by {
                    assert(res_slot(ops@[p as int].res) != res_slot(ops@[q].res));
                    assert(unguarded(sp, ops@[q].res));
                }
            }
            p = p + 1;
        }
        proof {
            assert(ops@.take(p as int) =~= ops@);
        }
    }
}

/// The guard listed last for `track` in `rg`, which lists it.
fn find_guard(rg: &Vec<(TrackId, Guard)>, track: TrackId) -> (r: Guard)
    requires
        lists_track(rg@, track),
    ensures
        r == guard_of(rg@, track.0),
{
    let mut j: usize = rg.len();
    proof {
        assert(rg@.take(j as int) =~= rg@);
    }
    while j > 0
        invariant
            j <= rg@.len(),
            exists|q: int| 0 <= q < j && rg@[q].0 == track,
            guard_of(rg@.take(j as int), track.0) == guard_of(rg@, track.0),
        decreases j,
    {
        let (t, g) = rg[j - 1];
        proof {
            assert(rg@.take(j as int).drop_last() =~= rg@.take(j - 1));
            assert(rg@.take(j as int).last() == rg@[j - 1]);
        }
        if t.0 == track.0 {
            return g;
        }
        j = j - 1;
    }
    Guard { track, target_value: 0 }
}

/// The readiness of acquiring all keys holds for every prefix.
proof fn lemma_acquire_ready_prefix(s: OwnedStates, keys: Seq<AnyResKey>, n: int, family: u32, g: Guard)
    requires
        acquire_all_ready(s, keys, family, g),
        0 <= n <= keys.len(),
    ensures
        acquire_all_ready(s, keys.take(n), family, g),
    decreases keys.len(),
{
    if n < keys.len() {
        lemma_acquire_ready_prefix(s, keys.drop_last(), n, family, g);
        assert(keys.drop_last().take(n) =~= keys.take(n));
    } else {
        assert(keys.take(n) =~= keys);
    }
}

/// Once acquiring a prefix fails, acquiring all keys fails the same way.
proof fn lemma_acquire_all_err_extends(s: OwnedStates, keys: Seq<AnyResKey>, n: int, family: u32, g: Guard)
    requires
        0 <= n <= keys.len(),
        acquire_all(s, keys.take(n), family, g) is Err,
    ensures
        acquire_all(s, keys, family, g) == acquire_all(s, keys.take(n), family, g),
    decreases keys.len(),
{
    if n < keys.len() {
        assert(keys.drop_last().take(n) =~= keys.take(n));
        lemma_acquire_all_err_extends(s, keys.drop_last(), n, family, g);
    } else {
        assert(keys.take(n) =~= keys);
    }
}

/// The ownership and guard of image or buffer `key` in the states.
pub open spec fn state_of(s: OwnedStates, key: AnyResKey) -> (QueueOwnership, Option<Guard>) {
    match key {
        AnyResKey::Image(k) => (s.images[slot_canon(k.0)].ownership, s.images[slot_canon(k.0)].guard),
        AnyResKey::Buffer(k) => (s.buffers[slot_canon(k.0)].ownership, s.buffers[slot_canon(k.0)].guard),
        AnyResKey::Sampler(_) => (QueueOwnership::Uninitialized, None),
    }
}

/// What a release hands over, the acquire on the destination takes up: once
/// an image or buffer is released from queue family `src` to `dst`,
/// acquiring it for `dst` succeeds, records the transfer from `src` to `dst`,
/// hands back no guard, and leaves the resource owned by `dst` under the new
/// guard.
pub proof fn lemma_release_then_acquire(s: OwnedStates, op: ReleaseOp, src: u32, dst: u32, g: Guard)
    requires
        in_states(s, op.res),
        !(op.res is Sampler),
    ensures
        release_step(s, op, src, dst) is Ok,
        ({
            let s2 = release_step(s, op, src, dst)->Ok_0.0;
            &&& acquire_ready(s2, op.res, dst)
            &&& acquire_step(s2, op.res, dst, g) is Ok
            &&& acquire_step(s2, op.res, dst, g)->Ok_0.1 == Some(QueueTransfer { res: op.res, src_family: src, dst_family: dst })
            &&& acquire_step(s2, op.res, dst, g)->Ok_0.2 is None
            &&& state_of(acquire_step(s2, op.res, dst, g)->Ok_0.0, op.res) == (QueueOwnership::Owned(dst), Some(g))
        }),
{
}

/// Acquiring a resource that was acquired already fails: a resource owned by
/// a queue family has to be released before another acquire.
pub proof fn lemma_acquire_twice_fails(s: OwnedStates, key: AnyResKey, family: u32, g1: Guard, g2: Guard)
    requires
        acquire_ready(s, key, family),
        !(key is Sampler),
        !(state_of(s, key).0 is Owned),
    ensures
        acquire_step(s, key, family, g1) is Ok,
        ({
            let s2 = acquire_step(s, key, family, g1)->Ok_0.0;
            acquire_step(s2, key, family, g2)
                == Err::<(OwnedStates, Option<QueueTransfer>, Option<Guard>), (RecordError, OwnedStates)>(
                    (RecordError::AcquireRecord(AnyHandle { atomic_ref: None, key }, family), s2))
        }),
{
}

} // verus!
