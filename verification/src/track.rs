//! Execution tracks: one per queue capability set, each with its own timeline
//! of guard values.
use vstd::prelude::*;
use ahash::AHashMap;
use crate::maps::{track_map_remove, track_map, track_map_new, track_map_insert, track_map_get, track_map_keys};

verus! {

/// Queue capability bits (the raw values of Vulkan's queue flags).
pub const QUEUE_GRAPHICS: u32 = 0x1;
pub const QUEUE_COMPUTE: u32 = 0x2;
pub const QUEUE_TRANSFER: u32 = 0x4;
pub const QUEUE_SPARSE_BINDING: u32 = 0x8;
pub const QUEUE_PROTECTED: u32 = 0x10;
pub const QUEUE_VIDEO_DECODE_KHR: u32 = 0x20;
pub const QUEUE_VIDEO_ENCODE_KHR: u32 = 0x40;
pub const QUEUE_RESERVED_7_QCOM: u32 = 0x80;

/// Capability bits that are ignored when matching a usage against a track.
pub const CAP_MASK: u32 = 0xf8;

/// Queue capability precedence, from less important to most important.
pub open spec fn cap_precedence(k: int) -> u32 {
    if k == 0 {
        0
    } else if k == 1 {
        QUEUE_TRANSFER
    } else if k == 2 {
        QUEUE_COMPUTE
    } else if k == 3 {
        QUEUE_TRANSFER | QUEUE_COMPUTE
    } else if k == 4 {
        QUEUE_GRAPHICS
    } else if k == 5 {
        QUEUE_GRAPHICS | QUEUE_TRANSFER
    } else if k == 6 {
        QUEUE_GRAPHICS | QUEUE_COMPUTE
    } else {
        QUEUE_GRAPHICS | QUEUE_COMPUTE | QUEUE_TRANSFER
    }
}

/// The capability bits of a track id that take part in matching.
pub open spec fn masked_caps(id: u32) -> u32 {
    id & !(id & CAP_MASK)
}

/// Whether a track fits ignores its protected, sparse binding, video and
/// reserved bits (`0xf8`): at precedence step `k`, a track matches exactly
/// when its id with those bits cleared is `usage` extended by the step's
/// capabilities. So a graphics, compute and transfer queue that also offers
/// sparse binding (`0xf`) serves graphics work.
pub proof fn lemma_fit_ignores_cap_bits(dom: Set<u32>, usage: u32, k: int)
    ensures
        usage_matches_at(dom, usage, k)
            <==> exists|id: u32| dom.contains(id) && #[trigger] (id & !0xf8u32) == (usage | cap_precedence(k)),
{
    assert forall|id: u32| masked_caps(id) == #[trigger] (id & !0xf8u32) by {
        assert(id & !(id & 0xf8u32) == id & !0xf8u32) by (bit_vector);
    }
    if usage_matches_at(dom, usage, k) {
        let id = choose|id: u32| dom.contains(id) && #[trigger] masked_caps(id) == (usage | cap_precedence(k));
        assert(masked_caps(id) == (id & !0xf8u32));
    }
    if exists|id: u32| dom.contains(id) && #[trigger] (id & !0xf8u32) == (usage | cap_precedence(k)) {
        let id = choose|id: u32| dom.contains(id) && #[trigger] (id & !0xf8u32) == (usage | cap_precedence(k));
        assert(masked_caps(id) == (id & !0xf8u32));
    }
}

/// The precedence steps add, in this order: nothing, transfer (0x4), compute
/// (0x2), compute and transfer, graphics (0x1), graphics and transfer,
/// graphics and compute, and all three. A task prefers a track with the
/// fewest and least important extra capabilities.
pub proof fn lemma_precedence_steps()
    ensures
        cap_precedence(0) == 0,
        cap_precedence(1) == 0x4,
        cap_precedence(2) == 0x2,
        cap_precedence(3) == 0x6,
        cap_precedence(4) == 0x1,
        cap_precedence(5) == 0x5,
        cap_precedence(6) == 0x3,
        cap_precedence(7) == 0x7,
{
    assert(4u32 | 2u32 == 6u32 && 1u32 | 4u32 == 5u32 && 1u32 | 2u32 == 3u32 && 1u32 | 2u32 | 4u32 == 7u32) by (bit_vector);
}

/// No track of `dom` fits `usage` at any precedence step exactly when no
/// track id, with the bits `0xf8` cleared, is `usage` extended by a step's
/// capabilities.
proof fn lemma_no_fit(dom: Set<u32>, usage: u32)
    ensures
        (forall|k: int| 0 <= k < 8 ==> !usage_matches_at(dom, usage, k))
            <==> (forall|id: u32, k: int| #[trigger] dom.contains(id) && 0 <= k < 8
                ==> (id & !0xf8u32) != (usage | #[trigger] cap_precedence(k))),
{
    assert forall|k: int| 0 <= k < 8 implies (usage_matches_at(dom, usage, k)
        <==> exists|id: u32| dom.contains(id) && #[trigger] (id & !0xf8u32) == (usage | cap_precedence(k))) by {
        lemma_fit_ignores_cap_bits(dom, usage, k);
    }
    if !(forall|id: u32, k: int| #[trigger] dom.contains(id) && 0 <= k < 8
        ==> (id & !0xf8u32) != (usage | #[trigger] cap_precedence(k))) {
        let (id, k) = choose|id: u32, k: int| #[trigger] dom.contains(id) && 0 <= k < 8
            && !((id & !0xf8u32) != (usage | #[trigger] cap_precedence(k)));
        assert(usage_matches_at(dom, usage, k));
    }
}

/// Some track in `dom` matches `usage` extended by the `k`-th precedence entry.
pub open spec fn usage_matches_at(dom: Set<u32>, usage: u32, k: int) -> bool {
    exists|id: u32| dom.contains(id) && #[trigger] masked_caps(id) == (usage | cap_precedence(k))
}

/// `new` is track `old` after it allocated guard `g`: its latest value went
/// up by one and `g` waits for that value on the track.
pub open spec fn allocates_guard(old: Track, new: Track, g: Guard) -> bool {
    &&& new.latest_signaled_value == old.latest_signaled_value + 1
    &&& g == (Guard { track: TrackId(old.flags), target_value: new.latest_signaled_value })
}

/// Guards that a track allocates one after the other name that track and
/// wait for values that go up by one each: later guards wait for more.
pub proof fn lemma_consecutive_guards(t0: Track, t1: Track, t2: Track, g1: Guard, g2: Guard)
    requires
        allocates_guard(t0, t1, g1),
        t1.flags == t0.flags,
        allocates_guard(t1, t2, g2),
    ensures
        g2.track == g1.track,
        g2.track == TrackId(t0.flags),
        g2.target_value == g1.target_value + 1,
        t2.latest_signaled_value == g2.target_value,
{
}

/// Identifies a track by its queue capabilities.
#[derive(Clone, Copy, Debug, PartialEq, Eq, Structural, Hash)]
pub struct TrackId(pub u32);

impl TrackId {
    /// A track id with no capabilities.
    pub fn empty() -> (r: TrackId)
        ensures
            r.0 == 0,
    {
        TrackId(0)
    }
}

/// An execution guard: work on `track` is done once the track's timeline
/// reaches `target_value`.
#[derive(Clone, Copy, Debug, PartialEq, Eq, Structural)]
pub struct Guard {
    pub track: TrackId,
    pub target_value: u64,
}

impl Guard {
    /// The timeline value this guard waits for.
    pub fn wait_value(&self) -> (r: u64)
        ensures
            r == self.target_value,
    {
        self.target_value
    }

    /// Returns true whenever the guard was passed on the device: `sem_value`,
    /// the value read from the guarded track's timeline semaphore, has reached
    /// the guard's value. False if the track does not exist.
    pub fn is_expired(&self, tracks: &Tracks, sem_value: u64) -> (r: bool)
        ensures
            r == (track_map(tracks.0).contains_key(self.track.0) && sem_value >= self.target_value),
    {
        match track_map_get(&tracks.0, self.track.0) {
            Some(_) => sem_value >= self.target_value,
            None => false,
        }
    }

    /// True if the guard was reached according to `sem_value`, the current
    /// value of the guarded track's semaphore, or if the track does not exist.
    pub fn expired(&self, tracks: &Tracks, sem_value: u64) -> (r: bool)
        ensures
            r == (!track_map(tracks.0).contains_key(self.track.0) || sem_value >= self.target_value),
    {
        tracks.guard_finished(self, sem_value)
    }

    /// The guard of the execution before this one.
    pub fn guard_before(&self) -> (r: Guard)
        ensures
            r.track == self.track,
            r.target_value == (if self.target_value == 0 { 0 } else { self.target_value - 1 }),
    {
        Guard { track: self.track, target_value: self.target_value.saturating_sub(1) }
    }
}

/// An execution in flight on a track. `id` names the command buffer and the
/// resources that have to live until the guard is reached.
#[derive(Clone, Copy, Debug, PartialEq, Eq, Structural)]
pub struct Execution {
    pub id: u64,
    pub guard: Guard,
}

/// Execution track: one device queue family and its timeline.
#[derive(Debug)]
pub struct Track {
    pub queue_idx: u32,
    pub flags: u32,
    pub inflight_executions: Vec<Execution>,
    /// Latest known value that is going to be signaled eventually.
    pub latest_signaled_value: u64,
}

impl Track {
    /// A track for queue family `queue_idx` with capabilities `flags`, with
    /// nothing in flight.
    pub fn new(queue_idx: u32, flags: u32) -> (r: Track)
        ensures
            r.queue_idx == queue_idx,
            r.flags == flags,
            r.inflight_executions@ == Seq::<Execution>::empty(),
            r.latest_signaled_value == 0,
    {
        Track { queue_idx, flags, inflight_executions: Vec::new(), latest_signaled_value: 0 }
    }

    /// Drops all executions that finished before `finished_till`, the current
    /// value of the track's semaphore. Keeps the others in order.
    pub fn tick_frame(&mut self, finished_till: u64)
        ensures
            final(self).queue_idx == old(self).queue_idx,
            final(self).flags == old(self).flags,
            final(self).latest_signaled_value == old(self).latest_signaled_value,
            final(self).inflight_executions@ == old(self).inflight_executions@.filter(
                |e: Execution| e.guard.target_value >= finished_till,
            ),
    {
        let ghost pred = |e: Execution| e.guard.target_value >= finished_till;
        let mut kept: Vec<Execution> = Vec::new();
        let n = self.inflight_executions.len();
        let mut i: usize = 0;
        while i < n
            invariant
                n == self.inflight_executions.len(),
                i <= n,
                kept@ == self.inflight_executions@.take(i as int).filter(pred),
                pred == (|x: Execution| x.guard.target_value >= finished_till),
            decreases n - i,
        {
            let e = self.inflight_executions[i];
            let ghost prefix = self.inflight_executions@.take(i + 1);
            proof {
                assert(prefix.drop_last() == self.inflight_executions@.take(i as int));
                assert(prefix.last() == e);
                assert(pred(e) == (e.guard.target_value >= finished_till));
                reveal_with_fuel(Seq::filter, 1);
                assert(prefix.filter(pred) == if pred(e) {
                    self.inflight_executions@.take(i as int).filter(pred).push(e)
                } else {
                    self.inflight_executions@.take(i as int).filter(pred)
                });
            }
            if e.guard.target_value >= finished_till {
                kept.push(e);
            }
            assert(kept@ == prefix.filter(pred));
            i = i + 1;
        }
        proof {
            assert(self.inflight_executions@.take(n as int) == self.inflight_executions@);
        }
        self.inflight_executions = kept;
    }

    /// Allocates the next guard of this track.
    pub fn next_guard(&mut self) -> (r: Guard)
        requires
            old(self).latest_signaled_value < u64::MAX,
        ensures
            final(self).latest_signaled_value == old(self).latest_signaled_value + 1,
            final(self).queue_idx == old(self).queue_idx,
            final(self).flags == old(self).flags,
            final(self).inflight_executions == old(self).inflight_executions,
            allocates_guard(*old(self), *final(self), r),
    {
        self.latest_signaled_value = self.latest_signaled_value + 1;
        Guard { track: TrackId(self.flags), target_value: self.latest_signaled_value }
    }

    /// Forgets all executions in flight and returns the timeline value that has
    /// to be waited for before they are all done (0 if none is in flight).
    pub fn wait_for_inflights(&mut self) -> (r: u64)
        ensures
            final(self).inflight_executions@ == Seq::<Execution>::empty(),
            final(self).queue_idx == old(self).queue_idx,
            final(self).flags == old(self).flags,
            final(self).latest_signaled_value == old(self).latest_signaled_value,
            forall|i: int| 0 <= i < old(self).inflight_executions@.len()
                ==> #[trigger] old(self).inflight_executions@[i].guard.target_value <= r,
            r == 0 || exists|i: int| 0 <= i < old(self).inflight_executions@.len()
                && #[trigger] old(self).inflight_executions@[i].guard.target_value == r,
    {
        let mut max: u64 = 0;
        let n = self.inflight_executions.len();
        let mut i: usize = 0;
        while i < n
            invariant
                n == self.inflight_executions.len(),
                i <= n,
                forall|j: int| 0 <= j < i ==> #[trigger] self.inflight_executions@[j].guard.target_value <= max,
                max == 0 || exists|j: int| 0 <= j < i
                    && #[trigger] self.inflight_executions@[j].guard.target_value == max,
            decreases n - i,
        {
            let v = self.inflight_executions[i].guard.target_value;
            if v > max {
                max = v;
            }
            i = i + 1;
        }
        self.inflight_executions = Vec::new();
        max
    }
}

/// All tracks, keyed by their capability bits.
pub struct Tracks(pub AHashMap<u32, Track>);

/// Every track is stored under its own flags.
pub open spec fn tracks_wf(m: Map<u32, Track>) -> bool {
    forall|k: u32| #[trigger] m.contains_key(k) ==> m[k].flags == k
}

impl Tracks {
    /// One track per distinct capability set of the given queue families
    /// (`(family index, flags)`); for several families with the same flags the
    /// first one is used.
    pub fn new(queues: &Vec<(u32, u32)>) -> (r: Tracks)
        ensures
            tracks_wf(track_map(r.0)),
            forall|k: u32| #[trigger] track_map(r.0).contains_key(k)
                <==> exists|i: int| 0 <= i < queues@.len() && #[trigger] queues@[i].1 == k,
            forall|i: int| 0 <= i < queues@.len() ==> {
                let k = #[trigger] queues@[i].1;
                track_map(r.0)[k].queue_idx == queues@[first_with_flags(queues@, k)].0
                    && track_map(r.0)[k].latest_signaled_value == 0
                    && track_map(r.0)[k].inflight_executions@.len() == 0
            },
    {
        let mut m = track_map_new();
        let mut i: usize = 0;
        while i < queues.len()
            invariant
                i <= queues@.len(),
                tracks_wf(track_map(m)),
                forall|k: u32| #[trigger] track_map(m).contains_key(k)
                    <==> exists|j: int| 0 <= j < i && #[trigger] queues@[j].1 == k,
                forall|j: int| 0 <= j < i ==> {
                    let k = #[trigger] queues@[j].1;
                    track_map(m)[k].queue_idx == queues@[first_with_flags(queues@, k)].0
                        && track_map(m)[k].latest_signaled_value == 0
                        && track_map(m)[k].inflight_executions@.len() == 0
                },
            decreases queues@.len() - i,
        {
            let (family, flags) = queues[i];
            let present = track_map_get(&m, flags).is_some();
            if !present {
                proof {
                    lemma_first_with_flags(queues@, i as int);
                }
                track_map_insert(&mut m, flags, Track::new(family, flags));
            } else {
                proof {
                    let j = choose|j: int| 0 <= j < i && #[trigger] queues@[j].1 == flags;
                    lemma_first_with_flags(queues@, j);
                }
            }
            i = i + 1;
        }
        Tracks(m)
    }

    /// True whenever the guard value was reached according to `sem_value`, the
    /// current value of the guarded track's semaphore, or if the track does not
    /// exist (anymore).
    pub fn guard_finished(&self, guard: &Guard, sem_value: u64) -> (r: bool)
        ensures
            r == (!track_map(self.0).contains_key(guard.track.0) || sem_value >= guard.target_value),
    {
        match track_map_get(&self.0, guard.track.0) {
            Some(_) => sem_value >= guard.target_value,
            None => true,
        }
    }

    /// Returns a track that fits `usage` best: a track with exactly this usage
    /// if there is one, otherwise one with the fewest additional capabilities,
    /// in the order of the capability precedence.
    pub fn track_for_usage(&self, usage: u32) -> (r: Option<TrackId>)
        ensures
            r is None <==> (forall|k: int| 0 <= k < 8 ==> !usage_matches_at(track_map(self.0).dom(), usage, k)),
            r matches Some(id) ==> {
                &&& track_map(self.0).contains_key(id.0)
                &&& exists|k: int| 0 <= k < 8 && masked_caps(id.0) == (usage | cap_precedence(k))
                    && forall|k2: int| 0 <= k2 < k ==> !usage_matches_at(track_map(self.0).dom(), usage, k2)
            },
            r is None <==> (forall|id: u32, k: int| #[trigger] track_map(self.0).contains_key(id) && 0 <= k < 8
                ==> (id & !0xf8u32) != (usage | #[trigger] cap_precedence(k))),
    {
        let keys = track_map_keys(&self.0);
        let precedence: [u32; 8] = [
            0,
            QUEUE_TRANSFER,
            QUEUE_COMPUTE,
            QUEUE_TRANSFER | QUEUE_COMPUTE,
            QUEUE_GRAPHICS,
            QUEUE_GRAPHICS | QUEUE_TRANSFER,
            QUEUE_GRAPHICS | QUEUE_COMPUTE,
            QUEUE_GRAPHICS | QUEUE_COMPUTE | QUEUE_TRANSFER,
        ];
        proof {
            assert forall|k: int| 0 <= k < 8 implies precedence@[k] == #[trigger] cap_precedence(k) by {}
        }
        let mut c: usize = 0;
        while c < 8
            invariant
                c <= 8,
                forall|k: int| 0 <= k < 8 ==> precedence@[k] == #[trigger] cap_precedence(k),
                keys@.to_set() == track_map(self.0).dom(),
                forall|k2: int| 0 <= k2 < c ==> !usage_matches_at(track_map(self.0).dom(), usage, k2),
            decreases 8 - c,
        {
            let target_usage = usage | precedence[c];
            let mut j: usize = 0;
            while j < keys.len()
                invariant
                    j <= keys@.len(),
                    c < 8,
                    target_usage == usage | cap_precedence(c as int),
                    forall|k: int| 0 <= k < 8 ==> precedence@[k] == #[trigger] cap_precedence(k),
                    keys@.to_set() == track_map(self.0).dom(),
                    forall|k2: int| 0 <= k2 < c ==> !usage_matches_at(track_map(self.0).dom(), usage, k2),
                    forall|jj: int| 0 <= jj < j ==> masked_caps(#[trigger] keys@[jj]) != target_usage,
                decreases keys@.len() - j,
            {
                let id = keys[j];
                let masked = id & !(id & CAP_MASK);
                if masked == target_usage {
                    proof {
                        assert(keys@.to_set().contains(keys@[j as int]));
                        assert(masked_caps(id) == (usage | cap_precedence(c as int)));
                        assert(usage_matches_at(track_map(self.0).dom(), usage, c as int));
                    }
                    proof {
                        lemma_no_fit(track_map(self.0).dom(), usage);
                    }
                    return Some(TrackId(id));
                }
                j = j + 1;
            }
            proof {
                assert forall|id: u32| track_map(self.0).dom().contains(id)
                    implies #[trigger] masked_caps(id) != (usage | cap_precedence(c as int)) by {
                    assert(keys@.to_set().contains(id));
                    let jj = choose|jj: int| 0 <= jj < keys@.len() && keys@[jj] == id;
                    assert(masked_caps(keys@[jj]) != target_usage);
                }
            }
            c = c + 1;
        }
        proof {
            lemma_no_fit(track_map(self.0).dom(), usage);
        }
        None
    }

    /// The track that works on queue family `idx`, if there is one.
    pub fn queue_idx_to_trackid(&self, idx: u32) -> (r: Option<TrackId>)
        ensures
            r is None <==> (forall|k: u32| #[trigger] track_map(self.0).contains_key(k)
                ==> track_map(self.0)[k].queue_idx != idx),
            r matches Some(id) ==> track_map(self.0).contains_key(id.0)
                && track_map(self.0)[id.0].queue_idx == idx,
    {
        let keys = track_map_keys(&self.0);
        let mut j: usize = 0;
        while j < keys.len()
            invariant
                j <= keys@.len(),
                keys@.to_set() == track_map(self.0).dom(),
                forall|jj: int| 0 <= jj < j ==> track_map(self.0)[#[trigger] keys@[jj]].queue_idx != idx,
            decreases keys@.len() - j,
        {
            let id = keys[j];
            proof {
                assert(keys@.to_set().contains(keys@[j as int]));
            }
            match track_map_get(&self.0, id) {
                Some(t) => {
                    if t.queue_idx == idx {
                        return Some(TrackId(id));
                    }
                },
                None => {},
            }
            j = j + 1;
        }
        proof {
            assert forall|k: u32| #[trigger] track_map(self.0).contains_key(k)
                implies track_map(self.0)[k].queue_idx != idx by {
                assert(keys@.to_set().contains(k));
                let jj = choose|jj: int| 0 <= jj < keys@.len() && keys@[jj] == k;
            }
        }
        None
    }

    /// The queue family of the track `id`, which must exist.
    pub fn trackid_to_queue_idx(&self, id: TrackId) -> (r: u32)
        requires
            track_map(self.0).contains_key(id.0),
        ensures
            r == track_map(self.0)[id.0].queue_idx,
    {
        match track_map_get(&self.0, id.0) {
            Some(t) => t.queue_idx,
            None => 0,
        }
    }

    /// Allocates the next guard of track `id`.
    pub fn next_guard_for(&mut self, id: TrackId) -> (r: Guard)
        requires
            track_map(old(self).0).contains_key(id.0),
            track_map(old(self).0)[id.0].latest_signaled_value < u64::MAX,
        ensures
            r == (Guard { track: TrackId(track_map(old(self).0)[id.0].flags),
                target_value: (track_map(old(self).0)[id.0].latest_signaled_value + 1) as u64 }),
            track_map(final(self).0) == track_map(old(self).0).insert(id.0, Track {
                latest_signaled_value: (track_map(old(self).0)[id.0].latest_signaled_value + 1) as u64,
                ..track_map(old(self).0)[id.0]
            }),
    {
        let mut t = track_map_remove(&mut self.0, id.0).unwrap();
        let g = t.next_guard();
        track_map_insert(&mut self.0, id.0, t);
        proof {
            assert(track_map(self.0) =~= track_map(old(self).0).insert(id.0, Track {
                latest_signaled_value: (track_map(old(self).0)[id.0].latest_signaled_value + 1) as u64,
                ..track_map(old(self).0)[id.0]
            }));
        }
        g
    }

}

/// Index of the first queue family in `qs` with flags `k`.
pub open spec fn first_with_flags(qs: Seq<(u32, u32)>, k: u32) -> int {
    choose|i: int| 0 <= i < qs.len() && qs[i].1 == k && forall|j: int| 0 <= j < i ==> qs[j].1 != k
}

proof fn lemma_first_with_flags(qs: Seq<(u32, u32)>, i: int)
    requires
        0 <= i < qs.len(),
    ensures
        0 <= first_with_flags(qs, qs[i].1) <= i,
        qs[first_with_flags(qs, qs[i].1)].1 == qs[i].1,
        (forall|j: int| 0 <= j < i ==> qs[j].1 != qs[i].1) ==> first_with_flags(qs, qs[i].1) == i,
    decreases i,
{
    let k = qs[i].1;
    if exists|j: int| 0 <= j < i && qs[j].1 == k {
        let j = choose|j: int| 0 <= j < i && qs[j].1 == k;
        lemma_first_with_flags(qs, j);
    } else {
        assert(qs[i].1 == k && forall|j: int| 0 <= j < i ==> qs[j].1 != k);
        let f = first_with_flags(qs, k);
        if f < i {
            assert(qs[f].1 == k);
        } else if f > i {
            assert(qs[i].1 != k);
        }
    }
}

} // verus!
