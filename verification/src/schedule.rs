//! Task scheduling: decides when which task runs on which track. Does not do
//! resource management.
//!
//! Tasks are added in recording order. Each task goes to the track that fits
//! its queue flags best and depends, for each resource it uses, on the task
//! that used that resource last (or on an import, if it is the first use).
//! Frames are then built per track: a frame is a run of consecutive tasks on
//! one track that can execute without waiting for another track in between.
use vstd::prelude::*;
use ahash::AHashMap;
use crate::error::RecordError;
use crate::maps::{schedule_map, schedule_map_new, schedule_map_insert, schedule_map_get, schedule_map_remove, schedule_map_keys, residency_map, residency_map_new, residency_map_insert, residency_map_get, track_map, track_map_keys};
use crate::res_states::{AnyResKey, res_code};
use crate::track::{TrackId, Tracks, masked_caps, cap_precedence, usage_matches_at};

verus! {

/// Participant in a dependency definition.
#[derive(Clone, Copy, Debug, PartialEq, Eq, Structural)]
pub enum DepPart {
    /// When imported for first use in the graph.
    Import,
    /// A scheduled task: its track and its index in that track's nodes.
    Scheduled { track: TrackId, node_idx: usize },
}

/// Dependency half edge: the *other* participant and the resource that is depended on.
#[derive(Clone, Copy, Debug, PartialEq, Eq, Structural)]
pub struct Dependency {
    pub participant: DepPart,
    pub dep: AnyResKey,
}

/// A task as the scheduler sees it: an id the caller gave it, the queue
/// capabilities it needs and the resources it uses, in registration order.
#[derive(Debug)]
pub struct TaskRecord {
    pub task: usize,
    pub queue_flags: u32,
    pub resources: Vec<AnyResKey>,
}

/// Single task node: the task with its dependencies and dependees.
pub struct TaskNode {
    /// What the node needs before it can execute.
    pub dependencies: Vec<Dependency>,
    /// The nodes that depend on this node, or on its data.
    pub dependees: Vec<Dependency>,
    pub task: TaskRecord,
    /// Position of the task in the order tasks were added.
    pub order: Ghost<nat>,
}

/// Marks a run of nodes on one track, starting at node `start` and including
/// `len` nodes. A frame is what is translated into one command buffer.
#[derive(Clone, Copy, Debug, PartialEq, Eq, Structural)]
pub struct TrackFrame {
    pub start: usize,
    pub len: usize,
}

/// Schedule of a single track.
pub struct TrackSchedule {
    pub nodes: Vec<TaskNode>,
    pub frames: Vec<TrackFrame>,
}

/// The frame holds node `idx`.
pub open spec fn frame_contains(f: TrackFrame, idx: int) -> bool {
    f.start <= idx < f.start + f.len
}

/// One past the last node that the frames cover (0 without frames).
pub open spec fn frames_end(frames: Seq<TrackFrame>) -> int {
    if frames.len() == 0 {
        0
    } else {
        frames.last().start + frames.last().len
    }
}

/// Frames are non-empty and follow each other without gap, starting at node 0.
pub open spec fn frames_wf(frames: Seq<TrackFrame>) -> bool
    decreases frames.len(),
{
    if frames.len() == 0 {
        true
    } else {
        &&& frames_wf(frames.drop_last())
        &&& frames.last().len >= 1
        &&& frames.last().start == frames_end(frames.drop_last())
    }
}

/// The frames of a track are well formed and cover no more than its nodes.
pub open spec fn track_wf(ts: TrackSchedule) -> bool {
    frames_wf(ts.frames@) && frames_end(ts.frames@) <= ts.nodes@.len()
}

/// Node `idx` is part of some frame.
pub open spec fn spec_is_scheduled(frames: Seq<TrackFrame>, idx: int) -> bool {
    exists|k: int| 0 <= k < frames.len() && frame_contains(#[trigger] frames[k], idx)
}

/// The frames cover exactly the nodes below their end, and each frame lies below it.
pub proof fn lemma_frames_cover(frames: Seq<TrackFrame>)
    requires
        frames_wf(frames),
    ensures
        frames_end(frames) >= 0,
        forall|idx: int| spec_is_scheduled(frames, idx) <==> 0 <= idx < frames_end(frames),
        forall|k: int| 0 <= k < frames.len() ==> 0 <= #[trigger] frames[k].start
            && frames[k].start + frames[k].len <= frames_end(frames),
    decreases frames.len(),
{
    if frames.len() > 0 {
        let init = frames.drop_last();
        lemma_frames_cover(init);
        assert forall|k: int| 0 <= k < frames.len() implies 0 <= #[trigger] frames[k].start
            && frames[k].start + frames[k].len <= frames_end(frames) by {
            if k < init.len() {
                assert(frames[k] == init[k]);
            }
        }
        assert forall|idx: int| spec_is_scheduled(frames, idx) <==> 0 <= idx < frames_end(frames) by {
            if spec_is_scheduled(frames, idx) {
                let k = choose|k: int| 0 <= k < frames.len() && frame_contains(#[trigger] frames[k], idx);
                if k < init.len() {
                    assert(frames[k] == init[k]);
                }
            }
            if 0 <= idx < frames_end(frames) {
                if idx < frames_end(init) {
                    assert(spec_is_scheduled(init, idx));
                    let k = choose|k: int| 0 <= k < init.len() && frame_contains(#[trigger] init[k], idx);
                    assert(frames[k] == init[k]);
                    assert(frame_contains(frames[k], idx));
                } else {
                    assert(frame_contains(frames[frames.len() - 1], idx));
                }
            }
        }
    }
}

/// Appending a frame that starts at the end and holds one node keeps the frames well formed.
pub proof fn lemma_frames_push(frames: Seq<TrackFrame>, f: TrackFrame)
    requires
        frames_wf(frames),
        f.start == frames_end(frames),
        f.len >= 1,
    ensures
        frames_wf(frames.push(f)),
        frames_end(frames.push(f)) == f.start + f.len,
{
    assert(frames.push(f).drop_last() == frames);
}

/// Growing the last frame keeps the frames well formed.
pub proof fn lemma_frames_grow_last(frames: Seq<TrackFrame>, f: TrackFrame)
    requires
        frames_wf(frames),
        frames.len() > 0,
        f.start == frames.last().start,
        f.len >= frames.last().len,
    ensures
        frames_wf(frames.update(frames.len() - 1, f)),
        frames_end(frames.update(frames.len() - 1, f)) == f.start + f.len,
{
    assert(frames.update(frames.len() - 1, f).drop_last() == frames.drop_last());
}

impl TrackFrame {
    /// True if node `idx` is part of this frame.
    pub fn contains_idx(&self, idx: usize) -> (r: bool)
        requires
            self.start + self.len <= usize::MAX,
        ensures
            r == frame_contains(*self, idx as int),
    {
        idx >= self.start && idx < (self.start + self.len)
    }

    /// The node index this frame reaches when its length grows by one.
    fn next_idx(&self) -> (r: usize)
        requires
            self.start + self.len <= usize::MAX,
        ensures
            r == self.start + self.len,
    {
        self.start + self.len
    }

    /// Pushes node `node_idx`, the node right after the frame, into the frame.
    fn push_node(&mut self, node_idx: usize)
        requires
            old(self).start + old(self).len == node_idx,
            node_idx < usize::MAX,
        ensures
            final(self).start == old(self).start,
            final(self).len == old(self).len + 1,
    {
        self.len = node_idx - self.start + 1;
    }

    /// The indices of the nodes in this frame.
    pub fn iter_indices(&self) -> (r: std::ops::Range<usize>)
        requires
            self.start + self.len <= usize::MAX,
        ensures
            r.start == self.start,
            r.end == self.start + self.len,
    {
        self.start..(self.start + self.len)
    }
}

impl TrackSchedule {
    /// True if node `idx` is part of some frame.
    fn is_scheduled(&self, idx: usize) -> (r: bool)
        requires
            track_wf(*self),
        ensures
            r == spec_is_scheduled(self.frames@, idx as int),
            r == (idx < frames_end(self.frames@)),
    {
        proof {
            lemma_frames_cover(self.frames@);
        }
        self.find_frame(idx).is_some()
    }

    /// The first frame that holds node `task_node_idx`, if there is one.
    fn find_frame(&self, task_node_idx: usize) -> (r: Option<&TrackFrame>)
        requires
            track_wf(*self),
        ensures
            r is Some <==> spec_is_scheduled(self.frames@, task_node_idx as int),
            r matches Some(f) ==> frame_contains(*f, task_node_idx as int),
    {
        proof {
            lemma_frames_cover(self.frames@);
        }
        let n = self.nodes.len();
        let mut k: usize = 0;
        while k < self.frames.len()
            invariant
                k <= self.frames@.len(),
                track_wf(*self),
                n == self.nodes@.len(),
                forall|i: int| 0 <= i < self.frames@.len() ==> 0 <= #[trigger] self.frames@[i].start
                    && self.frames@[i].start + self.frames@[i].len <= frames_end(self.frames@),
                forall|i: int| 0 <= i < k ==> !frame_contains(#[trigger] self.frames@[i], task_node_idx as int),
            decreases self.frames@.len() - k,
        {
            if self.frames[k].contains_idx(task_node_idx) {
                return Some(&self.frames[k]);
            }
            k = k + 1;
        }
        None
    }

    /// True if the last node is not part of the last frame.
    fn has_unscheduled(&self) -> (r: bool)
        requires
            track_wf(*self),
        ensures
            r == (frames_end(self.frames@) < self.nodes@.len()),
    {
        proof {
            lemma_frames_cover(self.frames@);
        }
        let n = self.nodes.len();
        let f = self.frames.len();
        if f > 0 && n > 0 {
            !self.frames[f - 1].contains_idx(n - 1)
        } else if n > 0 {
            true
        } else {
            false
        }
    }

    /// The next node to be scheduled, if there is one.
    fn next_to_schedule(&self) -> (r: Option<usize>)
        requires
            track_wf(*self),
        ensures
            r is Some <==> frames_end(self.frames@) < self.nodes@.len(),
            r matches Some(n) ==> n as int == frames_end(self.frames@),
    {
        proof {
            lemma_frames_cover(self.frames@);
        }
        let n = self.nodes.len();
        let f = self.frames.len();
        let candidate = if f > 0 {
            self.frames[f - 1].start + self.frames[f - 1].len
        } else {
            0
        };
        if candidate < self.nodes.len() {
            Some(candidate)
        } else {
            None
        }
    }

    /// Opens a new, empty frame right after the last one.
    fn start_next_frame(&mut self)
        requires
            track_wf(*old(self)),
        ensures
            final(self).nodes == old(self).nodes,
            final(self).frames@ == old(self).frames@.push(
                TrackFrame { start: frames_end(old(self).frames@) as usize, len: 0 },
            ),
    {
        proof {
            lemma_frames_cover(self.frames@);
        }
        let n = self.nodes.len();
        let f = self.frames.len();
        let frame = if f > 0 {
            TrackFrame { start: self.frames[f - 1].start + self.frames[f - 1].len, len: 0 }
        } else {
            TrackFrame { start: 0, len: 0 }
        };
        self.frames.push(frame);
    }
}

/// Only finds out when which task is scheduled. Does not do resource management.
pub struct TaskSchedule {
    pub tracks: AHashMap<u32, TrackSchedule>,
    /// On which track, at which node, each resource was used last.
    pub resource_residency: AHashMap<(u8, u64), (u32, usize)>,
    /// Number of tasks added so far.
    pub added: Ghost<nat>,
    /// When each frame was opened, counted in frames opened so far: `(track, frame index)` to its stamp.
    pub frame_stamps: Ghost<Map<(u32, int), nat>>,
    /// Number of frames opened so far.
    pub stamp_count: Ghost<nat>,
}

/// `(t, i)` names a node of the schedule.
pub open spec fn valid_loc(sm: Map<u32, TrackSchedule>, t: u32, i: int) -> bool {
    sm.contains_key(t) && 0 <= i < sm[t].nodes@.len()
}

/// Position of node `(t, i)` in the order tasks were added.
pub open spec fn node_order(sm: Map<u32, TrackSchedule>, t: u32, i: int) -> nat {
    sm[t].nodes@[i].order@
}

/// A dependency of node `(t, i)` is an import or names an earlier added node.
pub open spec fn dep_ok(sm: Map<u32, TrackSchedule>, t: u32, i: int, d: Dependency) -> bool {
    match d.participant {
        DepPart::Import => true,
        DepPart::Scheduled { track, node_idx } => valid_loc(sm, track.0, node_idx as int)
            && node_order(sm, track.0, node_idx as int) < node_order(sm, t, i),
    }
}

/// Node `a` has a dependency on node `b` (each a track and a node index).
pub open spec fn depends_on(sm: Map<u32, TrackSchedule>, a: (u32, usize), b: (u32, usize)) -> bool {
    exists|k: int| 0 <= k < sm[a.0].nodes@[a.1 as int].dependencies@.len()
        && (#[trigger] sm[a.0].nodes@[a.1 as int].dependencies@[k]).participant == (DepPart::Scheduled {
            track: TrackId(b.0), node_idx: b.1 })
}

/// A schedule's dependencies never form a cycle: following dependencies from
/// a node, always to nodes added earlier, never leads back to it. So building
/// the frames of a schedule never dead locks.
pub proof fn lemma_no_dependency_cycle(sm: Map<u32, TrackSchedule>, res: Map<(u8, u64), (u32, usize)>, added: nat,
    chain: Seq<(u32, usize)>)
    requires
        schedule_wf(sm, res, added),
        chain.len() >= 2,
        valid_loc(sm, chain[0].0, chain[0].1 as int),
        forall|k: int| 0 <= k < chain.len() - 1 ==> depends_on(sm, #[trigger] chain[k], chain[k + 1]),
    ensures
        chain.last() != chain[0],
        node_order(sm, chain.last().0, chain.last().1 as int) < node_order(sm, chain[0].0, chain[0].1 as int),
    decreases chain.len(),
{
    let c0 = chain[0];
    let c1 = chain[1];
    assert(depends_on(sm, c0, chain[0int + 1]));
    assert(chain[0int + 1] == c1);
    let k = choose|k: int| 0 <= k < sm[c0.0].nodes@[c0.1 as int].dependencies@.len()
        && (#[trigger] sm[c0.0].nodes@[c0.1 as int].dependencies@[k]).participant == (DepPart::Scheduled {
            track: TrackId(c1.0), node_idx: c1.1 });
    assert(dep_ok(sm, c0.0, c0.1 as int, sm[c0.0].nodes@[c0.1 as int].dependencies@[k]));
    assert(valid_loc(sm, c1.0, c1.1 as int));
    if chain.len() > 2 {
        let rest = chain.drop_first();
        assert forall|j: int| 0 <= j < rest.len() - 1 implies depends_on(sm, #[trigger] rest[j], rest[j + 1]) by {
            assert(depends_on(sm, chain[j + 1], chain[(j + 1) + 1]));
            assert(chain[(j + 1) + 1] == rest[j + 1]);
        }
        lemma_no_dependency_cycle(sm, res, added, rest);
        assert(rest.last() == chain.last());
    }
}

/// The invariant of a task schedule.
pub open spec fn schedule_wf(sm: Map<u32, TrackSchedule>, res: Map<(u8, u64), (u32, usize)>, added: nat) -> bool {
    &&& sm.dom().finite()
    &&& forall|t: u32| #[trigger] sm.contains_key(t) ==> track_wf(sm[t])
    &&& forall|t: u32, i: int, j: int|
        #![trigger sm[t].nodes@[i], sm[t].nodes@[j]]
        sm.contains_key(t) && 0 <= i < j < sm[t].nodes@.len() ==> node_order(sm, t, i) < node_order(sm, t, j)
    &&& forall|t: u32, i: int| #![trigger sm[t].nodes@[i]] valid_loc(sm, t, i) ==> node_order(sm, t, i) < added
    &&& forall|t: u32, i: int, k: int|
        #![trigger sm[t].nodes@[i].dependencies@[k]]
        valid_loc(sm, t, i) && 0 <= k < sm[t].nodes@[i].dependencies@.len()
            ==> dep_ok(sm, t, i, sm[t].nodes@[i].dependencies@[k])
    &&& forall|c: (u8, u64)| #[trigger] res.contains_key(c) ==> valid_loc(sm, res[c].0, res[c].1 as int)
}

/// Dependency `d` of a node in frame `k` of track `t` is an import, or names a
/// node that is in a frame already; a node of another track lies in a frame
/// that was opened before frame `k`.
pub open spec fn dep_in_earlier_frame(sm: Map<u32, TrackSchedule>, st: Map<(u32, int), nat>, t: u32, k: int, d: Dependency) -> bool {
    match d.participant {
        DepPart::Import => true,
        DepPart::Scheduled { track, node_idx } => {
            &&& node_idx < frames_end(sm[track.0].frames@)
            &&& track.0 != t ==> forall|k2: int| 0 <= k2 < sm[track.0].frames@.len()
                && #[trigger] frame_contains(sm[track.0].frames@[k2], node_idx as int) ==> st[(track.0, k2)] < st[(t, k)]
        },
    }
}

/// Every frame has a stamp below `cnt`; the stamps grow along each track; and
/// what a node in a frame depends on is in a frame already, one opened earlier
/// if it is on another track.
pub open spec fn frames_stamped(sm: Map<u32, TrackSchedule>, st: Map<(u32, int), nat>, cnt: nat) -> bool {
    &&& forall|t: u32, k: int| #![trigger st.contains_key((t, k))] #![trigger st[(t, k)]] sm.contains_key(t) && 0 <= k < sm[t].frames@.len()
        ==> st.contains_key((t, k)) && st[(t, k)] < cnt
    &&& forall|t: u32, k1: int, k2: int| #![trigger st[(t, k1)], st[(t, k2)]]
        sm.contains_key(t) && 0 <= k1 < k2 < sm[t].frames@.len() ==> st[(t, k1)] < st[(t, k2)]
    &&& forall|t: u32, k: int, i: int, m: int|
        #![trigger frame_contains(sm[t].frames@[k], i), sm[t].nodes@[i].dependencies@[m]]
        sm.contains_key(t) && 0 <= k < sm[t].frames@.len() && frame_contains(sm[t].frames@[k], i)
            && 0 <= i < sm[t].nodes@.len() && 0 <= m < sm[t].nodes@[i].dependencies@.len()
            ==> dep_in_earlier_frame(sm, st, t, k, sm[t].nodes@[i].dependencies@[m])
}

/// The last frame of track `t` was opened after every frame of the other tracks.
pub open spec fn newest_frame(sm: Map<u32, TrackSchedule>, st: Map<(u32, int), nat>, t: u32) -> bool {
    &&& sm[t].frames@.len() > 0
    &&& forall|t2: u32, k2: int| #![trigger st[(t2, k2)]] sm.contains_key(t2) && t2 != t && 0 <= k2 < sm[t2].frames@.len()
        ==> st[(t2, k2)] < st[(t, sm[t].frames@.len() - 1)]
}

/// Putting node `next` of track `t` into a new frame, or at the end of the last
/// frame of `t` if that one is the newest, keeps the frames stamped; the last
/// frame of `t` is then the newest.
proof fn lemma_stamps_after_schedule(
    osm: Map<u32, TrackSchedule>,
    sm: Map<u32, TrackSchedule>,
    ost: Map<(u32, int), nat>,
    st: Map<(u32, int), nat>,
    ocnt: nat,
    cnt: nat,
    t: u32,
    next: usize,
    new_frame: bool,
    res: Map<(u8, u64), (u32, usize)>,
    added: nat,
)
    requires
        schedule_wf(osm, res, added),
        frames_stamped(osm, ost, ocnt),
        osm.contains_key(t),
        frames_wf(osm[t].frames@),
        next == frames_end(osm[t].frames@),
        next < osm[t].nodes@.len(),
        next < usize::MAX,
        spec_schedulable(osm, t, next as int),
        sm.dom() == osm.dom(),
        forall|t2: u32| #[trigger] sm.contains_key(t2) && t2 != t ==> sm[t2] == osm[t2],
        sm[t].nodes == osm[t].nodes,
        new_frame ==> sm[t].frames@ == osm[t].frames@.push(TrackFrame { start: next, len: 1 })
            && st == ost.insert((t, osm[t].frames@.len() as int), ocnt) && cnt == ocnt + 1,
        !new_frame ==> osm[t].frames@.len() > 0
            && sm[t].frames@ == osm[t].frames@.update(osm[t].frames@.len() - 1,
                TrackFrame { start: osm[t].frames@.last().start, len: (osm[t].frames@.last().len + 1) as usize })
            && st == ost && cnt == ocnt && newest_frame(osm, ost, t),
    ensures
        frames_stamped(sm, st, cnt),
        newest_frame(sm, st, t),
{
    let of = osm[t].frames@;
    let nf = sm[t].frames@;
    let ol = of.len() as int;
    lemma_frames_cover(of);
    if new_frame {
        lemma_frames_push(of, TrackFrame { start: next, len: 1 });
    } else {
        assert(nf.last() == TrackFrame { start: of.last().start, len: (of.last().len + 1) as usize });
    }
    assert(frames_end(nf) == next + 1);
    assert forall|tb: u32| #[trigger] sm.contains_key(tb) implies frames_end(osm[tb].frames@) <= frames_end(sm[tb].frames@) by {
        if tb != t {
            assert(sm[tb] == osm[tb]);
        }
    }
    // Which old frame a frame of the new schedule is, for nodes other than `next`.
    assert forall|ta: u32, k: int, i: int|
        sm.contains_key(ta) && 0 <= k < sm[ta].frames@.len() && #[trigger] frame_contains(sm[ta].frames@[k], i)
            && !(ta == t && i == next)
        implies 0 <= k < osm[ta].frames@.len() && frame_contains(osm[ta].frames@[k], i) by {
        if ta == t {
            if new_frame {
                if k == ol {
                    assert(nf[k] == TrackFrame { start: next, len: 1 });
                    assert(false);
                } else {
                    assert(nf[k] == of[k]);
                }
            } else {
                if k == ol - 1 {
                    assert(frames_end(of) == of.last().start + of.last().len);
                    assert(nf[k] == TrackFrame { start: of.last().start, len: (of.last().len + 1) as usize });
                    assert(of[k] == of.last());
                    assert(i != next);
                    assert(i < of[k].start + of[k].len);
                } else {
                    assert(nf[k] == of[k]);
                }
            }
            assert(osm[ta].frames@ == of);
        } else {
            assert(sm[ta] == osm[ta]);
        }
    }
    // Node `next` lies in the last frame of `t` only.
    assert forall|k: int| 0 <= k < nf.len() && #[trigger] frame_contains(nf[k], next as int) implies k == nf.len() - 1 by {
        if k < nf.len() - 1 {
            assert(nf[k] == of[k]);
            assert(of[k].start + of[k].len <= frames_end(of));
        }
    }
    assert forall|t2: u32, k: int| #![trigger st.contains_key((t2, k))] #![trigger st[(t2, k)]] sm.contains_key(t2) && 0 <= k < sm[t2].frames@.len()
        implies st.contains_key((t2, k)) && st[(t2, k)] < cnt by {
        if t2 == t {
            if new_frame && k == ol {
                assert(st[(t2, k)] == ocnt);
            } else {
                assert(0 <= k < of.len());
                assert(osm[t].frames@[k] == of[k]);
                assert(ost[(t, k)] < ocnt && ost.contains_key((t, k)));
                assert(st[(t2, k)] == ost[(t2, k)]);
            }
        } else {
            assert(sm[t2] == osm[t2]);
            assert(osm[t2].frames@[k] == sm[t2].frames@[k]);
            assert(ost[(t2, k)] < ocnt && ost.contains_key((t2, k)));
            assert(st[(t2, k)] == ost[(t2, k)]);
        }
        assert(st.contains_key((t2, k)));
        assert(st[(t2, k)] < cnt);
    }
    assert forall|t2: u32, k1: int, k2: int| #![trigger st[(t2, k1)], st[(t2, k2)]]
        sm.contains_key(t2) && 0 <= k1 < k2 < sm[t2].frames@.len() implies st[(t2, k1)] < st[(t2, k2)] by {
        if t2 == t {
            assert(osm[t].frames@[k1] == of[k1]);
            if !(new_frame && k2 == ol) {
                assert(osm[t].frames@[k2] == of[k2]);
            }
        } else {
            assert(sm[t2] == osm[t2]);
            assert(osm[t2].frames@[k1] == sm[t2].frames@[k1] && osm[t2].frames@[k2] == sm[t2].frames@[k2]);
        }
    }
    assert forall|ta: u32, k: int, i: int, m: int|
        #![trigger frame_contains(sm[ta].frames@[k], i), sm[ta].nodes@[i].dependencies@[m]]
        sm.contains_key(ta) && 0 <= k < sm[ta].frames@.len() && frame_contains(sm[ta].frames@[k], i)
            && 0 <= i < sm[ta].nodes@.len() && 0 <= m < sm[ta].nodes@[i].dependencies@.len()
        implies dep_in_earlier_frame(sm, st, ta, k, sm[ta].nodes@[i].dependencies@[m]) by {
        assert(sm[ta].nodes == osm[ta].nodes);
        let d = sm[ta].nodes@[i].dependencies@[m];
        assert(d == osm[ta].nodes@[i].dependencies@[m]);
        assert(dep_ok(osm, ta, i, osm[ta].nodes@[i].dependencies@[m]));
        if ta == t && i == next {
            assert(k == nf.len() - 1);
            match d.participant {
                DepPart::Import => {},
                DepPart::Scheduled { track: tb, node_idx: j } => {
                    assert(j < frames_end(osm[tb.0].frames@));
                    if tb.0 == t {
                        if new_frame {
                            lemma_frames_push(of, TrackFrame { start: next, len: 1 });
                        }
                    } else {
                        assert(sm[tb.0] == osm[tb.0]);
                        assert forall|k2: int| 0 <= k2 < sm[tb.0].frames@.len()
                            && #[trigger] frame_contains(sm[tb.0].frames@[k2], j as int) implies st[(tb.0, k2)] < st[(ta, k)] by {
                            assert(osm[tb.0].frames@[k2] == sm[tb.0].frames@[k2]);
                        }
                    }
                },
            }
        } else {
            assert(0 <= k < osm[ta].frames@.len() && frame_contains(osm[ta].frames@[k], i));
            assert(dep_in_earlier_frame(osm, ost, ta, k, d));
            match d.participant {
                DepPart::Import => {},
                DepPart::Scheduled { track: tb, node_idx: j } => {
                    if tb.0 == t {
                        if new_frame {
                            lemma_frames_push(of, TrackFrame { start: next, len: 1 });
                        }
                    } else {
                        assert(sm[tb.0] == osm[tb.0]);
                    }
                    if tb.0 != ta {
                        assert forall|k2: int| 0 <= k2 < sm[tb.0].frames@.len()
                            && #[trigger] frame_contains(sm[tb.0].frames@[k2], j as int) implies st[(tb.0, k2)] < st[(ta, k)] by {
                            if tb.0 == t {
                                assert(j < next);
                            }
                            assert(0 <= k2 < osm[tb.0].frames@.len() && frame_contains(osm[tb.0].frames@[k2], j as int));
                        }
                    }
                },
            }
        }
    }
    assert forall|t2: u32, k2: int| #![trigger st[(t2, k2)]] sm.contains_key(t2) && t2 != t && 0 <= k2 < sm[t2].frames@.len()
        implies st[(t2, k2)] < st[(t, sm[t].frames@.len() - 1)] by {
        assert(sm[t2] == osm[t2]);
        assert(osm[t2].frames@[k2] == sm[t2].frames@[k2]);
    }
}

/// The dependency a task gets for resource `r`, given where resources were used last.
pub open spec fn dep_for(res: Map<(u8, u64), (u32, usize)>, r: AnyResKey) -> Dependency {
    if res.contains_key(res_code(r)) {
        Dependency {
            participant: DepPart::Scheduled {
                track: TrackId(res[res_code(r)].0),
                node_idx: res[res_code(r)].1,
            },
            dep: r,
        }
    } else {
        Dependency { participant: DepPart::Import, dep: r }
    }
}

/// The resources of a new task for which node `(t2, j)` was the last user.
pub open spec fn last_used_at(res: Map<(u8, u64), (u32, usize)>, t2: u32, j: int) -> spec_fn(AnyResKey) -> bool {
    |r: AnyResKey| res.contains_key(res_code(r)) && res[res_code(r)].0 == t2 && res[res_code(r)].1 as int == j
}

/// The dependee entry for resource `r` of the task at node `(t, n)`.
pub open spec fn dependee_entry(t: u32, n: usize) -> spec_fn(AnyResKey) -> Dependency {
    |r: AnyResKey| Dependency { participant: DepPart::Scheduled { track: TrackId(t), node_idx: n }, dep: r }
}

/// The dependees node `(t2, j)` gains when node `(t, n)` is added with resources `rs`.
pub open spec fn new_dependees(
    res: Map<(u8, u64), (u32, usize)>,
    rs: Seq<AnyResKey>,
    t2: u32,
    j: int,
    t: u32,
    n: usize,
) -> Seq<Dependency> {
    rs.filter(last_used_at(res, t2, j)).map_values(dependee_entry(t, n))
}

/// `t` is a track that `track_for_usage` may pick for `usage`.
pub open spec fn fitting_track(dom: Set<u32>, usage: u32, t: u32) -> bool {
    &&& dom.contains(t)
    &&& exists|k: int| 0 <= k < 8 && masked_caps(t) == (usage | cap_precedence(k))
        && forall|k2: int| 0 <= k2 < k ==> !usage_matches_at(dom, usage, k2)
}

/// The node, apart from its dependees, is the same.
pub open spec fn same_node_except_dependees(a: TaskNode, b: TaskNode) -> bool {
    a.task == b.task && a.dependencies@ == b.dependencies@ && a.order == b.order
}

/// Adding task `task` as node `n` of track `t` turned the schedule `(osm, ores)` into `(sm, res)`.
pub open spec fn task_added(
    osm: Map<u32, TrackSchedule>,
    ores: Map<(u8, u64), (u32, usize)>,
    oadded: nat,
    sm: Map<u32, TrackSchedule>,
    res: Map<(u8, u64), (u32, usize)>,
    added: nat,
    t: u32,
    task: TaskRecord,
) -> bool {
    let n = osm[t].nodes@.len();
    let rs = task.resources@;
    &&& sm.dom() == osm.dom()
    &&& added == oadded + 1
    &&& forall|t2: u32| #[trigger] sm.contains_key(t2) ==> sm[t2].frames@ == osm[t2].frames@
    &&& forall|t2: u32| #[trigger] sm.contains_key(t2) && t2 != t ==> sm[t2].nodes@.len() == osm[t2].nodes@.len()
    &&& sm[t].nodes@.len() == n + 1
    &&& forall|t2: u32, j: int|
        #![trigger sm[t2].nodes@[j]]
        valid_loc(osm, t2, j) ==> same_node_except_dependees(osm[t2].nodes@[j], sm[t2].nodes@[j])
            && sm[t2].nodes@[j].dependees@ == osm[t2].nodes@[j].dependees@ + new_dependees(ores, rs, t2, j, t, n as usize)
    &&& sm[t].nodes@[n as int].task == task
    &&& sm[t].nodes@[n as int].order@ == oadded
    &&& sm[t].nodes@[n as int].dependees@.len() == 0
    &&& sm[t].nodes@[n as int].dependencies@ == rs.map_values(|r: AnyResKey| dep_for(ores, r))
    &&& forall|c: (u8, u64)| #[trigger] res.contains_key(c) <==> (ores.contains_key(c) || exists|p: int|
        0 <= p < rs.len() && res_code(#[trigger] rs[p]) == c)
    &&& forall|c: (u8, u64)| #[trigger] res.contains_key(c) ==> res[c] == (if exists|p: int|
        0 <= p < rs.len() && res_code(#[trigger] rs[p]) == c { (t, n as usize) } else { ores[c] })
}

impl TrackSchedule {
    /// Records `d` as dependee of node `j`.
    fn push_dependee(&mut self, j: usize, d: Dependency)
        requires
            j < old(self).nodes@.len(),
        ensures
            final(self).frames == old(self).frames,
            final(self).nodes@.len() == old(self).nodes@.len(),
            forall|i: int| 0 <= i < old(self).nodes@.len() && i != j ==> #[trigger] final(self).nodes@[i] == old(self).nodes@[i],
            same_node_except_dependees(old(self).nodes@[j as int], final(self).nodes@[j as int]),
            final(self).nodes@[j as int].dependees@ == old(self).nodes@[j as int].dependees@.push(d),
    {
        self.nodes[j].dependees.push(d);
    }
}

/// The dependees that adding one more resource brings.
proof fn lemma_new_dependees_step(
    ores: Map<(u8, u64), (u32, usize)>,
    rs: Seq<AnyResKey>,
    i: int,
    t2: u32,
    j: int,
    t: u32,
    n: usize,
)
    requires
        0 <= i < rs.len(),
    ensures
        new_dependees(ores, rs.take(i + 1), t2, j, t, n) == new_dependees(ores, rs.take(i), t2, j, t, n) + (
        if ores.contains_key(res_code(rs[i])) && ores[res_code(rs[i])].0 == t2 && ores[res_code(rs[i])].1 as int == j {
            seq![Dependency { participant: DepPart::Scheduled { track: TrackId(t), node_idx: n }, dep: rs[i] }]
        } else {
            Seq::<Dependency>::empty()
        }),
{
    let pred = last_used_at(ores, t2, j);
    let f = dependee_entry(t, n);
    let pre = rs.take(i + 1);
    assert(pre.drop_last() == rs.take(i));
    assert(pre.last() == rs[i]);
    reveal_with_fuel(Seq::filter, 1);
    assert(pre.filter(pred) == if pred(rs[i]) {
        rs.take(i).filter(pred).push(rs[i])
    } else {
        rs.take(i).filter(pred)
    });
    if pred(rs[i]) {
        assert(rs.take(i).filter(pred).push(rs[i]).map_values(f) =~= rs.take(i).filter(pred).map_values(f).push(f(rs[i])));
        assert(rs.take(i).filter(pred).map_values(f).push(f(rs[i])) =~= rs.take(i).filter(pred).map_values(f) + seq![f(rs[i])]);
    } else {
        assert(rs.take(i).filter(pred).map_values(f) =~= rs.take(i).filter(pred).map_values(f) + Seq::<Dependency>::empty());
    }
}

/// Node `(t, i)` can be scheduled: every task it depends on is in a frame.
pub open spec fn spec_schedulable(sm: Map<u32, TrackSchedule>, t: u32, i: int) -> bool {
    forall|k: int| 0 <= k < sm[t].nodes@[i].dependencies@.len() ==> match #[trigger] sm[t].nodes@[i].dependencies@[k].participant {
        DepPart::Import => true,
        DepPart::Scheduled { track, node_idx } => node_idx < frames_end(sm[track.0].frames@),
    }
}

/// Track `t` has nodes that are in no frame.
pub open spec fn has_unsched(sm: Map<u32, TrackSchedule>, t: u32) -> bool {
    frames_end(sm[t].frames@) < sm[t].nodes@.len()
}

/// Number of nodes in no frame, summed over the tracks `ks`.
pub open spec fn total_unscheduled(sm: Map<u32, TrackSchedule>, ks: Seq<u32>) -> nat
    decreases ks.len(),
{
    if ks.len() == 0 {
        0
    } else {
        total_unscheduled(sm, ks.drop_last()) + (sm[ks.last()].nodes@.len() - frames_end(sm[ks.last()].frames@)) as nat
    }
}

/// Among the tracks `ks` with unscheduled nodes, one whose first unscheduled
/// node was added earliest.
pub open spec fn earliest_unscheduled(sm: Map<u32, TrackSchedule>, ks: Seq<u32>) -> Option<u32>
    decreases ks.len(),
{
    if ks.len() == 0 {
        None
    } else {
        let b = earliest_unscheduled(sm, ks.drop_last());
        let t = ks.last();
        if has_unsched(sm, t) && (b is None || node_order(sm, t, frames_end(sm[t].frames@))
            < node_order(sm, b->0, frames_end(sm[b->0].frames@))) {
            Some(t)
        } else {
            b
        }
    }
}

proof fn lemma_earliest_unscheduled(sm: Map<u32, TrackSchedule>, ks: Seq<u32>)
    ensures
        earliest_unscheduled(sm, ks) is None <==> (forall|i: int| 0 <= i < ks.len() ==> !has_unsched(sm, #[trigger] ks[i])),
        earliest_unscheduled(sm, ks) matches Some(b) ==> ks.contains(b) && has_unsched(sm, b)
            && forall|i: int| 0 <= i < ks.len() && has_unsched(sm, #[trigger] ks[i])
                ==> node_order(sm, b, frames_end(sm[b].frames@)) <= node_order(sm, ks[i], frames_end(sm[ks[i]].frames@)),
    decreases ks.len(),
{
    if ks.len() > 0 {
        let init = ks.drop_last();
        lemma_earliest_unscheduled(sm, init);
        let t = ks.last();
        let b0 = earliest_unscheduled(sm, init);
        assert forall|i: int| 0 <= i < init.len() implies #[trigger] init[i] == ks[i] by {}
        assert(ks[ks.len() - 1] == t);
        let take_t = has_unsched(sm, t) && (b0 is None || node_order(sm, t, frames_end(sm[t].frames@))
            < node_order(sm, b0->0, frames_end(sm[b0->0].frames@)));
        if take_t {
            assert(earliest_unscheduled(sm, ks) == Some(t));
            assert forall|i: int| 0 <= i < ks.len() && has_unsched(sm, #[trigger] ks[i])
                implies node_order(sm, t, frames_end(sm[t].frames@)) <= node_order(sm, ks[i], frames_end(sm[ks[i]].frames@)) by {
                if i < init.len() {
                    assert(init[i] == ks[i]);
                    assert(has_unsched(sm, init[i]));
                }
            }
        } else {
            assert(earliest_unscheduled(sm, ks) == b0);
            if let Some(b) = b0 {
                let w = choose|w: int| 0 <= w < init.len() && init[w] == b;
                assert(ks[w] == b);
                assert forall|i: int| 0 <= i < ks.len() && has_unsched(sm, #[trigger] ks[i])
                    implies node_order(sm, b, frames_end(sm[b].frames@)) <= node_order(sm, ks[i], frames_end(sm[ks[i]].frames@)) by {
                    if i < init.len() {
                        assert(init[i] == ks[i]);
                        assert(has_unsched(sm, init[i]));
                    }
                }
            } else {
                assert forall|i: int| 0 <= i < ks.len() implies !has_unsched(sm, #[trigger] ks[i]) by {
                    if i < init.len() {
                        assert(init[i] == ks[i]);
                    }
                }
            }
        }
    }
}

/// The unscheduled total shrinks when no track loses coverage and one gains.
proof fn lemma_total_unscheduled_decreases(a: Map<u32, TrackSchedule>, b: Map<u32, TrackSchedule>, ks: Seq<u32>, w: u32)
    requires
        ks.no_duplicates(),
        forall|i: int| 0 <= i < ks.len() ==> b[#[trigger] ks[i]].nodes@.len() == a[ks[i]].nodes@.len()
            && frames_end(a[ks[i]].frames@) <= frames_end(b[ks[i]].frames@) <= b[ks[i]].nodes@.len(),
    ensures
        total_unscheduled(b, ks) <= total_unscheduled(a, ks),
        ks.contains(w) && frames_end(a[w].frames@) < frames_end(b[w].frames@)
            ==> total_unscheduled(b, ks) < total_unscheduled(a, ks),
    decreases ks.len(),
{
    if ks.len() > 0 {
        let init = ks.drop_last();
        assert forall|i: int| 0 <= i < init.len() implies #[trigger] init[i] == ks[i] by {}
        lemma_total_unscheduled_decreases(a, b, init, w);
        assert(ks[ks.len() - 1] == ks.last());
        if ks.contains(w) && w != ks.last() {
            let i = choose|i: int| 0 <= i < ks.len() && ks[i] == w;
            assert(init[i] == w);
        }
    }
}

/// The first unscheduled node of the track whose first unscheduled node was
/// added earliest depends only on nodes that are in frames, and stays so while
/// frames only grow.
proof fn lemma_earliest_is_schedulable(
    sm0: Map<u32, TrackSchedule>,
    sm: Map<u32, TrackSchedule>,
    res: Map<(u8, u64), (u32, usize)>,
    added: nat,
    ks: Seq<u32>,
    tx: u32,
)
    requires
        schedule_wf(sm0, res, added),
        ks.to_set() == sm0.dom(),
        earliest_unscheduled(sm0, ks) == Some(tx),
        sm.dom() == sm0.dom(),
        forall|t: u32| #[trigger] sm.contains_key(t) ==> sm[t].nodes == sm0[t].nodes
            && frames_end(sm0[t].frames@) <= frames_end(sm[t].frames@),
    ensures
        spec_schedulable(sm, tx, frames_end(sm0[tx].frames@)),
{
    lemma_earliest_unscheduled(sm0, ks);
    let ix = frames_end(sm0[tx].frames@);
    assert(ks.to_set().contains(tx));
    assert(track_wf(sm0[tx]));
    lemma_frames_cover(sm0[tx].frames@);
    let node = sm0[tx].nodes@[ix];
    assert(sm[tx].nodes@[ix] == node);
    assert forall|k: int| 0 <= k < sm[tx].nodes@[ix].dependencies@.len() implies match #[trigger] sm[tx].nodes@[ix].dependencies@[k].participant {
        DepPart::Import => true,
        DepPart::Scheduled { track, node_idx } => node_idx < frames_end(sm[track.0].frames@),
    } by {
        let d = sm0[tx].nodes@[ix].dependencies@[k];
        assert(valid_loc(sm0, tx, ix));
        assert(dep_ok(sm0, tx, ix, d));
        match d.participant {
            DepPart::Import => {},
            DepPart::Scheduled { track, node_idx } => {
                let t2 = track.0;
                let j = node_idx as int;
                assert(sm0.contains_key(t2));
                assert(track_wf(sm0[t2]));
                lemma_frames_cover(sm0[t2].frames@);
                let f2 = frames_end(sm0[t2].frames@);
                if j >= f2 {
                    assert(has_unsched(sm0, t2));
                    assert(ks.to_set().contains(t2));
                    let w = choose|w: int| 0 <= w < ks.len() && ks[w] == t2;
                    assert(has_unsched(sm0, ks[w]));
                    assert(node_order(sm0, tx, ix) <= node_order(sm0, t2, f2));
                    if f2 < j {
                        assert(sm0[t2].nodes@[f2] == sm0[t2].nodes@[f2] && sm0[t2].nodes@[j] == sm0[t2].nodes@[j]);
                        assert(node_order(sm0, t2, f2) < node_order(sm0, t2, j));
                    }
                    assert(false);
                }
                assert(sm.contains_key(t2));
            },
        }
    }
}

/// The task of `recs` before index `i` that used `r` last, if any.
pub open spec fn last_user(recs: Seq<TaskRecord>, i: int, r: AnyResKey) -> Option<int>
    decreases i,
{
    if i <= 0 {
        None
    } else if recs[i - 1].resources@.contains(r) {
        Some(i - 1)
    } else {
        last_user(recs, i - 1, r)
    }
}

/// How many of the first `i` tasks went to track `t`.
pub open spec fn count_on(assign: Seq<u32>, i: int, t: u32) -> nat
    decreases i,
{
    if i <= 0 {
        0
    } else {
        count_on(assign, i - 1, t) + (if assign[i - 1] == t { 1nat } else { 0nat })
    }
}

/// Where task `p` stands when the tasks go to the tracks `assign`: its track
/// and its index among that track's nodes.
pub open spec fn task_loc(assign: Seq<u32>, p: int) -> (u32, int) {
    (assign[p], count_on(assign, p, assign[p]) as int)
}

/// The dependency task `i` has for its resource `r`: on the task that used
/// `r` last, or an import if no task before used it.
pub open spec fn expected_dep(recs: Seq<TaskRecord>, assign: Seq<u32>, i: int, r: AnyResKey) -> Dependency {
    match last_user(recs, i, r) {
        Some(p) => Dependency {
            participant: DepPart::Scheduled {
                track: TrackId(task_loc(assign, p).0),
                node_idx: task_loc(assign, p).1 as usize,
            },
            dep: r,
        },
        None => Dependency { participant: DepPart::Import, dep: r },
    }
}

/// The dependees task `p` has once the first `n` tasks are added: for each
/// later task, in order, and each of its resources that it used after `p`
/// used it last, a dependee entry for that task.
pub open spec fn expected_dependees(recs: Seq<TaskRecord>, assign: Seq<u32>, p: int, n: int) -> Seq<Dependency>
    decreases n - p,
{
    if n <= p + 1 {
        Seq::empty()
    } else {
        expected_dependees(recs, assign, p, n - 1) + recs[n - 1].resources@.filter(
            |r: AnyResKey| last_user(recs, n - 1, r) == Some(p),
        ).map_values(
            |r: AnyResKey| Dependency {
                participant: DepPart::Scheduled {
                    track: TrackId(task_loc(assign, n - 1).0),
                    node_idx: task_loc(assign, n - 1).1 as usize,
                },
                dep: r,
            },
        )
    }
}

/// No track fits `usage`.
pub open spec fn no_fitting_track(dom: Set<u32>, usage: u32) -> bool {
    forall|k: int| 0 <= k < 8 ==> !usage_matches_at(dom, usage, k)
}

/// The schedule `(sm, res)` holds the first `n` tasks of `recs`, task `p` on
/// track `assign[p]`: every node at its place with its dependencies and
/// dependees, every resource resident with its last user.
pub open spec fn holds_tasks(
    sm: Map<u32, TrackSchedule>,
    res: Map<(u8, u64), (u32, usize)>,
    recs: Seq<TaskRecord>,
    assign: Seq<u32>,
    n: int,
) -> bool {
    &&& assign.len() == n
    &&& forall|t: u32| #[trigger] sm.contains_key(t) ==> sm[t].nodes@.len() == count_on(assign, n, t)
    &&& forall|p: int| #![trigger assign[p]] 0 <= p < n ==> {
        let (t, j) = task_loc(assign, p);
        &&& valid_loc(sm, t, j)
        &&& sm[t].nodes@[j].task == recs[p]
        &&& sm[t].nodes@[j].dependencies@ == recs[p].resources@.map_values(|r: AnyResKey| expected_dep(recs, assign, p, r))
        &&& sm[t].nodes@[j].dependees@ == expected_dependees(recs, assign, p, n)
    }
    &&& forall|r: AnyResKey| #[trigger] res.contains_key(res_code(r)) <==> last_user(recs, n, r) is Some
    &&& forall|r: AnyResKey| #[trigger] res.contains_key(res_code(r)) ==> res[res_code(r)] == (
        task_loc(assign, last_user(recs, n, r)->0).0, task_loc(assign, last_user(recs, n, r)->0).1 as usize)
}

proof fn lemma_count_on_push(assign: Seq<u32>, x: u32, i: int, t: u32)
    requires
        0 <= i <= assign.len(),
    ensures
        count_on(assign.push(x), i, t) == count_on(assign, i, t),
    decreases i,
{
    if i > 0 {
        lemma_count_on_push(assign, x, i - 1, t);
    }
}

proof fn lemma_count_on_strict(assign: Seq<u32>, p: int, q: int, t: u32)
    requires
        0 <= p < q <= assign.len(),
        assign[p] == t,
    ensures
        count_on(assign, p, t) < count_on(assign, q, t),
    decreases q,
{
    if q - 1 > p {
        lemma_count_on_strict(assign, p, q - 1, t);
    }
}

proof fn lemma_task_loc_injective(assign: Seq<u32>, p: int, q: int)
    requires
        0 <= p < assign.len(),
        0 <= q < assign.len(),
        task_loc(assign, p) == task_loc(assign, q),
    ensures
        p == q,
{
    if p < q {
        lemma_count_on_strict(assign, p, q, assign[p]);
    } else if q < p {
        lemma_count_on_strict(assign, q, p, assign[q]);
    }
}

proof fn lemma_filter_same_pred(s: Seq<AnyResKey>, a: spec_fn(AnyResKey) -> bool, b: spec_fn(AnyResKey) -> bool)
    requires
        forall|i: int| 0 <= i < s.len() ==> a(#[trigger] s[i]) == b(s[i]),
    ensures
        s.filter(a) == s.filter(b),
    decreases s.len(),
{
    reveal_with_fuel(Seq::filter, 1);
    if s.len() > 0 {
        let init = s.drop_last();
        assert forall|i: int| 0 <= i < init.len() implies a(#[trigger] init[i]) == b(init[i]) by {
            assert(init[i] == s[i]);
        }
        lemma_filter_same_pred(init, a, b);
        assert(s.last() == s[s.len() - 1]);
    }
}

proof fn lemma_expected_dependees_push(recs: Seq<TaskRecord>, assign: Seq<u32>, x: u32, p: int, m: int)
    requires
        0 <= p,
        m <= assign.len(),
    ensures
        expected_dependees(recs, assign.push(x), p, m) == expected_dependees(recs, assign, p, m),
    decreases m - p,
{
    if m > p + 1 {
        lemma_expected_dependees_push(recs, assign, x, p, m - 1);
        lemma_count_on_push(assign, x, m - 1, assign[m - 1]);
        assert(assign.push(x)[m - 1] == assign[m - 1]);
        assert(task_loc(assign.push(x), m - 1) == task_loc(assign, m - 1));
    }
}

proof fn lemma_last_user_bound(recs: Seq<TaskRecord>, i: int, r: AnyResKey)
    ensures
        last_user(recs, i, r) matches Some(p) ==> 0 <= p < i && recs[p].resources@.contains(r),
        last_user(recs, i, r) is None ==> forall|q: int| 0 <= q < i ==> !(#[trigger] recs[q].resources@.contains(r)),
    decreases i,
{
    if i > 0 {
        lemma_last_user_bound(recs, i - 1, r);
    }
}

/// After adding task `k`, an earlier task `p` still stands at its place, with
/// its dependees grown by those of task `k`.
proof fn lemma_holds_tasks_step_old(
    osm: Map<u32, TrackSchedule>,
    ores: Map<(u8, u64), (u32, usize)>,
    oadded: nat,
    sm: Map<u32, TrackSchedule>,
    res: Map<(u8, u64), (u32, usize)>,
    added: nat,
    recs: Seq<TaskRecord>,
    assign: Seq<u32>,
    k: int,
    t: u32,
    p: int,
)
    requires
        0 <= p < k < recs.len(),
        holds_tasks(osm, ores, recs, assign, k),
        osm.contains_key(t),
        task_added(osm, ores, oadded, sm, res, added, t, recs[k]),
    ensures
        ({
            let a2 = assign.push(t);
            let (t2, j) = task_loc(a2, p);
            &&& valid_loc(sm, t2, j)
            &&& sm[t2].nodes@[j].task == recs[p]
            &&& sm[t2].nodes@[j].dependencies@ == recs[p].resources@.map_values(|r: AnyResKey| expected_dep(recs, a2, p, r))
            &&& sm[t2].nodes@[j].dependees@ == expected_dependees(recs, a2, p, k + 1)
        }),
{
    let a2 = assign.push(t);
    let rs = recs[k].resources@;
    let n = osm[t].nodes@.len();
    assert(a2[k] == t);
    lemma_count_on_push(assign, t, k, t);
    assert(task_loc(a2, k) == (t, n as int));
    let (t2, j) = task_loc(assign, p);
    assert(assign[p] == assign[p]);
    lemma_count_on_push(assign, t, p, assign[p]);
    assert(a2[p] == assign[p]);
    assert(task_loc(a2, p) == task_loc(assign, p));
    assert(valid_loc(osm, t2, j));
    assert(sm[t2].nodes@[j] == sm[t2].nodes@[j]);
    assert forall|i: int| 0 <= i < recs[p].resources@.len() implies #[trigger] expected_dep(recs, assign, p, recs[p].resources@[i])
        == expected_dep(recs, a2, p, recs[p].resources@[i]) by {
        let r = recs[p].resources@[i];
        lemma_last_user_bound(recs, p, r);
        if let Some(q) = last_user(recs, p, r) {
            assert(assign[q] == assign[q]);
            lemma_count_on_push(assign, t, q, assign[q]);
            assert(a2[q] == assign[q]);
        }
    }
    assert(recs[p].resources@.map_values(|r: AnyResKey| expected_dep(recs, assign, p, r))
        =~= recs[p].resources@.map_values(|r: AnyResKey| expected_dep(recs, a2, p, r)));
    lemma_expected_dependees_push(recs, assign, t, p, k);
    let pred1 = last_used_at(ores, t2, j);
    let pred2 = |r: AnyResKey| last_user(recs, k, r) == Some(p);
    assert forall|i: int| 0 <= i < rs.len() implies pred1(#[trigger] rs[i]) == pred2(rs[i]) by {
        let r = rs[i];
        lemma_last_user_bound(recs, k, r);
        if let Some(q) = last_user(recs, k, r) {
            let (tq, jq) = task_loc(assign, q);
            assert(assign[q] == assign[q]);
            assert(valid_loc(osm, tq, jq));
            assert(osm[tq].nodes.len() as int == osm[tq].nodes@.len());
            assert(ores.contains_key(res_code(r)));
            assert(ores[res_code(r)] == (tq, jq as usize));
            if pred1(r) {
                lemma_task_loc_injective(assign, p, q);
            }
        } else {
            assert(!ores.contains_key(res_code(r)));
        }
    }
    lemma_filter_same_pred(rs, pred1, pred2);
    assert(osm[t2].nodes.len() as int == osm[t2].nodes@.len());
    assert(osm[t].nodes.len() as int == osm[t].nodes@.len());
    let f1 = dependee_entry(t, n as usize);
    let f2 = |r: AnyResKey| Dependency {
        participant: DepPart::Scheduled { track: TrackId(task_loc(a2, k).0), node_idx: task_loc(a2, k).1 as usize },
        dep: r,
    };
    assert(new_dependees(ores, rs, t2, j, t, n as usize) == rs.filter(pred1).map_values(f1));
    assert(rs.filter(pred2).map_values(f1) =~= rs.filter(pred2).map_values(f2));
    assert(expected_dependees(recs, a2, p, k + 1) == expected_dependees(recs, a2, p, k) + rs.filter(pred2).map_values(f2));
    assert(osm[t2].nodes@[j].dependees@ == expected_dependees(recs, assign, p, k));
}

/// After adding task `k`, the task itself stands at its place with the
/// dependencies on the last users of its resources.
proof fn lemma_holds_tasks_step_new(
    osm: Map<u32, TrackSchedule>,
    ores: Map<(u8, u64), (u32, usize)>,
    oadded: nat,
    sm: Map<u32, TrackSchedule>,
    res: Map<(u8, u64), (u32, usize)>,
    added: nat,
    recs: Seq<TaskRecord>,
    assign: Seq<u32>,
    k: int,
    t: u32,
)
    requires
        0 <= k < recs.len(),
        holds_tasks(osm, ores, recs, assign, k),
        osm.contains_key(t),
        task_added(osm, ores, oadded, sm, res, added, t, recs[k]),
    ensures
        ({
            let a2 = assign.push(t);
            let (t2, j) = task_loc(a2, k);
            &&& valid_loc(sm, t2, j)
            &&& sm[t2].nodes@[j].task == recs[k]
            &&& sm[t2].nodes@[j].dependencies@ == recs[k].resources@.map_values(|r: AnyResKey| expected_dep(recs, a2, k, r))
            &&& sm[t2].nodes@[j].dependees@ == expected_dependees(recs, a2, k, k + 1)
        }),
{
    let a2 = assign.push(t);
    let rs = recs[k].resources@;
    let n = osm[t].nodes@.len();
    assert(a2[k] == t);
    lemma_count_on_push(assign, t, k, t);
    assert(task_loc(a2, k) == (t, n as int));
    assert forall|i: int| 0 <= i < rs.len() implies #[trigger] dep_for(ores, rs[i]) == expected_dep(recs, a2, k, rs[i]) by {
        let r = rs[i];
        lemma_last_user_bound(recs, k, r);
        if let Some(q) = last_user(recs, k, r) {
            assert(assign[q] == assign[q]);
            lemma_count_on_push(assign, t, q, assign[q]);
            assert(a2[q] == assign[q]);
            assert(ores.contains_key(res_code(r)));
        } else {
            assert(!ores.contains_key(res_code(r)));
        }
    }
    assert(rs.map_values(|r: AnyResKey| dep_for(ores, r)) =~= rs.map_values(|r: AnyResKey| expected_dep(recs, a2, k, r)));
}

/// Adding the next task keeps the schedule holding exactly the tasks added so far.
proof fn lemma_holds_tasks_step(
    osm: Map<u32, TrackSchedule>,
    ores: Map<(u8, u64), (u32, usize)>,
    oadded: nat,
    sm: Map<u32, TrackSchedule>,
    res: Map<(u8, u64), (u32, usize)>,
    added: nat,
    recs: Seq<TaskRecord>,
    assign: Seq<u32>,
    k: int,
    t: u32,
)
    requires
        0 <= k < recs.len(),
        holds_tasks(osm, ores, recs, assign, k),
        osm.contains_key(t),
        task_added(osm, ores, oadded, sm, res, added, t, recs[k]),
    ensures
        holds_tasks(sm, res, recs, assign.push(t), k + 1),
{
    let a2 = assign.push(t);
    let rs = recs[k].resources@;
    assert forall|t2: u32| #[trigger] sm.contains_key(t2) implies sm[t2].nodes@.len() == count_on(a2, k + 1, t2) by {
        lemma_count_on_push(assign, t, k, t2);
        assert(a2[k] == t);
    }
    assert forall|p: int| #![trigger a2[p]] 0 <= p < k + 1 implies {
        let (t2, j) = task_loc(a2, p);
        &&& valid_loc(sm, t2, j)
        &&& sm[t2].nodes@[j].task == recs[p]
        &&& sm[t2].nodes@[j].dependencies@ == recs[p].resources@.map_values(|r: AnyResKey| expected_dep(recs, a2, p, r))
        &&& sm[t2].nodes@[j].dependees@ == expected_dependees(recs, a2, p, k + 1)
    } by {
        if p == k {
            lemma_holds_tasks_step_new(osm, ores, oadded, sm, res, added, recs, assign, k, t);
        } else {
            lemma_holds_tasks_step_old(osm, ores, oadded, sm, res, added, recs, assign, k, t, p);
        }
    }
    lemma_holds_tasks_step_res(osm, ores, oadded, sm, res, added, recs, assign, k, t);
}

/// After adding task `k`, every resource is resident with its last user.
proof fn lemma_holds_tasks_step_res(
    osm: Map<u32, TrackSchedule>,
    ores: Map<(u8, u64), (u32, usize)>,
    oadded: nat,
    sm: Map<u32, TrackSchedule>,
    res: Map<(u8, u64), (u32, usize)>,
    added: nat,
    recs: Seq<TaskRecord>,
    assign: Seq<u32>,
    k: int,
    t: u32,
)
    requires
        0 <= k < recs.len(),
        holds_tasks(osm, ores, recs, assign, k),
        osm.contains_key(t),
        task_added(osm, ores, oadded, sm, res, added, t, recs[k]),
    ensures
        forall|r: AnyResKey| #[trigger] res.contains_key(res_code(r)) <==> last_user(recs, k + 1, r) is Some,
        forall|r: AnyResKey| #[trigger] res.contains_key(res_code(r)) ==> res[res_code(r)] == (
            task_loc(assign.push(t), last_user(recs, k + 1, r)->0).0,
            task_loc(assign.push(t), last_user(recs, k + 1, r)->0).1 as usize),
{
    let a2 = assign.push(t);
    let rs = recs[k].resources@;
    let n = osm[t].nodes@.len();
    assert(a2[k] == t);
    lemma_count_on_push(assign, t, k, t);
    assert(task_loc(a2, k) == (t, n as int));
    assert forall|r: AnyResKey| #[trigger] res.contains_key(res_code(r)) <==> last_user(recs, k + 1, r) is Some by {
        lemma_last_user_bound(recs, k, r);
        if rs.contains(r) {
            let i = choose|i: int| 0 <= i < rs.len() && rs[i] == r;
            assert(res_code(rs[i]) == res_code(r));
        } else {
            if exists|i: int| 0 <= i < rs.len() && res_code(#[trigger] rs[i]) == res_code(r) {
                let i = choose|i: int| 0 <= i < rs.len() && res_code(#[trigger] rs[i]) == res_code(r);
                crate::res_states::lemma_res_code_injective(rs[i], r);
            }
            if ores.contains_key(res_code(r)) {
            }
        }
    }
    assert forall|r: AnyResKey| #[trigger] res.contains_key(res_code(r)) implies res[res_code(r)] == (
        task_loc(a2, last_user(recs, k + 1, r)->0).0, task_loc(a2, last_user(recs, k + 1, r)->0).1 as usize) by {
        lemma_last_user_bound(recs, k, r);
        if rs.contains(r) {
            let i = choose|i: int| 0 <= i < rs.len() && rs[i] == r;
            assert(res_code(rs[i]) == res_code(r));
        } else {
            if exists|i: int| 0 <= i < rs.len() && res_code(#[trigger] rs[i]) == res_code(r) {
                let i = choose|i: int| 0 <= i < rs.len() && res_code(#[trigger] rs[i]) == res_code(r);
                crate::res_states::lemma_res_code_injective(rs[i], r);
            }
            assert(ores.contains_key(res_code(r)));
            let q = last_user(recs, k, r)->0;
            assert(assign[q] == assign[q]);
            lemma_count_on_push(assign, t, q, assign[q]);
            assert(a2[q] == assign[q]);
        }
    }
}

/// `s` is a complete schedule of the records `recs` on the tracks `dom`: it
/// is well formed and stamped, has a schedule for each track, every node is
/// in a frame, and some assignment of records to fitting tracks puts each
/// record, in order, on its track with the dependencies and dependees it needs.
pub open spec fn schedules_records(s: TaskSchedule, dom: Set<u32>, recs: Seq<TaskRecord>) -> bool {
    let sm = schedule_map(s.tracks);
    &&& s.wf()
    &&& frames_stamped(sm, s.frame_stamps@, s.stamp_count@)
    &&& sm.dom() == dom
    &&& forall|t: u32| #[trigger] sm.contains_key(t) ==> frames_end(sm[t].frames@) == sm[t].nodes@.len()
    &&& exists|assign: Seq<u32>|
        (forall|i: int| 0 <= i < recs.len() ==> #[trigger] fitting_track(dom, recs[i].queue_flags, assign[i]))
        && holds_tasks(sm, residency_map(s.resource_residency), recs, assign, recs.len() as int)
}

impl TaskSchedule {
    /// The invariant of this schedule.
    pub open spec fn wf(&self) -> bool {
        schedule_wf(schedule_map(self.tracks), residency_map(self.resource_residency), self.added@)
    }

    /// Adds `task` to the track that fits its queue flags best. For each
    /// resource the task uses, it depends on the task that used the resource
    /// last, which gets the new task as dependee; a resource seen for the first
    /// time is an import. The resource then resides with the new task.
    fn add_task(&mut self, tracks: &Tracks, task: TaskRecord) -> (r: Result<(), RecordError>)
        requires
            old(self).wf(),
            schedule_map(old(self).tracks).dom() == track_map(tracks.0).dom(),
            task.resources@.no_duplicates(),
        ensures
            r is Err <==> (forall|k: int| 0 <= k < 8 ==> !usage_matches_at(track_map(tracks.0).dom(), task.queue_flags, k)),
            r is Err ==> r == Err::<(), RecordError>(RecordError::NoFittingTrack(task.queue_flags))
                && schedule_map(final(self).tracks) == schedule_map(old(self).tracks)
                && residency_map(final(self).resource_residency) == residency_map(old(self).resource_residency)
                && final(self).added == old(self).added,
            final(self).wf(),
            r is Ok ==> exists|t: u32| #[trigger] fitting_track(track_map(tracks.0).dom(), task.queue_flags, t)
                && task_added(
                    schedule_map(old(self).tracks), residency_map(old(self).resource_residency), old(self).added@,
                    schedule_map(final(self).tracks), residency_map(final(self).resource_residency), final(self).added@,
                    t, task),
    {
        let node_track = match tracks.track_for_usage(task.queue_flags) {
            Some(t) => t,
            None => {
                return Err(RecordError::NoFittingTrack(task.queue_flags));
            },
        };
        let node_idx = match schedule_map_get(&self.tracks, node_track.0) {
            Some(ts) => ts.nodes.len(),
            None => {
                return Err(RecordError::NoFittingTrack(task.queue_flags));
            },
        };
        let ghost osm = schedule_map(self.tracks);
        let ghost ores = residency_map(self.resource_residency);
        let ghost t = node_track.0;
        let ghost rs = task.resources@;
        let mut dependencies: Vec<Dependency> = Vec::new();
        let n_res = task.resources.len();
        let mut i: usize = 0;
        while i < n_res
            invariant
                n_res == rs.len(),
                rs == task.resources@,
                rs.no_duplicates(),
                i <= n_res,
                self.added == old(self).added,
                osm.contains_key(t),
                node_idx == osm[t].nodes@.len(),
                node_track.0 == t,
                schedule_wf(osm, ores, self.added@),
                schedule_map(self.tracks).dom() == osm.dom(),
                forall|t2: u32| #[trigger] schedule_map(self.tracks).contains_key(t2)
                    ==> schedule_map(self.tracks)[t2].frames@ == osm[t2].frames@
                        && schedule_map(self.tracks)[t2].nodes@.len() == osm[t2].nodes@.len(),
                forall|t2: u32, j: int|
                    #![trigger schedule_map(self.tracks)[t2].nodes@[j]]
                    valid_loc(osm, t2, j) ==> same_node_except_dependees(osm[t2].nodes@[j], schedule_map(self.tracks)[t2].nodes@[j])
                        && schedule_map(self.tracks)[t2].nodes@[j].dependees@ == osm[t2].nodes@[j].dependees@
                            + new_dependees(ores, rs.take(i as int), t2, j, t, node_idx),
                forall|c: (u8, u64)| #[trigger] residency_map(self.resource_residency).contains_key(c)
                    <==> (ores.contains_key(c) || exists|p: int| 0 <= p < i && res_code(#[trigger] rs[p]) == c),
                forall|c: (u8, u64)| #[trigger] residency_map(self.resource_residency).contains_key(c)
                    ==> residency_map(self.resource_residency)[c] == (if exists|p: int| 0 <= p < i && res_code(#[trigger] rs[p]) == c {
                        (t, node_idx)
                    } else {
                        ores[c]
                    }),
                dependencies@ == rs.take(i as int).map_values(|r: AnyResKey| dep_for(ores, r)),
            decreases n_res - i,
        {
            let res = task.resources[i];
            let code = res.code();
            proof {
                assert forall|p: int| 0 <= p < i implies res_code(#[trigger] rs[p]) != code by {
                    assert(rs[p] != rs[i as int]);
                    crate::res_states::lemma_res_code_injective(rs[p], rs[i as int]);
                }
                lemma_new_dependees_step(ores, rs, i as int, 0, 0, t, node_idx);
            }
            let ghost res0 = residency_map(self.resource_residency);
            proof {
                if res0.contains_key(code) {
                    assert(ores.contains_key(code));
                    assert(res0[code] == ores[code]);
                } else {
                    assert(!ores.contains_key(code));
                }
            }
            let dep = match residency_map_get(&self.resource_residency, code) {
                Some((t2, j)) => {
                    let ghost sm0 = schedule_map(self.tracks);
                    let mut ts2 = schedule_map_remove(&mut self.tracks, t2).unwrap();
                    ts2.push_dependee(
                        j,
                        Dependency {
                            participant: DepPart::Scheduled { track: node_track, node_idx: node_idx },
                            dep: res,
                        },
                    );
                    schedule_map_insert(&mut self.tracks, t2, ts2);
                    residency_map_insert(&mut self.resource_residency, code, (node_track.0, node_idx));
                    proof {
                        assert forall|tt: u32, jj: int|
                            #![trigger schedule_map(self.tracks)[tt].nodes@[jj]]
                            valid_loc(osm, tt, jj) implies same_node_except_dependees(osm[tt].nodes@[jj], schedule_map(self.tracks)[tt].nodes@[jj])
                                && schedule_map(self.tracks)[tt].nodes@[jj].dependees@ == osm[tt].nodes@[jj].dependees@
                                    + new_dependees(ores, rs.take(i + 1), tt, jj, t, node_idx) by {
                            lemma_new_dependees_step(ores, rs, i as int, tt, jj, t, node_idx);
                            assert(sm0[tt].nodes@[jj] == sm0[tt].nodes@[jj]);
                            assert(valid_loc(sm0, tt, jj));
                            assert(ores[code] == (t2, j));
                            if tt == t2 {
                                assert(schedule_map(self.tracks)[tt] == ts2);
                                if jj == j {
                                    assert(ores[code] == (t2, j));
                                    let d = Dependency {
                                        participant: DepPart::Scheduled { track: TrackId(t), node_idx: node_idx },
                                        dep: rs[i as int],
                                    };
                                    assert(osm[tt].nodes@[jj].dependees@ + new_dependees(ores, rs.take(i + 1), tt, jj, t, node_idx)
                                        =~= (osm[tt].nodes@[jj].dependees@ + new_dependees(ores, rs.take(i as int), tt, jj, t, node_idx)).push(d));
                                    assert(sm0[tt].nodes@[jj].dependees@ == osm[tt].nodes@[jj].dependees@ + new_dependees(ores, rs.take(i as int), tt, jj, t, node_idx));
                                    assert(schedule_map(self.tracks)[tt].nodes@[jj].dependees@ == sm0[tt].nodes@[jj].dependees@.push(d));
                                    assert(same_node_except_dependees(osm[tt].nodes@[jj], schedule_map(self.tracks)[tt].nodes@[jj]));
                                } else {
                                    assert(schedule_map(self.tracks)[tt].nodes@[jj] == sm0[tt].nodes@[jj]);
                                    assert(new_dependees(ores, rs.take(i + 1), tt, jj, t, node_idx)
                                        =~= new_dependees(ores, rs.take(i as int), tt, jj, t, node_idx));
                                }
                            } else {
                                assert(schedule_map(self.tracks)[tt] == sm0[tt]);
                                assert(new_dependees(ores, rs.take(i + 1), tt, jj, t, node_idx)
                                    =~= new_dependees(ores, rs.take(i as int), tt, jj, t, node_idx));
                            }
                        }
                    }
                    Dependency { participant: DepPart::Scheduled { track: TrackId(t2), node_idx: j }, dep: res }
                },
                None => {
                    residency_map_insert(&mut self.resource_residency, code, (node_track.0, node_idx));
                    proof {
                        assert forall|tt: u32, jj: int|
                            #![trigger schedule_map(self.tracks)[tt].nodes@[jj]]
                            valid_loc(osm, tt, jj) implies schedule_map(self.tracks)[tt].nodes@[jj].dependees@
                                == osm[tt].nodes@[jj].dependees@ + new_dependees(ores, rs.take(i + 1), tt, jj, t, node_idx) by {
                            lemma_new_dependees_step(ores, rs, i as int, tt, jj, t, node_idx);
                            assert(new_dependees(ores, rs.take(i + 1), tt, jj, t, node_idx)
                                =~= new_dependees(ores, rs.take(i as int), tt, jj, t, node_idx));
                        }
                    }
                    Dependency { participant: DepPart::Import, dep: res }
                },
            };
            dependencies.push(dep);
            proof {
                assert(rs.take(i + 1).map_values(|r: AnyResKey| dep_for(ores, r))
                    =~= rs.take(i as int).map_values(|r: AnyResKey| dep_for(ores, r)).push(dep_for(ores, rs[i as int])));
            }
            i = i + 1;
        }
        proof {
            assert(rs.take(n_res as int) == rs);
        }
        let ghost sm1 = schedule_map(self.tracks);
        let node = TaskNode { dependencies, dependees: Vec::new(), task, order: Ghost(self.added@) };
        let mut ts = schedule_map_remove(&mut self.tracks, node_track.0).unwrap();
        ts.nodes.push(node);
        schedule_map_insert(&mut self.tracks, node_track.0, ts);
        self.added = Ghost(self.added@ + 1);
        proof {
            let sm = schedule_map(self.tracks);
            let res = residency_map(self.resource_residency);
            assert(sm.dom() == osm.dom());
            assert forall|tt: u32, jj: int|
                #![trigger sm[tt].nodes@[jj]]
                valid_loc(osm, tt, jj) implies sm[tt].nodes@[jj] == sm1[tt].nodes@[jj] by {
            }
            assert forall|tt: u32| #[trigger] sm.contains_key(tt) implies track_wf(sm[tt]) by {
                assert(track_wf(osm[tt]));
            }
            assert forall|tt: u32, a: int, b: int|
                #![trigger sm[tt].nodes@[a], sm[tt].nodes@[b]]
                sm.contains_key(tt) && 0 <= a < b < sm[tt].nodes@.len() implies node_order(sm, tt, a) < node_order(sm, tt, b) by {
                assert(sm[tt].nodes@[a] == sm1[tt].nodes@[a]);
                if b < osm[tt].nodes@.len() {
                    assert(sm[tt].nodes@[b] == sm1[tt].nodes@[b]);
                    assert(osm[tt].nodes@[a] == osm[tt].nodes@[a]);
                    assert(osm[tt].nodes@[b] == osm[tt].nodes@[b]);
                } else {
                    assert(osm[tt].nodes@[a] == osm[tt].nodes@[a]);
                }
            }
            assert forall|tt: u32, a: int| #![trigger sm[tt].nodes@[a]] valid_loc(sm, tt, a) implies node_order(sm, tt, a) < self.added@ by {
                if a < osm[tt].nodes@.len() {
                    assert(osm[tt].nodes@[a] == osm[tt].nodes@[a]);
                }
            }
            assert forall|tt: u32, a: int, k: int|
                #![trigger sm[tt].nodes@[a].dependencies@[k]]
                valid_loc(sm, tt, a) && 0 <= k < sm[tt].nodes@[a].dependencies@.len()
                    implies dep_ok(sm, tt, a, sm[tt].nodes@[a].dependencies@[k]) by {
                if a < osm[tt].nodes@.len() {
                    assert(osm[tt].nodes@[a].dependencies@[k] == osm[tt].nodes@[a].dependencies@[k]);
                    let d = osm[tt].nodes@[a].dependencies@[k];
                    match d.participant {
                        DepPart::Import => {},
                        DepPart::Scheduled { track, node_idx } => {
                            assert(osm[track.0].nodes@[node_idx as int] == osm[track.0].nodes@[node_idx as int]);
                            assert(sm[track.0].nodes@[node_idx as int] == sm1[track.0].nodes@[node_idx as int]);
                        },
                    }
                } else {
                    let r = rs[k];
                    if ores.contains_key(res_code(r)) {
                        let (t3, j3) = ores[res_code(r)];
                        assert(valid_loc(osm, t3, j3 as int));
                        assert(osm[t3].nodes@[j3 as int] == osm[t3].nodes@[j3 as int]);
                        assert(sm[t3].nodes@[j3 as int] == sm1[t3].nodes@[j3 as int]);
                    }
                }
            }
            assert forall|c: (u8, u64)| #[trigger] res.contains_key(c) implies valid_loc(sm, res[c].0, res[c].1 as int) by {
                if !(exists|p: int| 0 <= p < rs.len() && res_code(#[trigger] rs[p]) == c) {
                    assert(ores.contains_key(c));
                }
            }
            assert(fitting_track(track_map(tracks.0).dom(), task.queue_flags, t));
            let n = osm[t].nodes@.len();
            assert(sm.dom() == osm.dom());
            assert(forall|t2: u32| #[trigger] sm.contains_key(t2) ==> sm[t2].frames@ == osm[t2].frames@);
            assert(forall|t2: u32| #[trigger] sm.contains_key(t2) && t2 != t ==> sm[t2].nodes@.len() == osm[t2].nodes@.len());
            assert(sm[t].nodes@.len() == n + 1);
            assert(sm[t].nodes@[n as int].task == task);
            assert(sm[t].nodes@[n as int].dependencies@ == rs.map_values(|r: AnyResKey| dep_for(ores, r)));
            assert(sm[t].nodes@[n as int].order@ == old(self).added@);
            assert(sm[t].nodes@[n as int].dependees@.len() == 0);
            assert(forall|c: (u8, u64)| #[trigger] res.contains_key(c) <==> (ores.contains_key(c) || exists|p: int|
                0 <= p < rs.len() && res_code(#[trigger] rs[p]) == c));
            assert(forall|c: (u8, u64)| #[trigger] res.contains_key(c) ==> res[c] == (if exists|p: int|
                0 <= p < rs.len() && res_code(#[trigger] rs[p]) == c { (t, n as usize) } else { ores[c] }));
            assert(forall|t2: u32, j: int|
                #![trigger sm[t2].nodes@[j]]
                valid_loc(osm, t2, j) ==> same_node_except_dependees(osm[t2].nodes@[j], sm[t2].nodes@[j])
                    && sm[t2].nodes@[j].dependees@ == osm[t2].nodes@[j].dependees@ + new_dependees(ores, rs, t2, j, t, n as usize));
        }
        Ok(())
    }

    /// True if node `node_idx` of `track` can be scheduled: all the tasks it
    /// depends on are in frames already. Imports are always in flight.
    fn is_scheduleable(&self, track: TrackId, node_idx: usize) -> (r: bool)
        requires
            self.wf(),
            valid_loc(schedule_map(self.tracks), track.0, node_idx as int),
        ensures
            r == spec_schedulable(schedule_map(self.tracks), track.0, node_idx as int),
    {
        let ghost sm = schedule_map(self.tracks);
        let ts = schedule_map_get(&self.tracks, track.0).unwrap();
        let node = &ts.nodes[node_idx];
        let n = node.dependencies.len();
        let mut k: usize = 0;
        while k < n
            invariant
                self.wf(),
                sm == schedule_map(self.tracks),
                valid_loc(sm, track.0, node_idx as int),
                *node == sm[track.0].nodes@[node_idx as int],
                n == node.dependencies@.len(),
                k <= n,
                forall|kk: int| 0 <= kk < k ==> match #[trigger] node.dependencies@[kk].participant {
                    DepPart::Import => true,
                    DepPart::Scheduled { track, node_idx } => node_idx < frames_end(sm[track.0].frames@),
                },
            decreases n - k,
        {
            let d = node.dependencies[k];
            match d.participant {
                DepPart::Import => {},
                DepPart::Scheduled { track: dep_track, node_idx: j } => {
                    proof {
                        assert(dep_ok(sm, track.0, node_idx as int, sm[track.0].nodes@[node_idx as int].dependencies@[k as int]));
                    }
                    let ts2 = schedule_map_get(&self.tracks, dep_track.0).unwrap();
                    proof {
                        assert(track_wf(sm[dep_track.0]));
                    }
                    if !ts2.is_scheduled(j) {
                        return false;
                    }
                },
            }
            k = k + 1;
        }
        true
    }

    /// True if there are tasks that are not part of a frame on any track.
    fn unscheduled_tasks(&self) -> (r: bool)
        requires
            self.wf(),
        ensures
            r == exists|t: u32| #[trigger] schedule_map(self.tracks).contains_key(t) && has_unsched(schedule_map(self.tracks), t),
    {
        let ghost sm = schedule_map(self.tracks);
        let keys = schedule_map_keys(&self.tracks);
        let mut i: usize = 0;
        while i < keys.len()
            invariant
                self.wf(),
                sm == schedule_map(self.tracks),
                keys@.to_set() == sm.dom(),
                i <= keys@.len(),
                forall|ii: int| 0 <= ii < i ==> !has_unsched(sm, #[trigger] keys@[ii]),
            decreases keys@.len() - i,
        {
            proof {
                assert(keys@.to_set().contains(keys@[i as int]));
            }
            let ts = schedule_map_get(&self.tracks, keys[i]).unwrap();
            proof {
                assert(track_wf(sm[keys@[i as int]]));
            }
            if ts.has_unscheduled() {
                return true;
            }
            i = i + 1;
        }
        proof {
            assert forall|t: u32| #[trigger] sm.contains_key(t) implies !has_unsched(sm, t) by {
                assert(keys@.to_set().contains(t));
                let ii = choose|ii: int| 0 <= ii < keys@.len() && keys@[ii] == t;
            }
        }
        false
    }

    /// Puts node `next`, the first node of track `t` that is in no frame, into
    /// a new frame or at the end of the last frame.
    fn schedule_next(&mut self, t: u32, next: usize, new_frame: bool)
        requires
            old(self).wf(),
            schedule_map(old(self).tracks).contains_key(t),
            next == frames_end(schedule_map(old(self).tracks)[t].frames@),
            next < schedule_map(old(self).tracks)[t].nodes@.len(),
            new_frame || schedule_map(old(self).tracks)[t].frames@.len() > 0,
            frames_stamped(schedule_map(old(self).tracks), old(self).frame_stamps@, old(self).stamp_count@),
            spec_schedulable(schedule_map(old(self).tracks), t, next as int),
            !new_frame ==> newest_frame(schedule_map(old(self).tracks), old(self).frame_stamps@, t),
        ensures
            final(self).wf(),
            frames_stamped(schedule_map(final(self).tracks), final(self).frame_stamps@, final(self).stamp_count@),
            newest_frame(schedule_map(final(self).tracks), final(self).frame_stamps@, t),
            final(self).added == old(self).added,
            residency_map(final(self).resource_residency) == residency_map(old(self).resource_residency),
            schedule_map(final(self).tracks).dom() == schedule_map(old(self).tracks).dom(),
            forall|t2: u32| #[trigger] schedule_map(final(self).tracks).contains_key(t2)
                ==> schedule_map(final(self).tracks)[t2].nodes == schedule_map(old(self).tracks)[t2].nodes,
            forall|t2: u32| #[trigger] schedule_map(final(self).tracks).contains_key(t2) && t2 != t
                ==> schedule_map(final(self).tracks)[t2] == schedule_map(old(self).tracks)[t2],
            frames_end(schedule_map(final(self).tracks)[t].frames@) == next + 1,
            new_frame ==> schedule_map(final(self).tracks)[t].frames@ == schedule_map(old(self).tracks)[t].frames@.push(
                TrackFrame { start: next, len: 1 }),
            !new_frame ==> schedule_map(final(self).tracks)[t].frames@.len() == schedule_map(old(self).tracks)[t].frames@.len(),
    {
        let ghost osm = schedule_map(self.tracks);
        let ghost ost = self.frame_stamps@;
        let ghost ocnt = self.stamp_count@;
        let mut ts = schedule_map_remove(&mut self.tracks, t).unwrap();
        proof {
            assert(track_wf(osm[t]));
            lemma_frames_cover(ts.frames@);
        }
        if new_frame {
            ts.start_next_frame();
            self.frame_stamps = Ghost(ost.insert((t, osm[t].frames@.len() as int), ocnt));
            self.stamp_count = Ghost(ocnt + 1);
        }
        let node_count = ts.nodes.len();
        let last = ts.frames.len() - 1;
        ts.frames[last].push_node(next);
        proof {
            if new_frame {
                assert(ts.frames@ == osm[t].frames@.push(TrackFrame { start: next, len: 1 }));
                lemma_frames_push(osm[t].frames@, TrackFrame { start: next, len: 1 });
            } else {
                lemma_frames_grow_last(osm[t].frames@, ts.frames@[last as int]);
                assert(ts.frames@ == osm[t].frames@.update(last as int, ts.frames@[last as int]));
            }
        }
        schedule_map_insert(&mut self.tracks, t, ts);
        proof {
            let sm = schedule_map(self.tracks);
            assert(forall|t2: u32| #[trigger] sm.contains_key(t2) ==> sm[t2].nodes == osm[t2].nodes);
            assert(frames_wf(osm[t].frames@));
            lemma_stamps_after_schedule(osm, sm, ost, self.frame_stamps@, ocnt, self.stamp_count@, t, next, new_frame,
                residency_map(self.resource_residency), self.added@);
            assert forall|tt: u32| #[trigger] sm.contains_key(tt) implies track_wf(sm[tt]) by {
                assert(track_wf(osm[tt]));
            }
            assert forall|tt: u32, a: int, b: int|
                #![trigger sm[tt].nodes@[a], sm[tt].nodes@[b]]
                sm.contains_key(tt) && 0 <= a < b < sm[tt].nodes@.len() implies node_order(sm, tt, a) < node_order(sm, tt, b) by {
                assert(osm[tt].nodes@[a] == osm[tt].nodes@[a] && osm[tt].nodes@[b] == osm[tt].nodes@[b]);
            }
            assert forall|tt: u32, a: int| #![trigger sm[tt].nodes@[a]] valid_loc(sm, tt, a) implies node_order(sm, tt, a) < self.added@ by {
                assert(osm[tt].nodes@[a] == osm[tt].nodes@[a]);
            }
            assert forall|tt: u32, a: int, k: int|
                #![trigger sm[tt].nodes@[a].dependencies@[k]]
                valid_loc(sm, tt, a) && 0 <= k < sm[tt].nodes@[a].dependencies@.len()
                    implies dep_ok(sm, tt, a, sm[tt].nodes@[a].dependencies@[k]) by {
                assert(osm[tt].nodes@[a].dependencies@[k] == osm[tt].nodes@[a].dependencies@[k]);
                let d = osm[tt].nodes@[a].dependencies@[k];
                match d.participant {
                    DepPart::Import => {},
                    DepPart::Scheduled { track, node_idx } => {
                        assert(osm[track.0].nodes@[node_idx as int] == osm[track.0].nodes@[node_idx as int]);
                    },
                }
            }
        }
    }

    /// Builds frames: pass after pass, each track takes as many of its next
    /// nodes into a new frame as have all their dependencies in frames
    /// already, until every node is in a frame. Since every task depends only
    /// on tasks added before it, every pass makes progress: this never ends in
    /// a dead lock.
    fn build_frames(&mut self) -> (r: Result<(), RecordError>)
        requires
            old(self).wf(),
            frames_stamped(schedule_map(old(self).tracks), old(self).frame_stamps@, old(self).stamp_count@),
        ensures
            r is Ok,
            final(self).wf(),
            frames_stamped(schedule_map(final(self).tracks), final(self).frame_stamps@, final(self).stamp_count@),
            final(self).added == old(self).added,
            residency_map(final(self).resource_residency) == residency_map(old(self).resource_residency),
            schedule_map(final(self).tracks).dom() == schedule_map(old(self).tracks).dom(),
            forall|t: u32| #[trigger] schedule_map(final(self).tracks).contains_key(t)
                ==> schedule_map(final(self).tracks)[t].nodes == schedule_map(old(self).tracks)[t].nodes
                    && frames_end(schedule_map(final(self).tracks)[t].frames@) == schedule_map(final(self).tracks)[t].nodes@.len(),
    {
        let ghost osm = schedule_map(self.tracks);
        let all_tracks = schedule_map_keys(&self.tracks);
        while self.unscheduled_tasks()
            invariant
                self.wf(),
                frames_stamped(schedule_map(self.tracks), self.frame_stamps@, self.stamp_count@),
                self.added == old(self).added,
                residency_map(self.resource_residency) == residency_map(old(self).resource_residency),
                osm == schedule_map(old(self).tracks),
                schedule_map(self.tracks).dom() == osm.dom(),
                forall|t: u32| #[trigger] schedule_map(self.tracks).contains_key(t)
                    ==> schedule_map(self.tracks)[t].nodes == osm[t].nodes,
                all_tracks@.no_duplicates(),
                all_tracks@.to_set() == osm.dom(),
            decreases total_unscheduled(schedule_map(self.tracks), all_tracks@),
        {
            let ghost sm0 = schedule_map(self.tracks);
            proof {
                lemma_earliest_unscheduled(sm0, all_tracks@);
                let t = choose|t: u32| #[trigger] sm0.contains_key(t) && has_unsched(sm0, t);
                assert(all_tracks@.to_set().contains(t));
                let w = choose|w: int| 0 <= w < all_tracks@.len() && all_tracks@[w] == t;
                assert(has_unsched(sm0, all_tracks@[w]));
            }
            let ghost tx = earliest_unscheduled(sm0, all_tracks@)->0;
            let mut any_scheduled = false;
            let ghost mut gained: u32 = tx;
            let mut ti: usize = 0;
            while ti < all_tracks.len()
                invariant
                    self.wf(),
                    frames_stamped(schedule_map(self.tracks), self.frame_stamps@, self.stamp_count@),
                    self.added == old(self).added,
                    residency_map(self.resource_residency) == residency_map(old(self).resource_residency),
                    schedule_map(self.tracks).dom() == osm.dom(),
                    sm0.dom() == osm.dom(),
                    schedule_wf(sm0, residency_map(self.resource_residency), self.added@),
                    forall|t: u32| #[trigger] schedule_map(self.tracks).contains_key(t)
                        ==> schedule_map(self.tracks)[t].nodes == osm[t].nodes && sm0[t].nodes == osm[t].nodes
                            && frames_end(sm0[t].frames@) <= frames_end(schedule_map(self.tracks)[t].frames@),
                    all_tracks@.no_duplicates(),
                    all_tracks@.to_set() == osm.dom(),
                    ti <= all_tracks@.len(),
                    forall|i: int| ti <= i < all_tracks@.len() ==> schedule_map(self.tracks)[#[trigger] all_tracks@[i]] == sm0[all_tracks@[i]],
                    earliest_unscheduled(sm0, all_tracks@) == Some(tx),
                    any_scheduled ==> osm.contains_key(gained)
                        && frames_end(sm0[gained].frames@) < frames_end(schedule_map(self.tracks)[gained].frames@),
                    (exists|i: int| 0 <= i < ti && all_tracks@[i] == tx) ==> any_scheduled,
                decreases all_tracks@.len() - ti,
            {
                let track_id = all_tracks[ti];
                proof {
                    assert(all_tracks@.to_set().contains(track_id));
                }
                let ghost smt = schedule_map(self.tracks);
                proof {
                    if track_id == tx {
                        lemma_earliest_unscheduled(sm0, all_tracks@);
                        lemma_earliest_is_schedulable(sm0, smt, residency_map(self.resource_residency), self.added@, all_tracks@, tx);
                    }
                }
                let mut is_first_scheduled = false;
                loop
                    invariant
                        self.wf(),
                        frames_stamped(schedule_map(self.tracks), self.frame_stamps@, self.stamp_count@),
                        is_first_scheduled ==> newest_frame(schedule_map(self.tracks), self.frame_stamps@, track_id),
                        self.added == old(self).added,
                        residency_map(self.resource_residency) == residency_map(old(self).resource_residency),
                        schedule_map(self.tracks).dom() == osm.dom(),
                        osm.contains_key(track_id),
                        track_id == all_tracks@[ti as int],
                        ti < all_tracks@.len(),
                        forall|t: u32| #[trigger] schedule_map(self.tracks).contains_key(t)
                            ==> schedule_map(self.tracks)[t].nodes == osm[t].nodes,
                        forall|t: u32| #[trigger] schedule_map(self.tracks).contains_key(t) && t != track_id
                            ==> schedule_map(self.tracks)[t] == smt[t],
                        smt[track_id] == sm0[track_id],
                        schedule_wf(sm0, residency_map(self.resource_residency), self.added@),
                        sm0.dom() == osm.dom(),
                        smt.dom() == osm.dom(),
                        earliest_unscheduled(sm0, all_tracks@) == Some(tx),
                        all_tracks@.to_set() == osm.dom(),
                        forall|t: u32| #[trigger] smt.contains_key(t) ==> sm0[t].nodes == osm[t].nodes
                            && frames_end(sm0[t].frames@) <= frames_end(smt[t].frames@),
                        frames_end(sm0[track_id].frames@) <= frames_end(schedule_map(self.tracks)[track_id].frames@),
                        is_first_scheduled ==> frames_end(sm0[track_id].frames@) < frames_end(schedule_map(self.tracks)[track_id].frames@)
                            && schedule_map(self.tracks)[track_id].frames@.len() > 0,
                        !is_first_scheduled ==> schedule_map(self.tracks)[track_id] == sm0[track_id],
                        track_id == tx ==> spec_schedulable(schedule_map(self.tracks), tx, frames_end(sm0[tx].frames@))
                            && has_unsched(sm0, tx),
                    ensures
                        self.wf(),
                        frames_stamped(schedule_map(self.tracks), self.frame_stamps@, self.stamp_count@),
                        self.added == old(self).added,
                        residency_map(self.resource_residency) == residency_map(old(self).resource_residency),
                        schedule_map(self.tracks).dom() == osm.dom(),
                        forall|t: u32| #[trigger] schedule_map(self.tracks).contains_key(t)
                            ==> schedule_map(self.tracks)[t].nodes == osm[t].nodes,
                        forall|t: u32| #[trigger] schedule_map(self.tracks).contains_key(t) && t != track_id
                            ==> schedule_map(self.tracks)[t] == smt[t],
                        frames_end(sm0[track_id].frames@) <= frames_end(schedule_map(self.tracks)[track_id].frames@),
                        is_first_scheduled ==> frames_end(sm0[track_id].frames@) < frames_end(schedule_map(self.tracks)[track_id].frames@),
                        track_id == tx ==> is_first_scheduled,
                    decreases schedule_map(self.tracks)[track_id].nodes@.len() - frames_end(schedule_map(self.tracks)[track_id].frames@),
                {
                    let ghost sm_it = schedule_map(self.tracks);
                    proof {
                        assert(track_wf(sm_it[track_id]));
                        lemma_frames_cover(sm_it[track_id].frames@);
                    }
                    let next_opt = schedule_map_get(&self.tracks, track_id).unwrap().next_to_schedule();
                    match next_opt {
                        Some(next) => {
                            if self.is_scheduleable(TrackId(track_id), next) {
                                self.schedule_next(track_id, next, !is_first_scheduled);
                                is_first_scheduled = true;
                                proof {
                                    let sm = schedule_map(self.tracks);
                                    if track_id == tx {
                                        lemma_earliest_is_schedulable(sm0, sm, residency_map(self.resource_residency), self.added@, all_tracks@, tx);
                                    }
                                }
                            } else {
                                proof {
                                    if track_id == tx && !is_first_scheduled {
                                        assert(next == frames_end(sm0[tx].frames@));
                                    }
                                }
                                break;
                            }
                        },
                        None => {
                            break;
                        },
                    }
                }
                if is_first_scheduled {
                    any_scheduled = true;
                    proof {
                        gained = track_id;
                    }
                }
                proof {
                    let sm = schedule_map(self.tracks);
                    assert forall|i: int| ti + 1 <= i < all_tracks@.len() implies sm[#[trigger] all_tracks@[i]] == sm0[all_tracks@[i]] by {
                        assert(all_tracks@[i] != all_tracks@[ti as int]);
                        assert(all_tracks@.to_set().contains(all_tracks@[i]));
                    }
                    assert forall|t: u32| #[trigger] sm.contains_key(t) implies sm[t].nodes == osm[t].nodes && sm0[t].nodes == osm[t].nodes
                        && frames_end(sm0[t].frames@) <= frames_end(sm[t].frames@) by {
                    }
                    if any_scheduled && gained != track_id {
                        assert(sm[gained] == smt[gained]);
                    }
                }
                ti = ti + 1;
            }
            proof {
                assert(all_tracks@.to_set().contains(tx));
                let w = choose|w: int| 0 <= w < all_tracks@.len() && all_tracks@[w] == tx;
                assert(any_scheduled);
                let sm = schedule_map(self.tracks);
                assert forall|i: int| 0 <= i < all_tracks@.len() implies sm[#[trigger] all_tracks@[i]].nodes@.len() == sm0[all_tracks@[i]].nodes@.len()
                    && frames_end(sm0[all_tracks@[i]].frames@) <= frames_end(sm[all_tracks@[i]].frames@) <= sm[all_tracks@[i]].nodes@.len() by {
                    assert(all_tracks@.to_set().contains(all_tracks@[i]));
                    assert(track_wf(sm[all_tracks@[i]]));
                }
                assert(all_tracks@.to_set().contains(gained));
                lemma_total_unscheduled_decreases(sm0, sm, all_tracks@, gained);
            }
            if !any_scheduled {
                return Err(RecordError::DeadLock);
            }
        }
        proof {
            let sm = schedule_map(self.tracks);
            assert forall|t: u32| #[trigger] sm.contains_key(t) implies frames_end(sm[t].frames@) == sm[t].nodes@.len() by {
                assert(track_wf(sm[t]));
                assert(!has_unsched(sm, t));
            }
        }
        Ok(())
    }

    /// Builds the schedule of `records` on `tracks`: adds all tasks in order,
    /// which adds inter-task dependencies wherever needed, then builds the
    /// frames. Fails if a task's queue flags fit no track.
    pub fn new_from_tasks(tracks: &Tracks, records: Vec<TaskRecord>) -> (r: Result<TaskSchedule, RecordError>)
        requires
            forall|i: int| 0 <= i < records@.len() ==> (#[trigger] records@[i]).resources@.no_duplicates(),
        ensures
            r is Err <==> exists|i: int| 0 <= i < records@.len()
                && no_fitting_track(track_map(tracks.0).dom(), #[trigger] records@[i].queue_flags),
            r matches Err(e) ==> exists|i: int| 0 <= i < records@.len()
                && no_fitting_track(track_map(tracks.0).dom(), #[trigger] records@[i].queue_flags)
                && (forall|j: int| 0 <= j < i ==> !no_fitting_track(track_map(tracks.0).dom(), #[trigger] records@[j].queue_flags))
                && e == RecordError::NoFittingTrack(records@[i].queue_flags),
            r matches Ok(s) ==> schedules_records(s, track_map(tracks.0).dom(), records@),
    {
        let ghost dom = track_map(tracks.0).dom();
        let keys = track_map_keys(&tracks.0);
        let mut tmap = schedule_map_new();
        let mut i: usize = 0;
        while i < keys.len()
            invariant
                i <= keys@.len(),
                keys@.to_set() == dom,
                keys@.no_duplicates(),
                forall|t: u32| #[trigger] schedule_map(tmap).contains_key(t) <==> exists|ii: int| 0 <= ii < i && keys@[ii] == t,
                forall|t: u32| #[trigger] schedule_map(tmap).contains_key(t) ==> schedule_map(tmap)[t].nodes@.len() == 0
                    && schedule_map(tmap)[t].frames@.len() == 0,
            decreases keys@.len() - i,
        {
            schedule_map_insert(&mut tmap, keys[i], TrackSchedule { nodes: Vec::new(), frames: Vec::new() });
            i = i + 1;
        }
        proof {
            assert forall|t: u32| schedule_map(tmap).dom().contains(t) <==> dom.contains(t) by {
                if dom.contains(t) {
                    assert(keys@.to_set().contains(t));
                }
            }
            assert(schedule_map(tmap).dom() =~= dom);
            assert(dom.finite()) by {
                assert(keys@.to_set().finite());
            }
        }
        let mut schedule = TaskSchedule {
            tracks: tmap,
            resource_residency: residency_map_new(),
            added: Ghost(0),
            frame_stamps: Ghost(Map::empty()),
            stamp_count: Ghost(0),
        };
        let ghost recs = records@;
        let ghost mut assign: Seq<u32> = Seq::empty();
        let mut pending = records;
        let ghost mut k: int = 0;
        proof {
            let sm = schedule_map(schedule.tracks);
            let res = residency_map(schedule.resource_residency);
            assert forall|r: AnyResKey| #[trigger] res.contains_key(res_code(r)) <==> last_user(recs, 0, r) is Some by {
                assert(!res.dom().contains(res_code(r)));
            }
            assert(records@ == recs.skip(0));
        }
        while pending.len() > 0
            invariant
                0 <= k <= recs.len(),
                recs == records@,
                pending@ == recs.skip(k),
                forall|ii: int| 0 <= ii < recs.len() ==> (#[trigger] recs[ii]).resources@.no_duplicates(),
                dom == track_map(tracks.0).dom(),
                schedule.wf(),
                schedule_map(schedule.tracks).dom() == dom,
                holds_tasks(schedule_map(schedule.tracks), residency_map(schedule.resource_residency), recs, assign, k),
                forall|ii: int| 0 <= ii < k ==> #[trigger] fitting_track(dom, recs[ii].queue_flags, assign[ii]),
                forall|ii: int| 0 <= ii < k ==> !no_fitting_track(dom, #[trigger] recs[ii].queue_flags),
                forall|t: u32| #[trigger] schedule_map(schedule.tracks).contains_key(t) ==> schedule_map(schedule.tracks)[t].frames@.len() == 0,
            decreases pending@.len(),
        {
            let record = pending.remove(0);
            proof {
                assert(k < recs.len());
                assert(record == recs[k]);
                assert(recs.skip(k + 1) == recs.skip(k).drop_first());
            }
            let ghost osm = schedule_map(schedule.tracks);
            let ghost ores = residency_map(schedule.resource_residency);
            let ghost oadded = schedule.added@;
            match schedule.add_task(tracks, record) {
                Ok(()) => {},
                Err(e) => {
                    proof {
                        assert(no_fitting_track(dom, recs[k].queue_flags));
                        assert(e == RecordError::NoFittingTrack(recs[k].queue_flags));
                        assert(forall|j: int| 0 <= j < k ==> !no_fitting_track(dom, #[trigger] recs[j].queue_flags));
                        assert(0 <= k < recs.len() && no_fitting_track(track_map(tracks.0).dom(), recs[k].queue_flags));
                        assert(recs == records@);
                    }
                    return Err(e);
                },
            }
            proof {
                let t = choose|t: u32| #[trigger] fitting_track(dom, recs[k].queue_flags, t)
                    && task_added(osm, ores, oadded, schedule_map(schedule.tracks), residency_map(schedule.resource_residency),
                        schedule.added@, t, recs[k]);
                lemma_holds_tasks_step(osm, ores, oadded, schedule_map(schedule.tracks), residency_map(schedule.resource_residency),
                    schedule.added@, recs, assign, k, t);
                assign = assign.push(t);
                assert forall|ii: int| 0 <= ii < k + 1 implies #[trigger] fitting_track(dom, recs[ii].queue_flags, assign[ii]) by {
                    if ii < k {
                        assert(assign[ii] == assign.drop_last()[ii]);
                    }
                }
                assert(!no_fitting_track(dom, recs[k].queue_flags));
                k = k + 1;
            }
        }
        proof {
            assert(k == recs.len()) by {
                if k < recs.len() {
                    assert(recs.skip(k).len() > 0);
                }
            }
        }
        let ghost sm1 = schedule_map(schedule.tracks);
        proof {
            assert(frames_stamped(sm1, schedule.frame_stamps@, schedule.stamp_count@));
        }
        match schedule.build_frames() {
            Ok(()) => {},
            Err(e) => {
                return Err(e);
            },
        }
        proof {
            let sm = schedule_map(schedule.tracks);
            let res = residency_map(schedule.resource_residency);
            assert forall|p: int| #![trigger assign[p]] 0 <= p < k implies {
                let (t, j) = task_loc(assign, p);
                &&& valid_loc(sm, t, j)
                &&& sm[t].nodes@[j].task == recs[p]
                &&& sm[t].nodes@[j].dependencies@ == recs[p].resources@.map_values(|r: AnyResKey| expected_dep(recs, assign, p, r))
                &&& sm[t].nodes@[j].dependees@ == expected_dependees(recs, assign, p, k)
            } by {
                let (t, j) = task_loc(assign, p);
                assert(sm[t].nodes == sm1[t].nodes);
            }
            assert(holds_tasks(sm, res, recs, assign, k));
        }
        Ok(schedule)
    }
}

/// The task that used `r` last before task `i` comes before `i`.
proof fn lemma_last_user_before(recs: Seq<TaskRecord>, i: int, r: AnyResKey)
    ensures
        last_user(recs, i, r) matches Some(p) ==> 0 <= p < i && recs[p].resources@.contains(r),
    decreases i,
{
    if i > 0 && !recs[i - 1].resources@.contains(r) {
        lemma_last_user_before(recs, i - 1, r);
    }
}

/// The dependees of task `p` once `m` tasks are added stay among its
/// dependees once more tasks are added.
proof fn lemma_dependees_grow(recs: Seq<TaskRecord>, assign: Seq<u32>, p: int, m: int, n: int, x: Dependency)
    requires
        m <= n,
        expected_dependees(recs, assign, p, m).contains(x),
    ensures
        expected_dependees(recs, assign, p, n).contains(x),
    decreases n - m,
{
    if m < n {
        lemma_dependees_grow(recs, assign, p, m, n - 1, x);
        let pre = expected_dependees(recs, assign, p, n - 1);
        let i = choose|i: int| 0 <= i < pre.len() && pre[i] == x;
        let all = expected_dependees(recs, assign, p, n);
        assert(all[i] == x);
    }
}

/// Node `i` of track `t` stands among the first `n` tasks.
proof fn lemma_node_has_task(assign: Seq<u32>, n: int, t: u32, i: int)
    requires
        0 <= n <= assign.len(),
        0 <= i < count_on(assign, n, t),
    ensures
        exists|p: int| 0 <= p < n && assign[p] == t && count_on(assign, p, t) == i,
    decreases n,
{
    if n > 0 {
        if i < count_on(assign, n - 1, t) {
            lemma_node_has_task(assign, n - 1, t, i);
        } else {
            assert(assign[n - 1] == t && count_on(assign, n - 1, t) == i);
        }
    }
}

/// A resource is imported only by the first task that uses it: two imports
/// of the same resource are the same dependency of the same node. Every
/// dependency is on a resource its task registered.
pub proof fn lemma_imports_first_use(
    sm: Map<u32, TrackSchedule>,
    res: Map<(u8, u64), (u32, usize)>,
    recs: Seq<TaskRecord>,
    assign: Seq<u32>,
    n: int,
)
    requires
        holds_tasks(sm, res, recs, assign, n),
        n <= recs.len(),
        forall|p: int| 0 <= p < n ==> (#[trigger] recs[p]).resources@.no_duplicates(),
    ensures
        forall|t: u32, i: int, m: int| #![trigger sm[t].nodes@[i].dependencies@[m]]
            sm.contains_key(t) && 0 <= i < sm[t].nodes@.len() && 0 <= m < sm[t].nodes@[i].dependencies@.len()
            ==> exists|p: int| 0 <= p < n && #[trigger] recs[p].resources@.contains(sm[t].nodes@[i].dependencies@[m].dep),
        forall|t1: u32, i1: int, m1: int, t2: u32, i2: int, m2: int|
            #![trigger sm[t1].nodes@[i1].dependencies@[m1], sm[t2].nodes@[i2].dependencies@[m2]]
            sm.contains_key(t1) && 0 <= i1 < sm[t1].nodes@.len() && 0 <= m1 < sm[t1].nodes@[i1].dependencies@.len()
            && sm.contains_key(t2) && 0 <= i2 < sm[t2].nodes@.len() && 0 <= m2 < sm[t2].nodes@[i2].dependencies@.len()
            && sm[t1].nodes@[i1].dependencies@[m1].participant is Import
            && sm[t2].nodes@[i2].dependencies@[m2].participant is Import
            && sm[t1].nodes@[i1].dependencies@[m1].dep == sm[t2].nodes@[i2].dependencies@[m2].dep
            ==> t1 == t2 && i1 == i2 && m1 == m2,
{
    assert forall|t: u32, i: int, m: int| #![trigger sm[t].nodes@[i].dependencies@[m]]
        sm.contains_key(t) && 0 <= i < sm[t].nodes@.len() && 0 <= m < sm[t].nodes@[i].dependencies@.len()
        implies exists|p: int| 0 <= p < n && #[trigger] recs[p].resources@.contains(sm[t].nodes@[i].dependencies@[m].dep) by {
        lemma_node_has_task(assign, n, t, i);
        let p = choose|p: int| 0 <= p < n && assign[p] == t && count_on(assign, p, t) == i;
        assert(task_loc(assign, p) == (t, i));
        let r = recs[p].resources@[m];
        assert(sm[t].nodes@[i].dependencies@[m] == expected_dep(recs, assign, p, r));
        assert(recs[p].resources@.contains(r));
    }
    assert forall|t1: u32, i1: int, m1: int, t2: u32, i2: int, m2: int|
        #![trigger sm[t1].nodes@[i1].dependencies@[m1], sm[t2].nodes@[i2].dependencies@[m2]]
        sm.contains_key(t1) && 0 <= i1 < sm[t1].nodes@.len() && 0 <= m1 < sm[t1].nodes@[i1].dependencies@.len()
        && sm.contains_key(t2) && 0 <= i2 < sm[t2].nodes@.len() && 0 <= m2 < sm[t2].nodes@[i2].dependencies@.len()
        && sm[t1].nodes@[i1].dependencies@[m1].participant is Import
        && sm[t2].nodes@[i2].dependencies@[m2].participant is Import
        && sm[t1].nodes@[i1].dependencies@[m1].dep == sm[t2].nodes@[i2].dependencies@[m2].dep
        implies t1 == t2 && i1 == i2 && m1 == m2 by {
        lemma_node_has_task(assign, n, t1, i1);
        let p1 = choose|p: int| 0 <= p < n && assign[p] == t1 && count_on(assign, p, t1) == i1;
        lemma_node_has_task(assign, n, t2, i2);
        let p2 = choose|p: int| 0 <= p < n && assign[p] == t2 && count_on(assign, p, t2) == i2;
        assert(task_loc(assign, p1) == (t1, i1));
        assert(task_loc(assign, p2) == (t2, i2));
        let r1 = recs[p1].resources@[m1];
        let r2 = recs[p2].resources@[m2];
        assert(sm[t1].nodes@[i1].dependencies@[m1] == expected_dep(recs, assign, p1, r1));
        assert(sm[t2].nodes@[i2].dependencies@[m2] == expected_dep(recs, assign, p2, r2));
        assert(r1 == r2);
        lemma_last_user_bound(recs, p1, r1);
        lemma_last_user_bound(recs, p2, r2);
        assert(recs[p1].resources@.contains(r1));
        assert(recs[p2].resources@.contains(r2));
        if p1 < p2 {
            assert(!recs[p1].resources@.contains(r2));
        } else if p2 < p1 {
            assert(!recs[p2].resources@.contains(r1));
        }
        assert(p1 == p2);
        assert(recs[p1].resources@.no_duplicates());
    }
}

/// A dependency on a node names a node of a track of the schedule that
/// depends on the same resource too; on the same track, an earlier node.
pub open spec fn deps_earlier(sm: Map<u32, TrackSchedule>) -> bool {
    forall|t: u32, i: int, m: int| #![trigger sm[t].nodes@[i].dependencies@[m]]
        sm.contains_key(t) && 0 <= i < sm[t].nodes@.len() && 0 <= m < sm[t].nodes@[i].dependencies@.len()
        && sm[t].nodes@[i].dependencies@[m].participant is Scheduled
        ==> {
            let u = sm[t].nodes@[i].dependencies@[m].participant->track.0;
            let j = sm[t].nodes@[i].dependencies@[m].participant->node_idx as int;
            &&& sm.contains_key(u)
            &&& j < sm[u].nodes@.len()
            &&& u == t ==> j < i
            &&& exists|m2: int| 0 <= m2 < sm[u].nodes@[j].dependencies@.len()
                && #[trigger] sm[u].nodes@[j].dependencies@[m2].dep == sm[t].nodes@[i].dependencies@[m].dep
        }
}

/// The dependencies of a schedule of records are linked as `deps_earlier` says.
pub proof fn lemma_deps_earlier(
    sm: Map<u32, TrackSchedule>,
    res: Map<(u8, u64), (u32, usize)>,
    recs: Seq<TaskRecord>,
    assign: Seq<u32>,
    n: int,
)
    requires
        holds_tasks(sm, res, recs, assign, n),
        n <= recs.len(),
    ensures
        deps_earlier(sm),
{
    assert forall|t: u32, i: int, m: int| #![trigger sm[t].nodes@[i].dependencies@[m]]
        sm.contains_key(t) && 0 <= i < sm[t].nodes@.len() && 0 <= m < sm[t].nodes@[i].dependencies@.len()
        && sm[t].nodes@[i].dependencies@[m].participant is Scheduled
        implies {
            let u = sm[t].nodes@[i].dependencies@[m].participant->track.0;
            let j = sm[t].nodes@[i].dependencies@[m].participant->node_idx as int;
            &&& sm.contains_key(u)
            &&& j < sm[u].nodes@.len()
            &&& u == t ==> j < i
            &&& exists|m2: int| 0 <= m2 < sm[u].nodes@[j].dependencies@.len()
                && #[trigger] sm[u].nodes@[j].dependencies@[m2].dep == sm[t].nodes@[i].dependencies@[m].dep
        } by {
        lemma_node_has_task(assign, n, t, i);
        let q = choose|p: int| 0 <= p < n && assign[p] == t && count_on(assign, p, t) == i;
        assert(task_loc(assign, q) == (t, i));
        let r = recs[q].resources@[m];
        assert(sm[t].nodes@[i].dependencies@[m] == expected_dep(recs, assign, q, r));
        lemma_last_user_bound(recs, q, r);
        assert(last_user(recs, q, r) is Some);
        let p = last_user(recs, q, r)->0;
        let (u, j) = task_loc(assign, p);
        assert(valid_loc(sm, u, j));
        assert(0 <= j);
        assert(j < sm[u].nodes.len());
        assert(sm[t].nodes@[i].dependencies@[m].participant->node_idx as int == j);
        assert(sm[t].nodes@[i].dependencies@[m].participant->track.0 == u);
        if u == t {
            lemma_count_on_strict(assign, p, q, t);
        }
        let k = choose|k: int| 0 <= k < recs[p].resources@.len() && recs[p].resources@[k] == r;
        assert(sm[u].nodes@[j].dependencies@[k] == expected_dep(recs, assign, p, r));
        assert(sm[u].nodes@[j].dependencies@[k].dep == r);
    }
}

/// Well formed frames are no more than the nodes they cover.
pub proof fn lemma_frames_len(frames: Seq<TrackFrame>)
    requires
        frames_wf(frames),
    ensures
        frames.len() <= frames_end(frames),
    decreases frames.len(),
{
    if frames.len() > 0 {
        lemma_frames_len(frames.drop_last());
    }
}

proof fn lemma_count_on_le(assign: Seq<u32>, i: int, t: u32)
    requires
        i >= 0,
    ensures
        count_on(assign, i, t) <= i,
    decreases i,
{
    if i > 0 {
        lemma_count_on_le(assign, i - 1, t);
    }
}

/// No track of a schedule of `n` tasks holds more than `n` nodes.
pub proof fn lemma_nodes_bound(
    sm: Map<u32, TrackSchedule>,
    res: Map<(u8, u64), (u32, usize)>,
    recs: Seq<TaskRecord>,
    assign: Seq<u32>,
    n: int,
)
    requires
        holds_tasks(sm, res, recs, assign, n),
        n >= 0,
    ensures
        forall|t: u32| #[trigger] sm.contains_key(t) ==> sm[t].nodes@.len() <= n,
{
    assert forall|t: u32| #[trigger] sm.contains_key(t) implies sm[t].nodes@.len() <= n by {
        lemma_count_on_le(assign, n, t);
    }
}

/// Dependencies are mirrored by dependees: when task `q` depends, for one of
/// its resources, on the node of an earlier task, that earlier task's node
/// lists the node of `q` as dependee for the same resource.
pub proof fn lemma_dependencies_mirrored(
    sm: Map<u32, TrackSchedule>,
    res: Map<(u8, u64), (u32, usize)>,
    recs: Seq<TaskRecord>,
    assign: Seq<u32>,
    n: int,
    q: int,
    k: int,
)
    requires
        holds_tasks(sm, res, recs, assign, n),
        0 <= q < n,
        0 <= k < recs[q].resources@.len(),
    ensures
        ({
            let (t, j) = task_loc(assign, q);
            let d = sm[t].nodes@[j].dependencies@[k];
            d.participant matches DepPart::Scheduled { track, node_idx } ==> exists|p: int| 0 <= p < q
                && task_loc(assign, p).0 == track.0 && task_loc(assign, p).1 as usize == node_idx
                && sm[track.0].nodes@[task_loc(assign, p).1].dependees@.contains(Dependency {
                    participant: DepPart::Scheduled { track: TrackId(t), node_idx: j as usize },
                    dep: d.dep,
                })
        }),
{
    let (t, j) = task_loc(assign, q);
    assert(valid_loc(sm, t, j));
    let r = recs[q].resources@[k];
    let d = sm[t].nodes@[j].dependencies@[k];
    assert(d == expected_dep(recs, assign, q, r));
    lemma_last_user_before(recs, q, r);
    if let Some(p) = last_user(recs, q, r) {
        let (tp, jp) = task_loc(assign, p);
        assert(valid_loc(sm, tp, jp));
        let pred = |x: AnyResKey| last_user(recs, q, x) == Some(p);
        let f = |x: AnyResKey| Dependency {
            participant: DepPart::Scheduled {
                track: TrackId(task_loc(assign, q).0),
                node_idx: task_loc(assign, q).1 as usize,
            },
            dep: x,
        };
        recs[q].resources@.lemma_filter_contains(pred, k);
        let fl = recs[q].resources@.filter(pred);
        let idx = choose|idx: int| 0 <= idx < fl.len() && fl[idx] == r;
        let block = fl.map_values(f);
        assert(block[idx] == f(r));
        let x = f(r);
        assert(expected_dependees(recs, assign, p, q + 1) == expected_dependees(recs, assign, p, q) + block);
        let all = expected_dependees(recs, assign, p, q + 1);
        assert(all[expected_dependees(recs, assign, p, q).len() + idx] == x);
        lemma_dependees_grow(recs, assign, p, q + 1, n, x);
        assert(sm[tp].nodes@[jp].dependees@ == expected_dependees(recs, assign, p, n));
        assert(d.participant == DepPart::Scheduled { track: TrackId(tp), node_idx: jp as usize });
        assert(x == Dependency { participant: DepPart::Scheduled { track: TrackId(t), node_idx: j as usize }, dep: d.dep });
    }
}

} // verus!
