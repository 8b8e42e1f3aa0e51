//! Runs a task schedule frame by frame: each step picks a frame whose
//! dependencies have run (or lie in the frame itself) and submits it, until
//! every frame of every track has run.
use vstd::prelude::*;
use ahash::AHashMap;
use crate::error::RecordError;
use crate::maps::{
    schedule_map, schedule_map_get, schedule_map_keys, index_map, index_map_new, index_map_insert, index_map_get,
    index_map_keys, residency_map,
};
use crate::schedule::{
    DepPart, Dependency, TaskSchedule, TrackFrame, TrackSchedule, frame_contains, frames_end, frames_wf, frames_stamped,
    schedule_wf, dep_ok, dep_in_earlier_frame, valid_loc, node_order, track_wf, lemma_frames_cover, spec_is_scheduled,
    TaskRecord, schedules_records, fitting_track, holds_tasks, lemma_imports_first_use,
};
use crate::track::{Guard, Track, TrackId, Tracks};
use crate::resources::{Resources, owner_family};
use crate::res_states::QueueOwnership;
use crate::transfer::{QueueTransfer, canonical_key, acquire_all, acquire_all_ready, res_slot, release_all, guards_for, guard_of, lists_track, unguarded, in_states, lemma_release_all_ok};
use crate::res_states::AnyResKey;
use crate::maps::{track_map, track_map_keys, wait_map, wait_map_new, wait_map_get, wait_map_insert, wait_map_entries};

verus! {

/// The node index that the first `n` frames reach to.
pub open spec fn prefix_end(frames: Seq<TrackFrame>, n: int) -> int {
    frames_end(frames.take(n))
}

/// Node `j` of track `t` lies in a frame that has run, where `nx` gives, for
/// each track with frames, how many of its frames have run.
pub open spec fn node_executed(sm: Map<u32, TrackSchedule>, nx: Map<u32, usize>, t: u32, j: int) -> bool {
    nx.contains_key(t) && j < prefix_end(sm[t].frames@, nx[t] as int)
}

/// Dependency `d` of a node in frame `k` of track `t` is met: it is an import,
/// a node of the same frame, or a node that has run.
pub open spec fn dep_ready(sm: Map<u32, TrackSchedule>, nx: Map<u32, usize>, t: u32, k: int, d: Dependency) -> bool {
    match d.participant {
        DepPart::Import => true,
        DepPart::Scheduled { track, node_idx } => (track.0 == t && frame_contains(sm[t].frames@[k], node_idx as int))
            || node_executed(sm, nx, track.0, node_idx as int),
    }
}

/// Every dependency of every node of frame `k` of track `t` is met.
pub open spec fn frame_ready(sm: Map<u32, TrackSchedule>, nx: Map<u32, usize>, t: u32, k: int) -> bool {
    forall|i: int, m: int| #![trigger sm[t].nodes@[i].dependencies@[m]]
        frame_contains(sm[t].frames@[k], i) && 0 <= i < sm[t].nodes@.len() && 0 <= m < sm[t].nodes@[i].dependencies@.len()
            ==> dep_ready(sm, nx, t, k, sm[t].nodes@[i].dependencies@[m])
}

/// Track `t` has frames left to run.
pub open spec fn pending(sm: Map<u32, TrackSchedule>, nx: Map<u32, usize>, t: u32) -> bool {
    nx.contains_key(t) && nx[t] < sm[t].frames@.len()
}

/// Some track has frames left to run.
pub open spec fn any_pending(sm: Map<u32, TrackSchedule>, nx: Map<u32, usize>) -> bool {
    exists|t: u32| #[trigger] pending(sm, nx, t)
}

/// A well formed, stamped schedule whose frames hold all its nodes, and for
/// each track with frames how many of them have run.
pub open spec fn run_state_wf(
    sm: Map<u32, TrackSchedule>,
    res: Map<(u8, u64), (u32, usize)>,
    added: nat,
    st: Map<(u32, int), nat>,
    cnt: nat,
    nx: Map<u32, usize>,
) -> bool {
    &&& schedule_wf(sm, res, added)
    &&& frames_stamped(sm, st, cnt)
    &&& forall|t: u32| #[trigger] sm.contains_key(t) ==> frames_end(sm[t].frames@) == sm[t].nodes@.len()
    &&& forall|t: u32| #[trigger] nx.contains_key(t) <==> sm.contains_key(t) && sm[t].frames@.len() > 0
    &&& forall|t: u32| #[trigger] nx.contains_key(t) ==> nx[t] <= sm[t].frames@.len()
}

/// The first `n` frames are well formed; frames before `n` end by their
/// end, frames from `n` on start after it, and frame `n` starts right there.
pub proof fn lemma_frames_prefix(frames: Seq<TrackFrame>, n: int)
    requires
        frames_wf(frames),
        0 <= n <= frames.len(),
    ensures
        frames_wf(frames.take(n)),
        forall|k: int| 0 <= k < n ==> #[trigger] frames[k].start + frames[k].len <= prefix_end(frames, n),
        forall|k: int| n <= k < frames.len() ==> #[trigger] frames[k].start >= prefix_end(frames, n),
        n < frames.len() ==> frames[n].start == prefix_end(frames, n),
        n == frames.len() ==> prefix_end(frames, n) == frames_end(frames),
        prefix_end(frames, n) >= 0,
    decreases frames.len(),
{
    lemma_frames_cover(frames);
    if n == frames.len() {
        assert(frames.take(n) =~= frames);
    } else {
        let init = frames.drop_last();
        lemma_frames_prefix(init, n);
        assert(frames.take(n) =~= init.take(n));
        lemma_frames_cover(init);
        assert forall|k: int| 0 <= k < n implies #[trigger] frames[k].start + frames[k].len <= prefix_end(frames, n) by {
            assert(frames[k] == init[k]);
        }
        assert forall|k: int| n <= k < frames.len() implies #[trigger] frames[k].start >= prefix_end(frames, n) by {
            if k < init.len() {
                assert(frames[k] == init[k]);
            } else {
                if n < init.len() {
                    assert(init[init.len() - 1].start >= prefix_end(init, n));
                }
            }
        }
        if n < init.len() {
            assert(frames[n] == init[n]);
        }
    }
}

/// While frames are left, one of them can run: the pending frame opened
/// first depends only on frames that have run, or on itself.
pub proof fn lemma_pending_frame_ready(
    sm: Map<u32, TrackSchedule>,
    res: Map<(u8, u64), (u32, usize)>,
    added: nat,
    st: Map<(u32, int), nat>,
    cnt: nat,
    nx: Map<u32, usize>,
    t: u32,
)
    requires
        run_state_wf(sm, res, added, st, cnt, nx),
        pending(sm, nx, t),
    ensures
        exists|t2: u32| #[trigger] pending(sm, nx, t2) && frame_ready(sm, nx, t2, nx[t2] as int),
    decreases st[(t, nx[t] as int)],
{
    let k = nx[t] as int;
    let frames = sm[t].frames@;
    assert(track_wf(sm[t]));
    lemma_frames_cover(frames);
    lemma_frames_prefix(frames, k);
    if frame_ready(sm, nx, t, k) {
        assert(pending(sm, nx, t) && frame_ready(sm, nx, t, nx[t] as int));
    } else {
        let (i, m) = choose|i: int, m: int| frame_contains(frames[k], i) && 0 <= i < sm[t].nodes@.len()
            && 0 <= m < sm[t].nodes@[i].dependencies@.len()
            && !dep_ready(sm, nx, t, k, #[trigger] sm[t].nodes@[i].dependencies@[m]);
        let d = sm[t].nodes@[i].dependencies@[m];
        assert(valid_loc(sm, t, i));
        assert(dep_ok(sm, t, i, d));
        assert(frame_contains(sm[t].frames@[k], i));
        assert(dep_in_earlier_frame(sm, st, t, k, d));
        match d.participant {
            DepPart::Import => {},
            DepPart::Scheduled { track: tb, node_idx: j } => {
                let ji = j as int;
                if tb.0 == t {
                    if ji >= i {
                        if ji > i {
                            assert(node_order(sm, t, i) < node_order(sm, t, ji));
                        }
                        assert(false);
                    }
                    assert(!frame_contains(frames[k], ji));
                    assert(ji < frames[k].start);
                    assert(node_executed(sm, nx, t, ji));
                    assert(false);
                } else {
                    let fb = sm[tb.0].frames@;
                    assert(track_wf(sm[tb.0]));
                    lemma_frames_cover(fb);
                    assert(frames_end(fb) == sm[tb.0].nodes@.len());
                    assert(nx.contains_key(tb.0));
                    assert(spec_is_scheduled(fb, ji));
                    let k2 = choose|k2: int| 0 <= k2 < fb.len() && frame_contains(#[trigger] fb[k2], ji);
                    assert(st[(tb.0, k2)] < st[(t, k)]);
                    lemma_frames_prefix(fb, nx[tb.0] as int);
                    if k2 < nx[tb.0] {
                        assert(fb[k2].start + fb[k2].len <= prefix_end(fb, nx[tb.0] as int));
                        assert(node_executed(sm, nx, tb.0, ji));
                        assert(false);
                    }
                    assert(pending(sm, nx, tb.0));
                    if k2 > nx[tb.0] {
                        assert(st[(tb.0, nx[tb.0] as int)] < st[(tb.0, k2)]);
                    }
                    assert(st[(tb.0, nx[tb.0] as int)] < st[(t, nx[t] as int)]);
                    lemma_pending_frame_ready(sm, res, added, st, cnt, nx, tb.0);
                }
            },
        }
    }
}

/// How many entries of `order` run a frame of track `t`.
pub open spec fn count_runs(order: Seq<(TrackId, usize)>, t: u32) -> nat
    decreases order.len(),
{
    if order.len() == 0 {
        0
    } else {
        count_runs(order.drop_last(), t) + (if order.last().0.0 == t { 1nat } else { 0nat })
    }
}

/// For each track with frames, how many of its frames `order` runs.
pub open spec fn runs_so_far(sm: Map<u32, TrackSchedule>, order: Seq<(TrackId, usize)>) -> Map<u32, usize> {
    Map::new(|t: u32| sm.contains_key(t) && sm[t].frames@.len() > 0, |t: u32| count_runs(order, t) as usize)
}

/// `order` runs every frame of every track once, the frames of a track in
/// their order, and each frame only when all its dependencies are met by the
/// frames before it in `order`.
pub open spec fn valid_run_order(sm: Map<u32, TrackSchedule>, order: Seq<(TrackId, usize)>) -> bool {
    &&& forall|p: int| #![trigger order[p]] 0 <= p < order.len() ==> {
        &&& sm.contains_key(order[p].0.0)
        &&& order[p].1 < sm[order[p].0.0].frames@.len()
        &&& order[p].1 == count_runs(order.take(p), order[p].0.0)
        &&& frame_ready(sm, runs_so_far(sm, order.take(p)), order[p].0.0, order[p].1 as int)
    }
    &&& forall|t: u32| #[trigger] sm.contains_key(t) ==> count_runs(order, t) == sm[t].frames@.len()
}

/// Number of frames left to run, summed over the tracks `ks`.
pub open spec fn frames_left(sm: Map<u32, TrackSchedule>, nx: Map<u32, usize>, ks: Seq<u32>) -> nat
    decreases ks.len(),
{
    if ks.len() == 0 {
        0
    } else {
        let t = ks.last();
        frames_left(sm, nx, ks.drop_last()) + (if pending(sm, nx, t) { (sm[t].frames@.len() - nx[t]) as nat } else { 0nat })
    }
}

proof fn lemma_frames_left_same(sm: Map<u32, TrackSchedule>, a: Map<u32, usize>, b: Map<u32, usize>, ks: Seq<u32>)
    requires
        forall|i: int| 0 <= i < ks.len() ==> (a.contains_key(#[trigger] ks[i]) == b.contains_key(ks[i]))
            && (a.contains_key(ks[i]) ==> a[ks[i]] == b[ks[i]]),
    ensures
        frames_left(sm, a, ks) == frames_left(sm, b, ks),
    decreases ks.len(),
{
    if ks.len() > 0 {
        let init = ks.drop_last();
        assert forall|i: int| 0 <= i < init.len() implies (a.contains_key(#[trigger] init[i]) == b.contains_key(init[i]))
            && (a.contains_key(init[i]) ==> a[init[i]] == b[init[i]]) by {
            assert(init[i] == ks[i]);
        }
        lemma_frames_left_same(sm, a, b, init);
        assert(ks.last() == ks[ks.len() - 1]);
    }
}

/// Running one more frame of a track among `ks` leaves fewer frames to run.
proof fn lemma_frames_left_step(sm: Map<u32, TrackSchedule>, nx: Map<u32, usize>, ks: Seq<u32>, w: u32)
    requires
        ks.no_duplicates(),
        ks.contains(w),
        pending(sm, nx, w),
        nx[w] < usize::MAX,
    ensures
        frames_left(sm, nx.insert(w, (nx[w] + 1) as usize), ks) < frames_left(sm, nx, ks),
    decreases ks.len(),
{
    let nx2 = nx.insert(w, (nx[w] + 1) as usize);
    let init = ks.drop_last();
    if ks.last() == w {
        assert forall|i: int| 0 <= i < init.len() implies (nx.contains_key(#[trigger] init[i]) == nx2.contains_key(init[i]))
            && (nx.contains_key(init[i]) ==> nx[init[i]] == nx2[init[i]]) by {
            assert(init[i] == ks[i]);
            assert(ks[i] != ks[ks.len() - 1]);
        }
        lemma_frames_left_same(sm, nx, nx2, init);
        assert(nx2[w] == nx[w] + 1);
    } else {
        let j = choose|j: int| 0 <= j < ks.len() && ks[j] == w;
        assert(j < ks.len() - 1);
        assert(init[j] == w);
        assert(init.no_duplicates()) by {
            assert forall|a: int, b: int| 0 <= a < b < init.len() implies init[a] != init[b] by {
                assert(init[a] == ks[a] && init[b] == ks[b]);
            }
        }
        lemma_frames_left_step(sm, nx, init, w);
        assert(nx2.contains_key(ks.last()) == nx.contains_key(ks.last()));
        assert(nx2[ks.last()] == nx[ks.last()]);
    }
}

/// How many frames `order` runs of track `t`, after one more entry.
pub(crate) proof fn lemma_count_runs_push(order: Seq<(TrackId, usize)>, x: (TrackId, usize), t: u32)
    ensures
        count_runs(order.push(x), t) == count_runs(order, t) + (if x.0.0 == t { 1nat } else { 0nat }),
{
    assert(order.push(x).drop_last() =~= order);
}

/// A dependency of a node on track `t` takes the resource over: it comes
/// from a node of another track, or is an import.
pub open spec fn takes_over(t: u32, d: Dependency) -> bool {
    match d.participant {
        DepPart::Scheduled { track, node_idx } => track.0 != t,
        DepPart::Import => true,
    }
}

/// The resources that dependencies `deps` of a node on track `t` take over, in order.
pub open spec fn node_takeovers(t: u32, deps: Seq<Dependency>) -> Seq<AnyResKey>
    decreases deps.len(),
{
    if deps.len() == 0 {
        Seq::empty()
    } else {
        node_takeovers(t, deps.drop_last()) + (if takes_over(t, deps.last()) { seq![deps.last().dep] } else { Seq::empty() })
    }
}

/// The resources that nodes `from..to` of track `t` take over, in node order.
pub open spec fn taken_over(sm: Map<u32, TrackSchedule>, t: u32, from: int, to: int) -> Seq<AnyResKey>
    decreases to - from,
{
    if to <= from {
        Seq::empty()
    } else {
        taken_over(sm, t, from, to - 1) + node_takeovers(t, sm[t].nodes@[to - 1].dependencies@)
    }
}

/// The resources that frame `k` of track `t` takes over.
pub open spec fn frame_takeovers(sm: Map<u32, TrackSchedule>, t: u32, k: int) -> Seq<AnyResKey> {
    taken_over(sm, t, sm[t].frames@[k].start as int, sm[t].frames@[k].start + sm[t].frames@[k].len)
}

/// A release of a resource by the track that owns it, to the track that imports it.
#[derive(Clone, Copy, Debug, PartialEq, Eq, Structural)]
pub struct ReleaseOp {
    pub current_owner: TrackId,
    pub destination_owner: TrackId,
    pub res: AnyResKey,
}

/// Dependency `m` of node `i` of track `t` imports a resource that a queue
/// family other than `t`'s owns, so that its owner has to release it first.
pub open spec fn needs_release(sm: Map<u32, TrackSchedule>, res: Resources, tm: Map<u32, Track>, t: u32, i: int, m: int) -> bool {
    &&& sm.contains_key(t)
    &&& 0 <= i < sm[t].nodes@.len()
    &&& 0 <= m < sm[t].nodes@[i].dependencies@.len()
    &&& sm[t].nodes@[i].dependencies@[m].participant is Import
    &&& owner_family(res, sm[t].nodes@[i].dependencies@[m].dep) matches Some(f) && f != tm[t].queue_idx
}

/// `op` is a release that some import needs.
pub open spec fn release_needed_by_some(sm: Map<u32, TrackSchedule>, res: Resources, tm: Map<u32, Track>, op: ReleaseOp) -> bool {
    exists|t: u32, i: int, m: int| #[trigger] release_for(sm, res, tm, op, t, i, m)
}

/// Each resource is imported at most once: two imports of the same store
/// slot are the same dependency of the same node.
pub open spec fn imports_unique(sm: Map<u32, TrackSchedule>) -> bool {
    forall|t1: u32, i1: int, m1: int, t2: u32, i2: int, m2: int|
        #![trigger sm[t1].nodes@[i1].dependencies@[m1], sm[t2].nodes@[i2].dependencies@[m2]]
        valid_dep(sm, t1, i1, m1) && valid_dep(sm, t2, i2, m2)
            && sm[t1].nodes@[i1].dependencies@[m1].participant is Import
            && sm[t2].nodes@[i2].dependencies@[m2].participant is Import
            && res_slot(sm[t1].nodes@[i1].dependencies@[m1].dep) == res_slot(sm[t2].nodes@[i2].dependencies@[m2].dep)
            ==> t1 == t2 && i1 == i2 && m1 == m2
}

/// A schedule of records, each of which registered its resources once and
/// under the keys the store hands out, imports each resource at most once:
/// only the first task that uses it imports it.
pub proof fn lemma_recorded_imports_unique(s: TaskSchedule, dom: Set<u32>, recs: Seq<TaskRecord>)
    requires
        schedules_records(s, dom, recs),
        forall|p: int| 0 <= p < recs.len() ==> (#[trigger] recs[p]).resources@.no_duplicates(),
        forall|p: int, k: int| 0 <= p < recs.len() && 0 <= k < recs[p].resources@.len()
            ==> canonical_key(#[trigger] recs[p].resources@[k]),
    ensures
        imports_unique(schedule_map(s.tracks)),
{
    let sm = schedule_map(s.tracks);
    let rm = residency_map(s.resource_residency);
    let assign = choose|assign: Seq<u32>|
        (forall|i: int| 0 <= i < recs.len() ==> #[trigger] fitting_track(dom, recs[i].queue_flags, assign[i]))
        && holds_tasks(sm, rm, recs, assign, recs.len() as int);
    lemma_imports_first_use(sm, rm, recs, assign, recs.len() as int);
    assert forall|t1: u32, i1: int, m1: int, t2: u32, i2: int, m2: int|
        #![trigger sm[t1].nodes@[i1].dependencies@[m1], sm[t2].nodes@[i2].dependencies@[m2]]
        valid_dep(sm, t1, i1, m1) && valid_dep(sm, t2, i2, m2)
            && sm[t1].nodes@[i1].dependencies@[m1].participant is Import
            && sm[t2].nodes@[i2].dependencies@[m2].participant is Import
            && res_slot(sm[t1].nodes@[i1].dependencies@[m1].dep) == res_slot(sm[t2].nodes@[i2].dependencies@[m2].dep)
        implies t1 == t2 && i1 == i2 && m1 == m2 by {
        let d1 = sm[t1].nodes@[i1].dependencies@[m1].dep;
        let d2 = sm[t2].nodes@[i2].dependencies@[m2].dep;
        let p1 = choose|p: int| 0 <= p < recs.len() && #[trigger] recs[p].resources@.contains(d1);
        let k1 = choose|k: int| 0 <= k < recs[p1].resources@.len() && recs[p1].resources@[k] == d1;
        assert(canonical_key(recs[p1].resources@[k1]));
        let p2 = choose|p: int| 0 <= p < recs.len() && #[trigger] recs[p].resources@.contains(d2);
        let k2 = choose|k: int| 0 <= k < recs[p2].resources@.len() && recs[p2].resources@[k] == d2;
        assert(canonical_key(recs[p2].resources@[k2]));
        assert(d1 == d2);
    }
}

/// `(t, i, m)` names dependency `m` of node `i` of track `t`.
pub open spec fn valid_dep(sm: Map<u32, TrackSchedule>, t: u32, i: int, m: int) -> bool {
    sm.contains_key(t) && 0 <= i < sm[t].nodes@.len() && 0 <= m < sm[t].nodes@[i].dependencies@.len()
}

/// Some release in `ops` is done by track `t`.
pub open spec fn releases_from(ops: Seq<ReleaseOp>, t: u32) -> bool {
    exists|p: int| 0 <= p < ops.len() && #[trigger] ops[p].current_owner == TrackId(t)
}

/// Track `tr` after allocating its next guard.
pub open spec fn with_next_guard(tr: Track) -> Track {
    Track { latest_signaled_value: (tr.latest_signaled_value + 1) as u64, ..tr }
}

/// The guard allocated next on track `tr`.
pub open spec fn next_guard_of(tr: Track) -> Guard {
    Guard { track: TrackId(tr.flags), target_value: (tr.latest_signaled_value + 1) as u64 }
}

/// No track works on queue family `f`.
pub open spec fn no_track_for(tm: Map<u32, Track>, f: u32) -> bool {
    forall|k: u32| #[trigger] tm.contains_key(k) ==> tm[k].queue_idx != f
}

/// `op` releases the resource of dependency `m` of node `i` of track `t` from
/// the track that works on the owning queue family to `t`.
pub open spec fn release_for(sm: Map<u32, TrackSchedule>, res: Resources, tm: Map<u32, Track>, op: ReleaseOp, t: u32, i: int, m: int) -> bool {
    &&& needs_release(sm, res, tm, t, i, m)
    &&& op.res == sm[t].nodes@[i].dependencies@[m].dep
    &&& op.destination_owner == TrackId(t)
    &&& tm.contains_key(op.current_owner.0)
    &&& tm[op.current_owner.0].queue_idx == owner_family(res, op.res)->0
}

/// Some import needs a release from a queue family that no track works on.
pub open spec fn release_blocked(sm: Map<u32, TrackSchedule>, res: Resources, tm: Map<u32, Track>) -> bool {
    exists|t: u32, i: int, m: int| #[trigger] needs_release(sm, res, tm, t, i, m)
        && no_track_for(tm, owner_family(res, sm[t].nodes@[i].dependencies@[m].dep)->0)
}

/// `e` names the queue family of such a blocked release.
pub open spec fn release_error(sm: Map<u32, TrackSchedule>, res: Resources, tm: Map<u32, Track>, e: RecordError) -> bool {
    exists|t: u32, i: int, m: int| #[trigger] needs_release(sm, res, tm, t, i, m)
        && no_track_for(tm, owner_family(res, sm[t].nodes@[i].dependencies@[m].dep)->0)
        && e == RecordError::NoSuchTrack(owner_family(res, sm[t].nodes@[i].dependencies@[m].dep)->0)
}

/// The imports of schedule `sm` were prepared, taking the store from `res0`
/// to `res1` and the tracks from `tm0` to `tm1`: `ops` holds a release for
/// each import that needs one and no other, the resources were released as
/// `release_all` says (the guards they had are `waits`), each releasing
/// track allocated its next guard, listed in `rg`, and the released
/// resources are under those guards.
pub open spec fn import_releases_done(
    sm: Map<u32, TrackSchedule>,
    res0: Resources,
    tm0: Map<u32, Track>,
    res1: Resources,
    tm1: Map<u32, Track>,
    ops: Seq<ReleaseOp>,
    waits: Seq<Guard>,
    rg: Seq<(TrackId, Guard)>,
) -> bool {
    &&& forall|p: int| 0 <= p < ops.len() ==> #[trigger] release_needed_by_some(sm, res0, tm0, ops[p])
    &&& forall|t: u32, i: int, m: int| #[trigger] needs_release(sm, res0, tm0, t, i, m)
        ==> exists|p: int| 0 <= p < ops.len() && #[trigger] release_for(sm, res0, tm0, ops[p], t, i, m)
    &&& release_all(res0.owned_states(), ops, tm0) matches Ok((s1, gs))
        && waits == gs && res1.owned_states() == guards_for(s1, ops, rg)
    &&& tm1.dom() == tm0.dom()
    &&& forall|k: u32| #[trigger] tm1.contains_key(k) ==> tm1[k]
        == (if releases_from(ops, k) { with_next_guard(tm0[k]) } else { tm0[k] })
    &&& forall|p: int| 0 <= p < rg.len() ==> releases_from(ops, (#[trigger] rg[p]).0.0)
        && rg[p].1 == next_guard_of(tm0[rg[p].0.0])
    &&& forall|p: int, q: int| 0 <= p < q < rg.len() ==> (#[trigger] rg[p]).0 != (#[trigger] rg[q]).0
    &&& forall|t: u32| #[trigger] sm.contains_key(t) && releases_from(ops, t) ==> lists_track(rg, TrackId(t))
}

/// The largest wait value of the guards in `gs` on track `t`; none if no
/// guard is on `t`.
pub open spec fn max_wait(gs: Seq<Guard>, t: u32) -> Option<u64>
    decreases gs.len(),
{
    if gs.len() == 0 {
        None
    } else {
        let prev = max_wait(gs.drop_last(), t);
        let g = gs.last();
        if g.track.0 == t {
            match prev {
                Some(v) => Some(if v >= g.target_value { v } else { g.target_value }),
                None => Some(g.target_value),
            }
        } else {
            prev
        }
    }
}

/// For each track that some guard of `guards` is on, the largest value the
/// guards wait for on it, each track once, in the map's own order. A submit
/// waits for these values.
pub fn max_wait_per_track(guards: &Vec<Guard>) -> (r: Vec<(TrackId, u64)>)
    ensures
        forall|p: int| 0 <= p < r@.len() ==> max_wait(guards@, (#[trigger] r@[p]).0.0) == Some(r@[p].1),
        forall|p: int, q: int| 0 <= p < q < r@.len() ==> (#[trigger] r@[p]).0 != (#[trigger] r@[q]).0,
        forall|t: u32| #[trigger] max_wait(guards@, t) is Some ==> exists|p: int| 0 <= p < r@.len() && r@[p].0 == TrackId(t),
{
    let mut m = wait_map_new();
    let mut i: usize = 0;
    while i < guards.len()
        invariant
            i <= guards@.len(),
            forall|t: u32| #[trigger] wait_map(m).contains_key(t) <==> max_wait(guards@.take(i as int), t) is Some,
            forall|t: u32| #[trigger] wait_map(m).contains_key(t) ==> max_wait(guards@.take(i as int), t) == Some(wait_map(m)[t]),
        decreases guards@.len() - i,
    {
        let g = guards[i];
        proof {
            assert(guards@.take(i as int + 1).drop_last() =~= guards@.take(i as int));
            assert(guards@.take(i as int + 1).last() == g);
        }
        match wait_map_get(&m, g.track.0) {
            Some(v) => {
                let nv = if v >= g.target_value { v } else { g.target_value };
                wait_map_insert(&mut m, g.track.0, nv);
            },
            None => {
                wait_map_insert(&mut m, g.track.0, g.target_value);
            },
        }
        i = i + 1;
    }
    proof {
        assert(guards@.take(i as int) =~= guards@);
    }
    let entries = wait_map_entries(&m);
    let mut out: Vec<(TrackId, u64)> = Vec::new();
    let mut j: usize = 0;
    while j < entries.len()
        invariant
            j <= entries@.len(),
            out@.len() == j,
            forall|p: int| 0 <= p < j ==> (#[trigger] out@[p]) == (TrackId(entries@[p].0), entries@[p].1),
        decreases entries@.len() - j,
    {
        out.push((TrackId(entries[j].0), entries[j].1));
        j = j + 1;
    }
    proof {
        assert forall|p: int| 0 <= p < out@.len() implies max_wait(guards@, (#[trigger] out@[p]).0.0) == Some(out@[p].1) by {
            assert(wait_map(m).contains_key(entries@[p].0));
        }
        assert forall|p: int, q: int| 0 <= p < q < out@.len() implies (#[trigger] out@[p]).0 != (#[trigger] out@[q]).0 by {
            assert(entries@[p].0 != entries@[q].0);
        }
        assert forall|t: u32| #[trigger] max_wait(guards@, t) is Some implies exists|p: int| 0 <= p < out@.len() && out@[p].0 == TrackId(t) by {
            assert(wait_map(m).contains_key(t));
            let p = choose|p: int| 0 <= p < entries@.len() && #[trigger] entries@[p].0 == t;
            assert(out@[p].0 == TrackId(t));
        }
    }
    out
}

/// Runs a task schedule: for each track with frames, which of them runs next.
pub struct Executor {
    pub schedule: TaskSchedule,
    /// For each track with frames, the index of its frame that runs next.
    pub next_frame: AHashMap<u32, usize>,
}

impl Executor {
    /// The tracks of the schedule.
    pub open spec fn tracks(&self) -> Map<u32, TrackSchedule> {
        schedule_map(self.schedule.tracks)
    }

    /// For each track with frames, how many of them have run.
    pub open spec fn next(&self) -> Map<u32, usize> {
        index_map(self.next_frame)
    }

    /// The schedule is well formed, stamped and complete, and the frame
    /// counters stay within each track's frames.
    pub open spec fn wf(&self) -> bool {
        run_state_wf(
            self.tracks(),
            residency_map(self.schedule.resource_residency),
            self.schedule.added@,
            self.schedule.frame_stamps@,
            self.schedule.stamp_count@,
            self.next(),
        )
    }

    /// Starts running `schedule`, a complete one as `new_from_tasks` builds
    /// it: no frame has run yet.
    pub fn new(schedule: TaskSchedule) -> (r: Executor)
        requires
            schedule.wf(),
            frames_stamped(schedule_map(schedule.tracks), schedule.frame_stamps@, schedule.stamp_count@),
            forall|t: u32| #[trigger] schedule_map(schedule.tracks).contains_key(t)
                ==> frames_end(schedule_map(schedule.tracks)[t].frames@) == schedule_map(schedule.tracks)[t].nodes@.len(),
        ensures
            r.wf(),
            r.schedule == schedule,
            forall|t: u32| #[trigger] r.next().contains_key(t) ==> r.next()[t] == 0,
    {
        let ghost sm = schedule_map(schedule.tracks);
        let keys = schedule_map_keys(&schedule.tracks);
        let mut next_frame = index_map_new();
        let mut i: usize = 0;
        while i < keys.len()
            invariant
                i <= keys@.len(),
                keys@.to_set() == sm.dom(),
                keys@.no_duplicates(),
                sm == schedule_map(schedule.tracks),
                forall|t: u32| #[trigger] index_map(next_frame).contains_key(t)
                    <==> (exists|ii: int| 0 <= ii < i && keys@[ii] == t) && sm[t].frames@.len() > 0,
                forall|t: u32| #[trigger] index_map(next_frame).contains_key(t) ==> index_map(next_frame)[t] == 0,
            decreases keys@.len() - i,
        {
            let t = keys[i];
            proof {
                assert(keys@.to_set().contains(t));
            }
            let ts = schedule_map_get(&schedule.tracks, t).unwrap();
            if ts.frames.len() > 0 {
                index_map_insert(&mut next_frame, t, 0);
            }
            i = i + 1;
        }
        let r = Executor { schedule, next_frame };
        proof {
            assert forall|t: u32| #[trigger] r.next().contains_key(t) <==> sm.contains_key(t) && sm[t].frames@.len() > 0 by {
                if sm.contains_key(t) {
                    assert(keys@.to_set().contains(t));
                }
                if r.next().contains_key(t) {
                    let ii = choose|ii: int| 0 <= ii < keys@.len() && keys@[ii] == t;
                    assert(keys@.to_set().contains(keys@[ii]));
                }
            }
        }
        r
    }

    /// True as long as there are frames that have not run.
    pub fn has_executable(&self) -> (r: bool)
        requires
            self.wf(),
        ensures
            r == any_pending(self.tracks(), self.next()),
    {
        let keys = index_map_keys(&self.next_frame);
        let mut i: usize = 0;
        while i < keys.len()
            invariant
                self.wf(),
                i <= keys@.len(),
                keys@.to_set() == self.next().dom(),
                forall|ii: int| 0 <= ii < i ==> !pending(self.tracks(), self.next(), #[trigger] keys@[ii]),
            decreases keys@.len() - i,
        {
            let t = keys[i];
            proof {
                assert(keys@.to_set().contains(t));
            }
            let next = index_map_get(&self.next_frame, t).unwrap();
            let ts = schedule_map_get(&self.schedule.tracks, t).unwrap();
            if ts.frames.len() > next {
                assert(pending(self.tracks(), self.next(), t));
                return true;
            }
            i = i + 1;
        }
        proof {
            assert forall|t: u32| !#[trigger] pending(self.tracks(), self.next(), t) by {
                if pending(self.tracks(), self.next(), t) {
                    assert(keys@.to_set().contains(t));
                    let ii = choose|ii: int| 0 <= ii < keys@.len() && keys@[ii] == t;
                    assert(!pending(self.tracks(), self.next(), keys@[ii]));
                }
            }
        }
        false
    }

    /// True if node `node_idx` of `track` lies in a frame that has already run.
    pub fn is_executed(&self, track: TrackId, node_idx: usize) -> (r: bool)
        requires
            self.wf(),
            self.next().contains_key(track.0),
        ensures
            r == node_executed(self.tracks(), self.next(), track.0, node_idx as int),
    {
        let next = index_map_get(&self.next_frame, track.0).unwrap();
        let ghost frames = self.tracks()[track.0].frames@;
        if next == 0 {
            proof {
                assert(frames.take(0) =~= Seq::<TrackFrame>::empty());
            }
            return false;
        }
        let ts = schedule_map_get(&self.schedule.tracks, track.0).unwrap();
        let n = ts.nodes.len();
        let f = ts.frames[next - 1];
        proof {
            assert(track_wf(self.tracks()[track.0]));
            lemma_frames_cover(frames);
            assert(frames.take(next as int).last() == frames[next - 1]);
        }
        node_idx < f.start + f.len
    }

    /// True if all dependencies of all nodes of frame `k` of track `t` are
    /// met: imports, nodes of the same frame, or nodes that have run.
    fn frame_is_ready(&self, t: u32, k: usize) -> (r: bool)
        requires
            self.wf(),
            self.tracks().contains_key(t),
            k < self.tracks()[t].frames@.len(),
        ensures
            r == frame_ready(self.tracks(), self.next(), t, k as int),
    {
        let ghost sm = self.tracks();
        let ts = schedule_map_get(&self.schedule.tracks, t).unwrap();
        let n = ts.nodes.len();
        let frame = ts.frames[k];
        proof {
            assert(track_wf(sm[t]));
            lemma_frames_cover(sm[t].frames@);
        }
        let range = frame.iter_indices();
        let mut node_idx: usize = range.start;
        while node_idx < range.end
            invariant
                self.wf(),
                sm == self.tracks(),
                sm.contains_key(t),
                *ts == sm[t],
                k < sm[t].frames@.len(),
                frame == sm[t].frames@[k as int],
                range.start == frame.start,
                range.end == frame.start + frame.len,
                range.end <= n,
                n == sm[t].nodes@.len(),
                frame.start <= node_idx <= range.end,
                forall|i: int, m: int| #![trigger sm[t].nodes@[i].dependencies@[m]]
                    frame.start <= i < node_idx && 0 <= m < sm[t].nodes@[i].dependencies@.len()
                        ==> dep_ready(sm, self.next(), t, k as int, sm[t].nodes@[i].dependencies@[m]),
            decreases range.end - node_idx,
        {
            let node = &ts.nodes[node_idx];
            let nd = node.dependencies.len();
            let mut m: usize = 0;
            while m < nd
                invariant
                    self.wf(),
                    sm == self.tracks(),
                    sm.contains_key(t),
                    *ts == sm[t],
                    k < sm[t].frames@.len(),
                    frame == sm[t].frames@[k as int],
                    range.end == frame.start + frame.len,
                    range.end <= n,
                    n == sm[t].nodes@.len(),
                    frame.start <= node_idx < range.end,
                    *node == sm[t].nodes@[node_idx as int],
                    nd == node.dependencies@.len(),
                    m <= nd,
                    forall|mm: int| #![trigger sm[t].nodes@[node_idx as int].dependencies@[mm]]
                        0 <= mm < m ==> dep_ready(sm, self.next(), t, k as int, sm[t].nodes@[node_idx as int].dependencies@[mm]),
                decreases nd - m,
            {
                let dep = node.dependencies[m];
                proof {
                    assert(dep == sm[t].nodes@[node_idx as int].dependencies@[m as int]);
                }
                match dep.participant {
                    DepPart::Import => {},
                    DepPart::Scheduled { track, node_idx: task_idx } => {
                        let same = track.0 == t && frame.contains_idx(task_idx);
                        if !same {
                            proof {
                                assert(valid_loc(sm, t, node_idx as int));
                                assert(dep_ok(sm, t, node_idx as int, dep));
                                assert(track_wf(sm[track.0]));
                                assert(frames_end(sm[track.0].frames@) == sm[track.0].nodes@.len());
                                assert(self.next().contains_key(track.0));
                            }
                            if !self.is_executed(track, task_idx) {
                                proof {
                                    assert(!dep_ready(sm, self.next(), t, k as int, sm[t].nodes@[node_idx as int].dependencies@[m as int]));
                                    assert(frame_contains(sm[t].frames@[k as int], node_idx as int));
                                }
                                return false;
                            }
                        }
                    },
                }
                m = m + 1;
            }
            node_idx = node_idx + 1;
        }
        true
    }

    /// Picks a track whose next frame can run and returns it with that
    /// frame's index. Fails with a deadlock if no frame can run.
    pub fn select_next_frame(&self) -> (r: Result<(TrackId, usize), RecordError>)
        requires
            self.wf(),
        ensures
            r matches Ok((t, k)) ==> pending(self.tracks(), self.next(), t.0) && k == self.next()[t.0]
                && frame_ready(self.tracks(), self.next(), t.0, k as int) && k < usize::MAX,
            r is Err <==> !any_pending(self.tracks(), self.next()),
            r matches Err(e) ==> e == RecordError::DeadLock,
    {
        let keys = index_map_keys(&self.next_frame);
        let mut i: usize = 0;
        while i < keys.len()
            invariant
                self.wf(),
                i <= keys@.len(),
                keys@.to_set() == self.next().dom(),
                forall|ii: int| 0 <= ii < i ==> !(pending(self.tracks(), self.next(), #[trigger] keys@[ii])
                    && frame_ready(self.tracks(), self.next(), keys@[ii], self.next()[keys@[ii]] as int)),
            decreases keys@.len() - i,
        {
            let t = keys[i];
            proof {
                assert(keys@.to_set().contains(t));
            }
            let next = index_map_get(&self.next_frame, t).unwrap();
            let ts = schedule_map_get(&self.schedule.tracks, t).unwrap();
            if next < ts.frames.len() {
                if self.frame_is_ready(t, next) {
                    assert(pending(self.tracks(), self.next(), t));
                    return Ok((TrackId(t), next));
                }
            }
            i = i + 1;
        }
        proof {
            if any_pending(self.tracks(), self.next()) {
                let t = choose|t: u32| #[trigger] pending(self.tracks(), self.next(), t);
                lemma_pending_frame_ready(self.tracks(), residency_map(self.schedule.resource_residency), self.schedule.added@,
                    self.schedule.frame_stamps@, self.schedule.stamp_count@, self.next(), t);
                let t2 = choose|t2: u32| #[trigger] pending(self.tracks(), self.next(), t2)
                    && frame_ready(self.tracks(), self.next(), t2, self.next()[t2] as int);
                assert(keys@.to_set().contains(t2));
                let ii = choose|ii: int| 0 <= ii < keys@.len() && keys@[ii] == t2;
                assert(!(pending(self.tracks(), self.next(), keys@[ii])
                    && frame_ready(self.tracks(), self.next(), keys@[ii], self.next()[keys@[ii]] as int)));
            }
        }
        Err(RecordError::DeadLock)
    }

    /// Runs every frame that has not run yet, starting with no frame run, and
    /// returns the frames in the order they run, each as its track and its
    /// index on that track. As long as frames are left, one of them can run,
    /// so this never ends in a deadlock.
    pub fn run(&mut self) -> (r: Result<Vec<(TrackId, usize)>, RecordError>)
        requires
            old(self).wf(),
            forall|t: u32| #[trigger] old(self).next().contains_key(t) ==> old(self).next()[t] == 0,
        ensures
            final(self).wf(),
            final(self).schedule == old(self).schedule,
            r matches Ok(order) && valid_run_order(old(self).tracks(), order@),
            forall|t: u32| #[trigger] final(self).next().contains_key(t)
                ==> final(self).next()[t] == final(self).tracks()[t].frames@.len(),
    {
        let ghost sm = self.tracks();
        let ks = index_map_keys(&self.next_frame);
        let mut order: Vec<(TrackId, usize)> = Vec::new();
        proof {
            assert forall|t: u32| #[trigger] self.next().contains_key(t) implies self.next()[t] as int == count_runs(order@, t) by {}
        }
        while self.has_executable()
            invariant
                self.wf(),
                self.schedule == old(self).schedule,
                self.tracks() == sm,
                ks@.no_duplicates(),
                ks@.to_set() == self.next().dom(),
                forall|t: u32| #[trigger] self.next().contains_key(t) ==> self.next()[t] as int == count_runs(order@, t),
                forall|t: u32| !self.next().contains_key(t) ==> #[trigger] count_runs(order@, t) == 0,
                forall|p: int| #![trigger order@[p]] 0 <= p < order@.len() ==> {
                    &&& sm.contains_key(order@[p].0.0)
                    &&& order@[p].1 < sm[order@[p].0.0].frames@.len()
                    &&& order@[p].1 == count_runs(order@.take(p), order@[p].0.0)
                    &&& frame_ready(sm, runs_so_far(sm, order@.take(p)), order@[p].0.0, order@[p].1 as int)
                },
            decreases frames_left(sm, self.next(), ks@),
        {
            let ghost nx = self.next();
            let ghost old_order = order@;
            let (t, k) = match self.select_next_frame() {
                Ok(tk) => tk,
                Err(e) => {
                    return Err(e);
                },
            };
            proof {
                assert(runs_so_far(sm, order@) =~= nx) by {
                    assert forall|tt: u32| #[trigger] nx.contains_key(tt) implies runs_so_far(sm, order@)[tt] == nx[tt] by {
                        assert(nx[tt] as int == count_runs(order@, tt));
                    }
                }
                assert(ks@.to_set().contains(t.0));
                lemma_frames_left_step(sm, nx, ks@, t.0);
            }
            index_map_insert(&mut self.next_frame, t.0, k + 1);
            order.push((t, k));
            proof {
                assert(order@.take(old_order.len() as int) =~= old_order);
                assert(order@ == old_order.push((t, k)));
                assert forall|tt: u32| #[trigger] self.next().contains_key(tt) implies self.next()[tt] as int == count_runs(order@, tt) by {
                    lemma_count_runs_push(old_order, (t, k), tt);
                }
                assert forall|tt: u32| !self.next().contains_key(tt) implies #[trigger] count_runs(order@, tt) == 0 by {
                    lemma_count_runs_push(old_order, (t, k), tt);
                }
                assert forall|p: int| #![trigger order@[p]] 0 <= p < order@.len() implies {
                    &&& sm.contains_key(order@[p].0.0)
                    &&& order@[p].1 < sm[order@[p].0.0].frames@.len()
                    &&& order@[p].1 == count_runs(order@.take(p), order@[p].0.0)
                    &&& frame_ready(sm, runs_so_far(sm, order@.take(p)), order@[p].0.0, order@[p].1 as int)
                } by {
                    if p < old_order.len() {
                        assert(order@[p] == old_order[p]);
                        assert(order@.take(p) =~= old_order.take(p));
                    }
                }
                assert(self.next() == nx.insert(t.0, (nx[t.0] + 1) as usize));
            }
        }
        proof {
            assert forall|tt: u32| #[trigger] sm.contains_key(tt) implies count_runs(order@, tt) == sm[tt].frames@.len() by {
                if self.next().contains_key(tt) {
                    assert(!pending(sm, self.next(), tt));
                } else {
                    assert(sm[tt].frames@.len() == 0);
                }
            }
            assert forall|tt: u32| #[trigger] self.next().contains_key(tt) implies self.next()[tt] == self.tracks()[tt].frames@.len() by {
                assert(!pending(sm, self.next(), tt));
            }
        }
        Ok(order)
    }

    /// The resources that frame `frame_index` of track `t` takes over: for
    /// each of its nodes, in order, the resources of its dependencies on other
    /// tracks and of its imports.
    pub fn acquire_list(&self, t: u32, frame_index: usize) -> (r: Vec<AnyResKey>)
        requires
            self.wf(),
            self.tracks().contains_key(t),
            frame_index < self.tracks()[t].frames@.len(),
        ensures
            r@ == frame_takeovers(self.tracks(), t, frame_index as int),
    {
        let ghost sm = self.tracks();
        let ts = schedule_map_get(&self.schedule.tracks, t).unwrap();
        let n = ts.nodes.len();
        let frame = ts.frames[frame_index];
        proof {
            assert(track_wf(sm[t]));
            lemma_frames_cover(sm[t].frames@);
        }
        let mut out: Vec<AnyResKey> = Vec::new();
        let mut node_idx: usize = frame.start;
        let end = frame.start + frame.len;
        while node_idx < end
            invariant
                *ts == sm[t],
                sm.contains_key(t),
                n == sm[t].nodes@.len(),
                end <= n,
                frame.start <= node_idx <= end,
                out@ == taken_over(sm, t, frame.start as int, node_idx as int),
            decreases end - node_idx,
        {
            let node = &ts.nodes[node_idx];
            let nd = node.dependencies.len();
            let ghost before = out@;
            let mut m: usize = 0;
            while m < nd
                invariant
                    *node == sm[t].nodes@[node_idx as int],
                    nd == node.dependencies@.len(),
                    m <= nd,
                    out@ == before + node_takeovers(t, node.dependencies@.take(m as int)),
                decreases nd - m,
            {
                let dep = node.dependencies[m];
                let take = match dep.participant {
                    DepPart::Scheduled { track, node_idx: _ } => track.0 != t,
                    DepPart::Import => true,
                };
                let ghost prev = out@;
                if take {
                    out.push(dep.dep);
                }
                proof {
                    let ds = node.dependencies@.take(m as int + 1);
                    assert(ds.drop_last() =~= node.dependencies@.take(m as int));
                    assert(ds.last() == dep);
                    if take {
                        assert(out@ =~= prev + seq![dep.dep]);
                    } else {
                        assert(out@ =~= prev + Seq::<AnyResKey>::empty());
                    }
                    assert(out@ =~= before + node_takeovers(t, ds));
                }
                m = m + 1;
            }
            proof {
                assert(node.dependencies@.take(nd as int) =~= node.dependencies@);
            }
            node_idx = node_idx + 1;
        }
        out
    }

    /// Acquires for track `trackid` everything frame `frame_index` takes
    /// over, under the frame's execution guard `exec_guard`, one resource
    /// after the other as `acquire_all` says. Returns the queue transfer
    /// barriers to record before the frame, and the guards the resources had,
    /// which the frame waits for; or the first failure. A resource that is
    /// released when it is acquired must have been released to this track's
    /// queue family (`acquire_all_ready`): acquiring it on another family would
    /// be a transfer the releasing queue never agreed to. `run_frames` meets
    /// this for every frame of a run order (see `lemma_run_step_ready`);
    /// `import_acquire_ready` tests it.
    pub fn build_import_acquire_barrier(
        &self,
        res: &mut Resources,
        tracks: &Tracks,
        trackid: TrackId,
        frame_index: usize,
        exec_guard: Guard,
    ) -> (r: Result<(Vec<QueueTransfer>, Vec<Guard>), RecordError>)
        requires
            self.wf(),
            self.tracks().contains_key(trackid.0),
            frame_index < self.tracks()[trackid.0].frames@.len(),
            track_map(tracks.0).contains_key(trackid.0),
            old(res).wf(),
            acquire_all_ready(old(res).owned_states(), frame_takeovers(self.tracks(), trackid.0, frame_index as int),
                track_map(tracks.0)[trackid.0].queue_idx, exec_guard),
        ensures
            final(res).wf(),
            final(res).bindless == old(res).bindless,
            final(res).sampler_states() == old(res).sampler_states(),
            match acquire_all(old(res).owned_states(), frame_takeovers(self.tracks(), trackid.0, frame_index as int),
                track_map(tracks.0)[trackid.0].queue_idx, exec_guard) {
                Ok((s, ts, gs)) => r matches Ok((rt, rg)) && rt@ == ts && rg@ == gs && final(res).owned_states() == s,
                Err((e, s)) => r == Err::<(Vec<QueueTransfer>, Vec<Guard>), RecordError>(e) && final(res).owned_states() == s,
            },
    {
        let track_queue_family = tracks.trackid_to_queue_idx(trackid);
        let keys = self.acquire_list(trackid.0, frame_index);
        res.acquire_all(&keys, track_queue_family, exec_guard)
    }

    /// Whether frame `frame_index` of track `trackid` can acquire what it
    /// takes over under guard `exec_guard` without a fault: the condition of
    /// `build_import_acquire_barrier`.
    pub fn import_acquire_ready(&self, res: &Resources, tracks: &Tracks, trackid: TrackId, frame_index: usize, exec_guard: Guard) -> (r: bool)
        requires
            self.wf(),
            self.tracks().contains_key(trackid.0),
            frame_index < self.tracks()[trackid.0].frames@.len(),
            track_map(tracks.0).contains_key(trackid.0),
        ensures
            r == acquire_all_ready(res.owned_states(), frame_takeovers(self.tracks(), trackid.0, frame_index as int),
                track_map(tracks.0)[trackid.0].queue_idx, exec_guard),
    {
        let family = tracks.trackid_to_queue_idx(trackid);
        let keys = self.acquire_list(trackid.0, frame_index);
        res.acquire_all_is_ready(&keys, family, exec_guard)
    }

    /// Prepares frame `frame_index` of track `trackid` to run: allocates the
    /// frame's execution guard on the track and acquires under it what the
    /// frame takes over, as `build_import_acquire_barrier` does. Returns the
    /// guard, the queue transfer barriers to record before the frame and the
    /// guards to wait for; or the first failure (the guard stays allocated).
    /// Like `build_import_acquire_barrier`, it needs every resource it
    /// acquires that is released to be released to this track's family.
    pub fn schedule_frame(&self, res: &mut Resources, tracks: &mut Tracks, trackid: TrackId, frame_index: usize)
        -> (r: Result<(Guard, Vec<QueueTransfer>, Vec<Guard>), RecordError>)
        requires
            self.wf(),
            self.tracks().contains_key(trackid.0),
            frame_index < self.tracks()[trackid.0].frames@.len(),
            track_map(old(tracks).0).contains_key(trackid.0),
            track_map(old(tracks).0)[trackid.0].latest_signaled_value < u64::MAX,
            old(res).wf(),
            acquire_all_ready(old(res).owned_states(), frame_takeovers(self.tracks(), trackid.0, frame_index as int),
                track_map(old(tracks).0)[trackid.0].queue_idx, next_guard_of(track_map(old(tracks).0)[trackid.0])),
        ensures
            final(res).wf(),
            final(res).bindless == old(res).bindless,
            final(res).sampler_states() == old(res).sampler_states(),
            track_map(final(tracks).0) == track_map(old(tracks).0).insert(trackid.0, with_next_guard(track_map(old(tracks).0)[trackid.0])),
            match acquire_all(old(res).owned_states(), frame_takeovers(self.tracks(), trackid.0, frame_index as int),
                track_map(old(tracks).0)[trackid.0].queue_idx, next_guard_of(track_map(old(tracks).0)[trackid.0])) {
                Ok((s, ts, gs)) => r matches Ok((g, rt, rg)) && g == next_guard_of(track_map(old(tracks).0)[trackid.0])
                    && rt@ == ts && rg@ == gs && final(res).owned_states() == s,
                Err((e, s)) => r == Err::<(Guard, Vec<QueueTransfer>, Vec<Guard>), RecordError>(e) && final(res).owned_states() == s,
            },
    {
        let exec_guard = tracks.next_guard_for(trackid);
        match self.build_import_acquire_barrier(res, tracks, trackid, frame_index, exec_guard) {
            Ok((transfers, waits)) => Ok((exec_guard, transfers, waits)),
            Err(e) => Err(e),
        }
    }

    /// Finds every import of a resource that a queue family other than the
    /// importing track's owns: for each, a release from the track of the
    /// owning family to the importing track. Fails if no track works on an
    /// owning family.
    pub fn collect_release_ops(&self, res: &Resources, tracks: &Tracks) -> (r: Result<Vec<ReleaseOp>, RecordError>)
        requires
            self.wf(),
            forall|t: u32| #[trigger] self.tracks().contains_key(t) ==> track_map(tracks.0).contains_key(t),
        ensures
            r is Err <==> exists|t: u32, i: int, m: int| #[trigger] needs_release(self.tracks(), *res, track_map(tracks.0), t, i, m)
                && no_track_for(track_map(tracks.0), owner_family(*res, self.tracks()[t].nodes@[i].dependencies@[m].dep)->0),
            r matches Err(e) ==> exists|t: u32, i: int, m: int| #[trigger] needs_release(self.tracks(), *res, track_map(tracks.0), t, i, m)
                && no_track_for(track_map(tracks.0), owner_family(*res, self.tracks()[t].nodes@[i].dependencies@[m].dep)->0)
                && e == RecordError::NoSuchTrack(owner_family(*res, self.tracks()[t].nodes@[i].dependencies@[m].dep)->0),
            r matches Ok(ops) ==> {
                &&& forall|p: int| 0 <= p < ops@.len()
                    ==> #[trigger] release_needed_by_some(self.tracks(), *res, track_map(tracks.0), ops@[p])
                &&& forall|t: u32, i: int, m: int| #[trigger] needs_release(self.tracks(), *res, track_map(tracks.0), t, i, m)
                    ==> exists|p: int| 0 <= p < ops@.len() && #[trigger] release_for(self.tracks(), *res, track_map(tracks.0), ops@[p], t, i, m)
                &&& imports_unique(self.tracks()) ==> forall|p: int, q: int| 0 <= p < q < ops@.len()
                    ==> res_slot((#[trigger] ops@[p]).res) != res_slot((#[trigger] ops@[q]).res)
            },
    {
        let ghost sm = self.tracks();
        let ghost tm = track_map(tracks.0);
        let keys = schedule_map_keys(&self.schedule.tracks);
        let mut ops: Vec<ReleaseOp> = Vec::new();
        let ghost mut locs: Seq<(int, int, int)> = Seq::empty();
        let mut ki: usize = 0;
        while ki < keys.len()
            invariant
                sm == self.tracks(),
                tm == track_map(tracks.0),
                forall|t: u32| #[trigger] sm.contains_key(t) ==> tm.contains_key(t),
                keys@.to_set() == sm.dom(),
                keys@.no_duplicates(),
                ki <= keys@.len(),
                locs.len() == ops@.len(),
                locs.no_duplicates(),
                forall|p: int| 0 <= p < locs.len() ==> 0 <= (#[trigger] locs[p]).0 < keys@.len()
                    && release_for(sm, *res, tm, ops@[p], keys@[locs[p].0], locs[p].1, locs[p].2)
                    && locs[p].0 < ki,
                forall|p: int| 0 <= p < ops@.len() ==> #[trigger] release_needed_by_some(sm, *res, tm, ops@[p]),
                forall|t: u32, i: int, m: int| #[trigger] needs_release(sm, *res, tm, t, i, m)
                    && (exists|kk: int| 0 <= kk < ki && keys@[kk] == t)
                    ==> (exists|p: int| 0 <= p < ops@.len() && #[trigger] release_for(sm, *res, tm, ops@[p], t, i, m))
                        && !no_track_for(tm, owner_family(*res, sm[t].nodes@[i].dependencies@[m].dep)->0),
            decreases keys@.len() - ki,
        {
            let t = keys[ki];
            proof {
                assert(keys@.to_set().contains(t));
            }
            let family = tracks.trackid_to_queue_idx(TrackId(t));
            let ts = schedule_map_get(&self.schedule.tracks, t).unwrap();
            let n = ts.nodes.len();
            let mut i: usize = 0;
            while i < n
                invariant
                    sm == self.tracks(),
                    tm == track_map(tracks.0),
                    sm.contains_key(t),
                    *ts == sm[t],
                    n == sm[t].nodes@.len(),
                    tm.contains_key(t),
                    family == tm[t].queue_idx,
                    keys@.to_set() == sm.dom(),
                    keys@.no_duplicates(),
                    ki < keys@.len(),
                    keys@[ki as int] == t,
                    i <= n,
                    locs.len() == ops@.len(),
                    locs.no_duplicates(),
                    forall|p: int| 0 <= p < locs.len() ==> 0 <= (#[trigger] locs[p]).0 < keys@.len()
                        && release_for(sm, *res, tm, ops@[p], keys@[locs[p].0], locs[p].1, locs[p].2)
                        && (locs[p].0 < ki || (locs[p].0 == ki && locs[p].1 < i)),
                    forall|p: int| 0 <= p < ops@.len() ==> #[trigger] release_needed_by_some(sm, *res, tm, ops@[p]),
                    forall|t2: u32, i2: int, m2: int| #[trigger] needs_release(sm, *res, tm, t2, i2, m2)
                        && ((exists|kk: int| 0 <= kk < ki && keys@[kk] == t2) || (t2 == t && i2 < i))
                        ==> (exists|p: int| 0 <= p < ops@.len() && #[trigger] release_for(sm, *res, tm, ops@[p], t2, i2, m2))
                            && !no_track_for(tm, owner_family(*res, sm[t2].nodes@[i2].dependencies@[m2].dep)->0),
                decreases n - i,
            {
                let node = &ts.nodes[i];
                let nd = node.dependencies.len();
                let mut m: usize = 0;
                while m < nd
                    invariant
                        sm == self.tracks(),
                        tm == track_map(tracks.0),
                        sm.contains_key(t),
                        *ts == sm[t],
                        n == sm[t].nodes@.len(),
                        tm.contains_key(t),
                    family == tm[t].queue_idx,
                        keys@.to_set() == sm.dom(),
                        keys@.no_duplicates(),
                        ki < keys@.len(),
                        keys@[ki as int] == t,
                        i < n,
                        *node == sm[t].nodes@[i as int],
                        nd == node.dependencies@.len(),
                        m <= nd,
                        locs.len() == ops@.len(),
                        locs.no_duplicates(),
                        forall|p: int| 0 <= p < locs.len() ==> 0 <= (#[trigger] locs[p]).0 < keys@.len()
                            && release_for(sm, *res, tm, ops@[p], keys@[locs[p].0], locs[p].1, locs[p].2)
                            && (locs[p].0 < ki || (locs[p].0 == ki && locs[p].1 < i) || (locs[p].0 == ki && locs[p].1 == i && locs[p].2 < m)),
                        forall|p: int| 0 <= p < ops@.len() ==> #[trigger] release_needed_by_some(sm, *res, tm, ops@[p]),
                        forall|t2: u32, i2: int, m2: int| #[trigger] needs_release(sm, *res, tm, t2, i2, m2)
                            && ((exists|kk: int| 0 <= kk < ki && keys@[kk] == t2) || (t2 == t && i2 < i) || (t2 == t && i2 == i && m2 < m))
                            ==> (exists|p: int| 0 <= p < ops@.len() && #[trigger] release_for(sm, *res, tm, ops@[p], t2, i2, m2))
                                && !no_track_for(tm, owner_family(*res, sm[t2].nodes@[i2].dependencies@[m2].dep)->0),
                    decreases nd - m,
                {
                    let dep = node.dependencies[m];
                    if let DepPart::Import = dep.participant {
                        let owner = match dep.dep.owned_state(res) {
                            Some((ownership, _)) => ownership.owner(),
                            None => None,
                        };
                        if let Some(current_owner) = owner {
                            if current_owner != family {
                                let owner_track = match tracks.queue_idx_to_trackid(current_owner) {
                                    Some(id) => id,
                                    None => {
                                        proof {
                                            assert(needs_release(sm, *res, tm, t, i as int, m as int));
                                        }
                                        return Err(RecordError::NoSuchTrack(current_owner));
                                    },
                                };
                                let op = ReleaseOp { current_owner: owner_track, destination_owner: TrackId(t), res: dep.dep };
                                let ghost before = ops@;
                                let ghost before_locs = locs;
                                ops.push(op);
                                proof {
                                    locs = locs.push((ki as int, i as int, m as int));
                                    assert(locs.no_duplicates()) by {
                                        assert forall|a: int, c: int| 0 <= a < c < locs.len() implies locs[a] != locs[c] by {
                                            if c == locs.len() - 1 {
                                                assert(locs[a] == before_locs[a]);
                                            } else {
                                                assert(locs[a] == before_locs[a] && locs[c] == before_locs[c]);
                                            }
                                        }
                                    }
                                    assert forall|p: int| 0 <= p < locs.len() implies 0 <= (#[trigger] locs[p]).0 < keys@.len()
                                        && release_for(sm, *res, tm, ops@[p], keys@[locs[p].0], locs[p].1, locs[p].2)
                                        && (locs[p].0 < ki || (locs[p].0 == ki && locs[p].1 < i) || (locs[p].0 == ki && locs[p].1 == i && locs[p].2 < m + 1)) by {
                                        if p < before_locs.len() {
                                            assert(locs[p] == before_locs[p] && ops@[p] == before[p]);
                                        }
                                    }
                                    assert(release_for(sm, *res, tm, ops@[ops@.len() - 1], t, i as int, m as int));
                                    assert forall|p: int| 0 <= p < ops@.len() implies #[trigger] release_needed_by_some(sm, *res, tm, ops@[p]) by {
                                        if p < before.len() {
                                            assert(ops@[p] == before[p]);
                                        } else {
                                            assert(release_for(sm, *res, tm, ops@[p], t, i as int, m as int));
                                        }
                                    }
                                    assert forall|t2: u32, i2: int, m2: int| #[trigger] needs_release(sm, *res, tm, t2, i2, m2)
                                        && ((exists|kk: int| 0 <= kk < ki && keys@[kk] == t2) || (t2 == t && i2 < i) || (t2 == t && i2 == i && m2 < m + 1))
                                        implies (exists|p: int| 0 <= p < ops@.len() && #[trigger] release_for(sm, *res, tm, ops@[p], t2, i2, m2))
                                            && !no_track_for(tm, owner_family(*res, sm[t2].nodes@[i2].dependencies@[m2].dep)->0) by {
                                        if t2 == t && i2 == i && m2 == m {
                                            assert(release_for(sm, *res, tm, ops@[ops@.len() - 1], t2, i2, m2));
                                        } else {
                                            let p = choose|p: int| 0 <= p < before.len() && #[trigger] release_for(sm, *res, tm, before[p], t2, i2, m2);
                                            assert(ops@[p] == before[p]);
                                        }
                                    }
                                }
                            }
                        }
                    }
                    m = m + 1;
                }
                i = i + 1;
            }
            ki = ki + 1;
        }
        proof {
            assert forall|t: u32, i: int, m: int| #[trigger] needs_release(sm, *res, tm, t, i, m)
                implies (exists|p: int| 0 <= p < ops@.len() && #[trigger] release_for(sm, *res, tm, ops@[p], t, i, m))
                    && !no_track_for(tm, owner_family(*res, sm[t].nodes@[i].dependencies@[m].dep)->0) by {
                assert(keys@.to_set().contains(t));
                let kk = choose|kk: int| 0 <= kk < keys@.len() && keys@[kk] == t;
                assert(0 <= kk < ki && keys@[kk] == t);
            }
            assert(!exists|t: u32, i: int, m: int| #[trigger] needs_release(sm, *res, tm, t, i, m)
                && no_track_for(tm, owner_family(*res, sm[t].nodes@[i].dependencies@[m].dep)->0));
            assert(forall|p: int| 0 <= p < ops@.len()
                ==> #[trigger] release_needed_by_some(self.tracks(), *res, track_map(tracks.0), ops@[p]));
            assert(forall|t: u32, i: int, m: int| #[trigger] needs_release(self.tracks(), *res, track_map(tracks.0), t, i, m)
                ==> exists|p: int| 0 <= p < ops@.len() && #[trigger] release_for(self.tracks(), *res, track_map(tracks.0), ops@[p], t, i, m));
        }
        proof {
            if imports_unique(sm) {
                assert forall|p: int, q: int| 0 <= p < q < ops@.len() implies res_slot((#[trigger] ops@[p]).res) != res_slot((#[trigger] ops@[q]).res) by {
                    let lp = locs[p];
                    let lq = locs[q];
                    assert(lp != lq);
                    assert(release_for(sm, *res, tm, ops@[p], keys@[lp.0], lp.1, lp.2));
                    assert(release_for(sm, *res, tm, ops@[q], keys@[lq.0], lq.1, lq.2));
                    if lp.0 != lq.0 {
                        assert(keys@[lp.0] != keys@[lq.0]);
                    }
                    assert(sm[keys@[lp.0]].nodes@[lp.1].dependencies@[lp.2] == sm[keys@[lp.0]].nodes@[lp.1].dependencies@[lp.2]);
                    assert(sm[keys@[lq.0]].nodes@[lq.1].dependencies@[lq.2] == sm[keys@[lq.0]].nodes@[lq.1].dependencies@[lq.2]);
                }
            }
        }
        let r = Ok(ops);
        proof {
            assert(r matches Ok(ops2) && ops2@ == ops@);
        }
        r
    }

    /// For each track of the schedule that releases resources in `ops`,
    /// allocates the next guard of the track, under which its releases run,
    /// and returns the tracks with their guards.
    pub fn alloc_release_guards(&self, tracks: &mut Tracks, ops: &Vec<ReleaseOp>) -> (r: Vec<(TrackId, Guard)>)
        requires
            self.wf(),
            forall|t: u32| #[trigger] self.tracks().contains_key(t) ==> track_map(old(tracks).0).contains_key(t)
                && track_map(old(tracks).0)[t].latest_signaled_value < u64::MAX,
        ensures
            track_map(final(tracks).0).dom() == track_map(old(tracks).0).dom(),
            forall|k: u32| #[trigger] track_map(final(tracks).0).contains_key(k) ==> track_map(final(tracks).0)[k]
                == (if self.tracks().contains_key(k) && releases_from(ops@, k) {
                    with_next_guard(track_map(old(tracks).0)[k])
                } else {
                    track_map(old(tracks).0)[k]
                }),
            forall|p: int| 0 <= p < r@.len() ==> self.tracks().contains_key((#[trigger] r@[p]).0.0)
                && releases_from(ops@, r@[p].0.0)
                && r@[p].1 == next_guard_of(track_map(old(tracks).0)[r@[p].0.0]),
            forall|p: int, q: int| 0 <= p < q < r@.len() ==> (#[trigger] r@[p]).0 != (#[trigger] r@[q]).0,
            forall|t: u32| #[trigger] self.tracks().contains_key(t) && releases_from(ops@, t) ==> lists_track(r@, TrackId(t)),
    {
        let ghost sm = self.tracks();
        let ghost tm0 = track_map(tracks.0);
        let keys = schedule_map_keys(&self.schedule.tracks);
        let mut out: Vec<(TrackId, Guard)> = Vec::new();
        let mut ki: usize = 0;
        while ki < keys.len()
            invariant
                sm == self.tracks(),
                forall|t: u32| #[trigger] sm.contains_key(t) ==> tm0.contains_key(t) && tm0[t].latest_signaled_value < u64::MAX,
                keys@.to_set() == sm.dom(),
                keys@.no_duplicates(),
                ki <= keys@.len(),
                track_map(tracks.0).dom() == tm0.dom(),
                forall|k: u32| #[trigger] track_map(tracks.0).contains_key(k) ==> track_map(tracks.0)[k]
                    == (if (exists|kk: int| 0 <= kk < ki && keys@[kk] == k) && releases_from(ops@, k) {
                        with_next_guard(tm0[k])
                    } else {
                        tm0[k]
                    }),
                forall|p: int| 0 <= p < out@.len() ==> (exists|kk: int| 0 <= kk < ki && keys@[kk] == (#[trigger] out@[p]).0.0)
                    && releases_from(ops@, out@[p].0.0)
                    && out@[p].1 == next_guard_of(tm0[out@[p].0.0]),
                forall|p: int, q: int| 0 <= p < q < out@.len() ==> (#[trigger] out@[p]).0 != (#[trigger] out@[q]).0,
                forall|kk: int| 0 <= kk < ki && releases_from(ops@, #[trigger] keys@[kk]) ==> lists_track(out@, TrackId(keys@[kk])),
            decreases keys@.len() - ki,
        {
            let t = keys[ki];
            proof {
                assert(keys@.to_set().contains(t));
            }
            let mut has = false;
            let mut p: usize = 0;
            while p < ops.len()
                invariant
                    p <= ops@.len(),
                    has == exists|q: int| 0 <= q < p && #[trigger] ops@[q].current_owner == TrackId(t),
                decreases ops@.len() - p,
            {
                if ops[p].current_owner.0 == t {
                    has = true;
                }
                p = p + 1;
            }
            let ghost before = out@;
            let ghost tmb = track_map(tracks.0);
            if has {
                proof {
                    assert(releases_from(ops@, t));
                    assert forall|kk: int| 0 <= kk < ki implies keys@[kk] != t by {}
                    assert(tmb[t] == tm0[t]);
                }
                let g = tracks.next_guard_for(TrackId(t));
                out.push((TrackId(t), g));
                proof {
                    assert(out@[out@.len() - 1] == (TrackId(t), g));
                    assert forall|p2: int| 0 <= p2 < out@.len() implies (exists|kk: int| 0 <= kk < ki + 1 && keys@[kk] == (#[trigger] out@[p2]).0.0)
                        && releases_from(ops@, out@[p2].0.0)
                        && out@[p2].1 == next_guard_of(tm0[out@[p2].0.0]) by {
                        if p2 < before.len() {
                            assert(out@[p2] == before[p2]);
                        } else {
                            assert(keys@[ki as int] == t);
                        }
                    }
                    assert forall|a: int, b: int| 0 <= a < b < out@.len() implies (#[trigger] out@[a]).0 != (#[trigger] out@[b]).0 by {
                        if b == out@.len() - 1 {
                            assert(out@[a] == before[a]);
                            let kk = choose|kk: int| 0 <= kk < ki && keys@[kk] == before[a].0.0;
                            assert(keys@[kk] != keys@[ki as int]);
                        } else {
                            assert(out@[a] == before[a] && out@[b] == before[b]);
                        }
                    }
                    assert forall|kk: int| 0 <= kk < ki + 1 && releases_from(ops@, #[trigger] keys@[kk]) implies lists_track(out@, TrackId(keys@[kk])) by {
                        if kk < ki {
                            let j = choose|j: int| 0 <= j < before.len() && before[j].0 == TrackId(keys@[kk]);
                            assert(out@[j] == before[j]);
                        } else {
                            assert(out@[out@.len() - 1].0 == TrackId(keys@[kk]));
                        }
                    }
                    assert forall|k: u32| #[trigger] track_map(tracks.0).contains_key(k) implies track_map(tracks.0)[k]
                        == (if (exists|kk: int| 0 <= kk < ki + 1 && keys@[kk] == k) && releases_from(ops@, k) {
                            with_next_guard(tm0[k])
                        } else {
                            tm0[k]
                        }) by {
                        if k == t {
                            assert(keys@[ki as int] == k);
                        } else {
                            if exists|kk: int| 0 <= kk < ki + 1 && keys@[kk] == k {
                                let kk = choose|kk: int| 0 <= kk < ki + 1 && keys@[kk] == k;
                                assert(kk < ki);
                            }
                        }
                    }
                }
            } else {
                proof {
                    assert(!releases_from(ops@, t));
                    assert forall|k: u32| #[trigger] track_map(tracks.0).contains_key(k) implies track_map(tracks.0)[k]
                        == (if (exists|kk: int| 0 <= kk < ki + 1 && keys@[kk] == k) && releases_from(ops@, k) {
                            with_next_guard(tm0[k])
                        } else {
                            tm0[k]
                        }) by {
                        if k != t {
                            if exists|kk: int| 0 <= kk < ki + 1 && keys@[kk] == k {
                                let kk = choose|kk: int| 0 <= kk < ki + 1 && keys@[kk] == k;
                                assert(kk < ki);
                            }
                        }
                    }
                    assert forall|p2: int| 0 <= p2 < out@.len() implies (exists|kk: int| 0 <= kk < ki + 1 && keys@[kk] == (#[trigger] out@[p2]).0.0)
                        && releases_from(ops@, out@[p2].0.0)
                        && out@[p2].1 == next_guard_of(tm0[out@[p2].0.0]) by {
                    }
                }
            }
            ki = ki + 1;
        }
        proof {
            assert forall|k: u32| #[trigger] track_map(tracks.0).contains_key(k) implies track_map(tracks.0)[k]
                == (if sm.contains_key(k) && releases_from(ops@, k) { with_next_guard(tm0[k]) } else { tm0[k] }) by {
                if sm.contains_key(k) {
                    assert(keys@.to_set().contains(k));
                    let kk = choose|kk: int| 0 <= kk < keys@.len() && keys@[kk] == k;
                }
            }
            assert forall|t: u32| #[trigger] sm.contains_key(t) && releases_from(ops@, t) implies lists_track(out@, TrackId(t)) by {
                assert(keys@.to_set().contains(t));
                let kk = choose|kk: int| 0 <= kk < keys@.len() && keys@[kk] == t;
                assert(releases_from(ops@, keys@[kk]));
            }
            assert forall|p: int| 0 <= p < out@.len() implies sm.contains_key((#[trigger] out@[p]).0.0) by {
                let kk = choose|kk: int| 0 <= kk < ki && keys@[kk] == out@[p].0.0;
                assert(keys@.to_set().contains(keys@[kk]));
            }
        }
        out
    }

    /// Prepares every import of a resource that another queue family owns:
    /// finds the releases, releases the resources from their owners to the
    /// importing tracks, allocates one guard per releasing track and puts the
    /// released resources under it. Returns the releases, the guards the
    /// resources had (which the releases wait for), and the releasing tracks
    /// with their guards. Fails, changing nothing, if no track works on an
    /// owning queue family.
    pub fn schedule_import_release_frame(&self, res: &mut Resources, tracks: &mut Tracks)
        -> (r: Result<(Vec<ReleaseOp>, Vec<Guard>, Vec<(TrackId, Guard)>), RecordError>)
        requires
            self.wf(),
            imports_unique(self.tracks()),
            self.tracks().dom() == track_map(old(tracks).0).dom(),
            forall|t: u32| #[trigger] self.tracks().contains_key(t) ==> track_map(old(tracks).0)[t].latest_signaled_value < u64::MAX,
            old(res).wf(),
        ensures
            final(res).wf(),
            final(res).bindless == old(res).bindless,
            final(res).sampler_states() == old(res).sampler_states(),
            r is Err <==> release_blocked(self.tracks(), *old(res), track_map(old(tracks).0)),
            r matches Err(e) ==> release_error(self.tracks(), *old(res), track_map(old(tracks).0), e)
                && *final(res) == *old(res) && *final(tracks) == *old(tracks),
            r matches Ok((ops, waits, rg)) ==> import_releases_done(self.tracks(), *old(res), track_map(old(tracks).0),
                *final(res), track_map(final(tracks).0), ops@, waits@, rg@),
    {
        let ghost sm = self.tracks();
        let ghost tm0 = track_map(tracks.0);
        let ops = match self.collect_release_ops(res, tracks) {
            Ok(o) => o,
            Err(e) => {
                return Err(e);
            },
        };
        proof {
            assert forall|p: int| 0 <= p < ops@.len() implies tm0.contains_key((#[trigger] ops@[p]).current_owner.0)
                && tm0.contains_key(ops@[p].destination_owner.0) && in_states(res.owned_states(), ops@[p].res) by {
                assert(release_needed_by_some(sm, *res, tm0, ops@[p]));
                let (t, i, m) = choose|t: u32, i: int, m: int| #[trigger] release_for(sm, *res, tm0, ops@[p], t, i, m);
                assert(sm.contains_key(t));
            }
            lemma_release_all_ok(res.owned_states(), ops@, tm0);
        }
        let ghost s_before = res.owned_states();
        let waits = match res.release_all(&ops, tracks) {
            Ok(w) => w,
            Err(e) => {
                return Err(e);
            },
        };
        let ghost s1 = res.owned_states();
        let rg = self.alloc_release_guards(tracks, &ops);
        proof {
            assert forall|p: int| 0 <= p < ops@.len() implies lists_track(rg@, (#[trigger] ops@[p]).current_owner) by {
                assert(release_needed_by_some(sm, *old(res), tm0, ops@[p]));
                let (t, i, m) = choose|t: u32, i: int, m: int| #[trigger] release_for(sm, *old(res), tm0, ops@[p], t, i, m);
                let c = ops@[p].current_owner.0;
                assert(sm.contains_key(c));
                assert(releases_from(ops@, c));
            }
        }
        res.set_release_guards(&ops, &rg);
        proof {
            assert forall|k: u32| #[trigger] track_map(tracks.0).contains_key(k) implies track_map(tracks.0)[k]
                == (if releases_from(ops@, k) { with_next_guard(tm0[k]) } else { tm0[k] }) by {
                assert(sm.contains_key(k));
            }
        }
        Ok((ops, waits, rg))
    }
}

} // verus!
