//! Running the frames of a schedule in their order: each frame allocates its
//! execution guard on its track and acquires under it what it takes over.
//! Imported resources are released to the importing track only, and a
//! resource that a node takes over from another track was acquired by a
//! frame that ran before, so no frame finds a resource released to another
//! queue family.
use vstd::prelude::*;
use crate::error::RecordError;
use crate::executor::{
    Executor, frame_ready, node_executed, runs_so_far, count_runs, lemma_count_runs_push, valid_run_order,
    takes_over, node_takeovers, taken_over, frame_takeovers, next_guard_of, with_next_guard, valid_dep,
    lemma_frames_prefix, prefix_end,
};
use crate::maps::{slot_canon, track_map};
use crate::resources::Resources;
use crate::res_states::{AnyResKey, QueueOwnership};
use crate::schedule::{DepPart, Dependency, TrackSchedule, deps_earlier, frames_wf, frame_contains, track_wf};
use crate::track::{Guard, Track, TrackId, Tracks};
use crate::transfer::{OwnedStates, QueueTransfer, acquire_all, acquire_all_ready, acquire_step, acquire_ready, res_slot, in_states, release_all, guards_for};
use crate::executor::{ReleaseOp, imports_unique, import_releases_done, release_needed_by_some, release_for, needs_release, release_blocked, release_error};
use crate::maps::schedule_map;
use crate::schedule::{TaskSchedule, frames_end, frames_stamped};

verus! {

/// `a + b` holds `x` exactly when `a` or `b` does.
proof fn lemma_concat_contains<A>(a: Seq<A>, b: Seq<A>, x: A)
    ensures
        (a + b).contains(x) <==> a.contains(x) || b.contains(x),
{
    if (a + b).contains(x) {
        let j = choose|j: int| 0 <= j < (a + b).len() && (a + b)[j] == x;
        if j < a.len() {
            assert(a[j] == x);
        } else {
            assert(b[j - a.len()] == x);
        }
    }
    if a.contains(x) {
        let j = choose|j: int| 0 <= j < a.len() && a[j] == x;
        assert((a + b)[j] == x);
    }
    if b.contains(x) {
        let j = choose|j: int| 0 <= j < b.len() && b[j] == x;
        assert((a + b)[a.len() + j] == x);
    }
}

/// What a node takes over: the resources of its dependencies that take over.
proof fn lemma_node_takeovers_contains(t: u32, deps: Seq<Dependency>, x: AnyResKey)
    ensures
        node_takeovers(t, deps).contains(x) <==> exists|m: int| 0 <= m < deps.len() && takes_over(t, deps[m])
            && #[trigger] deps[m].dep == x,
    decreases deps.len(),
{
    if deps.len() > 0 {
        let d = deps.drop_last();
        lemma_node_takeovers_contains(t, d, x);
        let tail = if takes_over(t, deps.last()) { seq![deps.last().dep] } else { Seq::<AnyResKey>::empty() };
        lemma_concat_contains(node_takeovers(t, d), tail, x);
        if node_takeovers(t, deps).contains(x) {
            if node_takeovers(t, d).contains(x) {
                let m = choose|m: int| 0 <= m < d.len() && takes_over(t, d[m]) && #[trigger] d[m].dep == x;
                assert(deps[m] == d[m]);
            } else {
                assert(tail.contains(x));
                assert(tail[0] == x);
                assert(deps[deps.len() - 1].dep == x);
            }
        }
        if exists|m: int| 0 <= m < deps.len() && takes_over(t, deps[m]) && #[trigger] deps[m].dep == x {
            let m = choose|m: int| 0 <= m < deps.len() && takes_over(t, deps[m]) && #[trigger] deps[m].dep == x;
            if m < d.len() {
                assert(d[m] == deps[m]);
            } else {
                assert(tail[0] == x);
            }
        }
    }
}

/// What nodes `from..to` of track `t` take over.
proof fn lemma_taken_over_contains(sm: Map<u32, TrackSchedule>, t: u32, from: int, to: int, x: AnyResKey)
    ensures
        taken_over(sm, t, from, to).contains(x) <==> exists|i: int, m: int| from <= i < to
            && 0 <= m < sm[t].nodes@[i].dependencies@.len()
            && takes_over(t, sm[t].nodes@[i].dependencies@[m])
            && #[trigger] sm[t].nodes@[i].dependencies@[m].dep == x,
    decreases to - from,
{
    if to > from {
        lemma_taken_over_contains(sm, t, from, to - 1, x);
        let deps = sm[t].nodes@[to - 1].dependencies@;
        lemma_node_takeovers_contains(t, deps, x);
        lemma_concat_contains(taken_over(sm, t, from, to - 1), node_takeovers(t, deps), x);
        if taken_over(sm, t, from, to).contains(x) {
            if !taken_over(sm, t, from, to - 1).contains(x) {
                let m = choose|m: int| 0 <= m < deps.len() && takes_over(t, deps[m]) && #[trigger] deps[m].dep == x;
                assert(sm[t].nodes@[to - 1].dependencies@[m].dep == x);
            }
        }
        if exists|i: int, m: int| from <= i < to
            && 0 <= m < sm[t].nodes@[i].dependencies@.len()
            && takes_over(t, sm[t].nodes@[i].dependencies@[m])
            && #[trigger] sm[t].nodes@[i].dependencies@[m].dep == x {
            let (i, m) = choose|i: int, m: int| from <= i < to
                && 0 <= m < sm[t].nodes@[i].dependencies@.len()
                && takes_over(t, sm[t].nodes@[i].dependencies@[m])
                && #[trigger] sm[t].nodes@[i].dependencies@[m].dep == x;
            if i == to - 1 {
                assert(deps[m].dep == x);
            }
        }
    }
}

/// The ownership of image or buffer `key` in `s`; none for samplers and for
/// resources that are not in `s`.
pub open spec fn ownership_at(s: OwnedStates, key: AnyResKey) -> Option<QueueOwnership> {
    match key {
        AnyResKey::Image(k) => if s.images.contains_key(slot_canon(k.0)) {
            Some(s.images[slot_canon(k.0)].ownership)
        } else {
            None
        },
        AnyResKey::Buffer(k) => if s.buffers.contains_key(slot_canon(k.0)) {
            Some(s.buffers[slot_canon(k.0)].ownership)
        } else {
            None
        },
        AnyResKey::Sampler(_) => None,
    }
}

/// Slot `sl` was taken over by a node that has run, `nx` counting the
/// frames run on each track.
pub open spec fn slot_taken(sm: Map<u32, TrackSchedule>, nx: Map<u32, usize>, sl: (u8, u64)) -> bool {
    exists|t: u32, i: int, m: int| #![trigger sm[t].nodes@[i].dependencies@[m]]
        node_executed(sm, nx, t, i) && valid_dep(sm, t, i, m)
        && takes_over(t, sm[t].nodes@[i].dependencies@[m])
        && res_slot(sm[t].nodes@[i].dependencies@[m].dep) == sl
}

/// The ownerships in `s` follow the run so far from `s1`: the slots that a
/// node that ran took over are owned, all others are as in `s1`.
pub open spec fn run_state(sm: Map<u32, TrackSchedule>, nx: Map<u32, usize>, s1: OwnedStates, s: OwnedStates) -> bool {
    &&& s.images.dom() == s1.images.dom()
    &&& s.buffers.dom() == s1.buffers.dom()
    &&& forall|c: u64| #[trigger] s.images.contains_key(c) ==> if slot_taken(sm, nx, (0u8, c)) {
        s.images[c].ownership is Owned
    } else {
        s.images[c].ownership == s1.images[c].ownership
    }
    &&& forall|c: u64| #[trigger] s.buffers.contains_key(c) ==> if slot_taken(sm, nx, (1u8, c)) {
        s.buffers[c].ownership is Owned
    } else {
        s.buffers[c].ownership == s1.buffers[c].ownership
    }
}

/// Image or buffer `key` is not released in `s`.
pub open spec fn not_released(s: OwnedStates, key: AnyResKey) -> bool {
    match ownership_at(s, key) {
        Some(QueueOwnership::Released { src_family, dst_family }) => false,
        _ => true,
    }
}

/// Every image and buffer the schedule depends on is in `s`.
pub open spec fn deps_in_store(sm: Map<u32, TrackSchedule>, s: OwnedStates) -> bool {
    forall|t: u32, i: int, m: int| #![trigger sm[t].nodes@[i].dependencies@[m]]
        valid_dep(sm, t, i, m) ==> in_states(s, sm[t].nodes@[i].dependencies@[m].dep)
}

/// What an import finds released in `s` was released to the queue family of
/// the importing track.
pub open spec fn imports_match(sm: Map<u32, TrackSchedule>, s: OwnedStates, tm: Map<u32, Track>) -> bool {
    forall|t: u32, i: int, m: int| #![trigger sm[t].nodes@[i].dependencies@[m]]
        valid_dep(sm, t, i, m) && sm[t].nodes@[i].dependencies@[m].participant is Import
        ==> match ownership_at(s, sm[t].nodes@[i].dependencies@[m].dep) {
            Some(QueueOwnership::Released { src_family, dst_family }) => dst_family == tm[t].queue_idx,
            _ => true,
        }
}

/// A resource that a node which ran depends on was taken over by a node
/// which ran: following dependencies on the same track back to an earlier
/// node ends at a dependency that takes over.
proof fn lemma_executed_use_taken(sm: Map<u32, TrackSchedule>, nx: Map<u32, usize>, t: u32, i: int, m: int)
    requires
        deps_earlier(sm),
        valid_dep(sm, t, i, m),
        node_executed(sm, nx, t, i),
    ensures
        slot_taken(sm, nx, res_slot(sm[t].nodes@[i].dependencies@[m].dep)),
    decreases i,
{
    let d = sm[t].nodes@[i].dependencies@[m];
    if !takes_over(t, d) {
        let j = d.participant->node_idx as int;
        assert(j < i);
        let m2 = choose|m2: int| 0 <= m2 < sm[t].nodes@[j].dependencies@.len()
            && #[trigger] sm[t].nodes@[j].dependencies@[m2].dep == d.dep;
        assert(node_executed(sm, nx, t, j));
        lemma_executed_use_taken(sm, nx, t, j, m2);
    }
}

/// `keys` names slot `sl`.
pub open spec fn names(keys: Seq<AnyResKey>, sl: (u8, u64)) -> bool {
    exists|j: int| 0 <= j < keys.len() && #[trigger] res_slot(keys[j]) == sl
}

proof fn lemma_names_push(keys: Seq<AnyResKey>, key: AnyResKey, sl: (u8, u64))
    ensures
        names(keys.push(key), sl) <==> names(keys, sl) || res_slot(key) == sl,
{
    let q = keys.push(key);
    if names(q, sl) {
        let j = choose|j: int| 0 <= j < q.len() && #[trigger] res_slot(q[j]) == sl;
        if j < keys.len() {
            assert(keys[j] == q[j]);
        }
    }
    if names(keys, sl) {
        let j = choose|j: int| 0 <= j < keys.len() && #[trigger] res_slot(keys[j]) == sl;
        assert(q[j] == keys[j]);
    }
    if res_slot(key) == sl {
        assert(q[keys.len() as int] == key);
    }
}

/// The node range of frame `k` of track `t` lies within its nodes.
pub open spec fn frame_in_nodes(sm: Map<u32, TrackSchedule>, t: u32, k: int) -> bool {
    &&& sm.contains_key(t)
    &&& 0 <= k < sm[t].frames@.len()
    &&& sm[t].frames@[k].start + sm[t].frames@[k].len <= sm[t].nodes@.len()
}

/// Acquiring, one after the other, the first `n` resources that a ready
/// frame takes over never finds a resource released to another queue
/// family; and, while it succeeds, the slots it names become owned by the
/// frame's family, the others stay as they were.
proof fn lemma_frame_acquire(
    sm: Map<u32, TrackSchedule>,
    nx: Map<u32, usize>,
    tm: Map<u32, Track>,
    s1: OwnedStates,
    s: OwnedStates,
    t: u32,
    k: int,
    n: int,
    g: Guard,
)
    requires
        deps_earlier(sm),
        deps_in_store(sm, s1),
        imports_match(sm, s1, tm),
        run_state(sm, nx, s1, s),
        frame_in_nodes(sm, t, k),
        frame_ready(sm, nx, t, k),
        0 <= n <= frame_takeovers(sm, t, k).len(),
    ensures
        acquire_all_ready(s, frame_takeovers(sm, t, k).take(n), tm[t].queue_idx, g),
        acquire_all(s, frame_takeovers(sm, t, k).take(n), tm[t].queue_idx, g) matches Ok((s2, _, _)) ==> {
            &&& s2.images.dom() == s.images.dom()
            &&& s2.buffers.dom() == s.buffers.dom()
            &&& forall|c: u64| #[trigger] s2.images.contains_key(c) ==> s2.images[c].ownership == if names(frame_takeovers(sm, t, k).take(n), (0u8, c)) {
                QueueOwnership::Owned(tm[t].queue_idx)
            } else {
                s.images[c].ownership
            }
            &&& forall|c: u64| #[trigger] s2.buffers.contains_key(c) ==> s2.buffers[c].ownership == if names(frame_takeovers(sm, t, k).take(n), (1u8, c)) {
                QueueOwnership::Owned(tm[t].queue_idx)
            } else {
                s.buffers[c].ownership
            }
        },
    decreases n,
{
    let keys = frame_takeovers(sm, t, k);
    let fam = tm[t].queue_idx;
    let kt = keys.take(n);
    if n == 0 {
        assert forall|sl: (u8, u64)| !names(kt, sl) by {}
        return;
    }
    lemma_frame_acquire(sm, nx, tm, s1, s, t, k, n - 1, g);
    let kp = keys.take(n - 1);
    assert(kt.drop_last() =~= kp);
    let key = keys[n - 1];
    assert(kt.last() == key);
    assert(kt =~= kp.push(key));
    assert forall|sl: (u8, u64)| names(kt, sl) <==> names(kp, sl) || res_slot(key) == sl by {
        lemma_names_push(kp, key, sl);
    }
    match acquire_all(s, kp, fam, g) {
        Err(_) => {},
        Ok((s2, _, _)) => {
            // Where the key comes from: a dependency of a node of the frame that takes over.
            assert(keys.contains(key)) by {
                assert(keys[n - 1] == key);
            }
            let f = sm[t].frames@[k];
            lemma_taken_over_contains(sm, t, f.start as int, f.start + f.len, key);
            let (i, m) = choose|i: int, m: int| f.start <= i < f.start + f.len
                && 0 <= m < sm[t].nodes@[i].dependencies@.len()
                && takes_over(t, sm[t].nodes@[i].dependencies@[m])
                && #[trigger] sm[t].nodes@[i].dependencies@[m].dep == key;
            let d = sm[t].nodes@[i].dependencies@[m];
            assert(valid_dep(sm, t, i, m));
            assert(in_states(s1, key));
            match key {
                AnyResKey::Sampler(_) => {},
                AnyResKey::Image(kk) => {
                    let c = slot_canon(kk.0);
                    assert(s2.images.contains_key(c));
                    if !names(kp, (0u8, c)) && !slot_taken(sm, nx, (0u8, c)) {
                        assert(s2.images[c].ownership == s1.images[c].ownership);
                        if let DepPart::Scheduled { track, node_idx } = d.participant {
                            assert(track.0 != t);
                            assert(frame_contains(sm[t].frames@[k], i));
                            assert(node_executed(sm, nx, track.0, node_idx as int));
                            let m2 = choose|m2: int| 0 <= m2 < sm[track.0].nodes@[node_idx as int].dependencies@.len()
                                && #[trigger] sm[track.0].nodes@[node_idx as int].dependencies@[m2].dep == d.dep;
                            lemma_executed_use_taken(sm, nx, track.0, node_idx as int, m2);
                            assert(false);
                        }
                    }
                },
                AnyResKey::Buffer(kk) => {
                    let c = slot_canon(kk.0);
                    assert(s2.buffers.contains_key(c));
                    if !names(kp, (1u8, c)) && !slot_taken(sm, nx, (1u8, c)) {
                        assert(s2.buffers[c].ownership == s1.buffers[c].ownership);
                        if let DepPart::Scheduled { track, node_idx } = d.participant {
                            assert(track.0 != t);
                            assert(frame_contains(sm[t].frames@[k], i));
                            assert(node_executed(sm, nx, track.0, node_idx as int));
                            let m2 = choose|m2: int| 0 <= m2 < sm[track.0].nodes@[node_idx as int].dependencies@.len()
                                && #[trigger] sm[track.0].nodes@[node_idx as int].dependencies@[m2].dep == d.dep;
                            lemma_executed_use_taken(sm, nx, track.0, node_idx as int, m2);
                            assert(false);
                        }
                    }
                },
            }
            assert(acquire_ready(s2, key, fam));
        },
    }
}

/// After frame `k` of track `t`, the next frame of its track, has run:
/// the slots taken over so far are those before, and those the frame names.
proof fn lemma_taken_after_frame(sm: Map<u32, TrackSchedule>, nx: Map<u32, usize>, t: u32, k: int, sl: (u8, u64))
    requires
        nx.contains_key(t),
        nx[t] == k,
        frame_in_nodes(sm, t, k),
        frames_wf(sm[t].frames@),
        k + 1 <= usize::MAX,
    ensures
        slot_taken(sm, nx.insert(t, (k + 1) as usize), sl) <==> slot_taken(sm, nx, sl) || names(frame_takeovers(sm, t, k), sl),
{
    let nx2 = nx.insert(t, (k + 1) as usize);
    let frames = sm[t].frames@;
    let f = frames[k];
    lemma_frames_prefix(frames, k);
    assert(frames.take(k + 1).last() == f);
    assert(prefix_end(frames, k + 1) == f.start + f.len);
    assert forall|u: u32, i: int| #[trigger] node_executed(sm, nx2, u, i)
        <==> node_executed(sm, nx, u, i) || (u == t && frame_contains(f, i)) by {}
    let keys = frame_takeovers(sm, t, k);
    if slot_taken(sm, nx2, sl) {
        let (u, i, m) = choose|u: u32, i: int, m: int| #![trigger sm[u].nodes@[i].dependencies@[m]]
            node_executed(sm, nx2, u, i) && valid_dep(sm, u, i, m)
            && takes_over(u, sm[u].nodes@[i].dependencies@[m])
            && res_slot(sm[u].nodes@[i].dependencies@[m].dep) == sl;
        if !node_executed(sm, nx, u, i) {
            let x = sm[u].nodes@[i].dependencies@[m].dep;
            lemma_taken_over_contains(sm, t, f.start as int, f.start + f.len, x);
            assert(keys.contains(x));
            let j = choose|j: int| 0 <= j < keys.len() && keys[j] == x;
            assert(res_slot(keys[j]) == sl);
        }
    }
    if names(keys, sl) {
        let j = choose|j: int| 0 <= j < keys.len() && #[trigger] res_slot(keys[j]) == sl;
        let x = keys[j];
        assert(keys.contains(x));
        lemma_taken_over_contains(sm, t, f.start as int, f.start + f.len, x);
        let (i, m) = choose|i: int, m: int| f.start <= i < f.start + f.len
            && 0 <= m < sm[t].nodes@[i].dependencies@.len()
            && takes_over(t, sm[t].nodes@[i].dependencies@[m])
            && #[trigger] sm[t].nodes@[i].dependencies@[m].dep == x;
        assert(node_executed(sm, nx2, t, i));
        assert(valid_dep(sm, t, i, m));
    }
    if slot_taken(sm, nx, sl) {
        let (u, i, m) = choose|u: u32, i: int, m: int| #![trigger sm[u].nodes@[i].dependencies@[m]]
            node_executed(sm, nx, u, i) && valid_dep(sm, u, i, m)
            && takes_over(u, sm[u].nodes@[i].dependencies@[m])
            && res_slot(sm[u].nodes@[i].dependencies@[m].dep) == sl;
        assert(node_executed(sm, nx2, u, i));
    }
}

/// Running the frames `order` one after the other from states `s` and tracks
/// `tm`: each frame allocates the next guard of its track and acquires under
/// it what it takes over (`acquire_all`). Gives the final states and tracks,
/// and for each frame its guard, its transfer barriers and the guards it
/// waits for; or the first failure, with the states and tracks it left.
pub open spec fn frames_run(sm: Map<u32, TrackSchedule>, s: OwnedStates, tm: Map<u32, Track>, order: Seq<(TrackId, usize)>)
    -> Result<(OwnedStates, Map<u32, Track>, Seq<(Guard, Seq<QueueTransfer>, Seq<Guard>)>), (RecordError, OwnedStates, Map<u32, Track>)>
    decreases order.len(),
{
    if order.len() == 0 {
        Ok((s, tm, Seq::empty()))
    } else {
        match frames_run(sm, s, tm, order.drop_last()) {
            Err(e) => Err(e),
            Ok((s2, tm2, fr)) => {
                let t = order.last().0.0;
                let k = order.last().1 as int;
                let g = next_guard_of(tm2[t]);
                let tm3 = tm2.insert(t, with_next_guard(tm2[t]));
                match acquire_all(s2, frame_takeovers(sm, t, k), tm2[t].queue_idx, g) {
                    Ok((s3, ts, gs)) => Ok((s3, tm3, fr.push((g, ts, gs)))),
                    Err((e, s3)) => Err((e, s3, tm3)),
                }
            },
        }
    }
}

/// Once running a prefix of the frames fails, running all of them fails the
/// same way.
proof fn lemma_frames_run_err_extends(sm: Map<u32, TrackSchedule>, s: OwnedStates, tm: Map<u32, Track>, order: Seq<(TrackId, usize)>, n: int)
    requires
        0 <= n <= order.len(),
        frames_run(sm, s, tm, order.take(n)) is Err,
    ensures
        frames_run(sm, s, tm, order) == frames_run(sm, s, tm, order.take(n)),
    decreases order.len(),
{
    if n < order.len() {
        assert(order.drop_last().take(n) =~= order.take(n));
        lemma_frames_run_err_extends(sm, s, tm, order.drop_last(), n);
    } else {
        assert(order.take(n) =~= order);
    }
}

/// The frames counted per track after one more frame of track `t` ran.
proof fn lemma_runs_so_far_push(sm: Map<u32, TrackSchedule>, order: Seq<(TrackId, usize)>, x: (TrackId, usize))
    requires
        sm.contains_key(x.0.0),
        sm[x.0.0].frames@.len() > 0,
        count_runs(order, x.0.0) + 1 <= usize::MAX,
    ensures
        runs_so_far(sm, order.push(x)) == runs_so_far(sm, order).insert(x.0.0, (count_runs(order, x.0.0) + 1) as usize),
{
    assert forall|t: u32| count_runs(order.push(x), t) == count_runs(order, t) + (if x.0.0 == t { 1nat } else { 0nat }) by {
        lemma_count_runs_push(order, x, t);
    }
    assert(runs_so_far(sm, order.push(x)) =~= runs_so_far(sm, order).insert(x.0.0, (count_runs(order, x.0.0) + 1) as usize));
}

/// What the run needs of the schedule, its run order, the store and the
/// tracks it starts from.
pub open spec fn run_ready(sm: Map<u32, TrackSchedule>, order: Seq<(TrackId, usize)>, s1: OwnedStates, tm1: Map<u32, Track>) -> bool {
    &&& forall|t: u32| #[trigger] sm.contains_key(t) ==> track_wf(sm[t]) && crate::schedule::frames_end(sm[t].frames@) == sm[t].nodes@.len()
    &&& valid_run_order(sm, order)
    &&& deps_earlier(sm)
    &&& deps_in_store(sm, s1)
    &&& imports_match(sm, s1, tm1)
    &&& forall|t: u32| #[trigger] sm.contains_key(t) ==> tm1.contains_key(t)
        && tm1[t].latest_signaled_value + sm[t].frames@.len() < u64::MAX
}

/// The tracks after the frames `pre` ran: each allocated one guard per frame.
pub open spec fn tracks_after(tm1: Map<u32, Track>, pre: Seq<(TrackId, usize)>, tm: Map<u32, Track>) -> bool {
    &&& tm.dom() == tm1.dom()
    &&& forall|t: u32| #[trigger] tm1.contains_key(t) ==> tm[t] == (Track {
        latest_signaled_value: (tm1[t].latest_signaled_value + count_runs(pre, t)) as u64, ..tm1[t] })
}

/// Frame `p` of the run: the next frame of its track, ready to run.
proof fn lemma_run_step_frame(sm: Map<u32, TrackSchedule>, order: Seq<(TrackId, usize)>, tm1: Map<u32, Track>, p: int)
    requires
        forall|t: u32| #[trigger] sm.contains_key(t) ==> track_wf(sm[t]) && crate::schedule::frames_end(sm[t].frames@) == sm[t].nodes@.len(),
        valid_run_order(sm, order),
        forall|t: u32| #[trigger] sm.contains_key(t) ==> tm1.contains_key(t)
            && tm1[t].latest_signaled_value + sm[t].frames@.len() < u64::MAX,
        0 <= p < order.len(),
    ensures
        sm.contains_key(order[p].0.0),
        order[p].1 < sm[order[p].0.0].frames@.len(),
        frame_in_nodes(sm, order[p].0.0, order[p].1 as int),
        frames_wf(sm[order[p].0.0].frames@),
        frame_ready(sm, runs_so_far(sm, order.take(p)), order[p].0.0, order[p].1 as int),
        runs_so_far(sm, order.take(p)).contains_key(order[p].0.0),
        runs_so_far(sm, order.take(p))[order[p].0.0] == order[p].1,
        order[p].1 + 1 <= usize::MAX,
        runs_so_far(sm, order.take(p + 1)) == runs_so_far(sm, order.take(p)).insert(order[p].0.0, (order[p].1 + 1) as usize),
        tm1.contains_key(order[p].0.0),
        tm1[order[p].0.0].latest_signaled_value + count_runs(order.take(p), order[p].0.0) + 1 <= u64::MAX,
{
    let t = order[p].0.0;
    let pre = order.take(p);
    assert(order[p].1 < sm[t].frames@.len());
    assert(sm[t].frames.len() == sm[t].frames@.len());
    lemma_frames_prefix(sm[t].frames@, sm[t].frames@.len() as int);
    assert(sm[t].frames@.take(sm[t].frames@.len() as int) =~= sm[t].frames@);
    assert(order.take(p + 1) =~= pre.push(order[p]));
    lemma_runs_so_far_push(sm, pre, order[p]);
}

/// The track of a frame that is about to run, after the frames before.
proof fn lemma_run_step_track(tm1: Map<u32, Track>, pre: Seq<(TrackId, usize)>, tm: Map<u32, Track>, t: u32)
    requires
        tracks_after(tm1, pre, tm),
        tm1.contains_key(t),
        tm1[t].latest_signaled_value + count_runs(pre, t) + 1 <= u64::MAX,
    ensures
        tm.contains_key(t),
        tm[t].queue_idx == tm1[t].queue_idx,
        tm[t].latest_signaled_value < u64::MAX,
{
}

/// A ready frame can take over what it needs without meeting a release to
/// another queue family.
proof fn lemma_run_step_ready(
    sm: Map<u32, TrackSchedule>,
    nx: Map<u32, usize>,
    tm1: Map<u32, Track>,
    s1: OwnedStates,
    s: OwnedStates,
    t: u32,
    k: int,
    g: Guard,
)
    requires
        deps_earlier(sm),
        deps_in_store(sm, s1),
        imports_match(sm, s1, tm1),
        run_state(sm, nx, s1, s),
        frame_in_nodes(sm, t, k),
        frame_ready(sm, nx, t, k),
    ensures
        acquire_all_ready(s, frame_takeovers(sm, t, k), tm1[t].queue_idx, g),
{
    let keys = frame_takeovers(sm, t, k);
    lemma_frame_acquire(sm, nx, tm1, s1, s, t, k, keys.len() as int, g);
    assert(keys.take(keys.len() as int) =~= keys);
}

/// After a ready frame `k` of track `t`, the next of its track, took over
/// what it needs, the ownerships follow the run.
proof fn lemma_run_step_state(
    sm: Map<u32, TrackSchedule>,
    nx: Map<u32, usize>,
    nx2: Map<u32, usize>,
    tm1: Map<u32, Track>,
    s1: OwnedStates,
    s: OwnedStates,
    t: u32,
    k: int,
    g: Guard,
    s2: OwnedStates,
    ts: Seq<QueueTransfer>,
    gs: Seq<Guard>,
)
    requires
        deps_earlier(sm),
        deps_in_store(sm, s1),
        imports_match(sm, s1, tm1),
        run_state(sm, nx, s1, s),
        frame_in_nodes(sm, t, k),
        frames_wf(sm[t].frames@),
        frame_ready(sm, nx, t, k),
        nx.contains_key(t),
        nx[t] == k,
        k + 1 <= usize::MAX,
        nx2 == nx.insert(t, (k + 1) as usize),
        acquire_all(s, frame_takeovers(sm, t, k), tm1[t].queue_idx, g)
            == Ok::<(OwnedStates, Seq<QueueTransfer>, Seq<Guard>), (RecordError, OwnedStates)>((s2, ts, gs)),
    ensures
        run_state(sm, nx2, s1, s2),
{
    let keys = frame_takeovers(sm, t, k);
    lemma_frame_acquire(sm, nx, tm1, s1, s, t, k, keys.len() as int, g);
    assert(keys.take(keys.len() as int) =~= keys);
    assert forall|sl: (u8, u64)| slot_taken(sm, nx2, sl) <==> slot_taken(sm, nx, sl) || names(keys, sl) by {
        lemma_taken_after_frame(sm, nx, t, k, sl);
    }
    assert forall|c: u64| #[trigger] s2.images.contains_key(c) implies if slot_taken(sm, nx2, (0u8, c)) {
        s2.images[c].ownership is Owned
    } else {
        s2.images[c].ownership == s1.images[c].ownership
    } by {
        assert(slot_taken(sm, nx2, (0u8, c)) <==> slot_taken(sm, nx, (0u8, c)) || names(keys, (0u8, c)));
        assert(s.images.contains_key(c));
    }
    assert forall|c: u64| #[trigger] s2.buffers.contains_key(c) implies if slot_taken(sm, nx2, (1u8, c)) {
        s2.buffers[c].ownership is Owned
    } else {
        s2.buffers[c].ownership == s1.buffers[c].ownership
    } by {
        assert(slot_taken(sm, nx2, (1u8, c)) <==> slot_taken(sm, nx, (1u8, c)) || names(keys, (1u8, c)));
        assert(s.buffers.contains_key(c));
    }
}

/// After frame `p` of the run, its track allocated one more guard.
proof fn lemma_run_step_tracks(tm1: Map<u32, Track>, order: Seq<(TrackId, usize)>, p: int, tm: Map<u32, Track>)
    requires
        0 <= p < order.len(),
        tracks_after(tm1, order.take(p), tm),
        tm1.contains_key(order[p].0.0),
        tm1[order[p].0.0].latest_signaled_value + count_runs(order.take(p), order[p].0.0) + 1 <= u64::MAX,
    ensures
        tracks_after(tm1, order.take(p + 1), tm.insert(order[p].0.0, with_next_guard(tm[order[p].0.0]))),
{
    let x = order[p];
    let t = x.0.0;
    let pre = order.take(p);
    assert(order.take(p + 1) =~= pre.push(x));
    let tm2 = tm.insert(t, with_next_guard(tm[t]));
    assert forall|u: u32| #[trigger] tm1.contains_key(u) implies tm2[u] == (Track {
        latest_signaled_value: (tm1[u].latest_signaled_value + count_runs(order.take(p + 1), u)) as u64, ..tm1[u] }) by {
        lemma_count_runs_push(pre, x, u);
        if u == t {
            assert(tm[t].latest_signaled_value == tm1[t].latest_signaled_value + count_runs(pre, t));
        }
    }
    assert(tm2.dom() =~= tm1.dom());
}

/// After frame `p` of the run, the run so far is one frame longer.
proof fn lemma_run_step_result(
    sm: Map<u32, TrackSchedule>,
    order: Seq<(TrackId, usize)>,
    s1: OwnedStates,
    tm1: Map<u32, Track>,
    p: int,
    s: OwnedStates,
    tm: Map<u32, Track>,
    fr: Seq<(Guard, Seq<QueueTransfer>, Seq<Guard>)>,
    s2: OwnedStates,
    ts: Seq<QueueTransfer>,
    gs: Seq<Guard>,
)
    requires
        0 <= p < order.len(),
        frames_run(sm, s1, tm1, order.take(p)) == Ok::<(OwnedStates, Map<u32, Track>, Seq<(Guard, Seq<QueueTransfer>, Seq<Guard>)>), (RecordError, OwnedStates, Map<u32, Track>)>((s, tm, fr)),
        acquire_all(s, frame_takeovers(sm, order[p].0.0, order[p].1 as int), tm[order[p].0.0].queue_idx,
            next_guard_of(tm[order[p].0.0])) == Ok::<(OwnedStates, Seq<QueueTransfer>, Seq<Guard>), (RecordError, OwnedStates)>((s2, ts, gs)),
    ensures
        frames_run(sm, s1, tm1, order.take(p + 1)) == Ok::<(OwnedStates, Map<u32, Track>, Seq<(Guard, Seq<QueueTransfer>, Seq<Guard>)>), (RecordError, OwnedStates, Map<u32, Track>)>(
            (s2, tm.insert(order[p].0.0, with_next_guard(tm[order[p].0.0])), fr.push((next_guard_of(tm[order[p].0.0]), ts, gs)))),
{
    assert(order.take(p + 1).drop_last() =~= order.take(p));
    assert(order.take(p + 1).last() == order[p]);
}

/// Releasing `ops` keeps the store's slots; a slot that ends up released
/// was released so before, or by one of `ops` to the queue family of its
/// destination track.
proof fn lemma_release_all_ownership(s0: OwnedStates, ops: Seq<ReleaseOp>, tm: Map<u32, Track>)
    requires
        release_all(s0, ops, tm) is Ok,
    ensures
        forall|j: int| 0 <= j < ops.len() ==> in_states(s0, #[trigger] ops[j].res),
        ({
            let s1 = release_all(s0, ops, tm)->Ok_0.0;
            &&& s1.images.dom() == s0.images.dom()
            &&& s1.buffers.dom() == s0.buffers.dom()
            &&& forall|c: u64| #[trigger] s1.images.contains_key(c) ==> match s1.images[c].ownership {
                QueueOwnership::Released { src_family, dst_family } => s1.images[c].ownership == s0.images[c].ownership
                    || exists|j: int| 0 <= j < ops.len() && #[trigger] res_slot(ops[j].res) == (0u8, c)
                        && dst_family == tm[ops[j].destination_owner.0].queue_idx,
                _ => true,
            }
            &&& forall|c: u64| #[trigger] s1.buffers.contains_key(c) ==> match s1.buffers[c].ownership {
                QueueOwnership::Released { src_family, dst_family } => s1.buffers[c].ownership == s0.buffers[c].ownership
                    || exists|j: int| 0 <= j < ops.len() && #[trigger] res_slot(ops[j].res) == (1u8, c)
                        && dst_family == tm[ops[j].destination_owner.0].queue_idx,
                _ => true,
            }
        }),
    decreases ops.len(),
{
    if ops.len() > 0 {
        let d = ops.drop_last();
        lemma_release_all_ownership(s0, d, tm);
        let s2 = release_all(s0, d, tm)->Ok_0.0;
        let s1 = release_all(s0, ops, tm)->Ok_0.0;
        let op = ops.last();
        let jl = ops.len() - 1;
        assert(ops[jl] == op);
        assert forall|j: int| 0 <= j < ops.len() implies in_states(s0, #[trigger] ops[j].res) by {
            if j < jl {
                assert(ops[j] == d[j]);
            } else {
                assert(in_states(s2, op.res));
            }
        }
        assert forall|c: u64| #[trigger] s1.images.contains_key(c) implies match s1.images[c].ownership {
            QueueOwnership::Released { src_family, dst_family } => s1.images[c].ownership == s0.images[c].ownership
                || exists|j: int| 0 <= j < ops.len() && #[trigger] res_slot(ops[j].res) == (0u8, c)
                    && dst_family == tm[ops[j].destination_owner.0].queue_idx,
            _ => true,
        } by {
            if res_slot(op.res) == (0u8, c) {
            } else {
                assert(s1.images[c] == s2.images[c]);
                if let QueueOwnership::Released { src_family, dst_family } = s2.images[c].ownership {
                    if s2.images[c].ownership != s0.images[c].ownership {
                        let j = choose|j: int| 0 <= j < d.len() && #[trigger] res_slot(d[j].res) == (0u8, c)
                            && dst_family == tm[d[j].destination_owner.0].queue_idx;
                        assert(ops[j] == d[j]);
                    }
                }
            }
        }
        assert forall|c: u64| #[trigger] s1.buffers.contains_key(c) implies match s1.buffers[c].ownership {
            QueueOwnership::Released { src_family, dst_family } => s1.buffers[c].ownership == s0.buffers[c].ownership
                || exists|j: int| 0 <= j < ops.len() && #[trigger] res_slot(ops[j].res) == (1u8, c)
                    && dst_family == tm[ops[j].destination_owner.0].queue_idx,
            _ => true,
        } by {
            if res_slot(op.res) == (1u8, c) {
            } else {
                assert(s1.buffers[c] == s2.buffers[c]);
                if let QueueOwnership::Released { src_family, dst_family } = s2.buffers[c].ownership {
                    if s2.buffers[c].ownership != s0.buffers[c].ownership {
                        let j = choose|j: int| 0 <= j < d.len() && #[trigger] res_slot(d[j].res) == (1u8, c)
                            && dst_family == tm[d[j].destination_owner.0].queue_idx;
                        assert(ops[j] == d[j]);
                    }
                }
            }
        }
        assert(s1.images.dom() =~= s0.images.dom());
        assert(s1.buffers.dom() =~= s0.buffers.dom());
    }
}

/// Putting released resources under guards changes no ownership and keeps
/// the slots, the resources being in the store.
proof fn lemma_guards_for_ownership(s: OwnedStates, ops: Seq<ReleaseOp>, rg: Seq<(TrackId, Guard)>)
    requires
        forall|j: int| 0 <= j < ops.len() ==> in_states(s, #[trigger] ops[j].res),
    ensures
        guards_for(s, ops, rg).images.dom() == s.images.dom(),
        guards_for(s, ops, rg).buffers.dom() == s.buffers.dom(),
        forall|c: u64| #[trigger] guards_for(s, ops, rg).images.contains_key(c)
            ==> guards_for(s, ops, rg).images[c].ownership == s.images[c].ownership,
        forall|c: u64| #[trigger] guards_for(s, ops, rg).buffers.contains_key(c)
            ==> guards_for(s, ops, rg).buffers[c].ownership == s.buffers[c].ownership,
    decreases ops.len(),
{
    if ops.len() > 0 {
        let d = ops.drop_last();
        assert forall|j: int| 0 <= j < d.len() implies in_states(s, #[trigger] d[j].res) by {
            assert(d[j] == ops[j]);
        }
        lemma_guards_for_ownership(s, d, rg);
        assert(in_states(s, ops[ops.len() - 1].res));
        let g2 = guards_for(s, d, rg);
        let g1 = guards_for(s, ops, rg);
        assert(g1.images.dom() =~= s.images.dom());
        assert(g1.buffers.dom() =~= s.buffers.dom());
    }
}

/// Preparing the imports keeps in the store what the schedule depends on,
/// and an import then finds a resource released only to its own queue
/// family, given that it did before.
proof fn lemma_release_keeps_imports(
    sm: Map<u32, TrackSchedule>,
    res0: Resources,
    tm0: Map<u32, Track>,
    res1: Resources,
    tm1: Map<u32, Track>,
    ops: Seq<ReleaseOp>,
    waits: Seq<Guard>,
    rg: Seq<(TrackId, Guard)>,
)
    requires
        imports_unique(sm),
        deps_in_store(sm, res0.owned_states()),
        imports_match(sm, res0.owned_states(), tm0),
        import_releases_done(sm, res0, tm0, res1, tm1, ops, waits, rg),
        forall|t: u32| #[trigger] sm.contains_key(t) ==> tm0.contains_key(t),
    ensures
        deps_in_store(sm, res1.owned_states()),
        imports_match(sm, res1.owned_states(), tm1),
{
    let s0 = res0.owned_states();
    lemma_release_all_ownership(s0, ops, tm0);
    let s1 = release_all(s0, ops, tm0)->Ok_0.0;
    assert forall|j: int| 0 <= j < ops.len() implies in_states(s1, #[trigger] ops[j].res) by {
        assert(in_states(s0, ops[j].res));
    }
    lemma_guards_for_ownership(s1, ops, rg);
    let s2 = res1.owned_states();
    assert(s2 == guards_for(s1, ops, rg));
    assert forall|t: u32, i: int, m: int| #![trigger sm[t].nodes@[i].dependencies@[m]]
        valid_dep(sm, t, i, m) implies in_states(s2, sm[t].nodes@[i].dependencies@[m].dep) by {
        assert(in_states(s0, sm[t].nodes@[i].dependencies@[m].dep));
    }
    assert forall|t: u32, i: int, m: int| #![trigger sm[t].nodes@[i].dependencies@[m]]
        valid_dep(sm, t, i, m) && sm[t].nodes@[i].dependencies@[m].participant is Import
        implies match ownership_at(s2, sm[t].nodes@[i].dependencies@[m].dep) {
            Some(QueueOwnership::Released { src_family, dst_family }) => dst_family == tm1[t].queue_idx,
            _ => true,
        } by {
        let d = sm[t].nodes@[i].dependencies@[m];
        assert(in_states(s0, d.dep));
        assert(tm1.contains_key(t));
        assert(tm1[t].queue_idx == tm0[t].queue_idx);
        match d.dep {
            AnyResKey::Image(k) => {
                let c = slot_canon(k.0);
                assert(s2.images[c].ownership == s1.images[c].ownership);
                if let QueueOwnership::Released { src_family, dst_family } = s1.images[c].ownership {
                    if s1.images[c].ownership != s0.images[c].ownership {
                        let j = choose|j: int| 0 <= j < ops.len() && #[trigger] res_slot(ops[j].res) == (0u8, c)
                            && dst_family == tm0[ops[j].destination_owner.0].queue_idx;
                        assert(release_needed_by_some(sm, res0, tm0, ops[j]));
                        let (t2, i2, m2) = choose|t2: u32, i2: int, m2: int| #[trigger] release_for(sm, res0, tm0, ops[j], t2, i2, m2);
                        assert(valid_dep(sm, t2, i2, m2));
                        assert(sm[t2].nodes@[i2].dependencies@[m2].dep == ops[j].res);
                        assert(t2 == t);
                    }
                }
            },
            AnyResKey::Buffer(k) => {
                let c = slot_canon(k.0);
                assert(s2.buffers[c].ownership == s1.buffers[c].ownership);
                if let QueueOwnership::Released { src_family, dst_family } = s1.buffers[c].ownership {
                    if s1.buffers[c].ownership != s0.buffers[c].ownership {
                        let j = choose|j: int| 0 <= j < ops.len() && #[trigger] res_slot(ops[j].res) == (1u8, c)
                            && dst_family == tm0[ops[j].destination_owner.0].queue_idx;
                        assert(release_needed_by_some(sm, res0, tm0, ops[j]));
                        let (t2, i2, m2) = choose|t2: u32, i2: int, m2: int| #[trigger] release_for(sm, res0, tm0, ops[j], t2, i2, m2);
                        assert(valid_dep(sm, t2, i2, m2));
                        assert(sm[t2].nodes@[i2].dependencies@[m2].dep == ops[j].res);
                        assert(t2 == t);
                    }
                }
            },
            AnyResKey::Sampler(_) => {},
        }
    }
}

/// A resource that preparing the imports left released, and that was not
/// released before, is imported by some node of the schedule.
proof fn lemma_release_only_imports(
    sm: Map<u32, TrackSchedule>,
    res0: Resources,
    tm0: Map<u32, Track>,
    res1: Resources,
    tm1: Map<u32, Track>,
    ops: Seq<ReleaseOp>,
    waits: Seq<Guard>,
    rg: Seq<(TrackId, Guard)>,
    key: AnyResKey,
)
    requires
        import_releases_done(sm, res0, tm0, res1, tm1, ops, waits, rg),
        not_released(res0.owned_states(), key),
        !not_released(res1.owned_states(), key),
    ensures
        exists|t: u32, i: int, m: int| #![trigger sm[t].nodes@[i].dependencies@[m]]
            valid_dep(sm, t, i, m) && sm[t].nodes@[i].dependencies@[m].participant is Import
            && res_slot(sm[t].nodes@[i].dependencies@[m].dep) == res_slot(key),
{
    let s0 = res0.owned_states();
    lemma_release_all_ownership(s0, ops, tm0);
    let s1 = release_all(s0, ops, tm0)->Ok_0.0;
    assert forall|j: int| 0 <= j < ops.len() implies in_states(s1, #[trigger] ops[j].res) by {
        assert(in_states(s0, ops[j].res));
    }
    lemma_guards_for_ownership(s1, ops, rg);
    let s2 = res1.owned_states();
    assert(s2 == guards_for(s1, ops, rg));
    match key {
        AnyResKey::Image(k) => {
            let c = slot_canon(k.0);
            assert(s2.images.contains_key(c));
            assert(s2.images[c].ownership == s1.images[c].ownership);
            if let QueueOwnership::Released { src_family, dst_family } = s1.images[c].ownership {
                assert(s1.images[c].ownership != s0.images[c].ownership);
                let j = choose|j: int| 0 <= j < ops.len() && #[trigger] res_slot(ops[j].res) == (0u8, c)
                    && dst_family == tm0[ops[j].destination_owner.0].queue_idx;
                assert(release_needed_by_some(sm, res0, tm0, ops[j]));
                let (t2, i2, m2) = choose|t2: u32, i2: int, m2: int| #[trigger] release_for(sm, res0, tm0, ops[j], t2, i2, m2);
                assert(valid_dep(sm, t2, i2, m2));
                assert(res_slot(sm[t2].nodes@[i2].dependencies@[m2].dep) == res_slot(key));
            }
        },
        AnyResKey::Buffer(k) => {
            let c = slot_canon(k.0);
            assert(s2.buffers.contains_key(c));
            assert(s2.buffers[c].ownership == s1.buffers[c].ownership);
            if let QueueOwnership::Released { src_family, dst_family } = s1.buffers[c].ownership {
                assert(s1.buffers[c].ownership != s0.buffers[c].ownership);
                let j = choose|j: int| 0 <= j < ops.len() && #[trigger] res_slot(ops[j].res) == (1u8, c)
                    && dst_family == tm0[ops[j].destination_owner.0].queue_idx;
                assert(release_needed_by_some(sm, res0, tm0, ops[j]));
                let (t2, i2, m2) = choose|t2: u32, i2: int, m2: int| #[trigger] release_for(sm, res0, tm0, ops[j], t2, i2, m2);
                assert(valid_dep(sm, t2, i2, m2));
                assert(res_slot(sm[t2].nodes@[i2].dependencies@[m2].dep) == res_slot(key));
            }
        },
        AnyResKey::Sampler(_) => {},
    }
}

/// Once every frame has run, every imported resource has been taken over, so
/// what the run leaves released was released before the imports were
/// prepared.
proof fn lemma_run_leaves_unreleased(
    sm: Map<u32, TrackSchedule>,
    res0: Resources,
    tm0: Map<u32, Track>,
    mid: Resources,
    tmm: Map<u32, Track>,
    ops: Seq<ReleaseOp>,
    waits: Seq<Guard>,
    rg: Seq<(TrackId, Guard)>,
    order: Seq<(TrackId, usize)>,
    sf: OwnedStates,
    key: AnyResKey,
)
    requires
        import_releases_done(sm, res0, tm0, mid, tmm, ops, waits, rg),
        valid_run_order(sm, order),
        forall|t: u32| #[trigger] sm.contains_key(t) ==> track_wf(sm[t]) && crate::schedule::frames_end(sm[t].frames@) == sm[t].nodes@.len(),
        deps_earlier(sm),
        run_state(sm, runs_so_far(sm, order), mid.owned_states(), sf),
        not_released(res0.owned_states(), key),
    ensures
        not_released(sf, key),
{
    let nx = runs_so_far(sm, order);
    let s1 = mid.owned_states();
    if !not_released(sf, key) {
        let sl = res_slot(key);
        assert(!slot_taken(sm, nx, sl));
        assert(!not_released(s1, key));
        lemma_release_only_imports(sm, res0, tm0, mid, tmm, ops, waits, rg, key);
        let (t, i, m) = choose|t: u32, i: int, m: int| #![trigger sm[t].nodes@[i].dependencies@[m]]
            valid_dep(sm, t, i, m) && sm[t].nodes@[i].dependencies@[m].participant is Import
            && res_slot(sm[t].nodes@[i].dependencies@[m].dep) == sl;
        let frames = sm[t].frames@;
        assert(track_wf(sm[t]) && crate::schedule::frames_end(frames) == sm[t].nodes@.len());
        assert(frames.len() > 0);
        assert(count_runs(order, t) == frames.len());
        assert(sm[t].frames.len() == frames.len());
        assert(nx[t] == frames.len());
        crate::executor::lemma_frames_prefix(frames, frames.len() as int);
        assert(nx.contains_key(t));
        assert(node_executed(sm, nx, t, i));
        lemma_executed_use_taken(sm, nx, t, i, m);
    }
}

impl Executor {
    /// Runs the frames of `order`, a run order of the schedule, one after the
    /// other as `frames_run` says: each frame allocates its execution guard
    /// and acquires what it takes over. Returns, for each frame, its guard,
    /// the transfer barriers to record before it and the guards it waits
    /// for; or the first failure. Imports find released resources released
    /// to their own queue family, so acquiring never meets a release to
    /// another one.
    pub fn run_frames(&self, res: &mut Resources, tracks: &mut Tracks, order: &Vec<(TrackId, usize)>)
        -> (r: Result<Vec<(Guard, Vec<QueueTransfer>, Vec<Guard>)>, RecordError>)
        requires
            self.wf(),
            valid_run_order(self.tracks(), order@),
            deps_earlier(self.tracks()),
            deps_in_store(self.tracks(), old(res).owned_states()),
            imports_match(self.tracks(), old(res).owned_states(), track_map(old(tracks).0)),
            forall|t: u32| #[trigger] self.tracks().contains_key(t) ==> track_map(old(tracks).0).contains_key(t)
                && track_map(old(tracks).0)[t].latest_signaled_value + self.tracks()[t].frames@.len() < u64::MAX,
            old(res).wf(),
        ensures
            final(res).wf(),
            final(res).bindless == old(res).bindless,
            final(res).sampler_states() == old(res).sampler_states(),
            match frames_run(self.tracks(), old(res).owned_states(), track_map(old(tracks).0), order@) {
                Ok((s, tm, fr)) => r matches Ok(v) && v@.len() == fr.len()
                    && (forall|j: int| 0 <= j < fr.len() ==> (#[trigger] v@[j]).0 == fr[j].0 && v@[j].1@ == fr[j].1 && v@[j].2@ == fr[j].2)
                    && final(res).owned_states() == s && track_map(final(tracks).0) == tm,
                Err((e, s, tm)) => r == Err::<Vec<(Guard, Vec<QueueTransfer>, Vec<Guard>)>, RecordError>(e)
                    && final(res).owned_states() == s && track_map(final(tracks).0) == tm,
            },
            r is Ok ==> run_state(self.tracks(), runs_so_far(self.tracks(), order@), old(res).owned_states(), final(res).owned_states()),
    {
        let ghost sm = self.tracks();
        let ghost s1 = res.owned_states();
        let ghost tm1 = track_map(tracks.0);
        let mut out: Vec<(Guard, Vec<QueueTransfer>, Vec<Guard>)> = Vec::new();
        let ghost mut fr: Seq<(Guard, Seq<QueueTransfer>, Seq<Guard>)> = Seq::empty();
        let mut p: usize = 0;
        proof {
            assert forall|t: u32| #[trigger] sm.contains_key(t) implies track_wf(sm[t])
                && crate::schedule::frames_end(sm[t].frames@) == sm[t].nodes@.len() by {}
            assert(run_ready(sm, order@, s1, tm1));
            assert(order@.take(0) =~= Seq::<(TrackId, usize)>::empty());
            assert forall|sl: (u8, u64)| !slot_taken(sm, runs_so_far(sm, order@.take(0)), sl) by {
                if slot_taken(sm, runs_so_far(sm, order@.take(0)), sl) {
                    let (u, i, m) = choose|u: u32, i: int, m: int| #![trigger sm[u].nodes@[i].dependencies@[m]]
                        node_executed(sm, runs_so_far(sm, order@.take(0)), u, i) && valid_dep(sm, u, i, m)
                        && takes_over(u, sm[u].nodes@[i].dependencies@[m])
                        && res_slot(sm[u].nodes@[i].dependencies@[m].dep) == sl;
                    assert(sm[u].frames@.take(0) =~= Seq::<crate::schedule::TrackFrame>::empty());
                }
            }
            assert(tracks_after(tm1, order@.take(0), tm1));
        }
        while p < order.len()
            invariant
                sm == self.tracks(),
                self.wf(),
                run_ready(sm, order@, s1, tm1),
                p <= order@.len(),
                res.wf(),
                res.bindless == old(res).bindless,
                res.sampler_states() == old(res).sampler_states(),
                s1 == old(res).owned_states(),
                tm1 == track_map(old(tracks).0),
                run_state(sm, runs_so_far(sm, order@.take(p as int)), s1, res.owned_states()),
                tracks_after(tm1, order@.take(p as int), track_map(tracks.0)),
                frames_run(sm, s1, tm1, order@.take(p as int)) == Ok::<(OwnedStates, Map<u32, Track>, Seq<(Guard, Seq<QueueTransfer>, Seq<Guard>)>), (RecordError, OwnedStates, Map<u32, Track>)>(
                    (res.owned_states(), track_map(tracks.0), fr)),
                out@.len() == fr.len(),
                forall|j: int| 0 <= j < fr.len() ==> (#[trigger] out@[j]).0 == fr[j].0 && out@[j].1@ == fr[j].1 && out@[j].2@ == fr[j].2,
            decreases order@.len() - p,
        {
            let (tid, k) = order[p];
            let ghost s = res.owned_states();
            let ghost tm = track_map(tracks.0);
            proof {
                assert(order@[p as int] == (tid, k));
                lemma_run_step_frame(sm, order@, tm1, p as int);
                lemma_run_step_track(tm1, order@.take(p as int), tm, tid.0);
                lemma_run_step_ready(sm, runs_so_far(sm, order@.take(p as int)), tm1, s1, s, tid.0, k as int, next_guard_of(tm[tid.0]));
            }
            match self.schedule_frame(res, tracks, tid, k) {
                Ok((g, ts, gs)) => {
                    proof {
                        lemma_run_step_state(sm, runs_so_far(sm, order@.take(p as int)), runs_so_far(sm, order@.take(p + 1)),
                            tm1, s1, s, tid.0, k as int, g, res.owned_states(), ts@, gs@);
                        lemma_run_step_tracks(tm1, order@, p as int, tm);
                        lemma_run_step_result(sm, order@, s1, tm1, p as int, s, tm, fr, res.owned_states(), ts@, gs@);
                    }
                    let ghost old_out = out@;
                    out.push((g, ts, gs));
                    proof {
                        fr = fr.push((g, ts@, gs@));
                        assert forall|j: int| 0 <= j < fr.len() implies (#[trigger] out@[j]).0 == fr[j].0
                            && out@[j].1@ == fr[j].1 && out@[j].2@ == fr[j].2 by {
                            if j < old_out.len() {
                                assert(out@[j] == old_out[j]);
                            }
                        }
                    }
                },
                Err(e) => {
                    proof {
                        assert(order@.take(p + 1).drop_last() =~= order@.take(p as int));
                        assert(order@.take(p + 1).last() == (tid, k));
                        lemma_frames_run_err_extends(sm, s1, tm1, order@, p + 1);
                    }
                    return Err(e);
                },
            }
            p = p + 1;
        }
        proof {
            assert(order@.take(p as int) =~= order@);
        }
        Ok(out)
    }
}

/// What running a schedule gives: the schedule, the order in which its
/// frames ran (each as its track and its index on that track), the releases
/// of imported resources that other queue families owned, with the guards
/// those resources had and the guards of the releasing tracks, and for each
/// frame in order its guard, its transfer barriers and the guards it waits for.
pub struct ExecutionPlan {
    pub schedule: TaskSchedule,
    pub order: Vec<(TrackId, usize)>,
    pub releases: Vec<ReleaseOp>,
    pub release_waits: Vec<Guard>,
    pub release_guards: Vec<(TrackId, Guard)>,
    pub frames: Vec<(Guard, Vec<QueueTransfer>, Vec<Guard>)>,
}

/// After the imports were prepared (`ops`, `waits`, `rg`), the frames ran in
/// `order` from states `s1` and tracks `tm1`, ending with store `res2` and
/// tracks `tm2`, and `r` says so: the plan of schedule `s`, or the failure of
/// the first frame that failed.
pub open spec fn frames_ran(
    s: TaskSchedule,
    s1: OwnedStates,
    tm1: Map<u32, Track>,
    order: Seq<(TrackId, usize)>,
    ops: Seq<ReleaseOp>,
    waits: Seq<Guard>,
    rg: Seq<(TrackId, Guard)>,
    res2: Resources,
    tm2: Map<u32, Track>,
    r: Result<ExecutionPlan, RecordError>,
) -> bool {
    match frames_run(schedule_map(s.tracks), s1, tm1, order) {
        Ok((sf, tf, fr)) => {
            &&& r matches Ok(plan)
            &&& plan.schedule == s
            &&& plan.order@ == order
            &&& plan.releases@ == ops
            &&& plan.release_waits@ == waits
            &&& plan.release_guards@ == rg
            &&& plan.frames@.len() == fr.len()
            &&& forall|j: int| 0 <= j < fr.len() ==> (#[trigger] plan.frames@[j]).0 == fr[j].0
                && plan.frames@[j].1@ == fr[j].1 && plan.frames@[j].2@ == fr[j].2
            &&& res2.owned_states() == sf
            &&& tm2 == tf
        },
        Err((e, sf, tf)) => r == Err::<ExecutionPlan, RecordError>(e) && res2.owned_states() == sf && tm2 == tf,
    }
}

/// `r` is what running schedule `s` gives, taking the store from `res0` to
/// `res1` and the tracks from `tm0` to `tm1`: when an import needs a release
/// from a queue family without track it fails with that family and changes
/// nothing; otherwise, for a run order of the frames that respects every
/// dependency, the imports are prepared and the frames run in that order.
pub open spec fn executed(
    s: TaskSchedule,
    res0: Resources,
    tm0: Map<u32, Track>,
    res1: Resources,
    tm1: Map<u32, Track>,
    r: Result<ExecutionPlan, RecordError>,
) -> bool {
    let sm = schedule_map(s.tracks);
    &&& res1.wf()
    &&& res1.bindless == res0.bindless
    &&& res1.sampler_states() == res0.sampler_states()
    &&& release_blocked(sm, res0, tm0) ==> (r matches Err(e) && release_error(sm, res0, tm0, e) && res1 == res0 && tm1 == tm0)
    &&& !release_blocked(sm, res0, tm0) ==> exists|order: Seq<(TrackId, usize)>, mid: Resources, tmm: Map<u32, Track>,
        ops: Seq<ReleaseOp>, waits: Seq<Guard>, rg: Seq<(TrackId, Guard)>|
        #![trigger valid_run_order(sm, order), import_releases_done(sm, res0, tm0, mid, tmm, ops, waits, rg)]
        valid_run_order(sm, order) && import_releases_done(sm, res0, tm0, mid, tmm, ops, waits, rg)
        && frames_ran(s, mid.owned_states(), tmm, order, ops, waits, rg, res1, tm1, r)
}

impl Executor {
    /// Runs the whole schedule, a complete one as `new_from_tasks` builds it,
    /// as `executed` says: works out the order in which its frames run,
    /// which never ends in a deadlock, prepares the imports of resources that
    /// another queue family owns (see `schedule_import_release_frame`), then
    /// runs the frames in that order (see `run_frames`). Every resource it
    /// releases is taken over by the importing track before it returns
    /// successfully, so it leaves no resource released that was not before.
    pub fn execute(schedule: TaskSchedule, res: &mut Resources, tracks: &mut Tracks) -> (r: Result<ExecutionPlan, RecordError>)
        requires
            schedule.wf(),
            frames_stamped(schedule_map(schedule.tracks), schedule.frame_stamps@, schedule.stamp_count@),
            forall|t: u32| #[trigger] schedule_map(schedule.tracks).contains_key(t)
                ==> frames_end(schedule_map(schedule.tracks)[t].frames@) == schedule_map(schedule.tracks)[t].nodes@.len(),
            imports_unique(schedule_map(schedule.tracks)),
            deps_earlier(schedule_map(schedule.tracks)),
            deps_in_store(schedule_map(schedule.tracks), old(res).owned_states()),
            imports_match(schedule_map(schedule.tracks), old(res).owned_states(), track_map(old(tracks).0)),
            schedule_map(schedule.tracks).dom() == track_map(old(tracks).0).dom(),
            forall|t: u32| #[trigger] track_map(old(tracks).0).contains_key(t)
                ==> track_map(old(tracks).0)[t].latest_signaled_value + schedule_map(schedule.tracks)[t].frames@.len() + 1 < u64::MAX,
            old(res).wf(),
        ensures
            executed(schedule, *old(res), track_map(old(tracks).0), *final(res), track_map(final(tracks).0), r),
            r is Ok ==> forall|key: AnyResKey| #![trigger not_released(final(res).owned_states(), key)]
                not_released(old(res).owned_states(), key) ==> not_released(final(res).owned_states(), key),
    {
        let ghost sm = schedule_map(schedule.tracks);
        let ghost res0 = *res;
        let ghost tm0 = track_map(tracks.0);
        let ghost s = schedule;
        let mut exec = Executor::new(schedule);
        let order = match exec.run() {
            Ok(o) => o,
            Err(e) => {
                return Err(e);
            },
        };
        let (releases, release_waits, release_guards) = match exec.schedule_import_release_frame(res, tracks) {
            Ok(x) => x,
            Err(e) => {
                return Err(e);
            },
        };
        let ghost mid = *res;
        let ghost tmm = track_map(tracks.0);
        proof {
            lemma_release_keeps_imports(sm, res0, tm0, mid, tmm, releases@, release_waits@, release_guards@);
            assert forall|t: u32| #[trigger] sm.contains_key(t) implies tmm.contains_key(t)
                && tmm[t].latest_signaled_value + sm[t].frames@.len() < u64::MAX by {
                assert(tm0.contains_key(t));
            }
        }
        let r = match exec.run_frames(res, tracks, &order) {
            Ok(frames) => Ok(ExecutionPlan {
                schedule: exec.schedule,
                order,
                releases,
                release_waits,
                release_guards,
                frames,
            }),
            Err(e) => Err(e),
        };
        proof {
            assert(valid_run_order(sm, order@));
            assert(import_releases_done(sm, res0, tm0, mid, tmm, releases@, release_waits@, release_guards@));
            assert(frames_ran(s, mid.owned_states(), tmm, order@, releases@, release_waits@, release_guards@, *res, track_map(tracks.0), r));
            if r is Ok {
                assert forall|t: u32| #[trigger] sm.contains_key(t) implies track_wf(sm[t])
                    && crate::schedule::frames_end(sm[t].frames@) == sm[t].nodes@.len() by {}
                let sf = res.owned_states();
                assert forall|key: AnyResKey| #[trigger] not_released(sf, key) || !not_released(res0.owned_states(), key) by {
                    if not_released(res0.owned_states(), key) {
                        lemma_run_leaves_unreleased(sm, res0, tm0, mid, tmm, releases@, release_waits@, release_guards@,
                            order@, sf, key);
                    }
                }
            }
        }
        r
    }
}

} // verus!
