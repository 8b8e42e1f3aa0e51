//! Records tasks into an execution graph: collects them with the resources
//! they registered, then schedules them on the tracks and runs the schedule.
use vstd::prelude::*;
use crate::error::RecordError;
use crate::executor::{Executor, lemma_recorded_imports_unique};
use crate::run::{ExecutionPlan, executed, deps_in_store, imports_match, not_released, ownership_at};
use crate::maps::track_map;
use crate::resources::Resources;
use crate::transfer::canonical_key;
use crate::registry::ResourceRegistry;
use crate::schedule::{
    TaskRecord, TaskSchedule, no_fitting_track, schedules_records, fitting_track, holds_tasks, lemma_deps_earlier,
    lemma_imports_first_use, lemma_nodes_bound, lemma_frames_len,
};
use crate::maps::{residency_map, schedule_map};
use crate::transfer::in_states;
use crate::track::Tracks;
use crate::res_states::AnyResKey;

verus! {

/// Collects tasks, in the order they are added.
pub struct Recorder {
    pub records: Vec<TaskRecord>,
}

impl Recorder {
    /// No record uses a resource twice.
    pub open spec fn wf(&self) -> bool {
        forall|i: int| 0 <= i < self.records@.len() ==> (#[trigger] self.records@[i]).resources@.no_duplicates()
    }

    /// A recorder with no tasks.
    pub fn new() -> (r: Recorder)
        ensures
            r.wf(),
            r.records@.len() == 0,
    {
        Recorder { records: Vec::new() }
    }

    /// Adds task `task`, which needs a queue with `queue_flags` and uses what
    /// it requested in `registry`.
    pub fn add_task(self, task: usize, queue_flags: u32, registry: &ResourceRegistry) -> (r: Recorder)
        requires
            self.wf(),
        ensures
            r.wf(),
            r.records@.len() == self.records@.len() + 1,
            r.records@.take(self.records@.len() as int) == self.records@,
            r.records@.last().task == task,
            r.records@.last().queue_flags == queue_flags,
            forall|x| r.records@.last().resources@.contains(x) <==> registry.requested(x),
    {
        let mut records = self.records;
        let resources = registry.any_res_iter();
        let ghost old_records = records@;
        records.push(TaskRecord { task, queue_flags, resources });
        let r = Recorder { records };
        proof {
            assert(r.records@.take(old_records.len() as int) =~= old_records);
            assert forall|i: int| 0 <= i < r.records@.len() implies (#[trigger] r.records@[i]).resources@.no_duplicates() by {
                if i < old_records.len() {
                    assert(r.records@[i] == old_records[i]);
                }
            }
        }
        r
    }

    /// Schedules all recorded tasks on `tracks` and runs them on the store
    /// `res` as `executed` says: works out the order in which the frames run,
    /// prepares the imports of resources that another queue family owns, and
    /// runs the frames in that order. Fails, changing nothing, if a task's
    /// queue flags fit no track (the first such task is named). The tasks'
    /// resources are keys handed out by the store, are in the store and are
    /// not left released. A successful run leaves no resource released that
    /// was not before, so the store is ready for the next recording.
    pub fn execute(self, res: &mut Resources, tracks: &mut Tracks) -> (r: Result<ExecutionPlan, RecordError>)
        requires
            self.wf(),
            forall|p: int, k: int| 0 <= p < self.records@.len() && 0 <= k < self.records@[p].resources@.len()
                ==> canonical_key(#[trigger] self.records@[p].resources@[k])
                    && in_states(old(res).owned_states(), self.records@[p].resources@[k])
                    && not_released(old(res).owned_states(), self.records@[p].resources@[k]),
            old(res).wf(),
            forall|t: u32| #[trigger] track_map(old(tracks).0).contains_key(t)
                ==> track_map(old(tracks).0)[t].latest_signaled_value + self.records@.len() + 1 < u64::MAX,
        ensures
            (exists|i: int| 0 <= i < self.records@.len()
                && no_fitting_track(track_map(old(tracks).0).dom(), #[trigger] self.records@[i].queue_flags))
            ==> (exists|i: int| 0 <= i < self.records@.len()
                && no_fitting_track(track_map(old(tracks).0).dom(), #[trigger] self.records@[i].queue_flags)
                && (forall|j: int| 0 <= j < i ==> !no_fitting_track(track_map(old(tracks).0).dom(), #[trigger] self.records@[j].queue_flags))
                && r == Err::<ExecutionPlan, RecordError>(RecordError::NoFittingTrack(self.records@[i].queue_flags)))
                && *final(res) == *old(res) && *final(tracks) == *old(tracks),
            (forall|i: int| 0 <= i < self.records@.len() ==> !no_fitting_track(track_map(old(tracks).0).dom(), #[trigger] self.records@[i].queue_flags))
            ==> exists|s: TaskSchedule| #![trigger schedules_records(s, track_map(old(tracks).0).dom(), self.records@)]
                schedules_records(s, track_map(old(tracks).0).dom(), self.records@)
                && executed(s, *old(res), track_map(old(tracks).0), *final(res), track_map(final(tracks).0), r),
            r is Ok ==> forall|key: AnyResKey| #![trigger not_released(final(res).owned_states(), key)]
                not_released(old(res).owned_states(), key) ==> not_released(final(res).owned_states(), key),
    {
        let ghost recs = self.records@;
        let ghost dom = track_map(tracks.0).dom();
        let ghost s0 = res.owned_states();
        let ghost tm0 = track_map(tracks.0);
        let schedule = match TaskSchedule::new_from_tasks(tracks, self.records) {
            Ok(s) => s,
            Err(e) => {
                return Err(e);
            },
        };
        proof {
            let sm = schedule_map(schedule.tracks);
            let rm = residency_map(schedule.resource_residency);
            let n = recs.len() as int;
            lemma_recorded_imports_unique(schedule, dom, recs);
            let assign = choose|assign: Seq<u32>|
                (forall|i: int| 0 <= i < recs.len() ==> #[trigger] fitting_track(dom, recs[i].queue_flags, assign[i]))
                && holds_tasks(sm, rm, recs, assign, n);
            lemma_deps_earlier(sm, rm, recs, assign, n);
            lemma_imports_first_use(sm, rm, recs, assign, n);
            lemma_nodes_bound(sm, rm, recs, assign, n);
            assert forall|t: u32, i: int, m: int| #![trigger sm[t].nodes@[i].dependencies@[m]]
                sm.contains_key(t) && 0 <= i < sm[t].nodes@.len() && 0 <= m < sm[t].nodes@[i].dependencies@.len()
                implies in_states(s0, sm[t].nodes@[i].dependencies@[m].dep)
                    && not_released(s0, sm[t].nodes@[i].dependencies@[m].dep) by {
                let x = sm[t].nodes@[i].dependencies@[m].dep;
                let p = choose|p: int| 0 <= p < n && #[trigger] recs[p].resources@.contains(x);
                let k = choose|k: int| 0 <= k < recs[p].resources@.len() && recs[p].resources@[k] == x;
                assert(in_states(s0, recs[p].resources@[k]));
            }
            assert(deps_in_store(sm, s0));
            assert(imports_match(sm, s0, tm0));
            assert forall|t: u32| #[trigger] tm0.contains_key(t)
                implies tm0[t].latest_signaled_value + sm[t].frames@.len() + 1 < u64::MAX by {
                assert(sm.contains_key(t));
                lemma_frames_len(sm[t].frames@);
            }
        }
        let ghost s = schedule;
        let r = Executor::execute(schedule, res, tracks);
        proof {
            assert(schedules_records(s, dom, recs));
        }
        r
    }
}

} // verus!
