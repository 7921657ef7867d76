//! The background jobs and how they run.

use crate::backend::{BackendView, MemoryBackend};
use crate::background_job::{BackgroundJob, BackgroundJobView};
use crate::deactivation::{deactivated, idle_children, retiring};
use crate::effects::Effects;
use crate::ids::{ids_from_vec, ids_to_vec, lemma_take_all};
use crate::invariants::{lemma_listeners_local, lemma_released_graph};
use crate::task::TaskView;
use crate::value::{BackgroundJobId, InternalError, TaskId, WaitHandle};
use vstd::prelude::*;

verus! {

impl BackendView {
    /// The backend after a job deactivated the tasks of `ids`: the tasks
    /// among them that were active with an active count of zero are
    /// inactive, a job is left to deactivate the children that this left
    /// idle, and another to remove the tasks that were deactivated.
    pub open spec fn after_deactivation(self, ids: Set<TaskId>) -> BackendView {
        let gone = retiring(self.tasks, ids);
        let idle = idle_children(self.tasks, gone);
        self.with_tasks(deactivated(self.tasks, gone)).plus_job(
            BackgroundJobView::DeactivateTasks(idle),
            idle != Set::<TaskId>::empty(),
        ).plus_job(BackgroundJobView::RemoveTasks(gone), gone != Set::<TaskId>::empty())
    }

    /// The ids of the jobs that a deactivation of the tasks of `ids` leaves.
    pub open spec fn deactivation_jobs(self, ids: Set<TaskId>) -> Seq<BackgroundJobId> {
        let gone = retiring(self.tasks, ids);
        let idle = idle_children(self.tasks, gone);
        let first = self.with_tasks(deactivated(self.tasks, gone));
        let second = first.plus_job(BackgroundJobView::DeactivateTasks(idle), idle != Set::<TaskId>::empty());
        (if idle != Set::<TaskId>::empty() {
            seq![first.job_ids.upcoming()->0]
        } else {
            Seq::empty()
        }) + (if gone != Set::<TaskId>::empty() {
            seq![second.job_ids.upcoming()->0]
        } else {
            Seq::empty()
        })
    }

    /// Whether ids are left for the two jobs that a deactivation may leave.
    pub open spec fn has_two_job_ids(self) -> bool {
        self.job_ids.upcoming() is Some && self.job_ids.taken().upcoming() is Some
    }

    /// Whether `wake` lists the handles that someone waited on for the tasks
    /// that were stored in `self` and are not stored in `after`.
    pub open spec fn wakes_removed(self, after: BackendView, wake: Seq<WaitHandle>) -> bool {
        forall|handle: WaitHandle|
            #[trigger] wake.contains(handle) <==> self.tasks.contains_key(handle.task) && !after.tasks.contains_key(
                handle.task,
            ) && self.tasks[handle.task].awaits(handle.slot)
    }

    /// The backend after the release of the anchor of `task`. An anchored
    /// task loses its anchor; where that leaves it active with an active
    /// count of zero, a job is left to deactivate it.
    pub open spec fn after_release(self, task: TaskId) -> BackendView {
        let record = self.tasks[task];
        if !record.anchored {
            self
        } else {
            let released = TaskView { anchored: false, ..record };
            self.with_task(task, released).plus_job(BackgroundJobView::DeactivateTasks(set![task]), released.idle())
        }
    }

    /// Whether the release of the anchor of `task` cannot be served for want
    /// of a background job id.
    pub open spec fn release_blocked(self, task: TaskId) -> bool {
        self.tasks[task].anchored && self.job_ids.upcoming() is None
    }
}

/// The removal of a task leaves the other tasks stored, and leaves alone who
/// waits for them.
pub proof fn lemma_removal_keeps_waiters(before: BackendView, id: TaskId)
    ensures
        forall|other: TaskId|
            #[trigger] before.removed(id).tasks.contains_key(other) <==> before.tasks.contains_key(other) && !(other
                == id && before.removes(id)),
        forall|other: TaskId, slot: Option<usize>|
            before.removed(id).tasks.contains_key(other) ==> #[trigger] before.removed(id).tasks[other].awaits(slot)
                == before.tasks[other].awaits(slot),
{
}

impl BackgroundJob {
    /// Runs the job on `backend`. A deactivation takes the activity from the
    /// tasks among its own that are active with an active count of zero, and
    /// leaves a job to deactivate the children that this left idle and a job
    /// to remove the tasks that were deactivated. A removal removes its
    /// tasks one after the other, in no particular order, each as far as it
    /// is removable when its turn comes; whoever waits for a removed task is
    /// woken.
    pub fn run(self, backend: &mut MemoryBackend) -> (effects: Effects)
        requires
            old(backend).wf(),
            self is DeactivateTasks ==> old(backend)@.has_two_job_ids(),
        ensures
            final(backend).wf(),
            old(backend).inv() ==> final(backend).inv(),
            self@ matches BackgroundJobView::DeactivateTasks(ids) ==> {
                &&& final(backend)@ == old(backend)@.after_deactivation(ids)
                &&& effects.background_jobs@ == old(backend)@.deactivation_jobs(ids)
                &&& effects.wake@.len() == 0
            },
            self@ matches BackgroundJobView::RemoveTasks(ids) ==> {
                &&& exists|order: Seq<TaskId>|
                    order.no_duplicates() && order.to_set() == ids && final(backend)@ == #[trigger] old(
                        backend,
                    )@.removed_all(order)
                &&& old(backend)@.wakes_removed(final(backend)@, effects.wake@)
                &&& effects.background_jobs@.len() == 0
            },
            effects.schedule@.len() == 0,
            effects.notify@.len() == 0,
    {
        let mut effects = Effects::new();
        match self {
            BackgroundJob::DeactivateTasks(tasks) => {
                let ghost start = backend@;
                let ghost ids = tasks@.to_set();
                let work = backend.deactivate_tasks(&tasks);
                proof {
                    if work.idle@.len() == 0 {
                        assert(work.idle@.to_set() =~= Set::<TaskId>::empty());
                    } else {
                        assert(work.idle@.to_set().contains(work.idle@[0]));
                    }
                    if work.retired@.len() == 0 {
                        assert(work.retired@.to_set() =~= Set::<TaskId>::empty());
                    } else {
                        assert(work.retired@.to_set().contains(work.retired@[0]));
                    }
                }
                if work.idle.len() > 0 {
                    match backend.create_background_job(BackgroundJob::DeactivateTasks(work.idle)) {
                        Ok(job) => {
                            effects.background_jobs.push(job);
                        },
                        Err(_) => {},
                    }
                }
                if work.retired.len() > 0 {
                    let retired = ids_from_vec(&work.retired);
                    match backend.create_background_job(BackgroundJob::RemoveTasks(retired)) {
                        Ok(job) => {
                            effects.background_jobs.push(job);
                        },
                        Err(_) => {},
                    }
                }
                assert(effects.background_jobs@ =~= start.deactivation_jobs(ids));
            },
            BackgroundJob::RemoveTasks(tasks) => {
                let ghost start = backend@;
                let order = ids_to_vec(&tasks);
                let mut i: usize = 0;
                proof {
                    lemma_take_all(order@);
                    assert(order@.take(0) =~= Seq::<TaskId>::empty());
                    reveal_with_fuel(BackendView::removed_all, 2);
                }
                while i < order.len()
                    invariant
                        backend.wf(),
                        old(backend).inv() ==> backend.inv(),
                        i <= order@.len(),
                        start == old(backend)@,
                        backend@ == start.removed_all(order@.take(i as int)),
                        start.wakes_removed(backend@, effects.wake@),
                        forall|other: TaskId| #[trigger] backend@.tasks.contains_key(other) ==> start.tasks.contains_key(other),
                        forall|other: TaskId, slot: Option<usize>|
                            backend@.tasks.contains_key(other) ==> #[trigger] backend@.tasks[other].awaits(slot)
                                == start.tasks[other].awaits(slot),
                        effects.schedule@.len() == 0,
                        effects.notify@.len() == 0,
                        effects.background_jobs@.len() == 0,
                    decreases order@.len() - i,
                {
                    let id = order[i];
                    let ghost before = backend@;
                    let ghost woken = effects.wake@;
                    proof {
                        lemma_removal_keeps_waiters(before, id);
                        assert(order@.take(i + 1).drop_last() =~= order@.take(i as int));
                    }
                    let ghost mut handles_view: Seq<WaitHandle> = Seq::empty();
                    match backend.remove_task(id) {
                        None => {},
                        Some(handles) => {
                            let mut j: usize = 0;
                            while j < handles.len()
                                invariant
                                    j <= handles@.len(),
                                    effects.wake@ == woken + handles@.take(j as int),
                                    effects.schedule@.len() == 0,
                                    effects.notify@.len() == 0,
                                    effects.background_jobs@.len() == 0,
                                decreases handles@.len() - j,
                            {
                                effects.wake.push(handles[j]);
                                assert(handles@.take(j + 1) =~= handles@.take(j as int).push(handles@[j as int]));
                                j += 1;
                            }
                            proof {
                                assert(handles@.take(handles@.len() as int) =~= handles@);
                                handles_view = handles@;
                            }
                        },
                    }
                    proof {
                        assert(effects.wake@ =~= woken + handles_view);
                        assert forall|handle: WaitHandle| #[trigger]
                            effects.wake@.contains(handle) <==> start.tasks.contains_key(handle.task)
                                && !backend@.tasks.contains_key(handle.task) && start.tasks[handle.task].awaits(
                                handle.slot,
                            ) by {
                            if effects.wake@.contains(handle) {
                                let k = choose|k: int| 0 <= k < effects.wake@.len() && effects.wake@[k] == handle;
                                if k < woken.len() {
                                    assert(woken[k] == handle);
                                    assert(woken.contains(handle));
                                } else {
                                    assert(handles_view[k - woken.len()] == handle);
                                    assert(handles_view.contains(handle));
                                }
                            }
                            if start.tasks.contains_key(handle.task) && !backend@.tasks.contains_key(handle.task)
                                && start.tasks[handle.task].awaits(handle.slot) {
                                if before.tasks.contains_key(handle.task) {
                                    assert(handle.task == id);
                                    assert(handles_view.contains(handle));
                                    let k = choose|k: int| 0 <= k < handles_view.len() && handles_view[k] == handle;
                                    assert(effects.wake@[woken.len() + k] == handle);
                                } else {
                                    assert(woken.contains(handle));
                                    let k = choose|k: int| 0 <= k < woken.len() && woken[k] == handle;
                                    assert(effects.wake@[k] == handle);
                                }
                            }
                        }
                    }
                    i += 1;
                }
                proof {
                    lemma_take_all(order@);
                }
            },
        }
        effects
    }
}

impl MemoryBackend {
    /// Runs the background job under `id` and gives the id back to the
    /// allocator: see [`BackgroundJob::run`]. Nothing happens where no job is
    /// stored under `id`. A deactivation is refused, and stays stored, where
    /// no job id is left for what it leaves to do.
    pub fn run_background_job(&mut self, id: BackgroundJobId) -> (result: Result<Effects, InternalError>)
        requires
            old(self).wf(),
        ensures
            final(self).wf(),
            !old(self)@.jobs.contains_key(id) ==> final(self)@ == old(self)@ && result is Ok && result->Ok_0.is_empty(),
            old(self)@.jobs.contains_key(id) && old(self)@.jobs[id] is DeactivateTasks && old(self)@.job_ids.upcoming()
                is None ==> final(self)@ == old(self)@ && result is Err && result->Err_0
                == InternalError::OutOfJobIds,
            old(self)@.jobs.contains_key(id) && old(self)@.job_ids.upcoming() is Some ==> (old(self)@.jobs[id]
                matches BackgroundJobView::DeactivateTasks(ids) ==> {
                &&& final(self)@ == old(self)@.without_job(id).after_deactivation(ids)
                &&& result matches Ok(effects)
                &&& effects.background_jobs@ == old(self)@.without_job(id).deactivation_jobs(ids)
                &&& effects.wake@.len() == 0
                &&& effects.schedule@.len() == 0
                &&& effects.notify@.len() == 0
            }),
            old(self)@.jobs.contains_key(id) ==> (old(self)@.jobs[id] matches BackgroundJobView::RemoveTasks(ids) ==> {
                &&& exists|order: Seq<TaskId>|
                    order.no_duplicates() && order.to_set() == ids && final(self)@ == #[trigger] old(
                        self,
                    )@.without_job(id).removed_all(order)
                &&& result matches Ok(effects)
                &&& old(self)@.wakes_removed(final(self)@, effects.wake@)
                &&& effects.background_jobs@.len() == 0
                &&& effects.schedule@.len() == 0
                &&& effects.notify@.len() == 0
            }),
            old(self).inv() ==> final(self).inv(),
    {
        let deactivation = match self.get_job(id) {
            None => {
                return Ok(Effects::new());
            },
            Some(job) => match job {
                BackgroundJob::DeactivateTasks(_) => true,
                BackgroundJob::RemoveTasks(_) => false,
            },
        };
        if deactivation && !self.has_job_id() {
            return Err(InternalError::OutOfJobIds);
        }
        match self.take_job(id) {
            None => Ok(Effects::new()),
            Some(job) => Ok(job.run(self)),
        }
    }

    /// Releases the anchor of the transient task `task`. Where that leaves
    /// the task active with an active count of zero, a background job is left
    /// to deactivate it. A task without an anchor stays as it is.
    pub fn release_transient_task(&mut self, task: TaskId) -> (result: Result<Effects, InternalError>)
        requires
            old(self).wf(),
        ensures
            final(self).wf(),
            !old(self)@.tasks.contains_key(task) ==> result is Err && result->Err_0 == InternalError::UnknownTask(task)
                && final(self)@ == old(self)@,
            old(self)@.tasks.contains_key(task) && old(self)@.release_blocked(task) ==> result is Err && result->Err_0
                == InternalError::OutOfJobIds && final(self)@ == old(self)@,
            old(self)@.tasks.contains_key(task) && !old(self)@.release_blocked(task) ==> {
                &&& final(self)@ == old(self)@.after_release(task)
                &&& result matches Ok(effects)
                &&& effects.background_jobs@ == if old(self)@.tasks[task].anchored && (TaskView {
                    anchored: false,
                    ..old(self)@.tasks[task]
                }).idle() {
                    seq![old(self)@.job_ids.upcoming()->0]
                } else {
                    Seq::<BackgroundJobId>::empty()
                }
                &&& effects.schedule@.len() == 0
                &&& effects.notify@.len() == 0
                &&& effects.wake@.len() == 0
            },
            old(self).inv() ==> final(self).inv(),
    {
        proof {
            if old(self).inv() && old(self)@.tasks.contains_key(task) {
                lemma_released_graph(old(self)@.tasks, task);
                lemma_listeners_local(
                    old(self)@.tasks,
                    old(self)@.listeners,
                    task,
                    TaskView { anchored: false, ..old(self)@.tasks[task] },
                );
            }
        }
        let anchored = match self.get_task(task) {
            None => {
                return Err(InternalError::UnknownTask(task));
            },
            Some(record) => record.is_anchored(),
        };
        let mut effects = Effects::new();
        if !anchored {
            return Ok(effects);
        }
        if !self.has_job_id() {
            return Err(InternalError::OutOfJobIds);
        }
        let mut idle = false;
        match self.task_mut(task) {
            None => {},
            Some(record) => {
                record.release_anchor();
                idle = record.is_idle();
            },
        }
        if idle {
            let mut tasks: Vec<TaskId> = Vec::new();
            tasks.push(task);
            assert(tasks@ =~= seq![task]);
            assert(tasks@[0] == task);
            assert(tasks@.to_set() =~= set![task]);
            match self.create_background_job(BackgroundJob::DeactivateTasks(tasks)) {
                Ok(job) => {
                    effects.background_jobs.push(job);
                },
                Err(_) => {},
            }
        }
        Ok(effects)
    }
}

} // verus!
