//! The end of a run: the outcome is stored, and what the run no longer uses
//! is given up.

use crate::backend::{scrubbed, BackendView, MemoryBackend};
use crate::background_job::{BackgroundJob, BackgroundJobView};
use crate::effects::Effects;
use crate::ids::append_ids;
use crate::invariants::{lemma_completion_graph, lemma_completion_listeners};
use crate::reconcile::{pruned, pruning_idles, unregistered};
use crate::slot::Slot;
use crate::slot_mappings::{SlotMapping, SlotMappings};
use crate::task::{TaskState, TaskView};
use crate::value::{BackgroundJobId, Dependency, InternalError, Outcome, TaskId, WaitHandle};
use vstd::prelude::*;

verus! {

/// The dependencies that the abandoned slots of `task` before `count` take
/// from the reader `id`: those on a slot that it had read.
pub open spec fn abandoned_dependencies(
    tasks: Map<TaskId, TaskView>,
    task: TaskId,
    next: Seq<SlotMapping>,
    count: int,
    id: TaskId,
) -> Set<Dependency> {
    Set::new(
        |dependency: Dependency|
            dependency matches Dependency::OnSlot(writer, index) && writer == task && index < count
                && tasks[task].abandons(next, index as int) && tasks[task].slots[index as int].readers.contains(id),
    )
}

/// The tasks after the slots of `task` before `count` that a run with the
/// slot mappings `next` abandons were abandoned: they are empty, and their
/// readers no longer hold the dependency.
pub open spec fn abandoned_before(tasks: Map<TaskId, TaskView>, task: TaskId, next: Seq<SlotMapping>, count: int) -> Map<
    TaskId,
    TaskView,
> {
    Map::new(
        |id: TaskId| tasks.contains_key(id),
        |id: TaskId|
            {
                let record = if id == task {
                    TaskView {
                        slots: Seq::new(
                            tasks[id].slots.len(),
                            |i: int|
                                if i < count && tasks[task].abandons(next, i) {
                                    Slot::abandoned(tasks[id].slots[i])
                                } else {
                                    tasks[id].slots[i]
                                },
                        ),
                        ..tasks[id]
                    }
                } else {
                    tasks[id]
                };
                record.without_dependencies(abandoned_dependencies(tasks, task, next, count, id))
            },
    )
}

/// The readers of the slots of `task` before `count` that a run with the
/// slot mappings `next` abandons.
pub open spec fn abandoned_readers(tasks: Map<TaskId, TaskView>, task: TaskId, next: Seq<SlotMapping>, count: int) -> Set<
    TaskId,
> {
    Set::new(
        |reader: TaskId|
            exists|i: int|
                0 <= i < count && tasks[task].abandons(next, i) && (#[trigger] tasks[task].slots[i]).readers.contains(
                    reader,
                ),
    )
}

/// The tasks after a run of `task` ended with the slot mappings `next`: the
/// slots that the run no longer maps are abandoned, and `next` is kept for
/// the run to come.
pub open spec fn remapped(tasks: Map<TaskId, TaskView>, task: TaskId, next: Seq<SlotMapping>) -> Map<TaskId, TaskView> {
    let abandoned = abandoned_before(tasks, task, next, tasks[task].slots.len() as int);
    abandoned.insert(task, TaskView { slot_mappings: next, ..abandoned[task] })
}

/// Abandoning one more slot, or passing over one that stays.
pub proof fn lemma_abandon_step(tasks: Map<TaskId, TaskView>, task: TaskId, next: Seq<SlotMapping>, count: int)
    requires
        tasks.contains_key(task),
        0 <= count < tasks[task].slots.len(),
        tasks[task].slots.len() <= usize::MAX,
    ensures
        ({
            let before = abandoned_before(tasks, task, next, count);
            let after = abandoned_before(tasks, task, next, count + 1);
            &&& before[task].slots[count] == tasks[task].slots[count]
            &&& before[task].slot_mappings == tasks[task].slot_mappings
            &&& before[task].slots.len() == tasks[task].slots.len()
            &&& !tasks[task].abandons(next, count) ==> after == before
            &&& tasks[task].abandons(next, count) ==> after == scrubbed(
                before.insert(task, before[task].slot_abandoned(count as usize)),
                tasks[task].slots[count].readers,
                Dependency::OnSlot(task, count as usize),
            )
        }),
{
    let before = abandoned_before(tasks, task, next, count);
    let after = abandoned_before(tasks, task, next, count + 1);
    if tasks[task].abandons(next, count) {
        let expected = scrubbed(
            before.insert(task, before[task].slot_abandoned(count as usize)),
            tasks[task].slots[count].readers,
            Dependency::OnSlot(task, count as usize),
        );
        assert forall|id: TaskId| #[trigger] after.contains_key(id) implies after[id] =~~= expected[id] by {
            let gone_before = abandoned_dependencies(tasks, task, next, count, id);
            let gone_after = abandoned_dependencies(tasks, task, next, count + 1, id);
            if tasks[task].slots[count].readers.contains(id) {
                assert(gone_after =~= gone_before.insert(Dependency::OnSlot(task, count as usize)));
            } else {
                assert(gone_after =~= gone_before);
            }
            assert(after[id].dependencies =~= expected[id].dependencies);
            assert(after[id].fresh_dependencies =~= expected[id].fresh_dependencies);
            assert(after[id].slots =~~= expected[id].slots);
        }
        assert(after =~~= expected);
    } else {
        assert forall|id: TaskId| #[trigger] after.contains_key(id) implies after[id] =~~= before[id] by {
            assert(abandoned_dependencies(tasks, task, next, count + 1, id) =~= abandoned_dependencies(
                tasks,
                task,
                next,
                count,
                id,
            ));
            assert(after[id].slots =~~= before[id].slots);
        }
        assert(after =~~= before);
    }
}

impl MemoryBackend {
    /// Ends the bookkeeping of slots for a run of `task` that used the slot
    /// mappings `next`: each slot that the mappings of the run before name
    /// and `next` does not is abandoned, and `next` is kept. The result lists
    /// the readers of the abandoned slots: they are to be notified.
    pub(crate) fn remap_slots(&mut self, task: TaskId, next: SlotMappings) -> (notify: Vec<TaskId>)
        requires
            old(self).wf(),
            old(self)@.tasks.contains_key(task),
        ensures
            final(self).wf(),
            final(self)@ == old(self)@.with_tasks(remapped(old(self)@.tasks, task, next@)),
            notify@.to_set() == abandoned_readers(
                old(self)@.tasks,
                task,
                next@,
                old(self)@.tasks[task].slots.len() as int,
            ),
    {
        let ghost tasks = self@.tasks;
        let mut notify: Vec<TaskId> = Vec::new();
        let count = match self.get_task(task) {
            Some(record) => record.slot_count(),
            None => 0,
        };
        let mut i: usize = 0;
        proof {
            self.lemma_slots_fit();
            assert(self@.tasks =~~= abandoned_before(tasks, task, next@, 0)) by {
                assert forall|id: TaskId| #[trigger] tasks.contains_key(id) implies abandoned_before(
                    tasks,
                    task,
                    next@,
                    0,
                )[id] =~~= tasks[id] by {
                    assert(abandoned_dependencies(tasks, task, next@, 0, id) =~= Set::<Dependency>::empty());
                }
            }
            assert(notify@.to_set() =~= abandoned_readers(tasks, task, next@, 0));
        }
        while i < count
            invariant
                self.wf(),
                i <= count,
                count == tasks[task].slots.len(),
                tasks == old(self)@.tasks,
                tasks.contains_key(task),
                self@ == old(self)@.with_tasks(abandoned_before(tasks, task, next@, i as int)),
                notify@.to_set() == abandoned_readers(tasks, task, next@, i as int),
            decreases count - i,
        {
            proof {
                lemma_abandon_step(tasks, task, next@, i as int);
            }
            let mapped = match self.get_task(task) {
                Some(record) => record.slot_mappings().maps(i),
                None => false,
            };
            let ghost before = notify@;
            let ghost mut readers_view: Seq<TaskId> = Seq::empty();
            if mapped && !next.maps(i) {
                let mut readers: Vec<TaskId> = Vec::new();
                match self.task_mut(task) {
                    None => {},
                    Some(record) => {
                        readers = record.abandon_slot(i);
                    },
                }
                self.scrub(&readers, Dependency::OnSlot(task, i));
                append_ids(&mut notify, &readers);
                proof {
                    readers_view = readers@;
                }
            }
            proof {
                assert forall|reader: TaskId|
                    notify@.to_set().contains(reader) == abandoned_readers(tasks, task, next@, i + 1).contains(
                        reader,
                    ) by {
                    if notify@.contains(reader) {
                        let k = choose|k: int| 0 <= k < notify@.len() && notify@[k] == reader;
                        if k < before.len() {
                            assert(before[k] == reader);
                            assert(before.to_set().contains(reader));
                        } else {
                            assert(readers_view[k - before.len()] == reader);
                            assert(readers_view.to_set().contains(reader));
                            assert(tasks[task].slots[i as int].readers.contains(reader));
                        }
                    }
                    if abandoned_readers(tasks, task, next@, i + 1).contains(reader) {
                        let at = choose|at: int|
                            0 <= at < i + 1 && tasks[task].abandons(next@, at) && (#[trigger] tasks[task].slots[at]).readers.contains(
                                reader,
                            );
                        if at < i {
                            assert(abandoned_readers(tasks, task, next@, i as int).contains(reader));
                            assert(before.to_set().contains(reader));
                            let k = choose|k: int| 0 <= k < before.len() && before[k] == reader;
                            assert(notify@[k] == reader);
                        } else {
                            assert(readers_view.to_set().contains(reader));
                            let k = choose|k: int| 0 <= k < readers_view.len() && readers_view[k] == reader;
                            assert(notify@[before.len() + k] == reader);
                        }
                    }
                }
                assert(notify@.to_set() =~= abandoned_readers(tasks, task, next@, i + 1));
            }
            i += 1;
        }
        match self.task_mut(task) {
            None => {},
            Some(record) => {
                record.set_slot_mappings(next);
            },
        }
        notify
    }
}

/// The tasks at the stages of the end of a run of `task` that still counts.
pub struct CompletionStages {
    /// After the outcome was stored and the readers of replaced content were
    /// dropped.
    pub stored: Map<TaskId, TaskView>,
    /// After the dependencies that the run did not renew were given up.
    pub read: Map<TaskId, TaskView>,
    /// After the children that the run did not call again were given up.
    pub kept: Map<TaskId, TaskView>,
    /// After the slots that the run no longer maps were abandoned.
    pub mapped: Map<TaskId, TaskView>,
    /// The children that were left active with an active count of zero.
    pub idle: Set<TaskId>,
}

impl BackendView {
    /// The stages of the end of the run of `task` in `epoch`, which still
    /// counts, with `outcome` and the slot mappings `next`.
    pub open spec fn completion_stages(
        self,
        task: TaskId,
        epoch: u64,
        next: Option<Seq<SlotMapping>>,
        outcome: Outcome,
    ) -> CompletionStages {
        let record = self.tasks[task];
        let stored = scrubbed(
            self.tasks.insert(task, record.completed(epoch, outcome)),
            record.completion_drops(epoch, outcome),
            Dependency::OnOutput(task),
        );
        let read = unregistered(stored, task, stored[task].stale_dependencies());
        let stale = read[task].stale_children();
        let kept = pruned(read, task, stale);
        let mapped = match next {
            Some(table) => remapped(kept, task, table),
            None => kept,
        };
        CompletionStages { stored, read, kept, mapped, idle: pruning_idles(read, task, stale) }
    }

    /// Whether the end of the run of `task` in `epoch` cannot be served for
    /// want of a background job id: the run still counts and no id is left.
    pub open spec fn completion_blocked(self, task: TaskId, epoch: u64) -> bool {
        self.tasks[task].completes(epoch) && self.job_ids.upcoming() is None
    }

    /// The backend after the run of `task` in `epoch` ended with `outcome`
    /// and the slot mappings `next`. A run that still counts stores its
    /// outcome, leaves the task done, gives up what it did not renew, and
    /// leaves a job to deactivate the children that this left idle. A run
    /// that was invalidated leaves the task dirty. For any other run nothing
    /// changes.
    pub open spec fn after_completion(
        self,
        task: TaskId,
        epoch: u64,
        next: Option<Seq<SlotMapping>>,
        outcome: Outcome,
    ) -> BackendView {
        let record = self.tasks[task];
        if !record.completes(epoch) {
            self.with_task(task, record.completed(epoch, outcome))
        } else {
            let stages = self.completion_stages(task, epoch, next, outcome);
            let settled = self.with_tasks(stages.mapped).without_listeners(
                WaitHandle { task, slot: None },
                record.output.waiters,
            );
            if stages.idle == Set::<TaskId>::empty() {
                settled
            } else {
                settled.with_job(self.job_ids.upcoming()->0, BackgroundJobView::DeactivateTasks(stages.idle))
            }
        }
    }

    /// The tasks to notify after the end of the run: the readers of replaced
    /// output content and of abandoned slots.
    pub open spec fn completion_notifies(
        self,
        task: TaskId,
        epoch: u64,
        next: Option<Seq<SlotMapping>>,
        outcome: Outcome,
    ) -> Set<TaskId> {
        let record = self.tasks[task];
        let stages = self.completion_stages(task, epoch, next, outcome);
        if !record.completes(epoch) {
            Set::empty()
        } else {
            record.completion_drops(epoch, outcome).union(
                match next {
                    Some(table) => abandoned_readers(stages.kept, task, table, stages.kept[task].slots.len() as int),
                    None => Set::empty(),
                },
            )
        }
    }

    /// What readers were woken for at the end of the run: those who wait for the
    /// output of a run that still counts.
    pub open spec fn completion_wakes(self, task: TaskId, epoch: u64) -> Seq<WaitHandle> {
        if self.tasks[task].completes(epoch) && self.tasks[task].output.waiters {
            seq![WaitHandle { task, slot: None }]
        } else {
            Seq::empty()
        }
    }

    /// The background jobs to run after the end of the run: the job that
    /// deactivates the children left idle, if there are any.
    pub open spec fn completion_jobs(
        self,
        task: TaskId,
        epoch: u64,
        next: Option<Seq<SlotMapping>>,
        outcome: Outcome,
    ) -> Seq<BackgroundJobId> {
        if self.tasks[task].completes(epoch) && self.completion_stages(task, epoch, next, outcome).idle != Set::<
            TaskId,
        >::empty() {
            seq![self.job_ids.upcoming()->0]
        } else {
            Seq::empty()
        }
    }
}

/// The view of optional slot mappings.
pub open spec fn mappings_view(table: Option<SlotMappings>) -> Option<Seq<SlotMapping>> {
    match table {
        Some(table) => Some(table@),
        None => None,
    }
}

impl MemoryBackend {
    /// Ends the run of `task` in `epoch` with `result` and the slot mappings
    /// that the run used.
    ///
    /// A run that still counts stores its outcome and leaves the task done.
    /// Where the outcome differs from the one held, the readers of the output
    /// are dropped and are to be notified; whoever waits for the output is
    /// woken. The dependencies and the children that the run did not renew
    /// are given up, the slots that it no longer maps are abandoned, and a
    /// background job is left to deactivate the children that this left idle.
    ///
    /// A run that was invalidated leaves the task dirty, and its outcome is
    /// dropped: the result is `true`, a new run is to be asked for. For any
    /// other run nothing changes.
    pub fn task_execution_completed(
        &mut self,
        task: TaskId,
        epoch: u64,
        slot_mappings: Option<SlotMappings>,
        result: Outcome,
    ) -> (answer: Result<(bool, Effects), InternalError>)
        requires
            old(self).wf(),
        ensures
            final(self).wf(),
            !old(self)@.tasks.contains_key(task) ==> answer is Err && answer->Err_0 == InternalError::UnknownTask(task)
                && final(self)@ == old(self)@,
            old(self)@.tasks.contains_key(task) && old(self)@.completion_blocked(task, epoch) ==> answer is Err
                && answer->Err_0 == InternalError::OutOfJobIds && final(self)@ == old(self)@,
            old(self)@.tasks.contains_key(task) && !old(self)@.completion_blocked(task, epoch) ==> {
                &&& final(self)@ == old(self)@.after_completion(task, epoch, mappings_view(slot_mappings), result)
                &&& answer matches Ok((reschedule, effects))
                &&& reschedule == old(self)@.tasks[task].completes_stale(epoch)
                &&& effects.notify@.to_set() == old(self)@.completion_notifies(
                    task,
                    epoch,
                    mappings_view(slot_mappings),
                    result,
                )
                &&& effects.wake@ == old(self)@.completion_wakes(task, epoch)
                &&& effects.background_jobs@ == old(self)@.completion_jobs(
                    task,
                    epoch,
                    mappings_view(slot_mappings),
                    result,
                )
                &&& effects.schedule@.len() == 0
            },
            old(self).inv() ==> final(self).inv(),
    {
        proof {
            if old(self).inv() && old(self)@.tasks.contains_key(task) && !old(self)@.completion_blocked(task, epoch) {
                old(self).lemma_slots_fit();
                lemma_completion_graph(old(self)@, task, epoch, mappings_view(slot_mappings), result);
                lemma_completion_listeners(old(self)@, task, epoch, mappings_view(slot_mappings), result);
            }
        }
        let (counts, reschedule) = match self.get_task(task) {
            None => {
                return Err(InternalError::UnknownTask(task));
            },
            Some(record) => (
                record.state() == TaskState::InProgress { run_epoch: epoch },
                record.state() == TaskState::InProgressDirty { run_epoch: epoch },
            ),
        };
        if counts && !self.has_job_id() {
            return Err(InternalError::OutOfJobIds);
        }
        let ghost start = self@;
        let ghost next = mappings_view(slot_mappings);
        let ghost stages = start.completion_stages(task, epoch, next, result);
        let mut effects = Effects::new();
        let mut wake = false;
        match self.task_mut(task) {
            None => {},
            Some(record) => {
                let written = record.execution_result(epoch, result);
                effects.notify = written.readers;
                wake = written.wake;
            },
        }
        let handle = WaitHandle { task, slot: None };
        self.wake(handle, wake);
        if wake {
            effects.wake.push(handle);
        }
        if !counts {
            assert(effects.notify@.to_set() =~= Set::<TaskId>::empty());
            return Ok((reschedule, effects));
        }
        self.scrub(&effects.notify, Dependency::OnOutput(task));
        assert(self@.tasks == stages.stored);
        let stale_dependencies = match self.get_task(task) {
            Some(record) => record.stale_dependencies(),
            None => Vec::new(),
        };
        self.unregister(task, &stale_dependencies);
        assert(self@.tasks == stages.read);
        let stale_children = match self.get_task(task) {
            Some(record) => record.stale_children(),
            None => Vec::new(),
        };
        let idle = self.disconnect_children(task, &stale_children);
        assert(self@.tasks == stages.kept);
        let ghost dropped = effects.notify@;
        let ghost mut abandoned: Seq<TaskId> = Seq::empty();
        if let Some(table) = slot_mappings {
            let more = self.remap_slots(task, table);
            append_ids(&mut effects.notify, &more);
            proof {
                abandoned = more@;
            }
        }
        assert(self@.tasks == stages.mapped);
        proof {
            assert(effects.notify@ =~= dropped + abandoned);
            let expected = start.completion_notifies(task, epoch, next, result);
            assert forall|reader: TaskId| effects.notify@.to_set().contains(reader) == expected.contains(reader) by {
                if effects.notify@.contains(reader) {
                    let k = choose|k: int| 0 <= k < effects.notify@.len() && effects.notify@[k] == reader;
                    if k < dropped.len() {
                        assert(dropped[k] == reader);
                        assert(dropped.to_set().contains(reader));
                    } else {
                        assert(abandoned[k - dropped.len()] == reader);
                        assert(abandoned.to_set().contains(reader));
                    }
                }
                if expected.contains(reader) {
                    if dropped.to_set().contains(reader) {
                        let k = choose|k: int| 0 <= k < dropped.len() && dropped[k] == reader;
                        assert(effects.notify@[k] == reader);
                    } else {
                        assert(abandoned.to_set().contains(reader));
                        let k = choose|k: int| 0 <= k < abandoned.len() && abandoned[k] == reader;
                        assert(effects.notify@[dropped.len() + k] == reader);
                    }
                }
            }
            assert(effects.notify@.to_set() =~= expected);
            if idle@.len() == 0 {
                assert(idle@.to_set() =~= Set::<TaskId>::empty());
            } else {
                assert(idle@.to_set().contains(idle@[0]));
            }
        }
        if idle.len() > 0 {
            match self.create_background_job(BackgroundJob::DeactivateTasks(idle)) {
                Ok(job) => {
                    effects.background_jobs.push(job);
                },
                Err(_) => {},
            }
        }
        Ok((false, effects))
    }
}

} // verus!
