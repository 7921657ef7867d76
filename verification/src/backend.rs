//! The memory backend: the store of tasks and the operations that the
//! executor calls on it.

use crate::activation::{connected, connection_schedules};
use crate::background_job::{BackgroundJob, BackgroundJobView};
use crate::cache::TaskCache;
use crate::effects::Effects;
use crate::id_factory::{IdFactory, IdFactoryView};
use crate::ids::{append_ids, lemma_take_all, lemma_take_to_set};
use crate::invariants::{
    graph_inv, isolated, lemma_connected_graph, lemma_connected_listeners, lemma_dropped_graph,
    lemma_dropped_listeners, lemma_fresh_slot_graph, lemma_invalidated_graph, lemma_invalidated_listeners,
    lemma_invalidated_task, lemma_listeners_fewer, lemma_listeners_local, lemma_local_change, lemma_new_task_graph,
    lemma_output_read_graph, lemma_output_read_listeners, lemma_scheduled_task, lemma_slot_read_graph,
    lemma_slot_read_listeners, lemma_slot_write_graph, lemma_slot_write_listeners, lemma_started_task, listeners_inv,
};
use crate::slot::Slot;
use crate::slot_mappings::SlotMappings;
use crate::store::Store;
use crate::task::{Task, TaskState, TaskTypeView, TaskView};
use crate::task_type::{PersistentTaskType, PersistentTaskTypeView, TransientTaskType};
use crate::value::{BackgroundJobId, Dependency, InternalError, Outcome, Read, TaskId, Value, WaitHandle};
use crate::wait_list::WaitList;
use vstd::prelude::*;

verus! {

/// What the backend holds.
#[verifier::ext_equal]
pub struct BackendView {
    /// The tasks by id.
    pub tasks: Map<TaskId, TaskView>,
    /// The allocator of task ids.
    pub task_ids: IdFactoryView,
    /// The memoization cache: the id of the task with a given fingerprint.
    pub cache: Map<Seq<u64>, TaskId>,
    /// The background jobs that wait to be run, by id.
    pub jobs: Map<BackgroundJobId, BackgroundJobView>,
    /// The allocator of background job ids.
    pub job_ids: IdFactoryView,
    /// What suspended readers listen to.
    pub listeners: Set<WaitHandle>,
}

/// Whether the slots of every task are few enough to be counted in `usize`.
pub open spec fn slots_fit(tasks: Map<TaskId, TaskView>) -> bool {
    forall|id: TaskId| #[trigger] tasks.contains_key(id) ==> tasks[id].slots.len() <= usize::MAX
}

/// The tasks of `tasks`, with `dependency` taken from each task of `readers`.
pub open spec fn scrubbed(tasks: Map<TaskId, TaskView>, readers: Set<TaskId>, dependency: Dependency) -> Map<
    TaskId,
    TaskView,
> {
    Map::new(
        |id: TaskId| tasks.contains_key(id),
        |id: TaskId|
            if readers.contains(id) {
                tasks[id].without_dependency(dependency)
            } else {
                tasks[id]
            },
    )
}

/// The tasks of `tasks`, each task of `ids` invalidated.
pub open spec fn invalidated(tasks: Map<TaskId, TaskView>, ids: Set<TaskId>) -> Map<TaskId, TaskView> {
    Map::new(
        |id: TaskId| tasks.contains_key(id),
        |id: TaskId|
            if ids.contains(id) {
                tasks[id].invalidated()
            } else {
                tasks[id]
            },
    )
}

impl BackendView {
    /// The backend with other tasks.
    pub open spec fn with_tasks(self, tasks: Map<TaskId, TaskView>) -> BackendView {
        BackendView { tasks, ..self }
    }

    /// The backend with `task` stored under `id`.
    pub open spec fn with_task(self, id: TaskId, task: TaskView) -> BackendView {
        BackendView { tasks: self.tasks.insert(id, task), ..self }
    }

    /// A backend that holds nothing.
    pub open spec fn empty() -> BackendView {
        BackendView {
            tasks: Map::empty(),
            task_ids: IdFactoryView { next: 0, free: Seq::empty() },
            cache: Map::empty(),
            jobs: Map::empty(),
            job_ids: IdFactoryView { next: 0, free: Seq::empty() },
            listeners: Set::empty(),
        }
    }

    /// Whether someone listens to the output or to a slot of the task under
    /// `id`.
    pub open spec fn listened(self, id: TaskId) -> bool {
        exists|handle: WaitHandle| #[trigger] self.listeners.contains(handle) && handle.task == id
    }

    /// The backend after the listeners of `handle` were woken, where `woken`
    /// says so: nobody listens to `handle` afterwards.
    pub open spec fn without_listeners(self, handle: WaitHandle, woken: bool) -> BackendView {
        if woken {
            BackendView { listeners: self.listeners.remove(handle), ..self }
        } else {
            self
        }
    }

    /// The tasks that an invalidation of the tasks of `ids` asks to notify:
    /// the readers of each of them that was done and not settled.
    pub open spec fn notified_by(self, ids: Set<TaskId>) -> Set<TaskId> {
        Set::new(
            |reader: TaskId|
                exists|id: TaskId|
                    ids.contains(id) && self.tasks.contains_key(id)
                        && #[trigger] self.tasks[id].invalidation_notifies().contains(reader),
        )
    }

    /// The tasks of `ids` for which an invalidation asks for a new run.
    pub open spec fn rescheduled_by(self, ids: Set<TaskId>) -> Set<TaskId> {
        Set::new(|id: TaskId| ids.contains(id) && self.tasks.contains_key(id) && self.tasks[id].invalidation_schedules())
    }

    /// The backend after a read of the output of `task`. Where the output is
    /// ready and the read is tracked, `reader` joins the readers of the output
    /// and records the dependency. Where the output is not ready, the task
    /// remembers that someone waits, and someone listens to the output.
    pub open spec fn after_output_read(self, task: TaskId, reader: Option<TaskId>) -> BackendView {
        let writer = self.tasks[task];
        if !writer.output_ready() {
            BackendView {
                listeners: self.listeners.insert(WaitHandle { task, slot: None }),
                ..self.with_task(task, writer.awaited())
            }
        } else {
            match reader {
                None => self,
                Some(reader) => {
                    let registered = self.tasks.insert(
                        task,
                        writer.with_cell_readers(None, writer.output.readers.insert(reader)),
                    );
                    self.with_tasks(
                        registered.insert(reader, registered[reader].with_dependency(Dependency::OnOutput(task))),
                    )
                },
            }
        }
    }

    /// The backend after a read of the slot at `index` of `task`. Where the
    /// slot has content and the read is tracked, `reader` joins the readers of
    /// the slot and records the dependency. Where the slot is empty, it
    /// remembers that someone waits, and someone listens to the slot.
    pub open spec fn after_slot_read(self, task: TaskId, index: usize, reader: Option<TaskId>) -> BackendView {
        let writer = self.tasks[task];
        if writer.slots[index as int].content is None {
            BackendView {
                listeners: self.listeners.insert(WaitHandle { task, slot: Some(index) }),
                ..self.with_task(task, writer.slot_awaited(index))
            }
        } else {
            match reader {
                None => self,
                Some(reader) => {
                    let registered = self.tasks.insert(
                        task,
                        writer.with_cell_readers(Some(index), writer.slots[index as int].readers.insert(reader)),
                    );
                    self.with_tasks(
                        registered.insert(reader, registered[reader].with_dependency(Dependency::OnSlot(task, index))),
                    )
                },
            }
        }
    }

    /// The backend after `content` was assigned to the slot at `index` of
    /// `task`. Where the content changed, the slot has no readers left and
    /// those it had no longer hold the dependency. Whoever waited for the
    /// slot was woken: nobody listens to it any more.
    pub open spec fn after_slot_write(self, task: TaskId, index: usize, content: Value) -> BackendView {
        let writer = self.tasks[task];
        self.with_tasks(
            scrubbed(
                self.tasks.insert(task, writer.slot_assigned(index, content, task)),
                writer.assignment_drops(index, content),
                Dependency::OnSlot(task, index),
            ),
        ).without_listeners(WaitHandle { task, slot: Some(index) }, writer.slots[index as int].waiters)
    }

    /// The run that a read of the output of `task` asks for: one of `task`
    /// where it is dirty and its output is not ready.
    pub open spec fn output_demand(self, task: TaskId) -> Seq<TaskId> {
        if !self.tasks[task].output_ready() && self.tasks[task].state is Dirty {
            seq![task]
        } else {
            Seq::empty()
        }
    }

    /// The error that a request for the slot at `index` of `task` meets, if
    /// any: the task is unknown, or it has no such slot.
    pub open spec fn slot_error(self, task: TaskId, index: usize) -> Option<InternalError> {
        if !self.tasks.contains_key(task) {
            Some(InternalError::UnknownTask(task))
        } else if index >= self.tasks[task].slots.len() {
            Some(InternalError::UnknownSlot(task, index))
        } else {
            None
        }
    }

    /// The backend after a transient task of the given type was created under
    /// `id`.
    pub open spec fn after_transient_task(self, id: TaskId, ty: TransientTaskType) -> BackendView {
        BackendView {
            tasks: self.tasks.insert(id, TaskView::new_transient(ty)),
            task_ids: self.task_ids.taken(),
            ..self
        }
    }

    /// Whether every cached id names a stored persistent task with the
    /// fingerprint that it is cached under.
    pub open spec fn cache_consistent(self) -> bool {
        forall|key: Seq<u64>| #[trigger]
            self.cache.contains_key(key) ==> self.tasks.contains_key(self.cache[key]) && (
            self.tasks[self.cache[key]].ty matches TaskTypeView::Persistent(ty) && ty.fingerprint() == key)
    }

    /// The backend after the outcome of caching the tentative task `id` was
    /// settled. Where the task was cached, nothing changes. Where another
    /// task stood in the way, the tentative task is dropped and its id goes
    /// back to the allocator.
    pub open spec fn after_settlement(self, id: TaskId, outcome: Result<TaskId, TaskId>) -> BackendView {
        match outcome {
            Ok(_) => self,
            Err(_) => BackendView { tasks: self.tasks.remove(id), task_ids: self.task_ids.returned(id), ..self },
        }
    }

    /// The id of the persistent task of type `ty` after a request for it: the
    /// cached id where there is one, else the id that the allocator hands out
    /// next.
    pub open spec fn persistent_task_id(self, ty: PersistentTaskTypeView) -> Option<TaskId> {
        if self.cache.contains_key(ty.fingerprint()) {
            Some(self.cache[ty.fingerprint()])
        } else {
            self.task_ids.upcoming()
        }
    }

    /// The backend after a request for the persistent task of type `ty` by
    /// `parent`. A cached task is connected to `parent`. Where there is none,
    /// a new task is stored under the next id, cached, and connected.
    pub open spec fn after_persistent_task(self, ty: PersistentTaskTypeView, parent: TaskId) -> BackendView {
        let key = ty.fingerprint();
        if self.cache.contains_key(key) {
            self.with_tasks(connected(self.tasks, parent, self.cache[key]))
        } else {
            let id = self.task_ids.upcoming()->0;
            BackendView {
                tasks: connected(self.tasks.insert(id, TaskView::new_persistent(ty)), parent, id),
                task_ids: self.task_ids.taken(),
                cache: self.cache.insert(key, id),
                ..self
            }
        }
    }

    /// The tasks of which runs are asked for after a request for the
    /// persistent task of type `ty` by `parent`.
    pub open spec fn persistent_task_schedules(self, ty: PersistentTaskTypeView, parent: TaskId) -> Set<TaskId> {
        let key = ty.fingerprint();
        if self.cache.contains_key(key) {
            connection_schedules(self.tasks, parent, self.cache[key])
        } else {
            let id = self.task_ids.upcoming()->0;
            connection_schedules(self.tasks.insert(id, TaskView::new_persistent(ty)), parent, id)
        }
    }

    /// The backend after `job` was stored under `id`.
    pub open spec fn with_job(self, id: BackgroundJobId, job: BackgroundJobView) -> BackendView {
        BackendView { jobs: self.jobs.insert(id, job), job_ids: self.job_ids.taken(), ..self }
    }

    /// The cache without the entry of the task stored under `id`.
    pub open spec fn cache_without(self, id: TaskId) -> Map<Seq<u64>, TaskId> {
        match self.tasks[id].fingerprint() {
            Some(key) => if self.cache.contains_key(key) && self.cache[key] == id {
                self.cache.remove(key)
            } else {
                self.cache
            },
            None => self.cache,
        }
    }

    /// The backend after the task under `id` was taken out of the store and
    /// of the cache and its id went back to the allocator.
    pub open spec fn erased(self, id: TaskId) -> BackendView {
        BackendView {
            tasks: self.tasks.remove(id),
            cache: self.cache_without(id),
            task_ids: self.task_ids.returned(id),
            ..self
        }
    }

    /// The backend after the job under `id` was taken out and its id went
    /// back to the allocator.
    pub open spec fn without_job(self, id: BackgroundJobId) -> BackendView {
        BackendView { jobs: self.jobs.remove(id), job_ids: self.job_ids.returned(id), ..self }
    }

    /// The backend with one more job, where `needed` says so.
    pub open spec fn plus_job(self, job: BackgroundJobView, needed: bool) -> BackendView {
        if needed {
            self.with_job(self.job_ids.upcoming()->0, job)
        } else {
            self
        }
    }
}

/// What the executor needs to run a task: the slot mappings of the last
/// completed run and the epoch of the run that starts.
pub struct TaskExecutionSpec {
    pub slot_mappings: SlotMappings,
    pub epoch: u64,
}

/// The store of tasks with the operations of the incremental computation
/// engine.
pub struct MemoryBackend {
    memory_tasks: Store<Task>,
    task_id_factory: IdFactory,
    task_cache: TaskCache,
    background_jobs: Store<BackgroundJob>,
    background_job_id_factory: IdFactory,
    listeners: WaitList,
}

impl MemoryBackend {
    pub closed spec fn view(&self) -> BackendView {
        BackendView {
            tasks: self.memory_tasks@.map_values(|task: Task| task@),
            task_ids: self.task_id_factory@,
            cache: self.task_cache@,
            jobs: self.background_jobs@.map_values(|job: BackgroundJob| job@),
            job_ids: self.background_job_id_factory@,
            listeners: self.listeners@,
        }
    }

    /// Every stored task and job has an id that its allocator has handed out,
    /// and every task record is well formed.
    pub closed spec fn wf(&self) -> bool {
        &&& self.task_id_factory.wf()
        &&& self.background_job_id_factory.wf()
        &&& self.listeners.wf()
        &&& forall|id: TaskId| #[trigger]
            self.memory_tasks@.contains_key(id) ==> self.memory_tasks@[id].wf() && self.task_id_factory@.is_live(id)
        &&& forall|id: BackgroundJobId| #[trigger]
            self.background_jobs@.contains_key(id) ==> self.background_job_id_factory@.is_live(id)
        &&& self@.cache_consistent()
    }

    /// The backend is well formed, its tasks are in order, and so are its
    /// listeners: see [`graph_inv`] and [`listeners_inv`].
    pub open spec fn inv(&self) -> bool {
        self.wf() && graph_inv(self@.tasks) && listeners_inv(self@.tasks, self@.listeners)
    }

    /// What holds of a well-formed backend: every cached id names a stored
    /// persistent task with the fingerprint that it is cached under, and the
    /// id that the allocator hands out next is not in use.
    pub proof fn lemma_wf(&self)
        requires
            self.wf(),
        ensures
            self@.cache_consistent(),
            self@.task_ids.upcoming() matches Some(id) ==> !self@.tasks.contains_key(id),
            forall|id: TaskId| #[trigger] self@.tasks.contains_key(id) ==> self@.task_ids.is_live(id),
    {
        if self@.task_ids.upcoming() is Some {
            let id = self@.task_ids.upcoming()->0;
            if self@.task_ids.free.len() > 0 {
                assert(self@.task_ids.free[self@.task_ids.free.len() - 1] == id);
            }
            assert(!self@.task_ids.is_live(id));
        }
    }

    /// A backend that holds nothing.
    pub fn new() -> (backend: Self)
        ensures
            backend.inv(),
            backend@ == BackendView::empty(),
    {
        let backend = MemoryBackend {
            memory_tasks: Store::new(),
            task_id_factory: IdFactory::new(),
            task_cache: TaskCache::new(),
            background_jobs: Store::new(),
            background_job_id_factory: IdFactory::new(),
            listeners: WaitList::new(),
        };
        assert(backend@.tasks =~= Map::<TaskId, TaskView>::empty());
        assert(backend@.jobs =~= Map::<BackgroundJobId, BackgroundJobView>::empty());
        backend
    }

    /// Whether a task is stored under `id`.
    pub fn contains_task(&self, id: TaskId) -> (present: bool)
        ensures
            present == self@.tasks.contains_key(id),
    {
        self.memory_tasks.contains(id)
    }

    /// The task stored under `id`, if any.
    pub fn get_task(&self, id: TaskId) -> (task: Option<&Task>)
        ensures
            task is Some == self@.tasks.contains_key(id),
            task matches Some(found) ==> found@ == self@.tasks[id],
            self.wf() && task is Some ==> task->0.wf(),
    {
        self.memory_tasks.get(id)
    }

    /// The slots of every stored task are few enough to be counted in
    /// `usize`.
    pub proof fn lemma_slots_fit(&self)
        ensures
            slots_fit(self@.tasks),
    {
        assert forall|id: TaskId| #[trigger] self@.tasks.contains_key(id) implies self@.tasks[id].slots.len()
            <= usize::MAX by {
            self.memory_tasks@[id].lemma_slots_fit();
        }
    }

    /// A number above every task id in use.
    pub(crate) proof fn task_bound(&self) -> (bound: nat)
        ensures
            forall|id: TaskId| #[trigger] self@.tasks.contains_key(id) ==> id < bound,
    {
        self.memory_tasks.lemma_bound();
        self.memory_tasks.bound()
    }

    /// The task stored under `id`, if any, for change in place. The backend
    /// stays well formed as long as the record does and keeps its kind.
    pub(crate) fn task_mut(&mut self, id: TaskId) -> (task: Option<&mut Task>)
        ensures
            task is Some == old(self)@.tasks.contains_key(id),
            task is None ==> final(self)@ == old(self)@ && final(self).wf() == old(self).wf(),
            task matches Some(found) ==> found@ == old(self)@.tasks[id] && (old(self).wf() ==> found.wf())
                && final(self)@ == old(self)@.with_task(id, final(found)@) && (old(self).wf() && final(found).wf()
                && final(found)@.ty == found@.ty ==> final(self).wf()),
    {
        self.memory_tasks.get_mut(id)
    }

    /// Invalidates `task`: see [`Task::invalidate`]. The readers to notify and
    /// the request for a new run are handed to the caller.
    pub fn invalidate_task(&mut self, task: TaskId) -> (result: Result<Effects, InternalError>)
        requires
            old(self).wf(),
        ensures
            final(self).wf(),
            !old(self)@.tasks.contains_key(task) ==> result == Err::<Effects, InternalError>(
                InternalError::UnknownTask(task),
            ) && final(self)@ == old(self)@,
            old(self)@.tasks.contains_key(task) ==> result is Ok && final(self)@ == old(self)@.with_task(
                task,
                old(self)@.tasks[task].invalidated(),
            ),
            result matches Ok(effects) ==> {
                &&& effects.notify@.to_set() == old(self)@.tasks[task].invalidation_notifies()
                &&& effects.schedule@ == if old(self)@.tasks[task].invalidation_schedules() {
                    seq![task]
                } else {
                    Seq::<TaskId>::empty()
                }
                &&& effects.wake@.len() == 0
                &&& effects.background_jobs@.len() == 0
            },
            old(self).inv() ==> final(self).inv(),
    {
        proof {
            if old(self).inv() && old(self)@.tasks.contains_key(task) {
                lemma_invalidated_task(old(self)@.tasks[task]);
                lemma_local_change(old(self)@.tasks, task, old(self)@.tasks[task].invalidated());
                lemma_listeners_local(
                    old(self)@.tasks,
                    old(self)@.listeners,
                    task,
                    old(self)@.tasks[task].invalidated(),
                );
            }
        }
        match self.task_mut(task) {
            None => Err(InternalError::UnknownTask(task)),
            Some(record) => {
                let work = record.invalidate();
                let mut effects = Effects::new();
                effects.notify = work.notify;
                if work.schedule {
                    effects.schedule.push(task);
                }
                Ok(effects)
            },
        }
    }

    /// Invalidates each task of `tasks` that is stored: a slot or an output
    /// that it has read has changed. The readers to notify in turn and the
    /// requests for new runs are handed to the caller.
    pub fn notify_slot_change(&mut self, tasks: Vec<TaskId>) -> (effects: Effects)
        requires
            old(self).wf(),
        ensures
            final(self).wf(),
            final(self)@ == old(self)@.with_tasks(invalidated(old(self)@.tasks, tasks@.to_set())),
            effects.notify@.to_set() == old(self)@.notified_by(tasks@.to_set()),
            effects.schedule@.to_set() == old(self)@.rescheduled_by(tasks@.to_set()),
            effects.schedule@.no_duplicates(),
            effects.wake@.len() == 0,
            effects.background_jobs@.len() == 0,
            old(self).inv() ==> final(self).inv(),
    {
        proof {
            if old(self).inv() {
                lemma_invalidated_graph(old(self)@.tasks, tasks@.to_set());
                lemma_invalidated_listeners(old(self)@.tasks, tasks@.to_set(), old(self)@.listeners);
            }
        }
        let mut effects = Effects::new();
        let mut i: usize = 0;
        proof {
            lemma_take_all(tasks@);
            assert(self@.tasks =~= invalidated(old(self)@.tasks, tasks@.take(0).to_set()));
            assert(effects.notify@.to_set() =~= old(self)@.notified_by(tasks@.take(0).to_set()));
            assert(effects.schedule@.to_set() =~= old(self)@.rescheduled_by(tasks@.take(0).to_set()));
        }
        while i < tasks.len()
            invariant
                self.wf(),
                i <= tasks@.len(),
                self@ == old(self)@.with_tasks(invalidated(old(self)@.tasks, tasks@.take(i as int).to_set())),
                effects.notify@.to_set() == old(self)@.notified_by(tasks@.take(i as int).to_set()),
                effects.schedule@.to_set() == old(self)@.rescheduled_by(tasks@.take(i as int).to_set()),
                effects.schedule@.no_duplicates(),
                effects.wake@.len() == 0,
                effects.background_jobs@.len() == 0,
            decreases tasks@.len() - i,
        {
            let id = tasks[i];
            let ghost before = self@;
            let ghost done = tasks@.take(i as int).to_set();
            let ghost notified = effects.notify@;
            let ghost asked = effects.schedule@;
            let ghost mut fresh_notify: Seq<TaskId> = Seq::empty();
            match self.task_mut(id) {
                None => {},
                Some(record) => {
                    let work = record.invalidate();
                    proof {
                        fresh_notify = work.notify@;
                    }
                    append_ids(&mut effects.notify, &work.notify);
                    if work.schedule {
                        effects.schedule.push(id);
                    }
                },
            }
            proof {
                lemma_take_to_set(tasks@, i as int);
                let start = old(self)@;
                let next = done.insert(id);
                assert(self@.tasks =~= invalidated(start.tasks, next));
                assert forall|reader: TaskId|
                    effects.notify@.to_set().contains(reader) == start.notified_by(next).contains(reader) by {
                    if effects.notify@.contains(reader) {
                        let k = choose|k: int| 0 <= k < effects.notify@.len() && effects.notify@[k] == reader;
                        if k < notified.len() {
                            assert(notified[k] == reader);
                            assert(notified.to_set().contains(reader));
                        } else {
                            assert(fresh_notify[k - notified.len()] == reader);
                            assert(fresh_notify.to_set().contains(reader));
                            assert(before.tasks[id].invalidation_notifies().contains(reader));
                            assert(start.tasks[id].invalidation_notifies().contains(reader));
                        }
                    }
                    if start.notified_by(next).contains(reader) {
                        let from = choose|from: TaskId|
                            next.contains(from) && start.tasks.contains_key(from)
                                && #[trigger] start.tasks[from].invalidation_notifies().contains(reader);
                        if done.contains(from) {
                            assert(start.notified_by(done).contains(reader));
                            assert(notified.to_set().contains(reader));
                            let k = choose|k: int| 0 <= k < notified.len() && notified[k] == reader;
                            assert(effects.notify@[k] == reader);
                        } else {
                            assert(from == id);
                            assert(fresh_notify.to_set().contains(reader));
                            let k = choose|k: int| 0 <= k < fresh_notify.len() && fresh_notify[k] == reader;
                            assert(effects.notify@[notified.len() + k] == reader);
                        }
                    }
                }
                assert(effects.notify@.to_set() =~= start.notified_by(next));
                assert forall|asked_id: TaskId|
                    effects.schedule@.to_set().contains(asked_id) == start.rescheduled_by(next).contains(asked_id) by {
                    if effects.schedule@.contains(asked_id) {
                        let k = choose|k: int| 0 <= k < effects.schedule@.len() && effects.schedule@[k] == asked_id;
                        if k < asked.len() {
                            assert(asked[k] == asked_id);
                            assert(asked.to_set().contains(asked_id));
                        }
                    }
                    if start.rescheduled_by(next).contains(asked_id) {
                        if done.contains(asked_id) {
                            assert(asked.to_set().contains(asked_id));
                            let k = choose|k: int| 0 <= k < asked.len() && asked[k] == asked_id;
                            assert(effects.schedule@[k] == asked_id);
                        } else {
                            assert(effects.schedule@[asked.len() as int] == asked_id);
                        }
                    }
                }
                assert(effects.schedule@.to_set() =~= start.rescheduled_by(next));
                if effects.schedule@.len() > asked.len() {
                    assert(!asked.to_set().contains(id));
                }
            }
            i += 1;
        }
        proof {
            lemma_take_all(tasks@);
        }
        effects
    }

    /// Takes a request to run `task`: a dirty task turns scheduled. The result
    /// says whether it did.
    pub fn schedule_task(&mut self, task: TaskId) -> (result: Result<bool, InternalError>)
        requires
            old(self).wf(),
        ensures
            final(self).wf(),
            !old(self)@.tasks.contains_key(task) ==> result == Err::<bool, InternalError>(
                InternalError::UnknownTask(task),
            ) && final(self)@ == old(self)@,
            old(self)@.tasks.contains_key(task) ==> result == Ok::<bool, InternalError>(
                old(self)@.tasks[task].state is Dirty,
            ) && final(self)@ == old(self)@.with_task(task, old(self)@.tasks[task].scheduled()),
            old(self).inv() ==> final(self).inv(),
    {
        proof {
            if old(self).inv() && old(self)@.tasks.contains_key(task) {
                lemma_scheduled_task(old(self)@.tasks[task]);
                lemma_local_change(old(self)@.tasks, task, old(self)@.tasks[task].scheduled());
                lemma_listeners_local(
                    old(self)@.tasks,
                    old(self)@.listeners,
                    task,
                    old(self)@.tasks[task].scheduled(),
                );
            }
        }
        match self.task_mut(task) {
            None => Err(InternalError::UnknownTask(task)),
            Some(record) => Ok(record.schedule()),
        }
    }

    /// Starts a run of `task`. A scheduled task turns in progress in its next
    /// epoch, and the result holds what the executor needs for the run. A
    /// task in any other state stays as it is and the result is `None`: the
    /// task is not runnable.
    pub fn try_start_task_execution(&mut self, task: TaskId) -> (result: Result<
        Option<TaskExecutionSpec>,
        InternalError,
    >)
        requires
            old(self).wf(),
        ensures
            final(self).wf(),
            !old(self)@.tasks.contains_key(task) ==> result == Err::<Option<TaskExecutionSpec>, InternalError>(
                InternalError::UnknownTask(task),
            ) && final(self)@ == old(self)@,
            old(self)@.tasks.contains_key(task) && !old(self)@.tasks[task].can_start() ==> result
                == Ok::<Option<TaskExecutionSpec>, InternalError>(None) && final(self)@ == old(self)@,
            old(self)@.tasks.contains_key(task) && old(self)@.tasks[task].can_start() ==> {
                &&& final(self)@ == old(self)@.with_task(task, old(self)@.tasks[task].started())
                &&& result matches Ok(Some(spec))
                &&& spec.epoch == old(self)@.tasks[task].executions + 1
                &&& spec.slot_mappings@ == old(self)@.tasks[task].slot_mappings
            },
            old(self).inv() ==> final(self).inv(),
    {
        proof {
            if old(self).inv() && old(self)@.tasks.contains_key(task) && old(self)@.tasks[task].can_start() {
                lemma_started_task(old(self)@.tasks[task]);
                lemma_local_change(old(self)@.tasks, task, old(self)@.tasks[task].started());
                lemma_listeners_local(old(self)@.tasks, old(self)@.listeners, task, old(self)@.tasks[task].started());
            }
        }
        let result = match self.task_mut(task) {
            None => Err(InternalError::UnknownTask(task)),
            Some(record) => {
                match record.execution_started() {
                    Some(epoch) => {
                        let slot_mappings = record.take_slot_mappings();
                        Ok(Some(TaskExecutionSpec { slot_mappings, epoch }))
                    },
                    None => Ok(None),
                }
            },
        };
        proof {
            if !(old(self)@.tasks.contains_key(task) && old(self)@.tasks[task].can_start()) {
                assert(self@.tasks =~= old(self)@.tasks);
            }
        }
        result
    }

    /// Adds an empty slot to `task` and returns its index, the next unused
    /// one.
    pub fn get_fresh_slot(&mut self, task: TaskId) -> (result: Result<usize, InternalError>)
        requires
            old(self).wf(),
        ensures
            final(self).wf(),
            !old(self)@.tasks.contains_key(task) ==> result == Err::<usize, InternalError>(
                InternalError::UnknownTask(task),
            ) && final(self)@ == old(self)@,
            old(self)@.tasks.contains_key(task) ==> result == Ok::<usize, InternalError>(
                old(self)@.tasks[task].slots.len() as usize,
            ) && final(self)@ == old(self)@.with_task(
                task,
                TaskView { slots: old(self)@.tasks[task].slots.push(Slot::empty()), ..old(self)@.tasks[task] },
            ),
            old(self).inv() ==> final(self).inv(),
    {
        proof {
            if old(self).inv() && old(self)@.tasks.contains_key(task) {
                lemma_fresh_slot_graph(old(self)@.tasks, task);
                lemma_listeners_local(
                    old(self)@.tasks,
                    old(self)@.listeners,
                    task,
                    TaskView { slots: old(self)@.tasks[task].slots.push(Slot::empty()), ..old(self)@.tasks[task] },
                );
            }
        }
        match self.task_mut(task) {
            None => Err(InternalError::UnknownTask(task)),
            Some(record) => Ok(record.get_fresh_slot()),
        }
    }
    /// Whether someone listens to `handle`.
    pub fn has_listener(&self, handle: WaitHandle) -> (listened: bool)
        ensures
            listened == self@.listeners.contains(handle),
    {
        self.listeners.is_listened(handle)
    }

    /// Wakes the listeners of `handle` where `woken` says so.
    pub(crate) fn wake(&mut self, handle: WaitHandle, woken: bool)
        requires
            old(self).wf(),
        ensures
            final(self).wf(),
            final(self)@ == old(self)@.without_listeners(handle, woken),
            old(self).inv() ==> final(self).inv(),
    {
        proof {
            if old(self).inv() && woken {
                lemma_listeners_fewer(old(self)@.tasks, old(self)@.listeners, old(self)@.listeners.remove(handle));
            }
        }
        if woken {
            self.listeners.wake(handle);
        }
    }

    /// Wakes the listeners of each handle of `handles`.
    pub(crate) fn wake_all(&mut self, handles: &Vec<WaitHandle>)
        requires
            old(self).wf(),
        ensures
            final(self).wf(),
            final(self)@ == (BackendView {
                listeners: old(self)@.listeners.difference(handles@.to_set()),
                ..old(self)@
            }),
            old(self).inv() ==> final(self).inv(),
    {
        let mut i: usize = 0;
        proof {
            lemma_take_all(handles@);
            assert(self@.listeners =~= old(self)@.listeners.difference(handles@.take(0).to_set()));
            if old(self).inv() {
                assert forall|count: int| 0 <= count <= handles@.len() implies #[trigger] listeners_inv(
                    old(self)@.tasks,
                    old(self)@.listeners.difference(handles@.take(count).to_set()),
                ) by {
                    lemma_listeners_fewer(
                        old(self)@.tasks,
                        old(self)@.listeners,
                        old(self)@.listeners.difference(handles@.take(count).to_set()),
                    );
                }
            }
        }
        while i < handles.len()
            invariant
                self.wf(),
                old(self).inv() ==> forall|count: int|
                    0 <= count <= handles@.len() ==> #[trigger] listeners_inv(
                        old(self)@.tasks,
                        old(self)@.listeners.difference(handles@.take(count).to_set()),
                    ),
                old(self).inv() ==> graph_inv(old(self)@.tasks),
                i <= handles@.len(),
                self@ == (BackendView {
                    listeners: old(self)@.listeners.difference(handles@.take(i as int).to_set()),
                    ..old(self)@
                }),
            decreases handles@.len() - i,
        {
            self.listeners.wake(handles[i]);
            proof {
                lemma_take_to_set(handles@, i as int);
                assert(self@.listeners =~= old(self)@.listeners.difference(handles@.take(i + 1).to_set()));
            }
            i += 1;
        }
        proof {
            lemma_take_all(handles@);
        }
    }

    /// Takes `dependency` from each task of `readers`.
    pub(crate) fn scrub(&mut self, readers: &Vec<TaskId>, dependency: Dependency)
        requires
            old(self).wf(),
        ensures
            final(self).wf(),
            final(self)@ == old(self)@.with_tasks(scrubbed(old(self)@.tasks, readers@.to_set(), dependency)),
    {
        let mut i: usize = 0;
        proof {
            lemma_take_all(readers@);
            assert(self@.tasks =~= scrubbed(old(self)@.tasks, readers@.take(0).to_set(), dependency));
        }
        while i < readers.len()
            invariant
                self.wf(),
                i <= readers@.len(),
                self@ == old(self)@.with_tasks(
                    scrubbed(old(self)@.tasks, readers@.take(i as int).to_set(), dependency),
                ),
            decreases readers@.len() - i,
        {
            let id = readers[i];
            match self.task_mut(id) {
                None => {},
                Some(record) => {
                    record.forget_dependency(dependency);
                },
            }
            proof {
                lemma_take_to_set(readers@, i as int);
                assert(self@.tasks =~~= scrubbed(old(self)@.tasks, readers@.take(i + 1).to_set(), dependency));
            }
            i += 1;
        }
        proof {
            lemma_take_all(readers@);
        }
    }

    /// Creates a transient task of the given kind under a new id. The task
    /// is anchored, hence active, and scheduled: a run is asked for.
    pub fn create_transient_task(&mut self, task_type: TransientTaskType) -> (result: Result<
        (TaskId, Effects),
        InternalError,
    >)
        requires
            old(self).wf(),
        ensures
            final(self).wf(),
            old(self)@.task_ids.upcoming() is None ==> result is Err && result->Err_0 == InternalError::OutOfTaskIds
                && final(self)@ == old(self)@,
            old(self)@.task_ids.upcoming() matches Some(id) ==> {
                &&& !old(self)@.tasks.contains_key(id)
                &&& final(self)@ == old(self)@.after_transient_task(id, task_type)
                &&& result matches Ok((created, effects))
                &&& created == id
                &&& effects.schedule@ == seq![id]
                &&& effects.notify@.len() == 0
                &&& effects.wake@.len() == 0
                &&& effects.background_jobs@.len() == 0
            },
            old(self).inv() ==> final(self).inv(),
    {
        proof {
            if old(self).inv() && old(self)@.task_ids.upcoming() is Some {
                old(self).lemma_wf();
                lemma_new_task_graph(
                    old(self)@.tasks,
                    old(self)@.task_ids.upcoming()->0,
                    TaskTypeView::Transient(task_type),
                    TaskState::Scheduled,
                    true,
                );
                lemma_listeners_local(
                    old(self)@.tasks,
                    old(self)@.listeners,
                    old(self)@.task_ids.upcoming()->0,
                    TaskView::new_transient(task_type),
                );
            }
        }
        match self.task_id_factory.get() {
            None => Err(InternalError::OutOfTaskIds),
            Some(id) => {
                let task = match task_type {
                    TransientTaskType::Root => Task::new_root(),
                    TransientTaskType::Once => Task::new_once(),
                };
                self.memory_tasks.insert(id, task);
                let mut effects = Effects::new();
                effects.schedule.push(id);
                proof {
                    assert(self@.tasks =~= old(self)@.tasks.insert(id, TaskView::new_transient(task_type)));
                    assert forall|other: TaskId| #[trigger] self.memory_tasks@.contains_key(other) implies self.memory_tasks@[other].wf()
                        && self.task_id_factory@.is_live(other) by {
                        assert(self.task_id_factory@.live().contains(other));
                    }
                }
                Ok((id, effects))
            },
        }
    }

    /// Reads the output of `task`, for `reader` where one is given.
    fn try_get_output(&mut self, task: TaskId, reader: Option<TaskId>) -> (result: (Read<Outcome>, Effects))
        requires
            old(self).wf(),
            old(self)@.tasks.contains_key(task),
            reader matches Some(id) ==> old(self)@.tasks.contains_key(id),
        ensures
            final(self).wf(),
            final(self)@ == old(self)@.after_output_read(task, reader),
            result.0 is Ready == old(self)@.tasks[task].output_ready(),
            result.0 matches Read::Ready(outcome) ==> Some(outcome) == old(self)@.tasks[task].output.content,
            result.1.schedule@ == old(self)@.output_demand(task),
            result.1.notify@.len() == 0,
            result.1.wake@.len() == 0,
            result.1.background_jobs@.len() == 0,
            old(self).inv() ==> final(self).inv(),
    {
        proof {
            if old(self).inv() {
                lemma_output_read_graph(old(self)@, task, reader);
                lemma_output_read_listeners(old(self)@, task, reader);
            }
        }
        let mut effects = Effects::new();
        let mut found: Option<Outcome> = None;
        match self.task_mut(task) {
            None => {},
            Some(writer) => {
                let dirty = match writer.state() {
                    TaskState::Dirty => true,
                    _ => false,
                };
                found = writer.get_or_wait_output();
                if found.is_some() {
                    if let Some(id) = reader {
                        writer.add_reader(None, id);
                    }
                } else if dirty {
                    effects.schedule.push(task);
                }
            },
        }
        match found {
            Some(outcome) => {
                if let Some(id) = reader {
                    match self.task_mut(id) {
                        None => {},
                        Some(record) => {
                            record.record_dependency(Dependency::OnOutput(task));
                        },
                    }
                }
                proof {
                    assert(self@.tasks =~= old(self)@.after_output_read(task, reader).tasks);
                }
                (Read::Ready(outcome), effects)
            },
            None => {
                let listener = self.listeners.listen(WaitHandle { task, slot: None });
                (Read::Pending(listener), effects)
            },
        }
    }

    /// Reads the output of `task` for `reader`. A done task answers with its
    /// outcome, and `reader` is recorded as depending on the output. Any
    /// other task answers with a listener that is notified when the output
    /// is written; if the task is dirty, a run of it is asked for. The request
    /// fails where `task` or `reader` is unknown.
    pub fn try_read_task_output(&mut self, task: TaskId, reader: TaskId) -> (result: Result<
        (Read<Outcome>, Effects),
        InternalError,
    >)
        requires
            old(self).wf(),
        ensures
            final(self).wf(),
            !old(self)@.tasks.contains_key(task) ==> result is Err && result->Err_0 == InternalError::UnknownTask(task)
                && final(self)@ == old(self)@,
            old(self)@.tasks.contains_key(task) && !old(self)@.tasks.contains_key(reader) ==> result is Err
                && result->Err_0 == InternalError::UnknownTask(reader) && final(self)@ == old(self)@,
            old(self)@.tasks.contains_key(task) && old(self)@.tasks.contains_key(reader) ==> {
                &&& final(self)@ == old(self)@.after_output_read(task, Some(reader))
                &&& result matches Ok((read, effects))
                &&& read is Ready == old(self)@.tasks[task].output_ready()
                &&& read matches Read::Ready(outcome) ==> Some(outcome) == old(self)@.tasks[task].output.content
                &&& effects.schedule@ == old(self)@.output_demand(task)
                &&& effects.notify@.len() == 0
                &&& effects.wake@.len() == 0
                &&& effects.background_jobs@.len() == 0
            },
            old(self).inv() ==> final(self).inv(),
    {
        if !self.memory_tasks.contains(task) {
            return Err(InternalError::UnknownTask(task));
        }
        if !self.memory_tasks.contains(reader) {
            return Err(InternalError::UnknownTask(reader));
        }
        Ok(self.try_get_output(task, Some(reader)))
    }

    /// Reads the output of `task` without recording a reader. A done task
    /// answers with its outcome. Any other task answers with a listener that
    /// is notified when the output is written; if the task is dirty, a run of
    /// it is asked for.
    pub fn try_read_task_output_untracked(&mut self, task: TaskId) -> (result: Result<
        (Read<Outcome>, Effects),
        InternalError,
    >)
        requires
            old(self).wf(),
        ensures
            final(self).wf(),
            !old(self)@.tasks.contains_key(task) ==> result is Err && result->Err_0 == InternalError::UnknownTask(task)
                && final(self)@ == old(self)@,
            old(self)@.tasks.contains_key(task) ==> {
                &&& final(self)@ == old(self)@.after_output_read(task, None)
                &&& result matches Ok((read, effects))
                &&& read is Ready == old(self)@.tasks[task].output_ready()
                &&& read matches Read::Ready(outcome) ==> Some(outcome) == old(self)@.tasks[task].output.content
                &&& effects.schedule@ == old(self)@.output_demand(task)
                &&& effects.notify@.len() == 0
                &&& effects.wake@.len() == 0
                &&& effects.background_jobs@.len() == 0
            },
            old(self).inv() ==> final(self).inv(),
    {
        if !self.memory_tasks.contains(task) {
            return Err(InternalError::UnknownTask(task));
        }
        Ok(self.try_get_output(task, None))
    }

    /// The error that a request for the slot at `index` of `task` meets, if
    /// any.
    fn slot_error(&self, task: TaskId, index: usize) -> (error: Option<InternalError>)
        ensures
            error == self@.slot_error(task, index),
    {
        match self.get_task(task) {
            None => Some(InternalError::UnknownTask(task)),
            Some(record) => {
                if index >= record.slot_count() {
                    Some(InternalError::UnknownSlot(task, index))
                } else {
                    None
                }
            },
        }
    }

    /// Reads the slot at `index` of `task`, for `reader` where one is given.
    fn read_slot(&mut self, task: TaskId, index: usize, reader: Option<TaskId>) -> (read: Read<Value>)
        requires
            old(self).wf(),
            old(self)@.slot_error(task, index) is None,
            reader matches Some(id) ==> old(self)@.tasks.contains_key(id),
        ensures
            final(self).wf(),
            final(self)@ == old(self)@.after_slot_read(task, index, reader),
            read is Ready == old(self)@.tasks[task].slots[index as int].content is Some,
            read matches Read::Ready(value) ==> Some(value) == old(self)@.tasks[task].slots[index as int].content,
            old(self).inv() ==> final(self).inv(),
    {
        proof {
            if old(self).inv() {
                lemma_slot_read_graph(old(self)@, task, index, reader);
                lemma_slot_read_listeners(old(self)@, task, index, reader);
            }
        }
        let mut found: Option<Value> = None;
        match self.task_mut(task) {
            None => {},
            Some(writer) => {
                found = writer.get_or_wait_slot(index);
                if found.is_some() {
                    if let Some(id) = reader {
                        writer.add_reader(Some(index), id);
                    }
                }
            },
        }
        match found {
            Some(value) => {
                if let Some(id) = reader {
                    match self.task_mut(id) {
                        None => {},
                        Some(record) => {
                            record.record_dependency(Dependency::OnSlot(task, index));
                        },
                    }
                }
                proof {
                    assert(self@.tasks =~= old(self)@.after_slot_read(task, index, reader).tasks);
                }
                Read::Ready(value)
            },
            None => {
                let listener = self.listeners.listen(WaitHandle { task, slot: Some(index) });
                Read::Pending(listener)
            },
        }
    }

    /// Reads the slot at `index` of `task` for `reader`. A slot with content
    /// answers with it, and `reader` is recorded as depending on the slot. An
    /// empty slot answers with a listener that is notified when the slot is
    /// written. The request fails where `task` is unknown or has no such slot,
    /// or where `reader` is unknown.
    pub fn read_task_slot(&mut self, task: TaskId, index: usize, reader: TaskId) -> (result: Result<
        Read<Value>,
        InternalError,
    >)
        requires
            old(self).wf(),
        ensures
            final(self).wf(),
            old(self)@.slot_error(task, index) matches Some(error) ==> result is Err && result->Err_0 == error
                && final(self)@ == old(self)@,
            old(self)@.slot_error(task, index) is None && !old(self)@.tasks.contains_key(reader) ==> result is Err
                && result->Err_0 == InternalError::UnknownTask(reader) && final(self)@ == old(self)@,
            old(self)@.slot_error(task, index) is None && old(self)@.tasks.contains_key(reader) ==> {
                &&& final(self)@ == old(self)@.after_slot_read(task, index, Some(reader))
                &&& result matches Ok(read)
                &&& read is Ready == old(self)@.tasks[task].slots[index as int].content is Some
                &&& read matches Read::Ready(value) ==> Some(value) == old(self)@.tasks[task].slots[index as int].content
            },
            old(self).inv() ==> final(self).inv(),
    {
        if let Some(error) = self.slot_error(task, index) {
            return Err(error);
        }
        if !self.memory_tasks.contains(reader) {
            return Err(InternalError::UnknownTask(reader));
        }
        Ok(self.read_slot(task, index, Some(reader)))
    }

    /// Reads the slot at `index` of `task` without recording a reader. A slot
    /// with content answers with it. An empty slot answers with a listener
    /// that is notified when the slot is written, and no reader is recorded.
    pub fn read_task_slot_untracked(&mut self, task: TaskId, index: usize) -> (result: Result<
        Read<Value>,
        InternalError,
    >)
        requires
            old(self).wf(),
        ensures
            final(self).wf(),
            old(self)@.slot_error(task, index) matches Some(error) ==> result is Err && result->Err_0 == error
                && final(self)@ == old(self)@,
            old(self)@.slot_error(task, index) is None ==> {
                &&& final(self)@ == old(self)@.after_slot_read(task, index, None)
                &&& result matches Ok(read)
                &&& read is Ready == old(self)@.tasks[task].slots[index as int].content is Some
                &&& read matches Read::Ready(value) ==> Some(value) == old(self)@.tasks[task].slots[index as int].content
            },
            old(self).inv() ==> final(self).inv(),
    {
        if let Some(error) = self.slot_error(task, index) {
            return Err(error);
        }
        Ok(self.read_slot(task, index, None))
    }

    /// Assigns `content` to the slot at `index` of `task`. Content equal to
    /// what the slot holds changes nothing and invalidates nobody. Other
    /// content replaces it: the readers of the old content are dropped, lose
    /// the dependency, and are handed to the caller to be notified. Whoever
    /// waited for the slot is woken either way.
    pub fn update_task_slot(&mut self, task: TaskId, index: usize, content: Value) -> (result: Result<
        Effects,
        InternalError,
    >)
        requires
            old(self).wf(),
        ensures
            final(self).wf(),
            old(self)@.slot_error(task, index) matches Some(error) ==> result is Err && result->Err_0 == error
                && final(self)@ == old(self)@,
            old(self)@.slot_error(task, index) is None ==> {
                &&& final(self)@ == old(self)@.after_slot_write(task, index, content)
                &&& result matches Ok(effects)
                &&& effects.notify@.to_set() == old(self)@.tasks[task].assignment_drops(index, content)
                &&& effects.notify@.no_duplicates()
                &&& old(self)@.tasks[task].slots[index as int].content == Some(content) ==> effects.notify@.len() == 0
                &&& effects.wake@ == if old(self)@.tasks[task].slots[index as int].waiters {
                    seq![WaitHandle { task, slot: Some(index) }]
                } else {
                    Seq::<WaitHandle>::empty()
                }
                &&& effects.schedule@.len() == 0
                &&& effects.background_jobs@.len() == 0
            },
            old(self).inv() ==> final(self).inv(),
    {
        proof {
            if old(self).inv() && old(self)@.slot_error(task, index) is None {
                lemma_slot_write_graph(old(self)@, task, index, content);
                lemma_slot_write_listeners(old(self)@, task, index, content);
            }
        }
        if let Some(error) = self.slot_error(task, index) {
            return Err(error);
        }
        let mut effects = Effects::new();
        let mut wake = false;
        match self.task_mut(task) {
            None => {},
            Some(writer) => {
                let written = writer.assign_slot(index, content, task);
                effects.notify = written.readers;
                wake = written.wake;
            },
        }
        self.scrub(&effects.notify, Dependency::OnSlot(task, index));
        let handle = WaitHandle { task, slot: Some(index) };
        self.wake(handle, wake);
        if wake {
            effects.wake.push(handle);
        }
        Ok(effects)
    }
    /// Settles the outcome of caching the tentative task `id`. `Ok` means that
    /// the task was cached: `id` is the answer. `Err` holds the id of the task
    /// that stood in the way: the tentative task is dropped, its id goes back
    /// to the allocator, and the other id is the answer.
    pub fn settle_insertion(&mut self, id: TaskId, outcome: Result<TaskId, TaskId>) -> (task: TaskId)
        requires
            old(self).wf(),
            outcome is Err ==> old(self)@.tasks.contains_key(id) && forall|key: Seq<u64>| #[trigger]
                old(self)@.cache.contains_key(key) ==> old(self)@.cache[key] != id,
        ensures
            final(self).wf(),
            final(self)@ == old(self)@.after_settlement(id, outcome),
            task == (match outcome {
                Ok(_) => id,
                Err(current) => current,
            }),
            old(self).inv() && (outcome is Err ==> isolated(old(self)@.tasks[id]) && !old(self)@.listened(id))
                ==> final(self).inv(),
    {
        proof {
            if old(self).inv() && outcome is Err && isolated(old(self)@.tasks[id]) && !old(self)@.listened(id) {
                lemma_dropped_graph(old(self)@.tasks, id);
                lemma_dropped_listeners(old(self)@.tasks, id, old(self)@.listeners);
            }
        }
        match outcome {
            Ok(_) => id,
            Err(current) => {
                self.memory_tasks.remove(id);
                self.task_id_factory.reuse(id);
                proof {
                    assert(self@.tasks =~= old(self)@.tasks.remove(id));
                    assert forall|other: TaskId| #[trigger] self.memory_tasks@.contains_key(other) implies self.memory_tasks@[other].wf()
                        && self.task_id_factory@.is_live(other) by {
                        assert(old(self).memory_tasks@.contains_key(other));
                        assert(self.task_id_factory@.live().contains(other));
                    }
                    assert(self@.cache_consistent()) by {
                        assert forall|key: Seq<u64>| #[trigger] self@.cache.contains_key(key) implies self@.tasks.contains_key(
                            self@.cache[key],
                        ) && (self@.tasks[self@.cache[key]].ty matches TaskTypeView::Persistent(ty) && ty.fingerprint()
                            == key) by {
                            assert(old(self)@.cache.contains_key(key));
                        }
                    }
                }
                current
            },
        }
    }

    /// Answers a request by `parent_task` for the persistent task of the given
    /// type. The task that is cached under the fingerprint of the type is the
    /// answer, where there is one; else a new task is created, dirty and
    /// inactive, and cached. Either way the task becomes a child of
    /// `parent_task`, and turns active with all that it reaches where the
    /// parent is active and it was not. Runs are asked for of the dirty tasks
    /// that turned active.
    pub fn get_or_create_persistent_task(&mut self, task_type: PersistentTaskType, parent_task: TaskId) -> (result:
        Result<(TaskId, Effects), InternalError>)
        requires
            old(self).wf(),
        ensures
            final(self).wf(),
            !old(self)@.tasks.contains_key(parent_task) ==> result is Err && result->Err_0
                == InternalError::UnknownTask(parent_task) && final(self)@ == old(self)@,
            old(self)@.tasks.contains_key(parent_task) && old(self)@.persistent_task_id(task_type@) is None ==> result
                is Err && result->Err_0 == InternalError::OutOfTaskIds && final(self)@ == old(self)@,
            old(self)@.tasks.contains_key(parent_task) && old(self)@.persistent_task_id(task_type@) is Some ==> {
                &&& final(self)@ == old(self)@.after_persistent_task(task_type@, parent_task)
                &&& result matches Ok((task, effects))
                &&& Some(task) == old(self)@.persistent_task_id(task_type@)
                &&& effects.schedule@.no_duplicates()
                &&& effects.schedule@.to_set() == old(self)@.persistent_task_schedules(task_type@, parent_task)
                &&& effects.notify@.len() == 0
                &&& effects.wake@.len() == 0
                &&& effects.background_jobs@.len() == 0
            },
            old(self).inv() ==> final(self).inv(),
    {
        proof {
            if old(self).inv() && old(self)@.tasks.contains_key(parent_task) && old(self)@.persistent_task_id(
                task_type@,
            ) is Some {
                old(self).lemma_wf();
                let key = task_type@.fingerprint();
                if old(self)@.cache.contains_key(key) {
                    lemma_connected_graph(old(self)@.tasks, parent_task, old(self)@.cache[key]);
                    lemma_connected_listeners(
                        old(self)@.tasks,
                        parent_task,
                        old(self)@.cache[key],
                        old(self)@.listeners,
                    );
                } else {
                    let id = old(self)@.task_ids.upcoming()->0;
                    let tentative = old(self)@.tasks.insert(id, TaskView::new_persistent(task_type@));
                    lemma_new_task_graph(
                        old(self)@.tasks,
                        id,
                        TaskTypeView::Persistent(task_type@),
                        TaskState::Dirty,
                        false,
                    );
                    lemma_connected_graph(tentative, parent_task, id);
                    lemma_listeners_local(
                        old(self)@.tasks,
                        old(self)@.listeners,
                        id,
                        TaskView::new_persistent(task_type@),
                    );
                    lemma_connected_listeners(tentative, parent_task, id, old(self)@.listeners);
                }
            }
        }
        if !self.memory_tasks.contains(parent_task) {
            return Err(InternalError::UnknownTask(parent_task));
        }
        let key = task_type.fingerprint();
        let task = match self.task_cache.get(&key) {
            Some(task) => task,
            None => {
                let id = match self.task_id_factory.get() {
                    Some(id) => id,
                    None => {
                        return Err(InternalError::OutOfTaskIds);
                    },
                };
                let ghost ty = task_type@;
                let task = match task_type {
                    PersistentTaskType::Native(function, inputs) => Task::new_native(inputs, function),
                    PersistentTaskType::ResolveNative(function, inputs) => Task::new_resolve_native(inputs, function),
                    PersistentTaskType::ResolveTrait(trait_id, name, inputs) => Task::new_resolve_trait(
                        trait_id,
                        name,
                        inputs,
                    ),
                };
                self.memory_tasks.insert(id, task);
                proof {
                    assert(self@.tasks =~= old(self)@.tasks.insert(id, TaskView::new_persistent(ty)));
                    assert forall|other: TaskId| #[trigger] self.memory_tasks@.contains_key(other) implies self.memory_tasks@[other].wf()
                        && self.task_id_factory@.is_live(other) by {
                        assert(self.task_id_factory@.live().contains(other));
                    }
                    assert(!old(self).memory_tasks@.contains_key(id));
                    assert(self.wf());
                }
                let outcome = self.task_cache.try_insert(key, id);
                proof {
                    assert(self@.cache_consistent()) by {
                        assert forall|other: Seq<u64>| #[trigger] self@.cache.contains_key(other) implies self@.tasks.contains_key(
                            self@.cache[other],
                        ) && (self@.tasks[self@.cache[other]].ty matches TaskTypeView::Persistent(cached)
                            && cached.fingerprint() == other) by {
                            if other != key@ {
                                assert(old(self)@.cache.contains_key(other));
                            }
                        }
                    }
                }
                self.settle_insertion(id, outcome)
            },
        };
        let schedule = self.connect_task_child(parent_task, task);
        let mut effects = Effects::new();
        effects.schedule = schedule;
        Ok((task, effects))
    }

    /// The ids of all cached tasks, once for each, in no particular order.
    pub fn with_all_cached_tasks(&self) -> (tasks: Vec<TaskId>)
        ensures
            tasks@.to_set() == self@.cache.values(),
            tasks@.len() == self@.cache.dom().len(),
    {
        self.task_cache.values()
    }
    /// Stores `job` under a new id, for the executor to run it later.
    pub fn create_background_job(&mut self, job: BackgroundJob) -> (result: Result<BackgroundJobId, InternalError>)
        requires
            old(self).wf(),
        ensures
            final(self).wf(),
            old(self)@.job_ids.upcoming() is None ==> result is Err && result->Err_0 == InternalError::OutOfJobIds
                && final(self)@ == old(self)@,
            old(self)@.job_ids.upcoming() matches Some(id) ==> result == Ok::<BackgroundJobId, InternalError>(id)
                && final(self)@ == old(self)@.with_job(id, job@) && !old(self)@.jobs.contains_key(id),
            old(self).inv() ==> final(self).inv(),
    {
        match self.background_job_id_factory.get() {
            None => Err(InternalError::OutOfJobIds),
            Some(id) => {
                self.background_jobs.insert(id, job);
                proof {
                    assert(self@.jobs =~= old(self)@.jobs.insert(id, job@));
                    assert forall|other: BackgroundJobId| #[trigger] self.background_jobs@.contains_key(other) implies self.background_job_id_factory@.is_live(
                        other,
                    ) by {
                        assert(self.background_job_id_factory@.live().contains(other));
                    }
                    assert(!old(self).background_jobs@.contains_key(id));
                }
                Ok(id)
            },
        }
    }

    /// Whether an id is left for one more background job.
    pub fn has_job_id(&self) -> (left: bool)
        requires
            self.wf(),
        ensures
            left == self@.job_ids.upcoming() is Some,
    {
        self.background_job_id_factory.has_next()
    }
    /// Takes the task under `id` out of the store and of the cache and gives
    /// its id back to the allocator. The result is the record that was
    /// stored, if there was one.
    pub(crate) fn erase_task(&mut self, id: TaskId) -> (task: Option<Task>)
        requires
            old(self).wf(),
        ensures
            final(self).wf(),
            task is Some == old(self)@.tasks.contains_key(id),
            task is None ==> final(self)@ == old(self)@,
            task matches Some(record) ==> record@ == old(self)@.tasks[id] && record.wf() && final(self)@ == old(
                self,
            )@.erased(id),
            task is None && old(self).inv() ==> final(self).inv(),
    {
        match self.memory_tasks.remove(id) {
            None => {
                assert(self@.tasks =~= old(self)@.tasks);
                None
            },
            Some(record) => {
                if let Some(key) = record.fingerprint() {
                    let cached = match self.task_cache.get(&key) {
                        Some(holder) => holder == id,
                        None => false,
                    };
                    if cached {
                        self.task_cache.remove(&key);
                    }
                }
                self.task_id_factory.reuse(id);
                proof {
                    assert(self@.tasks =~= old(self)@.tasks.remove(id));
                    assert(self@.cache =~= old(self)@.cache_without(id));
                    assert forall|other: TaskId| #[trigger] self.memory_tasks@.contains_key(other) implies self.memory_tasks@[other].wf()
                        && self.task_id_factory@.is_live(other) by {
                        assert(old(self).memory_tasks@.contains_key(other));
                        assert(self.task_id_factory@.live().contains(other));
                    }
                    assert(self@.cache_consistent()) by {
                        assert forall|key: Seq<u64>| #[trigger] self@.cache.contains_key(key) implies self@.tasks.contains_key(
                            self@.cache[key],
                        ) && (self@.tasks[self@.cache[key]].ty matches TaskTypeView::Persistent(ty) && ty.fingerprint()
                            == key) by {
                            assert(old(self)@.cache.contains_key(key));
                        }
                    }
                }
                Some(record)
            },
        }
    }
    /// Takes the job under `id` out of the store and gives its id back to the
    /// allocator.
    pub(crate) fn take_job(&mut self, id: BackgroundJobId) -> (job: Option<BackgroundJob>)
        requires
            old(self).wf(),
        ensures
            final(self).wf(),
            job is Some == old(self)@.jobs.contains_key(id),
            job is None ==> final(self)@ == old(self)@,
            job matches Some(found) ==> found@ == old(self)@.jobs[id] && final(self)@ == old(self)@.without_job(id)
                && final(self)@.job_ids.upcoming() == Some(id) && final(self)@.job_ids.taken() == old(
                self,
            )@.job_ids,
            old(self).inv() ==> final(self).inv(),
    {
        match self.background_jobs.remove(id) {
            None => {
                assert(self@.jobs =~= old(self)@.jobs);
                None
            },
            Some(job) => {
                self.background_job_id_factory.reuse(id);
                proof {
                    assert(self@.jobs =~= old(self)@.jobs.remove(id));
                    assert forall|other: BackgroundJobId| #[trigger] self.background_jobs@.contains_key(other) implies self.background_job_id_factory@.is_live(
                        other,
                    ) by {
                        assert(old(self).background_jobs@.contains_key(other));
                        assert(self.background_job_id_factory@.live().contains(other));
                    }
                    assert(self@.job_ids.taken().free =~= old(self)@.job_ids.free);
                }
                Some(job)
            },
        }
    }

    /// Whether a job is stored under `id`.
    pub fn contains_job(&self, id: BackgroundJobId) -> (present: bool)
        ensures
            present == self@.jobs.contains_key(id),
    {
        self.background_jobs.contains(id)
    }

    /// The job stored under `id`, if any.
    pub fn get_job(&self, id: BackgroundJobId) -> (job: Option<&BackgroundJob>)
        ensures
            job is Some == self@.jobs.contains_key(id),
            job matches Some(found) ==> found@ == self@.jobs[id],
    {
        self.background_jobs.get(id)
    }
    /// Applies `func` to the task stored under `id` and returns what it
    /// returns.
    pub fn with_task<T, F: FnOnce(&Task) -> T>(&self, id: TaskId, func: F) -> (result: T)
        requires
            self@.tasks.contains_key(id),
            forall|task: &Task| task@ == self@.tasks[id] ==> call_requires(func, (task,)),
        ensures
            exists|task: &Task| task@ == self@.tasks[id] && #[trigger] call_ensures(func, (task,), result),
    {
        match self.memory_tasks.get(id) {
            Some(task) => {
                assert(task@ == self@.tasks[id]);
                func(task)
            },
            None => {
                proof {
                    assert(false);
                }
                unreached()
            },
        }
    }
}

} // verus!
