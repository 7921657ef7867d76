//! The record of one task: its kind, its place in the execution state
//! machine, what it has published, what it has read, and who keeps it alive.

use crate::dependency_set::DependencySet;
use crate::ids::{append_ids, ids_to_vec, lemma_ids_finite};
use crate::output::{Output, OutputView, Written};
use crate::slot::{Slot, SlotView};
use crate::slot_mappings::{maps_index, SlotMapping, SlotMappings};
use crate::task_type::{PersistentTaskType, PersistentTaskTypeView, TransientTaskType};
use crate::value::{Dependency, Outcome, TaskId, Value, WaitHandle};
use std::collections::HashSet;
use vstd::prelude::*;

verus! {

/// Where a task stands between two runs of its body.
#[derive(Clone, Copy, Debug, PartialEq, Eq, Structural)]
pub enum TaskState {
    /// The output is missing or out of date and no run has been asked for.
    Dirty,
    /// A run has been asked for and has not started.
    Scheduled,
    /// The run with this epoch is under way.
    InProgress { run_epoch: u64 },
    /// The run with this epoch is under way and was invalidated since it
    /// started: what it produces will be discarded.
    InProgressDirty { run_epoch: u64 },
    /// The last run completed and its outcome is in the output cell.
    Done,
}

/// The kind of a task.
#[derive(Debug)]
pub enum TaskType {
    Persistent(PersistentTaskType),
    Transient(TransientTaskType),
}

/// The kind of a task as plain values.
pub enum TaskTypeView {
    Persistent(PersistentTaskTypeView),
    Transient(TransientTaskType),
}

impl View for TaskType {
    type V = TaskTypeView;

    open spec fn view(&self) -> TaskTypeView {
        match self {
            TaskType::Persistent(ty) => TaskTypeView::Persistent(ty@),
            TaskType::Transient(ty) => TaskTypeView::Transient(*ty),
        }
    }
}

/// What a task record holds.
#[verifier::ext_equal]
pub struct TaskView {
    pub ty: TaskTypeView,
    pub state: TaskState,
    /// The number of runs started so far; the epoch of the latest run.
    pub executions: u64,
    pub output: OutputView,
    pub slots: Seq<SlotView>,
    pub slot_mappings: Seq<SlotMapping>,
    /// What the task is registered for as a reader.
    pub dependencies: Set<Dependency>,
    /// The dependencies recorded since the latest run started.
    pub fresh_dependencies: Set<Dependency>,
    /// The tasks that the task has called.
    pub children: Set<TaskId>,
    /// The children called since the latest run started.
    pub fresh_children: Set<TaskId>,
    /// The tasks that have the task as a child.
    pub parents: Set<TaskId>,
    /// The parents that are active: each of them counts one towards the
    /// active count.
    pub active_parents: Set<TaskId>,
    /// Whether the task passes its activity on to its children. A task turns
    /// active when its active count becomes positive and turns inactive when
    /// a deactivation job finds the count at zero.
    pub active: bool,
    /// Whether an anchor outside the graph keeps the task alive.
    pub anchored: bool,
}

impl TaskView {
    /// A task that has done nothing yet.
    pub open spec fn fresh(ty: TaskTypeView, state: TaskState, anchored: bool) -> TaskView {
        TaskView {
            ty,
            state,
            executions: 0,
            output: Output::empty(),
            slots: Seq::empty(),
            slot_mappings: Seq::empty(),
            dependencies: Set::empty(),
            fresh_dependencies: Set::empty(),
            children: Set::empty(),
            fresh_children: Set::empty(),
            parents: Set::empty(),
            active_parents: Set::empty(),
            active: anchored,
            anchored,
        }
    }

    /// A new persistent task: dirty, and inactive until a parent connects it.
    pub open spec fn new_persistent(ty: PersistentTaskTypeView) -> TaskView {
        Self::fresh(TaskTypeView::Persistent(ty), TaskState::Dirty, false)
    }

    /// A new transient task: scheduled, anchored and therefore active.
    pub open spec fn new_transient(ty: TransientTaskType) -> TaskView {
        Self::fresh(TaskTypeView::Transient(ty), TaskState::Scheduled, true)
    }

    /// The number of active parents, and one more for an anchor.
    pub open spec fn active_count(self) -> nat {
        self.active_parents.len() + if self.anchored {
            1nat
        } else {
            0nat
        }
    }

    /// Whether the task is a once-task that has completed: it holds its
    /// result for good.
    pub open spec fn settled(self) -> bool {
        self.ty == TaskTypeView::Transient(TransientTaskType::Once) && self.state is Done
    }

    /// The readers of the output and of every slot.
    pub open spec fn all_readers(self) -> Set<TaskId> {
        Set::new(
            |reader: TaskId|
                self.output.readers.contains(reader) || exists|i: int|
                    0 <= i < self.slots.len() && (#[trigger] self.slots[i]).readers.contains(reader),
        )
    }

    /// The readers of the output and of the slots before `count`.
    pub open spec fn readers_before(self, count: int) -> Set<TaskId> {
        Set::new(
            |reader: TaskId|
                self.output.readers.contains(reader) || exists|i: int|
                    0 <= i < count && i < self.slots.len() && (#[trigger] self.slots[i]).readers.contains(reader),
        )
    }

    /// Whether an invalidation changes anything but the state: it does for a
    /// task that is done and not settled.
    pub open spec fn invalidation_spreads(self) -> bool {
        self.state is Done && !self.settled()
    }

    /// The task after an invalidation. A done task turns dirty, unless it is
    /// settled; a run under way is marked as out of date; nothing else
    /// changes.
    pub open spec fn invalidated(self) -> TaskView {
        match self.state {
            TaskState::Done => if self.settled() {
                self
            } else {
                TaskView { state: TaskState::Dirty, ..self }
            },
            TaskState::InProgress { run_epoch } => TaskView {
                state: TaskState::InProgressDirty { run_epoch },
                ..self
            },
            _ => self,
        }
    }

    /// The tasks to notify after an invalidation: every reader of a task that
    /// was done and not settled.
    pub open spec fn invalidation_notifies(self) -> Set<TaskId> {
        if self.invalidation_spreads() {
            self.all_readers()
        } else {
            Set::empty()
        }
    }

    /// Whether an invalidation asks for a new run: it does for a task that
    /// was done, is not settled and has a positive active count.
    pub open spec fn invalidation_schedules(self) -> bool {
        self.invalidation_spreads() && self.active_count() > 0
    }

    /// The task after a request to run it: a dirty task turns scheduled.
    pub open spec fn scheduled(self) -> TaskView {
        if self.state is Dirty {
            TaskView { state: TaskState::Scheduled, ..self }
        } else {
            self
        }
    }

    /// Whether a run can start: the task is scheduled and an epoch is left.
    pub open spec fn can_start(self) -> bool {
        self.state is Scheduled && self.executions < u64::MAX
    }

    /// The task after a run started: under way in the next epoch, with
    /// nothing recorded for the run yet.
    pub open spec fn started(self) -> TaskView {
        TaskView {
            state: TaskState::InProgress { run_epoch: (self.executions + 1) as u64 },
            executions: (self.executions + 1) as u64,
            fresh_dependencies: Set::empty(),
            fresh_children: Set::empty(),
            ..self
        }
    }

    /// Whether the run of `epoch` is under way and still counts.
    pub open spec fn completes(self, epoch: u64) -> bool {
        self.state == (TaskState::InProgress { run_epoch: epoch })
    }

    /// Whether the run of `epoch` is under way and was invalidated.
    pub open spec fn completes_stale(self, epoch: u64) -> bool {
        self.state == (TaskState::InProgressDirty { run_epoch: epoch })
    }

    /// Whether a read of the output is answered with the value: only a done
    /// task answers, and it has content.
    pub open spec fn output_ready(self) -> bool {
        self.state is Done && self.output.content is Some
    }

    /// The readers of a cell: of the output, or of the slot at the given
    /// index. A slot that does not exist has none.
    pub open spec fn cell_readers(self, slot: Option<usize>) -> Set<TaskId> {
        match slot {
            None => self.output.readers,
            Some(index) => if index < self.slots.len() {
                self.slots[index as int].readers
            } else {
                Set::empty()
            },
        }
    }

    /// The task with other readers in one cell. A slot that does not exist
    /// stays out.
    pub open spec fn with_cell_readers(self, slot: Option<usize>, readers: Set<TaskId>) -> TaskView {
        match slot {
            None => TaskView { output: OutputView { readers, ..self.output }, ..self },
            Some(index) => if index < self.slots.len() {
                TaskView {
                    slots: self.slots.update(index as int, SlotView { readers, ..self.slots[index as int] }),
                    ..self
                }
            } else {
                self
            },
        }
    }

    /// The task with `dependency` recorded, for good and for the latest run.
    pub open spec fn with_dependency(self, dependency: Dependency) -> TaskView {
        TaskView {
            dependencies: self.dependencies.insert(dependency),
            fresh_dependencies: self.fresh_dependencies.insert(dependency),
            ..self
        }
    }

    /// The task without `dependency`.
    pub open spec fn without_dependency(self, dependency: Dependency) -> TaskView {
        TaskView {
            dependencies: self.dependencies.remove(dependency),
            fresh_dependencies: self.fresh_dependencies.remove(dependency),
            ..self
        }
    }

    /// The dependencies that the latest run did not record again.
    pub open spec fn stale_dependencies(self) -> Set<Dependency> {
        self.dependencies.difference(self.fresh_dependencies)
    }

    /// The children that the latest run did not call again.
    pub open spec fn stale_children(self) -> Set<TaskId> {
        self.children.difference(self.fresh_children)
    }

    /// The task after a read of its output that found it not ready: someone
    /// waits for the output now.
    pub open spec fn awaited(self) -> TaskView {
        TaskView { output: OutputView { waiters: true, ..self.output }, ..self }
    }

    /// The task after the run of `epoch` ended with `outcome`. A run that
    /// still counts stores its outcome and leaves the task done. A run that
    /// was invalidated leaves the task dirty and its outcome is dropped. For
    /// any other run nothing changes.
    pub open spec fn completed(self, epoch: u64, outcome: Outcome) -> TaskView {
        if self.completes(epoch) {
            TaskView { state: TaskState::Done, output: Output::written(self.output, outcome, epoch), ..self }
        } else if self.completes_stale(epoch) {
            TaskView { state: TaskState::Dirty, ..self }
        } else {
            self
        }
    }

    /// The readers that a completion drops from the output: those of content
    /// that a run that still counts replaces.
    pub open spec fn completion_drops(self, epoch: u64, outcome: Outcome) -> Set<TaskId> {
        if self.completes(epoch) && self.output.content != Some(outcome) {
            self.output.readers
        } else {
            Set::empty()
        }
    }

    /// The task after a read of the slot at `index` that found it empty:
    /// someone waits for the slot now.
    pub open spec fn slot_awaited(self, index: usize) -> TaskView {
        TaskView {
            slots: self.slots.update(index as int, SlotView { waiters: true, ..self.slots[index as int] }),
            ..self
        }
    }

    /// The task after `content` was assigned to the slot at `index` by
    /// `writer`.
    pub open spec fn slot_assigned(self, index: usize, content: Value, writer: TaskId) -> TaskView {
        TaskView {
            slots: self.slots.update(index as int, Slot::assigned(self.slots[index as int], content, writer)),
            ..self
        }
    }

    /// The readers that an assignment of `content` to the slot at `index`
    /// drops: those of content that it replaces.
    pub open spec fn assignment_drops(self, index: usize, content: Value) -> Set<TaskId> {
        if self.slots[index as int].content == Some(content) {
            Set::empty()
        } else {
            self.slots[index as int].readers
        }
    }

    /// The task with `child` among its children, called in the latest run.
    pub open spec fn with_child(self, child: TaskId) -> TaskView {
        TaskView {
            children: self.children.insert(child),
            fresh_children: self.fresh_children.insert(child),
            ..self
        }
    }

    /// The task without `child` among its children.
    pub open spec fn without_child(self, child: TaskId) -> TaskView {
        TaskView {
            children: self.children.remove(child),
            fresh_children: self.fresh_children.remove(child),
            ..self
        }
    }

    /// The task with `parent` among its parents; among its active parents
    /// too where `active` says so.
    pub open spec fn with_parent(self, parent: TaskId, active: bool) -> TaskView {
        TaskView {
            parents: self.parents.insert(parent),
            active_parents: if active {
                self.active_parents.insert(parent)
            } else {
                self.active_parents
            },
            ..self
        }
    }

    /// The task without `parent` among its parents.
    pub open spec fn without_parent(self, parent: TaskId) -> TaskView {
        TaskView {
            parents: self.parents.remove(parent),
            active_parents: self.active_parents.remove(parent),
            ..self
        }
    }

    /// Whether the task is left without reason to be active: it is active
    /// and its active count is zero.
    pub open spec fn idle(self) -> bool {
        self.active && self.active_count() == 0
    }

    /// The task without the dependencies of `gone`.
    pub open spec fn without_dependencies(self, gone: Set<Dependency>) -> TaskView {
        TaskView {
            dependencies: self.dependencies.difference(gone),
            fresh_dependencies: self.fresh_dependencies.difference(gone),
            ..self
        }
    }

    /// The task, stored under `me`, without `reader` among the readers of
    /// each of its cells that `gone` names.
    pub open spec fn without_reader_in(self, me: TaskId, reader: TaskId, gone: Set<Dependency>) -> TaskView {
        TaskView {
            output: if gone.contains(Dependency::OnOutput(me)) {
                OutputView { readers: self.output.readers.remove(reader), ..self.output }
            } else {
                self.output
            },
            slots: Seq::new(
                self.slots.len(),
                |i: int|
                    if gone.contains(Dependency::OnSlot(me, i as usize)) {
                        SlotView { readers: self.slots[i].readers.remove(reader), ..self.slots[i] }
                    } else {
                        self.slots[i]
                    },
            ),
            ..self
        }
    }

    /// The task without the children of `gone`.
    pub open spec fn without_children(self, gone: Set<TaskId>) -> TaskView {
        TaskView {
            children: self.children.difference(gone),
            fresh_children: self.fresh_children.difference(gone),
            ..self
        }
    }

    /// Whether the end of a run with the slot mappings `next` abandons the
    /// slot at `index`: the mappings of the run before name the slot and
    /// `next` does not.
    pub open spec fn abandons(self, next: Seq<SlotMapping>, index: int) -> bool {
        &&& 0 <= index < self.slots.len()
        &&& maps_index(self.slot_mappings, index as usize)
        &&& !maps_index(next, index as usize)
    }

    /// The task with the slot at `index` abandoned.
    pub open spec fn slot_abandoned(self, index: usize) -> TaskView {
        TaskView { slots: self.slots.update(index as int, Slot::abandoned(self.slots[index as int])), ..self }
    }

    /// Whether the task may be removed: it is inactive and its active count
    /// is zero.
    pub open spec fn removable(self) -> bool {
        !self.active && self.active_count() == 0
    }

    /// Whether someone waits for the given cell: the output, or the slot at
    /// the given index.
    pub open spec fn awaits(self, slot: Option<usize>) -> bool {
        match slot {
            None => self.output.waiters,
            Some(index) => index < self.slots.len() && self.slots[index as int].waiters,
        }
    }

    /// The fingerprint under which the task is memoized; `None` for a
    /// transient task.
    pub open spec fn fingerprint(self) -> Option<Seq<u64>> {
        match self.ty {
            TaskTypeView::Persistent(ty) => Some(ty.fingerprint()),
            TaskTypeView::Transient(_) => None,
        }
    }
}

/// The views of a list of slots.
pub open spec fn slot_views(slots: Seq<Slot>) -> Seq<SlotView> {
    Seq::new(slots.len(), |i: int| slots[i]@)
}

/// What an invalidation left for the caller to do.
pub struct Invalidation {
    /// The tasks to notify: the readers of what the task has published.
    pub notify: Vec<TaskId>,
    /// Whether a run of the task is to be asked for.
    pub schedule: bool,
}

/// One task.
pub struct Task {
    ty: TaskType,
    state: TaskState,
    executions: u64,
    output: Output,
    slots: Vec<Slot>,
    slot_mappings: SlotMappings,
    dependencies: DependencySet,
    fresh_dependencies: DependencySet,
    children: HashSet<TaskId>,
    fresh_children: HashSet<TaskId>,
    parents: HashSet<TaskId>,
    active_parents: HashSet<TaskId>,
    active: bool,
    anchored: bool,
}

impl Task {
    pub closed spec fn view(&self) -> TaskView {
        TaskView {
            ty: self.ty@,
            state: self.state,
            executions: self.executions,
            output: self.output@,
            slots: slot_views(self.slots@),
            slot_mappings: self.slot_mappings@,
            dependencies: self.dependencies@,
            fresh_dependencies: self.fresh_dependencies@,
            children: self.children@,
            fresh_children: self.fresh_children@,
            parents: self.parents@,
            active_parents: self.active_parents@,
            active: self.active,
            anchored: self.anchored,
        }
    }

    /// The record holds no dependency twice.
    pub closed spec fn wf(&self) -> bool {
        &&& self.dependencies.wf()
        &&& self.fresh_dependencies.wf()
    }

    /// The slots of a record are few enough to be counted in `usize`.
    pub proof fn lemma_slots_fit(&self)
        ensures
            self@.slots.len() <= usize::MAX,
    {
        assert(self.slots.len() == self.slots@.len());
    }

    fn with_type(ty: TaskType, state: TaskState, anchored: bool) -> (task: Self)
        ensures
            task.wf(),
            task@ == TaskView::fresh(ty@, state, anchored),
    {
        let task = Task {
            ty,
            state,
            executions: 0,
            output: Output::new(),
            slots: Vec::new(),
            slot_mappings: SlotMappings::new(),
            dependencies: DependencySet::new(),
            fresh_dependencies: DependencySet::new(),
            children: HashSet::new(),
            fresh_children: HashSet::new(),
            parents: HashSet::new(),
            active_parents: HashSet::new(),
            active: anchored,
            anchored,
        };
        assert(task@.slots =~= Seq::<SlotView>::empty());
        task
    }

    /// A new persistent task of the given type.
    pub fn new_persistent(ty: PersistentTaskType) -> (task: Self)
        ensures
            task.wf(),
            task@ == TaskView::new_persistent(ty@),
    {
        Self::with_type(TaskType::Persistent(ty), TaskState::Dirty, false)
    }

    /// A new task that calls the native function `function` on `inputs`.
    pub fn new_native(inputs: Vec<Value>, function: usize) -> (task: Self)
        ensures
            task.wf(),
            task@ == TaskView::new_persistent(PersistentTaskTypeView::Native(function, inputs@)),
    {
        Self::new_persistent(PersistentTaskType::Native(function, inputs))
    }

    /// A new task that resolves `inputs` and then calls the native function
    /// `function` on them.
    pub fn new_resolve_native(inputs: Vec<Value>, function: usize) -> (task: Self)
        ensures
            task.wf(),
            task@ == TaskView::new_persistent(PersistentTaskTypeView::ResolveNative(function, inputs@)),
    {
        Self::new_persistent(PersistentTaskType::ResolveNative(function, inputs))
    }

    /// A new task that calls the method `name` of the trait `trait_id` on
    /// `inputs`.
    pub fn new_resolve_trait(trait_id: usize, name: String, inputs: Vec<Value>) -> (task: Self)
        ensures
            task.wf(),
            task@ == TaskView::new_persistent(PersistentTaskTypeView::ResolveTrait(trait_id, name@, inputs@)),
    {
        Self::new_persistent(PersistentTaskType::ResolveTrait(trait_id, name, inputs))
    }

    /// A new root task.
    pub fn new_root() -> (task: Self)
        ensures
            task.wf(),
            task@ == TaskView::new_transient(TransientTaskType::Root),
    {
        Self::with_type(TaskType::Transient(TransientTaskType::Root), TaskState::Scheduled, true)
    }

    /// A new once-task.
    pub fn new_once() -> (task: Self)
        ensures
            task.wf(),
            task@ == TaskView::new_transient(TransientTaskType::Once),
    {
        Self::with_type(TaskType::Transient(TransientTaskType::Once), TaskState::Scheduled, true)
    }

    /// The kind of the task.
    pub fn ty(&self) -> (ty: &TaskType)
        ensures
            ty@ == self@.ty,
    {
        &self.ty
    }

    /// The state of the task.
    pub fn state(&self) -> (state: TaskState)
        ensures
            state == self@.state,
    {
        self.state
    }

    /// The number of runs started so far.
    pub fn executions(&self) -> (count: u64)
        ensures
            count == self@.executions,
    {
        self.executions
    }

    /// The output cell.
    pub fn output(&self) -> (output: &Output)
        ensures
            output@ == self@.output,
    {
        &self.output
    }

    /// The number of slots.
    pub fn slot_count(&self) -> (count: usize)
        ensures
            count == self@.slots.len(),
    {
        self.slots.len()
    }

    /// The slot at `index`.
    pub fn slot(&self, index: usize) -> (slot: &Slot)
        requires
            index < self@.slots.len(),
        ensures
            slot@ == self@.slots[index as int],
    {
        &self.slots[index]
    }

    /// The slot mappings of the latest completed run.
    pub fn slot_mappings(&self) -> (table: &SlotMappings)
        ensures
            table@ == self@.slot_mappings,
    {
        &self.slot_mappings
    }

    /// What the task is registered for as a reader.
    pub fn dependencies(&self) -> (dependencies: &DependencySet)
        requires
            self.wf(),
        ensures
            dependencies.wf(),
            dependencies@ == self@.dependencies,
    {
        &self.dependencies
    }

    /// The dependencies recorded since the latest run started.
    pub fn fresh_dependencies(&self) -> (dependencies: &DependencySet)
        requires
            self.wf(),
        ensures
            dependencies.wf(),
            dependencies@ == self@.fresh_dependencies,
    {
        &self.fresh_dependencies
    }

    /// The tasks that the task has called.
    pub fn children(&self) -> (children: &HashSet<TaskId>)
        ensures
            children@ == self@.children,
    {
        &self.children
    }

    /// The children called since the latest run started.
    pub fn fresh_children(&self) -> (children: &HashSet<TaskId>)
        ensures
            children@ == self@.fresh_children,
    {
        &self.fresh_children
    }

    /// The tasks that have the task as a child.
    pub fn parents(&self) -> (parents: &HashSet<TaskId>)
        ensures
            parents@ == self@.parents,
    {
        &self.parents
    }

    /// The parents that are active.
    pub fn active_parents(&self) -> (parents: &HashSet<TaskId>)
        ensures
            parents@ == self@.active_parents,
    {
        &self.active_parents
    }

    /// Whether the task passes its activity on to its children.
    pub fn is_active(&self) -> (active: bool)
        ensures
            active == self@.active,
    {
        self.active
    }

    /// Whether an anchor keeps the task alive.
    pub fn is_anchored(&self) -> (anchored: bool)
        ensures
            anchored == self@.anchored,
    {
        self.anchored
    }

    /// Whether the active count is positive.
    pub fn has_active_count(&self) -> (positive: bool)
        ensures
            positive == (self@.active_count() > 0),
    {
        proof {
            lemma_ids_finite(&self.active_parents);
        }
        self.anchored || !self.active_parents.is_empty()
    }

    /// The active count: the number of active parents, and one more for an
    /// anchor. Where that does not fit in `usize`, the largest `usize`.
    pub fn active_count(&self) -> (count: usize)
        ensures
            count == if self@.active_count() <= usize::MAX {
                self@.active_count()
            } else {
                usize::MAX as nat
            },
    {
        let parents = self.active_parents.len();
        if self.anchored {
            if parents < usize::MAX {
                parents + 1
            } else {
                usize::MAX
            }
        } else {
            parents
        }
    }

    /// Whether the task is a once-task that has completed.
    pub fn is_settled(&self) -> (settled: bool)
        ensures
            settled == self@.settled(),
    {
        let once = match &self.ty {
            TaskType::Transient(ty) => match ty {
                TransientTaskType::Once => true,
                TransientTaskType::Root => false,
            },
            TaskType::Persistent(_) => false,
        };
        let done = match self.state {
            TaskState::Done => true,
            _ => false,
        };
        once && done
    }

    /// The readers of the output and of every slot, in no particular order.
    /// A task that reads several cells is listed once for each.
    pub fn all_readers(&self) -> (readers: Vec<TaskId>)
        ensures
            readers@.to_set() == self@.all_readers(),
    {
        let mut readers = ids_to_vec(self.output.readers());
        let mut i: usize = 0;
        assert(readers@.to_set() =~= self@.readers_before(0));
        while i < self.slots.len()
            invariant
                i <= self.slots@.len(),
                readers@.to_set() == self@.readers_before(i as int),
            decreases self.slots@.len() - i,
        {
            let more = ids_to_vec(self.slots[i].readers());
            let ghost before = readers@;
            append_ids(&mut readers, &more);
            proof {
                assert(self@.slots[i as int] == self.slots@[i as int]@);
                assert forall|reader: TaskId| readers@.to_set().contains(reader) == self@.readers_before(
                    i + 1,
                ).contains(reader) by {
                    if readers@.contains(reader) {
                        let k = choose|k: int| 0 <= k < readers@.len() && readers@[k] == reader;
                        if k < before.len() {
                            assert(before[k] == reader);
                            assert(before.to_set().contains(reader));
                        } else {
                            assert(more@[k - before.len()] == reader);
                            assert(more@.to_set().contains(reader));
                        }
                    }
                    if self@.readers_before(i + 1).contains(reader) {
                        if self@.readers_before(i as int).contains(reader) {
                            assert(before.to_set().contains(reader));
                            let k = choose|k: int| 0 <= k < before.len() && before[k] == reader;
                            assert(readers@[k] == reader);
                        } else {
                            assert(self@.slots[i as int].readers.contains(reader));
                            assert(more@.to_set().contains(reader));
                            let k = choose|k: int| 0 <= k < more@.len() && more@[k] == reader;
                            assert(readers@[before.len() + k] == reader);
                        }
                    }
                }
                assert(readers@.to_set() =~= self@.readers_before(i + 1));
            }
            i += 1;
        }
        assert(self@.readers_before(self.slots@.len() as int) =~= self@.all_readers());
        readers
    }

    /// Invalidates the task. A done task turns dirty, its readers are to be
    /// notified, and a run is to be asked for if its active count is
    /// positive; a settled once-task stays as it is. A run under way is
    /// marked as out of date. A task in any other state stays as it is.
    pub fn invalidate(&mut self) -> (work: Invalidation)
        ensures
            final(self)@ == old(self)@.invalidated(),
            final(self).wf() == old(self).wf(),
            work.notify@.to_set() == old(self)@.invalidation_notifies(),
            work.schedule == old(self)@.invalidation_schedules(),
    {
        match self.state {
            TaskState::Done => {
                if self.is_settled() {
                    let notify: Vec<TaskId> = Vec::new();
                    assert(notify@.to_set() =~= Set::<TaskId>::empty());
                    Invalidation { notify, schedule: false }
                } else {
                    let notify = self.all_readers();
                    let schedule = self.has_active_count();
                    self.state = TaskState::Dirty;
                    Invalidation { notify, schedule }
                }
            },
            TaskState::InProgress { run_epoch } => {
                self.state = TaskState::InProgressDirty { run_epoch };
                let notify: Vec<TaskId> = Vec::new();
                assert(notify@.to_set() =~= Set::<TaskId>::empty());
                Invalidation { notify, schedule: false }
            },
            _ => {
                let notify: Vec<TaskId> = Vec::new();
                assert(notify@.to_set() =~= Set::<TaskId>::empty());
                Invalidation { notify, schedule: false }
            },
        }
    }

    /// Takes a request to run the task: a dirty task turns scheduled. The
    /// result says whether it did.
    pub fn schedule(&mut self) -> (scheduled: bool)
        ensures
            final(self)@ == old(self)@.scheduled(),
            final(self).wf() == old(self).wf(),
            scheduled == (old(self)@.state is Dirty),
    {
        match self.state {
            TaskState::Dirty => {
                self.state = TaskState::Scheduled;
                true
            },
            _ => false,
        }
    }

    /// Starts a run. A scheduled task turns in progress in the next epoch
    /// and forgets what its last run recorded; the result is the epoch. A
    /// task in any other state stays as it is, and the result is `None`.
    pub fn execution_started(&mut self) -> (epoch: Option<u64>)
        ensures
            old(self)@.can_start() ==> final(self)@ == old(self)@.started() && epoch == Some(
                final(self)@.executions,
            ),
            !old(self)@.can_start() ==> final(self)@ == old(self)@ && epoch is None,
            old(self).wf() ==> final(self).wf(),
    {
        match self.state {
            TaskState::Scheduled => {
                if self.executions < u64::MAX {
                    let epoch = self.executions + 1;
                    self.executions = epoch;
                    self.state = TaskState::InProgress { run_epoch: epoch };
                    self.fresh_dependencies.clear();
                    self.fresh_children.clear();
                    Some(epoch)
                } else {
                    None
                }
            },
            _ => None,
        }
    }

    /// Records that the task has read `dependency`.
    pub fn record_dependency(&mut self, dependency: Dependency)
        requires
            old(self).wf(),
        ensures
            final(self).wf(),
            final(self)@ == old(self)@.with_dependency(dependency),
    {
        self.dependencies.insert(dependency);
        self.fresh_dependencies.insert(dependency);
    }

    /// Forgets `dependency`.
    pub fn forget_dependency(&mut self, dependency: Dependency)
        requires
            old(self).wf(),
        ensures
            final(self).wf(),
            final(self)@ == old(self)@.without_dependency(dependency),
    {
        self.dependencies.remove(dependency);
        self.fresh_dependencies.remove(dependency);
    }

    /// Adds `reader` to the readers of a cell: of the output, or of the slot
    /// at the given index. Nothing changes where the slot does not exist.
    pub fn add_reader(&mut self, slot: Option<usize>, reader: TaskId)
        ensures
            final(self).wf() == old(self).wf(),
            final(self)@ == old(self)@.with_cell_readers(slot, old(self)@.cell_readers(slot).insert(reader)),
    {
        match slot {
            None => {
                self.output.add_reader(reader);
            },
            Some(index) => {
                if index < self.slots.len() {
                    self.slots[index].add_reader(reader);
                    assert(self@.slots =~= old(self)@.slots.update(
                        index as int,
                        SlotView {
                            readers: old(self)@.slots[index as int].readers.insert(reader),
                            ..old(self)@.slots[index as int]
                        },
                    ));
                }
            },
        }
    }

    /// Takes `reader` out of the readers of a cell: of the output, or of the
    /// slot at the given index. Nothing changes where the slot does not exist.
    pub fn remove_reader(&mut self, slot: Option<usize>, reader: TaskId)
        ensures
            final(self).wf() == old(self).wf(),
            final(self)@ == old(self)@.with_cell_readers(slot, old(self)@.cell_readers(slot).remove(reader)),
    {
        match slot {
            None => {
                self.output.remove_reader(reader);
            },
            Some(index) => {
                if index < self.slots.len() {
                    self.slots[index].remove_reader(reader);
                    assert(self@.slots =~= old(self)@.slots.update(
                        index as int,
                        SlotView {
                            readers: old(self)@.slots[index as int].readers.remove(reader),
                            ..old(self)@.slots[index as int]
                        },
                    ));
                }
            },
        }
    }

    /// Reads the output. A done task answers with its outcome. Any other task
    /// answers `None` and remembers that someone waits for its output.
    pub fn get_or_wait_output(&mut self) -> (outcome: Option<Outcome>)
        ensures
            final(self).wf() == old(self).wf(),
            old(self)@.output_ready() ==> outcome == old(self)@.output.content && final(self)@ == old(self)@,
            !old(self)@.output_ready() ==> outcome is None && final(self)@ == old(self)@.awaited(),
    {
        let done = match self.state {
            TaskState::Done => true,
            _ => false,
        };
        if done && self.output.content().is_some() {
            self.output.content()
        } else {
            self.output.wait();
            None
        }
    }

    /// Ends the run of `epoch` with `outcome`. A run that still counts stores
    /// its outcome and leaves the task done; the result says which readers to
    /// invalidate and whether to wake those who wait. A run that was
    /// invalidated leaves the task dirty, and nothing is stored. For any other
    /// run nothing changes.
    pub fn execution_result(&mut self, epoch: u64, outcome: Outcome) -> (written: Written)
        ensures
            final(self).wf() == old(self).wf(),
            final(self)@ == old(self)@.completed(epoch, outcome),
            written.readers@.no_duplicates(),
            written.readers@.to_set() == old(self)@.completion_drops(epoch, outcome),
            written.wake == (old(self)@.completes(epoch) && old(self)@.output.waiters),
    {
        match self.state {
            TaskState::InProgress { run_epoch } => {
                if run_epoch == epoch {
                    self.state = TaskState::Done;
                    return self.output.write(outcome, epoch);
                }
            },
            TaskState::InProgressDirty { run_epoch } => {
                if run_epoch == epoch {
                    self.state = TaskState::Dirty;
                }
            },
            _ => {},
        }
        let readers: Vec<TaskId> = Vec::new();
        assert(readers@.to_set() =~= Set::<TaskId>::empty());
        Written { readers, wake: false }
    }

    /// Reads the slot at `index` without recording a reader. An empty slot
    /// answers `None` and remembers that someone waits.
    pub fn get_or_wait_slot(&mut self, index: usize) -> (content: Option<Value>)
        requires
            index < old(self)@.slots.len(),
        ensures
            final(self).wf() == old(self).wf(),
            content == old(self)@.slots[index as int].content,
            content is Some ==> final(self)@ == old(self)@,
            content is None ==> final(self)@ == old(self)@.slot_awaited(index),
    {
        let content = self.slots[index].read_content_untracked();
        proof {
            if content is Some {
                assert(self@.slots =~= old(self)@.slots);
            } else {
                assert(self@.slots =~= old(self)@.slot_awaited(index).slots);
            }
        }
        content
    }

    /// Assigns `content` to the slot at `index` for `writer`: see
    /// [`Slot::assign`].
    pub fn assign_slot(&mut self, index: usize, content: Value, writer: TaskId) -> (written: Written)
        requires
            index < old(self)@.slots.len(),
        ensures
            final(self).wf() == old(self).wf(),
            final(self)@ == old(self)@.slot_assigned(index, content, writer),
            written.wake == old(self)@.slots[index as int].waiters,
            written.readers@.no_duplicates(),
            written.readers@.to_set() == old(self)@.assignment_drops(index, content),
            old(self)@.slots[index as int].content == Some(content) ==> written.readers@.len() == 0,
    {
        let written = self.slots[index].assign(content, writer);
        assert(self@.slots =~= old(self)@.slot_assigned(index, content, writer).slots);
        written
    }

    /// Adds `child` to the children, as called in the latest run. The result
    /// says whether it is a new child.
    pub fn add_child(&mut self, child: TaskId) -> (added: bool)
        ensures
            final(self).wf() == old(self).wf(),
            final(self)@ == old(self)@.with_child(child),
            added == !old(self)@.children.contains(child),
    {
        self.fresh_children.insert(child);
        self.children.insert(child)
    }

    /// Takes `child` out of the children. The result says whether it was one.
    pub fn remove_child(&mut self, child: TaskId) -> (removed: bool)
        ensures
            final(self).wf() == old(self).wf(),
            final(self)@ == old(self)@.without_child(child),
            removed == old(self)@.children.contains(child),
    {
        self.fresh_children.remove(&child);
        self.children.remove(&child)
    }

    /// Adds `parent` to the parents, and to the active parents where `active`
    /// says so.
    pub fn add_parent(&mut self, parent: TaskId, active: bool)
        ensures
            final(self).wf() == old(self).wf(),
            final(self)@ == old(self)@.with_parent(parent, active),
    {
        self.parents.insert(parent);
        if active {
            self.active_parents.insert(parent);
        }
    }

    /// Takes `parent` out of the parents and of the active parents.
    pub fn remove_parent(&mut self, parent: TaskId)
        ensures
            final(self).wf() == old(self).wf(),
            final(self)@ == old(self)@.without_parent(parent),
    {
        self.parents.remove(&parent);
        self.active_parents.remove(&parent);
    }

    /// Adds `parent` to the active parents.
    pub fn credit(&mut self, parent: TaskId)
        ensures
            final(self).wf() == old(self).wf(),
            final(self)@ == (TaskView { active_parents: old(self)@.active_parents.insert(parent), ..old(self)@ }),
    {
        self.active_parents.insert(parent);
    }

    /// Takes `parent` out of the active parents.
    pub fn uncredit(&mut self, parent: TaskId)
        ensures
            final(self).wf() == old(self).wf(),
            final(self)@ == (TaskView { active_parents: old(self)@.active_parents.remove(parent), ..old(self)@ }),
    {
        self.active_parents.remove(&parent);
    }

    /// Turns the task active or inactive.
    pub fn set_active(&mut self, active: bool)
        ensures
            final(self).wf() == old(self).wf(),
            final(self)@ == (TaskView { active, ..old(self)@ }),
    {
        self.active = active;
    }

    /// Drops the anchor.
    pub fn release_anchor(&mut self)
        ensures
            final(self).wf() == old(self).wf(),
            final(self)@ == (TaskView { anchored: false, ..old(self)@ }),
    {
        self.anchored = false;
    }

    /// Whether the task is active with an active count of zero.
    pub fn is_idle(&self) -> (idle: bool)
        ensures
            idle == self@.idle(),
    {
        self.active && !self.has_active_count()
    }

    /// The children that the latest run did not call again, each once, in no
    /// particular order.
    pub fn stale_children(&self) -> (stale: Vec<TaskId>)
        ensures
            stale@.to_set() == self@.stale_children(),
            stale@.no_duplicates(),
    {
        let all = ids_to_vec(&self.children);
        let mut stale: Vec<TaskId> = Vec::new();
        let mut i: usize = 0;
        while i < all.len()
            invariant
                i <= all@.len(),
                all@.no_duplicates(),
                all@.to_set() == self.children@,
                stale@.no_duplicates(),
                forall|id: TaskId|
                    stale@.contains(id) <==> (all@.take(i as int).contains(id) && !self.fresh_children@.contains(id)),
            decreases all@.len() - i,
        {
            let id = all[i];
            let ghost before = stale@;
            if !self.fresh_children.contains(&id) {
                stale.push(id);
            }
            proof {
                let shorter = all@.take(i as int);
                let longer = all@.take(i + 1);
                assert(longer =~= shorter.push(id));
                assert forall|other: TaskId|
                    stale@.contains(other) <==> (longer.contains(other) && !self.fresh_children@.contains(other)) by {
                    if stale@.contains(other) {
                        let k = choose|k: int| 0 <= k < stale@.len() && stale@[k] == other;
                        if k < before.len() {
                            assert(before[k] == other);
                            assert(before.contains(other));
                            let j = choose|j: int| 0 <= j < shorter.len() && shorter[j] == other;
                            assert(longer[j] == other);
                        } else {
                            assert(longer[i as int] == other);
                        }
                    }
                    if longer.contains(other) && !self.fresh_children@.contains(other) {
                        let j = choose|j: int| 0 <= j < longer.len() && longer[j] == other;
                        if j < i {
                            assert(shorter[j] == other);
                            assert(before.contains(other));
                            let k = choose|k: int| 0 <= k < before.len() && before[k] == other;
                            assert(stale@[k] == other);
                        } else {
                            assert(stale@[before.len() as int] == other);
                        }
                    }
                }
                if stale@.len() > before.len() {
                    if before.contains(id) {
                        let j = choose|j: int| 0 <= j < shorter.len() && shorter[j] == id;
                        assert(all@[j] == id);
                    }
                }
            }
            i += 1;
        }
        proof {
            assert(all@.take(all@.len() as int) =~= all@);
            assert(stale@.to_set() =~= self@.stale_children());
        }
        stale
    }

    /// The dependencies that the latest run did not record again, each once,
    /// in the order in which they were first recorded.
    pub fn stale_dependencies(&self) -> (stale: Vec<Dependency>)
        requires
            self.wf(),
        ensures
            stale@.to_set() == self@.stale_dependencies(),
            stale@.no_duplicates(),
    {
        let mut stale: Vec<Dependency> = Vec::new();
        let mut i: usize = 0;
        proof {
            self.dependencies.lemma_order();
        }
        let ghost all = self.dependencies.order();
        while i < self.dependencies.len()
            invariant
                i <= all.len(),
                all == self.dependencies.order(),
                all.no_duplicates(),
                all.to_set() == self.dependencies@,
                stale@.no_duplicates(),
                forall|d: Dependency|
                    stale@.contains(d) <==> (all.take(i as int).contains(d) && !self.fresh_dependencies@.contains(d)),
            decreases all.len() - i,
        {
            let dependency = self.dependencies.get(i);
            let ghost before = stale@;
            if !self.fresh_dependencies.contains(dependency) {
                stale.push(dependency);
            }
            proof {
                let shorter = all.take(i as int);
                let longer = all.take(i + 1);
                assert(longer =~= shorter.push(dependency));
                assert forall|other: Dependency|
                    stale@.contains(other) <==> (longer.contains(other) && !self.fresh_dependencies@.contains(
                        other,
                    )) by {
                    if stale@.contains(other) {
                        let k = choose|k: int| 0 <= k < stale@.len() && stale@[k] == other;
                        if k < before.len() {
                            assert(before[k] == other);
                            assert(before.contains(other));
                            let j = choose|j: int| 0 <= j < shorter.len() && shorter[j] == other;
                            assert(longer[j] == other);
                        } else {
                            assert(longer[i as int] == other);
                        }
                    }
                    if longer.contains(other) && !self.fresh_dependencies@.contains(other) {
                        let j = choose|j: int| 0 <= j < longer.len() && longer[j] == other;
                        if j < i {
                            assert(shorter[j] == other);
                            assert(before.contains(other));
                            let k = choose|k: int| 0 <= k < before.len() && before[k] == other;
                            assert(stale@[k] == other);
                        } else {
                            assert(stale@[before.len() as int] == other);
                        }
                    }
                }
                if stale@.len() > before.len() {
                    if before.contains(dependency) {
                        let j = choose|j: int| 0 <= j < shorter.len() && shorter[j] == dependency;
                        assert(all[j] == dependency);
                    }
                }
            }
            i += 1;
        }
        proof {
            assert(all.take(all.len() as int) =~= all);
            assert(stale@.to_set() =~= self@.stale_dependencies());
        }
        stale
    }

    /// Abandons the slot at `index`: see [`Slot::abandon`].
    pub fn abandon_slot(&mut self, index: usize) -> (readers: Vec<TaskId>)
        requires
            index < old(self)@.slots.len(),
        ensures
            final(self).wf() == old(self).wf(),
            final(self)@ == old(self)@.slot_abandoned(index),
            readers@.no_duplicates(),
            readers@.to_set() == old(self)@.slots[index as int].readers,
    {
        let readers = self.slots[index].abandon();
        assert(self@.slots =~= old(self)@.slot_abandoned(index).slots);
        readers
    }

    /// Replaces the slot mappings.
    pub fn set_slot_mappings(&mut self, table: SlotMappings)
        ensures
            final(self).wf() == old(self).wf(),
            final(self)@ == (TaskView { slot_mappings: table@, ..old(self)@ }),
    {
        self.slot_mappings = table;
    }

    /// Whether the task may be removed.
    pub fn is_removable(&self) -> (removable: bool)
        ensures
            removable == self@.removable(),
    {
        !self.active && !self.has_active_count()
    }

    /// The fingerprint under which the task is memoized; `None` for a
    /// transient task.
    pub fn fingerprint(&self) -> (key: Option<Vec<u64>>)
        ensures
            key is Some == self@.fingerprint() is Some,
            key matches Some(k) ==> Some(k@) == self@.fingerprint(),
    {
        match &self.ty {
            TaskType::Persistent(ty) => Some(ty.fingerprint()),
            TaskType::Transient(_) => None,
        }
    }

    /// The handles that someone waits on for the task, stored under `me`:
    /// one for the output and one for each slot, as far as someone waits.
    pub fn waited_handles(&self, me: TaskId) -> (handles: Vec<WaitHandle>)
        ensures
            forall|handle: WaitHandle|
                handles@.contains(handle) <==> handle.task == me && self@.awaits(handle.slot),
    {
        let mut handles: Vec<WaitHandle> = Vec::new();
        if self.output.has_waiters() {
            handles.push(WaitHandle { task: me, slot: None });
        }
        let mut i: usize = 0;
        assert forall|handle: WaitHandle|
            handles@.contains(handle) <==> handle.task == me && (handle.slot matches Some(index) ==> index < 0)
                && self@.awaits(handle.slot) by {
            if self.output@.waiters {
                assert(handles@[0] == (WaitHandle { task: me, slot: None }));
            }
        }
        while i < self.slots.len()
            invariant
                i <= self.slots@.len(),
                forall|handle: WaitHandle|
                    handles@.contains(handle) <==> handle.task == me && (handle.slot matches Some(index) ==> index < i)
                        && self@.awaits(handle.slot),
            decreases self.slots@.len() - i,
        {
            let ghost before = handles@;
            if self.slots[i].has_waiters() {
                handles.push(WaitHandle { task: me, slot: Some(i) });
            }
            proof {
                assert(self@.slots[i as int] == self.slots@[i as int]@);
                assert forall|handle: WaitHandle|
                    handles@.contains(handle) <==> handle.task == me && (handle.slot matches Some(index) ==> index < i
                        + 1) && self@.awaits(handle.slot) by {
                    if handles@.contains(handle) {
                        let k = choose|k: int| 0 <= k < handles@.len() && handles@[k] == handle;
                        if k < before.len() {
                            assert(before[k] == handle);
                            assert(before.contains(handle));
                        }
                    }
                    if handle.task == me && (handle.slot matches Some(index) ==> index < i + 1) && self@.awaits(
                        handle.slot,
                    ) {
                        if handle.slot == Some(i) {
                            assert(handles@[before.len() as int] == handle);
                        } else {
                            assert(before.contains(handle));
                            let k = choose|k: int| 0 <= k < before.len() && before[k] == handle;
                            assert(handles@[k] == handle);
                        }
                    }
                }
            }
            i += 1;
        }
        handles
    }

    /// A copy of the slot mappings, for the run that starts.
    pub fn take_slot_mappings(&self) -> (table: SlotMappings)
        ensures
            table@ == self@.slot_mappings,
    {
        self.slot_mappings.duplicate()
    }

    /// Adds an empty slot and returns its index, the next unused one.
    pub fn get_fresh_slot(&mut self) -> (index: usize)
        ensures
            index == old(self)@.slots.len(),
            final(self)@ == (TaskView { slots: old(self)@.slots.push(Slot::empty()), ..old(self)@ }),
            final(self).wf() == old(self).wf(),
    {
        let index = self.slots.len();
        self.slots.push(Slot::new());
        assert(self@.slots =~= old(self)@.slots.push(Slot::empty()));
        index
    }
}

} // verus!
