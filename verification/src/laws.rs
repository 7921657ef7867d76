//! What follows from the order that the backend keeps.

use crate::activation::connected;
use crate::backend::{scrubbed, slots_fit, BackendView};
use crate::invariants::{graph_inv, lemma_count_positive, lemma_purged_graph, listeners_inv, run_inv};
use crate::slot_mappings::SlotMapping;
use crate::task::TaskView;
use crate::task_type::PersistentTaskTypeView;
use crate::value::{Dependency, Outcome, TaskId, Value, WaitHandle};
use vstd::prelude::*;

verus! {

/// Every dependency that a reader holds is matched on the side of the
/// writer: the writer is stored, and the cell that the dependency names has
/// the reader among its readers.
pub proof fn law_dependency_has_reader(tasks: Map<TaskId, TaskView>, reader: TaskId, dependency: Dependency)
    requires
        graph_inv(tasks),
        tasks.contains_key(reader),
        tasks[reader].dependencies.contains(dependency),
    ensures
        tasks.contains_key(dependency.writer()),
        tasks[dependency.writer()].cell_readers(dependency.slot()).contains(reader),
{
}

/// Every reader of a cell is matched on the side of the reader: the reader
/// is stored and holds the dependency on the cell.
pub proof fn law_reader_has_dependency(tasks: Map<TaskId, TaskView>, writer: TaskId, slot: Option<usize>, reader: TaskId)
    requires
        graph_inv(tasks),
        tasks.contains_key(writer),
        tasks[writer].cell_readers(slot).contains(reader),
    ensures
        tasks.contains_key(reader),
        tasks[reader].dependencies.contains(Dependency::on(writer, slot)),
{
}

/// A task is removed only at an active count of zero, and once it is
/// removed no trace of it is left: it is not stored, no cell has it as a
/// reader, nobody depends on it, and it is nobody's child or parent.
pub proof fn law_removal_safety(before: BackendView, id: TaskId)
    requires
        graph_inv(before.tasks),
        slots_fit(before.tasks),
        before.removes(id),
    ensures
        before.tasks[id].active_count() == 0,
        !before.tasks[id].active,
        graph_inv(before.removed(id).tasks),
        !before.removed(id).tasks.contains_key(id),
        forall|other: TaskId, slot: Option<usize>|
            before.removed(id).tasks.contains_key(other) ==> !(#[trigger] before.removed(id).tasks[other].cell_readers(
                slot,
            )).contains(id),
        forall|other: TaskId, dependency: Dependency|
            before.removed(id).tasks.contains_key(other) && #[trigger] before.removed(
                id,
            ).tasks[other].dependencies.contains(dependency) ==> dependency.writer() != id,
        forall|other: TaskId|
            #[trigger] before.removed(id).tasks.contains_key(other) ==> !before.removed(id).tasks[other].children.contains(
                id,
            ) && !before.removed(id).tasks[other].parents.contains(id),
{
    lemma_purged_graph(before.tasks, id);
    let after = before.removed(id).tasks;
    assert forall|other: TaskId| #[trigger] after.contains_key(other) implies !after[other].children.contains(id)
        && !after[other].parents.contains(id) by {
        if after[other].children.contains(id) {
            assert(after.contains_key(id));
        }
        if after[other].parents.contains(id) {
            assert(after.contains_key(id));
        }
    }
}

/// Whether `path` leads from an anchored task along children.
pub open spec fn anchored_path(tasks: Map<TaskId, TaskView>, path: Seq<TaskId>) -> bool {
    &&& path.len() > 0
    &&& tasks.contains_key(path[0])
    &&& tasks[path[0]].anchored
    &&& forall|i: int|
        0 <= i < path.len() - 1 ==> tasks.contains_key(#[trigger] path[i]) && tasks[path[i]].children.contains(
            path[i + 1],
        )
}

/// Whether a path leads from an anchored task to `id` along children.
pub open spec fn reachable(tasks: Map<TaskId, TaskView>, id: TaskId) -> bool {
    exists|path: Seq<TaskId>| #[trigger] anchored_path(tasks, path) && path.last() == id
}

/// Whether no deactivation is outstanding: every active task has a positive
/// active count.
pub open spec fn quiescent(tasks: Map<TaskId, TaskView>) -> bool {
    forall|id: TaskId| #[trigger] tasks.contains_key(id) && tasks[id].active ==> tasks[id].active_count() > 0
}

/// Whether `rank` grows from every task to each of its children: the
/// children graph has no cycle.
pub open spec fn ranked(tasks: Map<TaskId, TaskView>, rank: spec_fn(TaskId) -> nat) -> bool {
    forall|parent: TaskId, child: TaskId|
        tasks.contains_key(parent) && #[trigger] tasks[parent].children.contains(child) ==> rank(parent) < rank(child)
}

proof fn lemma_path_counts(tasks: Map<TaskId, TaskView>, path: Seq<TaskId>, i: int)
    requires
        graph_inv(tasks),
        anchored_path(tasks, path),
        0 <= i < path.len(),
    ensures
        tasks.contains_key(path[i]),
        tasks[path[i]].active_count() > 0,
    decreases i,
{
    if i > 0 {
        lemma_path_counts(tasks, path, i - 1);
        let parent = path[i - 1];
        let child = path[i];
        assert(tasks[parent].children.contains(child));
        assert(tasks[child].parents.contains(parent));
        assert(tasks[child].active_parents.contains(parent));
        lemma_count_positive(tasks[child]);
    }
}

proof fn lemma_count_reaches(tasks: Map<TaskId, TaskView>, rank: spec_fn(TaskId) -> nat, id: TaskId)
    requires
        graph_inv(tasks),
        quiescent(tasks),
        ranked(tasks, rank),
        tasks.contains_key(id),
        tasks[id].active_count() > 0,
    ensures
        reachable(tasks, id),
    decreases rank(id),
{
    lemma_count_positive(tasks[id]);
    if tasks[id].anchored {
        let path = seq![id];
        assert(anchored_path(tasks, path));
        assert(path.last() == id);
    } else {
        let parent = choose|parent: TaskId| tasks[id].active_parents.contains(parent);
        assert(tasks[id].parents.contains(parent));
        assert(tasks[parent].children.contains(id));
        lemma_count_reaches(tasks, rank, parent);
        let path = choose|path: Seq<TaskId>| #[trigger] anchored_path(tasks, path) && path.last() == parent;
        let longer = path.push(id);
        assert forall|i: int| 0 <= i < longer.len() - 1 implies tasks.contains_key(#[trigger] longer[i])
            && tasks[longer[i]].children.contains(longer[i + 1]) by {
            assert(longer[i] == path[i]);
            if i < path.len() - 1 {
                assert(longer[i + 1] == path[i + 1]);
            }
        }
        assert(longer[0] == path[0]);
        assert(anchored_path(tasks, longer));
        assert(longer.last() == id);
    }
}

/// Where no deactivation is outstanding and the children graph has no
/// cycle, the active count of a task is positive exactly when a path leads
/// to the task from an anchored task along children.
pub proof fn law_active_count_sound(tasks: Map<TaskId, TaskView>, rank: spec_fn(TaskId) -> nat, id: TaskId)
    requires
        graph_inv(tasks),
        quiescent(tasks),
        ranked(tasks, rank),
        tasks.contains_key(id),
    ensures
        tasks[id].active_count() > 0 <==> reachable(tasks, id),
{
    if tasks[id].active_count() > 0 {
        lemma_count_reaches(tasks, rank, id);
    }
    if reachable(tasks, id) {
        let path = choose|path: Seq<TaskId>| #[trigger] anchored_path(tasks, path) && path.last() == id;
        lemma_path_counts(tasks, path, path.len() - 1);
    }
}

/// A path from an anchored task along children makes the active count
/// positive, whether or not the children graph has a cycle and whether or
/// not a deactivation is outstanding.
pub proof fn law_reachable_is_counted(tasks: Map<TaskId, TaskView>, id: TaskId)
    requires
        graph_inv(tasks),
        reachable(tasks, id),
    ensures
        tasks.contains_key(id),
        tasks[id].active_count() > 0,
        tasks[id].active,
{
    let path = choose|path: Seq<TaskId>| #[trigger] anchored_path(tasks, path) && path.last() == id;
    lemma_path_counts(tasks, path, path.len() - 1);
}

/// The output that a read is answered with was stored or confirmed by the
/// latest run of the task, which is done: no run with a higher epoch has
/// started.
pub proof fn law_read_observes_latest_run(tasks: Map<TaskId, TaskView>, task: TaskId)
    requires
        graph_inv(tasks),
        tasks.contains_key(task),
        tasks[task].output_ready(),
    ensures
        tasks[task].state is Done,
        tasks[task].output.content is Some,
        tasks[task].output.epoch == tasks[task].executions,
{
}

/// Epochs grow: a run that starts has a higher epoch than any run before
/// it, and the outcome that the end of the run stores carries that epoch.
pub proof fn law_epochs_grow(task: TaskView, outcome: Outcome)
    requires
        run_inv(task),
        task.can_start(),
    ensures
        task.started().executions == task.executions + 1,
        task.output.content is Some ==> task.output.epoch < task.started().executions,
        task.started().completes(task.started().executions),
        task.started().completed(task.started().executions, outcome).output.epoch == task.started().executions,
        task.started().completed(task.started().executions, outcome).state is Done,
{
}

/// Nobody is left waiting for a done task or for a slot that has content.
pub proof fn law_done_has_no_waiters(tasks: Map<TaskId, TaskView>, id: TaskId)
    requires
        graph_inv(tasks),
        tasks.contains_key(id),
    ensures
        tasks[id].state is Done ==> tasks[id].output.content is Some && !tasks[id].output.waiters,
        forall|i: int|
            0 <= i < tasks[id].slots.len() && (#[trigger] tasks[id].slots[i]).content is Some
                ==> !tasks[id].slots[i].waiters,
{
}

/// No listener is left behind: nobody listens to the output of a done task
/// or to a slot that has content. Whoever was suspended on such a cell was
/// woken before the cell got there.
pub proof fn law_no_listener_left_behind(tasks: Map<TaskId, TaskView>, listeners: Set<WaitHandle>, handle: WaitHandle)
    requires
        graph_inv(tasks),
        listeners_inv(tasks, listeners),
        tasks.contains_key(handle.task),
        match handle.slot {
            None => tasks[handle.task].state is Done,
            Some(index) => index < tasks[handle.task].slots.len() && tasks[handle.task].slots[index as int].content
                is Some,
        },
    ensures
        !listeners.contains(handle),
{
}

/// The end of a run that still counts wakes those who wait for the output,
/// once: a wake is reported exactly when someone waits, and afterwards
/// nobody waits for the output and nobody listens to it.
pub proof fn law_completion_wakes(
    before: BackendView,
    task: TaskId,
    epoch: u64,
    next: Option<Seq<SlotMapping>>,
    outcome: Outcome,
)
    requires
        listeners_inv(before.tasks, before.listeners),
        before.tasks.contains_key(task),
        before.tasks[task].completes(epoch),
        !before.completion_blocked(task, epoch),
    ensures
        before.completion_wakes(task, epoch) == if before.tasks[task].output.waiters {
            seq![WaitHandle { task, slot: None }]
        } else {
            Seq::<WaitHandle>::empty()
        },
        !before.tasks[task].completed(epoch, outcome).output.waiters,
        before.tasks[task].completed(epoch, outcome).state is Done,
        !before.after_completion(task, epoch, next, outcome).listeners.contains(WaitHandle { task, slot: None }),
{
    let handle = WaitHandle { task, slot: None };
    if before.listeners.contains(handle) {
        assert(before.tasks[task].awaits(handle.slot));
    }
}

/// Writing a value that equals the one held invalidates nobody: a slot
/// keeps its readers, no reader loses a dependency, and nothing changes but
/// that nobody is left waiting.
pub proof fn law_equal_slot_write(before: BackendView, task: TaskId, index: usize, content: Value)
    requires
        before.slot_error(task, index) is None,
        before.tasks[task].slots[index as int].content == Some(content),
    ensures
        before.tasks[task].assignment_drops(index, content) == Set::<TaskId>::empty(),
        before.after_slot_write(task, index, content).tasks == before.tasks.insert(
            task,
            before.tasks[task].slot_assigned(index, content, task),
        ),
        before.tasks[task].slot_assigned(index, content, task).slots[index as int].readers
            == before.tasks[task].slots[index as int].readers,
        before.tasks[task].slot_assigned(index, content, task).slots[index as int].content == Some(content),
{
    let written = before.tasks.insert(task, before.tasks[task].slot_assigned(index, content, task));
    assert(scrubbed(written, Set::empty(), Dependency::OnSlot(task, index)) =~= written);
}

/// The end of a run with an outcome that equals the one held invalidates
/// nobody: the output keeps its readers, and none of them is to be notified.
pub proof fn law_equal_output_write(task: TaskView, epoch: u64, outcome: Outcome)
    requires
        task.completes(epoch),
        task.output.content == Some(outcome),
    ensures
        task.completion_drops(epoch, outcome) == Set::<TaskId>::empty(),
        task.completed(epoch, outcome).output.readers == task.output.readers,
        task.completed(epoch, outcome).output.content == Some(outcome),
{
}

/// One fingerprint, one task: a second request for a persistent task is
/// answered with the id that the first request was answered with, and it
/// creates no task.
pub proof fn law_single_flight(before: BackendView, ty: PersistentTaskTypeView, first: TaskId, second: TaskId)
    requires
        before.cache_consistent(),
        before.tasks.contains_key(first),
        before.tasks.contains_key(second),
        before.persistent_task_id(ty) is Some,
    ensures
        before.after_persistent_task(ty, first).persistent_task_id(ty) == before.persistent_task_id(ty),
        before.after_persistent_task(ty, first).after_persistent_task(ty, second).tasks.dom()
            == before.after_persistent_task(ty, first).tasks.dom(),
        before.after_persistent_task(ty, first).after_persistent_task(ty, second).cache
            == before.after_persistent_task(ty, first).cache,
        before.after_persistent_task(ty, first).after_persistent_task(ty, second).task_ids
            == before.after_persistent_task(ty, first).task_ids,
{
    let once = before.after_persistent_task(ty, first);
    let twice = once.after_persistent_task(ty, second);
    let key = ty.fingerprint();
    assert(once.cache.contains_key(key));
    let id = once.cache[key];
    assert(once.tasks.contains_key(id));
    assert(once.tasks.contains_key(second));
    assert(twice.tasks == connected(once.tasks, second, id));
    assert(twice.tasks.dom() =~= once.tasks.dom());
}

} // verus!
