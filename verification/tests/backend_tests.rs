use turbo_tasks_memory::backend::MemoryBackend;
use turbo_tasks_memory::background_job::BackgroundJob;
use turbo_tasks_memory::slot_mappings::SlotMappings;
use turbo_tasks_memory::task::TaskState;
use turbo_tasks_memory::task_type::{PersistentTaskType, TransientTaskType};
use turbo_tasks_memory::value::{Dependency, InternalError, Outcome, Read, Value, WaitHandle};

fn success(payload: u64) -> Outcome {
    Outcome::Success(Value { tag: 0, payload })
}

fn native(function: usize) -> PersistentTaskType {
    PersistentTaskType::Native(function, vec![])
}

/// Runs the task once and ends the run with `payload`.
fn run(backend: &mut MemoryBackend, task: usize, payload: u64) {
    backend.schedule_task(task).unwrap();
    let spec = backend.try_start_task_execution(task).unwrap().unwrap();
    backend.task_execution_completed(task, spec.epoch, None, success(payload)).unwrap();
}

/// Whether dependencies and readers agree for the tasks of `ids`.
fn edges_agree(backend: &MemoryBackend, ids: &[usize]) -> bool {
    for reader in ids {
        let Some(task) = backend.get_task(*reader) else { continue };
        let dependencies = task.dependencies();
        for i in 0..dependencies.len() {
            let dependency = dependencies.get(i);
            let Some(writer) = backend.get_task(dependency.task()) else { return false };
            let registered = match dependency.cell() {
                None => writer.output().readers().contains(reader),
                Some(index) => index < writer.slot_count() && writer.slot(index).readers().contains(reader),
            };
            if !registered {
                return false;
            }
        }
    }
    for writer in ids {
        let Some(task) = backend.get_task(*writer) else { continue };
        for reader in task.output().readers() {
            let Some(record) = backend.get_task(*reader) else { return false };
            if !record.dependencies().contains(Dependency::OnOutput(*writer)) {
                return false;
            }
        }
        for index in 0..task.slot_count() {
            for reader in task.slot(index).readers() {
                let Some(record) = backend.get_task(*reader) else { return false };
                if !record.dependencies().contains(Dependency::OnSlot(*writer, index)) {
                    return false;
                }
            }
        }
    }
    true
}

#[test]
fn new_backend_is_empty() {
    let backend = MemoryBackend::new();
    assert!(!backend.contains_task(0));
    assert!(backend.get_task(0).is_none());
    assert!(!backend.contains_job(0));
    assert!(backend.with_all_cached_tasks().is_empty());
    assert!(backend.has_job_id());
}

#[test]
fn unknown_ids_are_errors() {
    let mut backend = MemoryBackend::new();
    assert_eq!(backend.invalidate_task(3).err(), Some(InternalError::UnknownTask(3)));
    assert_eq!(backend.schedule_task(3), Err(InternalError::UnknownTask(3)));
    assert_eq!(backend.try_start_task_execution(3).err(), Some(InternalError::UnknownTask(3)));
    assert_eq!(backend.get_fresh_slot(3), Err(InternalError::UnknownTask(3)));
    assert_eq!(
        backend.task_execution_completed(3, 1, None, success(1)).err(),
        Some(InternalError::UnknownTask(3))
    );
    assert_eq!(backend.try_read_task_output(3, 3).err(), Some(InternalError::UnknownTask(3)));
    assert_eq!(backend.try_read_task_output_untracked(3).err(), Some(InternalError::UnknownTask(3)));
    assert_eq!(backend.read_task_slot(3, 0, 3).err(), Some(InternalError::UnknownTask(3)));
    assert_eq!(backend.read_task_slot_untracked(3, 0).err(), Some(InternalError::UnknownTask(3)));
    assert_eq!(
        backend.update_task_slot(3, 0, Value { tag: 0, payload: 0 }).err(),
        Some(InternalError::UnknownTask(3))
    );
    assert_eq!(backend.get_or_create_persistent_task(native(1), 3).err(), Some(InternalError::UnknownTask(3)));
    assert_eq!(backend.release_transient_task(3).err(), Some(InternalError::UnknownTask(3)));
    // an unknown job is no error: nothing happens
    let effects = backend.run_background_job(3).unwrap();
    assert!(effects.schedule.is_empty() && effects.background_jobs.is_empty());
    assert!(backend.remove_task(3).is_none());
    // notifications of unknown tasks are passed over
    let effects = backend.notify_slot_change(vec![3, 4]);
    assert!(effects.notify.is_empty() && effects.schedule.is_empty());

    let (root, _) = backend.create_transient_task(TransientTaskType::Root).unwrap();
    assert_eq!(backend.try_read_task_output(root, 9).err(), Some(InternalError::UnknownTask(9)));
    assert_eq!(backend.read_task_slot(root, 0, root).err(), Some(InternalError::UnknownSlot(root, 0)));
    assert_eq!(backend.read_task_slot_untracked(root, 2).err(), Some(InternalError::UnknownSlot(root, 2)));
    assert_eq!(
        backend.update_task_slot(root, 0, Value { tag: 0, payload: 0 }).err(),
        Some(InternalError::UnknownSlot(root, 0))
    );
    assert_eq!(backend.get_fresh_slot(root), Ok(0));
    assert_eq!(backend.read_task_slot(root, 0, 9).err(), Some(InternalError::UnknownTask(9)));
}

#[test]
fn transient_tasks_start_scheduled_and_anchored() {
    let mut backend = MemoryBackend::new();
    let (root, effects) = backend.create_transient_task(TransientTaskType::Root).unwrap();
    assert_eq!(root, 0);
    assert_eq!(effects.schedule, vec![0]);
    let (once, effects) = backend.create_transient_task(TransientTaskType::Once).unwrap();
    assert_eq!(once, 1);
    assert_eq!(effects.schedule, vec![1]);
    let task = backend.get_task(once).unwrap();
    assert_eq!(task.state(), TaskState::Scheduled);
    assert!(task.is_active());
    assert_eq!(task.active_count(), 1);
    // a scheduled task is not scheduled again, and starts once
    assert_eq!(backend.schedule_task(once), Ok(false));
    let spec = backend.try_start_task_execution(once).unwrap().unwrap();
    assert_eq!(spec.epoch, 1);
    assert_eq!(spec.slot_mappings.len(), 0);
    assert!(backend.try_start_task_execution(once).unwrap().is_none());
    assert!(backend.with_all_cached_tasks().is_empty());
    let state = backend.with_task(once, |task| task.state());
    assert_eq!(state, TaskState::InProgress { run_epoch: 1 });
}

#[test]
fn persistent_tasks_are_cached_by_fingerprint() {
    let mut backend = MemoryBackend::new();
    let (root, _) = backend.create_transient_task(TransientTaskType::Root).unwrap();
    let (a, effects) = backend.get_or_create_persistent_task(native(1), root).unwrap();
    assert_eq!(a, 1);
    // the new task is dirty and turns active under the root: a run is asked for
    assert_eq!(effects.schedule, vec![a]);
    let (b, _) = backend
        .get_or_create_persistent_task(PersistentTaskType::ResolveNative(1, vec![]), root)
        .unwrap();
    let (c, _) = backend
        .get_or_create_persistent_task(PersistentTaskType::ResolveTrait(1, "name".to_string(), vec![]), root)
        .unwrap();
    let (d, _) = backend
        .get_or_create_persistent_task(PersistentTaskType::Native(1, vec![Value { tag: 0, payload: 0 }]), root)
        .unwrap();
    assert_eq!((b, c, d), (2, 3, 4));
    let (again, effects) = backend.get_or_create_persistent_task(native(1), root).unwrap();
    assert_eq!(again, a);
    assert!(effects.schedule.is_empty());
    let (again, _) = backend
        .get_or_create_persistent_task(PersistentTaskType::ResolveTrait(1, "name".to_string(), vec![]), root)
        .unwrap();
    assert_eq!(again, c);
    let mut cached = backend.with_all_cached_tasks();
    cached.sort();
    assert_eq!(cached, vec![1, 2, 3, 4]);
    let task = backend.get_task(a).unwrap();
    assert_eq!(task.state(), TaskState::Dirty);
    assert!(task.is_active());
    assert!(task.parents().contains(&root));
    assert!(task.active_parents().contains(&root));
    assert_eq!(task.active_count(), 1);
    assert_eq!(backend.get_task(root).unwrap().children().len(), 4);
}

#[test]
fn settling_a_lost_insertion_drops_the_tentative_task() {
    let mut backend = MemoryBackend::new();
    let (root, _) = backend.create_transient_task(TransientTaskType::Root).unwrap();
    let (winner, _) = backend.get_or_create_persistent_task(native(1), root).unwrap();
    let (tentative, _) = backend.create_transient_task(TransientTaskType::Once).unwrap();
    assert_eq!(backend.settle_insertion(tentative, Ok(tentative)), tentative);
    assert!(backend.contains_task(tentative));
    assert_eq!(backend.settle_insertion(tentative, Err(winner)), winner);
    assert!(!backend.contains_task(tentative));
    // the id of the tentative task is handed out again
    let (next, _) = backend.create_transient_task(TransientTaskType::Once).unwrap();
    assert_eq!(next, tentative);
}

#[test]
fn reads_record_dependencies_on_both_sides() {
    let mut backend = MemoryBackend::new();
    let (root, _) = backend.create_transient_task(TransientTaskType::Root).unwrap();
    let (a, _) = backend.get_or_create_persistent_task(native(1), root).unwrap();
    // a dirty task answers with a handle, and a run of it is asked for
    let (read, effects) = backend.try_read_task_output(a, root).unwrap();
    let Read::Pending(listener) = read else { panic!("a dirty task has nothing to read") };
    assert!(backend.has_listener(WaitHandle { task: a, slot: None }));
    assert!(!backend.has_listener(WaitHandle { task: a, slot: Some(0) }));
    assert!(!backend.has_listener(WaitHandle { task: root, slot: None }));
    assert_eq!(effects.schedule, vec![a]);
    assert!(backend.get_task(a).unwrap().output().has_waiters());
    assert!(backend.get_task(root).unwrap().dependencies().len() == 0);
    backend.schedule_task(a).unwrap();
    // a scheduled task answers with a handle, and no further run is asked for
    let (read, effects) = backend.try_read_task_output_untracked(a).unwrap();
    assert!(matches!(read, Read::Pending(_)));
    assert!(effects.schedule.is_empty());
    let spec = backend.try_start_task_execution(a).unwrap().unwrap();
    let (_, effects) = backend.task_execution_completed(a, spec.epoch, None, success(5)).unwrap();
    assert_eq!(effects.wake, vec![WaitHandle { task: a, slot: None }]);
    assert!(effects.notify.is_empty());
    // the listener was notified, and nobody listens any more
    assert!(!backend.has_listener(WaitHandle { task: a, slot: None }));
    assert!(listener.discard());
    let (read, effects) = backend.try_read_task_output(a, root).unwrap();
    assert!(matches!(read, Read::Ready(outcome) if outcome == success(5)));
    assert!(effects.schedule.is_empty());
    assert!(backend.get_task(a).unwrap().output().readers().contains(&root));
    assert!(backend.get_task(root).unwrap().dependencies().contains(Dependency::OnOutput(a)));
    assert!(backend.get_task(root).unwrap().fresh_dependencies().contains(Dependency::OnOutput(a)));
    // an untracked read leaves no trace
    let (other, _) = backend.create_transient_task(TransientTaskType::Once).unwrap();
    let (read, _) = backend.try_read_task_output_untracked(a).unwrap();
    assert!(matches!(read, Read::Ready(outcome) if outcome == success(5)));
    assert_eq!(backend.get_task(a).unwrap().output().readers().len(), 1);
    assert!(edges_agree(&backend, &[root, a, other]));
    // the output carries the epoch of the run that stored it
    let task = backend.get_task(a).unwrap();
    assert_eq!(task.output().epoch(), task.executions());
}

#[test]
fn slot_writes_invalidate_readers_only_on_change() {
    let mut backend = MemoryBackend::new();
    let (writer, _) = backend.create_transient_task(TransientTaskType::Root).unwrap();
    let (reader, _) = backend.create_transient_task(TransientTaskType::Root).unwrap();
    assert_eq!(backend.get_fresh_slot(writer), Ok(0));
    assert_eq!(backend.get_fresh_slot(writer), Ok(1));
    let read = backend.read_task_slot(writer, 1, reader).unwrap();
    let Read::Pending(listener) = read else { panic!("the slot is empty") };
    assert!(backend.has_listener(WaitHandle { task: writer, slot: Some(1) }));
    let read = backend.read_task_slot_untracked(writer, 0).unwrap();
    let Read::Pending(idle_listener) = read else { panic!("the slot is empty") };
    assert!(backend.has_listener(WaitHandle { task: writer, slot: Some(0) }));
    assert!(backend.get_task(writer).unwrap().slot(1).readers().is_empty());
    let seven = Value { tag: 2, payload: 7 };
    let effects = backend.update_task_slot(writer, 1, seven).unwrap();
    assert_eq!(effects.wake, vec![WaitHandle { task: writer, slot: Some(1) }]);
    assert!(effects.notify.is_empty());
    // the listener of the slot that was written is notified, the other is not
    assert!(!backend.has_listener(WaitHandle { task: writer, slot: Some(1) }));
    assert!(backend.has_listener(WaitHandle { task: writer, slot: Some(0) }));
    assert!(listener.discard());
    assert!(!idle_listener.discard());
    assert_eq!(backend.get_task(writer).unwrap().slot(1).writer(), Some(writer));
    let read = backend.read_task_slot(writer, 1, reader).unwrap();
    assert!(matches!(read, Read::Ready(found) if found == seven));
    let read = backend.read_task_slot_untracked(writer, 1).unwrap();
    assert!(matches!(read, Read::Ready(found) if found == seven));
    assert!(backend.get_task(reader).unwrap().dependencies().contains(Dependency::OnSlot(writer, 1)));
    assert!(edges_agree(&backend, &[writer, reader]));
    // the same value again: nobody is told, the reader stays
    let effects = backend.update_task_slot(writer, 1, seven).unwrap();
    assert!(effects.notify.is_empty() && effects.wake.is_empty());
    assert!(backend.get_task(writer).unwrap().slot(1).readers().contains(&reader));
    // another value: the reader is told and is no longer a reader
    let effects = backend.update_task_slot(writer, 1, Value { tag: 2, payload: 8 }).unwrap();
    assert_eq!(effects.notify, vec![reader]);
    assert!(backend.get_task(writer).unwrap().slot(1).readers().is_empty());
    assert!(!backend.get_task(reader).unwrap().dependencies().contains(Dependency::OnSlot(writer, 1)));
    assert!(edges_agree(&backend, &[writer, reader]));
    // the change of the tag alone is a change
    let read = backend.read_task_slot(writer, 1, reader).unwrap();
    assert!(matches!(read, Read::Ready(_)));
    let effects = backend.update_task_slot(writer, 1, Value { tag: 3, payload: 8 }).unwrap();
    assert_eq!(effects.notify, vec![reader]);
}

#[test]
fn notifications_invalidate_done_tasks() {
    let mut backend = MemoryBackend::new();
    let (root, _) = backend.create_transient_task(TransientTaskType::Root).unwrap();
    let (a, _) = backend.get_or_create_persistent_task(native(1), root).unwrap();
    let (b, _) = backend.get_or_create_persistent_task(native(2), root).unwrap();
    run(&mut backend, a, 1);
    run(&mut backend, b, 2);
    backend.try_read_task_output(a, root).unwrap();
    backend.try_read_task_output(a, b).unwrap();
    backend.schedule_task(root).unwrap();
    let effects = backend.notify_slot_change(vec![a, b, a, 77]);
    let mut told = effects.notify.clone();
    told.sort();
    assert_eq!(told, vec![root, b]);
    let mut asked = effects.schedule.clone();
    asked.sort();
    assert_eq!(asked, vec![a, b]);
    assert_eq!(backend.get_task(a).unwrap().state(), TaskState::Dirty);
    assert_eq!(backend.get_task(b).unwrap().state(), TaskState::Dirty);
    // the root was scheduled: the notification changes nothing
    let effects = backend.notify_slot_change(vec![root]);
    assert!(effects.notify.is_empty() && effects.schedule.is_empty());
    assert_eq!(backend.get_task(root).unwrap().state(), TaskState::Scheduled);
}

#[test]
fn completion_gives_up_what_the_run_did_not_renew() {
    let mut backend = MemoryBackend::new();
    let (root, _) = backend.create_transient_task(TransientTaskType::Root).unwrap();
    let (t, _) = backend.get_or_create_persistent_task(native(1), root).unwrap();
    // first run: calls x and y and reads both
    backend.schedule_task(t).unwrap();
    let spec = backend.try_start_task_execution(t).unwrap().unwrap();
    let (x, _) = backend.get_or_create_persistent_task(native(2), t).unwrap();
    let (y, _) = backend.get_or_create_persistent_task(native(3), t).unwrap();
    run(&mut backend, x, 10);
    run(&mut backend, y, 20);
    backend.try_read_task_output(x, t).unwrap();
    backend.try_read_task_output(y, t).unwrap();
    let (reschedule, effects) = backend.task_execution_completed(t, spec.epoch, None, success(30)).unwrap();
    assert!(!reschedule);
    assert!(effects.background_jobs.is_empty());
    assert_eq!(backend.get_task(t).unwrap().children().len(), 2);
    assert_eq!(backend.get_task(t).unwrap().dependencies().len(), 2);
    assert!(edges_agree(&backend, &[root, t, x, y]));
    // second run: calls and reads x alone
    backend.invalidate_task(t).unwrap();
    backend.schedule_task(t).unwrap();
    let spec = backend.try_start_task_execution(t).unwrap().unwrap();
    assert_eq!(spec.epoch, 2);
    assert_eq!(backend.get_task(t).unwrap().fresh_children().len(), 0);
    assert_eq!(backend.get_task(t).unwrap().fresh_dependencies().len(), 0);
    backend.get_or_create_persistent_task(native(2), t).unwrap();
    backend.try_read_task_output(x, t).unwrap();
    let (_, effects) = backend.task_execution_completed(t, spec.epoch, None, success(10)).unwrap();
    // y is no longer a child and no longer read; it is left idle
    assert_eq!(effects.background_jobs.len(), 1);
    let record = backend.get_task(t).unwrap();
    assert!(record.children().contains(&x) && !record.children().contains(&y));
    assert!(record.dependencies().contains(Dependency::OnOutput(x)));
    assert!(!record.dependencies().contains(Dependency::OnOutput(y)));
    let left = backend.get_task(y).unwrap();
    assert!(left.output().readers().is_empty());
    assert!(left.parents().is_empty());
    assert_eq!(left.active_count(), 0);
    assert!(left.is_active() && left.is_idle());
    assert!(edges_agree(&backend, &[root, t, x, y]));
    // the jobs deactivate y and then remove it
    let job = effects.background_jobs[0];
    assert!(matches!(backend.get_job(job), Some(BackgroundJob::DeactivateTasks(tasks)) if *tasks == vec![y]));
    let effects = backend.run_background_job(job).unwrap();
    assert!(!backend.contains_job(job) || effects.background_jobs.contains(&job));
    assert!(!backend.get_task(y).unwrap().is_active());
    assert_eq!(effects.background_jobs.len(), 1);
    let removal = effects.background_jobs[0];
    let effects = backend.run_background_job(removal).unwrap();
    assert!(effects.background_jobs.is_empty());
    assert!(!backend.contains_task(y));
    assert!(backend.contains_task(x));
    let mut cached = backend.with_all_cached_tasks();
    cached.sort();
    assert_eq!(cached, vec![t, x]);
    // a new request for the removed task makes a new task, under the id that came back
    let (again, _) = backend.get_or_create_persistent_task(native(3), t).unwrap();
    assert_eq!(again, y);
    assert_eq!(backend.get_task(again).unwrap().state(), TaskState::Dirty);
    assert_eq!(backend.get_task(again).unwrap().output().content(), None);
}

#[test]
fn slots_that_a_run_no_longer_maps_are_abandoned() {
    let mut backend = MemoryBackend::new();
    let (writer, _) = backend.create_transient_task(TransientTaskType::Root).unwrap();
    let (reader, _) = backend.create_transient_task(TransientTaskType::Root).unwrap();
    let spec = backend.try_start_task_execution(writer).unwrap().unwrap();
    let mut used = spec.slot_mappings;
    for token in [100u64, 200] {
        let index = match used.find(token) {
            Some(index) => index,
            None => {
                let index = backend.get_fresh_slot(writer).unwrap();
                used.record(token, index);
                index
            },
        };
        backend.update_task_slot(writer, index, Value { tag: 0, payload: token }).unwrap();
    }
    backend.read_task_slot(writer, 0, reader).unwrap();
    backend.read_task_slot(writer, 1, reader).unwrap();
    let (_, effects) = backend.task_execution_completed(writer, spec.epoch, Some(used), success(0)).unwrap();
    assert!(effects.notify.is_empty());
    assert_eq!(backend.get_task(writer).unwrap().slot_mappings().len(), 2);
    // the second run emits under the second token alone
    backend.invalidate_task(writer).unwrap();
    backend.schedule_task(writer).unwrap();
    let spec = backend.try_start_task_execution(writer).unwrap().unwrap();
    assert_eq!(spec.slot_mappings.find(200), Some(1));
    let mut used = SlotMappings::new();
    used.record(200, spec.slot_mappings.find(200).unwrap());
    let (_, effects) = backend.task_execution_completed(writer, spec.epoch, Some(used), success(0)).unwrap();
    assert_eq!(effects.notify, vec![reader]);
    let record = backend.get_task(writer).unwrap();
    assert_eq!(record.slot(0).content(), None);
    assert!(record.slot(0).readers().is_empty());
    assert_eq!(record.slot(1).content(), Some(Value { tag: 0, payload: 200 }));
    assert!(record.slot(1).readers().contains(&reader));
    assert_eq!(record.slot_mappings().len(), 1);
    let dependencies = backend.get_task(reader).unwrap().dependencies();
    assert!(!dependencies.contains(Dependency::OnSlot(writer, 0)));
    assert!(dependencies.contains(Dependency::OnSlot(writer, 1)));
    assert!(edges_agree(&backend, &[writer, reader]));
}

#[test]
fn activity_spreads_to_all_that_a_task_reaches() {
    let mut backend = MemoryBackend::new();
    let (first, _) = backend.create_transient_task(TransientTaskType::Root).unwrap();
    let (a, _) = backend.get_or_create_persistent_task(native(1), first).unwrap();
    let (b, _) = backend.get_or_create_persistent_task(native(2), a).unwrap();
    let (c, _) = backend.get_or_create_persistent_task(native(3), b).unwrap();
    // a cycle of children: c calls a
    backend.get_or_create_persistent_task(native(1), c).unwrap();
    run(&mut backend, b, 1);
    for id in [a, b, c] {
        assert!(backend.get_task(id).unwrap().is_active());
    }
    assert_eq!(backend.get_task(a).unwrap().active_count(), 2);
    // the root lets go: the tasks are deactivated level by level
    let effects = backend.release_transient_task(first).unwrap();
    let mut jobs = effects.background_jobs;
    assert_eq!(jobs.len(), 1);
    let effects = backend.run_background_job(jobs.remove(0)).unwrap();
    assert!(!backend.get_task(first).unwrap().is_active());
    // a still has c as an active parent: the cycle keeps itself alive
    assert_eq!(backend.get_task(a).unwrap().active_count(), 1);
    assert!(backend.get_task(a).unwrap().is_active());
    // one job is left: the removal of the root
    assert_eq!(effects.background_jobs.len(), 1);
    backend.run_background_job(effects.background_jobs[0]).unwrap();
    assert!(!backend.contains_task(first));
    assert!(backend.contains_task(a));

    // without the cycle the whole chain goes
    let mut backend = MemoryBackend::new();
    let (root, _) = backend.create_transient_task(TransientTaskType::Root).unwrap();
    let (a, _) = backend.get_or_create_persistent_task(native(1), root).unwrap();
    let (b, _) = backend.get_or_create_persistent_task(native(2), a).unwrap();
    run(&mut backend, b, 1);
    let effects = backend.release_transient_task(root).unwrap();
    let effects = backend.run_background_job(effects.background_jobs[0]).unwrap();
    // two jobs: deactivate a, remove the root
    assert_eq!(effects.background_jobs.len(), 2);
    let effects = backend.run_background_job(effects.background_jobs[0]).unwrap();
    assert!(!backend.get_task(a).unwrap().is_active());
    assert!(backend.get_task(b).unwrap().is_idle());
    // a new root asks for a before it is removed: a and b turn active again
    let (second, _) = backend.create_transient_task(TransientTaskType::Root).unwrap();
    let (again, asked) = backend.get_or_create_persistent_task(native(1), second).unwrap();
    assert_eq!(again, a);
    // a is dirty, b is done: a run of a alone is asked for
    assert_eq!(asked.schedule, vec![a]);
    assert!(backend.get_task(a).unwrap().is_active());
    assert!(backend.get_task(b).unwrap().is_active());
    assert_eq!(backend.get_task(b).unwrap().active_count(), 1);
    // the jobs that are left find nothing to do
    for job in effects.background_jobs {
        let more = backend.run_background_job(job).unwrap();
        assert!(more.background_jobs.is_empty());
    }
    assert!(backend.contains_task(a) && backend.contains_task(b));
    assert!(backend.get_task(b).unwrap().is_active());
}

#[test]
fn removal_takes_every_trace() {
    let mut backend = MemoryBackend::new();
    let (root, _) = backend.create_transient_task(TransientTaskType::Root).unwrap();
    let (keeper, _) = backend.create_transient_task(TransientTaskType::Root).unwrap();
    let (a, _) = backend.get_or_create_persistent_task(native(1), root).unwrap();
    let (b, _) = backend.get_or_create_persistent_task(native(2), a).unwrap();
    backend.get_or_create_persistent_task(native(2), keeper).unwrap();
    run(&mut backend, a, 1);
    run(&mut backend, b, 2);
    backend.try_read_task_output(b, a).unwrap();
    backend.try_read_task_output(a, keeper).unwrap();
    backend.get_fresh_slot(a).unwrap();
    let Read::Pending(listener) = backend.read_task_slot(a, 0, keeper).unwrap() else { panic!("the slot is empty") };
    // an active task is not removed
    assert!(backend.remove_task(a).is_none());
    assert!(backend.contains_task(a));
    let effects = backend.release_transient_task(root).unwrap();
    let effects = backend.run_background_job(effects.background_jobs[0]).unwrap();
    let effects = backend.run_background_job(effects.background_jobs[0]).unwrap();
    assert!(!backend.get_task(a).unwrap().is_active());
    assert_eq!(backend.get_task(a).unwrap().active_count(), 0);
    // b is kept alive by the keeper
    assert!(backend.get_task(b).unwrap().is_active());
    let removal = effects.background_jobs[effects.background_jobs.len() - 1];
    let effects = backend.run_background_job(removal).unwrap();
    // whoever waited for the slot of the removed task is woken
    assert_eq!(effects.wake, vec![WaitHandle { task: a, slot: Some(0) }]);
    assert!(!backend.has_listener(WaitHandle { task: a, slot: Some(0) }));
    assert!(listener.discard());
    assert!(!backend.contains_task(a));
    let left = backend.get_task(b).unwrap();
    assert!(!left.parents().contains(&a));
    assert!(!left.output().readers().contains(&a));
    assert!(left.parents().contains(&keeper));
    let reader = backend.get_task(keeper).unwrap();
    assert!(!reader.dependencies().contains(Dependency::OnOutput(a)));
    assert!(!reader.dependencies().contains(Dependency::OnSlot(a, 0)));
    assert_eq!(backend.with_all_cached_tasks(), vec![b]);
    assert!(edges_agree(&backend, &[root, keeper, a, b]));
}

#[test]
fn background_jobs_get_ids_of_their_own() {
    let mut backend = MemoryBackend::new();
    let (root, _) = backend.create_transient_task(TransientTaskType::Root).unwrap();
    let first = backend.create_background_job(BackgroundJob::DeactivateTasks(vec![root])).unwrap();
    let second = backend.create_background_job(BackgroundJob::DeactivateTasks(vec![])).unwrap();
    assert_eq!((first, second), (0, 1));
    assert!(backend.contains_job(first));
    // the root is anchored: the deactivation passes it over
    let effects = backend.run_background_job(first).unwrap();
    assert!(effects.background_jobs.is_empty());
    assert!(backend.get_task(root).unwrap().is_active());
    assert!(!backend.contains_job(first));
    // a job runs once
    let effects = backend.run_background_job(first).unwrap();
    assert!(effects.background_jobs.is_empty());
    // the id of the job that ran is handed out again
    let third = backend.create_background_job(BackgroundJob::DeactivateTasks(vec![])).unwrap();
    assert_eq!(third, first);
}

/// Whether a path leads to `target` from an anchored task along children.
fn reachable(backend: &MemoryBackend, ids: &[usize], target: usize) -> bool {
    let mut reached: Vec<usize> = ids
        .iter()
        .copied()
        .filter(|id| backend.get_task(*id).map_or(false, |task| task.is_anchored()))
        .collect();
    let mut next = 0;
    while next < reached.len() {
        let task = backend.get_task(reached[next]).unwrap();
        for child in task.children() {
            if !reached.contains(child) {
                reached.push(*child);
            }
        }
        next += 1;
    }
    reached.contains(&target)
}

#[test]
fn active_count_is_positive_for_what_an_anchor_reaches() {
    let mut backend = MemoryBackend::new();
    let (left, _) = backend.create_transient_task(TransientTaskType::Root).unwrap();
    let (right, _) = backend.create_transient_task(TransientTaskType::Root).unwrap();
    // a diamond under the left root, a chain under the right one, one shared task
    let (a, _) = backend.get_or_create_persistent_task(native(1), left).unwrap();
    let (b, _) = backend.get_or_create_persistent_task(native(2), left).unwrap();
    let (c, _) = backend.get_or_create_persistent_task(native(3), a).unwrap();
    backend.get_or_create_persistent_task(native(3), b).unwrap();
    let (d, _) = backend.get_or_create_persistent_task(native(4), right).unwrap();
    backend.get_or_create_persistent_task(native(3), d).unwrap();
    let (e, _) = backend.get_or_create_persistent_task(native(5), d).unwrap();
    let ids = [left, right, a, b, c, d, e];
    assert_eq!(backend.get_task(c).unwrap().active_count(), 3);
    assert_eq!(backend.get_task(e).unwrap().active_count(), 1);
    let settle = |backend: &mut MemoryBackend, mut jobs: Vec<usize>| {
        while let Some(job) = jobs.pop() {
            let effects = backend.run_background_job(job).unwrap();
            jobs.extend(effects.background_jobs);
        }
    };
    let agree = |backend: &MemoryBackend| {
        for id in ids {
            if let Some(task) = backend.get_task(id) {
                assert_eq!(task.active_count() > 0, reachable(backend, &ids, id), "task {}", id);
                assert_eq!(task.is_active(), task.active_count() > 0, "task {}", id);
            }
        }
    };
    agree(&backend);
    let effects = backend.release_transient_task(right).unwrap();
    settle(&mut backend, effects.background_jobs);
    agree(&backend);
    // d and e went with the right root; c is still reached from the left
    assert!(!backend.contains_task(right) && !backend.contains_task(d) && !backend.contains_task(e));
    assert_eq!(backend.get_task(c).unwrap().active_count(), 2);
    let effects = backend.release_transient_task(left).unwrap();
    settle(&mut backend, effects.background_jobs);
    for id in ids {
        assert!(!backend.contains_task(id));
    }
}
