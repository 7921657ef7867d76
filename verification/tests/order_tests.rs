use turbo_tasks_memory::backend::MemoryBackend;
use turbo_tasks_memory::slot_mappings::SlotMappings;
use turbo_tasks_memory::task::{TaskState, TaskType};
use turbo_tasks_memory::task_type::{PersistentTaskType, TransientTaskType};
use turbo_tasks_memory::value::{Dependency, Outcome, Value, WaitHandle};

/// A small generator of numbers that gives the same numbers on every run.
struct Numbers(u64);

impl Numbers {
    fn next(&mut self, below: usize) -> usize {
        self.0 = self.0.wrapping_mul(6364136223846793005).wrapping_add(1442695040888963407);
        ((self.0 >> 33) as usize) % below
    }
}

/// Panics unless the tasks with ids below `bound` are in order.
fn assert_in_order(backend: &MemoryBackend, bound: usize, step: usize) {
    for id in 0..bound {
        let Some(task) = backend.get_task(id) else { continue };
        // dependencies and readers agree
        let dependencies = task.dependencies();
        for i in 0..dependencies.len() {
            let dependency = dependencies.get(i);
            let writer = backend.get_task(dependency.task()).unwrap_or_else(|| panic!("step {step}: {id} depends on a task that is gone"));
            let registered = match dependency.cell() {
                None => writer.output().readers().contains(&id),
                Some(index) => index < writer.slot_count() && writer.slot(index).readers().contains(&id),
            };
            assert!(registered, "step {step}: {id} holds {dependency:?} and is no reader");
        }
        let fresh = task.fresh_dependencies();
        for i in 0..fresh.len() {
            assert!(dependencies.contains(fresh.get(i)), "step {step}: a fresh dependency of {id} is not held");
        }
        for reader in task.output().readers() {
            let record = backend.get_task(*reader).unwrap_or_else(|| panic!("step {step}: a reader of {id} is gone"));
            assert!(record.dependencies().contains(Dependency::OnOutput(id)), "step {step}");
        }
        for index in 0..task.slot_count() {
            let slot = task.slot(index);
            for reader in slot.readers() {
                let record = backend.get_task(*reader).unwrap_or_else(|| panic!("step {step}: a reader of {id} is gone"));
                assert!(record.dependencies().contains(Dependency::OnSlot(id, index)), "step {step}");
            }
            let handle = WaitHandle { task: id, slot: Some(index) };
            if backend.has_listener(handle) {
                assert!(slot.has_waiters(), "step {step}: a listener of a slot that nobody waits for");
            }
            if slot.content().is_some() {
                assert!(!slot.has_waiters(), "step {step}: someone waits for a slot with content");
                assert!(!backend.has_listener(handle), "step {step}: a listener is left behind");
            } else {
                assert!(slot.readers().is_empty(), "step {step}: an empty slot has readers");
            }
        }
        // children and parents agree, and active parents are the parents that are active
        for child in task.children() {
            let record = backend.get_task(*child).unwrap_or_else(|| panic!("step {step}: a child of {id} is gone"));
            assert!(record.parents().contains(&id), "step {step}: {child} does not know its parent {id}");
        }
        for child in task.fresh_children() {
            assert!(task.children().contains(child), "step {step}");
        }
        for parent in task.parents() {
            let record = backend.get_task(*parent).unwrap_or_else(|| panic!("step {step}: a parent of {id} is gone"));
            assert!(record.children().contains(&id), "step {step}: {parent} does not know its child {id}");
            assert_eq!(task.active_parents().contains(parent), record.is_active(), "step {step}: {parent} -> {id}");
        }
        for parent in task.active_parents() {
            assert!(task.parents().contains(parent), "step {step}");
        }
        if task.active_count() > 0 {
            assert!(task.is_active(), "step {step}: {id} is counted and not active");
        }
        if task.is_anchored() {
            assert!(matches!(task.ty(), TaskType::Transient(_)), "step {step}");
        }
        // the state and the output agree
        let handle = WaitHandle { task: id, slot: None };
        if backend.has_listener(handle) {
            assert!(task.output().has_waiters(), "step {step}: a listener of an output that nobody waits for");
        }
        match task.state() {
            TaskState::Done => {
                assert!(!backend.has_listener(handle), "step {step}: a listener is left behind");
                assert!(task.output().content().is_some(), "step {step}: {id} is done without output");
                assert!(!task.output().has_waiters(), "step {step}: someone waits for the done task {id}");
                assert_eq!(task.output().epoch(), task.executions(), "step {step}");
            },
            TaskState::InProgress { run_epoch } | TaskState::InProgressDirty { run_epoch } => {
                assert_eq!(run_epoch, task.executions(), "step {step}");
            },
            TaskState::Dirty | TaskState::Scheduled => {},
        }
        if task.output().content().is_none() {
            assert!(task.output().readers().is_empty(), "step {step}");
        }
    }
    // nobody listens to a task that is gone
    for id in 0..bound {
        if !backend.contains_task(id) {
            assert!(!backend.has_listener(WaitHandle { task: id, slot: None }), "step {step}");
            for index in 0..3 {
                assert!(!backend.has_listener(WaitHandle { task: id, slot: Some(index) }), "step {step}");
            }
        }
    }
    // every cached id names a stored task with the fingerprint of its kind
    let cached = backend.with_all_cached_tasks();
    for id in &cached {
        let task = backend.get_task(*id).unwrap_or_else(|| panic!("step {step}: the cached task {id} is gone"));
        assert!(task.fingerprint().is_some(), "step {step}");
    }
    let mut distinct = cached.clone();
    distinct.sort();
    distinct.dedup();
    assert_eq!(distinct.len(), cached.len(), "step {step}: a task is cached twice");
}

#[test]
fn random_operations_keep_the_graph_in_order() {
    for seed in 1..=8u64 {
        let mut numbers = Numbers(seed);
        let mut backend = MemoryBackend::new();
        let mut jobs: Vec<usize> = Vec::new();
        let mut notify: Vec<usize> = Vec::new();
        let bound = 64;
        let mut transients = 1;
        let (root, _) = backend.create_transient_task(TransientTaskType::Root).unwrap();
        assert_eq!(root, 0);
        for step in 0..3000 {
            let task = numbers.next(bound);
            let other = numbers.next(bound);
            let pick = numbers.next(14);
            let mut effects = None;
            match pick {
                0 => {
                    if numbers.next(8) == 0 && transients < 20 {
                        transients += 1;
                        let kind = if numbers.next(2) == 0 { TransientTaskType::Root } else { TransientTaskType::Once };
                        if let Ok((id, more)) = backend.create_transient_task(kind) {
                            assert!(id < bound, "step {step}: more tasks than expected");
                            effects = Some(more);
                        }
                    }
                },
                1 | 2 => {
                    let function = numbers.next(12);
                    let ty = match numbers.next(3) {
                        0 => PersistentTaskType::Native(function, vec![]),
                        1 => PersistentTaskType::ResolveNative(function, vec![Value { tag: 1, payload: 2 }]),
                        _ => PersistentTaskType::ResolveTrait(function, "call".to_string(), vec![]),
                    };
                    if let Ok((id, more)) = backend.get_or_create_persistent_task(ty, task) {
                        assert!(id < bound, "step {step}: more tasks than expected");
                        effects = Some(more);
                    }
                },
                3 => effects = backend.invalidate_task(task).ok(),
                4 => {
                    let _ = backend.schedule_task(task);
                },
                5 => {
                    let _ = backend.try_start_task_execution(task);
                },
                6 | 7 => {
                    let epoch = match backend.get_task(task).map(|record| record.state()) {
                        Some(TaskState::InProgress { run_epoch }) | Some(TaskState::InProgressDirty { run_epoch }) => {
                            run_epoch
                        },
                        _ => numbers.next(3) as u64,
                    };
                    let outcome = if numbers.next(4) == 0 {
                        Outcome::Failure(Value { tag: 9, payload: numbers.next(2) as u64 })
                    } else {
                        Outcome::Success(Value { tag: 0, payload: numbers.next(2) as u64 })
                    };
                    let mappings = if numbers.next(2) == 0 {
                        None
                    } else {
                        let mut table = SlotMappings::new();
                        for index in 0..3 {
                            if numbers.next(2) == 0 {
                                table.record(index as u64, index);
                            }
                        }
                        Some(table)
                    };
                    effects = backend.task_execution_completed(task, epoch, mappings, outcome).ok().map(|(_, more)| more);
                },
                8 => effects = backend.try_read_task_output(task, other).ok().map(|(_, more)| more),
                9 => {
                    let _ = backend.get_fresh_slot(task);
                    let _ = backend.read_task_slot(task, numbers.next(3), other);
                    let _ = backend.read_task_slot_untracked(task, numbers.next(3));
                },
                10 => {
                    let content = Value { tag: 0, payload: numbers.next(2) as u64 };
                    effects = backend.update_task_slot(task, numbers.next(3), content).ok();
                },
                11 => {
                    if !jobs.is_empty() {
                        let job = jobs.remove(numbers.next(jobs.len()));
                        match backend.run_background_job(job) {
                            Ok(more) => effects = Some(more),
                            Err(_) => jobs.push(job),
                        }
                    }
                },
                12 => {
                    if !notify.is_empty() {
                        let tasks = std::mem::take(&mut notify);
                        effects = Some(backend.notify_slot_change(tasks));
                    }
                },
                _ => {
                    if numbers.next(4) == 0 {
                        effects = backend.release_transient_task(task).ok();
                    }
                },
            }
            if let Some(effects) = effects {
                jobs.extend(effects.background_jobs);
                notify.extend(effects.notify);
            }
            assert_in_order(&backend, bound, step);
        }
        // once every anchor is released and every job has run, nothing is left
        // but what keeps itself alive in a cycle
        for id in 0..bound {
            if let Ok(effects) = backend.release_transient_task(id) {
                jobs.extend(effects.background_jobs);
            }
        }
        while let Some(job) = jobs.pop() {
            let effects = backend.run_background_job(job).unwrap();
            jobs.extend(effects.background_jobs);
            assert_in_order(&backend, bound, 3000);
        }
        for id in 0..bound {
            if let Some(task) = backend.get_task(id) {
                assert!(!task.is_anchored());
                assert_eq!(task.is_active(), task.active_count() > 0, "task {id} after the end");
            }
        }
    }
}
