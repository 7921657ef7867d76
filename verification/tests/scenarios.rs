use std::collections::{HashMap, VecDeque};

use turbo_tasks_memory::backend::MemoryBackend;
use turbo_tasks_memory::effects::Effects;
use turbo_tasks_memory::slot_mappings::SlotMappings;
use turbo_tasks_memory::task::{TaskState, TaskType};
use turbo_tasks_memory::task_type::{PersistentTaskType, TransientTaskType};
use turbo_tasks_memory::value::{Outcome, Read, Value, WaitHandle};

const A: usize = 1;
const B: usize = 2;
const C: usize = 3;
const D: usize = 4;
const ROOT: usize = 0;

/// A small executor: it runs the bodies of the tasks and does what the
/// backend leaves to do, in the order in which it is asked.
struct Executor {
    backend: MemoryBackend,
    a_output: u64,
    runs: HashMap<usize, usize>,
    schedule: VecDeque<usize>,
    jobs: VecDeque<usize>,
    wakes: usize,
}

impl Executor {
    fn new() -> Self {
        Executor {
            backend: MemoryBackend::new(),
            a_output: 1,
            runs: HashMap::new(),
            schedule: VecDeque::new(),
            jobs: VecDeque::new(),
            wakes: 0,
        }
    }

    fn apply(&mut self, effects: Effects) {
        for id in effects.schedule {
            self.schedule.push_back(id);
        }
        for job in effects.background_jobs {
            self.jobs.push_back(job);
        }
        self.wakes += effects.wake.len();
        if !effects.notify.is_empty() {
            let more = self.backend.notify_slot_change(effects.notify);
            self.apply(more);
        }
    }

    fn function_of(&self, task: usize) -> usize {
        match self.backend.get_task(task).unwrap().ty() {
            TaskType::Persistent(PersistentTaskType::Native(function, _)) => *function,
            TaskType::Persistent(_) => panic!("only native tasks are used here"),
            TaskType::Transient(_) => ROOT,
        }
    }

    fn call(&mut self, function: usize, parent: usize) -> u64 {
        let (child, effects) = self
            .backend
            .get_or_create_persistent_task(PersistentTaskType::Native(function, vec![]), parent)
            .unwrap();
        self.apply(effects);
        loop {
            let (read, effects) = self.backend.try_read_task_output(child, parent).unwrap();
            self.apply(effects);
            match read {
                Read::Ready(Outcome::Success(value)) => return value.payload,
                Read::Ready(Outcome::Failure(_)) => panic!("no body fails here"),
                Read::Pending(_) => self.drive(child),
            }
        }
    }

    fn body(&mut self, function: usize, me: usize) -> u64 {
        match function {
            A => self.a_output,
            B => self.call(A, me) + 1,
            C => self.call(A, me) * 2,
            D => self.call(B, me) + self.call(C, me),
            _ => self.call(D, me),
        }
    }

    fn drive(&mut self, task: usize) {
        if !self.backend.contains_task(task) {
            return;
        }
        self.backend.schedule_task(task).unwrap();
        let spec = match self.backend.try_start_task_execution(task).unwrap() {
            Some(spec) => spec,
            None => return,
        };
        let function = self.function_of(task);
        *self.runs.entry(function).or_insert(0) += 1;
        let result = self.body(function, task);
        let outcome = Outcome::Success(Value { tag: 0, payload: result });
        let (reschedule, effects) = self
            .backend
            .task_execution_completed(task, spec.epoch, Some(SlotMappings::new()), outcome)
            .unwrap();
        self.apply(effects);
        if reschedule {
            self.schedule.push_back(task);
        }
    }

    fn settle(&mut self) {
        loop {
            if let Some(task) = self.schedule.pop_front() {
                self.drive(task);
            } else if let Some(job) = self.jobs.pop_front() {
                let effects = self.backend.run_background_job(job).unwrap();
                self.apply(effects);
            } else {
                break;
            }
        }
    }

    fn root(&mut self) -> usize {
        let (root, effects) = self.backend.create_transient_task(TransientTaskType::Root).unwrap();
        self.apply(effects);
        root
    }

    fn cached(&self, function: usize) -> usize {
        let key = PersistentTaskType::Native(function, vec![]).fingerprint();
        let mut found = None;
        for id in self.backend.with_all_cached_tasks() {
            let task = self.backend.get_task(id).unwrap();
            if task.fingerprint() == Some(key.clone()) {
                found = Some(id);
            }
        }
        found.unwrap()
    }

    fn output(&self, task: usize) -> u64 {
        match self.backend.get_task(task).unwrap().output().content() {
            Some(Outcome::Success(value)) => value.payload,
            other => panic!("no output: {:?}", other),
        }
    }

    fn runs_of(&self, function: usize) -> usize {
        *self.runs.get(&function).unwrap_or(&0)
    }
}

#[test]
fn chain_memoization() {
    let mut executor = Executor::new();
    let first = executor.root();
    // the first root asks for B and C itself
    executor.backend.schedule_task(first).unwrap();
    let spec = executor.backend.try_start_task_execution(first).unwrap().unwrap();
    let b = executor.call(B, first);
    let c = executor.call(C, first);
    assert_eq!(b, 2);
    assert_eq!(c, 2);
    let done = Outcome::Success(Value { tag: 0, payload: b + c });
    let (reschedule, effects) = executor.backend.task_execution_completed(first, spec.epoch, None, done).unwrap();
    assert!(!reschedule);
    executor.apply(effects);
    executor.settle();
    let tasks_before = executor.backend.with_all_cached_tasks().len();
    assert_eq!(tasks_before, 3);
    let (a_id, b_id, c_id) = (executor.cached(A), executor.cached(B), executor.cached(C));

    // a second root asks for the same tasks
    let second = executor.root();
    executor.backend.schedule_task(second).unwrap();
    let spec = executor.backend.try_start_task_execution(second).unwrap().unwrap();
    assert_eq!(executor.call(B, second), 2);
    assert_eq!(executor.call(C, second), 2);
    let (_, effects) = executor.backend.task_execution_completed(second, spec.epoch, None, done).unwrap();
    executor.apply(effects);
    executor.settle();

    assert_eq!(executor.backend.with_all_cached_tasks().len(), 3);
    assert_eq!((executor.cached(A), executor.cached(B), executor.cached(C)), (a_id, b_id, c_id));
    assert_eq!(executor.runs_of(A), 1);
    assert_eq!(executor.runs_of(B), 1);
    assert_eq!(executor.runs_of(C), 1);
}

fn diamond() -> (Executor, usize) {
    let mut executor = Executor::new();
    let root = executor.root();
    executor.settle();
    assert_eq!(executor.output(root), 4);
    for function in [A, B, C, D, ROOT] {
        assert_eq!(executor.runs_of(function), 1);
    }
    (executor, root)
}

#[test]
fn diamond_invalidation() {
    let (mut executor, root) = diamond();
    let a = executor.cached(A);
    executor.a_output = 5;
    let effects = executor.backend.invalidate_task(a).unwrap();
    executor.apply(effects);
    executor.settle();

    assert_eq!(executor.output(executor.cached(A)), 5);
    assert_eq!(executor.output(executor.cached(B)), 6);
    assert_eq!(executor.output(executor.cached(C)), 10);
    assert_eq!(executor.output(executor.cached(D)), 16);
    assert_eq!(executor.output(root), 16);
    for function in [A, B, C, D] {
        assert_eq!(executor.runs_of(function), 2);
    }
    for function in [A, B, C, D] {
        let task = executor.cached(function);
        assert_eq!(executor.backend.get_task(task).unwrap().state(), TaskState::Done);
    }
}

#[test]
fn equal_value_write() {
    let (mut executor, _root) = diamond();
    let a = executor.cached(A);
    let b = executor.cached(B);
    let c = executor.cached(C);
    // A runs again without a word to its readers, and ends with the value
    // that it had
    let effects = executor.backend.invalidate_task(a).unwrap();
    let mut told: Vec<usize> = effects.notify.clone();
    told.sort();
    let mut readers = vec![b, c];
    readers.sort();
    assert_eq!(told, readers);
    assert_eq!(effects.schedule, vec![a]);
    executor.backend.schedule_task(a).unwrap();
    let spec = executor.backend.try_start_task_execution(a).unwrap().unwrap();
    let same = Outcome::Success(Value { tag: 0, payload: 1 });
    let (reschedule, effects) = executor.backend.task_execution_completed(a, spec.epoch, None, same).unwrap();
    assert!(!reschedule);
    // the write of the equal value invalidates nobody and keeps the readers
    assert!(effects.notify.is_empty());
    assert!(effects.schedule.is_empty());
    let task = executor.backend.get_task(a).unwrap();
    assert!(task.output().readers().contains(&b));
    assert!(task.output().readers().contains(&c));
    // so none of the dependents runs again
    executor.apply(effects);
    executor.settle();
    for function in [B, C, D] {
        assert_eq!(executor.runs_of(function), 1);
        let id = executor.cached(function);
        assert_eq!(executor.backend.get_task(id).unwrap().state(), TaskState::Done);
    }
    assert_eq!(executor.output(executor.cached(D)), 4);
}

#[test]
fn single_flight() {
    let mut backend = MemoryBackend::new();
    let (root, _) = backend.create_transient_task(TransientTaskType::Root).unwrap();
    let mut ids = Vec::new();
    let mut schedules = 0;
    for _ in 0..10 {
        let inputs = vec![Value { tag: 7, payload: 11 }];
        let (id, effects) =
            backend.get_or_create_persistent_task(PersistentTaskType::Native(3, inputs), root).unwrap();
        schedules += effects.schedule.len();
        ids.push(id);
    }
    assert!(ids.iter().all(|id| *id == ids[0]));
    assert_eq!(backend.with_all_cached_tasks(), vec![ids[0]]);
    // one request for a run, and one run that starts
    assert_eq!(schedules, 1);
    assert_eq!(backend.schedule_task(ids[0]), Ok(true));
    assert!(backend.try_start_task_execution(ids[0]).unwrap().is_some());
    assert!(backend.try_start_task_execution(ids[0]).unwrap().is_none());
}

#[test]
fn deactivation_cascade() {
    let mut executor = Executor::new();
    let (root, effects) = executor.backend.create_transient_task(TransientTaskType::Root).unwrap();
    executor.apply(effects);
    executor.schedule.clear();
    // a tree of a hundred tasks: task n is a child of task (n - 1) / 3
    let mut ids: Vec<usize> = Vec::new();
    for n in 0..100usize {
        let parent = if n == 0 { root } else { ids[(n - 1) / 3] };
        let ty = PersistentTaskType::Native(100 + n, vec![]);
        let (id, _) = executor.backend.get_or_create_persistent_task(ty, parent).unwrap();
        ids.push(id);
    }
    for id in &ids {
        let task = executor.backend.get_task(*id).unwrap();
        assert!(task.is_active());
        assert_eq!(task.active_count(), 1);
    }
    assert_eq!(executor.backend.with_all_cached_tasks().len(), 100);

    let effects = executor.backend.release_transient_task(root).unwrap();
    assert_eq!(effects.background_jobs.len(), 1);
    executor.apply(effects);
    executor.schedule.clear();
    executor.settle();

    assert!(!executor.backend.contains_task(root));
    for id in &ids {
        assert!(!executor.backend.contains_task(*id));
    }
    assert!(executor.backend.with_all_cached_tasks().is_empty());
    // every id is handed out again before a new one is made
    let mut again: Vec<usize> = Vec::new();
    for n in 0..101usize {
        let (id, _) = executor.backend.create_transient_task(TransientTaskType::Once).unwrap();
        assert!(id <= 100, "id {} is new at request {}", id, n);
        again.push(id);
    }
    again.sort();
    assert_eq!(again, (0..101).collect::<Vec<usize>>());
}

#[test]
fn in_progress_invalidation() {
    let mut backend = MemoryBackend::new();
    let (root, _) = backend.create_transient_task(TransientTaskType::Root).unwrap();
    let (t, effects) =
        backend.get_or_create_persistent_task(PersistentTaskType::Native(1, vec![]), root).unwrap();
    assert_eq!(effects.schedule, vec![t]);
    // the reader asks before the task has run
    let (read, _) = backend.try_read_task_output(t, root).unwrap();
    let Read::Pending(first_listener) = read else { panic!("the task has not run") };
    assert!(backend.has_listener(WaitHandle { task: t, slot: None }));
    assert_eq!(backend.schedule_task(t), Ok(true));
    let first = backend.try_start_task_execution(t).unwrap().unwrap();
    assert_eq!(first.epoch, 1);
    // the run is under way when the task is invalidated
    let effects = backend.invalidate_task(t).unwrap();
    assert!(effects.notify.is_empty() && effects.schedule.is_empty());
    assert_eq!(backend.get_task(t).unwrap().state(), TaskState::InProgressDirty { run_epoch: 1 });
    let stale = Outcome::Success(Value { tag: 0, payload: 1 });
    let (reschedule, effects) = backend.task_execution_completed(t, first.epoch, None, stale).unwrap();
    assert!(reschedule);
    assert!(effects.wake.is_empty());
    assert!(backend.has_listener(WaitHandle { task: t, slot: None }));
    assert_eq!(backend.get_task(t).unwrap().state(), TaskState::Dirty);
    assert_eq!(backend.get_task(t).unwrap().output().content(), None);
    let (read, _) = backend.try_read_task_output(t, root).unwrap();
    let Read::Pending(second_listener) = read else { panic!("the outcome was dropped") };
    // the second run stores its outcome and wakes the reader
    assert_eq!(backend.schedule_task(t), Ok(true));
    let second = backend.try_start_task_execution(t).unwrap().unwrap();
    assert_eq!(second.epoch, 2);
    let latest = Outcome::Success(Value { tag: 0, payload: 2 });
    let (reschedule, effects) = backend.task_execution_completed(t, second.epoch, None, latest).unwrap();
    assert!(!reschedule);
    assert_eq!(effects.wake, vec![WaitHandle { task: t, slot: None }]);
    assert!(!backend.has_listener(WaitHandle { task: t, slot: None }));
    // both listeners were notified
    assert!(first_listener.discard());
    assert!(second_listener.discard());
    let (read, _) = backend.try_read_task_output(t, root).unwrap();
    assert!(matches!(read, Read::Ready(outcome) if outcome == latest));
    // a completion of the first run that comes late changes nothing
    let (reschedule, effects) = backend.task_execution_completed(t, first.epoch, None, stale).unwrap();
    assert!(!reschedule);
    assert!(effects.notify.is_empty());
    assert_eq!(backend.get_task(t).unwrap().output().content(), Some(latest));
}
