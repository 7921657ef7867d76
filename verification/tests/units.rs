use turbo_tasks_memory::cache::TaskCache;
use turbo_tasks_memory::dependency_set::DependencySet;
use turbo_tasks_memory::id_factory::IdFactory;
use turbo_tasks_memory::output::Output;
use turbo_tasks_memory::slot::Slot;
use turbo_tasks_memory::slot_mappings::{SlotMapping, SlotMappings};
use turbo_tasks_memory::store::Store;
use turbo_tasks_memory::task::{Task, TaskState};
use turbo_tasks_memory::task_type::PersistentTaskType;
use turbo_tasks_memory::value::{Dependency, Outcome, Value, WaitHandle};
use turbo_tasks_memory::wait_list::WaitList;

fn value(payload: u64) -> Value {
    Value { tag: 1, payload }
}

#[test]
fn id_factory_hands_out_returned_ids_first() {
    let mut factory = IdFactory::new();
    assert_eq!(factory.get(), Some(0));
    assert_eq!(factory.get(), Some(1));
    assert_eq!(factory.get(), Some(2));
    assert!(factory.is_live(1));
    assert!(!factory.is_live(3));
    factory.reuse(0);
    factory.reuse(2);
    assert!(!factory.is_live(0));
    assert!(!factory.is_live(2));
    assert!(factory.is_live(1));
    assert!(factory.has_next());
    // the id that came back last goes out first
    assert_eq!(factory.get(), Some(2));
    assert_eq!(factory.get(), Some(0));
    assert_eq!(factory.get(), Some(3));
}

#[test]
fn id_factory_runs_out_at_the_largest_id() {
    let mut factory = IdFactory::starting_at(usize::MAX - 1);
    assert!(factory.has_next());
    assert_eq!(factory.get(), Some(usize::MAX - 1));
    // the largest number is never an id
    assert!(!factory.has_next());
    assert_eq!(factory.get(), None);
    assert_eq!(factory.get(), None);
    factory.reuse(usize::MAX - 1);
    assert!(factory.has_next());
    assert_eq!(factory.get(), Some(usize::MAX - 1));
    assert_eq!(factory.get(), None);
}

#[test]
fn store_holds_values_by_id() {
    let mut store: Store<String> = Store::new();
    assert!(!store.contains(4));
    assert_eq!(store.get(4), None);
    assert_eq!(store.insert(4, "four".to_string()), None);
    assert_eq!(store.insert(0, "zero".to_string()), None);
    assert!(store.contains(4));
    assert!(!store.contains(3));
    assert!(!store.contains(5));
    assert_eq!(store.get(4), Some(&"four".to_string()));
    assert_eq!(store.insert(4, "vier".to_string()), Some("four".to_string()));
    if let Some(text) = store.get_mut(0) {
        text.push('!');
    }
    assert_eq!(store.get(0), Some(&"zero!".to_string()));
    assert!(store.get_mut(9).is_none());
    assert_eq!(store.remove(4), Some("vier".to_string()));
    assert_eq!(store.remove(4), None);
    assert_eq!(store.remove(100), None);
    assert!(!store.contains(4));
    assert!(store.contains(0));
}

#[test]
fn output_write_compares_with_what_it_holds() {
    let mut output = Output::new();
    assert_eq!(output.content(), None);
    // nothing to read yet: the readers wait
    assert_eq!(output.read(7), None);
    assert!(output.has_waiters());
    assert!(output.readers().is_empty());
    let first = Outcome::Success(value(1));
    let written = output.write(first, 1);
    assert!(written.wake);
    assert!(written.readers.is_empty());
    assert!(!output.has_waiters());
    assert_eq!(output.epoch(), 1);
    assert_eq!(output.read(7), Some(first));
    assert_eq!(output.read(8), Some(first));
    assert_eq!(output.read_untracked(), Some(first));
    assert_eq!(output.readers().len(), 2);
    // an equal outcome changes nothing and hands out no reader
    let written = output.write(first, 2);
    assert!(!written.wake);
    assert!(written.readers.is_empty());
    assert_eq!(output.readers().len(), 2);
    assert_eq!(output.epoch(), 2);
    // another outcome replaces it and hands out the readers
    let second = Outcome::Failure(value(1));
    let mut written = output.write(second, 3);
    written.readers.sort();
    assert_eq!(written.readers, vec![7, 8]);
    assert!(output.readers().is_empty());
    assert_eq!(output.content(), Some(second));
    output.add_reader(3);
    output.remove_reader(3);
    output.remove_reader(4);
    assert!(output.readers().is_empty());
}

#[test]
fn slot_assign_and_abandon() {
    let mut slot = Slot::new();
    assert_eq!(slot.read_content(5), None);
    assert!(slot.has_waiters());
    assert_eq!(slot.read_content_untracked(), None);
    assert!(slot.readers().is_empty());
    let written = slot.assign(value(3), 9);
    assert!(written.wake && written.readers.is_empty());
    assert_eq!(slot.writer(), Some(9));
    assert_eq!(slot.read_content(5), Some(value(3)));
    assert_eq!(slot.read_content_untracked(), Some(value(3)));
    assert_eq!(slot.readers().len(), 1);
    let written = slot.assign(value(3), 9);
    assert!(!written.wake && written.readers.is_empty());
    assert_eq!(slot.readers().len(), 1);
    let written = slot.assign(value(4), 9);
    assert_eq!(written.readers, vec![5]);
    assert_eq!(slot.content(), Some(value(4)));
    assert_eq!(slot.read_content(6), Some(value(4)));
    assert_eq!(slot.abandon(), vec![6]);
    assert_eq!(slot.content(), None);
    assert_eq!(slot.writer(), None);
    assert!(slot.readers().is_empty());
}

#[test]
fn dependency_set_keeps_each_dependency_once() {
    let mut set = DependencySet::new();
    assert_eq!(set.len(), 0);
    assert!(set.insert(Dependency::OnOutput(1)));
    assert!(set.insert(Dependency::OnSlot(1, 0)));
    assert!(!set.insert(Dependency::OnOutput(1)));
    assert!(set.insert(Dependency::OnSlot(1, 2)));
    assert_eq!(set.len(), 3);
    assert!(set.contains(Dependency::OnSlot(1, 0)));
    assert!(!set.contains(Dependency::OnSlot(0, 1)));
    assert!(!set.contains(Dependency::OnOutput(2)));
    assert_eq!(set.get(0), Dependency::OnOutput(1));
    assert_eq!(set.get(2), Dependency::OnSlot(1, 2));
    assert!(set.remove(Dependency::OnSlot(1, 0)));
    assert!(!set.remove(Dependency::OnSlot(1, 0)));
    assert_eq!(set.len(), 2);
    assert_eq!(set.get(1), Dependency::OnSlot(1, 2));
    assert_eq!(Dependency::OnSlot(4, 2).task(), 4);
    assert_eq!(Dependency::OnSlot(4, 2).cell(), Some(2));
    assert_eq!(Dependency::OnOutput(4).cell(), None);
    set.clear();
    assert_eq!(set.len(), 0);
    assert!(!set.contains(Dependency::OnOutput(1)));
}

#[test]
fn slot_mappings_find_by_token() {
    let mut table = SlotMappings::new();
    assert_eq!(table.find(10), None);
    assert!(!table.maps(0));
    table.record(10, 0);
    table.record(20, 3);
    table.record(10, 5);
    assert_eq!(table.len(), 3);
    assert_eq!(table.get(1), SlotMapping { token: 20, index: 3 });
    // the first entry for a token counts
    assert_eq!(table.find(10), Some(0));
    assert_eq!(table.find(20), Some(3));
    assert_eq!(table.find(30), None);
    assert!(table.maps(3));
    assert!(table.maps(5));
    assert!(!table.maps(1));
    let copy = table.duplicate();
    assert_eq!(copy.len(), 3);
    assert_eq!(copy.find(20), Some(3));
}

#[test]
fn fingerprints_tell_task_types_apart() {
    let native = PersistentTaskType::Native(7, vec![Value { tag: 1, payload: 2 }, Value { tag: 3, payload: 4 }]);
    assert_eq!(native.fingerprint(), vec![0, 7, 2, 1, 2, 3, 4]);
    let resolve = PersistentTaskType::ResolveNative(7, vec![Value { tag: 1, payload: 2 }, Value { tag: 3, payload: 4 }]);
    assert_eq!(resolve.fingerprint(), vec![1, 7, 2, 1, 2, 3, 4]);
    let method = PersistentTaskType::ResolveTrait(9, "ab".to_string(), vec![Value { tag: 5, payload: 6 }]);
    assert_eq!(method.fingerprint(), vec![2, 9, 1, 5, 6, 97, 98]);
    let empty = PersistentTaskType::ResolveTrait(9, String::new(), vec![]);
    assert_eq!(empty.fingerprint(), vec![2, 9, 0]);
    // a name of more than one byte for a character adds each byte
    let wide = PersistentTaskType::ResolveTrait(0, "é".to_string(), vec![]);
    assert_eq!(wide.fingerprint(), vec![2, 0, 0, 0xc3, 0xa9]);
    assert_eq!(native.inputs().len(), 2);
    // inputs and names do not run into each other
    let one = PersistentTaskType::ResolveTrait(1, "a".to_string(), vec![]);
    let other = PersistentTaskType::Native(1, vec![]);
    assert_ne!(one.fingerprint(), other.fingerprint());
}

#[test]
fn task_state_machine() {
    let mut task = Task::new_native(vec![value(1)], 3);
    assert_eq!(task.state(), TaskState::Dirty);
    assert!(!task.is_active());
    assert_eq!(task.active_count(), 0);
    assert_eq!(task.executions(), 0);
    assert_eq!(task.fingerprint(), Some(vec![0, 3, 1, 1, 1]));
    // not scheduled: no run starts
    assert_eq!(task.execution_started(), None);
    assert!(task.schedule());
    assert!(!task.schedule());
    assert_eq!(task.state(), TaskState::Scheduled);
    // an invalidation of a scheduled task changes nothing
    let work = task.invalidate();
    assert!(work.notify.is_empty() && !work.schedule);
    assert_eq!(task.state(), TaskState::Scheduled);
    assert_eq!(task.execution_started(), Some(1));
    assert_eq!(task.state(), TaskState::InProgress { run_epoch: 1 });
    assert_eq!(task.execution_started(), None);
    assert!(!task.schedule());
    // the outcome of another epoch is not stored
    let late = task.execution_result(7, Outcome::Success(value(9)));
    assert!(late.readers.is_empty() && !late.wake);
    assert_eq!(task.state(), TaskState::InProgress { run_epoch: 1 });
    assert_eq!(task.get_or_wait_output(), None);
    let written = task.execution_result(1, Outcome::Success(value(9)));
    assert!(written.wake);
    assert_eq!(task.state(), TaskState::Done);
    assert_eq!(task.get_or_wait_output(), Some(Outcome::Success(value(9))));
    assert_eq!(task.output().epoch(), 1);
    // a done task turns dirty; it is inactive, so no run is asked for
    task.add_reader(None, 4);
    assert_eq!(task.get_fresh_slot(), 0);
    assert_eq!(task.get_fresh_slot(), 1);
    task.add_reader(Some(1), 5);
    task.add_reader(Some(7), 6);
    let mut work = task.invalidate();
    work.notify.sort();
    assert_eq!(work.notify, vec![4, 5]);
    assert!(!work.schedule);
    assert_eq!(task.state(), TaskState::Dirty);
    // the output is kept but is not handed out while the task is dirty
    assert_eq!(task.output().content(), Some(Outcome::Success(value(9))));
    assert_eq!(task.get_or_wait_output(), None);
    assert!(task.schedule());
    assert_eq!(task.execution_started(), Some(2));
    let work = task.invalidate();
    assert!(work.notify.is_empty() && !work.schedule);
    assert_eq!(task.state(), TaskState::InProgressDirty { run_epoch: 2 });
    let dropped = task.execution_result(2, Outcome::Success(value(10)));
    assert!(dropped.readers.is_empty() && !dropped.wake);
    assert_eq!(task.state(), TaskState::Dirty);
    assert_eq!(task.output().content(), Some(Outcome::Success(value(9))));
}

#[test]
fn settled_once_task_ignores_invalidation() {
    let mut once = Task::new_once();
    assert_eq!(once.state(), TaskState::Scheduled);
    assert!(once.is_active() && once.is_anchored());
    assert_eq!(once.active_count(), 1);
    assert_eq!(once.fingerprint(), None);
    assert!(!once.is_settled());
    assert_eq!(once.execution_started(), Some(1));
    once.execution_result(1, Outcome::Success(value(1)));
    assert!(once.is_settled());
    once.add_reader(None, 2);
    let work = once.invalidate();
    assert!(work.notify.is_empty() && !work.schedule);
    assert_eq!(once.state(), TaskState::Done);

    let mut root = Task::new_root();
    assert_eq!(root.execution_started(), Some(1));
    root.execution_result(1, Outcome::Success(value(1)));
    assert!(!root.is_settled());
    root.add_reader(None, 2);
    let work = root.invalidate();
    assert_eq!(work.notify, vec![2]);
    assert!(work.schedule);
    assert_eq!(root.state(), TaskState::Dirty);
    root.release_anchor();
    assert_eq!(root.active_count(), 0);
    assert!(root.is_idle());
    assert!(!root.is_removable());
    root.set_active(false);
    assert!(root.is_removable());
}

#[test]
fn cache_keeps_the_first_id_under_a_key() {
    let mut cache = TaskCache::new();
    let key = vec![0u64, 7, 0];
    let other = vec![0u64, 8, 0];
    assert_eq!(cache.get(&key), None);
    assert!(cache.values().is_empty());
    assert_eq!(cache.try_insert(key.clone(), 4), Ok(4));
    // a second insertion under the key is refused with the id that is there
    assert_eq!(cache.try_insert(key.clone(), 5), Err(4));
    assert_eq!(cache.get(&key), Some(4));
    assert_eq!(cache.get(&other), None);
    assert_eq!(cache.try_insert(other.clone(), 9), Ok(9));
    let mut ids = cache.values();
    ids.sort();
    assert_eq!(ids, vec![4, 9]);
    assert_eq!(cache.remove(&key), Some(4));
    assert_eq!(cache.remove(&key), None);
    assert_eq!(cache.get(&key), None);
    assert_eq!(cache.values(), vec![9]);
    assert_eq!(cache.try_insert(key, 5), Ok(5));
}

#[test]
fn wait_list_notifies_the_listeners_of_a_handle() {
    let mut list = WaitList::new();
    let output = WaitHandle { task: 3, slot: None };
    let slot = WaitHandle { task: 3, slot: Some(0) };
    assert!(!list.is_listened(output));
    let first = list.listen(output);
    let second = list.listen(output);
    let other = list.listen(slot);
    assert!(list.is_listened(output) && list.is_listened(slot));
    assert!(!list.is_listened(WaitHandle { task: 4, slot: None }));
    assert!(list.wake(output));
    assert!(!list.is_listened(output));
    assert!(list.is_listened(slot));
    // every listener of the handle was notified, and nobody else
    assert!(first.discard());
    assert!(second.discard());
    assert!(!other.discard());
    // nobody is left to wake
    assert!(!list.wake(output));
    let late = list.listen(output);
    assert!(list.wake(output));
    assert!(late.discard());
}
