//! The listeners of suspended readers, by what they wait for.

use crate::value::WaitHandle;
use vstd::prelude::*;

verus! {

/// An event of `event_listener`: what listeners wait on. Nothing is known of
/// an event.
#[verifier::external_type_specification]
#[verifier::external_body]
pub struct ExEvent(event_listener::Event);

/// A listener of `event_listener`: what a suspended reader awaits. Nothing is
/// known of a listener.
#[verifier::external_type_specification]
#[verifier::external_body]
pub struct ExEventListener(event_listener::EventListener);

/// `event_listener::Event::new`: a new event. Nothing is stated of it.
#[verifier::external_body]
fn event_new() -> (event: event_listener::Event) {
    event_listener::Event::new()
}

/// `event_listener::Event::listen`: a new listener of the event. Nothing is
/// stated of it.
#[verifier::external_body]
fn event_listen(event: &event_listener::Event) -> (listener: event_listener::EventListener) {
    event.listen()
}

/// `event_listener::Event::notify`: notifies up to `count` listeners of the
/// event. Nothing is stated of what that does.
#[verifier::external_body]
fn event_notify(event: &event_listener::Event, count: usize) {
    event.notify(count)
}

/// The events that suspended readers listen to, one for each output or slot
/// that someone waits for.
pub struct WaitList {
    handles: Vec<WaitHandle>,
    events: Vec<event_listener::Event>,
}

impl WaitList {
    /// What is listened to.
    pub closed spec fn view(&self) -> Set<WaitHandle> {
        self.handles@.to_set()
    }

    /// Each handle has one event.
    pub closed spec fn wf(&self) -> bool {
        &&& self.handles@.len() == self.events@.len()
        &&& self.handles@.no_duplicates()
    }

    /// A list without listeners.
    pub fn new() -> (list: Self)
        ensures
            list.wf(),
            list@ == Set::<WaitHandle>::empty(),
    {
        let list = WaitList { handles: Vec::new(), events: Vec::new() };
        assert(list@ =~= Set::<WaitHandle>::empty());
        list
    }

    fn position(&self, handle: WaitHandle) -> (place: Option<usize>)
        ensures
            place matches Some(i) ==> i < self.handles@.len() && self.handles@[i as int] == handle,
            place is None ==> !self.handles@.contains(handle),
    {
        let mut i: usize = 0;
        while i < self.handles.len()
            invariant
                i <= self.handles@.len(),
                forall|k: int| 0 <= k < i ==> self.handles@[k] != handle,
            decreases self.handles@.len() - i,
        {
            if self.handles[i] == handle {
                return Some(i);
            }
            i += 1;
        }
        None
    }

    /// Whether someone listens to `handle`.
    pub fn is_listened(&self, handle: WaitHandle) -> (listened: bool)
        ensures
            listened == self@.contains(handle),
    {
        self.position(handle).is_some()
    }

    /// A listener for the next wake of `handle`.
    pub fn listen(&mut self, handle: WaitHandle) -> (listener: event_listener::EventListener)
        requires
            old(self).wf(),
        ensures
            final(self).wf(),
            final(self)@ == old(self)@.insert(handle),
    {
        match self.position(handle) {
            Some(i) => {
                assert(self@ =~= old(self)@.insert(handle));
                event_listen(&self.events[i])
            },
            None => {
                let event = event_new();
                let listener = event_listen(&event);
                self.handles.push(handle);
                self.events.push(event);
                proof {
                    let before = old(self).handles@;
                    let after = self.handles@;
                    assert forall|other: WaitHandle| after.contains(other) == (before.contains(other) || other
                        == handle) by {
                        if before.contains(other) {
                            let k = choose|k: int| 0 <= k < before.len() && before[k] == other;
                            assert(after[k] == other);
                        }
                        if other == handle {
                            assert(after[after.len() - 1] == other);
                        }
                    }
                    assert(self@ =~= old(self)@.insert(handle));
                }
                listener
            },
        }
    }

    /// Wakes whoever listens to `handle`: every listener is notified, and
    /// nobody listens to `handle` afterwards. The result says whether anybody
    /// did.
    pub fn wake(&mut self, handle: WaitHandle) -> (woken: bool)
        requires
            old(self).wf(),
        ensures
            final(self).wf(),
            final(self)@ == old(self)@.remove(handle),
            woken == old(self)@.contains(handle),
    {
        match self.position(handle) {
            Some(i) => {
                self.handles.remove(i);
                let event = self.events.remove(i);
                event_notify(&event, usize::MAX);
                proof {
                    let before = old(self).handles@;
                    let after = self.handles@;
                    assert(after =~= before.remove(i as int));
                    assert forall|other: WaitHandle| after.contains(other) == (before.contains(other) && other
                        != handle) by {
                        if before.contains(other) && other != handle {
                            let k = choose|k: int| 0 <= k < before.len() && before[k] == other;
                            if k < i {
                                assert(after[k] == other);
                            } else {
                                assert(after[k - 1] == other);
                            }
                        }
                        if after.contains(other) {
                            let k = choose|k: int| 0 <= k < after.len() && after[k] == other;
                            if k < i {
                                assert(before[k] == other);
                            } else {
                                assert(before[k + 1] == other);
                            }
                        }
                    }
                    assert(self@ =~= old(self)@.remove(handle));
                }
                true
            },
            None => {
                assert(self@ =~= old(self)@.remove(handle));
                false
            },
        }
    }
}

} // verus!
