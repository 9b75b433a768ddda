use hey_listen::EventDispatcher;
use hey_listen::Listener;
use hey_listen::SyncDispatcherRequest;
use parking_lot::Mutex;
use std::sync::Arc;

#[derive(Clone, Eq, Hash, PartialEq)]
enum Event {
    Opened,
    Closed,
}

struct Recorder {
    name: usize,
    answer: Option<SyncDispatcherRequest>,
    log: Arc<Mutex<Vec<usize>>>,
}

impl Listener<Event> for Recorder {
    fn on_event(&mut self, _event: &Event) -> Option<SyncDispatcherRequest> {
        self.log.lock().push(self.name);
        self.answer
    }
}

fn recorder(
    name: usize,
    answer: Option<SyncDispatcherRequest>,
    log: &Arc<Mutex<Vec<usize>>>,
) -> Arc<Mutex<Recorder>> {
    Arc::new(Mutex::new(Recorder {
        name,
        answer,
        log: Arc::clone(log),
    }))
}

#[test]
fn sync_dispatch_to_unknown_event_does_nothing() {
    let log = Arc::new(Mutex::new(Vec::new()));
    let listener = recorder(1, None, &log);
    let mut dispatcher: EventDispatcher<Event> = EventDispatcher::default();
    dispatcher.add_listener(Event::Opened, &listener);

    dispatcher.dispatch_event(&Event::Closed);

    assert!(log.lock().is_empty());
    assert_eq!(dispatcher.listener_count(&Event::Opened), 1);
    assert_eq!(dispatcher.listener_count(&Event::Closed), 0);
}

#[test]
fn sync_default_dispatcher_is_empty() {
    let dispatcher: EventDispatcher<Event> = EventDispatcher::default();

    assert_eq!(dispatcher.listener_count(&Event::Opened), 0);
    assert_eq!(dispatcher.fn_count(&Event::Opened), 0);
}

#[test]
fn sync_listeners_are_called_in_registration_order() {
    let log = Arc::new(Mutex::new(Vec::new()));
    let first = recorder(1, None, &log);
    let second = recorder(2, None, &log);
    let third = recorder(3, None, &log);
    let mut dispatcher: EventDispatcher<Event> = EventDispatcher::default();
    dispatcher.add_listener(Event::Opened, &first);
    dispatcher.add_listener(Event::Opened, &second);
    dispatcher.add_listener(Event::Opened, &third);

    dispatcher.dispatch_event(&Event::Opened);

    assert_eq!(*log.lock(), [1, 2, 3]);
    assert_eq!(dispatcher.listener_count(&Event::Opened), 3);
}

#[test]
fn sync_listener_registered_twice_is_called_twice() {
    let log = Arc::new(Mutex::new(Vec::new()));
    let listener = recorder(9, None, &log);
    let mut dispatcher: EventDispatcher<Event> = EventDispatcher::default();
    dispatcher.add_listener(Event::Opened, &listener);
    dispatcher.add_listener(Event::Opened, &listener);

    dispatcher.dispatch_event(&Event::Opened);

    assert_eq!(*log.lock(), [9, 9]);
    assert_eq!(dispatcher.listener_count(&Event::Opened), 2);
}

#[test]
fn sync_stop_listening_removes_the_listener() {
    let log = Arc::new(Mutex::new(Vec::new()));
    let leaving = recorder(1, Some(SyncDispatcherRequest::StopListening), &log);
    let staying = recorder(2, None, &log);
    let mut dispatcher: EventDispatcher<Event> = EventDispatcher::default();
    dispatcher.add_listener(Event::Opened, &leaving);
    dispatcher.add_listener(Event::Opened, &staying);

    dispatcher.dispatch_event(&Event::Opened);
    assert_eq!(*log.lock(), [1, 2]);
    assert_eq!(dispatcher.listener_count(&Event::Opened), 1);

    dispatcher.dispatch_event(&Event::Opened);
    assert_eq!(*log.lock(), [1, 2, 2]);
}

#[test]
fn sync_stop_propagation_spares_later_listeners_but_not_closures() {
    let log = Arc::new(Mutex::new(Vec::new()));
    let stopping = recorder(1, Some(SyncDispatcherRequest::StopPropagation), &log);
    let spared = recorder(2, None, &log);
    let closure_log = Arc::clone(&log);
    let mut dispatcher: EventDispatcher<Event> = EventDispatcher::default();
    dispatcher.add_listener(Event::Opened, &stopping);
    dispatcher.add_listener(Event::Opened, &spared);
    dispatcher.add_fn(Event::Opened, move |_event: &Event| {
        closure_log.lock().push(100);
        None
    });

    dispatcher.dispatch_event(&Event::Opened);

    assert_eq!(*log.lock(), [1, 100]);
    assert_eq!(dispatcher.listener_count(&Event::Opened), 2);
    assert_eq!(dispatcher.fn_count(&Event::Opened), 1);
}

#[test]
fn sync_stop_listening_and_propagation_removes_and_stops() {
    let log = Arc::new(Mutex::new(Vec::new()));
    let stopping = recorder(
        1,
        Some(SyncDispatcherRequest::StopListeningAndPropagation),
        &log,
    );
    let spared = recorder(2, None, &log);
    let mut dispatcher: EventDispatcher<Event> = EventDispatcher::default();
    dispatcher.add_listener(Event::Opened, &stopping);
    dispatcher.add_listener(Event::Opened, &spared);

    dispatcher.dispatch_event(&Event::Opened);
    assert_eq!(*log.lock(), [1]);
    assert_eq!(dispatcher.listener_count(&Event::Opened), 1);

    dispatcher.dispatch_event(&Event::Opened);
    assert_eq!(*log.lock(), [1, 2]);
}

#[test]
fn sync_closures_are_called_in_order_and_can_leave() {
    let log = Arc::new(Mutex::new(Vec::new()));
    let first_log = Arc::clone(&log);
    let second_log = Arc::clone(&log);
    let mut dispatcher: EventDispatcher<Event> = EventDispatcher::default();
    dispatcher.add_fn(Event::Closed, move |_event: &Event| {
        first_log.lock().push(1);
        Some(SyncDispatcherRequest::StopListening)
    });
    dispatcher.add_fn(Event::Closed, move |_event: &Event| {
        second_log.lock().push(2);
        None
    });
    assert_eq!(dispatcher.fn_count(&Event::Closed), 2);

    dispatcher.dispatch_event(&Event::Closed);
    assert_eq!(*log.lock(), [1, 2]);
    assert_eq!(dispatcher.fn_count(&Event::Closed), 1);

    dispatcher.dispatch_event(&Event::Closed);
    assert_eq!(*log.lock(), [1, 2, 2]);
}

#[test]
fn sync_boxed_closure_is_accepted() {
    let log = Arc::new(Mutex::new(Vec::new()));
    let closure_log = Arc::clone(&log);
    let closure: Box<dyn Fn(&Event) -> Option<SyncDispatcherRequest> + Send + Sync> =
        Box::new(move |_event: &Event| -> Option<SyncDispatcherRequest> {
            closure_log.lock().push(5);
            None
        });
    let mut dispatcher: EventDispatcher<Event> = EventDispatcher::default();
    dispatcher.add_fn(Event::Opened, closure);

    dispatcher.dispatch_event(&Event::Opened);

    assert_eq!(*log.lock(), [5]);
}

#[test]
fn sync_closure_receives_the_dispatched_event() {
    let seen = Arc::new(Mutex::new(Vec::new()));
    let closure_seen = Arc::clone(&seen);
    let mut dispatcher: EventDispatcher<u32> = EventDispatcher::default();
    dispatcher.add_fn(7, move |event: &u32| {
        closure_seen.lock().push(*event);
        None
    });

    dispatcher.dispatch_event(&7);
    dispatcher.dispatch_event(&8);

    assert_eq!(*seen.lock(), [7]);
}

#[test]
fn sync_dropped_listener_is_not_called_and_is_purged() {
    let log = Arc::new(Mutex::new(Vec::new()));
    let dropped = recorder(1, None, &log);
    let alive = recorder(2, None, &log);
    let mut dispatcher: EventDispatcher<Event> = EventDispatcher::default();
    dispatcher.add_listener(Event::Opened, &dropped);
    dispatcher.add_listener(Event::Opened, &alive);
    drop(dropped);
    assert_eq!(dispatcher.listener_count(&Event::Opened), 2);

    dispatcher.dispatch_event(&Event::Opened);
    assert_eq!(*log.lock(), [2]);
    assert_eq!(dispatcher.listener_count(&Event::Opened), 1);

    dispatcher.dispatch_event(&Event::Opened);
    assert_eq!(*log.lock(), [2, 2]);
    assert_eq!(dispatcher.listener_count(&Event::Opened), 1);
}

#[test]
fn sync_purge_keeps_the_order_of_the_living() {
    let log = Arc::new(Mutex::new(Vec::new()));
    let first = recorder(1, None, &log);
    let second = recorder(2, None, &log);
    let third = recorder(3, None, &log);
    let fourth = recorder(4, None, &log);
    let mut dispatcher: EventDispatcher<Event> = EventDispatcher::default();
    dispatcher.add_listener(Event::Opened, &first);
    dispatcher.add_listener(Event::Opened, &second);
    dispatcher.add_listener(Event::Opened, &third);
    dispatcher.add_listener(Event::Opened, &fourth);
    drop(second);

    dispatcher.dispatch_event(&Event::Opened);
    assert_eq!(*log.lock(), [1, 3, 4]);
    assert_eq!(dispatcher.listener_count(&Event::Opened), 3);

    dispatcher.dispatch_event(&Event::Opened);
    assert_eq!(*log.lock(), [1, 3, 4, 1, 3, 4]);
}

#[test]
fn sync_purge_takes_every_dropped_listener_once_one_is_found() {
    let log = Arc::new(Mutex::new(Vec::new()));
    let dropped_early = recorder(1, None, &log);
    let stopping = recorder(2, Some(SyncDispatcherRequest::StopPropagation), &log);
    let dropped_late = recorder(3, None, &log);
    let mut dispatcher: EventDispatcher<Event> = EventDispatcher::default();
    dispatcher.add_listener(Event::Opened, &dropped_early);
    dispatcher.add_listener(Event::Opened, &stopping);
    dispatcher.add_listener(Event::Opened, &dropped_late);
    drop(dropped_early);
    drop(dropped_late);

    dispatcher.dispatch_event(&Event::Opened);

    assert_eq!(*log.lock(), [2]);
    assert_eq!(dispatcher.listener_count(&Event::Opened), 1);
}

#[test]
fn sync_dropped_listener_behind_a_stop_stays_until_it_is_found() {
    let log = Arc::new(Mutex::new(Vec::new()));
    let stopping = recorder(1, Some(SyncDispatcherRequest::StopPropagation), &log);
    let dropped = recorder(2, None, &log);
    let mut dispatcher: EventDispatcher<Event> = EventDispatcher::default();
    dispatcher.add_listener(Event::Opened, &stopping);
    dispatcher.add_listener(Event::Opened, &dropped);
    drop(dropped);

    dispatcher.dispatch_event(&Event::Opened);

    assert_eq!(*log.lock(), [1]);
    assert_eq!(dispatcher.listener_count(&Event::Opened), 2);
}

#[test]
fn sync_events_do_not_share_subscribers() {
    let log = Arc::new(Mutex::new(Vec::new()));
    let opened = recorder(1, Some(SyncDispatcherRequest::StopListening), &log);
    let closed = recorder(2, None, &log);
    let mut dispatcher: EventDispatcher<Event> = EventDispatcher::default();
    dispatcher.add_listener(Event::Opened, &opened);
    dispatcher.add_listener(Event::Closed, &closed);

    dispatcher.dispatch_event(&Event::Opened);

    assert_eq!(*log.lock(), [1]);
    assert_eq!(dispatcher.listener_count(&Event::Opened), 0);
    assert_eq!(dispatcher.listener_count(&Event::Closed), 1);
}

#[test]
fn sync_listeners_come_before_closures() {
    let log = Arc::new(Mutex::new(Vec::new()));
    let listener = recorder(1, None, &log);
    let closure_log = Arc::clone(&log);
    let mut dispatcher: EventDispatcher<Event> = EventDispatcher::default();
    dispatcher.add_fn(Event::Opened, move |_event: &Event| {
        closure_log.lock().push(100);
        None
    });
    dispatcher.add_listener(Event::Opened, &listener);

    dispatcher.dispatch_event(&Event::Opened);

    assert_eq!(*log.lock(), [1, 100]);
}

#[test]
fn sync_stop_in_closures_spares_later_closures() {
    let log = Arc::new(Mutex::new(Vec::new()));
    let first_log = Arc::clone(&log);
    let second_log = Arc::clone(&log);
    let mut dispatcher: EventDispatcher<Event> = EventDispatcher::default();
    dispatcher.add_fn(Event::Opened, move |_event: &Event| {
        first_log.lock().push(1);
        Some(SyncDispatcherRequest::StopPropagation)
    });
    dispatcher.add_fn(Event::Opened, move |_event: &Event| {
        second_log.lock().push(2);
        None
    });

    dispatcher.dispatch_event(&Event::Opened);

    assert_eq!(*log.lock(), [1]);
    assert_eq!(dispatcher.fn_count(&Event::Opened), 2);
}
