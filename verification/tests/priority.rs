use hey_listen::Listener;
use hey_listen::PriorityEventDispatcher;
use hey_listen::SyncDispatcherRequest;
use parking_lot::Mutex;
use std::sync::Arc;

#[derive(Clone, Eq, Hash, PartialEq)]
enum Event {
    Opened,
    Closed,
}

struct Recorder {
    name: usize,
    answer: Option<SyncDispatcherRequest>,
    log: Arc<Mutex<Vec<usize>>>,
}

impl Listener<Event> for Recorder {
    fn on_event(&mut self, _event: &Event) -> Option<SyncDispatcherRequest> {
        self.log.lock().push(self.name);
        self.answer
    }
}

fn recorder(
    name: usize,
    answer: Option<SyncDispatcherRequest>,
    log: &Arc<Mutex<Vec<usize>>>,
) -> Arc<Mutex<Recorder>> {
    Arc::new(Mutex::new(Recorder {
        name,
        answer,
        log: Arc::clone(log),
    }))
}

#[test]
fn priority_default_dispatcher_is_empty() {
    let dispatcher: PriorityEventDispatcher<u32, Event> = PriorityEventDispatcher::default();

    assert_eq!(dispatcher.listener_count(&Event::Opened, &1), 0);
    assert_eq!(dispatcher.fn_count(&Event::Opened, &1), 0);
}

#[test]
fn priority_tiers_are_visited_in_ascending_order() {
    let log = Arc::new(Mutex::new(Vec::new()));
    let second = recorder(2, None, &log);
    let first = recorder(1, None, &log);
    let third = recorder(3, None, &log);
    let mut dispatcher: PriorityEventDispatcher<u32, Event> = PriorityEventDispatcher::default();
    dispatcher.add_listener(Event::Opened, &second, 2);
    dispatcher.add_listener(Event::Opened, &third, 3);
    dispatcher.add_listener(Event::Opened, &first, 1);

    dispatcher.dispatch_event(&Event::Opened);

    assert_eq!(*log.lock(), [1, 2, 3]);
    assert_eq!(dispatcher.listener_count(&Event::Opened, &1), 1);
    assert_eq!(dispatcher.listener_count(&Event::Opened, &2), 1);
    assert_eq!(dispatcher.listener_count(&Event::Opened, &3), 1);
}

#[test]
fn priority_stop_in_a_tier_spares_the_later_tiers() {
    let log = Arc::new(Mutex::new(Vec::new()));
    let stopping = recorder(1, Some(SyncDispatcherRequest::StopPropagation), &log);
    let spared = recorder(2, None, &log);
    let mut dispatcher: PriorityEventDispatcher<u32, Event> = PriorityEventDispatcher::default();
    dispatcher.add_listener(Event::Opened, &spared, 2);
    dispatcher.add_listener(Event::Opened, &stopping, 1);

    dispatcher.dispatch_event(&Event::Opened);

    assert_eq!(*log.lock(), [1]);
    assert_eq!(dispatcher.listener_count(&Event::Opened, &1), 1);
    assert_eq!(dispatcher.listener_count(&Event::Opened, &2), 1);
}

#[test]
fn priority_stop_in_listeners_spares_the_closures_of_the_tier() {
    let log = Arc::new(Mutex::new(Vec::new()));
    let stopping = recorder(1, Some(SyncDispatcherRequest::StopPropagation), &log);
    let closure_log = Arc::clone(&log);
    let mut dispatcher: PriorityEventDispatcher<u32, Event> = PriorityEventDispatcher::default();
    dispatcher.add_listener(Event::Opened, &stopping, 1);
    dispatcher.add_fn(
        Event::Opened,
        move |_event: &Event| {
            closure_log.lock().push(100);
            None
        },
        1,
    );

    dispatcher.dispatch_event(&Event::Opened);

    assert_eq!(*log.lock(), [1]);
    assert_eq!(dispatcher.fn_count(&Event::Opened, &1), 1);
}

#[test]
fn priority_stop_in_closures_spares_the_later_tiers() {
    let log = Arc::new(Mutex::new(Vec::new()));
    let early = recorder(1, None, &log);
    let late = recorder(2, None, &log);
    let closure_log = Arc::clone(&log);
    let mut dispatcher: PriorityEventDispatcher<u32, Event> = PriorityEventDispatcher::default();
    dispatcher.add_listener(Event::Opened, &early, 10);
    dispatcher.add_listener(Event::Opened, &late, 20);
    dispatcher.add_fn(
        Event::Opened,
        move |_event: &Event| {
            closure_log.lock().push(100);
            Some(SyncDispatcherRequest::StopListeningAndPropagation)
        },
        10,
    );

    dispatcher.dispatch_event(&Event::Opened);
    assert_eq!(*log.lock(), [1, 100]);
    assert_eq!(dispatcher.fn_count(&Event::Opened, &10), 0);

    dispatcher.dispatch_event(&Event::Opened);
    assert_eq!(*log.lock(), [1, 100, 1, 2]);
}

#[test]
fn priority_listeners_of_one_tier_keep_registration_order() {
    let log = Arc::new(Mutex::new(Vec::new()));
    let first = recorder(1, None, &log);
    let second = recorder(2, None, &log);
    let other = recorder(3, None, &log);
    let mut dispatcher: PriorityEventDispatcher<u32, Event> = PriorityEventDispatcher::default();
    dispatcher.add_listener(Event::Opened, &first, 5);
    dispatcher.add_listener(Event::Opened, &other, 1);
    dispatcher.add_listener(Event::Opened, &second, 5);

    dispatcher.dispatch_event(&Event::Opened);

    assert_eq!(*log.lock(), [3, 1, 2]);
    assert_eq!(dispatcher.listener_count(&Event::Opened, &5), 2);
    assert_eq!(dispatcher.listener_count(&Event::Opened, &1), 1);
}

#[test]
fn priority_stop_listening_removes_from_its_tier_only() {
    let log = Arc::new(Mutex::new(Vec::new()));
    let leaving = recorder(1, Some(SyncDispatcherRequest::StopListening), &log);
    let staying = recorder(2, None, &log);
    let mut dispatcher: PriorityEventDispatcher<u32, Event> = PriorityEventDispatcher::default();
    dispatcher.add_listener(Event::Opened, &leaving, 1);
    dispatcher.add_listener(Event::Opened, &staying, 2);

    dispatcher.dispatch_event(&Event::Opened);

    assert_eq!(*log.lock(), [1, 2]);
    assert_eq!(dispatcher.listener_count(&Event::Opened, &1), 0);
    assert_eq!(dispatcher.listener_count(&Event::Opened, &2), 1);

    dispatcher.dispatch_event(&Event::Opened);
    assert_eq!(*log.lock(), [1, 2, 2]);
}

#[test]
fn priority_dropped_listener_is_purged_from_its_tier() {
    let log = Arc::new(Mutex::new(Vec::new()));
    let dropped = recorder(1, None, &log);
    let alive = recorder(2, None, &log);
    let mut dispatcher: PriorityEventDispatcher<u32, Event> = PriorityEventDispatcher::default();
    dispatcher.add_listener(Event::Opened, &dropped, 1);
    dispatcher.add_listener(Event::Opened, &alive, 1);
    drop(dropped);

    dispatcher.dispatch_event(&Event::Opened);
    assert_eq!(*log.lock(), [2]);
    assert_eq!(dispatcher.listener_count(&Event::Opened, &1), 1);

    dispatcher.dispatch_event(&Event::Opened);
    assert_eq!(*log.lock(), [2, 2]);
}

#[test]
fn priority_stopped_tier_is_not_purged() {
    let log = Arc::new(Mutex::new(Vec::new()));
    let dropped = recorder(1, None, &log);
    let stopping = recorder(2, Some(SyncDispatcherRequest::StopPropagation), &log);
    let mut dispatcher: PriorityEventDispatcher<u32, Event> = PriorityEventDispatcher::default();
    dispatcher.add_listener(Event::Opened, &dropped, 1);
    dispatcher.add_listener(Event::Opened, &stopping, 1);
    drop(dropped);

    dispatcher.dispatch_event(&Event::Opened);

    assert_eq!(*log.lock(), [2]);
    assert_eq!(dispatcher.listener_count(&Event::Opened, &1), 2);
}

#[test]
fn priority_dispatch_to_unknown_event_does_nothing() {
    let log = Arc::new(Mutex::new(Vec::new()));
    let listener = recorder(1, None, &log);
    let mut dispatcher: PriorityEventDispatcher<u32, Event> = PriorityEventDispatcher::default();
    dispatcher.add_listener(Event::Opened, &listener, 1);

    dispatcher.dispatch_event(&Event::Closed);

    assert!(log.lock().is_empty());
    assert_eq!(dispatcher.listener_count(&Event::Opened, &1), 1);
}

#[test]
fn priority_empty_tier_is_passed_over() {
    let log = Arc::new(Mutex::new(Vec::new()));
    let leaving = recorder(1, Some(SyncDispatcherRequest::StopListening), &log);
    let later = recorder(2, None, &log);
    let mut dispatcher: PriorityEventDispatcher<u32, Event> = PriorityEventDispatcher::default();
    dispatcher.add_listener(Event::Opened, &leaving, 1);
    dispatcher.add_listener(Event::Opened, &later, 2);
    dispatcher.dispatch_event(&Event::Opened);
    assert_eq!(dispatcher.listener_count(&Event::Opened, &1), 0);

    dispatcher.dispatch_event(&Event::Opened);

    assert_eq!(*log.lock(), [1, 2, 2]);
}

#[test]
fn priority_keys_of_another_order_are_honoured() {
    let log = Arc::new(Mutex::new(Vec::new()));
    let low = recorder(1, None, &log);
    let high = recorder(2, None, &log);
    let mut dispatcher: PriorityEventDispatcher<i64, Event> = PriorityEventDispatcher::default();
    dispatcher.add_listener(Event::Opened, &high, 4);
    dispatcher.add_listener(Event::Opened, &low, -4);

    dispatcher.dispatch_event(&Event::Opened);

    assert_eq!(*log.lock(), [1, 2]);
}

#[test]
fn priority_closures_of_one_tier_keep_registration_order() {
    let log = Arc::new(Mutex::new(Vec::new()));
    let first_log = Arc::clone(&log);
    let second_log = Arc::clone(&log);
    let early_log = Arc::clone(&log);
    let mut dispatcher: PriorityEventDispatcher<u32, Event> = PriorityEventDispatcher::default();
    dispatcher.add_fn(
        Event::Closed,
        move |_event: &Event| {
            first_log.lock().push(1);
            None
        },
        2,
    );
    dispatcher.add_fn(
        Event::Closed,
        move |_event: &Event| {
            second_log.lock().push(2);
            None
        },
        2,
    );
    let boxed: Box<dyn Fn(&Event) -> Option<SyncDispatcherRequest> + Send + Sync> =
        Box::new(move |_event: &Event| {
            early_log.lock().push(0);
            None
        });
    dispatcher.add_fn(Event::Closed, boxed, 1);
    assert_eq!(dispatcher.fn_count(&Event::Closed, &2), 2);
    assert_eq!(dispatcher.fn_count(&Event::Closed, &1), 1);

    dispatcher.dispatch_event(&Event::Closed);

    assert_eq!(*log.lock(), [0, 1, 2]);
}

#[test]
fn priority_listeners_of_a_tier_come_before_its_closures() {
    let log = Arc::new(Mutex::new(Vec::new()));
    let listener = recorder(1, None, &log);
    let closure_log = Arc::clone(&log);
    let mut dispatcher: PriorityEventDispatcher<u32, Event> = PriorityEventDispatcher::default();
    dispatcher.add_fn(
        Event::Opened,
        move |_event: &Event| {
            closure_log.lock().push(100);
            None
        },
        1,
    );
    dispatcher.add_listener(Event::Opened, &listener, 1);

    dispatcher.dispatch_event(&Event::Opened);

    assert_eq!(*log.lock(), [1, 100]);
}
