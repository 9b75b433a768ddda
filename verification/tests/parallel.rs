use hey_listen::parallel::closure_leaves;
use hey_listen::parallel::listener_leaves;
use hey_listen::parallel::remove_flagged;
use hey_listen::subscriber::Delivery;
use hey_listen::BuildError;
use hey_listen::ParallelDispatcherRequest;
use hey_listen::ParallelEventDispatcher;
use hey_listen::ParallelListener;
use parking_lot::Mutex;
use std::sync::Arc;

#[derive(Clone, Eq, Hash, PartialEq)]
enum Event {
    Opened,
    Closed,
}

struct Counter {
    calls: usize,
    answer: Option<ParallelDispatcherRequest>,
}

impl ParallelListener<Event> for Counter {
    fn on_event(&mut self, _event: &Event) -> Option<ParallelDispatcherRequest> {
        self.calls += 1;
        self.answer
    }
}

fn counter(answer: Option<ParallelDispatcherRequest>) -> Arc<Mutex<Counter>> {
    Arc::new(Mutex::new(Counter { calls: 0, answer }))
}

#[test]
fn parallel_default_dispatcher_is_empty_and_has_no_pool() {
    let dispatcher: ParallelEventDispatcher<Event> = ParallelEventDispatcher::default();

    assert_eq!(dispatcher.listener_count(&Event::Opened), 0);
    assert_eq!(dispatcher.fn_count(&Event::Opened), 0);
    assert!(!dispatcher.has_thread_pool());
}

#[test]
fn parallel_every_listener_is_called_once() {
    let listeners: Vec<Arc<Mutex<Counter>>> = (0..16).map(|_| counter(None)).collect();
    let mut dispatcher: ParallelEventDispatcher<Event> = ParallelEventDispatcher::default();
    for listener in &listeners {
        dispatcher.add_listener(Event::Opened, listener);
    }

    dispatcher.dispatch_event(&Event::Opened);

    for listener in &listeners {
        assert_eq!(listener.lock().calls, 1);
    }
    assert_eq!(dispatcher.listener_count(&Event::Opened), 16);
}

#[test]
fn parallel_stop_listening_removes_the_listener_without_a_pool() {
    let leaving = counter(Some(ParallelDispatcherRequest::StopListening));
    let staying = counter(None);
    let mut dispatcher: ParallelEventDispatcher<Event> = ParallelEventDispatcher::default();
    dispatcher.add_listener(Event::Opened, &leaving);
    dispatcher.add_listener(Event::Opened, &staying);

    dispatcher.dispatch_event(&Event::Opened);
    assert_eq!(dispatcher.listener_count(&Event::Opened), 1);

    dispatcher.dispatch_event(&Event::Opened);
    assert_eq!(leaving.lock().calls, 1);
    assert_eq!(staying.lock().calls, 2);
}

#[test]
fn parallel_stop_listening_removes_the_listener_inside_a_pool() {
    let leaving = counter(Some(ParallelDispatcherRequest::StopListening));
    let staying = counter(None);
    let mut dispatcher: ParallelEventDispatcher<Event> = ParallelEventDispatcher::default();
    assert!(dispatcher.num_threads(2).is_ok());
    assert!(dispatcher.has_thread_pool());
    dispatcher.add_listener(Event::Opened, &leaving);
    dispatcher.add_listener(Event::Opened, &staying);

    dispatcher.dispatch_event(&Event::Opened);
    assert_eq!(dispatcher.listener_count(&Event::Opened), 1);

    dispatcher.dispatch_event(&Event::Opened);
    assert_eq!(leaving.lock().calls, 1);
    assert_eq!(staying.lock().calls, 2);
}

#[test]
fn parallel_all_listeners_leaving_empty_the_collection() {
    let listeners: Vec<Arc<Mutex<Counter>>> = (0..25)
        .map(|_| counter(Some(ParallelDispatcherRequest::StopListening)))
        .collect();
    let mut dispatcher: ParallelEventDispatcher<Event> = ParallelEventDispatcher::default();
    for listener in &listeners {
        dispatcher.add_listener(Event::Opened, listener);
    }

    dispatcher.dispatch_event(&Event::Opened);

    assert_eq!(dispatcher.listener_count(&Event::Opened), 0);
    for listener in &listeners {
        assert_eq!(listener.lock().calls, 1);
    }
}

#[test]
fn parallel_all_listeners_leaving_inside_a_pool_empty_the_collection() {
    let listeners: Vec<Arc<Mutex<Counter>>> = (0..25)
        .map(|_| counter(Some(ParallelDispatcherRequest::StopListening)))
        .collect();
    let mut dispatcher: ParallelEventDispatcher<Event> = ParallelEventDispatcher::default();
    assert!(dispatcher.num_threads(3).is_ok());
    for listener in &listeners {
        dispatcher.add_listener(Event::Opened, listener);
    }

    dispatcher.dispatch_event(&Event::Opened);

    assert_eq!(dispatcher.listener_count(&Event::Opened), 0);
}

#[test]
fn parallel_only_the_listeners_that_ask_are_removed() {
    let listeners: Vec<Arc<Mutex<Counter>>> = (0..20)
        .map(|number| {
            if number % 3 == 0 {
                counter(Some(ParallelDispatcherRequest::StopListening))
            } else {
                counter(None)
            }
        })
        .collect();
    let mut dispatcher: ParallelEventDispatcher<Event> = ParallelEventDispatcher::default();
    for listener in &listeners {
        dispatcher.add_listener(Event::Opened, listener);
    }

    dispatcher.dispatch_event(&Event::Opened);
    assert_eq!(dispatcher.listener_count(&Event::Opened), 13);

    dispatcher.dispatch_event(&Event::Opened);
    for (number, listener) in listeners.iter().enumerate() {
        let expected = if number % 3 == 0 { 1 } else { 2 };
        assert_eq!(listener.lock().calls, expected);
    }
}

#[test]
fn parallel_dropped_listener_is_removed() {
    let dropped = counter(None);
    let alive = counter(None);
    let mut dispatcher: ParallelEventDispatcher<Event> = ParallelEventDispatcher::default();
    dispatcher.add_listener(Event::Opened, &dropped);
    dispatcher.add_listener(Event::Opened, &alive);
    drop(dropped);

    dispatcher.dispatch_event(&Event::Opened);

    assert_eq!(dispatcher.listener_count(&Event::Opened), 1);
    assert_eq!(alive.lock().calls, 1);
}

#[test]
fn parallel_closures_are_called_and_can_leave() {
    let calls = Arc::new(Mutex::new(0usize));
    let staying_calls = Arc::clone(&calls);
    let leaving_calls = Arc::clone(&calls);
    let mut dispatcher: ParallelEventDispatcher<Event> = ParallelEventDispatcher::default();
    dispatcher.add_fn(Event::Closed, move |_event: &Event| {
        *staying_calls.lock() += 1;
        None
    });
    dispatcher.add_fn(Event::Closed, move |_event: &Event| {
        *leaving_calls.lock() += 10;
        Some(ParallelDispatcherRequest::StopListening)
    });
    assert_eq!(dispatcher.fn_count(&Event::Closed), 2);

    dispatcher.dispatch_event(&Event::Closed);
    assert_eq!(*calls.lock(), 11);
    assert_eq!(dispatcher.fn_count(&Event::Closed), 1);

    dispatcher.dispatch_event(&Event::Closed);
    assert_eq!(*calls.lock(), 12);
}

#[test]
fn parallel_dispatch_to_unknown_event_does_nothing() {
    let listener = counter(Some(ParallelDispatcherRequest::StopListening));
    let mut dispatcher: ParallelEventDispatcher<Event> = ParallelEventDispatcher::default();
    dispatcher.add_listener(Event::Opened, &listener);

    dispatcher.dispatch_event(&Event::Closed);

    assert_eq!(listener.lock().calls, 0);
    assert_eq!(dispatcher.listener_count(&Event::Opened), 1);
}

#[test]
fn parallel_new_pool_replaces_the_old_one_and_keeps_registrations() {
    let listener = counter(None);
    let mut dispatcher: ParallelEventDispatcher<Event> = ParallelEventDispatcher::default();
    dispatcher.add_listener(Event::Opened, &listener);
    assert!(dispatcher.num_threads(1).is_ok());
    assert!(dispatcher.num_threads(2).is_ok());

    dispatcher.dispatch_event(&Event::Opened);

    assert!(dispatcher.has_thread_pool());
    assert_eq!(dispatcher.listener_count(&Event::Opened), 1);
    assert_eq!(listener.lock().calls, 1);
}

#[test]
fn build_error_carries_the_description() {
    let error = BuildError::NumThreads(String::from("no threads"));

    match error {
        BuildError::NumThreads(description) => assert_eq!(description, "no threads"),
    }
}

#[test]
fn remove_flagged_removes_from_the_back_with_swaps() {
    let mut vec = vec!['a', 'b', 'c', 'd'];
    remove_flagged(&mut vec, &vec![true, false, true, false]);

    assert_eq!(vec, ['d', 'b']);
}

#[test]
fn remove_flagged_without_flags_keeps_everything() {
    let mut vec = vec![1, 2, 3];
    remove_flagged(&mut vec, &vec![false, false, false]);

    assert_eq!(vec, [1, 2, 3]);
}

#[test]
fn remove_flagged_with_all_flags_leaves_nothing() {
    let mut vec = vec![1, 2, 3, 4, 5];
    remove_flagged(&mut vec, &vec![true, true, true, true, true]);

    assert!(vec.is_empty());
}

#[test]
fn remove_flagged_removes_the_flagged_positions_only() {
    let mut vec = vec![10, 20, 30, 40, 50, 60];
    remove_flagged(&mut vec, &vec![false, true, true, false, false, true]);

    let mut left = vec.clone();
    left.sort();
    assert_eq!(left, [10, 40, 50]);
}

#[test]
fn listener_leaves_when_gone_or_asking() {
    assert!(listener_leaves(Delivery::Gone));
    assert!(listener_leaves(Delivery::Answered(Some(
        ParallelDispatcherRequest::StopListening
    ))));
    assert!(!listener_leaves(Delivery::Answered(None)));
}

#[test]
fn closure_leaves_when_asking() {
    assert!(closure_leaves(Some(ParallelDispatcherRequest::StopListening)));
    assert!(!closure_leaves(None));
}

#[test]
fn set_thread_pool_takes_a_built_pool() {
    let mut dispatcher: ParallelEventDispatcher<Event> = ParallelEventDispatcher::default();
    let built = rayon::ThreadPoolBuilder::new().num_threads(1).build();
    assert!(built.is_ok());

    let result = dispatcher.set_thread_pool(built);

    assert!(result.is_ok());
    assert!(dispatcher.has_thread_pool());
}

#[test]
fn set_thread_pool_reports_a_failed_build_and_keeps_the_dispatcher() {
    let listener = counter(None);
    let mut dispatcher: ParallelEventDispatcher<Event> = ParallelEventDispatcher::default();
    dispatcher.add_listener(Event::Opened, &listener);
    let _ = rayon::ThreadPoolBuilder::new().num_threads(1).build_global();
    let failed = rayon::ThreadPoolBuilder::new().num_threads(1).build_global();
    let error = match failed {
        Err(error) => error,
        Ok(()) => panic!("the global pool was built twice"),
    };

    let result = dispatcher.set_thread_pool(Err(error));

    match result {
        Err(BuildError::NumThreads(description)) => assert_eq!(
            description,
            "The global thread pool has already been initialized."
        ),
        Ok(()) => panic!("a failed build was taken for a pool"),
    }
    assert!(!dispatcher.has_thread_pool());
    assert_eq!(dispatcher.listener_count(&Event::Opened), 1);
}

#[test]
fn set_thread_pool_keeps_the_old_pool_when_a_build_failed() {
    let mut dispatcher: ParallelEventDispatcher<Event> = ParallelEventDispatcher::default();
    assert!(dispatcher.num_threads(1).is_ok());
    let _ = rayon::ThreadPoolBuilder::new().num_threads(1).build_global();
    let failed = rayon::ThreadPoolBuilder::new().num_threads(1).build_global();
    let error = match failed {
        Err(error) => error,
        Ok(()) => panic!("the global pool was built twice"),
    };

    let result = dispatcher.set_thread_pool(Err(error));

    assert!(result.is_err());
    assert!(dispatcher.has_thread_pool());
}

#[test]
fn parallel_boxed_closure_is_accepted() {
    let calls = Arc::new(Mutex::new(0usize));
    let closure_calls = Arc::clone(&calls);
    let boxed: Box<dyn Fn(&Event) -> Option<ParallelDispatcherRequest> + Send + Sync> =
        Box::new(move |_event: &Event| {
            *closure_calls.lock() += 1;
            None
        });
    let mut dispatcher: ParallelEventDispatcher<Event> = ParallelEventDispatcher::default();
    dispatcher.add_fn(Event::Opened, boxed);

    dispatcher.dispatch_event(&Event::Opened);

    assert_eq!(*calls.lock(), 1);
    assert_eq!(dispatcher.fn_count(&Event::Opened), 1);
}

#[test]
fn parallel_listener_registered_twice_is_called_twice() {
    let listener = counter(None);
    let mut dispatcher: ParallelEventDispatcher<Event> = ParallelEventDispatcher::default();
    dispatcher.add_listener(Event::Opened, &listener);
    dispatcher.add_listener(Event::Opened, &listener);

    dispatcher.dispatch_event(&Event::Opened);

    assert_eq!(listener.lock().calls, 2);
    assert_eq!(dispatcher.listener_count(&Event::Opened), 2);
}
