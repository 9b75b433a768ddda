use hey_listen::execute_sync_dispatcher_requests;
use hey_listen::protocol::apply_request;
use hey_listen::ExecuteRequestsResult;
use hey_listen::SyncDispatcherRequest;

fn map_usize_to_request(x: &usize) -> Option<SyncDispatcherRequest> {
    match *x {
        0 => Some(SyncDispatcherRequest::StopListening),
        1 => Some(SyncDispatcherRequest::StopPropagation),
        2 => Some(SyncDispatcherRequest::StopListeningAndPropagation),
        _ => None,
    }
}

#[test]
fn stop_listening() {
    let mut vec = vec![0, 0, 0, 1, 1, 1, 1];
    execute_sync_dispatcher_requests(&mut vec, map_usize_to_request);

    assert_eq!(vec, [1, 0, 0, 1, 1, 1]);
}

#[test]
fn empty_vec() {
    let mut vec = Vec::new();
    execute_sync_dispatcher_requests(&mut vec, map_usize_to_request);

    assert!(vec.is_empty());
}

#[test]
fn removing_all() {
    let mut vec = vec![0, 0, 0, 0, 0, 0, 0];
    execute_sync_dispatcher_requests(&mut vec, map_usize_to_request);

    assert!(vec.is_empty());
}

#[test]
fn remove_one_element_and_stop() {
    let mut vec = vec![2, 0];
    execute_sync_dispatcher_requests(&mut vec, map_usize_to_request);

    assert_eq!(vec, [0]);
}

#[test]
fn stop_listening_then_propagation_is_stopped() {
    let mut vec = vec![0, 0, 0, 1, 1, 1, 1];
    let result = execute_sync_dispatcher_requests(&mut vec, map_usize_to_request);

    assert_eq!(result, ExecuteRequestsResult::Stopped);
    assert_eq!(vec, [1, 0, 0, 1, 1, 1]);
}

#[test]
fn remove_one_element_and_stop_is_stopped() {
    let mut vec = vec![2, 0];
    let result = execute_sync_dispatcher_requests(&mut vec, map_usize_to_request);

    assert_eq!(result, ExecuteRequestsResult::Stopped);
    assert_eq!(vec, [0]);
}

#[test]
fn empty_vec_is_finished() {
    let mut vec: Vec<usize> = Vec::new();
    let result = execute_sync_dispatcher_requests(&mut vec, map_usize_to_request);

    assert_eq!(result, ExecuteRequestsResult::Finished);
    assert!(vec.is_empty());
}

#[test]
fn removing_all_is_finished() {
    let mut vec = vec![0, 0, 0, 0, 0, 0, 0];
    let result = execute_sync_dispatcher_requests(&mut vec, map_usize_to_request);

    assert_eq!(result, ExecuteRequestsResult::Finished);
    assert!(vec.is_empty());
}

#[test]
fn no_request_keeps_everything_in_order() {
    let mut vec = vec![5, 6, 7, 8];
    let result = execute_sync_dispatcher_requests(&mut vec, map_usize_to_request);

    assert_eq!(result, ExecuteRequestsResult::Finished);
    assert_eq!(vec, [5, 6, 7, 8]);
}

#[test]
fn stop_propagation_keeps_the_element_that_stops() {
    let mut vec = vec![7, 1, 0];
    let result = execute_sync_dispatcher_requests(&mut vec, map_usize_to_request);

    assert_eq!(result, ExecuteRequestsResult::Stopped);
    assert_eq!(vec, [7, 1, 0]);
}

#[test]
fn removal_breaks_the_order_of_the_rest() {
    let mut vec = vec![0, 5, 6, 7];
    let result = execute_sync_dispatcher_requests(&mut vec, map_usize_to_request);

    assert_eq!(result, ExecuteRequestsResult::Finished);
    assert_eq!(vec, [7, 5, 6]);
}

#[test]
fn swapped_in_element_is_visited_in_the_freed_slot() {
    let mut visited = Vec::new();
    let mut vec = vec![0, 5, 0, 9];
    let result = execute_sync_dispatcher_requests(&mut vec, |x: &usize| {
        visited.push(*x);
        map_usize_to_request(x)
    });

    assert_eq!(result, ExecuteRequestsResult::Finished);
    assert_eq!(visited, [0, 9, 5, 0]);
    assert_eq!(vec, [9, 5]);
}

#[test]
fn elements_behind_a_stop_are_not_visited() {
    let mut visited = Vec::new();
    let mut vec = vec![3, 1, 4, 0];
    let result = execute_sync_dispatcher_requests(&mut vec, |x: &usize| {
        visited.push(*x);
        map_usize_to_request(x)
    });

    assert_eq!(result, ExecuteRequestsResult::Stopped);
    assert_eq!(visited, [3, 1]);
    assert_eq!(vec, [3, 1, 4, 0]);
}

#[test]
fn a_callback_with_state_is_called_once_per_visit() {
    let mut calls = 0;
    let mut vec = vec![10, 11, 12, 13, 14];
    let result = execute_sync_dispatcher_requests(&mut vec, |_x: &usize| {
        calls += 1;
        if calls % 2 == 0 {
            Some(SyncDispatcherRequest::StopListening)
        } else {
            None
        }
    });

    assert_eq!(result, ExecuteRequestsResult::Finished);
    assert_eq!(calls, 5);
    assert_eq!(vec, [10, 14, 13]);
}

#[test]
fn apply_request_without_a_request_moves_on() {
    let mut vec = vec![1, 2, 3];
    let next = apply_request(&mut vec, 1, None);

    assert_eq!(next, Some(2));
    assert_eq!(vec, [1, 2, 3]);
}

#[test]
fn apply_request_stop_listening_removes_and_stays() {
    let mut vec = vec![1, 2, 3];
    let next = apply_request(&mut vec, 0, Some(SyncDispatcherRequest::StopListening));

    assert_eq!(next, Some(0));
    assert_eq!(vec, [3, 2]);
}

#[test]
fn apply_request_stop_propagation_keeps_and_stops() {
    let mut vec = vec![1, 2, 3];
    let next = apply_request(&mut vec, 2, Some(SyncDispatcherRequest::StopPropagation));

    assert_eq!(next, None);
    assert_eq!(vec, [1, 2, 3]);
}

#[test]
fn apply_request_stop_both_removes_and_stops() {
    let mut vec = vec![1, 2, 3];
    let next = apply_request(
        &mut vec,
        2,
        Some(SyncDispatcherRequest::StopListeningAndPropagation),
    );

    assert_eq!(next, None);
    assert_eq!(vec, [1, 2]);
}

#[test]
fn element_swapped_in_before_a_stop_is_never_visited() {
    let mut visited = Vec::new();
    let mut vec = vec![2, 0];
    let result = execute_sync_dispatcher_requests(&mut vec, |x: &usize| {
        visited.push(*x);
        map_usize_to_request(x)
    });

    assert_eq!(result, ExecuteRequestsResult::Stopped);
    assert_eq!(visited, [2]);
    assert_eq!(vec, [0]);
}

#[test]
fn elements_that_ask_for_nothing_all_stay() {
    let mut vec = vec![9, 0, 8, 0, 7, 0];
    let result = execute_sync_dispatcher_requests(&mut vec, map_usize_to_request);

    assert_eq!(result, ExecuteRequestsResult::Finished);
    let mut left = vec.clone();
    left.sort();
    assert_eq!(left, [7, 8, 9]);
}
