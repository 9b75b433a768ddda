use hey_listen::collection::keep_flagged;
use hey_listen::collection::note_delivery;
use hey_listen::subscriber::Delivery;
use hey_listen::SyncDispatcherRequest;

#[test]
fn delivery_to_a_gone_listener_counts_as_no_request() {
    let (answer, gone) = note_delivery(Delivery::Gone);

    assert_eq!(answer, None);
    assert!(gone);
}

#[test]
fn delivery_to_a_listener_passes_its_answer_on() {
    let (answer, gone) = note_delivery(Delivery::Answered(Some(
        SyncDispatcherRequest::StopPropagation,
    )));

    assert_eq!(answer, Some(SyncDispatcherRequest::StopPropagation));
    assert!(!gone);

    let (answer, gone) = note_delivery(Delivery::Answered(None));
    assert_eq!(answer, None);
    assert!(!gone);
}

#[test]
fn keep_flagged_keeps_the_flagged_in_their_order() {
    let mut vec = vec!['a', 'b', 'c', 'd', 'e'];
    keep_flagged(&mut vec, &vec![true, false, true, true, false]);

    assert_eq!(vec, ['a', 'c', 'd']);
}

#[test]
fn keep_flagged_with_every_flag_set_keeps_everything() {
    let mut vec = vec![1, 2, 3];
    keep_flagged(&mut vec, &vec![true, true, true]);

    assert_eq!(vec, [1, 2, 3]);
}

#[test]
fn keep_flagged_without_a_flag_set_keeps_nothing() {
    let mut vec = vec![1, 2, 3];
    keep_flagged(&mut vec, &vec![false, false, false]);

    assert!(vec.is_empty());
}

#[test]
fn keep_flagged_of_nothing_is_nothing() {
    let mut vec: Vec<u8> = Vec::new();
    keep_flagged(&mut vec, &Vec::new());

    assert!(vec.is_empty());
}
