//! The request vocabularies by which a subscriber steers a dispatch.

use vstd::prelude::*;

verus! {

/// What a subscriber of a synchronous dispatcher may ask for when it answers
/// an event.
///
/// `StopListening` removes the subscriber from the dispatcher,
/// `StopPropagation` makes it the last receiver of the current event, and
/// `StopListeningAndPropagation` does the first and then the second.
#[derive(Debug, Clone, Copy, PartialEq, Eq, Structural)]
pub enum SyncDispatcherRequest {
    StopListening,
    StopPropagation,
    StopListeningAndPropagation,
}

/// What a subscriber of a parallel dispatcher may ask for when it answers an
/// event. Deliveries run side by side, so nothing is left to stop: a
/// subscriber can only have itself removed.
#[derive(Debug, Clone, Copy, PartialEq, Eq, Structural)]
pub enum ParallelDispatcherRequest {
    StopListening,
}

/// How a pass over one sequence of subscribers ended: it reached the end of
/// the sequence, or a subscriber stopped it early.
#[derive(Debug, Clone, Copy, PartialEq, Eq, Structural)]
pub enum ExecuteRequestsResult {
    Finished,
    Stopped,
}

/// Whether an answer asks for the removal of the subscriber that gave it.
pub open spec fn removes(answer: Option<SyncDispatcherRequest>) -> bool {
    match answer {
        Some(SyncDispatcherRequest::StopListening) => true,
        Some(SyncDispatcherRequest::StopListeningAndPropagation) => true,
        _ => false,
    }
}

/// Whether an answer ends the pass in which it was given.
pub open spec fn stops(answer: Option<SyncDispatcherRequest>) -> bool {
    match answer {
        Some(SyncDispatcherRequest::StopPropagation) => true,
        Some(SyncDispatcherRequest::StopListeningAndPropagation) => true,
        _ => false,
    }
}

} // verus!
