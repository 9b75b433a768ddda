//! Subscribers: listeners that the application owns and the dispatcher only
//! refers to, and closures that the dispatcher owns.
//!
//! A dispatcher never keeps a listener alive. It holds a weak handle, and each
//! delivery first has to find the listener still there. What a listener or a
//! closure answers is its own business: the dispatchers are verified for every
//! answer.

use vstd::prelude::*;
use std::hash::Hash;
use std::sync::Arc;
use std::sync::Weak;
use parking_lot::Mutex;
use crate::request::ParallelDispatcherRequest;
use crate::request::SyncDispatcherRequest;

verus! {

/// A receiver of the events `T` of a synchronous dispatcher.
pub trait Listener<T> where T: PartialEq + Eq + Hash + Clone + Send + Sync + 'static {
    /// Called once for each dispatched event that the listener is registered
    /// for. The returned request, if any, is carried out by the dispatcher.
    fn on_event(&mut self, event: &T) -> Option<SyncDispatcherRequest>;
}

/// A receiver of the events `T` of a parallel dispatcher. It may be called
/// from any worker thread.
pub trait ParallelListener<T> where T: PartialEq + Eq + Hash + Clone + Send + Sync + 'static {
    /// Called once for each dispatched event that the listener is registered
    /// for. The returned request, if any, is carried out by the dispatcher.
    fn on_event(&mut self, event: &T) -> Option<ParallelDispatcherRequest>;
}

/// What the dispatchers ask of a listener of either kind: to answer an event
/// with a request `R` of its dispatcher's vocabulary, or with none.
pub trait Responder<T, R> {
    /// Hands `event` to the listener and returns its answer.
    fn respond(&mut self, event: &T) -> Option<R>;
}

impl<T, D> Responder<T, SyncDispatcherRequest> for D where
    T: PartialEq + Eq + Hash + Clone + Send + Sync + 'static,
    D: Listener<T>,
 {
    /// Calls `Listener::on_event` with `event`, once: the answer is the one
    /// that `on_event` gave to this event, and the listener is as `on_event`
    /// left it.
    fn respond(&mut self, event: &T) -> (answer: Option<SyncDispatcherRequest>)
        ensures
            exists|listener: &mut D|
                {
                    &&& mut_ref_current(listener) == *old(self)
                    &&& mut_ref_future(listener) == *final(self)
                    &&& #[trigger] call_ensures(D::on_event, (listener, event), answer)
                },
    {
        self.on_event(event)
    }
}

impl<T, D> Responder<T, ParallelDispatcherRequest> for D where
    T: PartialEq + Eq + Hash + Clone + Send + Sync + 'static,
    D: ParallelListener<T>,
 {
    /// Calls `ParallelListener::on_event` with `event`, once: the answer is
    /// the one that `on_event` gave to this event, and the listener is as
    /// `on_event` left it.
    fn respond(&mut self, event: &T) -> (answer: Option<ParallelDispatcherRequest>)
        ensures
            exists|listener: &mut D|
                {
                    &&& mut_ref_current(listener) == *old(self)
                    &&& mut_ref_future(listener) == *final(self)
                    &&& #[trigger] call_ensures(D::on_event, (listener, event), answer)
                },
    {
        self.on_event(event)
    }
}

/// The lock of `parking_lot` that guards a shared listener. Nothing is known
/// of what it holds.
#[verifier::external_type_specification]
#[verifier::external_body]
#[verifier::reject_recursive_types(T)]
pub struct ExMutex<T: ?Sized>(Mutex<T>);

/// What came of handing an event to a weakly held listener.
pub enum Delivery<R> {
    /// The listener was there; it was called and gave this answer.
    Answered(Option<R>),
    /// The listener was dropped by its owners; nothing was called.
    Gone,
}

/// A weak handle to a listener that answers events `T` with requests `R`.
///
/// Holds a `std::sync::Weak` to the locked listener. Its content is hidden
/// from Verus, which sees one opaque value for each handle.
#[verifier::external_body]
#[verifier::reject_recursive_types(T)]
#[verifier::reject_recursive_types(R)]
pub struct WeakListener<T: 'static, R: 'static> {
    handle: Weak<Mutex<dyn Responder<T, R> + Send + Sync + 'static>>,
}

/// A listener that was found alive, and is kept alive for as long as this
/// value is held.
///
/// Holds a `std::sync::Arc` to the locked listener. Its content is hidden
/// from Verus, which sees one opaque value for each listener.
#[verifier::external_body]
#[verifier::reject_recursive_types(T)]
#[verifier::reject_recursive_types(R)]
pub struct StrongListener<T: 'static, R: 'static> {
    handle: Arc<Mutex<dyn Responder<T, R> + Send + Sync + 'static>>,
}

impl<T: 'static, R: 'static> WeakListener<T, R> {
    /// The handle is one to a listener of the type `D`: whatever answer a
    /// delivery through it carries is one that `D`'s `respond` gave to the
    /// event.
    pub open spec fn listens_as<D: Responder<T, R>>(&self) -> bool {
        forall|event: &T, answer: Option<R>| #[trigger]
            self.delivers(event, Delivery::Answered(answer)) ==> exists|target: &mut D| #[trigger]
                call_ensures(D::respond, (target, event), answer)
    }

    /// Calls `Arc::clone` and `Arc::downgrade` on the shared listener. The
    /// handle does not keep the listener alive. It is a handle to the listener
    /// given, which is a `D`: a delivery through it finds this listener or
    /// none, and the answer that it carries is one that the listener's
    /// `respond` gave.
    #[verifier::external_body]
    pub(crate) fn downgrade<D: Responder<T, R> + Send + Sync + 'static>(
        listener: &Arc<Mutex<D>>,
    ) -> (handle: Self)
        ensures
            handle.listens_as::<D>(),
    {
        let shared: Arc<Mutex<dyn Responder<T, R> + Send + Sync + 'static>> = listener.clone();
        WeakListener { handle: Arc::downgrade(&shared) }
    }

    /// Calls `Weak::upgrade`: the listener, if it still has an owner at this
    /// moment. That can change at any time, so nothing is claimed of the
    /// result.
    #[verifier::external_body]
    pub(crate) fn upgrade(&self) -> Option<StrongListener<T, R>> {
        self.handle.upgrade().map(|handle| StrongListener { handle })
    }

    /// A search for the listener of this handle, made by `upgrade`, can come
    /// to `found`. Two searches need not come to the same.
    pub closed spec fn finds(&self, found: Option<StrongListener<T, R>>) -> bool {
        call_ensures(Self::upgrade, (self,), found)
    }

    /// Handing `event` to the listener of this handle can come to
    /// `delivery`: a search for the listener found nothing and the delivery
    /// is `Gone`, or it found the listener and the delivery carries an answer
    /// that the listener gave to `event`.
    pub closed spec fn delivers(&self, event: &T, delivery: Delivery<R>) -> bool {
        exists|found: Option<StrongListener<T, R>>|
            #[trigger] self.finds(found) && match found {
                Some(listener) => delivery matches Delivery::Answered(answer) && listener.answers(
                    event,
                    answer,
                ),
                None => delivery is Gone,
            }
    }

    /// A search for the listener of this handle can tell `alive`: it found
    /// the listener where `alive` holds, and nothing where it does not.
    pub closed spec fn found_alive(&self, alive: bool) -> bool {
        exists|found: Option<StrongListener<T, R>>|
            #[trigger] self.finds(found) && (alive <==> found is Some)
    }

    /// Hands `event` to the listener if it is still there: searches for the
    /// listener of this handle once, and where the search finds it, notifies
    /// it of `event` once. The delivery is `Gone` where the search found
    /// nothing, and else carries the answer that the listener found gave to
    /// `event`.
    pub(crate) fn deliver(&self, event: &T) -> (delivery: Delivery<R>)
        ensures
            self.delivers(event, delivery),
    {
        let found = self.upgrade();
        proof {
            assert(self.finds(found));
        }
        match found {
            Some(listener) => {
                let answer = listener.notify(event);
                proof {
                    assert(listener.answers(event, answer));
                }
                Delivery::Answered(answer)
            },
            None => Delivery::Gone,
        }
    }

    /// Whether the listener is still there: searches for the listener of
    /// this handle once, and tells whether the search found it.
    pub(crate) fn is_alive(&self) -> (alive: bool)
        ensures
            self.found_alive(alive),
    {
        let found = self.upgrade();
        proof {
            assert(self.finds(found));
        }
        found.is_some()
    }
}

impl<T: 'static, R: 'static> StrongListener<T, R> {
    /// The listener, notified of `event` by `notify`, can give `answer`. Two
    /// notifications need not get the same answer.
    pub closed spec fn answers(&self, event: &T, answer: Option<R>) -> bool {
        call_ensures(Self::notify, (self, event), answer)
    }

    /// Takes the listener's lock with `Mutex::lock` and calls
    /// `Responder::respond`, which is the listener's `on_event`, with
    /// `event`. The lock is held for the time of the call, and the call waits
    /// for as long as someone else holds the lock. The answer is the
    /// listener's own, so nothing is claimed of it.
    #[verifier::external_body]
    pub(crate) fn notify(&self, event: &T) -> Option<R> {
        self.handle.lock().respond(event)
    }
}

/// A closure that a dispatcher owns, registered for events `T` and answering
/// with requests `R`.
///
/// Holds the closure in a `Box`, as a `dyn Fn` that is `Send` and `Sync`. Its
/// content is hidden from Verus, which sees one opaque value for each
/// closure.
#[verifier::external_body]
#[verifier::reject_recursive_types(T)]
#[verifier::reject_recursive_types(R)]
pub struct Callback<T: 'static, R: 'static> {
    function: Box<dyn Fn(&T) -> Option<R> + Send + Sync + 'static>,
}

impl<T: 'static, R: 'static> Callback<T, R> {
    /// The closure is `function`: whatever it can give to an event,
    /// `function` can return for that event.
    pub open spec fn holds<F: Fn(&T) -> Option<R>>(&self, function: F) -> bool {
        forall|event: &T, answer: Option<R>| #[trigger]
            self.gives(event, answer) ==> call_ensures(function, (event,), answer)
    }

    /// Puts `function` into a `Box`. The dispatcher will call it with any
    /// event, so it has to accept every event. The closure in the box is
    /// `function`: a call of it is a call of `function`.
    #[verifier::external_body]
    pub(crate) fn new<F>(function: F) -> (callback: Self) where
        F: Fn(&T) -> Option<R> + Send + Sync + 'static,

        requires
            forall|event: &T| call_requires(function, (event,)),
        ensures
            callback.holds(function),
    {
        Callback { function: Box::new(function) }
    }

    /// Calls the boxed closure with `event`. The answer is the closure's own,
    /// so nothing is claimed of it.
    #[verifier::external_body]
    pub(crate) fn call(&self, event: &T) -> Option<R> {
        (self.function)(event)
    }

    /// The closure, called with `event` by `call`, can give `answer`. Two
    /// calls need not give the same.
    pub closed spec fn gives(&self, event: &T, answer: Option<R>) -> bool {
        call_ensures(Self::call, (self, event), answer)
    }

    /// Calls the closure with `event`, once, and returns its answer.
    pub(crate) fn answer(&self, event: &T) -> (answer: Option<R>)
        ensures
            self.gives(event, answer),
    {
        self.call(event)
    }
}

} // verus!
