//! The unordered synchronous dispatcher.

use vstd::prelude::*;
use std::collections::HashMap;
use std::hash::Hash;
use std::sync::Arc;
use parking_lot::Mutex;
use vstd::std_specs::hash::obeys_key_model;
use crate::collection::answer_to;
use crate::collection::called;
use crate::collection::kept;
use crate::collection::closures_answer;
use crate::collection::lemma_called_follows_mapping;
use crate::collection::lemma_called_quiet;
use crate::collection::listeners_ask;
use crate::collection::lemma_kept_all;
use crate::collection::lemma_notified_follows_mapping;
use crate::collection::lemma_notified_quiet;
use crate::collection::lemma_purged_by_search;
use crate::protocol::run;
use crate::subscriber::Delivery;
use crate::collection::heard;
use crate::collection::lemma_purged_only_removes;
use crate::collection::dwindled;
use crate::collection::subscribers_of;
use crate::collection::with_closure;
use crate::collection::with_listener;
use crate::collection::lemma_notified_passes;
use crate::protocol::lemma_pass_only_removes;
use crate::collection::call_closures;
use crate::collection::notified;
use crate::collection::notify_listeners;
use crate::collection::purged;
use crate::collection::retain_live;
use crate::collection::FnsAndTraits;
use crate::collection::Subscribers;
use crate::maps::entry_of;
use crate::protocol::passes;
use crate::request::ExecuteRequestsResult;
use crate::request::SyncDispatcherRequest;
use crate::subscriber::Callback;
use crate::subscriber::Listener;
use crate::subscriber::WeakListener;

verus! {

/// A dispatch of `event` to the collection `before` can leave `after`.
///
/// The event is handed to the listeners in one pass of the protocol and to
/// the closures in another; a stop in the first pass does not keep the second
/// from running. If the first pass found a listener gone, the listeners that
/// it left are purged.
pub open spec fn delivered<T>(
    before: Subscribers<WeakListener<T, SyncDispatcherRequest>, Callback<T, SyncDispatcherRequest>>,
    event: &T,
    after: Subscribers<WeakListener<T, SyncDispatcherRequest>, Callback<T, SyncDispatcherRequest>>,
) -> bool where T: PartialEq + Eq + Hash + Clone + Send + Sync + 'static {
    &&& exists|second: ExecuteRequestsResult| #[trigger]
        passes(before.closures, called(event), after.closures, second)
    &&& exists|left: Seq<WeakListener<T, SyncDispatcherRequest>>, first: ExecuteRequestsResult, stale: bool|
        {
            &&& #[trigger] notified(before.listeners, event, left, first, stale)
            &&& if stale {
                purged(left, after.listeners)
            } else {
                after.listeners == left
            }
        }
}

/// The passes that a dispatch was made of: what the pass over the listeners
/// left, how it ended and whether it found a listener gone, and how the pass
/// over the closures ended.
pub proof fn lemma_delivered_passes<T>(before: Subscribers<WeakListener<T, SyncDispatcherRequest>, Callback<T, SyncDispatcherRequest>>, event: &T, after: Subscribers<WeakListener<T, SyncDispatcherRequest>, Callback<T, SyncDispatcherRequest>>) -> (made: (
    Seq<WeakListener<T, SyncDispatcherRequest>>,
    ExecuteRequestsResult,
    bool,
    ExecuteRequestsResult,
)) where T: PartialEq + Eq + Hash + Clone + Send + Sync + 'static
    requires
        delivered(before, event, after),
    ensures
        notified(before.listeners, event, made.0, made.1, made.2),
        passes(before.closures, called(event), after.closures, made.3),
        if made.2 {
            purged(made.0, after.listeners)
        } else {
            after.listeners == made.0
        },
{
    let second = choose|second: ExecuteRequestsResult| #[trigger]
        passes(before.closures, called(event), after.closures, second);
    let (left, first, stale) = choose|
        left: Seq<WeakListener<T, SyncDispatcherRequest>>,
        first: ExecuteRequestsResult,
        stale: bool,
    |
        {
            &&& #[trigger] notified(before.listeners, event, left, first, stale)
            &&& if stale {
                purged(left, after.listeners)
            } else {
                after.listeners == left
            }
        };
    (left, first, stale, second)
}

/// A dispatch registers nothing: every subscriber that it leaves was
/// registered before.
pub proof fn lemma_delivered_dwindles<T>(
    before: Subscribers<WeakListener<T, SyncDispatcherRequest>, Callback<T, SyncDispatcherRequest>>,
    event: &T,
    after: Subscribers<WeakListener<T, SyncDispatcherRequest>, Callback<T, SyncDispatcherRequest>>,
) where T: PartialEq + Eq + Hash + Clone + Send + Sync + 'static
    requires
        delivered(before, event, after),
    ensures
        dwindled(before, after),
{
    let (left, first, stale, second) = lemma_delivered_passes(before, event, after);
    lemma_notified_passes(before.listeners, event, left, first, stale);
    lemma_pass_only_removes(before.listeners, heard(event), left, first);
    lemma_pass_only_removes(before.closures, called(event), after.closures, second);
    if stale {
        lemma_purged_only_removes(left, after.listeners);
    }
}

/// A dispatch to subscribers of which none asks for anything keeps every
/// closure and every listener that is there, in their order, and leaves no
/// handle whose listener is gone. `alive` tells of each handle whether its
/// listener is there: a delivery finds it gone, and a search does not find
/// it, exactly where `alive` does not flag it.
pub proof fn lemma_delivered_quiet<T>(
    before: Subscribers<WeakListener<T, SyncDispatcherRequest>, Callback<T, SyncDispatcherRequest>>,
    event: &T,
    alive: Seq<bool>,
    after: Subscribers<WeakListener<T, SyncDispatcherRequest>, Callback<T, SyncDispatcherRequest>>,
) where T: PartialEq + Eq + Hash + Clone + Send + Sync + 'static
    requires
        delivered(before, event, after),
        alive.len() == before.listeners.len(),
        forall|i: int, delivery: Delivery<SyncDispatcherRequest>|
            0 <= i < before.listeners.len() && #[trigger] before.listeners[i].delivers(
                event,
                delivery,
            ) ==> answer_to(delivery) is None && (delivery is Gone <==> !alive[i]),
        forall|i: int, found: bool|
            0 <= i < before.listeners.len() && #[trigger] before.listeners[i].found_alive(found)
                ==> found == alive[i],
        forall|j: int, answer: Option<SyncDispatcherRequest>|
            0 <= j < before.closures.len() && #[trigger] before.closures[j].gives(event, answer)
                ==> answer is None,
    ensures
        after.closures == before.closures,
        after.listeners == kept(before.listeners, alive),
{
    let (left, first, stale, second) = lemma_delivered_passes(before, event, after);
    lemma_called_quiet(before.closures, event, after.closures, second);
    let gone = Seq::new(alive.len(), |i: int| !alive[i]);
    lemma_notified_quiet(before.listeners, event, gone, left, first, stale);
    if stale {
        lemma_purged_by_search(left, after.listeners, alive);
    } else {
        assert forall|i: int| 0 <= i < alive.len() implies alive[i] by {
            assert(gone[i] == !alive[i]);
        }
        lemma_kept_all(before.listeners, alive);
    }
}

/// A dispatch in which the listeners that are handed the event are there and
/// can only give it the answer that `asks` assigns to them, and the closures
/// that are called can only give it the answer that `answers` assigns to
/// them, leaves of the listeners and of the closures what the protocol
/// computes for these answers. Of the subscribers behind a stop nothing is
/// asked.
pub proof fn lemma_delivered_follows_mapping<T>(
    before: Subscribers<WeakListener<T, SyncDispatcherRequest>, Callback<T, SyncDispatcherRequest>>,
    event: &T,
    asks: spec_fn(WeakListener<T, SyncDispatcherRequest>) -> Option<SyncDispatcherRequest>,
    answers: spec_fn(Callback<T, SyncDispatcherRequest>) -> Option<SyncDispatcherRequest>,
    after: Subscribers<WeakListener<T, SyncDispatcherRequest>, Callback<T, SyncDispatcherRequest>>,
) where T: PartialEq + Eq + Hash + Clone + Send + Sync + 'static
    requires
        delivered(before, event, after),
        listeners_ask(before.listeners, event, asks),
        closures_answer(before.closures, event, answers),
    ensures
        after.listeners == run(before.listeners, asks).0,
        after.closures == run(before.closures, answers).0,
{
    let (left, first, stale, second) = lemma_delivered_passes(before, event, after);
    lemma_called_follows_mapping(before.closures, event, answers, after.closures, second);
    lemma_notified_follows_mapping(before.listeners, event, asks, left, first, stale);
}

/// A dispatcher that maps each event to the listeners and closures that are
/// registered for it, and delivers an event to them in the order of their
/// registration: first to the listeners, then to the closures.
#[verifier::reject_recursive_types(T)]
pub struct EventDispatcher<T> where T: PartialEq + Eq + Hash + Clone + Send + Sync + 'static {
    events: HashMap<T, FnsAndTraits<T>>,
}

impl<T> View for EventDispatcher<T> where T: PartialEq + Eq + Hash + Clone + Send + Sync + 'static {
    type V = Map<T, Subscribers<WeakListener<T, SyncDispatcherRequest>, Callback<T, SyncDispatcherRequest>>>;

    /// What is registered with the dispatcher: for each event that has a
    /// collection, what the collection holds.
    closed spec fn view(&self) -> Self::V {
        self.events@.map_values(|collection: FnsAndTraits<T>| collection@)
    }
}

impl<T> Default for EventDispatcher<T> where T: PartialEq + Eq + Hash + Clone + Send + Sync + 'static {
    /// A dispatcher without any registration.
    fn default() -> (dispatcher: EventDispatcher<T>)
        ensures
            dispatcher@ == Map::<
                T,
                Subscribers<WeakListener<T, SyncDispatcherRequest>, Callback<T, SyncDispatcherRequest>>,
            >::empty(),
    {
        let dispatcher = EventDispatcher { events: HashMap::new() };
        assert(dispatcher@ =~= Map::empty());
        dispatcher
    }
}

impl<T> EventDispatcher<T> where T: PartialEq + Eq + Hash + Clone + Send + Sync + 'static {
    /// Registers `listener` for `event_identifier`, after the listeners that
    /// are registered for it already. The dispatcher keeps a weak handle
    /// only. Registering a listener twice gives two registrations.
    pub fn add_listener<D: Listener<T> + Send + Sync + 'static>(
        &mut self,
        event_identifier: T,
        listener: &Arc<Mutex<D>>,
    )
        ensures
            obeys_key_model::<T>() ==> exists|handle: WeakListener<T, SyncDispatcherRequest>|
                {
                    &&& handle.listens_as::<D>()
                    &&& final(self)@ == old(self)@.insert(
                        event_identifier,
                        #[trigger] with_listener(
                            subscribers_of(old(self)@, event_identifier),
                            handle,
                        ),
                    )
                },
    {
        let handle = WeakListener::downgrade(listener);
        let ghost added = with_listener(subscribers_of(old(self)@, event_identifier), handle);
        if let Some(listener_collection) = entry_of(&mut self.events, &event_identifier) {
            listener_collection.traits.push(handle);
            proof {
                if obeys_key_model::<T>() {
                    assert(self@ =~= old(self)@.insert(event_identifier, added));
                }
            }
            return ;
        }
        let mut trait_objects = Vec::new();
        trait_objects.push(handle);
        self.events.insert(event_identifier, FnsAndTraits::new_with_traits(trait_objects));
        proof {
            if obeys_key_model::<T>() {
                assert(self@ =~= old(self)@.insert(event_identifier, added));
            }
        }
    }

    /// Registers `function` for `event_identifier`, after the closures that
    /// are registered for it already. The dispatcher owns the closure until
    /// the closure asks for its removal.
    pub fn add_fn<F>(&mut self, event_identifier: T, function: F) where
        F: Fn(&T) -> Option<SyncDispatcherRequest> + Send + Sync + 'static,

        requires
            forall|event: &T| call_requires(function, (event,)),
        ensures
            obeys_key_model::<T>() ==> exists|closure: Callback<T, SyncDispatcherRequest>|
                {
                    &&& closure.holds(function)
                    &&& final(self)@ == old(self)@.insert(
                        event_identifier,
                        #[trigger] with_closure(
                            subscribers_of(old(self)@, event_identifier),
                            closure,
                        ),
                    )
                },
    {
        let closure = Callback::new(function);
        let ghost added = with_closure(subscribers_of(old(self)@, event_identifier), closure);
        if let Some(listener_collection) = entry_of(&mut self.events, &event_identifier) {
            listener_collection.fns.push(closure);
            proof {
                if obeys_key_model::<T>() {
                    assert(self@ =~= old(self)@.insert(event_identifier, added));
                }
            }
            return ;
        }
        let mut fns = Vec::new();
        fns.push(closure);
        self.events.insert(event_identifier, FnsAndTraits::new_with_fns(fns));
        proof {
            if obeys_key_model::<T>() {
                assert(self@ =~= old(self)@.insert(event_identifier, added));
            }
        }
    }

    /// Delivers `event_identifier` to everything that is registered for it:
    /// first to the listeners, then to the closures, each in one pass of the
    /// protocol. Where nothing is registered for it, nothing happens.
    ///
    /// A listener that is gone is passed over. If the pass over the listeners
    /// found one, the handles of all listeners that are gone are dropped
    /// before the dispatch returns.
    pub fn dispatch_event(&mut self, event_identifier: &T)
        ensures
            obeys_key_model::<T>() && !old(self)@.contains_key(*event_identifier) ==> final(self)@
                == old(self)@,
            obeys_key_model::<T>() && old(self)@.contains_key(*event_identifier) ==> {
                &&& final(self)@.contains_key(*event_identifier)
                &&& final(self)@ == old(self)@.insert(
                    *event_identifier,
                    final(self)@[*event_identifier],
                )
                &&& delivered(
                    old(self)@[*event_identifier],
                    event_identifier,
                    final(self)@[*event_identifier],
                )
                &&& dwindled(old(self)@[*event_identifier], final(self)@[*event_identifier])
            },
    {
        if let Some(listener_collection) = entry_of(&mut self.events, event_identifier) {
            let ghost before = listener_collection@;
            let (first, found_invalid_weak_ref) = notify_listeners(
                &mut listener_collection.traits,
                event_identifier,
            );
            let ghost left = listener_collection.traits@;
            let second = call_closures(&mut listener_collection.fns, event_identifier);
            if found_invalid_weak_ref {
                retain_live(&mut listener_collection.traits);
            }
            proof {
                assert(notified(
                    before.listeners,
                    event_identifier,
                    left,
                    first,
                    found_invalid_weak_ref,
                ));
                assert(passes(
                    before.closures,
                    called(event_identifier),
                    listener_collection@.closures,
                    second,
                ));
                assert(delivered(before, event_identifier, listener_collection@));
                lemma_delivered_dwindles(before, event_identifier, listener_collection@);
            }
        }
        proof {
            if obeys_key_model::<T>() {
                if old(self)@.contains_key(*event_identifier) {
                    assert(self@ =~= old(self)@.insert(*event_identifier, self@[*event_identifier]));
                } else {
                    assert(self@ =~= old(self)@);
                }
            }
        }
    }

    /// The number of listeners that are registered for `event_identifier`,
    /// those that are gone and not yet purged included.
    pub fn listener_count(&self, event_identifier: &T) -> (count: usize)
        ensures
            obeys_key_model::<T>() ==> count == subscribers_of(
                self@,
                *event_identifier,
            ).listeners.len(),
    {
        match self.events.get(event_identifier) {
            Some(listener_collection) => listener_collection.traits.len(),
            None => 0,
        }
    }

    /// The number of closures that are registered for `event_identifier`.
    pub fn fn_count(&self, event_identifier: &T) -> (count: usize)
        ensures
            obeys_key_model::<T>() ==> count == subscribers_of(
                self@,
                *event_identifier,
            ).closures.len(),
    {
        match self.events.get(event_identifier) {
            Some(listener_collection) => listener_collection.fns.len(),
            None => 0,
        }
    }
}

} // verus!
