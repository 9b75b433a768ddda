//! The synchronous dispatcher that orders its subscribers by priority.
//!
//! The subscribers of an event are grouped in tiers, one for each priority
//! that something was registered with. A dispatch visits the tiers from the
//! least priority upwards. A stop in any tier ends the whole dispatch: the
//! tiers of greater priority are not visited.

use vstd::prelude::*;
use std::collections::BTreeMap;
use std::collections::HashMap;
use std::hash::Hash;
use std::sync::Arc;
use parking_lot::Mutex;
use vstd::std_specs::hash::obeys_key_model;
use crate::collection::answer_to;
use crate::collection::called;
use crate::collection::kept;
use crate::collection::closures_answer;
use crate::collection::lemma_called_follows_mapping;
use crate::collection::lemma_called_quiet;
use crate::collection::listeners_ask;
use crate::collection::lemma_kept_all;
use crate::collection::lemma_notified_follows_mapping;
use crate::collection::lemma_notified_quiet;
use crate::collection::lemma_purged_by_search;
use crate::protocol::run;
use crate::subscriber::Delivery;
use crate::collection::heard;
use crate::collection::lemma_purged_only_removes;
use crate::collection::call_closures;
use crate::collection::lemma_notified_passes;
use crate::collection::notified;
use crate::collection::notify_listeners;
use crate::collection::purged;
use crate::collection::retain_live;
use crate::collection::FnsAndTraits;
use crate::collection::Subscribers;
use crate::collection::dwindled;
use crate::collection::subscribers_of;
use crate::collection::with_closure;
use crate::collection::with_listener;
use crate::maps::entry_of;
use crate::maps::pop_first;
use crate::order::lemma_precedes_one_way;
use crate::order::lemma_precedes_transitive;
use crate::order::ordered;
use crate::order::precedes;
use crate::protocol::lemma_pass_only_removes;
use crate::protocol::passes;
use crate::request::ExecuteRequestsResult;
use crate::request::SyncDispatcherRequest;
use crate::subscriber::Callback;
use crate::subscriber::Listener;
use crate::subscriber::WeakListener;

verus! {

/// The tiers that are registered for `event`: those that the map holds for
/// it, or none where the map holds nothing.
pub open spec fn tiers_of<K, P, L, C>(
    events: Map<K, Map<P, Subscribers<L, C>>>,
    event: K,
) -> Map<P, Subscribers<L, C>> {
    if events.contains_key(event) {
        events[event]
    } else {
        Map::empty()
    }
}

/// A visit of the tier `before` with `event` can leave `after`, and `stopped`
/// tells whether the visit ended the dispatch.
///
/// The event is handed to the listeners in one pass of the protocol. If that
/// pass is stopped, the visit ends there. Otherwise the closures are called
/// in another pass. If neither pass is stopped and the first found a listener
/// gone, the listeners that it left are purged.
pub open spec fn tier_delivered<T>(
    before: Subscribers<WeakListener<T, SyncDispatcherRequest>, Callback<T, SyncDispatcherRequest>>,
    event: &T,
    after: Subscribers<WeakListener<T, SyncDispatcherRequest>, Callback<T, SyncDispatcherRequest>>,
    stopped: bool,
) -> bool where T: PartialEq + Eq + Hash + Clone + Send + Sync + 'static {
    exists|left: Seq<WeakListener<T, SyncDispatcherRequest>>, first: ExecuteRequestsResult, stale: bool|
        {
            &&& #[trigger] notified(before.listeners, event, left, first, stale)
            &&& if first is Stopped {
                &&& stopped
                &&& after.listeners == left
                &&& after.closures == before.closures
            } else {
                &&& closures_called(before.closures, event, after.closures, stopped)
                &&& if !stopped && stale {
                    purged(left, after.listeners)
                } else {
                    after.listeners == left
                }
            }
        }
}

/// A pass that calls the closures `before` with `event` can leave `after`,
/// and `stopped` tells whether it was stopped.
pub open spec fn closures_called<T>(
    before: Seq<Callback<T, SyncDispatcherRequest>>,
    event: &T,
    after: Seq<Callback<T, SyncDispatcherRequest>>,
    stopped: bool,
) -> bool where T: PartialEq + Eq + Hash + Clone + Send + Sync + 'static {
    exists|second: ExecuteRequestsResult|
        {
            &&& #[trigger] passes(before, called(event), after, second)
            &&& stopped <==> second is Stopped
        }
}

/// A dispatch of `event` to the tiers `before` can leave `after`.
///
/// Either no tier stopped the dispatch, and every tier was visited. Or one
/// tier, `veto`, stopped it: then the tiers before it were visited and did
/// not stop, and the tiers after it are as they were.
pub open spec fn delivered_in_order<P: Ord, T>(
    before: Map<P, Subscribers<WeakListener<T, SyncDispatcherRequest>, Callback<T, SyncDispatcherRequest>>>,
    event: &T,
    after: Map<P, Subscribers<WeakListener<T, SyncDispatcherRequest>, Callback<T, SyncDispatcherRequest>>>,
) -> bool where T: PartialEq + Eq + Hash + Clone + Send + Sync + 'static {
    &&& after.dom() == before.dom()
    &&& exists|veto: Option<P>| #[trigger] stopped_by(before, event, after, veto)
}

/// The dispatch that `delivered_in_order` speaks of, with the tier that
/// stopped it, if one did.
pub open spec fn stopped_by<P: Ord, T>(
    before: Map<P, Subscribers<WeakListener<T, SyncDispatcherRequest>, Callback<T, SyncDispatcherRequest>>>,
    event: &T,
    after: Map<P, Subscribers<WeakListener<T, SyncDispatcherRequest>, Callback<T, SyncDispatcherRequest>>>,
    veto: Option<P>,
) -> bool where T: PartialEq + Eq + Hash + Clone + Send + Sync + 'static {
    match veto {
        None => forall|priority: P| #[trigger]
            before.contains_key(priority) ==> tier_delivered(
                before[priority],
                event,
                after[priority],
                false,
            ),
        Some(last) => {
            &&& before.contains_key(last)
            &&& tier_delivered(before[last], event, after[last], true)
            &&& forall|priority: P| #[trigger]
                before.contains_key(priority) && priority != last ==> {
                    ||| precedes(priority, last) && tier_delivered(
                        before[priority],
                        event,
                        after[priority],
                        false,
                    )
                    ||| precedes(last, priority) && after[priority] == before[priority]
                }
        },
    }
}

/// The pass over the listeners that a visit of a tier began with: what it
/// left, how it ended and whether it found a listener gone.
pub proof fn lemma_tier_delivered_passes<T>(
    before: Subscribers<WeakListener<T, SyncDispatcherRequest>, Callback<T, SyncDispatcherRequest>>,
    event: &T,
    after: Subscribers<WeakListener<T, SyncDispatcherRequest>, Callback<T, SyncDispatcherRequest>>,
    stopped: bool,
) -> (made: (Seq<WeakListener<T, SyncDispatcherRequest>>, ExecuteRequestsResult, bool)) where
    T: PartialEq + Eq + Hash + Clone + Send + Sync + 'static,

    requires
        tier_delivered(before, event, after, stopped),
    ensures
        notified(before.listeners, event, made.0, made.1, made.2),
        if made.1 is Stopped {
            &&& stopped
            &&& after.listeners == made.0
            &&& after.closures == before.closures
        } else {
            &&& closures_called(before.closures, event, after.closures, stopped)
            &&& if !stopped && made.2 {
                purged(made.0, after.listeners)
            } else {
                after.listeners == made.0
            }
        },
{
    choose|left: Seq<WeakListener<T, SyncDispatcherRequest>>, first: ExecuteRequestsResult, stale: bool|
        {
            &&& #[trigger] notified(before.listeners, event, left, first, stale)
            &&& if first is Stopped {
                &&& stopped
                &&& after.listeners == left
                &&& after.closures == before.closures
            } else {
                &&& closures_called(before.closures, event, after.closures, stopped)
                &&& if !stopped && stale {
                    purged(left, after.listeners)
                } else {
                    after.listeners == left
                }
            }
        }
}

/// How the pass over the closures of a tier ended.
pub proof fn lemma_closures_called_pass<T>(
    before: Seq<Callback<T, SyncDispatcherRequest>>,
    event: &T,
    after: Seq<Callback<T, SyncDispatcherRequest>>,
    stopped: bool,
) -> (second: ExecuteRequestsResult) where T: PartialEq + Eq + Hash + Clone + Send + Sync + 'static
    requires
        closures_called(before, event, after, stopped),
    ensures
        passes(before, called(event), after, second),
        stopped <==> second is Stopped,
{
    choose|second: ExecuteRequestsResult|
        {
            &&& #[trigger] passes(before, called(event), after, second)
            &&& stopped <==> second is Stopped
        }
}

/// A visit registers nothing: every subscriber that it leaves was registered
/// before.
pub proof fn lemma_tier_delivered_dwindles<T>(
    before: Subscribers<WeakListener<T, SyncDispatcherRequest>, Callback<T, SyncDispatcherRequest>>,
    event: &T,
    after: Subscribers<WeakListener<T, SyncDispatcherRequest>, Callback<T, SyncDispatcherRequest>>,
    stopped: bool,
) where T: PartialEq + Eq + Hash + Clone + Send + Sync + 'static
    requires
        tier_delivered(before, event, after, stopped),
    ensures
        dwindled(before, after),
{
    let (left, first, stale) = lemma_tier_delivered_passes(before, event, after, stopped);
    lemma_notified_passes(before.listeners, event, left, first, stale);
    lemma_pass_only_removes(before.listeners, heard(event), left, first);
    if first is Stopped {
    } else {
        let second = lemma_closures_called_pass(before.closures, event, after.closures, stopped);
        lemma_pass_only_removes(before.closures, called(event), after.closures, second);
        if !stopped && stale {
            lemma_purged_only_removes(left, after.listeners);
        }
    }
}

/// A dispatch registers nothing: every subscriber that it leaves in a tier
/// was registered in that tier before.
pub proof fn lemma_delivered_in_order_dwindles<P: Ord, T>(
    before: Map<P, Subscribers<WeakListener<T, SyncDispatcherRequest>, Callback<T, SyncDispatcherRequest>>>,
    event: &T,
    after: Map<P, Subscribers<WeakListener<T, SyncDispatcherRequest>, Callback<T, SyncDispatcherRequest>>>,
    priority: P,
) where T: PartialEq + Eq + Hash + Clone + Send + Sync + 'static
    requires
        delivered_in_order(before, event, after),
        before.contains_key(priority),
    ensures
        dwindled(before[priority], after[priority]),
{
    let veto = choose|veto: Option<P>| #[trigger] stopped_by(before, event, after, veto);
    match veto {
        None => {
            lemma_tier_delivered_dwindles(before[priority], event, after[priority], false);
        },
        Some(last) => {
            if priority == last {
                lemma_tier_delivered_dwindles(before[priority], event, after[priority], true);
            } else if precedes(priority, last) && tier_delivered(
                before[priority],
                event,
                after[priority],
                false,
            ) {
                lemma_tier_delivered_dwindles(before[priority], event, after[priority], false);
            }
        },
    }
}

/// A visit of a tier in which the listeners that are handed the event are
/// there and can only give it the answer that `asks` assigns to them, and the
/// closures that are called can only give it the answer that `answers`
/// assigns to them. If the pass over the listeners is stopped, the visit is
/// stopped, and the closures are not called and stay as they are. If not,
/// the visit is stopped exactly where the pass over the closures is. Either
/// way the listeners and the closures are left as the protocol computes for
/// these answers. Of the subscribers behind a stop nothing is asked.
pub proof fn lemma_tier_delivered_follows_mapping<T>(
    before: Subscribers<WeakListener<T, SyncDispatcherRequest>, Callback<T, SyncDispatcherRequest>>,
    event: &T,
    asks: spec_fn(WeakListener<T, SyncDispatcherRequest>) -> Option<SyncDispatcherRequest>,
    answers: spec_fn(Callback<T, SyncDispatcherRequest>) -> Option<SyncDispatcherRequest>,
    after: Subscribers<WeakListener<T, SyncDispatcherRequest>, Callback<T, SyncDispatcherRequest>>,
    stopped: bool,
) where T: PartialEq + Eq + Hash + Clone + Send + Sync + 'static
    requires
        tier_delivered(before, event, after, stopped),
        listeners_ask(before.listeners, event, asks),
        run(before.listeners, asks).1 is Finished ==> closures_answer(
            before.closures,
            event,
            answers,
        ),
    ensures
        after.listeners == run(before.listeners, asks).0,
        run(before.listeners, asks).1 is Stopped ==> stopped && after.closures == before.closures,
        run(before.listeners, asks).1 is Finished ==> after.closures == run(
            before.closures,
            answers,
        ).0 && (stopped <==> run(before.closures, answers).1 is Stopped),
{
    let (left, first, stale) = lemma_tier_delivered_passes(before, event, after, stopped);
    lemma_notified_follows_mapping(before.listeners, event, asks, left, first, stale);
    if first is Stopped {
    } else {
        let second = lemma_closures_called_pass(before.closures, event, after.closures, stopped);
        lemma_called_follows_mapping(before.closures, event, answers, after.closures, second);
    }
}

/// A visit of a tier of which no subscriber asks for anything is not stopped,
/// keeps every closure and every listener that is there, in their order, and
/// leaves no handle whose listener is gone. `alive` tells of each handle
/// whether its listener is there: a delivery finds it gone, and a search does
/// not find it, exactly where `alive` does not flag it.
pub proof fn lemma_tier_delivered_quiet<T>(
    before: Subscribers<WeakListener<T, SyncDispatcherRequest>, Callback<T, SyncDispatcherRequest>>,
    event: &T,
    alive: Seq<bool>,
    after: Subscribers<WeakListener<T, SyncDispatcherRequest>, Callback<T, SyncDispatcherRequest>>,
    stopped: bool,
) where T: PartialEq + Eq + Hash + Clone + Send + Sync + 'static
    requires
        tier_delivered(before, event, after, stopped),
        alive.len() == before.listeners.len(),
        forall|i: int, delivery: Delivery<SyncDispatcherRequest>|
            0 <= i < before.listeners.len() && #[trigger] before.listeners[i].delivers(
                event,
                delivery,
            ) ==> answer_to(delivery) is None && (delivery is Gone <==> !alive[i]),
        forall|i: int, found: bool|
            0 <= i < before.listeners.len() && #[trigger] before.listeners[i].found_alive(found)
                ==> found == alive[i],
        forall|j: int, answer: Option<SyncDispatcherRequest>|
            0 <= j < before.closures.len() && #[trigger] before.closures[j].gives(event, answer)
                ==> answer is None,
    ensures
        !stopped,
        after.closures == before.closures,
        after.listeners == kept(before.listeners, alive),
{
    let (left, first, stale) = lemma_tier_delivered_passes(before, event, after, stopped);
    let gone = Seq::new(alive.len(), |i: int| !alive[i]);
    lemma_notified_quiet(before.listeners, event, gone, left, first, stale);
    let second = lemma_closures_called_pass(before.closures, event, after.closures, stopped);
    lemma_called_quiet(before.closures, event, after.closures, second);
    if stale {
        lemma_purged_by_search(left, after.listeners, alive);
    } else {
        assert forall|i: int| 0 <= i < alive.len() implies alive[i] by {
            assert(gone[i] == !alive[i]);
        }
        lemma_kept_all(before.listeners, alive);
    }
}

/// A tier that cannot be visited without a stop spares the tiers after it:
/// every tier of greater priority is left as it was.
pub proof fn lemma_stopping_tier_spares_later_tiers<P: Ord, T>(
    before: Map<P, Subscribers<WeakListener<T, SyncDispatcherRequest>, Callback<T, SyncDispatcherRequest>>>,
    event: &T,
    after: Map<P, Subscribers<WeakListener<T, SyncDispatcherRequest>, Callback<T, SyncDispatcherRequest>>>,
    stopping: P,
    later: P,
) where T: PartialEq + Eq + Hash + Clone + Send + Sync + 'static
    requires
        ordered::<P>(),
        delivered_in_order(before, event, after),
        before.contains_key(stopping),
        before.contains_key(later),
        precedes(stopping, later),
        forall|left: Subscribers<WeakListener<T, SyncDispatcherRequest>, Callback<T, SyncDispatcherRequest>>| !#[trigger] tier_delivered(before[stopping], event, left, false),
    ensures
        after[later] == before[later],
{
    let veto = choose|veto: Option<P>| #[trigger] stopped_by(before, event, after, veto);
    lemma_precedes_one_way(stopping, later);
    match veto {
        None => {
            assert(tier_delivered(before[stopping], event, after[stopping], false));
        },
        Some(last) => {
            lemma_precedes_one_way(last, later);
            if stopping != last {
                assert(precedes(last, stopping));
                lemma_precedes_transitive(last, stopping, later);
            }
        },
    }
}

/// A tier is visited, and the dispatch goes on behind it, where neither it
/// nor a tier of lesser priority can be visited with a stop.
pub proof fn lemma_unstopped_tier_is_visited<P: Ord, T>(
    before: Map<P, Subscribers<WeakListener<T, SyncDispatcherRequest>, Callback<T, SyncDispatcherRequest>>>,
    event: &T,
    after: Map<P, Subscribers<WeakListener<T, SyncDispatcherRequest>, Callback<T, SyncDispatcherRequest>>>,
    priority: P,
) where T: PartialEq + Eq + Hash + Clone + Send + Sync + 'static
    requires
        ordered::<P>(),
        delivered_in_order(before, event, after),
        before.contains_key(priority),
        forall|earlier: P, left: Subscribers<WeakListener<T, SyncDispatcherRequest>, Callback<T, SyncDispatcherRequest>>|
            before.contains_key(earlier) && (earlier == priority || precedes(earlier, priority))
                ==> !#[trigger] tier_delivered(before[earlier], event, left, true),
    ensures
        tier_delivered(before[priority], event, after[priority], false),
{
    let veto = choose|veto: Option<P>| #[trigger] stopped_by(before, event, after, veto);
    match veto {
        None => {},
        Some(last) => {
            assert(tier_delivered(before[last], event, after[last], true));
            lemma_precedes_one_way(last, priority);
        },
    }
}

/// Tiers are visited from the least priority upwards, and a stop ends the
/// dispatch: where a dispatch has changed a tier, it has visited every tier
/// of lesser priority before, and none of them stopped it.
pub proof fn lemma_lower_tiers_first<P: Ord, T>(
    before: Map<P, Subscribers<WeakListener<T, SyncDispatcherRequest>, Callback<T, SyncDispatcherRequest>>>,
    event: &T,
    after: Map<P, Subscribers<WeakListener<T, SyncDispatcherRequest>, Callback<T, SyncDispatcherRequest>>>,
    low: P,
    high: P,
) where T: PartialEq + Eq + Hash + Clone + Send + Sync + 'static
    requires
        ordered::<P>(),
        delivered_in_order(before, event, after),
        before.contains_key(low),
        before.contains_key(high),
        precedes(low, high),
        after[high] != before[high],
    ensures
        tier_delivered(before[low], event, after[low], false),
{
    let veto = choose|veto: Option<P>| #[trigger] stopped_by(before, event, after, veto);
    lemma_precedes_one_way(low, high);
    match veto {
        None => {},
        Some(last) => {
            lemma_precedes_one_way(low, last);
            if high != last {
                lemma_precedes_transitive(low, high, last);
                lemma_precedes_one_way(high, last);
            }
        },
    }
}

/// A stop ends the dispatch: the tiers of greater priority than the tier
/// that stopped it are as they were.
pub proof fn lemma_veto_spares_later_tiers<P: Ord, T>(
    before: Map<P, Subscribers<WeakListener<T, SyncDispatcherRequest>, Callback<T, SyncDispatcherRequest>>>,
    event: &T,
    after: Map<P, Subscribers<WeakListener<T, SyncDispatcherRequest>, Callback<T, SyncDispatcherRequest>>>,
    last: P,
    later: P,
) where T: PartialEq + Eq + Hash + Clone + Send + Sync + 'static
    requires
        ordered::<P>(),
        stopped_by(before, event, after, Some(last)),
        before.contains_key(later),
        precedes(last, later),
    ensures
        after[later] == before[later],
{
    lemma_precedes_one_way(last, later);
}

/// Visits one tier with `event_identifier`: hands it to the listeners, then
/// calls the closures with it, and purges the listeners if one was found
/// gone. A stop in either pass ends the visit at once.
///
/// Returns whether the visit was stopped.
pub fn dispatch_tier<T>(listener_collection: &mut FnsAndTraits<T>, event_identifier: &T) -> (stopped:
    bool) where T: PartialEq + Eq + Hash + Clone + Send + Sync + 'static
    ensures
        tier_delivered(
            old(listener_collection)@,
            event_identifier,
            final(listener_collection)@,
            stopped,
        ),
        dwindled(old(listener_collection)@, final(listener_collection)@),
{
    let ghost before = listener_collection@;
    let (first, found_invalid_weak_ref) = notify_listeners(
        &mut listener_collection.traits,
        event_identifier,
    );
    let ghost left = listener_collection.traits@;
    proof {
        assert(notified(before.listeners, event_identifier, left, first, found_invalid_weak_ref));
    }
    if let ExecuteRequestsResult::Stopped = first {
        proof {
            assert(tier_delivered(before, event_identifier, listener_collection@, true));
            lemma_tier_delivered_dwindles(before, event_identifier, listener_collection@, true);
        }
        return true;
    }
    let second = call_closures(&mut listener_collection.fns, event_identifier);
    proof {
        assert(passes(
            before.closures,
            called(event_identifier),
            listener_collection@.closures,
            second,
        ));
    }
    if let ExecuteRequestsResult::Stopped = second {
        proof {
            assert(closures_called(
                before.closures,
                event_identifier,
                listener_collection@.closures,
                true,
            ));
            assert(tier_delivered(before, event_identifier, listener_collection@, true));
            lemma_tier_delivered_dwindles(before, event_identifier, listener_collection@, true);
        }
        return true;
    }
    if found_invalid_weak_ref {
        retain_live(&mut listener_collection.traits);
    }
    proof {
        assert(closures_called(
            before.closures,
            event_identifier,
            listener_collection@.closures,
            false,
        ));
        assert(tier_delivered(before, event_identifier, listener_collection@, false));
        lemma_tier_delivered_dwindles(before, event_identifier, listener_collection@, false);
    }
    false
}

/// What the tiers of one event hold.
pub open spec fn tiers_view<P, T>(tiers: BTreeMap<P, FnsAndTraits<T>>) -> Map<
    P,
    Subscribers<WeakListener<T, SyncDispatcherRequest>, Callback<T, SyncDispatcherRequest>>,
> where T: PartialEq + Eq + Hash + Clone + Send + Sync + 'static {
    tiers@.map_values(|collection: FnsAndTraits<T>| collection@)
}

/// A dispatcher that maps each event to tiers of listeners and closures, one
/// tier for each priority, and delivers an event tier by tier, from the least
/// priority upwards.
#[verifier::reject_recursive_types(P)]
#[verifier::reject_recursive_types(T)]
pub struct PriorityEventDispatcher<P, T> where
    P: Ord,
    T: PartialEq + Eq + Hash + Clone + Send + Sync + 'static,
 {
    events: HashMap<T, BTreeMap<P, FnsAndTraits<T>>>,
}

impl<P, T> View for PriorityEventDispatcher<P, T> where
    P: Ord,
    T: PartialEq + Eq + Hash + Clone + Send + Sync + 'static,
 {
    type V = Map<T, Map<P, Subscribers<WeakListener<T, SyncDispatcherRequest>, Callback<T, SyncDispatcherRequest>>>>;

    /// What is registered with the dispatcher: for each event that has
    /// tiers, what each tier holds.
    closed spec fn view(&self) -> Self::V {
        self.events@.map_values(|tiers: BTreeMap<P, FnsAndTraits<T>>| tiers_view(tiers))
    }
}

impl<P, T> Default for PriorityEventDispatcher<P, T> where
    P: Ord + Clone,
    T: PartialEq + Eq + Hash + Clone + Send + Sync + 'static,
 {
    /// A dispatcher without any registration.
    fn default() -> (dispatcher: PriorityEventDispatcher<P, T>)
        ensures
            dispatcher@ == Map::<
                T,
                Map<P, Subscribers<WeakListener<T, SyncDispatcherRequest>, Callback<T, SyncDispatcherRequest>>>,
            >::empty(),
    {
        let dispatcher = PriorityEventDispatcher { events: HashMap::new() };
        assert(dispatcher@ =~= Map::empty());
        dispatcher
    }
}

impl<P, T> PriorityEventDispatcher<P, T> where
    P: Ord + Clone,
    T: PartialEq + Eq + Hash + Clone + Send + Sync + 'static,
 {
    /// Registers `listener` for `event_identifier` in the tier of `priority`,
    /// after the listeners of that tier. The dispatcher keeps a weak handle
    /// only. A tier that is not there yet is made.
    pub fn add_listener<D: Listener<T> + Send + Sync + 'static>(
        &mut self,
        event_identifier: T,
        listener: &Arc<Mutex<D>>,
        priority: P,
    )
        ensures
            obeys_key_model::<T>() && ordered::<P>() ==> exists|
                handle: WeakListener<T, SyncDispatcherRequest>,
            |
                {
                    &&& handle.listens_as::<D>()
                    &&& final(self)@ == old(self)@.insert(
                        event_identifier,
                        tiers_of(old(self)@, event_identifier).insert(
                            priority,
                            #[trigger] with_listener(
                                subscribers_of(tiers_of(old(self)@, event_identifier), priority),
                                handle,
                            ),
                        ),
                    )
                },
    {
        let handle = WeakListener::downgrade(listener);
        let ghost tiers = tiers_of(old(self)@, event_identifier);
        let ghost added = with_listener(subscribers_of(tiers, priority), handle);
        if let Some(prioritised_listener_collection) = entry_of(
            &mut self.events,
            &event_identifier,
        ) {
            match prioritised_listener_collection.remove(&priority) {
                Some(priority_level_collection) => {
                    let mut priority_level_collection = priority_level_collection;
                    priority_level_collection.traits.push(handle);
                    prioritised_listener_collection.insert(priority, priority_level_collection);
                },
                None => {
                    let mut trait_objects = Vec::new();
                    trait_objects.push(handle);
                    prioritised_listener_collection.insert(
                        priority,
                        FnsAndTraits::new_with_traits(trait_objects),
                    );
                },
            }
            proof {
                if obeys_key_model::<T>() && ordered::<P>() {
                    assert(tiers_view(*prioritised_listener_collection) =~= tiers.insert(
                        priority,
                        added,
                    ));
                    assert(self@ =~= old(self)@.insert(event_identifier, tiers.insert(priority, added)));
                }
            }
            return ;
        }
        let mut trait_objects = Vec::new();
        trait_objects.push(handle);
        let mut b_tree_map = BTreeMap::new();
        b_tree_map.insert(priority, FnsAndTraits::new_with_traits(trait_objects));
        proof {
            if obeys_key_model::<T>() && ordered::<P>() {
                assert(tiers_view(b_tree_map) =~= tiers.insert(priority, added));
            }
        }
        self.events.insert(event_identifier, b_tree_map);
        proof {
            if obeys_key_model::<T>() && ordered::<P>() {
                assert(self@ =~= old(self)@.insert(event_identifier, tiers.insert(priority, added)));
            }
        }
    }

    /// Registers `function` for `event_identifier` in the tier of `priority`,
    /// after the closures of that tier. A tier that is not there yet is made.
    pub fn add_fn<F>(&mut self, event_identifier: T, function: F, priority: P) where
        F: Fn(&T) -> Option<SyncDispatcherRequest> + Send + Sync + 'static,

        requires
            forall|event: &T| call_requires(function, (event,)),
        ensures
            obeys_key_model::<T>() && ordered::<P>() ==> exists|
                closure: Callback<T, SyncDispatcherRequest>,
            |
                {
                    &&& closure.holds(function)
                    &&& final(self)@ == old(self)@.insert(
                        event_identifier,
                        tiers_of(old(self)@, event_identifier).insert(
                            priority,
                            #[trigger] with_closure(
                                subscribers_of(tiers_of(old(self)@, event_identifier), priority),
                                closure,
                            ),
                        ),
                    )
                },
    {
        let closure = Callback::new(function);
        let ghost tiers = tiers_of(old(self)@, event_identifier);
        let ghost added = with_closure(subscribers_of(tiers, priority), closure);
        if let Some(prioritised_listener_collection) = entry_of(
            &mut self.events,
            &event_identifier,
        ) {
            match prioritised_listener_collection.remove(&priority) {
                Some(priority_level_collection) => {
                    let mut priority_level_collection = priority_level_collection;
                    priority_level_collection.fns.push(closure);
                    prioritised_listener_collection.insert(priority, priority_level_collection);
                },
                None => {
                    let mut fns = Vec::new();
                    fns.push(closure);
                    prioritised_listener_collection.insert(priority, FnsAndTraits::new_with_fns(fns));
                },
            }
            proof {
                if obeys_key_model::<T>() && ordered::<P>() {
                    assert(tiers_view(*prioritised_listener_collection) =~= tiers.insert(
                        priority,
                        added,
                    ));
                    assert(self@ =~= old(self)@.insert(event_identifier, tiers.insert(priority, added)));
                }
            }
            return ;
        }
        let mut fns = Vec::new();
        fns.push(closure);
        let mut b_tree_map = BTreeMap::new();
        b_tree_map.insert(priority, FnsAndTraits::new_with_fns(fns));
        proof {
            if obeys_key_model::<T>() && ordered::<P>() {
                assert(tiers_view(b_tree_map) =~= tiers.insert(priority, added));
            }
        }
        self.events.insert(event_identifier, b_tree_map);
        proof {
            if obeys_key_model::<T>() && ordered::<P>() {
                assert(self@ =~= old(self)@.insert(event_identifier, tiers.insert(priority, added)));
            }
        }
    }

    /// Delivers `event_identifier` to the tiers that are registered for it,
    /// from the least priority upwards. In each tier the listeners are
    /// notified first, then the closures are called. A stop in either pass
    /// ends the dispatch: no tier of greater priority is visited. Where
    /// nothing is registered for the event, nothing happens.
    pub fn dispatch_event(&mut self, event_identifier: &T)
        ensures
            obeys_key_model::<T>() && ordered::<P>() && !old(self)@.contains_key(*event_identifier)
                ==> final(self)@ == old(self)@,
            obeys_key_model::<T>() && ordered::<P>() && old(self)@.contains_key(*event_identifier)
                ==> {
                &&& final(self)@.contains_key(*event_identifier)
                &&& final(self)@ == old(self)@.insert(
                    *event_identifier,
                    final(self)@[*event_identifier],
                )
                &&& delivered_in_order(
                    old(self)@[*event_identifier],
                    event_identifier,
                    final(self)@[*event_identifier],
                )
                &&& forall|priority: P| #[trigger]
                    old(self)@[*event_identifier].contains_key(priority) ==> dwindled(
                        old(self)@[*event_identifier][priority],
                        final(self)@[*event_identifier][priority],
                    )
            },
    {
        if let Some(prioritised_listener_collection) = entry_of(&mut self.events, event_identifier) {
            let ghost before = tiers_view(*prioritised_listener_collection);
            let mut visited: BTreeMap<P, FnsAndTraits<T>> = BTreeMap::new();
            let mut stopped = false;
            let ghost mut veto: Option<P> = None;
            proof {
                assert(tiers_view(visited) =~= Map::empty());
            }
            loop
                invariant
                    ordered::<P>() ==> {
                        let rest = tiers_view(*prioritised_listener_collection);
                        let done = tiers_view(visited);
                        &&& forall|priority: P|
                            #![trigger before.contains_key(priority)]
                            #![trigger rest.contains_key(priority)]
                            #![trigger done.contains_key(priority)]
                            before.contains_key(priority) <==> (rest.contains_key(priority)
                                || done.contains_key(priority))
                        &&& forall|priority: P|
                            #![trigger rest.contains_key(priority)]
                            #![trigger done.contains_key(priority)]
                            !(rest.contains_key(priority) && done.contains_key(priority))
                        &&& forall|priority: P| #[trigger]
                            rest.contains_key(priority) ==> rest[priority] == before[priority]
                        &&& forall|earlier: P, later: P|
                            done.contains_key(earlier) && rest.contains_key(later) ==> #[trigger] precedes(
                                earlier,
                                later,
                            )
                        &&& stopped <==> veto is Some
                        &&& stopped_by(before.restrict(done.dom()), event_identifier, done, veto)
                    },
                ensures
                    ordered::<P>() ==> tiers_view(*prioritised_listener_collection) == Map::<
                        P,
                        Subscribers<WeakListener<T, SyncDispatcherRequest>, Callback<T, SyncDispatcherRequest>>,
                    >::empty(),
                decreases prioritised_listener_collection.len(),
            {
                let ghost rest = tiers_view(*prioritised_listener_collection);
                let ghost done = tiers_view(visited);
                match pop_first(prioritised_listener_collection) {
                    None => {
                        proof {
                            if ordered::<P>() {
                                assert(tiers_view(*prioritised_listener_collection) =~= Map::empty());
                            }
                        }
                        break ;
                    },
                    Some((priority, listener_collection)) => {
                        let mut listener_collection = listener_collection;
                        let ghost untouched = listener_collection@;
                        if !stopped {
                            stopped = dispatch_tier(&mut listener_collection, event_identifier);
                        }
                        let ghost visit = listener_collection@;
                        let ghost earlier_veto = veto;
                        proof {
                            if stopped && earlier_veto is None {
                                veto = Some(priority);
                            }
                        }
                        visited.insert(priority, listener_collection);
                        proof {
                            if ordered::<P>() {
                                let now_rest = tiers_view(*prioritised_listener_collection);
                                let now_done = tiers_view(visited);
                                assert(now_rest =~= rest.remove(priority));
                                assert(now_done =~= done.insert(priority, visit));
                                assert(rest.contains_key(priority));
                                assert(rest[priority] == untouched);
                                assert(untouched == before[priority]);
                                let seen = before.restrict(now_done.dom());
                                assert forall|other: P| #[trigger]
                                    seen.contains_key(other) && other != priority implies done.contains_key(
                                    other,
                                ) && before.restrict(done.dom()).contains_key(other) && seen[other]
                                    == before.restrict(done.dom())[other] && now_done[other]
                                    == done[other] by {}
                                assert(stopped_by(seen, event_identifier, now_done, veto));
                            }
                        }
                    },
                }
            }
            proof {
                if ordered::<P>() {
                    let done = tiers_view(visited);
                    assert(before.restrict(done.dom()) =~= before);
                    assert(done.dom() =~= before.dom());
                    assert(delivered_in_order(before, event_identifier, done));
                    assert forall|priority: P| #[trigger]
                        before.contains_key(priority) implies dwindled(
                        before[priority],
                        done[priority],
                    ) by {
                        lemma_delivered_in_order_dwindles(before, event_identifier, done, priority);
                    }
                }
            }
            *prioritised_listener_collection = visited;
        }
        proof {
            if obeys_key_model::<T>() && ordered::<P>() {
                if old(self)@.contains_key(*event_identifier) {
                    assert(self@ =~= old(self)@.insert(*event_identifier, self@[*event_identifier]));
                } else {
                    assert(self@ =~= old(self)@);
                }
            }
        }
    }

    /// The number of listeners that are registered for `event_identifier` in
    /// the tier of `priority`, those that are gone and not yet purged
    /// included.
    pub fn listener_count(&self, event_identifier: &T, priority: &P) -> (count: usize)
        ensures
            obeys_key_model::<T>() && ordered::<P>() ==> count == subscribers_of(
                tiers_of(self@, *event_identifier),
                *priority,
            ).listeners.len(),
    {
        match self.events.get(event_identifier) {
            Some(prioritised_listener_collection) => match prioritised_listener_collection.get(
                priority,
            ) {
                Some(listener_collection) => listener_collection.traits.len(),
                None => 0,
            },
            None => 0,
        }
    }

    /// The number of closures that are registered for `event_identifier` in
    /// the tier of `priority`.
    pub fn fn_count(&self, event_identifier: &T, priority: &P) -> (count: usize)
        ensures
            obeys_key_model::<T>() && ordered::<P>() ==> count == subscribers_of(
                tiers_of(self@, *event_identifier),
                *priority,
            ).closures.len(),
    {
        match self.events.get(event_identifier) {
            Some(prioritised_listener_collection) => match prioritised_listener_collection.get(
                priority,
            ) {
                Some(listener_collection) => listener_collection.fns.len(),
                None => 0,
            },
            None => 0,
        }
    }
}

} // verus!