//! The subscribers of one event, and the passes that a synchronous dispatch
//! makes over them.
//!
//! A collection holds the weak handles of the listeners and the closures, each
//! in the order of registration. A dispatch first notifies the listeners, then
//! calls the closures. A listener that is found gone is passed over; it marks
//! the collection as stale, and a stale collection is purged of every handle
//! whose listener is gone.

use vstd::prelude::*;
use std::hash::Hash;
use crate::protocol::apply_request;
use crate::protocol::conversation;
use crate::protocol::execute_sync_dispatcher_requests;
use crate::protocol::answers_of;
use crate::protocol::lemma_pass_follows_mapping_visited;
use crate::protocol::lemma_visit_is_visited;
use crate::protocol::visits;
use crate::protocol::lemma_pass_under_wider;
use crate::protocol::lemma_run_keeps_all;
use crate::protocol::lemma_visits_within;
use crate::protocol::run;
use crate::protocol::lemma_replay_push;
use crate::protocol::passes;
use crate::protocol::replay;
use crate::protocol::verdict;
use crate::protocol::Progress;
use crate::request::stops;
use crate::request::ExecuteRequestsResult;
use crate::request::SyncDispatcherRequest;
use crate::subscriber::Callback;
use crate::subscriber::Delivery;
use crate::subscriber::WeakListener;

verus! {

/// What a collection holds: its listeners and its closures, each in the order
/// of registration.
pub struct Subscribers<L, C> {
    pub listeners: Seq<L>,
    pub closures: Seq<C>,
}

impl<L, C> Subscribers<L, C> {
    /// The collection that holds nothing.
    pub open spec fn empty() -> Self {
        Subscribers { listeners: Seq::empty(), closures: Seq::empty() }
    }
}

/// What is registered for `event`: the collection that the map holds for it,
/// or nothing where the map holds none.
pub open spec fn subscribers_of<K, L, C>(events: Map<K, Subscribers<L, C>>, event: K) -> Subscribers<
    L,
    C,
> {
    if events.contains_key(event) {
        events[event]
    } else {
        Subscribers::empty()
    }
}

/// `before` with `listener` registered after the listeners that it has.
pub open spec fn with_listener<L, C>(before: Subscribers<L, C>, listener: L) -> Subscribers<L, C> {
    Subscribers { listeners: before.listeners.push(listener), closures: before.closures }
}

/// `before` with `closure` registered after the closures that it has.
pub open spec fn with_closure<L, C>(before: Subscribers<L, C>, closure: C) -> Subscribers<L, C> {
    Subscribers { listeners: before.listeners, closures: before.closures.push(closure) }
}

/// `after` holds nothing that `before` does not hold, and nothing more often.
pub open spec fn dwindled<L, C>(before: Subscribers<L, C>, after: Subscribers<L, C>) -> bool {
    &&& after.listeners.to_multiset().subset_of(before.listeners.to_multiset())
    &&& after.listeners.len() <= before.listeners.len()
    &&& after.closures.to_multiset().subset_of(before.closures.to_multiset())
    &&& after.closures.len() <= before.closures.len()
}

/// The listeners and closures that are registered for one event of a
/// synchronous dispatcher.
#[verifier::reject_recursive_types(T)]
pub struct FnsAndTraits<T> where T: PartialEq + Eq + Hash + Clone + Send + Sync + 'static {
    pub traits: Vec<WeakListener<T, SyncDispatcherRequest>>,
    pub fns: Vec<Callback<T, SyncDispatcherRequest>>,
}

impl<T> View for FnsAndTraits<T> where T: PartialEq + Eq + Hash + Clone + Send + Sync + 'static {
    type V = Subscribers<WeakListener<T, SyncDispatcherRequest>, Callback<T, SyncDispatcherRequest>>;

    /// The listeners and the closures of the collection, as sequences.
    open spec fn view(&self) -> Self::V {
        Subscribers { listeners: self.traits@, closures: self.fns@ }
    }
}

impl<T> FnsAndTraits<T> where T: PartialEq + Eq + Hash + Clone + Send + Sync + 'static {
    /// A collection of the given listeners, without closures.
    pub fn new_with_traits(trait_objects: Vec<WeakListener<T, SyncDispatcherRequest>>) -> (collection: Self)
        ensures
            collection@.listeners == trait_objects@,
            collection@.closures == Seq::<Callback<T, SyncDispatcherRequest>>::empty(),
    {
        FnsAndTraits { traits: trait_objects, fns: Vec::new() }
    }

    /// A collection of the given closures, without listeners.
    pub fn new_with_fns(fns: Vec<Callback<T, SyncDispatcherRequest>>) -> (collection: Self)
        ensures
            collection@.listeners == Seq::<WeakListener<T, SyncDispatcherRequest>>::empty(),
            collection@.closures == fns@,
    {
        FnsAndTraits { traits: Vec::new(), fns }
    }
}

/// The answers that a pass goes by when it hands `event` to a listener: the
/// answer to a delivery that the handle can come to.
pub open spec fn heard<T>(event: &T) -> spec_fn(
    WeakListener<T, SyncDispatcherRequest>,
    Option<SyncDispatcherRequest>,
) -> bool where T: PartialEq + Eq + Hash + Clone + Send + Sync + 'static {
    |listener: WeakListener<T, SyncDispatcherRequest>, answer: Option<SyncDispatcherRequest>|
        exists|delivery: Delivery<SyncDispatcherRequest>| #[trigger]
            listener.delivers(event, delivery) && answer == answer_to(delivery)
}

/// The answers that a closure can give when it is called with `event`.
pub open spec fn called<T>(event: &T) -> spec_fn(
    Callback<T, SyncDispatcherRequest>,
    Option<SyncDispatcherRequest>,
) -> bool where T: PartialEq + Eq + Hash + Clone + Send + Sync + 'static {
    |closure: Callback<T, SyncDispatcherRequest>, answer: Option<SyncDispatcherRequest>|
        closure.gives(event, answer)
}

/// The answer that a pass goes by after a delivery: the listener's own, or
/// none where the listener is gone.
pub open spec fn answer_to(delivery: Delivery<SyncDispatcherRequest>) -> Option<SyncDispatcherRequest> {
    match delivery {
        Delivery::Answered(answer) => answer,
        Delivery::Gone => None,
    }
}

/// The answers that a pass goes by after these deliveries.
pub open spec fn answers_to(deliveries: Seq<Delivery<SyncDispatcherRequest>>) -> Seq<
    Option<SyncDispatcherRequest>,
> {
    deliveries.map_values(|delivery: Delivery<SyncDispatcherRequest>| answer_to(delivery))
}

/// `deliveries` is what a whole pass over the listeners `before` came to when
/// it handed `event` to them: each delivery is one that the handle visited at
/// that step can come to for `event`, and their answers are the conversation
/// of the pass.
pub open spec fn delivered_to<T>(
    before: Seq<WeakListener<T, SyncDispatcherRequest>>,
    event: &T,
    deliveries: Seq<Delivery<SyncDispatcherRequest>>,
) -> bool where T: PartialEq + Eq + Hash + Clone + Send + Sync + 'static {
    &&& conversation(before, heard(event), answers_to(deliveries))
    &&& forall|k: int|
        0 <= k < deliveries.len() ==> {
            let at = #[trigger] replay(before, answers_to(deliveries).take(k));
            at.items[at.index].delivers(event, deliveries[k])
        }
}

/// A pass that hands `event` to the listeners `before` can leave `after` and
/// end with `result`: it is the pass of the protocol for the answers to the
/// deliveries that the handles came to, and `stale` tells whether one of
/// these deliveries found its listener gone.
pub open spec fn notified<T>(
    before: Seq<WeakListener<T, SyncDispatcherRequest>>,
    event: &T,
    after: Seq<WeakListener<T, SyncDispatcherRequest>>,
    result: ExecuteRequestsResult,
    stale: bool,
) -> bool where T: PartialEq + Eq + Hash + Clone + Send + Sync + 'static {
    exists|deliveries: Seq<Delivery<SyncDispatcherRequest>>|
        {
            &&& #[trigger] delivered_to(before, event, deliveries)
            &&& after == replay(before, answers_to(deliveries)).items
            &&& result == verdict(answers_to(deliveries))
            &&& stale <==> deliveries.contains(Delivery::Gone)
        }
}

/// `items` without the elements whose flag in `keep` is false, in the order
/// of `items`.
pub open spec fn kept<L>(items: Seq<L>, keep: Seq<bool>) -> Seq<L>
    decreases items.len(),
{
    if items.len() == 0 || keep.len() != items.len() {
        Seq::empty()
    } else if keep[0] {
        seq![items[0]] + kept(items.drop_first(), keep.drop_first())
    } else {
        kept(items.drop_first(), keep.drop_first())
    }
}

/// A purge of `before` can leave `after`: a search was made for the listener
/// of each handle, and the handles whose listener was found stand in their
/// old order, without the others.
pub open spec fn purged<T, R>(before: Seq<WeakListener<T, R>>, after: Seq<WeakListener<T, R>>) -> bool {
    exists|alive: Seq<bool>|
        {
            &&& alive.len() == before.len()
            &&& after == #[trigger] kept(before, alive)
            &&& forall|i: int|
                0 <= i < before.len() ==> (#[trigger] before[i]).found_alive(alive[i])
        }
}

/// What a delivery means for the pass: the answer to go by, and whether the
/// listener was found gone.
pub fn note_delivery(delivery: Delivery<SyncDispatcherRequest>) -> (noted: (
    Option<SyncDispatcherRequest>,
    bool,
))
    ensures
        noted.0 == answer_to(delivery),
        noted.1 <==> delivery is Gone,
{
    match delivery {
        Delivery::Answered(answer) => (answer, false),
        Delivery::Gone => (None, true),
    }
}

/// Hands `event` to the listeners, one after the other from the front, and
/// carries out each answer as the protocol says. A listener that is gone is
/// passed over as if it had asked for nothing.
///
/// Returns how the pass ended, and whether it found a listener gone.
pub fn notify_listeners<T>(traits: &mut Vec<WeakListener<T, SyncDispatcherRequest>>, event: &T) -> (outcome:
    (ExecuteRequestsResult, bool)) where T: PartialEq + Eq + Hash + Clone + Send + Sync + 'static
    ensures
        notified(old(traits)@, event, final(traits)@, outcome.0, outcome.1),
        old(traits)@.len() == 0 ==> final(traits)@.len() == 0 && outcome.0 is Finished
            && !outcome.1,
{
    let mut index: usize = 0;
    let mut result = ExecuteRequestsResult::Finished;
    let mut stale = false;
    let ghost mut deliveries: Seq<Delivery<SyncDispatcherRequest>> = Seq::empty();
    loop
        invariant_except_break
            replay(old(traits)@, answers_to(deliveries)) == (Progress {
                items: traits@,
                index: index as int,
            }),
            index <= traits@.len(),
            forall|k: int|
                0 <= k < deliveries.len() ==> {
                    let at = #[trigger] replay(old(traits)@, answers_to(deliveries).take(k));
                    &&& 0 <= at.index < at.items.len()
                    &&& at.items[at.index].delivers(event, deliveries[k])
                },
            forall|k: int| 0 <= k < deliveries.len() ==> !stops(#[trigger] answers_to(deliveries)[k]),
            stale <==> deliveries.contains(Delivery::Gone),
            old(traits)@.len() == 0 ==> deliveries.len() == 0,
        ensures
            notified(old(traits)@, event, traits@, result, stale),
            old(traits)@.len() == 0 ==> traits@.len() == 0 && result is Finished && !stale,
        decreases traits@.len() - index,
    {
        if index < traits.len() {
            let delivery = traits[index].deliver(event);
            let ghost earlier = deliveries;
            proof {
                deliveries = earlier.push(delivery);
                assert(answers_to(deliveries) =~= answers_to(earlier).push(answer_to(delivery)));
                lemma_replay_push(old(traits)@, answers_to(earlier), answer_to(delivery));
                assert(answers_to(deliveries).take(earlier.len() as int) == answers_to(earlier));
                assert forall|k: int| 0 <= k < earlier.len() implies answers_to(deliveries).take(k)
                    == answers_to(earlier).take(k) by {}
                assert(deliveries.last() == delivery);
                assert forall|k: int| 0 <= k < earlier.len() implies deliveries[k]
                    == earlier[k] by {}
                assert(old(traits)@.len() > 0) by {
                    if earlier.len() > 0 {
                        let first = replay(old(traits)@, answers_to(earlier).take(0));
                    }
                }
            }
            let (answer, gone) = note_delivery(delivery);
            if gone {
                stale = true;
            }
            match apply_request(traits, index, answer) {
                Some(next) => {
                    index = next;
                },
                None => {
                    result = ExecuteRequestsResult::Stopped;
                    proof {
                        lemma_deliveries_converse(old(traits)@, event, deliveries);
                    }
                    break ;
                },
            }
        } else {
            result = ExecuteRequestsResult::Finished;
            proof {
                lemma_deliveries_converse(old(traits)@, event, deliveries);
                if old(traits)@.len() == 0 {
                    assert(answers_to(deliveries) =~= Seq::empty());
                }
            }
            break ;
        }
    }
    (result, stale)
}

/// Deliveries that the visited handles came to, of which only the last stops
/// the pass and which end with a stop or at the end of the sequence, are what
/// a whole pass came to.
proof fn lemma_deliveries_converse<T>(
    before: Seq<WeakListener<T, SyncDispatcherRequest>>,
    event: &T,
    deliveries: Seq<Delivery<SyncDispatcherRequest>>,
) where T: PartialEq + Eq + Hash + Clone + Send + Sync + 'static
    requires
        forall|k: int|
            0 <= k < deliveries.len() ==> {
                let at = #[trigger] replay(before, answers_to(deliveries).take(k));
                &&& 0 <= at.index < at.items.len()
                &&& at.items[at.index].delivers(event, deliveries[k])
            },
        forall|k: int|
            0 <= k < deliveries.len() - 1 ==> !stops(#[trigger] answers_to(deliveries)[k]),
        verdict(answers_to(deliveries)) is Finished ==> replay(
            before,
            answers_to(deliveries),
        ).index >= replay(before, answers_to(deliveries)).items.len(),
    ensures
        delivered_to(before, event, deliveries),
{
    let answers = answers_to(deliveries);
    assert forall|k: int| 0 <= k < answers.len() implies {
        let at = #[trigger] replay(before, answers.take(k));
        &&& 0 <= at.index < at.items.len()
        &&& heard(event)(at.items[at.index], answers[k])
        &&& stops(answers[k]) ==> k == answers.len() - 1
    } by {
        let at = replay(before, answers.take(k));
        assert(at.items[at.index].delivers(event, deliveries[k]));
        assert(answers[k] == answer_to(deliveries[k]));
    }
}

/// Calls the closures with `event`, one after the other from the front, and
/// carries out each answer as the protocol says.
///
/// Returns how the pass ended.
pub fn call_closures<T>(fns: &mut Vec<Callback<T, SyncDispatcherRequest>>, event: &T) -> (result:
    ExecuteRequestsResult) where T: PartialEq + Eq + Hash + Clone + Send + Sync + 'static
    ensures
        passes(old(fns)@, called(event), final(fns)@, result),
        old(fns)@.len() == 0 ==> final(fns)@.len() == 0 && result is Finished,
{
    let call = |callback: &Callback<T, SyncDispatcherRequest>| -> (answer: Option<
        SyncDispatcherRequest,
    >)
        ensures
            callback.gives(event, answer),
        {
            callback.answer(event)
        };
    let result = execute_sync_dispatcher_requests(fns, call);
    proof {
        lemma_pass_under_wider(old(fns)@, answers_of(call), called(event), fns@, result);
    }
    result
}

/// Keeps the elements of `vec` whose flag in `keep` is set, in their order,
/// and drops the others. `keep` has one flag for each element.
pub fn keep_flagged<L>(vec: &mut Vec<L>, keep: &Vec<bool>)
    requires
        keep@.len() == old(vec)@.len(),
    ensures
        final(vec)@ == kept(old(vec)@, keep@),
{
    let mut reversed: Vec<L> = Vec::new();
    while vec.len() > 0
        invariant
            keep@.len() == old(vec)@.len(),
            vec@ == old(vec)@.take(vec@.len() as int),
            vec@.len() <= old(vec)@.len(),
            reversed@ == kept(
                old(vec)@.skip(vec@.len() as int),
                keep@.skip(vec@.len() as int),
            ).reverse(),
        decreases vec@.len(),
    {
        let ghost remaining = vec@.len() as int;
        let ghost later = old(vec)@.skip(remaining);
        let ghost flags = keep@.skip(remaining);
        let stays = keep[vec.len() - 1];
        let item = vec.pop().unwrap();
        proof {
            assert(old(vec)@.skip(remaining - 1) =~= seq![item] + later);
            assert(keep@.skip(remaining - 1) =~= seq![stays] + flags);
            lemma_kept_first(item, later, stays, flags);
            let tail = kept(later, flags);
            assert((seq![item] + tail).reverse() =~= tail.reverse().push(item));
            assert(vec@ =~= old(vec)@.take(remaining - 1));
        }
        if stays {
            reversed.push(item);
        }
    }
    proof {
        assert(old(vec)@.skip(0) =~= old(vec)@);
        assert(keep@.skip(0) =~= keep@);
    }
    let ghost survivors = kept(old(vec)@, keep@);
    while reversed.len() > 0
        invariant
            reversed@ == survivors.reverse().take(reversed@.len() as int),
            reversed@.len() <= survivors.len(),
            vec@ == survivors.take(survivors.len() - reversed@.len()),
        decreases reversed@.len(),
    {
        let ghost left = reversed@.len() as int;
        let item = reversed.pop().unwrap();
        vec.push(item);
        proof {
            assert(item == survivors[survivors.len() - left]);
            assert(reversed@ =~= survivors.reverse().take(left - 1));
            assert(vec@ =~= survivors.take(survivors.len() - left + 1));
        }
    }
    proof {
        assert(vec@ =~= survivors);
    }
}

/// Searches for the listener of every handle, from the front, and drops the
/// handles whose listener was not found. The others keep their order.
pub fn retain_live<T>(traits: &mut Vec<WeakListener<T, SyncDispatcherRequest>>) where
    T: PartialEq + Eq + Hash + Clone + Send + Sync + 'static,

    ensures
        purged(old(traits)@, final(traits)@),
{
    let mut alive: Vec<bool> = Vec::new();
    let mut index: usize = 0;
    while index < traits.len()
        invariant
            traits@ == old(traits)@,
            index <= traits@.len(),
            alive@.len() == index,
            forall|i: int| 0 <= i < index ==> (#[trigger] traits@[i]).found_alive(alive@[i]),
        decreases traits@.len() - index,
    {
        let found = traits[index].is_alive();
        alive.push(found);
        index += 1;
    }
    keep_flagged(traits, &alive);
    proof {
        assert(traits@ == kept(old(traits)@, alive@));
    }
}

/// The deliveries that a pass over the listeners came to.
pub proof fn lemma_notified_deliveries<T>(
    before: Seq<WeakListener<T, SyncDispatcherRequest>>,
    event: &T,
    after: Seq<WeakListener<T, SyncDispatcherRequest>>,
    result: ExecuteRequestsResult,
    stale: bool,
) -> (deliveries: Seq<Delivery<SyncDispatcherRequest>>) where
    T: PartialEq + Eq + Hash + Clone + Send + Sync + 'static,

    requires
        notified(before, event, after, result, stale),
    ensures
        delivered_to(before, event, deliveries),
        after == replay(before, answers_to(deliveries)).items,
        result == verdict(answers_to(deliveries)),
        stale <==> deliveries.contains(Delivery::Gone),
{
    choose|deliveries: Seq<Delivery<SyncDispatcherRequest>>|
        {
            &&& #[trigger] delivered_to(before, event, deliveries)
            &&& after == replay(before, answers_to(deliveries)).items
            &&& result == verdict(answers_to(deliveries))
            &&& stale <==> deliveries.contains(Delivery::Gone)
        }
}

/// A pass over the listeners is a pass of the protocol, under the answers
/// that the listeners can be heard to give to the event.
pub proof fn lemma_notified_passes<T>(
    before: Seq<WeakListener<T, SyncDispatcherRequest>>,
    event: &T,
    after: Seq<WeakListener<T, SyncDispatcherRequest>>,
    result: ExecuteRequestsResult,
    stale: bool,
) where T: PartialEq + Eq + Hash + Clone + Send + Sync + 'static
    requires
        notified(before, event, after, result, stale),
    ensures
        passes(before, heard(event), after, result),
{
    let deliveries = lemma_notified_deliveries(before, event, after, result, stale);
    assert(conversation(before, heard(event), answers_to(deliveries)));
}

/// Keeping the first element, or not, and then what is kept of the rest.
proof fn lemma_kept_first<L>(first: L, rest: Seq<L>, keep_first: bool, keep_rest: Seq<bool>)
    requires
        keep_rest.len() == rest.len(),
    ensures
        kept(seq![first] + rest, seq![keep_first] + keep_rest) == if keep_first {
            seq![first] + kept(rest, keep_rest)
        } else {
            kept(rest, keep_rest)
        },
{
    assert((seq![first] + rest).drop_first() =~= rest);
    assert((seq![keep_first] + keep_rest).drop_first() =~= keep_rest);
}

/// Keeping the last element, or not, after what is kept of those before it.
pub proof fn lemma_kept_last<L>(items: Seq<L>, keep: Seq<bool>, last: L, keep_last: bool)
    requires
        keep.len() == items.len(),
    ensures
        kept(items.push(last), keep.push(keep_last)) == if keep_last {
            kept(items, keep).push(last)
        } else {
            kept(items, keep)
        },
    decreases items.len(),
{
    let longer = items.push(last);
    let flags = keep.push(keep_last);
    if items.len() == 0 {
        assert(longer.drop_first() =~= Seq::<L>::empty());
        assert(flags.drop_first() =~= Seq::<bool>::empty());
        assert(kept(longer.drop_first(), flags.drop_first()) =~= Seq::<L>::empty());
        assert(kept(items, keep) =~= Seq::<L>::empty());
        if keep_last {
            assert(seq![longer[0]] + Seq::<L>::empty() =~= Seq::<L>::empty().push(last));
        }
    } else {
        lemma_kept_last(items.drop_first(), keep.drop_first(), last, keep_last);
        assert(longer.drop_first() =~= items.drop_first().push(last));
        assert(flags.drop_first() =~= keep.drop_first().push(keep_last));
        let tail = kept(items.drop_first(), keep.drop_first());
        if keep[0] {
            if keep_last {
                assert(seq![items[0]] + tail.push(last) =~= (seq![items[0]] + tail).push(last));
            }
        }
    }
}

/// What is kept of a sequence was there before, no more often than it was
/// there.
pub proof fn lemma_kept_only_removes<L>(items: Seq<L>, keep: Seq<bool>)
    ensures
        kept(items, keep).to_multiset().subset_of(items.to_multiset()),
        kept(items, keep).len() <= items.len(),
    decreases items.len(),
{
    broadcast use vstd::seq_lib::group_to_multiset_ensures;

    if items.len() == 0 || keep.len() != items.len() {
    } else {
        let rest = items.drop_first();
        lemma_kept_only_removes(rest, keep.drop_first());
        let tail = kept(rest, keep.drop_first());
        assert(items =~= rest.insert(0, items[0]));
        if keep[0] {
            assert(kept(items, keep) =~= tail.insert(0, items[0]));
        }
    }
}

/// Where every flag is set, everything is kept.
pub proof fn lemma_kept_all<L>(items: Seq<L>, keep: Seq<bool>)
    requires
        keep.len() == items.len(),
        forall|i: int| 0 <= i < keep.len() ==> keep[i],
    ensures
        kept(items, keep) == items,
    decreases items.len(),
{
    if items.len() > 0 {
        assert forall|i: int| 0 <= i < keep.drop_first().len() implies keep.drop_first()[i] by {
            assert(keep.drop_first()[i] == keep[i + 1]);
        }
        lemma_kept_all(items.drop_first(), keep.drop_first());
        assert(seq![items[0]] + items.drop_first() =~= items);
    } else {
        assert(items =~= Seq::<L>::empty());
    }
}

/// A purge keeps exactly the handles whose listener is there: where the
/// search for the listener of each handle can only tell what `alive` says of
/// it, the purge leaves the handles that `alive` flags, in their order.
pub proof fn lemma_purged_by_search<T, R>(
    before: Seq<WeakListener<T, R>>,
    after: Seq<WeakListener<T, R>>,
    alive: Seq<bool>,
)
    requires
        purged(before, after),
        alive.len() == before.len(),
        forall|i: int, found: bool|
            0 <= i < before.len() && #[trigger] before[i].found_alive(found) ==> found == alive[i],
    ensures
        after == kept(before, alive),
{
    let told = choose|told: Seq<bool>|
        {
            &&& told.len() == before.len()
            &&& after == #[trigger] kept(before, told)
            &&& forall|i: int| 0 <= i < before.len() ==> (#[trigger] before[i]).found_alive(told[i])
        };
    assert forall|i: int| 0 <= i < told.len() implies told[i] == alive[i] by {
        assert(before[i].found_alive(told[i]));
    }
    assert(told =~= alive);
}

/// Every listener that a pass following `mapping` hands `event` to is there
/// and can only give the event the answer that `mapping` assigns to it.
pub open spec fn listeners_ask<T>(
    listeners: Seq<WeakListener<T, SyncDispatcherRequest>>,
    event: &T,
    mapping: spec_fn(WeakListener<T, SyncDispatcherRequest>) -> Option<SyncDispatcherRequest>,
) -> bool where T: PartialEq + Eq + Hash + Clone + Send + Sync + 'static {
    forall|k: int, delivery: Delivery<SyncDispatcherRequest>|
        0 <= k < visits(listeners, mapping).len() && #[trigger] visits(
            listeners,
            mapping,
        )[k].delivers(event, delivery) ==> delivery == Delivery::Answered(
            mapping(visits(listeners, mapping)[k]),
        )
}

/// Every closure that a pass following `mapping` calls with `event` can only
/// give the event the answer that `mapping` assigns to it.
pub open spec fn closures_answer<T>(
    closures: Seq<Callback<T, SyncDispatcherRequest>>,
    event: &T,
    mapping: spec_fn(Callback<T, SyncDispatcherRequest>) -> Option<SyncDispatcherRequest>,
) -> bool where T: PartialEq + Eq + Hash + Clone + Send + Sync + 'static {
    forall|k: int, answer: Option<SyncDispatcherRequest>|
        0 <= k < visits(closures, mapping).len() && #[trigger] visits(closures, mapping)[k].gives(
            event,
            answer,
        ) ==> answer == mapping(visits(closures, mapping)[k])
}

/// A pass over listeners of which those that it hands the event to are there
/// and can only give the answer that `mapping` assigns to them leaves what
/// the protocol computes for `mapping`, ends as it says, and finds no
/// listener gone. Of the listeners behind a stop nothing is asked.
pub proof fn lemma_notified_follows_mapping<T>(
    before: Seq<WeakListener<T, SyncDispatcherRequest>>,
    event: &T,
    mapping: spec_fn(WeakListener<T, SyncDispatcherRequest>) -> Option<SyncDispatcherRequest>,
    after: Seq<WeakListener<T, SyncDispatcherRequest>>,
    result: ExecuteRequestsResult,
    stale: bool,
) where T: PartialEq + Eq + Hash + Clone + Send + Sync + 'static
    requires
        notified(before, event, after, result, stale),
        listeners_ask(before, event, mapping),
    ensures
        (after, result) == run(before, mapping),
        !stale,
{
    lemma_notified_passes(before, event, after, result, stale);
    assert forall|j: int, answer: Option<SyncDispatcherRequest>|
        0 <= j < visits(before, mapping).len() && #[trigger] heard(event)(
            visits(before, mapping)[j],
            answer,
        ) implies answer == mapping(visits(before, mapping)[j]) by {
        let delivery = choose|delivery: Delivery<SyncDispatcherRequest>| #[trigger]
            visits(before, mapping)[j].delivers(event, delivery) && answer == answer_to(delivery);
    }
    lemma_pass_follows_mapping_visited(before, heard(event), mapping, after, result);
    let deliveries = lemma_notified_deliveries(before, event, after, result, stale);
    if stale {
        let k = choose|k: int| 0 <= k < deliveries.len() && deliveries[k] == Delivery::<
            SyncDispatcherRequest,
        >::Gone;
        let at = replay(before, answers_to(deliveries).take(k));
        assert(at.items[at.index].delivers(event, deliveries[k]));
        lemma_visit_is_visited(before, heard(event), mapping, answers_to(deliveries), k);
        assert(visits(before, mapping)[k].delivers(event, deliveries[k]));
    }
}

/// The first `k` deliveries of a pass in which no listener asks for anything
/// leave the sequence as it is and the cursor at `k`, and each of them went
/// to the handle at its own position.
proof fn lemma_quiet_deliveries<T>(
    before: Seq<WeakListener<T, SyncDispatcherRequest>>,
    event: &T,
    deliveries: Seq<Delivery<SyncDispatcherRequest>>,
    k: int,
) where T: PartialEq + Eq + Hash + Clone + Send + Sync + 'static
    requires
        delivered_to(before, event, deliveries),
        forall|i: int, delivery: Delivery<SyncDispatcherRequest>|
            0 <= i < before.len() && #[trigger] before[i].delivers(event, delivery) ==> answer_to(
                delivery,
            ) is None,
        0 <= k <= deliveries.len(),
    ensures
        replay(before, answers_to(deliveries).take(k)) == (Progress { items: before, index: k }),
        k <= before.len(),
        forall|j: int| 0 <= j < k ==> before[j].delivers(event, #[trigger] deliveries[j]),
    decreases k,
{
    let answers = answers_to(deliveries);
    if k == 0 {
        assert(answers.take(0) =~= Seq::empty());
    } else {
        lemma_quiet_deliveries(before, event, deliveries, k - 1);
        let at = replay(before, answers.take(k - 1));
        assert(at.items[at.index].delivers(event, deliveries[k - 1]));
        assert(answers[k - 1] == answer_to(deliveries[k - 1]));
        assert(answers.take(k).drop_last() =~= answers.take(k - 1));
        assert(answers.take(k).last() == answers[k - 1]);
    }
}

/// A pass over listeners of which none asks for anything hands the event to
/// every one of them, keeps them all in their order and ends as `Finished`.
/// It finds a listener gone exactly where one is gone, `gone` telling of each
/// handle whether its listener is.
pub proof fn lemma_notified_quiet<T>(
    before: Seq<WeakListener<T, SyncDispatcherRequest>>,
    event: &T,
    gone: Seq<bool>,
    after: Seq<WeakListener<T, SyncDispatcherRequest>>,
    result: ExecuteRequestsResult,
    stale: bool,
) where T: PartialEq + Eq + Hash + Clone + Send + Sync + 'static
    requires
        notified(before, event, after, result, stale),
        gone.len() == before.len(),
        forall|i: int, delivery: Delivery<SyncDispatcherRequest>|
            0 <= i < before.len() && #[trigger] before[i].delivers(event, delivery) ==> answer_to(
                delivery,
            ) is None && (delivery is Gone <==> gone[i]),
    ensures
        after == before,
        result is Finished,
        stale <==> exists|i: int| 0 <= i < gone.len() && gone[i],
{
    let deliveries = lemma_notified_deliveries(before, event, after, result, stale);
    let answers = answers_to(deliveries);
    let n = deliveries.len() as int;
    lemma_quiet_deliveries(before, event, deliveries, n);
    assert(answers.take(n) =~= answers);
    if n > 0 {
        assert(before[n - 1].delivers(event, deliveries[n - 1]));
        assert(answers.last() == answer_to(deliveries[n - 1]));
    }
    assert(n == before.len());
    if stale {
        let k = choose|k: int| 0 <= k < deliveries.len() && deliveries[k] == Delivery::<
            SyncDispatcherRequest,
        >::Gone;
        assert(before[k].delivers(event, deliveries[k]));
        assert(gone[k]);
    }
    if exists|i: int| 0 <= i < gone.len() && gone[i] {
        let i = choose|i: int| 0 <= i < gone.len() && gone[i];
        assert(before[i].delivers(event, deliveries[i]));
        assert(deliveries[i] is Gone);
        assert(deliveries[i] == Delivery::<SyncDispatcherRequest>::Gone);
        assert(deliveries.contains(Delivery::Gone));
    }
}

/// A pass over closures of which those that it calls can only give the event
/// the answer that `mapping` assigns to them leaves what the protocol
/// computes for `mapping` and ends as it says. Of the closures behind a stop
/// nothing is asked.
pub proof fn lemma_called_follows_mapping<T>(
    before: Seq<Callback<T, SyncDispatcherRequest>>,
    event: &T,
    mapping: spec_fn(Callback<T, SyncDispatcherRequest>) -> Option<SyncDispatcherRequest>,
    after: Seq<Callback<T, SyncDispatcherRequest>>,
    result: ExecuteRequestsResult,
) where T: PartialEq + Eq + Hash + Clone + Send + Sync + 'static
    requires
        passes(before, called(event), after, result),
        closures_answer(before, event, mapping),
    ensures
        (after, result) == run(before, mapping),
{
    assert forall|j: int, answer: Option<SyncDispatcherRequest>|
        0 <= j < visits(before, mapping).len() && #[trigger] called(event)(
            visits(before, mapping)[j],
            answer,
        ) implies answer == mapping(visits(before, mapping)[j]) by {
        assert(visits(before, mapping)[j].gives(event, answer));
    }
    lemma_pass_follows_mapping_visited(before, called(event), mapping, after, result);
}

/// A pass over closures of which none can ask for anything calls every one
/// of them, keeps them all in their order and ends as `Finished`.
pub proof fn lemma_called_quiet<T>(
    before: Seq<Callback<T, SyncDispatcherRequest>>,
    event: &T,
    after: Seq<Callback<T, SyncDispatcherRequest>>,
    result: ExecuteRequestsResult,
) where T: PartialEq + Eq + Hash + Clone + Send + Sync + 'static
    requires
        passes(before, called(event), after, result),
        forall|j: int, answer: Option<SyncDispatcherRequest>|
            0 <= j < before.len() && #[trigger] before[j].gives(event, answer) ==> answer is None,
    ensures
        after == before,
        result is Finished,
{
    let silent = |closure: Callback<T, SyncDispatcherRequest>| None::<SyncDispatcherRequest>;
    lemma_run_keeps_all(before, silent);
    lemma_visits_within(before, silent);
    assert forall|k: int, answer: Option<SyncDispatcherRequest>|
        0 <= k < visits(before, silent).len() && #[trigger] visits(before, silent)[k].gives(
            event,
            answer,
        ) implies answer == silent(visits(before, silent)[k]) by {
        let visited = visits(before, silent)[k];
        assert(before.contains(visited));
        let j = choose|j: int| 0 <= j < before.len() && before[j] == visited;
        assert(before[j].gives(event, answer));
    }
    lemma_called_follows_mapping(before, event, silent, after, result);
}

/// What a purge leaves was there before, no more often than it was there.
pub proof fn lemma_purged_only_removes<T, R>(
    before: Seq<WeakListener<T, R>>,
    after: Seq<WeakListener<T, R>>,
)
    requires
        purged(before, after),
    ensures
        after.to_multiset().subset_of(before.to_multiset()),
        after.len() <= before.len(),
{
    let alive = choose|alive: Seq<bool>|
        {
            &&& alive.len() == before.len()
            &&& after == #[trigger] kept(before, alive)
            &&& forall|i: int|
                0 <= i < before.len() ==> (#[trigger] before[i]).found_alive(alive[i])
        };
    lemma_kept_only_removes(before, alive);
}

} // verus!
