//! The parallel dispatcher.
//!
//! A dispatch hands the event to all listeners and to all closures of the
//! event at once: the two groups run as two joined tasks, and each task works
//! through its group in parallel. Every subscriber only says whether it wants
//! to be removed. When both tasks are done, the dispatcher removes the
//! subscribers that said so, and the listeners that were found gone.

use vstd::prelude::*;
use std::collections::HashMap;
use std::error::Error;
use std::hash::Hash;
use std::sync::Arc;
use parking_lot::Mutex;
use rayon::iter::IntoParallelRefIterator;
use rayon::iter::ParallelIterator;
use rayon::ThreadPool;
use rayon::ThreadPoolBuildError;
use rayon::ThreadPoolBuilder;
use vstd::std_specs::hash::obeys_key_model;
use crate::collection::dwindled;
use crate::collection::kept;
use crate::collection::lemma_kept_only_removes;
use crate::collection::lemma_kept_last;
use crate::collection::Subscribers;
use crate::collection::subscribers_of;
use crate::collection::with_closure;
use crate::collection::with_listener;
use crate::maps::entry_of;
use crate::protocol::lemma_swap_removed_multiset;
use crate::protocol::swap_removed;
use crate::request::ParallelDispatcherRequest;
use crate::subscriber::Callback;
use crate::subscriber::Delivery;
use crate::subscriber::ParallelListener;
use crate::subscriber::WeakListener;

verus! {

/// Why a thread pool could not be built.
#[derive(Debug)]
pub enum BuildError {
    /// The pool's builder failed; this is how it describes the failure.
    NumThreads(String),
}

/// The thread pool of `rayon`. Nothing is known of what it holds.
#[verifier::external_type_specification]
#[verifier::external_body]
pub struct ExThreadPool(ThreadPool);

/// The error of `rayon`'s pool builder. Nothing is known of what it holds.
#[verifier::external_type_specification]
#[verifier::external_body]
pub struct ExThreadPoolBuildError(ThreadPoolBuildError);

/// Calls `ThreadPoolBuilder::new`, sets the number of threads with
/// `ThreadPoolBuilder::num_threads` and calls `ThreadPoolBuilder::build`.
/// Whether the pool can be built depends on the machine, so nothing is
/// claimed of the result.
#[verifier::external_body]
fn build_thread_pool(num: usize) -> Result<ThreadPool, ThreadPoolBuildError> {
    ThreadPoolBuilder::new().num_threads(num).build()
}

/// The builder's error `error`, asked by `describe` for its description, can
/// give `text`.
pub closed spec fn described(error: ThreadPoolBuildError, text: String) -> bool {
    call_ensures(describe, (&error,), text)
}

/// The pool's builder, asked by `build_thread_pool` for a pool of `num`
/// threads, can return `built`. Two builds need not return the same.
pub closed spec fn built_for(num: usize, built: Result<ThreadPool, ThreadPoolBuildError>) -> bool {
    call_ensures(build_thread_pool, (num,), built)
}

/// Calls `Error::description` on the builder's error and copies the text
/// into a `String`. Nothing is claimed of the text.
#[verifier::external_body]
#[allow(deprecated)]
fn describe(error: &ThreadPoolBuildError) -> String {
    error.description().to_string()
}

/// `rayon::join` runs both closures, possibly at the same time, and returns
/// when both are done, with what each returned.
pub assume_specification<A, B, RA, RB>[ rayon::join::<A, B, RA, RB> ](oper_a: A, oper_b: B) -> (results:
    (RA, RB)) where A: FnOnce() -> RA + Send, B: FnOnce() -> RB + Send, RA: Send, RB: Send
    requires
        call_requires(oper_a, ()),
        call_requires(oper_b, ()),
    ensures
        call_ensures(oper_a, (), results.0),
        call_ensures(oper_b, (), results.1),
;

/// `ThreadPool::install` runs the closure inside the pool and returns what
/// the closure returned.
pub assume_specification<OP, R>[ ThreadPool::install::<OP, R> ](pool: &ThreadPool, op: OP) -> (result:
    R) where OP: FnOnce() -> R + Send, R: Send
    requires
        call_requires(op, ()),
    ensures
        call_ensures(op, (), result),
;

/// Calls `par_iter` on the items, `map` with `decide` and `collect`: `decide`
/// is called once for each item, on any thread and in any order, and the
/// results stand in the order of the items.
#[verifier::external_body]
fn par_map<E: Sync, F>(items: &Vec<E>, decide: F) -> (flags: Vec<bool>) where
    F: Fn(&E) -> bool + Sync + Send,

    requires
        forall|position: int|
            0 <= position < items@.len() ==> call_requires(decide, (&items@[position],)),
    ensures
        flags@.len() == items@.len(),
        forall|position: int|
            0 <= position < items@.len() ==> call_ensures(
                decide,
                (&items@[position],),
                #[trigger] flags@[position],
            ),
{
    items.par_iter().map(decide).collect()
}

/// `items` after the removal of the flagged elements among the first `upto`,
/// from the last of them down to the first. Each removal puts the last
/// element into the freed slot.
pub open spec fn drop_flagged<E>(items: Seq<E>, flags: Seq<bool>, upto: int) -> Seq<E>
    decreases upto,
{
    if upto <= 0 {
        items
    } else if flags[upto - 1] {
        drop_flagged(swap_removed(items, upto - 1), flags, upto - 1)
    } else {
        drop_flagged(items, flags, upto - 1)
    }
}

/// The flags turned round: what is not flagged for removal is kept.
pub open spec fn unflagged(flags: Seq<bool>) -> Seq<bool> {
    flags.map_values(|flag: bool| !flag)
}

/// What the removal of the flagged among the first `upto` elements leaves:
/// the unflagged of them, in some order, and the elements behind them.
proof fn lemma_drop_flagged_accounts<E>(items: Seq<E>, flags: Seq<bool>, upto: int)
    requires
        0 <= upto <= items.len(),
        upto <= flags.len(),
    ensures
        drop_flagged(items, flags, upto).to_multiset() == kept(
            items.take(upto),
            unflagged(flags.take(upto)),
        ).to_multiset().add(items.skip(upto).to_multiset()),
    decreases upto,
{
    broadcast use vstd::seq_lib::group_to_multiset_ensures;

    if upto == 0 {
        assert(items.skip(0) =~= items);
        assert(kept(items.take(0), unflagged(flags.take(0))) =~= Seq::<E>::empty());
        assert(drop_flagged(items, flags, upto).to_multiset() =~= kept(
            items.take(upto),
            unflagged(flags.take(upto)),
        ).to_multiset().add(items.skip(upto).to_multiset()));
    } else {
        let position = upto - 1;
        let head = items.take(position);
        let keep = unflagged(flags.take(position));
        assert(items.take(upto) =~= head.push(items[position]));
        assert(unflagged(flags.take(upto)) =~= keep.push(!flags[position]));
        lemma_kept_last(head, keep, items[position], !flags[position]);
        assert(items.skip(position) =~= items.skip(upto).insert(0, items[position]));
        if flags[position] {
            let next = swap_removed(items, position);
            lemma_drop_flagged_accounts(next, flags, position);
            assert(next.take(position) =~= head);
            assert(next.skip(position) =~= swap_removed(items.skip(position), 0));
            lemma_swap_removed_multiset(items.skip(position), 0);
            assert(next.skip(position).to_multiset() =~= items.skip(upto).to_multiset());
        } else {
            lemma_drop_flagged_accounts(items, flags, position);
            assert(drop_flagged(items, flags, upto).to_multiset() =~= kept(head, keep).push(
                items[position],
            ).to_multiset().add(items.skip(upto).to_multiset()));
        }
    }
}

/// The removal of the flagged elements leaves exactly the elements that are
/// not flagged, each as often as it stands at a position that is not flagged.
/// Where every position is flagged, nothing is left.
pub proof fn lemma_drop_flagged_keeps_unflagged<E>(items: Seq<E>, flags: Seq<bool>)
    requires
        flags.len() == items.len(),
    ensures
        drop_flagged(items, flags, flags.len() as int).to_multiset() == kept(
            items,
            unflagged(flags),
        ).to_multiset(),
        (forall|position: int| 0 <= position < flags.len() ==> flags[position]) ==> drop_flagged(
            items,
            flags,
            flags.len() as int,
        ) == Seq::<E>::empty(),
{
    broadcast use vstd::seq_lib::group_to_multiset_ensures;

    let upto = flags.len() as int;
    lemma_drop_flagged_accounts(items, flags, upto);
    assert(items.take(upto) =~= items);
    assert(flags.take(upto) =~= flags);
    assert(items.skip(upto) =~= Seq::<E>::empty());
    assert(kept(items, unflagged(flags)).to_multiset().add(Seq::<E>::empty().to_multiset()) =~= kept(
        items,
        unflagged(flags),
    ).to_multiset());
    if forall|position: int| 0 <= position < flags.len() ==> flags[position] {
        lemma_kept_nothing(items, unflagged(flags));
        let left = drop_flagged(items, flags, upto);
        assert(left.to_multiset().len() == 0);
        assert(left =~= Seq::<E>::empty());
    }
}

/// Where no element is to be kept, nothing is kept.
proof fn lemma_kept_nothing<E>(items: Seq<E>, keep: Seq<bool>)
    requires
        forall|position: int| 0 <= position < keep.len() ==> !keep[position],
    ensures
        kept(items, keep) == Seq::<E>::empty(),
    decreases items.len(),
{
    if items.len() == 0 || keep.len() != items.len() {
    } else {
        assert forall|position: int| 0 <= position < keep.drop_first().len() implies !keep.drop_first()[position] by {
            assert(keep.drop_first()[position] == keep[position + 1]);
        }
        lemma_kept_nothing(items.drop_first(), keep.drop_first());
    }
}

/// Removes from `vec` every element whose position is flagged. The positions
/// are those that the elements have on entry; `flags` has one flag for each.
///
/// The removals go from the back to the front, and each puts the last element
/// into the freed slot, so that no removal moves an element that is still to
/// be looked at.
pub fn remove_flagged<E>(vec: &mut Vec<E>, flags: &Vec<bool>)
    requires
        flags@.len() == old(vec)@.len(),
    ensures
        final(vec)@ == drop_flagged(old(vec)@, flags@, flags@.len() as int),
        final(vec)@.to_multiset() == kept(old(vec)@, unflagged(flags@)).to_multiset(),
        (forall|position: int| 0 <= position < flags@.len() ==> flags@[position])
            ==> final(vec)@.len() == 0,
{
    proof {
        lemma_drop_flagged_keeps_unflagged(old(vec)@, flags@);
    }
    let mut position: usize = flags.len();
    while position > 0
        invariant
            position <= flags@.len(),
            position <= vec@.len(),
            drop_flagged(vec@, flags@, position as int) == drop_flagged(
                old(vec)@,
                flags@,
                flags@.len() as int,
            ),
        decreases position,
    {
        position = position - 1;
        if flags[position] {
            vec.swap_remove(position);
        }
    }
}

/// The listeners and closures that are registered for one event of a
/// parallel dispatcher.
#[verifier::reject_recursive_types(T)]
pub struct ParallelFnsAndTraits<T> where T: PartialEq + Eq + Hash + Clone + Send + Sync + 'static {
    pub traits: Vec<WeakListener<T, ParallelDispatcherRequest>>,
    pub fns: Vec<Callback<T, ParallelDispatcherRequest>>,
}

impl<T> View for ParallelFnsAndTraits<T> where
    T: PartialEq + Eq + Hash + Clone + Send + Sync + 'static,
 {
    type V = Subscribers<WeakListener<T, ParallelDispatcherRequest>, Callback<T, ParallelDispatcherRequest>>;

    /// The listeners and the closures of the collection, as sequences.
    open spec fn view(&self) -> Self::V {
        Subscribers { listeners: self.traits@, closures: self.fns@ }
    }
}

impl<T> ParallelFnsAndTraits<T> where T: PartialEq + Eq + Hash + Clone + Send + Sync + 'static {
    /// A collection of the given listeners, without closures.
    pub fn new_with_traits(trait_objects: Vec<WeakListener<T, ParallelDispatcherRequest>>) -> (collection: Self)
        ensures
            collection@.listeners == trait_objects@,
            collection@.closures == Seq::<Callback<T, ParallelDispatcherRequest>>::empty(),
    {
        ParallelFnsAndTraits { traits: trait_objects, fns: Vec::new() }
    }

    /// A collection of the given closures, without listeners.
    pub fn new_with_fns(fns: Vec<Callback<T, ParallelDispatcherRequest>>) -> (collection: Self)
        ensures
            collection@.listeners == Seq::<WeakListener<T, ParallelDispatcherRequest>>::empty(),
            collection@.closures == fns@,
    {
        ParallelFnsAndTraits { traits: Vec::new(), fns }
    }
}

/// Whether a delivery ends the registration of the listener: the listener is
/// gone, or it asked for its removal.
pub fn listener_leaves(delivery: Delivery<ParallelDispatcherRequest>) -> (leaves: bool)
    ensures
        leaves <==> delivery != Delivery::Answered(None::<ParallelDispatcherRequest>),
{
    match delivery {
        Delivery::Answered(Some(ParallelDispatcherRequest::StopListening)) => true,
        Delivery::Answered(None) => false,
        Delivery::Gone => true,
    }
}

/// Whether an answer ends the registration of the closure that gave it.
pub fn closure_leaves(answer: Option<ParallelDispatcherRequest>) -> (leaves: bool)
    ensures
        leaves <==> answer is Some,
{
    match answer {
        Some(ParallelDispatcherRequest::StopListening) => true,
        None => false,
    }
}

/// `flag` is what handing `event` to `listener` came to: the listener is to
/// be removed exactly where a delivery that its handle can come to found it
/// gone or carries its request to be removed.
pub open spec fn listener_flagged<T>(
    listener: WeakListener<T, ParallelDispatcherRequest>,
    event: &T,
    flag: bool,
) -> bool where T: PartialEq + Eq + Hash + Clone + Send + Sync + 'static {
    exists|delivery: Delivery<ParallelDispatcherRequest>| #[trigger]
        listener.delivers(event, delivery) && (flag <==> delivery != Delivery::Answered(
            None::<ParallelDispatcherRequest>,
        ))
}

/// `flag` is what calling `closure` with `event` came to: the closure is to
/// be removed exactly where an answer that it can give asks for that.
pub open spec fn closure_flagged<T>(
    closure: Callback<T, ParallelDispatcherRequest>,
    event: &T,
    flag: bool,
) -> bool where T: PartialEq + Eq + Hash + Clone + Send + Sync + 'static {
    exists|answer: Option<ParallelDispatcherRequest>| #[trigger]
        closure.gives(event, answer) && (flag <==> answer is Some)
}

/// `gone` holds, for each of `listeners`, what handing `event` to it came to.
pub open spec fn listeners_flagged<T>(
    listeners: Seq<WeakListener<T, ParallelDispatcherRequest>>,
    event: &T,
    gone: Seq<bool>,
) -> bool where T: PartialEq + Eq + Hash + Clone + Send + Sync + 'static {
    &&& gone.len() == listeners.len()
    &&& forall|position: int|
        0 <= position < listeners.len() ==> #[trigger] listener_flagged(
            listeners[position],
            event,
            gone[position],
        )
}

/// `done` holds, for each of `closures`, what calling it with `event` came
/// to.
pub open spec fn closures_flagged<T>(
    closures: Seq<Callback<T, ParallelDispatcherRequest>>,
    event: &T,
    done: Seq<bool>,
) -> bool where T: PartialEq + Eq + Hash + Clone + Send + Sync + 'static {
    &&& done.len() == closures.len()
    &&& forall|position: int|
        0 <= position < closures.len() ==> #[trigger] closure_flagged(
            closures[position],
            event,
            done[position],
        )
}

/// A parallel dispatch of `event` to the collection `before` can leave
/// `after`: the event was handed to every listener and to every closure, and
/// those that were flagged by what that came to are removed.
pub open spec fn delivered_in_parallel<T>(
    before: Subscribers<WeakListener<T, ParallelDispatcherRequest>, Callback<T, ParallelDispatcherRequest>>,
    event: &T,
    after: Subscribers<WeakListener<T, ParallelDispatcherRequest>, Callback<T, ParallelDispatcherRequest>>,
) -> bool where T: PartialEq + Eq + Hash + Clone + Send + Sync + 'static {
    &&& exists|gone: Seq<bool>|
        {
            &&& #[trigger] listeners_flagged(before.listeners, event, gone)
            &&& after.listeners == drop_flagged(before.listeners, gone, gone.len() as int)
        }
    &&& exists|done: Seq<bool>|
        {
            &&& #[trigger] closures_flagged(before.closures, event, done)
            &&& after.closures == drop_flagged(before.closures, done, done.len() as int)
        }
}

/// A parallel dispatch registers nothing: every subscriber that it leaves was
/// registered before.
pub proof fn lemma_delivered_in_parallel_dwindles<T>(
    before: Subscribers<WeakListener<T, ParallelDispatcherRequest>, Callback<T, ParallelDispatcherRequest>>,
    event: &T,
    after: Subscribers<WeakListener<T, ParallelDispatcherRequest>, Callback<T, ParallelDispatcherRequest>>,
) where T: PartialEq + Eq + Hash + Clone + Send + Sync + 'static
    requires
        delivered_in_parallel(before, event, after),
    ensures
        dwindled(before, after),
{
    let gone = choose|gone: Seq<bool>|
        {
            &&& #[trigger] listeners_flagged(before.listeners, event, gone)
            &&& after.listeners == drop_flagged(before.listeners, gone, gone.len() as int)
        };
    let done = choose|done: Seq<bool>|
        {
            &&& #[trigger] closures_flagged(before.closures, event, done)
            &&& after.closures == drop_flagged(before.closures, done, done.len() as int)
        };
    lemma_drop_flagged_keeps_unflagged(before.listeners, gone);
    lemma_drop_flagged_keeps_unflagged(before.closures, done);
    lemma_kept_only_removes(before.listeners, unflagged(gone));
    lemma_kept_only_removes(before.closures, unflagged(done));
    after.listeners.to_multiset_ensures();
    after.closures.to_multiset_ensures();
    kept(before.listeners, unflagged(gone)).to_multiset_ensures();
    kept(before.closures, unflagged(done)).to_multiset_ensures();
}

/// A parallel dispatch removes exactly the subscribers that leave: where
/// what comes of each listener and of each closure can only flag it as `gone`
/// and `done` say, the listeners and the closures at the flagged positions
/// are removed and the others stay. Where every listener is flagged, no
/// listener is left, and so for the closures.
pub proof fn lemma_delivered_in_parallel_by_flags<T>(
    before: Subscribers<WeakListener<T, ParallelDispatcherRequest>, Callback<T, ParallelDispatcherRequest>>,
    event: &T,
    gone: Seq<bool>,
    done: Seq<bool>,
    after: Subscribers<WeakListener<T, ParallelDispatcherRequest>, Callback<T, ParallelDispatcherRequest>>,
) where T: PartialEq + Eq + Hash + Clone + Send + Sync + 'static
    requires
        delivered_in_parallel(before, event, after),
        gone.len() == before.listeners.len(),
        done.len() == before.closures.len(),
        forall|i: int, delivery: Delivery<ParallelDispatcherRequest>|
            0 <= i < before.listeners.len() && #[trigger] before.listeners[i].delivers(
                event,
                delivery,
            ) ==> (gone[i] <==> delivery != Delivery::Answered(None::<ParallelDispatcherRequest>)),
        forall|j: int, answer: Option<ParallelDispatcherRequest>|
            0 <= j < before.closures.len() && #[trigger] before.closures[j].gives(event, answer)
                ==> (done[j] <==> answer is Some),
    ensures
        after.listeners == drop_flagged(before.listeners, gone, gone.len() as int),
        after.closures == drop_flagged(before.closures, done, done.len() as int),
        after.listeners.to_multiset() == kept(before.listeners, unflagged(gone)).to_multiset(),
        after.closures.to_multiset() == kept(before.closures, unflagged(done)).to_multiset(),
        (forall|i: int| 0 <= i < gone.len() ==> gone[i]) ==> after.listeners.len() == 0,
        (forall|j: int| 0 <= j < done.len() ==> done[j]) ==> after.closures.len() == 0,
{
    let flagged = choose|flagged: Seq<bool>|
        {
            &&& #[trigger] listeners_flagged(before.listeners, event, flagged)
            &&& after.listeners == drop_flagged(before.listeners, flagged, flagged.len() as int)
        };
    let asked = choose|asked: Seq<bool>|
        {
            &&& #[trigger] closures_flagged(before.closures, event, asked)
            &&& after.closures == drop_flagged(before.closures, asked, asked.len() as int)
        };
    assert forall|i: int| 0 <= i < flagged.len() implies flagged[i] == gone[i] by {
        assert(listener_flagged(before.listeners[i], event, flagged[i]));
    }
    assert forall|j: int| 0 <= j < asked.len() implies asked[j] == done[j] by {
        assert(closure_flagged(before.closures[j], event, asked[j]));
    }
    assert(flagged =~= gone);
    assert(asked =~= done);
    lemma_drop_flagged_keeps_unflagged(before.listeners, gone);
    lemma_drop_flagged_keeps_unflagged(before.closures, done);
}

/// A dispatcher that maps each event to the listeners and closures that are
/// registered for it, and delivers an event to all of them in parallel,
/// inside its own thread pool where it has one.
#[verifier::reject_recursive_types(T)]
pub struct ParallelEventDispatcher<T> where T: PartialEq + Eq + Hash + Clone + Send + Sync + 'static {
    events: HashMap<T, ParallelFnsAndTraits<T>>,
    thread_pool: Option<ThreadPool>,
}

impl<T> View for ParallelEventDispatcher<T> where
    T: PartialEq + Eq + Hash + Clone + Send + Sync + 'static,
 {
    type V = Map<T, Subscribers<WeakListener<T, ParallelDispatcherRequest>, Callback<T, ParallelDispatcherRequest>>>;

    /// What is registered with the dispatcher: for each event that has a
    /// collection, what the collection holds.
    closed spec fn view(&self) -> Self::V {
        self.events@.map_values(|collection: ParallelFnsAndTraits<T>| collection@)
    }
}

impl<T> Default for ParallelEventDispatcher<T> where
    T: PartialEq + Eq + Hash + Clone + Send + Sync + 'static,
 {
    /// A dispatcher without any registration and without a thread pool.
    fn default() -> (dispatcher: ParallelEventDispatcher<T>)
        ensures
            dispatcher@ == Map::<
                T,
                Subscribers<WeakListener<T, ParallelDispatcherRequest>, Callback<T, ParallelDispatcherRequest>>,
            >::empty(),
            dispatcher.pool() is None,
    {
        let dispatcher = ParallelEventDispatcher { events: HashMap::new(), thread_pool: None };
        assert(dispatcher@ =~= Map::empty());
        dispatcher
    }
}

impl<T> ParallelEventDispatcher<T> where T: PartialEq + Eq + Hash + Clone + Send + Sync + 'static {
    /// The thread pool in which the dispatcher runs its dispatches, if it has
    /// one.
    pub closed spec fn pool(&self) -> Option<ThreadPool> {
        self.thread_pool
    }

    /// Registers `listener` for `event_identifier`, after the listeners that
    /// are registered for it already. The dispatcher keeps a weak handle
    /// only. Registering a listener twice gives two registrations.
    pub fn add_listener<D: ParallelListener<T> + Send + Sync + 'static>(
        &mut self,
        event_identifier: T,
        listener: &Arc<Mutex<D>>,
    )
        ensures
            final(self).pool() == old(self).pool(),
            obeys_key_model::<T>() ==> exists|handle: WeakListener<T, ParallelDispatcherRequest>|
                {
                    &&& handle.listens_as::<D>()
                    &&& final(self)@ == old(self)@.insert(
                        event_identifier,
                        #[trigger] with_listener(
                            subscribers_of(old(self)@, event_identifier),
                            handle,
                        ),
                    )
                },
    {
        let handle = WeakListener::downgrade(listener);
        let ghost added = with_listener(subscribers_of(old(self)@, event_identifier), handle);
        if let Some(listener_collection) = entry_of(&mut self.events, &event_identifier) {
            listener_collection.traits.push(handle);
            proof {
                if obeys_key_model::<T>() {
                    assert(self@ =~= old(self)@.insert(event_identifier, added));
                }
            }
            return ;
        }
        let mut trait_objects = Vec::new();
        trait_objects.push(handle);
        self.events.insert(event_identifier, ParallelFnsAndTraits::new_with_traits(trait_objects));
        proof {
            if obeys_key_model::<T>() {
                assert(self@ =~= old(self)@.insert(event_identifier, added));
            }
        }
    }

    /// Registers `function` for `event_identifier`, after the closures that
    /// are registered for it already. The dispatcher owns the closure until
    /// the closure asks for its removal.
    pub fn add_fn<F>(&mut self, event_identifier: T, function: F) where
        F: Fn(&T) -> Option<ParallelDispatcherRequest> + Send + Sync + 'static,

        requires
            forall|event: &T| call_requires(function, (event,)),
        ensures
            final(self).pool() == old(self).pool(),
            obeys_key_model::<T>() ==> exists|closure: Callback<T, ParallelDispatcherRequest>|
                {
                    &&& closure.holds(function)
                    &&& final(self)@ == old(self)@.insert(
                        event_identifier,
                        #[trigger] with_closure(
                            subscribers_of(old(self)@, event_identifier),
                            closure,
                        ),
                    )
                },
    {
        let closure = Callback::new(function);
        let ghost added = with_closure(subscribers_of(old(self)@, event_identifier), closure);
        if let Some(listener_collection) = entry_of(&mut self.events, &event_identifier) {
            listener_collection.fns.push(closure);
            proof {
                if obeys_key_model::<T>() {
                    assert(self@ =~= old(self)@.insert(event_identifier, added));
                }
            }
            return ;
        }
        let mut fns = Vec::new();
        fns.push(closure);
        self.events.insert(event_identifier, ParallelFnsAndTraits::new_with_fns(fns));
        proof {
            if obeys_key_model::<T>() {
                assert(self@ =~= old(self)@.insert(event_identifier, added));
            }
        }
    }

    /// Tries to build a thread pool of `num` threads for the dispatcher. If
    /// that succeeds, the pool takes the place of the one that the dispatcher
    /// had, if it had one. If it fails, the dispatcher is left as it was and
    /// the failure is returned.
    ///
    /// The builder is asked once, for `num` threads, and the result is `Ok`
    /// exactly where the builder returned a pool, which is then the
    /// dispatcher's.
    pub fn num_threads(&mut self, num: usize) -> (result: Result<(), BuildError>)
        ensures
            final(self)@ == old(self)@,
            result is Ok ==> final(self).pool() is Some,
            result is Err ==> final(self).pool() == old(self).pool(),
            exists|built: Result<ThreadPool, ThreadPoolBuildError>|
                #[trigger] built_for(num, built) && match built {
                    Ok(pool) => result is Ok && final(self).pool() == Some(pool),
                    Err(_) => result is Err,
                },
    {
        let built = build_thread_pool(num);
        proof {
            assert(built_for(num, built));
        }
        self.set_thread_pool(built)
    }

    /// Takes over what a pool's builder returned: a pool takes the place of
    /// the dispatcher's pool, an error leaves the dispatcher as it was and is
    /// returned with the description that it gives of itself.
    pub fn set_thread_pool(&mut self, built: Result<ThreadPool, ThreadPoolBuildError>) -> (result:
        Result<(), BuildError>)
        ensures
            final(self)@ == old(self)@,
            built matches Ok(pool) ==> result is Ok && final(self).pool() == Some(pool),
            built is Err ==> result is Err && final(self).pool() == old(self).pool(),
            built matches Err(error) ==> result matches Err(BuildError::NumThreads(text))
                && described(error, text),
    {
        match built {
            Ok(pool) => {
                self.thread_pool = Some(pool);
                Ok(())
            },
            Err(error) => {
                let text = describe(&error);
                proof {
                    assert(described(error, text));
                }
                Err(BuildError::NumThreads(text))
            },
        }
    }

    /// Delivers `event_identifier` to everything that is registered for it,
    /// in parallel, and then removes the listeners that are gone and the
    /// subscribers that asked for their removal. The dispatch runs inside the
    /// dispatcher's thread pool if it has one, and on the caller's pool if it
    /// has none; what it removes is the same. Where nothing is registered for
    /// the event, nothing happens.
    pub fn dispatch_event(&mut self, event_identifier: &T)
        ensures
            final(self).pool() == old(self).pool(),
            obeys_key_model::<T>() && !old(self)@.contains_key(*event_identifier) ==> final(self)@
                == old(self)@,
            obeys_key_model::<T>() && old(self)@.contains_key(*event_identifier) ==> {
                &&& final(self)@.contains_key(*event_identifier)
                &&& final(self)@ == old(self)@.insert(
                    *event_identifier,
                    final(self)@[*event_identifier],
                )
                &&& delivered_in_parallel(
                    old(self)@[*event_identifier],
                    event_identifier,
                    final(self)@[*event_identifier],
                )
                &&& dwindled(old(self)@[*event_identifier], final(self)@[*event_identifier])
            },
    {
        if let Some(listener_collection) = entry_of(&mut self.events, event_identifier) {
            let ghost before = listener_collection@;
            let (traits_to_remove, fns_to_remove) = if let Some(thread_pool) = &self.thread_pool {
                let shared: &ParallelFnsAndTraits<T> = &*listener_collection;
                let dispatch = || -> (flags: (Vec<bool>, Vec<bool>))
                    ensures
                        listeners_flagged(shared@.listeners, event_identifier, flags.0@),
                        closures_flagged(shared@.closures, event_identifier, flags.1@),
                    {
                        Self::joined_parallel_dispatch(shared, event_identifier)
                    };
                thread_pool.install(dispatch)
            } else {
                Self::joined_parallel_dispatch(&*listener_collection, event_identifier)
            };
            remove_flagged(&mut listener_collection.fns, &fns_to_remove);
            remove_flagged(&mut listener_collection.traits, &traits_to_remove);
            proof {
                assert(listeners_flagged(before.listeners, event_identifier, traits_to_remove@));
                assert(closures_flagged(before.closures, event_identifier, fns_to_remove@));
                assert(listener_collection@.listeners == drop_flagged(
                    before.listeners,
                    traits_to_remove@,
                    traits_to_remove@.len() as int,
                ));
                assert(listener_collection@.closures == drop_flagged(
                    before.closures,
                    fns_to_remove@,
                    fns_to_remove@.len() as int,
                ));
                assert(delivered_in_parallel(before, event_identifier, listener_collection@));
                lemma_delivered_in_parallel_dwindles(before, event_identifier, listener_collection@);
            }
        }
        proof {
            if obeys_key_model::<T>() {
                if old(self)@.contains_key(*event_identifier) {
                    assert(self@ =~= old(self)@.insert(*event_identifier, self@[*event_identifier]));
                } else {
                    assert(self@ =~= old(self)@);
                }
            }
        }
    }

    /// Hands `event_identifier` to the listeners and to the closures of the
    /// collection as two joined tasks, each of which works through its group
    /// in parallel: every listener is handed the event once, and every
    /// closure is called with it once.
    ///
    /// Returns, for the listeners and for the closures, one flag for each
    /// position: whether what came of the subscriber there has it removed.
    fn joined_parallel_dispatch(
        listener_collection: &ParallelFnsAndTraits<T>,
        event_identifier: &T,
    ) -> (flags: (Vec<bool>, Vec<bool>))
        ensures
            listeners_flagged(listener_collection@.listeners, event_identifier, flags.0@),
            closures_flagged(listener_collection@.closures, event_identifier, flags.1@),
    {
        let traits = &listener_collection.traits;
        let fns = &listener_collection.fns;
        let notify = |listener: &WeakListener<T, ParallelDispatcherRequest>| -> (leaves: bool)
            ensures
                listener_flagged(*listener, event_identifier, leaves),
            {
                listener_leaves(listener.deliver(event_identifier))
            };
        let call = |callback: &Callback<T, ParallelDispatcherRequest>| -> (leaves: bool)
            ensures
                closure_flagged(*callback, event_identifier, leaves),
            {
                closure_leaves(callback.answer(event_identifier))
            };
        let notify_all = || -> (gone: Vec<bool>)
            ensures
                listeners_flagged(traits@, event_identifier, gone@),
            {
                par_map(traits, notify)
            };
        let call_all = || -> (done: Vec<bool>)
            ensures
                closures_flagged(fns@, event_identifier, done@),
            {
                par_map(fns, call)
            };
        rayon::join(notify_all, call_all)
    }

    /// The number of listeners that are registered for `event_identifier`,
    /// those that are gone and not yet removed included.
    pub fn listener_count(&self, event_identifier: &T) -> (count: usize)
        ensures
            obeys_key_model::<T>() ==> count == subscribers_of(
                self@,
                *event_identifier,
            ).listeners.len(),
    {
        match self.events.get(event_identifier) {
            Some(listener_collection) => listener_collection.traits.len(),
            None => 0,
        }
    }

    /// The number of closures that are registered for `event_identifier`.
    pub fn fn_count(&self, event_identifier: &T) -> (count: usize)
        ensures
            obeys_key_model::<T>() ==> count == subscribers_of(
                self@,
                *event_identifier,
            ).closures.len(),
    {
        match self.events.get(event_identifier) {
            Some(listener_collection) => listener_collection.fns.len(),
            None => 0,
        }
    }

    /// Whether the dispatcher has a thread pool of its own.
    pub fn has_thread_pool(&self) -> (has: bool)
        ensures
            has <==> self.pool() is Some,
    {
        self.thread_pool.is_some()
    }
}

} // verus!