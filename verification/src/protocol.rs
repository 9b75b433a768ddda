//! The iteration protocol shared by the synchronous dispatchers.
//!
//! A pass walks a sequence by position, starting at the front. The element
//! under the cursor is handed to a callback, and the callback's answer decides
//! the next step: no request moves the cursor on, a removal puts the last
//! element into the freed slot and leaves the cursor where it is, and a stop
//! ends the pass at once.

use vstd::prelude::*;
use crate::request::ExecuteRequestsResult;
use crate::request::SyncDispatcherRequest;
use crate::request::removes;
use crate::request::stops;

verus! {

/// `items` without the element at `index`, whose slot the last element takes.
/// The order of what remains is not that of `items`.
pub open spec fn swap_removed<T>(items: Seq<T>, index: int) -> Seq<T> {
    items.update(index, items.last()).drop_last()
}

/// Where a pass stands: the sequence as it is now and the position of the
/// element that is visited next.
pub struct Progress<T> {
    pub items: Seq<T>,
    pub index: int,
}

/// The effect of one answer on a pass that stands at `at`.
pub open spec fn advance<T>(at: Progress<T>, answer: Option<SyncDispatcherRequest>) -> Progress<T> {
    Progress {
        items: if removes(answer) {
            swap_removed(at.items, at.index)
        } else {
            at.items
        },
        index: if answer is None {
            at.index + 1
        } else {
            at.index
        },
    }
}

/// Where a pass over `items` stands after it has received `answers`, one for
/// each visit, in the order of the visits.
pub open spec fn replay<T>(items: Seq<T>, answers: Seq<Option<SyncDispatcherRequest>>) -> Progress<T>
    decreases answers.len(),
{
    if answers.len() == 0 {
        Progress { items, index: 0 }
    } else {
        advance(replay(items, answers.drop_last()), answers.last())
    }
}

/// How a pass that received `answers` ended.
pub open spec fn verdict(answers: Seq<Option<SyncDispatcherRequest>>) -> ExecuteRequestsResult {
    if answers.len() > 0 && stops(answers.last()) {
        ExecuteRequestsResult::Stopped
    } else {
        ExecuteRequestsResult::Finished
    }
}

/// `answers` is what a whole pass over `items` can have received: every answer
/// was given to a visit of an element by a callback that `may` allows to
/// answer so, only the last answer stops the pass, and the pass does not end
/// before a stop or the end of the sequence.
pub open spec fn conversation<T>(
    items: Seq<T>,
    may: spec_fn(T, Option<SyncDispatcherRequest>) -> bool,
    answers: Seq<Option<SyncDispatcherRequest>>,
) -> bool {
    &&& forall|k: int|
        0 <= k < answers.len() ==> {
            let at = #[trigger] replay(items, answers.take(k));
            &&& 0 <= at.index < at.items.len()
            &&& may(at.items[at.index], answers[k])
            &&& stops(answers[k]) ==> k == answers.len() - 1
        }
    &&& verdict(answers) is Finished ==> replay(items, answers).index >= replay(
        items,
        answers,
    ).items.len()
}

/// A pass over `before` whose callback answers as `may` allows can leave
/// `after` and end with `result`.
pub open spec fn passes<T>(
    before: Seq<T>,
    may: spec_fn(T, Option<SyncDispatcherRequest>) -> bool,
    after: Seq<T>,
    result: ExecuteRequestsResult,
) -> bool {
    exists|answers: Seq<Option<SyncDispatcherRequest>>|
        {
            &&& #[trigger] conversation(before, may, answers)
            &&& after == replay(before, answers).items
            &&& result == verdict(answers)
        }
}

/// The answers that a call of `function` may return for each element.
pub open spec fn answers_of<T, F: FnMut(&T) -> Option<SyncDispatcherRequest>>(function: F) -> spec_fn(
    T,
    Option<SyncDispatcherRequest>,
) -> bool {
    |item: T, answer: Option<SyncDispatcherRequest>| call_ensures(function, (&item,), answer)
}

/// A callback that answers as `may` allows gives every element the one answer
/// that `mapping` assigns to it.
pub open spec fn follows<T>(
    may: spec_fn(T, Option<SyncDispatcherRequest>) -> bool,
    mapping: spec_fn(T) -> Option<SyncDispatcherRequest>,
) -> bool {
    forall|item: T, answer: Option<SyncDispatcherRequest>| #[trigger]
        may(item, answer) ==> answer == mapping(item)
}

/// What the rest of a pass that stands at `at` leaves, and how it ends, when
/// every element is answered as `mapping` says.
pub open spec fn run_from<T>(at: Progress<T>, mapping: spec_fn(T) -> Option<SyncDispatcherRequest>) -> (
    Seq<T>,
    ExecuteRequestsResult,
)
    decreases at.items.len() - at.index,
{
    if 0 <= at.index < at.items.len() {
        let answer = mapping(at.items[at.index]);
        if stops(answer) {
            (advance(at, answer).items, ExecuteRequestsResult::Stopped)
        } else {
            run_from(advance(at, answer), mapping)
        }
    } else {
        (at.items, ExecuteRequestsResult::Finished)
    }
}

/// What a pass over `items` leaves, and how it ends, when every element is
/// answered as `mapping` says.
pub open spec fn run<T>(items: Seq<T>, mapping: spec_fn(T) -> Option<SyncDispatcherRequest>) -> (
    Seq<T>,
    ExecuteRequestsResult,
) {
    run_from(Progress { items, index: 0 }, mapping)
}

/// The elements that the rest of a pass that stands at `at` hands to the
/// callback, in the order of the calls, when every element is answered as
/// `mapping` says.
pub open spec fn visits_from<T>(at: Progress<T>, mapping: spec_fn(T) -> Option<SyncDispatcherRequest>) -> Seq<
    T,
>
    decreases at.items.len() - at.index,
{
    if 0 <= at.index < at.items.len() {
        let answer = mapping(at.items[at.index]);
        if stops(answer) {
            seq![at.items[at.index]]
        } else {
            seq![at.items[at.index]] + visits_from(advance(at, answer), mapping)
        }
    } else {
        Seq::empty()
    }
}

/// The elements that a pass over `items` hands to the callback, in the order
/// of the calls, when every element is answered as `mapping` says.
pub open spec fn visits<T>(items: Seq<T>, mapping: spec_fn(T) -> Option<SyncDispatcherRequest>) -> Seq<
    T,
> {
    visits_from(Progress { items, index: 0 }, mapping)
}

/// Whether `mapping` has an element ask for its removal.
pub open spec fn asks_removal<T>(mapping: spec_fn(T) -> Option<SyncDispatcherRequest>) -> spec_fn(
    T,
) -> bool {
    |item: T| removes(mapping(item))
}

/// Carries out one answer on `vec`, given by the element at `index`: removes
/// the element if the answer asks for it, and returns the position to visit
/// next, or `None` if the answer stops the pass.
pub fn apply_request<T>(vec: &mut Vec<T>, index: usize, answer: Option<SyncDispatcherRequest>) -> (next:
    Option<usize>)
    requires
        index < old(vec).len(),
    ensures
        final(vec)@ == advance(Progress { items: old(vec)@, index: index as int }, answer).items,
        stops(answer) <==> next is None,
        next matches Some(position) ==> position == advance(
            Progress { items: old(vec)@, index: index as int },
            answer,
        ).index,
{
    match answer {
        None => Some(index + 1),
        Some(SyncDispatcherRequest::StopListening) => {
            vec.swap_remove(index);
            Some(index)
        },
        Some(SyncDispatcherRequest::StopPropagation) => None,
        Some(SyncDispatcherRequest::StopListeningAndPropagation) => {
            vec.swap_remove(index);
            None
        },
    }
}

/// Walks `vec` from the front and hands each element to `function`, whose
/// answer is carried out before the next call: no request moves on to the
/// next element; `StopListening` removes the element by putting the last one
/// into its slot, which is visited next; `StopPropagation` ends the walk;
/// `StopListeningAndPropagation` removes the element and ends the walk.
///
/// Returns `Stopped` if an answer ended the walk and `Finished` if the walk
/// reached the end of `vec`.
pub fn execute_sync_dispatcher_requests<T, F>(vec: &mut Vec<T>, function: F) -> (result:
    ExecuteRequestsResult) where F: FnMut(&T) -> Option<SyncDispatcherRequest>
    requires
        forall|i: int| 0 <= i < old(vec)@.len() ==> call_requires(function, (&old(vec)@[i],)),
    ensures
        passes(old(vec)@, answers_of(function), final(vec)@, result),
        forall|mapping: spec_fn(T) -> Option<SyncDispatcherRequest>| #[trigger]
            follows(answers_of(function), mapping) ==> (final(vec)@, result) == run(
                old(vec)@,
                mapping,
            ),
        old(vec)@.len() == 0 ==> final(vec)@.len() == 0 && result is Finished,
{
    let mut callback = function;
    let mut index: usize = 0;
    let mut result = ExecuteRequestsResult::Finished;
    let ghost mut answers: Seq<Option<SyncDispatcherRequest>> = Seq::empty();
    loop
        invariant_except_break
            callback == function,
            forall|i: int| 0 <= i < old(vec)@.len() ==> call_requires(function, (&old(vec)@[i],)),
            forall|j: int| 0 <= j < vec@.len() ==> old(vec)@.contains(#[trigger] vec@[j]),
            replay(old(vec)@, answers) == (Progress { items: vec@, index: index as int }),
            index <= vec@.len(),
            forall|k: int|
                0 <= k < answers.len() ==> {
                    let at = #[trigger] replay(old(vec)@, answers.take(k));
                    &&& 0 <= at.index < at.items.len()
                    &&& answers_of(function)(at.items[at.index], answers[k])
                },
            forall|k: int| 0 <= k < answers.len() ==> !stops(#[trigger] answers[k]),
        ensures
            passes(old(vec)@, answers_of(function), vec@, result),
        decreases vec@.len() - index,
    {
        if index < vec.len() {
            proof {
                let i = choose|i: int| 0 <= i < old(vec)@.len() && old(vec)@[i] == vec@[index as int];
                assert(call_requires(function, (&old(vec)@[i],)));
            }
            let answer = callback(&vec[index]);
            let ghost earlier = answers;
            let ghost visited = vec@;
            proof {
                answers = earlier.push(answer);
                lemma_replay_push(old(vec)@, earlier, answer);
                assert(answers.take(earlier.len() as int) == earlier);
                assert forall|k: int| 0 <= k < earlier.len() implies answers.take(k)
                    == earlier.take(k) by {}
            }
            match apply_request(vec, index, answer) {
                Some(next) => {
                    proof {
                        assert forall|j: int| 0 <= j < vec@.len() implies old(vec)@.contains(
                            #[trigger] vec@[j],
                        ) by {
                            if removes(answer) && j == index {
                                assert(vec@[j] == visited[visited.len() - 1]);
                            } else {
                                assert(vec@[j] == visited[j]);
                            }
                        }
                    }
                    index = next;
                },
                None => {
                    result = ExecuteRequestsResult::Stopped;
                    proof {
                        assert(conversation(old(vec)@, answers_of(function), answers));
                    }
                    break ;
                },
            }
        } else {
            result = ExecuteRequestsResult::Finished;
            proof {
                assert(conversation(old(vec)@, answers_of(function), answers));
            }
            break ;
        }
    }
    proof {
        assert forall|mapping: spec_fn(T) -> Option<SyncDispatcherRequest>| #[trigger]
            follows(answers_of(function), mapping) implies (vec@, result) == run(
            old(vec)@,
            mapping,
        ) by {
            lemma_pass_follows_mapping(old(vec)@, answers_of(function), mapping, vec@, result);
        }
        if old(vec)@.len() == 0 {
            assert(old(vec)@ =~= Seq::<T>::empty());
            lemma_pass_over_nothing(answers_of(function), vec@, result);
        }
    }
    result
}

/// The answers that a pass received.
pub proof fn lemma_pass_answers<T>(
    before: Seq<T>,
    may: spec_fn(T, Option<SyncDispatcherRequest>) -> bool,
    after: Seq<T>,
    result: ExecuteRequestsResult,
) -> (answers: Seq<Option<SyncDispatcherRequest>>)
    requires
        passes(before, may, after, result),
    ensures
        conversation(before, may, answers),
        after == replay(before, answers).items,
        result == verdict(answers),
{
    choose|answers: Seq<Option<SyncDispatcherRequest>>|
        {
            &&& #[trigger] conversation(before, may, answers)
            &&& after == replay(before, answers).items
            &&& result == verdict(answers)
        }
}

/// Extending the answers of a pass by one answer extends its replay by one
/// step.
pub proof fn lemma_replay_push<T>(
    items: Seq<T>,
    answers: Seq<Option<SyncDispatcherRequest>>,
    answer: Option<SyncDispatcherRequest>,
)
    ensures
        replay(items, answers.push(answer)) == advance(replay(items, answers), answer),
{
    assert(answers.push(answer).drop_last() == answers);
}

/// A pass whose callback gives every element the one answer that `mapping`
/// assigns to it leaves what `run` computes, and ends as `run` says.
pub proof fn lemma_pass_follows_mapping<T>(
    before: Seq<T>,
    may: spec_fn(T, Option<SyncDispatcherRequest>) -> bool,
    mapping: spec_fn(T) -> Option<SyncDispatcherRequest>,
    after: Seq<T>,
    result: ExecuteRequestsResult,
)
    requires
        passes(before, may, after, result),
        follows(may, mapping),
    ensures
        (after, result) == run(before, mapping),
{
    lemma_pass_follows_mapping_visited(before, may, mapping, after, result);
}

/// Removing an element by putting the last one into its slot takes exactly
/// that one element out of the sequence.
pub proof fn lemma_swap_removed_multiset<T>(items: Seq<T>, index: int)
    requires
        0 <= index < items.len(),
    ensures
        swap_removed(items, index).to_multiset() == items.to_multiset().remove(items[index]),
{
    broadcast use vstd::seq_lib::group_to_multiset_ensures;

    let last = items.len() - 1;
    if index == last {
        assert(swap_removed(items, index) =~= items.remove(last));
    } else {
        let shorter = items.remove(last);
        assert(swap_removed(items, index) =~= shorter.remove(index).insert(index, items[last]));
        assert(shorter.remove(index).to_multiset() == shorter.to_multiset().remove(shorter[index]));
        assert(items.to_multiset().remove(items[last]).remove(items[index]).insert(items[last])
            =~= items.to_multiset().remove(items[index]));
    }
}

/// Every element that a pass has left so far is an element of the sequence
/// that it began with.
proof fn lemma_replay_within<T>(items: Seq<T>, answers: Seq<Option<SyncDispatcherRequest>>)
    requires
        forall|k: int|
            0 <= k < answers.len() ==> {
                let at = #[trigger] replay(items, answers.take(k));
                0 <= at.index < at.items.len()
            },
    ensures
        forall|j: int|
            0 <= j < replay(items, answers).items.len() ==> items.contains(
                #[trigger] replay(items, answers).items[j],
            ),
    decreases answers.len(),
{
    if answers.len() > 0 {
        let earlier = answers.drop_last();
        assert(answers.take(answers.len() - 1) =~= earlier);
        assert forall|k: int| 0 <= k < earlier.len() implies {
            let at = #[trigger] replay(items, earlier.take(k));
            0 <= at.index < at.items.len()
        } by {
            assert(earlier.take(k) =~= answers.take(k));
        }
        lemma_replay_within(items, earlier);
        let at = replay(items, earlier);
        let now = replay(items, answers);
        assert forall|j: int| 0 <= j < now.items.len() implies items.contains(
            #[trigger] now.items[j],
        ) by {
            if removes(answers.last()) && j == at.index {
                assert(now.items[j] == at.items[at.items.len() - 1]);
            } else {
                assert(now.items[j] == at.items[j]);
            }
        }
    }
}

/// Whatever a pass has received, it has added nothing to the sequence.
proof fn lemma_replay_only_removes<T>(items: Seq<T>, answers: Seq<Option<SyncDispatcherRequest>>)
    requires
        forall|k: int|
            0 <= k < answers.len() ==> {
                let at = #[trigger] replay(items, answers.take(k));
                0 <= at.index < at.items.len()
            },
    ensures
        replay(items, answers).items.to_multiset().subset_of(items.to_multiset()),
        replay(items, answers).items.len() <= items.len(),
    decreases answers.len(),
{
    if answers.len() > 0 {
        let earlier = answers.drop_last();
        assert(answers.take(answers.len() - 1) =~= earlier);
        assert forall|k: int| 0 <= k < earlier.len() implies {
            let at = #[trigger] replay(items, earlier.take(k));
            0 <= at.index < at.items.len()
        } by {
            assert(earlier.take(k) =~= answers.take(k));
        }
        lemma_replay_only_removes(items, earlier);
        let at = replay(items, earlier);
        if removes(answers.last()) {
            lemma_swap_removed_multiset(at.items, at.index);
        }
    }
}

/// A pass adds nothing: what it leaves was there before, no more often than
/// it was there.
pub proof fn lemma_pass_only_removes<T>(
    before: Seq<T>,
    may: spec_fn(T, Option<SyncDispatcherRequest>) -> bool,
    after: Seq<T>,
    result: ExecuteRequestsResult,
)
    requires
        passes(before, may, after, result),
    ensures
        after.to_multiset().subset_of(before.to_multiset()),
        after.len() <= before.len(),
{
    let answers = lemma_pass_answers(before, may, after, result);
    lemma_replay_only_removes(before, answers);
}

/// What a pass can leave under a callback, it can leave under every callback
/// that may give the elements of the sequence at least the same answers.
pub proof fn lemma_pass_under_wider<T>(
    before: Seq<T>,
    may: spec_fn(T, Option<SyncDispatcherRequest>) -> bool,
    wider: spec_fn(T, Option<SyncDispatcherRequest>) -> bool,
    after: Seq<T>,
    result: ExecuteRequestsResult,
)
    requires
        passes(before, may, after, result),
        forall|i: int, answer: Option<SyncDispatcherRequest>|
            0 <= i < before.len() && #[trigger] may(before[i], answer) ==> wider(before[i], answer),
    ensures
        passes(before, wider, after, result),
{
    let answers = lemma_pass_answers(before, may, after, result);
    assert forall|k: int| 0 <= k < answers.len() implies {
        let at = #[trigger] replay(before, answers.take(k));
        wider(at.items[at.index], answers[k])
    } by {
        let earlier = answers.take(k);
        let at = replay(before, earlier);
        assert forall|j: int| 0 <= j < earlier.len() implies {
            let sooner = #[trigger] replay(before, earlier.take(j));
            0 <= sooner.index < sooner.items.len()
        } by {
            assert(earlier.take(j) =~= answers.take(j));
        }
        lemma_replay_within(before, earlier);
        assert(before.contains(at.items[at.index]));
        let i = choose|i: int| 0 <= i < before.len() && before[i] == at.items[at.index];
        assert(may(before[i], answers[k]));
    }
    assert(conversation(before, wider, answers));
}

/// The rest of a pass in which `mapping` has no element that is still to be
/// visited ask for anything keeps the sequence as it is and ends as
/// `Finished`.
proof fn lemma_run_from_keeps_all<T>(at: Progress<T>, mapping: spec_fn(T) -> Option<SyncDispatcherRequest>)
    requires
        0 <= at.index <= at.items.len(),
        forall|i: int| at.index <= i < at.items.len() ==> mapping(#[trigger] at.items[i]) is None,
    ensures
        run_from(at, mapping) == (at.items, ExecuteRequestsResult::Finished),
    decreases at.items.len() - at.index,
{
    if at.index < at.items.len() {
        let answer = mapping(at.items[at.index]);
        lemma_run_from_keeps_all(advance(at, answer), mapping);
    }
}

/// A pass in which `mapping` has no element ask for anything keeps the
/// sequence as it is, in its order, and ends as `Finished`.
pub proof fn lemma_run_keeps_all<T>(items: Seq<T>, mapping: spec_fn(T) -> Option<SyncDispatcherRequest>)
    requires
        forall|i: int| 0 <= i < items.len() ==> mapping(#[trigger] items[i]) is None,
    ensures
        run(items, mapping) == (items, ExecuteRequestsResult::Finished),
{
    lemma_run_from_keeps_all(Progress { items, index: 0 }, mapping);
}

/// As long as no answer has stopped a pass whose callback follows `mapping`
/// on the elements that it visits, what is left of the pass runs as the
/// whole pass does, and visits what the whole pass has still to visit.
proof fn lemma_run_prefix_visited<T>(
    items: Seq<T>,
    may: spec_fn(T, Option<SyncDispatcherRequest>) -> bool,
    mapping: spec_fn(T) -> Option<SyncDispatcherRequest>,
    answers: Seq<Option<SyncDispatcherRequest>>,
    k: int,
)
    requires
        conversation(items, may, answers),
        forall|j: int, answer: Option<SyncDispatcherRequest>|
            0 <= j < visits(items, mapping).len() && #[trigger] may(
                visits(items, mapping)[j],
                answer,
            ) ==> answer == mapping(visits(items, mapping)[j]),
        0 <= k <= answers.len(),
        forall|j: int| 0 <= j < k ==> !stops(#[trigger] answers[j]),
    ensures
        run_from(replay(items, answers.take(k)), mapping) == run(items, mapping),
        k <= visits(items, mapping).len(),
        visits_from(replay(items, answers.take(k)), mapping) == visits(items, mapping).skip(k),
    decreases k,
{
    if k == 0 {
        assert(answers.take(0) =~= Seq::empty());
        assert(visits(items, mapping).skip(0) =~= visits(items, mapping));
    } else {
        lemma_run_prefix_visited(items, may, mapping, answers, k - 1);
        let at = replay(items, answers.take(k - 1));
        let visited = at.items[at.index];
        assert(may(visited, answers[k - 1]));
        let rest = visits(items, mapping).skip(k - 1);
        assert(rest == visits_from(at, mapping));
        assert(rest.len() > 0);
        assert(rest[0] == visited);
        assert(visits(items, mapping)[k - 1] == visited);
        assert(answers[k - 1] == mapping(visited));
        assert(answers.take(k).drop_last() =~= answers.take(k - 1));
        assert(answers.take(k).last() == answers[k - 1]);
        let next = advance(at, answers[k - 1]);
        assert(rest =~= seq![visited] + visits_from(next, mapping));
        assert(rest.skip(1) =~= visits_from(next, mapping));
        assert(visits(items, mapping).skip(k) =~= rest.skip(1));
    }
}

/// A pass whose callback gives every element that the pass visits the one
/// answer that `mapping` assigns to it leaves what `run` computes, and ends
/// as `run` says. Of what the callback would answer to an element that is
/// not visited, nothing is asked.
pub proof fn lemma_pass_follows_mapping_visited<T>(
    before: Seq<T>,
    may: spec_fn(T, Option<SyncDispatcherRequest>) -> bool,
    mapping: spec_fn(T) -> Option<SyncDispatcherRequest>,
    after: Seq<T>,
    result: ExecuteRequestsResult,
)
    requires
        passes(before, may, after, result),
        forall|j: int, answer: Option<SyncDispatcherRequest>|
            0 <= j < visits(before, mapping).len() && #[trigger] may(
                visits(before, mapping)[j],
                answer,
            ) ==> answer == mapping(visits(before, mapping)[j]),
    ensures
        (after, result) == run(before, mapping),
{
    let answers = lemma_pass_answers(before, may, after, result);
    let n = answers.len() as int;
    assert forall|j: int| 0 <= j < n - 1 implies !stops(#[trigger] answers[j]) by {
        let at = replay(before, answers.take(j));
    }
    if verdict(answers) is Stopped {
        lemma_run_prefix_visited(before, may, mapping, answers, n - 1);
        let at = replay(before, answers.take(n - 1));
        let visited = at.items[at.index];
        assert(may(visited, answers[n - 1]));
        let rest = visits(before, mapping).skip(n - 1);
        assert(rest == visits_from(at, mapping));
        assert(rest.len() > 0);
        assert(rest[0] == visited);
        assert(visits(before, mapping)[n - 1] == visited);
        assert(answers.drop_last() =~= answers.take(n - 1));
    } else {
        lemma_run_prefix_visited(before, may, mapping, answers, n);
        assert(answers.take(n) =~= answers);
    }
}

/// The element that a pass visits at a step is the one that the protocol
/// visits at that step, where the callback follows `mapping` on the elements
/// that the pass visits.
pub proof fn lemma_visit_is_visited<T>(
    items: Seq<T>,
    may: spec_fn(T, Option<SyncDispatcherRequest>) -> bool,
    mapping: spec_fn(T) -> Option<SyncDispatcherRequest>,
    answers: Seq<Option<SyncDispatcherRequest>>,
    k: int,
)
    requires
        conversation(items, may, answers),
        forall|j: int, answer: Option<SyncDispatcherRequest>|
            0 <= j < visits(items, mapping).len() && #[trigger] may(
                visits(items, mapping)[j],
                answer,
            ) ==> answer == mapping(visits(items, mapping)[j]),
        0 <= k < answers.len(),
    ensures
        k < visits(items, mapping).len(),
        visits(items, mapping)[k] == replay(items, answers.take(k)).items[replay(
            items,
            answers.take(k),
        ).index],
{
    assert forall|j: int| 0 <= j < k implies !stops(#[trigger] answers[j]) by {
        let at = replay(items, answers.take(j));
    }
    lemma_run_prefix_visited(items, may, mapping, answers, k);
    let at = replay(items, answers.take(k));
    let rest = visits(items, mapping).skip(k);
    assert(rest == visits_from(at, mapping));
    assert(rest.len() > 0);
    assert(rest[0] == at.items[at.index]);
}

/// What the rest of a pass visits are elements of the sequence as it stands.
proof fn lemma_visits_from_within<T>(at: Progress<T>, mapping: spec_fn(T) -> Option<SyncDispatcherRequest>)
    requires
        0 <= at.index <= at.items.len(),
    ensures
        forall|k: int|
            0 <= k < visits_from(at, mapping).len() ==> at.items.contains(
                #[trigger] visits_from(at, mapping)[k],
            ),
    decreases at.items.len() - at.index,
{
    if at.index < at.items.len() {
        let answer = mapping(at.items[at.index]);
        if !stops(answer) {
            let next = advance(at, answer);
            lemma_visits_from_within(next, mapping);
            assert forall|k: int| 0 <= k < visits_from(at, mapping).len() implies at.items.contains(
                #[trigger] visits_from(at, mapping)[k],
            ) by {
                if k > 0 {
                    let visited = visits_from(next, mapping)[k - 1];
                    assert(visits_from(at, mapping)[k] == visited);
                    assert(next.items.contains(visited));
                    let j = choose|j: int| 0 <= j < next.items.len() && next.items[j] == visited;
                    if removes(answer) && j == at.index {
                        assert(visited == at.items[at.items.len() - 1]);
                    } else {
                        assert(visited == at.items[j]);
                    }
                }
            }
        }
    }
}

/// What a pass visits are elements of the sequence that it began with.
pub proof fn lemma_visits_within<T>(items: Seq<T>, mapping: spec_fn(T) -> Option<SyncDispatcherRequest>)
    ensures
        forall|k: int|
            0 <= k < visits(items, mapping).len() ==> items.contains(
                #[trigger] visits(items, mapping)[k],
            ),
{
    lemma_visits_from_within(Progress { items, index: 0 }, mapping);
}

/// A pass over an empty sequence calls nothing, leaves the sequence empty and
/// ends as `Finished`, whatever the callback would answer.
pub proof fn lemma_pass_over_nothing<T>(
    may: spec_fn(T, Option<SyncDispatcherRequest>) -> bool,
    after: Seq<T>,
    result: ExecuteRequestsResult,
)
    requires
        passes(Seq::<T>::empty(), may, after, result),
    ensures
        after == Seq::<T>::empty(),
        result is Finished,
{
    let answers = lemma_pass_answers(Seq::<T>::empty(), may, after, result);
    if answers.len() > 0 {
        let at = replay(Seq::<T>::empty(), answers.take(0));
        assert(answers.take(0) =~= Seq::empty());
        assert(false);
    }
}

/// The first `k` answers of a pass in which every element asks for its
/// removal shorten the sequence by `k` elements and leave the cursor at the
/// front.
proof fn lemma_replay_removes_all<T>(
    items: Seq<T>,
    may: spec_fn(T, Option<SyncDispatcherRequest>) -> bool,
    answers: Seq<Option<SyncDispatcherRequest>>,
    k: int,
)
    requires
        conversation(items, may, answers),
        forall|i: int, answer: Option<SyncDispatcherRequest>|
            0 <= i < items.len() && #[trigger] may(items[i], answer) ==> answer == Some(
                SyncDispatcherRequest::StopListening,
            ),
        0 <= k <= answers.len(),
    ensures
        replay(items, answers.take(k)).index == 0,
        replay(items, answers.take(k)).items.len() == items.len() - k,
        forall|j: int| 0 <= j < k ==> answers[j] == Some(SyncDispatcherRequest::StopListening),
    decreases k,
{
    if k == 0 {
        assert(answers.take(0) =~= Seq::empty());
    } else {
        lemma_replay_removes_all(items, may, answers, k - 1);
        let earlier = answers.take(k - 1);
        let at = replay(items, earlier);
        assert forall|j: int| 0 <= j < earlier.len() implies {
            let before = #[trigger] replay(items, earlier.take(j));
            0 <= before.index < before.items.len()
        } by {
            assert(earlier.take(j) =~= answers.take(j));
        }
        lemma_replay_within(items, earlier);
        assert(items.contains(at.items[at.index]));
        let i = choose|i: int| 0 <= i < items.len() && items[i] == at.items[at.index];
        assert(may(items[i], answers[k - 1]));
        assert(answers.take(k).drop_last() =~= earlier);
        assert(answers.take(k).last() == answers[k - 1]);
    }
}

/// A pass in which every element asks for its removal, and for nothing else,
/// leaves the sequence empty and ends as `Finished`.
pub proof fn lemma_pass_removes_all<T>(
    before: Seq<T>,
    may: spec_fn(T, Option<SyncDispatcherRequest>) -> bool,
    after: Seq<T>,
    result: ExecuteRequestsResult,
)
    requires
        passes(before, may, after, result),
        forall|i: int, answer: Option<SyncDispatcherRequest>|
            0 <= i < before.len() && #[trigger] may(before[i], answer) ==> answer == Some(
                SyncDispatcherRequest::StopListening,
            ),
    ensures
        after == Seq::<T>::empty(),
        result is Finished,
{
    let answers = lemma_pass_answers(before, may, after, result);
    lemma_replay_removes_all(before, may, answers, answers.len() as int);
    assert(answers.take(answers.len() as int) =~= answers);
    assert(after =~= Seq::<T>::empty());
}

/// A pass in which `mapping` has every element ask for its removal, and for
/// nothing else, leaves the sequence empty and ends as `Finished`.
pub proof fn lemma_run_removes_all<T>(items: Seq<T>, mapping: spec_fn(T) -> Option<SyncDispatcherRequest>)
    requires
        forall|i: int|
            0 <= i < items.len() ==> mapping(#[trigger] items[i]) == Some(
                SyncDispatcherRequest::StopListening,
            ),
    ensures
        run(items, mapping) == (Seq::<T>::empty(), ExecuteRequestsResult::Finished),
    decreases items.len(),
{
    if items.len() == 0 {
        assert(items =~= Seq::<T>::empty());
    } else {
        let next = swap_removed(items, 0);
        assert forall|i: int| 0 <= i < next.len() implies mapping(#[trigger] next[i]) == Some(
            SyncDispatcherRequest::StopListening,
        ) by {
            if i == 0 {
                assert(next[i] == items[items.len() - 1]);
            } else {
                assert(next[i] == items[i]);
            }
        }
        lemma_run_removes_all(next, mapping);
    }
}

/// What the rest of a pass that answers by `mapping` takes out of the
/// sequence: the elements that it visits and that ask for their removal.
proof fn lemma_run_from_removes_visited<T>(
    at: Progress<T>,
    mapping: spec_fn(T) -> Option<SyncDispatcherRequest>,
)
    requires
        0 <= at.index <= at.items.len(),
    ensures
        run_from(at, mapping).0.to_multiset() == at.items.to_multiset().sub(
            visits_from(at, mapping).filter(asks_removal(mapping)).to_multiset(),
        ),
        run_from(at, mapping).1 is Stopped <==> visits_from(at, mapping).len() > 0 && stops(
            mapping(visits_from(at, mapping).last()),
        ),
        forall|k: int|
            0 <= k < visits_from(at, mapping).len() - 1 ==> !stops(
                mapping(#[trigger] visits_from(at, mapping)[k]),
            ),
    decreases at.items.len() - at.index,
{
    broadcast use vstd::seq_lib::group_to_multiset_ensures;

    let asks = asks_removal(mapping);
    let nothing = Seq::<T>::empty();
    assert(nothing.filter(asks) =~= nothing) by {
        nothing.lemma_filter_len(asks);
    }
    if at.index < at.items.len() {
        let item = at.items[at.index];
        let answer = mapping(item);
        let next = advance(at, answer);
        if removes(answer) {
            lemma_swap_removed_multiset(at.items, at.index);
        }
        let rest = if stops(answer) {
            nothing
        } else {
            visits_from(next, mapping)
        };
        if !stops(answer) {
            lemma_run_from_removes_visited(next, mapping);
        }
        let visited = visits_from(at, mapping);
        assert(visited =~= seq![item] + rest);
        rest.lemma_filter_prepend(item, asks);
        let gone = rest.filter(asks);
        if removes(answer) {
            assert(seq![item] + gone =~= gone.insert(0, item));
            assert(visited.filter(asks).to_multiset() =~= gone.to_multiset().insert(item));
            assert(at.items.to_multiset().remove(item).sub(gone.to_multiset())
                =~= at.items.to_multiset().sub(gone.to_multiset().insert(item)));
        } else {
            assert(nothing + gone =~= gone);
        }
        assert forall|k: int| 0 <= k < visited.len() - 1 implies !stops(
            mapping(#[trigger] visited[k]),
        ) by {
            if k > 0 {
                assert(visited[k] == rest[k - 1]);
            }
        }
        if rest.len() > 0 {
            assert(visited.last() == rest.last());
        }
    } else {
        assert(at.items.to_multiset().sub(nothing.to_multiset()) =~= at.items.to_multiset());
    }
}

/// A pass that answers by `mapping` takes out of `items` exactly the elements
/// that it visits and that ask for their removal. It ends as `Stopped` if and
/// only if its last visit asks for a stop, and no visit before the last does.
pub proof fn lemma_run_removes_visited<T>(
    items: Seq<T>,
    mapping: spec_fn(T) -> Option<SyncDispatcherRequest>,
)
    ensures
        run(items, mapping).0.to_multiset() == items.to_multiset().sub(
            visits(items, mapping).filter(asks_removal(mapping)).to_multiset(),
        ),
        run(items, mapping).1 is Stopped <==> visits(items, mapping).len() > 0 && stops(
            mapping(visits(items, mapping).last()),
        ),
        forall|k: int|
            0 <= k < visits(items, mapping).len() - 1 ==> !stops(
                mapping(#[trigger] visits(items, mapping)[k]),
            ),
{
    lemma_run_from_removes_visited(Progress { items, index: 0 }, mapping);
}

/// What the rest of a pass that answers by `mapping` takes out of the
/// sequence, given that it has kept what it visited so far because nothing
/// there asked for anything.
proof fn lemma_run_from_accounts<T>(at: Progress<T>, mapping: spec_fn(T) -> Option<SyncDispatcherRequest>)
    requires
        0 <= at.index <= at.items.len(),
        forall|j: int| 0 <= j < at.index ==> mapping(#[trigger] at.items[j]) is None,
    ensures
        forall|item: T|
            !removes(mapping(item)) ==> #[trigger] run_from(at, mapping).0.to_multiset().count(item)
                == at.items.to_multiset().count(item),
        forall|item: T| #[trigger]
            run_from(at, mapping).0.to_multiset().count(item) <= at.items.to_multiset().count(item),
        run_from(at, mapping).1 is Finished ==> forall|item: T|
            removes(mapping(item)) ==> #[trigger] run_from(at, mapping).0.to_multiset().count(item)
                == 0,
        run_from(at, mapping).1 is Stopped <==> exists|j: int|
            at.index <= j < at.items.len() && stops(mapping(#[trigger] at.items[j])),
    decreases at.items.len() - at.index,
{
    broadcast use vstd::seq_lib::group_to_multiset_ensures;

    if at.index < at.items.len() {
        let answer = mapping(at.items[at.index]);
        let next = advance(at, answer);
        if removes(answer) {
            lemma_swap_removed_multiset(at.items, at.index);
        }
        if stops(answer) {
        } else {
            assert forall|j: int| 0 <= j < next.index implies mapping(#[trigger] next.items[j])
                is None by {
                assert(next.items[j] == at.items[j]);
            }
            lemma_run_from_accounts(next, mapping);
            if run_from(at, mapping).1 is Stopped {
                let j = choose|j: int|
                    next.index <= j < next.items.len() && stops(mapping(#[trigger] next.items[j]));
                if removes(answer) && j == at.index {
                    assert(stops(mapping(at.items[at.items.len() - 1])));
                } else {
                    assert(stops(mapping(at.items[j])));
                }
            }
            if exists|j: int|
                at.index <= j < at.items.len() && stops(mapping(#[trigger] at.items[j])) {
                let j = choose|j: int|
                    at.index <= j < at.items.len() && stops(mapping(#[trigger] at.items[j]));
                if removes(answer) && j == at.items.len() - 1 {
                    assert(stops(mapping(next.items[at.index])));
                } else {
                    assert(stops(mapping(next.items[j])));
                }
            }
        }
    } else {
        assert forall|item: T| removes(mapping(item)) implies #[trigger] at.items.to_multiset().count(
            item,
        ) == 0 by {
            if at.items.contains(item) {
                let j = choose|j: int| 0 <= j < at.items.len() && at.items[j] == item;
                assert(mapping(at.items[j]) is None);
            }
        }
    }
}

/// What a pass that answers by `mapping` takes out of `items`.
///
/// Every element that does not ask for its removal stays, as often as it
/// occurred; nothing is added. The pass ends as `Stopped` if and only if some
/// element asks for a stop. Where it ends as `Finished`, it has visited every
/// element, and the elements that asked for their removal are all gone.
pub proof fn lemma_run_accounts<T>(items: Seq<T>, mapping: spec_fn(T) -> Option<SyncDispatcherRequest>)
    ensures
        forall|item: T|
            !removes(mapping(item)) ==> #[trigger] run(items, mapping).0.to_multiset().count(item)
                == items.to_multiset().count(item),
        forall|item: T| #[trigger]
            run(items, mapping).0.to_multiset().count(item) <= items.to_multiset().count(item),
        run(items, mapping).1 is Finished ==> forall|item: T|
            removes(mapping(item)) ==> #[trigger] run(items, mapping).0.to_multiset().count(item)
                == 0,
        run(items, mapping).1 is Stopped <==> exists|j: int|
            0 <= j < items.len() && stops(mapping(#[trigger] items[j])),
{
    lemma_run_from_accounts(Progress { items, index: 0 }, mapping);
}

} // verus!
