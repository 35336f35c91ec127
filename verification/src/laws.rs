//! What holds of every automaton: of its construction, of the capture rule
//! and of the outcome of a match.

use crate::class::ClassView;
use crate::model::{lemma_filter_first, Automaton, ThreadView};
use crate::order::{exceeds, is_first_greatest, lemma_first_greatest_is_unique};
use crate::outcome::{ranks, Failure, MatchView};
use vstd::prelude::*;

verus! {

/// `ord` returns one key for one state, however often it is asked.
pub open spec fn is_function<I, F: Fn(usize) -> I>(ord: F) -> bool {
    forall|state: usize, a: I, b: I|
        call_ensures(ord, (state,), a) && call_ensures(ord, (state,), b) ==> a == b
}

/// A match is determined by the automaton, the input and the order: where
/// the order is a function of the state, two matches of one input against
/// one automaton have the same outcome.
pub proof fn lemma_process_is_deterministic<T, I: Ord, F: Fn(usize) -> I>(
    nfa: Automaton<T>,
    input: Seq<char>,
    ord: F,
    first: Result<MatchView, Failure>,
    second: Result<MatchView, Failure>,
)
    requires
        is_function(ord),
        nfa.yields(input, ord, first),
        nfa.yields(input, ord, second),
    ensures
        first == second,
{
    match (first, second) {
        (Ok(a), Ok(b)) => {
            let (keys_a, winner_a): (Seq<I>, int) = choose|keys: Seq<I>, winner: int|
                {
                    &&& ranks(ord, nfa.candidates(input), keys)
                    &&& #[trigger] is_first_greatest(keys, winner)
                    &&& a == nfa.match_of(input, winner)
                };
            let (keys_b, winner_b): (Seq<I>, int) = choose|keys: Seq<I>, winner: int|
                {
                    &&& ranks(ord, nfa.candidates(input), keys)
                    &&& #[trigger] is_first_greatest(keys, winner)
                    &&& b == nfa.match_of(input, winner)
                };
            assert(keys_a =~= keys_b);
            lemma_first_greatest_is_unique(keys_a, winner_a, winner_b);
        },
        (
            Err(Failure::Processing { input: _, position: p }),
            Err(Failure::Processing { input: _, position: q }),
        ) => {
            if p < q {
                nfa.lemma_run_stays_empty(input, (p + 1) as nat, q as nat);
            } else if q < p {
                nfa.lemma_run_stays_empty(input, (q + 1) as nat, p as nat);
            }
        },
        _ => {},
    }
}

/// A second `put` of an equal class from the same state finds what the first
/// one left: it returns the same state and changes nothing.
pub proof fn lemma_put_is_idempotent<T>(nfa: Automaton<T>, from: usize, chars: ClassView)
    requires
        nfa.wf(),
        nfa.has(from),
        nfa.states.len() < usize::MAX,
    ensures
        nfa.put(from, chars).0.put(from, chars) == nfa.put(from, chars),
{
    let (once, target) = nfa.put(from, chars);
    if nfa.find(from, chars) is None {
        let next = nfa.states[from as int].next_states;
        let grown = once.states[from as int].next_states;
        assert forall|j: int| 0 <= j < next.len() implies !once.of_class(chars)(#[trigger] grown[j]) by {
            if nfa.of_class(chars)(next[j]) {
                next.lemma_filter_contains(nfa.of_class(chars), j);
            }
        }
        lemma_filter_first(grown, once.of_class(chars), next.len() as int);
    }
}

/// `put` keeps what was built: the states that exist keep their positions,
/// classes, marks and payloads, and each keeps its transitions in their
/// order, before the one that `put` may add. A state that `put` creates comes
/// last.
pub proof fn lemma_put_keeps_what_was_built<T>(
    nfa: Automaton<T>,
    from: usize,
    chars: ClassView,
    state: int,
)
    requires
        nfa.wf(),
        nfa.has(from),
        nfa.states.len() < usize::MAX,
        0 <= state < nfa.states.len(),
    ensures
        ({
            let (after, target) = nfa.put(from, chars);
            let before = nfa.states[state];
            &&& after.wf()
            &&& after.has(target)
            &&& after.states[target as int].chars == chars
            &&& after.states[from as int].next_states.contains(target)
            &&& nfa.states.len() <= after.states.len() <= nfa.states.len() + 1
            &&& after.states.len() > nfa.states.len() ==> target == nfa.states.len()
            &&& after.states[state].chars == before.chars
            &&& after.states[state].acceptance == before.acceptance
            &&& after.states[state].start_capture == before.start_capture
            &&& after.states[state].end_capture == before.end_capture
            &&& after.states[state].metadata == before.metadata
            &&& before.next_states.is_prefix_of(after.states[state].next_states)
        }),
{
    let (after, target) = nfa.put(from, chars);
    let next = nfa.states[from as int].next_states;
    match nfa.find(from, chars) {
        Some(to) => {
            let same = next.filter(nfa.of_class(chars));
            next.lemma_filter_pred(nfa.of_class(chars), 0);
            next.lemma_filter_contains_rev(nfa.of_class(chars), same[0]);
        },
        None => {
            assert(next.push(target)[next.len() as int] == target);
            assert forall|i: int, k: int|
                0 <= i < after.states.len() && 0 <= k < after.states[i].next_states.len() implies (
            #[trigger] after.states[i].next_states[k]) < after.states.len() by {}
        },
    }
}

/// The state that a match returns is ranked highest among the candidates:
/// no candidate's state has a key that exceeds the key of the state returned.
pub proof fn lemma_winner_is_ranked_highest<T, I: Ord, F: Fn(usize) -> I>(
    nfa: Automaton<T>,
    input: Seq<char>,
    ord: F,
    found: MatchView,
    rival: int,
    key_of_rival: I,
    key_of_found: I,
)
    requires
        is_function(ord),
        nfa.yields(input, ord, Ok(found)),
        0 <= rival < nfa.candidates(input).len(),
        call_ensures(ord, (nfa.candidates(input)[rival].state,), key_of_rival),
        call_ensures(ord, (found.state,), key_of_found),
    ensures
        !exceeds(key_of_rival, key_of_found),
{
    let (keys, winner): (Seq<I>, int) = choose|keys: Seq<I>, winner: int|
        {
            &&& ranks(ord, nfa.candidates(input), keys)
            &&& #[trigger] is_first_greatest(keys, winner)
            &&& found == nfa.match_of(input, winner)
        };
    assert(keys[rival] == key_of_rival);
}

/// A candidate whose state is ranked strictly above the state of every other
/// candidate wins: the match returns its state. So the order alone decides
/// between two candidates in different states, and the opposite order decides
/// the other way.
pub proof fn lemma_highest_ranked_state_wins<T, I: Ord, F: Fn(usize) -> I>(
    nfa: Automaton<T>,
    input: Seq<char>,
    ord: F,
    found: MatchView,
    favourite: int,
    key_of_favourite: I,
)
    requires
        is_function(ord),
        nfa.yields(input, ord, Ok(found)),
        0 <= favourite < nfa.candidates(input).len(),
        call_ensures(ord, (nfa.candidates(input)[favourite].state,), key_of_favourite),
        forall|rival: int, key: I|
            0 <= rival < nfa.candidates(input).len() && nfa.candidates(input)[rival].state
                != nfa.candidates(input)[favourite].state && #[trigger] call_ensures(
                ord,
                (nfa.candidates(input)[rival].state,),
                key,
            ) ==> exceeds(key_of_favourite, key),
    ensures
        found.state == nfa.candidates(input)[favourite].state,
{
    let (keys, winner): (Seq<I>, int) = choose|keys: Seq<I>, winner: int|
        {
            &&& ranks(ord, nfa.candidates(input), keys)
            &&& #[trigger] is_first_greatest(keys, winner)
            &&& found == nfa.match_of(input, winner)
        };
    assert(keys[favourite] == key_of_favourite);
    if nfa.candidates(input)[winner].state != nfa.candidates(input)[favourite].state {
        assert(call_ensures(ord, (nfa.candidates(input)[winner].state,), keys[winner]));
        assert(exceeds(keys[favourite], keys[winner]));
    }
}

/// Each captured piece of a match is the piece of the input between the
/// positions at which the winning thread opened and closed that capture, and
/// a capture left open reaches to the end of the input.
pub proof fn lemma_captures_are_slices<T, I: Ord, F: Fn(usize) -> I>(
    nfa: Automaton<T>,
    input: Seq<char>,
    ord: F,
    found: MatchView,
) -> (thread: ThreadView)
    requires
        nfa.wf(),
        nfa.yields(input, ord, Ok(found)),
    ensures
        nfa.candidates(input).contains(thread),
        found.state == thread.state,
        found.captures.len() == thread.captures.len() + if thread.capture_begin is Some {
            1int
        } else {
            0int
        },
        forall|k: int|
            0 <= k < thread.captures.len() ==> {
                &&& 0 <= thread.captures[k].0 <= thread.captures[k].1 <= input.len()
                &&& #[trigger] found.captures[k] == input.subrange(
                    thread.captures[k].0,
                    thread.captures[k].1,
                )
            },
        thread.capture_begin matches Some(begin) ==> 0 <= begin <= input.len()
            && found.captures.last() == input.subrange(begin, input.len() as int),
{
    let (keys, winner): (Seq<I>, int) = choose|keys: Seq<I>, winner: int|
        {
            &&& ranks(ord, nfa.candidates(input), keys)
            &&& #[trigger] is_first_greatest(keys, winner)
            &&& found == nfa.match_of(input, winner)
        };
    let thread = nfa.candidates(input)[winner];
    nfa.lemma_run_sound(input, input.len());
    nfa.survivors(input).lemma_filter_contains_rev(nfa.in_acceptance(), thread);
    thread
}

/// Captures do not nest. A thread with a capture open from `begin` goes on
/// with that capture still open from `begin`, or closes it as the capture
/// from `begin` to the position it is at, and then has none open. A thread
/// with no capture open closes none, unless it opens one at the position it
/// is at and closes it there.
pub proof fn lemma_captures_do_not_nest<T>(nfa: Automaton<T>, thread: ThreadView, to: usize, pos: int)
    ensures
        ({
            let after = nfa.advance(thread, to, pos);
            &&& after.state == to
            &&& thread.capture_begin matches Some(begin) ==> {
                ||| after.captures == thread.captures && after.capture_begin == Some(begin)
                ||| after.captures == thread.captures.push((begin, pos)) && after.capture_begin
                    is None
            }
            &&& thread.capture_begin is None ==> {
                ||| after.captures == thread.captures && after.capture_begin is None
                ||| after.captures == thread.captures && after.capture_begin == Some(pos)
                ||| after.captures == thread.captures.push((pos, pos)) && after.capture_begin
                    is None
            }
        }),
{
}

/// A thread that stays in its state, or goes back to an earlier one, closes
/// no capture: what it has captured is unchanged, and a capture that was open
/// stays open from where it began. A capture is closed only on the way
/// to a later state.
pub proof fn lemma_only_a_later_state_closes<T>(
    nfa: Automaton<T>,
    thread: ThreadView,
    to: usize,
    pos: int,
)
    ensures
        nfa.advance(thread, to, pos).captures != thread.captures ==> to > thread.state,
        to <= thread.state ==> nfa.advance(thread, to, pos).captures == thread.captures,
        to <= thread.state && thread.capture_begin is Some ==> nfa.advance(
            thread,
            to,
            pos,
        ).capture_begin == thread.capture_begin,
{
}

} // verus!
