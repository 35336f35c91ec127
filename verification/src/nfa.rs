//! The automaton: its construction, and the simulation that matches a string
//! against it.

use crate::class::CharacterClass;
use crate::model::{lemma_filter_first, lemma_filter_none, Automaton, ThreadView};
use crate::order::{
    is_first_greatest, is_total_order, lemma_first_greatest_of_one,
    lemma_first_greatest_with_one_more, lemma_total_order_compares,
};
use crate::outcome::{outcome_view, ranks, Match, MatchError};
use crate::state::State;
use crate::thread::Thread;
use vstd::prelude::*;
use vstd::string::StrSliceExecFns;

verus! {

broadcast use vstd::string::group_string_axioms;

/// What a sequence of threads stands for.
pub open spec fn views(threads: Seq<Thread>) -> Seq<ThreadView> {
    threads.map_values(|thread: Thread| thread@)
}

/// A nondeterministic finite automaton whose states carry payloads of type
/// `T`. The marks of each state are kept a second time in three vectors
/// beside the states, which is where the simulation reads them.
#[derive(Debug)]
pub struct NFA<T> {
    states: Vec<State<T>>,
    start_capture: Vec<bool>,
    end_capture: Vec<bool>,
    acceptance: Vec<bool>,
}

impl<T> View for NFA<T> {
    type V = Automaton<T>;

    closed spec fn view(&self) -> Automaton<T> {
        Automaton { states: self.states@.map_values(|state: State<T>| state@) }
    }
}

impl<T> NFA<T> {
    /// The automaton is well formed, every state knows its own position, and
    /// the three vectors of marks agree with the marks of the states.
    pub closed spec fn wf(&self) -> bool {
        &&& self@.wf()
        &&& self.start_capture@.len() == self.states@.len()
        &&& self.end_capture@.len() == self.states@.len()
        &&& self.acceptance@.len() == self.states@.len()
        &&& forall|i: int|
            0 <= i < self.states@.len() ==> {
                &&& (#[trigger] self.states@[i]).index == i
                &&& self.states@[i].start_capture == self.start_capture@[i]
                &&& self.states@[i].end_capture == self.end_capture@[i]
                &&& self.states@[i].acceptance == self.acceptance@[i]
            }
    }

    /// A well-formed `NFA` stands for a well-formed automaton.
    pub proof fn lemma_wf(&self)
        requires
            self.wf(),
        ensures
            self@.wf(),
    {
    }

    /// An automaton with the start state alone: state 0, which has no
    /// transitions and no marks.
    pub fn new() -> (nfa: NFA<T>)
        ensures
            nfa.wf(),
            nfa@ == Automaton::<T>::initial(),
    {
        let root = State::new(0, CharacterClass::any());
        let nfa = NFA {
            states: vec![root],
            start_capture: vec![false],
            end_capture: vec![false],
            acceptance: vec![false],
        };
        proof {
            assert(nfa@.states =~= Automaton::<T>::initial().states);
        }
        nfa
    }

    /// The state at position `state`.
    pub fn get(&self, state: usize) -> (found: &State<T>)
        requires
            self.wf(),
            self@.has(state),
        ensures
            found.index == state,
            found@ == self@.states[state as int],
    {
        &self.states[state]
    }

    /// The state at position `state`, to be changed in place. The automaton
    /// is then what it was, with the state as the caller leaves it. It stays
    /// well formed exactly when the caller leaves the state's position and
    /// marks as they were and its transitions among the states that exist;
    /// the payload and the class may change freely.
    pub fn get_mut(&mut self, state: usize) -> (found: &mut State<T>)
        requires
            old(self).wf(),
            old(self)@.has(state),
        ensures
            found.index == state,
            found@ == old(self)@.states[state as int],
            final(self)@.states == old(self)@.states.update(state as int, final(found)@),
            final(self).wf() <==> {
                &&& final(found).index == state
                &&& final(found).acceptance == found.acceptance
                &&& final(found).start_capture == found.start_capture
                &&& final(found).end_capture == found.end_capture
                &&& forall|k: int|
                    0 <= k < final(found).next_states@.len() ==> old(self)@.has(
                        #[trigger] final(found).next_states@[k],
                    )
            },
    {
        proof {
            let before = *self;
            assert forall|after: NFA<T>|
                after.states@ == before.states@.update(state as int, after.states@[state as int])
                    && after.acceptance == before.acceptance && after.start_capture
                    == before.start_capture && after.end_capture == before.end_capture implies {
                &&& after@.states == before@.states.update(
                    state as int,
                    after.states@[state as int]@,
                )
                &&& #[trigger] after.wf() <==> before.kept_by(after.states@[state as int], state)
            } by {
                before.lemma_wf_with_state_changed(&after, state);
            }
        }
        &mut self.states[state]
    }

    /// What a changed state must keep for the automaton to stay well formed.
    closed spec fn kept_by(&self, changed: State<T>, state: usize) -> bool {
        &&& changed.index == state
        &&& changed.acceptance == self.states@[state as int].acceptance
        &&& changed.start_capture == self.states@[state as int].start_capture
        &&& changed.end_capture == self.states@[state as int].end_capture
        &&& forall|k: int|
            0 <= k < changed.next_states@.len() ==> self@.has(#[trigger] changed.next_states@[k])
    }

    /// How well-formedness fares when one state changes.
    proof fn lemma_wf_with_state_changed(&self, after: &NFA<T>, state: usize)
        requires
            self.wf(),
            self@.has(state),
            after.states@ == self.states@.update(state as int, after.states@[state as int]),
            after.acceptance == self.acceptance,
            after.start_capture == self.start_capture,
            after.end_capture == self.end_capture,
        ensures
            after@.states == self@.states.update(state as int, after.states@[state as int]@),
            after.wf() <==> self.kept_by(after.states@[state as int], state),
    {
        let changed = after.states@[state as int];
        if after.wf() {
            assert forall|k: int| 0 <= k < changed.next_states@.len() implies self@.has(
                #[trigger] changed.next_states@[k],
            ) by {
                assert(after@.has(after@.states[state as int].next_states[k]));
            }
        }
        if changed.index == state && changed.acceptance == self.states@[state as int].acceptance
            && changed.start_capture == self.states@[state as int].start_capture
            && changed.end_capture == self.states@[state as int].end_capture && (forall|k: int|
            0 <= k < changed.next_states@.len() ==> self@.has(#[trigger] changed.next_states@[k])) {
            assert forall|from: int, k: int|
                0 <= from < after@.states.len() && 0 <= k < after@.states[from].next_states.len() implies (
            #[trigger] after@.states[from].next_states[k]) < after@.states.len() by {
                if from != state {
                    assert(self@.has(self@.states[from].next_states[k]));
                }
            }
        }
    }

    /// Adds a transition from `index` to the state `child`, after the
    /// transitions that `index` already has. `child` is any state that
    /// exists, `index` itself included.
    pub fn put_state(&mut self, index: usize, child: usize)
        requires
            old(self).wf(),
            old(self)@.has(index),
            old(self)@.has(child),
        ensures
            final(self).wf(),
            final(self)@ == old(self)@.linked(index, child),
    {
        self.states[index].next_states.push(child);
        proof {
            assert(self@.states =~= old(self)@.linked(index, child).states);
        }
    }

    /// Marks the state `index` as accepting.
    pub fn acceptance(&mut self, index: usize)
        requires
            old(self).wf(),
            old(self)@.has(index),
        ensures
            final(self).wf(),
            final(self)@ == old(self)@.accepting(index),
    {
        self.states[index].acceptance = true;
        self.acceptance[index] = true;
        proof {
            assert(self@.states =~= old(self)@.accepting(index).states);
        }
    }

    /// Marks the state `index` as one that opens a capture in the threads
    /// that enter it.
    pub fn start_capture(&mut self, index: usize)
        requires
            old(self).wf(),
            old(self)@.has(index),
        ensures
            final(self).wf(),
            final(self)@ == old(self)@.starting(index),
    {
        self.states[index].start_capture = true;
        self.start_capture[index] = true;
        proof {
            assert(self@.states =~= old(self)@.starting(index).states);
        }
    }

    /// Marks the state `index` as one that ends the capture of the threads
    /// that leave it for a later state.
    pub fn end_capture(&mut self, index: usize)
        requires
            old(self).wf(),
            old(self)@.has(index),
        ensures
            final(self).wf(),
            final(self)@ == old(self)@.ending(index),
    {
        self.states[index].end_capture = true;
        self.end_capture[index] = true;
        proof {
            assert(self@.states =~= old(self)@.ending(index).states);
        }
    }

    /// Attaches `metadata` to the state `index`, in place of what was
    /// attached before.
    pub fn metadata(&mut self, index: usize, metadata: T)
        requires
            old(self).wf(),
            old(self)@.has(index),
        ensures
            final(self).wf(),
            final(self)@ == old(self)@.tagged(index, metadata),
    {
        self.states[index].metadata = Some(metadata);
        proof {
            assert(self@.states =~= old(self)@.tagged(index, metadata).states);
        }
    }

    /// Returns the state that threads in `index` enter on a character of the
    /// class `chars`. Where `index` has a transition to a state of that very
    /// class, it is the target of the first such transition, and nothing
    /// changes. Otherwise it is a new state of that class, created last and
    /// entered from `index`.
    pub fn put(&mut self, index: usize, chars: CharacterClass) -> (target: usize)
        requires
            old(self).wf(),
            old(self)@.has(index),
        ensures
            final(self).wf(),
            (final(self)@, target) == old(self)@.put(index, chars@),
    {
        let ghost same = self@.of_class(chars@);
        let state = self.get(index);
        let mut k: usize = 0;
        while k < state.next_states.len()
            invariant
                self.wf(),
                self@.has(index),
                state@ == self@.states[index as int],
                same == self@.of_class(chars@),
                k <= state.next_states@.len(),
                forall|j: int| 0 <= j < k ==> !same(#[trigger] state.next_states@[j]),
            decreases state.next_states@.len() - k,
        {
            let to = state.next_states[k];
            assert(self@.has(self@.states[index as int].next_states[k as int]));
            if self.get(to).chars == chars {
                proof {
                    lemma_filter_first(state.next_states@, same, k as int);
                }
                return to;
            }
            k += 1;
        }
        proof {
            lemma_filter_none(state.next_states@, same);
        }
        let target = self.new_state(chars);
        self.states[index].next_states.push(target);
        proof {
            assert(self@.states =~= old(self)@.grown(chars@).linked(index, target).states);
        }
        target
    }

    /// Matches `string` against the automaton.
    ///
    /// All paths through the automaton are followed at once, one thread for
    /// each. The match fails with `MatchError::Processing` when a character
    /// leaves no thread alive, and with `MatchError::NoAcceptance` when the
    /// input ends and no thread is in an accepting state. Otherwise, of the
    /// threads that end in an accepting state, the one whose state `ord`
    /// ranks highest wins, and the first of them where `ord` ranks several
    /// highest; the match returns its state and the pieces of `string` that it
    /// captured.
    ///
    /// `ord` gives each state a key, and the keys are compared.
    pub fn process<'a, I: Ord, F: Fn(usize) -> I>(&self, string: &'a str, ord: F) -> (outcome: Result<
        Match<'a>,
        MatchError,
    >)
        requires
            self.wf(),
            is_total_order::<I>(),
            forall|state: usize| self@.has(state) ==> call_requires(ord, (state,)),
        ensures
            outcome is Ok <==> self@.candidates(string@).len() > 0,
            outcome matches Err(MatchError::Processing { .. }) <==> self@.survivors(string@).len()
                == 0,
            outcome matches Err(MatchError::NoAcceptance) <==> self@.survivors(string@).len() > 0
                && self@.candidates(string@).len() == 0,
            self@.yields(string@, ord, outcome_view(outcome)),
    {
        proof {
            if self@.survivors(string@).len() == 0 {
                lemma_filter_none(self@.survivors(string@), self@.in_acceptance());
            }
        }
        let length = string.unicode_len();
        let mut threads: Vec<Thread> = Vec::new();
        threads.push(Thread::new());
        let mut pos: usize = 0;
        for c in it: string.chars()
            invariant
                self.wf(),
                it.seq() == string@,
                pos == it.index(),
                length == string@.len(),
                threads@.len() > 0,
                views(threads@) == self@.run(string@, pos as nat),
        {
            proof {
                self@.lemma_run_sound(string@, pos as nat);
                assert forall|k: int| 0 <= k < threads@.len() implies self@.has(
                    (#[trigger] threads@[k]).state,
                ) by {
                    assert(self@.sound(views(threads@)[k], pos as int));
                }
            }
            let next_threads = self.process_char(threads, c, pos);
            if next_threads.is_empty() {
                proof {
                    self@.lemma_run_stays_empty(string@, (pos + 1) as nat, string@.len());
                }
                return Err(MatchError::Processing { input: string.to_owned(), position: pos });
            }
            threads = next_threads;
            pos += 1;
        }
        // Of the threads in an accepting state, find the first whose key is
        // the greatest. `keys` holds the keys of those seen so far.
        let ghost survivors = views(threads@);
        let ghost mut keys: Seq<I> = Seq::empty();
        let ghost mut winner: int = 0;
        let mut best: Option<(usize, I)> = None;
        let mut at: usize = 0;
        proof {
            self@.lemma_run_sound(string@, string@.len());
            lemma_filter_none(survivors.take(0), self@.in_acceptance());
        }
        while at < threads.len()
            invariant
                self.wf(),
                is_total_order::<I>(),
                forall|state: usize| self@.has(state) ==> call_requires(ord, (state,)),
                survivors == views(threads@),
                self@.all_sound(survivors, length as int),
                at <= threads@.len(),
                ranks(ord, self@.accepted(survivors.take(at as int)), keys),
                best is None <==> keys.len() == 0,
                best matches Some((place, key)) ==> {
                    &&& place < at
                    &&& is_first_greatest(keys, winner)
                    &&& keys[winner] == key
                    &&& survivors[place as int] == self@.accepted(survivors.take(at as int))[winner]
                },
            decreases threads@.len() - at,
        {
            proof {
                assert(survivors.take(at + 1) =~= survivors.take(at as int).push(survivors[at as int]));
                survivors.take(at as int).lemma_filter_push(survivors[at as int], self@.in_acceptance());
            }
            if self.get(threads[at].state).acceptance {
                let key = ord(threads[at].state);
                let better = match &best {
                    None => true,
                    Some((_, top)) => {
                        proof {
                            lemma_total_order_compares::<I>();
                        }
                        key > *top
                    },
                };
                proof {
                    if keys.len() == 0 {
                        lemma_first_greatest_of_one(key);
                        assert(keys.push(key) =~= seq![key]);
                    } else {
                        lemma_first_greatest_with_one_more(keys, winner, key, keys.len() as int);
                    }
                    if better {
                        winner = keys.len() as int;
                    }
                    keys = keys.push(key);
                }
                if better {
                    best = Some((at, key));
                }
            }
            at += 1;
        }
        proof {
            assert(survivors.take(threads@.len() as int) =~= survivors);
        }
        match best {
            None => Err(MatchError::NoAcceptance),
            Some((place, _)) => {
                let mut thread = threads.swap_remove(place);
                if thread.capture_begin.is_some() {
                    thread.end_capture(length);
                }
                proof {
                    assert(thread@.within(length as int));
                    assert forall|k: int| 0 <= k < thread.captures@.len() implies (
                    #[trigger] thread.captures@[k]).0 <= thread.captures@[k].1 <= string@.len() by {
                        assert(thread@.captures[k] == (
                            thread.captures@[k].0 as int,
                            thread.captures@[k].1 as int,
                        ));
                    }
                }
                let state = self.get(thread.state);
                Ok(Match::new(state.index, thread.extract(string)))
            },
        }
    }

    /// The threads after the character `c` at position `pos`: each of
    /// `threads` goes on to every state that it has a transition to and that
    /// admits `c`, and is dropped where there is none.
    fn process_char(&self, threads: Vec<Thread>, c: char, pos: usize) -> (returned: Vec<Thread>)
        requires
            self.wf(),
            forall|k: int| 0 <= k < threads@.len() ==> self@.has((#[trigger] threads@[k]).state),
        ensures
            views(returned@) == self@.step(views(threads@), c, pos as int),
    {
        let mut returned: Vec<Thread> = Vec::with_capacity(threads.len());
        let ghost all = threads@;
        proof {
            self@.lemma_step_of_none(c, pos as int);
        }
        for thread in it: threads
            invariant
                self.wf(),
                it.seq() == all,
                forall|k: int| 0 <= k < all.len() ==> self@.has((#[trigger] all[k]).state),
                views(returned@) == self@.step(views(all).take(it.index()), c, pos as int),
        {
            let mut thread = thread;
            let ghost done = views(returned@);
            let ghost from = thread@;
            proof {
                assert(views(all).take(it.index() + 1) =~= views(all).take(it.index()).push(from));
                self@.lemma_step_push(views(all).take(it.index()), from, c, pos as int);
            }
            let current_state = self.get(thread.state);
            let ghost next = current_state.next_states@;
            let ghost admitting = self@.admitting(c);
            let ghost advancing = self@.advancing(from, pos as int);

            // Count the transitions that admit `c`, and keep the last of them.
            let mut count: usize = 0;
            let mut found_state: usize = 0;
            let mut k: usize = 0;
            proof {
                lemma_filter_none(next.take(0), admitting);
            }
            while k < current_state.next_states.len()
                invariant
                    self.wf(),
                    self@.has(thread.state),
                    current_state@ == self@.states[thread.state as int],
                    next == current_state.next_states@,
                    admitting == self@.admitting(c),
                    k <= next.len(),
                    count == next.take(k as int).filter(admitting).len(),
                    count > 0 ==> found_state == next.take(k as int).filter(admitting).last(),
                decreases next.len() - k,
            {
                let index = current_state.next_states[k];
                proof {
                    assert(self@.has(self@.states[thread.state as int].next_states[k as int]));
                    assert(next.take(k + 1) =~= next.take(k as int).push(index));
                    next.take(k as int).lemma_filter_push(index, admitting);
                    next.take(k as int).lemma_filter_len(admitting);
                }
                let state = &self.states[index];
                if state.chars.matches(c) {
                    count += 1;
                    found_state = index;
                }
                k += 1;
            }
            proof {
                assert(next.take(next.len() as int) =~= next);
            }

            if count == 1 {
                // One way on: the thread itself takes it.
                proof {
                    // The one state that admits `c` is a transition target: it exists.
                    next.lemma_filter_contains_rev(admitting, found_state);
                }
                thread.state = found_state;
                capture(self, &mut thread, current_state.index, found_state, pos);
                returned.push(thread);
            } else {
                // Several ways on, or none: a copy of the thread takes each.
                let mut k: usize = 0;
                proof {
                    lemma_filter_none(next.take(0), admitting);
                }
                while k < current_state.next_states.len()
                    invariant
                        self.wf(),
                        self@.has(thread.state),
                        thread@ == from,
                        current_state@ == self@.states[thread.state as int],
                        current_state.index == thread.state,
                        next == current_state.next_states@,
                        admitting == self@.admitting(c),
                        k <= next.len(),
                        advancing == self@.advancing(from, pos as int),
                        views(returned@) == done + next.take(k as int).filter(admitting).map_values(
                            advancing,
                        ),
                    decreases next.len() - k,
                {
                    let index = current_state.next_states[k];
                    proof {
                        assert(self@.has(self@.states[thread.state as int].next_states[k as int]));
                        assert(next.take(k + 1) =~= next.take(k as int).push(index));
                        next.take(k as int).lemma_filter_push(index, admitting);
                    }
                    let state = &self.states[index];
                    if state.chars.matches(c) {
                        let mut forked = fork_thread(&thread, state);
                        capture(self, &mut forked, current_state.index, index, pos);
                        proof {
                            assert(views(returned@.push(forked)) =~= views(returned@).push(forked@));
                        }
                        returned.push(forked);
                    }
                    k += 1;
                }
            }
        }
        proof {
            assert(views(all).take(all.len() as int) =~= views(all));
        }
        returned
    }

    fn new_state(&mut self, chars: CharacterClass) -> (index: usize)
        requires
            old(self).wf(),
        ensures
            final(self).wf(),
            index == old(self)@.states.len(),
            final(self)@ == old(self)@.grown(chars@),
    {
        let index = self.states.len();
        let state = State::new(index, chars);
        self.states.push(state);
        self.acceptance.push(false);
        self.start_capture.push(false);
        self.end_capture.push(false);
        proof {
            assert(self@.states =~= old(self)@.grown(chars@).states);
            assert(self.states.len() == self@.states.len());
            assert forall|from: int, k: int|
                0 <= from < self@.states.len() && 0 <= k < self@.states[from].next_states.len() implies (
            #[trigger] self@.states[from].next_states[k]) < self@.states.len() by {}
        }
        index
    }
}

impl<T: Clone> Clone for NFA<T> {
    /// A copy of the automaton, with a clone of each payload.
    fn clone(&self) -> (copy: NFA<T>)
        ensures
            self.wf() ==> copy.wf(),
            copy@.states.len() == self@.states.len(),
            forall|state: int|
                0 <= state < self@.states.len() ==> (#[trigger] self@.states[state]).cloned_as(
                    copy@.states[state],
                ),
    {
        let copy = NFA {
            states: self.states.clone(),
            start_capture: self.start_capture.clone(),
            end_capture: self.end_capture.clone(),
            acceptance: self.acceptance.clone(),
        };
        proof {
            assert forall|state: int| 0 <= state < self@.states.len() implies (
            #[trigger] self@.states[state]).cloned_as(copy@.states[state]) && copy.states@[state].index
                == self.states@[state].index by {}
            if self.wf() {
                assert forall|from: int, k: int|
                    0 <= from < copy@.states.len() && 0 <= k
                        < copy@.states[from].next_states.len() implies (
                #[trigger] copy@.states[from].next_states[k]) < copy@.states.len() by {
                    assert(self@.has(self@.states[from].next_states[k]));
                }
                assert forall|i: int| 0 <= i < copy.states@.len() implies {
                    &&& (#[trigger] copy.states@[i]).index == i
                    &&& copy.states@[i].start_capture == copy.start_capture@[i]
                    &&& copy.states@[i].end_capture == copy.end_capture@[i]
                    &&& copy.states@[i].acceptance == copy.acceptance@[i]
                } by {}
            }
        }
        copy
    }
}

/// A copy of `thread`, placed in `state`.
pub fn fork_thread<T>(thread: &Thread, state: &State<T>) -> (forked: Thread)
    ensures
        forked@ == thread@.at(state.index),
        forked.state == state.index,
        forked.captures@ == thread.captures@,
        forked.capture_begin == thread.capture_begin,
{
    let mut new_trace = thread.clone();
    new_trace.state = state.index;
    new_trace
}

/// Applies the capture rule to a thread that goes from `current_state` to
/// `next_state` at position `pos`.
pub fn capture<T>(nfa: &NFA<T>, thread: &mut Thread, current_state: usize, next_state: usize, pos: usize)
    requires
        nfa.wf(),
        nfa@.has(current_state),
        nfa@.has(next_state),
    ensures
        final(thread)@ == nfa@.capture(old(thread)@, current_state, next_state, pos as int),
        final(thread).state == old(thread).state,
{
    if thread.capture_begin.is_none() && nfa.start_capture[next_state] {
        thread.start_capture(pos);
    }
    if thread.capture_begin.is_some() && nfa.end_capture[current_state] && next_state
        > current_state {
        thread.end_capture(pos);
    }
}

} // verus!
