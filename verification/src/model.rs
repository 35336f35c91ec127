//! The automaton as a mathematical object: states with their transitions, the
//! capture rule, and the threads that are alive after each input character.

use crate::class::ClassView;
use vstd::prelude::*;

verus! {

/// One candidate path through the automaton: the state it has reached, the
/// captures it has closed, as pairs of character positions, and the position
/// at which its open capture began, if one is open.
pub ghost struct ThreadView {
    pub state: usize,
    pub captures: Seq<(int, int)>,
    pub capture_begin: Option<int>,
}

impl ThreadView {
    /// The thread every match begins with: at the start state, nothing captured.
    pub open spec fn initial() -> ThreadView {
        ThreadView { state: 0, captures: Seq::empty(), capture_begin: None }
    }

    /// The same thread, moved to `state`.
    pub open spec fn at(self, state: usize) -> ThreadView {
        ThreadView { state, ..self }
    }

    /// The same thread with a capture open from `start`.
    pub open spec fn opened(self, start: int) -> ThreadView {
        ThreadView { capture_begin: Some(start), ..self }
    }

    /// The same thread with its open capture closed at `end`.
    pub open spec fn closed(self, end: int) -> ThreadView
        recommends
            self.capture_begin is Some,
    {
        ThreadView {
            captures: self.captures.push((self.capture_begin->0, end)),
            capture_begin: None,
            ..self
        }
    }

    /// The thread at the end of the input: a capture still open is closed there.
    pub open spec fn finished(self, end: int) -> ThreadView {
        if self.capture_begin is Some {
            self.closed(end)
        } else {
            self
        }
    }

    /// The captured pieces of `source`, one for each closed capture, in order.
    pub open spec fn extract(self, source: Seq<char>) -> Seq<Seq<char>> {
        self.captures.map_values(|range: (int, int)| source.subrange(range.0, range.1))
    }

    /// Every capture lies within the first `bound` characters, the captures
    /// follow one another from left to right, and an open capture begins after
    /// all the closed ones.
    pub open spec fn within(self, bound: int) -> bool {
        &&& forall|k: int|
            0 <= k < self.captures.len() ==> 0 <= (#[trigger] self.captures[k]).0
                <= self.captures[k].1 <= bound
        &&& forall|j: int, k: int|
            0 <= j < k < self.captures.len() ==> (#[trigger] self.captures[j]).1 <= (
            #[trigger] self.captures[k]).0
        &&& self.capture_begin matches Some(begin) ==> {
            &&& 0 <= begin <= bound
            &&& forall|k: int|
                0 <= k < self.captures.len() ==> (#[trigger] self.captures[k]).1 <= begin
        }
    }
}

/// One state: the class a character must belong to for a thread to enter the
/// state, where threads go from it, its three marks and its payload.
pub ghost struct StateView<T> {
    pub chars: ClassView,
    pub next_states: Seq<usize>,
    pub acceptance: bool,
    pub start_capture: bool,
    pub end_capture: bool,
    pub metadata: Option<T>,
}

impl<T> StateView<T> {
    /// A state as it is created: no transitions, no marks, no payload.
    pub open spec fn fresh(chars: ClassView) -> StateView<T> {
        StateView {
            chars,
            next_states: Seq::empty(),
            acceptance: false,
            start_capture: false,
            end_capture: false,
            metadata: None,
        }
    }
}

impl<T: Clone> StateView<T> {
    /// `copy` is this state with a clone of its payload in place of the
    /// payload.
    pub open spec fn cloned_as(self, copy: StateView<T>) -> bool {
        &&& copy.chars == self.chars
        &&& copy.next_states == self.next_states
        &&& copy.acceptance == self.acceptance
        &&& copy.start_capture == self.start_capture
        &&& copy.end_capture == self.end_capture
        &&& match (self.metadata, copy.metadata) {
            (Some(payload), Some(clone)) => cloned(payload, clone),
            (None, None) => true,
            _ => false,
        }
    }
}

/// The states of an automaton in the order of their creation. A state is
/// named by its position in `states`; state 0 is the start state.
pub ghost struct Automaton<T> {
    pub states: Seq<StateView<T>>,
}

impl<T> Automaton<T> {
    /// There is a start state, the states can be counted in a `usize`, and
    /// every transition leads to a state that exists.
    pub open spec fn wf(self) -> bool {
        &&& 1 <= self.states.len() <= usize::MAX
        &&& forall|from: int, k: int|
            0 <= from < self.states.len() && 0 <= k < self.states[from].next_states.len() ==> (
            #[trigger] self.states[from].next_states[k]) < self.states.len()
    }

    /// The automaton that consists of the start state alone.
    pub open spec fn initial() -> Automaton<T> {
        Automaton { states: seq![StateView::fresh(ClassView::any())] }
    }

    /// Whether `state` names a state.
    pub open spec fn has(self, state: usize) -> bool {
        state < self.states.len()
    }

    // Construction

    /// The test for a state of class `chars`.
    pub open spec fn of_class(self, chars: ClassView) -> spec_fn(usize) -> bool {
        |to: usize| self.states[to as int].chars == chars
    }

    /// The first transition target of `from` whose class is `chars`.
    pub open spec fn find(self, from: usize, chars: ClassView) -> Option<usize> {
        let same = self.states[from as int].next_states.filter(self.of_class(chars));
        if same.len() > 0 {
            Some(same[0])
        } else {
            None
        }
    }

    /// The automaton with one more state, of class `chars`.
    pub open spec fn grown(self, chars: ClassView) -> Automaton<T> {
        Automaton { states: self.states.push(StateView::fresh(chars)) }
    }

    /// The automaton with one more transition, from `from` to `to`, after
    /// those that `from` already has.
    pub open spec fn linked(self, from: usize, to: usize) -> Automaton<T> {
        let state = self.states[from as int];
        Automaton {
            states: self.states.update(
                from as int,
                StateView { next_states: state.next_states.push(to), ..state },
            ),
        }
    }

    /// What `put` leaves and returns: the target that `from` already has for
    /// the class `chars`, or else a new state of that class, entered from
    /// `from`.
    pub open spec fn put(self, from: usize, chars: ClassView) -> (Automaton<T>, usize) {
        match self.find(from, chars) {
            Some(to) => (self, to),
            None => (self.grown(chars).linked(from, self.states.len() as usize), self.states.len() as usize),
        }
    }

    /// The automaton with `state` marked as accepting.
    pub open spec fn accepting(self, state: usize) -> Automaton<T> {
        Automaton {
            states: self.states.update(
                state as int,
                StateView { acceptance: true, ..self.states[state as int] },
            ),
        }
    }

    /// The automaton with `state` marked as one that opens a capture.
    pub open spec fn starting(self, state: usize) -> Automaton<T> {
        Automaton {
            states: self.states.update(
                state as int,
                StateView { start_capture: true, ..self.states[state as int] },
            ),
        }
    }

    /// The automaton with `state` marked as one that ends a capture.
    pub open spec fn ending(self, state: usize) -> Automaton<T> {
        Automaton {
            states: self.states.update(
                state as int,
                StateView { end_capture: true, ..self.states[state as int] },
            ),
        }
    }

    /// The automaton with `value` as the payload of `state`.
    pub open spec fn tagged(self, state: usize, value: T) -> Automaton<T> {
        Automaton {
            states: self.states.update(
                state as int,
                StateView { metadata: Some(value), ..self.states[state as int] },
            ),
        }
    }

    // Simulation

    /// The test for a state whose class admits `c`.
    pub open spec fn admitting(self, c: char) -> spec_fn(usize) -> bool {
        |to: usize| self.states[to as int].chars.matches(c)
    }

    /// The transition targets of `from` that admit `c`, in transition order.
    pub open spec fn matching(self, from: usize, c: char) -> Seq<usize> {
        self.states[from as int].next_states.filter(self.admitting(c))
    }

    /// The capture rule, for a thread that goes from `from` to `to` at
    /// position `pos`. A capture opens at `pos` if none is open and `to` opens
    /// captures. Then the open capture closes at `pos` if `from` ends captures
    /// and `to` is a later state than `from`.
    pub open spec fn capture(self, thread: ThreadView, from: usize, to: usize, pos: int) -> ThreadView {
        let entered = if thread.capture_begin is None && self.states[to as int].start_capture {
            thread.opened(pos)
        } else {
            thread
        };
        if entered.capture_begin is Some && self.states[from as int].end_capture && to > from {
            entered.closed(pos)
        } else {
            entered
        }
    }

    /// The thread after it has gone on to `to` at position `pos`.
    pub open spec fn advance(self, thread: ThreadView, to: usize, pos: int) -> ThreadView {
        self.capture(thread.at(to), thread.state, to, pos)
    }

    /// The threads that `thread` becomes on reading `c` at position `pos`: one
    /// for each transition that admits `c`, none if there is no such
    /// transition.
    pub open spec fn step_thread(self, thread: ThreadView, c: char, pos: int) -> Seq<ThreadView> {
        self.matching(thread.state, c).map_values(self.advancing(thread, pos))
    }

    /// `advance` as a function of the state that the thread goes on to.
    pub open spec fn advancing(self, thread: ThreadView, pos: int) -> spec_fn(usize) -> ThreadView {
        |to: usize| self.advance(thread, to, pos)
    }

    /// `step_thread` as a function of the thread.
    pub open spec fn stepping(self, c: char, pos: int) -> spec_fn(ThreadView) -> Seq<ThreadView> {
        |thread: ThreadView| self.step_thread(thread, c, pos)
    }

    /// The threads that `threads` become on reading `c` at position `pos`, in
    /// the order of the threads they come from.
    pub open spec fn step(self, threads: Seq<ThreadView>, c: char, pos: int) -> Seq<ThreadView> {
        threads.flat_map(self.stepping(c, pos))
    }

    /// The threads that are alive after the first `n` characters of `input`.
    pub open spec fn run(self, input: Seq<char>, n: nat) -> Seq<ThreadView>
        decreases n,
    {
        if n == 0 {
            seq![ThreadView::initial()]
        } else {
            self.step(self.run(input, (n - 1) as nat), input[n - 1], n - 1)
        }
    }

    /// The threads that are alive after the whole of `input`.
    pub open spec fn survivors(self, input: Seq<char>) -> Seq<ThreadView> {
        self.run(input, input.len())
    }

    /// The test for a thread in an accepting state.
    pub open spec fn in_acceptance(self) -> spec_fn(ThreadView) -> bool {
        |thread: ThreadView| self.states[thread.state as int].acceptance
    }

    /// Those of `threads` that are in an accepting state, in their order.
    pub open spec fn accepted(self, threads: Seq<ThreadView>) -> Seq<ThreadView> {
        threads.filter(self.in_acceptance())
    }
}

impl<T> Automaton<T> {
    /// `thread` is in a state that exists, and its captures lie within the
    /// first `bound` characters, from left to right.
    pub open spec fn sound(self, thread: ThreadView, bound: int) -> bool {
        self.has(thread.state) && thread.within(bound)
    }

    /// Every one of `threads` is sound.
    pub open spec fn all_sound(self, threads: Seq<ThreadView>, bound: int) -> bool {
        forall|k: int| 0 <= k < threads.len() ==> self.sound(#[trigger] threads[k], bound)
    }

    /// The threads that come after one more thread are those that came
    /// before, followed by what the new thread becomes.
    pub proof fn lemma_step_push(self, threads: Seq<ThreadView>, thread: ThreadView, c: char, pos: int)
        ensures
            self.step(threads.push(thread), c, pos) == self.step(threads, c, pos)
                + self.step_thread(thread, c, pos),
    {
        let stepping = self.stepping(c, pos);
        assert(threads.push(thread).map_values(stepping) =~= threads.map_values(stepping).push(
            stepping(thread),
        ));
        threads.map_values(stepping).lemma_flatten_push(stepping(thread));
    }

    /// No thread comes of no thread.
    pub proof fn lemma_step_of_none(self, c: char, pos: int)
        ensures
            self.step(Seq::empty(), c, pos) == Seq::<ThreadView>::empty(),
    {
        reveal_with_fuel(Seq::flatten, 1);
    }

    /// The capture rule keeps a sound thread sound, one position further.
    pub proof fn lemma_advance_sound(self, thread: ThreadView, to: usize, pos: int)
        requires
            self.sound(thread, pos),
            self.has(to),
            0 <= pos,
        ensures
            self.sound(self.advance(thread, to, pos), pos + 1),
    {
    }

    /// What a sound thread becomes is sound.
    pub proof fn lemma_step_thread_sound(self, thread: ThreadView, c: char, pos: int)
        requires
            self.wf(),
            self.sound(thread, pos),
            0 <= pos,
        ensures
            self.all_sound(self.step_thread(thread, c, pos), pos + 1),
    {
        let targets = self.matching(thread.state, c);
        let next = self.states[thread.state as int].next_states;
        assert forall|k: int| 0 <= k < targets.len() implies self.sound(
            #[trigger] self.step_thread(thread, c, pos)[k],
            pos + 1,
        ) by {
            next.lemma_filter_contains_rev(self.admitting(c), targets[k]);
            self.lemma_advance_sound(thread, targets[k], pos);
        }
    }

    /// What sound threads become is sound.
    pub proof fn lemma_step_sound(self, threads: Seq<ThreadView>, c: char, pos: int)
        requires
            self.wf(),
            self.all_sound(threads, pos),
            0 <= pos,
        ensures
            self.all_sound(self.step(threads, c, pos), pos + 1),
        decreases threads.len(),
    {
        if threads.len() == 0 {
            self.lemma_step_of_none(c, pos);
        } else {
            let before = threads.drop_last();
            assert(threads =~= before.push(threads.last()));
            self.lemma_step_push(before, threads.last(), c, pos);
            self.lemma_step_sound(before, c, pos);
            self.lemma_step_thread_sound(threads.last(), c, pos);
        }
    }

    /// Every thread alive after `n` characters is in a state that exists, and
    /// its captures lie within those `n` characters, from left to right.
    pub proof fn lemma_run_sound(self, input: Seq<char>, n: nat)
        requires
            self.wf(),
        ensures
            self.all_sound(self.run(input, n), n as int),
        decreases n,
    {
        if n > 0 {
            self.lemma_run_sound(input, (n - 1) as nat);
            self.lemma_step_sound(self.run(input, (n - 1) as nat), input[n - 1], n - 1);
        }
    }

    /// Once no thread is alive, none is alive later.
    pub proof fn lemma_run_stays_empty(self, input: Seq<char>, n: nat, later: nat)
        requires
            self.run(input, n).len() == 0,
            n <= later,
        ensures
            self.run(input, later).len() == 0,
        decreases later,
    {
        if n < later {
            self.lemma_run_stays_empty(input, n, (later - 1) as nat);
            self.lemma_step_of_none(input[later - 1], later - 1);
        }
    }
}

/// Where the first element that passes a test stands after filtering.
pub proof fn lemma_filter_first<A>(s: Seq<A>, test: spec_fn(A) -> bool, k: int)
    requires
        0 <= k < s.len(),
        test(s[k]),
        forall|j: int| 0 <= j < k ==> !test(#[trigger] s[j]),
    ensures
        s.filter(test).len() > 0,
        s.filter(test)[0] == s[k],
    decreases s.len(),
{
    reveal(Seq::filter);
    if k == s.len() - 1 {
        lemma_filter_none(s.drop_last(), test);
    } else {
        lemma_filter_first(s.drop_last(), test, k);
    }
}

/// Filtering leaves nothing where no element passes the test.
pub proof fn lemma_filter_none<A>(s: Seq<A>, test: spec_fn(A) -> bool)
    requires
        forall|j: int| 0 <= j < s.len() ==> !test(#[trigger] s[j]),
    ensures
        s.filter(test).len() == 0,
    decreases s.len(),
{
    reveal(Seq::filter);
    if s.len() > 0 {
        lemma_filter_none(s.drop_last(), test);
    }
}

} // verus!
