//! One state of the automaton.

use crate::class::CharacterClass;
use crate::model::StateView;
use vstd::prelude::*;
use vstd::std_specs::cmp::PartialEqSpecImpl;

verus! {

/// A state: its position among the states of its automaton, the class a
/// character must belong to for a thread to enter it, the states that threads
/// go on to from it, its three marks and the payload attached to it.
#[derive(Debug)]
pub struct State<T> {
    pub index: usize,
    pub chars: CharacterClass,
    pub next_states: Vec<usize>,
    pub acceptance: bool,
    pub start_capture: bool,
    pub end_capture: bool,
    pub metadata: Option<T>,
}

impl<T> View for State<T> {
    type V = StateView<T>;

    open spec fn view(&self) -> StateView<T> {
        StateView {
            chars: self.chars@,
            next_states: self.next_states@,
            acceptance: self.acceptance,
            start_capture: self.start_capture,
            end_capture: self.end_capture,
            metadata: self.metadata,
        }
    }
}

impl<T> State<T> {
    /// A state with no transitions, no marks and no payload.
    pub fn new(index: usize, chars: CharacterClass) -> (state: State<T>)
        ensures
            state.index == index,
            state@ == StateView::<T>::fresh(chars@),
    {
        State {
            index,
            chars,
            next_states: Vec::new(),
            acceptance: false,
            start_capture: false,
            end_capture: false,
            metadata: None,
        }
    }
}

impl<T: Clone> Clone for State<T> {
    /// A copy of the state, with a clone of its payload.
    fn clone(&self) -> (copy: State<T>)
        ensures
            copy.index == self.index,
            self@.cloned_as(copy@),
    {
        State {
            index: self.index,
            chars: self.chars.clone(),
            next_states: self.next_states.clone(),
            acceptance: self.acceptance,
            start_capture: self.start_capture,
            end_capture: self.end_capture,
            metadata: self.metadata.clone(),
        }
    }
}

impl<T> PartialEqSpecImpl for State<T> {
    open spec fn obeys_eq_spec() -> bool {
        true
    }

    open spec fn eq_spec(&self, other: &State<T>) -> bool {
        self.index == other.index
    }
}

impl<T> PartialEq for State<T> {
    /// States are compared by their position alone.
    fn eq(&self, other: &State<T>) -> (same: bool) {
        self.index == other.index
    }
}

} // verus!
