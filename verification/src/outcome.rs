//! What a match returns: the winning state with the captured pieces of the
//! input, or the reason why the input was not recognised.

use crate::model::{Automaton, ThreadView};
use crate::order::is_first_greatest;
use crate::thread::texts;
use vstd::prelude::*;
use vstd::string::StringExecFns;

verus! {

/// A successful match: the state in which the winning thread ended, and the
/// pieces of the input that it captured, in the order of their capture.
#[derive(Debug)]
pub struct Match<'a> {
    pub state: usize,
    pub captures: Vec<&'a str>,
}

/// A match, with each captured piece as a sequence of characters.
pub ghost struct MatchView {
    pub state: usize,
    pub captures: Seq<Seq<char>>,
}

impl<'a> View for Match<'a> {
    type V = MatchView;

    open spec fn view(&self) -> MatchView {
        MatchView { state: self.state, captures: texts(self.captures@) }
    }
}

impl<'a> Match<'a> {
    pub fn new(state: usize, captures: Vec<&'a str>) -> (found: Match<'a>)
        ensures
            found.state == state,
            found.captures == captures,
    {
        Match { state, captures }
    }
}

/// Why an input was not recognised.
#[derive(Debug, PartialEq, Eq)]
pub enum MatchError {
    /// No thread was left after the character at `position`: the input cannot
    /// be read any further. `input` is the whole input.
    Processing { input: String, position: usize },
    /// The input was read to its end, and no thread ended in an accepting
    /// state.
    NoAcceptance,
}

/// A `MatchError`, with the input as a sequence of characters.
pub ghost enum Failure {
    Processing { input: Seq<char>, position: int },
    NoAcceptance,
}

impl Failure {
    /// The failure in words.
    pub open spec fn message(self) -> Seq<char> {
        match self {
            Failure::Processing { input, position } => "Couldn't process "@ + input,
            Failure::NoAcceptance => "The string was exhausted before reaching an acceptance state"@,
        }
    }
}

impl View for MatchError {
    type V = Failure;

    open spec fn view(&self) -> Failure {
        match self {
            MatchError::Processing { input, position } => Failure::Processing {
                input: input@,
                position: *position as int,
            },
            MatchError::NoAcceptance => Failure::NoAcceptance,
        }
    }
}

impl MatchError {
    /// The failure in words.
    pub fn message(&self) -> (text: String)
        ensures
            text@ == self@.message(),
    {
        match self {
            MatchError::Processing { input, position } => {
                String::from_str("Couldn't process ").concat(input.as_str())
            },
            MatchError::NoAcceptance => String::from_str(
                "The string was exhausted before reaching an acceptance state",
            ),
        }
    }
}

/// The outcome of a match, seen as a `MatchView` or a `Failure`.
pub open spec fn outcome_view(outcome: Result<Match<'_>, MatchError>) -> Result<MatchView, Failure> {
    match outcome {
        Ok(found) => Ok(found@),
        Err(error) => Err(error@),
    }
}

/// `keys` holds, for each of `threads` in turn, a key that `ord` may return
/// for the state of that thread.
pub open spec fn ranks<I, F: Fn(usize) -> I>(ord: F, threads: Seq<ThreadView>, keys: Seq<I>) -> bool {
    &&& keys.len() == threads.len()
    &&& forall|j: int|
        0 <= j < threads.len() ==> call_ensures(ord, (threads[j].state,), #[trigger] keys[j])
}

impl<T> Automaton<T> {
    /// The last threads die on the character at `pos`.
    pub open spec fn stuck_at(self, input: Seq<char>, pos: int) -> bool {
        &&& 0 <= pos < input.len()
        &&& self.run(input, pos as nat).len() > 0
        &&& self.run(input, (pos + 1) as nat).len() == 0
    }

    /// The threads that end in an accepting state after the whole of `input`.
    pub open spec fn candidates(self, input: Seq<char>) -> Seq<ThreadView> {
        self.accepted(self.survivors(input))
    }

    /// The match that the candidate at position `winner` gives: its state, and
    /// the pieces of `input` that it captured, the last of them up to the end
    /// of `input` where the capture was still open.
    pub open spec fn match_of(self, input: Seq<char>, winner: int) -> MatchView {
        let thread = self.candidates(input)[winner].finished(input.len() as int);
        MatchView { state: thread.state, captures: thread.extract(input) }
    }

    /// Whether `outcome` is what matching `input` gives when `ord` ranks the
    /// states.
    ///
    /// The match fails with `Processing` exactly when no thread survives the
    /// input, and then names the position at which the last threads died. It
    /// fails with `NoAcceptance` exactly when threads survive and none is a
    /// candidate. Otherwise it succeeds, with the candidate whose state `ord`
    /// ranks highest, and with the first such candidate where several are
    /// ranked highest.
    pub open spec fn yields<I: Ord, F: Fn(usize) -> I>(
        self,
        input: Seq<char>,
        ord: F,
        outcome: Result<MatchView, Failure>,
    ) -> bool {
        match outcome {
            Ok(found) => {
                &&& self.candidates(input).len() > 0
                &&& exists|keys: Seq<I>, winner: int|
                    {
                        &&& ranks(ord, self.candidates(input), keys)
                        &&& #[trigger] is_first_greatest(keys, winner)
                        &&& found == self.match_of(input, winner)
                    }
            },
            Err(Failure::Processing { input: unread, position }) => {
                &&& self.survivors(input).len() == 0
                &&& unread == input
                &&& self.stuck_at(input, position)
            },
            Err(Failure::NoAcceptance) => {
                &&& self.survivors(input).len() > 0
                &&& self.candidates(input).len() == 0
            },
        }
    }
}

} // verus!
