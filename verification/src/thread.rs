//! A simulation thread: one candidate path, with the captures made along it.

use crate::model::ThreadView;
use vstd::prelude::*;
use vstd::string::StrSliceExecFns;

verus! {

/// The character sequences of a sequence of string slices.
pub open spec fn texts(pieces: Seq<&str>) -> Seq<Seq<char>> {
    pieces.map_values(|piece: &str| piece@)
}

/// A thread of the simulation. Positions count the characters of the input,
/// not its bytes.
#[derive(Debug)]
pub struct Thread {
    pub state: usize,
    pub captures: Vec<(usize, usize)>,
    pub capture_begin: Option<usize>,
}

impl View for Thread {
    type V = ThreadView;

    open spec fn view(&self) -> ThreadView {
        ThreadView {
            state: self.state,
            captures: self.captures@.map_values(
                |range: (usize, usize)| (range.0 as int, range.1 as int),
            ),
            capture_begin: match self.capture_begin {
                Some(begin) => Some(begin as int),
                None => None,
            },
        }
    }
}

impl Thread {
    /// Two threads that stand for the same `ThreadView` are in the same
    /// state, with the same captures.
    pub proof fn lemma_view_is_faithful(&self, other: &Thread)
        requires
            self@ == other@,
        ensures
            self.state == other.state,
            self.captures@ == other.captures@,
            self.capture_begin == other.capture_begin,
    {
        assert(self@.captures.len() == self.captures@.len());
        assert(other@.captures.len() == other.captures@.len());
        assert forall|k: int| 0 <= k < self.captures@.len() implies self.captures@[k]
            == other.captures@[k] by {
            let mine = self.captures@[k];
            let theirs = other.captures@[k];
            assert(self@.captures[k] == (mine.0 as int, mine.1 as int));
            assert(other@.captures[k] == (theirs.0 as int, theirs.1 as int));
            assert(mine.0 == theirs.0 && mine.1 == theirs.1);
        }
        assert(self.captures@ =~= other.captures@);
    }

    /// A thread at the start state, with nothing captured.
    pub fn new() -> (thread: Thread)
        ensures
            thread@ == ThreadView::initial(),
            thread.state == 0,
            thread.captures@.len() == 0,
            thread.capture_begin is None,
    {
        let thread = Thread { state: 0, captures: Vec::new(), capture_begin: None };
        proof {
            assert(thread@.captures =~= Seq::empty());
        }
        thread
    }

    /// Opens a capture at `start`.
    pub fn start_capture(&mut self, start: usize)
        ensures
            final(self)@ == old(self)@.opened(start as int),
            final(self).state == old(self).state,
            final(self).captures@ == old(self).captures@,
            final(self).capture_begin == Some(start),
    {
        self.capture_begin = Some(start);
    }

    /// Closes the open capture at `end`.
    pub fn end_capture(&mut self, end: usize)
        requires
            old(self).capture_begin is Some,
        ensures
            final(self)@ == old(self)@.closed(end as int),
            final(self).state == old(self).state,
            final(self).captures@ == old(self).captures@.push((old(self).capture_begin->0, end)),
            final(self).capture_begin is None,
    {
        let begin = self.capture_begin.unwrap();
        self.captures.push((begin, end));
        self.capture_begin = None;
        proof {
            assert(self@.captures =~= old(self)@.captures.push((begin as int, end as int)));
        }
    }

    /// The pieces of `source` that the closed captures delimit, in the order
    /// in which the captures were closed.
    pub fn extract<'a>(&self, source: &'a str) -> (pieces: Vec<&'a str>)
        requires
            forall|k: int|
                0 <= k < self.captures@.len() ==> (#[trigger] self.captures@[k]).0
                    <= self.captures@[k].1 <= source@.len(),
        ensures
            texts(pieces@) == self@.extract(source@),
    {
        let mut pieces: Vec<&'a str> = Vec::new();
        let mut k: usize = 0;
        while k < self.captures.len()
            invariant
                k <= self.captures@.len(),
                forall|k: int|
                    0 <= k < self.captures@.len() ==> (#[trigger] self.captures@[k]).0
                        <= self.captures@[k].1 <= source@.len(),
                pieces@.len() == k,
                forall|j: int|
                    0 <= j < k ==> (#[trigger] pieces@[j])@ == source@.subrange(
                        self.captures@[j].0 as int,
                        self.captures@[j].1 as int,
                    ),
            decreases self.captures@.len() - k,
        {
            let (begin, end) = self.captures[k];
            pieces.push(source.substring_char(begin, end));
            k += 1;
        }
        pieces
    }
}

impl Clone for Thread {
    /// A thread in the same state, with the same captures.
    fn clone(&self) -> (copy: Thread)
        ensures
            copy@ == self@,
            copy.captures@ == self.captures@,
            copy.capture_begin == self.capture_begin,
    {
        let mut captures: Vec<(usize, usize)> = Vec::new();
        let mut k: usize = 0;
        while k < self.captures.len()
            invariant
                k <= self.captures@.len(),
                captures@ == self.captures@.take(k as int),
            decreases self.captures@.len() - k,
        {
            captures.push(self.captures[k]);
            k += 1;
        }
        proof {
            assert(self.captures@.take(self.captures@.len() as int) =~= self.captures@);
        }
        Thread { state: self.state, captures, capture_begin: self.capture_begin }
    }
}

} // verus!
