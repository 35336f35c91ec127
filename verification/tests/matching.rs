use route_recognizer::class::{invalid, valid};
use route_recognizer::nfa::{capture, fork_thread};
use route_recognizer::{CharacterClass, Match, MatchError, State, Thread, NFA};
use std::cmp::Reverse;

/// The automaton of the literal "hello"; returns it with its last state.
fn hello() -> (NFA<()>, usize) {
    let mut nfa = NFA::<()>::new();
    let mut state = 0;
    for c in "hello".chars() {
        state = nfa.put(state, valid(c));
    }
    nfa.acceptance(state);
    (nfa, state)
}

/// Two branches from the start state, both accepting after three characters:
/// the literal "new", and any three characters. Returns the automaton with the
/// last state of each branch.
fn new_or_any_three() -> (NFA<()>, usize, usize) {
    let mut nfa = NFA::<()>::new();
    let a1 = nfa.put(0, CharacterClass::valid("n"));
    let b1 = nfa.put(a1, CharacterClass::valid("e"));
    let c1 = nfa.put(b1, CharacterClass::valid("w"));
    nfa.acceptance(c1);

    let a2 = nfa.put(0, CharacterClass::invalid(""));
    let b2 = nfa.put(a2, CharacterClass::invalid(""));
    let c2 = nfa.put(b2, CharacterClass::invalid(""));
    nfa.acceptance(c2);
    (nfa, c1, c2)
}

/// "p/" and one or more characters other than '/', captured, then "/c", then
/// optionally "/" and a second captured segment. Returns the automaton with
/// the state after "/c" and the state of the second segment.
fn two_segments() -> (NFA<()>, usize, usize) {
    let mut nfa = NFA::<()>::new();
    let a = nfa.put(0, valid('p'));
    let b = nfa.put(a, valid('/'));
    let c = nfa.put(b, invalid('/'));
    let d = nfa.put(c, valid('/'));
    let e = nfa.put(d, valid('c'));
    let f = nfa.put(e, valid('/'));
    let g = nfa.put(f, invalid('/'));

    nfa.put_state(c, c);
    nfa.put_state(g, g);
    nfa.acceptance(e);
    nfa.acceptance(g);

    nfa.start_capture(c);
    nfa.end_capture(c);
    nfa.start_capture(g);
    nfa.end_capture(g);
    (nfa, e, g)
}

fn unprocessable(input: &str, position: usize) -> MatchError {
    MatchError::Processing { input: input.to_string(), position }
}

#[test]
fn fresh_automaton_has_the_start_state_alone() {
    let nfa = NFA::<u8>::new();
    let start = nfa.get(0);
    assert_eq!(start.index, 0);
    assert!(start.chars == CharacterClass::any());
    assert!(start.next_states.is_empty());
    assert!(!start.acceptance);
    assert!(!start.start_capture);
    assert!(!start.end_capture);
    assert_eq!(start.metadata, None);
}

#[test]
fn states_are_numbered_in_the_order_of_creation() {
    let mut nfa = NFA::<()>::new();
    let a = nfa.put(0, valid('a'));
    let b = nfa.put(0, valid('b'));
    let c = nfa.put(a, valid('c'));
    assert_eq!((a, b, c), (1, 2, 3));
    assert_eq!(nfa.get(0).next_states, vec![1, 2]);
    assert_eq!(nfa.get(1).next_states, vec![3]);
    assert_eq!(nfa.get(3).index, 3);
    assert!(nfa.get(2).chars == valid('b'));
}

#[test]
fn put_of_an_equal_class_returns_the_same_state() {
    let mut nfa = NFA::<()>::new();
    let first = nfa.put(0, CharacterClass::valid("ab"));
    let other = nfa.put(0, valid('x'));
    let second = nfa.put(0, CharacterClass::valid("ba"));
    assert_eq!(first, 1);
    assert_eq!(other, 2);
    assert_eq!(second, first);
    // No state was created by the second call.
    assert_eq!(nfa.put(0, valid('y')), 3);
    assert_eq!(nfa.get(0).next_states, vec![1, 2, 3]);
}

#[test]
fn put_tells_a_packed_class_from_a_set_of_the_same_characters() {
    let mut nfa = NFA::<()>::new();
    let packed = nfa.put(0, valid('a'));
    let set = nfa.put(0, CharacterClass::valid("a"));
    assert_eq!((packed, set), (1, 2));
}

#[test]
fn put_looks_only_at_the_transitions_of_its_source() {
    let mut nfa = NFA::<()>::new();
    let a = nfa.put(0, valid('a'));
    let b = nfa.put(a, valid('a'));
    assert_eq!((a, b), (1, 2));
    assert_eq!(nfa.put(a, valid('a')), b);
    assert_eq!(nfa.put(0, valid('a')), a);
}

#[test]
fn put_returns_the_first_of_several_equal_targets() {
    let mut nfa = NFA::<()>::new();
    let a = nfa.put(0, valid('a'));
    let b = nfa.put(a, valid('a'));
    // The start state now leads to both `a` and `b`, which have equal classes.
    nfa.put_state(0, b);
    assert_eq!(nfa.put(0, valid('a')), a);
    let mut other = NFA::<()>::new();
    let a = other.put(0, valid('b'));
    let b = other.put(a, valid('a'));
    let c = other.put(b, valid('a'));
    other.put_state(0, c);
    other.put_state(0, b);
    assert_eq!(other.put(0, valid('a')), c);
}

#[test]
fn put_state_adds_a_transition_last() {
    let mut nfa = NFA::<()>::new();
    let a = nfa.put(0, valid('a'));
    let b = nfa.put(0, valid('b'));
    nfa.put_state(b, a);
    nfa.put_state(b, b);
    nfa.put_state(b, 0);
    assert_eq!(nfa.get(b).next_states, vec![a, b, 0]);
    assert_eq!(nfa.get(a).next_states, Vec::<usize>::new());
}

#[test]
fn marks_are_set_on_the_state() {
    let mut nfa = NFA::<()>::new();
    let a = nfa.put(0, valid('a'));
    let b = nfa.put(a, valid('b'));
    nfa.acceptance(a);
    nfa.start_capture(b);
    nfa.end_capture(0);
    assert!(nfa.get(a).acceptance && !nfa.get(a).start_capture && !nfa.get(a).end_capture);
    assert!(!nfa.get(b).acceptance && nfa.get(b).start_capture && !nfa.get(b).end_capture);
    assert!(!nfa.get(0).acceptance && !nfa.get(0).start_capture && nfa.get(0).end_capture);
}

#[test]
fn metadata_is_attached_to_the_state() {
    let mut nfa = NFA::<&str>::new();
    let a = nfa.put(0, valid('a'));
    let b = nfa.put(a, valid('b'));
    nfa.acceptance(b);
    assert_eq!(nfa.get(b).metadata, None);
    nfa.metadata(b, "first");
    assert_eq!(nfa.get(b).metadata, Some("first"));
    nfa.metadata(b, "second");
    assert_eq!(nfa.get(b).metadata, Some("second"));
    assert_eq!(nfa.get(a).metadata, None);
    let found = nfa.process("ab", |state| state).unwrap();
    assert_eq!(nfa.get(found.state).metadata, Some("second"));
}

#[test]
fn get_mut_changes_the_payload_in_place() {
    let mut nfa = NFA::<u32>::new();
    let a = nfa.put(0, valid('a'));
    nfa.acceptance(a);
    nfa.get_mut(a).metadata = Some(7);
    assert_eq!(nfa.get(a).metadata, Some(7));
    assert_eq!(nfa.get_mut(a).index, a);
    assert_eq!(nfa.process("a", |state| state).unwrap().state, a);
}

#[test]
fn clone_matches_as_its_source_does() {
    let (mut nfa, e, g) = {
        let (nfa, e, g) = two_segments();
        (nfa, e, g)
    };
    let copy = nfa.clone();
    nfa.acceptance(0);
    assert!(nfa.process("", |state| state).is_ok());
    assert_eq!(copy.process("", |state| state).unwrap_err(), MatchError::NoAcceptance);
    let found = copy.process("p/123/c/456", |state| state).unwrap();
    assert_eq!(found.state, g);
    assert_eq!(found.captures, vec!["123", "456"]);
    assert_eq!(copy.process("p/123/c", |state| state).unwrap().state, e);
}

#[test]
fn states_are_compared_by_position() {
    let a = State::<u8>::new(3, valid('a'));
    let b = State::<u8>::new(3, invalid('b'));
    let c = State::<u8>::new(4, valid('a'));
    assert!(a == b);
    assert!(a != c);
}

#[test]
fn new_state_is_bare() {
    let state = State::<u8>::new(5, CharacterClass::valid("xy"));
    assert_eq!(state.index, 5);
    assert!(state.chars == CharacterClass::valid("yx"));
    assert!(state.next_states.is_empty());
    assert!(!state.acceptance && !state.start_capture && !state.end_capture);
    assert_eq!(state.metadata, None);
    let copy = state.clone();
    assert_eq!(copy.index, 5);
    assert!(copy.chars == state.chars);
}

#[test]
fn new_match_holds_what_it_is_given() {
    let found = Match::new(4, vec!["a", "bc"]);
    assert_eq!(found.state, 4);
    assert_eq!(found.captures, vec!["a", "bc"]);
}

#[test]
fn literal_is_recognised_at_its_last_state() {
    let (nfa, last) = hello();
    assert_eq!(last, 5);
    let found = nfa.process("hello", |state| state).unwrap();
    assert_eq!(found.state, last);
    assert!(found.captures.is_empty());
}

#[test]
fn literal_cut_short_reaches_no_acceptance() {
    let (nfa, _) = hello();
    assert_eq!(nfa.process("hell", |state| state).unwrap_err(), MatchError::NoAcceptance);
    assert_eq!(nfa.process("", |state| state).unwrap_err(), MatchError::NoAcceptance);
}

#[test]
fn wrong_first_character_fails_at_position_zero() {
    let (nfa, _) = hello();
    assert_eq!(nfa.process("jello", |state| state).unwrap_err(), unprocessable("jello", 0));
}

#[test]
fn failure_names_the_position_of_the_character_that_fits_nowhere() {
    let (nfa, _) = hello();
    assert_eq!(nfa.process("help", |state| state).unwrap_err(), unprocessable("help", 3));
    assert_eq!(nfa.process("hello!", |state| state).unwrap_err(), unprocessable("hello!", 5));
    assert_eq!(nfa.process("héllo", |state| state).unwrap_err(), unprocessable("héllo", 1));
    // Positions count characters, not bytes.
    let mut nfa = NFA::<()>::new();
    let a = nfa.put(0, valid('é'));
    let b = nfa.put(a, valid('é'));
    nfa.acceptance(b);
    assert_eq!(nfa.process("ééé", |state| state).unwrap_err(), unprocessable("ééé", 2));
}

#[test]
fn failures_are_told_in_words() {
    assert_eq!(unprocessable("jello", 0).message(), "Couldn't process jello");
    assert_eq!(
        MatchError::NoAcceptance.message(),
        "The string was exhausted before reaching an acceptance state"
    );
}

#[test]
fn empty_input_is_matched_by_an_accepting_start_state() {
    let mut nfa = NFA::<()>::new();
    assert_eq!(nfa.process("", |state| state).unwrap_err(), MatchError::NoAcceptance);
    nfa.acceptance(0);
    let found = nfa.process("", |state| state).unwrap();
    assert_eq!(found.state, 0);
    assert!(found.captures.is_empty());
    assert_eq!(nfa.process("a", |state| state).unwrap_err(), unprocessable("a", 0));
}

#[test]
fn the_order_decides_between_two_accepting_threads() {
    let (nfa, literal, any) = new_or_any_three();
    assert!(literal < any);
    // Ascending order of the states: the later state wins.
    assert_eq!(nfa.process("new", |state| state).unwrap().state, any);
    // The opposite order, same automaton, same input: the earlier state wins.
    assert_eq!(nfa.process("new", |state| Reverse(state)).unwrap().state, literal);
    assert_eq!(nfa.process("new", |state| usize::MAX - state).unwrap().state, literal);
    // Only one thread accepts "old", whatever the order.
    assert_eq!(nfa.process("old", |state| state).unwrap().state, any);
    assert_eq!(nfa.process("old", |state| Reverse(state)).unwrap().state, any);
}

#[test]
fn the_order_is_over_keys_of_any_ordered_type() {
    let (nfa, literal, any) = new_or_any_three();
    let by_name = |state: usize| if state == literal { "z" } else { "a" };
    assert_eq!(nfa.process("new", by_name).unwrap().state, literal);
    let by_pair = |state: usize| (0u8, state);
    assert_eq!(nfa.process("new", by_pair).unwrap().state, any);
}

#[test]
fn the_first_of_equally_ranked_threads_wins() {
    let (nfa, literal, _) = new_or_any_three();
    // The thread of the literal comes first: its branch was put first.
    assert_eq!(nfa.process("new", |_| 0).unwrap().state, literal);

    // Two threads end in the same state with different captures: one went
    // through the capturing state `a`, the other through `b`.
    let mut nfa = NFA::<()>::new();
    let b = nfa.put(0, CharacterClass::valid("x"));
    let a = nfa.put(0, CharacterClass::invalid(""));
    let end = nfa.put(a, valid('y'));
    nfa.put_state(b, end);
    nfa.start_capture(a);
    nfa.acceptance(end);
    let found = nfa.process("xy", |state| state).unwrap();
    assert_eq!(found.state, end);
    assert_eq!(found.captures, Vec::<&str>::new());

    let mut nfa = NFA::<()>::new();
    let a = nfa.put(0, CharacterClass::invalid(""));
    let b = nfa.put(0, CharacterClass::valid("x"));
    let end = nfa.put(a, valid('y'));
    nfa.put_state(b, end);
    nfa.start_capture(a);
    nfa.acceptance(end);
    let found = nfa.process("xy", |state| state).unwrap();
    assert_eq!(found.state, end);
    assert_eq!(found.captures, vec!["xy"]);
}

#[test]
fn matching_is_repeatable() {
    let (nfa, _, _) = two_segments();
    for input in ["p/123/c/456", "p/123/c", "p/", "q", ""] {
        let first = nfa.process(input, |state| state);
        let second = nfa.process(input, |state| state);
        match (first, second) {
            (Ok(a), Ok(b)) => {
                assert_eq!(a.state, b.state);
                assert_eq!(a.captures, b.captures);
            }
            (Err(a), Err(b)) => assert_eq!(a, b),
            _ => panic!("two matches of one input differ"),
        }
    }
}

#[test]
fn looping_state_takes_one_or_more_characters() {
    let mut nfa = NFA::<()>::new();
    let mut state = 0;
    for c in "posts/".chars() {
        state = nfa.put(state, valid(c));
    }
    let slash = state;
    let segment = nfa.put(slash, invalid('/'));
    nfa.put_state(segment, segment);
    nfa.acceptance(segment);

    assert_eq!(nfa.process("posts/1", |state| state).unwrap().state, segment);
    assert_eq!(nfa.process("posts/42", |state| state).unwrap().state, segment);
    assert_eq!(nfa.process("posts/", |state| state).unwrap_err(), MatchError::NoAcceptance);
    assert_eq!(nfa.process("posts/4/", |state| state).unwrap_err(), unprocessable("posts/4/", 7));
}

#[test]
fn capture_spans_a_repeated_segment() {
    let (nfa, after_c, _) = two_segments();
    let found = nfa.process("p/123/c", |state| state).unwrap();
    assert_eq!(found.state, after_c);
    assert_eq!(found.captures, vec!["123"]);
    assert_eq!(nfa.process("p/1/c", |state| state).unwrap().captures, vec!["1"]);
}

#[test]
fn captures_come_from_left_to_right() {
    let (nfa, _, second) = two_segments();
    let found = nfa.process("p/123/c/456", |state| state).unwrap();
    assert_eq!(found.state, second);
    assert_eq!(found.captures, vec!["123", "456"]);
}

#[test]
fn capture_left_open_ends_with_the_input() {
    let (nfa, _, _) = two_segments();
    // The second segment is still open when the input ends.
    assert_eq!(nfa.process("p/x/c/yz", |state| state).unwrap().captures, vec!["x", "yz"]);
}

#[test]
fn captures_count_characters_not_bytes() {
    let (nfa, _, _) = two_segments();
    let found = nfa.process("p/héé/c/日本語", |state| state).unwrap();
    assert_eq!(found.captures, vec!["héé", "日本語"]);
    let found = nfa.process("p/é/c", |state| state).unwrap();
    assert_eq!(found.captures, vec!["é"]);
}

#[test]
fn capture_may_open_and_close_at_one_position() {
    // The start state ends captures and `a` opens them: the capture opened on
    // the way into `a` is closed at once, and it is empty.
    let mut nfa = NFA::<()>::new();
    let a = nfa.put(0, valid('a'));
    nfa.end_capture(0);
    nfa.start_capture(a);
    nfa.acceptance(a);
    assert_eq!(nfa.process("a", |state| state).unwrap().captures, vec![""]);
}

#[test]
fn way_back_to_an_earlier_state_closes_no_capture() {
    // a, b and back to a: the capture opened in `a` stays open over the way
    // back from `b`, though `b` ends captures.
    let mut nfa = NFA::<()>::new();
    let a = nfa.put(0, valid('a'));
    let b = nfa.put(a, valid('b'));
    nfa.put_state(b, a);
    let end = nfa.put(b, valid('.'));
    nfa.start_capture(a);
    nfa.end_capture(b);
    nfa.acceptance(end);
    let found = nfa.process("ababab.", |state| state).unwrap();
    assert_eq!(found.state, end);
    assert_eq!(found.captures, vec!["ababab"]);
}

#[test]
fn open_capture_is_not_opened_again() {
    // Every state opens captures and none ends them: one capture, from the
    // first character to the end.
    let mut nfa = NFA::<()>::new();
    let a = nfa.put(0, valid('a'));
    let b = nfa.put(a, valid('b'));
    let c = nfa.put(b, valid('c'));
    nfa.start_capture(a);
    nfa.start_capture(b);
    nfa.start_capture(c);
    nfa.acceptance(c);
    assert_eq!(nfa.process("abc", |state| state).unwrap().captures, vec!["abc"]);
}

#[test]
fn thread_starts_at_the_start_state() {
    let thread = Thread::new();
    assert_eq!(thread.state, 0);
    assert!(thread.captures.is_empty());
    assert_eq!(thread.capture_begin, None);
}

#[test]
fn thread_records_its_captures() {
    let mut thread = Thread::new();
    thread.start_capture(2);
    assert_eq!(thread.capture_begin, Some(2));
    assert!(thread.captures.is_empty());
    thread.end_capture(5);
    assert_eq!(thread.capture_begin, None);
    assert_eq!(thread.captures, vec![(2, 5)]);
    thread.start_capture(6);
    thread.end_capture(6);
    assert_eq!(thread.captures, vec![(2, 5), (6, 6)]);
    assert_eq!(thread.extract("p/123/c"), vec!["123", ""]);
    assert_eq!(thread.extract("日本語の文字列"), vec!["語の文", ""]);
}

#[test]
fn thread_clone_is_independent() {
    let mut thread = Thread::new();
    thread.state = 3;
    thread.start_capture(1);
    thread.end_capture(2);
    thread.start_capture(4);
    let mut copy = thread.clone();
    assert_eq!(copy.state, 3);
    assert_eq!(copy.captures, vec![(1, 2)]);
    assert_eq!(copy.capture_begin, Some(4));
    copy.end_capture(9);
    assert_eq!(thread.captures, vec![(1, 2)]);
    assert_eq!(thread.capture_begin, Some(4));
}

#[test]
fn fork_moves_a_copy_to_the_state() {
    let mut thread = Thread::new();
    thread.state = 1;
    thread.start_capture(0);
    thread.end_capture(1);
    thread.start_capture(2);
    let state = State::<()>::new(7, valid('x'));
    let forked = fork_thread(&thread, &state);
    assert_eq!(forked.state, 7);
    assert_eq!(forked.captures, vec![(0, 1)]);
    assert_eq!(forked.capture_begin, Some(2));
    assert_eq!(thread.state, 1);
}

#[test]
fn capture_rule_opens_before_it_closes() {
    let mut nfa = NFA::<()>::new();
    let a = nfa.put(0, valid('a'));
    let b = nfa.put(a, valid('b'));
    nfa.put_state(a, a);
    nfa.start_capture(a);
    nfa.end_capture(a);

    // Into `a`: a capture opens at the position.
    let mut thread = Thread::new();
    capture(&nfa, &mut thread, 0, a, 4);
    assert_eq!(thread.capture_begin, Some(4));
    assert!(thread.captures.is_empty());

    // From `a` to itself: nothing closes, nothing opens.
    capture(&nfa, &mut thread, a, a, 5);
    assert_eq!(thread.capture_begin, Some(4));
    assert!(thread.captures.is_empty());

    // From `a` on to the later state `b`: the capture closes at the position.
    capture(&nfa, &mut thread, a, b, 6);
    assert_eq!(thread.capture_begin, None);
    assert_eq!(thread.captures, vec![(4, 6)]);

    // From `b` back to `a`: a new capture opens, and is not closed, since `b`
    // does not end captures.
    capture(&nfa, &mut thread, b, a, 7);
    assert_eq!(thread.capture_begin, Some(7));
    assert_eq!(thread.captures, vec![(4, 6)]);

    // The rule does not move the thread.
    assert_eq!(thread.state, 0);
}

#[test]
fn thread_forks_where_several_transitions_fit() {
    // "ab" along two branches that accept, and along one that does not.
    let mut nfa = NFA::<()>::new();
    let a1 = nfa.put(0, valid('a'));
    let a2 = nfa.put(0, CharacterClass::valid("a"));
    let a3 = nfa.put(0, invalid('b'));
    let b1 = nfa.put(a1, valid('b'));
    let b2 = nfa.put(a2, valid('b'));
    let b3 = nfa.put(a3, valid('b'));
    nfa.acceptance(b1);
    nfa.acceptance(b2);
    nfa.start_capture(b2);
    assert_eq!(nfa.process("ab", |state| state).unwrap().state, b2);
    assert_eq!(nfa.process("ab", |state| state).unwrap().captures, vec!["b"]);
    assert_eq!(nfa.process("ab", |state| Reverse(state)).unwrap().state, b1);
    assert!(nfa.process("ab", |state| Reverse(state)).unwrap().captures.is_empty());
    assert_eq!(nfa.process("cb", |state| state).unwrap_err(), MatchError::NoAcceptance);
    assert_ne!(b3, b2);
}
