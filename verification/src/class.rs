//! Character classes: the test a state applies to one input character.

use crate::bits::{bit, lemma_bit_of_all_but, lemma_bit_of_full, lemma_bit_of_single, lemma_bit_of_zero};
use crate::charset::{in_low_half, is_packed, mask_position, CharSet};
use vstd::prelude::*;
use vstd::std_specs::cmp::PartialEqSpecImpl;

verus! {

broadcast use vstd::string::group_string_axioms;

/// A class of characters.
///
/// `Ascii(high, low, unicode)` is the packed form: `low` and `high` hold one
/// bit for each of the code points 1 to 64 and 65 to 127, and `unicode` says
/// whether the other characters, code point zero among them, belong to the
/// class. `ValidChars` is the class of the characters of a set, and
/// `InvalidChars` the class of all the others.
#[derive(Debug)]
pub enum CharacterClass {
    Ascii(u64, u64, bool),
    ValidChars(CharSet),
    InvalidChars(CharSet),
}

/// What a `CharacterClass` is: its variant with the bits or the set under it.
/// Two classes are equal exactly when they have the same `ClassView`.
pub ghost enum ClassView {
    Ascii(u64, u64, bool),
    ValidChars(Set<char>),
    InvalidChars(Set<char>),
}

impl ClassView {
    /// Whether the class admits `c`.
    pub open spec fn matches(self, c: char) -> bool {
        match self {
            ClassView::ValidChars(valid) => valid.contains(c),
            ClassView::InvalidChars(invalid) => !invalid.contains(c),
            ClassView::Ascii(high, low, unicode) => {
                if !is_packed(c) {
                    unicode
                } else if in_low_half(c) {
                    bit(low, mask_position(c))
                } else {
                    bit(high, mask_position(c))
                }
            },
        }
    }

    /// The packed class of every character.
    pub open spec fn any() -> ClassView {
        ClassView::Ascii(0xffff_ffff_ffff_ffff, 0xffff_ffff_ffff_ffff, true)
    }

    /// The class that `CharacterClass::valid_char` builds for `c`.
    pub open spec fn only(c: char) -> ClassView {
        if !is_packed(c) {
            ClassView::ValidChars(Set::empty().insert(c))
        } else if in_low_half(c) {
            ClassView::Ascii(0, 1u64 << mask_position(c), false)
        } else {
            ClassView::Ascii(1u64 << mask_position(c), 0, false)
        }
    }

    /// The class that `CharacterClass::invalid_char` builds for `c`.
    pub open spec fn all_but(c: char) -> ClassView {
        if !is_packed(c) {
            ClassView::InvalidChars(Set::empty().insert(c))
        } else if in_low_half(c) {
            ClassView::Ascii(
                0xffff_ffff_ffff_ffff,
                0xffff_ffff_ffff_ffffu64 ^ (1u64 << mask_position(c)),
                true,
            )
        } else {
            ClassView::Ascii(
                0xffff_ffff_ffff_ffffu64 ^ (1u64 << mask_position(c)),
                0xffff_ffff_ffff_ffff,
                true,
            )
        }
    }
}

/// `ClassView::any()` admits every character.
pub proof fn lemma_any_matches(c: char)
    ensures
        ClassView::any().matches(c),
{
    if is_packed(c) {
        lemma_bit_of_full(mask_position(c));
    }
}

/// `ClassView::only(c)` admits `c` and nothing else.
pub proof fn lemma_only_matches(c: char, d: char)
    ensures
        ClassView::only(c).matches(d) == (d == c),
{
    if is_packed(c) && is_packed(d) {
        if in_low_half(c) == in_low_half(d) {
            lemma_bit_of_single(mask_position(c), mask_position(d));
        } else {
            lemma_bit_of_zero(mask_position(d));
        }
    }
}

/// `ClassView::all_but(c)` admits everything except `c`.
pub proof fn lemma_all_but_matches(c: char, d: char)
    ensures
        ClassView::all_but(c).matches(d) == (d != c),
{
    if is_packed(c) && is_packed(d) {
        if in_low_half(c) == in_low_half(d) {
            lemma_bit_of_all_but(mask_position(c), mask_position(d));
        } else {
            lemma_bit_of_full(mask_position(d));
        }
    }
}

impl View for CharacterClass {
    type V = ClassView;

    open spec fn view(&self) -> ClassView {
        match self {
            CharacterClass::Ascii(high, low, unicode) => ClassView::Ascii(*high, *low, *unicode),
            CharacterClass::ValidChars(valid) => ClassView::ValidChars(valid@),
            CharacterClass::InvalidChars(invalid) => ClassView::InvalidChars(invalid@),
        }
    }
}

impl CharacterClass {
    /// The class of every character.
    pub fn any() -> (class: CharacterClass)
        ensures
            class@ == ClassView::any(),
            forall|c: char| class@.matches(c),
    {
        proof {
            assert forall|c: char| ClassView::any().matches(c) by {
                lemma_any_matches(c);
            }
        }
        CharacterClass::Ascii(u64::MAX, u64::MAX, true)
    }

    /// The class of the characters that occur in `string`.
    pub fn valid(string: &str) -> (class: CharacterClass)
        ensures
            class@ == ClassView::ValidChars(string@.to_set()),
    {
        CharacterClass::ValidChars(CharacterClass::str_to_set(string))
    }

    /// The class of the characters that do not occur in `string`.
    pub fn invalid(string: &str) -> (class: CharacterClass)
        ensures
            class@ == ClassView::InvalidChars(string@.to_set()),
    {
        CharacterClass::InvalidChars(CharacterClass::str_to_set(string))
    }

    /// The class of `c` alone: packed where `c` is, over a set otherwise.
    pub fn valid_char(c: char) -> (class: CharacterClass)
        ensures
            class@ == ClassView::only(c),
            forall|d: char| class@.matches(d) == (d == c),
    {
        proof {
            assert forall|d: char| ClassView::only(c).matches(d) == (d == c) by {
                lemma_only_matches(c, d);
            }
        }
        let code: u32 = c as u32;
        if code == 0 || code > 127 {
            CharacterClass::ValidChars(CharacterClass::char_to_set(c))
        } else if code > 64 {
            let position: u64 = (code - 65) as u64;
            CharacterClass::Ascii(1u64 << position, 0, false)
        } else {
            let position: u64 = (code - 1) as u64;
            CharacterClass::Ascii(0, 1u64 << position, false)
        }
    }

    /// The class of every character but `c`: packed where `c` is, over a set
    /// otherwise.
    pub fn invalid_char(c: char) -> (class: CharacterClass)
        ensures
            class@ == ClassView::all_but(c),
            forall|d: char| class@.matches(d) == (d != c),
    {
        proof {
            assert forall|d: char| ClassView::all_but(c).matches(d) == (d != c) by {
                lemma_all_but_matches(c, d);
            }
        }
        let code: u32 = c as u32;
        if code == 0 || code > 127 {
            CharacterClass::InvalidChars(CharacterClass::char_to_set(c))
        } else if code > 64 {
            let position: u64 = (code - 65) as u64;
            CharacterClass::Ascii(u64::MAX ^ (1u64 << position), u64::MAX, true)
        } else {
            let position: u64 = (code - 1) as u64;
            CharacterClass::Ascii(u64::MAX, u64::MAX ^ (1u64 << position), true)
        }
    }

    /// Whether the class admits `c`.
    pub fn matches(&self, c: char) -> (admitted: bool)
        ensures
            admitted == self@.matches(c),
    {
        match self {
            CharacterClass::ValidChars(valid) => valid.contains(c),
            CharacterClass::InvalidChars(invalid) => !invalid.contains(c),
            CharacterClass::Ascii(high, low, unicode) => {
                let code: u32 = c as u32;
                if code == 0 || code > 127 {
                    *unicode
                } else if code > 64 {
                    let position: u64 = (code - 65) as u64;
                    *high & (1u64 << position) != 0
                } else {
                    let position: u64 = (code - 1) as u64;
                    *low & (1u64 << position) != 0
                }
            },
        }
    }

    fn char_to_set(c: char) -> (set: CharSet)
        ensures
            set@ == Set::<char>::empty().insert(c),
    {
        let mut set = CharSet::new();
        set.insert(c);
        set
    }

    fn str_to_set(string: &str) -> (set: CharSet)
        ensures
            set@ == string@.to_set(),
    {
        let mut set = CharSet::new();
        for c in it: string.chars()
            invariant
                it.seq() == string@,
                set@ == string@.take(it.index()).to_set(),
        {
            proof {
                let i = it.index();
                assert(string@.take(i + 1) == string@.take(i).push(c));
                assert(string@.take(i).push(c).to_set() =~= string@.take(i).to_set().insert(c)) by {
                    vstd::seq_lib::lemma_seq_contains_after_push(string@.take(i), c, c);
                }
            }
            set.insert(c);
        }
        proof {
            assert(string@.take(string@.len() as int) == string@);
        }
        set
    }
}

/// The class of `c` alone.
pub fn valid(c: char) -> (class: CharacterClass)
    ensures
        class@ == ClassView::only(c),
{
    CharacterClass::valid_char(c)
}

/// The class of every character but `c`.
pub fn invalid(c: char) -> (class: CharacterClass)
    ensures
        class@ == ClassView::all_but(c),
{
    CharacterClass::invalid_char(c)
}

impl Clone for CharacterClass {
    fn clone(&self) -> (copy: CharacterClass)
        ensures
            copy@ == self@,
    {
        match self {
            CharacterClass::Ascii(high, low, unicode) => CharacterClass::Ascii(*high, *low, *unicode),
            CharacterClass::ValidChars(valid) => CharacterClass::ValidChars(valid.clone()),
            CharacterClass::InvalidChars(invalid) => CharacterClass::InvalidChars(invalid.clone()),
        }
    }
}

impl PartialEqSpecImpl for CharacterClass {
    open spec fn obeys_eq_spec() -> bool {
        true
    }

    open spec fn eq_spec(&self, other: &CharacterClass) -> bool {
        self@ == other@
    }
}

impl PartialEq for CharacterClass {
    /// Two classes are equal when they are of the same variant and hold the
    /// same bits or the same set.
    fn eq(&self, other: &CharacterClass) -> (same: bool) {
        match (self, other) {
            (CharacterClass::Ascii(high, low, unicode), CharacterClass::Ascii(h, l, u)) => {
                *high == *h && *low == *l && *unicode == *u
            },
            (CharacterClass::ValidChars(valid), CharacterClass::ValidChars(v)) => valid == v,
            (CharacterClass::InvalidChars(invalid), CharacterClass::InvalidChars(v)) => invalid == v,
            _ => false,
        }
    }
}

impl Eq for CharacterClass {

}

} // verus!
