//! A set of characters: two bitmasks for the packed range of code points and
//! a hash set for every other character.

use crate::bits::{bit, lemma_bit_after_set, lemma_bit_of_zero, lemma_masks_equal};
use std::collections::HashSet;
use vstd::prelude::*;
use vstd::std_specs::cmp::PartialEqSpecImpl;
use vstd::std_specs::iter::IteratorSpec;

verus! {

broadcast use vstd::std_specs::hash::group_hash_axioms;

/// Whether `c` is kept in one of the two bitmasks.
///
/// The ASCII code points 1 to 127 are packed: 1 to 64 in the low mask, 65 to
/// 127 in the high mask, whose last bit stands for no character. Code point
/// zero is not packed: it is stored with the characters above ASCII, so that
/// no mask position is ever computed from it.
pub open spec fn is_packed(c: char) -> bool {
    1 <= c as u32 <= 127
}

/// Whether a packed character lives in the low mask (code points 1 to 64).
pub open spec fn in_low_half(c: char) -> bool {
    1 <= c as u32 <= 64
}

/// The mask position of a packed character within its half.
pub open spec fn mask_position(c: char) -> u64 {
    if in_low_half(c) {
        (c as u32 - 1) as u64
    } else {
        (c as u32 - 65) as u64
    }
}

/// Whether `code` is the code point of a character outside the packed range.
pub open spec fn is_fallback_code(code: u32) -> bool {
    code == 0 || 128 <= code <= 0xD7FF || 0xE000 <= code <= 0x10FFFF
}

/// Whether `c` belongs to a set held as two masks and a fallback set of code
/// points.
pub open spec fn held(low_mask: u64, high_mask: u64, rest: Set<u32>, c: char) -> bool {
    if !is_packed(c) {
        rest.contains(c as u32)
    } else if in_low_half(c) {
        bit(low_mask, mask_position(c))
    } else {
        bit(high_mask, mask_position(c))
    }
}

/// Nothing is held by two zero masks and an empty fallback set.
proof fn lemma_held_by_nothing(c: char)
    ensures
        !held(0, 0, Set::empty(), c),
{
    if is_packed(c) {
        lemma_bit_of_zero(mask_position(c));
    }
}

/// Setting the mask bit of a packed `c`, or adding the code of an unpacked `c`
/// to the fallback set, adds `c` and nothing else.
proof fn lemma_held_after_insert(low_mask: u64, high_mask: u64, rest: Set<u32>, c: char, d: char)
    ensures
        in_low_half(c) ==> held(low_mask | (1u64 << mask_position(c)), high_mask, rest, d) == (d
            == c || held(low_mask, high_mask, rest, d)),
        is_packed(c) && !in_low_half(c) ==> held(
            low_mask,
            high_mask | (1u64 << mask_position(c)),
            rest,
            d,
        ) == (d == c || held(low_mask, high_mask, rest, d)),
        !is_packed(c) ==> held(low_mask, high_mask, rest.insert(c as u32), d) == (d == c || held(
            low_mask,
            high_mask,
            rest,
            d,
        )),
{
    if is_packed(c) && is_packed(d) && in_low_half(c) == in_low_half(d) {
        if in_low_half(c) {
            lemma_bit_after_set(low_mask, mask_position(c), mask_position(d));
        } else {
            lemma_bit_after_set(high_mask, mask_position(c), mask_position(d));
        }
    }
}

/// Two representations that hold the same characters have the same masks and
/// the same fallback set, as long as the fallback sets keep to their range
/// and the spare bit of the high masks is not set.
proof fn lemma_parts_of_equal_sets(
    low_a: u64,
    high_a: u64,
    rest_a: Set<u32>,
    low_b: u64,
    high_b: u64,
    rest_b: Set<u32>,
)
    requires
        forall|c: char| held(low_a, high_a, rest_a, c) == held(low_b, high_b, rest_b, c),
        forall|code: u32| rest_a.contains(code) ==> is_fallback_code(code),
        forall|code: u32| rest_b.contains(code) ==> is_fallback_code(code),
        !bit(high_a, 63),
        !bit(high_b, 63),
    ensures
        low_a == low_b,
        high_a == high_b,
        rest_a == rest_b,
{
    assert forall|k: u64| k < 64 implies bit(low_a, k) == bit(low_b, k) by {
        let c = ((k + 1) as u32) as char;
        assert(held(low_a, high_a, rest_a, c) == held(low_b, high_b, rest_b, c));
    }
    lemma_masks_equal(low_a, low_b);
    assert forall|k: u64| k < 64 implies bit(high_a, k) == bit(high_b, k) by {
        if k < 63 {
            let c = ((k + 65) as u32) as char;
            assert(held(low_a, high_a, rest_a, c) == held(low_b, high_b, rest_b, c));
        }
    }
    lemma_masks_equal(high_a, high_b);
    assert forall|code: u32| rest_a.contains(code) == rest_b.contains(code) by {
        if is_fallback_code(code) {
            let c = code as char;
            assert(held(low_a, high_a, rest_a, c) == held(low_b, high_b, rest_b, c));
        }
    }
}

/// A set of characters. A packed character is one bit of `low_mask` or
/// `high_mask`; the code point of any other character is kept in `fallback`.
#[derive(Debug)]
pub struct CharSet {
    low_mask: u64,
    high_mask: u64,
    fallback: HashSet<u32>,
}

impl View for CharSet {
    type V = Set<char>;

    closed spec fn view(&self) -> Set<char> {
        Set::new(|c: char| held(self.low_mask, self.high_mask, self.fallback@, c))
    }
}

impl CharSet {
    /// The fallback set holds no code point that has a place in a mask, and
    /// nothing that is not the code point of a character; the last bit of the
    /// high mask, which stands for no character, is not set.
    #[verifier::type_invariant]
    spec fn keeps_to_its_ranges(&self) -> bool {
        &&& forall|code: u32| self.fallback@.contains(code) ==> is_fallback_code(code)
        &&& !bit(self.high_mask, 63)
    }

    /// The empty set.
    pub fn new() -> (set: CharSet)
        ensures
            set@ == Set::<char>::empty(),
    {
        proof {
            lemma_bit_of_zero(63);
        }
        let set = CharSet { low_mask: 0, high_mask: 0, fallback: HashSet::new() };
        proof {
            assert forall|c: char| !set@.contains(c) by {
                lemma_held_by_nothing(c);
            }
        }
        set
    }

    /// Adds `c` to the set.
    pub fn insert(&mut self, c: char)
        ensures
            final(self)@ == old(self)@.insert(c),
    {
        proof {
            use_type_invariant(&*self);
        }
        let code: u32 = c as u32;
        if code == 0 || code > 127 {
            // The fallback set is moved out while it grows, and moved back.
            let mut rest: HashSet<u32> = HashSet::new();
            std::mem::swap(&mut self.fallback, &mut rest);
            rest.insert(code);
            std::mem::swap(&mut self.fallback, &mut rest);
        } else if code > 64 {
            let position: u64 = (code - 65) as u64;
            proof {
                lemma_bit_after_set(self.high_mask, position, 63);
            }
            self.high_mask = self.high_mask | (1u64 << position);
        } else {
            let position: u64 = (code - 1) as u64;
            self.low_mask = self.low_mask | (1u64 << position);
        }
        proof {
            assert forall|d: char| self@.contains(d) == old(self)@.insert(c).contains(d) by {
                lemma_held_after_insert(
                    old(self).low_mask,
                    old(self).high_mask,
                    old(self).fallback@,
                    c,
                    d,
                );
            }
        }
    }

    /// Whether `c` is in the set.
    pub fn contains(&self, c: char) -> (found: bool)
        ensures
            found == self@.contains(c),
    {
        let code: u32 = c as u32;
        if code == 0 || code > 127 {
            self.fallback.contains(&code)
        } else if code > 64 {
            let position: u64 = (code - 65) as u64;
            self.high_mask & (1u64 << position) != 0
        } else {
            let position: u64 = (code - 1) as u64;
            self.low_mask & (1u64 << position) != 0
        }
    }
}

impl Clone for CharSet {
    /// A set of the same characters.
    fn clone(&self) -> (copy: CharSet)
        ensures
            copy@ == self@,
    {
        proof {
            use_type_invariant(self);
        }
        let mut rest: HashSet<u32> = HashSet::new();
        let ghost keys = self.fallback.iter().remaining();
        for code in it: self.fallback.iter()
            invariant
                it.seq() == keys,
                forall|i: int| 0 <= i < it.index() ==> rest@.contains(*keys[i]),
                forall|v: u32| rest@.contains(v) ==> self.fallback@.contains(v),
        {
            rest.insert(*code);
        }
        proof {
            // Every code point of the fallback set is one of the keys walked.
            assert forall|v: u32| self.fallback@.contains(v) implies rest@.contains(v) by {}
        }
        CharSet { low_mask: self.low_mask, high_mask: self.high_mask, fallback: rest }
    }
}

impl PartialEqSpecImpl for CharSet {
    open spec fn obeys_eq_spec() -> bool {
        true
    }

    open spec fn eq_spec(&self, other: &CharSet) -> bool {
        self@ == other@
    }
}

impl PartialEq for CharSet {
    /// Two sets are equal when they hold the same characters.
    fn eq(&self, other: &CharSet) -> (same: bool) {
        proof {
            use_type_invariant(self);
            use_type_invariant(other);
            if self@ == other@ {
                assert forall|c: char|
                    held(self.low_mask, self.high_mask, self.fallback@, c) == held(
                        other.low_mask,
                        other.high_mask,
                        other.fallback@,
                        c,
                    ) by {
                    assert(self@.contains(c) == other@.contains(c));
                }
                lemma_parts_of_equal_sets(
                    self.low_mask,
                    self.high_mask,
                    self.fallback@,
                    other.low_mask,
                    other.high_mask,
                    other.fallback@,
                );
            }
        }
        if self.low_mask != other.low_mask || self.high_mask != other.high_mask
            || self.fallback.len() != other.fallback.len() {
            return false;
        }
        let ghost keys = self.fallback.iter().remaining();
        for code in it: self.fallback.iter()
            invariant
                it.seq() == keys,
                keys.unref().to_set() == self.fallback@,
                forall|i: int| 0 <= i < it.index() ==> other.fallback@.contains(*keys[i]),
                self@ == other@ ==> self.fallback@ == other.fallback@,
        {
            if !other.fallback.contains(code) {
                return false;
            }
        }
        proof {
            // One set lies within the other, and they are of one size.
            assert forall|v: u32| self.fallback@.contains(v) implies other.fallback@.contains(
                v,
            ) by {}
            vstd::seq_lib::seq_to_set_is_finite(keys.unref());
            vstd::seq_lib::seq_to_set_is_finite(other.fallback.iter().remaining().unref());
            vstd::set_lib::lemma_subset_equality(self.fallback@, other.fallback@);
        }
        true
    }
}

impl Eq for CharSet {

}

} // verus!
