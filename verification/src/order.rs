//! The order in which the caller ranks states, and the choice it makes among
//! several candidates.

use std::cmp::Ordering;
use vstd::prelude::*;
use vstd::std_specs::cmp::{OrdSpec, PartialEqSpec, PartialOrdSpec};

verus! {

/// Whether `a` ranks strictly above `b`.
pub open spec fn exceeds<I: Ord>(a: I, b: I) -> bool {
    a.partial_cmp_spec(&b) == Some(Ordering::Greater)
}

/// The comparisons of `I` compute a total order.
pub open spec fn is_total_order<I: Ord>() -> bool {
    vstd::laws_cmp::obeys_cmp::<I>()
}

/// `winner` is the position of the greatest of `keys`; where several keys are
/// greatest, it is the position of the first of them.
pub open spec fn is_first_greatest<I: Ord>(keys: Seq<I>, winner: int) -> bool {
    &&& 0 <= winner < keys.len()
    &&& forall|j: int| 0 <= j < keys.len() ==> !exceeds(#[trigger] keys[j], keys[winner])
    &&& forall|j: int| 0 <= j < winner ==> exceeds(keys[winner], #[trigger] keys[j])
}

/// What a total order gives for three keys.
proof fn lemma_order_facts<I: Ord>(a: I, b: I, c: I)
    requires
        is_total_order::<I>(),
    ensures
        I::obeys_partial_cmp_spec(),
        !exceeds(a, a),
        exceeds(a, b) && exceeds(b, c) ==> exceeds(a, c),
        exceeds(a, b) && !exceeds(c, b) ==> exceeds(a, c),
{
    reveal(vstd::laws_cmp::obeys_cmp_partial_ord);
    reveal(vstd::laws_cmp::obeys_cmp_ord);
    reveal(vstd::laws_cmp::obeys_partial_cmp_spec_properties);
    reveal(vstd::laws_eq::obeys_eq_spec_properties);
}

/// Under a total order, `>` in compiled code is `exceeds`.
pub proof fn lemma_total_order_compares<I: Ord>()
    requires
        is_total_order::<I>(),
    ensures
        I::obeys_partial_cmp_spec(),
{
    reveal(vstd::laws_cmp::obeys_cmp_partial_ord);
}

/// The key of the only candidate is the greatest.
pub proof fn lemma_first_greatest_of_one<I: Ord>(key: I)
    requires
        is_total_order::<I>(),
    ensures
        is_first_greatest(seq![key], 0),
{
    lemma_order_facts(key, key, key);
}

/// How the first greatest key moves when one more key comes last: to the new
/// key if that exceeds it, and not at all otherwise.
pub proof fn lemma_first_greatest_with_one_more<I: Ord>(keys: Seq<I>, winner: int, key: I, last: int)
    requires
        is_total_order::<I>(),
        is_first_greatest(keys, winner),
        last == keys.len(),
    ensures
        exceeds(key, keys[winner]) ==> is_first_greatest(keys.push(key), last),
        !exceeds(key, keys[winner]) ==> is_first_greatest(keys.push(key), winner),
{
    let more = keys.push(key);
    if exceeds(key, keys[winner]) {
        assert forall|j: int| 0 <= j < more.len() implies !exceeds(#[trigger] more[j], more[last]) by {
            if j < last {
                lemma_order_facts(keys[j], key, keys[winner]);
            } else {
                lemma_order_facts(key, key, key);
            }
        }
        assert forall|j: int| 0 <= j < last implies exceeds(more[last], #[trigger] more[j]) by {
            lemma_order_facts(key, keys[winner], keys[j]);
        }
    } else {
        // The keys before the new one are as they were, and the new one does
        // not exceed the winner.
        assert(more[winner] == keys[winner]);
        assert forall|j: int| 0 <= j < more.len() implies !exceeds(#[trigger] more[j], more[winner]) by {}
    }
}

/// There is one first greatest key at most.
pub proof fn lemma_first_greatest_is_unique<I: Ord>(keys: Seq<I>, a: int, b: int)
    requires
        is_first_greatest(keys, a),
        is_first_greatest(keys, b),
    ensures
        a == b,
{
    if a < b {
        assert(exceeds(keys[b], keys[a]));
    } else if b < a {
        assert(exceeds(keys[a], keys[b]));
    }
}

} // verus!
