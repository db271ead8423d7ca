//! Laws that relate the `Counter` operations to one another.
//!
//! Each law is stated over the contracts of the operations it speaks about:
//! its hypotheses are exactly what the operations' `ensures` clauses say, so
//! chaining the calls discharges the hypotheses.

use vstd::prelude::*;
use crate::counter::Counter;
use crate::counter::clamped_sub;
use crate::counter::occurrences;

verus! {

/// Updating with a sequence and then subtracting the same sequence restores
/// every count exactly: `update` and `subtract` are inverses per element.
pub proof fn lemma_update_then_subtract_restores<T: Eq>(
    c0: Counter<T>,
    c1: Counter<T>,
    c2: Counter<T>,
    s: Seq<T>,
)
    requires
        forall|y: T| c1.count(y) == c0.count(y) + occurrences(s, y),
        forall|y: T|
            c2.count(y) == clamped_sub(c1.count(y) as int, occurrences(s, y) as int),
    ensures
        forall|y: T| c2.count(y) == c0.count(y),
{
}

/// Subtracting touches nothing for an element whose count was already `0`
/// (that is, an absent element): the mapping is unchanged for that element.
pub proof fn lemma_subtract_absent_is_noop<T: Eq>(
    c0: Counter<T>,
    c1: Counter<T>,
    s: Seq<T>,
    x: T,
)
    requires
        forall|y: T|
            c1.count(y) == clamped_sub(c0.count(y) as int, occurrences(s, y) as int),
        c0.count(x) == 0,
    ensures
        c1.count(x) == 0,
{
}

/// After a sum, each element's count is the sum of its prior counts in the
/// two operands; in particular that holds for every element present in both.
pub proof fn lemma_sum_adds_counts<T: Eq>(c: Counter<T>, d: Counter<T>, e: Counter<T>, x: T)
    requires
        forall|y: T| e.count(y) == c.count(y) + d.count(y),
        c.count(x) > 0,
        d.count(x) > 0,
    ensures
        e.count(x) == c.count(x) + d.count(x),
{
}

/// Summing with a counter and then taking the clamped difference with the
/// same counter restores every count of the left operand, even for elements
/// the left operand lacked: their summed count is subtracted away entirely
/// and they fall back to absence.
pub proof fn lemma_sum_then_difference_restores<T: Eq>(
    c: Counter<T>,
    d: Counter<T>,
    e: Counter<T>,
    f: Counter<T>,
)
    requires
        forall|y: T| e.count(y) == c.count(y) + d.count(y),
        forall|y: T| f.count(y) == clamped_sub(e.count(y) as int, d.count(y) as int),
    ensures
        forall|y: T| f.count(y) == c.count(y),
{
}

/// `most_common` is deterministic: two results taken from one unmutated
/// `Counter` hold the same elements with the same counts in the same order.
pub proof fn lemma_most_common_deterministic<T: Eq>(
    c: &Counter<T>,
    r1: Seq<(&T, usize)>,
    r2: Seq<(&T, usize)>,
)
    requires
        r1.len() == c.most_common_spec().len(),
        forall|i: int|
            #![trigger r1[i]]
            0 <= i < r1.len() ==> (*r1[i].0, r1[i].1) == c.most_common_spec()[i],
        r2.len() == c.most_common_spec().len(),
        forall|i: int|
            #![trigger r2[i]]
            0 <= i < r2.len() ==> (*r2[i].0, r2[i].1) == c.most_common_spec()[i],
    ensures
        r1.len() == r2.len(),
        forall|i: int|
            0 <= i < r1.len() ==> *(#[trigger] r1[i]).0 == *r2[i].0 && r1[i].1 == r2[i].1,
{
}

} // verus!
