//! The `Counter` container and its operations.
//!
//! A `Counter<T>` associates each distinct element with a strictly positive
//! occurrence count. Its whole observable state is captured by the spec
//! function [`Counter::count`], a total function from elements to counts in
//! which an absent element has count `0`: no entry with count `0` is ever
//! stored.

use vstd::prelude::*;
use vstd::laws_eq::obeys_concrete_eq;
use vstd::std_specs::cmp::PartialEqSpec;

verus! {

/// Number of occurrences of `x` in the sequence `s`.
pub open spec fn occurrences<T>(s: Seq<T>, x: T) -> nat
    decreases s.len(),
{
    if s.len() == 0 {
        0
    } else {
        occurrences(s.drop_last(), x) + if s.last() == x {
            1nat
        } else {
            0nat
        }
    }
}

/// `c - d`, clamped to `0` when `d` is at least `c`.
pub open spec fn clamped_sub(c: int, d: int) -> int {
    if c >= d {
        c - d
    } else {
        0
    }
}

/// The smaller of `a` and `b`.
pub open spec fn min_of(a: int, b: int) -> int {
    if a <= b {
        a
    } else {
        b
    }
}

/// The larger of `a` and `b`.
pub open spec fn max_of(a: int, b: int) -> int {
    if a >= b {
        a
    } else {
        b
    }
}

/// The keys of the entry sequence `s` are pairwise distinct.
pub open spec fn distinct_keys<T>(s: Seq<(T, usize)>) -> bool {
    forall|i: int, j: int| 0 <= i < j < s.len() ==> #[trigger] s[i].0 != #[trigger] s[j].0
}

/// Every entry of `s` carries a strictly positive count.
pub open spec fn positive_counts<T>(s: Seq<(T, usize)>) -> bool {
    forall|i: int| 0 <= i < s.len() ==> (#[trigger] s[i]).1 > 0
}

/// Some entry of `s` has key `x`.
pub open spec fn has_key<T>(s: Seq<(T, usize)>, x: T) -> bool {
    exists|i: int| 0 <= i < s.len() && (#[trigger] s[i]).0 == x
}

/// The count recorded for key `x` in the entry sequence `s`, `0` if no entry
/// has that key. When several entries share the key, the latest one decides;
/// a well-formed `Counter` never holds two entries with one key.
pub open spec fn key_count<T>(s: Seq<(T, usize)>, x: T) -> usize
    decreases s.len(),
{
    if s.len() == 0 {
        0
    } else if s.last().0 == x {
        s.last().1
    } else {
        key_count(s.drop_last(), x)
    }
}

/// A key without an entry has count `0`.
pub proof fn lemma_key_count_absent<T>(s: Seq<(T, usize)>, x: T)
    requires
        !has_key(s, x),
    ensures
        key_count(s, x) == 0,
    decreases s.len(),
{
    if s.len() > 0 {
        assert(s.last().0 != x);
        assert forall|i: int| 0 <= i < s.drop_last().len() implies (#[trigger] s.drop_last()[i]).0
            != x by {
            assert(s.drop_last()[i] == s[i]);
        }
        lemma_key_count_absent(s.drop_last(), x);
    }
}

/// Under distinct keys, the count recorded for the key of entry `i` is that
/// entry's count.
pub proof fn lemma_key_count_at<T>(s: Seq<(T, usize)>, i: int)
    requires
        distinct_keys(s),
        0 <= i < s.len(),
    ensures
        key_count(s, s[i].0) == s[i].1,
    decreases s.len(),
{
    if i == s.len() - 1 {
        assert(s.last() == s[i]);
    } else {
        assert(s.last().0 != s[i].0);
        assert(s.drop_last()[i] == s[i]);
        lemma_key_count_at(s.drop_last(), i);
    }
}

/// A key with a positive count has an entry.
pub proof fn lemma_key_count_positive_has_key<T>(s: Seq<(T, usize)>, x: T)
    requires
        key_count(s, x) > 0,
    ensures
        has_key(s, x),
    decreases s.len(),
{
    if s.len() > 0 {
        if s.last().0 == x {
            assert(s[s.len() - 1].0 == x);
        } else {
            lemma_key_count_positive_has_key(s.drop_last(), x);
            let i = choose|i: int| 0 <= i < s.drop_last().len() && (#[trigger] s.drop_last()[i]).0
                == x;
            assert(s[i] == s.drop_last()[i]);
        }
    }
}

/// No element occurs in a sequence more often than the sequence is long.
pub proof fn lemma_occurrences_le_len<T>(s: Seq<T>, x: T)
    ensures
        occurrences(s, x) <= s.len(),
    decreases s.len(),
{
    if s.len() > 0 {
        lemma_occurrences_le_len(s.drop_last(), x);
    }
}

/// What removing the last entry of a well-formed entry sequence does to the
/// recorded counts: the popped key loses its whole count, every other key
/// keeps its count, and well-formedness is preserved.
pub proof fn lemma_pop_entry<T>(s: Seq<(T, usize)>)
    requires
        distinct_keys(s),
        s.len() > 0,
    ensures
        key_count(s, s.last().0) == s.last().1,
        key_count(s.drop_last(), s.last().0) == 0,
        distinct_keys(s.drop_last()),
        positive_counts(s) ==> positive_counts(s.drop_last()),
        forall|y: T| y != s.last().0 ==> key_count(s.drop_last(), y) == key_count(s, y),
        forall|y: T| has_key(s.drop_last(), y) ==> has_key(s, y),
        forall|y: T| has_key(s, y) && y != s.last().0 ==> has_key(s.drop_last(), y),
        !has_key(s.drop_last(), s.last().0),
{
    let t = s.drop_last();
    assert forall|i: int| 0 <= i < t.len() implies (#[trigger] t[i]).0 != s.last().0 by {
        assert(t[i] == s[i]);
        assert(s[i].0 != s[s.len() - 1].0);
    }
    lemma_key_count_absent(t, s.last().0);
    assert forall|i: int| 0 <= i < t.len() implies #[trigger] t[i] == s[i] by {}
    assert forall|y: T| has_key(s, y) && y != s.last().0 implies has_key(t, y) by {
        let i = choose|i: int| 0 <= i < s.len() && (#[trigger] s[i]).0 == y;
        assert(i < s.len() - 1);
        assert(t[i].0 == y);
    }
}

/// What appending an entry `p` to an entry sequence does to the recorded
/// counts: `p`'s key now has `p`'s count, every other key keeps its count,
/// and well-formedness is preserved when `p`'s key is new and its count
/// positive.
pub proof fn lemma_push_entry<T>(s: Seq<(T, usize)>, p: (T, usize))
    ensures
        key_count(s.push(p), p.0) == p.1,
        forall|y: T| y != p.0 ==> key_count(s.push(p), y) == key_count(s, y),
        forall|y: T| has_key(s.push(p), y) <==> has_key(s, y) || y == p.0,
        distinct_keys(s) && !has_key(s, p.0) ==> distinct_keys(s.push(p)),
        positive_counts(s) && p.1 > 0 ==> positive_counts(s.push(p)),
{
    let t = s.push(p);
    assert(t.drop_last() =~= s);
    assert(t.last() == p);
    assert forall|y: T| has_key(t, y) implies has_key(s, y) || y == p.0 by {
        let i = choose|i: int| 0 <= i < t.len() && (#[trigger] t[i]).0 == y;
        if i < s.len() {
            assert(s[i].0 == y);
        }
    }
    assert forall|y: T| has_key(s, y) || y == p.0 implies has_key(t, y) by {
        if y == p.0 {
            assert(t[s.len() as int].0 == y);
        } else {
            let i = choose|i: int| 0 <= i < s.len() && (#[trigger] s[i]).0 == y;
            assert(t[i].0 == y);
        }
    }
    if distinct_keys(s) && !has_key(s, p.0) {
        assert forall|i: int, j: int| 0 <= i < j < t.len() implies (#[trigger] t[i]).0 != (
        #[trigger] t[j]).0 by {
            if j < s.len() {
                assert(t[i] == s[i] && t[j] == s[j]);
            } else {
                assert(t[j] == p);
                assert(t[i] == s[i]);
                assert(!((#[trigger] s[i]).0 == p.0));
            }
        }
    }
    if positive_counts(s) && p.1 > 0 {
        assert forall|i: int| 0 <= i < t.len() implies (#[trigger] t[i]).1 > 0 by {
            if i < s.len() {
                assert(t[i] == s[i]);
            }
        }
    }
}

/// Entries ordered from highest count to lowest: `s[i].1 >= s[j].1` whenever
/// `i <= j`.
pub open spec fn sorted_desc<T>(s: Seq<(T, usize)>) -> bool {
    forall|i: int, j: int| 0 <= i <= j < s.len() ==> (#[trigger] s[i]).1 >= (#[trigger] s[j]).1
}

/// The position at which an entry with count `c` enters the count-descending
/// sequence `s`: directly after every entry whose count is at least `c`.
pub open spec fn insert_pos<T>(s: Seq<(T, usize)>, c: usize) -> int
    decreases s.len(),
{
    if s.len() == 0 {
        0
    } else if s[0].1 >= c {
        1 + insert_pos(s.skip(1), c)
    } else {
        0
    }
}

/// `s` with the entry `p` inserted at its count-descending position.
pub open spec fn insert_desc<T>(s: Seq<(T, usize)>, p: (T, usize)) -> Seq<(T, usize)> {
    s.insert(insert_pos(s, p.1), p)
}

/// The entries of `s` arranged from highest count to lowest, by inserting
/// them one after the other; entries with equal counts keep their relative
/// order.
pub open spec fn most_common_seq<T>(s: Seq<(T, usize)>) -> Seq<(T, usize)>
    decreases s.len(),
{
    if s.len() == 0 {
        Seq::empty()
    } else {
        insert_desc(most_common_seq(s.drop_last()), s.last())
    }
}

/// `insert_pos` points directly after the entries whose counts are at least
/// `c`.
pub proof fn lemma_insert_pos_bounds<T>(s: Seq<(T, usize)>, c: usize)
    ensures
        0 <= insert_pos(s, c) <= s.len(),
        forall|t: int| 0 <= t < insert_pos(s, c) ==> (#[trigger] s[t]).1 >= c,
        insert_pos(s, c) < s.len() ==> s[insert_pos(s, c)].1 < c,
    decreases s.len(),
{
    if s.len() > 0 && s[0].1 >= c {
        lemma_insert_pos_bounds(s.skip(1), c);
        assert forall|t: int| 0 <= t < insert_pos(s, c) implies (#[trigger] s[t]).1 >= c by {
            if t > 0 {
                assert(s.skip(1)[t - 1] == s[t]);
            }
        }
        if insert_pos(s, c) < s.len() {
            assert(s.skip(1)[insert_pos(s, c) - 1] == s[insert_pos(s, c)]);
        }
    }
}

/// `insert_pos` is the one position `j` that has every count before it at
/// least `c` and the count at it, if any, below `c`.
pub proof fn lemma_insert_pos_unique<T>(s: Seq<(T, usize)>, c: usize, j: int)
    requires
        0 <= j <= s.len(),
        forall|t: int| 0 <= t < j ==> (#[trigger] s[t]).1 >= c,
        j < s.len() ==> s[j].1 < c,
    ensures
        insert_pos(s, c) == j,
{
    lemma_insert_pos_bounds(s, c);
    let ip = insert_pos(s, c);
    if ip < j {
        assert(s[ip].1 >= c);
    }
    if j < ip {
        assert(s[j].1 >= c);
    }
}

/// Inserting an entry at its count-descending position keeps the sequence
/// ordered, adds exactly that entry, and preserves well-formedness when the
/// entry's key is new.
pub proof fn lemma_insert_desc_entries<T>(s: Seq<(T, usize)>, p: (T, usize))
    requires
        sorted_desc(s),
    ensures
        insert_desc(s, p).len() == s.len() + 1,
        sorted_desc(insert_desc(s, p)),
        forall|q: (T, usize)| insert_desc(s, p).contains(q) <==> s.contains(q) || q == p,
        forall|y: T| has_key(insert_desc(s, p), y) <==> has_key(s, y) || y == p.0,
        distinct_keys(s) && !has_key(s, p.0) ==> distinct_keys(insert_desc(s, p)),
        positive_counts(s) && p.1 > 0 ==> positive_counts(insert_desc(s, p)),
{
    let j = insert_pos(s, p.1);
    lemma_insert_pos_bounds(s, p.1);
    s.insert_ensures(j, p);
    let t = insert_desc(s, p);
    assert forall|a: int, b: int| 0 <= a <= b < t.len() implies (#[trigger] t[a]).1 >= (
    #[trigger] t[b]).1 by {
        if b < j {
            assert(t[a] == s[a] && t[b] == s[b]);
        } else if b == j {
            if a < j {
                assert(t[a] == s[a] && s[a].1 >= p.1);
            }
        } else {
            assert(t[b] == s[b - 1]);
            if a < j {
                assert(t[a] == s[a]);
            } else if a == j {
                if j < s.len() {
                    assert(s[j].1 < p.1);
                    assert(s[j].1 >= s[b - 1].1);
                }
            } else {
                assert(t[a] == s[a - 1]);
            }
        }
    }
    assert forall|q: (T, usize)| #[trigger] t.contains(q) implies s.contains(q) || q == p by {
        let i = choose|i: int| 0 <= i < t.len() && t[i] == q;
        if i < j {
            assert(s[i] == q);
        } else if i > j {
            assert(s[i - 1] == q);
        }
    }
    assert forall|q: (T, usize)| s.contains(q) || q == p implies #[trigger] t.contains(q) by {
        if q == p {
            assert(t[j] == q);
        } else {
            let i = choose|i: int| 0 <= i < s.len() && s[i] == q;
            if i < j {
                assert(t[i] == q);
            } else {
                assert(t[i + 1] == q);
            }
        }
    }
    assert forall|y: T| has_key(t, y) implies has_key(s, y) || y == p.0 by {
        let i = choose|i: int| 0 <= i < t.len() && (#[trigger] t[i]).0 == y;
        if i < j {
            assert(s[i].0 == y);
        } else if i > j {
            assert(s[i - 1].0 == y);
        }
    }
    assert forall|y: T| has_key(s, y) || y == p.0 implies has_key(t, y) by {
        if y == p.0 {
            assert(t[j].0 == y);
        } else {
            let i = choose|i: int| 0 <= i < s.len() && (#[trigger] s[i]).0 == y;
            if i < j {
                assert(t[i].0 == y);
            } else {
                assert(t[i + 1].0 == y);
            }
        }
    }
    if distinct_keys(s) && !has_key(s, p.0) {
        assert forall|a: int, b: int| 0 <= a < b < t.len() implies (#[trigger] t[a]).0 != (
        #[trigger] t[b]).0 by {
            if a == j {
                if t[b].0 == p.0 {
                    assert(s[b - 1].0 == p.0);
                    assert(has_key(s, p.0));
                }
            } else if b == j {
                if t[a].0 == p.0 {
                    assert(s[a].0 == p.0);
                    assert(has_key(s, p.0));
                }
            } else {
                let a0: int = if a < j {
                    a
                } else {
                    a - 1
                };
                let b0: int = if b < j {
                    b
                } else {
                    b - 1
                };
                assert(t[a] == s[a0] && t[b] == s[b0]);
            }
        }
    }
    if positive_counts(s) && p.1 > 0 {
        assert forall|i: int| 0 <= i < t.len() implies (#[trigger] t[i]).1 > 0 by {
            if i < j {
                assert(t[i] == s[i]);
            } else if i > j {
                assert(t[i] == s[i - 1]);
            }
        }
    }
}

/// `most_common_seq` arranges exactly the entries of `s` from highest count
/// to lowest and preserves well-formedness.
pub proof fn lemma_most_common_seq_entries<T>(s: Seq<(T, usize)>)
    requires
        distinct_keys(s),
        positive_counts(s),
    ensures
        most_common_seq(s).len() == s.len(),
        sorted_desc(most_common_seq(s)),
        distinct_keys(most_common_seq(s)),
        positive_counts(most_common_seq(s)),
        forall|q: (T, usize)| most_common_seq(s).contains(q) <==> s.contains(q),
        forall|y: T| has_key(most_common_seq(s), y) <==> has_key(s, y),
    decreases s.len(),
{
    if s.len() > 0 {
        let d = s.drop_last();
        lemma_pop_entry(s);
        lemma_most_common_seq_entries(d);
        let m = most_common_seq(d);
        lemma_insert_desc_entries(m, s.last());
        assert(s[s.len() - 1] == s.last());
        assert forall|q: (T, usize)| #[trigger] s.contains(q) implies d.contains(q) || q
            == s.last() by {
            let i = choose|i: int| 0 <= i < s.len() && s[i] == q;
            if i < s.len() - 1 {
                assert(d[i] == q);
            }
        }
        assert forall|q: (T, usize)| #[trigger] d.contains(q) implies s.contains(q) by {
            let i = choose|i: int| 0 <= i < d.len() && d[i] == q;
            assert(s[i] == q);
        }
        assert(s.contains(s.last()));
        assert(has_key(s, s.last().0)) by {
            assert((s[s.len() - 1]).0 == s.last().0);
        }
        assert(most_common_seq(s) == insert_desc(m, s.last()));
        assert forall|q: (T, usize)| #[trigger] most_common_seq(s).contains(q) implies s.contains(
            q,
        ) by {
            assert(insert_desc(m, s.last()).contains(q));
            assert(m.contains(q) || q == s.last());
            assert(m.contains(q) ==> d.contains(q));
            assert(d.contains(q) ==> s.contains(q));
            assert(q == s.last() ==> s.contains(q));
        }
        assert forall|q: (T, usize)| #[trigger] s.contains(q) implies most_common_seq(s).contains(
            q,
        ) by {
            assert(d.contains(q) || q == s.last());
            assert(m.contains(q) || q == s.last());
            assert(insert_desc(m, s.last()).contains(q));
        }
    }
}

/// Executable equality on `T` decides spec equality, given that `T`'s
/// `PartialEq` obeys `vstd::laws_eq::obeys_concrete_eq`.
proof fn lemma_eq_decides_spec_eq<T: PartialEq>(x: T, y: T, r: bool)
    requires
        obeys_concrete_eq::<T>(),
        T::obeys_eq_spec() ==> (r <==> x.eq_spec(&y)),
    ensures
        r <==> (x == y),
{
    reveal(vstd::laws_eq::obeys_concrete_eq);
}

/// A mapping from distinct elements of `T` to strictly positive occurrence
/// counts.
///
/// The backing store is a sequence of `(element, count)` pairs with pairwise
/// distinct elements; an element without a pair has count `0`.
pub struct Counter<T> {
    table: Vec<(T, usize)>,
}

impl<T: Eq> Counter<T> {
    /// The structural invariant: keys are pairwise distinct and every stored
    /// count is strictly positive.
    pub closed spec fn wf(&self) -> bool {
        &&& distinct_keys(self.table@)
        &&& positive_counts(self.table@)
    }

    /// The number of occurrences recorded for `x`; `0` when `x` is absent.
    /// This total function is the whole observable state of a well-formed
    /// `Counter`.
    pub closed spec fn count(&self, x: T) -> usize {
        key_count(self.table@, x)
    }

    /// Create a new, empty `Counter`.
    pub fn new() -> (r: Counter<T>)
        ensures
            r.wf(),
            forall|x: T| r.count(x) == 0,
    {
        Counter { table: Vec::new() }
    }

    /// Look up the count recorded for `x`; `0` when `x` is absent.
    #[verifier::loop_isolation(false)]
    pub fn get_count(&self, x: &T) -> (r: usize)
        requires
            obeys_concrete_eq::<T>(),
            self.wf(),
        ensures
            r == self.count(*x),
    {
        let n = self.table.len();
        let mut i: usize = 0;
        while i < n
            invariant
                n == self.table@.len(),
                0 <= i <= n,
                forall|j: int| 0 <= j < i ==> (#[trigger] self.table@[j]).0 != *x,
                obeys_concrete_eq::<T>(),
                self.wf(),
            decreases n - i,
        {
            let hit = self.table[i].0 == *x;
            proof {
                lemma_eq_decides_spec_eq(self.table@[i as int].0, *x, hit);
            }
            if hit {
                proof {
                    lemma_key_count_at(self.table@, i as int);
                }
                return self.table[i].1;
            }
            i = i + 1;
        }
        proof {
            lemma_key_count_absent(self.table@, *x);
        }
        0
    }

    /// Set the count recorded for `x` to exactly `c`; a count of `0` removes
    /// the entry. Every other element keeps its count.
    #[verifier::loop_isolation(false)]
    pub fn set_count(&mut self, x: T, c: usize)
        requires
            obeys_concrete_eq::<T>(),
            old(self).wf(),
        ensures
            final(self).wf(),
            final(self).count(x) == c,
            forall|y: T| y != x ==> final(self).count(y) == old(self).count(y),
    {
        let ghost orig = old(self).table@;
        let mut kept: Vec<(T, usize)> = Vec::new();
        while self.table.len() > 0
            invariant
                obeys_concrete_eq::<T>(),
                distinct_keys(self.table@),
                positive_counts(self.table@),
                distinct_keys(kept@),
                positive_counts(kept@),
                forall|y: T| !(has_key(kept@, y) && has_key(self.table@, y)),
                !has_key(kept@, x),
                forall|y: T|
                    y != x ==> key_count(kept@, y) + key_count(self.table@, y) == key_count(
                        orig,
                        y,
                    ),
            decreases self.table@.len(),
        {
            let ghost pre = self.table@;
            let ghost khead = kept@;
            proof {
                lemma_pop_entry(pre);
                assert(has_key(pre, pre.last().0)) by {
                    assert((pre[pre.len() - 1]).0 == pre.last().0);
                }
                lemma_key_count_absent(kept@, pre.last().0);
            }
            let p = self.table.pop().unwrap();
            proof {
                assert(self.table@ == pre.drop_last());
            }
            let ghost pk = p.0;
            let hit = p.0 == x;
            proof {
                lemma_eq_decides_spec_eq(p.0, x, hit);
            }
            if !hit {
                proof {
                    assert forall|i: int| 0 <= i < kept@.len() implies (#[trigger] kept@[i]).0
                        != pk by {
                        assert(has_key(kept@, kept@[i].0));
                    }
                    lemma_push_entry(khead, p);
                }
                kept.push(p);
            }
            proof {
                assert forall|y: T| !(has_key(kept@, y) && has_key(self.table@, y)) by {
                    if has_key(kept@, y) && has_key(self.table@, y) {
                        assert(has_key(khead, y) || y == pk);
                        assert(has_key(pre, y));
                        assert(y != pre.last().0);
                        assert(!(has_key(khead, y) && has_key(pre, y)));
                    }
                }
            }
        }
        if c > 0 {
            proof {
                lemma_push_entry(kept@, (x, c));
            }
            kept.push((x, c));
        } else {
            proof {
                lemma_key_count_absent(kept@, x);
            }
        }
        self.table = kept;
    }

    /// Lower the count recorded for `x` by `amount`, removing the entry when the
    /// stored count does not exceed `amount`. Every other element keeps its count.
    #[verifier::loop_isolation(false)]
    pub fn reduce(&mut self, x: &T, amount: usize)
        requires
            obeys_concrete_eq::<T>(),
            old(self).wf(),
        ensures
            final(self).wf(),
            final(self).count(*x) == clamped_sub(old(self).count(*x) as int, amount as int),
            forall|y: T| y != *x ==> final(self).count(y) == old(self).count(y),
    {
        let ghost orig = old(self).table@;
        let ghost target = clamped_sub(old(self).count(*x) as int, amount as int);
        proof {
            if !has_key(orig, *x) {
                lemma_key_count_absent(orig, *x);
            }
        }
        let mut kept: Vec<(T, usize)> = Vec::new();
        while self.table.len() > 0
            invariant
                obeys_concrete_eq::<T>(),
                distinct_keys(self.table@),
                positive_counts(self.table@),
                distinct_keys(kept@),
                positive_counts(kept@),
                forall|y: T| !(has_key(kept@, y) && has_key(self.table@, y)),
                forall|y: T|
                    y != *x ==> key_count(kept@, y) + key_count(self.table@, y) == key_count(
                        orig,
                        y,
                    ),
                has_key(self.table@, *x) ==> key_count(self.table@, *x) == key_count(orig, *x)
                    && !has_key(kept@, *x),
                !has_key(self.table@, *x) ==> key_count(kept@, *x) == target,
            decreases self.table@.len(),
        {
            let ghost pre = self.table@;
            let ghost khead = kept@;
            proof {
                lemma_pop_entry(pre);
                assert(has_key(pre, pre.last().0)) by {
                    assert((pre[pre.len() - 1]).0 == pre.last().0);
                }
                lemma_key_count_absent(kept@, pre.last().0);
                if has_key(pre, *x) {
                    lemma_key_count_absent(kept@, *x);
                }
            }
            let p = self.table.pop().unwrap();
            proof {
                assert(self.table@ == pre.drop_last());
            }
            let ghost pk = p.0;
            let ghost pv = p.1;
            let hit = p.0 == *x;
            proof {
                lemma_eq_decides_spec_eq(p.0, *x, hit);
                assert forall|i: int| 0 <= i < kept@.len() implies (#[trigger] kept@[i]).0
                    != pk by {
                    assert(has_key(kept@, kept@[i].0));
                }
            }
            if hit {
                if p.1 > amount {
                    let (k, v) = p;
                    proof {
                        lemma_push_entry(khead, (k, (v - amount) as usize));
                    }
                    kept.push((k, v - amount));
                }
            } else {
                proof {
                    lemma_push_entry(khead, p);
                }
                kept.push(p);
            }
            proof {
                assert forall|y: T| !(has_key(kept@, y) && has_key(self.table@, y)) by {
                    if has_key(kept@, y) && has_key(self.table@, y) {
                        assert(has_key(khead, y) || y == pk);
                        assert(has_key(pre, y));
                        assert(y != pre.last().0);
                        assert(!(has_key(khead, y) && has_key(pre, y)));
                    }
                }
                if !has_key(self.table@, *x) {
                    if hit {
                        assert(pv == key_count(orig, *x));
                        if pv > amount {
                            assert(key_count(kept@, *x) == pv - amount);
                        } else {
                            assert(key_count(kept@, *x) == 0);
                        }
                    } else {
                        assert(!has_key(pre, *x));
                        assert(key_count(kept@, *x) == key_count(khead, *x));
                    }
                    assert(key_count(kept@, *x) == target);
                }
            }
        }
        self.table = kept;
    }

    /// Add one occurrence of every element of `items`, consuming the vector:
    /// each element's count rises by the number of times the element occurs
    /// in `items`, and an element absent from `items` keeps its count.
    #[verifier::loop_isolation(false)]
    pub fn update(&mut self, items: Vec<T>)
        requires
            obeys_concrete_eq::<T>(),
            old(self).wf(),
            forall|y: T| old(self).count(y) + occurrences(items@, y) <= usize::MAX,
        ensures
            final(self).wf(),
            forall|y: T| final(self).count(y) == old(self).count(y) + occurrences(items@, y),
    {
        let ghost all = items@;
        let mut items = items;
        while items.len() > 0
            invariant
                self.wf(),
                forall|y: T|
                    self.count(y) + occurrences(items@, y) == old(self).count(y) + occurrences(
                        all,
                        y,
                    ),
            decreases items@.len(),
        {
            let ghost pre = items@;
            let x = items.pop().unwrap();
            proof {
                assert(items@ == pre.drop_last());
            }
            let c = self.get_count(&x);
            proof {
                assert(pre.last() == x);
                assert(occurrences(pre, x) == occurrences(items@, x) + 1);
                assert(c + occurrences(pre, x) == old(self).count(x) + occurrences(all, x));
            }
            self.set_count(x, c + 1);
        }
    }

    /// Create a `Counter` populated by counting every element of `items`:
    /// each element's count is the number of times it occurs in `items`.
    pub fn init(items: Vec<T>) -> (r: Counter<T>)
        requires
            obeys_concrete_eq::<T>(),
        ensures
            r.wf(),
            forall|y: T| r.count(y) == occurrences(items@, y),
    {
        let mut r = Counter::new();
        proof {
            assert(items@.len() == items.len());
            assert forall|y: T| r.count(y) + occurrences(items@, y) <= usize::MAX by {
                lemma_occurrences_le_len(items@, y);
            }
        }
        r.update(items);
        r
    }

    /// Remove one occurrence of every element of `items`: each element's
    /// count falls by the number of times the element occurs in `items`,
    /// clamped at `0`. An entry driven to `0` is removed, and an element that
    /// is absent stays absent (no entry is created).
    #[verifier::loop_isolation(false)]
    pub fn subtract(&mut self, items: &Vec<T>)
        requires
            obeys_concrete_eq::<T>(),
            old(self).wf(),
        ensures
            final(self).wf(),
            forall|y: T|
                final(self).count(y) == clamped_sub(
                    old(self).count(y) as int,
                    occurrences(items@, y) as int,
                ),
    {
        let n = items.len();
        let mut i: usize = 0;
        while i < n
            invariant
                0 <= i <= n,
                self.wf(),
                forall|y: T|
                    self.count(y) == clamped_sub(
                        old(self).count(y) as int,
                        occurrences(items@.take(i as int), y) as int,
                    ),
            decreases n - i,
        {
            self.reduce(&items[i], 1);
            proof {
                assert(items@.take(i as int + 1).drop_last() =~= items@.take(i as int));
                assert(items@.take(i as int + 1).last() == items@[i as int]);
            }
            i = i + 1;
        }
        proof {
            assert(items@.take(n as int) =~= items@);
        }
    }

    /// The sum of two counters, consuming both: in `c.sum(d)`, each
    /// element's count is its count in `c` plus its count in `d`, so every
    /// element present in either operand is present in the result.
    #[verifier::loop_isolation(false)]
    pub fn sum(self, other: Counter<T>) -> (r: Counter<T>)
        requires
            obeys_concrete_eq::<T>(),
            self.wf(),
            other.wf(),
            forall|y: T| self.count(y) + other.count(y) <= usize::MAX,
        ensures
            r.wf(),
            forall|y: T| r.count(y) == self.count(y) + other.count(y),
    {
        let ghost lhs = self;
        let ghost rhs = other;
        let mut r = self;
        let Counter { table: mut rest } = other;
        while rest.len() > 0
            invariant
                r.wf(),
                distinct_keys(rest@),
                positive_counts(rest@),
                forall|y: T| r.count(y) + key_count(rest@, y) == lhs.count(y) + rhs.count(y),
            decreases rest@.len(),
        {
            let ghost pre = rest@;
            proof {
                lemma_pop_entry(pre);
            }
            let p = rest.pop().unwrap();
            proof {
                assert(rest@ == pre.drop_last());
            }
            let (k, v) = p;
            let c0 = r.get_count(&k);
            r.set_count(k, c0 + v);
        }
        r
    }

    /// The clamped difference of two counters, consuming both: in
    /// `c.difference(d)`, an element keeps `count in c - count in d` when
    /// that is positive, and is otherwise absent from the result.
    #[verifier::loop_isolation(false)]
    pub fn difference(self, other: Counter<T>) -> (r: Counter<T>)
        requires
            obeys_concrete_eq::<T>(),
            self.wf(),
            other.wf(),
        ensures
            r.wf(),
            forall|y: T|
                r.count(y) == clamped_sub(self.count(y) as int, other.count(y) as int),
    {
        let ghost lhs = self;
        let ghost rhs = other;
        proof {
            assert forall|y: T| !has_key(rhs.table@, y) implies rhs.count(y) == 0 by {
                lemma_key_count_absent(rhs.table@, y);
            }
        }
        let mut r = self;
        let Counter { table: mut rest } = other;
        while rest.len() > 0
            invariant
                r.wf(),
                distinct_keys(rest@),
                positive_counts(rest@),
                forall|y: T|
                    has_key(rest@, y) ==> key_count(rest@, y) == rhs.count(y) && r.count(y)
                        == lhs.count(y),
                forall|y: T|
                    !has_key(rest@, y) ==> r.count(y) == clamped_sub(
                        lhs.count(y) as int,
                        rhs.count(y) as int,
                    ),
            decreases rest@.len(),
        {
            let ghost pre = rest@;
            proof {
                lemma_pop_entry(pre);
                assert(has_key(pre, pre.last().0)) by {
                    assert((pre[pre.len() - 1]).0 == pre.last().0);
                }
            }
            let p = rest.pop().unwrap();
            proof {
                assert(rest@ == pre.drop_last());
            }
            let (k, v) = p;
            r.reduce(&k, v);
        }
        r
    }

    /// The intersection of two counters, consuming both: in
    /// `c.intersect(d)`, an element present in both operands has the smaller
    /// of the two counts, and every other element is absent from the result.
    #[verifier::loop_isolation(false)]
    pub fn intersect(self, other: Counter<T>) -> (r: Counter<T>)
        requires
            obeys_concrete_eq::<T>(),
            self.wf(),
            other.wf(),
        ensures
            r.wf(),
            forall|y: T| r.count(y) == min_of(self.count(y) as int, other.count(y) as int),
    {
        let ghost lhs = self;
        proof {
            assert forall|y: T| !has_key(lhs.table@, y) implies lhs.count(y) == 0 by {
                lemma_key_count_absent(lhs.table@, y);
            }
        }
        let Counter { table: mut rest } = self;
        let mut r = Counter::new();
        while rest.len() > 0
            invariant
                r.wf(),
                other.wf(),
                distinct_keys(rest@),
                positive_counts(rest@),
                forall|y: T|
                    has_key(rest@, y) ==> key_count(rest@, y) == lhs.count(y) && r.count(y) == 0,
                forall|y: T|
                    !has_key(rest@, y) ==> r.count(y) == min_of(
                        lhs.count(y) as int,
                        other.count(y) as int,
                    ),
            decreases rest@.len(),
        {
            let ghost pre = rest@;
            proof {
                lemma_pop_entry(pre);
                assert(has_key(pre, pre.last().0)) by {
                    assert((pre[pre.len() - 1]).0 == pre.last().0);
                }
            }
            let p = rest.pop().unwrap();
            proof {
                assert(rest@ == pre.drop_last());
            }
            let (k, v) = p;
            let d = other.get_count(&k);
            let m = if v <= d {
                v
            } else {
                d
            };
            r.set_count(k, m);
        }
        r
    }

    /// The union of two counters, consuming both: in `c.union(d)`, each
    /// element present in either operand has the larger of its two counts,
    /// so an element present in only one operand keeps its count unchanged.
    #[verifier::loop_isolation(false)]
    pub fn union(self, other: Counter<T>) -> (r: Counter<T>)
        requires
            obeys_concrete_eq::<T>(),
            self.wf(),
            other.wf(),
        ensures
            r.wf(),
            forall|y: T| r.count(y) == max_of(self.count(y) as int, other.count(y) as int),
    {
        let ghost lhs = self;
        let ghost rhs = other;
        proof {
            assert forall|y: T| !has_key(rhs.table@, y) implies rhs.count(y) == 0 by {
                lemma_key_count_absent(rhs.table@, y);
            }
        }
        let mut r = self;
        let Counter { table: mut rest } = other;
        while rest.len() > 0
            invariant
                r.wf(),
                distinct_keys(rest@),
                positive_counts(rest@),
                forall|y: T|
                    has_key(rest@, y) ==> key_count(rest@, y) == rhs.count(y) && r.count(y)
                        == lhs.count(y),
                forall|y: T|
                    !has_key(rest@, y) ==> r.count(y) == max_of(
                        lhs.count(y) as int,
                        rhs.count(y) as int,
                    ),
            decreases rest@.len(),
        {
            let ghost pre = rest@;
            proof {
                lemma_pop_entry(pre);
                assert(has_key(pre, pre.last().0)) by {
                    assert((pre[pre.len() - 1]).0 == pre.last().0);
                }
            }
            let p = rest.pop().unwrap();
            proof {
                assert(rest@ == pre.drop_last());
            }
            let (k, v) = p;
            let c0 = r.get_count(&k);
            let m = if c0 >= v {
                c0
            } else {
                v
            };
            r.set_count(k, m);
        }
        r
    }

    /// The set of elements that are present, that is, have a positive count.
    pub open spec fn elements(&self) -> Set<T> {
        Set::new(|x: T| self.count(x) > 0)
    }

    /// The count recorded for `x`: `Some` count when `x` is present, `None`
    /// when it is absent.
    pub fn get(&self, x: &T) -> (r: Option<usize>)
        requires
            obeys_concrete_eq::<T>(),
            self.wf(),
        ensures
            r == if self.count(*x) > 0 {
                Some(self.count(*x))
            } else {
                None::<usize>
            },
    {
        let c = self.get_count(x);
        if c > 0 {
            Some(c)
        } else {
            None
        }
    }

    /// Whether `x` is present, that is, has a positive count.
    pub fn contains(&self, x: &T) -> (r: bool)
        requires
            obeys_concrete_eq::<T>(),
            self.wf(),
        ensures
            r <==> self.count(*x) > 0,
    {
        self.get_count(x) > 0
    }

    /// The stored entries are in bijection with the present elements: there
    /// are as many entries as elements with a positive count.
    proof fn lemma_len_is_elements_len(&self)
        requires
            self.wf(),
        ensures
            self.table@.len() == self.elements().len(),
    {
        let keys = self.table@.map_values(|p: (T, usize)| p.0);
        assert(keys.no_duplicates());
        keys.unique_seq_to_set();
        assert forall|y: T| keys.to_set().contains(y) implies self.elements().contains(y) by {
            let i = choose|i: int| 0 <= i < keys.len() && keys[i] == y;
            lemma_key_count_at(self.table@, i);
        }
        assert forall|y: T| self.elements().contains(y) implies keys.to_set().contains(y) by {
            lemma_key_count_positive_has_key(self.table@, y);
            let i = choose|i: int| 0 <= i < self.table@.len() && (#[trigger] self.table@[i]).0
                == y;
            assert(keys[i] == y);
            assert(keys.contains(y));
        }
        assert(self.elements() =~= keys.to_set());
    }

    /// The number of distinct elements present.
    pub fn len(&self) -> (r: usize)
        requires
            self.wf(),
        ensures
            r == self.elements().len(),
    {
        proof {
            self.lemma_len_is_elements_len();
        }
        self.table.len()
    }

    /// List every entry as an `(element, count)` pair, in no particular
    /// order: each present element appears exactly once, with its count.
    #[verifier::loop_isolation(false)]
    pub fn entries(&self) -> (r: Vec<(&T, usize)>)
        requires
            self.wf(),
        ensures
            r@.len() == self.elements().len(),
            forall|i: int|
                0 <= i < r@.len() ==> self.count(*(#[trigger] r@[i]).0) == r@[i].1 && r@[i].1 > 0,
            forall|i: int, j: int|
                0 <= i < j < r@.len() ==> *(#[trigger] r@[i]).0 != *(#[trigger] r@[j]).0,
            forall|y: T|
                self.count(y) > 0 ==> exists|i: int|
                    0 <= i < r@.len() && *(#[trigger] r@[i]).0 == y,
    {
        let mut r: Vec<(&T, usize)> = Vec::new();
        let n = self.table.len();
        let mut i: usize = 0;
        while i < n
            invariant
                0 <= i <= n,
                r@.len() == i,
                forall|t: int|
                    #![trigger r@[t]]
                    0 <= t < i ==> *r@[t].0 == self.table@[t].0 && r@[t].1 == self.table@[t].1,
            decreases n - i,
        {
            r.push((&self.table[i].0, self.table[i].1));
            i = i + 1;
        }
        proof {
            self.lemma_len_is_elements_len();
            assert forall|i2: int|
                0 <= i2 < r@.len() implies self.count(*(#[trigger] r@[i2]).0) == r@[i2].1
                && r@[i2].1 > 0 by {
                lemma_key_count_at(self.table@, i2);
            }
            assert forall|y: T| self.count(y) > 0 implies exists|i2: int|
                0 <= i2 < r@.len() && *(#[trigger] r@[i2]).0 == y by {
                lemma_key_count_positive_has_key(self.table@, y);
                let i2 = choose|i2: int|
                    0 <= i2 < self.table@.len() && (#[trigger] self.table@[i2]).0 == y;
                assert(*r@[i2].0 == y);
            }
        }
        r
    }

    /// Whether the counter is empty, that is, every element has count `0`.
    pub fn is_empty(&self) -> (r: bool)
        requires
            self.wf(),
        ensures
            r <==> forall|y: T| self.count(y) == 0,
    {
        let e = self.table.is_empty();
        proof {
            if e {
                assert forall|y: T| self.count(y) == 0 by {
                    lemma_key_count_absent(self.table@, y);
                }
            } else {
                lemma_key_count_at(self.table@, 0);
                assert(self.count(self.table@[0].0) > 0);
            }
        }
        e
    }

    /// Remove `x` entirely, whatever its count, returning the prior count
    /// when `x` was present. Every other element keeps its count.
    pub fn remove(&mut self, x: &T) -> (r: Option<usize>)
        requires
            obeys_concrete_eq::<T>(),
            old(self).wf(),
        ensures
            final(self).wf(),
            final(self).count(*x) == 0,
            forall|y: T| y != *x ==> final(self).count(y) == old(self).count(y),
            r == if old(self).count(*x) > 0 {
                Some(old(self).count(*x))
            } else {
                None::<usize>
            },
    {
        let c = self.get_count(x);
        self.reduce(x, c);
        if c > 0 {
            Some(c)
        } else {
            None
        }
    }

    /// The sequence that `most_common` returns: the stored entries arranged
    /// from highest count to lowest, entries with equal counts keeping their
    /// stored relative order.
    pub closed spec fn most_common_spec(&self) -> Seq<(T, usize)> {
        most_common_seq(self.table@)
    }

    /// List every entry as an `(element, count)` pair, ordered from highest
    /// count to lowest. The relative order of entries with equal counts is
    /// unspecified. The result is a snapshot: it borrows the elements, covers
    /// each present element exactly once with its current count, and a later
    /// call on the unmutated counter returns the same sequence again.
    #[verifier::loop_isolation(false)]
    pub fn most_common(&self) -> (r: Vec<(&T, usize)>)
        requires
            self.wf(),
        ensures
            r@.len() == self.elements().len(),
            r@.len() == self.most_common_spec().len(),
            forall|i: int|
                #![trigger r@[i]]
                0 <= i < r@.len() ==> (*r@[i].0, r@[i].1) == self.most_common_spec()[i],
            forall|i: int, j: int|
                0 <= i <= j < r@.len() ==> (#[trigger] r@[i]).1 >= (#[trigger] r@[j]).1,
            forall|i: int|
                0 <= i < r@.len() ==> self.count(*(#[trigger] r@[i]).0) == r@[i].1 && r@[i].1 > 0,
            forall|i: int, j: int|
                0 <= i < j < r@.len() ==> *(#[trigger] r@[i]).0 != *(#[trigger] r@[j]).0,
            forall|y: T|
                self.count(y) > 0 ==> exists|i: int|
                    0 <= i < r@.len() && *(#[trigger] r@[i]).0 == y,
    {
        let mut r: Vec<(&T, usize)> = Vec::new();
        let n = self.table.len();
        let mut i: usize = 0;
        while i < n
            invariant
                0 <= i <= n,
                r@.len() == most_common_seq(self.table@.take(i as int)).len(),
                forall|t: int|
                    #![trigger r@[t]]
                    0 <= t < r@.len() ==> (*r@[t].0, r@[t].1) == most_common_seq(
                        self.table@.take(i as int),
                    )[t],
            decreases n - i,
        {
            let ghost spec_r = most_common_seq(self.table@.take(i as int));
            let x: &T = &self.table[i].0;
            let c: usize = self.table[i].1;
            let mut j: usize = 0;
            while j < r.len() && r[j].1 >= c
                invariant
                    0 <= j <= r@.len(),
                    forall|t: int| 0 <= t < j ==> (#[trigger] r@[t]).1 >= c,
                decreases r@.len() - j,
            {
                j = j + 1;
            }
            let ghost rpre = r@;
            proof {
                assert forall|t: int| 0 <= t < j implies (#[trigger] spec_r[t]).1 >= c by {
                    assert((*r@[t].0, r@[t].1) == spec_r[t]);
                }
                if (j as int) < spec_r.len() {
                    assert((*r@[j as int].0, r@[j as int].1) == spec_r[j as int]);
                }
                lemma_insert_pos_unique(spec_r, c, j as int);
                spec_r.insert_ensures(j as int, (self.table@[i as int].0, c));
                rpre.insert_ensures(j as int, (&self.table@[i as int].0, c));
                assert(self.table@.take(i as int + 1).drop_last() =~= self.table@.take(i as int));
                assert(self.table@.take(i as int + 1).last() == self.table@[i as int]);
            }
            r.insert(j, (x, c));
            i = i + 1;
            proof {
                let tk = self.table@.take(i as int);
                assert(most_common_seq(tk) == insert_desc(spec_r, self.table@[i - 1]));
                assert forall|t: int|
                    #![trigger r@[t]]
                    0 <= t < r@.len() implies (*r@[t].0, r@[t].1) == most_common_seq(tk)[t] by {
                    if t < j {
                        assert(r@[t] == rpre[t]);
                    } else if t > j {
                        assert(r@[t] == rpre[t - 1]);
                    }
                }
            }
        }
        proof {
            assert(self.table@.take(n as int) =~= self.table@);
            lemma_most_common_seq_entries(self.table@);
            self.lemma_len_is_elements_len();
            let m = most_common_seq(self.table@);
            assert forall|i: int|
                0 <= i < r@.len() implies self.count(*(#[trigger] r@[i]).0) == r@[i].1 && r@[i].1
                > 0 by {
                assert((*r@[i].0, r@[i].1) == m[i]);
                assert(m.contains(m[i]));
                assert(self.table@.contains(m[i]));
                let t = choose|t: int| 0 <= t < self.table@.len() && self.table@[t] == m[i];
                lemma_key_count_at(self.table@, t);
            }
            assert forall|y: T| self.count(y) > 0 implies exists|i: int|
                0 <= i < r@.len() && *(#[trigger] r@[i]).0 == y by {
                lemma_key_count_positive_has_key(self.table@, y);
                assert(has_key(m, y));
                let i = choose|i: int| 0 <= i < m.len() && (#[trigger] m[i]).0 == y;
                assert(*r@[i].0 == y);
            }
            assert forall|i: int, j: int| 0 <= i < j < r@.len() implies *(#[trigger] r@[i]).0 != *(
            #[trigger] r@[j]).0 by {
                assert((*r@[i].0, r@[i].1) == m[i]);
                assert((*r@[j].0, r@[j].1) == m[j]);
            }
        }
        r
    }
}

} // verus!
