//! Successor counts as sequences, and the weight tables derived from them.
//!
//! A tally is a sequence of (symbol, count) pairs in the order in which the
//! symbols were first seen. Its weight table lists the pairs ascending by
//! count, pairs of equal count in first-seen order, each with the running sum
//! of the counts up to and including it. A running sum over the tally's total
//! is the cumulative fraction of that entry; both stay integers here, so the
//! last fraction is exactly one.

use crate::token::{Symbol, Token};
use vstd::prelude::*;

verus! {

/// The values of a vector of (token, count) pairs.
pub open spec fn entries(pairs: Seq<(Token, i32)>) -> Seq<(Symbol, int)> {
    pairs.map_values(|e: (Token, i32)| (e.0@, e.1 as int))
}

/// The sum of the counts of a tally.
pub open spec fn sum_counts(tally: Seq<(Symbol, int)>) -> int
    decreases tally.len(),
{
    if tally.len() == 0 {
        0
    } else {
        sum_counts(tally.drop_last()) + tally.last().1
    }
}

/// The index of the first pair whose key is `key`, if there is one.
pub open spec fn index_of<V>(pairs: Seq<(Symbol, V)>, key: Symbol) -> Option<int>
    decreases pairs.len(),
{
    if pairs.len() == 0 {
        None
    } else {
        match index_of(pairs.drop_last(), key) {
            Some(i) => Some(i),
            None => if pairs.last().0 == key {
                Some(pairs.len() - 1)
            } else {
                None
            },
        }
    }
}

/// Whether no key occurs twice.
pub open spec fn distinct_keys<V>(pairs: Seq<(Symbol, V)>) -> bool {
    forall|i: int, j: int|
        0 <= i < j < pairs.len() ==> (#[trigger] pairs[i]).0 != (#[trigger] pairs[j]).0
}

/// Whether every count is at least one.
pub open spec fn positive_counts(tally: Seq<(Symbol, int)>) -> bool {
    forall|i: int| 0 <= i < tally.len() ==> (#[trigger] tally[i]).1 >= 1
}

/// The count recorded for `key`, zero where it has none.
pub open spec fn count_of(tally: Seq<(Symbol, int)>, key: Symbol) -> int {
    match index_of(tally, key) {
        Some(i) => tally[i].1,
        None => 0,
    }
}

/// The tally after one more observation of `key`: its count grows by one, or
/// it joins at the end with count one.
pub open spec fn linked(tally: Seq<(Symbol, int)>, key: Symbol) -> Seq<(Symbol, int)> {
    match index_of(tally, key) {
        Some(i) => tally.update(i, (key, tally[i].1 + 1)),
        None => tally.push((key, 1)),
    }
}

/// What is left of a count after taking `amount` from it, never below zero.
pub open spec fn reduced(count: int, amount: int) -> int {
    if count - amount > 0 {
        count - amount
    } else {
        0
    }
}

/// The tally after taking `amount` from the count of `key`: the pair leaves
/// where nothing is left of the count. A tally without `key` is unchanged.
pub open spec fn unlinked(tally: Seq<(Symbol, int)>, key: Symbol, amount: int) -> Seq<
    (Symbol, int),
> {
    match index_of(tally, key) {
        Some(i) => if reduced(tally[i].1, amount) == 0 {
            tally.remove(i)
        } else {
            tally.update(i, (key, reduced(tally[i].1, amount)))
        },
        None => tally,
    }
}

/// `sorted` with `entry` placed behind the last pair whose count is not
/// larger.
pub open spec fn insert_by_count(sorted: Seq<(Symbol, int)>, entry: (Symbol, int)) -> Seq<
    (Symbol, int),
>
    decreases sorted.len(),
{
    if sorted.len() == 0 {
        seq![entry]
    } else if sorted.last().1 <= entry.1 {
        sorted.push(entry)
    } else {
        insert_by_count(sorted.drop_last(), entry).push(sorted.last())
    }
}

/// The pairs of a tally ascending by count, pairs of equal count in the
/// order they have in the tally.
pub open spec fn sorted_by_count(tally: Seq<(Symbol, int)>) -> Seq<(Symbol, int)>
    decreases tally.len(),
{
    if tally.len() == 0 {
        Seq::empty()
    } else {
        insert_by_count(sorted_by_count(tally.drop_last()), tally.last())
    }
}

/// Each pair of `tally` with the sum of the counts up to and including it.
pub open spec fn running_sums(tally: Seq<(Symbol, int)>) -> Seq<(Symbol, int)>
    decreases tally.len(),
{
    if tally.len() == 0 {
        Seq::empty()
    } else {
        running_sums(tally.drop_last()).push((tally.last().0, sum_counts(tally)))
    }
}

/// The standalone weights of a tally: its pairs ascending by count. A count
/// over the tally's total is the probability of that successor.
pub open spec fn standalone_weights(tally: Seq<(Symbol, int)>) -> Seq<(Symbol, int)> {
    sorted_by_count(tally)
}

/// The cumulative weights of a tally: its pairs ascending by count, each
/// with the running sum in place of the count.
pub open spec fn cumulative_weights(tally: Seq<(Symbol, int)>) -> Seq<(Symbol, int)> {
    running_sums(sorted_by_count(tally))
}

/// Whether the counts never fall from one pair to the next.
pub open spec fn ascending(pairs: Seq<(Symbol, int)>) -> bool {
    forall|i: int, j: int| 0 <= i <= j < pairs.len() ==> pairs[i].1 <= pairs[j].1
}

/// `index_of` finds the first pair with the key, and finds none only where
/// there is none.
pub proof fn lemma_index_of<V>(pairs: Seq<(Symbol, V)>, key: Symbol)
    ensures
        match index_of(pairs, key) {
            Some(i) => 0 <= i < pairs.len() && pairs[i].0 == key && forall|j: int|
                0 <= j < i ==> (#[trigger] pairs[j]).0 != key,
            None => forall|j: int| 0 <= j < pairs.len() ==> (#[trigger] pairs[j]).0 != key,
        },
    decreases pairs.len(),
{
    if pairs.len() > 0 {
        let init = pairs.drop_last();
        lemma_index_of(init, key);
        assert forall|j: int| 0 <= j < init.len() implies init[j] == pairs[j] by {}
    }
}

/// A pair with the key, with no such pair before it, is the one that
/// `index_of` finds.
pub proof fn lemma_index_of_is<V>(pairs: Seq<(Symbol, V)>, key: Symbol, i: int)
    requires
        0 <= i < pairs.len(),
        pairs[i].0 == key,
        forall|j: int| 0 <= j < i ==> (#[trigger] pairs[j]).0 != key,
    ensures
        index_of(pairs, key) == Some(i),
{
    lemma_index_of(pairs, key);
    match index_of(pairs, key) {
        Some(found) => {
            if found < i {
                assert(pairs[found].0 != key);
            } else if i < found {
                assert(pairs[i].0 == key);
            }
        },
        None => {
            assert(pairs[i].0 == key);
        },
    }
}

/// A key that no pair has is found nowhere.
pub proof fn lemma_index_of_none<V>(pairs: Seq<(Symbol, V)>, key: Symbol)
    requires
        forall|j: int| 0 <= j < pairs.len() ==> (#[trigger] pairs[j]).0 != key,
    ensures
        index_of(pairs, key) is None,
{
    lemma_index_of(pairs, key);
    if let Some(found) = index_of(pairs, key) {
        assert(pairs[found].0 == key);
    }
}

/// Among distinct keys, each pair is the one found for its own key.
pub proof fn lemma_index_of_own<V>(pairs: Seq<(Symbol, V)>, i: int)
    requires
        distinct_keys(pairs),
        0 <= i < pairs.len(),
    ensures
        index_of(pairs, pairs[i].0) == Some(i),
{
    assert forall|j: int| 0 <= j < i implies (#[trigger] pairs[j]).0 != pairs[i].0 by {}
    lemma_index_of_is(pairs, pairs[i].0, i);
}

/// A pair added at the end adds its count to the sum.
pub proof fn lemma_sum_push(tally: Seq<(Symbol, int)>, entry: (Symbol, int))
    ensures
        sum_counts(tally.push(entry)) == sum_counts(tally) + entry.1,
{
    assert(tally.push(entry).drop_last() =~= tally);
}

/// Replacing a pair changes the sum by the difference of the two counts.
pub proof fn lemma_sum_update(tally: Seq<(Symbol, int)>, i: int, entry: (Symbol, int))
    requires
        0 <= i < tally.len(),
    ensures
        sum_counts(tally.update(i, entry)) == sum_counts(tally) - tally[i].1 + entry.1,
    decreases tally.len(),
{
    let after = tally.update(i, entry);
    if i == tally.len() - 1 {
        assert(after.drop_last() =~= tally.drop_last());
    } else {
        lemma_sum_update(tally.drop_last(), i, entry);
        assert(after.drop_last() =~= tally.drop_last().update(i, entry));
    }
}

/// Removing a pair takes its count from the sum.
pub proof fn lemma_sum_remove(tally: Seq<(Symbol, int)>, i: int)
    requires
        0 <= i < tally.len(),
    ensures
        sum_counts(tally.remove(i)) == sum_counts(tally) - tally[i].1,
    decreases tally.len(),
{
    let after = tally.remove(i);
    if i == tally.len() - 1 {
        assert(after =~= tally.drop_last());
    } else {
        lemma_sum_remove(tally.drop_last(), i);
        assert(after.drop_last() =~= tally.drop_last().remove(i));
        assert(after.last() == tally.last());
    }
}

/// Inserting a pair adds its count to the sum.
pub proof fn lemma_sum_insert(tally: Seq<(Symbol, int)>, i: int, entry: (Symbol, int))
    requires
        0 <= i <= tally.len(),
    ensures
        sum_counts(tally.insert(i, entry)) == sum_counts(tally) + entry.1,
    decreases tally.len(),
{
    let after = tally.insert(i, entry);
    if i == tally.len() {
        assert(after =~= tally.push(entry));
        lemma_sum_push(tally, entry);
    } else {
        lemma_sum_insert(tally.drop_last(), i, entry);
        assert(after.drop_last() =~= tally.drop_last().insert(i, entry));
        assert(after.last() == tally.last());
    }
}

/// Where no count is negative, the sum is not negative, no prefix sums to
/// more than the whole, and no count is larger than the sum.
pub proof fn lemma_sum_bounds(tally: Seq<(Symbol, int)>)
    requires
        forall|i: int| 0 <= i < tally.len() ==> (#[trigger] tally[i]).1 >= 0,
    ensures
        sum_counts(tally) >= 0,
        forall|k: int|
            0 <= k <= tally.len() ==> 0 <= sum_counts(#[trigger] tally.take(k)) <= sum_counts(
                tally,
            ),
        forall|i: int| 0 <= i < tally.len() ==> (#[trigger] tally[i]).1 <= sum_counts(tally),
    decreases tally.len(),
{
    if tally.len() == 0 {
        assert forall|k: int| 0 <= k <= tally.len() implies 0 <= sum_counts(
            #[trigger] tally.take(k),
        ) <= sum_counts(tally) by {
            assert(tally.take(k) =~= tally);
        }
    } else {
        let init = tally.drop_last();
        assert forall|i: int| 0 <= i < init.len() implies (#[trigger] init[i]).1 >= 0 by {
            assert(init[i] == tally[i]);
        }
        lemma_sum_bounds(init);
        assert forall|k: int| 0 <= k <= tally.len() implies 0 <= sum_counts(
            #[trigger] tally.take(k),
        ) <= sum_counts(tally) by {
            if k == tally.len() {
                assert(tally.take(k) =~= tally);
            } else {
                assert(tally.take(k) =~= init.take(k));
            }
        }
        assert forall|i: int| 0 <= i < tally.len() implies (#[trigger] tally[i]).1 <= sum_counts(
            tally,
        ) by {
            if i < init.len() {
                assert(init[i] == tally[i]);
            }
        }
    }
}

/// Where every count is at least one, the sum is at least the number of
/// pairs.
pub proof fn lemma_sum_at_least_len(tally: Seq<(Symbol, int)>)
    requires
        positive_counts(tally),
    ensures
        sum_counts(tally) >= tally.len(),
    decreases tally.len(),
{
    if tally.len() > 0 {
        let init = tally.drop_last();
        assert forall|i: int| 0 <= i < init.len() implies (#[trigger] init[i]).1 >= 1 by {
            assert(init[i] == tally[i]);
        }
        lemma_sum_at_least_len(init);
    }
}

/// The index at which `insert_by_count` places a pair with this count:
/// behind the last pair whose count is not larger.
pub open spec fn slot_for(sorted: Seq<(Symbol, int)>, count: int) -> int
    decreases sorted.len(),
{
    if sorted.len() == 0 {
        0
    } else if sorted.last().1 <= count {
        sorted.len() as int
    } else {
        slot_for(sorted.drop_last(), count)
    }
}

/// Every pair from the slot on has a larger count, and the pair before the
/// slot has none.
pub proof fn lemma_slot_for(sorted: Seq<(Symbol, int)>, count: int)
    ensures
        0 <= slot_for(sorted, count) <= sorted.len(),
        forall|j: int|
            slot_for(sorted, count) <= j < sorted.len() ==> (#[trigger] sorted[j]).1 > count,
        slot_for(sorted, count) > 0 ==> sorted[slot_for(sorted, count) - 1].1 <= count,
    decreases sorted.len(),
{
    if sorted.len() > 0 && sorted.last().1 > count {
        let init = sorted.drop_last();
        lemma_slot_for(init, count);
        assert forall|j: int| slot_for(sorted, count) <= j < sorted.len() implies (
        #[trigger] sorted[j]).1 > count by {
            if j < init.len() {
                assert(init[j] == sorted[j]);
            }
        }
        if slot_for(sorted, count) > 0 {
            assert(init[slot_for(sorted, count) - 1] == sorted[slot_for(sorted, count) - 1]);
        }
    }
}

/// An index behind which every count is larger, and before which the count
/// is not, is where `insert_by_count` places the pair.
pub proof fn lemma_insert_by_count_at(sorted: Seq<(Symbol, int)>, entry: (Symbol, int), p: int)
    requires
        0 <= p <= sorted.len(),
        forall|j: int| p <= j < sorted.len() ==> (#[trigger] sorted[j]).1 > entry.1,
        p > 0 ==> sorted[p - 1].1 <= entry.1,
    ensures
        insert_by_count(sorted, entry) == sorted.insert(p, entry),
        p == slot_for(sorted, entry.1),
    decreases sorted.len(),
{
    if sorted.len() == 0 {
        assert(seq![entry] =~= sorted.insert(p, entry));
    } else if p == sorted.len() {
        assert(sorted.push(entry) =~= sorted.insert(p, entry));
    } else {
        let init = sorted.drop_last();
        assert(sorted[sorted.len() - 1].1 > entry.1);
        assert forall|j: int| p <= j < init.len() implies (#[trigger] init[j]).1 > entry.1 by {
            assert(init[j] == sorted[j]);
        }
        if p > 0 {
            assert(init[p - 1] == sorted[p - 1]);
        }
        lemma_insert_by_count_at(init, entry, p);
        assert(init.insert(p, entry).push(sorted.last()) =~= sorted.insert(p, entry));
    }
}

/// `insert_by_count` inserts at the slot.
pub proof fn lemma_insert_by_count(sorted: Seq<(Symbol, int)>, entry: (Symbol, int))
    ensures
        insert_by_count(sorted, entry) == sorted.insert(slot_for(sorted, entry.1), entry),
{
    lemma_slot_for(sorted, entry.1);
    lemma_insert_by_count_at(sorted, entry, slot_for(sorted, entry.1));
}

/// Sorting keeps the pairs, each as often as it was there, so also their
/// number and the sum of their counts, and leaves the counts ascending.
pub proof fn lemma_sorted_by_count(tally: Seq<(Symbol, int)>)
    ensures
        sorted_by_count(tally).len() == tally.len(),
        sorted_by_count(tally).to_multiset() == tally.to_multiset(),
        sum_counts(sorted_by_count(tally)) == sum_counts(tally),
        ascending(sorted_by_count(tally)),
    decreases tally.len(),
{
    if tally.len() == 0 {
        assert(sorted_by_count(tally) =~= tally);
    } else {
        let init = tally.drop_last();
        let entry = tally.last();
        let before = sorted_by_count(init);
        let p = slot_for(before, entry.1);
        lemma_sorted_by_count(init);
        lemma_slot_for(before, entry.1);
        lemma_insert_by_count(before, entry);
        let after = before.insert(p, entry);
        vstd::seq_lib::to_multiset_insert(before, p, entry);
        assert(init.push(entry) =~= tally);
        vstd::seq_lib::to_multiset_build(init, entry);
        lemma_sum_insert(before, p, entry);
        assert forall|i: int, j: int| 0 <= i <= j < after.len() implies after[i].1
            <= after[j].1 by {
            if j < p {
                assert(after[i] == before[i] && after[j] == before[j]);
            } else if j == p {
                if i < p {
                    assert(after[i] == before[i]);
                    assert(before[i].1 <= before[p - 1].1);
                }
            } else {
                assert(after[j] == before[j - 1]);
                if i < p {
                    assert(after[i] == before[i]);
                } else if i > p {
                    assert(after[i] == before[i - 1]);
                }
            }
        }
    }
}

/// The running sums stand beside the same symbols, each is the sum of the
/// counts up to and including its place, and the last is the sum of all.
pub proof fn lemma_running_sums(tally: Seq<(Symbol, int)>)
    ensures
        running_sums(tally).len() == tally.len(),
        forall|k: int|
            0 <= k < tally.len() ==> (#[trigger] running_sums(tally)[k]) == (
                tally[k].0,
                sum_counts(tally.take(k + 1)),
            ),
        tally.len() > 0 ==> running_sums(tally).last().1 == sum_counts(tally),
    decreases tally.len(),
{
    if tally.len() > 0 {
        let init = tally.drop_last();
        lemma_running_sums(init);
        assert forall|k: int| 0 <= k < tally.len() implies (#[trigger] running_sums(tally)[k]) == (
            tally[k].0,
            sum_counts(tally.take(k + 1)),
        ) by {
            if k < init.len() {
                assert(running_sums(tally)[k] == running_sums(init)[k]);
                assert(init.take(k + 1) =~= tally.take(k + 1));
                assert(init[k] == tally[k]);
            } else {
                assert(tally.take(k + 1) =~= tally);
            }
        }
    }
}

/// Where no count is negative, the running sums never fall and none is
/// larger than the sum of all.
pub proof fn lemma_running_sums_ascend(tally: Seq<(Symbol, int)>)
    requires
        forall|i: int| 0 <= i < tally.len() ==> (#[trigger] tally[i]).1 >= 0,
    ensures
        ascending(running_sums(tally)),
        forall|k: int|
            0 <= k < tally.len() ==> 0 <= (#[trigger] running_sums(tally)[k]).1 <= sum_counts(
                tally,
            ),
    decreases tally.len(),
{
    lemma_running_sums(tally);
    lemma_sum_bounds(tally);
    if tally.len() > 0 {
        let init = tally.drop_last();
        assert forall|i: int| 0 <= i < init.len() implies (#[trigger] init[i]).1 >= 0 by {
            assert(init[i] == tally[i]);
        }
        lemma_running_sums_ascend(init);
        lemma_sum_bounds(init);
        let sums = running_sums(tally);
        assert forall|i: int, j: int| 0 <= i <= j < sums.len() implies sums[i].1 <= sums[j].1 by {
            if j < init.len() {
                assert(sums[i] == running_sums(init)[i]);
                assert(sums[j] == running_sums(init)[j]);
            } else if i < init.len() {
                assert(sums[i] == running_sums(init)[i]);
                assert(running_sums(init)[i].1 <= sum_counts(init));
            }
        }
    }
}

/// Sorting keeps the keys distinct and the counts positive.
pub proof fn lemma_sorted_keeps(tally: Seq<(Symbol, int)>)
    ensures
        distinct_keys(tally) ==> distinct_keys(sorted_by_count(tally)),
        positive_counts(tally) ==> positive_counts(sorted_by_count(tally)),
        forall|key: Symbol|
            index_of(tally, key) is None ==> index_of(sorted_by_count(tally), key) is None,
    decreases tally.len(),
{
    let sorted = sorted_by_count(tally);
    if tally.len() == 0 {
        assert forall|key: Symbol| index_of(tally, key) is None implies index_of(
            sorted,
            key,
        ) is None by {}
    } else {
        let init = tally.drop_last();
        let entry = tally.last();
        let before = sorted_by_count(init);
        let p = slot_for(before, entry.1);
        lemma_sorted_keeps(init);
        lemma_slot_for(before, entry.1);
        lemma_insert_by_count(before, entry);
        assert(sorted == before.insert(p, entry));
        assert forall|i: int| 0 <= i < init.len() implies init[i] == tally[i] by {}
        assert forall|key: Symbol| index_of(tally, key) is None implies index_of(
            sorted,
            key,
        ) is None by {
            lemma_index_of(tally, key);
            lemma_index_of(init, key);
            assert(tally[tally.len() - 1].0 != key);
            assert(index_of(before, key) is None);
            lemma_index_of(before, key);
            assert forall|j: int| 0 <= j < sorted.len() implies (#[trigger] sorted[j]).0 != key by {
                if j < p {
                    assert(sorted[j] == before[j]);
                } else if j > p {
                    assert(sorted[j] == before[j - 1]);
                }
            }
            lemma_index_of_none(sorted, key);
        }
        if positive_counts(tally) {
            assert forall|i: int| 0 <= i < init.len() implies (#[trigger] init[i]).1 >= 1 by {
                assert(init[i] == tally[i]);
            }
            assert forall|j: int| 0 <= j < sorted.len() implies (#[trigger] sorted[j]).1 >= 1 by {
                if j < p {
                    assert(sorted[j] == before[j]);
                } else if j > p {
                    assert(sorted[j] == before[j - 1]);
                } else {
                    assert(sorted[j] == tally[tally.len() - 1]);
                }
            }
        }
        if distinct_keys(tally) {
            assert forall|i: int, j: int| 0 <= i < j < init.len() implies (
            #[trigger] init[i]).0 != (#[trigger] init[j]).0 by {
                assert(init[i] == tally[i] && init[j] == tally[j]);
            }
            assert forall|j: int| 0 <= j < init.len() implies (#[trigger] init[j]).0 != entry.0 by {
                assert(init[j] == tally[j]);
            }
            lemma_index_of_none(init, entry.0);
            lemma_index_of(before, entry.0);
            assert forall|i: int, j: int| 0 <= i < j < sorted.len() implies (
            #[trigger] sorted[i]).0 != (#[trigger] sorted[j]).0 by {
                let a = if i < p { i } else { i - 1 };
                let b = if j < p { j } else { j - 1 };
                if i != p {
                    assert(sorted[i] == before[a]);
                }
                if j != p {
                    assert(sorted[j] == before[b]);
                }
                if i != p && j != p {
                    assert(before[a].0 != before[b].0);
                }
            }
        }
    }
}

/// The index of the first pair of `pairs` that holds `token`.
pub fn find(pairs: &Vec<(Token, i32)>, token: &Token) -> (found: Option<usize>)
    ensures
        match found {
            Some(i) => index_of(entries(pairs@), token@) == Some(i as int),
            None => index_of(entries(pairs@), token@) is None,
        },
{
    let mut i: usize = 0;
    while i < pairs.len()
        invariant
            i <= pairs.len(),
            forall|j: int| 0 <= j < i ==> (#[trigger] entries(pairs@)[j]).0 != token@,
        decreases pairs.len() - i,
    {
        if pairs[i].0 == *token {
            proof {
                lemma_index_of_is(entries(pairs@), token@, i as int);
            }
            return Some(i);
        }
        i += 1;
    }
    proof {
        lemma_index_of_none(entries(pairs@), token@);
    }
    None
}

/// The pairs ascending by count, pairs of equal count in the order given.
pub fn sort_by_count(pairs: &Vec<(Token, i32)>) -> (sorted: Vec<(Token, i32)>)
    ensures
        entries(sorted@) == sorted_by_count(entries(pairs@)),
{
    let mut sorted: Vec<(Token, i32)> = Vec::new();
    let mut k: usize = 0;
    assert(entries(pairs@).take(0) =~= Seq::empty());
    assert(entries(sorted@) =~= Seq::empty());
    while k < pairs.len()
        invariant
            k <= pairs.len(),
            entries(sorted@) == sorted_by_count(entries(pairs@).take(k as int)),
        decreases pairs.len() - k,
    {
        let count = pairs[k].1;
        let mut p: usize = sorted.len();
        while p > 0 && sorted[p - 1].1 > count
            invariant
                p <= sorted.len(),
                forall|j: int| p <= j < sorted.len() ==> (#[trigger] sorted@[j]).1 > count,
            decreases p,
        {
            p -= 1;
        }
        let entry = (pairs[k].0.clone(), count);
        let ghost before = entries(sorted@);
        let ghost value = (entry.0@, count as int);
        sorted.insert(p, entry);
        proof {
            assert forall|j: int| p <= j < before.len() implies (#[trigger] before[j]).1
                > value.1 by {}
            lemma_insert_by_count_at(before, value, p as int);
            assert(entries(sorted@) =~= before.insert(p as int, value));
            let prefix = entries(pairs@).take(k + 1);
            assert(prefix.drop_last() =~= entries(pairs@).take(k as int));
            assert(prefix.last() == value);
        }
        k += 1;
    }
    assert(entries(pairs@).take(pairs.len() as int) =~= entries(pairs@));
    sorted
}

/// Each pair with the sum of the counts up to and including it.
pub fn accumulate(pairs: &Vec<(Token, i32)>) -> (sums: Vec<(Token, i32)>)
    requires
        forall|i: int| 0 <= i < pairs.len() ==> (#[trigger] pairs@[i]).1 >= 0,
        sum_counts(entries(pairs@)) <= i32::MAX,
    ensures
        entries(sums@) == running_sums(entries(pairs@)),
{
    let mut sums: Vec<(Token, i32)> = Vec::new();
    let mut acc: i32 = 0;
    let mut k: usize = 0;
    assert(entries(pairs@).take(0) =~= Seq::empty());
    assert(entries(sums@) =~= Seq::empty());
    proof {
        assert forall|i: int| 0 <= i < entries(pairs@).len() implies (#[trigger] entries(
            pairs@,
        )[i]).1 >= 0 by {
            assert(pairs@[i].1 >= 0);
        }
        lemma_sum_bounds(entries(pairs@));
    }
    while k < pairs.len()
        invariant
            k <= pairs.len(),
            acc == sum_counts(entries(pairs@).take(k as int)),
            entries(sums@) == running_sums(entries(pairs@).take(k as int)),
            sum_counts(entries(pairs@)) <= i32::MAX,
            forall|n: int|
                0 <= n <= pairs.len() ==> 0 <= sum_counts(#[trigger] entries(pairs@).take(n))
                    <= sum_counts(entries(pairs@)),
        decreases pairs.len() - k,
    {
        let ghost prefix = entries(pairs@).take(k + 1);
        proof {
            assert(prefix.drop_last() =~= entries(pairs@).take(k as int));
            assert(prefix.last() == (pairs@[k as int].0@, pairs@[k as int].1 as int));
            assert(0 <= sum_counts(prefix) <= i32::MAX);
        }
        acc = acc + pairs[k].1;
        let ghost before = entries(sums@);
        sums.push((pairs[k].0.clone(), acc));
        proof {
            assert(entries(sums@) =~= before.push((pairs@[k as int].0@, acc as int)));
        }
        k += 1;
    }
    assert(entries(pairs@).take(pairs.len() as int) =~= entries(pairs@));
    sums
}

/// A part of a whole, both kept as integers: the exact form of a weight.
#[derive(Clone, Copy, Debug, PartialEq, Eq)]
pub struct Fraction {
    pub num: u128,
    pub den: u128,
}

/// The scale of a draw: a draw `d` stands for the number `d / DRAW_SCALE`,
/// which is at least zero and less than one.
pub const DRAW_SCALE: u64 = 0x1_0000_0000;

/// Whether a cumulative weight, as a fraction of `total`, is at least the
/// number that `draw` stands for.
pub open spec fn reaches(cumulative: int, total: int, draw: int) -> bool {
    draw * total <= cumulative * DRAW_SCALE
}

/// The index of the first cumulative weight that reaches the draw, if any
/// does.
pub open spec fn first_reaching(weights: Seq<(Symbol, int)>, total: int, draw: int) -> Option<int>
    decreases weights.len(),
{
    if weights.len() == 0 {
        None
    } else {
        match first_reaching(weights.drop_last(), total, draw) {
            Some(i) => Some(i),
            None => if reaches(weights.last().1, total, draw) {
                Some(weights.len() - 1)
            } else {
                None
            },
        }
    }
}

/// The successor that a draw picks from the weight table of `tally`: the
/// symbol of the first cumulative weight that reaches the draw.
pub open spec fn picked(tally: Seq<(Symbol, int)>, draw: int) -> Option<Symbol> {
    match first_reaching(cumulative_weights(tally), sum_counts(tally), draw) {
        Some(i) => Some(cumulative_weights(tally)[i].0),
        None => None,
    }
}

/// `first_reaching` finds the first weight that reaches the draw, and finds
/// none only where none does.
pub proof fn lemma_first_reaching(weights: Seq<(Symbol, int)>, total: int, draw: int)
    ensures
        match first_reaching(weights, total, draw) {
            Some(i) => 0 <= i < weights.len() && reaches(weights[i].1, total, draw) && forall|
                j: int,
            | 0 <= j < i ==> !reaches((#[trigger] weights[j]).1, total, draw),
            None => forall|j: int|
                0 <= j < weights.len() ==> !reaches((#[trigger] weights[j]).1, total, draw),
        },
    decreases weights.len(),
{
    if weights.len() > 0 {
        let init = weights.drop_last();
        lemma_first_reaching(init, total, draw);
        assert forall|j: int| 0 <= j < init.len() implies init[j] == weights[j] by {}
    }
}

/// A weight that reaches the draw, with none before it that does, is the one
/// that `first_reaching` finds.
pub proof fn lemma_first_reaching_is(weights: Seq<(Symbol, int)>, total: int, draw: int, i: int)
    requires
        0 <= i < weights.len(),
        reaches(weights[i].1, total, draw),
        forall|j: int| 0 <= j < i ==> !reaches((#[trigger] weights[j]).1, total, draw),
    ensures
        first_reaching(weights, total, draw) == Some(i),
{
    lemma_first_reaching(weights, total, draw);
    match first_reaching(weights, total, draw) {
        Some(found) => {
            if found < i {
                assert(!reaches(weights[found].1, total, draw));
            } else if i < found {
                assert(reaches(weights[i].1, total, draw));
            }
        },
        None => {
            assert(reaches(weights[i].1, total, draw));
        },
    }
}

/// Every draw picks a successor from a tally that has one: the last
/// cumulative weight is the whole, which every draw stays below.
pub proof fn lemma_picked_some(tally: Seq<(Symbol, int)>, draw: int)
    requires
        tally.len() > 0,
        positive_counts(tally),
        0 <= draw < DRAW_SCALE,
    ensures
        picked(tally, draw) is Some,
{
    let sorted = sorted_by_count(tally);
    let weights = cumulative_weights(tally);
    let total = sum_counts(tally);
    lemma_sorted_by_count(tally);
    lemma_running_sums(sorted);
    lemma_sum_at_least_len(tally);
    let last = weights.len() - 1;
    assert(weights[last].1 == total);
    assert(draw * total <= total * DRAW_SCALE) by (nonlinear_arith)
        requires
            0 <= draw < DRAW_SCALE,
            total >= 0,
    ;
    lemma_first_reaching(weights, total, draw);
    if first_reaching(weights, total, draw) is None {
        assert(!reaches(weights[last].1, total, draw));
    }
}

/// Inserting a pair moves the pairs behind it by one place and no other, so
/// a key other than its own is found one place later or where it was.
pub proof fn lemma_index_of_insert(
    pairs: Seq<(Symbol, int)>,
    p: int,
    entry: (Symbol, int),
    key: Symbol,
)
    requires
        0 <= p <= pairs.len(),
        key != entry.0,
    ensures
        index_of(pairs.insert(p, entry), key) == match index_of(pairs, key) {
            Some(q) => Some(
                if q < p {
                    q
                } else {
                    q + 1
                },
            ),
            None => None,
        },
{
    let after = pairs.insert(p, entry);
    lemma_index_of(pairs, key);
    match index_of(pairs, key) {
        Some(q) => {
            let at = if q < p { q } else { q + 1 };
            assert(after[at] == pairs[q]);
            assert forall|j: int| 0 <= j < at implies (#[trigger] after[j]).0 != key by {
                if j < p {
                    assert(after[j] == pairs[j]);
                } else if j > p {
                    assert(after[j] == pairs[j - 1]);
                }
            }
            lemma_index_of_is(after, key, at);
        },
        None => {
            assert forall|j: int| 0 <= j < after.len() implies (#[trigger] after[j]).0 != key by {
                if j < p {
                    assert(after[j] == pairs[j]);
                } else if j > p {
                    assert(after[j] == pairs[j - 1]);
                }
            }
            lemma_index_of_none(after, key);
        },
    }
}

/// Among distinct keys, sorting changes neither which keys are there nor the
/// count of any.
pub proof fn lemma_sorted_count_of(tally: Seq<(Symbol, int)>, key: Symbol)
    requires
        distinct_keys(tally),
    ensures
        index_of(sorted_by_count(tally), key) is Some <==> index_of(tally, key) is Some,
        count_of(sorted_by_count(tally), key) == count_of(tally, key),
    decreases tally.len(),
{
    let sorted = sorted_by_count(tally);
    if tally.len() > 0 {
        let init = tally.drop_last();
        let entry = tally.last();
        let before = sorted_by_count(init);
        let p = slot_for(before, entry.1);
        assert forall|i: int| 0 <= i < init.len() implies init[i] == tally[i] by {}
        assert forall|i: int, j: int| 0 <= i < j < init.len() implies (#[trigger] init[i]).0 != (
        #[trigger] init[j]).0 by {
            assert(init[i] == tally[i] && init[j] == tally[j]);
        }
        lemma_sorted_count_of(init, key);
        lemma_sorted_keeps(init);
        lemma_slot_for(before, entry.1);
        lemma_insert_by_count(before, entry);
        assert(sorted == before.insert(p, entry));
        lemma_index_of(init, key);
        lemma_index_of(before, key);
        if key == entry.0 {
            assert forall|j: int| 0 <= j < init.len() implies (#[trigger] init[j]).0 != key by {
                assert(init[j] == tally[j]);
            }
            lemma_index_of_none(init, key);
            assert forall|j: int| 0 <= j < p implies (#[trigger] sorted[j]).0 != key by {
                assert(sorted[j] == before[j]);
            }
            lemma_index_of_is(sorted, key, p);
            assert forall|j: int| 0 <= j < tally.len() - 1 implies (#[trigger] tally[j]).0
                != key by {
                assert(init[j] == tally[j]);
            }
            lemma_index_of_is(tally, key, tally.len() - 1);
        } else {
            match index_of(before, key) {
                Some(q) => {
                    let at = if q < p { q } else { q + 1 };
                    assert(sorted[at] == before[q]);
                    assert forall|j: int| 0 <= j < at implies (#[trigger] sorted[j]).0 != key by {
                        if j < p {
                            assert(sorted[j] == before[j]);
                        } else if j > p {
                            assert(sorted[j] == before[j - 1]);
                        }
                    }
                    lemma_index_of_is(sorted, key, at);
                },
                None => {
                    assert forall|j: int| 0 <= j < sorted.len() implies (#[trigger] sorted[j]).0
                        != key by {
                        if j < p {
                            assert(sorted[j] == before[j]);
                        } else if j > p {
                            assert(sorted[j] == before[j - 1]);
                        }
                    }
                    lemma_index_of_none(sorted, key);
                },
            }
            if let Some(i) = index_of(init, key) {
                assert(tally[i] == init[i]);
            }
        }
    }
}

/// Whether `parts` lists the pairs of `table` in order, each count as a
/// fraction of `total`.
pub open spec fn parts_of(
    parts: Seq<(Token, Fraction)>,
    table: Seq<(Symbol, int)>,
    total: int,
) -> bool {
    &&& parts.len() == table.len()
    &&& forall|i: int|
        0 <= i < parts.len() ==> (#[trigger] parts[i]).0@ == table[i].0 && parts[i].1.num
            == table[i].1 && parts[i].1.den == total
}

/// The pairs of `table`, each count as a fraction of `total`.
pub fn as_parts(table: &Vec<(Token, i32)>, total: i32) -> (parts: Vec<(Token, Fraction)>)
    requires
        total >= 0,
        forall|i: int| 0 <= i < table.len() ==> (#[trigger] table@[i]).1 >= 0,
    ensures
        parts_of(parts@, entries(table@), total as int),
{
    let mut parts: Vec<(Token, Fraction)> = Vec::new();
    let mut k: usize = 0;
    while k < table.len()
        invariant
            k <= table.len(),
            total >= 0,
            forall|i: int| 0 <= i < table.len() ==> (#[trigger] table@[i]).1 >= 0,
            parts@.len() == k,
            forall|i: int|
                0 <= i < k ==> (#[trigger] parts@[i]).0@ == table@[i].0@ && parts@[i].1.num
                    == table@[i].1 && parts@[i].1.den == total,
        decreases table.len() - k,
    {
        let part = Fraction { num: table[k].1 as u128, den: total as u128 };
        parts.push((table[k].0.clone(), part));
        k += 1;
    }
    parts
}

/// A copy of the pairs.
pub fn copy_pairs(pairs: &Vec<(Token, i32)>) -> (copy: Vec<(Token, i32)>)
    ensures
        entries(copy@) == entries(pairs@),
{
    let mut copy: Vec<(Token, i32)> = Vec::new();
    let mut k: usize = 0;
    while k < pairs.len()
        invariant
            k <= pairs.len(),
            copy@.len() == k,
            forall|i: int| 0 <= i < k ==> (#[trigger] copy@[i]) == pairs@[i],
        decreases pairs.len() - k,
    {
        copy.push((pairs[k].0.clone(), pairs[k].1));
        k += 1;
    }
    assert(entries(copy@) =~= entries(pairs@));
    copy
}

/// The number of pairs whose key is not `key`.
pub open spec fn count_except(tally: Seq<(Symbol, int)>, key: Symbol) -> int
    decreases tally.len(),
{
    if tally.len() == 0 {
        0
    } else if tally.last().0 != key {
        count_except(tally.drop_last(), key) + 1
    } else {
        count_except(tally.drop_last(), key)
    }
}

/// The number of pairs that do not hold `excluded`.
pub fn count_others(pairs: &Vec<(Token, i32)>, excluded: &Token) -> (n: usize)
    ensures
        n == count_except(entries(pairs@), excluded@),
{
    let mut n: usize = 0;
    let mut k: usize = 0;
    assert(entries(pairs@).take(0) =~= Seq::empty());
    while k < pairs.len()
        invariant
            k <= pairs.len(),
            n <= k,
            n == count_except(entries(pairs@).take(k as int), excluded@),
        decreases pairs.len() - k,
    {
        proof {
            let prefix = entries(pairs@).take(k + 1);
            assert(prefix.drop_last() =~= entries(pairs@).take(k as int));
            assert(prefix.last().0 == pairs@[k as int].0@);
        }
        if pairs[k].0 != *excluded {
            n += 1;
        }
        k += 1;
    }
    assert(entries(pairs@).take(pairs.len() as int) =~= entries(pairs@));
    n
}

/// Whether a tally can be held: no key twice, every count at least one, and
/// a sum that the total can hold.
pub open spec fn valid_tally(tally: Seq<(Symbol, int)>) -> bool {
    &&& distinct_keys(tally)
    &&& positive_counts(tally)
    &&& sum_counts(tally) <= i32::MAX
}

/// Whether the pairs are a tally that can be held.
pub fn is_valid_tally(pairs: &Vec<(Token, i32)>) -> (valid: bool)
    ensures
        valid == valid_tally(entries(pairs@)),
{
    let ghost tally = entries(pairs@);
    let mut sum: i32 = 0;
    let mut k: usize = 0;
    assert(tally.take(0) =~= Seq::empty());
    while k < pairs.len()
        invariant
            k <= pairs.len(),
            tally == entries(pairs@),
            valid_tally(tally.take(k as int)),
            sum == sum_counts(tally.take(k as int)),
        decreases pairs.len() - k,
    {
        let ghost prefix = tally.take(k + 1);
        let ghost init = tally.take(k as int);
        proof {
            assert(prefix.drop_last() =~= init);
            assert(prefix.last() == tally[k as int]);
            assert forall|i: int| 0 <= i < init.len() implies (#[trigger] init[i]).1 >= 0 by {}
            lemma_sum_bounds(init);
        }
        let count = pairs[k].1;
        if count < 1 {
            assert(tally[k as int].1 < 1);
            return false;
        }
        if count > i32::MAX - sum {
            proof {
                assert(sum_counts(prefix) > i32::MAX);
                if positive_counts(tally) {
                    assert forall|i: int| 0 <= i < tally.len() implies (#[trigger] tally[i]).1
                        >= 0 by {
                        assert(tally[i].1 >= 1);
                    }
                    lemma_sum_bounds(tally);
                    assert(sum_counts(tally.take(k + 1)) <= sum_counts(tally));
                }
            }
            return false;
        }
        let mut j: usize = 0;
        while j < k
            invariant
                j <= k < pairs.len(),
                tally == entries(pairs@),
                forall|i: int| 0 <= i < j ==> (#[trigger] tally[i]).0 != tally[k as int].0,
            decreases k - j,
        {
            if pairs[j].0 == pairs[k].0 {
                assert(tally[j as int].0 == tally[k as int].0);
                return false;
            }
            j += 1;
        }
        sum = sum + count;
        proof {
            assert forall|a: int, b: int| 0 <= a < b < prefix.len() implies (
            #[trigger] prefix[a]).0 != (#[trigger] prefix[b]).0 by {
                if b < k {
                    assert(init[a].0 != init[b].0);
                } else {
                    assert(tally[a].0 != tally[k as int].0);
                }
            }
            assert forall|i: int| 0 <= i < prefix.len() implies (#[trigger] prefix[i]).1 >= 1 by {
                if i < k {
                    assert(init[i].1 >= 1);
                }
            }
        }
        k += 1;
    }
    assert(tally.take(pairs.len() as int) =~= tally);
    true
}

/// The sum of the counts.
pub fn sum_pairs(pairs: &Vec<(Token, i32)>) -> (sum: i32)
    requires
        valid_tally(entries(pairs@)),
    ensures
        sum == sum_counts(entries(pairs@)),
{
    let ghost tally = entries(pairs@);
    let mut sum: i32 = 0;
    let mut k: usize = 0;
    proof {
        assert(tally.take(0) =~= Seq::empty());
        assert forall|i: int| 0 <= i < tally.len() implies (#[trigger] tally[i]).1 >= 0 by {}
        lemma_sum_bounds(tally);
    }
    while k < pairs.len()
        invariant
            k <= pairs.len(),
            tally == entries(pairs@),
            sum == sum_counts(tally.take(k as int)),
            sum_counts(tally) <= i32::MAX,
            forall|n: int|
                0 <= n <= tally.len() ==> 0 <= sum_counts(#[trigger] tally.take(n)) <= sum_counts(
                    tally,
                ),
        decreases pairs.len() - k,
    {
        proof {
            let prefix = tally.take(k + 1);
            assert(prefix.drop_last() =~= tally.take(k as int));
            assert(prefix.last() == tally[k as int]);
            assert(0 <= sum_counts(prefix) <= i32::MAX);
        }
        sum = sum + pairs[k].1;
        k += 1;
    }
    assert(tally.take(pairs.len() as int) =~= tally);
    sum
}

} // verus!
