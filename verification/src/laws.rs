//! Laws of the model, stated over the mathematical values of the nodes.

use crate::node::{recomputed, NodeModel};
use crate::token::Symbol;
use crate::weights::{
    ascending, count_of, cumulative_weights, distinct_keys, index_of, lemma_index_of,
    lemma_index_of_insert, lemma_index_of_is, lemma_index_of_none, lemma_index_of_own,
    lemma_insert_by_count, lemma_running_sums, lemma_running_sums_ascend, lemma_slot_for,
    lemma_sorted_by_count, lemma_sorted_count_of, lemma_sorted_keeps, lemma_sum_at_least_len,
    lemma_sum_push, lemma_sum_remove, lemma_sum_update, linked, positive_counts, reduced, slot_for,
    sorted_by_count, standalone_weights, sum_counts, unlinked,
};
use vstd::prelude::*;

verus! {

/// The tally after one observation of each of `keys`, in this order.
pub open spec fn linked_all(tally: Seq<(Symbol, int)>, keys: Seq<Symbol>) -> Seq<(Symbol, int)>
    decreases keys.len(),
{
    if keys.len() == 0 {
        tally
    } else {
        linked(linked_all(tally, keys.drop_last()), keys.last())
    }
}

/// One observation adds one to the count of its key and to the sum, leaves
/// every other count as it was, and keeps the keys distinct and the counts
/// positive.
pub proof fn lemma_linked(tally: Seq<(Symbol, int)>, key: Symbol)
    requires
        distinct_keys(tally),
        positive_counts(tally),
    ensures
        distinct_keys(linked(tally, key)),
        positive_counts(linked(tally, key)),
        sum_counts(linked(tally, key)) == sum_counts(tally) + 1,
        count_of(linked(tally, key), key) == count_of(tally, key) + 1,
        forall|other: Symbol|
            other != key ==> count_of(linked(tally, key), other) == count_of(tally, other),
{
    let after = linked(tally, key);
    lemma_index_of(tally, key);
    match index_of(tally, key) {
        Some(i) => {
            lemma_sum_update(tally, i, (key, tally[i].1 + 1));
            lemma_index_of_is(after, key, i);
            assert forall|a: int, b: int| 0 <= a < b < after.len() implies (#[trigger] after[a]).0
                != (#[trigger] after[b]).0 by {
                assert(after[a].0 == tally[a].0 && after[b].0 == tally[b].0);
            }
            assert forall|a: int| 0 <= a < after.len() implies (#[trigger] after[a]).1 >= 1 by {
                assert(tally[a].1 >= 1);
            }
            assert forall|other: Symbol| other != key implies count_of(after, other) == count_of(
                tally,
                other,
            ) by {
                lemma_index_of(tally, other);
                match index_of(tally, other) {
                    Some(j) => {
                        assert forall|n: int| 0 <= n < j implies (#[trigger] after[n]).0
                            != other by {
                            assert(after[n].0 == tally[n].0);
                        }
                        lemma_index_of_is(after, other, j);
                    },
                    None => {
                        assert forall|n: int| 0 <= n < after.len() implies (#[trigger] after[n]).0
                            != other by {
                            assert(after[n].0 == tally[n].0);
                        }
                        lemma_index_of_none(after, other);
                    },
                }
            }
        },
        None => {
            lemma_sum_push(tally, (key, 1));
            lemma_index_of_is(after, key, tally.len() as int);
            assert forall|a: int, b: int| 0 <= a < b < after.len() implies (#[trigger] after[a]).0
                != (#[trigger] after[b]).0 by {
                if b < tally.len() {
                    assert(after[a] == tally[a] && after[b] == tally[b]);
                } else {
                    assert(after[a] == tally[a]);
                }
            }
            assert forall|a: int| 0 <= a < after.len() implies (#[trigger] after[a]).1 >= 1 by {
                if a < tally.len() {
                    assert(after[a] == tally[a]);
                }
            }
            assert forall|other: Symbol| other != key implies count_of(after, other) == count_of(
                tally,
                other,
            ) by {
                lemma_index_of(tally, other);
                match index_of(tally, other) {
                    Some(j) => {
                        assert forall|n: int| 0 <= n < j implies (#[trigger] after[n]).0
                            != other by {
                            assert(after[n] == tally[n]);
                        }
                        assert(after[j] == tally[j]);
                        lemma_index_of_is(after, other, j);
                    },
                    None => {
                        assert forall|n: int| 0 <= n < after.len() implies (#[trigger] after[n]).0
                            != other by {
                            if n < tally.len() {
                                assert(after[n] == tally[n]);
                            }
                        }
                        lemma_index_of_none(after, other);
                    },
                }
            }
        },
    }
}

/// After any sequence of observations the sum of the counts has grown by
/// their number: the total of a node that began empty is the number of its
/// observations, and it is the sum of its counts.
pub proof fn lemma_linked_all(tally: Seq<(Symbol, int)>, keys: Seq<Symbol>)
    requires
        distinct_keys(tally),
        positive_counts(tally),
    ensures
        distinct_keys(linked_all(tally, keys)),
        positive_counts(linked_all(tally, keys)),
        sum_counts(linked_all(tally, keys)) == sum_counts(tally) + keys.len(),
    decreases keys.len(),
{
    if keys.len() > 0 {
        lemma_linked_all(tally, keys.drop_last());
        lemma_linked(linked_all(tally, keys.drop_last()), keys.last());
    }
}

/// The cumulative weights of a tally with observations never fall, none is
/// below one or above the total, and the last is the total: as fractions of
/// the total they rise to exactly one.
pub proof fn lemma_weights_rise_to_whole(tally: Seq<(Symbol, int)>)
    requires
        positive_counts(tally),
        sum_counts(tally) > 0,
    ensures
        cumulative_weights(tally).len() == tally.len(),
        tally.len() > 0,
        ascending(cumulative_weights(tally)),
        forall|k: int|
            0 <= k < tally.len() ==> 1 <= (#[trigger] cumulative_weights(tally)[k]).1 <= sum_counts(
                tally,
            ),
        cumulative_weights(tally).last().1 == sum_counts(tally),
{
    let sorted = sorted_by_count(tally);
    let weights = cumulative_weights(tally);
    lemma_sorted_by_count(tally);
    lemma_sorted_keeps(tally);
    assert forall|i: int| 0 <= i < sorted.len() implies (#[trigger] sorted[i]).1 >= 0 by {}
    lemma_running_sums(sorted);
    lemma_running_sums_ascend(sorted);
    assert forall|k: int| 0 <= k < tally.len() implies 1 <= (#[trigger] weights[k]).1 by {
        assert(weights[0].1 == sum_counts(sorted.take(1)));
        assert(sorted.take(1).drop_last() =~= Seq::empty());
        assert(sum_counts(sorted.take(1).drop_last()) == 0);
        assert(sorted.take(1).last() == sorted[0]);
        assert(weights[0].1 <= weights[k].1);
    }
}

/// Taking from a count never leaves a count below one in the tally, nor a
/// negative sum; the sum falls by what the count fell by; and a pair whose
/// whole count is taken leaves the tally.
pub proof fn lemma_unlinked(tally: Seq<(Symbol, int)>, key: Symbol, amount: int)
    requires
        distinct_keys(tally),
        positive_counts(tally),
    ensures
        distinct_keys(unlinked(tally, key, amount)),
        positive_counts(unlinked(tally, key, amount)),
        sum_counts(unlinked(tally, key, amount)) >= 0,
        index_of(tally, key) is Some ==> count_of(unlinked(tally, key, amount), key) == reduced(
            count_of(tally, key),
            amount,
        ),
        sum_counts(unlinked(tally, key, amount)) == sum_counts(tally) - (count_of(tally, key)
            - count_of(unlinked(tally, key, amount), key)),
        amount >= count_of(tally, key) ==> index_of(unlinked(tally, key, amount), key) is None,
{
    let after = unlinked(tally, key, amount);
    lemma_index_of(tally, key);
    match index_of(tally, key) {
        Some(i) => {
            let left = reduced(tally[i].1, amount);
            if left == 0 {
                lemma_sum_remove(tally, i);
                assert forall|j: int| 0 <= j < after.len() implies (#[trigger] after[j]).0
                    != key by {
                    if j < i {
                        assert(after[j] == tally[j]);
                    } else {
                        assert(after[j] == tally[j + 1]);
                    }
                }
                lemma_index_of_none(after, key);
                assert forall|a: int, b: int| 0 <= a < b < after.len() implies (
                #[trigger] after[a]).0 != (#[trigger] after[b]).0 by {
                    let a0 = if a < i { a } else { a + 1 };
                    let b0 = if b < i { b } else { b + 1 };
                    assert(after[a] == tally[a0] && after[b] == tally[b0]);
                }
                assert forall|j: int| 0 <= j < after.len() implies (#[trigger] after[j]).1
                    >= 1 by {
                    let j0 = if j < i { j } else { j + 1 };
                    assert(after[j] == tally[j0]);
                }
            } else {
                lemma_sum_update(tally, i, (key, left));
                lemma_index_of_is(after, key, i);
                assert forall|a: int, b: int| 0 <= a < b < after.len() implies (
                #[trigger] after[a]).0 != (#[trigger] after[b]).0 by {
                    assert(after[a].0 == tally[a].0 && after[b].0 == tally[b].0);
                }
                assert forall|j: int| 0 <= j < after.len() implies (#[trigger] after[j]).1
                    >= 1 by {
                    assert(tally[j].1 >= 1);
                }
            }
        },
        None => {},
    }
    lemma_sum_at_least_len(after);
}

/// Recomputing twice comes to what recomputing once comes to: the node is
/// the same, and so are its two weight tables, which depend on the tally
/// alone.
pub proof fn lemma_recompute_twice(node: NodeModel)
    ensures
        recomputed(recomputed(node)) == recomputed(node),
        cumulative_weights(recomputed(recomputed(node)).tally) == cumulative_weights(
            recomputed(node).tally,
        ),
        standalone_weights(recomputed(recomputed(node)).tally) == standalone_weights(
            recomputed(node).tally,
        ),
{
}

/// The order of the weight tables: of two successors, the one with the
/// smaller count comes first, and of two with the same count, the one that
/// was seen first.
pub proof fn lemma_sorted_order(tally: Seq<(Symbol, int)>, i: int, j: int)
    requires
        distinct_keys(tally),
        0 <= i < j < tally.len(),
    ensures
        index_of(sorted_by_count(tally), tally[i].0) is Some,
        index_of(sorted_by_count(tally), tally[j].0) is Some,
        tally[i].1 <= tally[j].1 ==> index_of(sorted_by_count(tally), tally[i].0)->0 < index_of(
            sorted_by_count(tally),
            tally[j].0,
        )->0,
        tally[i].1 > tally[j].1 ==> index_of(sorted_by_count(tally), tally[i].0)->0 > index_of(
            sorted_by_count(tally),
            tally[j].0,
        )->0,
    decreases tally.len(),
{
    let sorted = sorted_by_count(tally);
    let init = tally.drop_last();
    let entry = tally.last();
    let before = sorted_by_count(init);
    let p = slot_for(before, entry.1);
    assert forall|n: int| 0 <= n < init.len() implies init[n] == tally[n] by {}
    assert forall|a: int, b: int| 0 <= a < b < init.len() implies (#[trigger] init[a]).0 != (
    #[trigger] init[b]).0 by {
        assert(init[a] == tally[a] && init[b] == tally[b]);
    }
    lemma_slot_for(before, entry.1);
    lemma_insert_by_count(before, entry);
    assert(sorted == before.insert(p, entry));
    lemma_sorted_by_count(init);
    lemma_sorted_keeps(init);
    let ki = tally[i].0;
    let kj = tally[j].0;
    lemma_index_of_own(init, i);
    lemma_sorted_count_of(init, ki);
    lemma_index_of(before, ki);
    lemma_index_of_insert(before, p, entry, ki);
    let qi = index_of(before, ki)->0;
    assert(before[qi].1 == tally[i].1);
    if j < tally.len() - 1 {
        lemma_sorted_order(init, i, j);
        lemma_index_of_own(init, j);
        lemma_index_of_insert(before, p, entry, kj);
    } else {
        assert forall|n: int| 0 <= n < init.len() implies (#[trigger] init[n]).0 != kj by {
            assert(init[n] == tally[n]);
        }
        lemma_index_of_none(init, kj);
        lemma_index_of(before, kj);
        assert forall|n: int| 0 <= n < p implies (#[trigger] sorted[n]).0 != kj by {
            assert(sorted[n] == before[n]);
        }
        lemma_index_of_is(sorted, kj, p);
        if tally[i].1 <= tally[j].1 {
            if qi >= p {
                assert(before[qi].1 > entry.1);
            }
        } else {
            if qi < p {
                assert(before[qi].1 <= before[p - 1].1);
            }
        }
    }
}

} // verus!
