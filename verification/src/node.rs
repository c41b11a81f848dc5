//! What follows one token, and how often.

use crate::error::Error;
use crate::random::random_draw;
use crate::token::{Symbol, Token};
use crate::weights::{
    accumulate, as_parts, copy_pairs, count_except, count_of, count_others, cumulative_weights,
    distinct_keys, entries, find, first_reaching, index_of, is_valid_tally, lemma_first_reaching,
    lemma_first_reaching_is, lemma_index_of, lemma_index_of_is, lemma_index_of_none,
    lemma_picked_some, lemma_running_sums, lemma_running_sums_ascend, lemma_sorted_by_count,
    lemma_sorted_count_of, lemma_sorted_keeps, lemma_sum_at_least_len, lemma_sum_bounds,
    lemma_sum_push, lemma_sum_remove, lemma_sum_update, linked, parts_of, picked, positive_counts,
    reaches, reduced, running_sums, sort_by_count, sorted_by_count, standalone_weights, sum_counts,
    sum_pairs, unlinked, valid_tally, DRAW_SCALE, Fraction,
};
use vstd::prelude::*;

verus! {

/// The mathematical value of a [`Node`].
pub struct NodeModel {
    /// The token whose successors the node records.
    pub symbol: Symbol,
    /// The successors with their counts, in the order of first sight.
    pub tally: Seq<(Symbol, int)>,
    /// Whether the weight tables are present.
    pub fresh: bool,
}

/// For one source token, the counts of the tokens seen to follow it, and the
/// weight tables last computed from these counts.
///
/// The tables are dropped whenever a count changes, so tables that are
/// present always belong to the present counts. Successors of equal count
/// keep the order in which they were first seen.
#[derive(Debug)]
pub struct Node {
    data: Token,
    links: Vec<(Token, i32)>,
    weights: Option<Vec<(Token, i32)>>,
    weights_map: Option<Vec<(Token, i32)>>,
    total: i32,
}

impl View for Node {
    type V = NodeModel;

    closed spec fn view(&self) -> NodeModel {
        NodeModel {
            symbol: self.data@,
            tally: entries(self.links@),
            fresh: self.weights is Some,
        }
    }
}

impl Node {
    /// The invariant of a node: no successor is recorded twice, every count
    /// is at least one, the total is the sum of the counts, and tables that
    /// are present are those of the counts.
    pub closed spec fn wf(&self) -> bool {
        &&& distinct_keys(self@.tally)
        &&& positive_counts(self@.tally)
        &&& self.total == sum_counts(self@.tally)
        &&& self.weights is Some <==> self.weights_map is Some
        &&& self.weights matches Some(table) ==> entries(table@) == cumulative_weights(self@.tally)
        &&& self.weights_map matches Some(table) ==> entries(table@) == standalone_weights(
            self@.tally,
        )
    }

    /// A node for `data` with no successors yet.
    pub fn new(data: Token) -> (node: Node)
        ensures
            node.wf(),
            node@ == (NodeModel { symbol: data@, tally: Seq::empty(), fresh: false }),
    {
        let node = Node { data, links: Vec::new(), weights: None, weights_map: None, total: 0 };
        assert(entries(node.links@) =~= Seq::empty());
        node
    }

    /// A node for `data` with the successors and counts given, where these
    /// can be held: no successor twice, every count at least one, and a sum
    /// that fits the total.
    pub fn from_links(data: Token, links: Vec<(Token, i32)>) -> (r: Option<Node>)
        ensures
            match r {
                Some(node) => valid_tally(entries(links@)) && node.wf() && node@
                    == (NodeModel { symbol: data@, tally: entries(links@), fresh: false }),
                None => !valid_tally(entries(links@)),
            },
    {
        if !is_valid_tally(&links) {
            return None;
        }
        let total = sum_pairs(&links);
        Some(Node { data, links, weights: None, weights_map: None, total })
    }

    /// Whether the node holds what it may hold. Every well-formed node does.
    pub proof fn lemma_valid(&self)
        requires
            self.wf(),
        ensures
            valid_tally(self@.tally),
    {
    }

    /// The token whose successors this node records.
    pub fn data(&self) -> (data: &Token)
        ensures
            data@ == self@.symbol,
    {
        &self.data
    }

    /// The number of observations recorded: the sum of all counts.
    pub fn total(&self) -> (total: i32)
        requires
            self.wf(),
        ensures
            total == sum_counts(self@.tally),
    {
        self.total
    }

    /// Whether the weight tables are present.
    pub fn is_calculated(&self) -> (fresh: bool)
        ensures
            fresh == self@.fresh,
    {
        self.weights.is_some()
    }

    /// The count recorded for `token`, if it is a recorded successor.
    pub fn count(&self, token: &Token) -> (count: Option<i32>)
        requires
            self.wf(),
        ensures
            match count {
                Some(c) => index_of(self@.tally, token@) is Some && c == count_of(
                    self@.tally,
                    token@,
                ),
                None => index_of(self@.tally, token@) is None,
            },
    {
        proof {
            lemma_index_of(self@.tally, token@);
        }
        match find(&self.links, token) {
            Some(i) => Some(self.links[i].1),
            None => None,
        }
    }

    /// Records one more observation of `token` as a successor, and drops the
    /// weight tables.
    pub fn link(&mut self, token: Token)
        requires
            old(self).wf(),
            sum_counts(old(self)@.tally) < i32::MAX,
        ensures
            final(self).wf(),
            final(self)@ == (NodeModel {
                tally: linked(old(self)@.tally, token@),
                fresh: false,
                ..old(self)@
            }),
            sum_counts(final(self)@.tally) == sum_counts(old(self)@.tally) + 1,
    {
        let ghost before = self@.tally;
        proof {
            lemma_index_of(before, token@);
            assert forall|i: int| 0 <= i < before.len() implies (#[trigger] before[i]).1 >= 0 by {}
            lemma_sum_bounds(before);
        }
        match find(&self.links, &token) {
            Some(i) => {
                let count = self.links[i].1;
                assert(before[i as int].1 == count);
                proof {
                    lemma_sum_update(before, i as int, (token@, count + 1));
                }
                self.links.set(i, (token, count + 1));
                assert(entries(self.links@) =~= before.update(i as int, (token@, count + 1)));
            },
            None => {
                proof {
                    lemma_sum_push(before, (token@, 1));
                }
                self.links.push((token, 1));
                assert(entries(self.links@) =~= before.push((token@, 1)));
            },
        }
        self.total = self.total + 1;
        self.weights = None;
        self.weights_map = None;
    }

    /// Takes `amount` from the count of `token`, which leaves where nothing
    /// is left of its count, and drops the weight tables. A count never falls
    /// below zero, and the total falls by what the count fell by. Fails,
    /// changing nothing, where `token` is no recorded successor.
    pub fn unlink(&mut self, token: &Token, amount: i32) -> (r: Result<(), Error>)
        requires
            old(self).wf(),
            amount < 0 ==> sum_counts(old(self)@.tally) - amount <= i32::MAX,
        ensures
            final(self).wf(),
            match index_of(old(self)@.tally, token@) {
                Some(_) => r is Ok && final(self)@ == (NodeModel {
                    tally: unlinked(old(self)@.tally, token@, amount as int),
                    fresh: false,
                    ..old(self)@
                }),
                None => r matches Err(Error::TokenNotFound(missing)) && missing@ == token@
                    && final(self)@ == old(self)@,
            },
            sum_counts(final(self)@.tally) == sum_counts(old(self)@.tally) - (count_of(
                old(self)@.tally,
                token@,
            ) - count_of(final(self)@.tally, token@)),
    {
        let ghost before = self@.tally;
        proof {
            lemma_index_of(before, token@);
            assert forall|i: int| 0 <= i < before.len() implies (#[trigger] before[i]).1 >= 0 by {}
            lemma_sum_bounds(before);
        }
        let i = match find(&self.links, token) {
            Some(i) => i,
            None => {
                return Err(Error::TokenNotFound(token.clone()));
            },
        };
        let current = self.links[i].1;
        assert(before[i as int].1 == current);
        let left: i32 = if amount < current {
            current - amount
        } else {
            0
        };
        assert(left == reduced(current as int, amount as int));
        self.total = self.total - (current - left);
        if left == 0 {
            proof {
                lemma_sum_remove(before, i as int);
            }
            self.links.remove(i);
            proof {
                let after = before.remove(i as int);
                assert(entries(self.links@) =~= after);
                assert forall|j: int| 0 <= j < after.len() implies (#[trigger] after[j]).0
                    != token@ by {
                    if j < i {
                        assert(after[j] == before[j]);
                    } else {
                        assert(after[j] == before[j + 1]);
                    }
                }
                lemma_index_of_none(after, token@);
                assert(distinct_keys(after)) by {
                    assert forall|a: int, b: int| 0 <= a < b < after.len() implies (
                    #[trigger] after[a]).0 != (#[trigger] after[b]).0 by {
                        let a0 = if a < i { a } else { a + 1 };
                        let b0 = if b < i { b } else { b + 1 };
                        assert(after[a] == before[a0] && after[b] == before[b0]);
                    }
                }
                assert(positive_counts(after)) by {
                    assert forall|j: int| 0 <= j < after.len() implies (#[trigger] after[j]).1
                        >= 1 by {
                        let j0 = if j < i { j } else { j + 1 };
                        assert(after[j] == before[j0]);
                    }
                }
            }
        } else {
            proof {
                lemma_sum_update(before, i as int, (token@, left as int));
            }
            self.links.set(i, (token.clone(), left));
            proof {
                let after = before.update(i as int, (token@, left as int));
                assert(entries(self.links@) =~= after);
                lemma_index_of_is(after, token@, i as int);
            }
        }
        self.weights = None;
        self.weights_map = None;
        Ok(())
    }

    /// Rebuilds the weight tables from the counts.
    pub(crate) fn rebuild(&mut self)
        requires
            old(self).wf(),
        ensures
            final(self).wf(),
            final(self)@ == recomputed(old(self)@),
    {
        let ghost tally = self@.tally;
        let sorted = sort_by_count(&self.links);
        proof {
            lemma_sorted_by_count(tally);
            lemma_sorted_keeps(tally);
            assert forall|i: int| 0 <= i < sorted.len() implies (#[trigger] sorted@[i]).1 >= 0 by {
                assert(entries(sorted@)[i].1 >= 1);
            }
        }
        let sums = accumulate(&sorted);
        self.weights_map = Some(sorted);
        self.weights = Some(sums);
    }

    /// Rebuilds the weight tables from the counts: the successors ascending
    /// by count, successors of equal count in the order of first sight, each
    /// with its own count and with the running sum of the counts. The total
    /// is the whole of which these are parts.
    pub fn calculate(&mut self)
        requires
            old(self).wf(),
            sum_counts(old(self)@.tally) > 0,
        ensures
            final(self).wf(),
            final(self)@ == recomputed(old(self)@),
    {
        self.rebuild();
    }

    /// The successor that `draw` picks: the first in the table whose
    /// cumulative fraction is at least `draw / DRAW_SCALE`. Every draw picks
    /// one where there is one to pick. Fails where the tables are absent.
    pub fn choose_successor_with(&self, draw: u32) -> (r: Result<Option<Token>, Error>)
        requires
            self.wf(),
        ensures
            chosen_by(self@, draw, r),
    {
        let table = match &self.weights {
            Some(table) => table,
            None => {
                return Err(Error::NotRecomputed);
            },
        };
        let ghost tally = self@.tally;
        let ghost weights = cumulative_weights(tally);
        proof {
            lemma_sorted_by_count(tally);
            lemma_sorted_keeps(tally);
            let sorted = sorted_by_count(tally);
            assert forall|i: int| 0 <= i < sorted.len() implies (#[trigger] sorted[i]).1 >= 0 by {}
            lemma_running_sums_ascend(sorted);
            lemma_running_sums(sorted);
        }
        let total = self.total as u64;
        assert(draw * total <= 0xffff_ffff * 0x7fff_ffff) by (nonlinear_arith)
            requires
                0 <= draw <= 0xffff_ffff,
                0 <= total <= 0x7fff_ffff,
        ;
        let scaled = draw as u64 * total;
        let mut k: usize = 0;
        while k < table.len()
            invariant
                k <= table.len(),
                tally == self@.tally,
                self@.fresh,
                weights == cumulative_weights(tally),
                entries(table@) == weights,
                scaled == draw * sum_counts(tally),
                forall|j: int|
                    0 <= j < weights.len() ==> 0 <= (#[trigger] weights[j]).1 <= sum_counts(tally),
                sum_counts(tally) <= i32::MAX,
                forall|j: int|
                    0 <= j < k ==> !reaches(
                        (#[trigger] weights[j]).1,
                        sum_counts(tally),
                        draw as int,
                    ),
            decreases table.len() - k,
        {
            let cumulative = table[k].1;
            assert(weights[k as int].1 == cumulative);
            if scaled <= cumulative as u64 * DRAW_SCALE {
                let token = table[k].0.clone();
                proof {
                    lemma_first_reaching_is(weights, sum_counts(tally), draw as int, k as int);
                    assert(weights[k as int].0 == token@);
                }
                return Ok(Some(token));
            }
            k += 1;
        }
        proof {
            lemma_first_reaching(weights, sum_counts(tally), draw as int);
            if first_reaching(weights, sum_counts(tally), draw as int) is Some {
                let i = first_reaching(weights, sum_counts(tally), draw as int)->0;
                assert(reaches(weights[i].1, sum_counts(tally), draw as int));
            }
            if tally.len() > 0 {
                lemma_picked_some(tally, draw as int);
            }
        }
        Ok(None)
    }

    /// A successor picked at random, each with the probability that its
    /// count is of the total, but for the grain of the draw.
    pub fn choose_successor(&self) -> (r: Result<Option<Token>, Error>)
        requires
            self.wf(),
        ensures
            exists|draw: u32| chosen_by(self@, draw, r),
    {
        let draw = random_draw();
        let r = self.choose_successor_with(draw);
        assert(chosen_by(self@, draw, r));
        r
    }

    /// The probability of the transition to `token`: its count over the
    /// total. None where the tables are absent or `token` is no recorded
    /// successor.
    pub fn probability_of(&self, token: &Token) -> (r: Option<Fraction>)
        requires
            self.wf(),
        ensures
            match r {
                Some(part) => self@.fresh && index_of(self@.tally, token@) is Some && part.num
                    == count_of(self@.tally, token@) && part.den == sum_counts(self@.tally),
                None => !self@.fresh || index_of(self@.tally, token@) is None,
            },
    {
        let table = match &self.weights_map {
            Some(table) => table,
            None => {
                return None;
            },
        };
        proof {
            lemma_sorted_count_of(self@.tally, token@);
            lemma_sorted_keeps(self@.tally);
            lemma_index_of(entries(table@), token@);
            lemma_sum_at_least_len(self@.tally);
        }
        match find(table, token) {
            Some(i) => {
                assert(entries(table@)[i as int].1 == table@[i as int].1);
                Some(Fraction { num: table[i].1 as u128, den: self.total as u128 })
            },
            None => None,
        }
    }

    /// The probability of the transition to the character `b`.
    pub fn query_on(&self, b: char) -> (r: Option<Fraction>)
        requires
            self.wf(),
        ensures
            match r {
                Some(part) => self@.fresh && index_of(self@.tally, Symbol::Char(b)) is Some
                    && part.num == count_of(self@.tally, Symbol::Char(b)) && part.den
                    == sum_counts(self@.tally),
                None => !self@.fresh || index_of(self@.tally, Symbol::Char(b)) is None,
            },
    {
        self.probability_of(&Token::Char(b))
    }

    /// The number of recorded successors other than `excluded`.
    pub fn successors_except(&self, excluded: &Token) -> (n: usize)
        ensures
            n == count_except(self@.tally, excluded@),
    {
        count_others(&self.links, excluded)
    }

    /// A copy of the successors with their counts, in the order of first
    /// sight.
    pub fn links(&self) -> (links: Vec<(Token, i32)>)
        ensures
            entries(links@) == self@.tally,
    {
        copy_pairs(&self.links)
    }

    /// The cumulative weights, if present: the successors ascending by
    /// count, each with the running sum of the counts over the total.
    pub fn weights(&self) -> (r: Option<Vec<(Token, Fraction)>>)
        requires
            self.wf(),
        ensures
            match r {
                Some(parts) => self@.fresh && parts_of(
                    parts@,
                    cumulative_weights(self@.tally),
                    sum_counts(self@.tally),
                ),
                None => !self@.fresh,
            },
    {
        match &self.weights {
            Some(table) => {
                proof {
                    let tally = self@.tally;
                    lemma_sorted_by_count(tally);
                    lemma_sorted_keeps(tally);
                    let sorted = sorted_by_count(tally);
                    assert forall|i: int| 0 <= i < sorted.len() implies (#[trigger] sorted[i]).1
                        >= 0 by {}
                    lemma_running_sums_ascend(sorted);
                    lemma_running_sums(sorted);
                    let sums = running_sums(sorted);
                    assert(entries(table@) == sums);
                    assert forall|i: int| 0 <= i < table.len() implies (#[trigger] table@[i]).1
                        >= 0 by {
                        assert(sums[i].1 >= 0);
                        assert(entries(table@)[i].1 == table@[i].1);
                    }
                    assert forall|i: int| 0 <= i < tally.len() implies (#[trigger] tally[i]).1
                        >= 0 by {}
                    lemma_sum_bounds(tally);
                }
                Some(as_parts(table, self.total))
            },
            None => None,
        }
    }

    /// The standalone weights, if present: the successors ascending by
    /// count, each with its count over the total.
    pub fn probabilities(&self) -> (r: Option<Vec<(Token, Fraction)>>)
        requires
            self.wf(),
        ensures
            match r {
                Some(parts) => self@.fresh && parts_of(
                    parts@,
                    standalone_weights(self@.tally),
                    sum_counts(self@.tally),
                ),
                None => !self@.fresh,
            },
    {
        match &self.weights_map {
            Some(table) => {
                proof {
                    let tally = self@.tally;
                    lemma_sorted_keeps(tally);
                    assert forall|i: int| 0 <= i < table.len() implies (#[trigger] table@[i]).1
                        >= 0 by {
                        assert(entries(table@)[i].1 >= 1);
                    }
                    assert forall|i: int| 0 <= i < tally.len() implies (#[trigger] tally[i]).1
                        >= 0 by {}
                    lemma_sum_bounds(tally);
                }
                Some(as_parts(table, self.total))
            },
            None => None,
        }
    }
}

/// The node after its weight tables were rebuilt: the same tally, with the
/// tables present.
pub open spec fn recomputed(node: NodeModel) -> NodeModel {
    NodeModel { fresh: true, ..node }
}

/// What `Node::choose_successor_with` owes for a node and a draw: the successor that
/// the draw picks, which is there whenever the node has a successor; or the
/// failure, exactly where the tables are absent.
pub open spec fn chosen_by(node: NodeModel, draw: u32, r: Result<Option<Token>, Error>) -> bool {
    match r {
        Ok(Some(token)) => node.fresh && picked(node.tally, draw as int) == Some(token@),
        Ok(None) => node.fresh && node.tally.len() == 0 && picked(node.tally, draw as int) is None,
        Err(e) => !node.fresh && e is NotRecomputed,
    }
}

} // verus!
