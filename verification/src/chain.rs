//! The transition model: one node for every token seen.

use crate::error::Error;
use crate::node::{Node, NodeModel};
use crate::random::random_draw;
use crate::token::{symbols_of, Symbol, Token};
use crate::walk::{
    generated, generation, lemma_walk_over, render_path, step, stepped, walk, walked, MAX_STEPS,
    Walk,
};
use crate::weights::{
    copy_pairs, count_except, distinct_keys, entries, index_of, lemma_index_of, lemma_index_of_is,
    lemma_index_of_none, linked, parts_of, standalone_weights, sum_counts, unlinked, valid_tally,
    Fraction,
};
use vstd::prelude::*;

verus! {

/// The mathematical value of a [`Chain`].
pub struct ChainModel {
    /// Every token seen, in the order of first sight, with the tally of its
    /// successors.
    pub nodes: Seq<(Symbol, Seq<(Symbol, int)>)>,
    /// Whether the weight tables of all nodes are marked as present.
    pub calculated: bool,
}

/// The nodes with `key` added at the end, where it has no node yet.
pub open spec fn touched(nodes: Seq<(Symbol, Seq<(Symbol, int)>)>, key: Symbol) -> Seq<
    (Symbol, Seq<(Symbol, int)>),
> {
    if index_of(nodes, key) is Some {
        nodes
    } else {
        nodes.push((key, Seq::empty()))
    }
}

/// The nodes after one more observation of `to` behind `from`. Nothing
/// changes where `from` has no node.
pub open spec fn with_link(
    nodes: Seq<(Symbol, Seq<(Symbol, int)>)>,
    from: Symbol,
    to: Symbol,
) -> Seq<(Symbol, Seq<(Symbol, int)>)> {
    match index_of(nodes, from) {
        Some(i) => nodes.update(i, (from, linked(nodes[i].1, to))),
        None => nodes,
    }
}

/// The nodes after a sequence of tokens was fed: every token of the sequence
/// has a node, and every token but the first was observed once more behind
/// the token before it.
pub open spec fn fed(nodes: Seq<(Symbol, Seq<(Symbol, int)>)>, data: Seq<Symbol>) -> Seq<
    (Symbol, Seq<(Symbol, int)>),
>
    decreases data.len(),
{
    if data.len() == 0 {
        nodes
    } else {
        let before = fed(nodes, data.drop_last());
        let joined = if data.len() >= 2 {
            with_link(before, data[data.len() - 2], data.last())
        } else {
            before
        };
        touched(joined, data.last())
    }
}

/// Whether `extra` more observations fit behind every token: no total would
/// pass the largest count that can be held.
pub open spec fn fits(nodes: Seq<(Symbol, Seq<(Symbol, int)>)>, extra: int) -> bool {
    &&& extra <= i32::MAX
    &&& forall|i: int|
        0 <= i < nodes.len() ==> sum_counts((#[trigger] nodes[i]).1) + extra <= i32::MAX
}

/// The learned model: for every token seen, the node of its successors.
#[derive(Debug)]
pub struct Chain {
    nodes: Vec<Node>,
    is_calculated: bool,
}

impl View for Chain {
    type V = ChainModel;

    closed spec fn view(&self) -> ChainModel {
        ChainModel {
            nodes: self.nodes@.map_values(|n: Node| (n@.symbol, n@.tally)),
            calculated: self.is_calculated,
        }
    }
}

impl Default for Chain {
    fn default() -> (chain: Chain)
        ensures
            chain.wf(),
            chain@ == (ChainModel { nodes: Seq::empty(), calculated: false }),
    {
        let chain = Chain { nodes: Vec::new(), is_calculated: false };
        assert(chain@.nodes =~= Seq::empty());
        chain
    }
}

impl Chain {
    /// The invariant of a chain: every node is well formed, no token has two
    /// nodes, and where the chain is marked calculated every node has its
    /// weight tables.
    pub closed spec fn wf(&self) -> bool {
        &&& forall|i: int| 0 <= i < self.nodes.len() ==> (#[trigger] self.nodes[i]).wf()
        &&& distinct_keys(self@.nodes)
        &&& self.is_calculated ==> forall|i: int|
            0 <= i < self.nodes.len() ==> (#[trigger] self.nodes[i])@.fresh
    }

    /// Every well-formed chain holds what it may hold.
    pub proof fn lemma_valid(&self)
        requires
            self.wf(),
        ensures
            valid_nodes(self@.nodes),
    {
        assert forall|i: int| 0 <= i < self@.nodes.len() implies valid_tally(
            (#[trigger] self@.nodes[i]).1,
        ) by {
            self.nodes[i].lemma_valid();
        }
    }

    /// Whether the weight tables of all nodes are present.
    pub fn is_calculated(&self) -> (calculated: bool)
        ensures
            calculated == self@.calculated,
    {
        self.is_calculated
    }

    /// The index of the node of `token`.
    fn position(&self, token: &Token) -> (found: Option<usize>)
        ensures
            match found {
                Some(i) => index_of(self@.nodes, token@) == Some(i as int) && i < self.nodes.len(),
                None => index_of(self@.nodes, token@) is None,
            },
    {
        let mut i: usize = 0;
        while i < self.nodes.len()
            invariant
                i <= self.nodes.len(),
                forall|j: int| 0 <= j < i ==> (#[trigger] self@.nodes[j]).0 != token@,
            decreases self.nodes.len() - i,
        {
            if *self.nodes[i].data() == *token {
                proof {
                    lemma_index_of_is(self@.nodes, token@, i as int);
                }
                return Some(i);
            }
            i += 1;
        }
        proof {
            lemma_index_of_none(self@.nodes, token@);
        }
        None
    }

    /// The node of `token`, if it has one.
    pub fn node(&self, token: &Token) -> (r: Option<&Node>)
        requires
            self.wf(),
        ensures
            match index_of(self@.nodes, token@) {
                Some(i) => r matches Some(node) && node.wf() && node@ == (NodeModel {
                    symbol: token@,
                    tally: self@.nodes[i].1,
                    fresh: node@.fresh,
                }) && (self@.calculated ==> node@.fresh),
                None => r is None,
            },
    {
        proof {
            lemma_index_of(self@.nodes, token@);
        }
        match self.position(token) {
            Some(i) => {
                assert(self@.nodes[i as int] == (
                    self.nodes[i as int]@.symbol,
                    self.nodes[i as int]@.tally,
                ));
                Some(&self.nodes[i])
            },
            None => None,
        }
    }

    /// The number of nodes: of tokens seen.
    pub fn len(&self) -> (n: usize)
        ensures
            n == self@.nodes.len(),
    {
        self.nodes.len()
    }

    /// Whether `extra` more observations fit behind every token.
    pub fn has_room_for(&self, extra: usize) -> (room: bool)
        requires
            self.wf(),
        ensures
            room == fits(self@.nodes, extra as int),
    {
        if extra > i32::MAX as usize {
            return false;
        }
        let more = extra as i32;
        let mut i: usize = 0;
        while i < self.nodes.len()
            invariant
                i <= self.nodes.len(),
                self.wf(),
                0 <= more == extra,
                forall|j: int|
                    0 <= j < i ==> sum_counts((#[trigger] self@.nodes[j]).1) + more <= i32::MAX,
            decreases self.nodes.len() - i,
        {
            let total = self.nodes[i].total();
            assert(self@.nodes[i as int].1 == self.nodes[i as int]@.tally);
            if total > i32::MAX - more {
                return false;
            }
            i += 1;
        }
        true
    }

    /// Learns one sequence of tokens: every token gets a node on first
    /// sight, and every token but the first is recorded once more as a
    /// successor of the token before it. The chain is stale afterwards.
    pub fn feed(&mut self, data: Vec<Token>)
        requires
            old(self).wf(),
            fits(old(self)@.nodes, data@.len() as int),
        ensures
            final(self).wf(),
            final(self)@ == (ChainModel {
                nodes: fed(old(self)@.nodes, symbols_of(data@)),
                calculated: false,
            }),
    {
        self.is_calculated = false;
        let ghost symbols = symbols_of(data@);
        let mut prev: Option<usize> = None;
        let mut k: usize = 0;
        assert(symbols.take(0) =~= Seq::empty());
        while k < data.len()
            invariant
                k <= data.len(),
                symbols == symbols_of(data@),
                self.wf(),
                !self.is_calculated,
                self@.nodes == fed(old(self)@.nodes, symbols.take(k as int)),
                fits(self@.nodes, data.len() - k),
                k == 0 ==> prev is None,
                k > 0 ==> prev is Some && prev->0 < self.nodes.len() && index_of(
                    self@.nodes,
                    symbols[k - 1],
                ) == Some(prev->0 as int),
            decreases data.len() - k,
        {
            let ghost before = self@.nodes;
            let ghost prefix = symbols.take(k + 1);
            proof {
                assert(prefix.drop_last() =~= symbols.take(k as int));
                assert(prefix.last() == data@[k as int]@);
                if k > 0 {
                    assert(prefix[prefix.len() - 2] == symbols[k - 1]);
                }
            }
            if let Some(p) = prev {
                let ghost old_nodes = self.nodes@;
                assert(before[p as int] == (
                    old_nodes[p as int]@.symbol,
                    old_nodes[p as int]@.tally,
                ));
                self.nodes[p].link(data[k].clone());
                proof {
                    lemma_index_of(before, symbols[k - 1]);
                    let target = before.update(
                        p as int,
                        (symbols[k - 1], linked(before[p as int].1, data@[k as int]@)),
                    );
                    assert(self@.nodes.len() == target.len());
                    assert forall|j: int| 0 <= j < target.len() implies self@.nodes[j]
                        == target[j] by {
                        if j != p {
                            assert(self.nodes@[j] == old_nodes[j]);
                            assert(before[j] == (old_nodes[j]@.symbol, old_nodes[j]@.tally));
                        }
                    }
                    assert(self@.nodes =~= target);
                }
            }
            let ghost joined = self@.nodes;
            let at = match self.position(&data[k]) {
                Some(at) => at,
                None => {
                    self.nodes.push(Node::new(data[k].clone()));
                    proof {
                        lemma_index_of(joined, data@[k as int]@);
                        assert(self@.nodes =~= joined.push((data@[k as int]@, Seq::empty())));
                        lemma_index_of_is(self@.nodes, data@[k as int]@, joined.len() as int);
                    }
                    self.nodes.len() - 1
                },
            };
            prev = Some(at);
            k += 1;
        }
        assert(symbols.take(data.len() as int) =~= symbols);
    }

    /// Rebuilds the weight tables of every node. A node without successors
    /// gets empty tables: it has no outgoing transitions.
    pub fn calculate(&mut self)
        requires
            old(self).wf(),
        ensures
            final(self).wf(),
            final(self)@ == (ChainModel { calculated: true, ..old(self)@ }),
    {
        let ghost before = self@.nodes;
        let mut i: usize = 0;
        while i < self.nodes.len()
            invariant
                i <= self.nodes.len(),
                self@.nodes == before,
                distinct_keys(before),
                forall|j: int| 0 <= j < self.nodes.len() ==> (#[trigger] self.nodes[j]).wf(),
                forall|j: int| 0 <= j < i ==> (#[trigger] self.nodes[j])@.fresh,
            decreases self.nodes.len() - i,
        {
            let ghost old_nodes = self.nodes@;
            self.nodes[i].rebuild();
            proof {
                assert(self.nodes@.len() == old_nodes.len());
                assert forall|j: int| 0 <= j < before.len() implies self@.nodes[j] == before[j] by {
                    if j != i {
                        assert(self.nodes@[j] == old_nodes[j]);
                    }
                    assert(before[j] == (old_nodes[j]@.symbol, old_nodes[j]@.tally));
                }
                assert(self@.nodes =~= before);
            }
            i += 1;
        }
        self.is_calculated = true;
    }

    /// Makes sure that the weight tables are present.
    fn settle(&mut self)
        requires
            old(self).wf(),
        ensures
            final(self).wf(),
            final(self)@ == (ChainModel { calculated: true, ..old(self)@ }),
    {
        if !self.is_calculated {
            self.calculate();
        }
    }

    /// Weakens one transition: takes `amount` from the count of `b` behind
    /// `a`, removing the transition where nothing is left of the count, and
    /// rebuilds all weight tables. Fails, changing nothing, where `a` has no
    /// node or `b` is no recorded successor of `a`.
    pub fn reduce(&mut self, a: &Token, b: &Token, amount: i32) -> (r: Result<(), Error>)
        requires
            old(self).wf(),
            amount < 0 ==> fits(old(self)@.nodes, -amount),
        ensures
            final(self).wf(),
            match reduction(old(self)@, a@, b@, amount as int) {
                Ok(after) => r is Ok && final(self)@ == after,
                Err(symbol) => final(self)@ == old(self)@ && (r matches Err(
                    Error::TokenNotFound(missing),
                ) && missing@ == symbol),
            },
    {
        let ghost before = self@.nodes;
        proof {
            lemma_index_of(before, a@);
        }
        let i = match self.position(a) {
            Some(i) => i,
            None => {
                return Err(Error::TokenNotFound(a.clone()));
            },
        };
        let ghost old_nodes = self.nodes@;
        assert(before[i as int] == (old_nodes[i as int]@.symbol, old_nodes[i as int]@.tally));
        proof {
            self.nodes[i as int].lemma_valid();
        }
        let outcome = self.nodes[i].unlink(b, amount);
        proof {
            assert(self.nodes@.len() == old_nodes.len());
            assert forall|j: int| 0 <= j < old_nodes.len() && j != i implies self.nodes@[j]
                == old_nodes[j] by {}
            assert forall|j: int| 0 <= j < before.len() && j != i implies #[trigger] self@.nodes[j]
                == before[j] by {
                assert(self.nodes@[j] == old_nodes[j]);
                assert(before[j] == (old_nodes[j]@.symbol, old_nodes[j]@.tally));
            }
        }
        match outcome {
            Err(e) => {
                assert(self@.nodes =~= before);
                Err(e)
            },
            Ok(()) => {
                proof {
                    let target = before.update(
                        i as int,
                        (a@, unlinked(before[i as int].1, b@, amount as int)),
                    );
                    assert(self@.nodes =~= target);
                    assert forall|x: int, y: int| 0 <= x < y < target.len() implies (
                    #[trigger] target[x]).0 != (#[trigger] target[y]).0 by {
                        assert(before[x].0 != before[y].0);
                    }
                }
                self.is_calculated = false;
                self.calculate();
                Ok(())
            },
        }
    }

    /// The counts of the chain, for keeping: every token with its
    /// successors and their counts, in the order of first sight. The weight
    /// tables are left out, as they follow from the counts.
    pub fn counts(&self) -> (saved: Vec<(Token, Vec<(Token, i32)>)>)
        requires
            self.wf(),
        ensures
            snapshot(saved@) == self@.nodes,
            valid_nodes(self@.nodes),
    {
        let mut saved: Vec<(Token, Vec<(Token, i32)>)> = Vec::new();
        let mut k: usize = 0;
        while k < self.nodes.len()
            invariant
                k <= self.nodes.len(),
                self.wf(),
                saved@.len() == k,
                forall|i: int| 0 <= i < k ==> (#[trigger] snapshot(saved@)[i]) == self@.nodes[i],
            decreases self.nodes.len() - k,
        {
            let ghost before = saved@;
            saved.push((self.nodes[k].data().clone(), self.nodes[k].links()));
            proof {
                assert forall|i: int| 0 <= i < k + 1 implies (#[trigger] snapshot(saved@)[i])
                    == self@.nodes[i] by {
                    if i < k {
                        assert(saved@[i] == before[i]);
                        assert(snapshot(before)[i] == self@.nodes[i]);
                    }
                }
            }
            k += 1;
        }
        proof {
            assert(snapshot(saved@) =~= self@.nodes);
            assert forall|i: int| 0 <= i < self@.nodes.len() implies valid_tally(
                (#[trigger] self@.nodes[i]).1,
            ) by {
                self.nodes[i].lemma_valid();
            }
        }
        saved
    }

    /// The stale chain with the counts given, where these can be held: no
    /// token twice, and for every token no successor twice, every count at
    /// least one, and a sum that fits the total.
    pub fn from_counts(saved: &Vec<(Token, Vec<(Token, i32)>)>) -> (r: Option<Chain>)
        ensures
            match r {
                Some(chain) => valid_nodes(snapshot(saved@)) && chain.wf() && chain@
                    == (ChainModel { nodes: snapshot(saved@), calculated: false }),
                None => !valid_nodes(snapshot(saved@)),
            },
    {
        let ghost nodes = snapshot(saved@);
        let mut chain = Chain { nodes: Vec::new(), is_calculated: false };
        let mut k: usize = 0;
        assert(chain@.nodes =~= nodes.take(0));
        while k < saved.len()
            invariant
                k <= saved.len(),
                nodes == snapshot(saved@),
                chain.wf(),
                !chain.is_calculated,
                chain@.nodes == nodes.take(k as int),
                valid_nodes(nodes.take(k as int)),
            decreases saved.len() - k,
        {
            let ghost before = chain@.nodes;
            assert(nodes[k as int] == (saved@[k as int].0@, entries(saved@[k as int].1@)));
            proof {
                lemma_index_of(before, nodes[k as int].0);
            }
            if chain.position(&saved[k].0).is_some() {
                proof {
                    let i = index_of(before, nodes[k as int].0)->0;
                    assert(before[i] == nodes[i]);
                    assert(nodes[i].0 == nodes[k as int].0);
                }
                return None;
            }
            let links = copy_pairs(&saved[k].1);
            match Node::from_links(saved[k].0.clone(), links) {
                Some(node) => {
                    chain.nodes.push(node);
                },
                None => {
                    return None;
                },
            }
            proof {
                let after = nodes.take(k + 1);
                assert(chain@.nodes =~= before.push(nodes[k as int]));
                assert(after =~= before.push(nodes[k as int]));
                assert forall|a: int, b: int| 0 <= a < b < after.len() implies (
                #[trigger] after[a]).0 != (#[trigger] after[b]).0 by {
                    if b < k {
                        assert(before[a].0 != before[b].0);
                    } else {
                        assert(before[a].0 != nodes[k as int].0);
                    }
                }
                assert forall|i: int| 0 <= i < after.len() implies valid_tally(
                    (#[trigger] after[i]).1,
                ) by {
                    if i < k {
                        assert(after[i] == before[i]);
                    }
                }
            }
            k += 1;
        }
        assert(nodes.take(saved.len() as int) =~= nodes);
        Some(chain)
    }

    /// One step of a walk: the successor of `at` that `draw` picks.
    fn successor(&self, at: &Token, draw: u32) -> (r: Result<Token, Error>)
        requires
            self.wf(),
            self@.calculated,
        ensures
            stepped(step(self@.nodes, at@, draw as int), at@, r),
    {
        proof {
            lemma_index_of(self@.nodes, at@);
        }
        let i = match self.position(at) {
            Some(i) => i,
            None => {
                return Err(Error::NodeNotFound(at.clone()));
            },
        };
        assert(self@.nodes[i as int].1 == self.nodes[i as int]@.tally);
        assert(self.nodes[i as int]@.fresh);
        match self.nodes[i].choose_successor_with(draw) {
            Ok(Some(next)) => Ok(next),
            Ok(None) => Err(Error::ModelError("no token chosen by node")),
            Err(e) => Err(e),
        }
    }

    /// Walks from the start sentinel, one step for each draw until the end
    /// sentinel is reached, and returns the tokens left behind in order.
    /// Fails where a step fails, and where the draws are used up elsewhere
    /// than at the end sentinel. Rebuilds the weight tables first where the
    /// chain is stale.
    pub fn walk_with(&mut self, draws: &Vec<u32>) -> (r: Result<Vec<Token>, Error>)
        requires
            old(self).wf(),
        ensures
            final(self).wf(),
            final(self)@ == (ChainModel { calculated: true, ..old(self)@ }),
            walked(walk(old(self)@.nodes, draws@), r),
    {
        self.settle();
        let ghost nodes = self@.nodes;
        let mut path: Vec<Token> = Vec::new();
        let mut at = Token::Start;
        let mut k: usize = 0;
        assert(draws@.take(0) =~= Seq::empty());
        assert(symbols_of(path@) =~= Seq::empty());
        while k < draws.len()
            invariant
                k <= draws.len(),
                self.wf(),
                self@ == (ChainModel { calculated: true, ..old(self)@ }),
                self@.nodes == nodes,
                walk(nodes, draws@.take(k as int)) == (Walk::At {
                    path: symbols_of(path@),
                    at: at@,
                }),
            decreases draws.len() - k,
        {
            if at == Token::End {
                proof {
                    lemma_walk_over(nodes, draws@, k as int);
                }
                return Ok(path);
            }
            proof {
                assert(draws@.take(k + 1).drop_last() =~= draws@.take(k as int));
            }
            match self.successor(&at, draws[k]) {
                Ok(next) => {
                    let ghost before = symbols_of(path@);
                    let ghost left = at@;
                    path.push(at);
                    at = next;
                    assert(symbols_of(path@) =~= before.push(left));
                },
                Err(e) => {
                    proof {
                        lemma_walk_over(nodes, draws@, k + 1);
                    }
                    return Err(e);
                },
            }
            k += 1;
        }
        assert(draws@.take(draws.len() as int) =~= draws@);
        if at == Token::End {
            Ok(path)
        } else {
            Err(Error::GenerationDivergence)
        }
    }

    /// Generates a text with the draws given: the text of the walk that they
    /// lead to.
    pub fn generate_with(&mut self, draws: &Vec<u32>) -> (r: Result<String, Error>)
        requires
            old(self).wf(),
        ensures
            final(self).wf(),
            final(self)@ == (ChainModel { calculated: true, ..old(self)@ }),
            generated(walk(old(self)@.nodes, draws@), r),
    {
        match self.walk_with(draws) {
            Ok(path) => Ok(render_path(&path)),
            Err(e) => Err(e),
        }
    }

    /// Generates a text by a random walk of at most `MAX_STEPS` steps: it is
    /// what `generate_with` gives for the draws that were made. Rebuilds the
    /// weight tables first where the chain is stale.
    pub fn generate(&mut self) -> (r: Result<String, Error>)
        requires
            old(self).wf(),
        ensures
            final(self).wf(),
            final(self)@ == (ChainModel { calculated: true, ..old(self)@ }),
            exists|draws: Seq<u32>| generation(old(self)@.nodes, draws, r),
    {
        self.settle();
        let ghost nodes = self@.nodes;
        let ghost mut drawn: Seq<u32> = Seq::empty();
        let mut path: Vec<Token> = Vec::new();
        let mut at = Token::Start;
        let mut steps: usize = 0;
        assert(symbols_of(path@) =~= Seq::empty());
        while steps < MAX_STEPS
            invariant
                steps <= MAX_STEPS,
                steps == drawn.len(),
                self.wf(),
                self@ == (ChainModel { calculated: true, ..old(self)@ }),
                self@.nodes == nodes,
                walk(nodes, drawn) == (Walk::At { path: symbols_of(path@), at: at@ }),
            decreases MAX_STEPS - steps,
        {
            if at == Token::End {
                let r = Ok(render_path(&path));
                assert(generation(nodes, drawn, r));
                return r;
            }
            let draw = random_draw();
            proof {
                assert(drawn.push(draw).drop_last() =~= drawn);
                drawn = drawn.push(draw);
            }
            match self.successor(&at, draw) {
                Ok(next) => {
                    let ghost before = symbols_of(path@);
                    let ghost left = at@;
                    path.push(at);
                    at = next;
                    assert(symbols_of(path@) =~= before.push(left));
                },
                Err(e) => {
                    let r = Err(e);
                    assert(generation(nodes, drawn, r));
                    return r;
                },
            }
            steps += 1;
        }
        let r = if at == Token::End {
            Ok(render_path(&path))
        } else {
            Err(Error::GenerationDivergence)
        };
        assert(generation(nodes, drawn, r));
        r
    }

    /// The average number of distinct successors of a token, over the
    /// tokens that are no sentinel: the transitions that leave a token other
    /// than the start sentinel for a token other than the end sentinel, over
    /// the number of nodes less two. None where there are no more than two
    /// nodes. Rebuilds the weight tables first where the chain is stale.
    pub fn analyze(&mut self) -> (r: Option<Fraction>)
        requires
            old(self).wf(),
        ensures
            final(self).wf(),
            final(self)@ == (ChainModel { calculated: true, ..old(self)@ }),
            match r {
                Some(average) => old(self)@.nodes.len() > 2 && average.num == out_degrees(
                    old(self)@.nodes,
                ) && average.den == old(self)@.nodes.len() - 2,
                None => old(self)@.nodes.len() <= 2,
            },
    {
        self.settle();
        if self.nodes.len() <= 2 {
            return None;
        }
        let ghost nodes = self@.nodes;
        let mut sum: u128 = 0;
        let mut k: usize = 0;
        assert(nodes.take(0) =~= Seq::empty());
        while k < self.nodes.len()
            invariant
                k <= self.nodes.len(),
                self@.nodes == nodes,
                sum == out_degrees(nodes.take(k as int)),
                sum <= k * 0xffff_ffff_ffff_ffff,
            decreases self.nodes.len() - k,
        {
            proof {
                let prefix = nodes.take(k + 1);
                assert(prefix.drop_last() =~= nodes.take(k as int));
                assert(prefix.last() == (
                    self.nodes[k as int]@.symbol,
                    self.nodes[k as int]@.tally,
                ));
                assert((k + 1) * 0xffff_ffff_ffff_ffff <= 0xffff_ffff_ffff_ffff
                    * 0xffff_ffff_ffff_ffff) by (nonlinear_arith)
                    requires
                        0 <= k < 0xffff_ffff_ffff_ffff,
                ;
            }
            if *self.nodes[k].data() != Token::Start {
                let degree = self.nodes[k].successors_except(&Token::End);
                sum = sum + degree as u128;
            }
            k += 1;
        }
        assert(nodes.take(self.nodes.len() as int) =~= nodes);
        Some(Fraction { num: sum, den: (self.nodes.len() - 2) as u128 })
    }

    /// The probability of every transition from `a`: its successors
    /// ascending by count, each with its count over the total of `a`. None
    /// where `a` has no node. Rebuilds the weight tables first where the
    /// chain is stale.
    pub fn query_single(&mut self, a: &Token) -> (r: Option<Vec<(Token, Fraction)>>)
        requires
            old(self).wf(),
        ensures
            final(self).wf(),
            final(self)@ == (ChainModel { calculated: true, ..old(self)@ }),
            match index_of(old(self)@.nodes, a@) {
                Some(i) => r matches Some(parts) && parts_of(
                    parts@,
                    standalone_weights(old(self)@.nodes[i].1),
                    sum_counts(old(self)@.nodes[i].1),
                ),
                None => r is None,
            },
    {
        self.settle();
        match self.position(a) {
            Some(i) => {
                assert(self@.nodes[i as int].1 == self.nodes[i as int]@.tally);
                assert(self.nodes[i as int]@.fresh);
                self.nodes[i].probabilities()
            },
            None => None,
        }
    }
}

/// The value of saved counts: for every token its symbol and the tally of
/// its successors.
pub open spec fn snapshot(saved: Seq<(Token, Vec<(Token, i32)>)>) -> Seq<
    (Symbol, Seq<(Symbol, int)>),
> {
    saved.map_values(|e: (Token, Vec<(Token, i32)>)| (e.0@, entries(e.1@)))
}

/// Whether nodes can be held: no token has two nodes, and every tally can be
/// held.
pub open spec fn valid_nodes(nodes: Seq<(Symbol, Seq<(Symbol, int)>)>) -> bool {
    &&& distinct_keys(nodes)
    &&& forall|i: int| 0 <= i < nodes.len() ==> valid_tally((#[trigger] nodes[i]).1)
}

/// The number of transitions that count for the average out-degree: those
/// that leave a token other than the start sentinel for a token other than
/// the end sentinel.
pub open spec fn out_degrees(nodes: Seq<(Symbol, Seq<(Symbol, int)>)>) -> int
    decreases nodes.len(),
{
    if nodes.len() == 0 {
        0
    } else if nodes.last().0 != Symbol::Start {
        out_degrees(nodes.drop_last()) + count_except(nodes.last().1, Symbol::End)
    } else {
        out_degrees(nodes.drop_last())
    }
}

/// What `Chain::reduce` makes of a chain: the chain with the count of `b`
/// behind `a` reduced and all tables rebuilt, or the symbol that was not
/// found.
pub open spec fn reduction(chain: ChainModel, a: Symbol, b: Symbol, amount: int) -> Result<
    ChainModel,
    Symbol,
> {
    match index_of(chain.nodes, a) {
        None => Err(a),
        Some(i) => match index_of(chain.nodes[i].1, b) {
            None => Err(b),
            Some(_) => Ok(
                ChainModel {
                    nodes: chain.nodes.update(
                        i,
                        (a, unlinked(chain.nodes[i].1, b, amount)),
                    ),
                    calculated: true,
                },
            ),
        },
    }
}

} // verus!
