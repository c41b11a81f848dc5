//! Random walks over the nodes, and the text that a walk renders to.
//!
//! A walk starts at the start sentinel and takes one step for each draw: the
//! draw picks a successor of the token where the walk stands. It is over when
//! it stands at the end sentinel, or when a step fails. Draws that are left
//! over change nothing.

use crate::error::Error;
use crate::token::{symbols_of, Symbol, Token};
use crate::weights::{index_of, picked};
use vstd::prelude::*;
use vstd::string::StringExecFns;

verus! {

/// What one step from a token comes to.
pub enum Step {
    /// The draw picked this successor.
    Next(Symbol),
    /// The token has no node.
    Missing,
    /// The token has a node without successors.
    Stuck,
}

/// How far a walk has come.
pub enum Walk {
    /// The walk has left the tokens of `path` behind, in this order, and
    /// stands at `at`.
    At { path: Seq<Symbol>, at: Symbol },
    /// The walk reached this token, which has no node.
    Missing(Symbol),
    /// The walk reached this token, whose node has no successors.
    Stuck(Symbol),
}

/// One step from `at` with `draw`.
pub open spec fn step(nodes: Seq<(Symbol, Seq<(Symbol, int)>)>, at: Symbol, draw: int) -> Step {
    match index_of(nodes, at) {
        None => Step::Missing,
        Some(i) => match picked(nodes[i].1, draw) {
            Some(next) => Step::Next(next),
            None => Step::Stuck,
        },
    }
}

/// Whether a walk is over: it stands at the end sentinel, or it failed.
pub open spec fn over(walk: Walk) -> bool {
    match walk {
        Walk::At { path, at } => at == Symbol::End,
        _ => true,
    }
}

/// The walk after one more draw. A walk that is over stays as it is.
pub open spec fn advance(nodes: Seq<(Symbol, Seq<(Symbol, int)>)>, walk: Walk, draw: int) -> Walk {
    match walk {
        Walk::At { path, at } => if at == Symbol::End {
            walk
        } else {
            match step(nodes, at, draw) {
                Step::Next(next) => Walk::At { path: path.push(at), at: next },
                Step::Missing => Walk::Missing(at),
                Step::Stuck => Walk::Stuck(at),
            }
        },
        _ => walk,
    }
}

/// The walk that the draws lead to from the start sentinel.
pub open spec fn walk(nodes: Seq<(Symbol, Seq<(Symbol, int)>)>, draws: Seq<u32>) -> Walk
    decreases draws.len(),
{
    if draws.len() == 0 {
        Walk::At { path: Seq::empty(), at: Symbol::Start }
    } else {
        advance(nodes, walk(nodes, draws.drop_last()), draws.last() as int)
    }
}

/// Whether the token at `k` is the third or a later one in a run of tokens
/// with the same text.
pub open spec fn stutters(path: Seq<Symbol>, k: int) -> bool {
    &&& k >= 2
    &&& path[k].rendering() == path[k - 1].rendering()
    &&& path[k - 1].rendering() == path[k - 2].rendering()
}

/// The text of a path: the texts of its tokens in order, without those that
/// stutter. No text stands more than twice in a row.
pub open spec fn rendered(path: Seq<Symbol>) -> Seq<char>
    decreases path.len(),
{
    if path.len() == 0 {
        Seq::empty()
    } else if stutters(path, path.len() - 1) {
        rendered(path.drop_last())
    } else {
        rendered(path.drop_last()) + path.last().rendering()
    }
}

/// A walk that is over after some of the draws is the walk of all of them.
pub proof fn lemma_walk_over(nodes: Seq<(Symbol, Seq<(Symbol, int)>)>, draws: Seq<u32>, k: int)
    requires
        0 <= k <= draws.len(),
        over(walk(nodes, draws.take(k))),
    ensures
        walk(nodes, draws) == walk(nodes, draws.take(k)),
    decreases draws.len() - k,
{
    if k == draws.len() {
        assert(draws.take(k) =~= draws);
    } else {
        assert(draws.take(k + 1).drop_last() =~= draws.take(k));
        lemma_walk_over(nodes, draws, k + 1);
    }
}

/// A walk leaves at most one token behind for each draw, the start sentinel
/// first and the end sentinel never.
pub proof fn lemma_walk_path(nodes: Seq<(Symbol, Seq<(Symbol, int)>)>, draws: Seq<u32>)
    ensures
        walk(nodes, draws) matches Walk::At { path, at } ==> {
            &&& path.len() <= draws.len()
            &&& path.len() > 0 ==> path[0] == Symbol::Start
            &&& path.len() == 0 ==> at == Symbol::Start
            &&& forall|k: int| 0 <= k < path.len() ==> path[k] != Symbol::End
        },
    decreases draws.len(),
{
    if draws.len() > 0 {
        lemma_walk_path(nodes, draws.drop_last());
    }
}

/// The text of a path, without what stutters.
pub fn render_path(path: &Vec<Token>) -> (text: String)
    ensures
        text@ == rendered(symbols_of(path@)),
{
    let ghost symbols = symbols_of(path@);
    let mut text = String::new();
    let mut last = String::new();
    let mut before_last = String::new();
    let mut k: usize = 0;
    assert(symbols.take(0) =~= Seq::empty());
    while k < path.len()
        invariant
            k <= path.len(),
            symbols == symbols_of(path@),
            text@ == rendered(symbols.take(k as int)),
            k >= 1 ==> last@ == symbols[k - 1].rendering(),
            k >= 2 ==> before_last@ == symbols[k - 2].rendering(),
        decreases path.len() - k,
    {
        let ghost prefix = symbols.take(k + 1);
        proof {
            assert(prefix.drop_last() =~= symbols.take(k as int));
            assert(prefix.last() == symbols[k as int]);
            if k >= 1 {
                assert(prefix[k - 1] == symbols[k - 1]);
            }
            if k >= 2 {
                assert(prefix[k - 2] == symbols[k - 2]);
            }
        }
        let shown = path[k].to_string();
        if !(k >= 2 && shown.eq(&last) && last.eq(&before_last)) {
            text.append(shown.as_str());
        }
        before_last = last;
        last = shown;
        k += 1;
    }
    assert(symbols.take(path.len() as int) =~= symbols);
    text
}

/// What a step owes: the successor, or the failure that says why there is
/// none.
pub open spec fn stepped(step: Step, at: Symbol, r: Result<Token, Error>) -> bool {
    match step {
        Step::Next(next) => r matches Ok(token) && token@ == next,
        Step::Missing => r matches Err(Error::NodeNotFound(missing)) && missing@ == at,
        Step::Stuck => r matches Err(Error::ModelError(why)) && why@ == "no token chosen by node"@,
    }
}

/// What a walk owes once the draws are used up: the path, where the walk
/// stands at the end sentinel; the failure of the step that failed; and the
/// report that the end was not reached, where the walk stands elsewhere.
pub open spec fn walked(walk: Walk, r: Result<Vec<Token>, Error>) -> bool {
    match walk {
        Walk::At { path, at } => if at == Symbol::End {
            r matches Ok(tokens) && symbols_of(tokens@) == path
        } else {
            r matches Err(Error::GenerationDivergence)
        },
        Walk::Missing(at) => r matches Err(Error::NodeNotFound(missing)) && missing@ == at,
        Walk::Stuck(at) => r matches Err(Error::ModelError(why)) && why@
            == "no token chosen by node"@,
    }
}

/// What a generation owes once the draws are used up: as `walked`, with the
/// text of the path in place of the path.
pub open spec fn generated(walk: Walk, r: Result<String, Error>) -> bool {
    match walk {
        Walk::At { path, at } => if at == Symbol::End {
            r matches Ok(text) && text@ == rendered(path)
        } else {
            r matches Err(Error::GenerationDivergence)
        },
        Walk::Missing(at) => r matches Err(Error::NodeNotFound(missing)) && missing@ == at,
        Walk::Stuck(at) => r matches Err(Error::ModelError(why)) && why@
            == "no token chosen by node"@,
    }
}

/// The most steps that a walk with ambient randomness takes.
pub const MAX_STEPS: usize = 100_000;

/// Whether `r` is what a generation with these draws owes, where the draws
/// are at most `MAX_STEPS`, and exactly so many where the end was not
/// reached.
pub open spec fn generation(
    nodes: Seq<(Symbol, Seq<(Symbol, int)>)>,
    draws: Seq<u32>,
    r: Result<String, Error>,
) -> bool {
    &&& draws.len() <= MAX_STEPS
    &&& generated(walk(nodes, draws), r)
    &&& r matches Err(Error::GenerationDivergence) ==> draws.len() == MAX_STEPS
}

} // verus!
