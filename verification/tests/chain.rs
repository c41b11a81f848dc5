use lingk::chain::Chain;
use lingk::error::Error;
use lingk::token::{CharTokenizer, Token, Tokenizer};
use lingk::walk::{render_path, MAX_STEPS};
use lingk::weights::Fraction;

fn close(part: &Fraction, expected: f32) -> bool {
    (part.num as f32 / part.den as f32 - expected).abs() < 1e-3
}

fn chain_of_aaab() -> Chain {
    let mut chain = Chain::default();
    let tokens = CharTokenizer.tokenize("aaab");
    assert_eq!(
        tokens,
        vec![
            Token::Start,
            Token::Char('a'),
            Token::Char('a'),
            Token::Char('a'),
            Token::Char('b'),
            Token::End
        ]
    );
    assert!(chain.has_room_for(tokens.len()));
    chain.feed(tokens);
    chain.calculate();
    chain
}

#[test]
fn new_chain_is_empty_and_stale() {
    let chain = Chain::default();
    assert_eq!(chain.len(), 0);
    assert!(!chain.is_calculated());
    assert!(chain.node(&Token::Start).is_none());
}

#[test]
fn feed_invalidates_and_calculate_restores() {
    let mut chain = chain_of_aaab();
    assert!(chain.is_calculated());
    chain.feed(Vec::new());
    assert!(!chain.is_calculated());
    chain.calculate();
    assert!(chain.is_calculated());
    chain.feed(CharTokenizer.tokenize("b"));
    assert!(!chain.is_calculated());
}

#[test]
fn feed_gives_every_token_a_node() {
    let mut chain = Chain::default();
    chain.feed(vec![Token::Char('x')]);
    assert_eq!(chain.len(), 1);
    let node = chain.node(&Token::Char('x')).unwrap();
    assert_eq!(node.total(), 0);
    assert!(node.links().is_empty());
}

#[test]
fn counts_and_weights_after_aaab() {
    let chain = chain_of_aaab();
    assert_eq!(chain.len(), 4);
    let node = chain.node(&Token::Char('a')).unwrap();
    assert_eq!(node.links(), vec![(Token::Char('a'), 2), (Token::Char('b'), 1)]);
    assert_eq!(node.total(), 3);
    let weights = node.weights().unwrap();
    assert_eq!(
        weights,
        vec![
            (Token::Char('b'), Fraction { num: 1, den: 3 }),
            (Token::Char('a'), Fraction { num: 3, den: 3 })
        ]
    );
    assert!(close(&weights[0].1, 0.333));
    assert!(close(&weights[1].1, 1.0));
    let parts = node.probabilities().unwrap();
    assert!(close(&parts[0].1, 0.333));
    assert!(close(&parts[1].1, 0.667));
    let start = chain.node(&Token::Start).unwrap();
    assert_eq!(start.links(), vec![(Token::Char('a'), 1)]);
    let b = chain.node(&Token::Char('b')).unwrap();
    assert_eq!(b.links(), vec![(Token::End, 1)]);
    assert_eq!(chain.node(&Token::End).unwrap().total(), 0);
}

#[test]
fn query_single_lists_the_probabilities() {
    let mut chain = chain_of_aaab();
    let parts = chain.query_single(&Token::Char('a')).unwrap();
    assert_eq!(
        parts,
        vec![
            (Token::Char('b'), Fraction { num: 1, den: 3 }),
            (Token::Char('a'), Fraction { num: 2, den: 3 })
        ]
    );
    assert!(close(&parts[0].1, 0.333));
    assert!(close(&parts[1].1, 0.667));
    assert!(chain.query_single(&Token::Char('z')).is_none());
}

#[test]
fn query_single_recomputes_a_stale_chain() {
    let mut chain = Chain::default();
    chain.feed(CharTokenizer.tokenize("ab"));
    assert!(!chain.is_calculated());
    let parts = chain.query_single(&Token::Char('a')).unwrap();
    assert_eq!(parts, vec![(Token::Char('b'), Fraction { num: 1, den: 1 })]);
    assert!(chain.is_calculated());
}

#[test]
fn reduce_by_the_count_removes_the_transition() {
    let mut chain = chain_of_aaab();
    chain.reduce(&Token::Char('a'), &Token::Char('b'), 1).unwrap();
    assert!(chain.is_calculated());
    let node = chain.node(&Token::Char('a')).unwrap();
    assert_eq!(node.links(), vec![(Token::Char('a'), 2)]);
    assert_eq!(node.total(), 2);
    assert_eq!(node.weights().unwrap(), vec![(Token::Char('a'), Fraction { num: 2, den: 2 })]);
}

#[test]
fn reduce_by_more_than_the_count_clamps() {
    let mut chain = chain_of_aaab();
    chain.reduce(&Token::Char('a'), &Token::Char('b'), 5).unwrap();
    let node = chain.node(&Token::Char('a')).unwrap();
    assert_eq!(node.links(), vec![(Token::Char('a'), 2)]);
    assert_eq!(node.total(), 2);
    assert_eq!(node.weights().unwrap(), vec![(Token::Char('a'), Fraction { num: 2, den: 2 })]);
    let mut other = chain_of_aaab();
    other.reduce(&Token::Char('a'), &Token::Char('b'), 1).unwrap();
    assert_eq!(chain.counts(), other.counts());
}

#[test]
fn reduce_of_part_of_a_count_keeps_the_transition() {
    let mut chain = chain_of_aaab();
    chain.reduce(&Token::Char('a'), &Token::Char('a'), 1).unwrap();
    let node = chain.node(&Token::Char('a')).unwrap();
    assert_eq!(node.links(), vec![(Token::Char('a'), 1), (Token::Char('b'), 1)]);
    assert_eq!(node.total(), 2);
}

#[test]
fn reduce_fails_on_unknown_tokens() {
    let mut chain = chain_of_aaab();
    let before = chain.counts();
    match chain.reduce(&Token::Char('z'), &Token::Char('b'), 1) {
        Err(Error::TokenNotFound(token)) => assert_eq!(token, Token::Char('z')),
        _ => panic!("reduced from a token without a node"),
    }
    match chain.reduce(&Token::Char('a'), &Token::End, 1) {
        Err(Error::TokenNotFound(token)) => assert_eq!(token, Token::End),
        _ => panic!("reduced a transition that was never seen"),
    }
    assert_eq!(chain.counts(), before);
}

#[test]
fn counts_round_trip() {
    let mut chain = chain_of_aaab();
    let saved = chain.counts();
    let mut restored = Chain::from_counts(&saved).unwrap();
    assert!(!restored.is_calculated());
    restored.calculate();
    assert_eq!(restored.counts(), saved);
    for (token, _) in saved.iter() {
        let a = chain.node(token).unwrap();
        let b = restored.node(token).unwrap();
        assert_eq!(a.total(), b.total());
        assert_eq!(a.weights(), b.weights());
        assert_eq!(a.probabilities(), b.probabilities());
    }
    let draws = vec![7, u32::MAX, 0, 0, 9];
    assert_eq!(chain.generate_with(&draws).unwrap(), restored.generate_with(&draws).unwrap());
}

#[test]
fn counts_that_cannot_be_held_are_refused() {
    let twice = vec![(Token::Start, vec![]), (Token::Start, vec![])];
    assert!(Chain::from_counts(&twice).is_none());
    let repeated = vec![(Token::Start, vec![(Token::End, 1), (Token::End, 2)])];
    assert!(Chain::from_counts(&repeated).is_none());
    let zero = vec![(Token::Start, vec![(Token::End, 0)])];
    assert!(Chain::from_counts(&zero).is_none());
    let large = vec![(Token::Start, vec![(Token::End, i32::MAX), (Token::Char('a'), 1)])];
    assert!(Chain::from_counts(&large).is_none());
    let fine = vec![(Token::Start, vec![(Token::End, i32::MAX)])];
    assert!(Chain::from_counts(&fine).is_some());
}

#[test]
fn generation_on_a_single_letter_always_gives_it() {
    let mut chain = Chain::default();
    chain.feed(CharTokenizer.tokenize("a"));
    for _ in 0..50 {
        assert_eq!(chain.generate().unwrap(), "a");
    }
    for draw in [0, 1, 0x8000_0000, u32::MAX] {
        let path = chain.walk_with(&vec![draw, draw]).unwrap();
        assert_eq!(path, vec![Token::Start, Token::Char('a')]);
    }
}

#[test]
fn random_generation_ends() {
    let mut chain = chain_of_aaab();
    for _ in 0..100 {
        let text = chain.generate().unwrap();
        assert!(text == "ab" || text == "aab");
    }
}

#[test]
fn draws_steer_the_walk() {
    let mut chain = chain_of_aaab();
    // behind a: b up to a third of the draws, a beyond.
    let draws = vec![0, u32::MAX, u32::MAX, 0, 0];
    let path = chain.walk_with(&draws).unwrap();
    assert_eq!(
        path,
        vec![
            Token::Start,
            Token::Char('a'),
            Token::Char('a'),
            Token::Char('a'),
            Token::Char('b')
        ]
    );
    assert_eq!(chain.generate_with(&draws).unwrap(), "aab");
    // draws that are left over change nothing.
    let more = vec![0, u32::MAX, u32::MAX, 0, 0, 5, 6];
    assert_eq!(chain.generate_with(&more).unwrap(), "aab");
}

#[test]
fn a_walk_that_runs_out_of_draws_diverges() {
    let mut chain = chain_of_aaab();
    assert!(matches!(chain.generate_with(&vec![]), Err(Error::GenerationDivergence)));
    let staying = vec![u32::MAX; 10];
    assert!(matches!(chain.generate_with(&staying), Err(Error::GenerationDivergence)));
    assert!(matches!(chain.walk_with(&staying), Err(Error::GenerationDivergence)));
}

#[test]
fn a_loop_without_exit_diverges_at_the_step_limit() {
    let mut chain = Chain::default();
    chain.feed(vec![Token::Start, Token::Char('a'), Token::Char('a')]);
    assert!(MAX_STEPS >= 1000);
    assert!(matches!(chain.generate(), Err(Error::GenerationDivergence)));
}

#[test]
fn generation_on_an_empty_chain_misses_the_start() {
    let mut chain = Chain::default();
    match chain.generate() {
        Err(Error::NodeNotFound(token)) => assert_eq!(token, Token::Start),
        _ => panic!("an empty chain generated"),
    }
    match chain.generate_with(&vec![1]) {
        Err(Error::NodeNotFound(token)) => assert_eq!(token, Token::Start),
        _ => panic!("an empty chain generated"),
    }
}

#[test]
fn generation_stops_at_a_token_without_successors() {
    let mut chain = Chain::default();
    chain.feed(vec![Token::Start, Token::Char('a')]);
    match chain.generate() {
        Err(Error::ModelError(why)) => assert_eq!(why, "no token chosen by node"),
        _ => panic!("walked on from a token without successors"),
    }
}

#[test]
fn the_third_repeat_is_not_rendered() {
    let a = Token::Char('a');
    let b = Token::Char('b');
    let path = vec![
        Token::Start,
        a.clone(),
        a.clone(),
        a.clone(),
        a.clone(),
        b.clone(),
        a.clone(),
        a.clone(),
        a.clone(),
    ];
    assert_eq!(render_path(&path), "aabaa");
    assert_eq!(render_path(&vec![]), "");
    let words = vec![
        Token::Str("ho".to_string()),
        Token::Str("ho".to_string()),
        Token::Str("ho".to_string()),
        Token::PositionalChar { c: '!', i: 3 },
    ];
    assert_eq!(render_path(&words), "hoho!");
}

#[test]
fn stutter_is_dropped_from_generated_text() {
    let mut chain = Chain::default();
    chain.feed(CharTokenizer.tokenize("aaaa"));
    // behind a: the end up to a quarter of the draws, a beyond.
    let draws = vec![0, u32::MAX, u32::MAX, u32::MAX, 0];
    let path = chain.walk_with(&draws).unwrap();
    assert_eq!(path.len(), 5);
    assert_eq!(chain.generate_with(&draws).unwrap(), "aa");
}

#[test]
fn analyze_averages_the_out_degree() {
    let mut chain = chain_of_aaab();
    assert_eq!(chain.analyze(), Some(Fraction { num: 2, den: 2 }));
    let mut wider = Chain::default();
    wider.feed(CharTokenizer.tokenize("abcab"));
    wider.feed(CharTokenizer.tokenize("ba"));
    // a: b, end; b: c, end, a; c: a. Without the end: 1 + 2 + 1 over 3 letters.
    assert_eq!(wider.analyze(), Some(Fraction { num: 4, den: 3 }));
    assert!(wider.is_calculated());
}

#[test]
fn analyze_needs_a_token_besides_the_sentinels() {
    let mut empty = Chain::default();
    assert_eq!(empty.analyze(), None);
    let mut bare = Chain::default();
    bare.feed(CharTokenizer.tokenize(""));
    assert_eq!(bare.len(), 2);
    assert_eq!(bare.analyze(), None);
}

#[test]
fn room_is_measured_against_the_largest_total() {
    let full = vec![(Token::Start, vec![(Token::End, i32::MAX - 2)])];
    let chain = Chain::from_counts(&full).unwrap();
    assert!(chain.has_room_for(2));
    assert!(!chain.has_room_for(3));
    assert!(Chain::default().has_room_for(i32::MAX as usize));
    assert!(!Chain::default().has_room_for(i32::MAX as usize + 1));
}
