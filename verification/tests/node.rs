use lingk::error::Error;
use lingk::node::Node;
use lingk::token::Token;
use lingk::weights::Fraction;

fn float_eq(a: f32, b: f32) -> bool {
    (a - b).abs() < f32::EPSILON
}

fn value(part: &Fraction) -> f32 {
    part.num as f32 / part.den as f32
}

fn sample_node() -> Node {
    let mut node = Node::new(Token::Start);
    node.link(Token::Char('a'));
    node.link(Token::Char('a'));
    node.link(Token::Char('a'));
    node.link(Token::Char('b'));
    node
}

#[test]
fn nodes_link_correctly() {
    let mut node = Node::new(Token::Start);
    node.link(Token::End);
    assert!(node.total() == 1);
    let count = node.count(&Token::End).unwrap();
    assert!(count == 1);
}

#[test]
fn nodes_calculate_correctly() {
    let mut node = Node::new(Token::Start);
    node.link(Token::Char('a'));
    node.link(Token::Char('a'));
    node.link(Token::Char('a'));
    node.link(Token::Char('b'));
    node.calculate();

    let weights = node.weights().expect("Node should have weights");
    assert!(weights.len() == 2);
    assert!(weights.get(0).unwrap().0 == Token::Char('b'));
    assert!(weights.get(1).unwrap().0 == Token::Char('a'));
    assert!(float_eq(value(&weights.get(0).unwrap().1), 0.25));
    assert!(float_eq(value(&weights.get(1).unwrap().1), 1.0));
}

#[test]
fn query_on_node_gives_correct_value() {
    let mut node = Node::new(Token::Start);
    node.link(Token::Char('a'));
    node.link(Token::Char('a'));
    node.link(Token::Char('a'));
    node.link(Token::Char('b'));
    node.calculate();

    let weight_a = node.query_on('a').unwrap();
    let weight_b = node.query_on('b').unwrap();
    assert!(float_eq(value(&weight_a), 0.75));
    assert!(float_eq(value(&weight_b), 0.25));
}

#[test]
fn weights_are_exact_fractions() {
    let mut node = sample_node();
    node.calculate();
    let weights = node.weights().unwrap();
    assert_eq!(weights[0].1, Fraction { num: 1, den: 4 });
    assert_eq!(weights[1].1, Fraction { num: 4, den: 4 });
    let parts = node.probabilities().unwrap();
    assert_eq!(parts[0], (Token::Char('b'), Fraction { num: 1, den: 4 }));
    assert_eq!(parts[1], (Token::Char('a'), Fraction { num: 3, den: 4 }));
}

#[test]
fn total_is_the_sum_of_the_counts() {
    let mut node = Node::new(Token::Start);
    let order = ['x', 'y', 'x', 'z', 'x', 'y'];
    for c in order {
        node.link(Token::Char(c));
        let sum: i32 = node.links().iter().map(|(_, count)| *count).sum();
        assert_eq!(node.total(), sum);
    }
    assert_eq!(
        node.links(),
        vec![(Token::Char('x'), 3), (Token::Char('y'), 2), (Token::Char('z'), 1)]
    );
}

#[test]
fn linking_drops_the_tables() {
    let mut node = sample_node();
    node.calculate();
    assert!(node.is_calculated());
    node.link(Token::End);
    assert!(!node.is_calculated());
    assert!(node.weights().is_none());
    assert!(node.query_on('a').is_none());
}

#[test]
fn equal_counts_keep_the_order_of_first_sight() {
    let mut node = Node::new(Token::Start);
    for c in ['q', 'p', 'r', 'p', 'q', 'r', 's'] {
        node.link(Token::Char(c));
    }
    node.calculate();
    let weights = node.weights().unwrap();
    let order: Vec<Token> = weights.iter().map(|(token, _)| token.clone()).collect();
    assert_eq!(
        order,
        vec![Token::Char('s'), Token::Char('q'), Token::Char('p'), Token::Char('r')]
    );
    let sums: Vec<u128> = weights.iter().map(|(_, part)| part.num).collect();
    assert_eq!(sums, vec![1, 3, 5, 7]);
}

#[test]
fn cumulative_weights_rise_to_the_whole() {
    let mut node = Node::new(Token::Start);
    for c in ['a', 'b', 'c', 'a', 'c', 'c', 'd'] {
        node.link(Token::Char(c));
    }
    node.calculate();
    let weights = node.weights().unwrap();
    for pair in weights.windows(2) {
        assert!(pair[0].1.num <= pair[1].1.num);
    }
    let last = &weights.last().unwrap().1;
    assert_eq!(last.num, last.den);
    assert!(float_eq(value(last), 1.0));
}

#[test]
fn recomputing_twice_changes_nothing() {
    let mut node = sample_node();
    node.calculate();
    let first = node.weights().unwrap();
    let first_parts = node.probabilities().unwrap();
    node.calculate();
    assert_eq!(node.weights().unwrap(), first);
    assert_eq!(node.probabilities().unwrap(), first_parts);
}

#[test]
fn unlink_takes_from_count_and_total() {
    let mut node = sample_node();
    node.unlink(&Token::Char('a'), 2).unwrap();
    assert_eq!(node.count(&Token::Char('a')), Some(1));
    assert_eq!(node.total(), 2);
    assert!(!node.is_calculated());
}

#[test]
fn unlink_of_the_whole_count_removes_the_entry() {
    let mut node = sample_node();
    node.unlink(&Token::Char('b'), 1).unwrap();
    assert_eq!(node.count(&Token::Char('b')), None);
    assert_eq!(node.total(), 3);
    assert_eq!(node.links(), vec![(Token::Char('a'), 3)]);
}

#[test]
fn unlink_of_more_than_the_count_clamps() {
    let mut node = sample_node();
    node.unlink(&Token::Char('b'), 5).unwrap();
    assert_eq!(node.count(&Token::Char('b')), None);
    assert_eq!(node.total(), 3);
    node.unlink(&Token::Char('a'), i32::MAX).unwrap();
    assert_eq!(node.total(), 0);
    assert!(node.links().is_empty());
}

#[test]
fn unlink_of_an_unknown_successor_fails() {
    let mut node = sample_node();
    match node.unlink(&Token::Char('z'), 1) {
        Err(Error::TokenNotFound(token)) => assert_eq!(token, Token::Char('z')),
        _ => panic!("an unknown successor was unlinked"),
    }
    assert_eq!(node.total(), 4);
}

#[test]
fn choosing_before_calculation_fails() {
    let node = sample_node();
    assert!(matches!(node.choose_successor_with(0), Err(Error::NotRecomputed)));
    assert!(matches!(node.choose_successor(), Err(Error::NotRecomputed)));
}

#[test]
fn draws_pick_by_cumulative_fraction() {
    let mut node = sample_node();
    node.calculate();
    // b holds the first quarter of the draws, a the rest.
    assert_eq!(node.choose_successor_with(0).unwrap(), Some(Token::Char('b')));
    assert_eq!(node.choose_successor_with(0x4000_0000).unwrap(), Some(Token::Char('b')));
    assert_eq!(node.choose_successor_with(0x4000_0001).unwrap(), Some(Token::Char('a')));
    assert_eq!(node.choose_successor_with(u32::MAX).unwrap(), Some(Token::Char('a')));
}

#[test]
fn random_choice_is_a_recorded_successor() {
    let mut node = sample_node();
    node.calculate();
    for _ in 0..200 {
        let token = node.choose_successor().unwrap().unwrap();
        assert!(token == Token::Char('a') || token == Token::Char('b'));
    }
}

#[test]
fn probability_of_any_token() {
    let mut node = Node::new(Token::Char('q'));
    node.link(Token::End);
    node.link(Token::Str("word".to_string()));
    node.link(Token::End);
    assert_eq!(node.probability_of(&Token::End), None);
    node.calculate();
    assert_eq!(node.probability_of(&Token::End), Some(Fraction { num: 2, den: 3 }));
    assert_eq!(
        node.probability_of(&Token::Str("word".to_string())),
        Some(Fraction { num: 1, den: 3 })
    );
    assert_eq!(node.probability_of(&Token::Start), None);
    assert_eq!(node.successors_except(&Token::End), 1);
}

#[test]
fn nodes_are_built_from_counts_that_can_be_held() {
    let links = vec![(Token::Char('a'), 2), (Token::End, 1)];
    let node = Node::from_links(Token::Start, links).unwrap();
    assert_eq!(node.total(), 3);
    assert_eq!(node.data(), &Token::Start);
    assert!(!node.is_calculated());
    assert!(Node::from_links(Token::Start, vec![(Token::End, -1)]).is_none());
    assert!(Node::from_links(Token::Start, vec![(Token::End, 1), (Token::End, 1)]).is_none());
}

#[test]
fn a_negative_amount_adds_to_the_count() {
    let mut node = sample_node();
    node.unlink(&Token::Char('b'), -2).unwrap();
    assert_eq!(node.count(&Token::Char('b')), Some(3));
    assert_eq!(node.total(), 6);
}
