use solitaire::cards::Deck;
use solitaire::french::{standard_32_deck, standard_52_deck, Card, Suite, ACE, KING};
use solitaire::random_engine::{RandomEngine, XorShifEngine};

#[test]
fn draw() {
    let mut deck = Deck::from_vec((1..6).collect::<Vec<i32>>());

    assert_eq!(deck.draw(), Some(1));
    assert_eq!(deck.draw_many(3), vec![2, 3, 4]);
    assert_eq!(deck.len(), 1);
}

#[test]
fn shuffle() {
    let mut deck = Deck::from_vec((1..10).collect::<Vec<i32>>());
    let mut rng = XorShifEngine::new(0);

    Deck::shuffle(&mut deck, &mut rng);
    assert_eq!(deck.draw_all(), vec![2, 3, 4, 5, 6, 7, 8, 9, 1]);
}

#[test]
fn put_top() {
    let mut deck = Deck::from_vec((1..5).collect::<Vec<i32>>());

    deck.put_top(5);
    assert_eq!(deck.peek_many(5), vec![5, 1, 2, 3, 4]);
    assert_eq!(deck.peek(), Some(&5));

    deck.put_top_many((1..3).collect::<Vec<i32>>());
    assert_eq!(deck.peek_many(7), vec![1, 2, 5, 1, 2, 3, 4]);
    assert_eq!(deck.peek_many(3), vec![1, 2, 5]);
}

#[test]
fn put_bottom() {
    let mut deck = Deck::from_vec((1..5).collect::<Vec<i32>>());

    deck.put_bottom(5);
    assert_eq!(deck.peek_many(5), vec![1, 2, 3, 4, 5]);

    deck.put_bottom_many((1..3).collect::<Vec<i32>>());
    assert_eq!(deck.peek_many(7), vec![1, 2, 3, 4, 5, 1, 2]);
}

#[test]
fn std_decks() {
    assert_eq!(standard_52_deck().len(), 52);
    assert_eq!(standard_32_deck().len(), 32);
}

#[test]
fn standard_deck_contents() {
    let mut deck = standard_52_deck();
    let cards = deck.draw_all();
    assert_eq!(cards[0], Card::new(ACE, Suite::Hearts));
    assert_eq!(cards[12], Card::new(KING, Suite::Hearts));
    assert_eq!(cards[13], Card::new(ACE, Suite::Diamonds));
    assert_eq!(cards[51], Card::new(KING, Suite::Spades));
    for c in &cards {
        assert!(ACE <= c.rank() && c.rank() <= KING);
    }
}

#[test]
fn shuffle_keeps_cards() {
    let mut deck = standard_52_deck();
    let mut rng = XorShifEngine::new(42);
    Deck::shuffle(&mut deck, &mut rng);
    assert_eq!(deck.len(), 52);
    let mut cards = deck.draw_all();
    cards.sort_by(|a, b| (a.rank(), a.suite() as u8).cmp(&(b.rank(), b.suite() as u8)));
    let mut expected = standard_52_deck().draw_all();
    expected.sort_by(|a, b| (a.rank(), a.suite() as u8).cmp(&(b.rank(), b.suite() as u8)));
    assert_eq!(cards, expected);
}

#[test]
fn empty_deck_edges() {
    let mut deck: Deck<u8> = Deck::new();
    assert!(deck.is_empty());
    assert_eq!(deck.draw(), None);
    assert_eq!(deck.peek(), None);
    assert_eq!(deck.peek_many(3), Vec::<u8>::new());
    assert_eq!(deck.draw_all(), Vec::<u8>::new());
}

#[test]
fn xorshift_step_value() {
    let mut rng = XorShifEngine::new(1);
    assert_eq!(rng.next(), 1082269761);
    let mut zero = XorShifEngine::new(0);
    assert_eq!(zero.next(), 0);
    assert_eq!(zero.next(), 0);
}

#[test]
fn default_engine_runs() {
    let mut rng = solitaire::random_engine::default();
    let _ = rng.next();
    let mut rng2 = solitaire::random_engine::DefaultRandomEngine::new();
    let _ = rng2.next();
}
