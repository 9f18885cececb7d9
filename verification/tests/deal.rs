use thegame::deal::{
    draw_many, hand_size, initial_stacks, shuffle, shuffle_with, standard_deck, DECK_SIZE,
};
use thegame::rules::{Card, Stack};
use thegame::table::GameState;

fn card(v: u8) -> Card {
    Card { id: v, value: v }
}

fn cards(values: &[u8]) -> Vec<Card> {
    values.iter().map(|v| card(*v)).collect()
}

#[test]
fn the_deck_holds_the_values_from_2_to_99() {
    let deck = standard_deck();
    assert_eq!(deck.len(), 98);
    assert_eq!(deck.len(), DECK_SIZE);
    assert_eq!(deck[0], card(2));
    assert_eq!(deck[1], card(3));
    assert_eq!(deck[97], card(99));
    for (i, c) in deck.iter().enumerate() {
        assert_eq!(c.value as usize, i + 2);
        assert_eq!(c.id, c.value);
    }
}

#[test]
fn the_stacks_begin_at_1_and_100() {
    assert_eq!(
        initial_stacks(),
        vec![
            Stack { id: 0, ascending: true, current_value: 1 },
            Stack { id: 1, ascending: true, current_value: 1 },
            Stack { id: 2, ascending: false, current_value: 100 },
            Stack { id: 3, ascending: false, current_value: 100 },
        ]
    );
}

#[test]
fn the_hand_size_goes_by_the_number_of_players() {
    assert_eq!(hand_size(0), 8);
    assert_eq!(hand_size(1), 8);
    assert_eq!(hand_size(2), 7);
    assert_eq!(hand_size(3), 6);
    assert_eq!(hand_size(5), 6);
    assert_eq!(hand_size(100), 6);
}

#[test]
fn a_shuffle_follows_its_draws() {
    let mut deck = cards(&[1, 2, 3, 4]);
    shuffle_with(&mut deck, &vec![2, 0, 1, 5]);
    assert_eq!(deck, cards(&[3, 2, 4, 1]));
    let mut deck = cards(&[1, 2, 3, 4]);
    shuffle_with(&mut deck, &vec![0, 0, 0, 0]);
    assert_eq!(deck, cards(&[1, 2, 3, 4]));
    let mut deck = cards(&[1, 2, 3, 4]);
    shuffle_with(&mut deck, &vec![3, 2, 1, 0]);
    assert_eq!(deck, cards(&[4, 1, 2, 3]));
    let mut deck = cards(&[1, 2, 3]);
    shuffle_with(&mut deck, &vec![u128::MAX, u128::MAX - 1, 7]);
    assert_eq!(u128::MAX % 3, 0);
    assert_eq!((u128::MAX - 1) % 2, 0);
    assert_eq!(deck, cards(&[1, 2, 3]));
}

#[test]
fn a_shuffle_keeps_the_cards() {
    let mut deck = standard_deck();
    shuffle(&mut deck);
    assert_eq!(deck.len(), 98);
    let mut values: Vec<u8> = deck.iter().map(|c| c.value).collect();
    values.sort();
    assert_eq!(values, (2..=99u8).collect::<Vec<u8>>());
    assert!(deck.iter().all(|c| c.id == c.value));
}

#[test]
fn shuffles_differ() {
    let mut a = standard_deck();
    let mut b = standard_deck();
    let mut c = standard_deck();
    shuffle(&mut a);
    shuffle(&mut b);
    shuffle(&mut c);
    assert!(a != b || b != c);
    let mut empty: Vec<Card> = Vec::new();
    shuffle(&mut empty);
    assert!(empty.is_empty());
}

#[test]
fn as_many_draws_as_asked() {
    assert_eq!(draw_many(0).len(), 0);
    assert_eq!(draw_many(5).len(), 5);
    let many = draw_many(20);
    assert!(many.iter().any(|d| *d != many[0]));
}

#[test]
fn hands_are_dealt_from_the_front_of_the_deck() {
    let names = vec!["alice".to_string(), "bob".to_string()];
    let deck = standard_deck();
    let t = GameState::deal(&names, deck);
    assert_eq!(t.hand_size, 7);
    assert_eq!(t.hands.len(), 2);
    assert_eq!(t.hands[0].player, "alice");
    assert_eq!(t.hands[0].cards, cards(&[2, 3, 4, 5, 6, 7, 8]));
    assert_eq!(t.hands[1].player, "bob");
    assert_eq!(t.hands[1].cards, cards(&[9, 10, 11, 12, 13, 14, 15]));
    assert_eq!(t.draw_pile.len(), 84);
    assert_eq!(t.draw_pile[0], card(16));
    assert_eq!(t.draw_pile[83], card(99));
    assert_eq!(t.stacks, initial_stacks());
    assert_eq!(t.active_player, None);
    assert!(t.votes.is_empty());
}

#[test]
fn one_player_holds_eight_and_three_hold_six() {
    let t = GameState::deal(&vec!["solo".to_string()], standard_deck());
    assert_eq!(t.hand_size, 8);
    assert_eq!(t.hands[0].cards.len(), 8);
    assert_eq!(t.draw_pile.len(), 90);
    let names = vec!["a".to_string(), "b".to_string(), "c".to_string()];
    let t = GameState::deal(&names, standard_deck());
    assert_eq!(t.hand_size, 6);
    assert!(t.hands.iter().all(|h| h.cards.len() == 6));
    assert_eq!(t.hands[2].cards, cards(&[14, 15, 16, 17, 18, 19]));
    assert_eq!(t.draw_pile.len(), 80);
}

#[test]
fn a_short_deck_is_dealt_as_far_as_it_goes() {
    let names = vec!["alice".to_string(), "bob".to_string()];
    let t = GameState::deal(&names, cards(&[10, 20, 30, 40, 50, 60, 70, 80, 90]));
    assert_eq!(t.hands[0].cards, cards(&[10, 20, 30, 40, 50, 60, 70]));
    assert_eq!(t.hands[1].cards, cards(&[80, 90]));
    assert!(t.draw_pile.is_empty());
    let t = GameState::deal(&names, Vec::new());
    assert!(t.hands[0].cards.is_empty());
    assert!(t.hands[1].cards.is_empty());
    let t = GameState::deal(&Vec::new(), cards(&[10, 20]));
    assert!(t.hands.is_empty());
    assert_eq!(t.draw_pile, cards(&[10, 20]));
}
