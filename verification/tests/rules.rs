use thegame::rules::{
    find_card, find_stack, is_legal_play, replenish, Card, InvalidPlayError, Stack,
};

fn card(v: u8) -> Card {
    Card { id: v, value: v }
}

#[test]
fn ascending_stack_takes_only_greater_values() {
    let stack = Stack { id: 0, ascending: true, current_value: 40 };
    assert!(is_legal_play(&stack, &card(41)));
    assert!(is_legal_play(&stack, &card(99)));
    assert!(!is_legal_play(&stack, &card(40)));
    assert!(!is_legal_play(&stack, &card(39)));
    assert!(!is_legal_play(&stack, &card(30)));
}

#[test]
fn descending_stack_takes_only_smaller_values() {
    let stack = Stack { id: 2, ascending: false, current_value: 40 };
    assert!(is_legal_play(&stack, &card(39)));
    assert!(is_legal_play(&stack, &card(2)));
    assert!(!is_legal_play(&stack, &card(40)));
    assert!(!is_legal_play(&stack, &card(41)));
    assert!(!is_legal_play(&stack, &card(50)));
}

#[test]
fn legality_goes_by_the_value_not_the_id() {
    let stack = Stack { id: 0, ascending: true, current_value: 40 };
    assert!(is_legal_play(&stack, &Card { id: 1, value: 90 }));
    assert!(!is_legal_play(&stack, &Card { id: 90, value: 1 }));
}

#[test]
fn the_first_values_take_every_card_of_the_deck() {
    let up = Stack { id: 0, ascending: true, current_value: 1 };
    let down = Stack { id: 2, ascending: false, current_value: 100 };
    for v in 2..=99u8 {
        assert!(is_legal_play(&up, &card(v)));
        assert!(is_legal_play(&down, &card(v)));
    }
}

#[test]
fn cards_and_stacks_are_found_by_id() {
    let cards = vec![card(5), card(9), Card { id: 5, value: 77 }];
    assert_eq!(find_card(&cards, 5), Some(0));
    assert_eq!(find_card(&cards, 9), Some(1));
    assert_eq!(find_card(&cards, 77), None);
    assert_eq!(find_card(&Vec::new(), 5), None);
    let stacks = vec![
        Stack { id: 3, ascending: true, current_value: 1 },
        Stack { id: 1, ascending: false, current_value: 100 },
    ];
    assert_eq!(find_stack(&stacks, 1), Some(1));
    assert_eq!(find_stack(&stacks, 3), Some(0));
    assert_eq!(find_stack(&stacks, 0), None);
}

#[test]
fn a_hand_draws_up_to_the_limit() {
    let mut hand = vec![card(10)];
    let mut pile = vec![card(20), card(30), card(40), card(50)];
    replenish(&mut hand, &mut pile, 3);
    assert_eq!(hand, vec![card(10), card(20), card(30)]);
    assert_eq!(pile, vec![card(40), card(50)]);
}

#[test]
fn a_hand_draws_what_is_left_of_a_short_pile() {
    let mut hand = vec![card(10)];
    let mut pile = vec![card(20)];
    replenish(&mut hand, &mut pile, 6);
    assert_eq!(hand, vec![card(10), card(20)]);
    assert!(pile.is_empty());
    replenish(&mut hand, &mut pile, 6);
    assert_eq!(hand, vec![card(10), card(20)]);
}

#[test]
fn a_full_hand_draws_nothing() {
    let mut hand = vec![card(10), card(11)];
    let mut pile = vec![card(20)];
    replenish(&mut hand, &mut pile, 2);
    assert_eq!(hand, vec![card(10), card(11)]);
    assert_eq!(pile, vec![card(20)]);
    replenish(&mut hand, &mut pile, 1);
    assert_eq!(hand, vec![card(10), card(11)]);
    assert_eq!(pile, vec![card(20)]);
}

#[test]
fn each_play_error_has_its_text() {
    assert_eq!(
        InvalidPlayError::CardNotInHand { card_id: 1 }.reason(),
        "card is not in the player's hand"
    );
    assert_eq!(InvalidPlayError::NoSuchStack { stack_id: 9 }.reason(), "no such stack");
    assert_eq!(
        InvalidPlayError::IllegalValue { card_id: 1, stack_id: 0 }.reason(),
        "card does not continue the stack"
    );
}
