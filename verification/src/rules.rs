//! The rules of play: cards, the four stacks, what may be laid on a stack,
//! what a batch of plays does to the table, and when a game is over.

use crate::seqs::{first_index, lemma_first_index_is, lemma_first_index_none};
use vstd::prelude::*;
use vstd::string::*;

verus! {

/// Most cards that a table can hold in its hands and its draw pile
/// together, so that every count fits the byte that carries it to a player.
pub const MAX_CARDS: usize = 255;

/// Number of stacks on a table.
pub const STACK_COUNT: usize = 4;

/// A card. Its `id` names it in a play, its `value` decides where it may
/// lie.
#[derive(Debug, Clone, Copy, PartialEq, Eq, Structural)]
pub struct Card {
    pub id: u8,
    pub value: u8,
}

/// One of the shared stacks. On an ascending stack the values only grow, on
/// the others they only fall. `current_value` is the value of the card that
/// was laid last.
#[derive(Debug, Clone, Copy, PartialEq, Eq, Structural)]
pub struct Stack {
    pub id: u8,
    pub ascending: bool,
    pub current_value: u8,
}

/// One play: the card with `card_id` goes on the stack with `stack_id`.
#[derive(Debug, Clone, Copy, PartialEq, Eq, Structural)]
pub struct PlayAction {
    pub card_id: u8,
    pub stack_id: u8,
}

/// Why a batch of plays was refused.
#[derive(Debug, Clone, Copy, PartialEq, Eq, Structural)]
pub enum InvalidPlayError {
    /// The player's hand holds no card with this id.
    CardNotInHand { card_id: u8 },
    /// The table has no stack with this id.
    NoSuchStack { stack_id: u8 },
    /// The card's value does not continue the stack.
    IllegalValue { card_id: u8, stack_id: u8 },
}

/// How a game stands.
#[derive(Debug, Clone, Copy, PartialEq, Eq, Structural)]
pub enum TerminalOutcome {
    Ongoing,
    Won,
    Lost,
}

/// The text that goes out with each refusal of a play.
pub open spec fn play_reason(e: InvalidPlayError) -> Seq<char> {
    match e {
        InvalidPlayError::CardNotInHand { .. } => "card is not in the player's hand"@,
        InvalidPlayError::NoSuchStack { .. } => "no such stack"@,
        InvalidPlayError::IllegalValue { .. } => "card does not continue the stack"@,
    }
}

impl InvalidPlayError {
    /// The text that goes out with this refusal.
    pub fn reason(&self) -> (text: String)
        ensures
            text@ == play_reason(*self),
    {
        match self {
            InvalidPlayError::CardNotInHand { .. } => "card is not in the player's hand".to_owned(),
            InvalidPlayError::NoSuchStack { .. } => "no such stack".to_owned(),
            InvalidPlayError::IllegalValue { .. } => "card does not continue the stack".to_owned(),
        }
    }
}

/// A card may lie on a stack when its value is beyond the stack's current
/// value in the stack's direction: greater on an ascending stack, smaller on
/// a descending one.
pub open spec fn legal(stack: Stack, card: Card) -> bool {
    if stack.ascending {
        card.value > stack.current_value
    } else {
        card.value < stack.current_value
    }
}

/// Whether `card` may be laid on `stack`.
pub fn is_legal_play(stack: &Stack, card: &Card) -> (ok: bool)
    ensures
        ok == legal(*stack, *card),
{
    if stack.ascending {
        card.value > stack.current_value
    } else {
        card.value < stack.current_value
    }
}

/// The stack after `card` was laid on it.
pub open spec fn topped(stack: Stack, card: Card) -> Stack {
    Stack { id: stack.id, ascending: stack.ascending, current_value: card.value }
}

/// The ids of `cards`, in their order.
pub open spec fn card_ids(cards: Seq<Card>) -> Seq<u8> {
    Seq::new(cards.len(), |i: int| cards[i].id)
}

/// The ids of `stacks`, in their order.
pub open spec fn stack_ids(stacks: Seq<Stack>) -> Seq<u8> {
    Seq::new(stacks.len(), |i: int| stacks[i].id)
}

/// What one play does to a hand and the stacks. The card is looked for
/// first, then the stack, then the value is held against the stack.
pub open spec fn play_card(hand: Seq<Card>, stacks: Seq<Stack>, action: PlayAction) -> Result<
    (Seq<Card>, Seq<Stack>),
    InvalidPlayError,
> {
    match first_index(card_ids(hand), action.card_id) {
        None => Err(InvalidPlayError::CardNotInHand { card_id: action.card_id }),
        Some(c) => match first_index(stack_ids(stacks), action.stack_id) {
            None => Err(InvalidPlayError::NoSuchStack { stack_id: action.stack_id }),
            Some(s) => if legal(stacks[s], hand[c]) {
                Ok((hand.remove(c), stacks.update(s, topped(stacks[s], hand[c]))))
            } else {
                Err(
                    InvalidPlayError::IllegalValue {
                        card_id: action.card_id,
                        stack_id: action.stack_id,
                    },
                )
            },
        },
    }
}

/// What a batch of plays does to a hand and the stacks: each play works on
/// what the plays before it left, and the first one that fails refuses the
/// whole batch.
pub open spec fn play_all(hand: Seq<Card>, stacks: Seq<Stack>, actions: Seq<PlayAction>) -> Result<
    (Seq<Card>, Seq<Stack>),
    InvalidPlayError,
>
    decreases actions.len(),
{
    if actions.len() == 0 {
        Ok((hand, stacks))
    } else {
        match play_card(hand, stacks, actions[0]) {
            Err(e) => Err(e),
            Ok((h, s)) => play_all(h, s, actions.drop_first()),
        }
    }
}

/// Number of cards that a hand of `held` cards draws from a pile of `pile`
/// cards to come up to `limit`.
pub open spec fn draw_count(held: nat, pile: nat, limit: nat) -> nat {
    if held >= limit {
        0
    } else if limit - held <= pile {
        (limit - held) as nat
    } else {
        pile
    }
}

/// A hand and the draw pile after the hand drew from the front of the pile
/// until it held `limit` cards or the pile was empty.
pub open spec fn draw_up(hand: Seq<Card>, pile: Seq<Card>, limit: nat) -> (Seq<Card>, Seq<Card>) {
    let k = draw_count(hand.len(), pile.len(), limit) as int;
    (hand + pile.subrange(0, k), pile.subrange(k, pile.len() as int))
}

/// The place of the first card with `id` in `cards`.
pub fn find_card(cards: &Vec<Card>, id: u8) -> (r: Option<usize>)
    ensures
        match r {
            Some(i) => i < cards.len() && first_index(card_ids(cards@), id) == Some(i as int),
            None => first_index(card_ids(cards@), id) is None,
        },
{
    let mut i: usize = 0;
    while i < cards.len()
        invariant
            i <= cards.len(),
            forall|j: int| 0 <= j < i ==> card_ids(cards@)[j] != id,
        decreases cards.len() - i,
    {
        if cards[i].id == id {
            proof {
                lemma_first_index_is(card_ids(cards@), id, i as int);
            }
            return Some(i);
        }
        i += 1;
    }
    proof {
        lemma_first_index_none(card_ids(cards@), id);
    }
    None
}

/// The place of the first stack with `id` in `stacks`.
pub fn find_stack(stacks: &Vec<Stack>, id: u8) -> (r: Option<usize>)
    ensures
        match r {
            Some(i) => i < stacks.len() && first_index(stack_ids(stacks@), id) == Some(i as int),
            None => first_index(stack_ids(stacks@), id) is None,
        },
{
    let mut i: usize = 0;
    while i < stacks.len()
        invariant
            i <= stacks.len(),
            forall|j: int| 0 <= j < i ==> stack_ids(stacks@)[j] != id,
        decreases stacks.len() - i,
    {
        if stacks[i].id == id {
            proof {
                lemma_first_index_is(stack_ids(stacks@), id, i as int);
            }
            return Some(i);
        }
        i += 1;
    }
    proof {
        lemma_first_index_none(stack_ids(stacks@), id);
    }
    None
}

/// Lets `hand` draw from the front of `pile` until it holds `limit` cards
/// or the pile is empty.
pub fn replenish(hand: &mut Vec<Card>, pile: &mut Vec<Card>, limit: u8)
    ensures
        (final(hand)@, final(pile)@) == draw_up(old(hand)@, old(pile)@, limit as nat),
{
    let ghost k = draw_count(hand@.len(), pile@.len(), limit as nat) as int;
    if hand.len() < limit as usize {
        let want: usize = limit as usize - hand.len();
        let take: usize = if want <= pile.len() {
            want
        } else {
            pile.len()
        };
        let rest = pile.split_off(take);
        hand.append(pile);
        *pile = rest;
    } else {
        proof {
            assert(hand@ =~= old(hand)@ + old(pile)@.subrange(0, k));
            assert(pile@ =~= old(pile)@.subrange(k, old(pile)@.len() as int));
        }
    }
}

} // verus!
