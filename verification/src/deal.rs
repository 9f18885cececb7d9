//! Setting a table up: the deck, its shuffling, the stacks' first values and
//! the dealing of the hands.

use crate::ident::random_u128;
use crate::counting::{
    ids_apart, lemma_draw_up_occurrences, lemma_occurrences_update, occurrences,
};
use crate::rules::{draw_up, replenish, Card, Stack, MAX_CARDS};
use crate::table::{
    cards_in_hands, hands_view, occurrences_in_hands, players, GameState, GameStateView, Hand,
    HandView, VoteView,
};
use vstd::prelude::*;
use vstd::string::*;

verus! {

/// Number of cards of the full deck.
pub const DECK_SIZE: usize = 98;

/// Lowest value of a card of the full deck.
pub const LOWEST_CARD: u8 = 2;

/// Value on which an ascending stack begins.
pub const ASCENDING_START: u8 = 1;

/// Value on which a descending stack begins.
pub const DESCENDING_START: u8 = 100;

/// The full deck in order: one card for each value from 2 to 99, with the
/// value for its id.
pub open spec fn standard_deck_spec() -> Seq<Card> {
    Seq::new(98, |i: int| Card { id: (i + 2) as u8, value: (i + 2) as u8 })
}

/// The full deck in order.
pub fn standard_deck() -> (deck: Vec<Card>)
    ensures
        deck@ == standard_deck_spec(),
{
    let mut deck: Vec<Card> = Vec::new();
    let mut i: u8 = 0;
    while i < 98
        invariant
            i <= 98,
            deck@.len() == i,
            forall|j: int|
                0 <= j < i ==> deck@[j] == (Card { id: (j + 2) as u8, value: (j + 2) as u8 }),
        decreases 98 - i,
    {
        deck.push(Card { id: i + LOWEST_CARD, value: i + LOWEST_CARD });
        i += 1;
    }
    proof {
        assert(deck@ =~= standard_deck_spec());
    }
    deck
}

/// The full deck in order, up to its first `n` cards, holds the ids from 2
/// to `n + 1` once each.
pub proof fn lemma_standard_deck_prefix(n: int, id: u8)
    requires
        0 <= n <= 98,
    ensures
        occurrences(standard_deck_spec().subrange(0, n), id) == if 2 <= id < n + 2 {
            1nat
        } else {
            0nat
        },
    decreases n,
{
    let upto = standard_deck_spec().subrange(0, n);
    if n > 0 {
        assert(upto.drop_last() =~= standard_deck_spec().subrange(0, n - 1));
        assert(upto.last().id == (n + 1) as u8);
        lemma_standard_deck_prefix(n - 1, id);
    }
}

/// No two cards of the full deck share an id.
pub proof fn lemma_standard_deck_apart()
    ensures
        ids_apart(standard_deck_spec()),
{
    assert forall|id: u8| occurrences(standard_deck_spec(), id) <= 1 by {
        lemma_standard_deck_prefix(98, id);
        assert(standard_deck_spec().subrange(0, 98) =~= standard_deck_spec());
    }
}

/// The four stacks as a game begins: two that ascend from 1 and two that
/// descend from 100, with the ids 0 to 3.
pub open spec fn initial_stacks_spec() -> Seq<Stack> {
    seq![
        Stack { id: 0, ascending: true, current_value: 1 },
        Stack { id: 1, ascending: true, current_value: 1 },
        Stack { id: 2, ascending: false, current_value: 100 },
        Stack { id: 3, ascending: false, current_value: 100 },
    ]
}

/// The four stacks as a game begins.
pub fn initial_stacks() -> (stacks: Vec<Stack>)
    ensures
        stacks@ == initial_stacks_spec(),
{
    let mut stacks: Vec<Stack> = Vec::new();
    stacks.push(Stack { id: 0, ascending: true, current_value: ASCENDING_START });
    stacks.push(Stack { id: 1, ascending: true, current_value: ASCENDING_START });
    stacks.push(Stack { id: 2, ascending: false, current_value: DESCENDING_START });
    stacks.push(Stack { id: 3, ascending: false, current_value: DESCENDING_START });
    proof {
        assert(stacks@ =~= initial_stacks_spec());
    }
    stacks
}

/// Number of cards that each player holds at a table of `players`: eight
/// alone, seven for two, six for more.
pub open spec fn hand_size_for(players: nat) -> u8 {
    if players <= 1 {
        8
    } else if players == 2 {
        7
    } else {
        6
    }
}

/// Number of cards that each player holds at a table of `players`.
pub fn hand_size(players: usize) -> (n: u8)
    ensures
        n == hand_size_for(players as nat),
{
    if players <= 1 {
        8
    } else if players == 2 {
        7
    } else {
        6
    }
}

/// `s` with the cards at `i` and `j` exchanged.
pub open spec fn swapped(s: Seq<Card>, i: int, j: int) -> Seq<Card> {
    s.update(i, s[j]).update(j, s[i])
}

/// The place with which step `i` of a shuffle of `len` cards exchanges
/// place `i`, for the random draw `draw`: one of the places from `i` on.
pub open spec fn shuffle_target(len: nat, i: int, draw: u128) -> int {
    i + (draw as int) % (len - i)
}

/// `deck` after the first `n` steps of a shuffle that takes its random
/// draws from `draws`. Step `i` exchanges the card at place `i` with one
/// at a place from `i` on.
pub open spec fn shuffle_steps(deck: Seq<Card>, draws: Seq<u128>, n: nat) -> Seq<Card>
    decreases n,
{
    if n == 0 {
        deck
    } else {
        let i = n - 1;
        swapped(shuffle_steps(deck, draws, i as nat), i, shuffle_target(deck.len(), i, draws[i]))
    }
}

/// `deck` shuffled with the random draws `draws`, one for each card.
pub open spec fn shuffled(deck: Seq<Card>, draws: Seq<u128>) -> Seq<Card> {
    shuffle_steps(deck, draws, deck.len())
}

/// Every step of a shuffle keeps the cards and changes only their order.
pub proof fn lemma_shuffle_steps_permute(deck: Seq<Card>, draws: Seq<u128>, n: nat)
    requires
        n <= deck.len(),
    ensures
        shuffle_steps(deck, draws, n).len() == deck.len(),
        shuffle_steps(deck, draws, n).to_multiset() == deck.to_multiset(),
    decreases n,
{
    if n > 0 {
        let i = n - 1;
        let prev = shuffle_steps(deck, draws, i as nat);
        lemma_shuffle_steps_permute(deck, draws, i as nat);
        let j = shuffle_target(deck.len(), i, draws[i]);
        assert(i <= j < deck.len()) by {
            let m = deck.len() - i;
            assert(0 <= (draws[i] as int) % m < m);
        }
        let mid = prev.update(i, prev[j]);
        vstd::seq_lib::to_multiset_update(prev, i, prev[j]);
        vstd::seq_lib::to_multiset_update(mid, j, prev[i]);
        assert(mid[j] == prev[j]);
        assert(swapped(prev, i, j).to_multiset() =~= prev.to_multiset()) by {
            broadcast use vstd::multiset::group_multiset_axioms;
            prev.to_multiset_ensures();
            assert(prev.to_multiset().count(prev[i]) > 0);
            assert(prev.to_multiset().count(prev[j]) > 0);
        }
    }
}

/// Every step of a shuffle keeps the number of cards with each id.
pub proof fn lemma_shuffle_steps_occurrences(deck: Seq<Card>, draws: Seq<u128>, n: nat, id: u8)
    requires
        n <= deck.len(),
    ensures
        occurrences(shuffle_steps(deck, draws, n), id) == occurrences(deck, id),
    decreases n,
{
    if n > 0 {
        let i = n - 1;
        let prev = shuffle_steps(deck, draws, i as nat);
        lemma_shuffle_steps_permute(deck, draws, i as nat);
        lemma_shuffle_steps_occurrences(deck, draws, i as nat, id);
        let j = shuffle_target(deck.len(), i, draws[i]);
        assert(i <= j < deck.len()) by {
            let m = deck.len() - i;
            assert(0 <= (draws[i] as int) % m < m);
        }
        let mid = prev.update(i, prev[j]);
        lemma_occurrences_update(prev, i, prev[j], id);
        lemma_occurrences_update(mid, j, prev[i], id);
    }
}

/// A shuffle keeps the cards of the deck, each as often as it was there,
/// whatever the random draws were; so a deck whose cards have ids of their
/// own stays one.
pub proof fn law_shuffle_permutes(deck: Seq<Card>, draws: Seq<u128>)
    ensures
        shuffled(deck, draws).len() == deck.len(),
        shuffled(deck, draws).to_multiset() == deck.to_multiset(),
        ids_apart(deck) ==> ids_apart(shuffled(deck, draws)),
{
    lemma_shuffle_steps_permute(deck, draws, deck.len());
    if ids_apart(deck) {
        assert forall|id: u8| occurrences(shuffled(deck, draws), id) <= 1 by {
            lemma_shuffle_steps_occurrences(deck, draws, deck.len(), id);
            assert(occurrences(deck, id) <= 1);
        }
    }
}

/// Shuffles `deck` with the random draws `draws`.
pub fn shuffle_with(deck: &mut Vec<Card>, draws: &Vec<u128>)
    requires
        draws.len() == old(deck).len(),
    ensures
        final(deck)@ == shuffled(old(deck)@, draws@),
{
    let n = deck.len();
    let mut i: usize = 0;
    while i < n
        invariant
            i <= n,
            n == deck.len(),
            n == old(deck)@.len(),
            draws.len() == n,
            deck@ == shuffle_steps(old(deck)@, draws@, i as nat),
        decreases n - i,
    {
        let span: u128 = (n - i) as u128;
        let j: usize = i + (draws[i] % span) as usize;
        let a = deck[i];
        let b = deck[j];
        deck[i] = b;
        deck[j] = a;
        i += 1;
    }
}

/// `n` random draws.
pub fn draw_many(n: usize) -> (draws: Vec<u128>)
    ensures
        draws.len() == n,
{
    let mut draws: Vec<u128> = Vec::new();
    let mut i: usize = 0;
    while i < n
        invariant
            i <= n,
            draws.len() == i,
        decreases n - i,
    {
        draws.push(random_u128());
        i += 1;
    }
    draws
}

/// Shuffles `deck` with fresh random draws. Whatever they are, the deck
/// keeps its cards.
pub fn shuffle(deck: &mut Vec<Card>)
    ensures
        exists|draws: Seq<u128>|
            draws.len() == old(deck)@.len() && final(deck)@ == shuffled(old(deck)@, draws),
        final(deck)@.len() == old(deck)@.len(),
        final(deck)@.to_multiset() == old(deck)@.to_multiset(),
        ids_apart(old(deck)@) ==> ids_apart(final(deck)@),
{
    let draws = draw_many(deck.len());
    proof {
        law_shuffle_permutes(deck@, draws@);
    }
    shuffle_with(deck, &draws);
}

/// The hands of the players `names` and what is left of `pile` after each
/// player in turn, the first first, drew `limit` cards from its front, or
/// as many as were left.
pub open spec fn deal_hands(names: Seq<Seq<char>>, pile: Seq<Card>, limit: nat) -> (
    Seq<HandView>,
    Seq<Card>,
)
    decreases names.len(),
{
    if names.len() == 0 {
        (Seq::empty(), pile)
    } else {
        let (hands, rest) = deal_hands(names.drop_last(), pile, limit);
        let (cards, left) = draw_up(Seq::empty(), rest, limit);
        (hands.push(HandView { player: names.last(), cards }), left)
    }
}

/// The views of `names`, in their order.
pub open spec fn names_view(names: Seq<String>) -> Seq<Seq<char>> {
    Seq::new(names.len(), |i: int| names[i]@)
}

impl GameStateView {
    /// The table as a game begins for the players `names` with the deck
    /// `deck`: the hands dealt from the front of the deck, the rest of it as
    /// the draw pile, the stacks on their first values, nobody active and
    /// no vote cast.
    pub open spec fn dealt(names: Seq<Seq<char>>, deck: Seq<Card>) -> GameStateView {
        let limit = hand_size_for(names.len());
        let (hands, pile) = deal_hands(names, deck, limit as nat);
        GameStateView {
            draw_pile: pile,
            hands,
            stacks: initial_stacks_spec(),
            active_player: None,
            votes: Seq::empty(),
            hand_size: limit,
        }
    }
}

/// Dealing gives each player one hand, in the players' order, and loses no
/// card.
pub proof fn lemma_deal_hands(names: Seq<Seq<char>>, pile: Seq<Card>, limit: nat)
    ensures
        players(deal_hands(names, pile, limit).0) == names,
        cards_in_hands(deal_hands(names, pile, limit).0) + deal_hands(names, pile, limit).1.len()
            == pile.len(),
    decreases names.len(),
{
    if names.len() == 0 {
        assert(players(deal_hands(names, pile, limit).0) =~= names);
    } else {
        lemma_deal_hands(names.drop_last(), pile, limit);
        let (hands, rest) = deal_hands(names.drop_last(), pile, limit);
        let (cards, left) = draw_up(Seq::empty(), rest, limit);
        let all = hands.push(HandView { player: names.last(), cards });
        assert(all.drop_last() =~= hands);
        assert forall|k: int| 0 <= k < names.len() implies players(all)[k] == names[k] by {
            if k < names.len() - 1 {
                assert(players(hands)[k] == names.drop_last()[k]);
            }
        }
        assert(players(all) =~= names);
    }
}

/// Dealing keeps the number of cards with each id.
pub proof fn lemma_deal_hands_occurrences(
    names: Seq<Seq<char>>,
    pile: Seq<Card>,
    limit: nat,
    id: u8,
)
    ensures
        occurrences_in_hands(deal_hands(names, pile, limit).0, id) + occurrences(
            deal_hands(names, pile, limit).1,
            id,
        ) == occurrences(pile, id),
    decreases names.len(),
{
    if names.len() > 0 {
        lemma_deal_hands_occurrences(names.drop_last(), pile, limit, id);
        let (hands, rest) = deal_hands(names.drop_last(), pile, limit);
        let (cards, left) = draw_up(Seq::empty(), rest, limit);
        let all = hands.push(HandView { player: names.last(), cards });
        assert(all.drop_last() =~= hands);
        lemma_draw_up_occurrences(Seq::empty(), rest, limit, id);
        assert(occurrences(Seq::<Card>::empty(), id) == 0);
    }
}

/// A table that was dealt for players with names of their own, from a deck
/// that a count can carry and whose cards have ids of their own, is well
/// formed.
pub proof fn lemma_dealt_wf(names: Seq<Seq<char>>, deck: Seq<Card>)
    requires
        names.no_duplicates(),
        deck.len() <= MAX_CARDS,
        ids_apart(deck),
    ensures
        GameStateView::dealt(names, deck).wf(),
        GameStateView::dealt(names, deck).cards_in_play() == deck.len(),
        players(GameStateView::dealt(names, deck).hands) == names,
{
    let limit = hand_size_for(names.len());
    lemma_deal_hands(names, deck, limit as nat);
    let t = GameStateView::dealt(names, deck);
    assert(crate::rules::stack_ids(t.stacks).no_duplicates());
    assert(crate::table::voters(t.votes) =~= Seq::<Seq<char>>::empty());
    assert forall|id: u8| t.copies_of(id) <= 1 by {
        lemma_deal_hands_occurrences(names, deck, limit as nat, id);
        assert(occurrences(deck, id) <= 1);
    }
}

impl GameState {
    /// Sets the table for the players `names` with the deck `deck`, whose
    /// front is dealt first.
    pub fn deal(names: &Vec<String>, deck: Vec<Card>) -> (table: GameState)
        requires
            names_view(names@).no_duplicates(),
            deck.len() <= MAX_CARDS,
            ids_apart(deck@),
        ensures
            table@ == GameStateView::dealt(names_view(names@), deck@),
            table@.wf(),
    {
        let limit = hand_size(names.len());
        let ghost all = names_view(names@);
        let mut pile = deck;
        let mut hands: Vec<Hand> = Vec::new();
        let mut i: usize = 0;
        proof {
            assert(all.take(0) =~= Seq::<Seq<char>>::empty());
            assert(hands_view(hands@) =~= Seq::<HandView>::empty());
        }
        while i < names.len()
            invariant
                i <= names.len(),
                all == names_view(names@),
                (hands_view(hands@), pile@) == deal_hands(all.take(i as int), deck@, limit as nat),
            decreases names.len() - i,
        {
            let mut cards: Vec<Card> = Vec::new();
            let ghost before = hands_view(hands@);
            replenish(&mut cards, &mut pile, limit);
            hands.push(Hand { player: names[i].clone(), cards });
            proof {
                let upto = all.take(i + 1);
                assert(upto.drop_last() =~= all.take(i as int));
                assert(upto.last() == names@[i as int]@);
                assert(hands_view(hands@) =~= before.push(
                    HandView { player: upto.last(), cards: cards@ },
                ));
            }
            i += 1;
        }
        proof {
            assert(all.take(i as int) =~= all);
            lemma_dealt_wf(all, deck@);
        }
        let table = GameState {
            draw_pile: pile,
            hands,
            stacks: initial_stacks(),
            active_player: None,
            votes: Vec::new(),
            hand_size: limit,
        };
        proof {
            assert(table@.votes =~= Seq::<VoteView>::empty());
        }
        table
    }
}

} // verus!
