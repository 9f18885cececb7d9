//! Checking a table or a deck that comes from elsewhere before it is used:
//! whether it is one that the rules can work on.

use crate::counting::{ids_apart, occurrences};
use crate::deal::names_view;
use crate::party::Chance;
use crate::rules::{stack_ids, Card, Stack, MAX_CARDS, STACK_COUNT};
use crate::seqs::lemma_first_index;
use crate::table::{
    cards_in_hands, find_hand, hands_view, occurrences_in_hands, players, voters, votes_view,
    GameState, Hand, HandView, Vote,
};
use vstd::prelude::*;
use vstd::string::*;

verus! {

/// The first hands of a table hold no more cards than all of them.
pub proof fn lemma_cards_in_hands_prefix(hands: Seq<HandView>, k: int)
    requires
        0 <= k <= hands.len(),
    ensures
        cards_in_hands(hands.take(k)) <= cards_in_hands(hands),
    decreases hands.len(),
{
    if k == hands.len() {
        assert(hands.take(k) =~= hands);
    } else {
        assert(hands.drop_last().take(k) =~= hands.take(k));
        lemma_cards_in_hands_prefix(hands.drop_last(), k);
    }
}

/// The first hands of a table hold no more cards with one id than all of
/// them.
pub proof fn lemma_occurrences_in_hands_prefix(hands: Seq<HandView>, k: int, id: u8)
    requires
        0 <= k <= hands.len(),
    ensures
        occurrences_in_hands(hands.take(k), id) <= occurrences_in_hands(hands, id),
    decreases hands.len(),
{
    if k == hands.len() {
        assert(hands.take(k) =~= hands);
    } else {
        assert(hands.drop_last().take(k) =~= hands.take(k));
        lemma_occurrences_in_hands_prefix(hands.drop_last(), k, id);
    }
}

/// Whether no two of `names` are the same.
pub fn all_distinct(names: &Vec<String>) -> (r: bool)
    ensures
        r == names_view(names@).no_duplicates(),
{
    let ghost all = names_view(names@);
    let mut i: usize = 0;
    while i < names.len()
        invariant
            i <= names.len(),
            all == names_view(names@),
            forall|a: int, b: int|
                0 <= a < i && 0 <= b < names.len() && a != b ==> all[a] != all[b],
        decreases names.len() - i,
    {
        let mut j: usize = i + 1;
        while j < names.len()
            invariant
                i < names.len(),
                i + 1 <= j <= names.len(),
                all == names_view(names@),
                forall|b: int| i < b < j ==> all[i as int] != all[b],
            decreases names.len() - j,
        {
            if names[i] == names[j] {
                assert(all[i as int] == all[j as int]);
                return false;
            }
            j += 1;
        }
        i += 1;
    }
    true
}

/// Whether no two of `stacks` share an id.
pub fn stacks_distinct(stacks: &Vec<Stack>) -> (r: bool)
    ensures
        r == stack_ids(stacks@).no_duplicates(),
{
    let ghost all = stack_ids(stacks@);
    let mut i: usize = 0;
    while i < stacks.len()
        invariant
            i <= stacks.len(),
            all == stack_ids(stacks@),
            forall|a: int, b: int|
                0 <= a < i && 0 <= b < stacks.len() && a != b ==> all[a] != all[b],
        decreases stacks.len() - i,
    {
        let mut j: usize = i + 1;
        while j < stacks.len()
            invariant
                i < stacks.len(),
                i + 1 <= j <= stacks.len(),
                all == stack_ids(stacks@),
                forall|b: int| i < b < j ==> all[i as int] != all[b],
            decreases stacks.len() - j,
        {
            if stacks[i].id == stacks[j].id {
                assert(all[i as int] == all[j as int]);
                return false;
            }
            j += 1;
        }
        i += 1;
    }
    true
}

/// The players that hold `hands`, in their order.
pub fn player_names(hands: &Vec<Hand>) -> (names: Vec<String>)
    ensures
        names_view(names@) == players(hands_view(hands@)),
{
    let mut names: Vec<String> = Vec::new();
    let mut i: usize = 0;
    while i < hands.len()
        invariant
            i <= hands.len(),
            names@.len() == i,
            forall|j: int| 0 <= j < i ==> (#[trigger] names@[j])@ == hands@[j].player@,
        decreases hands.len() - i,
    {
        names.push(hands[i].player.clone());
        i += 1;
    }
    proof {
        assert(names_view(names@) =~= players(hands_view(hands@)));
    }
    names
}

/// The voters of `votes`, in the order of the votes.
pub fn voter_names(votes: &Vec<Vote>) -> (names: Vec<String>)
    ensures
        names_view(names@) == voters(votes_view(votes@)),
{
    let mut names: Vec<String> = Vec::new();
    let mut i: usize = 0;
    while i < votes.len()
        invariant
            i <= votes.len(),
            names@.len() == i,
            forall|j: int| 0 <= j < i ==> (#[trigger] names@[j])@ == votes@[j].voter@,
        decreases votes.len() - i,
    {
        names.push(votes[i].voter.clone());
        i += 1;
    }
    proof {
        assert(names_view(names@) =~= voters(votes_view(votes@)));
    }
    names
}

/// Number of cards of `cards` with the id `id`.
pub fn count_cards(cards: &Vec<Card>, id: u8) -> (n: usize)
    ensures
        n == occurrences(cards@, id),
        n <= cards.len(),
{
    let mut n: usize = 0;
    let mut i: usize = 0;
    proof {
        assert(cards@.take(0) =~= Seq::<Card>::empty());
    }
    while i < cards.len()
        invariant
            i <= cards.len(),
            n <= i,
            n == occurrences(cards@.take(i as int), id),
        decreases cards.len() - i,
    {
        proof {
            assert(cards@.take(i + 1).drop_last() =~= cards@.take(i as int));
            assert(cards@.take(i + 1).last() == cards@[i as int]);
        }
        if cards[i].id == id {
            n += 1;
        }
        i += 1;
    }
    proof {
        assert(cards@.take(i as int) =~= cards@);
    }
    n
}

/// Whether no two cards of `cards` share an id.
pub fn cards_distinct(cards: &Vec<Card>) -> (r: bool)
    ensures
        r == ids_apart(cards@),
{
    let mut id: u8 = 0;
    loop
        invariant
            forall|x: u8| x < id ==> occurrences(cards@, x) <= 1,
        decreases 255 - id,
    {
        if count_cards(cards, id) > 1 {
            return false;
        }
        if id == 255 {
            return true;
        }
        id += 1;
    }
}

/// Whether the draw pile and the hands of `table` hold at most one card
/// with the id `id`.
pub fn at_most_one(table: &GameState, id: u8) -> (r: bool)
    ensures
        r == (table@.copies_of(id) <= 1),
{
    let ghost hands = table@.hands;
    let first = count_cards(&table.draw_pile, id);
    if first > 1 {
        return false;
    }
    let mut n: usize = first;
    let mut i: usize = 0;
    proof {
        assert(hands.take(0) =~= Seq::<HandView>::empty());
    }
    while i < table.hands.len()
        invariant
            i <= table.hands.len(),
            hands == table@.hands,
            n <= 1,
            n == occurrences(table@.draw_pile, id) + occurrences_in_hands(hands.take(i as int), id),
        decreases table.hands.len() - i,
    {
        proof {
            assert(hands.take(i + 1).drop_last() =~= hands.take(i as int));
            assert(hands.take(i + 1).last() == hands[i as int]);
            lemma_occurrences_in_hands_prefix(hands, i + 1, id);
        }
        let here = count_cards(&table.hands[i].cards, id);
        if here > 1 {
            return false;
        }
        n += here;
        if n > 1 {
            return false;
        }
        i += 1;
    }
    proof {
        assert(hands.take(i as int) =~= hands);
    }
    true
}

/// Whether the draw pile and the hands of `table` together hold no more
/// cards than a count can carry.
pub fn within_count(table: &GameState) -> (r: bool)
    ensures
        r == (table@.cards_in_play() <= MAX_CARDS),
{
    let ghost hands = table@.hands;
    if table.draw_pile.len() > MAX_CARDS {
        return false;
    }
    let mut n: usize = table.draw_pile.len();
    let mut i: usize = 0;
    proof {
        assert(hands.take(0) =~= Seq::<HandView>::empty());
    }
    while i < table.hands.len()
        invariant
            i <= table.hands.len(),
            hands == table@.hands,
            n <= MAX_CARDS,
            n == table@.draw_pile.len() + cards_in_hands(hands.take(i as int)),
        decreases table.hands.len() - i,
    {
        proof {
            assert(hands.take(i + 1).drop_last() =~= hands.take(i as int));
            assert(hands.take(i + 1).last() == hands[i as int]);
            lemma_cards_in_hands_prefix(hands, i + 1);
        }
        let here = table.hands[i].cards.len();
        if here > MAX_CARDS - n {
            return false;
        }
        n += here;
        i += 1;
    }
    proof {
        assert(hands.take(i as int) =~= hands);
    }
    true
}

/// Whether every vote of `table` is of a player and for a player.
pub fn votes_name_players(table: &GameState) -> (r: bool)
    ensures
        r == (forall|i: int|
            0 <= i < table@.votes.len() ==> {
                &&& players(table@.hands).contains((#[trigger] table@.votes[i]).voter)
                &&& players(table@.hands).contains(table@.votes[i].nominee)
            }),
{
    let ghost names = players(table@.hands);
    let ghost votes = table@.votes;
    let mut i: usize = 0;
    while i < table.votes.len()
        invariant
            i <= table.votes.len(),
            names == players(table@.hands),
            votes == table@.votes,
            forall|j: int|
                0 <= j < i ==> {
                    &&& names.contains((#[trigger] votes[j]).voter)
                    &&& names.contains(votes[j].nominee)
                },
        decreases table.votes.len() - i,
    {
        proof {
            lemma_first_index(names, votes[i as int].voter);
            lemma_first_index(names, votes[i as int].nominee);
        }
        if find_hand(&table.hands, &table.votes[i].voter).is_none() {
            assert(!names.contains(votes[i as int].voter));
            return false;
        }
        if find_hand(&table.hands, &table.votes[i].nominee).is_none() {
            assert(!names.contains(votes[i as int].nominee));
            return false;
        }
        i += 1;
    }
    true
}

impl GameState {
    /// Whether the table is a valid one: four stacks with ids of their
    /// own, one hand for each player, no more cards than a count can
    /// carry, no two cards with one id, an active player who sits at the
    /// table, and at most one vote of each player, for a player.
    pub fn is_valid(&self) -> (r: bool)
        ensures
            r == self@.wf(),
    {
        if self.stacks.len() != STACK_COUNT || !stacks_distinct(&self.stacks) {
            return false;
        }
        if !all_distinct(&player_names(&self.hands)) {
            return false;
        }
        if !within_count(self) {
            return false;
        }
        let mut id: u8 = 0;
        loop
            invariant
                forall|x: u8| x < id ==> self@.copies_of(x) <= 1,
            ensures
                self@.cards_apart(),
            decreases 255 - id,
        {
            if !at_most_one(self, id) {
                return false;
            }
            if id == 255 {
                break;
            }
            id += 1;
        }
        match &self.active_player {
            Some(p) => {
                proof {
                    lemma_first_index(players(self@.hands), p@);
                }
                if find_hand(&self.hands, p).is_none() {
                    assert(!players(self@.hands).contains(p@));
                    return false;
                }
            },
            None => {},
        }
        if !all_distinct(&voter_names(&self.votes)) {
            return false;
        }
        votes_name_players(self)
    }
}

impl Chance {
    /// Whether the deck of these draws is one that a table can hold and
    /// its cards have ids of their own.
    pub fn is_valid(&self) -> (r: bool)
        ensures
            r == self@.wf(),
    {
        self.deck.len() <= MAX_CARDS && cards_distinct(&self.deck)
    }
}

} // verus!
