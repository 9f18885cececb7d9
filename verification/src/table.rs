//! The table of one running game: the draw pile, the players' hands, the
//! four stacks, whose turn it is and the votes on who begins.

use crate::counting::{
    lemma_draw_up_occurrences, lemma_ids_apart_no_duplicates, lemma_occurrences_concat,
    lemma_play_all_occurrences, occurrences,
};
use crate::rules::{
    card_ids, draw_count, draw_up, find_card, find_stack, is_legal_play, legal, play_all,
    play_card, replenish, stack_ids, Card, InvalidPlayError, PlayAction, Stack,
    TerminalOutcome, MAX_CARDS,
};
use crate::seqs::{first_index, lemma_first_index, lemma_first_index_is, lemma_first_index_none};
use vstd::prelude::*;
use vstd::string::*;

verus! {

/// The cards that one player holds.
#[derive(Debug)]
pub struct Hand {
    pub player: String,
    pub cards: Vec<Card>,
}

/// A hand as contracts see it.
pub struct HandView {
    pub player: Seq<char>,
    pub cards: Seq<Card>,
}

impl View for Hand {
    type V = HandView;

    open spec fn view(&self) -> HandView {
        HandView { player: self.player@, cards: self.cards@ }
    }
}

/// One vote on who begins.
#[derive(Debug)]
pub struct Vote {
    pub voter: String,
    pub nominee: String,
}

/// A vote as contracts see it.
pub struct VoteView {
    pub voter: Seq<char>,
    pub nominee: Seq<char>,
}

impl View for Vote {
    type V = VoteView;

    open spec fn view(&self) -> VoteView {
        VoteView { voter: self.voter@, nominee: self.nominee@ }
    }
}

/// The table of a running game. The draw pile is drawn from its front. The
/// hands stand in the order in which the players sat down, the votes in
/// the order in which they were cast.
#[derive(Debug)]
pub struct GameState {
    pub draw_pile: Vec<Card>,
    pub hands: Vec<Hand>,
    pub stacks: Vec<Stack>,
    pub active_player: Option<String>,
    pub votes: Vec<Vote>,
    pub hand_size: u8,
}

/// A table as contracts see it.
pub struct GameStateView {
    pub draw_pile: Seq<Card>,
    pub hands: Seq<HandView>,
    pub stacks: Seq<Stack>,
    pub active_player: Option<Seq<char>>,
    pub votes: Seq<VoteView>,
    pub hand_size: u8,
}

/// The views of `hands`, in their order.
pub open spec fn hands_view(hands: Seq<Hand>) -> Seq<HandView> {
    Seq::new(hands.len(), |i: int| hands[i]@)
}

/// The views of `votes`, in their order.
pub open spec fn votes_view(votes: Seq<Vote>) -> Seq<VoteView> {
    Seq::new(votes.len(), |i: int| votes[i]@)
}

/// The view of a name that may be missing.
pub open spec fn name_view(name: Option<String>) -> Option<Seq<char>> {
    match name {
        Some(n) => Some(n@),
        None => None,
    }
}

impl View for GameState {
    type V = GameStateView;

    open spec fn view(&self) -> GameStateView {
        GameStateView {
            draw_pile: self.draw_pile@,
            hands: hands_view(self.hands@),
            stacks: self.stacks@,
            active_player: name_view(self.active_player),
            votes: votes_view(self.votes@),
            hand_size: self.hand_size,
        }
    }
}

/// The players that hold `hands`, in their order.
pub open spec fn players(hands: Seq<HandView>) -> Seq<Seq<char>> {
    Seq::new(hands.len(), |i: int| hands[i].player)
}

/// The voters of `votes`, in the order of the votes.
pub open spec fn voters(votes: Seq<VoteView>) -> Seq<Seq<char>> {
    Seq::new(votes.len(), |i: int| votes[i].voter)
}

/// Number of cards in all of `hands` together.
pub open spec fn cards_in_hands(hands: Seq<HandView>) -> nat
    decreases hands.len(),
{
    if hands.len() == 0 {
        0
    } else {
        cards_in_hands(hands.drop_last()) + hands.last().cards.len()
    }
}

/// Number of cards with the id `id` in all of `hands` together.
pub open spec fn occurrences_in_hands(hands: Seq<HandView>, id: u8) -> nat
    decreases hands.len(),
{
    if hands.len() == 0 {
        0
    } else {
        occurrences_in_hands(hands.drop_last(), id) + occurrences(hands.last().cards, id)
    }
}

/// Whether some card of `hand` may be laid on some stack of `stacks`.
pub open spec fn can_play(hand: Seq<Card>, stacks: Seq<Stack>) -> bool {
    exists|c: int, s: int|
        0 <= c < hand.len() && 0 <= s < stacks.len() && #[trigger] legal(stacks[s], hand[c])
}

/// Whether every hand of `hands` is empty.
pub open spec fn all_empty(hands: Seq<HandView>) -> bool {
    forall|i: int| 0 <= i < hands.len() ==> (#[trigger] hands[i]).cards.len() == 0
}

impl GameStateView {
    /// Number of cards in the draw pile and the hands together.
    pub open spec fn cards_in_play(self) -> nat {
        self.draw_pile.len() + cards_in_hands(self.hands)
    }

    /// Number of cards with the id `id` in the draw pile and the hands
    /// together.
    pub open spec fn copies_of(self, id: u8) -> nat {
        occurrences(self.draw_pile, id) + occurrences_in_hands(self.hands, id)
    }

    /// Whether no two cards of the draw pile and the hands share an id, so
    /// that an id names one card in one place.
    pub open spec fn cards_apart(self) -> bool {
        forall|id: u8| self.copies_of(id) <= 1
    }

    /// The cards of `player`, none for somebody without a hand.
    pub open spec fn hand_of(self, player: Seq<char>) -> Seq<Card> {
        match first_index(players(self.hands), player) {
            Some(h) => self.hands[h].cards,
            None => Seq::empty(),
        }
    }

    /// What holds of every table: four stacks with ids of their own, one
    /// hand for each player, no more cards than a count can carry, no two
    /// cards with one id, an active player who sits at the table, and at
    /// most one vote of each player, for a player.
    pub open spec fn wf(self) -> bool {
        &&& self.stacks.len() == 4
        &&& stack_ids(self.stacks).no_duplicates()
        &&& players(self.hands).no_duplicates()
        &&& self.cards_in_play() <= MAX_CARDS
        &&& self.cards_apart()
        &&& (self.active_player matches Some(p) ==> players(self.hands).contains(p))
        &&& voters(self.votes).no_duplicates()
        &&& forall|i: int|
            0 <= i < self.votes.len() ==> {
                &&& players(self.hands).contains((#[trigger] self.votes[i]).voter)
                &&& players(self.hands).contains(self.votes[i].nominee)
            }
    }

    /// The table after `player` played `actions` in their order and then
    /// drew back up to the table's hand size; or why the batch was refused.
    /// Somebody without a hand plays from an empty one.
    pub open spec fn apply_play(self, player: Seq<char>, actions: Seq<PlayAction>) -> Result<
        GameStateView,
        InvalidPlayError,
    > {
        match play_all(self.hand_of(player), self.stacks, actions) {
            Err(e) => Err(e),
            Ok((left, stacks)) => Ok(
                match first_index(players(self.hands), player) {
                    None => GameStateView { stacks, ..self },
                    Some(h) => {
                        let (hand, pile) = draw_up(left, self.draw_pile, self.hand_size as nat);
                        GameStateView {
                            draw_pile: pile,
                            hands: self.hands.update(
                                h,
                                HandView { player: self.hands[h].player, cards: hand },
                            ),
                            stacks,
                            ..self
                        }
                    },
                },
            ),
        }
    }

    /// The table after `player` sat down with an empty hand. Somebody who
    /// sits at the table already keeps the hand that is there.
    pub open spec fn seat(self, player: Seq<char>) -> GameStateView {
        if players(self.hands).contains(player) {
            self
        } else {
            GameStateView {
                hands: self.hands.push(HandView { player, cards: Seq::empty() }),
                ..self
            }
        }
    }

    /// The table after `player` left it: the player's cards lie under the
    /// draw pile, the hand is gone, the votes are void, and nobody is
    /// active if it was the player who left. A table without the player
    /// stays as it is.
    pub open spec fn unseat(self, player: Seq<char>) -> GameStateView {
        match first_index(players(self.hands), player) {
            None => self,
            Some(h) => GameStateView {
                draw_pile: self.draw_pile + self.hands[h].cards,
                hands: self.hands.remove(h),
                active_player: if self.active_player == Some(player) {
                    None
                } else {
                    self.active_player
                },
                votes: Seq::empty(),
                ..self
            },
        }
    }

    /// How the game stands. It is won when the draw pile and every hand are
    /// empty. Otherwise it is lost when the active player can lay none of
    /// their cards on any stack. Without an active player it goes on.
    pub open spec fn check_terminal(self) -> TerminalOutcome {
        if self.draw_pile.len() == 0 && all_empty(self.hands) {
            TerminalOutcome::Won
        } else {
            match self.active_player {
                None => TerminalOutcome::Ongoing,
                Some(p) => if can_play(self.hand_of(p), self.stacks) {
                    TerminalOutcome::Ongoing
                } else {
                    TerminalOutcome::Lost
                },
            }
        }
    }
}

/// A batch of plays changes no stack's id or direction, adds no stack and
/// no card, and takes one card from the hand for each play.
pub proof fn lemma_play_all_shape(hand: Seq<Card>, stacks: Seq<Stack>, actions: Seq<PlayAction>)
    ensures
        play_all(hand, stacks, actions) matches Ok((left, after)) ==> {
            &&& left.len() + actions.len() == hand.len()
            &&& after.len() == stacks.len()
            &&& stack_ids(after) == stack_ids(stacks)
            &&& forall|s: int|
                0 <= s < stacks.len() ==> (#[trigger] after[s]).ascending == stacks[s].ascending
        },
    decreases actions.len(),
{
    if actions.len() > 0 {
        match play_card(hand, stacks, actions[0]) {
            Err(e) => {},
            Ok((h, s)) => {
                lemma_first_index(card_ids(hand), actions[0].card_id);
                lemma_first_index(stack_ids(stacks), actions[0].stack_id);
                assert(stack_ids(s) =~= stack_ids(stacks));
                lemma_play_all_shape(h, s, actions.drop_first());
            },
        }
    }
}

/// Replacing one hand changes the number of cards in the hands by the
/// difference of the two.
pub proof fn lemma_cards_in_hands_update(hands: Seq<HandView>, h: int, hand: HandView)
    requires
        0 <= h < hands.len(),
    ensures
        cards_in_hands(hands.update(h, hand)) + hands[h].cards.len() == cards_in_hands(hands)
            + hand.cards.len(),
    decreases hands.len(),
{
    let after = hands.update(h, hand);
    if h == hands.len() - 1 {
        assert(after.drop_last() =~= hands.drop_last());
    } else {
        assert(after.drop_last() =~= hands.drop_last().update(h, hand));
        lemma_cards_in_hands_update(hands.drop_last(), h, hand);
    }
}

/// Replacing one hand changes the number of cards with one id in the hands
/// by the difference of the two.
pub proof fn lemma_occurrences_in_hands_update(
    hands: Seq<HandView>,
    h: int,
    hand: HandView,
    id: u8,
)
    requires
        0 <= h < hands.len(),
    ensures
        occurrences_in_hands(hands.update(h, hand), id) + occurrences(hands[h].cards, id)
            == occurrences_in_hands(hands, id) + occurrences(hand.cards, id),
    decreases hands.len(),
{
    let after = hands.update(h, hand);
    if h == hands.len() - 1 {
        assert(after.drop_last() =~= hands.drop_last());
    } else {
        assert(after.drop_last() =~= hands.drop_last().update(h, hand));
        lemma_occurrences_in_hands_update(hands.drop_last(), h, hand, id);
    }
}

/// Taking one hand away takes its cards out of the count of each id.
pub proof fn lemma_occurrences_in_hands_remove(hands: Seq<HandView>, h: int, id: u8)
    requires
        0 <= h < hands.len(),
    ensures
        occurrences_in_hands(hands.remove(h), id) + occurrences(hands[h].cards, id)
            == occurrences_in_hands(hands, id),
    decreases hands.len(),
{
    let after = hands.remove(h);
    if h == hands.len() - 1 {
        assert(after =~= hands.drop_last());
    } else {
        assert(after.drop_last() =~= hands.drop_last().remove(h));
        assert(after.last() == hands.last());
        lemma_occurrences_in_hands_remove(hands.drop_last(), h, id);
    }
}

/// No hand holds more cards with one id than all hands together.
pub proof fn lemma_occurrences_within_hands(hands: Seq<HandView>, h: int, id: u8)
    requires
        0 <= h < hands.len(),
    ensures
        occurrences(hands[h].cards, id) <= occurrences_in_hands(hands, id),
    decreases hands.len(),
{
    if h < hands.len() - 1 {
        lemma_occurrences_within_hands(hands.drop_last(), h, id);
    }
}

/// An accepted batch of plays brings no card into play: of each id the
/// draw pile and the hands hold at most as many cards as before.
pub proof fn lemma_apply_play_copies(
    table: GameStateView,
    player: Seq<char>,
    actions: Seq<PlayAction>,
    id: u8,
)
    requires
        table.apply_play(player, actions) is Ok,
    ensures
        table.apply_play(player, actions)->Ok_0.copies_of(id) <= table.copies_of(id),
{
    let after = table.apply_play(player, actions)->Ok_0;
    let hand = table.hand_of(player);
    lemma_first_index(players(table.hands), player);
    lemma_play_all_occurrences(hand, table.stacks, actions, id);
    match first_index(players(table.hands), player) {
        None => {},
        Some(h) => {
            let left = play_all(hand, table.stacks, actions)->Ok_0.0;
            lemma_draw_up_occurrences(left, table.draw_pile, table.hand_size as nat, id);
            lemma_occurrences_in_hands_update(table.hands, h, after.hands[h], id);
        },
    }
}

/// Taking one hand away takes its cards out of the count.
pub proof fn lemma_cards_in_hands_remove(hands: Seq<HandView>, h: int)
    requires
        0 <= h < hands.len(),
    ensures
        cards_in_hands(hands.remove(h)) + hands[h].cards.len() == cards_in_hands(hands),
    decreases hands.len(),
{
    let after = hands.remove(h);
    if h == hands.len() - 1 {
        assert(after =~= hands.drop_last());
    } else {
        assert(after.drop_last() =~= hands.drop_last().remove(h));
        assert(after.last() == hands.last());
        lemma_cards_in_hands_remove(hands.drop_last(), h);
    }
}

/// The place of the hand of `player` in `hands`.
pub fn find_hand(hands: &Vec<Hand>, player: &String) -> (r: Option<usize>)
    ensures
        match r {
            Some(i) => i < hands.len() && first_index(players(hands_view(hands@)), player@)
                == Some(i as int),
            None => first_index(players(hands_view(hands@)), player@) is None,
        },
{
    let mut i: usize = 0;
    while i < hands.len()
        invariant
            i <= hands.len(),
            forall|j: int| 0 <= j < i ==> players(hands_view(hands@))[j] != player@,
        decreases hands.len() - i,
    {
        if hands[i].player == *player {
            proof {
                lemma_first_index_is(players(hands_view(hands@)), player@, i as int);
            }
            return Some(i);
        }
        i += 1;
    }
    proof {
        lemma_first_index_none(players(hands_view(hands@)), player@);
    }
    None
}

/// Whether every hand of `hands` is empty.
pub fn hands_are_empty(hands: &Vec<Hand>) -> (r: bool)
    ensures
        r == all_empty(hands_view(hands@)),
{
    let mut i: usize = 0;
    while i < hands.len()
        invariant
            i <= hands.len(),
            forall|j: int| 0 <= j < i ==> (#[trigger] hands_view(hands@)[j]).cards.len() == 0,
        decreases hands.len() - i,
    {
        if hands[i].cards.len() != 0 {
            assert(hands_view(hands@)[i as int].cards.len() != 0);
            return false;
        }
        i += 1;
    }
    true
}

/// Whether some card of `hand` may be laid on some stack of `stacks`: every
/// pairing of a card with a stack is tried.
pub fn has_legal_play(hand: &Vec<Card>, stacks: &Vec<Stack>) -> (r: bool)
    ensures
        r == can_play(hand@, stacks@),
{
    let mut c: usize = 0;
    while c < hand.len()
        invariant
            c <= hand.len(),
            forall|a: int, b: int|
                0 <= a < c && 0 <= b < stacks.len() ==> !#[trigger] legal(stacks@[b], hand@[a]),
        decreases hand.len() - c,
    {
        let mut s: usize = 0;
        while s < stacks.len()
            invariant
                c < hand.len(),
                s <= stacks.len(),
                forall|a: int, b: int|
                    0 <= a < c && 0 <= b < stacks.len() ==> !#[trigger] legal(
                        stacks@[b],
                        hand@[a],
                    ),
                forall|b: int| 0 <= b < s ==> !#[trigger] legal(stacks@[b], hand@[c as int]),
            decreases stacks.len() - s,
        {
            if is_legal_play(&stacks[s], &hand[c]) {
                assert(legal(stacks@[s as int], hand@[c as int]));
                return true;
            }
            s += 1;
        }
        c += 1;
    }
    false
}

impl GameState {
    /// Gives `player` an empty hand, unless the player sits at the table
    /// already.
    pub fn seat(&mut self, player: String)
        requires
            old(self)@.wf(),
        ensures
            final(self)@.wf(),
            final(self)@ == old(self)@.seat(player@),
    {
        let ghost before = self@;
        let ghost name = player@;
        proof {
            lemma_first_index(players(before.hands), name);
        }
        if find_hand(&self.hands, &player).is_some() {
            return ;
        }
        self.hands.push(Hand { player, cards: Vec::new() });
        proof {
            let after = before.seat(name);
            assert(self@.hands =~= after.hands);
            assert(after.hands.drop_last() =~= before.hands);
            assert forall|id: u8| after.copies_of(id) <= 1 by {
                assert(occurrences(Seq::<Card>::empty(), id) == 0);
                assert(before.copies_of(id) <= 1);
            }
            assert(players(after.hands) =~= players(before.hands).push(name));
            assert forall|p: Seq<char>| players(before.hands).contains(p) implies players(
                after.hands,
            ).contains(p) by {
                let k = choose|k: int|
                    0 <= k < players(before.hands).len() && players(before.hands)[k] == p;
                assert(players(after.hands)[k] == p);
            }
        }
    }

    /// Takes `player` from the table: the player's cards go under the draw
    /// pile, the votes are void, and nobody is active if the player was.
    pub fn unseat(&mut self, player: &String)
        requires
            old(self)@.wf(),
        ensures
            final(self)@.wf(),
            final(self)@ == old(self)@.unseat(player@),
    {
        let ghost before = self@;
        let h = match find_hand(&self.hands, player) {
            Some(h) => h,
            None => {
                return ;
            },
        };
        proof {
            lemma_first_index(players(before.hands), player@);
        }
        let hand = self.hands.remove(h);
        let mut cards = hand.cards;
        self.draw_pile.append(&mut cards);
        let was_active = match &self.active_player {
            Some(p) => *p == *player,
            None => false,
        };
        if was_active {
            self.active_player = None;
        }
        self.votes.clear();
        proof {
            let after = before.unseat(player@);
            assert(self@.hands =~= after.hands);
            assert(self@.votes =~= after.votes);
            lemma_cards_in_hands_remove(before.hands, h as int);
            assert forall|id: u8| after.copies_of(id) <= 1 by {
                lemma_occurrences_in_hands_remove(before.hands, h as int, id);
                lemma_occurrences_concat(before.draw_pile, before.hands[h as int].cards, id);
                assert(before.copies_of(id) <= 1);
            }
            assert(voters(after.votes) =~= Seq::<Seq<char>>::empty());
            assert forall|a: int, b: int|
                0 <= a < after.hands.len() && 0 <= b < after.hands.len() && a
                    != b implies players(after.hands)[a] != players(after.hands)[b] by {
                let a0 = if a < h { a } else { a + 1 };
                let b0 = if b < h { b } else { b + 1 };
                assert(players(after.hands)[a] == players(before.hands)[a0]);
                assert(players(after.hands)[b] == players(before.hands)[b0]);
            }
            if after.active_player is Some {
                let p = after.active_player->0;
                let k = choose|k: int|
                    0 <= k < players(before.hands).len() && players(before.hands)[k] == p;
                assert(k != h);
                let k1 = if k < h { k } else { k - 1 };
                assert(players(after.hands)[k1] == p);
            }
        }
    }

    /// How the game stands: won, lost or still going on.
    pub fn check_terminal(&self) -> (r: TerminalOutcome)
        ensures
            r == self@.check_terminal(),
    {
        if self.draw_pile.len() == 0 && hands_are_empty(&self.hands) {
            return TerminalOutcome::Won;
        }
        match &self.active_player {
            None => TerminalOutcome::Ongoing,
            Some(p) => {
                match find_hand(&self.hands, p) {
                    Some(h) => {
                        if has_legal_play(&self.hands[h].cards, &self.stacks) {
                            TerminalOutcome::Ongoing
                        } else {
                            TerminalOutcome::Lost
                        }
                    },
                    None => TerminalOutcome::Lost,
                }
            },
        }
    }

    /// Plays `actions` for `player` in their order, then lets the player
    /// draw back up to the table's hand size. A batch with a play that names
    /// a card that the player does not hold, a stack that is not there, or a
    /// value that does not continue its stack is refused as a whole, and the
    /// table stays as it was.
    pub fn apply_play(&mut self, player: &String, actions: &Vec<PlayAction>) -> (r: Result<
        (),
        InvalidPlayError,
    >)
        requires
            old(self)@.wf(),
        ensures
            final(self)@.wf(),
            match old(self)@.apply_play(player@, actions@) {
                Ok(after) => r is Ok && final(self)@ == after,
                Err(e) => r == Err::<(), InvalidPlayError>(e) && final(self)@ == old(self)@,
            },
    {
        let seat = find_hand(&self.hands, player);
        let mut cards: Vec<Card> = match seat {
            Some(h) => self.hands[h].cards.clone(),
            None => Vec::new(),
        };
        let mut stacks: Vec<Stack> = self.stacks.clone();
        let ghost before = self@;
        let ghost hand0 = cards@;
        proof {
            lemma_first_index(players(before.hands), player@);
            assert(hand0 =~= before.hand_of(player@));
            assert(stacks@ =~= before.stacks);
            assert(actions@.skip(0) =~= actions@);
        }
        let mut i: usize = 0;
        while i < actions.len()
            invariant
                i <= actions.len(),
                play_all(hand0, before.stacks, actions@) == play_all(
                    cards@,
                    stacks@,
                    actions@.skip(i as int),
                ),
                self@ == before,
                before == old(self)@,
                before.wf(),
                hand0 == before.hand_of(player@),
            decreases actions.len() - i,
        {
            let action = actions[i];
            let ghost rest = actions@.skip(i as int);
            proof {
                assert(rest[0] == action);
                assert(rest.drop_first() =~= actions@.skip(i + 1));
            }
            let c = match find_card(&cards, action.card_id) {
                Some(c) => c,
                None => {
                    return Err(InvalidPlayError::CardNotInHand { card_id: action.card_id });
                },
            };
            let s = match find_stack(&stacks, action.stack_id) {
                Some(s) => s,
                None => {
                    return Err(InvalidPlayError::NoSuchStack { stack_id: action.stack_id });
                },
            };
            let card = cards[c];
            if !is_legal_play(&stacks[s], &card) {
                return Err(
                    InvalidPlayError::IllegalValue {
                        card_id: action.card_id,
                        stack_id: action.stack_id,
                    },
                );
            }
            cards.remove(c);
            stacks[s].current_value = card.value;
            i += 1;
        }
        proof {
            assert(actions@.skip(i as int) =~= Seq::<PlayAction>::empty());
            lemma_play_all_shape(hand0, before.stacks, actions@);
        }
        self.stacks = stacks;
        match seat {
            Some(h) => {
                let ghost left = cards@;
                replenish(&mut cards, &mut self.draw_pile, self.hand_size);
                self.hands[h].cards = cards;
                proof {
                    let after = before.apply_play(player@, actions@)->Ok_0;
                    assert(self@.hands =~= after.hands);
                    lemma_cards_in_hands_update(before.hands, h as int, after.hands[h as int]);
                    assert(players(self@.hands) =~= players(before.hands));
                }
            },
            None => {},
        }
        proof {
            assert forall|id: u8| self@.copies_of(id) <= 1 by {
                lemma_apply_play_copies(before, player@, actions@, id);
            }
        }
        Ok(())
    }
}

/// Whether one of `actions` names the stack at place `s` of `stacks`.
pub open spec fn plays_name(stacks: Seq<Stack>, actions: Seq<PlayAction>, s: int) -> bool {
    exists|k: int|
        0 <= k < actions.len() && first_index(stack_ids(stacks), (#[trigger] actions[k]).stack_id)
            == Some(s)
}

/// A batch of plays leaves a stack that none of its plays names as it was.
pub proof fn lemma_play_all_unnamed(
    hand: Seq<Card>,
    stacks: Seq<Stack>,
    actions: Seq<PlayAction>,
    s: int,
)
    requires
        play_all(hand, stacks, actions) is Ok,
        0 <= s < stacks.len(),
        !plays_name(stacks, actions, s),
    ensures
        play_all(hand, stacks, actions)->Ok_0.1.len() == stacks.len(),
        play_all(hand, stacks, actions)->Ok_0.1[s] == stacks[s],
    decreases actions.len(),
{
    if actions.len() > 0 {
        let (h, mid) = play_card(hand, stacks, actions[0])->Ok_0;
        let rest = actions.drop_first();
        lemma_first_index(card_ids(hand), actions[0].card_id);
        lemma_first_index(stack_ids(stacks), actions[0].stack_id);
        let s0 = first_index(stack_ids(stacks), actions[0].stack_id)->0;
        assert(s0 != s);
        assert(stack_ids(mid) =~= stack_ids(stacks));
        if plays_name(mid, rest, s) {
            let k = choose|k: int|
                0 <= k < rest.len() && first_index(stack_ids(mid), (#[trigger] rest[k]).stack_id)
                    == Some(s);
            assert(actions[k + 1] == rest[k]);
        }
        lemma_play_all_unnamed(h, mid, rest, s);
    }
}

/// A batch of plays moves every stack in its direction or leaves it, and
/// moves each stack that a play names strictly.
pub proof fn lemma_play_all_direction(
    hand: Seq<Card>,
    stacks: Seq<Stack>,
    actions: Seq<PlayAction>,
)
    ensures
        play_all(hand, stacks, actions) matches Ok((left, after)) ==> {
            &&& after.len() == stacks.len()
            &&& forall|s: int|
                0 <= s < stacks.len() ==> if stacks[s].ascending {
                    (#[trigger] after[s]).current_value >= stacks[s].current_value
                } else {
                    after[s].current_value <= stacks[s].current_value
                }
            &&& forall|k: int|
                0 <= k < actions.len() ==> (first_index(
                    stack_ids(stacks),
                    (#[trigger] actions[k]).stack_id,
                ) matches Some(s) && 0 <= s < stacks.len() && if stacks[s].ascending {
                    after[s].current_value > stacks[s].current_value
                } else {
                    after[s].current_value < stacks[s].current_value
                })
        },
    decreases actions.len(),
{
    if actions.len() > 0 {
        match play_card(hand, stacks, actions[0]) {
            Err(e) => {},
            Ok((h, mid)) => {
                let rest = actions.drop_first();
                lemma_first_index(card_ids(hand), actions[0].card_id);
                lemma_first_index(stack_ids(stacks), actions[0].stack_id);
                assert(stack_ids(mid) =~= stack_ids(stacks));
                lemma_play_all_direction(h, mid, rest);
                lemma_play_all_shape(h, mid, rest);
                match play_all(h, mid, rest) {
                    Err(e) => {},
                    Ok((left, after)) => {
                        assert forall|k: int| 0 <= k < actions.len() implies (first_index(
                            stack_ids(stacks),
                            (#[trigger] actions[k]).stack_id,
                        ) matches Some(s) && 0 <= s < stacks.len() && if stacks[s].ascending {
                            after[s].current_value > stacks[s].current_value
                        } else {
                            after[s].current_value < stacks[s].current_value
                        }) by {
                            if k > 0 {
                                assert(actions[k] == rest[k - 1]);
                            }
                        }
                    },
                }
            },
        }
    }
}

/// A batch of plays that is accepted takes one card out of the hands and the
/// draw pile for each of its plays; what the player draws afterwards only
/// moves cards from the pile to the hand. So the number of cards in the
/// hands and the pile together stays as it is exactly when the batch is
/// empty.
pub proof fn law_play_accounts_for_cards(
    table: GameStateView,
    player: Seq<char>,
    actions: Seq<PlayAction>,
)
    requires
        table.wf(),
        table.apply_play(player, actions) is Ok,
    ensures
        table.apply_play(player, actions)->Ok_0.cards_in_play() + actions.len()
            == table.cards_in_play(),
        actions.len() == 0 ==> table.apply_play(player, actions)->Ok_0.cards_in_play()
            == table.cards_in_play(),
{
    let after = table.apply_play(player, actions)->Ok_0;
    lemma_play_all_shape(table.hand_of(player), table.stacks, actions);
    lemma_first_index(players(table.hands), player);
    match first_index(players(table.hands), player) {
        None => {},
        Some(h) => {
            lemma_cards_in_hands_update(table.hands, h, after.hands[h]);
        },
    }
}

/// A batch of plays that is accepted keeps every stack's id and direction,
/// moves no stack against its direction, moves each stack that one of its
/// plays names strictly in its direction, up if it ascends, down if it
/// descends, and leaves every other stack as it was.
pub proof fn law_stacks_move_in_direction(
    table: GameStateView,
    player: Seq<char>,
    actions: Seq<PlayAction>,
)
    requires
        table.apply_play(player, actions) is Ok,
    ensures
        ({
            let after = table.apply_play(player, actions)->Ok_0.stacks;
            let stacks = table.stacks;
            &&& after.len() == stacks.len()
            &&& forall|s: int|
                0 <= s < stacks.len() ==> {
                    &&& (#[trigger] after[s]).id == stacks[s].id
                    &&& after[s].ascending == stacks[s].ascending
                    &&& stacks[s].ascending ==> after[s].current_value >= stacks[s].current_value
                    &&& !stacks[s].ascending ==> after[s].current_value
                        <= stacks[s].current_value
                }
            &&& forall|k: int|
                0 <= k < actions.len() ==> (first_index(
                    stack_ids(stacks),
                    (#[trigger] actions[k]).stack_id,
                ) matches Some(s) && 0 <= s < stacks.len() && if stacks[s].ascending {
                    after[s].current_value > stacks[s].current_value
                } else {
                    after[s].current_value < stacks[s].current_value
                })
            &&& forall|s: int|
                0 <= s < stacks.len() && !plays_name(stacks, actions, s) ==> #[trigger] after[s]
                    == stacks[s]
        }),
{
    let hand = table.hand_of(player);
    lemma_play_all_shape(hand, table.stacks, actions);
    lemma_play_all_direction(hand, table.stacks, actions);
    let after = table.apply_play(player, actions)->Ok_0.stacks;
    assert forall|s: int|
        0 <= s < table.stacks.len() && !plays_name(table.stacks, actions, s) implies (
    #[trigger] after[s]) == table.stacks[s] by {
        lemma_play_all_unnamed(hand, table.stacks, actions, s);
    }
    assert forall|s: int| 0 <= s < table.stacks.len() implies (#[trigger] after[s]).id
        == table.stacks[s].id by {
        assert(stack_ids(after)[s] == stack_ids(table.stacks)[s]);
    }
}

/// An accepted batch of plays keeps the cards apart: where no two cards of
/// the draw pile and the hands shared an id before, none do afterwards.
pub proof fn law_play_keeps_cards_apart(
    table: GameStateView,
    player: Seq<char>,
    actions: Seq<PlayAction>,
)
    requires
        table.cards_apart(),
        table.apply_play(player, actions) is Ok,
    ensures
        table.apply_play(player, actions)->Ok_0.cards_apart(),
{
    let after = table.apply_play(player, actions)->Ok_0;
    assert forall|id: u8| after.copies_of(id) <= 1 by {
        lemma_apply_play_copies(table, player, actions, id);
        assert(table.copies_of(id) <= 1);
    }
}

/// Where the cards of a table are apart, no two cards of one player's hand
/// and the draw pile share an id.
pub proof fn lemma_hand_and_pile_apart(table: GameStateView, player: Seq<char>)
    requires
        table.cards_apart(),
    ensures
        card_ids(table.hand_of(player) + table.draw_pile).no_duplicates(),
{
    let hand = table.hand_of(player);
    lemma_first_index(players(table.hands), player);
    assert forall|id: u8| occurrences(hand + table.draw_pile, id) <= 1 by {
        lemma_occurrences_concat(hand, table.draw_pile, id);
        assert(table.copies_of(id) <= 1);
        match first_index(players(table.hands), player) {
            None => {
                assert(occurrences(hand, id) == 0);
            },
            Some(h) => {
                lemma_occurrences_within_hands(table.hands, h, id);
            },
        }
    }
    lemma_ids_apart_no_duplicates(hand + table.draw_pile);
}

/// One play that is accepted takes the card out of the player's hand and
/// makes its value the current value of the stack that the play names: on
/// a valid table the hand afterwards holds no card with the id that was
/// played.
pub proof fn law_played_card_moves_to_stack(
    table: GameStateView,
    player: Seq<char>,
    action: PlayAction,
)
    requires
        table.wf(),
        table.apply_play(player, seq![action]) is Ok,
    ensures
        ({
            let after = table.apply_play(player, seq![action])->Ok_0;
            let hand = table.hand_of(player);
            &&& first_index(card_ids(hand), action.card_id) matches Some(c)
            &&& first_index(stack_ids(table.stacks), action.stack_id) matches Some(s)
            &&& 0 <= c < hand.len()
            &&& 0 <= s < table.stacks.len()
            &&& legal(table.stacks[s], hand[c])
            &&& after.stacks[s].current_value == hand[c].value
            &&& !card_ids(after.hand_of(player)).contains(action.card_id)
        }),
{
    let after = table.apply_play(player, seq![action])->Ok_0;
    let hand = table.hand_of(player);
    let actions = seq![action];
    assert(actions[0] == action);
    assert(actions.drop_first() =~= Seq::<PlayAction>::empty());
    lemma_first_index(card_ids(hand), action.card_id);
    lemma_first_index(stack_ids(table.stacks), action.stack_id);
    lemma_first_index(players(table.hands), player);
    let c = first_index(card_ids(hand), action.card_id)->0;
    let all = card_ids(hand + table.draw_pile);
    lemma_hand_and_pile_apart(table, player);
    match play_card(hand, table.stacks, action) {
        Err(e) => {},
        Ok((h, s)) => {
            assert(play_all(h, s, actions.drop_first()) == Ok::<_, InvalidPlayError>((h, s)));
        },
    }
    match first_index(players(table.hands), player) {
        None => {},
        Some(h) => {
            let left = hand.remove(c);
            let k = draw_count(left.len(), table.draw_pile.len(), table.hand_size as nat) as int;
            let now = after.hands[h].cards;
            assert(now == left + table.draw_pile.subrange(0, k));
            assert(players(after.hands) =~= players(table.hands));
            assert(after.hand_of(player) == now);
            assert forall|j: int| 0 <= j < now.len() implies card_ids(now)[j]
                != action.card_id by {
                let j0 = if j < c {
                    j
                } else {
                    j + 1
                };
                assert(all[c] == action.card_id);
                assert(card_ids(now)[j] == all[j0]);
            }
        },
    }
}

} // verus!
