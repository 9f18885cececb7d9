//! Counting the cards that carry one id, in a sequence of cards and in the
//! steps that move cards about.

use crate::rules::{card_ids, draw_count, draw_up, play_all, play_card, Card, PlayAction, Stack};
use crate::seqs::{first_index, lemma_first_index};
use vstd::prelude::*;

verus! {

/// Number of cards of `cards` with the id `id`.
pub open spec fn occurrences(cards: Seq<Card>, id: u8) -> nat
    decreases cards.len(),
{
    if cards.len() == 0 {
        0
    } else {
        occurrences(cards.drop_last(), id) + if cards.last().id == id {
            1nat
        } else {
            0nat
        }
    }
}

/// Whether no two cards of `cards` share an id.
pub open spec fn ids_apart(cards: Seq<Card>) -> bool {
    forall|id: u8| occurrences(cards, id) <= 1
}

/// One if `card` has the id `id`, else zero.
pub open spec fn one_if(card: Card, id: u8) -> nat {
    if card.id == id {
        1
    } else {
        0
    }
}

/// Two sequences laid end to end hold the cards of both.
pub proof fn lemma_occurrences_concat(a: Seq<Card>, b: Seq<Card>, id: u8)
    ensures
        occurrences(a + b, id) == occurrences(a, id) + occurrences(b, id),
    decreases b.len(),
{
    if b.len() == 0 {
        assert(a + b =~= a);
    } else {
        assert((a + b).drop_last() =~= a + b.drop_last());
        assert((a + b).last() == b.last());
        lemma_occurrences_concat(a, b.drop_last(), id);
    }
}

/// A sequence of one card holds that card.
pub proof fn lemma_occurrences_single(card: Card, id: u8)
    ensures
        occurrences(seq![card], id) == one_if(card, id),
{
    assert(seq![card].drop_last() =~= Seq::<Card>::empty());
    assert(occurrences(Seq::<Card>::empty(), id) == 0);
}

/// A sequence cut in two holds what its parts hold.
pub proof fn lemma_occurrences_split(s: Seq<Card>, k: int, id: u8)
    requires
        0 <= k <= s.len(),
    ensures
        occurrences(s.subrange(0, k), id) + occurrences(s.subrange(k, s.len() as int), id)
            == occurrences(s, id),
{
    assert(s.subrange(0, k) + s.subrange(k, s.len() as int) =~= s);
    lemma_occurrences_concat(s.subrange(0, k), s.subrange(k, s.len() as int), id);
}

/// Taking one card out takes it out of the count.
pub proof fn lemma_occurrences_remove(s: Seq<Card>, i: int, id: u8)
    requires
        0 <= i < s.len(),
    ensures
        occurrences(s.remove(i), id) + one_if(s[i], id) == occurrences(s, id),
{
    let head = s.subrange(0, i);
    let tail = s.subrange(i + 1, s.len() as int);
    assert(s =~= head + seq![s[i]] + tail);
    assert(s.remove(i) =~= head + tail);
    lemma_occurrences_concat(head, seq![s[i]], id);
    lemma_occurrences_concat(head + seq![s[i]], tail, id);
    lemma_occurrences_concat(head, tail, id);
    lemma_occurrences_single(s[i], id);
}

/// Putting one card in the place of another changes the count by the two.
pub proof fn lemma_occurrences_update(s: Seq<Card>, i: int, card: Card, id: u8)
    requires
        0 <= i < s.len(),
    ensures
        occurrences(s.update(i, card), id) + one_if(s[i], id) == occurrences(s, id) + one_if(
            card,
            id,
        ),
{
    let head = s.subrange(0, i);
    let tail = s.subrange(i + 1, s.len() as int);
    assert(s =~= head + seq![s[i]] + tail);
    assert(s.update(i, card) =~= head + seq![card] + tail);
    lemma_occurrences_concat(head, seq![s[i]], id);
    lemma_occurrences_concat(head + seq![s[i]], tail, id);
    lemma_occurrences_concat(head, seq![card], id);
    lemma_occurrences_concat(head + seq![card], tail, id);
    lemma_occurrences_single(s[i], id);
    lemma_occurrences_single(card, id);
}

/// A card that is there is counted.
pub proof fn lemma_occurrences_of_member(s: Seq<Card>, i: int)
    requires
        0 <= i < s.len(),
    ensures
        occurrences(s, s[i].id) >= 1,
{
    lemma_occurrences_remove(s, i, s[i].id);
}

/// Where no id is counted twice, no two places hold the same id.
pub proof fn lemma_ids_apart_no_duplicates(s: Seq<Card>)
    requires
        ids_apart(s),
    ensures
        card_ids(s).no_duplicates(),
{
    assert forall|i: int, j: int| 0 <= i < s.len() && 0 <= j < s.len() && i != j implies card_ids(
        s,
    )[i] != card_ids(s)[j] by {
        if s[i].id == s[j].id {
            let id = s[i].id;
            lemma_occurrences_remove(s, i, id);
            let rest = s.remove(i);
            let j1 = if j < i {
                j
            } else {
                j - 1
            };
            assert(rest[j1] == s[j]);
            lemma_occurrences_of_member(rest, j1);
            assert(occurrences(s, id) >= 2);
        }
    }
}

/// A batch of plays adds no card to the hand.
pub proof fn lemma_play_all_occurrences(
    hand: Seq<Card>,
    stacks: Seq<Stack>,
    actions: Seq<PlayAction>,
    id: u8,
)
    ensures
        play_all(hand, stacks, actions) matches Ok((left, _)) ==> occurrences(left, id)
            <= occurrences(hand, id),
    decreases actions.len(),
{
    if actions.len() > 0 {
        match play_card(hand, stacks, actions[0]) {
            Err(e) => {},
            Ok((h, s)) => {
                lemma_first_index(card_ids(hand), actions[0].card_id);
                let c = first_index(card_ids(hand), actions[0].card_id)->0;
                lemma_occurrences_remove(hand, c, id);
                lemma_play_all_occurrences(h, s, actions.drop_first(), id);
            },
        }
    }
}

/// Drawing moves cards from the pile to the hand and loses none.
pub proof fn lemma_draw_up_occurrences(hand: Seq<Card>, pile: Seq<Card>, limit: nat, id: u8)
    ensures
        occurrences(draw_up(hand, pile, limit).0, id) + occurrences(
            draw_up(hand, pile, limit).1,
            id,
        ) == occurrences(hand, id) + occurrences(pile, id),
{
    let k = draw_count(hand.len(), pile.len(), limit) as int;
    lemma_occurrences_split(pile, k, id);
    lemma_occurrences_concat(hand, pile.subrange(0, k), id);
}

} // verus!
