//! What each player may see of a table, and the sending of one event to
//! every member of a party.

use crate::event::{
    counts_view, event_id_at, nth_event_id, outbound_view, CardCount, CardCountView, Event,
    EventId, EventKind, EventKindView, EventView, Outbound, OutboundView, Recipient,
    RecipientView,
};
use crate::rules::{Card, TerminalOutcome};
use crate::seqs::{first_index, lemma_first_index};
use crate::table::{cards_in_hands, find_hand, players, GameState, GameStateView, HandView};
use crate::deal::{shuffle, standard_deck, standard_deck_spec};
use crate::game::GameView;
use crate::ident::{is_party_id_format, random_u128, validate_party_id, PartyId};
use crate::party::{
    refusal_reason, Chance, ChanceView, Party, PartyView, Refusal, Reply, ReplyView,
};
use crate::token::{AuthToken, Roster};
use vstd::prelude::*;
use vstd::string::*;

verus! {

/// For each hand its player and the number of its cards, in the hands'
/// order.
pub open spec fn card_counts(hands: Seq<HandView>) -> Seq<CardCountView> {
    Seq::new(
        hands.len(),
        |i: int| CardCountView { username: hands[i].player, count: hands[i].cards.len() as u8 },
    )
}

impl GameStateView {
    /// The table as `for_user` may see it: the player's own hand, and of
    /// the other hands and the draw pile only how many cards they hold.
    pub open spec fn project(self, for_user: Seq<char>) -> EventKindView {
        EventKindView::GameState {
            active_player: self.active_player,
            player_hand: self.hand_of(for_user),
            players_cards_count: card_counts(self.hands),
            stacks: self.stacks,
            draw_stack_card_count: self.draw_pile.len() as u8,
        }
    }
}

/// No hand holds more cards than all hands together.
pub proof fn lemma_hand_within_total(hands: Seq<HandView>, h: int)
    requires
        0 <= h < hands.len(),
    ensures
        hands[h].cards.len() <= cards_in_hands(hands),
    decreases hands.len(),
{
    if h < hands.len() - 1 {
        lemma_hand_within_total(hands.drop_last(), h);
    }
}

/// What a player sees does not depend on the cards that others hold or on
/// the cards of the draw pile: two tables that agree on the player's own
/// hand, on who holds how many cards, on the stacks, on the active player
/// and on the size of the draw pile look the same to the player.
pub proof fn law_projection_hides_other_hands(a: GameStateView, b: GameStateView, user: Seq<char>)
    requires
        players(a.hands) == players(b.hands),
        forall|i: int|
            0 <= i < a.hands.len() ==> (#[trigger] a.hands[i]).cards.len()
                == b.hands[i].cards.len(),
        a.hand_of(user) == b.hand_of(user),
        a.stacks == b.stacks,
        a.active_player == b.active_player,
        a.draw_pile.len() == b.draw_pile.len(),
    ensures
        a.project(user) == b.project(user),
{
    assert(a.hands.len() == players(a.hands).len());
    assert(b.hands.len() == players(b.hands).len());
    assert forall|i: int| 0 <= i < a.hands.len() implies card_counts(a.hands)[i] == card_counts(
        b.hands,
    )[i] by {
        assert(players(a.hands)[i] == players(b.hands)[i]);
    }
    assert(card_counts(a.hands) =~= card_counts(b.hands));
}

impl GameState {
    /// The event that shows the table to `for_user`.
    pub fn project(&self, for_user: &String) -> (kind: EventKind)
        requires
            self@.wf(),
        ensures
            kind@ == self@.project(for_user@),
    {
        let ghost table = self@;
        let player_hand: Vec<Card> = match find_hand(&self.hands, for_user) {
            Some(h) => self.hands[h].cards.clone(),
            None => Vec::new(),
        };
        proof {
            lemma_first_index(players(table.hands), for_user@);
            assert(player_hand@ =~= table.hand_of(for_user@));
        }
        let mut counts: Vec<CardCount> = Vec::new();
        let mut i: usize = 0;
        while i < self.hands.len()
            invariant
                i <= self.hands.len(),
                table == self@,
                table.wf(),
                counts.len() == i,
                forall|j: int| 0 <= j < i ==> (#[trigger] counts@[j])@ == card_counts(table.hands)[j],
            decreases self.hands.len() - i,
        {
            proof {
                lemma_hand_within_total(table.hands, i as int);
            }
            counts.push(
                CardCount {
                    username: self.hands[i].player.clone(),
                    count: self.hands[i].cards.len() as u8,
                },
            );
            i += 1;
        }
        let active_player = match &self.active_player {
            Some(p) => Some(p.clone()),
            None => None,
        };
        let stacks = self.stacks.clone();
        proof {
            assert(counts_view(counts@) =~= card_counts(table.hands));
            assert(stacks@ =~= table.stacks);
        }
        EventKind::GameState {
            active_player,
            player_hand,
            players_cards_count: counts,
            stacks,
            draw_stack_card_count: self.draw_pile.len() as u8,
        }
    }
}

/// The table for each of `names`, each as that member may see it. The ids
/// of the events begin at the place `offset` of the batch.
pub open spec fn state_events(
    names: Seq<Seq<char>>,
    table: GameStateView,
    base: EventId,
    offset: nat,
) -> Seq<OutboundView> {
    Seq::new(
        names.len(),
        |i: int|
            OutboundView {
                to: RecipientView::Member(names[i]),
                event: EventView {
                    id: event_id_at(base, (offset + i) as nat),
                    kind: table.project(names[i]),
                },
            },
    )
}

/// The same event for each of `names`. The ids of the events begin at the
/// place `offset` of the batch.
pub open spec fn copies(names: Seq<Seq<char>>, kind: EventKindView, base: EventId, offset: nat) -> Seq<
    OutboundView,
> {
    Seq::new(
        names.len(),
        |i: int|
            OutboundView {
                to: RecipientView::Member(names[i]),
                event: EventView { id: event_id_at(base, (offset + i) as nat), kind },
            },
    )
}

/// One event for the connection that asked.
pub open spec fn to_requester(kind: EventKindView, base: EventId) -> Seq<OutboundView> {
    seq![
        OutboundView {
            to: RecipientView::Requester,
            event: EventView { id: event_id_at(base, 0), kind },
        },
    ]
}

/// The event that tells why the event with the id `response_to` was
/// refused: want of authority as an authentication error, everything else
/// as an invalid play.
pub open spec fn refusal_kind(r: Refusal, response_to: EventId) -> EventKindView {
    match r {
        Refusal::Auth(_) => EventKindView::AuthError { response_to, reason: refusal_reason(r) },
        _ => EventKindView::InvalidPlayError { response_to, reason: refusal_reason(r) },
    }
}

/// The event that tells how a game ended.
pub open spec fn outcome_kind(outcome: TerminalOutcome) -> Option<EventKindView> {
    match outcome {
        TerminalOutcome::Won => Some(EventKindView::PlayersWon),
        TerminalOutcome::Lost => Some(EventKindView::PlayersLost),
        TerminalOutcome::Ongoing => None,
    }
}

/// The events that go out when `party` answered `reply` to the event with
/// the id `response_to`, and to whom. Their ids count up from `base`.
pub open spec fn fanout_spec(
    party: PartyView,
    reply: ReplyView,
    response_to: EventId,
    base: EventId,
) -> Seq<OutboundView> {
    let names = party.roster.names();
    match reply {
        ReplyView::Joined { token } => to_requester(
            EventKindView::PartyJoined { response_to, party_id: party.id, auth_token: token },
            base,
        ),
        ReplyView::StateChanged => match party.game.table() {
            Some(table) => state_events(names, table, base, 0),
            None => Seq::empty(),
        },
        ReplyView::Ended(outcome) => match party.game.table() {
            Some(table) => state_events(names, table, base, 0) + match outcome_kind(outcome) {
                Some(kind) => copies(names, kind, base, names.len()),
                None => Seq::empty(),
            },
            None => Seq::empty(),
        },
        ReplyView::State { for_user } => match party.game.table() {
            Some(table) => to_requester(table.project(for_user), base),
            None => Seq::empty(),
        },
        ReplyView::Chat { username, message } => copies(
            names,
            EventKindView::Message { username, message },
            base,
            0,
        ),
        ReplyView::Quiet => Seq::empty(),
        ReplyView::Refused(r) => to_requester(refusal_kind(r, response_to), base),
    }
}

impl PartyView {
    /// What a party does with the event `event` that comes over a
    /// connection which holds `credential`: the party afterwards, and the
    /// events that go out.
    pub open spec fn handle(
        self,
        credential: Option<AuthToken>,
        event: EventView,
        chance: ChanceView,
    ) -> (PartyView, Seq<OutboundView>) {
        let (after, reply) = self.step(credential, event.kind, chance);
        (after, fanout_spec(after, reply, event.id, chance.event_base))
    }
}

/// Adds to `out` the table for each member of `roster`, each as that
/// member may see it.
pub fn push_states(
    out: &mut Vec<Outbound>,
    roster: &Roster,
    table: &GameState,
    base: EventId,
    offset: usize,
)
    requires
        table@.wf(),
    ensures
        outbound_view(final(out)@) == outbound_view(old(out)@) + state_events(
            roster@.names(),
            table@,
            base,
            offset as nat,
        ),
{
    let ghost before = outbound_view(out@);
    let ghost names = roster@.names();
    let ghost all = state_events(names, table@, base, offset as nat);
    let n = roster.len();
    let mut i: usize = 0;
    proof {
        assert(outbound_view(out@) =~= before + all.take(0));
    }
    while i < n
        invariant
            i <= n,
            n == names.len(),
            names == roster@.names(),
            table@.wf(),
            all == state_events(names, table@, base, offset as nat),
            outbound_view(out@) == before + all.take(i as int),
        decreases n - i,
    {
        let name = roster.name_at(i);
        let ghost sofar = outbound_view(out@);
        out.push(
            Outbound {
                to: Recipient::Member(name.clone()),
                event: Event {
                    id: nth_event_id(base, offset as u128 + i as u128),
                    kind: table.project(name),
                },
            },
        );
        proof {
            assert(outbound_view(out@) =~= sofar.push(all[i as int]));
            assert(all.take(i + 1) =~= all.take(i as int).push(all[i as int]));
            assert(before + all.take(i + 1) =~= (before + all.take(i as int)).push(all[i as int]));
        }
        i += 1;
    }
    proof {
        assert(all.take(i as int) =~= all);
    }
}

/// Adds to `out` a copy of `kind` for each member of `roster`.
pub fn push_copies(
    out: &mut Vec<Outbound>,
    roster: &Roster,
    kind: &EventKind,
    base: EventId,
    offset: usize,
)
    ensures
        outbound_view(final(out)@) == outbound_view(old(out)@) + copies(
            roster@.names(),
            kind@,
            base,
            offset as nat,
        ),
{
    let ghost before = outbound_view(out@);
    let ghost names = roster@.names();
    let ghost all = copies(names, kind@, base, offset as nat);
    let n = roster.len();
    let mut i: usize = 0;
    proof {
        assert(outbound_view(out@) =~= before + all.take(0));
    }
    while i < n
        invariant
            i <= n,
            n == names.len(),
            names == roster@.names(),
            all == copies(names, kind@, base, offset as nat),
            outbound_view(out@) == before + all.take(i as int),
        decreases n - i,
    {
        let name = roster.name_at(i);
        let ghost sofar = outbound_view(out@);
        out.push(
            Outbound {
                to: Recipient::Member(name.clone()),
                event: Event {
                    id: nth_event_id(base, offset as u128 + i as u128),
                    kind: kind.clone(),
                },
            },
        );
        proof {
            assert(outbound_view(out@) =~= sofar.push(all[i as int]));
            assert(all.take(i + 1) =~= all.take(i as int).push(all[i as int]));
            assert(before + all.take(i + 1) =~= (before + all.take(i as int)).push(all[i as int]));
        }
        i += 1;
    }
    proof {
        assert(all.take(i as int) =~= all);
    }
}

/// One event for the connection that asked.
pub fn answer(kind: EventKind, base: EventId) -> (out: Vec<Outbound>)
    ensures
        outbound_view(out@) == to_requester(kind@, base),
{
    let mut out: Vec<Outbound> = Vec::new();
    out.push(Outbound { to: Recipient::Requester, event: Event { id: nth_event_id(base, 0), kind } });
    proof {
        assert(outbound_view(out@) =~= to_requester(kind@, base));
    }
    out
}

/// What answers an event that names a party by the string `raw`, which is
/// no party id: no party has such an id, so the sender alone is told that
/// the party was not found, with the string as it came.
pub open spec fn malformed_id_answer(raw: Seq<char>, response_to: EventId, base: EventId) -> Seq<
    OutboundView,
> {
    to_requester(EventKindView::PartyNotFoundError { response_to, party_id: raw }, base)
}

/// Takes the string `raw` by which the event with the id `response_to`
/// names a party. A string in the format of a party id is handed back as
/// the id. For any other string the answer to the sender is handed back,
/// with the id `base`, and the event goes no further.
pub fn admit_party_id_with(raw: &str, response_to: EventId, base: EventId) -> (r: Result<
    PartyId,
    Vec<Outbound>,
>)
    ensures
        r is Ok <==> is_party_id_format(raw@),
        match r {
            Ok(id) => id@ == raw@,
            Err(out) => outbound_view(out@) == malformed_id_answer(raw@, response_to, base),
        },
{
    match validate_party_id(raw) {
        Ok(id) => Ok(id),
        Err(_) => Err(
            answer(EventKind::PartyNotFoundError { response_to, party_id: raw.to_owned() }, base),
        ),
    }
}

/// Takes the string `raw` by which the event with the id `response_to`
/// names a party, as `admit_party_id_with` does. The id of the answer is
/// drawn here.
pub fn admit_party_id(raw: &str, response_to: EventId) -> (r: Result<PartyId, Vec<Outbound>>)
    ensures
        r is Ok <==> is_party_id_format(raw@),
        match r {
            Ok(id) => id@ == raw@,
            Err(out) => exists|base: EventId|
                outbound_view(out@) == #[trigger] malformed_id_answer(raw@, response_to, base),
        },
{
    let base = random_u128();
    let r = admit_party_id_with(raw, response_to, base);
    proof {
        if r is Err {
            assert(outbound_view(r->Err_0@) == malformed_id_answer(raw@, response_to, base));
        }
    }
    r
}

/// The event that tells the sender of the event `response_to` why it was
/// refused.
pub fn refusal_event(r: Refusal, response_to: EventId) -> (kind: EventKind)
    ensures
        kind@ == refusal_kind(r, response_to),
{
    match r {
        Refusal::Auth(_) => EventKind::AuthError { response_to, reason: r.reason() },
        _ => EventKind::InvalidPlayError { response_to, reason: r.reason() },
    }
}

/// Turns the answer `reply` of `party` to the event with the id
/// `response_to` into the events that go out: the table for every member,
/// each with that member's own hand; what is said and how the game ended
/// for every member; everything else for the sender alone.
pub fn fanout(party: &Party, reply: Reply, response_to: EventId, base: EventId) -> (out: Vec<
    Outbound,
>)
    requires
        party@.wf(),
    ensures
        outbound_view(out@) == fanout_spec(party@, reply@, response_to, base),
{
    let roster = party.roster();
    match reply {
        Reply::Joined { token } => answer(
            EventKind::PartyJoined {
                response_to,
                party_id: party.id().clone(),
                auth_token: token,
            },
            base,
        ),
        Reply::StateChanged => {
            let mut out: Vec<Outbound> = Vec::new();
            match party.table() {
                Some(table) => {
                    push_states(&mut out, roster, table, base, 0);
                    proof {
                        assert(outbound_view(out@) =~= state_events(
                            roster@.names(),
                            table@,
                            base,
                            0,
                        ));
                    }
                },
                None => {
                    proof {
                        assert(outbound_view(out@) =~= Seq::<OutboundView>::empty());
                    }
                },
            }
            out
        },
        Reply::Ended(outcome) => {
            let mut out: Vec<Outbound> = Vec::new();
            match party.table() {
                Some(table) => {
                    push_states(&mut out, roster, table, base, 0);
                    let ghost first = state_events(roster@.names(), table@, base, 0);
                    proof {
                        assert(outbound_view(out@) =~= first);
                    }
                    match outcome {
                        TerminalOutcome::Won => {
                            push_copies(&mut out, roster, &EventKind::PlayersWon, base, roster.len());
                        },
                        TerminalOutcome::Lost => {
                            push_copies(
                                &mut out,
                                roster,
                                &EventKind::PlayersLost,
                                base,
                                roster.len(),
                            );
                        },
                        TerminalOutcome::Ongoing => {
                            proof {
                                assert(first + Seq::<OutboundView>::empty() =~= first);
                            }
                        },
                    }
                },
                None => {
                    proof {
                        assert(outbound_view(out@) =~= Seq::<OutboundView>::empty());
                    }
                },
            }
            out
        },
        Reply::State { for_user } => {
            match party.table() {
                Some(table) => answer(table.project(&for_user), base),
                None => {
                    let out: Vec<Outbound> = Vec::new();
                    proof {
                        assert(outbound_view(out@) =~= Seq::<OutboundView>::empty());
                    }
                    out
                },
            }
        },
        Reply::Chat { username, message } => {
            let mut out: Vec<Outbound> = Vec::new();
            let kind = EventKind::Message { username, message };
            push_copies(&mut out, roster, &kind, base, 0);
            proof {
                assert(outbound_view(out@) =~= copies(roster@.names(), kind@, base, 0));
            }
            out
        },
        Reply::Quiet => {
            let out: Vec<Outbound> = Vec::new();
            proof {
                assert(outbound_view(out@) =~= Seq::<OutboundView>::empty());
            }
            out
        },
        Reply::Refused(r) => answer(refusal_event(r, response_to), base),
    }
}

impl PartyView {
    /// What the loss of the connection that holds `token` does to a party:
    /// the member leaves, and while the game runs those who stay are shown
    /// the table. Nobody is told of a token that is unknown.
    pub open spec fn depart(self, token: AuthToken, base: EventId) -> (
        PartyView,
        Seq<OutboundView>,
    ) {
        let (after, reply) = self.leave(token);
        (
            after,
            match reply {
                ReplyView::StateChanged => fanout_spec(after, reply, 0, base),
                _ => Seq::empty(),
            },
        )
    }
}

/// The token by which the event `kind` is judged when it comes over a
/// connection that holds `credential`: the one that the event carries, or
/// for a vote and a request for the table the credential. Joining and
/// events that no client sends are judged by none.
pub open spec fn judged_by(credential: Option<AuthToken>, kind: EventKindView) -> Option<
    Option<AuthToken>,
> {
    match kind {
        EventKindView::RejoinParty { auth_token, .. } => Some(Some(auth_token)),
        EventKindView::StartGame { auth_token } => Some(Some(auth_token)),
        EventKindView::PlayCards { auth_token, .. } => Some(Some(auth_token)),
        EventKindView::SendMessage { auth_token, .. } => Some(Some(auth_token)),
        EventKindView::PlayerStartVote { .. } => Some(credential),
        EventKindView::RequestState => Some(credential),
        _ => None,
    }
}

/// Whether `out` is one authentication error for the sender of the event
/// with the id `response_to`.
pub open spec fn is_auth_error_for(out: Seq<OutboundView>, response_to: EventId) -> bool {
    &&& out.len() == 1
    &&& out[0].to is Requester
    &&& out[0].event.kind matches EventKindView::AuthError { response_to: r, .. }
    &&& r == response_to
}

/// Whether `out` is one invalid-play error for the sender of the event
/// with the id `response_to`.
pub open spec fn is_invalid_play_for(out: Seq<OutboundView>, response_to: EventId) -> bool {
    &&& out.len() == 1
    &&& out[0].to is Requester
    &&& out[0].event.kind matches EventKindView::InvalidPlayError { response_to: r, .. }
    &&& r == response_to
}

/// Every refusal is answered and changes nothing: where a party refuses an
/// event, the party stays as it was, and exactly one event goes out, an
/// error for the sender alone that answers the event.
pub proof fn law_refusal_is_answered(
    party: PartyView,
    credential: Option<AuthToken>,
    event: EventView,
    chance: ChanceView,
)
    requires
        party.step(credential, event.kind, chance).1 is Refused,
    ensures
        party.handle(credential, event, chance).0 == party,
        is_auth_error_for(party.handle(credential, event, chance).1, event.id)
            || is_invalid_play_for(party.handle(credential, event, chance).1, event.id),
{
}

/// The owner starts the game whatever the random draws are: a start with
/// the owner's token, while the party gathers, deals the deck of the draws
/// to the members, and every member gets the table, each with the hand
/// that is the member's own.
pub proof fn law_owner_starts_the_game(
    party: PartyView,
    credential: Option<AuthToken>,
    event: EventView,
    chance: ChanceView,
)
    requires
        party.game is Gathering,
        event.kind matches EventKindView::StartGame { auth_token } && party.roster.verify(
            auth_token,
        ) == Ok::<Seq<char>, crate::token::AuthError>(party.owner),
    ensures
        ({
            let (then, out) = party.handle(credential, event, chance);
            let names = party.roster.names();
            let table = GameStateView::dealt(names, chance.deck);
            &&& then.game matches GameView::Running { table: t, .. } && t == table
            &&& then.roster == party.roster
            &&& out.len() == names.len()
            &&& forall|i: int|
                0 <= i < names.len() ==> {
                    &&& (#[trigger] out[i]).to == RecipientView::Member(names[i])
                    &&& out[i].event.kind == table.project(names[i])
                }
        }),
{
}

/// Only the owner starts a game: a start with a token that is not bound to
/// the owner leaves the party as it is, in the phase in which it was, and
/// the sender alone gets an authentication error that answers the event.
pub proof fn law_start_needs_owner(
    party: PartyView,
    credential: Option<AuthToken>,
    event: EventView,
    chance: ChanceView,
)
    requires
        event.kind matches EventKindView::StartGame { auth_token } && party.roster.verify(
            auth_token,
        ) != Ok::<Seq<char>, crate::token::AuthError>(party.owner),
    ensures
        party.handle(credential, event, chance).0 == party,
        is_auth_error_for(party.handle(credential, event, chance).1, event.id),
{
}

/// No event changes a party without a token of one of its members: an
/// event that is judged by a token, and comes with none or with one that
/// is not bound to a member of the party, leaves the party as it is, and
/// the sender alone gets an authentication error that answers the event.
pub proof fn law_unauthenticated_changes_nothing(
    party: PartyView,
    credential: Option<AuthToken>,
    event: EventView,
    chance: ChanceView,
)
    requires
        judged_by(credential, event.kind) matches Some(token) && party.sender(token) is Err,
    ensures
        party.handle(credential, event, chance).0 == party,
        is_auth_error_for(party.handle(credential, event, chance).1, event.id),
{
}

/// A finished game is final: no event changes the game of a party whose
/// game is over, or who its members are, and plays are refused with an
/// error for the sender alone.
pub proof fn law_finished_is_terminal(
    party: PartyView,
    credential: Option<AuthToken>,
    event: EventView,
    chance: ChanceView,
)
    requires
        party.game is Finished,
    ensures
        party.handle(credential, event, chance).0 == party,
        event.kind is PlayCards ==> is_auth_error_for(
            party.handle(credential, event, chance).1,
            event.id,
        ) || is_invalid_play_for(party.handle(credential, event, chance).1, event.id),
{
}

/// A play that the rules refuse changes nothing, and the sender alone gets
/// an invalid-play error that answers the event.
pub proof fn law_refused_play_changes_nothing(
    party: PartyView,
    credential: Option<AuthToken>,
    event: EventView,
    chance: ChanceView,
)
    requires
        event.kind matches EventKindView::PlayCards { auth_token, actions } && party.sender(
            Some(auth_token),
        ) matches Ok(name) && party.game matches GameView::Running { table, .. }
            && table.apply_play(name, actions) is Err,
    ensures
        party.handle(credential, event, chance).0 == party,
        is_invalid_play_for(party.handle(credential, event, chance).1, event.id),
{
}

/// A play after which the draw pile and every hand are empty wins the
/// game: the party is finished as won, and every member gets the table and
/// then the news.
pub proof fn law_last_card_wins(
    party: PartyView,
    credential: Option<AuthToken>,
    event: EventView,
    chance: ChanceView,
)
    requires
        event.kind matches EventKindView::PlayCards { auth_token, actions } && party.sender(
            Some(auth_token),
        ) matches Ok(name) && party.game matches GameView::Running { table, .. }
            && table.apply_play(name, actions) matches Ok(after) && after.draw_pile.len() == 0
            && crate::table::all_empty(after.hands),
    ensures
        ({
            let (then, out) = party.handle(credential, event, chance);
            let n = party.roster.members.len() as int;
            &&& then.game matches GameView::Finished { outcome, .. } && outcome
                == TerminalOutcome::Won
            &&& out.len() == 2 * n
            &&& forall|i: int|
                0 <= i < n ==> {
                    &&& (#[trigger] out[i]).to == RecipientView::Member(party.roster.names()[i])
                    &&& out[i].event.kind is GameState
                    &&& out[n + i].to == RecipientView::Member(party.roster.names()[i])
                    &&& out[n + i].event.kind is PlayersWon
                }
        }),
{
}

/// A play after which the active player holds cards and can lay none of
/// them on any stack loses the game: the party is finished as lost, and
/// every member gets the table and then the news.
pub proof fn law_stuck_player_loses(
    party: PartyView,
    credential: Option<AuthToken>,
    event: EventView,
    chance: ChanceView,
)
    requires
        event.kind matches EventKindView::PlayCards { auth_token, actions } && party.sender(
            Some(auth_token),
        ) matches Ok(name) && party.game matches GameView::Running { table, .. }
            && table.apply_play(name, actions) matches Ok(after) && after.active_player matches Some(
            p,
        ) && after.hand_of(p).len() > 0 && !crate::table::can_play(after.hand_of(p), after.stacks),
    ensures
        ({
            let (then, out) = party.handle(credential, event, chance);
            let n = party.roster.members.len() as int;
            &&& then.game matches GameView::Finished { outcome, .. } && outcome
                == TerminalOutcome::Lost
            &&& out.len() == 2 * n
            &&& forall|i: int|
                0 <= i < n ==> {
                    &&& (#[trigger] out[i]).to == RecipientView::Member(party.roster.names()[i])
                    &&& out[i].event.kind is GameState
                    &&& out[n + i].to == RecipientView::Member(party.roster.names()[i])
                    &&& out[n + i].event.kind is PlayersLost
                }
        }),
{
    let table = party.game->Running_table;
    let name = party.sender(Some(event.kind->PlayCards_auth_token))->Ok_0;
    let after = table.apply_play(name, event.kind->PlayCards_actions)->Ok_0;
    let p = after.active_player->0;
    lemma_first_index(players(after.hands), p);
    let h = first_index(players(after.hands), p)->0;
    assert(after.hands[h].cards.len() > 0);
    assert(!crate::table::all_empty(after.hands));
}

impl Chance {
    /// Random draws for the event `kind`: a secret, a first id for the
    /// events that go out and, for the start of a game, the full deck
    /// shuffled; for any other event the deck is empty.
    pub fn draw_for(kind: &EventKind) -> (chance: Chance)
        ensures
            chance@.wf(),
            kind@ is StartGame ==> chance@.deck.to_multiset() == standard_deck_spec().to_multiset(),
            !(kind@ is StartGame) ==> chance@.deck.len() == 0,
    {
        let secret = random_u128();
        let event_base = random_u128();
        let deck = match kind {
            EventKind::StartGame { .. } => {
                let mut deck = standard_deck();
                proof {
                    crate::deal::lemma_standard_deck_apart();
                }
                shuffle(&mut deck);
                deck
            },
            _ => {
                let deck: Vec<Card> = Vec::new();
                proof {
                    assert forall|id: u8| crate::counting::occurrences(deck@, id) <= 1 by {
                        assert(crate::counting::occurrences(deck@, id) == 0);
                    }
                }
                deck
            },
        };
        let id_seed = random_u128();
        let game_id = random_u128();
        Chance { secret, event_base, deck, id_seed, game_id }
    }
}

impl Party {
    /// Takes the event `event` that came over a connection which holds
    /// `credential`, with the random draws `chance`, and gives the events
    /// that go out.
    pub fn handle_with(&mut self, credential: Option<AuthToken>, event: Event, chance: Chance) -> (out:
        Vec<Outbound>)
        requires
            old(self)@.wf(),
            chance@.wf(),
        ensures
            final(self)@.wf(),
            (final(self)@, outbound_view(out@)) == old(self)@.handle(credential, event@, chance@),
    {
        let base = chance.event_base;
        let id = event.id;
        let reply = self.step(credential, event.kind, chance);
        fanout(self, reply, id, base)
    }

    /// Takes the member who holds `token` out of the party, as when the
    /// member's connection is lost, and gives the events that go out, whose
    /// ids count up from `base`.
    pub fn depart(&mut self, token: AuthToken, base: EventId) -> (out: Vec<Outbound>)
        requires
            old(self)@.wf(),
        ensures
            final(self)@.wf(),
            (final(self)@, outbound_view(out@)) == old(self)@.depart(token, base),
    {
        let reply = self.leave(token);
        match reply {
            Reply::StateChanged => fanout(self, reply, 0, base),
            _ => {
                let out: Vec<Outbound> = Vec::new();
                proof {
                    assert(outbound_view(out@) =~= Seq::<OutboundView>::empty());
                }
                out
            },
        }
    }

    /// Takes the event `event` that came over a connection which holds
    /// `credential`, and gives the events that go out. The random draws
    /// are made here; whatever they are, the deck that a game starts with
    /// is the full deck in some order.
    pub fn handle(&mut self, credential: Option<AuthToken>, event: Event) -> (out: Vec<Outbound>)
        requires
            old(self)@.wf(),
        ensures
            final(self)@.wf(),
            exists|chance: ChanceView|
                {
                    &&& chance.wf()
                    &&& event@.kind is StartGame ==> chance.deck.to_multiset()
                        == standard_deck_spec().to_multiset()
                    &&& (final(self)@, outbound_view(out@)) == #[trigger] old(self)@.handle(
                        credential,
                        event@,
                        chance,
                    )
                },
    {
        let chance = Chance::draw_for(&event.kind);
        let ghost drawn = chance@;
        let out = self.handle_with(credential, event, chance);
        proof {
            assert((self@, outbound_view(out@)) == old(self)@.handle(credential, event@, drawn));
        }
        out
    }
}

} // verus!
