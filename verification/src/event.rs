//! The events that clients and the server exchange, and the addressed
//! events that the server sends out.

use crate::ident::PartyId;
use crate::rules::{Card, PlayAction, Stack};
use crate::token::AuthToken;
use vstd::prelude::*;
use vstd::string::*;

verus! {

/// The id of an event: a 128-bit number, written on the wire as a UUID.
pub type EventId = u128;

/// How many cards one player holds.
#[derive(Debug)]
pub struct CardCount {
    pub username: String,
    pub count: u8,
}

/// A count as contracts see it.
pub struct CardCountView {
    pub username: Seq<char>,
    pub count: u8,
}

impl View for CardCount {
    type V = CardCountView;

    open spec fn view(&self) -> CardCountView {
        CardCountView { username: self.username@, count: self.count }
    }
}

/// The views of `counts`, in their order.
pub open spec fn counts_view(counts: Seq<CardCount>) -> Seq<CardCountView> {
    Seq::new(counts.len(), |i: int| counts[i]@)
}

/// All kinds of events. The first comment line of each gives its tag on the
/// wire.
#[derive(Debug)]
#[allow(inconsistent_fields)]
pub enum EventKind {
    /// `PARTY/CREATE_PARTY`: a client asks for a new party.
    CreateParty { owner: String },
    /// `PARTY/PARTY_CREATED`: the answer to the client that asked.
    PartyCreated { response_to: EventId, party_id: PartyId, auth_token: AuthToken },
    /// `PARTY/JOIN`: a client asks to join a party under a name.
    JoinParty { username: String, party_id: PartyId },
    /// `PARTY/REJOIN`: a client comes back with the token it holds.
    RejoinParty { party_id: PartyId, auth_token: AuthToken },
    /// `PARTY/PARTY_JOINED`: the answer to the client that joined or came
    /// back.
    PartyJoined { response_to: EventId, party_id: PartyId, auth_token: AuthToken },
    /// `PARTY/START`: the owner starts the game.
    StartGame { auth_token: AuthToken },
    /// `GAME/STATE`: the table as one player may see it. `player_hand` is
    /// the hand of the player who gets the event; of the others only the
    /// number of cards is told.
    GameState {
        active_player: Option<String>,
        player_hand: Vec<Card>,
        players_cards_count: Vec<CardCount>,
        stacks: Vec<Stack>,
        draw_stack_card_count: u8,
    },
    /// `GAME/PLAY`: a player lays cards on stacks.
    PlayCards { auth_token: AuthToken, actions: Vec<PlayAction> },
    /// `GAME/VOTE`: a player votes on who begins.
    PlayerStartVote { nominee: String },
    /// `GAME/REQUEST_STATE`: a player asks for the table again.
    RequestState,
    /// `GAME/PLAYER_LOST`: the game is lost.
    PlayersLost,
    /// `GAME/PLAYER_WON`: the game is won.
    PlayersWon,
    /// `CHAT/SEND_MESSAGE`: a member says something.
    SendMessage { auth_token: AuthToken, message: String },
    /// `CHAT/MESSAGE`: what a member said, for every member.
    Message { username: String, message: String },
    /// `ERROR/PARTY_NOT_FOUND`: no party has this id. The id is told as it
    /// was asked for, which may be a string that is no party id at all.
    PartyNotFoundError { response_to: EventId, party_id: String },
    /// `ERROR/INVALID_PLAY`: the rules refuse what was asked.
    InvalidPlayError { response_to: EventId, reason: String },
    /// `ERROR/AUTHENTICATION`: the sender may not do what was asked.
    AuthError { response_to: EventId, reason: String },
}

/// A kind of event as contracts see it.
pub enum EventKindView {
    CreateParty { owner: Seq<char> },
    PartyCreated { response_to: EventId, party_id: Seq<char>, auth_token: AuthToken },
    JoinParty { username: Seq<char>, party_id: Seq<char> },
    RejoinParty { party_id: Seq<char>, auth_token: AuthToken },
    PartyJoined { response_to: EventId, party_id: Seq<char>, auth_token: AuthToken },
    StartGame { auth_token: AuthToken },
    GameState {
        active_player: Option<Seq<char>>,
        player_hand: Seq<Card>,
        players_cards_count: Seq<CardCountView>,
        stacks: Seq<Stack>,
        draw_stack_card_count: u8,
    },
    PlayCards { auth_token: AuthToken, actions: Seq<PlayAction> },
    PlayerStartVote { nominee: Seq<char> },
    RequestState,
    PlayersLost,
    PlayersWon,
    SendMessage { auth_token: AuthToken, message: Seq<char> },
    Message { username: Seq<char>, message: Seq<char> },
    PartyNotFoundError { response_to: EventId, party_id: Seq<char> },
    InvalidPlayError { response_to: EventId, reason: Seq<char> },
    AuthError { response_to: EventId, reason: Seq<char> },
}

impl View for EventKind {
    type V = EventKindView;

    open spec fn view(&self) -> EventKindView {
        match *self {
            EventKind::CreateParty { owner } => EventKindView::CreateParty { owner: owner@ },
            EventKind::PartyCreated {
                response_to,
                party_id,
                auth_token,
            } => EventKindView::PartyCreated { response_to, party_id: party_id@, auth_token },
            EventKind::JoinParty { username, party_id } => EventKindView::JoinParty {
                username: username@,
                party_id: party_id@,
            },
            EventKind::RejoinParty { party_id, auth_token } => EventKindView::RejoinParty {
                party_id: party_id@,
                auth_token,
            },
            EventKind::PartyJoined {
                response_to,
                party_id,
                auth_token,
            } => EventKindView::PartyJoined { response_to, party_id: party_id@, auth_token },
            EventKind::StartGame { auth_token } => EventKindView::StartGame { auth_token },
            EventKind::GameState {
                active_player,
                player_hand,
                players_cards_count,
                stacks,
                draw_stack_card_count,
            } => EventKindView::GameState {
                active_player: match active_player {
                    Some(p) => Some(p@),
                    None => None,
                },
                player_hand: player_hand@,
                players_cards_count: counts_view(players_cards_count@),
                stacks: stacks@,
                draw_stack_card_count,
            },
            EventKind::PlayCards { auth_token, actions } => EventKindView::PlayCards {
                auth_token,
                actions: actions@,
            },
            EventKind::PlayerStartVote { nominee } => EventKindView::PlayerStartVote {
                nominee: nominee@,
            },
            EventKind::RequestState => EventKindView::RequestState,
            EventKind::PlayersLost => EventKindView::PlayersLost,
            EventKind::PlayersWon => EventKindView::PlayersWon,
            EventKind::SendMessage { auth_token, message } => EventKindView::SendMessage {
                auth_token,
                message: message@,
            },
            EventKind::Message { username, message } => EventKindView::Message {
                username: username@,
                message: message@,
            },
            EventKind::PartyNotFoundError { response_to, party_id } => {
                EventKindView::PartyNotFoundError { response_to, party_id: party_id@ }
            },
            EventKind::InvalidPlayError { response_to, reason } => {
                EventKindView::InvalidPlayError { response_to, reason: reason@ }
            },
            EventKind::AuthError { response_to, reason } => EventKindView::AuthError {
                response_to,
                reason: reason@,
            },
        }
    }
}

/// One event: its id and what it says.
#[derive(Debug)]
pub struct Event {
    pub id: EventId,
    pub kind: EventKind,
}

/// An event as contracts see it.
pub struct EventView {
    pub id: EventId,
    pub kind: EventKindView,
}

impl View for Event {
    type V = EventView;

    open spec fn view(&self) -> EventView {
        EventView { id: self.id, kind: self.kind@ }
    }
}

/// To whom an event goes.
#[derive(Debug)]
pub enum Recipient {
    /// The connection that sent the event which is being answered.
    Requester,
    /// The member of the party with this name.
    Member(String),
}

/// A recipient as contracts see it.
pub enum RecipientView {
    Requester,
    Member(Seq<char>),
}

impl View for Recipient {
    type V = RecipientView;

    open spec fn view(&self) -> RecipientView {
        match *self {
            Recipient::Requester => RecipientView::Requester,
            Recipient::Member(name) => RecipientView::Member(name@),
        }
    }
}

/// An event on its way out, with its recipient.
#[derive(Debug)]
pub struct Outbound {
    pub to: Recipient,
    pub event: Event,
}

/// An outgoing event as contracts see it.
pub struct OutboundView {
    pub to: RecipientView,
    pub event: EventView,
}

impl View for Outbound {
    type V = OutboundView;

    open spec fn view(&self) -> OutboundView {
        OutboundView { to: self.to@, event: self.event@ }
    }
}

/// The views of `out`, in their order.
pub open spec fn outbound_view(out: Seq<Outbound>) -> Seq<OutboundView> {
    Seq::new(out.len(), |i: int| out[i]@)
}

/// The id of the event at place `k` of a batch whose ids begin at `base`:
/// `base` plus `k`, wrapping round at the end of the range.
pub open spec fn event_id_at(base: EventId, k: nat) -> EventId {
    ((base + k) % (u128::MAX + 1)) as u128
}

/// The events of one batch have ids of their own: two places of a batch
/// that is shorter than the range of ids get different ids.
pub proof fn law_batch_ids_differ(base: EventId, i: nat, j: nat)
    requires
        i != j,
        i <= u128::MAX,
        j <= u128::MAX,
    ensures
        event_id_at(base, i) != event_id_at(base, j),
{
    let m = u128::MAX + 1;
    let a = (base + i) as int;
    let b = (base + j) as int;
    assert(a % m != b % m) by {
        if a < m && b < m {
        } else if a >= m && b >= m {
            assert(a % m == a - m);
            assert(b % m == b - m);
        } else if a >= m {
            assert(a % m == a - m);
            assert(b % m == b);
        } else {
            assert(a % m == a);
            assert(b % m == b - m);
        }
    }
}

/// The id of the event at place `k` of a batch whose ids begin at `base`.
pub fn nth_event_id(base: EventId, k: u128) -> (id: EventId)
    ensures
        id == event_id_at(base, k as nat),
{
    base.wrapping_add(k)
}

/// A copy of `counts`.
pub fn copy_counts(counts: &Vec<CardCount>) -> (copy: Vec<CardCount>)
    ensures
        counts_view(copy@) == counts_view(counts@),
{
    let mut copy: Vec<CardCount> = Vec::new();
    let mut i: usize = 0;
    while i < counts.len()
        invariant
            i <= counts.len(),
            copy@.len() == i,
            forall|j: int| 0 <= j < i ==> (#[trigger] copy@[j])@ == counts@[j]@,
        decreases counts.len() - i,
    {
        copy.push(CardCount { username: counts[i].username.clone(), count: counts[i].count });
        i += 1;
    }
    proof {
        assert(counts_view(copy@) =~= counts_view(counts@));
    }
    copy
}

impl Clone for EventKind {
    fn clone(&self) -> (copy: Self)
        ensures
            copy@ == self@,
    {
        match self {
            EventKind::CreateParty { owner } => EventKind::CreateParty { owner: owner.clone() },
            EventKind::PartyCreated {
                response_to,
                party_id,
                auth_token,
            } => EventKind::PartyCreated {
                response_to: *response_to,
                party_id: party_id.clone(),
                auth_token: *auth_token,
            },
            EventKind::JoinParty { username, party_id } => EventKind::JoinParty {
                username: username.clone(),
                party_id: party_id.clone(),
            },
            EventKind::RejoinParty { party_id, auth_token } => EventKind::RejoinParty {
                party_id: party_id.clone(),
                auth_token: *auth_token,
            },
            EventKind::PartyJoined {
                response_to,
                party_id,
                auth_token,
            } => EventKind::PartyJoined {
                response_to: *response_to,
                party_id: party_id.clone(),
                auth_token: *auth_token,
            },
            EventKind::StartGame { auth_token } => EventKind::StartGame {
                auth_token: *auth_token,
            },
            EventKind::GameState {
                active_player,
                player_hand,
                players_cards_count,
                stacks,
                draw_stack_card_count,
            } => {
                let hand = player_hand.clone();
                let piles = stacks.clone();
                proof {
                    assert(hand@ =~= player_hand@);
                    assert(piles@ =~= stacks@);
                }
                EventKind::GameState {
                    active_player: match active_player {
                        Some(p) => Some(p.clone()),
                        None => None,
                    },
                    player_hand: hand,
                    players_cards_count: copy_counts(players_cards_count),
                    stacks: piles,
                    draw_stack_card_count: *draw_stack_card_count,
                }
            },
            EventKind::PlayCards { auth_token, actions } => {
                let plays = actions.clone();
                proof {
                    assert(plays@ =~= actions@);
                }
                EventKind::PlayCards { auth_token: *auth_token, actions: plays }
            },
            EventKind::PlayerStartVote { nominee } => EventKind::PlayerStartVote {
                nominee: nominee.clone(),
            },
            EventKind::RequestState => EventKind::RequestState,
            EventKind::PlayersLost => EventKind::PlayersLost,
            EventKind::PlayersWon => EventKind::PlayersWon,
            EventKind::SendMessage { auth_token, message } => EventKind::SendMessage {
                auth_token: *auth_token,
                message: message.clone(),
            },
            EventKind::Message { username, message } => EventKind::Message {
                username: username.clone(),
                message: message.clone(),
            },
            EventKind::PartyNotFoundError { response_to, party_id } => {
                EventKind::PartyNotFoundError {
                    response_to: *response_to,
                    party_id: party_id.clone(),
                }
            },
            EventKind::InvalidPlayError { response_to, reason } => EventKind::InvalidPlayError {
                response_to: *response_to,
                reason: reason.clone(),
            },
            EventKind::AuthError { response_to, reason } => EventKind::AuthError {
                response_to: *response_to,
                reason: reason.clone(),
            },
        }
    }
}

} // verus!
