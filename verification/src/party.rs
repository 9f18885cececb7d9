//! One party: its owner, its members and its game, and what each request
//! of a member does to them.

use crate::counting::ids_apart;
use crate::deal::names_view;
use crate::event::{EventKind, EventKindView};
use crate::game::{Game, GameGathering, GameView};
use crate::ident::PartyId;
use crate::rules::{Card, InvalidPlayError, PlayAction, TerminalOutcome, MAX_CARDS};
use crate::seqs::{first_index, lemma_first_index};
use crate::table::{players, GameState, GameStateView};
use crate::token::{AuthError, AuthToken, MemberView, Roster, RosterView};
use crate::votes::VoteError;
use vstd::prelude::*;
use vstd::string::*;

verus! {

/// Why a request was refused.
#[derive(Debug, Clone, Copy, PartialEq, Eq, Structural)]
pub enum Refusal {
    /// The sender may not do this.
    Auth(AuthError),
    /// The rules refuse the plays.
    Play(InvalidPlayError),
    /// The vote cannot be taken.
    Vote(VoteError),
    /// The game has not begun.
    NotRunning,
    /// The game is over.
    GameOver,
    /// The event is none that a client may send to a party.
    Unsupported,
}

/// The text that goes out with each refusal.
pub open spec fn refusal_reason(r: Refusal) -> Seq<char> {
    match r {
        Refusal::Auth(e) => crate::token::auth_reason(e),
        Refusal::Play(e) => crate::rules::play_reason(e),
        Refusal::Vote(e) => crate::votes::vote_reason(e),
        Refusal::NotRunning => "the game has not begun"@,
        Refusal::GameOver => "the game is over"@,
        Refusal::Unsupported => "a client cannot send this event to a party"@,
    }
}

impl Refusal {
    /// The text that goes out with this refusal.
    pub fn reason(&self) -> (text: String)
        ensures
            text@ == refusal_reason(*self),
    {
        match self {
            Refusal::Auth(e) => e.reason(),
            Refusal::Play(e) => e.reason(),
            Refusal::Vote(e) => e.reason(),
            Refusal::NotRunning => "the game has not begun".to_owned(),
            Refusal::GameOver => "the game is over".to_owned(),
            Refusal::Unsupported => "a client cannot send this event to a party".to_owned(),
        }
    }
}

/// What a party answers to a request.
#[derive(Debug)]
pub enum Reply {
    /// The sender is a member and holds this token.
    Joined { token: AuthToken },
    /// The table changed, or is to be shown again: every member gets it.
    StateChanged,
    /// The game ended: every member gets the table and the outcome.
    Ended(TerminalOutcome),
    /// The sender, who is this member, gets the table.
    State { for_user: String },
    /// Every member gets what this member said.
    Chat { username: String, message: String },
    /// Nothing is sent.
    Quiet,
    /// The request was refused, and the sender is told why.
    Refused(Refusal),
}

/// An answer as contracts see it.
pub enum ReplyView {
    Joined { token: AuthToken },
    StateChanged,
    Ended(TerminalOutcome),
    State { for_user: Seq<char> },
    Chat { username: Seq<char>, message: Seq<char> },
    Quiet,
    Refused(Refusal),
}

impl View for Reply {
    type V = ReplyView;

    open spec fn view(&self) -> ReplyView {
        match *self {
            Reply::Joined { token } => ReplyView::Joined { token },
            Reply::StateChanged => ReplyView::StateChanged,
            Reply::Ended(outcome) => ReplyView::Ended(outcome),
            Reply::State { for_user } => ReplyView::State { for_user: for_user@ },
            Reply::Chat { username, message } => ReplyView::Chat {
                username: username@,
                message: message@,
            },
            Reply::Quiet => ReplyView::Quiet,
            Reply::Refused(r) => ReplyView::Refused(r),
        }
    }
}

/// The random draws that a request may need: the secret of a new token,
/// the first id of the events that go out, a shuffled deck, and for a new
/// party the seed of its id and the id of its game.
#[derive(Debug)]
pub struct Chance {
    pub secret: u128,
    pub event_base: u128,
    pub deck: Vec<Card>,
    pub id_seed: u128,
    pub game_id: u128,
}

/// The random draws as contracts see them.
pub struct ChanceView {
    pub secret: u128,
    pub event_base: u128,
    pub deck: Seq<Card>,
    pub id_seed: u128,
    pub game_id: u128,
}

impl View for Chance {
    type V = ChanceView;

    open spec fn view(&self) -> ChanceView {
        ChanceView {
            secret: self.secret,
            event_base: self.event_base,
            deck: self.deck@,
            id_seed: self.id_seed,
            game_id: self.game_id,
        }
    }
}

impl ChanceView {
    /// The deck is one that a table can hold, and its cards have ids of
    /// their own.
    pub open spec fn wf(self) -> bool {
        &&& self.deck.len() <= MAX_CARDS
        &&& ids_apart(self.deck)
    }
}

/// A party: its public id, the name of its owner, its members with their
/// tokens, and its game.
#[derive(Debug)]
pub struct Party {
    id: PartyId,
    owner: String,
    roster: Roster,
    game: Game,
}

/// A party as contracts see it.
pub struct PartyView {
    pub id: Seq<char>,
    pub owner: Seq<char>,
    pub roster: RosterView,
    pub game: GameView,
}

impl View for Party {
    type V = PartyView;

    closed spec fn view(&self) -> PartyView {
        PartyView { id: self.id@, owner: self.owner@, roster: self.roster@, game: self.game@ }
    }
}

impl PartyView {
    /// What holds of every party: a valid roster, a valid table once the
    /// game has begun, and while it runs one hand for each member, in the
    /// members' order.
    pub open spec fn wf(self) -> bool {
        &&& self.roster.wf()
        &&& match self.game {
            GameView::Gathering { .. } => true,
            GameView::Running { table, .. } => table.wf() && players(table.hands)
                == self.roster.names(),
            GameView::Finished { table, .. } => table.wf(),
        }
    }

    /// The party as it is created: gathering, with the owner as its first
    /// and only member.
    pub open spec fn created(
        id: Seq<char>,
        realm: u32,
        owner: Seq<char>,
        secret: u128,
        game_id: u128,
    ) -> PartyView {
        let token = AuthToken { realm, serial: 0, secret };
        PartyView {
            id,
            owner,
            roster: RosterView {
                realm,
                next_serial: 1,
                members: seq![MemberView { username: owner, token }],
            },
            game: GameView::Gathering { id: game_id },
        }
    }

    /// The member who sends with `token`; or why there is none.
    pub open spec fn sender(self, token: Option<AuthToken>) -> Result<Seq<char>, Refusal> {
        match token {
            None => Err(Refusal::Auth(AuthError::MissingToken)),
            Some(t) => match self.roster.verify(t) {
                Ok(name) => Ok(name),
                Err(e) => Err(Refusal::Auth(e)),
            },
        }
    }

    /// Somebody joins as `username` and gets a token made of `secret`. A
    /// party whose game is over takes nobody; while the game runs, the new
    /// member sits down with an empty hand.
    pub open spec fn join(self, username: Seq<char>, secret: u128) -> (PartyView, ReplyView) {
        if self.game is Finished {
            (self, ReplyView::Refused(Refusal::GameOver))
        } else {
            match self.roster.issue(username, secret) {
                Err(e) => (self, ReplyView::Refused(Refusal::Auth(e))),
                Ok((roster, token)) => (
                    PartyView {
                        roster,
                        game: match self.game {
                            GameView::Running { id, table } => GameView::Running {
                                id,
                                table: table.seat(username),
                            },
                            _ => self.game,
                        },
                        ..self
                    },
                    ReplyView::Joined { token },
                ),
            }
        }
    }

    /// A member comes back with `token`. Nothing changes.
    pub open spec fn rejoin(self, token: AuthToken) -> (PartyView, ReplyView) {
        match self.sender(Some(token)) {
            Err(r) => (self, ReplyView::Refused(r)),
            Ok(_) => (self, ReplyView::Joined { token }),
        }
    }

    /// The owner starts the game with the deck `deck`. Anybody else is
    /// refused. A game that runs already stays as it is and is shown
    /// again.
    pub open spec fn start(self, token: AuthToken, deck: Seq<Card>) -> (PartyView, ReplyView) {
        match self.sender(Some(token)) {
            Err(r) => (self, ReplyView::Refused(r)),
            Ok(name) => if name != self.owner {
                (self, ReplyView::Refused(Refusal::Auth(AuthError::NotOwner)))
            } else if self.game is Finished {
                (self, ReplyView::Refused(Refusal::GameOver))
            } else {
                (
                    PartyView { game: self.game.begin(self.roster.names(), deck), ..self },
                    ReplyView::StateChanged,
                )
            },
        }
    }

    /// A member plays `actions`. The game ends when the table is won or
    /// lost afterwards.
    pub open spec fn play(self, token: AuthToken, actions: Seq<PlayAction>) -> (
        PartyView,
        ReplyView,
    ) {
        match self.sender(Some(token)) {
            Err(r) => (self, ReplyView::Refused(r)),
            Ok(name) => match self.game {
                GameView::Gathering { .. } => (self, ReplyView::Refused(Refusal::NotRunning)),
                GameView::Finished { .. } => (self, ReplyView::Refused(Refusal::GameOver)),
                GameView::Running { id, table } => match table.apply_play(name, actions) {
                    Err(e) => (self, ReplyView::Refused(Refusal::Play(e))),
                    Ok(after) => match after.check_terminal() {
                        TerminalOutcome::Ongoing => (
                            PartyView { game: GameView::Running { id, table: after }, ..self },
                            ReplyView::StateChanged,
                        ),
                        outcome => (
                            PartyView {
                                game: GameView::Finished { id, outcome, table: after },
                                ..self
                            },
                            ReplyView::Ended(outcome),
                        ),
                    },
                },
            },
        }
    }

    /// The member who holds `credential` votes for `nominee`. The table is
    /// shown once the vote has decided who is active.
    pub open spec fn vote(self, credential: Option<AuthToken>, nominee: Seq<char>) -> (
        PartyView,
        ReplyView,
    ) {
        match self.sender(credential) {
            Err(r) => (self, ReplyView::Refused(r)),
            Ok(name) => match self.game {
                GameView::Gathering { .. } => (self, ReplyView::Refused(Refusal::NotRunning)),
                GameView::Finished { .. } => (self, ReplyView::Refused(Refusal::GameOver)),
                GameView::Running { id, table } => match table.vote(name, nominee) {
                    Err(e) => (self, ReplyView::Refused(Refusal::Vote(e))),
                    Ok(after) => (
                        PartyView { game: GameView::Running { id, table: after }, ..self },
                        if after.active_player is Some {
                            ReplyView::StateChanged
                        } else {
                            ReplyView::Quiet
                        },
                    ),
                },
            },
        }
    }

    /// The member who holds `credential` asks for the table.
    pub open spec fn request_state(self, credential: Option<AuthToken>) -> (PartyView, ReplyView) {
        match self.sender(credential) {
            Err(r) => (self, ReplyView::Refused(r)),
            Ok(name) => if self.game is Gathering {
                (self, ReplyView::Refused(Refusal::NotRunning))
            } else {
                (self, ReplyView::State { for_user: name })
            },
        }
    }

    /// A member says `message`.
    pub open spec fn chat(self, token: AuthToken, message: Seq<char>) -> (PartyView, ReplyView) {
        match self.sender(Some(token)) {
            Err(r) => (self, ReplyView::Refused(r)),
            Ok(name) => (self, ReplyView::Chat { username: name, message }),
        }
    }

    /// The member who holds `token` leaves. While the game runs the member
    /// leaves the table too, and those who stay are shown it.
    pub open spec fn leave(self, token: AuthToken) -> (PartyView, ReplyView) {
        match self.sender(Some(token)) {
            Err(r) => (self, ReplyView::Refused(r)),
            Ok(name) => match self.game {
                GameView::Running { id, table } => (
                    PartyView {
                        roster: self.roster.revoke(token),
                        game: GameView::Running { id, table: table.unseat(name) },
                        ..self
                    },
                    ReplyView::StateChanged,
                ),
                _ => (PartyView { roster: self.roster.revoke(token), ..self }, ReplyView::Quiet),
            },
        }
    }

    /// What the event `kind` does to the party when it comes over a
    /// connection that holds `credential`, with the random draws `chance`.
    /// An event that carries a token is judged by that token, one that
    /// carries none by the credential.
    pub open spec fn step(
        self,
        credential: Option<AuthToken>,
        kind: EventKindView,
        chance: ChanceView,
    ) -> (PartyView, ReplyView) {
        match kind {
            EventKindView::JoinParty { username, .. } => self.join(username, chance.secret),
            EventKindView::RejoinParty { auth_token, .. } => self.rejoin(auth_token),
            EventKindView::StartGame { auth_token } => self.start(auth_token, chance.deck),
            EventKindView::PlayCards { auth_token, actions } => self.play(auth_token, actions),
            EventKindView::PlayerStartVote { nominee } => self.vote(credential, nominee),
            EventKindView::RequestState => self.request_state(credential),
            EventKindView::SendMessage { auth_token, message } => self.chat(auth_token, message),
            _ => (self, ReplyView::Refused(Refusal::Unsupported)),
        }
    }
}

/// No request changes the id of a party, its owner or the code that its
/// tokens carry.
pub proof fn lemma_step_keeps_identity(
    party: PartyView,
    credential: Option<AuthToken>,
    kind: EventKindView,
    chance: ChanceView,
)
    ensures
        party.step(credential, kind, chance).0.id == party.id,
        party.step(credential, kind, chance).0.owner == party.owner,
        party.step(credential, kind, chance).0.roster.realm == party.roster.realm,
{
}

/// Leaving changes neither the id of a party nor its owner nor the code
/// that its tokens carry.
pub proof fn lemma_leave_keeps_identity(party: PartyView, token: AuthToken)
    ensures
        party.leave(token).0.id == party.id,
        party.leave(token).0.owner == party.owner,
        party.leave(token).0.roster.realm == party.roster.realm,
{
}

/// An accepted batch of plays leaves every hand with its player.
pub proof fn lemma_apply_play_keeps_players(
    table: GameStateView,
    player: Seq<char>,
    actions: Seq<PlayAction>,
)
    ensures
        table.apply_play(player, actions) matches Ok(after) ==> players(after.hands) == players(
            table.hands,
        ),
{
    if table.apply_play(player, actions) is Ok {
        let after = table.apply_play(player, actions)->Ok_0;
        lemma_first_index(players(table.hands), player);
        assert(players(after.hands) =~= players(table.hands));
    }
}

impl Party {
    /// A new party with the id `id` that stands for the code `realm`:
    /// gathering, with `owner` as its first member, whose token is made of
    /// `secret`.
    pub fn create(id: PartyId, realm: u32, owner: String, secret: u128, game_id: u128) -> (r: (
        Party,
        AuthToken,
    ))
        ensures
            r.0@ == PartyView::created(id@, realm, owner@, secret, game_id),
            r.0@.wf(),
            r.1 == (AuthToken { realm, serial: 0, secret }),
    {
        let (roster, token) = Roster::founded(realm, owner.clone(), secret);
        proof {
            assert(roster@.names() =~= seq![owner@]);
        }
        let party = Party {
            id,
            owner,
            roster,
            game: Game::Gathering(GameGathering::with_id(game_id)),
        };
        (party, token)
    }

    /// The party's public id.
    pub fn id(&self) -> (id: &PartyId)
        ensures
            id@ == self@.id,
    {
        &self.id
    }

    /// The name of the party's owner.
    pub fn owner(&self) -> (owner: &String)
        ensures
            owner@ == self@.owner,
    {
        &self.owner
    }

    /// The party's members.
    pub fn roster(&self) -> (roster: &Roster)
        ensures
            roster@ == self@.roster,
    {
        &self.roster
    }

    /// The party's game.
    pub fn game(&self) -> (game: &Game)
        ensures
            game@ == self@.game,
    {
        &self.game
    }

    /// The table, once the game has begun.
    pub fn table(&self) -> (table: Option<&GameState>)
        ensures
            match self@.game.table() {
                Some(t) => table matches Some(x) && x@ == t,
                None => table is None,
            },
    {
        match &self.game {
            Game::Gathering(_) => None,
            Game::Running(g) => Some(&g.table),
            Game::Finished(g) => Some(&g.table),
        }
    }

    /// The member who sends with `token`; or why there is none.
    pub fn sender(&self, token: Option<AuthToken>) -> (r: Result<String, Refusal>)
        ensures
            match self@.sender(token) {
                Ok(name) => r matches Ok(n) && n@ == name,
                Err(e) => r == Err::<String, Refusal>(e),
            },
    {
        match token {
            None => Err(Refusal::Auth(AuthError::MissingToken)),
            Some(t) => match self.roster.verify_token(&t) {
                Ok(name) => Ok(name),
                Err(e) => Err(Refusal::Auth(e)),
            },
        }
    }

    fn take_game(&mut self) -> (game: Game)
        ensures
            game@ == old(self)@.game,
            final(self)@.id == old(self)@.id,
            final(self)@.owner == old(self)@.owner,
            final(self)@.roster == old(self)@.roster,
    {
        let mut game = Game::Gathering(GameGathering { id: 0 });
        core::mem::swap(&mut self.game, &mut game);
        game
    }

    /// Somebody joins as `username` and gets a token made of `secret`.
    pub fn join(&mut self, username: String, secret: u128) -> (reply: Reply)
        requires
            old(self)@.wf(),
        ensures
            final(self)@.wf(),
            (final(self)@, reply@) == old(self)@.join(username@, secret),
    {
        let ghost before = self@;
        if let Game::Finished(_) = &self.game {
            return Reply::Refused(Refusal::GameOver);
        }
        let name = username.clone();
        match self.roster.issue_token(username, secret) {
            Err(e) => Reply::Refused(Refusal::Auth(e)),
            Ok(token) => {
                match &mut self.game {
                    Game::Running(g) => {
                        g.table.seat(name);
                    },
                    _ => {},
                }
                proof {
                    let after = before.join(name@, secret).0;
                    assert(after.roster.names() =~= before.roster.names().push(name@));
                    match before.game {
                        GameView::Running { id, table } => {
                            assert(players(table.seat(name@).hands) =~= players(table.hands).push(
                                name@,
                            ));
                        },
                        _ => {},
                    }
                }
                Reply::Joined { token }
            },
        }
    }

    /// A member comes back with `token`.
    pub fn rejoin(&self, token: AuthToken) -> (reply: Reply)
        ensures
            (self@, reply@) == self@.rejoin(token),
    {
        match self.sender(Some(token)) {
            Err(r) => Reply::Refused(r),
            Ok(_) => Reply::Joined { token },
        }
    }

    /// The owner starts the game with the deck `deck`, whose front is dealt
    /// first.
    pub fn start(&mut self, token: AuthToken, deck: Vec<Card>) -> (reply: Reply)
        requires
            old(self)@.wf(),
            deck.len() <= MAX_CARDS,
            ids_apart(deck@),
        ensures
            final(self)@.wf(),
            (final(self)@, reply@) == old(self)@.start(token, deck@),
    {
        let ghost before = self@;
        let name = match self.sender(Some(token)) {
            Ok(name) => name,
            Err(r) => {
                return Reply::Refused(r);
            },
        };
        if name != self.owner {
            return Reply::Refused(Refusal::Auth(AuthError::NotOwner));
        }
        if let Game::Finished(_) = &self.game {
            return Reply::Refused(Refusal::GameOver);
        }
        let names = self.roster.names();
        proof {
            assert(names_view(names@) =~= before.roster.names());
            crate::deal::lemma_dealt_wf(before.roster.names(), deck@);
        }
        let game = self.take_game();
        self.game = game.begin(&names, deck);
        Reply::StateChanged
    }

    /// A member plays `actions`.
    pub fn play(&mut self, token: AuthToken, actions: &Vec<PlayAction>) -> (reply: Reply)
        requires
            old(self)@.wf(),
        ensures
            final(self)@.wf(),
            (final(self)@, reply@) == old(self)@.play(token, actions@),
    {
        let ghost before = self@;
        let name = match self.sender(Some(token)) {
            Ok(name) => name,
            Err(r) => {
                return Reply::Refused(r);
            },
        };
        let outcome = match &mut self.game {
            Game::Gathering(_) => {
                return Reply::Refused(Refusal::NotRunning);
            },
            Game::Finished(_) => {
                return Reply::Refused(Refusal::GameOver);
            },
            Game::Running(g) => {
                proof {
                    lemma_apply_play_keeps_players(g.table@, name@, actions@);
                }
                match g.table.apply_play(&name, actions) {
                    Err(e) => {
                        return Reply::Refused(Refusal::Play(e));
                    },
                    Ok(()) => {},
                }
                g.table.check_terminal()
            },
        };
        match outcome {
            TerminalOutcome::Ongoing => Reply::StateChanged,
            _ => {
                let game = self.take_game();
                self.game = game.finish(outcome);
                Reply::Ended(outcome)
            },
        }
    }

    /// The member who holds `credential` votes for `nominee`.
    pub fn vote(&mut self, credential: Option<AuthToken>, nominee: &String) -> (reply: Reply)
        requires
            old(self)@.wf(),
        ensures
            final(self)@.wf(),
            (final(self)@, reply@) == old(self)@.vote(credential, nominee@),
    {
        let name = match self.sender(credential) {
            Ok(name) => name,
            Err(r) => {
                return Reply::Refused(r);
            },
        };
        match &mut self.game {
            Game::Gathering(_) => Reply::Refused(Refusal::NotRunning),
            Game::Finished(_) => Reply::Refused(Refusal::GameOver),
            Game::Running(g) => {
                match g.table.record_vote(&name, nominee) {
                    Err(e) => Reply::Refused(Refusal::Vote(e)),
                    Ok(()) => {
                        if g.table.active_player.is_some() {
                            Reply::StateChanged
                        } else {
                            Reply::Quiet
                        }
                    },
                }
            },
        }
    }

    /// The member who holds `credential` asks for the table.
    pub fn request_state(&self, credential: Option<AuthToken>) -> (reply: Reply)
        ensures
            (self@, reply@) == self@.request_state(credential),
    {
        match self.sender(credential) {
            Err(r) => Reply::Refused(r),
            Ok(name) => {
                if let Game::Gathering(_) = &self.game {
                    Reply::Refused(Refusal::NotRunning)
                } else {
                    Reply::State { for_user: name }
                }
            },
        }
    }

    /// A member says `message`.
    pub fn chat(&self, token: AuthToken, message: String) -> (reply: Reply)
        ensures
            (self@, reply@) == self@.chat(token, message@),
    {
        match self.sender(Some(token)) {
            Err(r) => Reply::Refused(r),
            Ok(name) => Reply::Chat { username: name, message },
        }
    }

    /// The member who holds `token` leaves the party, as one does whose
    /// connection is lost.
    pub fn leave(&mut self, token: AuthToken) -> (reply: Reply)
        requires
            old(self)@.wf(),
        ensures
            final(self)@.wf(),
            (final(self)@, reply@) == old(self)@.leave(token),
    {
        let ghost before = self@;
        proof {
            lemma_first_index(before.roster.tokens(), token);
        }
        let name = match self.roster.revoke(&token) {
            Some(member) => member.username,
            None => {
                return Reply::Refused(Refusal::Auth(AuthError::UnknownToken));
            },
        };
        let ghost place = before.roster.index_of_token(token)->0;
        proof {
            lemma_first_index(before.roster.names(), name@);
            assert(before.roster.names()[place] == name@);
        }
        match &mut self.game {
            Game::Running(g) => {
                proof {
                    let table = g.table@;
                    lemma_first_index(players(table.hands), name@);
                    let h = first_index(players(table.hands), name@)->0;
                    assert(h == place) by {
                        if h != place {
                            assert(players(table.hands)[h] == players(table.hands)[place]);
                        }
                    }
                    let left = players(table.unseat(name@).hands);
                    let kept = before.roster.revoke(token).names();
                    assert(left.len() == kept.len());
                    assert forall|k: int| 0 <= k < left.len() implies left[k] == kept[k] by {
                        let k0 = if k < h {
                            k
                        } else {
                            k + 1
                        };
                        assert(left[k] == players(table.hands)[k0]);
                        assert(kept[k] == before.roster.names()[k0]);
                    }
                    assert(left =~= kept);
                }
                g.table.unseat(&name);
                Reply::StateChanged
            },
            _ => Reply::Quiet,
        }
    }

    /// Does to the party what the event `kind` asks, for a connection that
    /// holds `credential`, with the random draws `chance`.
    pub fn step(&mut self, credential: Option<AuthToken>, kind: EventKind, chance: Chance) -> (reply:
        Reply)
        requires
            old(self)@.wf(),
            chance@.wf(),
        ensures
            final(self)@.wf(),
            (final(self)@, reply@) == old(self)@.step(credential, kind@, chance@),
    {
        match kind {
            EventKind::JoinParty { username, .. } => self.join(username, chance.secret),
            EventKind::RejoinParty { auth_token, .. } => self.rejoin(auth_token),
            EventKind::StartGame { auth_token } => self.start(auth_token, chance.deck),
            EventKind::PlayCards { auth_token, actions } => self.play(auth_token, &actions),
            EventKind::PlayerStartVote { nominee } => self.vote(credential, &nominee),
            EventKind::RequestState => self.request_state(credential),
            EventKind::SendMessage { auth_token, message } => self.chat(auth_token, message),
            _ => Reply::Refused(Refusal::Unsupported),
        }
    }
}

} // verus!
