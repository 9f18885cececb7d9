//! One party and its game: gathering, running, finished; and what each
//! event of a member does to it.

use crate::counting::ids_apart;
use crate::deal::names_view;
use crate::ident::{is_version_4, random_u128};
use crate::rules::{Card, TerminalOutcome, MAX_CARDS};
use crate::table::{GameState, GameStateView};
use vstd::prelude::*;

verus! {

/// A game that waits for its players.
#[derive(Debug)]
pub struct GameGathering {
    pub id: u128,
}

/// A game in progress, with its table.
#[derive(Debug)]
pub struct GameRunning {
    pub id: u128,
    pub table: GameState,
}

/// A game that is over, with its table as it was left.
#[derive(Debug)]
pub struct GameFinished {
    pub id: u128,
    pub outcome: TerminalOutcome,
    pub table: GameState,
}

/// The game of a party in one of its three phases.
#[derive(Debug)]
pub enum Game {
    Gathering(GameGathering),
    Running(GameRunning),
    Finished(GameFinished),
}

/// A game as contracts see it.
pub enum GameView {
    Gathering { id: u128 },
    Running { id: u128, table: GameStateView },
    Finished { id: u128, outcome: TerminalOutcome, table: GameStateView },
}

impl View for Game {
    type V = GameView;

    open spec fn view(&self) -> GameView {
        match *self {
            Game::Gathering(g) => GameView::Gathering { id: g.id },
            Game::Running(g) => GameView::Running { id: g.id, table: g.table@ },
            Game::Finished(g) => GameView::Finished {
                id: g.id,
                outcome: g.outcome,
                table: g.table@,
            },
        }
    }
}

impl GameView {
    /// The id that the game keeps through its phases.
    pub open spec fn id(self) -> u128 {
        match self {
            GameView::Gathering { id } => id,
            GameView::Running { id, .. } => id,
            GameView::Finished { id, .. } => id,
        }
    }

    /// The table, once the game has begun.
    pub open spec fn table(self) -> Option<GameStateView> {
        match self {
            GameView::Gathering { .. } => None,
            GameView::Running { table, .. } => Some(table),
            GameView::Finished { table, .. } => Some(table),
        }
    }

    /// The game after it began for the players `names` with the deck
    /// `deck`. Only a gathering game begins; another stays as it is.
    pub open spec fn begin(self, names: Seq<Seq<char>>, deck: Seq<Card>) -> GameView {
        match self {
            GameView::Gathering { id } => GameView::Running {
                id,
                table: GameStateView::dealt(names, deck),
            },
            _ => self,
        }
    }

    /// The game after it ended with `outcome`. Only a running game ends;
    /// another stays as it is.
    pub open spec fn finish(self, outcome: TerminalOutcome) -> GameView {
        match self {
            GameView::Running { id, table } => GameView::Finished { id, outcome, table },
            _ => self,
        }
    }
}

impl GameGathering {
    /// A gathering game with the id `id`.
    pub fn with_id(id: u128) -> (g: GameGathering)
        ensures
            g.id == id,
    {
        GameGathering { id }
    }

    /// A gathering game with an id that is drawn at random. Whatever was
    /// drawn, the id has the form of a version-4 UUID.
    pub fn new() -> (g: GameGathering)
        ensures
            is_version_4(g.id),
    {
        GameGathering::with_id(random_u128())
    }
}

impl GameRunning {
    /// The running game that comes of a gathering one: it keeps the id and
    /// gets a table that is dealt for the players `names` from `deck`.
    pub fn from_gathering(g: GameGathering, names: &Vec<String>, deck: Vec<Card>) -> (r:
        GameRunning)
        requires
            names_view(names@).no_duplicates(),
            deck.len() <= MAX_CARDS,
            ids_apart(deck@),
        ensures
            r.id == g.id,
            r.table@ == GameStateView::dealt(names_view(names@), deck@),
            r.table@.wf(),
    {
        GameRunning { id: g.id, table: GameState::deal(names, deck) }
    }
}

impl Game {
    /// A gathering game with an id that is drawn at random. Whatever was
    /// drawn, the id has the form of a version-4 UUID.
    pub fn new() -> (game: Game)
        ensures
            game@ is Gathering,
            is_version_4(game@.id()),
    {
        Game::Gathering(GameGathering::new())
    }

    /// Begins the game for the players `names` with the deck `deck`, whose
    /// front is dealt first. A game that has begun stays as it is.
    pub fn begin(self, names: &Vec<String>, deck: Vec<Card>) -> (game: Game)
        requires
            names_view(names@).no_duplicates(),
            deck.len() <= MAX_CARDS,
            ids_apart(deck@),
        ensures
            game@ == self@.begin(names_view(names@), deck@),
            self@ is Gathering ==> game@.table()->0.wf(),
    {
        match self {
            Game::Gathering(g) => Game::Running(GameRunning::from_gathering(g, names, deck)),
            Game::Running(g) => Game::Running(g),
            Game::Finished(g) => Game::Finished(g),
        }
    }

    /// Ends a running game with `outcome`. Another game stays as it is.
    pub fn finish(self, outcome: TerminalOutcome) -> (game: Game)
        ensures
            game@ == self@.finish(outcome),
    {
        match self {
            Game::Running(g) => Game::Finished(
                GameFinished { id: g.id, outcome, table: g.table },
            ),
            Game::Gathering(g) => Game::Gathering(g),
            Game::Finished(g) => Game::Finished(g),
        }
    }
}

} // verus!
