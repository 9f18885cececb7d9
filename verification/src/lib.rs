//! A party and game session engine for a cooperative card game played on
//! four shared stacks: identifiers and credentials, the rules of play, the
//! life cycle of one party, the registry of live parties and the events
//! that each connected player receives.

pub mod audit;
pub mod counting;
pub mod deal;
pub mod event;
pub mod game;
pub mod ident;
pub mod party;
pub mod registry;
pub mod router;
pub mod rules;
pub mod seqs;
pub mod table;
pub mod token;
pub mod votes;
