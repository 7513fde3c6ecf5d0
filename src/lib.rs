//! Rules engine for a Texas Hold'em table: hand evaluation, betting, side
//! pots, stage flow, showdown payouts, and the deterministic stand-in for the
//! card-secrecy protocol (shuffle, deal, reveal).

pub mod constants;
pub mod error;
pub mod types;
pub mod deck;
pub mod evaluator;
pub mod pot;
pub mod player;
pub mod utils;
pub mod game;
pub mod flow;
pub mod betting;
pub mod protocol;
pub mod table;
pub mod showdown;
pub mod validation;
pub mod circuits;
