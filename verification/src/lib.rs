//! A verified single-deck Klondike solitaire engine with a multi-viewer
//! session layer.
//!
//! The crate is organised leaf to root: a generic double-ended card
//! container ([`cards`]), the French playing cards it usually holds
//! ([`french`]), injectable random sources ([`random_engine`]), the rules
//! engine that owns one game's piles and validates moves ([`game`]), the
//! textual command grammar ([`parse`]), and a session registry that owns
//! many games and broadcasts every accepted move to live watchers
//! ([`session`]).

pub mod cards;
pub mod french;
pub mod game;
pub mod parse;
pub mod random_engine;
pub mod session;
