//! A MasterMind number-guessing game: player accounts kept in a persistent
//! linked list, the account file format, game settings and the scoring rules.

pub mod text;
pub mod account;
pub mod list;
pub mod store;
pub mod settings;
pub mod game;
pub mod menu;
