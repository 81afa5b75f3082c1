//! The rules engine of a cooperative card game against a castle of twelve
//! royal enemies, with the game-specific parts of a Monte Carlo tree search
//! over it: card model, table zones, turn engine, action enumeration, and
//! the random playouts and move statistics the search uses.
pub mod actions;
pub mod card;
pub mod enemy;
pub mod fixed;
pub mod game;
pub mod laws;
pub mod player;
pub mod random;
pub mod search;
pub mod state;
pub mod subsets;
pub mod table;
