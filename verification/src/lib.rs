//! A solver for a single-player card-elimination solitaire: the game-state
//! model, the legal-move generator and the informed search over it.

pub mod actions;
pub mod ansi;
pub mod collection;
pub mod combinations;
pub mod counting;
pub mod deck_generator;
pub mod denormalized;
pub mod godot_shuffle;
pub mod laws;
pub mod parser;
pub mod printer;
pub mod rules;
pub mod solver;
pub mod state;
pub mod validators;
