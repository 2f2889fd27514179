//! The rules of the game "fever", apart from what it draws and plays.
pub mod chars;
pub mod markov;
pub mod dice;
pub mod state;
pub mod minigame;
pub mod typing;
pub mod mash;
pub mod path;
pub mod dream;
pub mod prompt;
pub mod countdown;
pub mod tempest;
pub mod chooser;
