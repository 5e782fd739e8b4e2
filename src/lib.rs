//! A helper for Wordle-style guessing games: it turns the colour feedback of a
//! round into constraints, narrows a pool of candidate words to those that
//! satisfy them, and ranks the survivors by how well each would split the pool.

pub mod word;
pub mod constraint;
pub mod wordlist;
pub mod laws;
pub mod code;
pub mod game;
