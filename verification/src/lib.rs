//! A verified core for the code-breaking game Mastermind.
//!
//! A hidden sequence of four symbols, drawn from a palette of six colors,
//! must be discovered through repeated guesses.  Each guess is answered only
//! with an aggregate feedback signal: how many positions match exactly, and
//! how many symbols are right but misplaced.  This crate provides the palette,
//! the feedback computation, the game session, and the solving strategies;
//! the thin I/O shell around them (terminal rendering, keyboard input,
//! entropy) lives outside the library and hands in plain values.

pub mod colors;
pub mod evaluation;
pub mod mastermind;
pub mod mastermind_state;
pub mod matching;
pub mod multi_digit_solver;
pub mod single_digit_solver;
pub mod solver;
pub mod state_of_the_art_solver;
pub mod util;
