//! A dice-notation library for tabletop games: a parser from compact
//! notation strings (`"2d6+3"`, `"4d6k3"`, `"adv"`) to typed dice
//! expressions, and an engine that simulates rolls and computes
//! closed-form summary statistics.

pub mod parser;
pub mod roller;
pub mod text;
