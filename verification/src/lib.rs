//! A solver for the hit-and-blow code-breaking game.
//!
//! The library enumerates the legal codes of a game, computes the feedback
//! that a guess earns against a code, partitions a candidate set by that
//! feedback, chooses guesses by a first-pick or a worst-case-minimising
//! policy, drives an interactive game, and builds the full decision tree of
//! a policy.  Every function is specified over sequences and maps and
//! verified against that specification.

pub mod benchmark;
pub mod code_space;
pub mod def;
pub mod game;
pub mod hint_input;
pub mod hint_laws;
pub mod hint_map;
pub mod partition_laws;
pub mod policy;
pub mod tree;
pub mod utils;
