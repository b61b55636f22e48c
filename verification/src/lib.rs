//! Solver for semantic word games: vectors, score constraints, guess choice, hints.

pub mod audit;
pub mod bench;
pub mod bin;
pub mod bytes;
pub mod checks;
pub mod classic;
pub mod cosine;
pub mod engine;
pub mod events;
pub mod f16;
pub mod flags;
pub mod game;
pub mod guess;
pub mod hints;
pub mod ieee;
pub mod json;
pub mod model;
pub mod oracle;
pub mod order;
pub mod partition;
pub mod ranks;
pub mod replay;
pub mod scoring;
pub mod session;
pub mod site;
pub mod solver;
pub mod stride;
pub mod text;
pub mod vectors;
pub mod words;
