//! A direct executor for the eight-instruction tape language: a bracket
//! resolver that pairs every `[` with its `]` in one scan, and a
//! fetch-execute engine over a fixed 30000-cell byte tape with circular
//! pointer movement and modulo-256 cell arithmetic. Both are verified
//! against a small-step semantics: the engine's result is exactly the
//! halted state of that semantics, and the resolver succeeds exactly on
//! balanced programs.

pub mod engine;
pub mod errors;
pub mod resolver;
pub mod semantics;
