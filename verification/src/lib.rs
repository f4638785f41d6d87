//! An SLR(1) parser-generator back end.
//!
//! Given a context-free grammar annotated with semantic-action markers, the
//! library computes per-symbol FIRST sets and FOLLOW sets as least fixed
//! points, builds the canonical collection of LR(0) item sets, assembles the
//! shift/goto/reduce tables with SLR(1) lookahead, records parsing conflicts
//! as diagnostics, and reconciles inline semantic-action markers into
//! per-state and per-rule dispatch tables.

pub mod grammar;
pub mod tokenset;
pub mod first_follow;
pub mod bounds;
pub mod closures;
pub mod automata;
pub mod config;
pub mod context;
