//! Incremental prompt-to-code generation engine.
//!
//! Prompts are the source of truth; generated code is a derived artifact.
//! This library holds the verified core: the dependency graph over prompts,
//! the content-addressed cache keyed by a recursive input fingerprint, the
//! pipeline bookkeeping that walks the graph in topological order, and the
//! three-way patch subsystem that reconciles manual edits with regenerated
//! output.

pub mod cache;
pub mod config;
pub mod diffmerge;
pub mod dag;
pub mod generator;
pub mod lines;
pub mod numfmt;
pub mod patch;
pub mod prompt;
pub mod record;
pub mod repostatus;
pub mod sorting;
pub mod style;
pub mod textutil;
