//! engrym — a knowledge base over Markdown documents with YAML frontmatter.
//!
//! This crate holds the verified core: frontmatter framing, chunking and
//! wikilink extraction, the frontmatter contract and its validation, the
//! agent-memory block, the local-KB registry, workspace naming and the pure
//! decisions behind each command.

pub mod agents;
pub mod author;
pub mod browse;
pub mod config;
pub mod daemon;
pub mod index;
pub mod install;
pub mod lifecycle;
pub mod lint;
pub mod model;
pub mod parse;
pub mod registry;
pub mod search;
pub mod text;
pub mod workspace;
