//! Carries unfinished to-do items forward from an earlier note document into
//! a new one.
//!
//! The library works on an outline tree of its own ([`document::Node`]). It
//! finds the configured sections in a source tree, strips completed task
//! items from them, and assembles a new document that holds exactly the
//! configured sections in the configured order.

pub mod document;
pub mod text;
pub mod pruner;
pub mod extractor;
pub mod builder;
pub mod tasks;
pub mod groups;
pub mod rewriter;
pub mod markdown;
pub mod logging;
pub mod date;
pub mod file;
pub mod cli;
pub mod config;
pub mod plan;
