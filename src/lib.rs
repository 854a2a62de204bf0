//! Splits a byte stream into fixed-size chunks, encodes each chunk with an
//! optional compression format, names the file that holds it, and keeps only
//! the most recent files under a retention limit.

pub mod compression;
pub mod naming;
pub mod chunker;
pub mod retention;
pub mod producer;
pub mod args;
pub mod action;
pub mod orchestrator;
