//! Adds a cover image declaration to an EPUB package.
//!
//! The crate holds the decisions of the tool: how an archive is unpacked into
//! a plan of filesystem steps, how the package manifest is patched, how a
//! directory tree becomes an ordered list of archive entries, and in which
//! order the stages of a run follow each other. Reading and writing files is
//! left to the caller.

pub mod error;
pub mod text;
pub mod paths;
pub mod codec;
pub mod reader;
pub mod writer;
pub mod roundtrip;
pub mod manifest;
pub mod pipeline;
