//! Core of a local full-text document search engine.
//!
//! The library covers the verifiable heart of the system: the
//! completion-counting path-expansion protocol, the text-extraction
//! dispatch rules, content chunking and batched index writing, and the
//! keyword-highlighting algorithms.  Presentation, storage and archive
//! tooling are external collaborators reached from the surrounding
//! application, not from here.

pub mod app_state;
pub mod dao;
pub mod file_scanner;
pub mod sys;
pub mod tantivy_search;
pub mod util;
