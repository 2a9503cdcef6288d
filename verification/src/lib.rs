//! Theme-catalog resolver for a terminal multiplexer's visual themes.
//!
//! The crate determines what themes exist and how to durably select one:
//! it locates the relevant files from environment values, keeps a
//! timestamped local cache of the last known theme list, decodes a remote
//! directory listing, extracts theme names from structured documents, and
//! mutates the on-disk configuration document to persist a selection.
//!
//! All logic here works on plain values (bytes, strings, integers); the
//! surrounding process performs network and file input/output and hands
//! the raw contents to these functions.

pub mod cache;
pub mod doc_laws;
pub mod document;
pub mod listing;
pub mod locator;
pub mod order;
pub mod resolver;
pub mod selection;

pub use locator::ThemeData;
