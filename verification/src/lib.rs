//! A mark store and fuzzy-resolution engine for directory bookmarks.
//!
//! A *mark* attaches a short memorable name to a filesystem directory. The
//! store keeps at most one mark per canonical path; the resolution engine
//! ranks all marks against a typed query with a fuzzy scorer and applies a
//! closeness band to decide which candidates are worth presenting.

pub mod backend;
pub mod codec;
pub mod error;
pub mod fuzzy;
pub mod global;
pub mod listing;
pub mod paths;
pub mod selector;
