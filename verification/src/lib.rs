//! Review scheduling and metadata persistence engine for a vault of text
//! notes.
//!
//! The engine computes spaced-repetition schedules, spreads review dates to
//! avoid clustering, reads and rewrites the structured metadata block at the
//! head of a note while preserving everything it does not understand, and
//! maintains a mtime/size-validated cache over directory scans.

pub mod actions;
pub mod cache;
pub mod config;
pub mod date;
pub mod error;
pub mod frontmatter;
pub mod links;
pub mod notes;
pub mod num;
pub mod srs;
pub mod template;
pub mod text;
pub mod vault;
