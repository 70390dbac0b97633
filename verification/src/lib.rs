//! Common-ancestor resolution and display shrinking for a fuzzy file-open
//! prompt.
//!
//! Given a list of candidate file paths and an optional folder-root filter,
//! the library computes the deepest directory shared by every accepted
//! candidate and a compact, deduplicated, sorted list of display paths below
//! it: long unique chains collapse into a trailing ellipsis component, while
//! enough of each path is kept to keep the menu rows unambiguous.

pub mod application;
pub mod jump_mode;
pub mod laws;
pub mod paths;
pub mod query;
pub mod resolver;
pub mod shrink;
