//! todochk: scans text for "TODO" markers written inside comments.
//!
//! The matcher recognises a marker behind a line-comment leader or inside a
//! block-comment sigil pair, in a canonical upper-case and an informal
//! lower-case form. The collector turns a file's text into findings (matched
//! line plus the line above it), and the reporter renders the findings grouped
//! by file with a final count.

pub mod finding;
pub mod matcher;
pub mod report;
mod style;
