//! Line-level alignment and classification of differences between two or
//! three versions of a text document.
//!
//! The crate computes diff hunks between line sequences, classifies them
//! (added / deleted / modified), merges overlapping hunks from the two sides
//! of a three-way comparison into conflict regions, plans the padding that
//! keeps corresponding lines vertically aligned across the panes, maps rows
//! between coordinate spaces, and tracks accept/ignore decisions per hunk.

pub mod align;
pub mod apply;
pub mod diff;
pub mod hunks;
pub mod mapper;
pub mod nav;
pub mod regions;
pub mod state;
