//! JSON Merge Patch (RFC 7396) on JSON trees: computing the patch that turns
//! one tree into another, with chosen members written even where unchanged,
//! and merging a patch onto a tree.
//!
//! `value` holds the tree and its mathematical model, `merge` and `diff` the
//! two algorithms with their specifications, and `laws` what holds of them
//! together.

pub mod value;
pub mod merge;
pub mod diff;
pub mod laws;
