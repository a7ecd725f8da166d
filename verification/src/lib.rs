//! Record-level comparison of two versions of a text document.

pub mod diff;
pub mod differ;
pub mod lines;
pub mod position;
pub mod render;
pub mod segment;
pub mod text;

pub use diff::{compare, Diff};
