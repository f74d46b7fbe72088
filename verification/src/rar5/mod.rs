//! RAR 5 building blocks.
pub mod filters;
