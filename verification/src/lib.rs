//! Deciding what a style traversal of a DOM tree visits, computes and clears.

pub mod clearing;
pub mod context;
pub mod data;
pub mod dom;
pub mod laws;
pub mod recalc;
pub mod resolve;
pub mod restyle_hints;
pub mod traversal;
