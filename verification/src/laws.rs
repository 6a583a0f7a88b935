//! What holds of whole traversals, recalculations and resolutions.

pub mod children;
pub mod clearing;
pub mod locality;
pub mod propagation;
pub mod recalculation;
pub mod requests;
pub mod resolution;
pub mod selection;
pub mod tree;
pub mod values;
