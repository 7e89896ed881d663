//! Verified decision logic for provider traffic placement and administrative
//! provider draining.

pub mod order;
pub mod placement;
pub mod placement_laws;
pub mod text;
pub mod weights;
pub mod json;
pub mod drain;
pub mod overlay;
pub mod convergence;
pub mod run;
pub mod placement_order;
pub mod placement_rounding;
