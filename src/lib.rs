//! A particle simulation core: central gravity, motion integration and
//! pairwise elastic collision response, on fixed-point integer state.

pub mod fixed;
pub mod particle;
pub mod gravity;
pub mod motion;
pub mod collision;
pub mod spawn;
pub mod frame;
