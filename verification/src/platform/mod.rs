//! Platform-facing logic: input drivers, plan execution decisions, palette sampling
//! from screen captures, and screen regions.

pub mod input;
pub mod executor;
pub mod capture;
pub mod region;
pub mod overlay;
