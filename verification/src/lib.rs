//! Verified core of an automatic sign painter: palette matching, paint planning
//! and the decisions that drive painting.

pub mod strings;
pub mod canvas;
pub mod sorted;
pub mod color;
pub mod painting;
pub mod session;
pub mod update;
pub mod settings;
pub mod platform;
pub mod basic;
pub mod image;
pub mod library;
pub mod text;
