//! An in-memory staff directory grouped by department, the command language
//! that drives it, and a few small text and number utilities.

pub mod command;
pub mod laws;
pub mod numbers;
pub mod pig_latin;
pub mod render;
pub mod session;
pub mod store;
pub mod text;
