//! A sed-like editor for JSON-shaped trees: a small command language selects
//! places in a tree and rewrites or projects them.

pub mod command;
pub mod coerce;
pub mod dispatch;
pub mod engine;
pub mod grammar;
pub mod number;
pub mod pattern;
pub mod value;
