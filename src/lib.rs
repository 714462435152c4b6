//! Key bindings of a Wayland compositor, read from its bind report: the
//! report parser, the modifier codec, the record model with its query
//! predicate and exports, the filter/sort engine behind the binding table,
//! and the plain values that the surrounding program keeps (settings,
//! command-line action, table selection, theme variables).
pub mod cli;
pub mod config;
pub mod icons;
pub mod models;
pub mod modmask;
pub mod navigation;
pub mod parser;
pub mod sorting;
pub mod text;
pub mod theme;
