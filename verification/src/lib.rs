//! Dependency graphs of a resolved project: construction from a resolution
//! snapshot, and queries over the result.

pub mod arena;
pub mod builder;
pub mod cfg_text;
pub mod closure;
pub mod error;
pub mod graph;
pub mod package;
pub mod platform;
pub mod print_term;
pub mod resolve;
pub mod select;
pub mod target;
pub mod version;
