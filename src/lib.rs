//! Build-time generator for locale translation tables: merges each locale's
//! domain files, flattens them into dotted key paths, and renders the aggregate
//! and key-constant modules.

pub mod json;
pub mod flatten;
pub mod merge;
pub mod order;
pub mod keys;
pub mod error;
pub mod propagate;
pub mod index;
pub mod setting;
pub mod utils;
