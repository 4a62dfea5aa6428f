//! Turns a resolved dependency closure and the manifest that declares it into a
//! directed graph, normalises the graph and renders it as a digraph description.
//!
//! Every function of this crate is verified; the few calls into the TOML parser
//! stand behind contracts that are assumed, each marked as such where it is
//! declared.

pub mod config;
pub mod declared;
pub mod dep;
pub mod document;
pub mod duplicates;
pub mod edges;
pub mod error;
pub mod graph;
pub mod kinds;
pub mod names;
pub mod nesting;
pub mod project;
pub mod prune;
pub mod render;
pub mod text;
