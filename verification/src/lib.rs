//! Parser, conformance validator, and linter for Open Knowledge Format
//! bundles, with what a bundle answers to agents and the graph a browser
//! draws of it.

pub mod bundle;
pub mod cli;
pub mod concept_id;
pub mod conformance;
pub mod date;
pub mod diagnostic;
pub mod document;
pub mod format;
pub mod frontmatter;
pub mod graph;
pub mod json;
pub mod links;
pub mod lint;
pub mod mcp;
pub mod severity;
pub mod sorted;
pub mod span;
pub mod text;
pub mod trust;
pub mod value;
pub mod version;
pub mod viewer;
