//! Finds dependency names that are declared with more than one distinct
//! version across the `package.json` manifests of a project tree.
//!
//! The pipeline: raw version strings are normalized to digits and dots,
//! declarations from many manifests are merged into one version history per
//! dependency name, an ignore list removes whole names, and only names with
//! more than one surviving distinct version are reported.

pub mod text;
pub mod version;
pub mod parser;
pub mod lookup;
pub mod laws;

