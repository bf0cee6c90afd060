//! Resolution of the feature flags that a set of `use windows::...` imports
//! needs, against a catalog of namespaces, items and features.

pub mod catalog;
pub mod diagnostics;
pub mod features;
pub mod import;
pub mod index;
pub mod lines;
pub mod resolve;
pub mod text;
