//! Namespace-tree code generation: a tree of nested scopes built from dotted
//! names, its rendering as nested module declarations with inclusion
//! directives, and the filling of a feature table into a manifest template.
use vstd::prelude::*;

pub mod order;
pub mod text;
pub mod librs;
pub mod manifest;

pub use librs::{Config, LibGenerator, Mod, Module};
pub use manifest::{FeatureTable, ManifestError};

verus! {

} // verus!
