//! Core data layer for dependency auditing: a sorted, indexed registry of
//! resolved packages, license-evidence resolution per package, a normalized
//! resolution graph, ordered-container query utilities, and a stable 32-bit
//! content hash.

use vstd::prelude::*;

pub mod hashing;
pub mod licenses;
pub mod order;
pub mod registry;
pub mod resolve;
pub mod text;
pub mod version;

pub use crate::hashing::hash;
pub use crate::order::{binary_search, contains};
pub use crate::registry::{
    get_all_crates, CrateDetails, Crates, DepKind, Dependency, Error, IdEntry, Package,
};
pub use crate::resolve::{normalize, Node, Resolve};
pub use crate::version::Version;

verus! {

/// Severity assigned to a policy finding by downstream consumers.
#[derive(Debug, Clone, Copy, PartialEq, Eq)]
pub enum LintLevel {
    Allow,
    Warn,
    Deny,
}

impl Default for LintLevel {
    /// The default severity is `Warn`.
    fn default() -> (r: Self)
        ensures
            r is Warn,
    {
        LintLevel::Warn
    }
}

/// A version wrapper for structured log output; how it renders is the
/// concern of the logging layer around the library.
pub struct CrateVersion<'a>(pub &'a Version);

} // verus!
