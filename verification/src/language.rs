//! What to index: the language, and how many references to keep.
use vstd::prelude::*;

verus! {

/// How much reference data to collect in addition to definitions and call edges.
#[derive(Debug, Clone, Copy, PartialEq, Eq, Structural)]
pub enum ReferenceMode {
    /// Collect no references. Call edges are still collected.
    Off,
    /// Collect references for call targets only. This is the default fast mode.
    Calls,
    /// Collect references for all identifiers.
    All,
}

/// Supported languages for indexing.
#[derive(Debug, Clone, Copy, PartialEq, Eq, Structural)]
pub enum Language {
    C,
    Cpp,
}

} // verus!
