//! Analyzer settings that the verified parts depend on.

use vstd::prelude::*;

verus! {

/// How an unknown alias answer is treated.
#[derive(Clone, Copy, Debug, PartialEq, Eq, Structural)]
pub enum AliasUnknownPolicy {
    /// Unknown counts as a possible alias.
    Conservative,
    /// Unknown counts as unlikely.
    Optimistic,
}

/// The settings of an analysis.
#[derive(Clone, Copy, Debug, PartialEq, Eq, Structural)]
pub struct PnConfig {
    /// How many call sites a context of the pointer analysis keeps.
    pub pta_k: usize,
    pub alias_unknown_policy: AliasUnknownPolicy,
}

} // verus!
