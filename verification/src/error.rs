//! Why a configuration is refused.
use vstd::prelude::*;

verus! {

/// Why a group or a pair of groups was refused.
#[derive(Debug, Clone, Copy, PartialEq, Eq)]
pub enum ConfigError {
    /// A preference table does not have one ranking per member.
    PreferenceCountMismatch,
    /// The two groups of a matching do not have the same size.
    GroupSizeMismatch,
}

} // verus!
