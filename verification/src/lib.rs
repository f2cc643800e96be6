//! Stable matching between two groups of equal size by deferred acceptance.
//!
//! Every member of a group ranks every member of the other. One group
//! proposes, the other accepts or turns down; the run ends with everyone
//! paired so that no two members would both rather be with each other.
pub mod courtship;
pub mod element;
pub mod error;
pub mod group;
pub mod laws;
pub mod matching;
pub mod permutation;
pub mod shuffle;

pub use crate::element::Element;
pub use crate::error::ConfigError;
pub use crate::group::{generate_test_sets, Group};
