//! Visible ranks.
use vstd::prelude::*;

verus! {

/// A visible rank: a named tier and a division within it.
#[derive(Debug, Clone, PartialEq, Eq, Hash)]
pub struct Rank {
    pub tier: String,
    pub division: u8,
}

} // verus!
