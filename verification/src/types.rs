//! Plain identifiers shared by the whole library.

use vstd::prelude::*;

verus! {

/// The index of a node among the authorities of a session.
#[derive(Clone, Copy, Debug, PartialEq, Eq, Structural, Hash, PartialOrd, Ord)]
pub struct NodeIndex(pub usize);

/// The number of authorities of a session.
#[derive(Clone, Copy, Debug, PartialEq, Eq, Structural, Hash, PartialOrd, Ord)]
pub struct NodeCount(pub usize);

/// The identifier of a session.
#[derive(Clone, Copy, Debug, PartialEq, Eq, Structural, Hash, PartialOrd, Ord)]
pub struct SessionId(pub u32);

} // verus!
