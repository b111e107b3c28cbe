//! Identifiers. Each kind of element has its own identifier type, so that an
//! edge is never looked up where a junction is meant.

use vstd::prelude::*;

verus! {

/// A live edge of the current graph.
#[derive(Clone, Copy, Debug, PartialEq, Eq, Structural, PartialOrd, Ord, Hash)]
pub struct EdgeID(pub usize);

/// An edge of the graph as it was first built. It stays valid for the whole
/// session and is what edge kinds refer to.
#[derive(Clone, Copy, Debug, PartialEq, Eq, Structural, PartialOrd, Ord, Hash)]
pub struct OriginalEdgeID(pub usize);

/// A live intersection of the current graph.
#[derive(Clone, Copy, Debug, PartialEq, Eq, Structural, PartialOrd, Ord, Hash)]
pub struct IntersectionID(pub usize);

/// A face of the face decomposition that is currently cached. It loses its
/// meaning with the next change to the graph.
#[derive(Clone, Copy, Debug, PartialEq, Eq, Structural, PartialOrd, Ord, Hash)]
pub struct FaceID(pub usize);

} // verus!
