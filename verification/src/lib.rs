//! Linked-tree nodes for a binary min-heap.
//!
//! Each heap element is a node that owns its children and carries a
//! non-owning back-reference to its parent. The nodes live in an arena
//! ([`node::Tree`]) and address one another by stable integer identifiers,
//! so the owning edge (a child identifier in a `children` sequence) and the
//! non-owning edge (a plain `parent` identifier) carry no lifetime of their
//! own. The structural invariant — every owning edge matched by a
//! back-reference and vice versa — is stated in [`model`] and proved to be
//! preserved by every operation.

pub mod model;
pub mod node;
pub mod reach;
