//! A consistent hash ring.
//!
//! Nodes are placed on a 64-bit ring at pseudo-random positions (several
//! virtual positions per node, proportional to the node's weight); a key is
//! owned by the first position clockwise from the key's own hash.

pub mod hashing;
pub mod ring;
pub mod ring_laws;
pub mod hash_ring;
pub mod hash_ring_laws;

pub use hash_ring::{HashRing, NodeMetadata};
pub use ring::{Ring, DEFAULT_VIRTUAL_NODES};
