//! Consistent hashing of keys onto a changing set of resources, after the
//! AnchorHash algorithm: lookups in expected constant time, minimal
//! disruption when resources come and go, and a uniform spread of keys.
pub mod anchor;
pub mod anchor_hash;
pub mod fasthash;
pub mod range_map;

pub use anchor::{Anchor, AnchorState, Bucket};
pub use anchor_hash::{AnchorHash, BindingState, Builder, Change, Error};
pub use fasthash::fasthash;
pub use range_map::range_map;
