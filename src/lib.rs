//! Finite partially ordered sets over a caller-supplied "greater than or equal to" relation:
//! minimal and maximal elements, covering relations, a greedy chain decomposition and the
//! enumeration of the antichains that a chain decomposition implies.

pub mod antichain_iterator;
mod errors;
pub mod odometer;
mod partial_order;
pub mod poset;
pub mod traits;

pub use antichain_iterator::AntichainIterator;
pub use errors::PosetError;
pub use partial_order::PartialOrder;
pub use poset::Poset;
pub use traits::{PartialOrderBehaviour, PosetBehaviour};
