//! Collections that are generic over the arena holding their nodes.
use vstd::prelude::*;

pub mod node;
pub mod map;
pub mod set;

pub use node::Node;
pub use map::BTreeMap;
pub use set::BTreeSet;

verus! {

} // verus!
