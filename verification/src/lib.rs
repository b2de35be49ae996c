//! Ordered maps and sets backed by a B-Tree whose nodes live in one slab.
//!
//! Every node of a tree is stored in a single arena and named by an integer
//! identifier, so that a tree costs few allocations and its nodes sit close
//! together in memory. The arena is a type parameter of the generic
//! collections; by default the [`Slab`](container::SlabStore) of the `slab`
//! crate is used. A leaf keeps its items in a small vector of the `smallvec`
//! crate, which has room for them without an allocation of its own.
//!
//! Every position in a tree has an [`Address`](generic::node::Address): a node
//! identifier and an offset. The low-level operations that explore and
//! change a tree through addresses are public methods of the map.
use vstd::prelude::*;

pub mod container;
pub mod generic;
pub mod utils;

verus! {

/// B-Tree map whose nodes live in a slab.
pub type BTreeMap<K, V> = generic::BTreeMap<K, V, container::SlabStore<generic::Node<K, V>>>;

/// B-Tree set whose nodes live in a slab.
pub type BTreeSet<T> = generic::BTreeSet<T, container::SlabStore<generic::Node<T, ()>>>;

} // verus!
