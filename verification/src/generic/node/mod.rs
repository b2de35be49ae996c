//! Nodes of a B-Tree.
use vstd::prelude::*;
use crate::utils::{gap_of, index_of, is_gap, key_lt, lemma_gap_of, lemma_index_of, lt, sorted, total_order};
use self::internal::InsertionError;
use self::addr::text;

mod addr;
mod order;
pub mod store;
pub mod internal;
mod item;
mod leaf;

pub use addr::{decimal, decimal_of, digit, ItemAddr};
pub use addr::ItemAddr as Address;
pub use internal::Internal as InternalNode;
pub use item::Item;
pub use leaf::Leaf as LeafNode;

verus! {

/// Knuth order of the trees: the greatest number of children of a node.
pub const M: usize = 8;

/// Type identified by a key.
///
/// Implemented by [`Item`] and [`internal::Branch`].
pub trait Keyed {
    type Key;

    /// The key, in contracts.
    spec fn key_spec(&self) -> Self::Key;

    fn key(&self) -> (k: &Self::Key)
        ensures
            *k == self.key_spec(),
    ;
}

/// Offset in a node: the index of an item, the number of items, or `-1`,
/// which is held as `usize::MAX`.
#[derive(Clone, Copy, PartialEq, Eq, Structural, Hash, Debug)]
pub struct Offset(pub usize);

impl View for Offset {
    type V = int;

    /// The offset as a number, `-1` for the offset before the first item.
    open spec fn view(&self) -> int {
        if self.0 == usize::MAX {
            -1
        } else {
            self.0 as int
        }
    }
}

impl Offset {
    /// The offset before the first item.
    pub fn before() -> (o: Offset)
        ensures
            o@ == -1,
            o == Offset(usize::MAX),
    {
        Offset(usize::MAX)
    }

    /// The offset is the one before the first item.
    pub open spec fn spec_is_before(&self) -> bool {
        self.0 == usize::MAX
    }

    /// Tells whether the offset is the one before the first item.
    #[verifier::when_used_as_spec(spec_is_before)]
    pub fn is_before(&self) -> (r: bool)
        ensures
            r == (self@ == -1),
            r == self.spec_is_before(),
    {
        self.0 == usize::MAX
    }

    /// The offset as an index, unless it is the one before the first item.
    pub fn value(&self) -> (r: Option<usize>)
        ensures
            r == (if self@ == -1 { None } else { Some(self.0) }),
    {
        if self.0 == usize::MAX {
            None
        } else {
            Some(self.0)
        }
    }

    /// The offset as an index.
    pub fn unwrap(self) -> (r: usize)
        requires
            self@ != -1,
        ensures
            r == self@,
    {
        self.0
    }

    /// Moves to the next offset: `-1` becomes `0`.
    pub fn incr(&mut self)
        ensures
            final(self).0 == (if old(self).0 == usize::MAX { 0int } else { old(self).0 + 1 }),
            old(self).0 != usize::MAX - 1 ==> final(self)@ == old(self)@ + 1,
    {
        if self.0 == usize::MAX {
            self.0 = 0
        } else {
            self.0 += 1
        }
    }

    /// Moves to the previous offset: `0` becomes `-1`.
    pub fn decr(&mut self)
        ensures
            final(self).0 == (if old(self).0 == 0 { usize::MAX as int } else { old(self).0 - 1 }),
            old(self)@ >= 0 ==> final(self)@ == old(self)@ - 1,
    {
        if self.0 == 0 {
            self.0 = usize::MAX
        } else {
            self.0 -= 1
        }
    }

    /// The offset `n`.
    pub fn from(n: usize) -> (o: Offset)
        ensures
            o == Offset(n),
            n < usize::MAX ==> o@ == n,
    {
        Offset(n)
    }

    /// The offset in decimal notation: `-1` for the offset before the
    /// first item.
    pub open spec fn notation(&self) -> Seq<char> {
        if self.0 == usize::MAX {
            seq!['-', '1']
        } else {
            decimal(self.0 as nat)
        }
    }

    /// The characters of the notation.
    pub fn chars(&self) -> (v: Vec<char>)
        ensures
            v@ == self.notation(),
    {
        if self.0 == usize::MAX {
            let mut v: Vec<char> = Vec::new();
            v.push('-');
            v.push('1');
            assert(v@ =~= seq!['-', '1']);
            v
        } else {
            decimal_of(self.0)
        }
    }

    /// The offset in decimal notation: `-1` for the offset before the
    /// first item.
    pub fn to_string(&self) -> (r: String)
        ensures
            r@ == self.notation(),
    {
        text(self.chars())
    }

    /// Tells whether this offset lies before `n`; `-1` lies before every
    /// number.
    pub fn is_below(&self, n: usize) -> (r: bool)
        ensures
            r == (self@ < n),
    {
        self.0 == usize::MAX || self.0 < n
    }

    /// Tells whether this offset lies after `n`; `-1` lies after no number.
    pub fn is_above(&self, n: usize) -> (r: bool)
        ensures
            r == (self@ > n),
    {
        self.0 != usize::MAX && self.0 > n
    }

    /// Tells whether this offset is `n`.
    pub fn is(&self, n: usize) -> (r: bool)
        ensures
            r == (self@ == n),
    {
        self.0 != usize::MAX && self.0 == n
    }
}

/// Node balance.
#[derive(Clone, Copy, PartialEq, Eq, Structural, Debug)]
pub enum Balance {
    /// The node is balanced.
    Balanced,
    /// The node is overflowing.
    Overflow,
    /// The node is underflowing; the flag tells whether it is empty.
    Underflow(bool),
}

/// Error returned when an operation on the node would result in an underflow.
#[derive(Clone, Copy, PartialEq, Eq, Structural, Debug)]
pub struct WouldUnderflow;

} // verus!

verus! {

/// Type of the value returned by `Node::pop_right`.
///
/// It includes the offset of the popped item, the item itself and the
/// identifier of the right child of the item if it is removed from an
/// internal node.
pub type PoppedItem<K, V> = (Offset, Item<K, V>, Option<usize>);

/// B-tree node.
#[verifier::reject_recursive_types(K)]
#[verifier::reject_recursive_types(V)]
#[derive(Clone)]
pub enum Node<K, V> {
    /// Internal node.
    Internal(InternalNode<K, V>),
    /// Leaf node.
    Leaf(LeafNode<K, V>),
}

/// The keys of `items` lie strictly between `min` and `max`, where these are
/// given.
pub open spec fn within<K: Ord, V>(items: Seq<Item<K, V>>, min: Option<K>, max: Option<K>) -> bool {
    &&& min is Some ==> forall|i: int| 0 <= i < items.len() ==> lt(min->0, #[trigger] items[i].key_spec())
    &&& max is Some ==> forall|i: int| 0 <= i < items.len() ==> lt(#[trigger] items[i].key_spec(), max->0)
}

impl<K, V> Node<K, V> {
    /// The node is a leaf.
    pub open spec fn is_leaf(&self) -> bool {
        self is Leaf
    }

    /// The items, in order.
    pub open spec fn items(&self) -> Seq<Item<K, V>> {
        match self {
            Node::Internal(node) => node.items_spec(),
            Node::Leaf(leaf) => leaf.items_spec(),
        }
    }

    /// The identifiers of the children, in order; a leaf has none.
    pub open spec fn children_spec(&self) -> Seq<usize> {
        match self {
            Node::Internal(node) => node.children_spec(),
            Node::Leaf(_) => Seq::empty(),
        }
    }

    /// Identifier of the parent node, if any.
    pub open spec fn parent_spec(&self) -> Option<usize> {
        match self {
            Node::Internal(node) => node.parent_spec(),
            Node::Leaf(leaf) => leaf.parent_spec(),
        }
    }

    /// A node holds no more items than a `usize` counts, and an internal
    /// node has one child more than it has items.
    pub proof fn lemma_len(&self)
        ensures
            self.items().len() <= usize::MAX,
            !self.is_leaf() ==> self.children_spec().len() == self.items().len() + 1,
            self.is_leaf() ==> self.children_spec().len() == 0,
    {
        match self {
            Node::Internal(node) => node.lemma_len(),
            Node::Leaf(leaf) => leaf.lemma_len(),
        }
    }

    /// Makes the internal node with one item between two children.
    pub fn binary(parent: Option<usize>, left_id: usize, median: Item<K, V>, right_id: usize) -> (node: Node<K, V>)
        ensures
            !node.is_leaf(),
            node.parent_spec() == parent,
            node.items() == seq![median],
            node.children_spec() == seq![left_id, right_id],
    {
        Node::Internal(InternalNode::binary(parent, left_id, median, right_id))
    }

    /// Makes the leaf with one item.
    pub fn leaf(parent: Option<usize>, item: Item<K, V>) -> (node: Node<K, V>)
        ensures
            node.is_leaf(),
            node.parent_spec() == parent,
            node.items() == seq![item],
    {
        Node::Leaf(LeafNode::new(parent, item))
    }

    /// The balance of the node, by the number of its items.
    pub open spec fn spec_balance(&self) -> Balance {
        if self.spec_is_overflowing() {
            Balance::Overflow
        } else if self.spec_is_underflowing() {
            Balance::Underflow(self.items().len() == 0)
        } else {
            Balance::Balanced
        }
    }

    /// The balance of the node, by the number of its items.
    #[verifier::when_used_as_spec(spec_balance)]
    pub fn balance(&self) -> (b: Balance)
        ensures
            b == self.spec_balance(),
    {
        match self {
            Node::Internal(node) => node.balance(),
            Node::Leaf(leaf) => leaf.balance(),
        }
    }

    /// A node underflows when it holds less than `M / 2 - 1` items.
    pub open spec fn spec_is_underflowing(&self) -> bool {
        self.items().len() < M / 2 - 1
    }

    /// Tells whether the node holds fewer items than a node below the root may.
    #[verifier::when_used_as_spec(spec_is_underflowing)]
    pub fn is_underflowing(&self) -> (r: bool)
        ensures
            r == self.spec_is_underflowing(),
    {
        match self {
            Node::Internal(node) => node.is_underflowing(),
            Node::Leaf(leaf) => leaf.is_underflowing(),
        }
    }

    /// A leaf overflows when it holds more than `M` items, an internal node
    /// when it holds `M` items or more.
    pub open spec fn spec_is_overflowing(&self) -> bool {
        if self.is_leaf() {
            self.items().len() > M
        } else {
            self.items().len() >= M
        }
    }

    /// Tells whether the node holds more items than it may.
    #[verifier::when_used_as_spec(spec_is_overflowing)]
    pub fn is_overflowing(&self) -> (r: bool)
        ensures
            r == self.spec_is_overflowing(),
    {
        match self {
            Node::Internal(node) => node.is_overflowing(),
            Node::Leaf(leaf) => leaf.is_overflowing(),
        }
    }

    /// The identifier of the parent node, if there is one.
    pub fn parent(&self) -> (p: Option<usize>)
        ensures
            p == self.parent_spec(),
    {
        match self {
            Node::Internal(node) => node.parent(),
            Node::Leaf(leaf) => leaf.parent(),
        }
    }

    /// Sets the identifier of the parent node.
    pub fn set_parent(&mut self, p: Option<usize>)
        ensures
            final(self).parent_spec() == p,
            final(self).is_leaf() == old(self).is_leaf(),
            final(self).items() == old(self).items(),
            final(self).children_spec() == old(self).children_spec(),
    {
        match self {
            Node::Internal(node) => node.set_parent(p),
            Node::Leaf(leaf) => leaf.set_parent(p),
        }
    }

    /// The number of items of the node.
    pub fn item_count(&self) -> (n: usize)
        ensures
            n == self.items().len(),
    {
        match self {
            Node::Internal(node) => node.item_count(),
            Node::Leaf(leaf) => leaf.item_count(),
        }
    }

    /// The number of children of the node.
    pub fn child_count(&self) -> (n: usize)
        requires
            self.items().len() < usize::MAX,
        ensures
            n == self.children_spec().len(),
    {
        match self {
            Node::Internal(node) => node.child_count(),
            Node::Leaf(_) => 0,
        }
    }

    /// The index of the first child with the given identifier.
    pub fn child_index(&self, id: usize) -> (r: Option<usize>)
        requires
            self.items().len() < usize::MAX,
        ensures
            match r {
                Some(i) => {
                    &&& i < self.children_spec().len()
                    &&& self.children_spec()[i as int] == id
                    &&& forall|j: int| 0 <= j < i ==> self.children_spec()[j] != id
                },
                None => forall|j: int| 0 <= j < self.children_spec().len() ==> self.children_spec()[j] != id,
            },
    {
        match self {
            Node::Internal(node) => node.child_index(id),
            _ => None,
        }
    }

    /// The identifier of the child at `index`.
    pub fn child_id(&self, index: usize) -> (id: usize)
        requires
            index < self.children_spec().len(),
        ensures
            id == self.children_spec()[index as int],
    {
        match self {
            Node::Internal(node) => node.child_id(index),
            _ => vstd::pervasive::unreached(),
        }
    }

    /// The identifier of the child at `index`, if there is one.
    pub fn child_id_opt(&self, index: usize) -> (r: Option<usize>)
        ensures
            r == (if index < self.children_spec().len() {
                Some(self.children_spec()[index as int])
            } else {
                None
            }),
    {
        match self {
            Node::Internal(node) => node.child_id_opt(index),
            Node::Leaf(_) => None,
        }
    }

    /// The value bound to `key` in this node if `key` is in it; else, in a
    /// leaf, nothing, and in an internal node the identifier of the child in
    /// which `key` belongs.
    pub open spec fn lookup(&self, key: K) -> Result<Option<&V>, usize> where K: Ord {
        match index_of(self.items(), key) {
            Some(i) => Ok(Some(&self.items()[i].value_spec())),
            None => if self.is_leaf() {
                Ok(None)
            } else {
                Err(self.children_spec()[gap_of(self.items(), key)])
            },
        }
    }

    /// The value bound to `key` in this node, or the identifier of the child in which the key belongs.
    pub fn get(&self, key: &K) -> (r: Result<Option<&V>, usize>) where K: Ord
        requires
            total_order::<K>(),
            sorted(self.items()),
            forall|i: int| 0 <= i < self.items().len() ==> self.items()[i].full(),
        ensures
            r == self.lookup(*key),
            r is Err ==> !self.is_leaf() && is_gap(self.items(), *key, gap_of(self.items(), *key)),
            r is Ok ==> (r->Ok_0 is None <==> index_of(self.items(), *key) is None),
    {
        match self {
            Node::Leaf(leaf) => Ok(leaf.get(key)),
            Node::Internal(node) => match node.get(key) {
                Ok(value) => Ok(Some(value)),
                Err(e) => Err(e),
            },
        }
    }

    /// As `get`, with the value to be changed in place.
    pub fn get_mut(&mut self, key: &K) -> (r: Result<Option<&mut V>, usize>) where K: Ord
        requires
            total_order::<K>(),
            sorted(old(self).items()),
            forall|i: int| 0 <= i < old(self).items().len() ==> old(self).items()[i].full(),
        ensures
            final(self).is_leaf() == old(self).is_leaf(),
            final(self).parent_spec() == old(self).parent_spec(),
            final(self).children_spec() =~= old(self).children_spec(),
            final(self).items().len() == old(self).items().len(),
            forall|j: int|
                0 <= j < old(self).items().len() && Some(j) != index_of(old(self).items(), *key) ==> final(self).items()[j] == old(self).items()[j],
            match r {
                Ok(Some(v)) => {
                    let i = index_of(old(self).items(), *key)->0;
                    &&& index_of(old(self).items(), *key) is Some
                    &&& *v == old(self).items()[i].value_spec()
                    &&& final(self).items()[i].key_spec() == *key
                    &&& final(self).items()[i].slot() == Some(*final(v))
                },
                Ok(None) => old(self).is_leaf() && index_of(old(self).items(), *key) is None,
                Err(id) => {
                    &&& !old(self).is_leaf()
                    &&& index_of(old(self).items(), *key) is None
                    &&& is_gap(old(self).items(), *key, gap_of(old(self).items(), *key))
                    &&& id == old(self).children_spec()[gap_of(old(self).items(), *key)]
                },
            },
    {
        match self {
            Node::Leaf(leaf) => Ok(leaf.get_mut(key)),
            Node::Internal(node) => match node.get_mut(key) {
                Ok(value) => Ok(Some(value)),
                Err(e) => Err(e),
            },
        }
    }

    /// Where `key` is in this node; or the gap in which it belongs, with the
    /// identifier of the child at that gap if the node has children.
    pub open spec fn is_offset_of(&self, key: K, r: Result<Offset, (usize, Option<usize>)>) -> bool where K: Ord {
        match r {
            Ok(o) => 0 <= o@ < self.items().len() && self.items()[o@].key_spec() == key,
            Err((index, child)) => {
                &&& is_gap(self.items(), key, index as int)
                &&& child == (if self.is_leaf() {
                    None
                } else {
                    Some(self.children_spec()[index as int])
                })
            },
        }
    }

    /// Find the offset of the item matching the given key.
    ///
    /// If the key matches no item in this node, this function returns the
    /// index and identifier of the child that may match the key, or the
    /// index at which the key is to be inserted if the node is a leaf.
    pub fn offset_of(&self, key: &K) -> (r: Result<Offset, (usize, Option<usize>)>) where K: Ord
        requires
            total_order::<K>(),
            sorted(self.items()),
            self.items().len() < usize::MAX,
        ensures
            self.is_offset_of(*key, r),
    {
        match self {
            Node::Internal(node) => match node.offset_of(key) {
                Ok(i) => Ok(i),
                Err((index, child_id)) => Err((index, Some(child_id))),
            },
            Node::Leaf(leaf) => match leaf.offset_of(key) {
                Ok(i) => Ok(i),
                Err(index) => Err((index.unwrap(), None)),
            },
        }
    }

    /// The item at `offset`, if the offset names one.
    pub fn item(&self, offset: Offset) -> (r: Option<&Item<K, V>>)
        ensures
            r == (if 0 <= offset@ < self.items().len() {
                Some(&self.items()[offset@])
            } else {
                None
            }),
    {
        match self {
            Node::Internal(node) => node.item(offset),
            Node::Leaf(leaf) => leaf.item(offset),
        }
    }

    /// The item at `offset`, if the offset names one, to be changed in place.
    pub fn item_mut(&mut self, offset: Offset) -> (r: Option<&mut Item<K, V>>)
        ensures
            final(self).is_leaf() == old(self).is_leaf(),
            final(self).parent_spec() == old(self).parent_spec(),
            final(self).children_spec() =~= old(self).children_spec(),
            r is Some <==> 0 <= offset@ < old(self).items().len(),
            r is Some ==> *r->0 == old(self).items()[offset@] && final(self).items() =~= old(self).items().update(
                offset@,
                *final(r->0),
            ),
            r is None ==> final(self).items() =~= old(self).items(),
    {
        match self {
            Node::Internal(node) => node.item_mut(offset),
            Node::Leaf(leaf) => leaf.item_mut(offset),
        }
    }

    /// Insert by key.
    ///
    /// Binds `key` to `value` where `key` is in the node, and returns the
    /// offset of the item with the value it held. A leaf that does not hold
    /// `key` gets a new item. An internal node that does not hold it gives
    /// key and value back with the index and identifier of the child in
    /// which the key belongs.
    pub fn insert_by_key(&mut self, key: K, value: V) -> (r: Result<(Offset, Option<V>), InsertionError<K, V>>) where
        K: Ord,

        requires
            total_order::<K>(),
            sorted(old(self).items()),
            forall|i: int| 0 <= i < old(self).items().len() ==> old(self).items()[i].full(),
            old(self).items().len() < usize::MAX,
        ensures
            final(self).is_leaf() == old(self).is_leaf(),
            final(self).parent_spec() == old(self).parent_spec(),
            final(self).children_spec() == old(self).children_spec(),
            match r {
                Ok((o, Some(v))) => {
                    &&& old(self).is_offset_of(key, Ok(o))
                    &&& v == old(self).items()[o@].value_spec()
                    &&& final(self).items() == old(self).items().update(o@, final(self).items()[o@])
                    &&& final(self).items()[o@].key_spec() == key
                    &&& final(self).items()[o@].slot() == Some(value)
                },
                Ok((o, None)) => {
                    &&& old(self).is_leaf()
                    &&& old(self).is_offset_of(key, Err((o.0, None)))
                    &&& 0 <= o@ == o.0
                    &&& final(self).items() == old(self).items().insert(o@, final(self).items()[o@])
                    &&& final(self).items()[o@].key_spec() == key
                    &&& final(self).items()[o@].slot() == Some(value)
                },
                Err((k, v, index, id)) => {
                    &&& !old(self).is_leaf()
                    &&& k == key
                    &&& v == value
                    &&& old(self).is_offset_of(key, Err((index, Some(id))))
                    &&& final(self).items() == old(self).items()
                },
            },
    {
        match self {
            Node::Internal(node) => match node.insert_by_key(key, value) {
                Ok((offset, value)) => Ok((offset, Some(value))),
                Err(e) => Err(e),
            },
            Node::Leaf(leaf) => Ok(leaf.insert_by_key(key, value)),
        }
    }

    /// Split the node.
    ///
    /// The left half stays in this node. Returns the number of items that
    /// stay, the median item and the right node, which has the parent of
    /// this one.
    pub fn split(&mut self) -> (r: (usize, Item<K, V>, Node<K, V>))
        requires
            old(self).spec_is_overflowing(),
        ensures
            r.0 == (old(self).items().len() - 1) / 2,
            final(self).is_leaf() == old(self).is_leaf(),
            r.2.is_leaf() == old(self).is_leaf(),
            final(self).parent_spec() == old(self).parent_spec(),
            r.2.parent_spec() == old(self).parent_spec(),
            final(self).items() == old(self).items().subrange(0, r.0 as int),
            r.1 == old(self).items()[r.0 as int],
            r.2.items() == old(self).items().subrange(r.0 + 1, old(self).items().len() as int),
            !old(self).is_leaf() ==> {
                &&& final(self).children_spec() == old(self).children_spec().subrange(0, r.0 + 1)
                &&& r.2.children_spec() == old(self).children_spec().subrange(
                    r.0 + 1,
                    old(self).children_spec().len() as int,
                )
            },
            !final(self).spec_is_underflowing(),
            !r.2.spec_is_underflowing(),
    {
        match self {
            Node::Internal(node) => {
                let (len, item, right_node) = node.split();
                (len, item, Node::Internal(right_node))
            },
            Node::Leaf(leaf) => {
                let (len, item, right_leaf) = leaf.split();
                (len, item, Node::Leaf(right_leaf))
            },
        }
    }

    /// Takes the item between the children `left_index` and `right_index`
    /// out of this internal node, together with the right one of these
    /// children.
    pub fn merge(&mut self, left_index: usize, right_index: usize) -> (r: (usize, usize, usize, Item<K, V>, Balance))
        requires
            !old(self).is_leaf(),
            left_index < old(self).items().len(),
            right_index < old(self).children_spec().len(),
        ensures
            !final(self).is_leaf(),
            final(self).parent_spec() == old(self).parent_spec(),
            final(self).items() == old(self).items().remove(left_index as int),
            final(self).children_spec() == old(self).children_spec().remove(left_index + 1),
            r.0 == left_index,
            r.1 == old(self).children_spec()[left_index as int],
            r.2 == old(self).children_spec()[right_index as int],
            r.3 == old(self).items()[left_index as int],
            r.4 == final(self).spec_balance(),
    {
        match self {
            Node::Internal(node) => node.merge(left_index, right_index),
            _ => vstd::pervasive::unreached(),
        }
    }

    /// Appends `separator` and the contents of `other`, a node of the same
    /// kind; returns the offset of the separator.
    pub fn append(&mut self, separator: Item<K, V>, other: Node<K, V>) -> (offset: Offset)
        requires
            old(self).is_leaf() == other.is_leaf(),
        ensures
            offset.0 == old(self).items().len(),
            final(self).is_leaf() == old(self).is_leaf(),
            final(self).parent_spec() == old(self).parent_spec(),
            final(self).items() == old(self).items().push(separator) + other.items(),
            final(self).children_spec() =~= old(self).children_spec() + other.children_spec(),
    {
        match (self, other) {
            (Node::Internal(node), Node::Internal(other)) => node.append(separator, other),
            (Node::Leaf(leaf), Node::Leaf(other)) => leaf.append(separator, other),
            _ => vstd::pervasive::unreached(),
        }
    }

    /// Puts `item` in front of the items, and in an internal node the child
    /// in front of the children.
    pub fn push_left(&mut self, item: Item<K, V>, opt_child_id: Option<usize>)
        requires
            !old(self).is_leaf() ==> opt_child_id is Some,
        ensures
            final(self).is_leaf() == old(self).is_leaf(),
            final(self).parent_spec() == old(self).parent_spec(),
            final(self).items() == old(self).items().insert(0, item),
            final(self).children_spec() =~= (if old(self).is_leaf() {
                old(self).children_spec()
            } else {
                old(self).children_spec().insert(0, opt_child_id->0)
            }),
    {
        match self {
            Node::Internal(node) => node.push_left(item, opt_child_id.unwrap()),
            Node::Leaf(leaf) => leaf.push_left(item),
        }
    }

    /// A node can give an item away when it holds `M / 2` items or more.
    pub open spec fn can_pop(&self) -> bool {
        self.items().len() >= M / 2
    }

    /// Takes the first item out, and the first child of an internal node,
    /// unless the node would underflow.
    pub fn pop_left(&mut self) -> (r: Result<(Item<K, V>, Option<usize>), WouldUnderflow>)
        ensures
            r is Err ==> *final(self) == *old(self),
            final(self).is_leaf() == old(self).is_leaf(),
            final(self).parent_spec() == old(self).parent_spec(),
            r is Ok <==> old(self).can_pop(),
            r is Err ==> final(self).items() == old(self).items() && final(self).children_spec() == old(self).children_spec(),
            r is Ok ==> {
                &&& r->Ok_0.0 == old(self).items()[0]
                &&& final(self).items() == old(self).items().remove(0)
                &&& old(self).is_leaf() ==> r->Ok_0.1 is None && final(self).children_spec() == old(self).children_spec()
                &&& !old(self).is_leaf() ==> r->Ok_0.1 == Some(old(self).children_spec()[0]) && final(self).children_spec() == old(self).children_spec().remove(0)
            },
    {
        match self {
            Node::Internal(node) => {
                match node.pop_left() {
                    Ok((item, child_id)) => Ok((item, Some(child_id))),
                    Err(e) => Err(e),
                }
            },
            Node::Leaf(leaf) => {
                match leaf.pop_left() {
                    Ok(item) => Ok((item, None)),
                    Err(e) => Err(e),
                }
            },
        }
    }

    /// Appends an item, with the child on its right in an internal node;
    /// returns the offset of the item.
    pub fn push_right(&mut self, item: Item<K, V>, opt_child_id: Option<usize>) -> (offset: Offset)
        requires
            !old(self).is_leaf() ==> opt_child_id is Some,
        ensures
            offset.0 == old(self).items().len(),
            final(self).is_leaf() == old(self).is_leaf(),
            final(self).parent_spec() == old(self).parent_spec(),
            final(self).items() == old(self).items().push(item),
            final(self).children_spec() =~= (if old(self).is_leaf() {
                old(self).children_spec()
            } else {
                old(self).children_spec().push(opt_child_id->0)
            }),
    {
        match self {
            Node::Internal(node) => node.push_right(item, opt_child_id.unwrap()),
            Node::Leaf(leaf) => leaf.push_right(item),
        }
    }

    /// Takes the last item out, and the last child of an internal node,
    /// unless the node would underflow; returns the offset that the item
    /// had, the item and the child.
    pub fn pop_right(&mut self) -> (r: Result<PoppedItem<K, V>, WouldUnderflow>)
        ensures
            r is Err ==> *final(self) == *old(self),
            final(self).is_leaf() == old(self).is_leaf(),
            final(self).parent_spec() == old(self).parent_spec(),
            r is Ok <==> old(self).can_pop(),
            r is Err ==> final(self).items() == old(self).items() && final(self).children_spec() == old(self).children_spec(),
            r is Ok ==> {
                &&& r->Ok_0.0.0 == old(self).items().len() - 1
                &&& r->Ok_0.1 == old(self).items().last()
                &&& final(self).items() == old(self).items().drop_last()
                &&& old(self).is_leaf() ==> r->Ok_0.2 is None && final(self).children_spec() == old(self).children_spec()
                &&& !old(self).is_leaf() ==> r->Ok_0.2 == Some(old(self).children_spec().last()) && final(self).children_spec() == old(self).children_spec().drop_last()
            },
    {
        match self {
            Node::Internal(node) => {
                match node.pop_right() {
                    Ok((offset, item, child_id)) => Ok((offset, item, Some(child_id))),
                    Err(e) => Err(e),
                }
            },
            Node::Leaf(leaf) => {
                match leaf.pop_right() {
                    Ok((offset, item)) => Ok((offset, item, None)),
                    Err(e) => Err(e),
                }
            },
        }
    }

    /// Removes the item at `offset` if the node is a leaf and returns it. Of
    /// an internal node nothing is removed: the identifier of the child on
    /// the left of the item is returned. Returns `None` if `offset` names no
    /// item.
    pub fn leaf_remove(&mut self, offset: Offset) -> (r: Option<Result<Item<K, V>, usize>>)
        requires
            offset@ >= 0,
        ensures
            final(self).is_leaf() == old(self).is_leaf(),
            final(self).parent_spec() == old(self).parent_spec(),
            final(self).children_spec() == old(self).children_spec(),
            r is Some <==> offset@ < old(self).items().len(),
            !(r matches Some(Ok(_))) ==> *final(self) == *old(self),
            match r {
                None => final(self).items() == old(self).items(),
                Some(Ok(item)) => {
                    &&& old(self).is_leaf()
                    &&& item == old(self).items()[offset@]
                    &&& final(self).items() == old(self).items().remove(offset@)
                },
                Some(Err(id)) => {
                    &&& !old(self).is_leaf()
                    &&& id == old(self).children_spec()[offset@]
                    &&& final(self).items() == old(self).items()
                },
            },
    {
        match self {
            Node::Internal(node) => {
                if offset.is_below(node.item_count()) {
                    let left_child_index = offset.unwrap();
                    Some(Err(node.child_id(left_child_index)))
                } else {
                    None
                }
            },
            Node::Leaf(leaf) => {
                if offset.is_below(leaf.item_count()) {
                    Some(Ok(leaf.remove(offset)))
                } else {
                    None
                }
            },
        }
    }

    /// Removes the last item of a leaf and returns it; of an internal node,
    /// returns the identifier of the last child.
    pub fn remove_rightmost_leaf(&mut self) -> (r: Result<Item<K, V>, usize>)
        requires
            old(self).is_leaf() ==> old(self).items().len() > 0,
        ensures
            final(self).is_leaf() == old(self).is_leaf(),
            final(self).parent_spec() == old(self).parent_spec(),
            final(self).children_spec() == old(self).children_spec(),
            r is Err ==> *final(self) == *old(self),
            match r {
                Ok(item) => {
                    &&& old(self).is_leaf()
                    &&& item == old(self).items().last()
                    &&& final(self).items() == old(self).items().drop_last()
                },
                Err(id) => {
                    &&& !old(self).is_leaf()
                    &&& id == old(self).children_spec().last()
                    &&& final(self).items() == old(self).items()
                },
            },
    {
        match self {
            Node::Internal(node) => {
                proof {
                    node.lemma_len();
                }
                let child_index = node.item_count();
                let child_id = node.child_id(child_index);
                Err(child_id)
            },
            Node::Leaf(leaf) => Ok(leaf.remove_last()),
        }
    }

    /// Put an item in a node, with the child on its right if the node is
    /// internal.
    pub fn insert(&mut self, offset: Offset, item: Item<K, V>, opt_right_child_id: Option<usize>)
        requires
            0 <= offset@ <= old(self).items().len(),
            !old(self).is_leaf() ==> opt_right_child_id is Some,
        ensures
            final(self).is_leaf() == old(self).is_leaf(),
            final(self).parent_spec() == old(self).parent_spec(),
            final(self).items() == old(self).items().insert(offset@, item),
            final(self).children_spec() =~= (if old(self).is_leaf() {
                old(self).children_spec()
            } else {
                old(self).children_spec().insert(offset@ + 1, opt_right_child_id->0)
            }),
    {
        match self {
            Node::Internal(node) => node.insert(offset, item, opt_right_child_id.unwrap()),
            Node::Leaf(leaf) => leaf.insert(offset, item),
        }
    }

    /// Replaces the item at `offset` in an internal node and returns the
    /// one that was there.
    pub fn replace(&mut self, offset: Offset, item: Item<K, V>) -> (r: Item<K, V>)
        requires
            !old(self).is_leaf(),
            0 <= offset@ < old(self).items().len(),
        ensures
            !final(self).is_leaf(),
            final(self).parent_spec() == old(self).parent_spec(),
            final(self).children_spec() == old(self).children_spec(),
            final(self).items() == old(self).items().update(offset@, item),
            r == old(self).items()[offset@],
    {
        match self {
            Node::Internal(node) => node.replace(offset, item),
            _ => vstd::pervasive::unreached(),
        }
    }

    /// The keys between which the keys of the child `i` lie.
    pub fn separators(&self, i: usize) -> (r: (Option<&K>, Option<&K>))
        requires
            !self.is_leaf() ==> i < self.children_spec().len(),
        ensures
            r.0 == (if !self.is_leaf() && i > 0 {
                Some(&self.items()[i - 1].key_spec())
            } else {
                None
            }),
            r.1 == (if !self.is_leaf() && i < self.items().len() {
                Some(&self.items()[i as int].key_spec())
            } else {
                None
            }),
    {
        match self {
            Node::Leaf(_) => (None, None),
            Node::Internal(node) => node.separators(i),
        }
    }

    /// The identifiers of the children, in order, in a vector.
    pub fn child_ids(&self) -> (r: Vec<usize>)
        ensures
            r@ == self.children_spec(),
    {
        match self {
            Node::Leaf(_) => Vec::new(),
            Node::Internal(node) => node.child_ids(),
        }
    }

    /// Each child with the items on its left and on its right.
    pub open spec fn separated(&self) -> Seq<(Option<Item<K, V>>, usize, Option<Item<K, V>>)> {
        Seq::new(
            self.children_spec().len(),
            |i: int|
                (
                    if i > 0 {
                        Some(self.items()[i - 1])
                    } else {
                        None
                    },
                    self.children_spec()[i],
                    if i < self.items().len() {
                        Some(self.items()[i])
                    } else {
                        None
                    },
                ),
        )
    }

    /// An iterator over the identifiers of the children, in order.
    pub fn children(&self) -> (r: Children<'_, K, V>)
        ensures
            r.left() == self.children_spec(),
    {
        match self {
            Node::Leaf(_) => {
                let r = Children::Leaf;
                proof {
                    assert(r.left() =~= self.children_spec());
                }
                r
            },
            Node::Internal(node) => {
                let r = Children::Internal(Some(node.first_child_id()), node.branches(), 0);
                proof {
                    assert(r.left() =~= self.children_spec());
                }
                r
            },
        }
    }

    /// An iterator over the children, in order, each with the items on its
    /// left and on its right.
    pub fn children_with_separators(&self) -> (r: ChildrenWithSeparators<'_, K, V>)
        ensures
            r.wf(),
            r.left() == self.separated(),
    {
        match self {
            Node::Leaf(_) => {
                let r = ChildrenWithSeparators::Leaf;
                proof {
                    assert(r.left() =~= self.separated());
                }
                r
            },
            Node::Internal(node) => {
                proof {
                    node.lemma_len();
                }
                let r = ChildrenWithSeparators::Internal(Some(node.first_child_id()), None, node.branches(), 0);
                proof {
                    assert(r.left() =~= self.separated());
                }
                r
            },
        }
    }

    /// What the validation of a single node accepts: the parent is the
    /// expected one; a node that has a bound is balanced, and an internal
    /// node without bounds, a root, holds an item; the items are sorted and
    /// lie between the bounds.
    pub open spec fn valid(&self, parent: Option<usize>, min: Option<K>, max: Option<K>) -> bool where K: Ord {
        valid_node(self.is_leaf(), self.parent_spec(), self.items(), parent, min, max)
    }

    /// Validates the node: tells whether it is as a node should be whose
    /// parent is `parent` and whose keys lie between `min` and `max`.
    pub fn validate(&self, parent: Option<usize>, min: Option<&K>, max: Option<&K>) -> (ok: bool) where K: Ord
        requires
            total_order::<K>(),
        ensures
            ok == self.valid(parent, unref(min), unref(max)),
    {
        match self {
            Node::Leaf(leaf) => leaf.validate(parent, min, max),
            Node::Internal(node) => node.validate(parent, min, max),
        }
    }
}

/// What a reference refers to, if there is one.
pub open spec fn unref<K>(k: Option<&K>) -> Option<K> {
    match k {
        Some(k) => Some(*k),
        None => None,
    }
}

/// What the validation of a single node accepts, of a node given by its
/// parts: the parent is the expected one; a node that has a bound is
/// balanced, and an internal node without bounds, a root, holds an item;
/// the items are sorted and lie between the bounds.
pub open spec fn valid_node<K: Ord, V>(
    leaf: bool,
    has: Option<usize>,
    items: Seq<Item<K, V>>,
    parent: Option<usize>,
    min: Option<K>,
    max: Option<K>,
) -> bool {
    &&& has == parent
    &&& (min is Some || max is Some) ==> items.len() >= M / 2 - 1 && (if leaf {
        items.len() <= M
    } else {
        items.len() < M
    })
    &&& (min is None && max is None && !leaf) ==> items.len() > 0
    &&& sorted(items)
    &&& within(items, min, max)
}

/// A sorted sequence lies between two bounds exactly when its first key
/// lies above the lower one and its last key below the upper one.
pub proof fn lemma_within_ends<K: Ord, V>(s: Seq<Item<K, V>>, min: Option<K>, max: Option<K>)
    requires
        total_order::<K>(),
        sorted(s),
    ensures
        within(s, min, max) <==> (s.len() > 0 ==> (min is Some ==> lt(min->0, s[0].key_spec())) && (max is Some
            ==> lt(s.last().key_spec(), max->0))),
{
    if s.len() > 0 {
        let n = s.len() as int;
        if min is Some && lt(min->0, s[0].key_spec()) {
            assert forall|i: int| 0 <= i < s.len() implies lt(min->0, #[trigger] s[i].key_spec()) by {
                if i > 0 {
                    assert(lt(s[0].key_spec(), s[i].key_spec()));
                }
            }
        }
        if max is Some && lt(s.last().key_spec(), max->0) {
            assert forall|i: int| 0 <= i < s.len() implies lt(#[trigger] s[i].key_spec(), max->0) by {
                if i < n - 1 {
                    assert(lt(s[i].key_spec(), s[n - 1].key_spec()));
                }
            }
        }
        if within(s, min, max) {
            if min is Some {
                assert(lt(min->0, s[0].key_spec()));
            }
            if max is Some {
                assert(lt(s[n - 1].key_spec(), max->0));
            }
        }
    }
}

/// An iterator over the identifiers of the children of a node.
pub enum Children<'a, K, V> {
    /// A leaf has no children.
    Leaf,
    /// The first child, until it has been given out; the branches; and the
    /// number of branches whose child has been given out.
    Internal(Option<usize>, &'a [internal::Branch<K, V>], usize),
}

impl<'a, K, V> Children<'a, K, V> {
    /// The identifiers that are left, in order.
    pub open spec fn left(&self) -> Seq<usize> {
        match self {
            Children::Leaf => Seq::empty(),
            Children::Internal(first, rest, given) => {
                let ahead = Seq::new(
                    if *given <= rest@.len() {
                        (rest@.len() - *given) as nat
                    } else {
                        0
                    },
                    |i: int| rest@[i + *given].child,
                );
                match first {
                    Some(child) => seq![*child] + ahead,
                    None => ahead,
                }
            },
        }
    }

    /// The next of the identifiers.
    pub fn next(&mut self) -> (r: Option<usize>)
        ensures
            r == (if old(self).left().len() > 0 {
                Some(old(self).left()[0])
            } else {
                None
            }),
            final(self).left() == (if old(self).left().len() > 0 {
                old(self).left().subrange(1, old(self).left().len() as int)
            } else {
                old(self).left()
            }),
    {
        match self {
            Children::Leaf => None,
            Children::Internal(first, rest, given) => match first.take() {
                Some(child) => {
                    proof {
                        assert(self.left() =~= old(self).left().subrange(1, old(self).left().len() as int));
                    }
                    Some(child)
                },
                None => {
                    if *given < rest.len() {
                        let child = rest[*given].child;
                        *given += 1;
                        proof {
                            assert(self.left() =~= old(self).left().subrange(1, old(self).left().len() as int));
                        }
                        Some(child)
                    } else {
                        None
                    }
                },
            },
        }
    }
}

/// An iterator over the children of a node, each with the items on its
/// left and on its right.
pub enum ChildrenWithSeparators<'a, K, V> {
    /// A leaf has no children.
    Leaf,
    /// The first child, until it has been given out; the item on the left
    /// of the next child; the branches; and the number of branches whose
    /// child has been given out.
    Internal(Option<usize>, Option<&'a Item<K, V>>, &'a [internal::Branch<K, V>], usize),
}

impl<'a, K, V> ChildrenWithSeparators<'a, K, V> {
    /// The child of the branch `i`, with the items on its left and on its
    /// right.
    pub open spec fn at(rest: Seq<internal::Branch<K, V>>, i: int) -> (Option<Item<K, V>>, usize, Option<Item<K, V>>) {
        (
            Some(rest[i].item),
            rest[i].child,
            if i + 1 < rest.len() {
                Some(rest[i + 1].item)
            } else {
                None
            },
        )
    }

    /// What is left: each child with the items on its left and on its
    /// right, in order.
    pub open spec fn left(&self) -> Seq<(Option<Item<K, V>>, usize, Option<Item<K, V>>)> {
        match self {
            ChildrenWithSeparators::Leaf => Seq::empty(),
            ChildrenWithSeparators::Internal(first, left_sep, rest, given) => {
                let ahead = Seq::new(
                    if *given <= rest@.len() {
                        (rest@.len() - *given) as nat
                    } else {
                        0
                    },
                    |i: int| Self::at(rest@, i + *given),
                );
                match first {
                    Some(child) => seq![
                        (
                            None,
                            *child,
                            if rest@.len() > 0 {
                                Some(rest@[0].item)
                            } else {
                                None
                            },
                        ),
                    ] + ahead,
                    None => ahead,
                }
            },
        }
    }

    /// The state is one that the iterator gets into: the first child is
    /// there while no branch has been passed, and the item on the left is
    /// the item of the next branch.
    pub open spec fn wf(&self) -> bool {
        match self {
            ChildrenWithSeparators::Leaf => true,
            ChildrenWithSeparators::Internal(first, left_sep, rest, given) => {
                &&& first is Some ==> *given == 0
                &&& first is None && *given < rest@.len() ==> *left_sep == Some(&rest@[*given as int].item)
            },
        }
    }

    /// The next of the children, with the item on its left and the item on
    /// its right.
    pub fn next(&mut self) -> (r: Option<(Option<&'a Item<K, V>>, usize, Option<&'a Item<K, V>>)>)
        requires
            old(self).wf(),
        ensures
            final(self).wf(),
            r is Some <==> old(self).left().len() > 0,
            r is Some ==> {
                let first = old(self).left()[0];
                &&& r.unwrap().1 == first.1
                &&& match r.unwrap().0 {
                    Some(item) => first.0 == Some(*item),
                    None => first.0 is None,
                }
                &&& match r.unwrap().2 {
                    Some(item) => first.2 == Some(*item),
                    None => first.2 is None,
                }
            },
            final(self).left() == (if old(self).left().len() > 0 {
                old(self).left().subrange(1, old(self).left().len() as int)
            } else {
                old(self).left()
            }),
    {
        match self {
            ChildrenWithSeparators::Leaf => None,
            ChildrenWithSeparators::Internal(first, left_sep, rest, given) => match first.take() {
                Some(child) => {
                    let right_sep = if rest.len() > 0 {
                        Some(&rest[0].item)
                    } else {
                        None
                    };
                    *left_sep = right_sep;
                    proof {
                        assert(self.left() =~= old(self).left().subrange(1, old(self).left().len() as int));
                    }
                    Some((None, child, right_sep))
                },
                None => {
                    if *given < rest.len() {
                        let branch = &rest[*given];
                        *given += 1;
                        let right_sep = if *given < rest.len() {
                            Some(&rest[*given].item)
                        } else {
                            None
                        };
                        let result = Some((*left_sep, branch.child, right_sep));
                        *left_sep = right_sep;
                        proof {
                            assert(self.left() =~= old(self).left().subrange(1, old(self).left().len() as int));
                        }
                        result
                    } else {
                        None
                    }
                },
            },
        }
    }
}

} // verus!
