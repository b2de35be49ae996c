//! Leaf nodes.
use vstd::prelude::*;
use crate::generic::node::store::Items;
use crate::generic::node::{lemma_within_ends, unref, valid_node, Balance, Item, Keyed, Offset, WouldUnderflow, M};
use crate::utils::{is_sorted, key_lt, binary_search_min, gap_of, index_of, is_floor, is_gap, key_eq, lemma_floor_splits, lemma_gap_of, lemma_inserted_sorted, lemma_index_of, lemma_order_basics, lt, sorted, total_order};

verus! {

/// A node without children.
#[verifier::reject_recursive_types(K)]
#[verifier::reject_recursive_types(V)]
#[derive(Clone)]
pub struct Leaf<K, V> {
    parent: Option<usize>,
    items: Items<K, V>,
}

impl<K, V> Leaf<K, V> {
    /// Identifier of the parent node, if any.
    pub closed spec fn parent_spec(&self) -> Option<usize> {
        self.parent
    }

    /// The items, in order.
    pub closed spec fn items_spec(&self) -> Seq<Item<K, V>> {
        self.items@
    }

    /// A leaf holds no more items than a `usize` counts.
    pub proof fn lemma_len(&self)
        ensures
            self.items_spec().len() <= usize::MAX,
    {
        self.items.lemma_len();
    }

    /// The leaf that holds `item` alone.
    pub fn new(parent: Option<usize>, item: Item<K, V>) -> (leaf: Leaf<K, V>)
        ensures
            leaf.parent_spec() == parent,
            leaf.items_spec() == seq![item],
    {
        let mut items = Items::new();
        items.push(item);
        assert(items@ =~= seq![item]);
        Leaf { parent, items }
    }

    /// The identifier of the parent node, if there is one.
    pub fn parent(&self) -> (p: Option<usize>)
        ensures
            p == self.parent_spec(),
    {
        self.parent
    }

    /// Sets the identifier of the parent node.
    pub fn set_parent(&mut self, p: Option<usize>)
        ensures
            final(self).parent_spec() == p,
            final(self).items_spec() == old(self).items_spec(),
    {
        self.parent = p;
    }

    /// The number of items of the node.
    pub fn item_count(&self) -> (n: usize)
        ensures
            n == self.items_spec().len(),
    {
        self.items.len()
    }

    /// The items of the leaf.
    pub fn items(&self) -> (s: &[Item<K, V>])
        ensures
            s@ == self.items_spec(),
    {
        self.items.as_slice()
    }

    /// The value bound to `key` in this leaf, if any.
    pub fn get(&self, key: &K) -> (r: Option<&V>) where K: Ord
        requires
            total_order::<K>(),
            sorted(self.items_spec()),
            forall|i: int| 0 <= i < self.items_spec().len() ==> self.items_spec()[i].full(),
        ensures
            r == match index_of(self.items_spec(), *key) {
                Some(i) => Some(&self.items_spec()[i].value_spec()),
                None => None,
            },
    {
        let found = binary_search_min(self.items.as_slice(), key);
        proof {
            lemma_floor_splits(self.items@, *key, found);
        }
        match found {
            Some(i) => {
                let item = self.items.get(i);
                if key_eq(item.key(), key) {
                    proof {
                        lemma_index_of(self.items@, *key, i as int);
                    }
                    Some(item.value())
                } else {
                    None
                }
            },
            None => None,
        }
    }

    /// The value bound to `key` in this leaf, if any, to be changed in place.
    pub fn get_mut(&mut self, key: &K) -> (r: Option<&mut V>) where K: Ord
        requires
            total_order::<K>(),
            sorted(old(self).items_spec()),
            forall|i: int| 0 <= i < old(self).items_spec().len() ==> old(self).items_spec()[i].full(),
        ensures
            final(self).parent_spec() == old(self).parent_spec(),
            final(self).items_spec().len() == old(self).items_spec().len(),
            r is Some <==> index_of(old(self).items_spec(), *key) is Some,
            forall|j: int|
                0 <= j < old(self).items_spec().len() && Some(j) != index_of(old(self).items_spec(), *key)
                    ==> final(self).items_spec()[j] == old(self).items_spec()[j],
            r is Some ==> {
                let i = index_of(old(self).items_spec(), *key)->0;
                &&& *r->0 == old(self).items_spec()[i].value_spec()
                &&& final(self).items_spec()[i].key_spec() == *key
                &&& final(self).items_spec()[i].slot() == Some(*final(r->0))
            },
    {
        let found = binary_search_min(self.items.as_slice(), key);
        proof {
            lemma_floor_splits(self.items@, *key, found);
        }
        match found {
            Some(i) => {
                if key_eq(self.items.get(i).key(), key) {
                    proof {
                        lemma_index_of(self.items@, *key, i as int);
                    }
                    let item = self.items.get_mut(i);
                    Some(item.value_mut())
                } else {
                    None
                }
            },
            None => None,
        }
    }

    /// Where `key` is in this leaf, or where it would be inserted.
    pub open spec fn is_offset_of(&self, key: K, r: Result<Offset, Offset>) -> bool where K: Ord {
        match r {
            Ok(o) => 0 <= o@ < self.items_spec().len() && self.items_spec()[o@].key_spec() == key,
            Err(o) => {
                &&& 0 <= o@ <= self.items_spec().len()
                &&& forall|j: int| 0 <= j < o@ ==> lt(#[trigger] self.items_spec()[j].key_spec(), key)
                &&& forall|j: int|
                    o@ <= j < self.items_spec().len() ==> lt(key, #[trigger] self.items_spec()[j].key_spec())
            },
        }
    }

    /// Find the offset of the item matching the given key, or the offset at
    /// which an item with that key is to be inserted.
    pub fn offset_of(&self, key: &K) -> (r: Result<Offset, Offset>) where K: Ord
        requires
            total_order::<K>(),
            sorted(self.items_spec()),
            self.items_spec().len() < usize::MAX,
        ensures
            self.is_offset_of(*key, r),
    {
        let found = binary_search_min(self.items.as_slice(), key);
        proof {
            lemma_floor_splits(self.items@, *key, found);
        }
        match found {
            Some(i) => {
                if key_eq(self.items.get(i).key(), key) {
                    Ok(Offset(i))
                } else {
                    Err(Offset(i + 1))
                }
            },
            None => Err(Offset(0)),
        }
    }

    /// The item at `offset`, if the offset names one.
    pub fn item(&self, offset: Offset) -> (r: Option<&Item<K, V>>)
        ensures
            r == (if 0 <= offset@ < self.items_spec().len() {
                Some(&self.items_spec()[offset@])
            } else {
                None
            }),
    {
        match offset.value() {
            Some(offset) => {
                if offset < self.items.len() {
                    Some(self.items.get(offset))
                } else {
                    None
                }
            },
            None => None,
        }
    }

    /// The item at `offset`, if the offset names one, to be changed in place.
    pub fn item_mut(&mut self, offset: Offset) -> (r: Option<&mut Item<K, V>>)
        ensures
            final(self).parent_spec() == old(self).parent_spec(),
            r is Some <==> 0 <= offset@ < old(self).items_spec().len(),
            r is Some ==> *r->0 == old(self).items_spec()[offset@] && final(self).items_spec() == old(self).items_spec().update(offset@, *final(r->0)),
            r is None ==> final(self).items_spec() == old(self).items_spec(),
    {
        match offset.value() {
            Some(offset) => {
                if offset < self.items.len() {
                    Some(self.items.get_mut(offset))
                } else {
                    None
                }
            },
            None => None,
        }
    }

    /// Binds `key` to `value`: returns the offset of the item and the value
    /// that `key` was bound to, if any.
    pub fn insert_by_key(&mut self, key: K, value: V) -> (r: (Offset, Option<V>)) where K: Ord
        requires
            total_order::<K>(),
            sorted(old(self).items_spec()),
            forall|i: int| 0 <= i < old(self).items_spec().len() ==> old(self).items_spec()[i].full(),
            old(self).items_spec().len() < usize::MAX,
        ensures
            final(self).parent_spec() == old(self).parent_spec(),
            0 <= r.0@ < final(self).items_spec().len(),
            final(self).items_spec()[r.0@].key_spec() == key,
            final(self).items_spec()[r.0@].slot() == Some(value),
            match r.1 {
                Some(v) => {
                    &&& old(self).is_offset_of(key, Ok(r.0))
                    &&& v == old(self).items_spec()[r.0@].value_spec()
                    &&& final(self).items_spec() == old(self).items_spec().update(
                        r.0@,
                        final(self).items_spec()[r.0@],
                    )
                },
                None => {
                    &&& old(self).is_offset_of(key, Err(r.0))
                    &&& final(self).items_spec() == old(self).items_spec().insert(
                        r.0@,
                        final(self).items_spec()[r.0@],
                    )
                },
            },
            sorted(final(self).items_spec()),
    {
        let found = binary_search_min(self.items.as_slice(), &key);
        proof {
            lemma_floor_splits(self.items@, key, found);
        }
        let ghost before = self.items@;
        match found {
            Some(i) => {
                if key_eq(self.items.get(i).key(), &key) {
                    let old_value = self.items.get_mut(i).set_value(value);
                    assert(self.items@ =~= before.update(i as int, self.items@[i as int]));
                    assert forall|a: int, b: int| 0 <= a < b < self.items@.len() implies lt(
                        #[trigger] self.items@[a].key_spec(),
                        #[trigger] self.items@[b].key_spec(),
                    ) by {
                        assert(self.items@[a].key_spec() == before[a].key_spec());
                        assert(self.items@[b].key_spec() == before[b].key_spec());
                    }
                    (Offset(i), Some(old_value))
                } else {
                    self.items.insert(i + 1, Item::new(key, value));
                    proof {
                        lemma_inserted_sorted(before, i + 1, self.items@[i + 1]);
                    }
                    (Offset(i + 1), None)
                }
            },
            None => {
                self.items.insert(0, Item::new(key, value));
                proof {
                    lemma_inserted_sorted(before, 0, self.items@[0]);
                }
                (Offset(0), None)
            },
        }
    }

    /// Splits an overflowing leaf in two halves around its median item.
    ///
    /// The left half stays in this leaf. Returns the number of items that
    /// stay, the median item and the right half, a leaf with the parent of
    /// this one.
    pub fn split(&mut self) -> (r: (usize, Item<K, V>, Leaf<K, V>))
        requires
            old(self).spec_is_overflowing(),
        ensures
            r.0 == (old(self).items_spec().len() - 1) / 2,
            final(self).parent_spec() == old(self).parent_spec(),
            final(self).items_spec() == old(self).items_spec().subrange(0, r.0 as int),
            r.1 == old(self).items_spec()[r.0 as int],
            r.2.parent_spec() == old(self).parent_spec(),
            r.2.items_spec() == old(self).items_spec().subrange(
                r.0 + 1,
                old(self).items_spec().len() as int,
            ),
            !final(self).spec_is_underflowing(),
            !r.2.spec_is_underflowing(),
    {
        let median_i = (self.items.len() - 1) / 2;
        let ghost before = self.items@;
        let right_items = self.items.split_off(median_i + 1);
        let median = self.items.pop().unwrap();
        let right_leaf = Leaf { parent: self.parent, items: right_items };
        assert(self.items@ =~= before.subrange(0, median_i as int));
        (self.items.len(), median, right_leaf)
    }

    /// Appends `separator` and then the items of `other`; returns the offset
    /// of `separator`.
    pub fn append(&mut self, separator: Item<K, V>, other: Leaf<K, V>) -> (offset: Offset)
        ensures
            offset.0 == old(self).items_spec().len(),
            final(self).parent_spec() == old(self).parent_spec(),
            final(self).items_spec() == old(self).items_spec().push(separator) + other.items_spec(),
    {
        let offset = self.items.len();
        let mut other = other;
        self.items.push(separator);
        self.items.append(&mut other.items);
        Offset(offset)
    }

    /// Puts `item` before the first item.
    pub fn push_left(&mut self, item: Item<K, V>)
        ensures
            final(self).parent_spec() == old(self).parent_spec(),
            final(self).items_spec() == old(self).items_spec().insert(0, item),
    {
        self.items.insert(0, item)
    }

    /// Takes the first item out, unless the leaf would underflow.
    pub fn pop_left(&mut self) -> (r: Result<Item<K, V>, WouldUnderflow>)
        ensures
            r is Err ==> *final(self) == *old(self),
            final(self).parent_spec() == old(self).parent_spec(),
            r is Err <==> old(self).items_spec().len() < M / 2,
            r is Err ==> final(self).items_spec() == old(self).items_spec(),
            r is Ok ==> r->Ok_0 == old(self).items_spec()[0] && final(self).items_spec() == old(self).items_spec().remove(0),
    {
        if self.item_count() < M / 2 {
            Err(WouldUnderflow)
        } else {
            Ok(self.items.remove(0))
        }
    }

    /// Appends an item and returns its offset.
    pub fn push_right(&mut self, item: Item<K, V>) -> (offset: Offset)
        ensures
            offset.0 == old(self).items_spec().len(),
            final(self).parent_spec() == old(self).parent_spec(),
            final(self).items_spec() == old(self).items_spec().push(item),
    {
        let offset = self.items.len();
        self.items.push(item);
        Offset(offset)
    }

    /// Takes the last item out, unless the leaf would underflow; returns
    /// the offset that the item had, and the item.
    pub fn pop_right(&mut self) -> (r: Result<(Offset, Item<K, V>), WouldUnderflow>)
        ensures
            r is Err ==> *final(self) == *old(self),
            final(self).parent_spec() == old(self).parent_spec(),
            r is Err <==> old(self).items_spec().len() < M / 2,
            r is Err ==> final(self).items_spec() == old(self).items_spec(),
            r is Ok ==> {
                &&& r->Ok_0.0.0 == old(self).items_spec().len() - 1
                &&& r->Ok_0.1 == old(self).items_spec().last()
                &&& final(self).items_spec() == old(self).items_spec().drop_last()
            },
    {
        if self.item_count() < M / 2 {
            Err(WouldUnderflow)
        } else {
            let item = self.items.pop().unwrap();
            let offset = self.items.len();
            Ok((Offset(offset), item))
        }
    }

    /// The balance of the node, by the number of its items.
    pub open spec fn spec_balance(&self) -> Balance {
        if self.spec_is_overflowing() {
            Balance::Overflow
        } else if self.spec_is_underflowing() {
            Balance::Underflow(self.items_spec().len() == 0)
        } else {
            Balance::Balanced
        }
    }

    /// The balance of the node, by the number of its items.
    #[verifier::when_used_as_spec(spec_balance)]
    pub fn balance(&self) -> (b: Balance)
        ensures
            b == self.spec_balance(),
    {
        if self.is_overflowing() {
            Balance::Overflow
        } else if self.is_underflowing() {
            Balance::Underflow(self.items.len() == 0)
        } else {
            Balance::Balanced
        }
    }

    /// A leaf overflows when it holds more than `M` items.
    pub open spec fn spec_is_overflowing(&self) -> bool {
        self.items_spec().len() > M
    }

    /// Tells whether the node holds more items than it may.
    #[verifier::when_used_as_spec(spec_is_overflowing)]
    pub fn is_overflowing(&self) -> (r: bool)
        ensures
            r == self.spec_is_overflowing(),
    {
        self.item_count() > M
    }

    /// A leaf underflows when it holds less than `M / 2 - 1` items.
    pub open spec fn spec_is_underflowing(&self) -> bool {
        self.items_spec().len() < M / 2 - 1
    }

    /// Tells whether the node holds fewer items than a node below the root may.
    #[verifier::when_used_as_spec(spec_is_underflowing)]
    pub fn is_underflowing(&self) -> (r: bool)
        ensures
            r == self.spec_is_underflowing(),
    {
        self.item_count() < M / 2 - 1
    }

    /// Inserts `item` at `offset`.
    pub fn insert(&mut self, offset: Offset, item: Item<K, V>)
        requires
            0 <= offset@ <= old(self).items_spec().len(),
        ensures
            final(self).parent_spec() == old(self).parent_spec(),
            final(self).items_spec() == old(self).items_spec().insert(offset@, item),
    {
        self.items.insert(offset.unwrap(), item)
    }

    /// Removes the item at the given offset and returns it.
    pub fn remove(&mut self, offset: Offset) -> (item: Item<K, V>)
        requires
            0 <= offset@ < old(self).items_spec().len(),
        ensures
            final(self).parent_spec() == old(self).parent_spec(),
            item == old(self).items_spec()[offset@],
            final(self).items_spec() == old(self).items_spec().remove(offset@),
    {
        self.items.remove(offset.unwrap())
    }

    /// Validates the leaf: tells whether it is as a leaf should be whose
    /// parent is `parent` and whose keys lie between `min` and `max`.
    pub fn validate(&self, parent: Option<usize>, min: Option<&K>, max: Option<&K>) -> (ok: bool) where K: Ord
        requires
            total_order::<K>(),
        ensures
            ok == valid_node(true, self.parent_spec(), self.items_spec(), parent, unref(min), unref(max)),
    {
        if self.parent() != parent {
            return false;
        }
        if min.is_some() || max.is_some() {
            // not root
            match self.balance() {
                Balance::Balanced => (),
                _ => {
                    return false;
                },
            }
        }
        if !is_sorted(self.items.as_slice()) {
            return false;
        }
        proof {
            lemma_within_ends(self.items@, unref(min), unref(max));
        }
        let n = self.items.len();
        if n > 0 {
            if let Some(min) = min {
                if !key_lt(min, self.items.get(0).key()) {
                    return false;
                }
            }
            if let Some(max) = max {
                if !key_lt(self.items.get(n - 1).key(), max) {
                    return false;
                }
            }
        }
        true
    }

    /// Removes the last item and returns it.
    pub fn remove_last(&mut self) -> (item: Item<K, V>)
        requires
            old(self).items_spec().len() > 0,
        ensures
            final(self).parent_spec() == old(self).parent_spec(),
            item == old(self).items_spec().last(),
            final(self).items_spec() == old(self).items_spec().drop_last(),
    {
        self.items.pop().unwrap()
    }
}

} // verus!
