//! Internal nodes.
use vstd::prelude::*;
use crate::generic::node::{lemma_within_ends, unref, valid_node, Balance, Item, Keyed, Offset, WouldUnderflow, M};
use crate::utils::{is_sorted, key_lt, binary_search_min, gap_of, index_of, is_floor, is_gap, key_eq, lemma_floor_splits, lemma_gap_of, lemma_index_of, lemma_order_basics, lt, sorted, total_order};

verus! {

/// Number of items under which an internal node underflows.
pub const UNDERFLOW: usize = 3;

/// An item of an internal node with the child on its right.
#[derive(Clone)]
pub struct Branch<K, V> {
    pub item: Item<K, V>,
    pub child: usize,
}

impl<K, V> Keyed for Branch<K, V> {
    type Key = K;

    open spec fn key_spec(&self) -> K {
        self.item.key_spec()
    }

    fn key(&self) -> (k: &K) {
        self.item.key()
    }
}

/// What an insertion by key into an internal node gives back when the key is
/// not there: the key, the value, and the index and identifier of the child
/// in which the key belongs.
pub type InsertionError<K, V> = (K, V, usize, usize);

/// A node with children: one child more than it has items.
#[derive(Clone)]
pub struct Internal<K, V> {
    parent: Option<usize>,
    first_child: usize,
    other_children: Vec<Branch<K, V>>,
}

/// The items of a sequence of branches.
pub open spec fn items_of<K, V>(branches: Seq<Branch<K, V>>) -> Seq<Item<K, V>> {
    Seq::new(branches.len(), |i: int| branches[i].item)
}

/// The children of a node: its first child, then the child of each branch.
pub open spec fn children_of<K, V>(first: usize, branches: Seq<Branch<K, V>>) -> Seq<usize> {
    Seq::new(branches.len() + 1, |i: int| if i == 0 { first } else { branches[i - 1].child })
}

/// Branches are sorted exactly when their items are.
pub proof fn lemma_sorted_items<K: Ord, V>(branches: Seq<Branch<K, V>>)
    ensures
        sorted(branches) <==> sorted(items_of(branches)),
{
    let items = items_of(branches);
    if sorted(branches) {
        assert forall|i: int, j: int| 0 <= i < j < items.len() implies lt(
            #[trigger] items[i].key_spec(),
            #[trigger] items[j].key_spec(),
        ) by {
            assert(lt(branches[i].key_spec(), branches[j].key_spec()));
        }
    }
    if sorted(items) {
        assert forall|i: int, j: int| 0 <= i < j < branches.len() implies lt(
            #[trigger] branches[i].key_spec(),
            #[trigger] branches[j].key_spec(),
        ) by {
            assert(lt(items[i].key_spec(), items[j].key_spec()));
        }
    }
}

impl<K, V> Internal<K, V> {
    /// Identifier of the parent node, if any.
    pub closed spec fn parent_spec(&self) -> Option<usize> {
        self.parent
    }

    /// Identifier of the first child.
    pub closed spec fn first_child_spec(&self) -> usize {
        self.first_child
    }

    /// The branches, in order.
    pub closed spec fn branches_spec(&self) -> Seq<Branch<K, V>> {
        self.other_children@
    }

    /// The items, in order.
    pub open spec fn items_spec(&self) -> Seq<Item<K, V>> {
        items_of(self.branches_spec())
    }

    /// The identifiers of the children, in order.
    pub open spec fn children_spec(&self) -> Seq<usize> {
        children_of(self.first_child_spec(), self.branches_spec())
    }

    /// A node holds no more items than a `usize` counts.
    pub proof fn lemma_len(&self)
        ensures
            self.branches_spec().len() <= usize::MAX,
            self.items_spec().len() == self.branches_spec().len(),
            self.children_spec().len() == self.branches_spec().len() + 1,
    {
        assert(self.other_children@.len() == self.other_children.len());
    }

    /// Makes the node with one item between two children.
    pub fn binary(parent: Option<usize>, left_id: usize, median: Item<K, V>, right_id: usize) -> (node:
        Internal<K, V>)
        ensures
            node.parent_spec() == parent,
            node.first_child_spec() == left_id,
            node.branches_spec() == seq![(Branch { item: median, child: right_id })],
            node.items_spec() == seq![median],
            node.children_spec() == seq![left_id, right_id],
    {
        let mut other_children = Vec::new();
        other_children.push(Branch { item: median, child: right_id });
        let node = Internal { parent, first_child: left_id, other_children };
        assert(node.other_children@ =~= seq![(Branch { item: median, child: right_id })]);
        assert(node.items_spec() =~= seq![median]);
        assert(node.children_spec() =~= seq![left_id, right_id]);
        node
    }

    /// The balance of the node, by the number of its items.
    pub open spec fn spec_balance(&self) -> Balance {
        if self.spec_is_overflowing() {
            Balance::Overflow
        } else if self.spec_is_underflowing() {
            Balance::Underflow(self.branches_spec().len() == 0)
        } else {
            Balance::Balanced
        }
    }

    /// The balance of the node, by the number of its items.
    #[verifier::when_used_as_spec(spec_balance)]
    pub fn balance(&self) -> (b: Balance)
        ensures
            b == self.spec_balance(),
    {
        if self.is_overflowing() {
            Balance::Overflow
        } else if self.is_underflowing() {
            Balance::Underflow(self.other_children.len() == 0)
        } else {
            Balance::Balanced
        }
    }

    /// An internal node overflows when it holds `M` items or more.
    pub open spec fn spec_is_overflowing(&self) -> bool {
        self.branches_spec().len() >= M
    }

    /// Tells whether the node holds more items than it may.
    #[verifier::when_used_as_spec(spec_is_overflowing)]
    pub fn is_overflowing(&self) -> (r: bool)
        ensures
            r == self.spec_is_overflowing(),
    {
        self.item_count() >= M
    }

    /// An internal node underflows when it holds less than `M / 2 - 1` items.
    pub open spec fn spec_is_underflowing(&self) -> bool {
        self.branches_spec().len() < UNDERFLOW
    }

    /// Tells whether the node holds fewer items than a node below the root may.
    #[verifier::when_used_as_spec(spec_is_underflowing)]
    pub fn is_underflowing(&self) -> (r: bool)
        ensures
            r == self.spec_is_underflowing(),
    {
        self.item_count() < UNDERFLOW
    }

    /// The identifier of the parent node, if there is one.
    pub fn parent(&self) -> (p: Option<usize>)
        ensures
            p == self.parent_spec(),
    {
        self.parent
    }

    /// Sets the identifier of the parent node.
    pub fn set_parent(&mut self, p: Option<usize>)
        ensures
            final(self).parent_spec() == p,
            final(self).first_child_spec() == old(self).first_child_spec(),
            final(self).branches_spec() == old(self).branches_spec(),
    {
        self.parent = p;
    }

    /// The number of items of the node.
    pub fn item_count(&self) -> (n: usize)
        ensures
            n == self.branches_spec().len(),
    {
        self.other_children.len()
    }

    /// The number of children of the node.
    pub fn child_count(&self) -> (n: usize)
        requires
            self.branches_spec().len() < usize::MAX,
        ensures
            n == self.branches_spec().len() + 1,
    {
        1usize + self.item_count()
    }

    /// The identifier of the first child.
    pub fn first_child_id(&self) -> (id: usize)
        ensures
            id == self.first_child_spec(),
    {
        self.first_child
    }

    /// The items of the node, each with the child on its right.
    pub fn branches(&self) -> (s: &[Branch<K, V>])
        ensures
            s@ == self.branches_spec(),
    {
        self.other_children.as_slice()
    }

    /// The index of the first child with the given identifier.
    pub fn child_index(&self, id: usize) -> (r: Option<usize>)
        requires
            self.branches_spec().len() < usize::MAX,
        ensures
            match r {
                Some(i) => {
                    &&& i < self.children_spec().len()
                    &&& self.children_spec()[i as int] == id
                    &&& forall|j: int| 0 <= j < i ==> self.children_spec()[j] != id
                },
                None => forall|j: int| 0 <= j < self.children_spec().len() ==> self.children_spec()[j] != id,
            },
    {
        if self.first_child == id {
            Some(0)
        } else {
            let mut i: usize = 0;
            while i < self.other_children.len()
                invariant
                    i <= self.other_children@.len() < usize::MAX,
                    self.first_child != id,
                    forall|j: int| 0 <= j < i ==> self.other_children@[j].child != id,
                decreases self.other_children@.len() - i,
            {
                if self.other_children[i].child == id {
                    return Some(i + 1);
                }
                i += 1;
            }
            None
        }
    }

    /// The identifier of the child at `index`.
    pub fn child_id(&self, index: usize) -> (id: usize)
        requires
            index < self.children_spec().len(),
        ensures
            id == self.children_spec()[index as int],
    {
        if index == 0 {
            self.first_child
        } else {
            self.other_children[index - 1].child
        }
    }

    /// The identifier of the child at `index`, if there is one.
    pub fn child_id_opt(&self, index: usize) -> (r: Option<usize>)
        ensures
            r == (if index < self.children_spec().len() {
                Some(self.children_spec()[index as int])
            } else {
                None
            }),
    {
        if index == 0 {
            Some(self.first_child)
        } else if index - 1 < self.other_children.len() {
            Some(self.other_children[index - 1].child)
        } else {
            None
        }
    }

    /// The keys between which the keys of the child `index` lie.
    pub fn separators(&self, index: usize) -> (r: (Option<&K>, Option<&K>))
        requires
            index < self.children_spec().len(),
        ensures
            r.0 == (if index > 0 {
                Some(&self.items_spec()[index - 1].key_spec())
            } else {
                None
            }),
            r.1 == (if index < self.items_spec().len() {
                Some(&self.items_spec()[index as int].key_spec())
            } else {
                None
            }),
    {
        let min = if index > 0 {
            Some(self.other_children[index - 1].item.key())
        } else {
            None
        };
        let max = if index < self.other_children.len() {
            Some(self.other_children[index].item.key())
        } else {
            None
        };
        (min, max)
    }

    /// Where `key` is in this node, or in which child it belongs.
    pub open spec fn is_offset_of(&self, key: K, r: Result<Offset, (usize, usize)>) -> bool where K: Ord {
        match r {
            Ok(o) => 0 <= o@ < self.items_spec().len() && self.items_spec()[o@].key_spec() == key,
            Err((index, id)) => {
                &&& index < self.children_spec().len()
                &&& id == self.children_spec()[index as int]
                &&& forall|j: int| 0 <= j < index ==> lt(#[trigger] self.items_spec()[j].key_spec(), key)
                &&& forall|j: int|
                    index <= j < self.items_spec().len() ==> lt(key, #[trigger] self.items_spec()[j].key_spec())
            },
        }
    }

    /// The value bound to `key` in this node, or the identifier of the child
    /// in which `key` belongs.
    pub fn get(&self, key: &K) -> (r: Result<&V, usize>) where K: Ord
        requires
            total_order::<K>(),
            sorted(self.items_spec()),
            forall|i: int| 0 <= i < self.items_spec().len() ==> self.items_spec()[i].full(),
        ensures
            r == match index_of(self.items_spec(), *key) {
                Some(i) => Ok::<&V, usize>(&self.items_spec()[i].value_spec()),
                None => Err::<&V, usize>(self.children_spec()[gap_of(self.items_spec(), *key)]),
            },
            r is Err ==> is_gap(self.items_spec(), *key, gap_of(self.items_spec(), *key)),
    {
        let found = binary_search_min(self.other_children.as_slice(), key);
        proof {
            lemma_sorted_items(self.other_children@);
            lemma_floor_splits(self.other_children@, *key, found);
        }
        match found {
            Some(offset) => {
                let b = &self.other_children[offset];
                if key_eq(b.item.key(), key) {
                    proof {
                        assert(self.items_spec()[offset as int].key_spec() == *key);
                        assert(self.items_spec()[offset as int].full());
                        lemma_index_of(self.items_spec(), *key, offset as int);
                    }
                    Ok(b.item.value())
                } else {
                    proof {
                        self.lemma_branch_after(*key, offset);
                        lemma_gap_of(self.items_spec(), *key, offset + 1);
                    }
                    Err(b.child)
                }
            },
            None => {
                proof {
                    self.lemma_branch_first(*key);
                    lemma_gap_of(self.items_spec(), *key, 0);
                }
                Err(self.first_child)
            },
        }
    }

    proof fn lemma_branch_after(&self, key: K, offset: usize) where K: Ord
        requires
            total_order::<K>(),
            sorted(self.branches_spec()),
            is_floor(self.branches_spec(), key, Some(offset)),
            self.branches_spec()[offset as int].key_spec() != key,
        ensures
            self.is_offset_of(key, Err(((offset + 1) as usize, self.branches_spec()[offset as int].child))),
            offset + 1 <= usize::MAX,
    {
        lemma_floor_splits(self.other_children@, key, Some(offset));
        let s = self.other_children@;
        assert(s.len() <= usize::MAX) by {
            vstd::std_specs::vec::axiom_spec_len(&self.other_children);
        }
        assert forall|j: int| 0 <= j < offset + 1 implies lt(#[trigger] self.items_spec()[j].key_spec(), key) by {
            assert(crate::utils::le(s[j].key_spec(), key));
            if s[j].key_spec() == key {
                assert(Some(j as usize) == Some(offset));
            }
        }
        assert forall|j: int| offset + 1 <= j < self.items_spec().len() implies lt(
            key,
            #[trigger] self.items_spec()[j].key_spec(),
        ) by {
            assert(lt(key, s[j].key_spec()));
        }
    }

    proof fn lemma_branch_first(&self, key: K) where K: Ord
        requires
            total_order::<K>(),
            sorted(self.branches_spec()),
            is_floor(self.branches_spec(), key, None),
        ensures
            self.is_offset_of(key, Err((0, self.first_child_spec()))),
    {
        lemma_floor_splits(self.other_children@, key, None);
        let s = self.other_children@;
        assert forall|j: int| 0 <= j < self.items_spec().len() implies lt(
            key,
            #[trigger] self.items_spec()[j].key_spec(),
        ) by {
            assert(lt(key, s[j].key_spec()));
        }
    }

    /// The value bound to `key` in this node, to be changed in place, or the
    /// identifier of the child in which `key` belongs.
    pub fn get_mut(&mut self, key: &K) -> (r: Result<&mut V, usize>) where K: Ord
        requires
            total_order::<K>(),
            sorted(old(self).items_spec()),
            forall|i: int| 0 <= i < old(self).items_spec().len() ==> old(self).items_spec()[i].full(),
        ensures
            final(self).parent_spec() == old(self).parent_spec(),
            final(self).children_spec() =~= old(self).children_spec(),
            final(self).items_spec().len() == old(self).items_spec().len(),
            r is Ok <==> index_of(old(self).items_spec(), *key) is Some,
            forall|j: int|
                0 <= j < old(self).items_spec().len() && Some(j) != index_of(old(self).items_spec(), *key)
                    ==> final(self).items_spec()[j] == old(self).items_spec()[j],
            r is Ok ==> {
                let i = index_of(old(self).items_spec(), *key)->0;
                &&& *r->Ok_0 == old(self).items_spec()[i].value_spec()
                &&& final(self).items_spec()[i].key_spec() == *key
                &&& final(self).items_spec()[i].slot() == Some(*final(r->Ok_0))
            },
            r is Err ==> r->Err_0 == old(self).children_spec()[gap_of(old(self).items_spec(), *key)],
            r is Err ==> is_gap(old(self).items_spec(), *key, gap_of(old(self).items_spec(), *key)),
            r is Err ==> final(self).items_spec() =~= old(self).items_spec(),
    {
        let found = binary_search_min(self.other_children.as_slice(), key);
        proof {
            lemma_sorted_items(self.other_children@);
            lemma_floor_splits(self.other_children@, *key, found);
        }
        match found {
            Some(offset) => {
                if key_eq(self.other_children[offset].item.key(), key) {
                    proof {
                        assert(self.items_spec()[offset as int].key_spec() == *key);
                        assert(self.items_spec()[offset as int].full());
                        lemma_index_of(self.items_spec(), *key, offset as int);
                    }
                    let b = &mut self.other_children[offset];
                    Ok(b.item.value_mut())
                } else {
                    proof {
                        self.lemma_branch_after(*key, offset);
                        lemma_gap_of(self.items_spec(), *key, offset + 1);
                    }
                    Err(self.other_children[offset].child)
                }
            },
            None => {
                proof {
                    self.lemma_branch_first(*key);
                    lemma_gap_of(self.items_spec(), *key, 0);
                }
                Err(self.first_child)
            },
        }
    }

    /// Find the offset of the item matching the given key.
    ///
    /// If the key matches no item in this node, this function returns the
    /// index and identifier of the child that may match the key.
    pub fn offset_of(&self, key: &K) -> (r: Result<Offset, (usize, usize)>) where K: Ord
        requires
            total_order::<K>(),
            sorted(self.items_spec()),
        ensures
            self.is_offset_of(*key, r),
    {
        let found = binary_search_min(self.other_children.as_slice(), key);
        proof {
            lemma_sorted_items(self.other_children@);
            lemma_floor_splits(self.other_children@, *key, found);
        }
        match found {
            Some(offset) => {
                if key_eq(self.other_children[offset].item.key(), key) {
                    proof {
                        self.lemma_len();
                        assert(self.items_spec()[offset as int].key_spec() == *key);
                    }
                    Ok(Offset(offset))
                } else {
                    let id = self.other_children[offset].child;
                    proof {
                        self.lemma_branch_after(*key, offset);
                    }
                    Err((offset + 1, id))
                }
            },
            None => {
                proof {
                    self.lemma_branch_first(*key);
                }
                Err((0, self.first_child))
            },
        }
    }

    /// The identifiers of the children, in order, in a vector.
    pub fn child_ids(&self) -> (r: Vec<usize>)
        ensures
            r@ == self.children_spec(),
    {
        let mut r = Vec::new();
        r.push(self.first_child);
        let mut i: usize = 0;
        while i < self.other_children.len()
            invariant
                i <= self.other_children@.len(),
                r@ == children_of(self.first_child, self.other_children@.subrange(0, i as int)),
            decreases self.other_children@.len() - i,
        {
            r.push(self.other_children[i].child);
            i += 1;
            assert(r@ =~= children_of(self.first_child, self.other_children@.subrange(0, i as int)));
        }
        assert(self.other_children@.subrange(0, i as int) =~= self.other_children@);
        r
    }

    /// The item at `offset`, if the offset names one.
    pub fn item(&self, offset: Offset) -> (r: Option<&Item<K, V>>)
        ensures
            r == (if 0 <= offset@ < self.items_spec().len() {
                Some(&self.items_spec()[offset@])
            } else {
                None
            }),
    {
        match offset.value() {
            Some(offset) => {
                if offset < self.other_children.len() {
                    Some(&self.other_children[offset].item)
                } else {
                    None
                }
            },
            None => None,
        }
    }

    /// The item at `offset`, if the offset names one, to be changed in place.
    pub fn item_mut(&mut self, offset: Offset) -> (r: Option<&mut Item<K, V>>)
        ensures
            final(self).parent_spec() == old(self).parent_spec(),
            final(self).children_spec() =~= old(self).children_spec(),
            r is Some <==> 0 <= offset@ < old(self).items_spec().len(),
            r is Some ==> *r->0 == old(self).items_spec()[offset@] && final(self).items_spec() =~= old(self).items_spec().update(offset@, *final(r->0)),
            r is None ==> final(self).items_spec() =~= old(self).items_spec(),
    {
        let ghost before = *self;
        match offset.value() {
            Some(offset) => {
                if offset < self.other_children.len() {
                    let b = &mut self.other_children[offset];
                    Some(&mut b.item)
                } else {
                    None
                }
            },
            None => None,
        }
    }

    /// Binds `key` to `value` if `key` is in this node, and returns its
    /// offset and the value it was bound to. Else gives key and value back
    /// with the index and identifier of the child in which `key` belongs.
    pub fn insert_by_key(&mut self, key: K, value: V) -> (r: Result<(Offset, V), InsertionError<K, V>>) where
        K: Ord,

        requires
            total_order::<K>(),
            sorted(old(self).items_spec()),
            forall|i: int| 0 <= i < old(self).items_spec().len() ==> old(self).items_spec()[i].full(),
        ensures
            final(self).parent_spec() == old(self).parent_spec(),
            final(self).children_spec() == old(self).children_spec(),
            match r {
                Ok((o, v)) => {
                    &&& old(self).is_offset_of(key, Ok(o))
                    &&& v == old(self).items_spec()[o@].value_spec()
                    &&& final(self).items_spec() == old(self).items_spec().update(o@, final(self).items_spec()[o@])
                    &&& final(self).items_spec()[o@].key_spec() == key
                    &&& final(self).items_spec()[o@].slot() == Some(value)
                },
                Err((k, v, index, id)) => {
                    &&& k == key
                    &&& v == value
                    &&& old(self).is_offset_of(key, Err((index, id)))
                    &&& final(self).items_spec() == old(self).items_spec()
                },
            },
    {
        let found = binary_search_min(self.other_children.as_slice(), &key);
        let ghost before = *self;
        proof {
            lemma_sorted_items(self.other_children@);
            lemma_floor_splits(self.other_children@, key, found);
        }
        match found {
            Some(i) => {
                if key_eq(self.other_children[i].item.key(), &key) {
                    proof {
                        self.lemma_len();
                        assert(self.items_spec()[i as int].key_spec() == key);
                        assert(self.items_spec()[i as int].full());
                    }
                    let old_value = self.other_children[i].item.set_value(value);
                    proof {
                        assert(self.other_children@[i as int].child == before.other_children@[i as int].child);
                        assert(self.children_spec() =~= before.children_spec());
                        assert(self.items_spec() =~= before.items_spec().update(
                            i as int,
                            self.items_spec()[i as int],
                        ));
                    }
                    Ok((Offset(i), old_value))
                } else {
                    proof {
                        self.lemma_branch_after(key, i);
                    }
                    Err((key, value, i + 1, self.other_children[i].child))
                }
            },
            None => {
                proof {
                    self.lemma_branch_first(key);
                }
                Err((key, value, 0, self.first_child))
            },
        }
    }

    /// Inserts `item` at `offset`, with the child `right_node_id` on its
    /// right.
    pub fn insert(&mut self, offset: Offset, item: Item<K, V>, right_node_id: usize)
        requires
            0 <= offset@ <= old(self).items_spec().len(),
        ensures
            final(self).parent_spec() == old(self).parent_spec(),
            final(self).items_spec() == old(self).items_spec().insert(offset@, item),
            final(self).children_spec() == old(self).children_spec().insert(offset@ + 1, right_node_id),
    {
        let ghost before = *self;
        self.other_children.insert(offset.unwrap(), Branch { item, child: right_node_id });
        proof {
            assert(self.items_spec() =~= before.items_spec().insert(offset@, item));
            assert(self.children_spec() =~= before.children_spec().insert(offset@ + 1, right_node_id));
        }
    }

    /// Replaces the item at the given offset and returns the one that was
    /// there.
    pub fn replace(&mut self, offset: Offset, item: Item<K, V>) -> (r: Item<K, V>)
        requires
            0 <= offset@ < old(self).items_spec().len(),
        ensures
            final(self).parent_spec() == old(self).parent_spec(),
            final(self).children_spec() == old(self).children_spec(),
            final(self).items_spec() == old(self).items_spec().update(offset@, item),
            r == old(self).items_spec()[offset@],
    {
        let ghost before = *self;
        let mut item = item;
        core::mem::swap(&mut item, &mut self.other_children[offset.unwrap()].item);
        proof {
            assert(self.other_children@[offset@].child == before.other_children@[offset@].child);
            assert(self.children_spec() =~= before.children_spec());
            assert(self.items_spec() =~= before.items_spec().update(offset@, self.items_spec()[offset@]));
        }
        item
    }

    /// Removes the item at the given offset together with the child on its
    /// right. Returns the identifier of the child on the left of the item,
    /// the item, and the identifier of the removed child.
    pub fn remove(&mut self, offset: Offset) -> (r: (usize, Item<K, V>, usize))
        requires
            0 <= offset@ < old(self).items_spec().len(),
        ensures
            final(self).parent_spec() == old(self).parent_spec(),
            final(self).items_spec() == old(self).items_spec().remove(offset@),
            final(self).children_spec() == old(self).children_spec().remove(offset@ + 1),
            r.0 == old(self).children_spec()[offset@],
            r.1 == old(self).items_spec()[offset@],
            r.2 == old(self).children_spec()[offset@ + 1],
    {
        let ghost before = *self;
        let offset = offset.unwrap();
        let left_child_id = self.child_id(offset);
        let b = self.other_children.remove(offset);
        proof {
            assert(self.items_spec() =~= before.items_spec().remove(offset as int));
            assert(self.children_spec() =~= before.children_spec().remove(offset + 1));
        }
        (left_child_id, b.item, b.child)
    }

    /// Splits an overflowing node in two halves around its median item.
    ///
    /// The left half stays in this node. Returns the number of items that
    /// stay, the median item and the right half, a node with the parent of
    /// this one.
    pub fn split(&mut self) -> (r: (usize, Item<K, V>, Internal<K, V>))
        requires
            old(self).spec_is_overflowing(),
        ensures
            r.0 == (old(self).items_spec().len() - 1) / 2,
            final(self).parent_spec() == old(self).parent_spec(),
            final(self).items_spec() == old(self).items_spec().subrange(0, r.0 as int),
            final(self).children_spec() == old(self).children_spec().subrange(0, r.0 + 1),
            r.1 == old(self).items_spec()[r.0 as int],
            r.2.parent_spec() == old(self).parent_spec(),
            r.2.items_spec() == old(self).items_spec().subrange(r.0 + 1, old(self).items_spec().len() as int),
            r.2.children_spec() == old(self).children_spec().subrange(
                r.0 + 1,
                old(self).children_spec().len() as int,
            ),
            !final(self).spec_is_underflowing(),
            !r.2.spec_is_underflowing(),
    {
        let ghost before = *self;
        let median_i = (self.other_children.len() - 1) / 2;
        let right_other_children = self.other_children.split_off(median_i + 1);
        let median = self.other_children.pop().unwrap();
        let right_node = Internal {
            parent: self.parent,
            first_child: median.child,
            other_children: right_other_children,
        };
        proof {
            let n = before.items_spec().len() as int;
            assert(self.items_spec() =~= before.items_spec().subrange(0, median_i as int));
            assert(self.children_spec() =~= before.children_spec().subrange(0, median_i + 1));
            assert(right_node.items_spec() =~= before.items_spec().subrange(median_i + 1, n));
            assert(right_node.children_spec() =~= before.children_spec().subrange(median_i + 1, n + 1));
        }
        (self.other_children.len(), median.item, right_node)
    }

    /// Takes the item between the children `left_index` and `right_index`
    /// out of this node, together with the right one of these children.
    ///
    /// `left_index` is expected to be `right_index - 1`. Returns the offset
    /// that the item had, the identifiers of the two children, the item, and
    /// the balance of this node without it.
    pub fn merge(&mut self, left_index: usize, right_index: usize) -> (r: (usize, usize, usize, Item<K, V>, Balance))
        requires
            left_index < old(self).items_spec().len(),
            right_index < old(self).children_spec().len(),
        ensures
            final(self).parent_spec() == old(self).parent_spec(),
            final(self).items_spec() == old(self).items_spec().remove(left_index as int),
            final(self).children_spec() == old(self).children_spec().remove(left_index + 1),
            r.0 == left_index,
            r.1 == old(self).children_spec()[left_index as int],
            r.2 == old(self).children_spec()[right_index as int],
            r.3 == old(self).items_spec()[left_index as int],
            r.4 == final(self).spec_balance(),
    {
        let ghost before = *self;
        let left_id = self.child_id(left_index);
        let right_id = self.child_id(right_index);
        let item = self.other_children.remove(left_index).item;
        proof {
            assert(self.items_spec() =~= before.items_spec().remove(left_index as int));
            assert(self.children_spec() =~= before.children_spec().remove(left_index + 1));
        }
        (left_index, left_id, right_id, item, self.balance())
    }

    /// Puts `item` in front of the items and `child_id` in front of the
    /// children.
    pub fn push_left(&mut self, item: Item<K, V>, child_id: usize)
        ensures
            final(self).parent_spec() == old(self).parent_spec(),
            final(self).items_spec() == old(self).items_spec().insert(0, item),
            final(self).children_spec() == old(self).children_spec().insert(0, child_id),
    {
        let ghost before = *self;
        self.other_children.insert(0, Branch { item, child: self.first_child });
        self.first_child = child_id;
        proof {
            assert(self.items_spec() =~= before.items_spec().insert(0, item));
            assert(self.children_spec() =~= before.children_spec().insert(0, child_id));
        }
    }

    /// Takes the first item and the first child out, unless the node would
    /// underflow.
    pub fn pop_left(&mut self) -> (r: Result<(Item<K, V>, usize), WouldUnderflow>)
        ensures
            r is Err ==> *final(self) == *old(self),
            final(self).parent_spec() == old(self).parent_spec(),
            r is Err <==> old(self).items_spec().len() <= UNDERFLOW,
            r is Err ==> final(self).items_spec() == old(self).items_spec() && final(self).children_spec() == old(self).children_spec(),
            r is Ok ==> {
                &&& r->Ok_0.0 == old(self).items_spec()[0]
                &&& r->Ok_0.1 == old(self).children_spec()[0]
                &&& final(self).items_spec() == old(self).items_spec().remove(0)
                &&& final(self).children_spec() == old(self).children_spec().remove(0)
            },
    {
        let ghost before = *self;
        if self.item_count() <= UNDERFLOW {
            Err(WouldUnderflow)
        } else {
            let child_id = self.first_child;
            let first = self.other_children.remove(0);
            self.first_child = first.child;
            proof {
                assert(self.items_spec() =~= before.items_spec().remove(0));
                assert(self.children_spec() =~= before.children_spec().remove(0));
            }
            Ok((first.item, child_id))
        }
    }

    /// Appends an item with the child on its right; returns the offset of
    /// the item.
    pub fn push_right(&mut self, item: Item<K, V>, child_id: usize) -> (offset: Offset)
        ensures
            offset.0 == old(self).items_spec().len(),
            final(self).parent_spec() == old(self).parent_spec(),
            final(self).items_spec() == old(self).items_spec().push(item),
            final(self).children_spec() == old(self).children_spec().push(child_id),
    {
        let ghost before = *self;
        let offset = self.other_children.len();
        self.other_children.push(Branch { item, child: child_id });
        proof {
            assert(self.items_spec() =~= before.items_spec().push(item));
            assert(self.children_spec() =~= before.children_spec().push(child_id));
        }
        Offset(offset)
    }

    /// Takes the last item and the last child out, unless the node would
    /// underflow; returns the offset that the item had, the item and the
    /// child.
    pub fn pop_right(&mut self) -> (r: Result<(Offset, Item<K, V>, usize), WouldUnderflow>)
        ensures
            r is Err ==> *final(self) == *old(self),
            final(self).parent_spec() == old(self).parent_spec(),
            r is Err <==> old(self).items_spec().len() <= UNDERFLOW,
            r is Err ==> final(self).items_spec() == old(self).items_spec() && final(self).children_spec() == old(self).children_spec(),
            r is Ok ==> {
                &&& r->Ok_0.0.0 == old(self).items_spec().len() - 1
                &&& r->Ok_0.1 == old(self).items_spec().last()
                &&& r->Ok_0.2 == old(self).children_spec().last()
                &&& final(self).items_spec() == old(self).items_spec().drop_last()
                &&& final(self).children_spec() == old(self).children_spec().drop_last()
            },
    {
        let ghost before = *self;
        if self.item_count() <= UNDERFLOW {
            Err(WouldUnderflow)
        } else {
            let last = self.other_children.pop().unwrap();
            let offset = self.other_children.len();
            proof {
                assert(self.items_spec() =~= before.items_spec().drop_last());
                assert(self.children_spec() =~= before.children_spec().drop_last());
            }
            Ok((Offset(offset), last.item, last.child))
        }
    }

    /// Validates the node: tells whether it is as an internal node should
    /// be whose parent is `parent` and whose keys lie between `min` and
    /// `max`.
    pub fn validate(&self, parent: Option<usize>, min: Option<&K>, max: Option<&K>) -> (ok: bool) where K: Ord
        requires
            total_order::<K>(),
        ensures
            ok == valid_node(false, self.parent_spec(), self.items_spec(), parent, unref(min), unref(max)),
    {
        if self.parent() != parent {
            return false;
        }
        if min.is_some() || max.is_some() {
            // not root
            match self.balance() {
                Balance::Balanced => (),
                _ => {
                    return false;
                },
            }
        } else {
            if self.item_count() == 0 {
                return false;
            }
        }
        proof {
            lemma_sorted_items(self.other_children@);
        }
        if !is_sorted(self.other_children.as_slice()) {
            return false;
        }
        proof {
            lemma_within_ends(self.items_spec(), unref(min), unref(max));
        }
        let n = self.other_children.len();
        if n > 0 {
            if let Some(min) = min {
                if !key_lt(min, self.other_children[0].item.key()) {
                    return false;
                }
            }
            if let Some(max) = max {
                if !key_lt(self.other_children[n - 1].item.key(), max) {
                    return false;
                }
            }
        }
        true
    }

    /// Appends `separator`, then the items of `other`, and the children of
    /// `other` to the children; returns the offset of `separator`.
    pub fn append(&mut self, separator: Item<K, V>, other: Internal<K, V>) -> (offset: Offset)
        ensures
            offset.0 == old(self).items_spec().len(),
            final(self).parent_spec() == old(self).parent_spec(),
            final(self).items_spec() == old(self).items_spec().push(separator) + other.items_spec(),
            final(self).children_spec() == old(self).children_spec() + other.children_spec(),
    {
        let ghost before = *self;
        let ghost appended = other;
        let mut other = other;
        let offset = self.other_children.len();
        self.other_children.push(Branch { item: separator, child: other.first_child });
        self.other_children.append(&mut other.other_children);
        proof {
            assert(self.items_spec() =~= before.items_spec().push(separator) + appended.items_spec());
            assert(self.children_spec() =~= before.children_spec() + appended.children_spec());
        }
        Offset(offset)
    }
}

} // verus!
