//! Map based on a B-Tree.
use vstd::prelude::*;
use crate::container::{Container, ContainerMut};
use crate::generic::node::{Balance, Item, ItemAddr, Keyed, Node, Offset, WouldUnderflow};
pub use crate::generic::node::M;
use crate::utils::{gap_of, index_of, is_gap, lemma_gap_of, lemma_index_of, lemma_order_basics, lt, sorted, total_order};

pub mod cursor;
pub mod edits;
pub mod entry;
pub mod fold;
pub mod moves;
pub mod range;
pub mod range_mut;
pub mod sound;
pub mod tree;
pub mod walk;

pub use tree::Tree;
pub use entry::{Entry, OccupiedEntry, VacantEntry};
pub use cursor::{DrainFilter, EntriesMut};
pub use range_mut::{IterMut, RangeMut, ValuesMut};
pub use range::{is_valid_range, Bound, IntoIter, IntoKeys, IntoValues, Iter, Keys, Range, Values};
use tree::{above, below};
use edits::swap_bound;
use moves::{
    collapse_move, collapse_step, grow_move, grow_step, kept, lemma_collapse, lemma_collapse_place, lemma_grow,
    lemma_grow_place, lemma_merge, lemma_merge_place, lemma_rotate_left, lemma_rotate_left_place,
    lemma_rotate_right, lemma_rotate_right_place, lemma_siblings, lemma_split, lemma_split_place, merge_move,
    rebalance_step, rebalance_under, rebalanced,
    merge_step, reparented, rotate_left_move, rotate_left_moved, rotate_left_step, rotate_right_move,
    rotate_right_moved, rotate_right_step, same_place, split_move, split_step, untouched, upcoming,
};

verus! {

/// What a map keeps in proofs only: the height of each node, and the bounds
/// between which its keys lie.
pub struct Bookkeeping<K> {
    pub height: Map<usize, nat>,
    pub lower: Map<usize, Option<K>>,
    pub upper: Map<usize, Option<K>>,
}

/// A map based on a B-Tree.
///
/// The nodes of the tree live in the arena `C` and name each other by
/// identifier. A position in the tree is named by an [`ItemAddr`]: the
/// low-level operations that work on addresses are public, next to the
/// operations of an ordinary map.
///
/// The keys are compared by their `Ord`. It is a logic error for a key to be
/// changed in such a way that its order relative to another key changes
/// while it is in the map.
#[derive(Clone)]
#[verifier::reject_recursive_types(K)]
#[verifier::reject_recursive_types(V)]
#[verifier::reject_recursive_types(C)]
pub struct BTreeMap<K, V, C> {
    /// Allocated nodes.
    nodes: C,
    /// Root node id.
    root: Option<usize>,
    /// Number of items in the tree.
    len: usize,
    book: Ghost<Bookkeeping<K>>,
    v: Ghost<Option<V>>,
}

impl<K: Ord, V, C: ContainerMut<Node<K, V>>> View for BTreeMap<K, V, C> {
    type V = Map<K, V>;

    /// The map as a mathematical map: each key with the value bound to it.
    open spec fn view(&self) -> Map<K, V> {
        self.tree().view()
    }
}

impl<K: Ord, V, C: ContainerMut<Node<K, V>>> BTreeMap<K, V, C> {
    /// The tree of the map.
    pub closed spec fn tree(&self) -> Tree<K, V> {
        Tree {
            nodes: self.nodes.contents(),
            root: self.root,
            height: self.book@.height,
            lower: self.book@.lower,
            upper: self.book@.upper,
        }
    }

    /// The number of items that the map has counted.
    pub closed spec fn count(&self) -> usize {
        self.len
    }

    /// The count is the number of keys of the map.
    pub open spec fn counted(&self) -> bool {
        self@.dom().finite() && self.count() == self@.dom().len()
    }

    /// The map is well formed: its tree is a B-Tree, every item holds a
    /// value, and the count is the number of keys.
    pub open spec fn wf(&self) -> bool {
        self.tree().btree() && self.tree().full_but(None) && self.counted()
    }

    /// Create a new empty B-tree.
    pub fn new() -> (map: BTreeMap<K, V, C>)
        ensures
            map.wf(),
            map@ == Map::<K, V>::empty(),
    {
        let map = BTreeMap {
            nodes: C::empty(),
            root: None,
            len: 0,
            book: Ghost(Bookkeeping { height: Map::empty(), lower: Map::empty(), upper: Map::empty() }),
            v: Ghost(None),
        };
        proof {
            assert(map.tree().nodes.dom() =~= Set::<usize>::empty());
            assert(map@.dom() =~= Set::<K>::empty()) by {
                assert forall|k: K| !map.tree().has_key(k) by {
                    if map.tree().has_key(k) {
                        let a = map.tree().addr_of(k);
                        assert(map.tree().holds(a, k));
                    }
                }
            }
            assert(map@ =~= Map::<K, V>::empty());
        }
        map
    }

    /// Returns a reference to the value corresponding to the supplied key,
    /// which must be in the map.
    pub fn index(&self, key: &K) -> (v: &V)
        requires
            total_order::<K>(),
            self.wf(),
            self@.dom().contains(*key),
        ensures
            *v == self@[*key],
    {
        self.get(key).unwrap()
    }

    /// Returns `true` if the map contains no elements.
    pub fn is_empty(&self) -> (r: bool)
        ensures
            r == (self.tree().root is None),
            self.wf() ==> r == (self@.dom().len() == 0),
    {
        proof {
            if self.wf() {
                self.lemma_empty();
            }
        }
        self.root.is_none()
    }

    /// A well-formed map has no root exactly when it has no key.
    pub proof fn lemma_empty(&self)
        requires
            self.wf(),
        ensures
            self.tree().root is None <==> self@.dom().len() == 0,
            self.tree().root is None <==> self@ == Map::<K, V>::empty(),
    {
        let t = self.tree();
        if t.root is None {
            assert forall|k: K| !t.has_key(k) by {
                if t.has_key(k) {
                    let a = t.addr_of(k);
                    assert(t.holds(a, k));
                }
            }
            assert(self@.dom() =~= Set::<K>::empty());
            assert(self@ =~= Map::<K, V>::empty());
        } else {
            let r = t.root->0;
            assert(t.node_ok(r));
            assert(t.fit(None, r));
            let a = ItemAddr { id: r, offset: Offset(0) };
            assert(t.holds(a, t.item_at(a).key_spec()));
            assert(self@.dom().contains(t.item_at(a).key_spec()));
            if self@.dom().len() == 0 {
                assert(self@.dom() =~= Set::<K>::empty()) by {
                    self@.dom().lemma_len0_is_empty();
                }
            }
        }
    }

    /// Returns the number of elements in the map.
    pub fn len(&self) -> (n: usize)
        ensures
            n == self.count(),
            self.wf() ==> n == self@.dom().len(),
    {
        self.len
    }

    /// Get the root node id.
    ///
    /// Returns `None` if the tree is empty.
    pub fn root_id(&self) -> (r: Option<usize>)
        ensures
            r == self.tree().root,
    {
        self.root
    }

    /// Get the node associated to the given `id`, if there is one.
    pub fn node_opt(&self, id: usize) -> (r: Option<&Node<K, V>>)
        ensures
            r == (if self.tree().live(id) {
                Some(&self.tree().node(id))
            } else {
                None
            }),
    {
        self.nodes.get(id)
    }

    /// Get the node associated to the given `id`.
    pub fn node(&self, id: usize) -> (node: &Node<K, V>)
        requires
            self.tree().live(id),
        ensures
            *node == self.tree().node(id),
    {
        self.nodes.get(id).unwrap()
    }

    /// The items of a node of a search tree, as its lookups need them.
    proof fn lemma_node(&self, id: usize)
        requires
            self.tree().shape(),
            self.tree().live(id),
        ensures
            self.tree().node_ok(id),
            sorted(self.tree().items(id)),
            self.tree().items(id).len() < usize::MAX,
            !self.tree().node(id).is_leaf() ==> self.tree().kids(id).len() == self.tree().items(id).len() + 1,
            self.tree().node(id).is_leaf() ==> self.tree().kids(id).len() == 0,
            self.tree().full_but(None) ==> forall|i: int|
                0 <= i < self.tree().items(id).len() ==> self.tree().items(id)[i].full(),
    {
        let t = self.tree();
        assert(t.node_ok(id));
        t.node(id).lemma_len();
        if t.full_but(None) {
            assert forall|i: int| 0 <= i < t.items(id).len() implies t.items(id)[i].full() by {
                let a = ItemAddr { id, offset: Offset(i as usize) };
                assert(t.occupied(a));
            }
        }
    }

    /// Returns a reference to the value corresponding to the key.
    pub fn get(&self, key: &K) -> (r: Option<&V>)
        requires
            total_order::<K>(),
            self.wf(),
        ensures
            r == (if self@.dom().contains(*key) {
                Some(&self@[*key])
            } else {
                None
            }),
    {
        match self.root {
            Some(id) => self.get_in(key, id),
            None => {
                proof {
                    self.lemma_empty();
                }
                None
            },
        }
    }

    /// Get a reference to the value associated to the given `key` in the
    /// node `id` or below it, if any.
    pub fn get_in(&self, key: &K, id: usize) -> (r: Option<&V>)
        requires
            total_order::<K>(),
            self.tree().shape(),
            self.tree().full_but(None),
            self.tree().live(id),
        ensures
            r == (if self@.dom().contains(*key) && self.tree().covers(id, *key) {
                Some(&self@[*key])
            } else {
                None
            }),
    {
        let mut cur = id;
        let ghost t = self.tree();
        loop
            invariant
                total_order::<K>(),
                t == self.tree(),
                t.shape(),
                t.full_but(None),
                t.live(cur),
                t.covers(id, *key) ==> t.covers(cur, *key),
                forall|k: K| t.covers(cur, k) ==> #[trigger] t.covers(id, k),
            decreases t.height[cur],
        {
            proof {
                self.lemma_node(cur);
                assert(t.node_ok(cur));
            }
            match self.node(cur).get(key) {
                Ok(value_opt) => {
                    proof {
                        match index_of(t.items(cur), *key) {
                            Some(i) => {
                                t.lemma_view_at(ItemAddr { id: cur, offset: Offset(i as usize) });
                                assert(t.covers(cur, *key));
                                assert(t.covers(id, *key));
                            },
                            None => {
                                if t.covers(id, *key) {
                                    t.lemma_miss(cur, *key);
                                }
                            },
                        }
                    }
                    return value_opt;
                },
                Err(child_id) => {
                    proof {
                        let g = gap_of(t.items(cur), *key);
                        assert(t.child_ok(cur, g));
                        if t.covers(cur, *key) {
                            t.lemma_descend(cur, *key, g);
                        }
                        assert forall|k: K| t.covers(child_id, k) implies #[trigger] t.covers(id, k) by {
                            t.lemma_child_covers(cur, g, k);
                        }
                    }
                    cur = child_id;
                },
            }
        }
    }

    /// Returns `true` if the map contains a value for the specified key.
    pub fn contains_key(&self, key: &K) -> (r: bool)
        requires
            total_order::<K>(),
            self.wf(),
        ensures
            r == self@.dom().contains(*key),
    {
        self.get(key).is_some()
    }

    /// Returns the key-value pair corresponding to the supplied key.
    pub fn get_key_value(&self, k: &K) -> (r: Option<(&K, &V)>)
        requires
            total_order::<K>(),
            self.wf(),
        ensures
            r == (if self@.dom().contains(*k) {
                Some((k, &self@[*k]))
            } else {
                None
            }),
    {
        match self.address_of(k) {
            Ok(addr) => {
                proof {
                    self.tree().lemma_view_at(addr);
                }
                let item = self.item(addr).unwrap();
                Some(item.as_pair())
            },
            Err(_) => None,
        }
    }

    /// Get a reference to the item located at the given address.
    pub fn item(&self, addr: ItemAddr) -> (r: Option<&Item<K, V>>)
        requires
            self.tree().live(addr.id),
        ensures
            r == (if self.tree().occupied(addr) {
                Some(&self.tree().item_at(addr))
            } else {
                None
            }),
    {
        self.node(addr.id).item(addr.offset)
    }

    /// Get the address of the given key.
    ///
    /// Returns `Ok(addr)` if the key is used in the tree. If the key is not
    /// used in the tree then `Err(addr)` is returned, where `addr` can be
    /// used to insert the missing key.
    pub fn address_of(&self, key: &K) -> (r: Result<ItemAddr, ItemAddr>)
        requires
            total_order::<K>(),
            self.tree().shape(),
        ensures
            self.tree().is_address_of(*key, r),
            r is Ok <==> self@.dom().contains(*key),
    {
        match self.root {
            Some(id) => self.address_in(id, key),
            None => {
                proof {
                    let t = self.tree();
                    if t.has_key(*key) {
                        assert(t.holds(t.addr_of(*key), *key));
                    }
                }
                Err(ItemAddr::nowhere())
            },
        }
    }

    /// Search for the address of the given key from the given node `id`.
    ///
    /// The key is found if it stands in the node or below it. Where it is
    /// not found and belongs below the node, between the bounds of the
    /// node, the address returned is the place to insert it.
    ///
    /// Users should directly use [`BTreeMap::address_of`].
    pub fn address_in(&self, id: usize, key: &K) -> (r: Result<ItemAddr, ItemAddr>)
        requires
            total_order::<K>(),
            self.tree().shape(),
            self.tree().live(id),
        ensures
            self.tree().covers(id, *key) ==> self.tree().is_address_of(*key, r),
            r is Ok <==> self@.dom().contains(*key) && self.tree().covers(id, *key),
            r is Ok ==> self.tree().holds(r->Ok_0, *key),
    {
        let mut cur = id;
        let ghost t = self.tree();
        loop
            invariant
                total_order::<K>(),
                t == self.tree(),
                t.shape(),
                t.live(cur),
                t.covers(id, *key) ==> t.covers(cur, *key),
                forall|k: K| t.covers(cur, k) ==> #[trigger] t.covers(id, k),
            decreases t.height[cur],
        {
            proof {
                self.lemma_node(cur);
                assert(t.node_ok(cur));
            }
            match self.node(cur).offset_of(key) {
                Ok(offset) => {
                    proof {
                        t.lemma_view_at(ItemAddr { id: cur, offset });
                        assert(t.covers(cur, *key));
                        assert(t.covers(id, *key));
                    }
                    return Ok(ItemAddr { id: cur, offset });
                },
                Err((offset, None)) => {
                    proof {
                        if t.covers(id, *key) {
                            lemma_gap_of(t.items(cur), *key, offset as int);
                            t.lemma_miss(cur, *key);
                        }
                    }
                    return Err(ItemAddr::new(cur, Offset(offset)));
                },
                Err((offset, Some(child_id))) => {
                    proof {
                        assert(t.child_ok(cur, offset as int));
                        if t.covers(cur, *key) {
                            t.lemma_descend(cur, *key, offset as int);
                        }
                        assert forall|k: K| t.covers(child_id, k) implies #[trigger] t.covers(id, k) by {
                            t.lemma_child_covers(cur, offset as int, k);
                        }
                    }
                    cur = child_id;
                },
            }
        }
    }

    /// Get the node associated to the given `id` mutably.
    ///
    /// What is written to the node is at the caller's risk: nothing here
    /// keeps the tree in order.
    pub fn node_mut(&mut self, id: usize) -> (node: &mut Node<K, V>)
        requires
            old(self).tree().live(id),
        ensures
            *node == old(self).tree().node(id),
            final(self).tree() == old(self).tree().with_node(id, *final(node)),
            final(self).count() == old(self).count(),
    {
        self.nodes.get_mut(id).unwrap()
    }

    /// Release the given node identifier and return the node it used to
    /// identify.
    pub fn release_node(&mut self, id: usize) -> (node: Node<K, V>)
        requires
            old(self).tree().live(id),
        ensures
            node == old(self).tree().node(id),
            final(self).tree() == (Tree { nodes: old(self).tree().nodes.remove(id), ..old(self).tree() }),
            final(self).count() == old(self).count(),
    {
        self.nodes.remove(id)
    }

    /// Tells each of `children` that `parent` is its parent.
    fn adopt(&mut self, children: &Vec<usize>, parent: usize)
        requires
            forall|i: int| 0 <= i < children@.len() ==> old(self).tree().live(#[trigger] children@[i]),
        ensures
            final(self).tree().nodes.dom() == old(self).tree().nodes.dom(),
            final(self).tree().root == old(self).tree().root,
            final(self).tree().height == old(self).tree().height,
            final(self).tree().lower == old(self).tree().lower,
            final(self).tree().upper == old(self).tree().upper,
            final(self).count() == old(self).count(),
            forall|x: usize|
                old(self).tree().live(x) ==> #[trigger] kept(old(self).tree(), final(self).tree(), children@, parent, x),
    {
        let ghost t0 = self.tree();
        let mut i: usize = 0;
        while i < children.len()
            invariant
                i <= children@.len(),
                forall|i: int| 0 <= i < children@.len() ==> t0.live(#[trigger] children@[i]),
                self.tree().nodes.dom() == t0.nodes.dom(),
                self.tree().root == t0.root,
                self.tree().height == t0.height,
                self.tree().lower == t0.lower,
                self.tree().upper == t0.upper,
                self.count() == old(self).count(),
                forall|x: usize|
                    t0.live(x) ==> #[trigger] kept(t0, self.tree(), children@.subrange(0, i as int), parent, x),
            decreases children@.len() - i,
        {
            let ghost t = self.tree();
            let c = children[i];
            self.node_mut(c).set_parent(Some(parent));
            proof {
                let t1 = self.tree();
                assert(t1.nodes.dom() =~= t0.nodes.dom());
                let before = children@.subrange(0, i as int);
                let after = children@.subrange(0, i + 1);
                assert(after[i as int] == c);
                assert forall|x: usize| t0.live(x) implies #[trigger] kept(t0, t1, after, parent, x) by {
                    assert(kept(t0, t, before, parent, x));
                    if x == c {
                        assert(after.contains(x));
                    } else {
                        assert(t1.node(x) == t.node(x));
                        if before.contains(x) {
                            let j = choose|j: int| 0 <= j < before.len() && before[j] == x;
                            assert(after[j] == x);
                            assert(after.contains(x));
                        }
                        if after.contains(x) {
                            let j = choose|j: int| 0 <= j < after.len() && after[j] == x;
                            assert(before[j] == x);
                            assert(before.contains(x));
                        }
                    }
                }
            }
            i += 1;
        }
        proof {
            assert(children@.subrange(0, i as int) =~= children@);
        }
    }

    /// Allocate a free identifier for the given node, and tell the children
    /// of the node that it is their parent.
    pub fn allocate_node(&mut self, node: Node<K, V>) -> (id: usize)
        requires
            forall|i: int|
                0 <= i < node.children_spec().len() ==> old(self).tree().live(#[trigger] node.children_spec()[i]),
        ensures
            id < usize::MAX,
            !old(self).tree().live(id),
            final(self).tree().nodes.dom() == old(self).tree().nodes.dom().insert(id),
            final(self).tree().node(id) == node,
            final(self).tree().root == old(self).tree().root,
            final(self).tree().height == old(self).tree().height,
            final(self).tree().lower == old(self).tree().lower,
            final(self).tree().upper == old(self).tree().upper,
            final(self).count() == old(self).count(),
            forall|x: usize|
                old(self).tree().live(x) ==> #[trigger] kept(
                    old(self).tree(),
                    final(self).tree(),
                    node.children_spec(),
                    id,
                    x,
                ),
    {
        let ghost t0 = self.tree();
        let id = self.nodes.insert(node);
        let ghost t = self.tree();
        let children = self.node(id).child_ids();
        self.adopt(&children, id);
        proof {
            let t1 = self.tree();
            assert(kept(t, t1, children@, id, id));
            assert(!children@.contains(id));
            assert forall|x: usize| t0.live(x) implies #[trigger] kept(t0, t1, node.children_spec(), id, x) by {
                assert(kept(t, t1, children@, id, x));
            }
        }
        id
    }

    /// Splits the overflowing node `id`, whose parent is `parent_id`, and
    /// puts its median item into the parent.
    fn split_into_parent(&mut self, id: usize, parent_id: usize, addr: &mut ItemAddr)
        requires
            total_order::<K>(),
            old(self).tree().shape(),
            old(self).tree().balanced_but(Some(id)),
            old(self).tree().live(id),
            old(self).tree().node(id).spec_is_overflowing(),
            old(self).tree().node(id).parent_spec() == Some(parent_id),
            old(self).tree().back(*old(addr)),
        ensures
            final(self).tree().shape(),
            final(self).tree().balanced_but(Some(parent_id)),
            final(self).tree().live(parent_id),
            final(self).tree().root == old(self).tree().root,
            final(self).tree().height[parent_id] == old(self).tree().height[id] + 1,
            final(self).tree().height[final(self).tree().root->0] == old(self).tree().height[old(self).tree().root->0],
            old(self).tree().same_items(final(self).tree()),
            final(self).count() == old(self).count(),
            final(self).tree().back(*final(addr)),
            upcoming(final(self).tree(), *final(addr)) == upcoming(old(self).tree(), *old(addr)),
            old(self).tree().occupied(*old(addr)) ==> final(self).tree().item_is(
                *final(addr),
                old(self).tree().item_at(*old(addr)),
            ),
            exists|j: int, r: usize| #[trigger]
                split_step(old(self).tree(), final(self).tree(), id, parent_id, j, r) && *final(addr) == split_move(
                    *old(addr),
                    id,
                    (old(self).tree().items(id).len() - 1) / 2,
                    parent_id,
                    j,
                    r,
                ),
    {
        let ghost t0 = self.tree();
        let ghost a0 = *addr;
        proof {
            self.lemma_node(id);
            assert(t0.parent_ok(id));
            t0.lemma_height(id);
            self.lemma_node(parent_id);
            assert(t0.fit(Some(id), id));
            assert(t0.fit(Some(id), parent_id));
            let j0 = choose|j0: int| #[trigger] t0.is_child(parent_id, j0, id);
            assert(t0.child_ok(parent_id, j0));
            t0.lemma_height(parent_id);
        }
        let (median_offset, median, right_node) = self.node_mut(id).split();
        proof {
            assert forall|i: int| 0 <= i < right_node.children_spec().len() implies self.tree().live(
                #[trigger] right_node.children_spec()[i],
            ) by {
                assert(t0.child_ok(id, i + median_offset + 1));
            }
        }
        let ghost ta = self.tree();
        let right_id = self.allocate_node(right_node);
        let ghost tb = self.tree();
        let ghost m = median_offset as int;
        proof {
            assert(kept(ta, tb, right_node.children_spec(), right_id, id));
            assert(kept(ta, tb, right_node.children_spec(), right_id, parent_id));
            assert(!right_node.children_spec().contains(id) && !right_node.children_spec().contains(parent_id)) by {
                if right_node.children_spec().contains(id) {
                    let i = choose|i: int| 0 <= i < right_node.children_spec().len() && right_node.children_spec()[i] == id;
                    assert(t0.child_ok(id, i + m + 1));
                }
                if right_node.children_spec().contains(parent_id) {
                    let i = choose|i: int|
                        0 <= i < right_node.children_spec().len() && right_node.children_spec()[i] == parent_id;
                    assert(t0.child_ok(id, i + m + 1));
                }
            }
            assert(tb.node(parent_id) == t0.node(parent_id));
            let j0 = choose|j0: int| #[trigger] t0.is_child(parent_id, j0, id);
            assert(t0.kids(parent_id)[j0] == id);
        }
        let parent = self.node_mut(parent_id);
        let index = parent.child_index(id).unwrap();
        let offset = Offset(index);
        parent.insert(offset, median, Some(right_id));
        let ghost j = index as int;
        proof {
            let h = t0.height.insert(right_id, t0.height[id]);
            let lo = t0.lower.insert(right_id, Some(median.key_spec()));
            let hi = t0.upper.insert(id, Some(median.key_spec())).insert(right_id, t0.upper[id]);
            self.book = Ghost(Bookkeeping { height: h, lower: lo, upper: hi });
        }
        proof {
            let t1 = self.tree();
            assert(t1.nodes.dom() =~= t0.nodes.dom().insert(right_id));
            assert(t0.is_child(parent_id, j, id));
            assert forall|x: usize| t0.live(x) && x != id && x != parent_id implies #[trigger] kept(
                t0,
                t1,
                t1.kids(right_id),
                right_id,
                x,
            ) by {
                assert(kept(ta, tb, right_node.children_spec(), right_id, x));
            }
            assert(split_step(t0, t1, id, parent_id, j, right_id));
            lemma_split(t0, t1, id, parent_id, j, right_id);
        }
        // new address.
        if addr.id == id {
            if addr.offset.is(median_offset) {
                *addr = ItemAddr { id: parent_id, offset };
            } else if addr.offset.is_above(median_offset) {
                *addr = ItemAddr { id: right_id, offset: Offset(addr.offset.unwrap() - median_offset - 1) };
            }
        } else if addr.id == parent_id {
            if !addr.offset.is_below(index) {
                addr.offset.incr();
            }
        }
        proof {
            let t1 = self.tree();
            assert(*addr == split_move(a0, id, m, parent_id, j, right_id));
            lemma_split_place(t0, t1, id, parent_id, j, right_id, a0);
        }
    }

    /// Splits the overflowing root `id` and puts its median item into a new
    /// root.
    fn split_root(&mut self, id: usize, addr: &mut ItemAddr)
        requires
            total_order::<K>(),
            old(self).tree().shape(),
            old(self).tree().balanced_but(Some(id)),
            old(self).tree().root == Some(id),
            old(self).tree().node(id).spec_is_overflowing(),
            old(self).tree().back(*old(addr)),
        ensures
            final(self).tree().btree(),
            old(self).tree().same_items(final(self).tree()),
            final(self).count() == old(self).count(),
            final(self).tree().back(*final(addr)),
            upcoming(final(self).tree(), *final(addr)) == upcoming(old(self).tree(), *old(addr)),
            old(self).tree().occupied(*old(addr)) ==> final(self).tree().item_is(
                *final(addr),
                old(self).tree().item_at(*old(addr)),
            ),
            exists|r: usize, q: usize| #[trigger]
                grow_step(old(self).tree(), final(self).tree(), id, r, q) && *final(addr) == grow_move(
                    *old(addr),
                    id,
                    (old(self).tree().items(id).len() - 1) / 2,
                    r,
                    q,
                ),
    {
        let ghost t0 = self.tree();
        let ghost a0 = *addr;
        proof {
            self.lemma_node(id);
            assert(t0.parent_ok(id));
            assert(t0.fit(Some(id), id));
        }
        let (median_offset, median, right_node) = self.node_mut(id).split();
        let ghost m = median_offset as int;
        proof {
            assert forall|i: int| 0 <= i < right_node.children_spec().len() implies self.tree().live(
                #[trigger] right_node.children_spec()[i],
            ) by {
                assert(t0.child_ok(id, i + median_offset + 1));
            }
        }
        let ghost ta = self.tree();
        let right_id = self.allocate_node(right_node);
        let ghost tb = self.tree();
        let left_id = id;
        let new_root = Node::binary(None, left_id, median, right_id);
        let root_id = self.allocate_node(new_root);
        let ghost tc = self.tree();
        self.root = Some(root_id);
        self.node_mut(left_id).set_parent(Some(root_id));
        self.node_mut(right_id).set_parent(Some(root_id));
        proof {
            let h = t0.height.insert(right_id, t0.height[id]).insert(root_id, t0.height[id] + 1);
            let lo = t0.lower.insert(right_id, Some(median.key_spec())).insert(root_id, None);
            let hi = t0.upper.insert(id, Some(median.key_spec())).insert(right_id, None).insert(root_id, None);
            self.book = Ghost(Bookkeeping { height: h, lower: lo, upper: hi });
        }
        proof {
            let t1 = self.tree();
            assert(t1.nodes.dom() =~= t0.nodes.dom().insert(right_id).insert(root_id));
            assert(kept(ta, tb, right_node.children_spec(), right_id, id));
            assert(!right_node.children_spec().contains(id)) by {
                if right_node.children_spec().contains(id) {
                    let i = choose|i: int| 0 <= i < right_node.children_spec().len() && right_node.children_spec()[i] == id;
                    assert(t0.child_ok(id, i + m + 1));
                }
            }
            assert(kept(tb, tc, new_root.children_spec(), root_id, id));
            assert(kept(tb, tc, new_root.children_spec(), root_id, right_id));
            assert(new_root.children_spec()[0] == id && new_root.children_spec()[1] == right_id);
            assert forall|x: usize| t0.live(x) && x != id implies #[trigger] kept(
                t0,
                t1,
                t1.kids(right_id),
                right_id,
                x,
            ) by {
                assert(kept(ta, tb, right_node.children_spec(), right_id, x));
                assert(kept(tb, tc, new_root.children_spec(), root_id, x));
                assert(!new_root.children_spec().contains(x)) by {
                    if new_root.children_spec().contains(x) {
                        let i = choose|i: int| 0 <= i < new_root.children_spec().len() && new_root.children_spec()[i] == x;
                    }
                }
            }
            assert(grow_step(t0, t1, id, right_id, root_id));
            lemma_grow(t0, t1, id, right_id, root_id);
        }
        // new address.
        if addr.id == id {
            if addr.offset.is(median_offset) {
                *addr = ItemAddr { id: root_id, offset: Offset(0) };
            } else if addr.offset.is_above(median_offset) {
                *addr = ItemAddr { id: right_id, offset: Offset(addr.offset.unwrap() - median_offset - 1) };
            }
        }
        proof {
            let t1 = self.tree();
            assert(*addr == grow_move(a0, id, m, right_id, root_id));
            lemma_grow_place(t0, t1, id, right_id, root_id, a0);
        }
    }

    /// Try to rotate left the node `id` to benefit the child number
    /// `deficient_child_index`: the right sibling of that child gives its
    /// first item to `id`, which gives an item to the child.
    ///
    /// Returns true if the rotation succeeded, or false if the child has no
    /// right sibling or if that sibling would underflow; nothing has changed
    /// then.
    fn try_rotate_left(&mut self, id: usize, deficient_child_index: usize, addr: &mut ItemAddr) -> (r: bool)
        requires
            total_order::<K>(),
            old(self).tree().shape(),
            old(self).tree().live(id),
            deficient_child_index < old(self).tree().kids(id).len(),
            old(self).tree().balanced_but(Some(old(self).tree().kids(id)[deficient_child_index as int])),
            old(self).tree().node(old(self).tree().kids(id)[deficient_child_index as int]).spec_is_underflowing(),
            old(self).tree().back(*old(addr)),
        ensures
            final(self).count() == old(self).count(),
            r <==> deficient_child_index + 1 < old(self).tree().kids(id).len() && old(self).tree().node(
                old(self).tree().kids(id)[deficient_child_index + 1],
            ).can_pop(),
            !r ==> final(self).tree() == old(self).tree() && *final(addr) == *old(addr),
            r ==> {
                &&& final(self).tree().btree()
                &&& old(self).tree().same_items(final(self).tree())
                &&& final(self).tree().back(*final(addr))
                &&& upcoming(final(self).tree(), *final(addr)) == upcoming(old(self).tree(), *old(addr))
                &&& old(self).tree().occupied(*old(addr)) ==> final(self).tree().item_is(
                    *final(addr),
                    old(self).tree().item_at(*old(addr)),
                )
            },
            r ==> rotate_left_step(old(self).tree(), final(self).tree(), id, deficient_child_index as int),
            r ==> *final(addr) == rotate_left_move(old(self).tree(), *old(addr), id, deficient_child_index as int),
    {
        let ghost t0 = self.tree();
        let ghost a0 = *addr;
        let ghost i = deficient_child_index as int;
        proof {
            self.lemma_node(id);
        }
        let pivot_offset = Offset(deficient_child_index);
        let right_sibling_index = deficient_child_index + 1;
        let node = self.node(id);
        if right_sibling_index >= node.child_count() {
            return false;  // no right sibling
        }
        let right_sibling_id = node.child_id(right_sibling_index);
        let deficient_child_id = node.child_id(deficient_child_index);
        proof {
            lemma_siblings(t0, id, i);
        }
        match self.node_mut(right_sibling_id).pop_left() {
            Ok((value, opt_child_id)) => {
                let ghost ta = self.tree();
                let value = self.node_mut(id).replace(pivot_offset, value);
                let left_offset = self.node_mut(deficient_child_id).push_right(value, opt_child_id);
                // update opt_child's parent
                if let Some(child_id) = opt_child_id {
                    proof {
                        assert(t0.child_ok(right_sibling_id, 0));
                    }
                    self.node_mut(child_id).set_parent(Some(deficient_child_id))
                }
                proof {
                    let up = t0.items(right_sibling_id)[0];
                    let lo = t0.lower.insert(right_sibling_id, Some(up.key_spec()));
                    let hi = t0.upper.insert(deficient_child_id, Some(up.key_spec()));
                    self.book = Ghost(Bookkeeping { height: t0.height, lower: lo, upper: hi });
                }
                proof {
                    let t1 = self.tree();
                    let moved = rotate_left_moved(t0, id, i);
                    assert(t1.nodes.dom() =~= t0.nodes.dom());
                    assert(t0.parent_ok(right_sibling_id));
                    assert(t0.parent_ok(deficient_child_id));
                    if !t0.node(deficient_child_id).is_leaf() {
                        assert(t0.child_ok(right_sibling_id, 0));
                        assert(moved[0] == t0.kids(right_sibling_id)[0]);
                    }
                    assert forall|x: usize|
                        t0.live(x) && x != right_sibling_id && x != id && x != deficient_child_id implies #[trigger] kept(
                        t0,
                        t1,
                        moved,
                        deficient_child_id,
                        x,
                    ) by {
                        if moved.contains(x) {
                            let j = choose|j: int| 0 <= j < moved.len() && moved[j] == x;
                            assert(x == t0.kids(right_sibling_id)[0]);
                        }
                    }
                    assert(rotate_left_step(t0, t1, id, i));
                    lemma_rotate_left(t0, t1, id, i);
                }
                // update address.
                if addr.id == right_sibling_id {
                    // addressed item is in the right node.
                    if addr.offset.is(0) {
                        // addressed item is moving to pivot.
                        addr.id = id;
                        addr.offset = pivot_offset;
                    } else {
                        // addressed item stays on right.
                        addr.offset.decr();
                    }
                } else if addr.id == id {
                    // addressed item is in the parent node.
                    if addr.offset.is(deficient_child_index) {
                        // addressed item is the pivot, moving to the left (deficient) node.
                        addr.id = deficient_child_id;
                        addr.offset = left_offset;
                    }
                }
                proof {
                    let t1 = self.tree();
                    assert(*addr == rotate_left_move(t0, a0, id, i));
                    lemma_rotate_left_place(t0, t1, id, i, a0);
                }
                true  // rotation succeeded
            },
            Err(WouldUnderflow) => {
                proof {
                    assert(self.tree().nodes =~= t0.nodes);
                }
                false  // the right sibling would underflow.
            },
        }
    }

    /// Try to rotate right the node `id` to benefit the child number
    /// `deficient_child_index`: the left sibling of that child gives its
    /// last item to `id`, which gives an item to the child.
    ///
    /// Returns true if the rotation succeeded, or false if the child has no
    /// left sibling or if that sibling would underflow; nothing has changed
    /// then.
    fn try_rotate_right(&mut self, id: usize, deficient_child_index: usize, addr: &mut ItemAddr) -> (r: bool)
        requires
            total_order::<K>(),
            old(self).tree().shape(),
            old(self).tree().live(id),
            deficient_child_index < old(self).tree().kids(id).len(),
            old(self).tree().balanced_but(Some(old(self).tree().kids(id)[deficient_child_index as int])),
            old(self).tree().node(old(self).tree().kids(id)[deficient_child_index as int]).spec_is_underflowing(),
            old(self).tree().back(*old(addr)),
        ensures
            final(self).count() == old(self).count(),
            r <==> deficient_child_index > 0 && old(self).tree().node(
                old(self).tree().kids(id)[deficient_child_index - 1],
            ).can_pop(),
            !r ==> final(self).tree() == old(self).tree() && *final(addr) == *old(addr),
            r ==> {
                &&& final(self).tree().btree()
                &&& old(self).tree().same_items(final(self).tree())
                &&& final(self).tree().back(*final(addr))
                &&& upcoming(final(self).tree(), *final(addr)) == upcoming(old(self).tree(), *old(addr))
                &&& old(self).tree().occupied(*old(addr)) ==> final(self).tree().item_is(
                    *final(addr),
                    old(self).tree().item_at(*old(addr)),
                )
            },
            r ==> rotate_right_step(old(self).tree(), final(self).tree(), id, deficient_child_index - 1),
            r ==> *final(addr) == rotate_right_move(old(self).tree(), *old(addr), id, deficient_child_index - 1),
    {
        let ghost t0 = self.tree();
        let ghost a0 = *addr;
        proof {
            self.lemma_node(id);
        }
        if deficient_child_index > 0 {
            let left_sibling_index = deficient_child_index - 1;
            let ghost l = left_sibling_index as int;
            let pivot_offset = Offset(left_sibling_index);
            let node = self.node(id);
            let left_sibling_id = node.child_id(left_sibling_index);
            let deficient_child_id = node.child_id(deficient_child_index);
            proof {
                lemma_siblings(t0, id, l);
            }
            match self.node_mut(left_sibling_id).pop_right() {
                Ok((left_offset, value, opt_child_id)) => {
                    let value = self.node_mut(id).replace(pivot_offset, value);
                    self.node_mut(deficient_child_id).push_left(value, opt_child_id);
                    // update opt_child's parent
                    if let Some(child_id) = opt_child_id {
                        proof {
                            assert(t0.child_ok(left_sibling_id, t0.kids(left_sibling_id).len() - 1));
                        }
                        self.node_mut(child_id).set_parent(Some(deficient_child_id))
                    }
                    proof {
                        let up = t0.items(left_sibling_id).last();
                        let lo = t0.lower.insert(deficient_child_id, Some(up.key_spec()));
                        let hi = t0.upper.insert(left_sibling_id, Some(up.key_spec()));
                        self.book = Ghost(Bookkeeping { height: t0.height, lower: lo, upper: hi });
                    }
                    proof {
                        let t1 = self.tree();
                        let moved = rotate_right_moved(t0, id, l);
                        assert(t1.nodes.dom() =~= t0.nodes.dom());
                        assert(t0.parent_ok(left_sibling_id));
                        assert(t0.parent_ok(deficient_child_id));
                        if !t0.node(deficient_child_id).is_leaf() {
                            assert(t0.child_ok(left_sibling_id, t0.kids(left_sibling_id).len() - 1));
                            assert(moved[0] == t0.kids(left_sibling_id).last());
                        }
                        assert forall|x: usize|
                            t0.live(x) && x != left_sibling_id && x != id && x != deficient_child_id implies #[trigger] kept(
                            t0,
                            t1,
                            moved,
                            deficient_child_id,
                            x,
                        ) by {
                            if moved.contains(x) {
                                let j = choose|j: int| 0 <= j < moved.len() && moved[j] == x;
                                assert(x == t0.kids(left_sibling_id).last());
                            }
                        }
                        assert(rotate_right_step(t0, t1, id, l));
                        lemma_rotate_right(t0, t1, id, l);
                    }
                    // update address.
                    if addr.id == deficient_child_id {
                        // addressed item is in the right (deficient) node.
                        addr.offset.incr();
                    } else if addr.id == left_sibling_id {
                        // addressed item is in the left node.
                        if addr.offset.0 == left_offset.0 {
                            // addressed item is moving to pivot.
                            addr.id = id;
                            addr.offset = pivot_offset;
                        } else if addr.offset.is_above(left_offset.0) {
                            // the place past the moved item is now the front of the deficient node.
                            addr.id = deficient_child_id;
                            addr.offset = Offset(0);
                        }
                    } else if addr.id == id {
                        // addressed item is in the parent node.
                        if addr.offset.is(left_sibling_index) {
                            // addressed item is the pivot, moving to the right (deficient) node.
                            addr.id = deficient_child_id;
                            addr.offset = Offset(0);
                        }
                    }
                    proof {
                        let t1 = self.tree();
                        assert(*addr == rotate_right_move(t0, a0, id, l));
                        lemma_rotate_right_place(t0, t1, id, l, a0);
                    }
                    true  // rotation succeeded
                },
                Err(WouldUnderflow) => {
                    proof {
                        assert(self.tree().nodes =~= t0.nodes);
                    }
                    false  // the left sibling would underflow.
                },
            }
        } else {
            false  // no left sibling.
        }
    }

    /// Merge the child `deficient_child_index` of the node `id` with one of
    /// its direct siblings: the left one if it has one, else the right one.
    ///
    /// Returns the balance of the node `id` after the merge, and the new
    /// address.
    fn merge(&mut self, id: usize, deficient_child_index: usize, addr: ItemAddr) -> (r: (Balance, ItemAddr))
        requires
            total_order::<K>(),
            old(self).tree().shape(),
            old(self).tree().live(id),
            deficient_child_index < old(self).tree().kids(id).len(),
            old(self).tree().balanced_but(Some(old(self).tree().kids(id)[deficient_child_index as int])),
            old(self).tree().node(old(self).tree().kids(id)[deficient_child_index as int]).spec_is_underflowing(),
            deficient_child_index + 1 < old(self).tree().kids(id).len() ==> !old(self).tree().node(
                old(self).tree().kids(id)[deficient_child_index + 1],
            ).can_pop(),
            deficient_child_index > 0 ==> !old(self).tree().node(
                old(self).tree().kids(id)[deficient_child_index - 1],
            ).can_pop(),
            old(self).tree().back(addr),
        ensures
            final(self).tree().shape(),
            final(self).tree().balanced_but(Some(id)),
            final(self).tree().live(id),
            final(self).tree().root == old(self).tree().root,
            final(self).tree().height == old(self).tree().height,
            r.0 == final(self).tree().node(id).spec_balance(),
            old(self).tree().same_items(final(self).tree()),
            final(self).count() == old(self).count(),
            final(self).tree().back(r.1),
            upcoming(final(self).tree(), r.1) == upcoming(old(self).tree(), addr),
            old(self).tree().occupied(addr) ==> final(self).tree().item_is(r.1, old(self).tree().item_at(addr)),
            merge_step(
                old(self).tree(),
                final(self).tree(),
                id,
                if deficient_child_index > 0 {
                    deficient_child_index - 1
                } else {
                    0
                },
            ),
            r.1 == merge_move(
                old(self).tree(),
                addr,
                id,
                if deficient_child_index > 0 {
                    deficient_child_index - 1
                } else {
                    0
                },
            ),
    {
        let ghost t0 = self.tree();
        let ghost d = t0.kids(id)[deficient_child_index as int];
        let mut addr = addr;
        let ghost a0 = addr;
        proof {
            self.lemma_node(id);
            assert(t0.child_ok(id, deficient_child_index as int));
            assert(t0.node_ok(d));
            assert(t0.parent_ok(d));
            assert(t0.fit(Some(d), d));
            assert(t0.fit(Some(d), id));
        }
        let ghost l: int = if deficient_child_index > 0 {
            deficient_child_index - 1
        } else {
            0
        };
        proof {
            lemma_siblings(t0, id, l);
            assert(t0.fit(Some(d), t0.kids(id)[l]));
            assert(t0.fit(Some(d), t0.kids(id)[l + 1]));
            assert(t0.parent_ok(t0.kids(id)[l]));
            assert(t0.parent_ok(t0.kids(id)[l + 1]));
        }
        let (offset, left_id, right_id, separator, balance) = if deficient_child_index > 0 {
            // merge with left sibling
            self.node_mut(id).merge(deficient_child_index - 1, deficient_child_index)
        } else {
            // merge with right sibling
            self.node_mut(id).merge(deficient_child_index, deficient_child_index + 1)
        };
        // update children's parent.
        let right_node = self.release_node(right_id);
        let ghost ta = self.tree();
        let children = right_node.child_ids();
        proof {
            assert forall|i: int| 0 <= i < children@.len() implies ta.live(#[trigger] children@[i]) by {
                assert(t0.child_ok(right_id, i));
            }
        }
        self.adopt(&children, left_id);
        let ghost tb = self.tree();
        proof {
            assert(kept(ta, tb, children@, left_id, left_id));
            assert(kept(ta, tb, children@, left_id, id));
            assert(!children@.contains(left_id) && !children@.contains(id)) by {
                if children@.contains(left_id) {
                    let j = choose|j: int| 0 <= j < children@.len() && children@[j] == left_id;
                    assert(t0.child_ok(right_id, j));
                }
                if children@.contains(id) {
                    let j = choose|j: int| 0 <= j < children@.len() && children@[j] == id;
                    assert(t0.child_ok(right_id, j));
                }
            }
        }
        // actually merge.
        let left_offset = self.node_mut(left_id).append(separator, right_node);
        proof {
            let hi = t0.upper.insert(left_id, t0.upper[right_id]);
            self.book = Ghost(Bookkeeping { height: t0.height, lower: t0.lower, upper: hi });
        }
        proof {
            let t1 = self.tree();
            assert(t1.nodes.dom() =~= t0.nodes.dom().remove(right_id));
            assert forall|x: usize| t0.live(x) && x != left_id && x != id && x != right_id implies #[trigger] kept(
                t0,
                t1,
                t0.kids(right_id),
                left_id,
                x,
            ) by {
                assert(kept(ta, tb, children@, left_id, x));
            }
            assert(merge_step(t0, t1, id, l));
            lemma_merge(t0, t1, id, l, d);
        }
        // update addr.
        if addr.id == id {
            if addr.offset.is(offset) {
                addr.id = left_id;
                addr.offset = left_offset
            } else if addr.offset.is_above(offset) {
                addr.offset.decr()
            }
        } else if addr.id == right_id {
            addr.id = left_id;
            addr.offset = Offset(addr.offset.unwrap() + left_offset.unwrap() + 1);
        }
        proof {
            let t1 = self.tree();
            assert(addr == merge_move(t0, a0, id, l));
            lemma_merge_place(t0, t1, id, l, a0);
        }
        (balance, addr)
    }

    /// Takes away the root `id`, which holds no item: its one child, if it
    /// has one, becomes the root.
    fn remove_empty_root(&mut self, id: usize, addr: &mut ItemAddr)
        requires
            total_order::<K>(),
            old(self).tree().shape(),
            old(self).tree().balanced_but(Some(id)),
            old(self).tree().root == Some(id),
            old(self).tree().items(id).len() == 0,
            old(self).tree().back(*old(addr)),
        ensures
            final(self).tree().btree(),
            old(self).tree().same_items(final(self).tree()),
            final(self).count() == old(self).count(),
            if final(self).tree().root is None {
                final(addr).id == usize::MAX && final(addr).offset@ == 0 && upcoming(old(self).tree(), *old(addr)) is None
            } else {
                final(self).tree().back(*final(addr)) && upcoming(final(self).tree(), *final(addr)) == upcoming(
                    old(self).tree(),
                    *old(addr),
                )
            },
            old(self).tree().occupied(*old(addr)) ==> final(self).tree().item_is(
                *final(addr),
                old(self).tree().item_at(*old(addr)),
            ),
            collapse_step(old(self).tree(), final(self).tree(), id),
            final(self).tree().root is Some ==> *final(addr) == collapse_move(old(self).tree(), *old(addr), id),
    {
        let ghost t0 = self.tree();
        let ghost a0 = *addr;
        proof {
            self.lemma_node(id);
            if !t0.node(id).is_leaf() {
                assert(t0.child_ok(id, 0));
            }
        }
        self.root = self.node(id).child_id_opt(0);
        // update root's parent and addr.
        match self.root {
            Some(root_id) => {
                let root = self.node_mut(root_id);
                root.set_parent(None);
                if addr.id == id {
                    addr.id = root_id;
                    addr.offset = Offset(root.item_count());
                }
            },
            None => {
                *addr = ItemAddr::nowhere();
            },
        }
        self.release_node(id);
        proof {
            let t1 = self.tree();
            assert(t1.nodes.dom() =~= t0.nodes.dom().remove(id));
            if t0.node(id).is_leaf() {
                assert forall|x: usize| t0.live(x) && x != id implies #[trigger] untouched(t0, t1, x) by {}
            } else {
                let c = t0.kids(id)[0];
                assert forall|x: usize| t0.live(x) && x != id && x != c implies #[trigger] untouched(t0, t1, x) by {}
            }
            assert(collapse_step(t0, t1, id));
            lemma_collapse(t0, t1, id);
            lemma_collapse_place(t0, t1, id, a0);
            if t1.root is Some {
                let c = t0.kids(id)[0];
                assert(t1.node_ok(c));
                t1.node(c).lemma_len();
                assert(*addr == collapse_move(t0, a0, id));
            }
        }
    }

    /// Rebalance a node, if necessary.
    ///
    /// The node `node_id` may hold one item more or less than it should:
    /// it is split, or it gets an item from a sibling, or it is merged with
    /// a sibling, and so on upwards for as long as a node is out of
    /// balance. `addr` follows the item that it names, and the returned
    /// address names that item in the rebalanced tree. Which steps are
    /// taken, and what each does to the tree and to the address, is what
    /// [`rebalanced`] states.
    pub fn rebalance(&mut self, node_id: usize, addr: ItemAddr) -> (r: ItemAddr)
        requires
            total_order::<K>(),
            old(self).tree().shape(),
            old(self).tree().balanced_but(Some(node_id)),
            old(self).tree().live(node_id),
            old(self).tree().back(addr),
        ensures
            final(self).tree().btree(),
            old(self).tree().same_items(final(self).tree()),
            final(self)@ == old(self)@,
            old(self).tree().full_but(None) ==> final(self).tree().full_but(None),
            final(self).count() == old(self).count(),
            if final(self).tree().root is None {
                r.id == usize::MAX && r.offset@ == 0 && upcoming(old(self).tree(), addr) is None
            } else {
                final(self).tree().back(r) && upcoming(final(self).tree(), r) == upcoming(old(self).tree(), addr)
            },
            old(self).tree().occupied(addr) ==> final(self).tree().item_is(r, old(self).tree().item_at(addr)),
            exists|n: nat| rebalanced(old(self).tree(), addr, node_id, final(self).tree(), r, n),
    {
        let ghost t0 = self.tree();
        let ghost a0 = addr;
        let mut id = node_id;
        let mut addr = addr;
        let mut balance = self.node(id).balance();
        let mut done = false;
        let ghost mut steps: nat = 0;
        proof {
            t0.lemma_items_refl();
            if t0.occupied(a0) {
                assert(t0.item_is(a0, t0.item_at(a0)));
            }
        }
        while !done
            invariant
                total_order::<K>(),
                self.tree().shape(),
                t0.same_items(self.tree()),
                self.count() == old(self).count(),
                t0.occupied(a0) ==> self.tree().item_is(addr, t0.item_at(a0)),
                done ==> self.tree().balanced_but(None),
                done ==> if self.tree().root is None {
                    addr.id == usize::MAX && addr.offset@ == 0 && upcoming(t0, a0) is None
                } else {
                    self.tree().back(addr) && upcoming(self.tree(), addr) == upcoming(t0, a0)
                },
                done ==> rebalanced(t0, a0, node_id, self.tree(), addr, steps),
                !done ==> forall|tf: Tree<K, V>, af: ItemAddr, n: nat| #[trigger]
                    rebalanced(self.tree(), addr, id, tf, af, n) ==> rebalanced(t0, a0, node_id, tf, af, n + steps),
                !done ==> {
                    &&& self.tree().balanced_but(Some(id))
                    &&& self.tree().live(id)
                    &&& self.tree().back(addr)
                    &&& upcoming(self.tree(), addr) == upcoming(t0, a0)
                    &&& balance == self.tree().node(id).spec_balance()
                },
            decreases
                    (if done {
                        0int
                    } else {
                        self.tree().height[self.tree().root->0] - self.tree().height[id] + 1
                    }),
        {
            let ghost t = self.tree();
            let ghost addr_in = addr;
            let ghost id_in = id;
            proof {
                self.lemma_node(id);
                t.lemma_height(id);
                assert(t.fit(Some(id), id));
                assert(t.parent_ok(id));
            }
            match balance {
                Balance::Balanced => {
                    proof {
                        assert forall|x: usize| t.live(x) implies #[trigger] t.fit(None, x) by {
                            assert(t.fit(Some(id), x));
                        }
                    }
                    done = true;
                },
                Balance::Overflow => {
                    match self.node(id).parent() {
                        Some(parent_id) => {
                            self.split_into_parent(id, parent_id, &mut addr);
                            id = parent_id;
                            balance = self.node(parent_id).balance();
                        },
                        None => {
                            self.split_root(id, &mut addr);
                            done = true;
                        },
                    }
                },
                Balance::Underflow(is_empty) => {
                    match self.node(id).parent() {
                        Some(parent_id) => {
                            proof {
                                self.lemma_node(parent_id);
                                let j0 = choose|j0: int| #[trigger] t.is_child(parent_id, j0, id);
                                assert(t.kids(parent_id)[j0] == id);
                                assert(t.child_ok(parent_id, j0));
                                t.lemma_height(parent_id);
                            }
                            let index = self.node(parent_id).child_index(id).unwrap();
                            proof {
                                assert(t.is_child(parent_id, index as int, id));
                            }
                            // An underflow append in the child node.
                            // First we try to rebalance the tree by rotation.
                            if self.try_rotate_left(parent_id, index, &mut addr) {
                                done = true;
                            } else if self.try_rotate_right(parent_id, index, &mut addr) {
                                done = true;
                            } else {
                                // Rotation didn't work.
                                // This means that all existing child sibling have enough few elements to be merged with this child.
                                let (new_balance, new_addr) = self.merge(parent_id, index, addr);
                                balance = new_balance;
                                addr = new_addr;
                                // The `merge` function returns the current balance of the parent node,
                                // since it may underflow after the merging operation.
                                id = parent_id
                            }
                        },
                        None => {
                            // if root is empty.
                            if is_empty {
                                self.remove_empty_root(id, &mut addr);
                            } else {
                                proof {
                                    assert forall|x: usize| t.live(x) implies #[trigger] t.fit(None, x) by {
                                        assert(t.fit(Some(id), x));
                                    }
                                }
                            }
                            done = true;
                        },
                    }
                },
            }
            proof {
                if self.tree() == t {
                    t.lemma_items_refl();
                }
                t0.lemma_items_trans(t, self.tree());
                if t0.occupied(a0) {
                    assert(t.item_is(addr_in, t0.item_at(a0)));
                }
                let t1 = self.tree();
                let next: Option<usize> = if done {
                    None
                } else {
                    Some(id)
                };
                assert(rebalance_step(t, addr_in, id_in, t1, addr, next));
                if done {
                    assert(rebalanced(t, addr_in, id_in, t1, addr, 0));
                    assert(rebalanced(t0, a0, node_id, t1, addr, 0 + steps));
                } else {
                    assert forall|tf: Tree<K, V>, af: ItemAddr, n: nat| #[trigger]
                        rebalanced(t1, addr, id, tf, af, n) implies rebalanced(
                        t0,
                        a0,
                        node_id,
                        tf,
                        af,
                        n + (steps + 1),
                    ) by {
                        assert(rebalanced(t, addr_in, id_in, tf, af, n + 1));
                        assert(n + 1 + steps == n + (steps + 1));
                    }
                    steps = steps + 1;
                }
            }
        }
        proof {
            t0.lemma_same_items(self.tree());
        }
        addr
    }

    /// Returns the greatest valid leaf address that directly precedes the
    /// given address.
    ///
    /// A "leaf address" is an address located in a leaf node.
    pub fn leaf_address(&self, addr: ItemAddr) -> (r: ItemAddr)
        requires
            self.tree().shape(),
            addr.is_nowhere() || self.tree().back(addr),
        ensures
            r == self.tree().leaf_addr(addr),
            addr.is_nowhere() ==> r == addr,
            !addr.is_nowhere() ==> self.tree().back(r) && self.tree().node(r.id).is_leaf(),
    {
        let mut addr = addr;
        let ghost t = self.tree();
        let ghost a0 = addr;
        if !addr.is_nowhere() {
            loop
                invariant
                    t == self.tree(),
                    t.shape(),
                    t.back(addr),
                    t.leaf_addr(addr) == t.leaf_addr(a0),
                ensures
                    t.back(addr),
                    t.node(addr.id).is_leaf(),
                    addr == t.leaf_addr(a0),
                decreases t.height[addr.id],
            {
                proof {
                    self.lemma_node(addr.id);
                }
                let node = self.node(addr.id);
                match node.child_id_opt(addr.offset.unwrap()) {
                    Some(child_id) => {
                        proof {
                            assert(t.child_ok(addr.id, addr.offset@));
                            self.lemma_node(child_id);
                        }
                        addr.id = child_id;
                        addr.offset = Offset(self.node(child_id).item_count())
                    },
                    None => break ,
                }
            }
        } else {
            proof {
                if t.live(addr.id) {
                    assert(t.node_ok(addr.id));
                }
            }
        }
        addr
    }

    /// Insert an item at the given address.
    ///
    /// The address is first converted into a leaf address using
    /// [`BTreeMap::leaf_address`] and the item inserted using
    /// [`BTreeMap::insert_exactly_at`].
    pub fn insert_at(&mut self, addr: ItemAddr, item: Item<K, V>) -> (r: ItemAddr)
        requires
            total_order::<K>(),
            old(self).tree().btree(),
            old(self).count() < usize::MAX,
            if old(self).tree().root is None {
                addr.is_nowhere()
            } else {
                old(self).tree().back(addr) && old(self).tree().gap(
                    old(self).tree().leaf_addr(addr),
                    item.key_spec(),
                )
            },
        ensures
            final(self).tree().btree(),
            final(self).tree().item_is(r, item),
            !old(self)@.dom().contains(item.key_spec()),
            final(self)@ == old(self)@.insert(item.key_spec(), item.value_spec()),
            final(self).count() == old(self).count() + 1,
            old(self).tree().full_but(None) && item.full() ==> final(self).tree().full_but(None),
            old(self).counted() ==> final(self).counted(),
    {
        let leaf_addr = self.leaf_address(addr);
        self.insert_exactly_at(leaf_addr, item, None)
    }

    /// Insert an item at the given address, a place in a leaf.
    ///
    /// The key of the item must belong at the address: it is not in the
    /// tree, and the address is the gap between the keys before it and the
    /// keys after it. In an empty tree the address is the one that is
    /// nowhere.
    ///
    /// Returns the address of the inserted item in the tree (it may differ
    /// from the input address if the tree is rebalanced).
    pub fn insert_exactly_at(&mut self, addr: ItemAddr, item: Item<K, V>, opt_right_id: Option<usize>) -> (r:
        ItemAddr)
        requires
            total_order::<K>(),
            old(self).tree().btree(),
            old(self).count() < usize::MAX,
            if old(self).tree().root is None {
                addr.is_nowhere()
            } else {
                old(self).tree().gap(addr, item.key_spec())
            },
        ensures
            final(self).tree().btree(),
            final(self).tree().item_is(r, item),
            !old(self)@.dom().contains(item.key_spec()),
            final(self)@ == old(self)@.insert(item.key_spec(), item.value_spec()),
            final(self).count() == old(self).count() + 1,
            old(self).tree().full_but(None) && item.full() ==> final(self).tree().full_but(None),
            old(self).counted() ==> final(self).counted(),
    {
        let ghost t0 = self.tree();
        if addr.is_nowhere() {
            proof {
                if t0.root is Some {
                    assert(t0.node_ok(addr.id));
                }
            }
            let new_root = Node::leaf(None, item);
            let id = self.allocate_node(new_root);
            self.root = Some(id);
            self.len += 1;
            proof {
                self.book = Ghost(
                    Bookkeeping {
                        height: t0.height.insert(id, 0),
                        lower: t0.lower.insert(id, None),
                        upper: t0.upper.insert(id, None),
                    },
                );
            }
            let r = ItemAddr { id, offset: Offset(0) };
            proof {
                let t1 = self.tree();
                assert(t1.nodes.dom() =~= set![id]);
                new_root.lemma_len();
                assert(t1.kids_ok(id));
                assert(t1.parent_ok(id));
                assert(t1.local_ok(id));
                assert(t1.node_ok(id));
                assert forall|x: usize| t1.live(x) implies #[trigger] t1.fit(None, x) by {}
                assert(t1.item_is(r, item));
                assert forall|k: K| !t0.has_key(k) by {
                    if t0.has_key(k) {
                        assert(t0.holds(t0.addr_of(k), k));
                    }
                }
                assert forall|b: ItemAddr| #[trigger] t0.occupied(b) implies t1.has_item(t0.item_at(b)) by {}
                assert forall|b: ItemAddr| #[trigger] t1.occupied(b) && b != r implies t0.has_item(t1.item_at(b)) by {
                    assert(b.offset.0 == 0);
                }
                assert(t0.view().dom() =~= Set::<K>::empty());
                t0.lemma_view_added(t1, r);
            }
            r
        } else {
            proof {
                self.lemma_node(addr.id);
            }
            self.node_mut(addr.id).insert(addr.offset, item, opt_right_id);
            proof {
                let ta = self.tree();
                assert(ta.nodes.dom() =~= t0.nodes.dom());
                assert forall|x: usize| t0.live(x) && x != addr.id implies #[trigger] untouched(t0, ta, x) by {}
                assert(t0.edited(ta, addr.id, t0.items(addr.id).insert(addr.offset@, item)));
                t0.lemma_leaf_insert(ta, addr, item);
            }
            let new_addr = self.rebalance(addr.id, addr);
            self.len += 1;
            new_addr
        }
    }

    /// Replaces the value at the given address, and returns the value that
    /// was there.
    pub fn replace_value_at(&mut self, addr: ItemAddr, value: V) -> (r: V)
        requires
            total_order::<K>(),
            old(self).tree().shape(),
            old(self).tree().occupied(addr),
            old(self).tree().item_at(addr).full(),
        ensures
            final(self).tree().shape(),
            forall|x: Option<usize>| old(self).tree().balanced_but(x) ==> final(self).tree().balanced_but(x),
            r == old(self).tree().item_at(addr).value_spec(),
            final(self)@ == old(self)@.insert(old(self).tree().item_at(addr).key_spec(), value),
            final(self)@.dom() == old(self)@.dom(),
            final(self).tree().occupied(addr),
            final(self).tree().item_at(addr).key_spec() == old(self).tree().item_at(addr).key_spec(),
            final(self).tree().item_at(addr).slot() == Some(value),
            old(self).tree().full_but(Some(addr)) ==> final(self).tree().full_but(None),
            final(self).count() == old(self).count(),
    {
        let ghost t0 = self.tree();
        let r = self.node_mut(addr.id).item_mut(addr.offset).unwrap().set_value(value);
        proof {
            let t1 = self.tree();
            assert(t1.nodes.dom() =~= t0.nodes.dom());
            assert forall|x: usize| t0.live(x) && x != addr.id implies #[trigger] untouched(t0, t1, x) by {}
            let item = t1.items(addr.id)[addr.offset@];
            assert(t0.edited(t1, addr.id, t0.items(addr.id).update(addr.offset@, item)));
            t0.lemma_item_set(t1, addr, item);
        }
        r
    }

    /// Replaces the key-value binding at the given address by a binding of
    /// the same key, and returns the one that was there.
    pub fn replace_at(&mut self, addr: ItemAddr, key: K, value: V) -> (r: (K, V))
        requires
            total_order::<K>(),
            old(self).tree().shape(),
            old(self).tree().occupied(addr),
            old(self).tree().item_at(addr).full(),
            key == old(self).tree().item_at(addr).key_spec(),
        ensures
            final(self).tree().shape(),
            forall|x: Option<usize>| old(self).tree().balanced_but(x) ==> final(self).tree().balanced_but(x),
            r.0 == key,
            r.1 == old(self).tree().item_at(addr).value_spec(),
            final(self)@ == old(self)@.insert(key, value),
            final(self)@.dom() == old(self)@.dom(),
            old(self).tree().full_but(Some(addr)) ==> final(self).tree().full_but(None),
            final(self).count() == old(self).count(),
    {
        let ghost t0 = self.tree();
        let r = self.node_mut(addr.id).item_mut(addr.offset).unwrap().set(key, value);
        proof {
            let t1 = self.tree();
            assert(t1.nodes.dom() =~= t0.nodes.dom());
            assert forall|x: usize| t0.live(x) && x != addr.id implies #[trigger] untouched(t0, t1, x) by {}
            let item = t1.items(addr.id)[addr.offset@];
            assert(t0.edited(t1, addr.id, t0.items(addr.id).update(addr.offset@, item)));
            t0.lemma_item_set(t1, addr, item);
        }
        r
    }

    /// Inserts a key-value pair into the map.
    ///
    /// If the map did not have this key present, `None` is returned. If
    /// the map did have this key present, the value is updated, and the
    /// old value is returned.
    pub fn insert(&mut self, key: K, value: V) -> (r: Option<V>)
        requires
            total_order::<K>(),
            old(self).wf(),
            old(self)@.dom().contains(key) || old(self).count() < usize::MAX,
        ensures
            final(self).wf(),
            final(self).tree().sound(),
            final(self)@ == old(self)@.insert(key, value),
            r == (if old(self)@.dom().contains(key) {
                Some(old(self)@[key])
            } else {
                None
            }),
    {
        let r = match self.address_of(&key) {
            Ok(addr) => {
                proof {
                    self.tree().lemma_view_at(addr);
                }
                Some(self.replace_value_at(addr, value))
            },
            Err(addr) => {
                self.insert_exactly_at(addr, Item::new(key, value), None);
                None
            },
        };
        proof {
            self.lemma_sound();
        }
        r
    }

    /// Binds `key` to `value`; if the key was bound already, returns the
    /// key and the value that it was bound to.
    pub fn replace(&mut self, key: K, value: V) -> (r: Option<(K, V)>)
        requires
            total_order::<K>(),
            old(self).wf(),
            old(self)@.dom().contains(key) || old(self).count() < usize::MAX,
        ensures
            final(self).wf(),
            final(self)@ == old(self)@.insert(key, value),
            r == (if old(self)@.dom().contains(key) {
                Some((key, old(self)@[key]))
            } else {
                None
            }),
    {
        match self.address_of(&key) {
            Ok(addr) => {
                proof {
                    self.tree().lemma_view_at(addr);
                }
                Some(self.replace_at(addr, key, value))
            },
            Err(addr) => {
                self.insert_exactly_at(addr, Item::new(key, value), None);
                None
            },
        }
    }

    /// What a step down to the child at `a` and a step up from a node tell
    /// about the keys around.
    proof fn lemma_steps(&self, x: usize)
        requires
            total_order::<K>(),
            self.tree().shape(),
            self.tree().live(x),
        ensures
            self.tree().node_ok(x),
            self.tree().items(x).len() < usize::MAX,
            !self.tree().node(x).is_leaf() ==> self.tree().kids(x).len() == self.tree().items(x).len() + 1,
            self.tree().node(x).is_leaf() ==> self.tree().kids(x).len() == 0,
            forall|j: int| 0 <= j < self.tree().kids(x).len() ==> #[trigger] self.tree().child_ok(x, j),
            self.tree().height[x] <= self.tree().height[self.tree().root->0],
            self.tree().root is Some,
            self.tree().root == Some(x) <==> self.tree().node(x).parent_spec() is None,
            self.tree().root == Some(x) ==> self.tree().lower[x] is None && self.tree().upper[x] is None
                && self.tree().node(x).parent_spec() is None,
            self.tree().root != Some(x) ==> {
                let p = self.tree().node(x).parent_spec()->0;
                &&& self.tree().node(x).parent_spec() is Some
                &&& self.tree().live(p)
                &&& self.tree().items(p).len() < usize::MAX
                &&& self.tree().height[p] == self.tree().height[x] + 1
                &&& forall|j: int| #[trigger]
                    self.tree().is_child(p, j, x) ==> self.tree().lower[x] == self.tree().low(p, j)
                        && self.tree().upper[x] == self.tree().high(p, j)
                &&& exists|j: int| #[trigger] self.tree().is_child(p, j, x)
            },
            self.tree().btree() && self.tree().node(x).is_leaf() ==> self.tree().items(x).len() > 0,
    {
        let t = self.tree();
        self.lemma_node(x);
        t.lemma_height(x);
        assert(t.parent_ok(x));
        if t.root != Some(x) {
            let j0 = t.lemma_parent(x);
            let p = t.node(x).parent_spec()->0;
            self.lemma_node(p);
            assert forall|j: int| #[trigger] t.is_child(p, j, x) implies t.lower[x] == t.low(p, j) && t.upper[x]
                == t.high(p, j) by {
                assert(t.child_ok(p, j));
            }
        }
        if t.btree() {
            assert(t.fit(None, x));
        }
    }

    /// Get the first item address, if any.
    ///
    /// Returns the first occupied valid address, or `None` if the tree is
    /// empty.
    #[verifier::loop_isolation(false)]
    pub fn first_item_address(&self) -> (r: Option<ItemAddr>)
        requires
            total_order::<K>(),
            self.tree().btree(),
        ensures
            r is Some <==> self.tree().root is Some,
            self.tree().next_after(None, r),
    {
        let ghost t = self.tree();
        match self.root {
            Some(root_id) => {
                let mut id = root_id;
                proof {
                    self.lemma_steps(id);
                }
                loop
                    invariant
                        total_order::<K>(),
                        t == self.tree(),
                        t.btree(),
                        t.live(id),
                        t.lower[id] is None,
                    decreases t.height[id],
                {
                    proof {
                        self.lemma_steps(id);
                    }
                    match self.node(id).child_id_opt(0) {
                        Some(child_id) => {
                            proof {
                                assert(t.child_ok(id, 0));
                            }
                            id = child_id
                        },
                        None => {
                            proof {
                                t.lemma_gap_empty(id, 0);
                            }
                            return Some(ItemAddr::new(id, Offset(0)));
                        },
                    }
                }
            },
            None => {
                proof {
                    assert forall|c: ItemAddr| !#[trigger] t.key_between(None, c, None) by {}
                }
                None
            },
        }
    }

    /// Get the first back address.
    ///
    /// The returned address is nowhere if the tree is empty.
    pub fn first_back_address(&self) -> (r: ItemAddr)
        requires
            total_order::<K>(),
            self.tree().btree(),
        ensures
            self.tree().root is None ==> r.is_nowhere() && r.offset@ == 0,
            self.tree().root is Some ==> self.tree().next_after(None, Some(r)),
    {
        match self.first_item_address() {
            Some(addr) => addr,
            None => ItemAddr::nowhere(),
        }
    }

    /// Get the last item address, if any.
    ///
    /// Returns the last occupied valid address, or `None` if the tree is
    /// empty.
    #[verifier::loop_isolation(false)]
    pub fn last_item_address(&self) -> (r: Option<ItemAddr>)
        requires
            total_order::<K>(),
            self.tree().btree(),
        ensures
            r is Some <==> self.tree().root is Some,
            self.tree().prev_before(None, r),
    {
        let ghost t = self.tree();
        match self.root {
            Some(root_id) => {
                let mut id = root_id;
                proof {
                    self.lemma_steps(id);
                }
                loop
                    invariant
                        total_order::<K>(),
                        t == self.tree(),
                        t.btree(),
                        t.live(id),
                        t.upper[id] is None,
                    decreases t.height[id],
                {
                    proof {
                        self.lemma_steps(id);
                    }
                    let node = self.node(id);
                    let index = node.item_count();
                    match node.child_id_opt(index) {
                        Some(child_id) => {
                            proof {
                                assert(t.child_ok(id, index as int));
                            }
                            id = child_id
                        },
                        None => {
                            proof {
                                t.lemma_gap_empty(id, index as int);
                            }
                            return Some(ItemAddr::new(id, Offset(index - 1)));
                        },
                    }
                }
            },
            None => {
                proof {
                    assert forall|c: ItemAddr| !#[trigger] t.key_between(None, c, None) by {}
                }
                None
            },
        }
    }

    /// Get the last valid address in the tree: the end of the last leaf, or
    /// the address that is nowhere if the tree is empty.
    pub fn last_valid_address(&self) -> (r: ItemAddr)
        requires
            total_order::<K>(),
            self.tree().btree(),
        ensures
            self.tree().root is None ==> r.is_nowhere() && r.offset@ == 0,
            self.tree().root is Some ==> {
                &&& self.tree().back(r)
                &&& self.tree().node(r.id).is_leaf()
                &&& r.offset@ == self.tree().items(r.id).len()
                &&& self.tree().upper[r.id] is None
                &&& self.tree().prev_before(None, Some(ItemAddr { id: r.id, offset: Offset((r.offset.0 - 1) as usize) }))
            },
    {
        match self.last_item_address() {
            Some(addr) => {
                proof {
                    self.lemma_steps(addr.id);
                    let t = self.tree();
                    // the last item is the last item of a leaf under no upper bound
                    self.lemma_last(addr);
                }
                ItemAddr::new(addr.id, Offset(addr.offset.0 + 1))
            },
            None => ItemAddr::nowhere(),
        }
    }

    /// The last item of a tree is the last item of a leaf without an upper
    /// bound.
    proof fn lemma_last(&self, a: ItemAddr)
        requires
            total_order::<K>(),
            self.tree().btree(),
            self.tree().prev_before(None, Some(a)),
        ensures
            self.tree().node(a.id).is_leaf(),
            a.offset@ + 1 == self.tree().items(a.id).len(),
            self.tree().upper[a.id] is None,
            a.offset.0 + 1 < usize::MAX,
    {
        let t = self.tree();
        self.lemma_steps(a.id);
        let n = t.items(a.id).len() as int;
        let o = a.offset@;
        let k = t.key_at(a);
        if o + 1 < n {
            let c = ItemAddr { id: a.id, offset: Offset((o + 1) as usize) };
            assert(lt(t.items(a.id)[o].key_spec(), t.items(a.id)[o + 1].key_spec()));
            assert(t.key_between(Some(k), c, None));
        }
        if !t.node(a.id).is_leaf() {
            let ch = t.kids(a.id)[o + 1];
            assert(t.child_ok(a.id, o + 1));
            self.lemma_descend_any(ch);
            let c = choose|c: ItemAddr| t.occupied(c) && c.id == ch;
            assert(t.node_ok(ch));
            assert(lt(k, t.key_at(c)));
            assert(t.key_between(Some(k), c, None));
        }
        if t.upper[a.id] is Some {
            let c = t.lemma_upper_held(a.id);
            assert(lt(t.items(a.id)[o].key_spec(), t.upper[a.id]->0));
            assert(t.key_between(Some(k), c, None));
        }
    }

    /// Every node of a B-Tree holds an item.
    proof fn lemma_descend_any(&self, x: usize)
        requires
            self.tree().btree(),
            self.tree().live(x),
        ensures
            exists|c: ItemAddr| self.tree().occupied(c) && c.id == x,
    {
        let t = self.tree();
        assert(t.fit(None, x));
        let c = ItemAddr { id: x, offset: Offset(0) };
        assert(t.occupied(c) && c.id == x);
    }

    /// Normalizes the given item address so that an out-of-node-bounds
    /// address points to the next item.
    #[verifier::loop_isolation(false)]
    pub fn normalize(&self, addr: ItemAddr) -> (r: Option<ItemAddr>)
        requires
            total_order::<K>(),
            self.tree().shape(),
            addr.is_nowhere() || self.tree().back(addr),
        ensures
            addr.is_nowhere() ==> r is None,
            !addr.is_nowhere() ==> match r {
                Some(b) => self.tree().occupied(b) && Some(self.tree().key_at(b)) == self.tree().high(
                    addr.id,
                    addr.offset@,
                ),
                None => self.tree().high(addr.id, addr.offset@) is None,
            },
            self.tree().occupied(addr) ==> r == Some(addr),
    {
        let ghost t = self.tree();
        let mut addr = addr;
        if addr.is_nowhere() {
            proof {
                if t.live(addr.id) {
                    assert(t.node_ok(addr.id));
                }
            }
            None
        } else {
            let ghost hi = t.high(addr.id, addr.offset@);
            let ghost a0 = addr;
            loop
                invariant
                    total_order::<K>(),
                    t == self.tree(),
                    t.shape(),
                    t.back(addr),
                    t.high(addr.id, addr.offset@) == hi,
                    t.occupied(a0) ==> addr == a0,
                decreases t.height[t.root->0] - t.height[addr.id],
            {
                proof {
                    self.lemma_steps(addr.id);
                }
                let node = self.node(addr.id);
                if !addr.offset.is_below(node.item_count()) {
                    match node.parent() {
                        Some(parent_id) => {
                            let index = self.node(parent_id).child_index(addr.id).unwrap();
                            proof {
                                assert(t.is_child(parent_id, index as int, addr.id));
                                self.lemma_steps(parent_id);
                            }
                            addr.offset = Offset(index);
                            addr.id = parent_id;
                        },
                        None => return None,
                    }
                } else {
                    return Some(addr)
                }
            }
        }
    }

    /// Get the previous item address.
    ///
    /// Returns the previous valid occupied address: the address of the
    /// greatest key below the place that `addr` names.
    #[verifier::loop_isolation(false)]
    pub fn previous_item_address(&self, addr: ItemAddr) -> (r: Option<ItemAddr>)
        requires
            total_order::<K>(),
            self.tree().shape(),
            addr.is_nowhere() || self.tree().back(addr),
        ensures
            addr.is_nowhere() ==> r is None,
            r is Some ==> self.tree().occupied(r->0),
            self.tree().btree() && !addr.is_nowhere() ==> self.tree().prev_before(
                self.tree().high(addr.id, addr.offset@),
                r,
            ),
    {
        let ghost t = self.tree();
        let mut addr = addr;
        if addr.is_nowhere() {
            proof {
                if t.live(addr.id) {
                    assert(t.node_ok(addr.id));
                }
            }
            return None
        }
        let ghost hi = t.high(addr.id, addr.offset@);
        loop
            invariant
                total_order::<K>(),
                t == self.tree(),
                t.shape(),
                t.back(addr),
                t.high(addr.id, addr.offset@) == hi,
            decreases t.height[addr.id],
        {
            proof {
                self.lemma_steps(addr.id);
            }
            let node = self.node(addr.id);
            match node.child_id_opt(addr.offset.unwrap()) {
                Some(child_id) => {
                    proof {
                        assert(t.child_ok(addr.id, addr.offset@));
                        self.lemma_steps(child_id);
                    }
                    addr.offset = Offset(self.node(child_id).item_count());
                    addr.id = child_id;
                },
                None => {
                    let ghost lo = t.low(addr.id, addr.offset@);
                    proof {
                        t.lemma_gap_empty(addr.id, addr.offset@);
                    }
                    let ghost leaf_len = t.items(addr.id).len();
                    loop
                        invariant
                            total_order::<K>(),
                            t == self.tree(),
                            t.shape(),
                            t.back(addr),
                            t.low(addr.id, addr.offset@) == lo,
                            t.no_key_between(lo, hi),
                            t.btree() ==> (lo is Some && hi is Some ==> lt(lo->0, hi->0)),
                        decreases t.height[t.root->0] - t.height[addr.id],
                    {
                        proof {
                            self.lemma_steps(addr.id);
                        }
                        if addr.offset.is_above(0) {
                            addr.offset.decr();
                            return Some(addr)
                        }
                        match self.node(addr.id).parent() {
                            Some(parent_id) => {
                                let index = self.node(parent_id).child_index(addr.id).unwrap();
                                proof {
                                    assert(t.is_child(parent_id, index as int, addr.id));
                                    self.lemma_steps(parent_id);
                                }
                                addr.offset = Offset(index);
                                addr.id = parent_id;
                            },
                            None => return None,
                        }
                    }
                },
            }
        }
    }

    /// Get the next item address.
    ///
    /// Returns the next valid occupied address: the address of the least
    /// key above the place that `addr` names.
    #[verifier::loop_isolation(false)]
    pub fn next_item_address(&self, addr: ItemAddr) -> (r: Option<ItemAddr>)
        requires
            total_order::<K>(),
            self.tree().shape(),
            addr.is_nowhere() || self.tree().valid(addr),
        ensures
            addr.is_nowhere() ==> r is None,
            r is Some ==> self.tree().occupied(r->0),
            self.tree().btree() && !addr.is_nowhere() ==> self.tree().next_after(
                self.tree().low(addr.id, self.tree().step(addr)),
                r,
            ),
    {
        let ghost t = self.tree();
        let mut addr = addr;
        if addr.is_nowhere() {
            proof {
                if t.live(addr.id) {
                    assert(t.node_ok(addr.id));
                }
            }
            return None
        }
        proof {
            self.lemma_steps(addr.id);
        }
        let item_count = self.node(addr.id).item_count();
        if addr.offset.is_below(item_count) {
            addr.offset.incr();
        } else if addr.offset.is_above(item_count) {
            return None
        }
        let ghost lo = t.low(addr.id, addr.offset@);
        loop
            invariant
                total_order::<K>(),
                t == self.tree(),
                t.shape(),
                t.back(addr),
                t.low(addr.id, addr.offset@) == lo,
            decreases t.height[addr.id],
        {
            proof {
                self.lemma_steps(addr.id);
            }
            let node = self.node(addr.id);
            match node.child_id_opt(addr.offset.unwrap()) {
                Some(child_id) => {
                    proof {
                        assert(t.child_ok(addr.id, addr.offset@));
                    }
                    addr.offset = Offset(0);
                    addr.id = child_id;
                },
                None => {
                    let ghost hi = t.high(addr.id, addr.offset@);
                    proof {
                        t.lemma_gap_empty(addr.id, addr.offset@);
                    }
                    loop
                        invariant
                            total_order::<K>(),
                            t == self.tree(),
                            t.shape(),
                            t.back(addr),
                            t.high(addr.id, addr.offset@) == hi,
                            t.no_key_between(lo, hi),
                            t.btree() ==> (lo is Some && hi is Some ==> lt(lo->0, hi->0)),
                        decreases t.height[t.root->0] - t.height[addr.id],
                    {
                        proof {
                            self.lemma_steps(addr.id);
                        }
                        let node = self.node(addr.id);
                        if addr.offset.is_below(node.item_count()) {
                            return Some(addr)
                        }
                        match node.parent() {
                            Some(parent_id) => {
                                let index = self.node(parent_id).child_index(addr.id).unwrap();
                                proof {
                                    assert(t.is_child(parent_id, index as int, addr.id));
                                    self.lemma_steps(parent_id);
                                }
                                addr.offset = Offset(index);
                                addr.id = parent_id;
                            },
                            None => {
                                return None
                            },
                        }
                    }
                },
            }
        }
    }

    /// Get the next item address if any, or the next back address
    /// otherwise: the place after `addr` in its own node.
    #[verifier::loop_isolation(false)]
    pub fn next_item_or_back_address(&self, addr: ItemAddr) -> (r: Option<ItemAddr>)
        requires
            total_order::<K>(),
            self.tree().shape(),
            addr.is_nowhere() || self.tree().valid(addr),
        ensures
            addr.is_nowhere() <==> r is None,
            r is Some ==> self.tree().back(r->0),
            self.tree().btree() && !addr.is_nowhere() ==> {
                let lo = self.tree().low(addr.id, self.tree().step(addr));
                ||| self.tree().occupied(r->0) && self.tree().next_after(lo, r)
                ||| self.tree().next_after(lo, None) && r == Some(
                    ItemAddr { id: addr.id, offset: Offset(self.tree().step(addr) as usize) },
                )
            },
            self.tree().btree() && self.tree().occupied(addr) && !self.tree().node(addr.id).is_leaf() ==> {
                &&& self.tree().node(r->0.id).is_leaf()
                &&& r->0.offset@ == 0
                &&& self.tree().lower[r->0.id] == Some(self.tree().key_at(addr))
                &&& self.tree().occupied(r->0)
            },
    {
        let ghost t = self.tree();
        let mut addr = addr;
        if addr.is_nowhere() {
            proof {
                if t.live(addr.id) {
                    assert(t.node_ok(addr.id));
                }
            }
            return None
        }
        proof {
            self.lemma_steps(addr.id);
        }
        let ghost a0 = addr;
        let item_count = self.node(addr.id).item_count();
        if addr.offset.is_below(item_count) {
            addr.offset.incr();
        } else if addr.offset.is_above(item_count) {
            return None
        }
        let shifted = addr;
        let ghost lo = t.low(addr.id, addr.offset@);
        loop
            invariant
                total_order::<K>(),
                t == self.tree(),
                t.shape(),
                t.back(addr),
                t.back(shifted),
                t.low(addr.id, addr.offset@) == lo,
                addr != shifted ==> addr.offset@ == 0 && t.lower[addr.id] == lo,
                addr == shifted || !t.node(a0.id).is_leaf(),
            decreases t.height[addr.id],
        {
            proof {
                self.lemma_steps(addr.id);
            }
            let node = self.node(addr.id);
            match node.child_id_opt(addr.offset.unwrap()) {
                Some(child_id) => {
                    proof {
                        assert(t.child_ok(addr.id, addr.offset@));
                        t.lemma_height(child_id);
                    }
                    addr.offset = Offset(0);
                    addr.id = child_id;
                },
                None => {
                    let ghost hi = t.high(addr.id, addr.offset@);
                    let ghost leaf = addr;
                    proof {
                        t.lemma_gap_empty(addr.id, addr.offset@);
                    }
                    loop
                        invariant
                            total_order::<K>(),
                            t == self.tree(),
                            t.shape(),
                            t.back(addr),
                            t.back(shifted),
                            t.high(addr.id, addr.offset@) == hi,
                            t.no_key_between(lo, hi),
                            t.btree() ==> (lo is Some && hi is Some ==> lt(lo->0, hi->0)),
                            t.node(leaf.id).is_leaf(),
                            t.live(leaf.id),
                            leaf != shifted ==> leaf.offset@ == 0 && t.lower[leaf.id] == lo
                                && !t.node(a0.id).is_leaf(),
                            leaf == shifted || !t.node(a0.id).is_leaf(),
                            t.btree() && leaf.offset@ == 0 ==> addr == leaf,
                        decreases t.height[t.root->0] - t.height[addr.id],
                    {
                        proof {
                            self.lemma_steps(addr.id);
                            self.lemma_steps(leaf.id);
                        }
                        let node = self.node(addr.id);
                        if addr.offset.is_below(node.item_count()) {
                            return Some(addr)
                        }
                        match node.parent() {
                            Some(parent_id) => {
                                let index = self.node(parent_id).child_index(addr.id).unwrap();
                                proof {
                                    assert(t.is_child(parent_id, index as int, addr.id));
                                    self.lemma_steps(parent_id);
                                }
                                addr.offset = Offset(index);
                                addr.id = parent_id;
                            },
                            None => {
                                return Some(shifted)
                            },
                        }
                    }
                },
            }
        }
    }

    /// Take the right-most leaf item out of the node `node_id` or of the
    /// nodes below it; returns the item and the identifier of the leaf it
    /// was taken from.
    ///
    /// Note that this does not change the registered length of the tree,
    /// and that the leaf is not rebalanced. The returned item is expected
    /// to be reinserted in the tree.
    #[verifier::loop_isolation(false)]
    pub fn remove_rightmost_leaf_of(&mut self, node_id: usize) -> (r: (Item<K, V>, usize))
        requires
            total_order::<K>(),
            old(self).tree().btree(),
            old(self).tree().live(node_id),
        ensures
            old(self).tree().live(r.1),
            old(self).tree().node(r.1).is_leaf(),
            old(self).tree().upper[r.1] == old(self).tree().upper[node_id],
            forall|k: K| #[trigger] old(self).tree().covers(r.1, k) ==> old(self).tree().covers(node_id, k),
            old(self).tree().items(r.1).len() > 0,
            r.0 == old(self).tree().items(r.1).last(),
            old(self).tree().edited(final(self).tree(), r.1, old(self).tree().items(r.1).drop_last()),
            final(self).count() == old(self).count(),
            r.1 == node_id <==> old(self).tree().node(node_id).is_leaf(),
    {
        let ghost t0 = self.tree();
        let mut id = node_id;
        loop
            invariant
                self.tree() == t0,
                self.count() == old(self).count(),
                t0.live(id),
                t0.upper[id] == t0.upper[node_id],
                forall|k: K| #[trigger] t0.covers(id, k) ==> t0.covers(node_id, k),
                id == node_id || !t0.node(node_id).is_leaf(),
            decreases t0.height[id],
        {
            proof {
                self.lemma_steps(id);
            }
            match self.node_mut(id).remove_rightmost_leaf() {
                Ok(result) => {
                    proof {
                        let t1 = self.tree();
                        assert(t1.nodes.dom() =~= t0.nodes.dom());
                        assert forall|x: usize| t0.live(x) && x != id implies #[trigger] untouched(t0, t1, x) by {}
                    }
                    return (result, id)
                },
                Err(child_id) => {
                    proof {
                        assert(self.tree().nodes =~= t0.nodes);
                        let j = t0.kids(id).len() - 1;
                        assert(t0.child_ok(id, j));
                        assert forall|k: K| #[trigger] t0.covers(child_id, k) implies t0.covers(node_id, k) by {
                            t0.lemma_child_covers(id, j, k);
                        }
                    }
                    id = child_id;
                },
            }
        }
    }

    /// The place right after the key `gone`, which is not in the tree, as
    /// the address of the item that stands there, if there is one.
    fn settled(&self, addr: ItemAddr, Ghost(gone): Ghost<K>) -> (r: ItemAddr)
        requires
            total_order::<K>(),
            self.tree().btree(),
            if self.tree().root is None {
                addr.id == usize::MAX && addr.offset@ == 0
            } else {
                self.tree().back(addr)
            },
            self.tree().follows(addr, gone),
        ensures
            if self.tree().root is None {
                r.id == usize::MAX && r.offset@ == 0
            } else {
                self.tree().back(r)
            },
            self.tree().follows(r, gone),
            self.tree().occupied(r) || forall|q: K| #[trigger] self@.dom().contains(q) ==> !lt(gone, q),
    {
        let ghost t = self.tree();
        proof {
            if t.root is Some && addr.is_nowhere() {
                assert(t.node_ok(addr.id));
            }
        }
        match self.normalize(addr) {
            Some(next) => next,
            None => {
                proof {
                    assert forall|q: K| #[trigger] self@.dom().contains(q) implies !lt(gone, q) by {
                        if lt(gone, q) {
                            let c = t.addr_of(q);
                            assert(t.holds(c, q));
                            assert(t.key_between(Some(gone), c, None));
                        }
                    }
                }
                addr
            },
        }
    }

    /// Removes the item at the given address, if any.
    ///
    /// If an item is removed then this function returns a pair where the
    /// first hand side is the removed item, and the right hand side is the
    /// address, in the tree without the item, of the item that came next:
    /// where none did, an address past the last item, or the address that
    /// is nowhere if the tree is empty then.
    ///
    /// The item at the address may be one whose value has been taken out.
    pub fn remove_at(&mut self, addr: ItemAddr) -> (r: Option<(Item<K, V>, ItemAddr)>)
        requires
            total_order::<K>(),
            old(self).tree().btree(),
            old(self).tree().back(addr),
            old(self).tree().full_but(Some(addr)),
            old(self).counted(),
        ensures
            r is Some <==> old(self).tree().occupied(addr),
            r is None ==> final(self).tree() == old(self).tree() && final(self).count() == old(self).count(),
            r is Some ==> {
                &&& r.unwrap().0 == old(self).tree().item_at(addr)
                &&& final(self).tree().btree()
                &&& final(self).tree().full_but(None)
                &&& final(self).counted()
                &&& final(self)@ == old(self)@.remove(old(self).tree().key_at(addr))
                &&& old(self)@.dom().contains(old(self).tree().key_at(addr))
                &&& final(self).count() == old(self).count() - 1
                &&& if final(self).tree().root is None {
                    r.unwrap().1.id == usize::MAX && r.unwrap().1.offset@ == 0
                } else {
                    final(self).tree().back(r.unwrap().1)
                }
                &&& final(self).tree().follows(r.unwrap().1, old(self).tree().key_at(addr))
                &&& final(self).tree().occupied(r.unwrap().1) || forall|q: K| #[trigger]
                    final(self)@.dom().contains(q) ==> !lt(old(self).tree().key_at(addr), q)
            },
    {
        let ghost t0 = self.tree();
        proof {
            self.lemma_steps(addr.id);
            if t0.occupied(addr) {
                t0.lemma_view_at(addr);
                assert(t0.view().dom().len() > 0) by {
                    if t0.view().dom().len() == 0 {
                        t0.view().dom().lemma_len0_is_empty();
                    }
                }
            }
        }
        match self.node_mut(addr.id).leaf_remove(addr.offset) {
            Some(Ok(item)) => {
                // removed from a leaf.
                proof {
                    let ta = self.tree();
                    assert(ta.nodes.dom() =~= t0.nodes.dom());
                    assert forall|x: usize| t0.live(x) && x != addr.id implies #[trigger] untouched(t0, ta, x) by {}
                    t0.lemma_leaf_remove(ta, addr);
                    ta.lemma_gap_empty(addr.id, addr.offset@);
                    let key = t0.key_at(addr);
                    let o = addr.offset@;
                    assert(t0.node_ok(addr.id));
                    if o > 0 {
                        assert(lt(t0.items(addr.id)[o - 1].key_spec(), t0.items(addr.id)[o].key_spec()));
                    }
                    if o + 1 < t0.items(addr.id).len() {
                        assert(lt(t0.items(addr.id)[o].key_spec(), t0.items(addr.id)[o + 1].key_spec()));
                    }
                    let hi = upcoming(ta, addr);
                    assert(below(key, hi));
                    assert forall|c: ItemAddr| !#[trigger] ta.key_between(Some(key), c, hi) by {
                        if ta.key_between(Some(key), c, hi) {
                            assert(ta.key_between(ta.low(addr.id, o), c, hi));
                        }
                    }
                }
                let ghost ta = self.tree();
                let ghost gone = t0.key_at(addr);
                let ghost place = addr;
                let addr = self.rebalance(addr.id, addr);
                proof {
                    ta.lemma_between_subset(self.tree(), Some(gone), upcoming(ta, place));
                }
                self.len -= 1;
                let addr = self.settled(addr, Ghost(gone));
                Some((item, addr))
            },
            Some(Err(left_child_id)) => {
                // removed from an internal node.
                proof {
                    assert(self.tree().nodes =~= t0.nodes);
                    assert(t0.child_ok(addr.id, addr.offset@));
                }
                let new_addr = self.next_item_or_back_address(addr).unwrap();
                let (separator, leaf_id) = self.remove_rightmost_leaf_of(left_child_id);
                let ghost ta = self.tree();
                proof {
                    assert(leaf_id != addr.id);
                    assert(untouched(t0, ta, addr.id));
                }
                let item = self.node_mut(addr.id).replace(addr.offset, separator);
                proof {
                    let gone = t0.key_at(addr);
                    let lo = swap_bound(t0.lower, gone, separator.key_spec());
                    let hi = swap_bound(t0.upper, gone, separator.key_spec());
                    self.book = Ghost(Bookkeeping { height: t0.height, lower: lo, upper: hi });
                }
                proof {
                    let t1 = self.tree();
                    assert(t1.nodes.dom() =~= t0.nodes.dom());
                    assert(t0.node_ok(leaf_id));
                    let n = t0.items(leaf_id).len() as int;
                    assert(t0.covers(leaf_id, separator.key_spec())) by {
                        assert(t0.items(leaf_id)[n - 1] == separator);
                    }
                    assert(t0.covers(left_child_id, separator.key_spec()));
                    assert(leaf_id != addr.id);
                    assert(untouched(t0, ta, addr.id));
                    assert forall|y: usize| t0.live(y) && y != addr.id && y != leaf_id implies #[trigger] untouched(
                        t0,
                        t1,
                        y,
                    ) by {
                        assert(untouched(t0, ta, y));
                    }
                    assert(t0.replaced_by_last(t1, addr, leaf_id));
                    t0.lemma_replaced_by_last(t1, addr, leaf_id);
                    assert(t1.back(new_addr)) by {
                        assert(untouched(t0, ta, new_addr.id) || new_addr.id == leaf_id);
                    }
                    // the item after the one that is gone is the first of its leaf
                    let gone = t0.key_at(addr);
                    t0.lemma_gap_empty(new_addr.id, 0);
                    assert(t0.node_ok(new_addr.id));
                    assert(new_addr.id != addr.id);
                    assert(new_addr.id != leaf_id) by {
                        if new_addr.id == leaf_id {
                            lemma_order_basics(gone, gone);
                        }
                    }
                    assert(untouched(t0, t1, new_addr.id));
                    let hi = upcoming(t1, new_addr);
                    assert(hi == upcoming(t0, new_addr));
                    assert(t0.no_key_between(Some(gone), hi));
                    assert forall|b: ItemAddr| #[trigger] t1.occupied(b) implies t0.has_item(t1.item_at(b)) by {
                        assert(t0.has_item_but(addr, t1.item_at(b)));
                        let c = choose|c: ItemAddr| c != addr && #[trigger] t0.item_is(c, t1.item_at(b));
                        assert(t0.item_is(c, t1.item_at(b)));
                    }
                    t0.lemma_between_subset(t1, Some(gone), hi);
                }
                let ghost tb = self.tree();
                let ghost gone = t0.key_at(addr);
                let ghost place = new_addr;
                let addr = self.rebalance(leaf_id, new_addr);
                proof {
                    tb.lemma_between_subset(self.tree(), Some(gone), upcoming(tb, place));
                }
                self.len -= 1;
                let addr = self.settled(addr, Ghost(gone));
                Some((item, addr))
            },
            None => {
                proof {
                    assert(self.tree().nodes =~= t0.nodes);
                }
                None
            },
        }
    }

    /// Removes a key from the map, returning the value at the key if the
    /// key was previously in the map.
    pub fn remove(&mut self, key: &K) -> (r: Option<V>)
        requires
            total_order::<K>(),
            old(self).wf(),
        ensures
            final(self).wf(),
            final(self).tree().sound(),
            final(self)@ == old(self)@.remove(*key),
            r == (if old(self)@.dom().contains(*key) {
                Some(old(self)@[*key])
            } else {
                None
            }),
    {
        let r = match self.address_of(key) {
            Ok(addr) => {
                proof {
                    self.tree().lemma_view_at(addr);
                    self.lemma_steps(addr.id);
                }
                let (item, _) = self.remove_at(addr).unwrap();
                Some(item.into_value())
            },
            Err(_) => {
                proof {
                    assert(self@.remove(*key) =~= self@);
                }
                None
            },
        };
        proof {
            self.lemma_sound();
        }
        r
    }

    /// Removes a key from the map, returning the stored key and value if
    /// the key was previously in the map.
    pub fn remove_entry(&mut self, key: &K) -> (r: Option<(K, V)>)
        requires
            total_order::<K>(),
            old(self).wf(),
        ensures
            final(self).wf(),
            final(self)@ == old(self)@.remove(*key),
            r == (if old(self)@.dom().contains(*key) {
                Some((*key, old(self)@[*key]))
            } else {
                None
            }),
    {
        match self.address_of(key) {
            Ok(addr) => {
                proof {
                    self.tree().lemma_view_at(addr);
                    self.lemma_steps(addr.id);
                }
                let (item, _) = self.remove_at(addr).unwrap();
                Some(item.into_pair())
            },
            Err(_) => {
                proof {
                    assert(self@.remove(*key) =~= self@);
                }
                None
            },
        }
    }

    /// Removes and returns the binding in the map, if any, of which key
    /// matches the given one.
    pub fn take(&mut self, key: &K) -> (r: Option<(K, V)>)
        requires
            total_order::<K>(),
            old(self).wf(),
        ensures
            final(self).wf(),
            final(self)@ == old(self)@.remove(*key),
            r == (if old(self)@.dom().contains(*key) {
                Some((*key, old(self)@[*key]))
            } else {
                None
            }),
    {
        self.remove_entry(key)
    }

    /// The least key of the map is `k`.
    pub open spec fn is_first_key(&self, k: K) -> bool {
        self@.dom().contains(k) && forall|q: K| #[trigger] self@.dom().contains(q) ==> q == k || lt(k, q)
    }

    /// The greatest key of the map is `k`.
    pub open spec fn is_last_key(&self, k: K) -> bool {
        self@.dom().contains(k) && forall|q: K| #[trigger] self@.dom().contains(q) ==> q == k || lt(q, k)
    }

    /// The first item of a tree holds the least key of its map.
    pub proof fn lemma_first_key(&self, a: ItemAddr)
        requires
            total_order::<K>(),
            self.tree().shape(),
            self.tree().next_after(None, Some(a)),
        ensures
            self.is_first_key(self.tree().key_at(a)),
            self@[self.tree().key_at(a)] == self.tree().item_at(a).value_spec(),
    {
        let t = self.tree();
        let k = t.key_at(a);
        t.lemma_view_at(a);
        assert forall|q: K| #[trigger] self@.dom().contains(q) implies q == k || lt(k, q) by {
            let c = t.addr_of(q);
            assert(t.holds(c, q));
            assert(!t.key_between(None, c, Some(k)));
            lemma_order_basics(k, q);
        }
    }

    /// The last item of a tree holds the greatest key of its map.
    pub proof fn lemma_last_key(&self, a: ItemAddr)
        requires
            total_order::<K>(),
            self.tree().shape(),
            self.tree().prev_before(None, Some(a)),
        ensures
            self.is_last_key(self.tree().key_at(a)),
            self@[self.tree().key_at(a)] == self.tree().item_at(a).value_spec(),
    {
        let t = self.tree();
        let k = t.key_at(a);
        t.lemma_view_at(a);
        assert forall|q: K| #[trigger] self@.dom().contains(q) implies q == k || lt(q, k) by {
            let c = t.addr_of(q);
            assert(t.holds(c, q));
            assert(!t.key_between(Some(k), c, None));
            lemma_order_basics(k, q);
        }
    }

    /// Returns the first key-value pair in the map. The key in this pair
    /// is the minimum key in the map.
    pub fn first_key_value(&self) -> (r: Option<(&K, &V)>)
        requires
            total_order::<K>(),
            self.wf(),
        ensures
            r is None <==> self@.dom().len() == 0,
            r is Some ==> self.is_first_key(*r.unwrap().0) && *r.unwrap().1 == self@[*r.unwrap().0],
    {
        proof {
            self.lemma_empty();
        }
        match self.first_item_address() {
            Some(addr) => {
                proof {
                    self.lemma_first_key(addr);
                }
                let item = self.item(addr).unwrap();
                Some((item.key(), item.value()))
            },
            None => None,
        }
    }

    /// Returns the last key-value pair in the map. The key in this pair is
    /// the maximum key in the map.
    pub fn last_key_value(&self) -> (r: Option<(&K, &V)>)
        requires
            total_order::<K>(),
            self.wf(),
        ensures
            r is None <==> self@.dom().len() == 0,
            r is Some ==> self.is_last_key(*r.unwrap().0) && *r.unwrap().1 == self@[*r.unwrap().0],
    {
        proof {
            self.lemma_empty();
        }
        match self.last_item_address() {
            Some(addr) => {
                proof {
                    self.lemma_last_key(addr);
                }
                let item = self.item(addr).unwrap();
                Some((item.key(), item.value()))
            },
            None => None,
        }
    }

    /// Removes and returns the first element in the map. The key of this
    /// element is the minimum key that was in the map.
    pub fn pop_first(&mut self) -> (r: Option<(K, V)>)
        requires
            total_order::<K>(),
            old(self).wf(),
        ensures
            final(self).wf(),
            r is None <==> old(self)@.dom().len() == 0,
            r is None ==> final(self)@ == old(self)@,
            r is Some ==> {
                &&& old(self).is_first_key(r.unwrap().0)
                &&& r.unwrap().1 == old(self)@[r.unwrap().0]
                &&& final(self)@ == old(self)@.remove(r.unwrap().0)
            },
    {
        proof {
            self.lemma_empty();
        }
        match self.first_item_address() {
            Some(addr) => {
                proof {
                    self.lemma_first_key(addr);
                }
                let (item, _) = self.remove_at(addr).unwrap();
                Some(item.into_pair())
            },
            None => None,
        }
    }

    /// Removes and returns the last element in the map. The key of this
    /// element is the maximum key that was in the map.
    pub fn pop_last(&mut self) -> (r: Option<(K, V)>)
        requires
            total_order::<K>(),
            old(self).wf(),
        ensures
            final(self).wf(),
            r is None <==> old(self)@.dom().len() == 0,
            r is None ==> final(self)@ == old(self)@,
            r is Some ==> {
                &&& old(self).is_last_key(r.unwrap().0)
                &&& r.unwrap().1 == old(self)@[r.unwrap().0]
                &&& final(self)@ == old(self)@.remove(r.unwrap().0)
            },
    {
        proof {
            self.lemma_empty();
        }
        match self.last_item_address() {
            Some(addr) => {
                proof {
                    self.lemma_last_key(addr);
                }
                let (item, _) = self.remove_at(addr).unwrap();
                Some(item.into_pair())
            },
            None => None,
        }
    }

    /// Get the previous front address.
    ///
    /// A "front address" is a valid address whose offset is less than the
    /// number of items in the node. From a place in a node this leads to the
    /// last item of the leaf before that place, or to the offset before it
    /// in a leaf; from the offset `-1` of a node it leads up to the item on
    /// the left of the node in its parent.
    #[verifier::loop_isolation(false)]
    pub fn previous_front_address(&self, addr: ItemAddr) -> (r: Option<ItemAddr>)
        requires
            total_order::<K>(),
            self.tree().shape(),
            addr.is_nowhere() || self.tree().valid(addr),
        ensures
            addr.is_nowhere() ==> r is None,
            r is Some ==> self.tree().front(r->0),
            !addr.is_nowhere() && addr.offset@ >= 0 ==> {
                &&& r is Some
                &&& self.tree().node(r->0.id).is_leaf()
                &&& self.tree().high(r->0.id, r->0.offset@ + 1) == self.tree().high(addr.id, addr.offset@)
            },
            !addr.is_nowhere() && addr.offset@ == -1 ==> match r {
                Some(b) => self.tree().is_child(b.id, b.offset@ + 1, addr.id) && self.tree().node(addr.id).parent_spec() == Some(b.id),
                None => self.tree().root == Some(addr.id),
            },
    {
        let ghost t = self.tree();
        let ghost a0 = addr;
        let mut addr = addr;
        if addr.is_nowhere() {
            proof {
                if t.live(addr.id) {
                    assert(t.node_ok(addr.id));
                }
            }
            return None
        }
        let ghost hi = t.high(a0.id, a0.offset@);
        loop
            invariant
                t.valid(addr),
                addr == a0 || (addr.offset@ == t.items(addr.id).len() && t.high(addr.id, addr.offset@) == hi
                    && a0.offset@ >= 0),
            decreases t.height[addr.id],
        {
            proof {
                self.lemma_steps(addr.id);
            }
            let node = self.node(addr.id);
            match addr.offset.value() {
                Some(offset) => {
                    let index = if offset < node.item_count() {
                        offset
                    } else {
                        node.item_count()
                    };
                    match node.child_id_opt(index) {
                        Some(child_id) => {
                            proof {
                                assert(t.child_ok(addr.id, index as int));
                                self.lemma_steps(child_id);
                            }
                            addr.offset = Offset(self.node(child_id).item_count());
                            addr.id = child_id;
                        },
                        None => {
                            addr.offset.decr();
                            break ;
                        },
                    }
                },
                None => {
                    match node.parent() {
                        Some(parent_id) => {
                            let index = self.node(parent_id).child_index(addr.id).unwrap();
                            proof {
                                assert(t.is_child(parent_id, index as int, addr.id));
                                self.lemma_steps(parent_id);
                            }
                            addr.offset = Offset(index);
                            addr.offset.decr();
                            addr.id = parent_id;
                            break ;
                        },
                        None => return None,
                    }
                },
            }
        }
        Some(addr)
    }

    /// Get the next back address.
    ///
    /// A "back address" is a valid address whose offset is at least `0`.
    /// From an item this leads to the place right after the item, in the
    /// first leaf after it; from the end of a node it leads up to the place
    /// of the node in its parent.
    #[verifier::loop_isolation(false)]
    pub fn next_back_address(&self, addr: ItemAddr) -> (r: Option<ItemAddr>)
        requires
            total_order::<K>(),
            self.tree().shape(),
            addr.is_nowhere() || self.tree().valid(addr),
        ensures
            addr.is_nowhere() ==> r is None,
            r is Some ==> self.tree().back(r->0),
            !addr.is_nowhere() && addr.offset@ < self.tree().items(addr.id).len() ==> {
                &&& r is Some
                &&& self.tree().node(r->0.id).is_leaf()
                &&& self.tree().low(r->0.id, r->0.offset@) == self.tree().low(addr.id, addr.offset@ + 1)
            },
            !addr.is_nowhere() && addr.offset@ == self.tree().items(addr.id).len() ==> match r {
                Some(b) => self.tree().is_child(b.id, b.offset@, addr.id) && self.tree().node(addr.id).parent_spec()
                    == Some(b.id),
                None => self.tree().root == Some(addr.id),
            },
    {
        let ghost t = self.tree();
        let ghost a0 = addr;
        let mut addr = addr;
        if addr.is_nowhere() {
            proof {
                if t.live(addr.id) {
                    assert(t.node_ok(addr.id));
                }
            }
            return None
        }
        let ghost lo = t.low(a0.id, a0.offset@ + 1);
        loop
            invariant
                t.valid(addr),
                addr == a0 || (addr.offset@ == -1 && t.lower[addr.id] == lo && a0.offset@ < t.items(a0.id).len()),
            decreases t.height[addr.id],
        {
            proof {
                self.lemma_steps(addr.id);
            }
            let node = self.node(addr.id);
            let index = match addr.offset.value() {
                Some(offset) => offset + 1,
                None => 0,
            };
            if index <= node.item_count() {
                match node.child_id_opt(index) {
                    Some(child_id) => {
                        proof {
                            assert(t.child_ok(addr.id, index as int));
                            self.lemma_steps(child_id);
                        }
                        addr.offset = Offset::before();
                        addr.id = child_id;
                    },
                    None => {
                        addr.offset = Offset(index);
                        break ;
                    },
                }
            } else {
                match node.parent() {
                    Some(parent_id) => {
                        let index = self.node(parent_id).child_index(addr.id).unwrap();
                        proof {
                            assert(t.is_child(parent_id, index as int, addr.id));
                            self.lemma_steps(parent_id);
                        }
                        addr.offset = Offset(index);
                        addr.id = parent_id;
                        break ;
                    },
                    None => {
                        return None
                    },
                }
            }
        }
        Some(addr)
    }

    /// Set the new known number of items in the tree.
    ///
    /// Nothing here keeps the count in step with the tree.
    pub fn set_len(&mut self, new_len: usize)
        ensures
            final(self).count() == new_len,
            final(self).tree() == old(self).tree(),
    {
        self.len = new_len
    }

    /// Set the root node identifier.
    ///
    /// Nothing here keeps the tree in order.
    pub fn set_root_id(&mut self, id: Option<usize>)
        ensures
            final(self).tree() == (Tree { root: id, ..old(self).tree() }),
            final(self).count() == old(self).count(),
    {
        self.root = id
    }

    /// Clears the map, removing all elements.
    pub fn clear(&mut self)
        ensures
            final(self).wf(),
            final(self)@ == Map::<K, V>::empty(),
    {
        self.root = None;
        self.len = 0;
        self.nodes.clear();
        proof {
            let t = self.tree();
            assert(t.nodes.dom() =~= Set::<usize>::empty());
            assert forall|k: K| !t.has_key(k) by {
                if t.has_key(k) {
                    assert(t.holds(t.addr_of(k), k));
                }
            }
            assert(self@.dom() =~= Set::<K>::empty());
            assert(self@ =~= Map::<K, V>::empty());
        }
    }

    /// Get a mutable reference to the item located at the given address.
    ///
    /// Changing the key of the item so that its order among the other keys
    /// changes is a logic error.
    pub fn item_mut(&mut self, addr: ItemAddr) -> (r: Option<&mut Item<K, V>>)
        requires
            old(self).tree().live(addr.id),
        ensures
            r is Some <==> old(self).tree().occupied(addr),
            final(self).count() == old(self).count(),
            r is None ==> old(self).tree().edited(final(self).tree(), addr.id, old(self).tree().items(addr.id)),
            r is Some ==> {
                &&& *r->0 == old(self).tree().item_at(addr)
                &&& old(self).tree().edited(
                    final(self).tree(),
                    addr.id,
                    old(self).tree().items(addr.id).update(addr.offset@, *final(r->0)),
                )
            },
    {
        self.node_mut(addr.id).item_mut(addr.offset)
    }

    /// Returns a mutable reference to the value corresponding to the key.
    pub fn get_mut(&mut self, key: &K) -> (r: Option<&mut V>)
        requires
            total_order::<K>(),
            old(self).wf(),
        ensures
            r is Some <==> old(self)@.dom().contains(*key),
            r is None ==> final(self).wf() && final(self)@ == old(self)@,
            r is Some ==> {
                &&& *r->0 == old(self)@[*key]
                &&& old(self).tree().value_set(final(self).tree(), old(self).tree().addr_of(*key), *final(r->0))
                &&& final(self).wf()
                &&& final(self)@ == old(self)@.insert(*key, *final(r->0))
            },
    {
        match self.root {
            Some(id) => self.get_mut_in(key, id),
            None => {
                proof {
                    self.lemma_empty();
                }
                None
            },
        }
    }

    /// Get a mutable reference to the value associated to the given `key`
    /// in the node `id` or below it, if any.
    pub fn get_mut_in(&mut self, key: &K, id: usize) -> (r: Option<&mut V>)
        requires
            total_order::<K>(),
            old(self).wf(),
            old(self).tree().live(id),
        ensures
            r is Some <==> old(self)@.dom().contains(*key) && old(self).tree().covers(id, *key),
            r is None ==> final(self).wf() && final(self)@ == old(self)@,
            r is Some ==> *r->0 == old(self)@[*key],
            r is Some ==> old(self).tree().value_set(
                final(self).tree(),
                old(self).tree().addr_of(*key),
                *final(r->0),
            ),
            r is Some ==> final(self).count() == old(self).count(),
            r is Some ==> final(self).wf(),
            r is Some ==> final(self)@ == old(self)@.insert(*key, *final(r->0)),
    {
        let ghost t0 = self.tree();
        let ghost c0 = self.count();
        match self.address_in(id, key) {
            Ok(addr) => {
                proof {
                    t0.lemma_view_at(addr);
                    self.lemma_node(addr.id);
                    assert forall|t1: Tree<K, V>, v: V| #[trigger] t0.value_set(t1, addr, v) implies t1.btree()
                        && t1.full_but(None) && t1.view() == t0.view().insert(*key, v) && t1.view().dom()
                        == t0.view().dom() by {
                        t0.lemma_value_set(t1, addr, v);
                    }
                }
                Some(self.node_mut(addr.id).item_mut(addr.offset).unwrap().value_mut())
            },
            Err(_) => None,
        }
    }

    /// The value to which the map binds `key`, if any.
    pub open spec fn current(&self, key: K) -> Option<V> {
        if self@.dom().contains(key) {
            Some(self@[key])
        } else {
            None
        }
    }

    /// Update a value in the map.
    ///
    /// `action` gets the value bound to `key`, if any, and returns the
    /// value to bind `key` to, or `None` to leave `key` unbound, together
    /// with the result of the update.
    pub fn update<T, F>(&mut self, key: K, action: F) -> (r: T) where F: FnOnce(Option<V>) -> (Option<V>, T)
        requires
            total_order::<K>(),
            old(self).wf(),
            old(self)@.dom().contains(key) || old(self).count() < usize::MAX,
            call_requires(action, (old(self).current(key),)),
        ensures
            final(self).wf(),
            final(self).tree().sound(),
            exists|bound: Option<V>| #[trigger]
                call_ensures(action, (old(self).current(key),), (bound, r)) && final(self)@ == put(old(self)@, key, bound),
    {
        let r = match self.root {
            Some(id) => self.update_in(id, key, action),
            None => {
                proof {
                    self.lemma_empty();
                }
                let (to_insert, result) = action(None);
                if let Some(value) = to_insert {
                    self.insert_exactly_at(ItemAddr::nowhere(), Item::new(key, value), None);
                } else {
                    proof {
                        assert(self@.remove(key) =~= self@);
                    }
                }
                proof {
                    assert(call_ensures(action, (old(self).current(key),), (to_insert, result)));
                }
                result
            },
        };
        proof {
            self.lemma_sound();
        }
        r
    }

    /// Update a value in the node `id` or below it.
    pub fn update_in<T, F>(&mut self, id: usize, key: K, action: F) -> (r: T) where
        F: FnOnce(Option<V>) -> (Option<V>, T),

        requires
            total_order::<K>(),
            old(self).wf(),
            old(self).tree().live(id),
            old(self).tree().covers(id, key),
            old(self)@.dom().contains(key) || old(self).count() < usize::MAX,
            call_requires(action, (old(self).current(key),)),
        ensures
            final(self).wf(),
            exists|bound: Option<V>| #[trigger]
                call_ensures(action, (old(self).current(key),), (bound, r)) && final(self)@ == put(old(self)@, key, bound),
    {
        let ghost t0 = self.tree();
        match self.address_in(id, &key) {
            Ok(addr) => {
                proof {
                    t0.lemma_view_at(addr);
                    self.lemma_node(addr.id);
                }
                let on_value = move |value: V| -> (out: (Option<V>, T))
                    requires
                        call_requires(action, (Some(value),)),
                    ensures
                        call_ensures(action, (Some(value),), out),
                    { action(Some(value)) };
                let ghost cur = t0.item_at(addr).value_spec();
                let result = self.update_at(addr, on_value);
                proof {
                    let bound = choose|bound: Option<V>| #[trigger]
                        call_ensures(on_value, (cur,), (bound, result)) && self@ == put(old(self)@, key, bound);
                    assert(call_ensures(action, (old(self).current(key),), (bound, result)));
                }
                result
            },
            Err(addr) => {
                let (opt_new_value, result) = action(None);
                if let Some(new_value) = opt_new_value {
                    self.insert_exactly_at(addr, Item::new(key, new_value), None);
                } else {
                    proof {
                        assert(self@.remove(key) =~= self@);
                    }
                }
                proof {
                    assert(call_ensures(action, (old(self).current(key),), (opt_new_value, result)));
                }
                result
            },
        }
    }

    /// Update a value at the given address.
    ///
    /// `action` gets the value at the address and returns the value to put
    /// there, or `None` to have the item removed, together with the result
    /// of the update.
    pub fn update_at<T, F>(&mut self, addr: ItemAddr, action: F) -> (r: T) where F: FnOnce(V) -> (Option<V>, T)
        requires
            total_order::<K>(),
            old(self).wf(),
            old(self).tree().occupied(addr),
            call_requires(action, (old(self).tree().item_at(addr).value_spec(),)),
        ensures
            final(self).wf(),
            exists|bound: Option<V>| #[trigger]
                call_ensures(action, (old(self).tree().item_at(addr).value_spec(),), (bound, r)) && final(self)@
                    == put(old(self)@, old(self).tree().key_at(addr), bound),
    {
        let ghost t0 = self.tree();
        let ghost key = t0.key_at(addr);
        proof {
            t0.lemma_view_at(addr);
            self.lemma_node(addr.id);
        }
        let value = self.node_mut(addr.id).item_mut(addr.offset).unwrap().take_value();
        let ghost th = self.tree();
        proof {
            let hollow = th.items(addr.id)[addr.offset@];
            assert(th.nodes.dom() =~= t0.nodes.dom());
            assert forall|x: usize| t0.live(x) && x != addr.id implies #[trigger] untouched(t0, th, x) by {}
            assert(t0.edited(th, addr.id, t0.items(addr.id).update(addr.offset@, hollow)));
            t0.lemma_item_set(th, addr, hollow);
            assert(th.balanced_but(None));
        }
        let (opt_new_value, result) = action(value);
        match opt_new_value {
            Some(new_value) => {
                self.node_mut(addr.id).item_mut(addr.offset).unwrap().put_value(new_value);
                proof {
                    let t1 = self.tree();
                    let item = t1.items(addr.id)[addr.offset@];
                    assert(t1.nodes.dom() =~= th.nodes.dom());
                    assert forall|x: usize| th.live(x) && x != addr.id implies #[trigger] untouched(th, t1, x) by {}
                    assert(th.edited(t1, addr.id, th.items(addr.id).update(addr.offset@, item)));
                    th.lemma_item_set(t1, addr, item);
                    assert(t1.balanced_but(None));
                    assert(t1.view() =~= t0.view().insert(key, new_value));
                }
            },
            None => {
                let (item, _) = self.remove_at(addr).unwrap();
                item.forget_value();
                proof {
                    assert(self@ =~= t0.view().remove(key));
                }
            },
        }
        proof {
            assert(call_ensures(action, (t0.item_at(addr).value_spec(),), (opt_new_value, result)));
        }
        result
    }
}

/// The map `m` with `key` bound to the value `bound`, or unbound if there
/// is none.
pub open spec fn put<K, V>(m: Map<K, V>, key: K, bound: Option<V>) -> Map<K, V> {
    match bound {
        Some(v) => m.insert(key, v),
        None => m.remove(key),
    }
}

impl<K: Ord, V, C: ContainerMut<Node<K, V>>> Default for BTreeMap<K, V, C> {
    fn default() -> (map: Self)
        ensures
            map.wf(),
            map@ == Map::<K, V>::empty(),
    {
        BTreeMap::new()
    }
}

} // verus!
