//! What putting an item into a tree, taking one out and replacing one do to
//! the tree and to the map that it stands for.
use vstd::prelude::*;
use crate::generic::map::moves::untouched;
use crate::generic::map::tree::{above, below, Tree};
use crate::generic::node::{within, Item, ItemAddr, Keyed, Node, Offset, M};
use crate::utils::{is_gap, lemma_inserted_sorted, lemma_order_basics, lt, sorted, total_order};

verus! {

impl<K: Ord, V> Tree<K, V> {
    /// The item `it` stands in the tree at an address other than `a`.
    pub open spec fn has_item_but(&self, a: ItemAddr, it: Item<K, V>) -> bool {
        exists|b: ItemAddr| b != a && #[trigger] self.item_is(b, it)
    }

    /// `other` holds the items of this tree and one more, at `a`.
    pub open spec fn grown_into(&self, other: Tree<K, V>, a: ItemAddr) -> bool {
        &&& other.occupied(a)
        &&& self.items_into(other)
        &&& forall|b: ItemAddr| #[trigger] other.occupied(b) && b != a ==> self.has_item(other.item_at(b))
    }

    /// A tree that holds one item more stands for the map with one binding
    /// more.
    pub proof fn lemma_view_added(&self, other: Tree<K, V>, a: ItemAddr)
        requires
            total_order::<K>(),
            self.shape(),
            other.shape(),
            self.grown_into(other, a),
            !self.view().dom().contains(other.item_at(a).key_spec()),
        ensures
            other.view() == self.view().insert(other.item_at(a).key_spec(), other.item_at(a).value_spec()),
            self.full_but(None) && other.item_at(a).full() ==> other.full_but(None),
    {
        let k = other.item_at(a).key_spec();
        let v = other.item_at(a).value_spec();
        other.lemma_view_at(a);
        self.lemma_items_into(other);
        let goal = self.view().insert(k, v);
        assert forall|q: K| other.view().dom().contains(q) <==> goal.dom().contains(q) by {
            if other.view().dom().contains(q) && q != k {
                let b = other.addr_of(q);
                assert(other.holds(b, q));
                assert(b != a);
                let it = other.item_at(b);
                assert(self.has_item(it));
                let c = choose|c: ItemAddr| #[trigger] self.item_is(c, it);
                assert(self.holds(c, q));
            }
        }
        assert forall|q: K| goal.dom().contains(q) implies #[trigger] other.view()[q] == goal[q] by {
            if q != k {
                assert(self.view().dom().contains(q));
            }
        }
        assert(other.view().dom() =~= goal.dom());
        assert(other.view() =~= goal);
        if self.full_but(None) && other.item_at(a).full() {
            assert forall|b: ItemAddr| #[trigger] other.occupied(b) implies other.item_at(b).full() by {
                if b != a {
                    let it = other.item_at(b);
                    assert(self.has_item(it));
                    let c = choose|c: ItemAddr| #[trigger] self.item_is(c, it);
                    assert(self.occupied(c));
                }
            }
        }
    }

    /// `other` holds the items of this tree but the one at `a`.
    pub open spec fn shrunk_into(&self, other: Tree<K, V>, a: ItemAddr) -> bool {
        &&& self.occupied(a)
        &&& forall|b: ItemAddr| #[trigger] other.occupied(b) ==> self.has_item_but(a, other.item_at(b))
        &&& forall|b: ItemAddr| #[trigger] self.occupied(b) && b != a ==> other.has_item(self.item_at(b))
    }

    /// A tree that holds one item less stands for the map with one binding
    /// less.
    pub proof fn lemma_view_removed(&self, other: Tree<K, V>, a: ItemAddr)
        requires
            total_order::<K>(),
            self.shape(),
            other.shape(),
            self.shrunk_into(other, a),
        ensures
            other.view() == self.view().remove(self.item_at(a).key_spec()),
            self.full_but(Some(a)) ==> other.full_but(None),
    {
        let k = self.item_at(a).key_spec();
        self.lemma_view_at(a);
        let goal = self.view().remove(k);
        assert forall|b: ItemAddr| #[trigger] other.occupied(b) implies self.has_item(other.item_at(b)) by {
            let it = other.item_at(b);
            assert(self.has_item_but(a, it));
            let c = choose|c: ItemAddr| c != a && #[trigger] self.item_is(c, it);
            assert(self.item_is(c, it));
        }
        other.lemma_items_into(*self);
        assert forall|q: K| other.view().dom().contains(q) <==> goal.dom().contains(q) by {
            if other.view().dom().contains(q) {
                let b = other.addr_of(q);
                assert(other.holds(b, q));
                let it = other.item_at(b);
                assert(self.has_item_but(a, it));
                let c = choose|c: ItemAddr| c != a && #[trigger] self.item_is(c, it);
                if q == k {
                    self.lemma_unique(a, c);
                }
            }
            if goal.dom().contains(q) {
                let b = self.addr_of(q);
                assert(self.holds(b, q));
                assert(b != a);
                let it = self.item_at(b);
                assert(other.has_item(it));
                let c = choose|c: ItemAddr| #[trigger] other.item_is(c, it);
                assert(other.holds(c, q));
            }
        }
        assert forall|q: K| goal.dom().contains(q) implies #[trigger] other.view()[q] == goal[q] by {
            assert(other.view().dom().contains(q));
        }
        assert(other.view().dom() =~= goal.dom());
        assert(other.view() =~= goal);
        if self.full_but(Some(a)) {
            assert forall|b: ItemAddr| #[trigger] other.occupied(b) implies other.item_at(b).full() by {
                let it = other.item_at(b);
                assert(self.has_item_but(a, it));
                let c = choose|c: ItemAddr| c != a && #[trigger] self.item_is(c, it);
                assert(self.occupied(c));
            }
        }
    }

    /// `other` is this tree with one node more or less full: the items of
    /// the node `id` are `items`, and nothing else has changed.
    pub open spec fn edited(&self, other: Tree<K, V>, id: usize, items: Seq<Item<K, V>>) -> bool {
        &&& self.live(id)
        &&& other.nodes.dom() =~= self.nodes.dom()
        &&& other.root == self.root
        &&& other.height == self.height
        &&& other.lower == self.lower
        &&& other.upper == self.upper
        &&& other.node(id).is_leaf() == self.node(id).is_leaf()
        &&& other.node(id).parent_spec() == self.node(id).parent_spec()
        &&& other.kids(id) =~= self.kids(id)
        &&& other.items(id) =~= items
        &&& forall|x: usize| self.live(x) && x != id ==> #[trigger] untouched(*self, other, x)
    }

    /// A tree in which the items of one node have changed is a search tree
    /// still, where the node is sorted and within its bounds as before and
    /// the keys next to its children are the same.
    pub proof fn lemma_edited(&self, other: Tree<K, V>, id: usize)
        requires
            total_order::<K>(),
            self.shape(),
            self.edited(other, id, other.items(id)),
            other.items(id).len() <= M + 1,
            sorted(other.items(id)),
            within(other.items(id), self.lower[id], self.upper[id]),
            forall|j: int| 0 <= j < self.kids(id).len() ==> other.low(id, j) == self.low(id, j) && other.high(id, j)
                == self.high(id, j),
        ensures
            other.shape(),
    {
        assert forall|x: usize| other.live(x) implies #[trigger] other.node_ok(x) by {
            assert(self.node_ok(x));
            if x != id {
                assert(untouched(*self, other, x));
            }
            assert forall|j: int| 0 <= j < other.kids(x).len() implies #[trigger] other.child_ok(x, j) by {
                assert(self.child_ok(x, j));
                let c = self.kids(x)[j];
                if c != id {
                    assert(untouched(*self, other, c));
                }
            }
            assert(other.kids_ok(x));
            assert(other.local_ok(x));
            assert(self.parent_ok(x));
            match self.node(x).parent_spec() {
                None => {},
                Some(q) => {
                    let j = choose|j: int| #[trigger] self.is_child(q, j, x);
                    if q != id {
                        assert(untouched(*self, other, q));
                    }
                    assert(other.is_child(q, j, x));
                },
            }
            assert(other.parent_ok(x));
        }
    }

    /// Putting an item into its gap in a leaf of a B-Tree gives a search
    /// tree in which that leaf alone may hold one item too many, and which
    /// stands for the map with the item's binding added.
    pub proof fn lemma_leaf_insert(&self, other: Tree<K, V>, a: ItemAddr, item: Item<K, V>)
        requires
            total_order::<K>(),
            self.btree(),
            self.gap(a, item.key_spec()),
            self.edited(other, a.id, self.items(a.id).insert(a.offset@, item)),
        ensures
            other.shape(),
            other.balanced_but(Some(a.id)),
            other.item_is(a, item),
            self.grown_into(other, a),
            !self.view().dom().contains(item.key_spec()),
            other.view() == self.view().insert(item.key_spec(), item.value_spec()),
            self.full_but(None) && item.full() ==> other.full_but(None),
    {
        let id = a.id;
        let o = a.offset@;
        assert(self.node_ok(id));
        self.node(id).lemma_len();
        assert(self.fit(None, id));
        lemma_inserted_sorted(self.items(id), o, item);
        assert(within(other.items(id), self.lower[id], self.upper[id])) by {
            let s0 = self.items(id);
            let s1 = other.items(id);
            if self.lower[id] is Some {
                assert forall|i: int| 0 <= i < s1.len() implies lt(self.lower[id]->0, #[trigger] s1[i].key_spec()) by {
                    if i < o {
                        assert(lt(self.lower[id]->0, s0[i].key_spec()));
                    } else if i > o {
                        assert(lt(self.lower[id]->0, s0[i - 1].key_spec()));
                    }
                }
            }
            if self.upper[id] is Some {
                assert forall|i: int| 0 <= i < s1.len() implies lt(#[trigger] s1[i].key_spec(), self.upper[id]->0) by {
                    if i < o {
                        assert(lt(s0[i].key_spec(), self.upper[id]->0));
                    } else if i > o {
                        assert(lt(s0[i - 1].key_spec(), self.upper[id]->0));
                    }
                }
            }
        }
        self.lemma_edited(other, id);
        assert forall|x: usize| other.live(x) implies #[trigger] other.fit(Some(id), x) by {
            assert(self.fit(None, x));
            if x != id {
                assert(untouched(*self, other, x));
            }
        }
        assert forall|i: int| 0 <= i < self.items(id).len() implies #[trigger] self.items(id)[i].key_spec()
            != item.key_spec() by {
            lemma_order_basics(item.key_spec(), item.key_spec());
            if i < o {
                assert(lt(self.items(id)[i].key_spec(), item.key_spec()));
            } else {
                assert(lt(item.key_spec(), self.items(id)[i].key_spec()));
            }
        }
        self.lemma_miss(id, item.key_spec());
        assert forall|b: ItemAddr| #[trigger] self.occupied(b) implies other.has_item(self.item_at(b)) by {
            if b.id == id {
                if b.offset@ < o {
                    assert(other.item_is(b, self.item_at(b)));
                } else {
                    let c = ItemAddr { id, offset: Offset((b.offset@ + 1) as usize) };
                    assert(other.item_is(c, self.item_at(b)));
                }
            } else {
                assert(untouched(*self, other, b.id));
                assert(other.item_is(b, self.item_at(b)));
            }
        }
        assert forall|b: ItemAddr| #[trigger] other.occupied(b) && b != a implies self.has_item(other.item_at(b)) by {
            if b.id == id {
                if b.offset@ < o {
                    assert(self.item_is(b, other.item_at(b)));
                } else {
                    assert(b.offset@ != o);
                    let c = ItemAddr { id, offset: Offset((b.offset@ - 1) as usize) };
                    assert(self.item_is(c, other.item_at(b)));
                }
            } else {
                assert(untouched(*self, other, b.id));
                assert(self.item_is(b, other.item_at(b)));
            }
        }
        self.lemma_view_added(other, a);
    }

    /// Taking an item out of a leaf of a B-Tree gives a search tree in
    /// which that leaf alone may hold one item too few, and which stands
    /// for the map without the item's binding.
    pub proof fn lemma_leaf_remove(&self, other: Tree<K, V>, a: ItemAddr)
        requires
            total_order::<K>(),
            self.btree(),
            self.occupied(a),
            self.node(a.id).is_leaf(),
            self.edited(other, a.id, self.items(a.id).remove(a.offset@)),
        ensures
            other.shape(),
            other.balanced_but(Some(a.id)),
            other.back(a),
            self.shrunk_into(other, a),
            other.view() == self.view().remove(self.item_at(a).key_spec()),
            self.full_but(Some(a)) ==> other.full_but(None),
    {
        let id = a.id;
        let o = a.offset@;
        assert(self.node_ok(id));
        self.node(id).lemma_len();
        assert(self.fit(None, id));
        let s0 = self.items(id);
        let s1 = other.items(id);
        assert forall|i: int, j: int| 0 <= i < j < s1.len() implies lt(
            #[trigger] s1[i].key_spec(),
            #[trigger] s1[j].key_spec(),
        ) by {
            let i0 = if i < o { i } else { i + 1 };
            let j0 = if j < o { j } else { j + 1 };
            assert(lt(s0[i0].key_spec(), s0[j0].key_spec()));
        }
        assert(within(s1, self.lower[id], self.upper[id])) by {
            if self.lower[id] is Some {
                assert forall|i: int| 0 <= i < s1.len() implies lt(self.lower[id]->0, #[trigger] s1[i].key_spec()) by {
                    let i0 = if i < o { i } else { i + 1 };
                    assert(lt(self.lower[id]->0, s0[i0].key_spec()));
                }
            }
            if self.upper[id] is Some {
                assert forall|i: int| 0 <= i < s1.len() implies lt(#[trigger] s1[i].key_spec(), self.upper[id]->0) by {
                    let i0 = if i < o { i } else { i + 1 };
                    assert(lt(s0[i0].key_spec(), self.upper[id]->0));
                }
            }
        }
        self.lemma_edited(other, id);
        assert forall|x: usize| other.live(x) implies #[trigger] other.fit(Some(id), x) by {
            assert(self.fit(None, x));
            if x != id {
                assert(untouched(*self, other, x));
            }
        }
        assert forall|b: ItemAddr| #[trigger] other.occupied(b) implies self.has_item_but(a, other.item_at(b)) by {
            if b.id == id {
                if b.offset@ < o {
                    assert(self.item_is(b, other.item_at(b)));
                } else {
                    let c = ItemAddr { id, offset: Offset((b.offset@ + 1) as usize) };
                    assert(self.item_is(c, other.item_at(b)));
                }
            } else {
                assert(untouched(*self, other, b.id));
                assert(self.item_is(b, other.item_at(b)));
            }
        }
        assert forall|b: ItemAddr| #[trigger] self.occupied(b) && b != a implies other.has_item(self.item_at(b)) by {
            if b.id == id {
                if b.offset@ < o {
                    assert(other.item_is(b, self.item_at(b)));
                } else {
                    assert(b.offset@ != o);
                    let c = ItemAddr { id, offset: Offset((b.offset@ - 1) as usize) };
                    assert(other.item_is(c, self.item_at(b)));
                }
            } else {
                assert(untouched(*self, other, b.id));
                assert(other.item_is(b, self.item_at(b)));
            }
        }
        self.lemma_view_removed(other, a);
    }

    /// `other` is this tree with the value `v` at the address `a`, and the
    /// key that was there.
    pub open spec fn value_set(&self, other: Tree<K, V>, a: ItemAddr, v: V) -> bool {
        &&& self.occupied(a)
        &&& other.occupied(a)
        &&& other.key_at(a) == self.key_at(a)
        &&& other.item_at(a).slot() == Some(v)
        &&& self.edited(other, a.id, self.items(a.id).update(a.offset@, other.item_at(a)))
    }

    /// A tree in which one value has changed stands for the map in which
    /// the key of that value is bound to the new value; it is a B-Tree if
    /// the tree was one before.
    pub proof fn lemma_value_set(&self, other: Tree<K, V>, a: ItemAddr, v: V)
        requires
            total_order::<K>(),
            self.shape(),
            self.value_set(other, a, v),
        ensures
            other.shape(),
            self.btree() ==> other.btree(),
            other.view() == self.view().insert(self.key_at(a), v),
            other.view().dom() == self.view().dom(),
            self.full_but(Some(a)) ==> other.full_but(None),
    {
        self.lemma_item_set(other, a, other.item_at(a));
    }

    /// A tree in which one value has changed has the keys that it had, at
    /// the addresses where it had them.
    pub proof fn lemma_value_set_keys(&self, other: Tree<K, V>, a: ItemAddr, v: V)
        requires
            self.value_set(other, a, v),
        ensures
            forall|c: ItemAddr| #[trigger] other.occupied(c) <==> self.occupied(c),
            forall|c: ItemAddr| #[trigger] self.occupied(c) ==> other.key_at(c) == self.key_at(c),
            forall|c: ItemAddr| #[trigger] self.occupied(c) && c != a ==> other.item_at(c) == self.item_at(c),
            forall|lo: Option<K>, c: ItemAddr, hi: Option<K>| #[trigger]
                other.key_between(lo, c, hi) <==> self.key_between(lo, c, hi),
    {
        assert forall|c: ItemAddr| #[trigger] other.occupied(c) <==> self.occupied(c) by {
            if self.live(c.id) && c.id != a.id {
                assert(untouched(*self, other, c.id));
            }
        }
        assert forall|c: ItemAddr| #[trigger] self.occupied(c) implies other.key_at(c) == self.key_at(c) && (c != a
            ==> other.item_at(c) == self.item_at(c)) by {
            if c.id != a.id {
                assert(untouched(*self, other, c.id));
            }
        }
        assert forall|lo: Option<K>, c: ItemAddr, hi: Option<K>| #[trigger]
            other.key_between(lo, c, hi) <==> self.key_between(lo, c, hi) by {
            assert(other.occupied(c) <==> self.occupied(c));
        }
    }

    /// Putting another item with the same key in the place of an item of a
    /// tree changes the value to which the map binds the key, and nothing
    /// else.
    pub proof fn lemma_item_set(&self, other: Tree<K, V>, a: ItemAddr, item: Item<K, V>)
        requires
            total_order::<K>(),
            self.shape(),
            self.occupied(a),
            item.key_spec() == self.item_at(a).key_spec(),
            self.edited(other, a.id, self.items(a.id).update(a.offset@, item)),
        ensures
            other.shape(),
            forall|x: Option<usize>| self.balanced_but(x) ==> other.balanced_but(x),
            other.item_is(a, item),
            other.view() == self.view().insert(item.key_spec(), item.value_spec()),
            other.view().dom() == self.view().dom(),
            self.full_but(Some(a)) && item.full() ==> other.full_but(None),
            self.full_but(None) ==> other.full_but(Some(a)),
    {
        let id = a.id;
        let o = a.offset@;
        let k = item.key_spec();
        assert(self.node_ok(id));
        self.node(id).lemma_len();
        let s0 = self.items(id);
        let s1 = other.items(id);
        assert forall|i: int| 0 <= i < s1.len() implies #[trigger] s1[i].key_spec() == s0[i].key_spec() by {}
        assert forall|i: int, j: int| 0 <= i < j < s1.len() implies lt(
            #[trigger] s1[i].key_spec(),
            #[trigger] s1[j].key_spec(),
        ) by {
            assert(lt(s0[i].key_spec(), s0[j].key_spec()));
        }
        assert(within(s1, self.lower[id], self.upper[id])) by {
            if self.lower[id] is Some {
                assert forall|i: int| 0 <= i < s1.len() implies lt(self.lower[id]->0, #[trigger] s1[i].key_spec()) by {
                    assert(lt(self.lower[id]->0, s0[i].key_spec()));
                }
            }
            if self.upper[id] is Some {
                assert forall|i: int| 0 <= i < s1.len() implies lt(#[trigger] s1[i].key_spec(), self.upper[id]->0) by {
                    assert(lt(s0[i].key_spec(), self.upper[id]->0));
                }
            }
        }
        assert forall|j: int| 0 <= j < self.kids(id).len() implies other.low(id, j) == self.low(id, j) && other.high(id, j) == self.high(id, j) by {
            if j > 0 {
                assert(s1[j - 1].key_spec() == s0[j - 1].key_spec());
            }
            if j < s0.len() {
                assert(s1[j].key_spec() == s0[j].key_spec());
            }
        }
        self.lemma_edited(other, id);
        assert forall|x: Option<usize>| self.balanced_but(x) implies other.balanced_but(x) by {
            assert forall|y: usize| other.live(y) implies #[trigger] other.fit(x, y) by {
                assert(self.fit(x, y));
                if y != id {
                    assert(untouched(*self, other, y));
                }
            }
        }
        self.lemma_view_at(a);
        other.lemma_view_at(a);
        let goal = self.view().insert(k, item.value_spec());
        assert forall|b: ItemAddr| #[trigger] self.occupied(b) implies other.occupied(b) && other.item_at(b).key_spec()
            == self.item_at(b).key_spec() && (b != a ==> other.item_at(b) == self.item_at(b)) by {
            if b.id != id {
                assert(untouched(*self, other, b.id));
            }
        }
        assert forall|b: ItemAddr| #[trigger] other.occupied(b) implies self.occupied(b) by {
            if b.id != id {
                assert(untouched(*self, other, b.id));
            }
        }
        assert forall|q: K| other.view().dom().contains(q) <==> goal.dom().contains(q) by {
            if other.view().dom().contains(q) {
                let b = other.addr_of(q);
                assert(other.holds(b, q));
                assert(self.occupied(b));
                assert(self.holds(b, q));
            }
            if self.view().dom().contains(q) {
                let b = self.addr_of(q);
                assert(self.holds(b, q));
                assert(other.holds(b, q));
            }
        }
        assert forall|q: K| goal.dom().contains(q) implies #[trigger] other.view()[q] == goal[q] by {
            if q != k {
                let b = self.addr_of(q);
                assert(self.holds(b, q));
                assert(b != a);
                assert(other.occupied(b));
                other.lemma_view_at(b);
                self.lemma_view_at(b);
            }
        }
        assert(other.view() =~= goal);
        assert(other.view().dom() =~= self.view().dom());
        if self.full_but(Some(a)) && item.full() {
            assert forall|b: ItemAddr| #[trigger] other.occupied(b) implies other.item_at(b).full() by {
                assert(self.occupied(b));
            }
        }
        if self.full_but(None) {
            assert forall|b: ItemAddr| #[trigger] other.occupied(b) && Some(a) != Some(b) implies other.item_at(b).full() by {
                assert(self.occupied(b));
            }
        }
    }

    /// `other` is this tree after the item at `a`, an item of an internal
    /// node, has been taken out and the last item of the leaf `l`, the item
    /// before it, has been put in its place.
    pub open spec fn replaced_by_last(&self, other: Tree<K, V>, a: ItemAddr, l: usize) -> bool {
        let x = a.id;
        let o = a.offset@;
        let gone = self.key_at(a);
        let sep = self.items(l).last();
        &&& self.btree()
        &&& self.occupied(a)
        &&& !self.node(x).is_leaf()
        &&& self.live(l)
        &&& self.node(l).is_leaf()
        &&& self.upper[l] == Some(gone)
        &&& above(self.low(x, o), sep.key_spec())
        &&& other.nodes.dom() == self.nodes.dom()
        &&& other.root == self.root
        &&& other.height == self.height
        &&& other.lower == swap_bound(self.lower, gone, sep.key_spec())
        &&& other.upper == swap_bound(self.upper, gone, sep.key_spec())
        &&& other.node(l).is_leaf()
        &&& other.node(l).parent_spec() == self.node(l).parent_spec()
        &&& other.kids(l) == self.kids(l)
        &&& other.items(l) == self.items(l).drop_last()
        &&& !other.node(x).is_leaf()
        &&& other.node(x).parent_spec() == self.node(x).parent_spec()
        &&& other.kids(x) == self.kids(x)
        &&& other.items(x) == self.items(x).update(o, sep)
        &&& forall|y: usize| self.live(y) && y != x && y != l ==> #[trigger] untouched(*self, other, y)
    }

    proof fn lemma_replaced_facts(&self, other: Tree<K, V>, a: ItemAddr, l: usize)
        requires
            total_order::<K>(),
            self.replaced_by_last(other, a, l),
        ensures
            self.node_ok(a.id),
            self.node_ok(l),
            a.id != l,
            self.items(l).len() >= M / 2 - 1,
            self.kids(l).len() == 0,
            self.kids(a.id).len() == self.items(a.id).len() + 1,
            lt(self.items(l).last().key_spec(), self.key_at(a)),
            self.no_key_between(Some(self.items(l).last().key_spec()), Some(self.key_at(a))),
            self.lower[l] != Some(self.key_at(a)),
            self.lower[a.id] != Some(self.key_at(a)),
            self.upper[a.id] != Some(self.key_at(a)),
            forall|b: ItemAddr| #[trigger]
                self.occupied(b) && lt(self.key_at(b), self.key_at(a)) && self.key_at(b) != self.items(l).last().key_spec() ==> lt(self.key_at(b), self.items(l).last().key_spec()),
    {
        let x = a.id;
        let o = a.offset@;
        let gone = self.key_at(a);
        let n = self.items(l).len() as int;
        let sep = self.items(l).last();
        let ks = sep.key_spec();
        assert(self.node_ok(x));
        assert(self.node_ok(l));
        self.node(x).lemma_len();
        self.node(l).lemma_len();
        assert(self.fit(None, l));
        assert(self.fit(None, x));
        if self.root == Some(l) {
            assert(self.upper[l] is None);
        }
        self.lemma_gap_empty(l, n);
        assert(lt(ks, gone));
        lemma_order_basics(gone, gone);
        assert(self.lower[l] != Some(gone)) by {
            if self.lower[l] == Some(gone) {
                assert(lt(gone, self.items(l)[0].key_spec()));
                assert(lt(self.items(l)[0].key_spec(), gone));
            }
        }
        assert(self.items(x)[o].key_spec() == gone);
        assert forall|b: ItemAddr| #[trigger]
            self.occupied(b) && lt(self.key_at(b), gone) && self.key_at(b) != ks implies lt(self.key_at(b), ks) by {
            lemma_order_basics(self.key_at(b), ks);
            if lt(ks, self.key_at(b)) {
                assert(self.key_between(Some(ks), b, Some(gone)));
            }
        }
    }

    proof fn lemma_replaced_node(&self, other: Tree<K, V>, a: ItemAddr, l: usize, y: usize)
        requires
            total_order::<K>(),
            self.replaced_by_last(other, a, l),
            self.live(y),
        ensures
            other.node_ok(y),
    {
        self.lemma_replaced_facts(other, a, l);
        let x = a.id;
        let o = a.offset@;
        let gone = self.key_at(a);
        let n = self.items(l).len() as int;
        let sep = self.items(l).last();
        let ks = sep.key_spec();
        let last = ItemAddr { id: l, offset: Offset((n - 1) as usize) };
        assert(self.occupied(last) && self.key_at(last) == ks);
        assert(self.node_ok(y));
        self.node(y).lemma_len();
        if y != x && y != l {
            assert(untouched(*self, other, y));
        }
        let s0 = self.items(y);
        let s1 = other.items(y);
        // the keys of the node, but for the one that came from the leaf, are the old ones
        assert forall|i: int| 0 <= i < s1.len() && !(y == x && i == o) implies #[trigger] s1[i] == s0[i] && s0[i].key_spec()
            != gone && s0[i].key_spec() != ks by {
            let b = ItemAddr { id: y, offset: Offset(i as usize) };
            assert(self.occupied(b));
            if s0[i].key_spec() == gone {
                self.lemma_unique(a, b);
            }
            if s0[i].key_spec() == ks {
                self.lemma_unique(last, b);
            }
        }
        assert forall|i: int, j: int| 0 <= i < j < s1.len() implies lt(
            #[trigger] s1[i].key_spec(),
            #[trigger] s1[j].key_spec(),
        ) by {
            assert(lt(s0[i].key_spec(), s0[j].key_spec()));
            if y == x && i == o {
                assert(lt(ks, gone));
            } else if y == x && j == o {
                let b = ItemAddr { id: y, offset: Offset(i as usize) };
                assert(self.occupied(b));
                assert(s1[i] == s0[i]);
                assert(lt(self.key_at(b), ks));
            } else {
                assert(s1[i] == s0[i]);
                assert(s1[j] == s0[j]);
            }
        }
        assert(within(s1, other.lower[y], other.upper[y])) by {
            if other.lower[y] is Some {
                assert forall|i: int| 0 <= i < s1.len() implies lt(other.lower[y]->0, #[trigger] s1[i].key_spec()) by {
                    if y == x && i == o {
                        if o > 0 {
                            assert(lt(self.lower[y]->0, s0[o - 1].key_spec()));
                        }
                    } else {
                        assert(s1[i] == s0[i]);
                        assert(lt(self.lower[y]->0, s0[i].key_spec()));
                        if self.lower[y] == Some(gone) {
                            assert(lt(ks, gone));
                        }
                    }
                }
            }
            if other.upper[y] is Some {
                assert forall|i: int| 0 <= i < s1.len() implies lt(#[trigger] s1[i].key_spec(), other.upper[y]->0) by {
                    if y == x && i == o {
                        assert(lt(s0[o].key_spec(), self.upper[y]->0));
                    } else {
                        assert(s1[i] == s0[i]);
                        assert(lt(s0[i].key_spec(), self.upper[y]->0));
                        if self.upper[y] == Some(gone) {
                            let b = ItemAddr { id: y, offset: Offset(i as usize) };
                            assert(self.occupied(b));
                            assert(lt(self.key_at(b), ks));
                        }
                    }
                }
            }
        }
        assert(other.local_ok(y));
        assert forall|j: int| 0 <= j < other.kids(y).len() implies #[trigger] other.child_ok(y, j) by {
            assert(self.child_ok(y, j));
            let c = self.kids(y)[j];
            if c != x && c != l {
                assert(untouched(*self, other, c));
            }
            if j > 0 {
                if y == x && j - 1 == o {
                } else {
                    assert(s1[j - 1] == s0[j - 1]);
                }
            }
            if j < s0.len() {
                if y == x && j == o {
                } else {
                    assert(s1[j] == s0[j]);
                }
            }
        }
        assert(other.kids_ok(y));
        assert(self.parent_ok(y));
        match self.node(y).parent_spec() {
            None => {},
            Some(q) => {
                let j = choose|j: int| #[trigger] self.is_child(q, j, y);
                if q != x && q != l {
                    assert(untouched(*self, other, q));
                }
                assert(other.is_child(q, j, y));
            },
        }
        assert(other.parent_ok(y));
    }

    /// Putting the item before it in the place of an item of an internal
    /// node keeps the tree a search tree, in which the leaf that gave its
    /// last item alone may hold one item too few, and which stands for the
    /// map without the binding of the item that is gone.
    pub proof fn lemma_replaced_by_last(&self, other: Tree<K, V>, a: ItemAddr, l: usize)
        requires
            total_order::<K>(),
            self.replaced_by_last(other, a, l),
        ensures
            other.shape(),
            other.balanced_but(Some(l)),
            other.live(l),
            self.shrunk_into(other, a),
            other.view() == self.view().remove(self.key_at(a)),
            self.full_but(Some(a)) ==> other.full_but(None),
    {
        self.lemma_replaced_facts(other, a, l);
        let x = a.id;
        let o = a.offset@;
        let n = self.items(l).len() as int;
        let last = ItemAddr { id: l, offset: Offset((n - 1) as usize) };
        assert forall|y: usize| other.live(y) implies #[trigger] other.node_ok(y) by {
            self.lemma_replaced_node(other, a, l, y);
        }
        assert(self.node_ok(self.root->0));
        assert forall|y: usize| other.live(y) implies #[trigger] other.fit(Some(l), y) by {
            assert(self.fit(None, y));
            if y != x && y != l {
                assert(untouched(*self, other, y));
            }
            if y == l {
                assert(self.parent_ok(l));
            }
        }
        assert forall|b: ItemAddr| #[trigger] other.occupied(b) implies self.has_item_but(a, other.item_at(b)) by {
            if b.id == x {
                if b.offset@ == o {
                    assert(self.item_is(last, other.item_at(b)));
                } else {
                    assert(self.item_is(b, other.item_at(b)));
                }
            } else if b.id == l {
                assert(self.item_is(b, other.item_at(b)));
            } else {
                assert(untouched(*self, other, b.id));
                assert(self.item_is(b, other.item_at(b)));
            }
        }
        assert forall|b: ItemAddr| #[trigger] self.occupied(b) && b != a implies other.has_item(self.item_at(b)) by {
            if b.id == x {
                assert(b.offset@ != o);
                assert(other.item_is(b, self.item_at(b)));
            } else if b.id == l {
                if b.offset@ == n - 1 {
                    assert(other.item_is(a, self.item_at(b)));
                } else {
                    assert(other.item_is(b, self.item_at(b)));
                }
            } else {
                assert(untouched(*self, other, b.id));
                assert(other.item_is(b, self.item_at(b)));
            }
        }
        self.lemma_view_removed(other, a);
    }
}

/// The bounds `m` with the key `to` in every place of the key `from`.
pub open spec fn swap_bound<K>(m: Map<usize, Option<K>>, from: K, to: K) -> Map<usize, Option<K>> {
    Map::new(|y: usize| true, |y: usize| if m[y] == Some(from) { Some(to) } else { m[y] })
}

} // verus!
