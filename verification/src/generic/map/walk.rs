//! The order in which the addresses of a tree follow each other.
use vstd::prelude::*;
use crate::generic::map::tree::{above, below, Tree};
use crate::generic::node::{within, Item, ItemAddr, Keyed, Node, Offset, M};
use crate::utils::{is_gap, lemma_order_basics, lt, sorted, total_order};

verus! {

impl<K: Ord, V> Tree<K, V> {
    /// The key at an occupied address.
    pub open spec fn key_at(&self, a: ItemAddr) -> K {
        self.item_at(a).key_spec()
    }

    /// The key at `c` lies strictly between `lo` and `hi`.
    pub open spec fn key_between(&self, lo: Option<K>, c: ItemAddr, hi: Option<K>) -> bool {
        self.occupied(c) && above(lo, self.key_at(c)) && below(self.key_at(c), hi)
    }

    /// No key of the tree lies strictly between `lo` and `hi`.
    pub open spec fn no_key_between(&self, lo: Option<K>, hi: Option<K>) -> bool {
        forall|c: ItemAddr| !#[trigger] self.key_between(lo, c, hi)
    }

    /// `r` is the address of the least key of the tree above `lo`, if there
    /// is such a key.
    pub open spec fn next_after(&self, lo: Option<K>, r: Option<ItemAddr>) -> bool {
        match r {
            Some(b) => self.occupied(b) && above(lo, self.key_at(b)) && self.no_key_between(
                lo,
                Some(self.key_at(b)),
            ),
            None => self.no_key_between(lo, None),
        }
    }

    /// `r` is the address of the greatest key of the tree below `hi`, if
    /// there is such a key.
    pub open spec fn prev_before(&self, hi: Option<K>, r: Option<ItemAddr>) -> bool {
        match r {
            Some(b) => self.occupied(b) && below(self.key_at(b), hi) && self.no_key_between(
                Some(self.key_at(b)),
                hi,
            ),
            None => self.no_key_between(None, hi),
        }
    }

    /// The offset that follows the offset of `a` in its node, or the number
    /// of items of the node where `a` is at the end of it.
    pub open spec fn step(&self, a: ItemAddr) -> int {
        if a.offset@ < self.items(a.id).len() {
            a.offset@ + 1
        } else {
            a.offset@
        }
    }

    /// No key of the tree lies in a gap of a leaf.
    pub proof fn lemma_gap_empty(&self, x: usize, o: int)
        requires
            total_order::<K>(),
            self.shape(),
            self.live(x),
            self.node(x).is_leaf(),
            0 <= o <= self.items(x).len(),
        ensures
            self.no_key_between(self.low(x, o), self.high(x, o)),
            self.items(x).len() > 0 && self.low(x, o) is Some && self.high(x, o) is Some ==> lt(
                self.low(x, o)->0,
                self.high(x, o)->0,
            ),
    {
        assert(self.node_ok(x));
        let items = self.items(x);
        let n = items.len() as int;
        assert forall|c: ItemAddr| !#[trigger] self.key_between(self.low(x, o), c, self.high(x, o)) by {
            if self.key_between(self.low(x, o), c, self.high(x, o)) {
                let q = self.key_at(c);
                if o > 0 {
                    assert(lt(self.lower[x]->0, items[o - 1].key_spec()) || self.lower[x] is None);
                }
                if o < n {
                    assert(lt(items[o].key_spec(), self.upper[x]->0) || self.upper[x] is None);
                }
                assert(self.covers(x, q));
                assert(self.holds(c, q));
                self.lemma_covered_key(x, q, c);
                let i = c.offset@;
                lemma_order_basics(q, q);
                if i < o {
                    if i < o - 1 {
                        assert(lt(items[i].key_spec(), items[o - 1].key_spec()));
                    }
                } else {
                    if i > o {
                        assert(lt(items[o].key_spec(), items[i].key_spec()));
                    }
                }
            }
        }
        if n > 0 && self.low(x, o) is Some && self.high(x, o) is Some {
            if o > 0 && o < n {
                assert(lt(items[o - 1].key_spec(), items[o].key_spec()));
            } else if o > 0 {
                assert(lt(items[o - 1].key_spec(), self.upper[x]->0));
            } else {
                assert(lt(self.lower[x]->0, items[o].key_spec()));
            }
        }
    }

    /// The address after an address after which another one comes is that
    /// other one's predecessor, and the other way round: a key has one
    /// successor and one predecessor at most.
    pub proof fn lemma_next_unique(&self, lo: Option<K>, r1: Option<ItemAddr>, r2: Option<ItemAddr>)
        requires
            total_order::<K>(),
            self.shape(),
            self.next_after(lo, r1),
            self.next_after(lo, r2),
        ensures
            r1 == r2,
    {
        match (r1, r2) {
            (Some(b1), Some(b2)) => {
                let k1 = self.key_at(b1);
                let k2 = self.key_at(b2);
                lemma_order_basics(k1, k2);
                assert(!self.key_between(lo, b1, Some(k2)));
                assert(!self.key_between(lo, b2, Some(k1)));
                self.lemma_unique(b1, b2);
            },
            (Some(b1), None) => {
                assert(self.key_between(lo, b1, None));
            },
            (None, Some(b2)) => {
                assert(self.key_between(lo, b2, None));
            },
            (None, None) => {},
        }
    }

    /// There is at most one greatest key below a bound.
    pub proof fn lemma_prev_unique(&self, hi: Option<K>, r1: Option<ItemAddr>, r2: Option<ItemAddr>)
        requires
            total_order::<K>(),
            self.shape(),
            self.prev_before(hi, r1),
            self.prev_before(hi, r2),
        ensures
            r1 == r2,
    {
        match (r1, r2) {
            (Some(b1), Some(b2)) => {
                let k1 = self.key_at(b1);
                let k2 = self.key_at(b2);
                lemma_order_basics(k1, k2);
                assert(!self.key_between(Some(k2), b1, hi));
                assert(!self.key_between(Some(k1), b2, hi));
                self.lemma_unique(b1, b2);
            },
            (Some(b1), None) => {
                assert(self.key_between(None, b1, hi));
            },
            (None, Some(b2)) => {
                assert(self.key_between(None, b2, hi));
            },
            (None, None) => {},
        }
    }

    /// Going back from an item and then forth again leads to the item: if
    /// `b` is the item before `a`, then `a` is the item after `b`.
    pub proof fn lemma_round_trip_back(&self, a: ItemAddr, b: ItemAddr)
        requires
            total_order::<K>(),
            self.shape(),
            self.occupied(a),
            self.prev_before(Some(self.key_at(a)), Some(b)),
        ensures
            self.next_after(Some(self.key_at(b)), Some(a)),
    {
    }

    /// Going forth from an item and then back again leads to the item: if
    /// `b` is the item after `a`, then `a` is the item before `b`.
    pub proof fn lemma_round_trip_forth(&self, a: ItemAddr, b: ItemAddr)
        requires
            total_order::<K>(),
            self.shape(),
            self.occupied(a),
            self.next_after(Some(self.key_at(a)), Some(b)),
        ensures
            self.prev_before(Some(self.key_at(b)), Some(a)),
    {
    }

    /// Round trip, backwards first: where an item has an item before it,
    /// the item after that one is the item itself.
    ///
    /// `b` is what going back from the item at `a` leads to, and `r` is what
    /// going forth from `b` leads to.
    pub proof fn lemma_previous_then_next(&self, a: ItemAddr, b: ItemAddr, r: Option<ItemAddr>)
        requires
            total_order::<K>(),
            self.shape(),
            self.occupied(a),
            self.prev_before(self.high(a.id, a.offset@), Some(b)),
            self.next_after(self.low(b.id, self.step(b)), r),
        ensures
            r == Some(a),
    {
        self.lemma_round_trip_back(a, b);
        self.lemma_next_unique(Some(self.key_at(b)), r, Some(a));
    }

    /// Round trip, forwards first: where an item has an item after it, the
    /// item before that one is the item itself.
    ///
    /// `b` is what going forth from the item at `a` leads to, and `r` is
    /// what going back from `b` leads to.
    pub proof fn lemma_next_then_previous(&self, a: ItemAddr, b: ItemAddr, r: Option<ItemAddr>)
        requires
            total_order::<K>(),
            self.shape(),
            self.occupied(a),
            self.next_after(self.low(a.id, self.step(a)), Some(b)),
            self.prev_before(self.high(b.id, b.offset@), r),
        ensures
            r == Some(a),
    {
        self.lemma_round_trip_forth(a, b);
        self.lemma_prev_unique(Some(self.key_at(b)), r, Some(a));
    }

    /// The place `a` comes right after the key `k`: no key of the tree
    /// lies between `k` and what stands at `a` or after it. In an empty
    /// tree every place comes after every key.
    pub open spec fn follows(&self, a: ItemAddr, k: K) -> bool {
        let hi = if self.root is None {
            None
        } else {
            self.high(a.id, a.offset@)
        };
        below(k, hi) && self.no_key_between(Some(k), hi)
    }

    /// Where no key lies between two bounds in a tree, none lies between
    /// them in a tree that holds no other items.
    pub proof fn lemma_between_subset(&self, other: Tree<K, V>, lo: Option<K>, hi: Option<K>)
        requires
            other.items_into(*self),
            self.no_key_between(lo, hi),
        ensures
            other.no_key_between(lo, hi),
    {
        assert forall|c: ItemAddr| !#[trigger] other.key_between(lo, c, hi) by {
            if other.key_between(lo, c, hi) {
                let it = other.item_at(c);
                assert(self.has_item(it));
                let b = choose|b: ItemAddr| #[trigger] self.item_is(b, it);
                assert(self.key_between(lo, b, hi));
            }
        }
    }

    /// The upper bound of a node, if it has one, is a key of the tree.
    pub proof fn lemma_upper_held(&self, x: usize) -> (c: ItemAddr)
        requires
            total_order::<K>(),
            self.shape(),
            self.live(x),
            self.upper[x] is Some,
        ensures
            self.occupied(c),
            Some(self.key_at(c)) == self.upper[x],
        decreases self.height[self.root->0] - self.height[x],
    {
        assert(self.node_ok(self.root->0));
        self.lemma_height(x);
        let j = self.lemma_parent(x);
        let p = self.node(x).parent_spec()->0;
        assert(self.node_ok(p));
        self.node(p).lemma_len();
        if j < self.items(p).len() {
            ItemAddr { id: p, offset: Offset(j as usize) }
        } else {
            self.lemma_height(p);
            self.lemma_upper_held(p)
        }
    }

    /// The lower bound of a node, if it has one, is a key of the tree.
    pub proof fn lemma_lower_held(&self, x: usize) -> (c: ItemAddr)
        requires
            total_order::<K>(),
            self.shape(),
            self.live(x),
            self.lower[x] is Some,
        ensures
            self.occupied(c),
            Some(self.key_at(c)) == self.lower[x],
        decreases self.height[self.root->0] - self.height[x],
    {
        assert(self.node_ok(self.root->0));
        self.lemma_height(x);
        let j = self.lemma_parent(x);
        let p = self.node(x).parent_spec()->0;
        assert(self.node_ok(p));
        self.node(p).lemma_len();
        if j > 0 {
            ItemAddr { id: p, offset: Offset((j - 1) as usize) }
        } else {
            self.lemma_height(p);
            self.lemma_lower_held(p)
        }
    }

    /// A place that comes right after a key that is not in the tree leads
    /// to the gap of that key: the key can be inserted there.
    pub proof fn lemma_follows_gap(&self, a: ItemAddr, k: K)
        requires
            total_order::<K>(),
            self.btree(),
            self.back(a),
            self.follows(a, k),
            !self.has_key(k),
        ensures
            self.gap(self.leaf_addr(a), k),
        decreases self.height[a.id],
    {
        let x = a.id;
        let o = a.offset@;
        assert(self.node_ok(x));
        self.node(x).lemma_len();
        assert(self.fit(None, x));
        self.lemma_height(x);
        let hi = self.high(x, o);
        let items = self.items(x);
        let n = items.len() as int;
        if self.node(x).is_leaf() {
            assert forall|c: ItemAddr| #[trigger] self.occupied(c) && lt(self.key_at(c), hi->0) && hi is Some implies lt(
                self.key_at(c),
                k,
            ) by {
                let q = self.key_at(c);
                lemma_order_basics(q, k);
                if q == k {
                    assert(self.holds(c, k));
                }
                if lt(k, q) {
                    assert(self.key_between(Some(k), c, hi));
                }
            }
            assert forall|c: ItemAddr| #[trigger] self.occupied(c) && hi is None implies lt(self.key_at(c), k) by {
                let q = self.key_at(c);
                lemma_order_basics(q, k);
                if q == k {
                    assert(self.holds(c, k));
                }
                if lt(k, q) {
                    assert(self.key_between(Some(k), c, hi));
                }
            }
            if o > 0 {
                let c = ItemAddr { id: x, offset: Offset((o - 1) as usize) };
                assert(self.occupied(c));
                if o < n {
                    assert(lt(items[o - 1].key_spec(), items[o].key_spec()));
                }
                assert(lt(items[o - 1].key_spec(), k));
                assert forall|j: int| 0 <= j < o implies lt(#[trigger] items[j].key_spec(), k) by {
                    if j < o - 1 {
                        assert(lt(items[j].key_spec(), items[o - 1].key_spec()));
                    }
                }
            } else if self.lower[x] is Some {
                let c = self.lemma_lower_held(x);
                assert(lt(self.lower[x]->0, items[0].key_spec()));
                if o < n {
                } else {
                    assert(n > 0);
                }
                assert(lt(self.key_at(c), k));
            }
            assert forall|j: int| o <= j < n implies lt(k, #[trigger] items[j].key_spec()) by {
                if j > o {
                    assert(lt(items[o].key_spec(), items[j].key_spec()));
                }
            }
            if o < n {
                assert(below(items[o].key_spec(), self.upper[x]));
            }
            assert(self.leaf_addr(a) == a);
        } else {
            let c = self.kids(x)[o];
            assert(self.child_ok(x, o));
            assert(self.node_ok(c));
            self.node(c).lemma_len();
            let b = ItemAddr { id: c, offset: Offset(self.items(c).len() as usize) };
            assert(self.high(c, b.offset@) == hi);
            self.lemma_follows_gap(b, k);
        }
    }
}

} // verus!
