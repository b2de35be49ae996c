//! The mathematical model of a tree: which nodes it has, how they hang
//! together, between which keys each of them lies, and the map that the
//! tree stands for.
use vstd::prelude::*;
use crate::generic::node::{within, Item, ItemAddr, Keyed, Node, Offset, M};
use crate::utils::{is_gap, lemma_order_basics, lt, sorted, total_order};

verus! {

/// A tree as contracts see it.
///
/// `nodes` and `root` are what the map holds. The other fields are
/// bookkeeping that exists in proofs only: the height of each node above the
/// leaves, and the bounds between which the keys of each node lie.
#[verifier::reject_recursive_types(K)]
#[verifier::reject_recursive_types(V)]
pub struct Tree<K, V> {
    pub nodes: Map<usize, Node<K, V>>,
    pub root: Option<usize>,
    pub height: Map<usize, nat>,
    pub lower: Map<usize, Option<K>>,
    pub upper: Map<usize, Option<K>>,
}

/// `k` lies above the bound `lo`, if there is one.
pub open spec fn above<K: Ord>(lo: Option<K>, k: K) -> bool {
    lo is Some ==> lt(lo->0, k)
}

/// `k` lies below the bound `hi`, if there is one.
pub open spec fn below<K: Ord>(k: K, hi: Option<K>) -> bool {
    hi is Some ==> lt(k, hi->0)
}

impl<K: Ord, V> Tree<K, V> {
    /// `id` names a node of the tree.
    pub open spec fn live(&self, id: usize) -> bool {
        self.nodes.dom().contains(id)
    }

    /// The node stored under `id`.
    pub open spec fn node(&self, id: usize) -> Node<K, V> {
        self.nodes[id]
    }

    /// The items of the node stored under `id`.
    pub open spec fn items(&self, id: usize) -> Seq<Item<K, V>> {
        self.nodes[id].items()
    }

    /// The children of the node stored under `id`.
    pub open spec fn kids(&self, id: usize) -> Seq<usize> {
        self.nodes[id].children_spec()
    }

    /// The child `j` of the node `p` is `id`.
    pub open spec fn is_child(&self, p: usize, j: int, id: usize) -> bool {
        0 <= j < self.kids(p).len() && self.kids(p)[j] == id
    }

    /// The bound under the child `j` of `id`: the key on its left, or the
    /// lower bound of `id` itself.
    pub open spec fn low(&self, id: usize, j: int) -> Option<K> {
        if j == 0 {
            self.lower[id]
        } else {
            Some(self.items(id)[j - 1].key_spec())
        }
    }

    /// The bound over the child `j` of `id`: the key on its right, or the
    /// upper bound of `id` itself.
    pub open spec fn high(&self, id: usize, j: int) -> Option<K> {
        if j >= self.items(id).len() {
            self.upper[id]
        } else {
            Some(self.items(id)[j].key_spec())
        }
    }

    /// The child `j` of `id` is a node of the tree that knows its parent,
    /// stands one level lower and lies between the keys around it.
    pub open spec fn child_ok(&self, id: usize, j: int) -> bool {
        let c = self.kids(id)[j];
        &&& self.live(c)
        &&& self.node(c).parent_spec() == Some(id)
        &&& self.height[c] + 1 == self.height[id]
        &&& self.lower[c] == self.low(id, j)
        &&& self.upper[c] == self.high(id, j)
    }

    /// The node `id` is in order by itself: its items are sorted and lie
    /// between its bounds, and it is a leaf exactly at height 0.
    pub open spec fn local_ok(&self, id: usize) -> bool {
        let n = self.node(id);
        &&& id < usize::MAX
        &&& n.items().len() <= M + 1
        &&& sorted(n.items())
        &&& within(n.items(), self.lower[id], self.upper[id])
        &&& n.is_leaf() <==> self.height[id] == 0
    }

    /// Every child of the node `id` is in its place.
    pub open spec fn kids_ok(&self, id: usize) -> bool {
        forall|j: int| 0 <= j < self.kids(id).len() ==> #[trigger] self.child_ok(id, j)
    }

    /// The node `id` is the root and has no parent, or it is a child of its
    /// parent.
    pub open spec fn parent_ok(&self, id: usize) -> bool {
        match self.node(id).parent_spec() {
            None => self.root == Some(id),
            Some(p) => self.root != Some(id) && self.live(p) && exists|j: int| #[trigger] self.is_child(p, j, id),
        }
    }

    /// The node `id` is in order by itself and with its neighbours.
    pub open spec fn node_ok(&self, id: usize) -> bool {
        self.local_ok(id) && self.kids_ok(id) && self.parent_ok(id)
    }

    /// The nodes hang together as a search tree: the separation invariant,
    /// leaves at one depth, and parents and children that agree. Nothing is
    /// said here of how full the nodes are.
    pub open spec fn shape(&self) -> bool {
        &&& self.nodes.dom().finite()
        &&& match self.root {
            None => self.nodes.dom() =~= Set::<usize>::empty(),
            Some(r) => self.live(r) && self.lower[r] is None && self.upper[r] is None,
        }
        &&& forall|id: usize| self.live(id) ==> #[trigger] self.node_ok(id)
    }

    /// The node `id` holds as many items as a node in its place may.
    pub open spec fn balanced(&self, id: usize) -> bool {
        let n = self.node(id);
        if self.root == Some(id) {
            n.items().len() >= 1 && !n.spec_is_overflowing()
        } else {
            !n.spec_is_underflowing() && !n.spec_is_overflowing()
        }
    }

    /// The node `id` holds at most one item more or less than a node in its
    /// place may.
    pub open spec fn loose(&self, id: usize) -> bool {
        let n = self.node(id);
        &&& n.is_leaf() ==> n.items().len() <= M + 1
        &&& !n.is_leaf() ==> n.items().len() <= M
        &&& self.root != Some(id) ==> n.items().len() >= M / 2 - 2
    }

    /// The node `id` is balanced, or nearly so if it is `x`.
    pub open spec fn fit(&self, x: Option<usize>, id: usize) -> bool {
        if x == Some(id) {
            self.loose(id)
        } else {
            self.balanced(id)
        }
    }

    /// Every node but `x` is balanced, and `x` nearly.
    pub open spec fn balanced_but(&self, x: Option<usize>) -> bool {
        forall|id: usize| self.live(id) ==> #[trigger] self.fit(x, id)
    }

    /// The tree is a B-Tree: a search tree all of whose nodes are balanced.
    pub open spec fn btree(&self) -> bool {
        self.shape() && self.balanced_but(None)
    }

    /// `k` lies between the bounds of the node `id`.
    pub open spec fn covers(&self, id: usize, k: K) -> bool {
        above(self.lower[id], k) && below(k, self.upper[id])
    }

    /// `a` names an item of the tree.
    pub open spec fn occupied(&self, a: ItemAddr) -> bool {
        self.live(a.id) && 0 <= a.offset@ < self.items(a.id).len()
    }

    /// `a` names a node of the tree and an offset from `-1` to the number of
    /// items of the node.
    pub open spec fn valid(&self, a: ItemAddr) -> bool {
        self.live(a.id) && -1 <= a.offset@ <= self.items(a.id).len()
    }

    /// `a` is valid and its offset is not `-1`.
    pub open spec fn back(&self, a: ItemAddr) -> bool {
        self.live(a.id) && 0 <= a.offset@ <= self.items(a.id).len()
    }

    /// `a` is valid and its offset is less than the number of items.
    pub open spec fn front(&self, a: ItemAddr) -> bool {
        self.live(a.id) && -1 <= a.offset@ < self.items(a.id).len()
    }

    /// The item at an occupied address.
    pub open spec fn item_at(&self, a: ItemAddr) -> Item<K, V> {
        self.items(a.id)[a.offset@]
    }

    /// The item at `a` has the key `k`.
    pub open spec fn holds(&self, a: ItemAddr, k: K) -> bool {
        self.occupied(a) && self.item_at(a).key_spec() == k
    }

    /// Some item of the tree has the key `k`.
    pub open spec fn has_key(&self, k: K) -> bool {
        exists|a: ItemAddr| #[trigger] self.holds(a, k)
    }

    /// An address at which the key `k` stands.
    pub open spec fn addr_of(&self, k: K) -> ItemAddr {
        choose|a: ItemAddr| #[trigger] self.holds(a, k)
    }

    /// The map that the tree stands for: each key in it with its value.
    pub open spec fn view(&self) -> Map<K, V> {
        Map::new(|k: K| self.has_key(k), |k: K| self.item_at(self.addr_of(k)).value_spec())
    }

    /// The item `it` stands at the address `b`.
    pub open spec fn item_is(&self, b: ItemAddr, it: Item<K, V>) -> bool {
        self.occupied(b) && self.item_at(b) == it
    }

    /// The item `it` stands in the tree.
    pub open spec fn has_item(&self, it: Item<K, V>) -> bool {
        exists|b: ItemAddr| #[trigger] self.item_is(b, it)
    }

    /// Every item of this tree stands in `other`.
    pub open spec fn items_into(&self, other: Tree<K, V>) -> bool {
        forall|a: ItemAddr| #[trigger] self.occupied(a) ==> other.has_item(self.item_at(a))
    }

    /// The two trees hold the same items.
    pub open spec fn same_items(&self, other: Tree<K, V>) -> bool {
        self.items_into(other) && other.items_into(*self)
    }

    /// Every slot in the tree holds a value, but for the one at `a`.
    pub open spec fn full_but(&self, a: Option<ItemAddr>) -> bool {
        forall|b: ItemAddr| #[trigger] self.occupied(b) && a != Some(b) ==> self.item_at(b).full()
    }

    /// The ancestor of `x` that stands `n` levels higher.
    pub open spec fn up(&self, x: usize, n: nat) -> usize
        decreases n,
    {
        if n == 0 {
            x
        } else {
            self.node(self.up(x, (n - 1) as nat)).parent_spec()->0
        }
    }

    /// The parent of a node that is not the root is one level higher and
    /// lists the node among its children.
    pub proof fn lemma_parent(&self, x: usize) -> (j: int)
        requires
            self.shape(),
            self.live(x),
            self.root != Some(x),
        ensures
            self.node(x).parent_spec() is Some,
            self.live(self.node(x).parent_spec()->0),
            self.is_child(self.node(x).parent_spec()->0, j, x),
            self.child_ok(self.node(x).parent_spec()->0, j),
            !self.node(self.node(x).parent_spec()->0).is_leaf(),
    {
        assert(self.node_ok(x));
        let p = self.node(x).parent_spec()->0;
        let j = choose|j: int| #[trigger] self.is_child(p, j, x);
        assert(self.node_ok(p));
        j
    }

    /// No node stands higher than the root, and only the root stands as
    /// high.
    pub proof fn lemma_height(&self, x: usize)
        requires
            self.shape(),
            self.live(x),
        ensures
            self.height[x] <= self.height[self.root->0],
            self.height[x] == self.height[self.root->0] ==> self.root == Some(x),
            self.root is Some,
        decreases self.nodes.dom().len(),
    {
        self.lemma_height_rec(x, self.nodes.dom());
    }

    /// A chain of parents leaves the set `rest` of nodes not yet met: so it
    /// ends, and it ends at the root.
    proof fn lemma_height_rec(&self, x: usize, rest: Set<usize>)
        requires
            self.shape(),
            self.live(x),
            rest.finite(),
            rest.contains(x),
            forall|y: usize| #[trigger] rest.contains(y) ==> self.live(y),
            forall|y: usize| self.live(y) && self.height[y] >= self.height[x] ==> #[trigger] rest.contains(y),
        ensures
            self.root is Some,
            self.height[x] <= self.height[self.root->0],
            self.height[x] == self.height[self.root->0] ==> self.root == Some(x),
        decreases rest.len(),
    {
        assert(self.node_ok(x));
        if self.root != Some(x) {
            let j = self.lemma_parent(x);
            let p = self.node(x).parent_spec()->0;
            let smaller = rest.filter(|y: usize| self.height[y] > self.height[x]);
            assert(smaller.subset_of(rest));
            vstd::set_lib::lemma_len_subset(smaller, rest.remove(x));
            assert(smaller.finite()) by {
                vstd::set_lib::lemma_set_subset_finite(rest, smaller);
            }
            self.lemma_height_rec(p, smaller);
        }
    }

    /// The ancestor `n` levels above `x`, where the root stands that high,
    /// is a node of the tree, `n` levels higher, and covers what `x` covers.
    pub proof fn lemma_up(&self, x: usize, n: nat, k: K)
        requires
            total_order::<K>(),
            self.shape(),
            self.live(x),
            self.height[x] + n <= self.height[self.root->0],
        ensures
            self.live(self.up(x, n)),
            self.height[self.up(x, n)] == self.height[x] + n,
            self.covers(x, k) ==> self.covers(self.up(x, n), k),
        decreases n,
    {
        if n > 0 {
            self.lemma_up(x, (n - 1) as nat, k);
            let c = self.up(x, (n - 1) as nat);
            self.lemma_height(c);
            let j = self.lemma_parent(c);
            let p = self.node(c).parent_spec()->0;
            if self.covers(c, k) {
                self.lemma_child_covers(p, j, k);
            }
        }
    }

    /// What the child `j` of `p` covers, `p` covers, and it is none of the
    /// keys of `p`: it lies between the keys next to the child.
    pub proof fn lemma_child_covers(&self, p: usize, j: int, k: K)
        requires
            total_order::<K>(),
            self.shape(),
            self.live(p),
            0 <= j < self.kids(p).len(),
            self.covers(self.kids(p)[j], k),
        ensures
            self.covers(p, k),
            forall|i: int| 0 <= i < j ==> lt(#[trigger] self.items(p)[i].key_spec(), k),
            forall|i: int| j <= i < self.items(p).len() ==> lt(k, #[trigger] self.items(p)[i].key_spec()),
            forall|i: int| 0 <= i < self.items(p).len() ==> #[trigger] self.items(p)[i].key_spec() != k,
    {
        assert(self.node_ok(p));
        assert(self.child_ok(p, j));
        self.node(p).lemma_len();
        let items = self.items(p);
        let n = items.len() as int;
        if j > 0 {
            assert(lt(items[j - 1].key_spec(), k));
            assert(above(self.lower[p], items[j - 1].key_spec()));
        }
        if j < n {
            assert(lt(k, items[j].key_spec()));
            assert(below(items[j].key_spec(), self.upper[p]));
        }
        assert forall|i: int| 0 <= i < j implies lt(#[trigger] items[i].key_spec(), k) by {
            if i < j - 1 {
                assert(lt(items[i].key_spec(), items[j - 1].key_spec()));
            }
        }
        assert forall|i: int| j <= i < n implies lt(k, #[trigger] items[i].key_spec()) by {
            if i > j {
                assert(lt(items[j].key_spec(), items[i].key_spec()));
            }
        }
        assert forall|i: int| 0 <= i < n implies #[trigger] items[i].key_spec() != k by {
            lemma_order_basics(k, k);
            if i < j {
                assert(lt(items[i].key_spec(), k));
            } else {
                assert(lt(k, items[i].key_spec()));
            }
        }
    }

    /// The child at the gap of a key that a node covers covers the key too,
    /// and stands one level lower.
    pub proof fn lemma_descend(&self, id: usize, k: K, g: int)
        requires
            total_order::<K>(),
            self.shape(),
            self.live(id),
            !self.node(id).is_leaf(),
            self.covers(id, k),
            is_gap(self.items(id), k, g),
        ensures
            0 <= g < self.kids(id).len(),
            self.live(self.kids(id)[g]),
            self.covers(self.kids(id)[g], k),
            self.height[self.kids(id)[g]] + 1 == self.height[id],
            self.child_ok(id, g),
    {
        assert(self.node_ok(id));
        self.node(id).lemma_len();
        assert(self.child_ok(id, g));
        if g > 0 {
            assert(lt(self.items(id)[g - 1].key_spec(), k));
        }
        if g < self.items(id).len() {
            assert(lt(k, self.items(id)[g].key_spec()));
        }
    }

    /// `a` is the place of a key that is not in the tree: the gap in a leaf
    /// at which the key is to be inserted.
    pub open spec fn gap(&self, a: ItemAddr, k: K) -> bool {
        &&& self.live(a.id)
        &&& self.node(a.id).is_leaf()
        &&& self.covers(a.id, k)
        &&& a.offset.0 == a.offset@
        &&& is_gap(self.items(a.id), k, a.offset@)
    }

    /// What the search for the address of `k` returns: the address at which
    /// `k` stands; or the gap of `k`, and the address that is nowhere
    /// where the tree is empty.
    pub open spec fn is_address_of(&self, k: K, r: Result<ItemAddr, ItemAddr>) -> bool {
        match r {
            Ok(a) => self.holds(a, k),
            Err(a) => if self.root is None {
                a.id == usize::MAX && a.offset@ == 0
            } else {
                self.gap(a, k)
            },
        }
    }

    /// Two nodes at one height that cover a common key are one node.
    pub proof fn lemma_same_level(&self, x: usize, y: usize, k: K)
        requires
            total_order::<K>(),
            self.shape(),
            self.live(x),
            self.live(y),
            self.height[x] == self.height[y],
            self.covers(x, k),
            self.covers(y, k),
        ensures
            x == y,
        decreases self.height[self.root->0] - self.height[x],
    {
        self.lemma_height(x);
        self.lemma_height(y);
        if self.root != Some(x) {
            let i = self.lemma_parent(x);
            let j = self.lemma_parent(y);
            let p = self.node(x).parent_spec()->0;
            let q = self.node(y).parent_spec()->0;
            self.lemma_child_covers(p, i, k);
            self.lemma_child_covers(q, j, k);
            self.lemma_same_level(p, q, k);
            lemma_order_basics(k, k);
            if i < j {
                assert(lt(k, self.items(p)[i].key_spec()));
                assert(lt(self.items(p)[i].key_spec(), k));
            } else if j < i {
                assert(lt(k, self.items(p)[j].key_spec()));
                assert(lt(self.items(p)[j].key_spec(), k));
            }
        }
    }

    /// A key that a node covers stands in that node or below it, if it
    /// stands in the tree at all.
    pub proof fn lemma_covered_key(&self, x: usize, k: K, b: ItemAddr)
        requires
            total_order::<K>(),
            self.shape(),
            self.live(x),
            self.covers(x, k),
            self.holds(b, k),
        ensures
            self.height[b.id] <= self.height[x],
            self.height[b.id] == self.height[x] ==> b.id == x,
    {
        let y = b.id;
        assert(self.node_ok(y));
        assert(self.covers(y, k));
        self.lemma_height(x);
        self.lemma_height(y);
        if self.height[y] >= self.height[x] {
            let n = (self.height[y] - self.height[x]) as nat;
            self.lemma_up(x, n, k);
            self.lemma_same_level(self.up(x, n), y, k);
            if n > 0 {
                let c = self.up(x, (n - 1) as nat);
                self.lemma_up(x, (n - 1) as nat, k);
                self.lemma_height(c);
                let j = self.lemma_parent(c);
                self.lemma_child_covers(y, j, k);
                assert(self.items(y)[b.offset@].key_spec() != k);
            }
        }
    }

    /// A key stands at one address of the tree at most.
    pub proof fn lemma_unique(&self, a: ItemAddr, b: ItemAddr)
        requires
            total_order::<K>(),
            self.shape(),
            self.occupied(a),
            self.occupied(b),
            self.item_at(a).key_spec() == self.item_at(b).key_spec(),
        ensures
            a == b,
    {
        let k = self.item_at(a).key_spec();
        assert(self.node_ok(a.id));
        assert(self.node_ok(b.id));
        assert(self.covers(a.id, k));
        assert(self.covers(b.id, k));
        self.lemma_covered_key(a.id, k, b);
        self.lemma_covered_key(b.id, k, a);
        lemma_order_basics(k, k);
        let i = a.offset@;
        let j = b.offset@;
        if i < j {
            assert(lt(self.items(a.id)[i].key_spec(), self.items(a.id)[j].key_spec()));
        } else if j < i {
            assert(lt(self.items(a.id)[j].key_spec(), self.items(a.id)[i].key_spec()));
        }
        assert(a.offset.0 == b.offset.0);
    }

    /// The map of the tree binds the key of each item to its value.
    pub proof fn lemma_view_at(&self, a: ItemAddr)
        requires
            total_order::<K>(),
            self.shape(),
            self.occupied(a),
        ensures
            self.view().dom().contains(self.item_at(a).key_spec()),
            self.view()[self.item_at(a).key_spec()] == self.item_at(a).value_spec(),
            self.addr_of(self.item_at(a).key_spec()) == a,
    {
        let k = self.item_at(a).key_spec();
        assert(self.holds(a, k));
        self.lemma_unique(a, self.addr_of(k));
    }

    /// A key that a leaf covers and does not hold is not in the tree.
    pub proof fn lemma_miss(&self, x: usize, k: K)
        requires
            total_order::<K>(),
            self.shape(),
            self.live(x),
            self.node(x).is_leaf(),
            self.covers(x, k),
            forall|i: int| 0 <= i < self.items(x).len() ==> #[trigger] self.items(x)[i].key_spec() != k,
        ensures
            !self.view().dom().contains(k),
    {
        if self.has_key(k) {
            let b = self.addr_of(k);
            assert(self.node_ok(x));
            self.lemma_covered_key(x, k, b);
            assert(self.items(x)[b.offset@].key_spec() != k);
        }
    }

    /// This tree with the node `n` under `id`.
    pub open spec fn with_node(&self, id: usize, n: Node<K, V>) -> Tree<K, V> {
        Tree { nodes: self.nodes.insert(id, n), ..*self }
    }

    /// Trees that hold the same items as a common tree hold the same items.
    pub proof fn lemma_items_trans(&self, mid: Tree<K, V>, other: Tree<K, V>)
        requires
            self.same_items(mid),
            mid.same_items(other),
        ensures
            self.same_items(other),
    {
        assert forall|a: ItemAddr| #[trigger] self.occupied(a) implies other.has_item(self.item_at(a)) by {
            let it = self.item_at(a);
            assert(mid.has_item(it));
            let b = choose|b: ItemAddr| #[trigger] mid.item_is(b, it);
            assert(mid.occupied(b));
        }
        assert forall|a: ItemAddr| #[trigger] other.occupied(a) implies self.has_item(other.item_at(a)) by {
            let it = other.item_at(a);
            assert(mid.has_item(it));
            let b = choose|b: ItemAddr| #[trigger] mid.item_is(b, it);
            assert(mid.occupied(b));
        }
    }

    /// A tree holds the items that it holds.
    pub proof fn lemma_items_refl(&self)
        ensures
            self.same_items(*self),
    {
        assert forall|a: ItemAddr| #[trigger] self.occupied(a) implies self.has_item(self.item_at(a)) by {
            assert(self.item_is(a, self.item_at(a)));
        }
    }

    /// The address in a leaf that stands for the same place as the back
    /// address `a`: `a` itself in a leaf; under an internal node the end of
    /// the last leaf below the child on the left of `a`.
    pub open spec fn leaf_addr(&self, a: ItemAddr) -> ItemAddr
        decreases self.height[a.id],
    {
        if self.shape() && self.back(a) && !self.node(a.id).is_leaf() {
            let c = self.kids(a.id)[a.offset@];
            if self.height[c] < self.height[a.id] {
                self.leaf_addr(ItemAddr { id: c, offset: Offset(self.items(c).len() as usize) })
            } else {
                a
            }
        } else {
            a
        }
    }

    /// No node of a tree is named by `usize::MAX`: an address in the tree
    /// is not the address that is nowhere.
    pub proof fn lemma_somewhere(&self, a: ItemAddr)
        requires
            self.shape(),
            self.live(a.id),
        ensures
            !a.is_nowhere(),
            a.id < usize::MAX,
    {
        assert(self.node_ok(a.id));
    }

    /// Two children of a node are two nodes.
    pub proof fn lemma_kids_distinct(&self, id: usize, i: int, j: int)
        requires
            total_order::<K>(),
            self.shape(),
            self.live(id),
            0 <= i < j < self.kids(id).len(),
        ensures
            self.kids(id)[i] != self.kids(id)[j],
    {
        assert(self.node_ok(id));
        self.node(id).lemma_len();
        assert(self.child_ok(id, i));
        assert(self.child_ok(id, j));
        let items = self.items(id);
        if self.kids(id)[i] == self.kids(id)[j] {
            lemma_order_basics(items[j - 1].key_spec(), items[j - 1].key_spec());
            if i > 0 {
                assert(lt(items[i - 1].key_spec(), items[j - 1].key_spec()));
            } else {
                assert(lt(self.lower[id]->0, items[j - 1].key_spec()));
            }
        }
    }

    /// The keys of the tree that `other` binds are bound there to the same
    /// values, where every item of this tree stands in `other`.
    pub proof fn lemma_items_into(&self, other: Tree<K, V>)
        requires
            total_order::<K>(),
            self.shape(),
            other.shape(),
            self.items_into(other),
        ensures
            forall|k: K| #[trigger] self.view().dom().contains(k) ==> other.view().dom().contains(k)
                && other.view()[k] == self.view()[k],
            other.full_but(None) ==> self.full_but(None),
    {
        assert forall|k: K| #[trigger] self.view().dom().contains(k) implies other.view().dom().contains(k)
            && other.view()[k] == self.view()[k] by {
            let a = self.addr_of(k);
            assert(self.holds(a, k));
            let it = self.item_at(a);
            assert(other.has_item(it));
            let b = choose|b: ItemAddr| #[trigger] other.item_is(b, it);
            other.lemma_view_at(b);
        }
        if other.full_but(None) {
            assert forall|a: ItemAddr| #[trigger] self.occupied(a) implies self.item_at(a).full() by {
                let it = self.item_at(a);
                assert(other.has_item(it));
                let b = choose|b: ItemAddr| #[trigger] other.item_is(b, it);
                assert(other.occupied(b));
            }
        }
    }

    /// Two search trees that hold the same items stand for the same map.
    pub proof fn lemma_same_items(&self, other: Tree<K, V>)
        requires
            total_order::<K>(),
            self.shape(),
            other.shape(),
            self.same_items(other),
        ensures
            self.view() == other.view(),
            self.full_but(None) <==> other.full_but(None),
    {
        self.lemma_items_into(other);
        other.lemma_items_into(*self);
        assert(self.view() =~= other.view());
    }
}

} // verus!
