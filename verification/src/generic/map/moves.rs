//! The steps by which a tree is rebalanced, each with the proof that it
//! keeps the tree a search tree holding the same items.
use vstd::prelude::*;
use crate::generic::map::tree::{above, below, Tree};
use crate::generic::node::{within, Balance, Item, ItemAddr, Keyed, Node, Offset, M};
use crate::utils::{is_gap, lemma_inserted_sorted, lemma_order_basics, lt, sorted, total_order};

verus! {

/// `n1` is `n0` with the parent `p`.
pub open spec fn reparented<K, V>(n0: Node<K, V>, n1: Node<K, V>, p: Option<usize>) -> bool {
    &&& n1.is_leaf() == n0.is_leaf()
    &&& n1.items() == n0.items()
    &&& n1.children_spec() == n0.children_spec()
    &&& n1.parent_spec() == p
}

/// The node `x` is the same in both trees.
pub open spec fn untouched<K: Ord, V>(t0: Tree<K, V>, t1: Tree<K, V>, x: usize) -> bool {
    t1.node(x) == t0.node(x)
}

/// The node `x` is the same in both trees, but that it has the parent `r`
/// in `t1` if it is among the children `moved`.
pub open spec fn kept<K: Ord, V>(t0: Tree<K, V>, t1: Tree<K, V>, moved: Seq<usize>, r: usize, x: usize) -> bool {
    if moved.contains(x) {
        reparented(t0.node(x), t1.node(x), Some(r))
    } else {
        t1.node(x) == t0.node(x)
    }
}

/// `t1` is `t0` after the overflowing node `id`, the child `j` of `p`, has
/// been split: its left half stays, its right half is the new node `r`, and
/// its median item stands in `p` between the two.
pub open spec fn split_step<K: Ord, V>(t0: Tree<K, V>, t1: Tree<K, V>, id: usize, p: usize, j: int, r: usize) -> bool {
    let n = t0.items(id).len() as int;
    let m = (n - 1) / 2;
    let median = t0.items(id)[m];
    let leaf = t0.node(id).is_leaf();
    &&& t0.shape()
    &&& t0.live(id)
    &&& t0.node(id).spec_is_overflowing()
    &&& t0.node(id).parent_spec() == Some(p)
    &&& t0.is_child(p, j, id)
    &&& t0.items(p).len() < M
    &&& !t0.live(r)
    &&& r < usize::MAX
    &&& t1.nodes.dom() == t0.nodes.dom().insert(r)
    &&& t1.root == t0.root
    &&& t1.height == t0.height.insert(r, t0.height[id])
    &&& t1.lower == t0.lower.insert(r, Some(median.key_spec()))
    &&& t1.upper == t0.upper.insert(id, Some(median.key_spec())).insert(r, t0.upper[id])
    &&& t1.node(id).is_leaf() == leaf
    &&& t1.node(id).parent_spec() == Some(p)
    &&& t1.items(id) == t0.items(id).subrange(0, m)
    &&& t1.kids(id) == (if leaf {
        t0.kids(id)
    } else {
        t0.kids(id).subrange(0, m + 1)
    })
    &&& t1.node(r).is_leaf() == leaf
    &&& t1.node(r).parent_spec() == Some(p)
    &&& t1.items(r) == t0.items(id).subrange(m + 1, n)
    &&& t1.kids(r) == (if leaf {
        t0.kids(id)
    } else {
        t0.kids(id).subrange(m + 1, n + 1)
    })
    &&& !t1.node(p).is_leaf()
    &&& t1.node(p).parent_spec() == t0.node(p).parent_spec()
    &&& t1.items(p) == t0.items(p).insert(j, median)
    &&& t1.kids(p) == t0.kids(p).insert(j + 1, r)
    &&& forall|x: usize| t0.live(x) && x != id && x != p ==> #[trigger] kept(t0, t1, t1.kids(r), r, x)
}

/// Where the item at `a` stands after the split of `id`.
pub open spec fn split_move(a: ItemAddr, id: usize, m: int, p: usize, j: int, r: usize) -> ItemAddr {
    if a.id == id {
        if a.offset@ == m {
            ItemAddr { id: p, offset: Offset(j as usize) }
        } else if a.offset@ > m {
            ItemAddr { id: r, offset: Offset((a.offset@ - m - 1) as usize) }
        } else {
            a
        }
    } else if a.id == p {
        if a.offset@ >= j {
            ItemAddr { id: p, offset: Offset((a.offset@ + 1) as usize) }
        } else {
            a
        }
    } else {
        a
    }
}

/// Facts about a split that its proofs share.
proof fn lemma_split_facts<K: Ord, V>(t0: Tree<K, V>, t1: Tree<K, V>, id: usize, p: usize, j: int, r: usize)
    requires
        total_order::<K>(),
        split_step(t0, t1, id, p, j, r),
    ensures
        t0.live(p),
        t0.node_ok(id),
        t0.node_ok(p),
        t0.child_ok(p, j),
        p != id,
        r != id,
        r != p,
        !t0.node(p).is_leaf(),
        t0.kids(p).len() == t0.items(p).len() + 1,
        t0.node(id).is_leaf() ==> t0.kids(id).len() == 0 && t0.items(id).len() == M + 1,
        !t0.node(id).is_leaf() ==> t0.kids(id).len() == t0.items(id).len() + 1 && t0.items(id).len() >= M,
        t0.items(id).len() <= M + 1,
        forall|i: int| 0 <= i < t0.kids(id).len() ==> #[trigger] t0.kids(id)[i] != id && t0.kids(id)[i] != p
            && t0.kids(id)[i] != r && t0.live(t0.kids(id)[i]),
        forall|i: int| 0 <= i < t0.kids(p).len() && i != j ==> #[trigger] t0.kids(p)[i] != id,
        forall|i: int| 0 <= i < t0.kids(p).len() ==> #[trigger] t0.kids(p)[i] != p && t0.kids(p)[i] != r && !t1.kids(r).contains(t0.kids(p)[i]),
        t0.covers(id, t0.items(id)[(t0.items(id).len() - 1) / 2].key_spec()),
{
    assert(t0.node_ok(id));
    assert(t0.node_ok(p));
    assert(t0.child_ok(p, j));
    t0.node(id).lemma_len();
    t0.node(p).lemma_len();
    assert forall|i: int| 0 <= i < t0.kids(id).len() implies #[trigger] t0.kids(id)[i] != id && t0.kids(id)[i] != p
        && t0.kids(id)[i] != r && t0.live(t0.kids(id)[i]) by {
        assert(t0.child_ok(id, i));
    }
    assert forall|i: int| 0 <= i < t0.kids(p).len() && i != j implies #[trigger] t0.kids(p)[i] != id by {
        if i < j {
            t0.lemma_kids_distinct(p, i, j);
        } else {
            t0.lemma_kids_distinct(p, j, i);
        }
    }
    assert forall|i: int| 0 <= i < t0.kids(p).len() implies #[trigger] t0.kids(p)[i] != p && t0.kids(p)[i] != r
        && !t1.kids(r).contains(t0.kids(p)[i]) by {
        assert(t0.child_ok(p, i));
        let c = t0.kids(p)[i];
        if t1.kids(r).contains(c) {
            let i2 = choose|i2: int| 0 <= i2 < t1.kids(r).len() && t1.kids(r)[i2] == c;
            let n = t0.items(id).len() as int;
            let m = (n - 1) / 2;
            assert(t0.child_ok(id, i2 + m + 1));
        }
    }
}

/// After a split the left half is in order.
proof fn lemma_split_left<K: Ord, V>(t0: Tree<K, V>, t1: Tree<K, V>, id: usize, p: usize, j: int, r: usize)
    requires
        total_order::<K>(),
        split_step(t0, t1, id, p, j, r),
    ensures
        t1.node_ok(id),
{
    lemma_split_facts(t0, t1, id, p, j, r);
    let n = t0.items(id).len() as int;
    let m = (n - 1) / 2;
    let items = t0.items(id);
    assert forall|a: int, b: int| 0 <= a < b < t1.items(id).len() implies lt(
        #[trigger] t1.items(id)[a].key_spec(),
        #[trigger] t1.items(id)[b].key_spec(),
    ) by {
        assert(lt(items[a].key_spec(), items[b].key_spec()));
    }
    assert(within(t1.items(id), t1.lower[id], t1.upper[id])) by {
        assert forall|i: int| 0 <= i < t1.items(id).len() implies lt(
            #[trigger] t1.items(id)[i].key_spec(),
            t1.upper[id]->0,
        ) by {
            assert(lt(items[i].key_spec(), items[m].key_spec()));
        }
        if t1.lower[id] is Some {
            assert forall|i: int| 0 <= i < t1.items(id).len() implies lt(
                t1.lower[id]->0,
                #[trigger] t1.items(id)[i].key_spec(),
            ) by {
                assert(lt(t0.lower[id]->0, items[i].key_spec()));
            }
        }
    }
    assert forall|i: int| 0 <= i < t1.kids(id).len() implies #[trigger] t1.child_ok(id, i) by {
        assert(t0.child_ok(id, i));
        let c = t0.kids(id)[i];
        assert(kept(t0, t1, t1.kids(r), r, c));
        if t1.kids(r).contains(c) {
            let i2 = choose|i2: int| 0 <= i2 < t1.kids(r).len() && t1.kids(r)[i2] == c;
            t0.lemma_kids_distinct(id, i, i2 + m + 1);
        }
    }
    assert(t1.kids_ok(id));
    assert(t1.is_child(p, j, id));
    assert(t1.parent_ok(id));
    assert(t1.local_ok(id));
}

/// After a split the right half is in order.
proof fn lemma_split_right<K: Ord, V>(t0: Tree<K, V>, t1: Tree<K, V>, id: usize, p: usize, j: int, r: usize)
    requires
        total_order::<K>(),
        split_step(t0, t1, id, p, j, r),
    ensures
        t1.node_ok(r),
{
    lemma_split_facts(t0, t1, id, p, j, r);
    let n = t0.items(id).len() as int;
    let m = (n - 1) / 2;
    let items = t0.items(id);
    assert forall|a: int, b: int| 0 <= a < b < t1.items(r).len() implies lt(
        #[trigger] t1.items(r)[a].key_spec(),
        #[trigger] t1.items(r)[b].key_spec(),
    ) by {
        assert(lt(items[a + m + 1].key_spec(), items[b + m + 1].key_spec()));
    }
    assert(within(t1.items(r), t1.lower[r], t1.upper[r])) by {
        assert forall|i: int| 0 <= i < t1.items(r).len() implies lt(
            t1.lower[r]->0,
            #[trigger] t1.items(r)[i].key_spec(),
        ) by {
            assert(lt(items[m].key_spec(), items[i + m + 1].key_spec()));
        }
        if t1.upper[r] is Some {
            assert forall|i: int| 0 <= i < t1.items(r).len() implies lt(
                #[trigger] t1.items(r)[i].key_spec(),
                t1.upper[r]->0,
            ) by {
                assert(lt(items[i + m + 1].key_spec(), t0.upper[id]->0));
            }
        }
    }
    assert forall|i: int| 0 <= i < t1.kids(r).len() implies #[trigger] t1.child_ok(r, i) by {
        assert(t0.child_ok(id, i + m + 1));
        let c = t0.kids(id)[i + m + 1];
        assert(t1.kids(r)[i] == c);
        assert(t1.kids(r).contains(c));
        assert(kept(t0, t1, t1.kids(r), r, c));
    }
    assert(t1.kids_ok(r));
    assert(t1.kids(p)[j + 1] == r);
    assert(t1.is_child(p, j + 1, r));
    assert(t1.parent_ok(r));
    assert(t1.local_ok(r));
}

/// After a split the parent is in order.
proof fn lemma_split_parent<K: Ord, V>(t0: Tree<K, V>, t1: Tree<K, V>, id: usize, p: usize, j: int, r: usize)
    requires
        total_order::<K>(),
        split_step(t0, t1, id, p, j, r),
    ensures
        t1.node_ok(p),
{
    lemma_split_facts(t0, t1, id, p, j, r);
    let n = t0.items(id).len() as int;
    let m = (n - 1) / 2;
    let median = t0.items(id)[m];
    let k = median.key_spec();
    t0.lemma_child_covers(p, j, k);
    lemma_inserted_sorted(t0.items(p), j, median);
    let items0 = t0.items(p);
    let items1 = t1.items(p);
    assert(within(items1, t1.lower[p], t1.upper[p])) by {
        if t1.lower[p] is Some {
            assert forall|i: int| 0 <= i < items1.len() implies lt(t1.lower[p]->0, #[trigger] items1[i].key_spec()) by {
                if i < j {
                    assert(lt(t0.lower[p]->0, items0[i].key_spec()));
                } else if i > j {
                    assert(lt(t0.lower[p]->0, items0[i - 1].key_spec()));
                }
            }
        }
        if t1.upper[p] is Some {
            assert forall|i: int| 0 <= i < items1.len() implies lt(#[trigger] items1[i].key_spec(), t1.upper[p]->0) by {
                if i < j {
                    assert(lt(items0[i].key_spec(), t0.upper[p]->0));
                } else if i > j {
                    assert(lt(items0[i - 1].key_spec(), t0.upper[p]->0));
                }
            }
        }
    }
    assert forall|i: int| 0 <= i < t1.kids(p).len() implies #[trigger] t1.child_ok(p, i) by {
        if i <= j {
            assert(t0.child_ok(p, i));
            let c = t0.kids(p)[i];
            assert(t1.kids(p)[i] == c);
            if i < j {
                assert(kept(t0, t1, t1.kids(r), r, c));
            }
        } else if i == j + 1 {
        } else {
            assert(t0.child_ok(p, i - 1));
            let c = t0.kids(p)[i - 1];
            assert(t1.kids(p)[i] == c);
            assert(kept(t0, t1, t1.kids(r), r, c));
        }
    }
    assert(t1.kids_ok(p));
    assert(t1.local_ok(p));
    match t0.node(p).parent_spec() {
        None => {},
        Some(q) => {
            let i = choose|i: int| #[trigger] t0.is_child(q, i, p);
            assert(t0.node_ok(q));
            assert(t0.child_ok(q, i));
            assert(q != id && q != p && q != r);
            assert(kept(t0, t1, t1.kids(r), r, q));
            if t1.kids(r).contains(q) {
                let i2 = choose|i2: int| 0 <= i2 < t1.kids(r).len() && t1.kids(r)[i2] == q;
                assert(t0.child_ok(id, i2 + m + 1));
            }
            assert(t1.is_child(q, i, p));
        },
    }
    assert(t1.parent_ok(p));
}

/// After a split every other node is in order.
proof fn lemma_split_rest<K: Ord, V>(t0: Tree<K, V>, t1: Tree<K, V>, id: usize, p: usize, j: int, r: usize, x: usize)
    requires
        total_order::<K>(),
        split_step(t0, t1, id, p, j, r),
        t0.live(x),
        x != id,
        x != p,
    ensures
        t1.node_ok(x),
{
    lemma_split_facts(t0, t1, id, p, j, r);
    let n = t0.items(id).len() as int;
    let m = (n - 1) / 2;
    assert(t0.node_ok(x));
    assert(kept(t0, t1, t1.kids(r), r, x));
    assert forall|i: int| 0 <= i < t1.kids(x).len() implies #[trigger] t1.child_ok(x, i) by {
        assert(t0.child_ok(x, i));
        let c = t0.kids(x)[i];
        if c != p {
            assert(c != id);
            assert(kept(t0, t1, t1.kids(r), r, c));
            if t1.kids(r).contains(c) {
                let i2 = choose|i2: int| 0 <= i2 < t1.kids(r).len() && t1.kids(r)[i2] == c;
                assert(t0.child_ok(id, i2 + m + 1));
            }
        }
    }
    assert(t1.kids_ok(x));
    assert(t1.local_ok(x));
    if t1.kids(r).contains(x) {
        let i2 = choose|i2: int| 0 <= i2 < t1.kids(r).len() && t1.kids(r)[i2] == x;
        assert(t1.is_child(r, i2, x));
        assert(!t0.node(id).is_leaf());
        assert(t0.kids(id)[i2 + m + 1] == x);
        assert(t0.child_ok(id, i2 + m + 1));
        assert(t0.parent_ok(x));
        assert(t1.root != Some(x));
        assert(t1.node(x).parent_spec() == Some(r));
        assert(t1.live(r));
        assert(t1.parent_ok(x));
    } else {
        match t0.node(x).parent_spec() {
            None => {},
            Some(q) => {
                let i = choose|i: int| #[trigger] t0.is_child(q, i, x);
                if q == id {
                    assert(t0.kids(id)[i] == x);
                    if i > m {
                        assert(t1.kids(r)[i - m - 1] == x);
                    }
                    assert(t1.is_child(id, i, x));
                } else if q == p {
                    if i <= j {
                        assert(t1.is_child(p, i, x));
                    } else {
                        assert(t1.kids(p)[i + 1] == x);
                        assert(t1.is_child(p, i + 1, x));
                    }
                } else {
                    assert(t0.node_ok(q));
                    assert(kept(t0, t1, t1.kids(r), r, q));
                    assert(t1.is_child(q, i, x));
                }
            },
        }
        assert(t1.parent_ok(x));
    }
}

/// Splitting an overflowing node keeps the tree a search tree with the same
/// items; the parent alone may then hold one item too many.
pub proof fn lemma_split<K: Ord, V>(t0: Tree<K, V>, t1: Tree<K, V>, id: usize, p: usize, j: int, r: usize)
    requires
        total_order::<K>(),
        split_step(t0, t1, id, p, j, r),
        t0.balanced_but(Some(id)),
    ensures
        t1.shape(),
        t1.balanced_but(Some(p)),
        t0.same_items(t1),
        forall|a: ItemAddr| #[trigger]
            t0.occupied(a) ==> t1.item_is(split_move(a, id, (t0.items(id).len() - 1) / 2, p, j, r), t0.item_at(a)),
{
    lemma_split_facts(t0, t1, id, p, j, r);
    let n = t0.items(id).len() as int;
    let m = (n - 1) / 2;
    assert forall|x: usize| t1.live(x) implies #[trigger] t1.node_ok(x) by {
        if x == id {
            lemma_split_left(t0, t1, id, p, j, r);
        } else if x == r {
            lemma_split_right(t0, t1, id, p, j, r);
        } else if x == p {
            lemma_split_parent(t0, t1, id, p, j, r);
        } else {
            lemma_split_rest(t0, t1, id, p, j, r, x);
        }
    }
    assert forall|x: usize| t1.live(x) implies #[trigger] t1.fit(Some(p), x) by {
        assert(t0.fit(Some(id), id));
        assert(t0.fit(Some(id), p));
        if x != p && x != id && x != r {
            assert(t0.fit(Some(id), x));
            assert(kept(t0, t1, t1.kids(r), r, x));
        }
    }
    assert forall|a: ItemAddr| #[trigger] t0.occupied(a) implies t1.item_is(
        split_move(a, id, m, p, j, r),
        t0.item_at(a),
    ) by {
        assert(t0.node_ok(a.id));
        if a.id != id && a.id != p {
            assert(kept(t0, t1, t1.kids(r), r, a.id));
        }
    }
    assert forall|a: ItemAddr| #[trigger] t0.occupied(a) implies t1.has_item(t0.item_at(a)) by {
        assert(t1.item_is(split_move(a, id, m, p, j, r), t0.item_at(a)));
    }
    assert forall|b: ItemAddr| #[trigger] t1.occupied(b) implies t0.has_item(t1.item_at(b)) by {
        let o = b.offset@;
        if b.id == id {
            assert(t0.item_is(b, t1.item_at(b)));
        } else if b.id == r {
            let a = ItemAddr { id, offset: Offset((o + m + 1) as usize) };
            assert(t0.item_is(a, t1.item_at(b)));
        } else if b.id == p {
            if o < j {
                assert(t0.item_is(b, t1.item_at(b)));
            } else if o == j {
                let a = ItemAddr { id, offset: Offset(m as usize) };
                assert(t0.item_is(a, t1.item_at(b)));
            } else {
                let a = ItemAddr { id: p, offset: Offset((o - 1) as usize) };
                assert(t0.item_is(a, t1.item_at(b)));
            }
        } else {
            assert(kept(t0, t1, t1.kids(r), r, b.id));
            assert(t0.item_is(b, t1.item_at(b)));
        }
    }
}

/// `t1` is `t0` after the overflowing root `id` has been split: its left
/// half stays, its right half is the new node `r`, and its median item is
/// the one item of the new root `q`.
pub open spec fn grow_step<K: Ord, V>(t0: Tree<K, V>, t1: Tree<K, V>, id: usize, r: usize, q: usize) -> bool {
    let n = t0.items(id).len() as int;
    let m = (n - 1) / 2;
    let median = t0.items(id)[m];
    let leaf = t0.node(id).is_leaf();
    &&& t0.shape()
    &&& t0.root == Some(id)
    &&& t0.node(id).spec_is_overflowing()
    &&& !t0.live(r)
    &&& !t0.live(q)
    &&& r != q
    &&& r < usize::MAX
    &&& q < usize::MAX
    &&& t1.nodes.dom() == t0.nodes.dom().insert(r).insert(q)
    &&& t1.root == Some(q)
    &&& t1.height == t0.height.insert(r, t0.height[id]).insert(q, t0.height[id] + 1)
    &&& t1.lower == t0.lower.insert(r, Some(median.key_spec())).insert(q, None)
    &&& t1.upper == t0.upper.insert(id, Some(median.key_spec())).insert(r, None).insert(q, None)
    &&& t1.node(id).is_leaf() == leaf
    &&& t1.node(id).parent_spec() == Some(q)
    &&& t1.items(id) == t0.items(id).subrange(0, m)
    &&& t1.kids(id) == (if leaf {
        t0.kids(id)
    } else {
        t0.kids(id).subrange(0, m + 1)
    })
    &&& t1.node(r).is_leaf() == leaf
    &&& t1.node(r).parent_spec() == Some(q)
    &&& t1.items(r) == t0.items(id).subrange(m + 1, n)
    &&& t1.kids(r) == (if leaf {
        t0.kids(id)
    } else {
        t0.kids(id).subrange(m + 1, n + 1)
    })
    &&& !t1.node(q).is_leaf()
    &&& t1.node(q).parent_spec() is None
    &&& t1.items(q) == seq![median]
    &&& t1.kids(q) == seq![id, r]
    &&& forall|x: usize| t0.live(x) && x != id ==> #[trigger] kept(t0, t1, t1.kids(r), r, x)
}

/// Where the item at `a` stands after the split of the root `id`.
pub open spec fn grow_move(a: ItemAddr, id: usize, m: int, r: usize, q: usize) -> ItemAddr {
    if a.id == id {
        if a.offset@ == m {
            ItemAddr { id: q, offset: Offset(0) }
        } else if a.offset@ > m {
            ItemAddr { id: r, offset: Offset((a.offset@ - m - 1) as usize) }
        } else {
            a
        }
    } else {
        a
    }
}

/// Facts about the split of a root that its proofs share.
proof fn lemma_grow_facts<K: Ord, V>(t0: Tree<K, V>, t1: Tree<K, V>, id: usize, r: usize, q: usize)
    requires
        total_order::<K>(),
        grow_step(t0, t1, id, r, q),
    ensures
        t0.live(id),
        t0.node_ok(id),
        r != id,
        q != id,
        t0.lower[id] is None,
        t0.upper[id] is None,
        t0.node(id).parent_spec() is None,
        t0.node(id).is_leaf() ==> t0.kids(id).len() == 0 && t0.items(id).len() == M + 1,
        !t0.node(id).is_leaf() ==> t0.kids(id).len() == t0.items(id).len() + 1 && t0.items(id).len() >= M,
        t0.items(id).len() <= M + 1,
        forall|i: int| 0 <= i < t0.kids(id).len() ==> #[trigger] t0.kids(id)[i] != id && t0.kids(id)[i] != q
            && t0.kids(id)[i] != r && t0.live(t0.kids(id)[i]),
{
    assert(t0.node_ok(id));
    t0.node(id).lemma_len();
    assert forall|i: int| 0 <= i < t0.kids(id).len() implies #[trigger] t0.kids(id)[i] != id && t0.kids(id)[i] != q
        && t0.kids(id)[i] != r && t0.live(t0.kids(id)[i]) by {
        assert(t0.child_ok(id, i));
    }
}

proof fn lemma_grow_left<K: Ord, V>(t0: Tree<K, V>, t1: Tree<K, V>, id: usize, r: usize, q: usize)
    requires
        total_order::<K>(),
        grow_step(t0, t1, id, r, q),
    ensures
        t1.node_ok(id),
{
    lemma_grow_facts(t0, t1, id, r, q);
    let n = t0.items(id).len() as int;
    let m = (n - 1) / 2;
    let items = t0.items(id);
    assert forall|a: int, b: int| 0 <= a < b < t1.items(id).len() implies lt(
        #[trigger] t1.items(id)[a].key_spec(),
        #[trigger] t1.items(id)[b].key_spec(),
    ) by {
        assert(lt(items[a].key_spec(), items[b].key_spec()));
    }
    assert forall|i: int| 0 <= i < t1.items(id).len() implies lt(
        #[trigger] t1.items(id)[i].key_spec(),
        t1.upper[id]->0,
    ) by {
        assert(lt(items[i].key_spec(), items[m].key_spec()));
    }
    assert(t1.local_ok(id));
    assert forall|i: int| 0 <= i < t1.kids(id).len() implies #[trigger] t1.child_ok(id, i) by {
        assert(t0.child_ok(id, i));
        let c = t0.kids(id)[i];
        assert(kept(t0, t1, t1.kids(r), r, c));
        if t1.kids(r).contains(c) {
            let i2 = choose|i2: int| 0 <= i2 < t1.kids(r).len() && t1.kids(r)[i2] == c;
            t0.lemma_kids_distinct(id, i, i2 + m + 1);
        }
    }
    assert(t1.kids_ok(id));
    assert(t1.kids(q).len() == 2 && t1.kids(q)[0] == id && t1.kids(q)[1] == r);
    assert(t1.is_child(q, 0, id));
    assert(t1.live(q));
    assert(t1.node(id).parent_spec() == Some(q));
    assert(t1.root != Some(id));
    assert(exists|j: int| #[trigger] t1.is_child(q, j, id));
    assert(match t1.node(id).parent_spec() {
        None => t1.root == Some(id),
        Some(p) => t1.root != Some(id) && t1.live(p) && exists|j: int| #[trigger] t1.is_child(p, j, id),
    });
    assert(t1.parent_ok(id));
}

proof fn lemma_grow_right<K: Ord, V>(t0: Tree<K, V>, t1: Tree<K, V>, id: usize, r: usize, q: usize)
    requires
        total_order::<K>(),
        grow_step(t0, t1, id, r, q),
    ensures
        t1.node_ok(r),
{
    lemma_grow_facts(t0, t1, id, r, q);
    let n = t0.items(id).len() as int;
    let m = (n - 1) / 2;
    let items = t0.items(id);
    assert forall|a: int, b: int| 0 <= a < b < t1.items(r).len() implies lt(
        #[trigger] t1.items(r)[a].key_spec(),
        #[trigger] t1.items(r)[b].key_spec(),
    ) by {
        assert(lt(items[a + m + 1].key_spec(), items[b + m + 1].key_spec()));
    }
    assert forall|i: int| 0 <= i < t1.items(r).len() implies lt(
        t1.lower[r]->0,
        #[trigger] t1.items(r)[i].key_spec(),
    ) by {
        assert(lt(items[m].key_spec(), items[i + m + 1].key_spec()));
    }
    assert(t1.local_ok(r));
    assert forall|i: int| 0 <= i < t1.kids(r).len() implies #[trigger] t1.child_ok(r, i) by {
        assert(t0.child_ok(id, i + m + 1));
        let c = t0.kids(id)[i + m + 1];
        assert(t1.kids(r)[i] == c);
        assert(t1.kids(r).contains(c));
        assert(kept(t0, t1, t1.kids(r), r, c));
    }
    assert(t1.kids_ok(r));
    assert(t1.is_child(q, 1, r));
    assert(t1.parent_ok(r));
}

proof fn lemma_grow_top<K: Ord, V>(t0: Tree<K, V>, t1: Tree<K, V>, id: usize, r: usize, q: usize)
    requires
        total_order::<K>(),
        grow_step(t0, t1, id, r, q),
    ensures
        t1.node_ok(q),
{
    lemma_grow_facts(t0, t1, id, r, q);
    let n = t0.items(id).len() as int;
    let m = (n - 1) / 2;
    let items = t0.items(id);
    assert(t1.local_ok(q));
    assert forall|i: int| 0 <= i < t1.kids(q).len() implies #[trigger] t1.child_ok(q, i) by {
        if i == 0 {
            assert(t1.kids(q)[0] == id);
        } else {
            assert(t1.kids(q)[1] == r);
        }
    }
    assert(t1.kids_ok(q));
    assert(t1.parent_ok(q));
}

proof fn lemma_grow_rest<K: Ord, V>(t0: Tree<K, V>, t1: Tree<K, V>, id: usize, r: usize, q: usize, x: usize)
    requires
        total_order::<K>(),
        grow_step(t0, t1, id, r, q),
        t0.live(x),
        x != id,
    ensures
        t1.node_ok(x),
{
    lemma_grow_facts(t0, t1, id, r, q);
    let n = t0.items(id).len() as int;
    let m = (n - 1) / 2;
    assert(t0.node_ok(x));
    assert(kept(t0, t1, t1.kids(r), r, x));
    assert forall|i: int| 0 <= i < t1.kids(x).len() implies #[trigger] t1.child_ok(x, i) by {
        assert(t0.child_ok(x, i));
        let c = t0.kids(x)[i];
        assert(c != id);
        assert(kept(t0, t1, t1.kids(r), r, c));
        if t1.kids(r).contains(c) {
            let i2 = choose|i2: int| 0 <= i2 < t1.kids(r).len() && t1.kids(r)[i2] == c;
            assert(t0.child_ok(id, i2 + m + 1));
        }
    }
    assert(t1.kids_ok(x));
    assert(t1.local_ok(x));
    if t1.kids(r).contains(x) {
        let i2 = choose|i2: int| 0 <= i2 < t1.kids(r).len() && t1.kids(r)[i2] == x;
        assert(t1.is_child(r, i2, x));
        assert(!t0.node(id).is_leaf());
        assert(t0.kids(id)[i2 + m + 1] == x);
        assert(t0.child_ok(id, i2 + m + 1));
        assert(t1.node(x).parent_spec() == Some(r));
        assert(t1.live(r));
        assert(t1.parent_ok(x));
    } else {
        assert(t0.parent_ok(x));
        let pq = t0.node(x).parent_spec()->0;
        let i = choose|i: int| #[trigger] t0.is_child(pq, i, x);
        if pq == id {
            assert(t0.kids(id)[i] == x);
            if i > m {
                assert(t1.kids(r)[i - m - 1] == x);
            }
            assert(t1.is_child(id, i, x));
        } else {
            assert(t0.node_ok(pq));
            assert(kept(t0, t1, t1.kids(r), r, pq));
            assert(t1.is_child(pq, i, x));
        }
        assert(t1.parent_ok(x));
    }
}

/// Splitting an overflowing root under a new root keeps the tree a search
/// tree with the same items, and leaves every node balanced.
pub proof fn lemma_grow<K: Ord, V>(t0: Tree<K, V>, t1: Tree<K, V>, id: usize, r: usize, q: usize)
    requires
        total_order::<K>(),
        grow_step(t0, t1, id, r, q),
        t0.balanced_but(Some(id)),
    ensures
        t1.shape(),
        t1.balanced_but(None),
        t0.same_items(t1),
        forall|a: ItemAddr| #[trigger]
            t0.occupied(a) ==> t1.item_is(grow_move(a, id, (t0.items(id).len() - 1) / 2, r, q), t0.item_at(a)),
{
    lemma_grow_facts(t0, t1, id, r, q);
    let n = t0.items(id).len() as int;
    let m = (n - 1) / 2;
    assert forall|x: usize| t1.live(x) implies #[trigger] t1.node_ok(x) by {
        if x == id {
            lemma_grow_left(t0, t1, id, r, q);
        } else if x == r {
            lemma_grow_right(t0, t1, id, r, q);
        } else if x == q {
            lemma_grow_top(t0, t1, id, r, q);
        } else {
            lemma_grow_rest(t0, t1, id, r, q, x);
        }
    }
    assert forall|x: usize| t1.live(x) implies #[trigger] t1.fit(None, x) by {
        assert(t0.fit(Some(id), id));
        if x != q && x != id && x != r {
            assert(t0.fit(Some(id), x));
            assert(kept(t0, t1, t1.kids(r), r, x));
        }
    }
    assert forall|a: ItemAddr| #[trigger] t0.occupied(a) implies t1.item_is(
        grow_move(a, id, m, r, q),
        t0.item_at(a),
    ) by {
        assert(t0.node_ok(a.id));
        if a.id != id {
            assert(kept(t0, t1, t1.kids(r), r, a.id));
        }
    }
    assert forall|a: ItemAddr| #[trigger] t0.occupied(a) implies t1.has_item(t0.item_at(a)) by {
        assert(t1.item_is(grow_move(a, id, m, r, q), t0.item_at(a)));
    }
    assert forall|b: ItemAddr| #[trigger] t1.occupied(b) implies t0.has_item(t1.item_at(b)) by {
        let o = b.offset@;
        if b.id == id {
            assert(t0.item_is(b, t1.item_at(b)));
        } else if b.id == r {
            let a = ItemAddr { id, offset: Offset((o + m + 1) as usize) };
            assert(t0.item_is(a, t1.item_at(b)));
        } else if b.id == q {
            let a = ItemAddr { id, offset: Offset(m as usize) };
            assert(t0.item_is(a, t1.item_at(b)));
        } else {
            assert(kept(t0, t1, t1.kids(r), r, b.id));
            assert(t0.item_is(b, t1.item_at(b)));
        }
    }
}

/// `t1` is `t0` after the root, which holds no item, has been taken away:
/// its one child, if it has one, is the new root.
pub open spec fn collapse_step<K: Ord, V>(t0: Tree<K, V>, t1: Tree<K, V>, id: usize) -> bool {
    &&& t0.shape()
    &&& t0.root == Some(id)
    &&& t0.items(id).len() == 0
    &&& t1.nodes.dom() == t0.nodes.dom().remove(id)
    &&& t1.height == t0.height
    &&& t1.lower == t0.lower
    &&& t1.upper == t0.upper
    &&& if t0.node(id).is_leaf() {
        &&& t1.root is None
        &&& forall|x: usize| t0.live(x) && x != id ==> #[trigger] untouched(t0, t1, x)
    } else {
        let c = t0.kids(id)[0];
        &&& t1.root == Some(c)
        &&& reparented(t0.node(c), t1.node(c), None)
        &&& forall|x: usize| t0.live(x) && x != id && x != c ==> #[trigger] untouched(t0, t1, x)
    }
}

/// Taking an empty root away keeps the tree a search tree with the same
/// items, and leaves every node balanced.
pub proof fn lemma_collapse<K: Ord, V>(t0: Tree<K, V>, t1: Tree<K, V>, id: usize)
    requires
        total_order::<K>(),
        collapse_step(t0, t1, id),
        t0.balanced_but(Some(id)),
    ensures
        t1.shape(),
        t1.balanced_but(None),
        t0.same_items(t1),
        forall|a: ItemAddr| #[trigger] t0.occupied(a) ==> t1.item_is(a, t0.item_at(a)),
{
    assert(t0.node_ok(id));
    t0.node(id).lemma_len();
    if t0.node(id).is_leaf() {
        assert forall|x: usize| !t1.nodes.dom().contains(x) by {
            if t0.live(x) && x != id {
                t0.lemma_height(x);
                assert(t0.height[id] == 0);
            }
        }
        assert(t1.nodes.dom() =~= Set::<usize>::empty());
    } else {
        let c = t0.kids(id)[0];
        assert(t0.child_ok(id, 0));
        assert(c != id);
        assert forall|x: usize| t1.live(x) implies #[trigger] t1.node_ok(x) by {
            assert(t0.node_ok(x));
            if x != c {
                assert(untouched(t0, t1, x));
            }
            assert(t1.kids(x) == t0.kids(x));
            assert forall|i: int| 0 <= i < t1.kids(x).len() implies #[trigger] t1.child_ok(x, i) by {
                assert(t0.child_ok(x, i));
                let cc = t0.kids(x)[i];
                assert(cc != id);
                if cc == c {
                    assert(t0.node(c).parent_spec() == Some(x));
                } else {
                    assert(untouched(t0, t1, cc));
                }
            }
            assert(t1.kids_ok(x));
            assert(t1.local_ok(x));
            if x != c {
                assert(t0.parent_ok(x));
                let pq = t0.node(x).parent_spec()->0;
                let i = choose|i: int| #[trigger] t0.is_child(pq, i, x);
                if pq == id {
                    assert(i == 0);
                }
                if pq != c {
                    assert(untouched(t0, t1, pq));
                }
                assert(t1.is_child(pq, i, x));
            }
            assert(t1.parent_ok(x));
        }
        assert forall|x: usize| t1.live(x) implies #[trigger] t1.fit(None, x) by {
            assert(t0.fit(Some(id), x));
            if x != c {
                assert(untouched(t0, t1, x));
            }
        }
    }
    assert forall|x: usize| t0.live(x) && x != id implies t1.items(x) == t0.items(x) by {
        if !t0.node(id).is_leaf() && x == t0.kids(id)[0] {
        } else {
            assert(untouched(t0, t1, x));
        }
    }
    assert forall|a: ItemAddr| #[trigger] t0.occupied(a) implies t1.item_is(a, t0.item_at(a)) by {}
    assert forall|a: ItemAddr| #[trigger] t0.occupied(a) implies t1.has_item(t0.item_at(a)) by {
        assert(t1.item_is(a, t0.item_at(a)));
    }
    assert forall|b: ItemAddr| #[trigger] t1.occupied(b) implies t0.has_item(t1.item_at(b)) by {
        assert(t0.item_is(b, t1.item_at(b)));
    }
}

/// `t1` is `t0` after a rotation to the left under `p`: the first item of
/// the child `i + 1` has gone up into `p`, in place of the item `i` of `p`,
/// which has gone down to the end of the child `i`; with the first item the
/// first child has moved to the end of the child `i`.
pub open spec fn rotate_left_step<K: Ord, V>(t0: Tree<K, V>, t1: Tree<K, V>, p: usize, i: int) -> bool {
    let d = t0.kids(p)[i];
    let s = t0.kids(p)[i + 1];
    let up = t0.items(s)[0];
    let down = t0.items(p)[i];
    let leaf = t0.node(d).is_leaf();
    &&& t0.shape()
    &&& t0.live(p)
    &&& 0 <= i
    &&& i + 1 < t0.kids(p).len()
    &&& t0.node(s).can_pop()
    &&& t0.node(d).spec_is_underflowing()
    &&& t1.nodes.dom() == t0.nodes.dom()
    &&& t1.root == t0.root
    &&& t1.height == t0.height
    &&& t1.lower == t0.lower.insert(s, Some(up.key_spec()))
    &&& t1.upper == t0.upper.insert(d, Some(up.key_spec()))
    &&& t1.node(s).is_leaf() == leaf
    &&& t1.node(s).parent_spec() == Some(p)
    &&& t1.items(s) == t0.items(s).remove(0)
    &&& t1.kids(s) == (if leaf {
        t0.kids(s)
    } else {
        t0.kids(s).remove(0)
    })
    &&& !t1.node(p).is_leaf()
    &&& t1.node(p).parent_spec() == t0.node(p).parent_spec()
    &&& t1.items(p) == t0.items(p).update(i, up)
    &&& t1.kids(p) == t0.kids(p)
    &&& t1.node(d).is_leaf() == leaf
    &&& t1.node(d).parent_spec() == Some(p)
    &&& t1.items(d) == t0.items(d).push(down)
    &&& t1.kids(d) == (if leaf {
        t0.kids(d)
    } else {
        t0.kids(d).push(t0.kids(s)[0])
    })
    &&& forall|x: usize|
        t0.live(x) && x != s && x != p && x != d ==> #[trigger] kept(t0, t1, rotate_left_moved(t0, p, i), d, x)
}

/// Where the item at `a` stands after a rotation to the left.
pub open spec fn rotate_left_move<K: Ord, V>(t0: Tree<K, V>, a: ItemAddr, p: usize, i: int) -> ItemAddr {
    let d = t0.kids(p)[i];
    let s = t0.kids(p)[i + 1];
    if a.id == s {
        if a.offset@ == 0 {
            ItemAddr { id: p, offset: Offset(i as usize) }
        } else {
            ItemAddr { id: s, offset: Offset((a.offset@ - 1) as usize) }
        }
    } else if a.id == p && a.offset@ == i {
        ItemAddr { id: d, offset: Offset(t0.items(d).len() as usize) }
    } else {
        a
    }
}

/// The children that a rotation moves.
pub open spec fn rotate_left_moved<K: Ord, V>(t0: Tree<K, V>, p: usize, i: int) -> Seq<usize> {
    if t0.node(t0.kids(p)[i]).is_leaf() {
        Seq::<usize>::empty()
    } else {
        seq![t0.kids(t0.kids(p)[i + 1])[0]]
    }
}

/// Facts about two neighbouring children `i` and `i + 1` of `p`.
pub proof fn lemma_siblings<K: Ord, V>(t0: Tree<K, V>, p: usize, i: int)
    requires
        total_order::<K>(),
        t0.shape(),
        t0.live(p),
        0 <= i,
        i + 1 < t0.kids(p).len(),
    ensures
        t0.node_ok(p),
        !t0.node(p).is_leaf(),
        t0.kids(p).len() == t0.items(p).len() + 1,
        t0.child_ok(p, i),
        t0.child_ok(p, i + 1),
        t0.node_ok(t0.kids(p)[i]),
        t0.node_ok(t0.kids(p)[i + 1]),
        t0.kids(p)[i] != t0.kids(p)[i + 1],
        t0.kids(p)[i] != p,
        t0.kids(p)[i + 1] != p,
        t0.node(t0.kids(p)[i]).is_leaf() == t0.node(t0.kids(p)[i + 1]).is_leaf(),
        t0.upper[t0.kids(p)[i]] == Some(t0.items(p)[i].key_spec()),
        t0.lower[t0.kids(p)[i + 1]] == Some(t0.items(p)[i].key_spec()),
        sibling_kids(t0, p, i, t0.kids(p)[i]),
        sibling_kids(t0, p, i, t0.kids(p)[i + 1]),
        forall|j: int|
            0 <= j < t0.kids(p).len() ==> !t0.kids(t0.kids(p)[i]).contains(#[trigger] t0.kids(p)[j]) && !t0.kids(t0.kids(p)[i + 1]).contains(t0.kids(p)[j]),
        forall|a: int, b: int|
            0 <= a < t0.kids(t0.kids(p)[i]).len() && 0 <= b < t0.kids(t0.kids(p)[i + 1]).len() ==> #[trigger] t0.kids(t0.kids(p)[i])[a] != #[trigger] t0.kids(t0.kids(p)[i + 1])[b],
        t0.node(t0.kids(p)[i]).is_leaf() ==> t0.kids(t0.kids(p)[i]).len() == 0 && t0.kids(t0.kids(p)[i + 1]).len()
            == 0,
        !t0.node(t0.kids(p)[i]).is_leaf() ==> t0.kids(t0.kids(p)[i]).len() == t0.items(t0.kids(p)[i]).len() + 1
            && t0.kids(t0.kids(p)[i + 1]).len() == t0.items(t0.kids(p)[i + 1]).len() + 1,
{
    let d = t0.kids(p)[i];
    let s = t0.kids(p)[i + 1];
    assert(t0.node_ok(p));
    t0.node(p).lemma_len();
    assert(t0.child_ok(p, i));
    assert(t0.child_ok(p, i + 1));
    assert(t0.node_ok(d));
    assert(t0.node_ok(s));
    t0.node(d).lemma_len();
    t0.node(s).lemma_len();
    t0.lemma_kids_distinct(p, i, i + 1);
    assert forall|j: int| 0 <= j < t0.kids(d).len() implies #[trigger] t0.child_ok(d, j) && t0.kids(d)[j] != p
        && t0.kids(d)[j] != d && t0.kids(d)[j] != s by {
        assert(t0.child_ok(d, j));
    }
    assert forall|j: int| 0 <= j < t0.kids(s).len() implies #[trigger] t0.child_ok(s, j) && t0.kids(s)[j] != p
        && t0.kids(s)[j] != d && t0.kids(s)[j] != s by {
        assert(t0.child_ok(s, j));
    }
    assert forall|j: int| 0 <= j < t0.kids(p).len() implies !t0.kids(d).contains(#[trigger] t0.kids(p)[j])
        && !t0.kids(s).contains(t0.kids(p)[j]) by {
        assert(t0.child_ok(p, j));
        let c = t0.kids(p)[j];
        if t0.kids(d).contains(c) {
            let j2 = choose|j2: int| 0 <= j2 < t0.kids(d).len() && t0.kids(d)[j2] == c;
            assert(t0.child_ok(d, j2));
        }
        if t0.kids(s).contains(c) {
            let j2 = choose|j2: int| 0 <= j2 < t0.kids(s).len() && t0.kids(s)[j2] == c;
            assert(t0.child_ok(s, j2));
        }
    }
    assert forall|a: int, b: int| 0 <= a < t0.kids(d).len() && 0 <= b < t0.kids(s).len() implies #[trigger] t0.kids(d)[a] != #[trigger] t0.kids(s)[b] by {
        assert(t0.child_ok(d, a));
        assert(t0.child_ok(s, b));
    }
}

/// The children of `x`, one of the children `i` and `i + 1` of `p`, are in
/// their places and are none of the three nodes.
pub open spec fn sibling_kids<K: Ord, V>(t0: Tree<K, V>, p: usize, i: int, x: usize) -> bool {
    forall|j: int|
        0 <= j < t0.kids(x).len() ==> #[trigger] t0.child_ok(x, j) && t0.kids(x)[j] != p && t0.kids(x)[j] != t0.kids(p)[i] && t0.kids(x)[j] != t0.kids(p)[i + 1]
}

proof fn lemma_rotate_left_parent<K: Ord, V>(t0: Tree<K, V>, t1: Tree<K, V>, p: usize, i: int)
    requires
        total_order::<K>(),
        rotate_left_step(t0, t1, p, i),
    ensures
        t1.node_ok(p),
{
    lemma_siblings(t0, p, i);
    let d = t0.kids(p)[i];
    let s = t0.kids(p)[i + 1];
    let up = t0.items(s)[0];
    let k = up.key_spec();
    assert(t0.covers(s, k));
    t0.lemma_child_covers(p, i + 1, k);
    let items0 = t0.items(p);
    let items1 = t1.items(p);
    assert forall|a: int, b: int| 0 <= a < b < items1.len() implies lt(
        #[trigger] items1[a].key_spec(),
        #[trigger] items1[b].key_spec(),
    ) by {
        if a == i {
            assert(lt(k, items0[b].key_spec()));
        } else if b == i {
            assert(lt(items0[a].key_spec(), k));
        } else {
            assert(lt(items0[a].key_spec(), items0[b].key_spec()));
        }
    }
    assert(within(items1, t1.lower[p], t1.upper[p])) by {
        if t1.lower[p] is Some {
            assert forall|a: int| 0 <= a < items1.len() implies lt(t1.lower[p]->0, #[trigger] items1[a].key_spec()) by {
                if a != i {
                    assert(lt(t0.lower[p]->0, items0[a].key_spec()));
                }
            }
        }
        if t1.upper[p] is Some {
            assert forall|a: int| 0 <= a < items1.len() implies lt(#[trigger] items1[a].key_spec(), t1.upper[p]->0) by {
                if a != i {
                    assert(lt(items0[a].key_spec(), t0.upper[p]->0));
                }
            }
        }
    }
    assert(t1.local_ok(p));
    assert forall|j: int| 0 <= j < t1.kids(p).len() implies #[trigger] t1.child_ok(p, j) by {
        assert(t0.child_ok(p, j));
        let c = t0.kids(p)[j];
        if j != i && j != i + 1 {
            if j < i {
                t0.lemma_kids_distinct(p, j, i);
                t0.lemma_kids_distinct(p, j, i + 1);
            } else {
                t0.lemma_kids_distinct(p, i, j);
                t0.lemma_kids_distinct(p, i + 1, j);
            }
            assert(kept(t0, t1, rotate_left_moved(t0, p, i), d, c));
            assert(!t0.kids(s).contains(c));
        }
    }
    assert(t1.kids_ok(p));
    assert(t0.parent_ok(p));
    match t0.node(p).parent_spec() {
        None => {},
        Some(q) => {
            let j = choose|j: int| #[trigger] t0.is_child(q, j, p);
            assert(t0.node_ok(q));
            assert(t0.child_ok(q, j));
            assert(kept(t0, t1, rotate_left_moved(t0, p, i), d, q));
            if !t0.node(d).is_leaf() && q == t0.kids(s)[0] {
                assert(t0.child_ok(s, 0));
            }
            assert(t1.is_child(q, j, p));
        },
    }
    assert(t1.parent_ok(p));
}

proof fn lemma_rotate_left_giver<K: Ord, V>(t0: Tree<K, V>, t1: Tree<K, V>, p: usize, i: int)
    requires
        total_order::<K>(),
        rotate_left_step(t0, t1, p, i),
    ensures
        t1.node_ok(t0.kids(p)[i + 1]),
{
    lemma_siblings(t0, p, i);
    let d = t0.kids(p)[i];
    let s = t0.kids(p)[i + 1];
    let items0 = t0.items(s);
    let items1 = t1.items(s);
    assert forall|a: int, b: int| 0 <= a < b < items1.len() implies lt(
        #[trigger] items1[a].key_spec(),
        #[trigger] items1[b].key_spec(),
    ) by {
        assert(lt(items0[a + 1].key_spec(), items0[b + 1].key_spec()));
    }
    assert(within(items1, t1.lower[s], t1.upper[s])) by {
        assert forall|a: int| 0 <= a < items1.len() implies lt(t1.lower[s]->0, #[trigger] items1[a].key_spec()) by {
            assert(lt(items0[0].key_spec(), items0[a + 1].key_spec()));
        }
        if t1.upper[s] is Some {
            assert forall|a: int| 0 <= a < items1.len() implies lt(#[trigger] items1[a].key_spec(), t1.upper[s]->0) by {
                assert(lt(items0[a + 1].key_spec(), t0.upper[s]->0));
            }
        }
    }
    assert(t1.local_ok(s));
    assert forall|j: int| 0 <= j < t1.kids(s).len() implies #[trigger] t1.child_ok(s, j) by {
        assert(t0.child_ok(s, j + 1));
        let c = t0.kids(s)[j + 1];
        assert(t1.kids(s)[j] == c);
        t0.lemma_kids_distinct(s, 0, j + 1);
        assert(kept(t0, t1, rotate_left_moved(t0, p, i), d, c));
    }
    assert(t1.kids_ok(s));
    assert(t1.is_child(p, i + 1, s));
    assert(t0.parent_ok(s));
    assert(t1.parent_ok(s));
}

proof fn lemma_rotate_left_taker<K: Ord, V>(t0: Tree<K, V>, t1: Tree<K, V>, p: usize, i: int)
    requires
        total_order::<K>(),
        rotate_left_step(t0, t1, p, i),
    ensures
        t1.node_ok(t0.kids(p)[i]),
        t0.items(t0.kids(p)[i]).len() < usize::MAX,
{
    lemma_siblings(t0, p, i);
    let d = t0.kids(p)[i];
    let s = t0.kids(p)[i + 1];
    let up = t0.items(s)[0];
    let down = t0.items(p)[i];
    let items0 = t0.items(d);
    let items1 = t1.items(d);
    let n = items0.len() as int;
    assert(lt(down.key_spec(), up.key_spec()));
    assert forall|a: int| 0 <= a < n implies lt(#[trigger] items0[a].key_spec(), down.key_spec()) by {}
    assert forall|a: int, b: int| 0 <= a < b < items1.len() implies lt(
        #[trigger] items1[a].key_spec(),
        #[trigger] items1[b].key_spec(),
    ) by {
        if b < n {
            assert(lt(items0[a].key_spec(), items0[b].key_spec()));
        } else {
            assert(lt(items0[a].key_spec(), down.key_spec()));
        }
    }
    assert(within(items1, t1.lower[d], t1.upper[d])) by {
        assert forall|a: int| 0 <= a < items1.len() implies lt(#[trigger] items1[a].key_spec(), t1.upper[d]->0) by {
            if a < n {
                assert(lt(items0[a].key_spec(), down.key_spec()));
            }
        }
        if t1.lower[d] is Some {
            assert forall|a: int| 0 <= a < items1.len() implies lt(t1.lower[d]->0, #[trigger] items1[a].key_spec()) by {
                if a < n {
                    assert(lt(t0.lower[d]->0, items0[a].key_spec()));
                } else {
                    if i > 0 {
                        assert(lt(t0.items(p)[i - 1].key_spec(), t0.items(p)[i].key_spec()));
                    } else {
                        assert(lt(t0.lower[p]->0, t0.items(p)[i].key_spec()));
                    }
                }
            }
        }
    }
    assert(t1.local_ok(d));
    assert forall|j: int| 0 <= j < t1.kids(d).len() implies #[trigger] t1.child_ok(d, j) by {
        if j <= n {
            assert(t0.child_ok(d, j));
            let c = t0.kids(d)[j];
            assert(t1.kids(d)[j] == c);
            assert(c != t0.kids(s)[0]);
            assert(kept(t0, t1, rotate_left_moved(t0, p, i), d, c));
        } else {
            assert(t0.child_ok(s, 0));
            let c = t0.kids(s)[0];
            assert(t1.kids(d)[j] == c);
            assert(rotate_left_moved(t0, p, i)[0] == c);
            assert(rotate_left_moved(t0, p, i).contains(c));
            assert(kept(t0, t1, rotate_left_moved(t0, p, i), d, c));
        }
    }
    assert(t1.kids_ok(d));
    assert(t1.is_child(p, i, d));
    assert(t0.parent_ok(d));
    assert(t1.parent_ok(d));
}

proof fn lemma_rotate_left_rest<K: Ord, V>(t0: Tree<K, V>, t1: Tree<K, V>, p: usize, i: int, x: usize)
    requires
        total_order::<K>(),
        rotate_left_step(t0, t1, p, i),
        t0.live(x),
        x != p,
        x != t0.kids(p)[i],
        x != t0.kids(p)[i + 1],
    ensures
        t1.node_ok(x),
{
    lemma_siblings(t0, p, i);
    let d = t0.kids(p)[i];
    let s = t0.kids(p)[i + 1];
    let moved = rotate_left_moved(t0, p, i);
    assert(t0.node_ok(x));
    assert(kept(t0, t1, moved, d, x));
    assert forall|j: int| 0 <= j < t1.kids(x).len() implies #[trigger] t1.child_ok(x, j) by {
        assert(t0.child_ok(x, j));
        let c = t0.kids(x)[j];
        if c != p {
            assert(c != d && c != s);
            assert(kept(t0, t1, moved, d, c));
            if moved.contains(c) {
                assert(t0.child_ok(s, 0));
            }
        }
    }
    assert(t1.kids_ok(x));
    assert(t1.local_ok(x));
    if moved.contains(x) {
        assert(x == t0.kids(s)[0]);
        assert(t0.child_ok(s, 0));
        assert(t0.parent_ok(x));
        let n = t0.items(d).len() as int;
        assert(t1.kids(d)[n + 1] == x);
        assert(t1.is_child(d, n + 1, x));
        assert(t1.parent_ok(x));
    } else {
        assert(t0.parent_ok(x));
        match t0.node(x).parent_spec() {
            None => {},
            Some(q) => {
                let j = choose|j: int| #[trigger] t0.is_child(q, j, x);
                if q == s {
                    if j == 0 {
                        assert(!t0.node(s).is_leaf());
                        assert(moved[0] == x);
                        assert(moved.contains(x));
                    }
                    assert(t1.kids(s)[j - 1] == x);
                    assert(t1.is_child(s, j - 1, x));
                } else if q == d {
                    assert(t1.kids(d)[j] == x);
                    assert(t1.is_child(d, j, x));
                } else if q == p {
                    assert(t1.is_child(p, j, x));
                } else {
                    assert(t0.node_ok(q));
                    assert(kept(t0, t1, moved, d, q));
                    assert(t1.is_child(q, j, x));
                }
            },
        }
        assert(t1.parent_ok(x));
    }
}

/// A rotation to the left keeps the tree a search tree with the same items;
/// it balances the child that was one item short.
pub proof fn lemma_rotate_left<K: Ord, V>(t0: Tree<K, V>, t1: Tree<K, V>, p: usize, i: int)
    requires
        total_order::<K>(),
        rotate_left_step(t0, t1, p, i),
        t0.balanced_but(Some(t0.kids(p)[i])),
        t0.node(t0.kids(p)[i]).spec_is_underflowing(),
    ensures
        t1.shape(),
        t1.balanced_but(None),
        t0.same_items(t1),
        forall|a: ItemAddr| #[trigger] t0.occupied(a) ==> t1.item_is(rotate_left_move(t0, a, p, i), t0.item_at(a)),
{
    lemma_siblings(t0, p, i);
    let d = t0.kids(p)[i];
    let s = t0.kids(p)[i + 1];
    let moved = rotate_left_moved(t0, p, i);
    let n = t0.items(d).len() as int;
    assert forall|x: usize| t1.live(x) implies #[trigger] t1.node_ok(x) by {
        if x == p {
            lemma_rotate_left_parent(t0, t1, p, i);
        } else if x == s {
            lemma_rotate_left_giver(t0, t1, p, i);
        } else if x == d {
            lemma_rotate_left_taker(t0, t1, p, i);
        } else {
            lemma_rotate_left_rest(t0, t1, p, i, x);
        }
    }
    assert forall|x: usize| t1.live(x) implies #[trigger] t1.fit(None, x) by {
        assert(t0.fit(Some(d), x));
        assert(t0.parent_ok(d));
        assert(t0.parent_ok(s));
        if x != p && x != d && x != s {
            assert(kept(t0, t1, moved, d, x));
        }
    }
    lemma_rotate_left_taker(t0, t1, p, i);
    assert forall|a: ItemAddr| #[trigger] t0.occupied(a) implies t1.item_is(
        rotate_left_move(t0, a, p, i),
        t0.item_at(a),
    ) by {
        assert(t0.node_ok(a.id));
        if a.id != s && a.id != p && a.id != d {
            assert(kept(t0, t1, moved, d, a.id));
        }
    }
    assert forall|a: ItemAddr| #[trigger] t0.occupied(a) implies t1.has_item(t0.item_at(a)) by {
        assert(t1.item_is(rotate_left_move(t0, a, p, i), t0.item_at(a)));
    }
    assert forall|b: ItemAddr| #[trigger] t1.occupied(b) implies t0.has_item(t1.item_at(b)) by {
        let o = b.offset@;
        if b.id == s {
            let a = ItemAddr { id: s, offset: Offset((o + 1) as usize) };
            assert(t0.item_is(a, t1.item_at(b)));
        } else if b.id == p {
            if o == i {
                let a = ItemAddr { id: s, offset: Offset(0) };
                assert(t0.item_is(a, t1.item_at(b)));
            } else {
                assert(t0.item_is(b, t1.item_at(b)));
            }
        } else if b.id == d {
            if o == n {
                let a = ItemAddr { id: p, offset: Offset(i as usize) };
                assert(t0.item_is(a, t1.item_at(b)));
            } else {
                assert(t0.item_is(b, t1.item_at(b)));
            }
        } else {
            assert(kept(t0, t1, moved, d, b.id));
            assert(t0.item_is(b, t1.item_at(b)));
        }
    }
}

/// The children that a rotation to the right moves.
pub open spec fn rotate_right_moved<K: Ord, V>(t0: Tree<K, V>, p: usize, l: int) -> Seq<usize> {
    if t0.node(t0.kids(p)[l]).is_leaf() {
        Seq::<usize>::empty()
    } else {
        seq![t0.kids(t0.kids(p)[l]).last()]
    }
}

/// `t1` is `t0` after a rotation to the right under `p`: the last item of
/// the child `l` has gone up into `p`, in place of the item `l` of `p`,
/// which has gone down to the front of the child `l + 1`; with the last
/// item the last child has moved to the front of the child `l + 1`.
pub open spec fn rotate_right_step<K: Ord, V>(t0: Tree<K, V>, t1: Tree<K, V>, p: usize, l: int) -> bool {
    let s = t0.kids(p)[l];
    let d = t0.kids(p)[l + 1];
    let up = t0.items(s).last();
    let down = t0.items(p)[l];
    let leaf = t0.node(d).is_leaf();
    &&& t0.shape()
    &&& t0.live(p)
    &&& 0 <= l
    &&& l + 1 < t0.kids(p).len()
    &&& t0.node(s).can_pop()
    &&& t0.node(d).spec_is_underflowing()
    &&& t1.nodes.dom() == t0.nodes.dom()
    &&& t1.root == t0.root
    &&& t1.height == t0.height
    &&& t1.lower == t0.lower.insert(d, Some(up.key_spec()))
    &&& t1.upper == t0.upper.insert(s, Some(up.key_spec()))
    &&& t1.node(s).is_leaf() == leaf
    &&& t1.node(s).parent_spec() == Some(p)
    &&& t1.items(s) == t0.items(s).drop_last()
    &&& t1.kids(s) == (if leaf {
        t0.kids(s)
    } else {
        t0.kids(s).drop_last()
    })
    &&& !t1.node(p).is_leaf()
    &&& t1.node(p).parent_spec() == t0.node(p).parent_spec()
    &&& t1.items(p) == t0.items(p).update(l, up)
    &&& t1.kids(p) == t0.kids(p)
    &&& t1.node(d).is_leaf() == leaf
    &&& t1.node(d).parent_spec() == Some(p)
    &&& t1.items(d) == t0.items(d).insert(0, down)
    &&& t1.kids(d) == (if leaf {
        t0.kids(d)
    } else {
        t0.kids(d).insert(0, t0.kids(s).last())
    })
    &&& forall|x: usize|
        t0.live(x) && x != s && x != p && x != d ==> #[trigger] kept(t0, t1, rotate_right_moved(t0, p, l), d, x)
}

/// Where the item at `a` stands after a rotation to the right.
pub open spec fn rotate_right_move<K: Ord, V>(t0: Tree<K, V>, a: ItemAddr, p: usize, l: int) -> ItemAddr {
    let s = t0.kids(p)[l];
    let d = t0.kids(p)[l + 1];
    if a.id == d {
        ItemAddr { id: d, offset: Offset((a.offset@ + 1) as usize) }
    } else if a.id == s && a.offset@ == t0.items(s).len() - 1 {
        ItemAddr { id: p, offset: Offset(l as usize) }
    } else if a.id == s && a.offset@ >= t0.items(s).len() {
        ItemAddr { id: d, offset: Offset(0) }
    } else if a.id == p && a.offset@ == l {
        ItemAddr { id: d, offset: Offset(0) }
    } else {
        a
    }
}

proof fn lemma_rotate_right_parent<K: Ord, V>(t0: Tree<K, V>, t1: Tree<K, V>, p: usize, l: int)
    requires
        total_order::<K>(),
        rotate_right_step(t0, t1, p, l),
    ensures
        t1.node_ok(p),
{
    lemma_siblings(t0, p, l);
    let s = t0.kids(p)[l];
    let d = t0.kids(p)[l + 1];
    let up = t0.items(s).last();
    let k = up.key_spec();
    let moved = rotate_right_moved(t0, p, l);
    assert(t0.covers(s, k));
    t0.lemma_child_covers(p, l, k);
    let items0 = t0.items(p);
    let items1 = t1.items(p);
    assert forall|a: int, b: int| 0 <= a < b < items1.len() implies lt(
        #[trigger] items1[a].key_spec(),
        #[trigger] items1[b].key_spec(),
    ) by {
        if a == l {
            assert(lt(k, items0[b].key_spec()));
        } else if b == l {
            assert(lt(items0[a].key_spec(), k));
        } else {
            assert(lt(items0[a].key_spec(), items0[b].key_spec()));
        }
    }
    assert(within(items1, t1.lower[p], t1.upper[p])) by {
        if t1.lower[p] is Some {
            assert forall|a: int| 0 <= a < items1.len() implies lt(t1.lower[p]->0, #[trigger] items1[a].key_spec()) by {
                if a != l {
                    assert(lt(t0.lower[p]->0, items0[a].key_spec()));
                }
            }
        }
        if t1.upper[p] is Some {
            assert forall|a: int| 0 <= a < items1.len() implies lt(#[trigger] items1[a].key_spec(), t1.upper[p]->0) by {
                if a != l {
                    assert(lt(items0[a].key_spec(), t0.upper[p]->0));
                }
            }
        }
    }
    assert(t1.local_ok(p));
    assert forall|j: int| 0 <= j < t1.kids(p).len() implies #[trigger] t1.child_ok(p, j) by {
        assert(t0.child_ok(p, j));
        let c = t0.kids(p)[j];
        if j != l && j != l + 1 {
            if j < l {
                t0.lemma_kids_distinct(p, j, l);
                t0.lemma_kids_distinct(p, j, l + 1);
            } else {
                t0.lemma_kids_distinct(p, l, j);
                t0.lemma_kids_distinct(p, l + 1, j);
            }
            assert(kept(t0, t1, moved, d, c));
            assert(!t0.kids(s).contains(c));
        }
    }
    assert(t1.kids_ok(p));
    assert(t0.parent_ok(p));
    match t0.node(p).parent_spec() {
        None => {},
        Some(q) => {
            let j = choose|j: int| #[trigger] t0.is_child(q, j, p);
            assert(t0.node_ok(q));
            assert(t0.child_ok(q, j));
            assert(kept(t0, t1, moved, d, q));
            if moved.contains(q) {
                assert(t0.child_ok(s, t0.kids(s).len() - 1));
            }
            assert(t1.is_child(q, j, p));
        },
    }
    assert(t1.parent_ok(p));
}

proof fn lemma_rotate_right_giver<K: Ord, V>(t0: Tree<K, V>, t1: Tree<K, V>, p: usize, l: int)
    requires
        total_order::<K>(),
        rotate_right_step(t0, t1, p, l),
    ensures
        t1.node_ok(t0.kids(p)[l]),
{
    lemma_siblings(t0, p, l);
    let s = t0.kids(p)[l];
    let d = t0.kids(p)[l + 1];
    let moved = rotate_right_moved(t0, p, l);
    let items0 = t0.items(s);
    let items1 = t1.items(s);
    let n = items0.len() as int;
    assert forall|a: int, b: int| 0 <= a < b < items1.len() implies lt(
        #[trigger] items1[a].key_spec(),
        #[trigger] items1[b].key_spec(),
    ) by {
        assert(lt(items0[a].key_spec(), items0[b].key_spec()));
    }
    assert(within(items1, t1.lower[s], t1.upper[s])) by {
        assert forall|a: int| 0 <= a < items1.len() implies lt(#[trigger] items1[a].key_spec(), t1.upper[s]->0) by {
            assert(lt(items0[a].key_spec(), items0[n - 1].key_spec()));
        }
        if t1.lower[s] is Some {
            assert forall|a: int| 0 <= a < items1.len() implies lt(t1.lower[s]->0, #[trigger] items1[a].key_spec()) by {
                assert(lt(t0.lower[s]->0, items0[a].key_spec()));
            }
        }
    }
    assert(t1.local_ok(s));
    assert forall|j: int| 0 <= j < t1.kids(s).len() implies #[trigger] t1.child_ok(s, j) by {
        assert(t0.child_ok(s, j));
        let c = t0.kids(s)[j];
        assert(t1.kids(s)[j] == c);
        t0.lemma_kids_distinct(s, j, n);
        assert(kept(t0, t1, moved, d, c));
    }
    assert(t1.kids_ok(s));
    assert(t1.is_child(p, l, s));
    assert(t0.parent_ok(s));
    assert(t1.parent_ok(s));
}

proof fn lemma_rotate_right_taker<K: Ord, V>(t0: Tree<K, V>, t1: Tree<K, V>, p: usize, l: int)
    requires
        total_order::<K>(),
        rotate_right_step(t0, t1, p, l),
    ensures
        t1.node_ok(t0.kids(p)[l + 1]),
{
    lemma_siblings(t0, p, l);
    let s = t0.kids(p)[l];
    let d = t0.kids(p)[l + 1];
    let up = t0.items(s).last();
    let down = t0.items(p)[l];
    let moved = rotate_right_moved(t0, p, l);
    let items0 = t0.items(d);
    let items1 = t1.items(d);
    let n = items0.len() as int;
    let ns = t0.items(s).len() as int;
    assert(lt(up.key_spec(), down.key_spec()));
    assert forall|a: int| 0 <= a < n implies lt(down.key_spec(), #[trigger] items0[a].key_spec()) by {}
    assert forall|a: int, b: int| 0 <= a < b < items1.len() implies lt(
        #[trigger] items1[a].key_spec(),
        #[trigger] items1[b].key_spec(),
    ) by {
        if a > 0 {
            assert(lt(items0[a - 1].key_spec(), items0[b - 1].key_spec()));
        } else {
            assert(lt(down.key_spec(), items0[b - 1].key_spec()));
        }
    }
    assert(within(items1, t1.lower[d], t1.upper[d])) by {
        assert forall|a: int| 0 <= a < items1.len() implies lt(t1.lower[d]->0, #[trigger] items1[a].key_spec()) by {
            if a > 0 {
                assert(lt(down.key_spec(), items0[a - 1].key_spec()));
            }
        }
        if t1.upper[d] is Some {
            assert forall|a: int| 0 <= a < items1.len() implies lt(#[trigger] items1[a].key_spec(), t1.upper[d]->0) by {
                if a > 0 {
                    assert(lt(items0[a - 1].key_spec(), t0.upper[d]->0));
                } else {
                    if l + 1 < t0.items(p).len() {
                        assert(lt(t0.items(p)[l].key_spec(), t0.items(p)[l + 1].key_spec()));
                    } else {
                        assert(lt(t0.items(p)[l].key_spec(), t0.upper[p]->0));
                    }
                }
            }
        }
    }
    assert(t1.local_ok(d));
    assert forall|j: int| 0 <= j < t1.kids(d).len() implies #[trigger] t1.child_ok(d, j) by {
        if j > 0 {
            assert(t0.child_ok(d, j - 1));
            let c = t0.kids(d)[j - 1];
            assert(t1.kids(d)[j] == c);
            assert(c != t0.kids(s)[ns]);
            assert(kept(t0, t1, moved, d, c));
        } else {
            assert(t0.child_ok(s, ns));
            let c = t0.kids(s)[ns];
            assert(t1.kids(d)[0] == c);
            assert(moved[0] == c);
            assert(moved.contains(c));
            assert(kept(t0, t1, moved, d, c));
        }
    }
    assert(t1.kids_ok(d));
    assert(t1.is_child(p, l + 1, d));
    assert(t0.parent_ok(d));
    assert(t1.parent_ok(d));
}

proof fn lemma_rotate_right_rest<K: Ord, V>(t0: Tree<K, V>, t1: Tree<K, V>, p: usize, l: int, x: usize)
    requires
        total_order::<K>(),
        rotate_right_step(t0, t1, p, l),
        t0.live(x),
        x != p,
        x != t0.kids(p)[l],
        x != t0.kids(p)[l + 1],
    ensures
        t1.node_ok(x),
{
    lemma_siblings(t0, p, l);
    let s = t0.kids(p)[l];
    let d = t0.kids(p)[l + 1];
    let moved = rotate_right_moved(t0, p, l);
    let ns = t0.items(s).len() as int;
    assert(t0.node_ok(x));
    assert(kept(t0, t1, moved, d, x));
    assert forall|j: int| 0 <= j < t1.kids(x).len() implies #[trigger] t1.child_ok(x, j) by {
        assert(t0.child_ok(x, j));
        let c = t0.kids(x)[j];
        if c != p {
            assert(c != d && c != s);
            assert(kept(t0, t1, moved, d, c));
            if moved.contains(c) {
                assert(t0.child_ok(s, ns));
            }
        }
    }
    assert(t1.kids_ok(x));
    assert(t1.local_ok(x));
    if moved.contains(x) {
        assert(x == t0.kids(s)[ns]);
        assert(t0.child_ok(s, ns));
        assert(t0.parent_ok(x));
        assert(t1.kids(d)[0] == x);
        assert(t1.is_child(d, 0, x));
        assert(t1.parent_ok(x));
    } else {
        assert(t0.parent_ok(x));
        match t0.node(x).parent_spec() {
            None => {},
            Some(q) => {
                let j = choose|j: int| #[trigger] t0.is_child(q, j, x);
                if q == s {
                    if j == ns {
                        assert(!t0.node(s).is_leaf());
                        assert(moved[0] == x);
                        assert(moved.contains(x));
                    }
                    assert(t1.kids(s)[j] == x);
                    assert(t1.is_child(s, j, x));
                } else if q == d {
                    assert(t1.kids(d)[j + 1] == x);
                    assert(t1.is_child(d, j + 1, x));
                } else if q == p {
                    assert(t1.is_child(p, j, x));
                } else {
                    assert(t0.node_ok(q));
                    assert(kept(t0, t1, moved, d, q));
                    assert(t1.is_child(q, j, x));
                }
            },
        }
        assert(t1.parent_ok(x));
    }
}

/// A rotation to the right keeps the tree a search tree with the same
/// items; it balances the child that was one item short.
pub proof fn lemma_rotate_right<K: Ord, V>(t0: Tree<K, V>, t1: Tree<K, V>, p: usize, l: int)
    requires
        total_order::<K>(),
        rotate_right_step(t0, t1, p, l),
        t0.balanced_but(Some(t0.kids(p)[l + 1])),
    ensures
        t1.shape(),
        t1.balanced_but(None),
        t0.same_items(t1),
        forall|a: ItemAddr| #[trigger] t0.occupied(a) ==> t1.item_is(rotate_right_move(t0, a, p, l), t0.item_at(a)),
{
    lemma_siblings(t0, p, l);
    let s = t0.kids(p)[l];
    let d = t0.kids(p)[l + 1];
    let moved = rotate_right_moved(t0, p, l);
    let ns = t0.items(s).len() as int;
    assert forall|x: usize| t1.live(x) implies #[trigger] t1.node_ok(x) by {
        if x == p {
            lemma_rotate_right_parent(t0, t1, p, l);
        } else if x == s {
            lemma_rotate_right_giver(t0, t1, p, l);
        } else if x == d {
            lemma_rotate_right_taker(t0, t1, p, l);
        } else {
            lemma_rotate_right_rest(t0, t1, p, l, x);
        }
    }
    assert forall|x: usize| t1.live(x) implies #[trigger] t1.fit(None, x) by {
        assert(t0.fit(Some(d), x));
        assert(t0.parent_ok(d));
        assert(t0.parent_ok(s));
        if x != p && x != d && x != s {
            assert(kept(t0, t1, moved, d, x));
        }
    }
    assert forall|a: ItemAddr| #[trigger] t0.occupied(a) implies t1.item_is(
        rotate_right_move(t0, a, p, l),
        t0.item_at(a),
    ) by {
        assert(t0.node_ok(a.id));
        if a.id != s && a.id != p && a.id != d {
            assert(kept(t0, t1, moved, d, a.id));
        }
    }
    assert forall|a: ItemAddr| #[trigger] t0.occupied(a) implies t1.has_item(t0.item_at(a)) by {
        assert(t1.item_is(rotate_right_move(t0, a, p, l), t0.item_at(a)));
    }
    assert forall|b: ItemAddr| #[trigger] t1.occupied(b) implies t0.has_item(t1.item_at(b)) by {
        let o = b.offset@;
        if b.id == s {
            assert(t0.item_is(b, t1.item_at(b)));
        } else if b.id == p {
            if o == l {
                let a = ItemAddr { id: s, offset: Offset((ns - 1) as usize) };
                assert(t0.item_is(a, t1.item_at(b)));
            } else {
                assert(t0.item_is(b, t1.item_at(b)));
            }
        } else if b.id == d {
            if o == 0 {
                let a = ItemAddr { id: p, offset: Offset(l as usize) };
                assert(t0.item_is(a, t1.item_at(b)));
            } else {
                let a = ItemAddr { id: d, offset: Offset((o - 1) as usize) };
                assert(t0.item_is(a, t1.item_at(b)));
            }
        } else {
            assert(kept(t0, t1, moved, d, b.id));
            assert(t0.item_is(b, t1.item_at(b)));
        }
    }
}

/// `t1` is `t0` after the children `l` and `l + 1` of `p` have been merged:
/// the item between them has gone down to the end of the left one, the
/// contents of the right one have followed it, and the right one is gone.
pub open spec fn merge_step<K: Ord, V>(t0: Tree<K, V>, t1: Tree<K, V>, p: usize, l: int) -> bool {
    let left = t0.kids(p)[l];
    let right = t0.kids(p)[l + 1];
    let sep = t0.items(p)[l];
    &&& t0.shape()
    &&& t0.live(p)
    &&& 0 <= l
    &&& l + 1 < t0.kids(p).len()
    &&& M / 2 - 2 <= t0.items(left).len() + t0.items(right).len() < M - 1
    &&& t1.nodes.dom() == t0.nodes.dom().remove(right)
    &&& t1.root == t0.root
    &&& t1.height == t0.height
    &&& t1.lower == t0.lower
    &&& t1.upper == t0.upper.insert(left, t0.upper[right])
    &&& !t1.node(p).is_leaf()
    &&& t1.node(p).parent_spec() == t0.node(p).parent_spec()
    &&& t1.items(p) == t0.items(p).remove(l)
    &&& t1.kids(p) == t0.kids(p).remove(l + 1)
    &&& t1.node(left).is_leaf() == t0.node(left).is_leaf()
    &&& t1.node(left).parent_spec() == Some(p)
    &&& t1.items(left) == t0.items(left).push(sep) + t0.items(right)
    &&& t1.kids(left) == t0.kids(left) + t0.kids(right)
    &&& forall|x: usize|
        t0.live(x) && x != left && x != p && x != right ==> #[trigger] kept(t0, t1, t0.kids(right), left, x)
}

/// Where the item at `a` stands after a merge.
pub open spec fn merge_move<K: Ord, V>(t0: Tree<K, V>, a: ItemAddr, p: usize, l: int) -> ItemAddr {
    let left = t0.kids(p)[l];
    let right = t0.kids(p)[l + 1];
    if a.id == p {
        if a.offset@ == l {
            ItemAddr { id: left, offset: Offset(t0.items(left).len() as usize) }
        } else if a.offset@ > l {
            ItemAddr { id: p, offset: Offset((a.offset@ - 1) as usize) }
        } else {
            a
        }
    } else if a.id == right {
        ItemAddr { id: left, offset: Offset((a.offset@ + t0.items(left).len() + 1) as usize) }
    } else {
        a
    }
}

proof fn lemma_merge_parent<K: Ord, V>(t0: Tree<K, V>, t1: Tree<K, V>, p: usize, l: int)
    requires
        total_order::<K>(),
        merge_step(t0, t1, p, l),
    ensures
        t1.node_ok(p),
{
    lemma_siblings(t0, p, l);
    let left = t0.kids(p)[l];
    let right = t0.kids(p)[l + 1];
    let items0 = t0.items(p);
    let items1 = t1.items(p);
    assert forall|a: int, b: int| 0 <= a < b < items1.len() implies lt(
        #[trigger] items1[a].key_spec(),
        #[trigger] items1[b].key_spec(),
    ) by {
        let a0 = if a < l { a } else { a + 1 };
        let b0 = if b < l { b } else { b + 1 };
        assert(lt(items0[a0].key_spec(), items0[b0].key_spec()));
    }
    assert(within(items1, t1.lower[p], t1.upper[p])) by {
        if t1.lower[p] is Some {
            assert forall|a: int| 0 <= a < items1.len() implies lt(t1.lower[p]->0, #[trigger] items1[a].key_spec()) by {
                let a0 = if a < l { a } else { a + 1 };
                assert(lt(t0.lower[p]->0, items0[a0].key_spec()));
            }
        }
        if t1.upper[p] is Some {
            assert forall|a: int| 0 <= a < items1.len() implies lt(#[trigger] items1[a].key_spec(), t1.upper[p]->0) by {
                let a0 = if a < l { a } else { a + 1 };
                assert(lt(items0[a0].key_spec(), t0.upper[p]->0));
            }
        }
    }
    assert(t1.local_ok(p));
    assert forall|j: int| 0 <= j < t1.kids(p).len() implies #[trigger] t1.child_ok(p, j) by {
        let j0 = if j <= l { j } else { j + 1 };
        assert(t0.child_ok(p, j0));
        let c = t0.kids(p)[j0];
        assert(t1.kids(p)[j] == c);
        if j0 != l {
            if j0 < l {
                t0.lemma_kids_distinct(p, j0, l);
                t0.lemma_kids_distinct(p, j0, l + 1);
            } else {
                t0.lemma_kids_distinct(p, l, j0);
                t0.lemma_kids_distinct(p, l + 1, j0);
            }
            assert(kept(t0, t1, t0.kids(right), left, c));
            assert(!t0.kids(right).contains(c));
        }
    }
    assert(t1.kids_ok(p));
    assert(t0.parent_ok(p));
    match t0.node(p).parent_spec() {
        None => {},
        Some(q) => {
            let j = choose|j: int| #[trigger] t0.is_child(q, j, p);
            assert(t0.node_ok(q));
            assert(t0.child_ok(q, j));
            assert(q != left && q != right);
            assert(kept(t0, t1, t0.kids(right), left, q));
            if t0.kids(right).contains(q) {
                let j2 = choose|j2: int| 0 <= j2 < t0.kids(right).len() && t0.kids(right)[j2] == q;
                assert(t0.child_ok(right, j2));
            }
            assert(t1.is_child(q, j, p));
        },
    }
    assert(t1.parent_ok(p));
}

proof fn lemma_merge_left<K: Ord, V>(t0: Tree<K, V>, t1: Tree<K, V>, p: usize, l: int)
    requires
        total_order::<K>(),
        merge_step(t0, t1, p, l),
    ensures
        t1.node_ok(t0.kids(p)[l]),
{
    lemma_siblings(t0, p, l);
    let left = t0.kids(p)[l];
    let right = t0.kids(p)[l + 1];
    let sep = t0.items(p)[l];
    let ks = sep.key_spec();
    let li = t0.items(left);
    let ri = t0.items(right);
    let nl = li.len() as int;
    let nr = ri.len() as int;
    let items1 = t1.items(left);
    assert forall|a: int| 0 <= a < nl implies lt(#[trigger] li[a].key_spec(), ks) by {}
    assert forall|a: int| 0 <= a < nr implies lt(ks, #[trigger] ri[a].key_spec()) by {}
    assert forall|a: int, b: int| 0 <= a < b < items1.len() implies lt(
        #[trigger] items1[a].key_spec(),
        #[trigger] items1[b].key_spec(),
    ) by {
        if b < nl {
            assert(lt(li[a].key_spec(), li[b].key_spec()));
        } else if b == nl {
            assert(lt(li[a].key_spec(), ks));
        } else if a < nl {
            assert(lt(li[a].key_spec(), ks));
            assert(lt(ks, ri[b - nl - 1].key_spec()));
        } else if a == nl {
            assert(lt(ks, ri[b - nl - 1].key_spec()));
        } else {
            assert(lt(ri[a - nl - 1].key_spec(), ri[b - nl - 1].key_spec()));
        }
    }
    assert(above(t0.lower[left], ks)) by {
        if l > 0 {
            assert(lt(t0.items(p)[l - 1].key_spec(), t0.items(p)[l].key_spec()));
        } else if t0.lower[p] is Some {
            assert(lt(t0.lower[p]->0, t0.items(p)[l].key_spec()));
        }
    }
    assert(below(ks, t0.upper[right])) by {
        if l + 1 < t0.items(p).len() {
            assert(lt(t0.items(p)[l].key_spec(), t0.items(p)[l + 1].key_spec()));
        } else if t0.upper[p] is Some {
            assert(lt(t0.items(p)[l].key_spec(), t0.upper[p]->0));
        }
    }
    assert(within(items1, t1.lower[left], t1.upper[left])) by {
        if t1.lower[left] is Some {
            assert forall|a: int| 0 <= a < items1.len() implies lt(
                t1.lower[left]->0,
                #[trigger] items1[a].key_spec(),
            ) by {
                if a < nl {
                    assert(lt(t0.lower[left]->0, li[a].key_spec()));
                } else if a > nl {
                    assert(lt(ks, ri[a - nl - 1].key_spec()));
                }
            }
        }
        if t1.upper[left] is Some {
            assert forall|a: int| 0 <= a < items1.len() implies lt(
                #[trigger] items1[a].key_spec(),
                t1.upper[left]->0,
            ) by {
                if a < nl {
                    assert(lt(li[a].key_spec(), ks));
                } else if a > nl {
                    assert(lt(ri[a - nl - 1].key_spec(), t0.upper[right]->0));
                }
            }
        }
    }
    assert(t1.local_ok(left));
    assert forall|j: int| 0 <= j < t1.kids(left).len() implies #[trigger] t1.child_ok(left, j) by {
        if j <= nl {
            assert(t0.child_ok(left, j));
            let c = t0.kids(left)[j];
            assert(t1.kids(left)[j] == c);
            assert(!t0.kids(right).contains(c)) by {
                if t0.kids(right).contains(c) {
                    let j2 = choose|j2: int| 0 <= j2 < t0.kids(right).len() && t0.kids(right)[j2] == c;
                    assert(t0.kids(left)[j] != t0.kids(right)[j2]);
                }
            }
            assert(kept(t0, t1, t0.kids(right), left, c));
        } else {
            let b = j - nl - 1;
            assert(t0.child_ok(right, b));
            let c = t0.kids(right)[b];
            assert(t1.kids(left)[j] == c);
            assert(t0.kids(right).contains(c));
            assert(kept(t0, t1, t0.kids(right), left, c));
        }
    }
    assert(t1.kids_ok(left));
    assert(t1.kids(p)[l] == left);
    assert(t1.is_child(p, l, left));
    assert(t0.parent_ok(left));
    assert(t1.parent_ok(left));
}

proof fn lemma_merge_rest<K: Ord, V>(t0: Tree<K, V>, t1: Tree<K, V>, p: usize, l: int, x: usize)
    requires
        total_order::<K>(),
        merge_step(t0, t1, p, l),
        t0.live(x),
        x != p,
        x != t0.kids(p)[l],
        x != t0.kids(p)[l + 1],
    ensures
        t1.node_ok(x),
{
    lemma_siblings(t0, p, l);
    let left = t0.kids(p)[l];
    let right = t0.kids(p)[l + 1];
    let moved = t0.kids(right);
    let nl = t0.items(left).len() as int;
    assert(t0.node_ok(x));
    assert(kept(t0, t1, moved, left, x));
    assert forall|j: int| 0 <= j < t1.kids(x).len() implies #[trigger] t1.child_ok(x, j) by {
        assert(t0.child_ok(x, j));
        let c = t0.kids(x)[j];
        if c != p {
            assert(c != left && c != right);
            assert(kept(t0, t1, moved, left, c));
            if moved.contains(c) {
                let j2 = choose|j2: int| 0 <= j2 < moved.len() && moved[j2] == c;
                assert(t0.child_ok(right, j2));
            }
        }
    }
    assert(t1.kids_ok(x));
    assert(t1.local_ok(x));
    if moved.contains(x) {
        let j2 = choose|j2: int| 0 <= j2 < moved.len() && moved[j2] == x;
        assert(t0.child_ok(right, j2));
        assert(t0.parent_ok(x));
        assert(t1.kids(left)[nl + 1 + j2] == x);
        assert(t1.is_child(left, nl + 1 + j2, x));
        assert(t1.parent_ok(x));
    } else {
        assert(t0.parent_ok(x));
        match t0.node(x).parent_spec() {
            None => {},
            Some(q) => {
                let j = choose|j: int| #[trigger] t0.is_child(q, j, x);
                if q == right {
                    assert(moved[j] == x);
                    assert(moved.contains(x));
                } else if q == left {
                    assert(t1.kids(left)[j] == x);
                    assert(t1.is_child(left, j, x));
                } else if q == p {
                    if j <= l {
                        assert(t1.kids(p)[j] == x);
                        assert(t1.is_child(p, j, x));
                    } else {
                        assert(t1.kids(p)[j - 1] == x);
                        assert(t1.is_child(p, j - 1, x));
                    }
                } else {
                    assert(t0.node_ok(q));
                    assert(kept(t0, t1, moved, left, q));
                    assert(t1.is_child(q, j, x));
                }
            },
        }
        assert(t1.parent_ok(x));
    }
}

/// Merging two children keeps the tree a search tree with the same items;
/// where one of the two was one item short and the other could spare none,
/// the parent alone may then be short of one item.
pub proof fn lemma_merge<K: Ord, V>(t0: Tree<K, V>, t1: Tree<K, V>, p: usize, l: int, d: usize)
    requires
        total_order::<K>(),
        merge_step(t0, t1, p, l),
        d == t0.kids(p)[l] || d == t0.kids(p)[l + 1],
        t0.balanced_but(Some(d)),
    ensures
        t1.shape(),
        t1.balanced_but(Some(p)),
        t0.same_items(t1),
        forall|a: ItemAddr| #[trigger] t0.occupied(a) ==> t1.item_is(merge_move(t0, a, p, l), t0.item_at(a)),
{
    lemma_siblings(t0, p, l);
    let left = t0.kids(p)[l];
    let right = t0.kids(p)[l + 1];
    let moved = t0.kids(right);
    let nl = t0.items(left).len() as int;
    assert(t0.parent_ok(right));
    assert forall|x: usize| t1.live(x) implies #[trigger] t1.node_ok(x) by {
        if x == p {
            lemma_merge_parent(t0, t1, p, l);
        } else if x == left {
            lemma_merge_left(t0, t1, p, l);
        } else {
            lemma_merge_rest(t0, t1, p, l, x);
        }
    }
    assert forall|x: usize| t1.live(x) implies #[trigger] t1.fit(Some(p), x) by {
        assert(t0.fit(Some(d), x));
        assert(t0.fit(Some(d), left));
        assert(t0.fit(Some(d), right));
        assert(t0.fit(Some(d), p));
        assert(t0.parent_ok(left));
        if x != p && x != left {
            assert(kept(t0, t1, moved, left, x));
        }
    }
    assert forall|a: ItemAddr| #[trigger] t0.occupied(a) implies t1.item_is(
        merge_move(t0, a, p, l),
        t0.item_at(a),
    ) by {
        assert(t0.node_ok(a.id));
        if a.id != left && a.id != p && a.id != right {
            assert(kept(t0, t1, moved, left, a.id));
        }
    }
    assert forall|a: ItemAddr| #[trigger] t0.occupied(a) implies t1.has_item(t0.item_at(a)) by {
        assert(t1.item_is(merge_move(t0, a, p, l), t0.item_at(a)));
    }
    assert forall|b: ItemAddr| #[trigger] t1.occupied(b) implies t0.has_item(t1.item_at(b)) by {
        let o = b.offset@;
        if b.id == left {
            if o < nl {
                assert(t0.item_is(b, t1.item_at(b)));
            } else if o == nl {
                let a = ItemAddr { id: p, offset: Offset(l as usize) };
                assert(t0.item_is(a, t1.item_at(b)));
            } else {
                let a = ItemAddr { id: right, offset: Offset((o - nl - 1) as usize) };
                assert(t0.item_is(a, t1.item_at(b)));
            }
        } else if b.id == p {
            if o < l {
                assert(t0.item_is(b, t1.item_at(b)));
            } else {
                let a = ItemAddr { id: p, offset: Offset((o + 1) as usize) };
                assert(t0.item_is(a, t1.item_at(b)));
            }
        } else {
            assert(kept(t0, t1, moved, left, b.id));
            assert(t0.item_is(b, t1.item_at(b)));
        }
    }
}

/// What stands at a back address of a tree, or after it: the key of the item
/// at the address, or the upper bound of the node at the end of a node.
pub open spec fn upcoming<K: Ord, V>(t: Tree<K, V>, a: ItemAddr) -> Option<K> {
    t.high(a.id, a.offset@)
}

/// `b` is in `t1` the place that `a` is in `t0`: a back address before the
/// same key.
pub open spec fn same_place<K: Ord, V>(t0: Tree<K, V>, a: ItemAddr, t1: Tree<K, V>, b: ItemAddr) -> bool {
    t0.back(a) ==> t1.back(b) && upcoming(t1, b) == upcoming(t0, a)
}

/// A split leaves every back address before the key that it stood before.
pub proof fn lemma_split_place<K: Ord, V>(t0: Tree<K, V>, t1: Tree<K, V>, id: usize, p: usize, j: int, r: usize, a: ItemAddr)
    requires
        total_order::<K>(),
        split_step(t0, t1, id, p, j, r),
    ensures
        same_place(t0, a, t1, split_move(a, id, (t0.items(id).len() - 1) / 2, p, j, r)),
{
    lemma_split_facts(t0, t1, id, p, j, r);
    if t0.back(a) {
        assert(t0.node_ok(a.id));
        if a.id != id && a.id != p {
            assert(kept(t0, t1, t1.kids(r), r, a.id));
        }
    }
}

/// The split of a root leaves every back address before the key that it
/// stood before.
pub proof fn lemma_grow_place<K: Ord, V>(t0: Tree<K, V>, t1: Tree<K, V>, id: usize, r: usize, q: usize, a: ItemAddr)
    requires
        total_order::<K>(),
        grow_step(t0, t1, id, r, q),
    ensures
        same_place(t0, a, t1, grow_move(a, id, (t0.items(id).len() - 1) / 2, r, q)),
{
    lemma_grow_facts(t0, t1, id, r, q);
    if t0.back(a) {
        assert(t0.node_ok(a.id));
        if a.id != id {
            assert(kept(t0, t1, t1.kids(r), r, a.id));
        }
    }
}

/// A rotation to the left leaves every back address before the key that
/// it stood before.
pub proof fn lemma_rotate_left_place<K: Ord, V>(t0: Tree<K, V>, t1: Tree<K, V>, p: usize, i: int, a: ItemAddr)
    requires
        total_order::<K>(),
        rotate_left_step(t0, t1, p, i),
    ensures
        same_place(t0, a, t1, rotate_left_move(t0, a, p, i)),
{
    lemma_siblings(t0, p, i);
    let d = t0.kids(p)[i];
    let s = t0.kids(p)[i + 1];
    if t0.back(a) {
        assert(t0.node_ok(a.id));
        if a.id != s && a.id != p && a.id != d {
            assert(kept(t0, t1, rotate_left_moved(t0, p, i), d, a.id));
        }
    }
}

/// A rotation to the right leaves every back address before the key that
/// it stood before.
pub proof fn lemma_rotate_right_place<K: Ord, V>(t0: Tree<K, V>, t1: Tree<K, V>, p: usize, l: int, a: ItemAddr)
    requires
        total_order::<K>(),
        rotate_right_step(t0, t1, p, l),
    ensures
        same_place(t0, a, t1, rotate_right_move(t0, a, p, l)),
{
    lemma_siblings(t0, p, l);
    let s = t0.kids(p)[l];
    let d = t0.kids(p)[l + 1];
    if t0.back(a) {
        assert(t0.node_ok(a.id));
        if a.id != s && a.id != p && a.id != d {
            assert(kept(t0, t1, rotate_right_moved(t0, p, l), d, a.id));
        }
    }
}

/// A merge leaves every back address before the key that it stood before.
pub proof fn lemma_merge_place<K: Ord, V>(t0: Tree<K, V>, t1: Tree<K, V>, p: usize, l: int, a: ItemAddr)
    requires
        total_order::<K>(),
        merge_step(t0, t1, p, l),
    ensures
        same_place(t0, a, t1, merge_move(t0, a, p, l)),
{
    lemma_siblings(t0, p, l);
    let left = t0.kids(p)[l];
    let right = t0.kids(p)[l + 1];
    if t0.back(a) {
        assert(t0.node_ok(a.id));
        if a.id != left && a.id != p && a.id != right {
            assert(kept(t0, t1, t0.kids(right), left, a.id));
        }
    }
}

/// Where a back address leads after the empty root `id` has been taken
/// away: from the root to the end of its child.
pub open spec fn collapse_move<K: Ord, V>(t0: Tree<K, V>, a: ItemAddr, id: usize) -> ItemAddr {
    if a.id == id {
        let c = t0.kids(id)[0];
        ItemAddr { id: c, offset: Offset(t0.items(c).len() as usize) }
    } else {
        a
    }
}

/// Taking an empty root away from above its child leaves every back
/// address before the key that it stood before; below a root that is a
/// leaf there is no key.
pub proof fn lemma_collapse_place<K: Ord, V>(t0: Tree<K, V>, t1: Tree<K, V>, id: usize, a: ItemAddr)
    requires
        total_order::<K>(),
        collapse_step(t0, t1, id),
    ensures
        !t0.node(id).is_leaf() ==> same_place(t0, a, t1, collapse_move(t0, a, id)),
        t0.node(id).is_leaf() && t0.back(a) ==> upcoming(t0, a) is None,
{
    assert(t0.node_ok(id));
    t0.node(id).lemma_len();
    if t0.back(a) {
        assert(t0.node_ok(a.id));
        if t0.node(id).is_leaf() {
            if a.id != id {
                t0.lemma_height(a.id);
            }
        } else {
            let c = t0.kids(id)[0];
            assert(t0.child_ok(id, 0));
            assert(t0.node_ok(c));
            t0.node(c).lemma_len();
            if a.id != id && a.id != c {
                assert(untouched(t0, t1, a.id));
            }
        }
    }
}

/// One step of the rebalancing of the node `id` takes the tree `t0`, in
/// which `a0` is tracked, to the tree `t1`, in which the same place is `a1`;
/// `next` is the node that is to be rebalanced then, if there is one.
///
/// A balanced node is left alone. An overflowing node is split, and its
/// parent is next. An underflowing node gets an item from its right
/// sibling, or else from its left sibling, if that one can spare an item;
/// if neither can, it is merged with a sibling, and its parent is next. A
/// root is taken away when it is empty, and left alone otherwise.
pub open spec fn rebalance_step<K: Ord, V>(
    t0: Tree<K, V>,
    a0: ItemAddr,
    id: usize,
    t1: Tree<K, V>,
    a1: ItemAddr,
    next: Option<usize>,
) -> bool {
    match t0.node(id).spec_balance() {
        Balance::Balanced => t1 == t0 && a1 == a0 && next is None,
        Balance::Overflow => match t0.node(id).parent_spec() {
            Some(p) => next == Some(p) && exists|j: int, r: usize| #[trigger]
                split_step(t0, t1, id, p, j, r) && a1 == split_move(a0, id, (t0.items(id).len() - 1) / 2, p, j, r),
            None => next is None && exists|r: usize, q: usize| #[trigger]
                grow_step(t0, t1, id, r, q) && a1 == grow_move(a0, id, (t0.items(id).len() - 1) / 2, r, q),
        },
        Balance::Underflow(empty) => match t0.node(id).parent_spec() {
            Some(p) => exists|i: int| #[trigger] t0.is_child(p, i, id) && rebalance_under(t0, a0, p, i, t1, a1, next),
            None => next is None && if empty {
                &&& collapse_step(t0, t1, id)
                &&& if t1.root is None {
                    a1.id == usize::MAX && a1.offset@ == 0
                } else {
                    a1 == collapse_move(t0, a0, id)
                }
            } else {
                t1 == t0 && a1 == a0
            },
        },
    }
}

/// One step of the rebalancing of the underflowing child `i` of `p`.
pub open spec fn rebalance_under<K: Ord, V>(
    t0: Tree<K, V>,
    a0: ItemAddr,
    p: usize,
    i: int,
    t1: Tree<K, V>,
    a1: ItemAddr,
    next: Option<usize>,
) -> bool {
    if i + 1 < t0.kids(p).len() && t0.node(t0.kids(p)[i + 1]).can_pop() {
        next is None && rotate_left_step(t0, t1, p, i) && a1 == rotate_left_move(t0, a0, p, i)
    } else if i > 0 && t0.node(t0.kids(p)[i - 1]).can_pop() {
        next is None && rotate_right_step(t0, t1, p, i - 1) && a1 == rotate_right_move(t0, a0, p, i - 1)
    } else {
        let l = if i > 0 {
            i - 1
        } else {
            0
        };
        next == Some(p) && merge_step(t0, t1, p, l) && a1 == merge_move(t0, a0, p, l)
    }
}

/// The rebalancing of the node `id` takes the tree `t0`, in which `a0` is
/// tracked, to the tree `t1`, in which the same place is `a1`, by steps of
/// which at most `n` have a next one: steps are taken, each at the node
/// that the one before has named, until one names no node.
pub open spec fn rebalanced<K: Ord, V>(
    t0: Tree<K, V>,
    a0: ItemAddr,
    id: usize,
    t1: Tree<K, V>,
    a1: ItemAddr,
    n: nat,
) -> bool
    decreases n,
{
    exists|tm: Tree<K, V>, am: ItemAddr, next: Option<usize>| #[trigger]
        rebalance_step(t0, a0, id, tm, am, next) && match next {
            None => t1 == tm && a1 == am,
            Some(p) => n > 0 && rebalanced(tm, am, p, t1, a1, (n - 1) as nat),
        }
}

} // verus!
