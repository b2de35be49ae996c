//! The validation of a tree, and what it accepts.
use vstd::prelude::*;
use vstd::set_lib::{lemma_int_range, lemma_len_subset, lemma_map_size, set_int_range};
use crate::container::{Container, ContainerMut};
use crate::generic::map::tree::Tree;
use crate::generic::map::BTreeMap;
use crate::generic::node::{unref, Keyed, Node};
use crate::utils::total_order;

verus! {

impl<K: Ord, V> Tree<K, V> {
    /// The key on the left of the child `i` in the node `id`, if there is
    /// one.
    pub open spec fn left_key(&self, id: usize, i: int) -> Option<K> {
        if i > 0 {
            Some(self.items(id)[i - 1].key_spec())
        } else {
            None
        }
    }

    /// The key on the right of the child `i` in the node `id`, if there is
    /// one.
    pub open spec fn right_key(&self, id: usize, i: int) -> Option<K> {
        if i < self.items(id).len() {
            Some(self.items(id)[i].key_spec())
        } else {
            None
        }
    }

    /// The node `id` and the nodes below it pass the validation, and the
    /// leaves below `id` are `depth` steps down: the node is as a node
    /// should be whose parent is `parent` and whose keys lie between `min`
    /// and `max`, and each of its children is so with the node for its
    /// parent and the keys next to it in the node for its bounds.
    pub open spec fn sound_below(
        &self,
        id: usize,
        parent: Option<usize>,
        min: Option<K>,
        max: Option<K>,
        depth: nat,
    ) -> bool
        decreases depth,
    {
        &&& self.live(id)
        &&& self.node(id).valid(parent, min, max)
        &&& if self.node(id).is_leaf() {
            depth == 0
        } else {
            &&& depth > 0
            &&& forall|i: int|
                0 <= i < self.kids(id).len() ==> self.sound_below(
                    #[trigger] self.kids(id)[i],
                    Some(id),
                    self.left_key(id, i),
                    self.right_key(id, i),
                    (depth - 1) as nat,
                )
        }
    }

    /// The tree passes the validation: it is empty, or its root and the
    /// nodes below it pass, with all the leaves at one depth.
    pub open spec fn sound(&self) -> bool {
        match self.root {
            Some(id) => exists|depth: nat| self.sound_below(id, None, None, None, depth),
            None => true,
        }
    }

    /// The leaves below a node that passes the validation are at one depth,
    /// whatever it was validated against.
    pub proof fn lemma_one_depth(
        &self,
        id: usize,
        pa: Option<usize>,
        lo_a: Option<K>,
        hi_a: Option<K>,
        da: nat,
        pb: Option<usize>,
        lo_b: Option<K>,
        hi_b: Option<K>,
        db: nat,
    )
        requires
            self.sound_below(id, pa, lo_a, hi_a, da),
            self.sound_below(id, pb, lo_b, hi_b, db),
        ensures
            da == db,
        decreases da,
    {
        if !self.node(id).is_leaf() {
            self.node(id).lemma_len();
            let c = self.kids(id)[0];
            assert(self.sound_below(c, Some(id), self.left_key(id, 0), self.right_key(id, 0), (da - 1) as nat));
            assert(self.sound_below(c, Some(id), self.left_key(id, 0), self.right_key(id, 0), (db - 1) as nat));
            self.lemma_one_depth(
                c,
                Some(id),
                self.left_key(id, 0),
                self.right_key(id, 0),
                (da - 1) as nat,
                Some(id),
                self.left_key(id, 0),
                self.right_key(id, 0),
                (db - 1) as nat,
            );
        }
    }

    /// The node `n` steps down from `id`, by the first child at each step.
    pub open spec fn leftmost(&self, id: usize, n: nat) -> usize
        decreases n,
    {
        if n == 0 {
            id
        } else {
            self.kids(self.leftmost(id, (n - 1) as nat))[0]
        }
    }

    /// The node `id` passes the validation against something, with its
    /// leaves at `depth`.
    pub open spec fn sound_at(&self, id: usize, depth: nat) -> bool {
        exists|p: Option<usize>, lo: Option<K>, hi: Option<K>| self.sound_below(id, p, lo, hi, depth)
    }

    /// Below a node that passes the validation, the first children pass it
    /// in turn down to the leaves.
    pub proof fn lemma_leftmost(&self, id: usize, d: nat, n: nat)
        requires
            self.sound_at(id, d),
            n <= d,
        ensures
            self.sound_at(self.leftmost(id, n), (d - n) as nat),
        decreases n,
    {
        if n > 0 {
            self.lemma_leftmost(id, d, (n - 1) as nat);
            let x = self.leftmost(id, (n - 1) as nat);
            let dx = (d - (n - 1)) as nat;
            assert(self.sound_at(x, dx));
            let (p, lo, hi) = choose|p: Option<usize>, lo: Option<K>, hi: Option<K>|
                self.sound_below(x, p, lo, hi, dx);
            assert(self.sound_below(x, p, lo, hi, dx));
            self.node(x).lemma_len();
            assert(self.sound_below(
                self.kids(x)[0],
                Some(x),
                self.left_key(x, 0),
                self.right_key(x, 0),
                (d - n) as nat,
            ));
        }
    }

    /// No tree that passes the validation is deeper than `usize::MAX`: the
    /// nodes on the way down are all different, and there are no more nodes
    /// than identifiers.
    pub proof fn lemma_depth_bound(&self, id: usize, d: nat)
        requires
            self.sound_at(id, d),
        ensures
            d <= usize::MAX,
    {
        let levels = set_int_range(0, d as int + 1);
        let f = |n: int| self.leftmost(id, n as nat) as int;
        let ids = levels.map(f);
        lemma_int_range(0, d as int + 1);
        assert forall|na: int, nb: int| levels.contains(na) && levels.contains(nb) && f(na) == f(nb) implies na
            == nb by {
            self.lemma_leftmost(id, d, na as nat);
            self.lemma_leftmost(id, d, nb as nat);
            let x = self.leftmost(id, na as nat);
            let (da, db) = ((d - na) as nat, (d - nb) as nat);
            assert(self.sound_at(x, da) && self.sound_at(x, db));
            let (pa, lo_a, hi_a) = choose|p: Option<usize>, lo: Option<K>, hi: Option<K>|
                self.sound_below(x, p, lo, hi, da);
            let (pb, lo_b, hi_b) = choose|p: Option<usize>, lo: Option<K>, hi: Option<K>|
                self.sound_below(x, p, lo, hi, db);
            self.lemma_one_depth(x, pa, lo_a, hi_a, da, pb, lo_b, hi_b, db);
        }
        assert(vstd::relations::injective_on(f, levels));
        lemma_map_size(levels, ids, f);
        lemma_int_range(0, usize::MAX + 1);
        assert forall|i: int| ids.contains(i) implies set_int_range(0, usize::MAX + 1).contains(i) by {
            let n = choose|n: int| levels.contains(n) && f(n) == i;
        }
        lemma_len_subset(ids, set_int_range(0, usize::MAX + 1));
    }
}

impl<K: Ord, V, C: ContainerMut<Node<K, V>>> BTreeMap<K, V, C> {
    /// In a B-Tree every node passes the validation, against its parent and
    /// the keys next to it there, with its leaves as deep as it is high.
    proof fn lemma_sound_below(&self, id: usize, min: Option<K>, max: Option<K>)
        requires
            total_order::<K>(),
            self.tree().btree(),
            self.tree().live(id),
            min is Some ==> self.tree().lower[id] == min,
            max is Some ==> self.tree().upper[id] == max,
            min is Some || max is Some <==> self.tree().root != Some(id),
        ensures
            self.tree().sound_below(id, self.tree().node(id).parent_spec(), min, max, self.tree().height[id]),
        decreases self.tree().height[id],
    {
        let t = self.tree();
        self.lemma_steps(id);
        assert(t.fit(None, id));
        assert(t.node(id).valid(t.node(id).parent_spec(), min, max));
        if !t.node(id).is_leaf() {
            assert forall|i: int| 0 <= i < t.kids(id).len() implies t.sound_below(
                #[trigger] t.kids(id)[i],
                Some(id),
                t.left_key(id, i),
                t.right_key(id, i),
                (t.height[id] - 1) as nat,
            ) by {
                assert(t.child_ok(id, i));
                let c = t.kids(id)[i];
                self.lemma_steps(c);
                self.lemma_sound_below(c, t.left_key(id, i), t.right_key(id, i));
            }
        }
    }

    /// A B-Tree passes the validation.
    pub proof fn lemma_sound(&self)
        requires
            total_order::<K>(),
            self.tree().btree(),
        ensures
            self.tree().sound(),
    {
        match self.tree().root {
            Some(id) => {
                self.lemma_steps(id);
                self.lemma_sound_below(id, None, None);
            },
            None => {},
        }
    }

    /// Validate the tree: tells whether it is a valid B-Tree.
    ///
    /// Walks the whole tree and checks, of each node, its parent, the order
    /// of its items, its balance and the keys next to it in its parent, and
    /// that all leaves are at one depth. A well-formed map passes.
    pub fn validate(&self) -> (ok: bool)
        requires
            total_order::<K>(),
        ensures
            ok == self.tree().sound(),
            self.wf() ==> ok,
    {
        proof {
            if self.wf() {
                self.lemma_sound();
            }
        }
        match self.root_id() {
            Some(id) => {
                let r = self.validate_node(id, None, None, None);
                r.is_some()
            },
            None => true,
        }
    }

    /// Validate the given node and the nodes below it, and return the depth
    /// of the node: its height above the leaves. Returns nothing if the
    /// tree is not a valid B-Tree there.
    ///
    /// `parent` is what the parent of the node should be, and `min` and
    /// `max` are the keys next to the node in its parent.
    pub fn validate_node(&self, id: usize, parent: Option<usize>, min: Option<&K>, max: Option<&K>) -> (r: Option<
        usize,
    >)
        requires
            total_order::<K>(),
        ensures
            match r {
                Some(depth) => self.tree().sound_below(id, parent, unref(min), unref(max), depth as nat),
                None => forall|depth: nat| !self.tree().sound_below(id, parent, unref(min), unref(max), depth),
            },
    {
        let r = self.validate_within(id, parent, min, max, usize::MAX);
        proof {
            if r is None {
                assert forall|depth: nat| !self.tree().sound_below(id, parent, unref(min), unref(max), depth) by {
                    if self.tree().sound_below(id, parent, unref(min), unref(max), depth) {
                        self.tree().lemma_depth_bound(id, depth);
                    }
                }
            }
        }
        r
    }

    /// Validate the given node and the nodes below it as far as `limit`
    /// steps down.
    fn validate_within(&self, id: usize, parent: Option<usize>, min: Option<&K>, max: Option<&K>, limit: usize) -> (r:
        Option<usize>)
        requires
            total_order::<K>(),
        ensures
            match r {
                Some(depth) => depth <= limit && self.tree().sound_below(
                    id,
                    parent,
                    unref(min),
                    unref(max),
                    depth as nat,
                ),
                None => forall|depth: nat|
                    depth <= limit ==> !self.tree().sound_below(id, parent, unref(min), unref(max), depth),
            },
        decreases limit,
    {
        let ghost t = self.tree();
        let node = match self.node_opt(id) {
            Some(node) => node,
            None => {
                return None;
            },
        };
        if !node.validate(parent, min, max) {
            return None;
        }
        proof {
            node.lemma_len();
        }
        let children = node.child_ids();
        if children.len() == 0 {
            return Some(0);
        }
        if limit == 0 {
            return None;
        }
        let mut depth: Option<usize> = None;
        let mut i: usize = 0;
        while i < children.len()
            invariant
                total_order::<K>(),
                t == self.tree(),
                t.live(id),
                *node == t.node(id),
                t.node(id).valid(parent, unref(min), unref(max)),
                children@ == t.kids(id),
                i <= children@.len(),
                limit > 0,
                !t.node(id).is_leaf(),
                t.kids(id).len() == t.items(id).len() + 1,
                i == 0 <==> depth is None,
                depth is Some ==> depth->0 < limit,
                forall|j: int|
                    0 <= j < i ==> t.sound_below(
                        #[trigger] t.kids(id)[j],
                        Some(id),
                        t.left_key(id, j),
                        t.right_key(id, j),
                        depth->0 as nat,
                    ),
            decreases children@.len() - i,
        {
            let (lo, hi) = node.separators(i);
            let below = self.validate_within(children[i], Some(id), lo, hi, limit - 1);
            proof {
                assert(unref(lo) == t.left_key(id, i as int));
                assert(unref(hi) == t.right_key(id, i as int));
            }
            match below {
                None => {
                    proof {
                        assert forall|n: nat| n <= limit implies !t.sound_below(
                            id,
                            parent,
                            unref(min),
                            unref(max),
                            n,
                        ) by {
                            if t.sound_below(id, parent, unref(min), unref(max), n) {
                                let ci = t.kids(id)[i as int];
                                assert(t.sound_below(
                                    ci,
                                    Some(id),
                                    t.left_key(id, i as int),
                                    t.right_key(id, i as int),
                                    (n - 1) as nat,
                                ));
                            }
                        }
                    }
                    return None;
                },
                Some(child_depth) => {
                    match depth {
                        None => {
                            depth = Some(child_depth);
                        },
                        Some(d) => {
                            if d != child_depth {
                                proof {
                                    assert forall|n: nat| n <= limit implies !t.sound_below(
                                        id,
                                        parent,
                                        unref(min),
                                        unref(max),
                                        n,
                                    ) by {
                                        if t.sound_below(id, parent, unref(min), unref(max), n) {
                                            let c0 = t.kids(id)[0];
                                            let ci = t.kids(id)[i as int];
                                            t.lemma_one_depth(
                                                c0,
                                                Some(id),
                                                t.left_key(id, 0),
                                                t.right_key(id, 0),
                                                (n - 1) as nat,
                                                Some(id),
                                                t.left_key(id, 0),
                                                t.right_key(id, 0),
                                                d as nat,
                                            );
                                            t.lemma_one_depth(
                                                ci,
                                                Some(id),
                                                t.left_key(id, i as int),
                                                t.right_key(id, i as int),
                                                (n - 1) as nat,
                                                Some(id),
                                                t.left_key(id, i as int),
                                                t.right_key(id, i as int),
                                                child_depth as nat,
                                            );
                                        }
                                    }
                                }
                                return None;
                            }
                        },
                    }
                },
            }
            i += 1;
        }
        match depth {
            Some(depth) => Some(depth + 1),
            None => None,
        }
    }
}

} // verus!
