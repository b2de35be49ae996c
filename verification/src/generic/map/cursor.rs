//! Going through a map while changing it.
use vstd::prelude::*;
use crate::container::{Container, ContainerMut};
use crate::generic::map::tree::{above, below, Tree};
use crate::generic::map::BTreeMap;
use crate::generic::node::{Item, ItemAddr, Keyed, Node, Offset};
use crate::utils::{le, lemma_order_basics, lt, total_order};

verus! {

/// A cursor that goes through the bindings of a map in the order of their
/// keys, and can change the map where it stands: insert a binding before
/// the next one, and remove the next one.
///
/// The cursor holds the one position in the map, and finds it again after
/// each change.
#[verifier::reject_recursive_types(K)]
#[verifier::reject_recursive_types(V)]
#[verifier::reject_recursive_types(C)]
pub struct EntriesMut<'a, K, V, C> {
    /// The map that the cursor goes through.
    pub btree: &'a mut BTreeMap<K, V, C>,
    /// Address of the next item.
    pub addr: Option<ItemAddr>,
    /// Number of items left to visit.
    pub len: usize,
    /// The key of the last item visited.
    pub prev: Ghost<Option<K>>,
}

impl<'a, K: Ord, V, C: ContainerMut<Node<K, V>>> EntriesMut<'a, K, V, C> {
    /// The map of the cursor as it is now.
    pub open spec fn now(&self) -> BTreeMap<K, V, C> {
        *self.btree
    }

    /// The key that the cursor has passed last, if it has passed any.
    pub open spec fn passed(&self) -> Option<K> {
        self.prev@
    }

    /// The number of bindings left to visit, as the cursor has counted
    /// them.
    pub open spec fn count(&self) -> usize {
        self.len
    }

    /// The keys left to visit: the keys of the map above the key passed
    /// last.
    pub open spec fn remaining(&self) -> Set<K> {
        self.now()@.dom().filter(|k: K| above(self.passed(), k))
    }

    /// `k` is the first of the keys left to visit.
    pub open spec fn is_next(&self, k: K) -> bool {
        self.remaining().contains(k) && forall|q: K| #[trigger] self.remaining().contains(q) ==> le(k, q)
    }

    /// The cursor is well formed: it stands before the first of the keys
    /// left to visit, and counts them.
    pub open spec fn wf(&self) -> bool {
        &&& self.btree.wf()
        &&& self.btree.tree().next_after(self.prev@, self.addr)
        &&& self.remaining().finite()
        &&& self.len == self.remaining().len()
    }

    /// What the cursor stands before, and what is left.
    pub proof fn lemma_next(&self)
        requires
            total_order::<K>(),
            self.wf(),
        ensures
            self.remaining().finite(),
            self.remaining().len() == self.count(),
            self.count() == 0 <==> self.remaining() =~= Set::<K>::empty(),
    {
        if self.remaining().len() == 0 {
            self.remaining().lemma_len0_is_empty();
        }
    }

    /// Facts about the place where the cursor stands.
    proof fn lemma_place(&self)
        requires
            total_order::<K>(),
            self.wf(),
        ensures
            match self.addr {
                Some(a) => {
                    &&& self.now().tree().occupied(a)
                    &&& !a.is_nowhere()
                    &&& self.is_next(self.now().tree().key_at(a))
                    &&& self.now()@[self.now().tree().key_at(a)] == self.now().tree().item_at(a).value_spec()
                    &&& self.now().tree().item_at(a).full()
                    &&& self.len > 0
                },
                None => self.remaining() =~= Set::<K>::empty() && self.len == 0,
            },
    {
        let t = self.btree.tree();
        match self.addr {
            Some(a) => {
                t.lemma_somewhere(a);
                t.lemma_view_at(a);
                let k = t.key_at(a);
                lemma_order_basics(k, k);
                assert forall|q: K| #[trigger] self.remaining().contains(q) implies le(k, q) by {
                    let c = t.addr_of(q);
                    assert(t.holds(c, q));
                    assert(!t.key_between(self.prev@, c, Some(k)));
                    lemma_order_basics(k, q);
                }
                assert(self.remaining().contains(k));
                if self.len == 0 {
                    self.remaining().lemma_len0_is_empty();
                }
            },
            None => {
                assert forall|q: K| !self.remaining().contains(q) by {
                    if self.remaining().contains(q) {
                        let c = t.addr_of(q);
                        assert(t.holds(c, q));
                        assert(t.key_between(self.prev@, c, None));
                    }
                }
                assert(self.remaining() =~= Set::<K>::empty());
            },
        }
    }

    /// The cursor at the start of `btree`.
    pub fn new(btree: &'a mut BTreeMap<K, V, C>) -> (r: Self)
        requires
            total_order::<K>(),
            old(btree).wf(),
        ensures
            r.wf(),
            r.now() == *old(btree),
            r.passed() is None,
            r.remaining() == old(btree)@.dom(),
            *final(r.btree) == *final(btree),
    {
        let addr = btree.first_item_address();
        let len = btree.len();
        let r = EntriesMut { btree, addr, len, prev: Ghost(None) };
        proof {
            assert(r.remaining() =~= r.now()@.dom());
        }
        r
    }

    /// The number of bindings left to visit.
    pub fn len(&self) -> (n: usize)
        ensures
            n == self.count(),
    {
        self.len
    }

    /// Get the next visited item without moving the cursor.
    pub fn peek(&self) -> (r: Option<&Item<K, V>>)
        requires
            total_order::<K>(),
            self.wf(),
        ensures
            r is None <==> self.count() == 0,
            r is Some ==> {
                &&& self.is_next(r->0.key_spec())
                &&& r->0.full()
                &&& r->0.value_spec() == self.now()@[r->0.key_spec()]
            },
    {
        proof {
            self.lemma_place();
        }
        match self.addr {
            Some(addr) => self.btree.item(addr),
            None => None,
        }
    }

    /// Get the next binding, its value to be changed in place, without
    /// moving the cursor.
    pub fn peek_mut(&mut self) -> (r: Option<(&K, &mut V)>)
        requires
            total_order::<K>(),
            old(self).wf(),
        ensures
            r is None <==> old(self).count() == 0,
            *final(final(self).btree) == *final(old(self).btree),
            final(self).wf(),
            final(self).passed() == old(self).passed(),
            final(self).count() == old(self).count(),
            match r {
                Some((k, v)) => {
                    &&& old(self).is_next(*k)
                    &&& *v == old(self).now()@[*k]
                    &&& final(self).now()@ == old(self).now()@.insert(*k, *final(v))
                },
                None => final(self).now() == old(self).now(),
            },
    {
        proof {
            self.lemma_place();
        }
        match self.addr {
            Some(addr) => {
                let ghost t0 = self.btree.tree();
                let ghost k = t0.key_at(addr);
                let ghost prev = self.prev@;
                let ghost m0 = self.btree@;
                proof {
                    assert forall|t2: Tree<K, V>, v: V| #[trigger] t0.value_set(t2, addr, v) implies t2.btree()
                        && t2.full_but(None) && t2.view() == m0.insert(k, v) && t2.view().dom() == m0.dom()
                        && t2.next_after(prev, Some(addr)) by {
                        t0.lemma_value_set(t2, addr, v);
                        t0.lemma_value_set_keys(t2, addr, v);
                        assert(t2.occupied(addr));
                        assert forall|c: ItemAddr| !#[trigger] t2.key_between(prev, c, Some(t2.key_at(addr))) by {
                            assert(!t0.key_between(prev, c, Some(t0.key_at(addr))));
                        }
                    }
                }
                Some(self.btree.pair_mut_at(addr))
            },
            None => None,
        }
    }

    /// Get the next binding, its value to be changed in place, and move
    /// the cursor to the next position.
    pub fn next_item(&mut self) -> (r: Option<(&K, &mut V)>)
        requires
            total_order::<K>(),
            old(self).wf(),
        ensures
            r is None <==> old(self).count() == 0,
            *final(final(self).btree) == *final(old(self).btree),
            final(self).wf(),
            match r {
                Some((k, v)) => {
                    &&& old(self).is_next(*k)
                    &&& *v == old(self).now()@[*k]
                    &&& final(self).now()@ == old(self).now()@.insert(*k, *final(v))
                    &&& final(self).passed() == Some(*k)
                    &&& final(self).count() == old(self).count() - 1
                },
                None => final(self).now() == old(self).now() && final(self).passed() == old(self).passed(),
            },
    {
        proof {
            self.lemma_place();
        }
        match self.addr {
            Some(addr) => {
                let ghost t0 = self.btree.tree();
                let ghost k = t0.key_at(addr);
                let ghost prev = self.prev@;
                let ghost before = self.remaining();
                let ghost m0 = self.btree@;
                let next = self.btree.next_item_address(addr);
                self.addr = next;
                self.len -= 1;
                self.prev = Ghost(Some(k));
                proof {
                    assert forall|q: K| self.remaining().contains(q) <==> before.remove(k).contains(q) by {
                        lemma_order_basics(k, q);
                        if before.contains(q) && q != k {
                            assert(le(k, q));
                        }
                    }
                    assert(self.remaining() =~= before.remove(k));
                    assert forall|t2: Tree<K, V>, v: V| #[trigger] t0.value_set(t2, addr, v) implies t2.btree()
                        && t2.full_but(None) && t2.view() == m0.insert(k, v) && t2.view().dom() == m0.dom()
                        && t2.next_after(Some(k), next) by {
                        t0.lemma_value_set(t2, addr, v);
                        t0.lemma_value_set_keys(t2, addr, v);
                        match next {
                            Some(b) => {
                                assert(t0.occupied(b));
                                assert forall|c: ItemAddr| !#[trigger] t2.key_between(Some(k), c, Some(t2.key_at(b))) by {
                                    assert(!t0.key_between(Some(k), c, Some(t0.key_at(b))));
                                }
                            },
                            None => {
                                assert forall|c: ItemAddr| !#[trigger] t2.key_between(Some(k), c, None) by {
                                    assert(!t0.key_between(Some(k), c, None));
                                }
                            },
                        }
                    }
                }
                Some(self.btree.pair_mut_at(addr))
            },
            None => None,
        }
    }

    /// Move the cursor past the next binding, if there is one.
    pub fn skip(&mut self) -> (r: bool)
        requires
            total_order::<K>(),
            old(self).wf(),
        ensures
            r <==> old(self).count() > 0,
            *final(final(self).btree) == *final(old(self).btree),
            final(self).wf(),
            final(self).now() == old(self).now(),
            r ==> final(self).passed() is Some && old(self).is_next(final(self).passed()->0) && final(self).count()
                == old(self).count() - 1,
            !r ==> final(self).passed() == old(self).passed(),
    {
        proof {
            self.lemma_place();
        }
        match self.addr {
            Some(addr) => {
                let ghost t0 = self.btree.tree();
                let ghost k = t0.key_at(addr);
                let ghost before = self.remaining();
                let next = self.btree.next_item_address(addr);
                self.addr = next;
                self.len -= 1;
                self.prev = Ghost(Some(k));
                proof {
                    assert forall|q: K| self.remaining().contains(q) <==> before.remove(k).contains(q) by {
                        lemma_order_basics(k, q);
                        if before.contains(q) && q != k {
                            assert(le(k, q));
                        }
                    }
                    assert(self.remaining() =~= before.remove(k));
                }
                true
            },
            None => false,
        }
    }

    /// Insert a new binding in the map before the next one; the cursor
    /// then stands between the new binding and the next one.
    ///
    /// The key must be strictly greater than the key passed last, and
    /// strictly less than the key of the next binding.
    pub fn insert(&mut self, key: K, value: V)
        requires
            total_order::<K>(),
            old(self).wf(),
            above(old(self).passed(), key),
            forall|q: K| #[trigger] old(self).remaining().contains(q) ==> lt(key, q),
            old(self).now().count() < usize::MAX,
        ensures
            *final(final(self).btree) == *final(old(self).btree),
            final(self).wf(),
            final(self).now()@ == old(self).now()@.insert(key, value),
            !old(self).now()@.dom().contains(key),
            final(self).passed() == Some(key),
            final(self).remaining() == old(self).remaining(),
            final(self).count() == old(self).count(),
    {
        let ghost t0 = self.btree.tree();
        let ghost prev = self.prev@;
        let ghost before = self.remaining();
        proof {
            self.lemma_place();
            lemma_order_basics(key, key);
            // the key is not in the map
            if t0.has_key(key) {
                let c = t0.addr_of(key);
                assert(t0.holds(c, key));
                assert(self.btree@.dom().contains(key));
                assert(before.contains(key));
            }
        }
        let place = match self.addr {
            Some(addr) => addr,
            None => self.btree.last_valid_address(),
        };
        proof {
            // the place comes right after the key
            match self.addr {
                Some(a) => {
                    assert(before.contains(t0.key_at(a)));
                    assert forall|c: ItemAddr| !#[trigger] t0.key_between(Some(key), c, Some(t0.key_at(a))) by {
                        if t0.key_between(Some(key), c, Some(t0.key_at(a))) {
                            assert(t0.key_between(prev, c, Some(t0.key_at(a))));
                        }
                    }
                },
                None => {
                    assert forall|c: ItemAddr| !#[trigger] t0.key_between(Some(key), c, None) by {
                        if t0.key_between(Some(key), c, None) {
                            assert(t0.key_between(prev, c, None));
                        }
                    }
                },
            }
            if t0.root is Some {
                assert(t0.follows(place, key));
                t0.lemma_follows_gap(place, key);
            }
        }
        let addr = self.btree.insert_at(place, Item::new(key, value));
        let ghost t1 = self.btree.tree();
        proof {
            t1.lemma_somewhere(addr);
        }
        self.addr = self.btree.next_item_address(addr);
        self.prev = Ghost(Some(key));
        proof {
            assert forall|q: K| self.remaining().contains(q) <==> before.contains(q) by {
                lemma_order_basics(key, q);
            }
            assert(self.remaining() =~= before);
        }
    }

    /// Remove the next binding, if there is one, and return its item; the
    /// cursor then stands before the binding that came after it.
    pub fn remove(&mut self) -> (r: Option<Item<K, V>>)
        requires
            total_order::<K>(),
            old(self).wf(),
        ensures
            r is None <==> old(self).count() == 0,
            *final(final(self).btree) == *final(old(self).btree),
            final(self).wf(),
            final(self).passed() == old(self).passed(),
            match r {
                Some(item) => {
                    &&& old(self).is_next(item.key_spec())
                    &&& item.full()
                    &&& item.value_spec() == old(self).now()@[item.key_spec()]
                    &&& final(self).now()@ == old(self).now()@.remove(item.key_spec())
                    &&& final(self).remaining() == old(self).remaining().remove(item.key_spec())
                    &&& final(self).count() == old(self).count() - 1
                },
                None => final(self).now() == old(self).now(),
            },
    {
        proof {
            self.lemma_place();
        }
        match self.addr {
            Some(addr) => {
                let ghost t0 = self.btree.tree();
                let ghost k = t0.key_at(addr);
                let ghost prev = self.prev@;
                let ghost before = self.remaining();
                let (item, place) = self.btree.remove_at(addr).unwrap();
                let ghost t1 = self.btree.tree();
                proof {
                    if t1.root is None {
                        assert forall|c: ItemAddr| !t1.occupied(c) by {}
                    }
                }
                let next = self.btree.normalize(place);
                self.addr = next;
                self.len -= 1;
                proof {
                    lemma_order_basics(k, k);
                    assert forall|q: K| self.remaining().contains(q) <==> before.remove(k).contains(q) by {}
                    assert(self.remaining() =~= before.remove(k));
                    // the keys of the map are keys that it had
                    assert forall|c: ItemAddr| #[trigger] t1.occupied(c) implies t0.has_key(t1.key_at(c)) && t1.key_at(c)
                        != k by {
                        t1.lemma_view_at(c);
                    }
                    let hi: Option<K> = match next {
                        Some(b) => Some(t1.key_at(b)),
                        None => None,
                    };
                    assert(t1.follows(place, k));
                    if t1.root is Some {
                        t1.lemma_somewhere(place);
                        assert(hi == t1.high(place.id, place.offset@));
                    }
                    assert forall|c: ItemAddr| !#[trigger] t1.key_between(prev, c, hi) by {
                        if t1.key_between(prev, c, hi) {
                            let q = t1.key_at(c);
                            assert(t1.root is Some);
                            lemma_order_basics(q, k);
                            let c0 = t0.addr_of(q);
                            assert(t0.holds(c0, q));
                            if lt(q, k) {
                                assert(t0.key_between(prev, c0, Some(k)));
                            } else {
                                assert(t1.key_between(Some(k), c, hi));
                            }
                        }
                    }
                }
                Some(item)
            },
            None => None,
        }
    }
}

impl<K: Ord, V, C: ContainerMut<Node<K, V>>> BTreeMap<K, V, C> {
    /// The key and the value at an address of the map, the value to be
    /// changed in place.
    pub fn pair_mut_at(&mut self, addr: ItemAddr) -> (r: (&K, &mut V))
        requires
            old(self).tree().occupied(addr),
            old(self).tree().item_at(addr).full(),
        ensures
            *r.0 == old(self).tree().key_at(addr),
            *r.1 == old(self).tree().item_at(addr).value_spec(),
            old(self).tree().value_set(final(self).tree(), addr, *final(r.1)),
            final(self).count() == old(self).count(),
    {
        self.item_mut(addr).unwrap().as_pair_mut()
    }

    /// Gets a cursor over the entries of the map, sorted by key, that
    /// allows insertion and deletion of entries at its position in the map.
    pub fn entries_mut(&mut self) -> (r: EntriesMut<'_, K, V, C>)
        requires
            total_order::<K>(),
            old(self).wf(),
        ensures
            r.wf(),
            r.now() == *old(self),
            r.passed() is None,
            r.remaining() == old(self)@.dom(),
            *final(r.btree) == *final(self),
    {
        EntriesMut::new(self)
    }
}

/// What a predicate-driven drain has taken out of a map: the bindings
/// that matched, in the order of their keys.
pub struct DrainFilter<K, V> {
    /// The bindings, last first.
    items: Vec<(K, V)>,
}

impl<K, V> DrainFilter<K, V> {
    /// The bindings that are left, in the order of their keys.
    pub closed spec fn left(&self) -> Seq<(K, V)> {
        self.items@.reverse()
    }

    /// The number of bindings that are left.
    pub fn len(&self) -> (n: usize)
        ensures
            n == self.left().len(),
    {
        self.items.len()
    }

    /// The next of the bindings taken out.
    pub fn next(&mut self) -> (r: Option<(K, V)>)
        ensures
            r is None <==> old(self).left().len() == 0,
            r is None ==> final(self).left() == old(self).left(),
            r is Some ==> r->0 == old(self).left()[0] && final(self).left() == old(self).left().subrange(1, old(self).left().len() as int),
    {
        let ghost before = self.items@;
        let r = self.items.pop();
        proof {
            if r is Some {
                assert(self.items@.reverse() =~= before.reverse().subrange(1, before.len() as int));
            }
        }
        r
    }
}

/// `f` may tell `b` of the binding of `k` to `v`.
pub open spec fn tells<K, V, F: Fn(&K, &V) -> bool>(f: F, k: K, v: V, b: bool) -> bool {
    call_ensures(f, (&k, &v), b)
}

/// The keys of `m` but those of `rest` have been sorted out by `f`: the
/// map `now` binds, as `m` did, those of which `f` told `keep`, and the
/// keys of `rest`. Of the keys taken out, those of which `f` told the
/// contrary, `taken` holds the bindings, in order.
pub open spec fn sorted_out<K: Ord, V, F: Fn(&K, &V) -> bool>(
    f: F,
    keep: bool,
    m: Map<K, V>,
    rest: Set<K>,
    now: Map<K, V>,
    taken: Seq<(K, V)>,
) -> bool {
    &&& forall|k: K| #[trigger] now.dom().contains(k) ==> m.dom().contains(k) && now[k] == m[k]
    &&& forall|k: K| #[trigger] rest.contains(k) ==> now.dom().contains(k)
    &&& forall|k: K| #[trigger] now.dom().contains(k) && !rest.contains(k) ==> tells(f, k, m[k], keep)
    &&& forall|k: K|
        #[trigger] m.dom().contains(k) && !now.dom().contains(k) ==> tells(f, k, m[k], !keep) && exists|i: int|
            0 <= i < taken.len() && #[trigger] taken[i] == (k, m[k])
    &&& forall|i: int|
        0 <= i < taken.len() ==> m.dom().contains((#[trigger] taken[i]).0) && taken[i].1 == m[taken[i].0]
            && !now.dom().contains(taken[i].0)
    &&& forall|i: int, j: int| 0 <= i < j < taken.len() ==> lt((#[trigger] taken[i]).0, (#[trigger] taken[j]).0)
}

impl<'a, K: Ord, V, C: ContainerMut<Node<K, V>>> EntriesMut<'a, K, V, C> {
    /// The keys left to visit have one first key at most.
    pub proof fn lemma_one_next(&self, k1: K, k2: K)
        requires
            total_order::<K>(),
            self.is_next(k1),
            self.is_next(k2),
        ensures
            k1 == k2,
    {
        assert(le(k1, k2) && le(k2, k1));
        lemma_order_basics(k1, k2);
    }

    /// Goes through what is left of the map and takes out each binding
    /// of which `f` does not tell `keep`; returns the bindings taken out,
    /// in the order of their keys.
    fn sort_out<F: Fn(&K, &V) -> bool>(self, f: F, keep: bool) -> (taken: Vec<(K, V)>)
        requires
            total_order::<K>(),
            self.wf(),
            self.passed() is None,
            forall|k: K, v: V| #[trigger] call_requires(f, (&k, &v)),
        ensures
            final(self.btree).wf(),
            sorted_out(f, keep, self.now()@, Set::<K>::empty(), final(self.btree)@, taken@.reverse()),
    {
        let mut cursor = self;
        let ghost m = cursor.now()@;
        let ghost later = *final(cursor.btree);
        let mut taken: Vec<(K, V)> = Vec::new();
        proof {
            assert(cursor.remaining() =~= m.dom());
            assert(sorted_out(f, keep, m, cursor.remaining(), cursor.now()@, taken@));
        }
        loop
            invariant
                total_order::<K>(),
                cursor.wf(),
                *final(cursor.btree) == later,
                forall|k: K, v: V| #[trigger] call_requires(f, (&k, &v)),
                sorted_out(f, keep, m, cursor.remaining(), cursor.now()@, taken@),
                forall|i: int, q: K|
                    0 <= i < taken@.len() && #[trigger] cursor.remaining().contains(q) ==> lt(
                        (#[trigger] taken@[i]).0,
                        q,
                    ),
            ensures
                cursor.wf(),
                *final(cursor.btree) == later,
                cursor.count() == 0,
                sorted_out(f, keep, m, cursor.remaining(), cursor.now()@, taken@),
            decreases cursor.count(),
        {
            let ghost c0 = cursor;
            let ghost now = cursor.now()@;
            let ghost passed = cursor.passed();
            let ghost before = taken@;
            let ghost kn = choose|k: K| c0.is_next(k);
            let told = match cursor.peek() {
                None => {
                    break ;
                },
                Some(item) => {
                    let key = item.key();
                    let value = item.value();
                    let told = f(key, value);
                    proof {
                        c0.lemma_one_next(item.key_spec(), kn);
                        assert(c0.remaining().contains(kn));
                        assert(now.dom().contains(kn));
                        assert(now[kn] == m[kn]);
                        assert(call_ensures(f, (key, value), told));
                        assert(*key == kn && *value == m[kn]);
                        assert(tells(f, kn, m[kn], told));
                    }
                    told
                },
            };
            if told == keep {
                cursor.skip();
                proof {
                    let k = cursor.passed()->0;
                    c0.lemma_one_next(k, kn);
                    lemma_order_basics(k, k);
                    assert forall|q: K| #[trigger] cursor.now()@.dom().contains(q) && !cursor.remaining().contains(q)
                        implies tells(f, q, m[q], keep) by {
                        lemma_order_basics(k, q);
                        if c0.remaining().contains(q) {
                            assert(le(k, q));
                        }
                    }
                    assert forall|q: K| #[trigger] cursor.remaining().contains(q) implies cursor.now()@.dom().contains(q) by {}
                    assert forall|i: int, q: K|
                        0 <= i < taken@.len() && #[trigger] cursor.remaining().contains(q) implies lt(
                        (#[trigger] taken@[i]).0,
                        q,
                    ) by {
                        assert(c0.remaining().contains(q));
                    }
                    assert(sorted_out(f, keep, m, cursor.remaining(), cursor.now()@, taken@));
                }
            } else {
                let item = cursor.remove().unwrap();
                let ghost k = item.key_spec();
                taken.push(item.into_pair());
                proof {
                    c0.lemma_one_next(k, kn);
                    lemma_order_basics(k, k);
                    assert(now.dom().contains(k));
                    assert(now[k] == m[k]);
                    assert(tells(f, k, m[k], !keep));
                    assert(taken@[taken@.len() - 1] == (k, m[k]));
                    assert forall|q: K| #[trigger] m.dom().contains(q) && !cursor.now()@.dom().contains(q) implies tells(
                        f,
                        q,
                        m[q],
                        !keep,
                    ) && exists|i: int| 0 <= i < taken@.len() && #[trigger] taken@[i] == (q, m[q]) by {
                        if q != k {
                            assert(!now.dom().contains(q));
                            let i = choose|i: int| 0 <= i < before.len() && #[trigger] before[i] == (q, m[q]);
                            assert(taken@[i] == (q, m[q]));
                        }
                    }
                    assert forall|i: int|
                        0 <= i < taken@.len() implies m.dom().contains((#[trigger] taken@[i]).0) && taken@[i].1
                        == m[taken@[i].0] && !cursor.now()@.dom().contains(taken@[i].0) by {
                        if i < before.len() {
                            assert(before[i] == taken@[i]);
                        }
                    }
                    assert forall|i: int, j: int| 0 <= i < j < taken@.len() implies lt(
                        (#[trigger] taken@[i]).0,
                        (#[trigger] taken@[j]).0,
                    ) by {
                        if j == taken@.len() - 1 {
                            assert(before[i] == taken@[i]);
                            assert(c0.remaining().contains(k));
                        } else {
                            assert(before[i] == taken@[i] && before[j] == taken@[j]);
                        }
                    }
                    assert forall|i: int, q: K|
                        0 <= i < taken@.len() && #[trigger] cursor.remaining().contains(q) implies lt(
                        (#[trigger] taken@[i]).0,
                        q,
                    ) by {
                        assert(c0.remaining().contains(q));
                        if i < before.len() {
                            assert(before[i] == taken@[i]);
                        } else {
                            assert(le(k, q));
                        }
                    }
                    assert(sorted_out(f, keep, m, cursor.remaining(), cursor.now()@, taken@));
                }
            }
        }
        proof {
            cursor.lemma_next();
            assert(sorted_out(f, keep, m, Set::<K>::empty(), cursor.now()@, taken@));
        }
        let ghost in_order = taken@;
        let mut rest: Vec<(K, V)> = Vec::new();
        while taken.len() > 0
            invariant
                rest@ + taken@.reverse() =~= in_order.reverse(),
            decreases taken@.len(),
        {
            let ghost before = taken@;
            let pair = taken.pop().unwrap();
            rest.push(pair);
            proof {
                assert(before.reverse() =~= seq![pair] + taken@.reverse());
            }
        }
        proof {
            assert(rest@ =~= in_order.reverse());
            assert(rest@.reverse() =~= in_order);
        }
        rest
    }
}

impl<K: Ord, V, C: ContainerMut<Node<K, V>>> BTreeMap<K, V, C> {
    /// Retains only the elements specified by the predicate: removes
    /// every binding of which `f` tells `false`.
    pub fn retain<F: Fn(&K, &V) -> bool>(&mut self, f: F)
        requires
            total_order::<K>(),
            old(self).wf(),
            forall|k: K, v: V| #[trigger] call_requires(f, (&k, &v)),
        ensures
            final(self).wf(),
            final(self)@.submap_of(old(self)@),
            forall|k: K| #[trigger] final(self)@.dom().contains(k) ==> tells(f, k, old(self)@[k], true),
            forall|k: K|
                #[trigger] old(self)@.dom().contains(k) && !final(self)@.dom().contains(k) ==> tells(f, k, old(self)@[k], false),
    {
        let cursor = self.entries_mut();
        let _ = cursor.sort_out(f, true);
    }

    /// Takes out of the map every binding of which `pred` tells `true`,
    /// and returns the bindings taken out, in the order of their keys. The
    /// predicate is asked of every binding once.
    pub fn drain_filter<F: Fn(&K, &V) -> bool>(&mut self, pred: F) -> (r: DrainFilter<K, V>)
        requires
            total_order::<K>(),
            old(self).wf(),
            forall|k: K, v: V| #[trigger] call_requires(pred, (&k, &v)),
        ensures
            final(self).wf(),
            sorted_out(pred, false, old(self)@, Set::<K>::empty(), final(self)@, r.left()),
    {
        let cursor = self.entries_mut();
        let items = cursor.sort_out(pred, false);
        DrainFilter { items }
    }
}

} // verus!
