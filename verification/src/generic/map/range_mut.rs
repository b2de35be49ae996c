//! Iteration over the bindings of a map, with their values to be changed
//! in place.
use vstd::prelude::*;
use crate::container::{Container, ContainerMut};
use crate::generic::map::range::{
    after, before, in_range, lemma_after_up, lemma_before_down, owned, valid_range, Bound,
};
use crate::generic::map::tree::{above, below, Tree};
use crate::generic::map::BTreeMap;
use crate::generic::node::{Item, ItemAddr, Keyed, Node, Offset};
use crate::utils::{le, lemma_order_basics, lt, total_order};

verus! {

/// Tells whether two addresses, or their absence, are the same.
fn same_addr(a: &Option<ItemAddr>, b: &Option<ItemAddr>) -> (r: bool)
    ensures
        r == (*a == *b),
{
    match (a, b) {
        (Some(x), Some(y)) => x.id == y.id && x.offset.0 == y.offset.0,
        (None, None) => true,
        _ => false,
    }
}

/// A mutable iterator over the bindings of a map whose keys lie in a
/// range, from both ends of the range.
///
/// Each binding is lent for as long as the caller holds it: the next one
/// can be asked for when the last one has been given back.
#[verifier::reject_recursive_types(K)]
#[verifier::reject_recursive_types(V)]
#[verifier::reject_recursive_types(C)]
pub struct RangeMut<'a, K, V, C> {
    /// The map that the iterator goes through.
    pub btree: &'a mut BTreeMap<K, V, C>,
    /// Address of the next item.
    pub addr: Option<ItemAddr>,
    /// Address of the first item past the range.
    pub end: Option<ItemAddr>,
    /// The bounds of what is left of the range.
    pub bounds: Ghost<(Bound<K>, Bound<K>)>,
}

impl<'a, K: Ord, V, C: ContainerMut<Node<K, V>>> RangeMut<'a, K, V, C> {
    /// The map of the iterator as it is now.
    pub open spec fn now(&self) -> BTreeMap<K, V, C> {
        *self.btree
    }

    /// The start of what is left of the range.
    pub open spec fn start(&self) -> Bound<K> {
        self.bounds@.0
    }

    /// The end of what is left of the range.
    pub open spec fn end_bound(&self) -> Bound<K> {
        self.bounds@.1
    }

    /// The iterator is well formed: it stands at the first key of what is
    /// left of its range.
    pub open spec fn wf(&self) -> bool {
        &&& self.btree.wf()
        &&& valid_range(self.start(), self.end_bound())
        &&& self.btree.tree().first_from(self.start(), self.addr)
        &&& self.btree.tree().first_past(self.end_bound(), self.end)
    }

    /// The keys that are left: the keys of the map in what is left of the
    /// range.
    pub open spec fn remaining(&self) -> Set<K> {
        self.now()@.dom().filter(|k: K| in_range(self.start(), self.end_bound(), k))
    }

    /// `k` is the first of the keys that are left.
    pub open spec fn is_first(&self, k: K) -> bool {
        self.remaining().contains(k) && forall|q: K| #[trigger] self.remaining().contains(q) ==> le(k, q)
    }

    /// `k` is the last of the keys that are left.
    pub open spec fn is_last(&self, k: K) -> bool {
        self.remaining().contains(k) && forall|q: K| #[trigger] self.remaining().contains(q) ==> le(q, k)
    }

    /// The iterator over the bindings of `btree` whose keys lie in the
    /// range from `start` to `end`.
    pub fn new(btree: &'a mut BTreeMap<K, V, C>, start: Bound<&K>, end: Bound<&K>) -> (r: Self)
        requires
            total_order::<K>(),
            old(btree).wf(),
            valid_range(owned(start), owned(end)),
        ensures
            r.wf(),
            r.now() == *old(btree),
            r.start() == owned(start),
            r.end_bound() == owned(end),
            *final(r.btree) == *final(btree),
    {
        let (addr, end_addr) = btree.range_ends(start, end);
        RangeMut { btree, addr, end: end_addr, bounds: Ghost((owned(start), owned(end))) }
    }

    /// The keys of the map are the keys of its items.
    proof fn lemma_keys(&self)
        requires
            total_order::<K>(),
            self.wf(),
        ensures
            forall|c: ItemAddr| #[trigger]
                self.now().tree().occupied(c) ==> self.now()@.dom().contains(self.now().tree().key_at(c)),
            forall|q: K| #[trigger]
                self.now()@.dom().contains(q) ==> self.now().tree().holds(self.now().tree().addr_of(q), q),
    {
        let t = self.btree.tree();
        assert forall|c: ItemAddr| #[trigger] t.occupied(c) implies self.now()@.dom().contains(t.key_at(c)) by {
            t.lemma_view_at(c);
        }
    }

    /// The next binding from the front of the range, its value to be
    /// changed in place: the one with the first of the keys that are left.
    pub fn next(&mut self) -> (r: Option<(&K, &mut V)>)
        requires
            total_order::<K>(),
            old(self).wf(),
        ensures
            *final(final(self).btree) == *final(old(self).btree),
            final(self).wf(),
            final(self).end_bound() == old(self).end_bound(),
            match r {
                Some((k, v)) => {
                    &&& old(self).is_first(*k)
                    &&& *v == old(self).now()@[*k]
                    &&& final(self).now()@ == old(self).now()@.insert(*k, *final(v))
                    &&& final(self).start() == Bound::Excluded(*k)
                    &&& final(self).remaining() == old(self).remaining().remove(*k)
                },
                None => {
                    &&& old(self).remaining() =~= Set::<K>::empty()
                    &&& final(self).start() == old(self).start()
                    &&& final(self).now() == old(self).now()
                },
            },
    {
        let ghost t = self.btree.tree();
        let ghost start = self.start();
        let ghost end = self.end_bound();
        let ghost m0 = self.btree@;
        proof {
            t.lemma_range_empty(start, end, self.addr, self.end);
            self.lemma_keys();
        }
        if !same_addr(&self.addr, &self.end) {
            let addr = self.addr.unwrap();
            proof {
                t.lemma_somewhere(addr);
            }
            let next = self.btree.next_item_address(addr);
            let ghost k = t.key_at(addr);
            let ghost end_addr = self.end;
            let ghost before_set = self.remaining();
            proof {
                t.lemma_view_at(addr);
                t.lemma_next_first(Some(k), next);
                assert forall|q: K| #[trigger] self.remaining().contains(q) implies le(k, q) by {
                    let c = t.addr_of(q);
                    assert(t.occupied(c));
                }
                lemma_order_basics(k, k);
            }
            self.addr = next;
            self.bounds = Ghost((Bound::Excluded(k), end));
            proof {
                assert forall|q: K| self.remaining().contains(q) <==> before_set.remove(k).contains(q) by {
                    lemma_order_basics(k, q);
                    if before_set.contains(q) && q != k {
                        assert(le(k, q));
                    }
                }
                assert(self.remaining() =~= before_set.remove(k));
                assert forall|t2: Tree<K, V>, v: V| #[trigger] t.value_set(t2, addr, v) implies t2.btree()
                    && t2.full_but(None) && t2.view() == m0.insert(k, v) && t2.view().dom() == m0.dom()
                    && t2.first_from(Bound::Excluded(k), next) && t2.first_past(end, end_addr) by {
                    t.lemma_value_set(t2, addr, v);
                    t.lemma_value_set_keys(t2, addr, v);
                    t.lemma_same_keys(t2);
                }
            }
            Some(self.btree.pair_mut_at(addr))
        } else {
            proof {
                assert forall|q: K| !old(self).remaining().contains(q) by {
                    if old(self).remaining().contains(q) {
                        let c = t.addr_of(q);
                        assert(t.occupied(c));
                    }
                }
            }
            None
        }
    }

    /// The next binding from the back of the range, its value to be
    /// changed in place: the one with the last of the keys that are left.
    pub fn next_back(&mut self) -> (r: Option<(&K, &mut V)>)
        requires
            total_order::<K>(),
            old(self).wf(),
        ensures
            *final(final(self).btree) == *final(old(self).btree),
            final(self).wf(),
            final(self).start() == old(self).start(),
            match r {
                Some((k, v)) => {
                    &&& old(self).is_last(*k)
                    &&& *v == old(self).now()@[*k]
                    &&& final(self).now()@ == old(self).now()@.insert(*k, *final(v))
                    &&& final(self).end_bound() == Bound::Excluded(*k)
                    &&& final(self).remaining() == old(self).remaining().remove(*k)
                },
                None => {
                    &&& old(self).remaining() =~= Set::<K>::empty()
                    &&& final(self).end_bound() == old(self).end_bound()
                    &&& final(self).now() == old(self).now()
                },
            },
    {
        let ghost t = self.btree.tree();
        let ghost start = self.start();
        let ghost end = self.end_bound();
        let ghost m0 = self.btree@;
        proof {
            t.lemma_range_empty(start, end, self.addr, self.end);
            self.lemma_keys();
        }
        if !same_addr(&self.addr, &self.end) {
            let ghost first = self.addr->0;
            let ghost kf = t.key_at(first);
            let ghost first_addr = self.addr;
            let ghost before_set = self.remaining();
            let found = match self.end {
                Some(e) => {
                    proof {
                        t.lemma_somewhere(e);
                    }
                    let found = self.btree.previous_item_address(e);
                    proof {
                        lemma_order_basics(kf, t.key_at(e));
                        if !lt(kf, t.key_at(e)) {
                            lemma_before_down(t.key_at(e), kf, end);
                        }
                        if found is None {
                            assert(t.key_between(None, first, Some(t.key_at(e))));
                        }
                    }
                    found
                },
                None => {
                    let found = self.btree.last_item_address();
                    proof {
                        if found is None {
                            assert(t.key_between(None, first, None));
                        }
                    }
                    found
                },
            };
            let addr = found.unwrap();
            let ghost k = t.key_at(addr);
            proof {
                t.lemma_view_at(addr);
                t.lemma_held_first(addr);
                let hi: Option<K> = match self.end {
                    Some(e) => Some(t.key_at(e)),
                    None => None,
                };
                assert forall|c: ItemAddr| #[trigger] t.occupied(c) && before(t.key_at(c), end) implies le(
                    t.key_at(c),
                    k,
                ) by {
                    let q = t.key_at(c);
                    lemma_order_basics(q, k);
                    if hi is Some {
                        lemma_order_basics(q, hi->0);
                        if !lt(q, hi->0) {
                            lemma_before_down(hi->0, q, end);
                        }
                    }
                    if lt(k, q) {
                        assert(t.key_between(Some(k), c, hi));
                    }
                }
                assert(before(k, end)) by {
                    if !before(k, end) {
                        if hi is Some {
                            lemma_order_basics(k, hi->0);
                        }
                    }
                }
                assert(le(kf, k));
                lemma_after_up(start, kf, k);
                lemma_order_basics(k, k);
                assert forall|q: K| #[trigger] self.remaining().contains(q) implies le(q, k) by {
                    let c = t.addr_of(q);
                    assert(t.occupied(c));
                }
            }
            self.end = Some(addr);
            self.bounds = Ghost((start, Bound::Excluded(k)));
            proof {
                assert forall|q: K| self.remaining().contains(q) <==> before_set.remove(k).contains(q) by {
                    lemma_order_basics(k, q);
                    if before_set.contains(q) && q != k {
                        assert(le(q, k));
                    }
                    if self.remaining().contains(q) {
                        lemma_before_down(q, k, end);
                    }
                }
                assert(self.remaining() =~= before_set.remove(k));
                assert forall|t2: Tree<K, V>, v: V| #[trigger] t.value_set(t2, addr, v) implies t2.btree()
                    && t2.full_but(None) && t2.view() == m0.insert(k, v) && t2.view().dom() == m0.dom()
                    && t2.first_from(start, first_addr) && t2.first_past(Bound::Excluded(k), Some(addr)) by {
                    t.lemma_value_set(t2, addr, v);
                    t.lemma_value_set_keys(t2, addr, v);
                    t.lemma_same_keys(t2);
                }
            }
            Some(self.btree.pair_mut_at(addr))
        } else {
            proof {
                assert forall|q: K| !old(self).remaining().contains(q) by {
                    if old(self).remaining().contains(q) {
                        let c = t.addr_of(q);
                        assert(t.occupied(c));
                    }
                }
            }
            None
        }
    }
}

/// A mutable iterator over the bindings of a map, from both ends, that
/// knows how many bindings are left.
#[verifier::reject_recursive_types(K)]
#[verifier::reject_recursive_types(V)]
#[verifier::reject_recursive_types(C)]
pub struct IterMut<'a, K, V, C> {
    /// The iterator over the whole of the map.
    pub inner: RangeMut<'a, K, V, C>,
    /// Number of bindings left.
    pub len: usize,
}

impl<'a, K: Ord, V, C: ContainerMut<Node<K, V>>> IterMut<'a, K, V, C> {
    /// The map of the iterator as it is now.
    pub open spec fn now(&self) -> BTreeMap<K, V, C> {
        self.inner.now()
    }

    /// The keys that are left.
    pub open spec fn remaining(&self) -> Set<K> {
        self.inner.remaining()
    }

    /// The iterator is well formed: it counts the keys that are left.
    pub open spec fn wf(&self) -> bool {
        &&& self.inner.wf()
        &&& self.inner.remaining().finite()
        &&& self.len == self.inner.remaining().len()
    }

    /// The number of bindings left.
    pub fn len(&self) -> (n: usize)
        ensures
            n == self.len,
    {
        self.len
    }

    /// The next binding from the front, its value to be changed in place:
    /// the one with the first of the keys that are left.
    pub fn next(&mut self) -> (r: Option<(&K, &mut V)>)
        requires
            total_order::<K>(),
            old(self).wf(),
        ensures
            *final(final(self).inner.btree) == *final(old(self).inner.btree),
            final(self).wf(),
            r is None <==> old(self).len == 0,
            match r {
                Some((k, v)) => {
                    &&& old(self).inner.is_first(*k)
                    &&& *v == old(self).now()@[*k]
                    &&& final(self).now()@ == old(self).now()@.insert(*k, *final(v))
                    &&& final(self).remaining() == old(self).remaining().remove(*k)
                    &&& final(self).len == old(self).len - 1
                },
                None => final(self).now() == old(self).now() && final(self).remaining() == old(self).remaining(),
            },
    {
        if self.len > 0 {
            self.len -= 1;
            let r = self.inner.next();
            proof {
                if r is None {
                    assert(old(self).inner.remaining().len() == 0);
                }
            }
            r
        } else {
            proof {
                self.inner.remaining().lemma_len0_is_empty();
            }
            None
        }
    }

    /// The next binding from the back, its value to be changed in place:
    /// the one with the last of the keys that are left.
    pub fn next_back(&mut self) -> (r: Option<(&K, &mut V)>)
        requires
            total_order::<K>(),
            old(self).wf(),
        ensures
            *final(final(self).inner.btree) == *final(old(self).inner.btree),
            final(self).wf(),
            r is None <==> old(self).len == 0,
            match r {
                Some((k, v)) => {
                    &&& old(self).inner.is_last(*k)
                    &&& *v == old(self).now()@[*k]
                    &&& final(self).now()@ == old(self).now()@.insert(*k, *final(v))
                    &&& final(self).remaining() == old(self).remaining().remove(*k)
                    &&& final(self).len == old(self).len - 1
                },
                None => final(self).now() == old(self).now() && final(self).remaining() == old(self).remaining(),
            },
    {
        if self.len > 0 {
            self.len -= 1;
            let r = self.inner.next_back();
            proof {
                if r is None {
                    assert(old(self).inner.remaining().len() == 0);
                }
            }
            r
        } else {
            proof {
                self.inner.remaining().lemma_len0_is_empty();
            }
            None
        }
    }
}

/// A mutable iterator over the values of a map, in the order of their
/// keys.
#[verifier::reject_recursive_types(K)]
#[verifier::reject_recursive_types(V)]
#[verifier::reject_recursive_types(C)]
pub struct ValuesMut<'a, K, V, C> {
    /// The iterator over the bindings.
    pub inner: IterMut<'a, K, V, C>,
}

impl<'a, K: Ord, V, C: ContainerMut<Node<K, V>>> ValuesMut<'a, K, V, C> {
    /// The number of values left.
    pub fn len(&self) -> (n: usize)
        ensures
            n == self.inner.len,
    {
        self.inner.len()
    }

    /// The next value from the front, to be changed in place: the one
    /// bound to the first of the keys that are left.
    pub fn next(&mut self) -> (r: Option<&mut V>)
        requires
            total_order::<K>(),
            old(self).inner.wf(),
        ensures
            *final(final(self).inner.inner.btree) == *final(old(self).inner.inner.btree),
            final(self).inner.wf(),
            r is None <==> old(self).inner.len == 0,
            match r {
                Some(v) => exists|k: K|
                    {
                        &&& #[trigger] old(self).inner.inner.is_first(k)
                        &&& *v == old(self).inner.now()@[k]
                        &&& final(self).inner.now()@ == old(self).inner.now()@.insert(k, *final(v))
                        &&& final(self).inner.remaining() == old(self).inner.remaining().remove(k)
                        &&& final(self).inner.len == old(self).inner.len - 1
                    },
                None => final(self).inner.now() == old(self).inner.now(),
            },
    {
        match self.inner.next() {
            Some((k, v)) => {
                proof {
                    assert(old(self).inner.inner.is_first(*k));
                }
                Some(v)
            },
            None => None,
        }
    }
}

impl<K: Ord, V, C: ContainerMut<Node<K, V>>> BTreeMap<K, V, C> {
    /// Constructs a mutable double-ended iterator over a sub-range of
    /// elements in the map: those whose keys lie between `start` and `end`.
    ///
    /// The bounds must be those of a range: the start must not lie after
    /// the end, nor may the two exclude the same key.
    pub fn range_mut(&mut self, start: Bound<&K>, end: Bound<&K>) -> (r: RangeMut<'_, K, V, C>)
        requires
            total_order::<K>(),
            old(self).wf(),
            valid_range(owned(start), owned(end)),
        ensures
            r.wf(),
            r.now() == *old(self),
            r.start() == owned(start),
            r.end_bound() == owned(end),
            *final(r.btree) == *final(self),
    {
        RangeMut::new(self, start, end)
    }

    /// Gets a mutable iterator over the entries of the map, sorted by key.
    pub fn iter_mut(&mut self) -> (r: IterMut<'_, K, V, C>)
        requires
            total_order::<K>(),
            old(self).wf(),
        ensures
            r.wf(),
            r.now() == *old(self),
            r.remaining() == old(self)@.dom(),
            r.len == old(self)@.dom().len(),
            *final(r.inner.btree) == *final(self),
    {
        let len = self.len();
        let inner = RangeMut::new(self, Bound::Unbounded, Bound::Unbounded);
        proof {
            assert(inner.remaining() =~= inner.now()@.dom());
        }
        IterMut { inner, len }
    }

    /// Gets a mutable iterator over the values of the map, in order by
    /// key.
    pub fn values_mut(&mut self) -> (r: ValuesMut<'_, K, V, C>)
        requires
            total_order::<K>(),
            old(self).wf(),
        ensures
            r.inner.wf(),
            r.inner.now() == *old(self),
            r.inner.remaining() == old(self)@.dom(),
            r.inner.len == old(self)@.dom().len(),
            *final(r.inner.inner.btree) == *final(self),
    {
        ValuesMut { inner: self.iter_mut() }
    }
}

} // verus!
