//! Iteration over the bindings of a map, in the order of their keys.
use vstd::prelude::*;
use crate::container::{Container, ContainerMut};
use crate::generic::map::tree::{above, below, Tree};
use crate::generic::map::BTreeMap;
use crate::generic::node::{Item, ItemAddr, Keyed, Node, Offset};
use crate::utils::{key_eq, key_lt, le, lemma_order_basics, lt, total_order};

verus! {

/// An endpoint of a range of keys.
#[derive(Clone, Copy, Debug)]
pub enum Bound<T> {
    /// An inclusive bound.
    Included(T),
    /// An exclusive bound.
    Excluded(T),
    /// An infinite endpoint: there is no bound in this direction.
    Unbounded,
}

/// The bound `b` on borrowed keys as a bound on keys.
pub open spec fn owned<K>(b: Bound<&K>) -> Bound<K> {
    match b {
        Bound::Included(k) => Bound::Included(*k),
        Bound::Excluded(k) => Bound::Excluded(*k),
        Bound::Unbounded => Bound::Unbounded,
    }
}

/// `k` lies at or after the start `b` of a range.
pub open spec fn after<K: Ord>(b: Bound<K>, k: K) -> bool {
    match b {
        Bound::Included(s) => le(s, k),
        Bound::Excluded(s) => lt(s, k),
        Bound::Unbounded => true,
    }
}

/// `k` lies at or before the end `b` of a range.
pub open spec fn before<K: Ord>(k: K, b: Bound<K>) -> bool {
    match b {
        Bound::Included(e) => le(k, e),
        Bound::Excluded(e) => lt(k, e),
        Bound::Unbounded => true,
    }
}

/// `k` lies in the range from `start` to `end`.
pub open spec fn in_range<K: Ord>(start: Bound<K>, end: Bound<K>, k: K) -> bool {
    after(start, k) && before(k, end)
}

/// The bounds are those of a range: the start does not lie after the end,
/// and the two are not the same key excluded twice.
pub open spec fn valid_range<K: Ord>(start: Bound<K>, end: Bound<K>) -> bool {
    match (start, end) {
        (Bound::Included(s), Bound::Included(e)) => le(s, e),
        (Bound::Included(s), Bound::Excluded(e)) => le(s, e),
        (Bound::Excluded(s), Bound::Included(e)) => le(s, e),
        (Bound::Excluded(s), Bound::Excluded(e)) => lt(s, e),
        _ => true,
    }
}

/// Tells whether the bounds are those of a range: whether the start does
/// not lie after the end, and the two are not the same key excluded twice.
pub fn is_valid_range<K: Ord>(start: Bound<&K>, end: Bound<&K>) -> (r: bool)
    requires
        total_order::<K>(),
    ensures
        r == valid_range(owned(start), owned(end)),
{
    match (start, end) {
        (Bound::Included(s), Bound::Included(e)) => !key_lt(e, s),
        (Bound::Included(s), Bound::Excluded(e)) => !key_lt(e, s),
        (Bound::Included(_), Bound::Unbounded) => true,
        (Bound::Excluded(s), Bound::Included(e)) => !key_lt(e, s),
        (Bound::Excluded(s), Bound::Excluded(e)) => key_lt(s, e),
        (Bound::Excluded(_), Bound::Unbounded) => true,
        (Bound::Unbounded, _) => true,
    }
}

impl<K: Ord, V> Tree<K, V> {
    /// `r` is the address of the first key at or after the start `b`, if
    /// there is such a key.
    pub open spec fn first_from(&self, b: Bound<K>, r: Option<ItemAddr>) -> bool {
        match r {
            Some(a) => {
                &&& self.occupied(a)
                &&& after(b, self.key_at(a))
                &&& forall|c: ItemAddr| #[trigger] self.occupied(c) && after(b, self.key_at(c)) ==> le(self.key_at(a), self.key_at(c))
            },
            None => forall|c: ItemAddr| #[trigger] self.occupied(c) ==> !after(b, self.key_at(c)),
        }
    }

    /// `r` is the address of the first key past the end `b`, if there is
    /// such a key.
    pub open spec fn first_past(&self, b: Bound<K>, r: Option<ItemAddr>) -> bool {
        match r {
            Some(a) => {
                &&& self.occupied(a)
                &&& !before(self.key_at(a), b)
                &&& forall|c: ItemAddr| #[trigger] self.occupied(c) && !before(self.key_at(c), b) ==> le(self.key_at(a), self.key_at(c))
            },
            None => forall|c: ItemAddr| #[trigger] self.occupied(c) ==> before(self.key_at(c), b),
        }
    }

    /// The first key above a key is the first key of the range that starts
    /// after that key, and the first key past the range that ends with it.
    pub proof fn lemma_next_first(&self, lo: Option<K>, r: Option<ItemAddr>)
        requires
            total_order::<K>(),
            self.next_after(lo, r),
        ensures
            lo is None ==> self.first_from(Bound::Unbounded, r),
            lo is Some ==> self.first_from(Bound::Excluded(lo->0), r) && self.first_past(Bound::Included(lo->0), r),
    {
        match r {
            Some(a) => {
                assert forall|c: ItemAddr| #[trigger] self.occupied(c) && above(lo, self.key_at(c)) implies le(
                    self.key_at(a),
                    self.key_at(c),
                ) by {
                    assert(!self.key_between(lo, c, Some(self.key_at(a))));
                    lemma_order_basics(self.key_at(a), self.key_at(c));
                }
                if lo is Some {
                    lemma_order_basics(lo->0, self.key_at(a));
                    assert forall|c: ItemAddr| #[trigger] self.occupied(c) && !before(self.key_at(c), Bound::Included(lo->0))
                        implies le(self.key_at(a), self.key_at(c)) by {
                        lemma_order_basics(lo->0, self.key_at(c));
                    }
                }
            },
            None => {
                assert forall|c: ItemAddr| #[trigger] self.occupied(c) implies !above(lo, self.key_at(c)) by {
                    assert(!self.key_between(lo, c, None));
                }
                if lo is Some {
                    assert forall|c: ItemAddr| #[trigger] self.occupied(c) implies before(
                        self.key_at(c),
                        Bound::Included(lo->0),
                    ) by {
                        lemma_order_basics(lo->0, self.key_at(c));
                    }
                }
            },
        }
    }

    /// The address of a key is the address of the first key of the range
    /// that starts with it, and of the first key past the range that ends
    /// before it.
    pub proof fn lemma_held_first(&self, a: ItemAddr)
        requires
            total_order::<K>(),
            self.occupied(a),
        ensures
            self.first_from(Bound::Included(self.key_at(a)), Some(a)),
            self.first_past(Bound::Excluded(self.key_at(a)), Some(a)),
    {
        let k = self.key_at(a);
        lemma_order_basics(k, k);
        assert forall|c: ItemAddr| #[trigger] self.occupied(c) && !before(self.key_at(c), Bound::Excluded(k)) implies le(
            k,
            self.key_at(c),
        ) by {
            lemma_order_basics(k, self.key_at(c));
        }
    }

    /// Where a key is not in the tree, the first key above it is the first
    /// key of the ranges that start with it or after it, and the first key
    /// past the ranges that end with it or before it.
    pub proof fn lemma_missing_first(&self, k: K, r: Option<ItemAddr>)
        requires
            total_order::<K>(),
            self.next_after(Some(k), r),
            !self.has_key(k),
        ensures
            self.first_from(Bound::Included(k), r),
            self.first_from(Bound::Excluded(k), r),
            self.first_past(Bound::Included(k), r),
            self.first_past(Bound::Excluded(k), r),
    {
        self.lemma_next_first(Some(k), r);
        assert forall|c: ItemAddr| #[trigger] self.occupied(c) implies self.key_at(c) != k by {
            if self.key_at(c) == k {
                assert(self.holds(c, k));
            }
        }
        match r {
            Some(a) => {
                assert forall|c: ItemAddr| #[trigger] self.occupied(c) && !before(self.key_at(c), Bound::Excluded(k))
                    implies le(self.key_at(a), self.key_at(c)) by {
                    lemma_order_basics(k, self.key_at(c));
                    assert(!before(self.key_at(c), Bound::Included(k)));
                }
                lemma_order_basics(k, self.key_at(a));
            },
            None => {
                assert forall|c: ItemAddr| #[trigger] self.occupied(c) implies before(self.key_at(c), Bound::Excluded(k)) by {
                    assert(before(self.key_at(c), Bound::Included(k)));
                }
            },
        }
    }

    /// The item after the gap of a key that is not in the tree holds the
    /// first key above that key.
    pub proof fn lemma_gap_next(&self, a: ItemAddr, k: K, r: Option<ItemAddr>)
        requires
            total_order::<K>(),
            self.shape(),
            self.gap(a, k),
            match r {
                Some(b) => self.occupied(b) && Some(self.key_at(b)) == self.high(a.id, a.offset@),
                None => self.high(a.id, a.offset@) is None,
            },
        ensures
            self.next_after(Some(k), r),
    {
        let x = a.id;
        let o = a.offset@;
        self.lemma_gap_empty(x, o);
        assert(self.node_ok(x));
        let hi = self.high(x, o);
        assert(below(k, hi)) by {
            if o < self.items(x).len() {
                assert(lt(k, self.items(x)[o].key_spec()));
            }
        }
        assert forall|c: ItemAddr| !#[trigger] self.key_between(Some(k), c, hi) by {
            if self.key_between(Some(k), c, hi) {
                if o > 0 {
                    assert(lt(self.items(x)[o - 1].key_spec(), k));
                }
                assert(self.key_between(self.low(x, o), c, hi));
            }
        }
    }

    /// A tree with the same keys at the same addresses has the same first
    /// key of each range and the same first key past it.
    pub proof fn lemma_same_keys(&self, other: Tree<K, V>)
        requires
            forall|c: ItemAddr| #[trigger] other.occupied(c) <==> self.occupied(c),
            forall|c: ItemAddr| #[trigger] self.occupied(c) ==> other.key_at(c) == self.key_at(c),
        ensures
            forall|b: Bound<K>, r: Option<ItemAddr>| #[trigger] self.first_from(b, r) ==> other.first_from(b, r),
            forall|b: Bound<K>, r: Option<ItemAddr>| #[trigger] self.first_past(b, r) ==> other.first_past(b, r),
    {
        assert forall|b: Bound<K>, r: Option<ItemAddr>| #[trigger] self.first_from(b, r) implies other.first_from(b, r) by {
            match r {
                Some(a) => {
                    assert(self.occupied(a));
                    assert forall|c: ItemAddr| #[trigger] other.occupied(c) && after(b, other.key_at(c)) implies le(
                        other.key_at(a),
                        other.key_at(c),
                    ) by {
                        assert(self.occupied(c));
                    }
                },
                None => {
                    assert forall|c: ItemAddr| #[trigger] other.occupied(c) implies !after(b, other.key_at(c)) by {
                        assert(self.occupied(c));
                    }
                },
            }
        }
        assert forall|b: Bound<K>, r: Option<ItemAddr>| #[trigger] self.first_past(b, r) implies other.first_past(b, r) by {
            match r {
                Some(a) => {
                    assert(self.occupied(a));
                    assert forall|c: ItemAddr| #[trigger] other.occupied(c) && !before(other.key_at(c), b) implies le(
                        other.key_at(a),
                        other.key_at(c),
                    ) by {
                        assert(self.occupied(c));
                    }
                },
                None => {
                    assert forall|c: ItemAddr| #[trigger] other.occupied(c) implies before(other.key_at(c), b) by {
                        assert(self.occupied(c));
                    }
                },
            }
        }
    }

    /// In a range with valid bounds, the first key of the range is the
    /// first key past its end exactly when no key lies in the range.
    pub proof fn lemma_range_empty(&self, start: Bound<K>, end: Bound<K>, first: Option<ItemAddr>, past: Option<ItemAddr>)
        requires
            total_order::<K>(),
            self.shape(),
            valid_range(start, end),
            self.first_from(start, first),
            self.first_past(end, past),
        ensures
            first == past <==> forall|c: ItemAddr| #[trigger] self.occupied(c) ==> !in_range(start, end, self.key_at(c)),
            first != past ==> first is Some && in_range(start, end, self.key_at(first->0)),
    {
        lemma_past_is_after(start, end);
        match (first, past) {
            (Some(a), Some(e)) => {
                lemma_order_basics(self.key_at(a), self.key_at(e));
                if a == e {
                    assert forall|c: ItemAddr| #[trigger] self.occupied(c) implies !in_range(start, end, self.key_at(c)) by {
                        if in_range(start, end, self.key_at(c)) {
                            lemma_order_basics(self.key_at(a), self.key_at(c));
                            lemma_before_down(self.key_at(a), self.key_at(c), end);
                        }
                    }
                } else {
                    if !before(self.key_at(a), end) {
                        self.lemma_unique(a, e);
                    }
                    assert(self.occupied(a));
                }
            },
            (Some(a), None) => {
                assert(self.occupied(a));
            },
            (None, Some(e)) => {
                assert(self.occupied(e));
            },
            (None, None) => {},
        }
    }
}

/// With valid bounds, a key past the end of a range lies after its start.
pub proof fn lemma_past_is_after<K: Ord>(start: Bound<K>, end: Bound<K>)
    requires
        total_order::<K>(),
        valid_range(start, end),
    ensures
        forall|k: K| !#[trigger] before(k, end) ==> after(start, k),
{
    assert forall|k: K| !#[trigger] before(k, end) implies after(start, k) by {
        match (start, end) {
            (Bound::Included(s), Bound::Included(e)) => {
                lemma_order_basics(k, e);
            },
            (Bound::Included(s), Bound::Excluded(e)) => {
                lemma_order_basics(k, e);
            },
            (Bound::Excluded(s), Bound::Included(e)) => {
                lemma_order_basics(k, e);
            },
            (Bound::Excluded(s), Bound::Excluded(e)) => {
                lemma_order_basics(k, e);
            },
            _ => {},
        }
    }
}

/// A key at or below a key before the end of a range lies before that end.
pub proof fn lemma_before_down<K: Ord>(a: K, c: K, end: Bound<K>)
    requires
        total_order::<K>(),
        le(a, c),
        before(c, end),
    ensures
        before(a, end),
{
}

/// A key at or above a key after the start of a range lies after that
/// start.
pub proof fn lemma_after_up<K: Ord>(start: Bound<K>, a: K, c: K)
    requires
        total_order::<K>(),
        le(a, c),
        after(start, a),
    ensures
        after(start, c),
{
}

/// Tells whether two addresses, or their absence, are the same.
fn same_addr(a: &Option<ItemAddr>, b: &Option<ItemAddr>) -> (r: bool)
    ensures
        r == (*a == *b),
{
    match (a, b) {
        (Some(x), Some(y)) => x.id == y.id && x.offset.0 == y.offset.0,
        (None, None) => true,
        _ => false,
    }
}

/// An iterator over the bindings of a map whose keys lie in a range, from
/// both ends of the range.
#[verifier::reject_recursive_types(K)]
#[verifier::reject_recursive_types(V)]
#[verifier::reject_recursive_types(C)]
pub struct Range<'a, K, V, C> {
    /// The tree reference.
    btree: &'a BTreeMap<K, V, C>,
    /// Address of the next item.
    addr: Option<ItemAddr>,
    /// Address of the first item past the range.
    end: Option<ItemAddr>,
    /// The bounds of what is left of the range.
    bounds: Ghost<(Bound<K>, Bound<K>)>,
}

impl<'a, K: Ord, V, C: ContainerMut<Node<K, V>>> Range<'a, K, V, C> {
    /// The map that the iterator goes through.
    pub closed spec fn map(&self) -> BTreeMap<K, V, C> {
        *self.btree
    }

    /// The start of what is left of the range.
    pub closed spec fn start(&self) -> Bound<K> {
        self.bounds@.0
    }

    /// The end of what is left of the range.
    pub closed spec fn end(&self) -> Bound<K> {
        self.bounds@.1
    }

    /// The iterator is well formed: it stands at the first key of what is
    /// left of its range.
    pub closed spec fn wf(&self) -> bool {
        &&& self.btree.wf()
        &&& valid_range(self.start(), self.end())
        &&& self.btree.tree().first_from(self.start(), self.addr)
        &&& self.btree.tree().first_past(self.end(), self.end)
    }

    /// The keys that are left: the keys of the map in what is left of the
    /// range.
    pub open spec fn remaining(&self) -> Set<K> {
        self.map()@.dom().filter(|k: K| in_range(self.start(), self.end(), k))
    }

    /// `k` is the first of the keys that are left.
    pub open spec fn is_first(&self, k: K) -> bool {
        self.remaining().contains(k) && forall|q: K| #[trigger] self.remaining().contains(q) ==> le(k, q)
    }

    /// `k` is the last of the keys that are left.
    pub open spec fn is_last(&self, k: K) -> bool {
        self.remaining().contains(k) && forall|q: K| #[trigger] self.remaining().contains(q) ==> le(q, k)
    }

    /// The iterator over the bindings of `btree` whose keys lie in the
    /// range from `start` to `end`.
    pub fn new(btree: &'a BTreeMap<K, V, C>, start: Bound<&K>, end: Bound<&K>) -> (r: Self)
        requires
            total_order::<K>(),
            btree.wf(),
            valid_range(owned(start), owned(end)),
        ensures
            r.wf(),
            r.map() == *btree,
            r.start() == owned(start),
            r.end() == owned(end),
    {
        let (addr, end_addr) = btree.range_ends(start, end);
        Range { btree, addr, end: end_addr, bounds: Ghost((owned(start), owned(end))) }
    }

    /// The keys of the map are the keys of its items.
    proof fn lemma_keys(&self)
        requires
            total_order::<K>(),
            self.wf(),
        ensures
            forall|c: ItemAddr| #[trigger]
                self.btree.tree().occupied(c) ==> self.map()@.dom().contains(self.btree.tree().key_at(c)),
            forall|q: K| #[trigger]
                self.map()@.dom().contains(q) ==> self.btree.tree().holds(self.btree.tree().addr_of(q), q),
    {
        let t = self.btree.tree();
        assert forall|c: ItemAddr| #[trigger] t.occupied(c) implies self.map()@.dom().contains(t.key_at(c)) by {
            t.lemma_view_at(c);
        }
    }

    /// The next binding from the front of the range: the one with the
    /// first of the keys that are left.
    pub fn next(&mut self) -> (r: Option<(&'a K, &'a V)>)
        requires
            total_order::<K>(),
            old(self).wf(),
        ensures
            final(self).wf(),
            final(self).map() == old(self).map(),
            final(self).end() == old(self).end(),
            match r {
                Some((k, v)) => {
                    &&& old(self).is_first(*k)
                    &&& *v == old(self).map()@[*k]
                    &&& final(self).start() == Bound::Excluded(*k)
                    &&& final(self).remaining() == old(self).remaining().remove(*k)
                },
                None => old(self).remaining() =~= Set::<K>::empty() && final(self).start() == old(self).start(),
            },
    {
        let ghost t = self.btree.tree();
        let ghost start = self.start();
        let ghost end = self.end();
        proof {
            t.lemma_range_empty(start, end, self.addr, self.end);
            self.lemma_keys();
        }
        if !same_addr(&self.addr, &self.end) {
            let addr = self.addr.unwrap();
            proof {
                t.lemma_somewhere(addr);
            }
            let item = self.btree.item(addr).unwrap();
            let next = self.btree.next_item_address(addr);
            let ghost k = t.key_at(addr);
            proof {
                t.lemma_view_at(addr);
                t.lemma_next_first(Some(k), next);
                assert forall|q: K| #[trigger] self.remaining().contains(q) implies le(k, q) by {
                    let c = t.addr_of(q);
                    assert(t.occupied(c));
                }
                lemma_order_basics(k, k);
            }
            self.addr = next;
            self.bounds = Ghost((Bound::Excluded(k), end));
            proof {
                assert forall|q: K| self.remaining().contains(q) <==> old(self).remaining().remove(k).contains(q) by {
                    lemma_order_basics(k, q);
                    if old(self).remaining().contains(q) && q != k {
                        assert(le(k, q));
                    }
                }
                assert(self.remaining() =~= old(self).remaining().remove(k));
            }
            Some((item.key(), item.value()))
        } else {
            proof {
                assert forall|q: K| !old(self).remaining().contains(q) by {
                    if old(self).remaining().contains(q) {
                        let c = t.addr_of(q);
                        assert(t.occupied(c));
                    }
                }
            }
            None
        }
    }

    /// The next binding from the back of the range: the one with the last
    /// of the keys that are left.
    pub fn next_back(&mut self) -> (r: Option<(&'a K, &'a V)>)
        requires
            total_order::<K>(),
            old(self).wf(),
        ensures
            final(self).wf(),
            final(self).map() == old(self).map(),
            final(self).start() == old(self).start(),
            match r {
                Some((k, v)) => {
                    &&& old(self).is_last(*k)
                    &&& *v == old(self).map()@[*k]
                    &&& final(self).end() == Bound::Excluded(*k)
                    &&& final(self).remaining() == old(self).remaining().remove(*k)
                },
                None => old(self).remaining() =~= Set::<K>::empty() && final(self).end() == old(self).end(),
            },
    {
        let ghost t = self.btree.tree();
        let ghost start = self.start();
        let ghost end = self.end();
        proof {
            t.lemma_range_empty(start, end, self.addr, self.end);
            self.lemma_keys();
        }
        if !same_addr(&self.addr, &self.end) {
            let ghost first = self.addr->0;
            let ghost kf = t.key_at(first);
            let found = match self.end {
                Some(e) => {
                    proof {
                        t.lemma_somewhere(e);
                    }
                    let found = self.btree.previous_item_address(e);
                    proof {
                        // the first key of the range lies below the first key past it
                        lemma_order_basics(kf, t.key_at(e));
                        if !lt(kf, t.key_at(e)) {
                            lemma_before_down(t.key_at(e), kf, end);
                        }
                        if found is None {
                            assert(t.key_between(None, first, Some(t.key_at(e))));
                        }
                    }
                    found
                },
                None => {
                    let found = self.btree.last_item_address();
                    proof {
                        if found is None {
                            assert(t.key_between(None, first, None));
                        }
                    }
                    found
                },
            };
            let addr = found.unwrap();
            let item = self.btree.item(addr).unwrap();
            let ghost k = t.key_at(addr);
            proof {
                t.lemma_view_at(addr);
                t.lemma_held_first(addr);
                let hi: Option<K> = match self.end {
                    Some(e) => Some(t.key_at(e)),
                    None => None,
                };
                // every key before the end lies below the first key past the end
                assert forall|c: ItemAddr| #[trigger] t.occupied(c) && before(t.key_at(c), end) implies le(
                    t.key_at(c),
                    k,
                ) by {
                    let q = t.key_at(c);
                    lemma_order_basics(q, k);
                    if hi is Some {
                        lemma_order_basics(q, hi->0);
                        if !lt(q, hi->0) {
                            lemma_before_down(hi->0, q, end);
                        }
                    }
                    if lt(k, q) {
                        assert(t.key_between(Some(k), c, hi));
                    }
                }
                assert(before(k, end)) by {
                    if !before(k, end) {
                        if hi is Some {
                            lemma_order_basics(k, hi->0);
                        }
                    }
                }
                assert(le(kf, k));
                lemma_after_up(start, kf, k);
                lemma_order_basics(k, k);
                assert forall|q: K| #[trigger] self.remaining().contains(q) implies le(q, k) by {
                    let c = t.addr_of(q);
                    assert(t.occupied(c));
                }
            }
            self.end = Some(addr);
            self.bounds = Ghost((start, Bound::Excluded(k)));
            proof {
                assert forall|q: K| self.remaining().contains(q) <==> old(self).remaining().remove(k).contains(q) by {
                    lemma_order_basics(k, q);
                    if old(self).remaining().contains(q) && q != k {
                        assert(le(q, k));
                    }
                    if self.remaining().contains(q) {
                        lemma_before_down(q, k, end);
                    }
                }
                assert(self.remaining() =~= old(self).remaining().remove(k));
            }
            Some((item.key(), item.value()))
        } else {
            proof {
                assert forall|q: K| !old(self).remaining().contains(q) by {
                    if old(self).remaining().contains(q) {
                        let c = t.addr_of(q);
                        assert(t.occupied(c));
                    }
                }
            }
            None
        }
    }
}

impl<K: Ord, V, C: ContainerMut<Node<K, V>>> BTreeMap<K, V, C> {
    /// The ends of a range of the map: the address of the first key of the
    /// range from `start` to `end`, and the address of the first key past
    /// it; nothing where there is no such key.
    pub fn range_ends(&self, start: Bound<&K>, end: Bound<&K>) -> (r: (Option<ItemAddr>, Option<ItemAddr>))
        requires
            total_order::<K>(),
            self.wf(),
        ensures
            self.tree().first_from(owned(start), r.0),
            self.tree().first_past(owned(end), r.1),
    {
        let btree = self;
        let ghost t = btree.tree();
        proof {
            if t.root is None {
                assert forall|c: ItemAddr| !t.occupied(c) by {}
            }
        }
        let addr = match start {
            Bound::Included(s) => match btree.address_of(s) {
                Ok(addr) => {
                    proof {
                        t.lemma_held_first(addr);
                    }
                    Some(addr)
                },
                Err(addr) => {
                    let r = btree.normalize(addr);
                    proof {
                        if t.root is Some {
                            t.lemma_somewhere(addr);
                            t.lemma_gap_next(addr, *s, r);
                            t.lemma_missing_first(*s, r);
                        }
                    }
                    r
                },
            },
            Bound::Excluded(s) => match btree.address_of(s) {
                Ok(addr) => {
                    proof {
                        t.lemma_somewhere(addr);
                    }
                    let r = btree.next_item_address(addr);
                    proof {
                        t.lemma_next_first(Some(*s), r);
                    }
                    r
                },
                Err(addr) => {
                    let r = btree.normalize(addr);
                    proof {
                        if t.root is Some {
                            t.lemma_somewhere(addr);
                            t.lemma_gap_next(addr, *s, r);
                            t.lemma_missing_first(*s, r);
                        }
                    }
                    r
                },
            },
            Bound::Unbounded => {
                let r = btree.first_item_address();
                proof {
                    t.lemma_next_first(None, r);
                }
                r
            },
        };
        let end_addr = match end {
            Bound::Included(e) => match btree.address_of(e) {
                Ok(addr) => {
                    proof {
                        t.lemma_somewhere(addr);
                    }
                    let r = btree.next_item_address(addr);
                    proof {
                        t.lemma_next_first(Some(*e), r);
                    }
                    r
                },
                Err(addr) => {
                    let r = btree.normalize(addr);
                    proof {
                        if t.root is Some {
                            t.lemma_somewhere(addr);
                            t.lemma_gap_next(addr, *e, r);
                            t.lemma_missing_first(*e, r);
                        }
                    }
                    r
                },
            },
            Bound::Excluded(e) => match btree.address_of(e) {
                Ok(addr) => {
                    proof {
                        t.lemma_held_first(addr);
                    }
                    Some(addr)
                },
                Err(addr) => {
                    let r = btree.normalize(addr);
                    proof {
                        if t.root is Some {
                            t.lemma_somewhere(addr);
                            t.lemma_gap_next(addr, *e, r);
                            t.lemma_missing_first(*e, r);
                        }
                    }
                    r
                },
            },
            Bound::Unbounded => None,
        };
        (addr, end_addr)
    }
}

/// An iterator over the bindings of a map, from both ends, that knows how
/// many bindings are left.
#[verifier::reject_recursive_types(K)]
#[verifier::reject_recursive_types(V)]
#[verifier::reject_recursive_types(C)]
pub struct Iter<'a, K, V, C> {
    inner: Range<'a, K, V, C>,
    /// Number of bindings left.
    len: usize,
}

impl<'a, K: Ord, V, C: ContainerMut<Node<K, V>>> Iter<'a, K, V, C> {
    /// The map that the iterator goes through.
    pub closed spec fn map(&self) -> BTreeMap<K, V, C> {
        self.inner.map()
    }

    /// The keys that are left.
    pub closed spec fn remaining(&self) -> Set<K> {
        self.inner.remaining()
    }

    /// The number of bindings left, as the iterator has counted them.
    pub closed spec fn count(&self) -> usize {
        self.len
    }

    /// The iterator is well formed: it counts the keys that are left.
    pub closed spec fn wf(&self) -> bool {
        &&& self.inner.wf()
        &&& self.inner.remaining().finite()
        &&& self.len == self.inner.remaining().len()
    }

    /// `k` is the first of the keys that are left.
    pub open spec fn is_first(&self, k: K) -> bool {
        self.remaining().contains(k) && forall|q: K| #[trigger] self.remaining().contains(q) ==> le(k, q)
    }

    /// `k` is the last of the keys that are left.
    pub open spec fn is_last(&self, k: K) -> bool {
        self.remaining().contains(k) && forall|q: K| #[trigger] self.remaining().contains(q) ==> le(q, k)
    }

    /// The keys that are left lie in the map, and there are as many as the
    /// iterator counts.
    pub proof fn lemma_remaining(&self)
        requires
            self.wf(),
        ensures
            self.remaining().finite(),
            self.remaining().len() == self.count(),
            self.remaining().subset_of(self.map()@.dom()),
    {
    }

    /// Iteration is ordered: where `next` yields `k` and leaves the
    /// iterator `after`, every key that is left in `after` is greater than
    /// `k`, so the keys come out in strictly increasing order. From the
    /// back it is the other way round.
    pub proof fn lemma_ordered(&self, after: Self, k: K, q: K)
        requires
            total_order::<K>(),
            after.remaining() == self.remaining().remove(k),
            after.remaining().contains(q),
        ensures
            self.is_first(k) ==> lt(k, q),
            self.is_last(k) ==> lt(q, k),
    {
        assert(self.remaining().contains(q) && q != k);
    }

    /// The iterator over all the bindings of `btree`.
    pub fn new(btree: &'a BTreeMap<K, V, C>) -> (r: Self)
        requires
            total_order::<K>(),
            btree.wf(),
        ensures
            r.wf(),
            r.map() == *btree,
            r.remaining() == btree@.dom(),
            r.count() == btree@.dom().len(),
    {
        let inner = Range::new(btree, Bound::Unbounded, Bound::Unbounded);
        let len = btree.len();
        proof {
            assert(inner.remaining() =~= btree@.dom());
        }
        Iter { inner, len }
    }

    /// The number of bindings left.
    pub fn len(&self) -> (n: usize)
        ensures
            n == self.count(),
    {
        self.len
    }

    /// The bounds on the number of bindings left: that number, twice.
    pub fn size_hint(&self) -> (r: (usize, Option<usize>))
        ensures
            r == (self.count(), Some(self.count())),
    {
        (self.len, Some(self.len))
    }

    /// The next binding from the front: the one with the first of the keys
    /// that are left.
    pub fn next(&mut self) -> (r: Option<(&'a K, &'a V)>)
        requires
            total_order::<K>(),
            old(self).wf(),
        ensures
            final(self).wf(),
            final(self).map() == old(self).map(),
            r is None <==> old(self).count() == 0,
            match r {
                Some((k, v)) => {
                    &&& old(self).is_first(*k)
                    &&& *v == old(self).map()@[*k]
                    &&& final(self).remaining() == old(self).remaining().remove(*k)
                    &&& final(self).count() == old(self).count() - 1
                },
                None => final(self).remaining() == old(self).remaining(),
            },
    {
        if self.len > 0 {
            self.len -= 1;
            let r = self.inner.next();
            proof {
                if r is None {
                    assert(old(self).inner.remaining().len() == 0);
                }
            }
            r
        } else {
            proof {
                self.inner.remaining().lemma_len0_is_empty();
            }
            None
        }
    }

    /// The next binding from the back: the one with the last of the keys
    /// that are left.
    pub fn next_back(&mut self) -> (r: Option<(&'a K, &'a V)>)
        requires
            total_order::<K>(),
            old(self).wf(),
        ensures
            final(self).wf(),
            final(self).map() == old(self).map(),
            r is None <==> old(self).count() == 0,
            match r {
                Some((k, v)) => {
                    &&& old(self).is_last(*k)
                    &&& *v == old(self).map()@[*k]
                    &&& final(self).remaining() == old(self).remaining().remove(*k)
                    &&& final(self).count() == old(self).count() - 1
                },
                None => final(self).remaining() == old(self).remaining(),
            },
    {
        if self.len > 0 {
            self.len -= 1;
            let r = self.inner.next_back();
            proof {
                if r is None {
                    assert(old(self).inner.remaining().len() == 0);
                }
            }
            r
        } else {
            proof {
                self.inner.remaining().lemma_len0_is_empty();
            }
            None
        }
    }
}

/// An iterator over the keys of a map, in order.
#[verifier::reject_recursive_types(K)]
#[verifier::reject_recursive_types(V)]
#[verifier::reject_recursive_types(C)]
pub struct Keys<'a, K, V, C> {
    inner: Iter<'a, K, V, C>,
}

impl<'a, K: Ord, V, C: ContainerMut<Node<K, V>>> Keys<'a, K, V, C> {
    /// The iterator over bindings that this one takes its keys from.
    pub closed spec fn bindings(&self) -> Iter<'a, K, V, C> {
        self.inner
    }

    /// The number of keys left.
    pub fn len(&self) -> (n: usize)
        ensures
            n == self.bindings().count(),
    {
        self.inner.len()
    }

    /// The next key from the front: the first of the keys that are left.
    pub fn next(&mut self) -> (r: Option<&'a K>)
        requires
            total_order::<K>(),
            old(self).bindings().wf(),
        ensures
            final(self).bindings().wf(),
            final(self).bindings().map() == old(self).bindings().map(),
            r is None <==> old(self).bindings().count() == 0,
            match r {
                Some(k) => {
                    &&& old(self).bindings().is_first(*k)
                    &&& final(self).bindings().remaining() == old(self).bindings().remaining().remove(*k)
                    &&& final(self).bindings().count() == old(self).bindings().count() - 1
                },
                None => final(self).bindings().remaining() == old(self).bindings().remaining(),
            },
    {
        match self.inner.next() {
            Some((k, _)) => Some(k),
            None => None,
        }
    }

    /// The next key from the back: the last of the keys that are left.
    pub fn next_back(&mut self) -> (r: Option<&'a K>)
        requires
            total_order::<K>(),
            old(self).bindings().wf(),
        ensures
            final(self).bindings().wf(),
            final(self).bindings().map() == old(self).bindings().map(),
            r is None <==> old(self).bindings().count() == 0,
            match r {
                Some(k) => {
                    &&& old(self).bindings().is_last(*k)
                    &&& final(self).bindings().remaining() == old(self).bindings().remaining().remove(*k)
                    &&& final(self).bindings().count() == old(self).bindings().count() - 1
                },
                None => final(self).bindings().remaining() == old(self).bindings().remaining(),
            },
    {
        match self.inner.next_back() {
            Some((k, _)) => Some(k),
            None => None,
        }
    }
}

/// An iterator over the values of a map, in the order of their keys.
#[verifier::reject_recursive_types(K)]
#[verifier::reject_recursive_types(V)]
#[verifier::reject_recursive_types(C)]
pub struct Values<'a, K, V, C> {
    inner: Iter<'a, K, V, C>,
}

impl<'a, K: Ord, V, C: ContainerMut<Node<K, V>>> Values<'a, K, V, C> {
    /// The iterator over bindings that this one takes its values from.
    pub closed spec fn bindings(&self) -> Iter<'a, K, V, C> {
        self.inner
    }

    /// The number of values left.
    pub fn len(&self) -> (n: usize)
        ensures
            n == self.bindings().count(),
    {
        self.inner.len()
    }

    /// The next value from the front: the one bound to the first of the
    /// keys that are left.
    pub fn next(&mut self) -> (r: Option<&'a V>)
        requires
            total_order::<K>(),
            old(self).bindings().wf(),
        ensures
            final(self).bindings().wf(),
            final(self).bindings().map() == old(self).bindings().map(),
            r is None <==> old(self).bindings().count() == 0,
            match r {
                Some(v) => exists|k: K|
                    {
                        &&& #[trigger] old(self).bindings().is_first(k)
                        &&& *v == old(self).bindings().map()@[k]
                        &&& final(self).bindings().remaining() == old(self).bindings().remaining().remove(k)
                        &&& final(self).bindings().count() == old(self).bindings().count() - 1
                    },
                None => final(self).bindings().remaining() == old(self).bindings().remaining(),
            },
    {
        match self.inner.next() {
            Some((k, v)) => {
                proof {
                    assert(old(self).bindings().is_first(*k));
                }
                Some(v)
            },
            None => None,
        }
    }

    /// The next value from the back: the one bound to the last of the keys
    /// that are left.
    pub fn next_back(&mut self) -> (r: Option<&'a V>)
        requires
            total_order::<K>(),
            old(self).bindings().wf(),
        ensures
            final(self).bindings().wf(),
            final(self).bindings().map() == old(self).bindings().map(),
            r is None <==> old(self).bindings().count() == 0,
            match r {
                Some(v) => exists|k: K|
                    {
                        &&& #[trigger] old(self).bindings().is_last(k)
                        &&& *v == old(self).bindings().map()@[k]
                        &&& final(self).bindings().remaining() == old(self).bindings().remaining().remove(k)
                        &&& final(self).bindings().count() == old(self).bindings().count() - 1
                    },
                None => final(self).bindings().remaining() == old(self).bindings().remaining(),
            },
    {
        match self.inner.next_back() {
            Some((k, v)) => {
                proof {
                    assert(old(self).bindings().is_last(*k));
                }
                Some(v)
            },
            None => None,
        }
    }
}

/// An owning iterator over the bindings of a map, from both ends.
#[verifier::reject_recursive_types(K)]
#[verifier::reject_recursive_types(V)]
#[verifier::reject_recursive_types(C)]
pub struct IntoIter<K, V, C> {
    /// The tree, holding the bindings that are left.
    btree: BTreeMap<K, V, C>,
}

impl<K: Ord, V, C: ContainerMut<Node<K, V>>> IntoIter<K, V, C> {
    /// The bindings that are left.
    pub closed spec fn left(&self) -> BTreeMap<K, V, C> {
        self.btree
    }

    /// The iterator that takes the bindings out of `btree`.
    pub fn new(btree: BTreeMap<K, V, C>) -> (r: Self)
        ensures
            r.left() == btree,
    {
        IntoIter { btree }
    }

    /// The number of bindings left.
    pub fn len(&self) -> (n: usize)
        ensures
            self.left().wf() ==> n == self.left()@.dom().len(),
    {
        self.btree.len()
    }

    /// The next binding from the front: the one with the least of the keys
    /// that are left.
    pub fn next(&mut self) -> (r: Option<(K, V)>)
        requires
            total_order::<K>(),
            old(self).left().wf(),
        ensures
            final(self).left().wf(),
            r is None <==> old(self).left()@.dom().len() == 0,
            r is None ==> final(self).left()@ == old(self).left()@,
            r is Some ==> {
                &&& old(self).left().is_first_key(r.unwrap().0)
                &&& r.unwrap().1 == old(self).left()@[r.unwrap().0]
                &&& final(self).left()@ == old(self).left()@.remove(r.unwrap().0)
            },
    {
        self.btree.pop_first()
    }

    /// The next binding from the back: the one with the greatest of the
    /// keys that are left.
    pub fn next_back(&mut self) -> (r: Option<(K, V)>)
        requires
            total_order::<K>(),
            old(self).left().wf(),
        ensures
            final(self).left().wf(),
            r is None <==> old(self).left()@.dom().len() == 0,
            r is None ==> final(self).left()@ == old(self).left()@,
            r is Some ==> {
                &&& old(self).left().is_last_key(r.unwrap().0)
                &&& r.unwrap().1 == old(self).left()@[r.unwrap().0]
                &&& final(self).left()@ == old(self).left()@.remove(r.unwrap().0)
            },
    {
        self.btree.pop_last()
    }
}

impl<K: Ord, V, C: ContainerMut<Node<K, V>>> BTreeMap<K, V, C> {
    /// Gets an iterator over the entries of the map, sorted by key.
    pub fn iter(&self) -> (r: Iter<'_, K, V, C>)
        requires
            total_order::<K>(),
            self.wf(),
        ensures
            r.wf(),
            r.map() == *self,
            r.remaining() == self@.dom(),
            r.count() == self@.dom().len(),
    {
        Iter::new(self)
    }

    /// Gets an iterator over the keys of the map, in sorted order.
    pub fn keys(&self) -> (r: Keys<'_, K, V, C>)
        requires
            total_order::<K>(),
            self.wf(),
        ensures
            r.bindings().wf(),
            r.bindings().map() == *self,
            r.bindings().remaining() == self@.dom(),
            r.bindings().count() == self@.dom().len(),
    {
        Keys { inner: self.iter() }
    }

    /// Gets an iterator over the values of the map, in order by key.
    pub fn values(&self) -> (r: Values<'_, K, V, C>)
        requires
            total_order::<K>(),
            self.wf(),
        ensures
            r.bindings().wf(),
            r.bindings().map() == *self,
            r.bindings().remaining() == self@.dom(),
            r.bindings().count() == self@.dom().len(),
    {
        Values { inner: self.iter() }
    }

    /// Constructs a double-ended iterator over a sub-range of elements in
    /// the map: those whose keys lie between `start` and `end`.
    ///
    /// The bounds must be those of a range: the start must not lie after
    /// the end, nor may the two exclude the same key.
    pub fn range<'a>(&'a self, start: Bound<&K>, end: Bound<&K>) -> (r: Range<'a, K, V, C>)
        requires
            total_order::<K>(),
            self.wf(),
            valid_range(owned(start), owned(end)),
        ensures
            r.wf(),
            r.map() == *self,
            r.start() == owned(start),
            r.end() == owned(end),
    {
        Range::new(self, start, end)
    }

    /// Creates a consuming iterator visiting all the bindings, in the
    /// order of their keys.
    pub fn into_iter(self) -> (r: IntoIter<K, V, C>)
        ensures
            r.left() == self,
    {
        IntoIter::new(self)
    }

    /// Creates a consuming iterator visiting all the keys, in sorted
    /// order.
    pub fn into_keys(self) -> (r: IntoKeys<K, V, C>)
        ensures
            r.bindings().left() == self,
    {
        IntoKeys { inner: self.into_iter() }
    }

    /// Creates a consuming iterator visiting all the values, in order by
    /// key.
    pub fn into_values(self) -> (r: IntoValues<K, V, C>)
        ensures
            r.bindings().left() == self,
    {
        IntoValues { inner: self.into_iter() }
    }
}

/// An owning iterator over the keys of a map, in order.
#[verifier::reject_recursive_types(K)]
#[verifier::reject_recursive_types(V)]
#[verifier::reject_recursive_types(C)]
pub struct IntoKeys<K, V, C> {
    inner: IntoIter<K, V, C>,
}

impl<K: Ord, V, C: ContainerMut<Node<K, V>>> IntoKeys<K, V, C> {
    /// The iterator over bindings that this one takes its keys from.
    pub closed spec fn bindings(&self) -> IntoIter<K, V, C> {
        self.inner
    }

    /// The next key from the front: the least of the keys that are left.
    pub fn next(&mut self) -> (r: Option<K>)
        requires
            total_order::<K>(),
            old(self).bindings().left().wf(),
        ensures
            final(self).bindings().left().wf(),
            r is None <==> old(self).bindings().left()@.dom().len() == 0,
            r is None ==> final(self).bindings().left()@ == old(self).bindings().left()@,
            r is Some ==> old(self).bindings().left().is_first_key(r->0) && final(self).bindings().left()@ == old(self).bindings().left()@.remove(r->0),
    {
        match self.inner.next() {
            Some((k, _)) => Some(k),
            None => None,
        }
    }

    /// The next key from the back: the greatest of the keys that are left.
    pub fn next_back(&mut self) -> (r: Option<K>)
        requires
            total_order::<K>(),
            old(self).bindings().left().wf(),
        ensures
            final(self).bindings().left().wf(),
            r is None <==> old(self).bindings().left()@.dom().len() == 0,
            r is None ==> final(self).bindings().left()@ == old(self).bindings().left()@,
            r is Some ==> old(self).bindings().left().is_last_key(r->0) && final(self).bindings().left()@ == old(self).bindings().left()@.remove(r->0),
    {
        match self.inner.next_back() {
            Some((k, _)) => Some(k),
            None => None,
        }
    }
}

/// An owning iterator over the values of a map, in the order of their
/// keys.
#[verifier::reject_recursive_types(K)]
#[verifier::reject_recursive_types(V)]
#[verifier::reject_recursive_types(C)]
pub struct IntoValues<K, V, C> {
    inner: IntoIter<K, V, C>,
}

impl<K: Ord, V, C: ContainerMut<Node<K, V>>> IntoValues<K, V, C> {
    /// The iterator over bindings that this one takes its values from.
    pub closed spec fn bindings(&self) -> IntoIter<K, V, C> {
        self.inner
    }

    /// The next value from the front: the one bound to the least of the
    /// keys that are left.
    pub fn next(&mut self) -> (r: Option<V>)
        requires
            total_order::<K>(),
            old(self).bindings().left().wf(),
        ensures
            final(self).bindings().left().wf(),
            r is None <==> old(self).bindings().left()@.dom().len() == 0,
            r is None ==> final(self).bindings().left()@ == old(self).bindings().left()@,
            r is Some ==> exists|k: K|
                {
                    &&& #[trigger] old(self).bindings().left().is_first_key(k)
                    &&& r->0 == old(self).bindings().left()@[k]
                    &&& final(self).bindings().left()@ == old(self).bindings().left()@.remove(k)
                },
    {
        match self.inner.next() {
            Some((k, v)) => {
                proof {
                    assert(old(self).bindings().left().is_first_key(k));
                }
                Some(v)
            },
            None => None,
        }
    }

    /// The next value from the back: the one bound to the greatest of the
    /// keys that are left.
    pub fn next_back(&mut self) -> (r: Option<V>)
        requires
            total_order::<K>(),
            old(self).bindings().left().wf(),
        ensures
            final(self).bindings().left().wf(),
            r is None <==> old(self).bindings().left()@.dom().len() == 0,
            r is None ==> final(self).bindings().left()@ == old(self).bindings().left()@,
            r is Some ==> exists|k: K|
                {
                    &&& #[trigger] old(self).bindings().left().is_last_key(k)
                    &&& r->0 == old(self).bindings().left()@[k]
                    &&& final(self).bindings().left()@ == old(self).bindings().left()@.remove(k)
                },
    {
        match self.inner.next_back() {
            Some((k, v)) => {
                proof {
                    assert(old(self).bindings().left().is_last_key(k));
                }
                Some(v)
            },
            None => None,
        }
    }
}

} // verus!
