//! Set based on a B-Tree.
use vstd::prelude::*;
use crate::container::{Container, ContainerMut};
use crate::generic::map::range::{owned, valid_range};
use crate::generic::map::cursor::tells;
use crate::generic::map::{Bound, BTreeMap, DrainFilter, IntoKeys, Keys, Range};
use crate::generic::node::Node;
use crate::utils::{key_eq, key_lt, le, lemma_order_basics, lt, total_order};

verus! {

/// A set based on a B-Tree.
///
/// See [`BTreeMap`]'s documentation for a detailed discussion of this
/// collection's performance benefits and drawbacks.
///
/// It is a logic error for an item to be modified in such a way that the
/// item's ordering relative to any other item, as determined by the `Ord`
/// trait, changes while it is in the set.
#[derive(Clone)]
#[verifier::reject_recursive_types(T)]
#[verifier::reject_recursive_types(C)]
pub struct BTreeSet<T, C> {
    map: BTreeMap<T, (), C>,
}

impl<T: Ord, C: ContainerMut<Node<T, ()>>> View for BTreeSet<T, C> {
    type V = Set<T>;

    /// The set as a mathematical set.
    closed spec fn view(&self) -> Set<T> {
        self.map@.dom()
    }
}

impl<T: Ord, C: ContainerMut<Node<T, ()>>> BTreeSet<T, C> {
    /// The map that holds the elements of the set as its keys.
    pub closed spec fn as_map(&self) -> BTreeMap<T, (), C> {
        self.map
    }

    /// The set is well formed: the map of its elements is.
    pub closed spec fn wf(&self) -> bool {
        self.map.wf()
    }

    /// The elements of a set are the keys of its map, and a well-formed
    /// set has finitely many.
    pub proof fn lemma_view(&self)
        ensures
            self@ == self.as_map()@.dom(),
            self.wf() == self.as_map().wf(),
            self.wf() ==> self@.finite(),
    {
    }

    /// `x` is the least element of the set.
    pub open spec fn is_first(&self, x: T) -> bool {
        self@.contains(x) && forall|q: T| #[trigger] self@.contains(q) ==> q == x || lt(x, q)
    }

    /// `x` is the greatest element of the set.
    pub open spec fn is_last(&self, x: T) -> bool {
        self@.contains(x) && forall|q: T| #[trigger] self@.contains(q) ==> q == x || lt(q, x)
    }

    /// Makes a new, empty `BTreeSet`.
    pub fn new() -> (set: Self)
        ensures
            set.wf(),
            set@ == Set::<T>::empty(),
    {
        let set = BTreeSet { map: BTreeMap::new() };
        proof {
            assert(set@ =~= Set::<T>::empty());
        }
        set
    }

    /// Returns the number of elements in the set.
    pub fn len(&self) -> (n: usize)
        ensures
            self.wf() ==> n == self@.len(),
    {
        self.map.len()
    }

    /// Returns `true` if the set contains no elements.
    pub fn is_empty(&self) -> (r: bool)
        requires
            self.wf(),
        ensures
            r == (self@.len() == 0),
            r == (self@ =~= Set::<T>::empty()),
    {
        proof {
            if self@.len() == 0 {
                self@.lemma_len0_is_empty();
            }
        }
        self.len() == 0
    }

    /// Gets an iterator that visits the values in the set in ascending
    /// order.
    pub fn iter(&self) -> (r: Keys<'_, T, (), C>)
        requires
            total_order::<T>(),
            self.wf(),
        ensures
            r.bindings().wf(),
            r.bindings().map() == self.as_map(),
            r.bindings().remaining() == self@,
            r.bindings().count() == self@.len(),
    {
        self.map.keys()
    }

    /// Returns `true` if the set contains a value.
    pub fn contains(&self, value: &T) -> (r: bool)
        requires
            total_order::<T>(),
            self.wf(),
        ensures
            r == self@.contains(*value),
    {
        self.map.contains_key(value)
    }

    /// Returns a reference to the value in the set, if any, that is equal
    /// to the given value.
    pub fn get(&self, value: &T) -> (r: Option<&T>)
        requires
            total_order::<T>(),
            self.wf(),
        ensures
            r == (if self@.contains(*value) {
                Some(value)
            } else {
                None
            }),
    {
        match self.map.get_key_value(value) {
            Some((t, _)) => Some(t),
            None => None,
        }
    }

    /// Constructs a double-ended iterator over a sub-range of elements in
    /// the set: those that lie between `start` and `end`.
    pub fn range<'a>(&'a self, start: Bound<&T>, end: Bound<&T>) -> (r: Range<'a, T, (), C>)
        requires
            total_order::<T>(),
            self.wf(),
            valid_range(owned(start), owned(end)),
        ensures
            r.wf(),
            r.map() == self.as_map(),
            r.start() == owned(start),
            r.end() == owned(end),
    {
        self.map.range(start, end)
    }

    /// Returns a reference to the first value in the set, if any. This
    /// value is always the minimum of all values in the set.
    pub fn first(&self) -> (r: Option<&T>)
        requires
            total_order::<T>(),
            self.wf(),
        ensures
            r is None <==> self@.len() == 0,
            r is Some ==> self.is_first(*r->0),
    {
        match self.map.first_key_value() {
            Some((k, _)) => Some(k),
            None => None,
        }
    }

    /// Returns a reference to the last value in the set, if any. This
    /// value is always the maximum of all values in the set.
    pub fn last(&self) -> (r: Option<&T>)
        requires
            total_order::<T>(),
            self.wf(),
        ensures
            r is None <==> self@.len() == 0,
            r is Some ==> self.is_last(*r->0),
    {
        match self.map.last_key_value() {
            Some((k, _)) => Some(k),
            None => None,
        }
    }

    /// Clears the set, removing all values.
    pub fn clear(&mut self)
        ensures
            final(self).wf(),
            final(self)@ == Set::<T>::empty(),
    {
        self.map.clear();
        proof {
            assert(self@ =~= Set::<T>::empty());
        }
    }

    /// Adds a value to the set.
    ///
    /// If the set did not have this value present, `true` is returned. If
    /// the set did have this value present, `false` is returned, and the
    /// entry is not updated.
    pub fn insert(&mut self, element: T) -> (r: bool)
        requires
            total_order::<T>(),
            old(self).wf(),
            old(self)@.contains(element) || old(self)@.len() < usize::MAX,
        ensures
            final(self).wf(),
            final(self)@ == old(self)@.insert(element),
            r == !old(self)@.contains(element),
    {
        let r = self.map.insert(element, ()).is_none();
        proof {
            assert(self@ =~= old(self)@.insert(element));
        }
        r
    }

    /// Removes a value from the set. Returns whether the value was present
    /// in the set.
    pub fn remove(&mut self, value: &T) -> (r: bool)
        requires
            total_order::<T>(),
            old(self).wf(),
        ensures
            final(self).wf(),
            final(self)@ == old(self)@.remove(*value),
            r == old(self)@.contains(*value),
    {
        let r = self.map.remove(value).is_some();
        proof {
            assert(self@ =~= old(self)@.remove(*value));
        }
        r
    }

    /// Removes and returns the value in the set, if any, that is equal to
    /// the given one.
    pub fn take(&mut self, value: &T) -> (r: Option<T>)
        requires
            total_order::<T>(),
            old(self).wf(),
        ensures
            final(self).wf(),
            final(self)@ == old(self)@.remove(*value),
            r == (if old(self)@.contains(*value) {
                Some(*value)
            } else {
                None
            }),
    {
        let r = match self.map.take(value) {
            Some((t, _)) => Some(t),
            None => None,
        };
        proof {
            assert(self@ =~= old(self)@.remove(*value));
        }
        r
    }

    /// Adds a value to the set, replacing the existing value, if any, that
    /// is equal to the given one. Returns the replaced value.
    pub fn replace(&mut self, value: T) -> (r: Option<T>)
        requires
            total_order::<T>(),
            old(self).wf(),
            old(self)@.contains(value) || old(self)@.len() < usize::MAX,
        ensures
            final(self).wf(),
            final(self)@ == old(self)@.insert(value),
            r == (if old(self)@.contains(value) {
                Some(value)
            } else {
                None
            }),
    {
        let r = match self.map.replace(value, ()) {
            Some((t, _)) => Some(t),
            None => None,
        };
        proof {
            assert(self@ =~= old(self)@.insert(value));
        }
        r
    }

    /// Removes the first value from the set and returns it, if any. The
    /// first value is always the minimum value in the set.
    pub fn pop_first(&mut self) -> (r: Option<T>)
        requires
            total_order::<T>(),
            old(self).wf(),
        ensures
            final(self).wf(),
            r is None <==> old(self)@.len() == 0,
            r is None ==> final(self)@ == old(self)@,
            r is Some ==> old(self).is_first(r->0) && final(self)@ == old(self)@.remove(r->0),
    {
        let r = match self.map.pop_first() {
            Some(kv) => Some(kv.0),
            None => None,
        };
        proof {
            if r is Some {
                assert(self@ =~= old(self)@.remove(r->0));
            }
        }
        r
    }

    /// Removes the last value from the set and returns it, if any. The
    /// last value is always the maximum value in the set.
    pub fn pop_last(&mut self) -> (r: Option<T>)
        requires
            total_order::<T>(),
            old(self).wf(),
        ensures
            final(self).wf(),
            r is None <==> old(self)@.len() == 0,
            r is None ==> final(self)@ == old(self)@,
            r is Some ==> old(self).is_last(r->0) && final(self)@ == old(self)@.remove(r->0),
    {
        let r = match self.map.pop_last() {
            Some(kv) => Some(kv.0),
            None => None,
        };
        proof {
            if r is Some {
                assert(self@ =~= old(self)@.remove(r->0));
            }
        }
        r
    }

    /// Moves all elements from `other` into `self`, leaving `other` empty.
    pub fn append(&mut self, other: &mut Self)
        requires
            total_order::<T>(),
            old(self).wf(),
            old(other).wf(),
            old(self)@.len() + old(other)@.len() <= usize::MAX,
        ensures
            final(self).wf(),
            final(other).wf(),
            final(self)@ == old(self)@.union(old(other)@),
            final(other)@ == Set::<T>::empty(),
    {
        self.map.append(&mut other.map);
        proof {
            assert(self@ =~= old(self)@.union(old(other)@));
            assert(other@ =~= Set::<T>::empty());
        }
    }

    /// Creates a consuming iterator visiting all the values, in sorted
    /// order.
    pub fn into_iter(self) -> (r: IntoKeys<T, (), C>)
        ensures
            r.bindings().left() == self.as_map(),
    {
        self.map.into_keys()
    }

    /// Retains only the elements specified by the predicate: removes
    /// every element of which `f` tells `false`.
    pub fn retain<F: Fn(&T) -> bool>(&mut self, f: F)
        requires
            total_order::<T>(),
            old(self).wf(),
            forall|x: T| #[trigger] call_requires(f, (&x,)),
        ensures
            final(self).wf(),
            final(self)@.subset_of(old(self)@),
            forall|x: T| #[trigger] final(self)@.contains(x) ==> call_ensures(f, (&x,), true),
            forall|x: T| #[trigger] old(self)@.contains(x) && !final(self)@.contains(x) ==> call_ensures(f, (&x,), false),
    {
        let g = &f;
        let on_key = |k: &T, v: &()| -> (b: bool)
            requires
                call_requires(g, (k,)),
            ensures
                call_ensures(g, (k,), b),
            { g(k) };
        self.map.retain(on_key);
    }

    /// Takes out of the set every element of which `pred` tells `true`,
    /// and returns the elements taken out, in ascending order. The
    /// predicate is asked of every element once.
    pub fn drain_filter<F: Fn(&T) -> bool>(&mut self, pred: F) -> (r: DrainFilter<T, ()>)
        requires
            total_order::<T>(),
            old(self).wf(),
            forall|x: T| #[trigger] call_requires(pred, (&x,)),
        ensures
            final(self).wf(),
            final(self)@.subset_of(old(self)@),
            forall|x: T| #[trigger] final(self)@.contains(x) ==> call_ensures(pred, (&x,), false),
            forall|x: T|
                #[trigger] old(self)@.contains(x) && !final(self)@.contains(x) ==> call_ensures(pred, (&x,), true)
                    && r.left().contains((x, ())),
            forall|i: int| 0 <= i < r.left().len() ==> old(self)@.contains((#[trigger] r.left()[i]).0) && !final(self)@.contains(r.left()[i].0),
            forall|i: int, j: int|
                0 <= i < j < r.left().len() ==> lt((#[trigger] r.left()[i]).0, (#[trigger] r.left()[j]).0),
    {
        let g = &pred;
        let on_key = |k: &T, v: &()| -> (b: bool)
            requires
                call_requires(g, (k,)),
            ensures
                call_ensures(g, (k,), b),
            { g(k) };
        let r = self.map.drain_filter(on_key);
        proof {
            assert forall|x: T| #[trigger] old(self)@.contains(x) && !self@.contains(x) implies call_ensures(
                pred,
                (&x,),
                true,
            ) && r.left().contains((x, ())) by {
                assert(old(self).map@.dom().contains(x));
                assert(tells(on_key, x, (), true));
                let i = choose|i: int| 0 <= i < r.left().len() && #[trigger] r.left()[i] == (x, old(self).map@[x]);
                assert(r.left()[i] == (x, ()));
            }
            assert forall|x: T| #[trigger] self@.contains(x) implies call_ensures(pred, (&x,), false) by {
                assert(self.map@.dom().contains(x));
                assert(tells(on_key, x, (), false));
            }
        }
        r
    }

    /// Adds each of the values to the set.
    pub fn extend(&mut self, items: Vec<T>)
        requires
            total_order::<T>(),
            old(self).wf(),
            old(self)@.len() + items@.len() <= usize::MAX,
        ensures
            final(self).wf(),
            forall|x: T| final(self)@.contains(x) <==> old(self)@.contains(x) || items@.contains(x),
    {
        let mut items = items;
        let ghost all = items@;
        while items.len() > 0
            invariant
                total_order::<T>(),
                self.wf(),
                self@.len() + items@.len() <= usize::MAX,
                items@.len() <= all.len(),
                items@ =~= all.subrange(0, items@.len() as int),
                forall|x: T| self@.contains(x) <==> old(self)@.contains(x) || in_tail(all, items@.len() as int, x),
            decreases items@.len(),
        {
            let ghost n = items@.len() as int;
            let ghost set = self@;
            let x = items.pop().unwrap();
            proof {
                self.lemma_view();
                assert(all[n - 1] == x);
            }
            self.insert(x);
            proof {
                assert forall|y: T| self@.contains(y) <==> old(self)@.contains(y) || in_tail(all, n - 1, y) by {
                    if in_tail(all, n - 1, y) {
                        let i = choose|i: int| n - 1 <= i < all.len() && all[i] == y;
                        if i >= n {
                            assert(in_tail(all, n, y));
                        }
                    }
                    if in_tail(all, n, y) {
                        let i = choose|i: int| n <= i < all.len() && all[i] == y;
                        assert(n - 1 <= i < all.len() && all[i] == y);
                    }
                }
            }
        }
        proof {
            assert forall|x: T| in_tail(all, 0, x) <==> all.contains(x) by {
                if all.contains(x) {
                    let i = choose|i: int| 0 <= i < all.len() && all[i] == x;
                    assert(0 <= i < all.len() && all[i] == x);
                }
            }
        }
    }

    /// The set of the values.
    pub fn from_iter(items: Vec<T>) -> (set: Self)
        requires
            total_order::<T>(),
        ensures
            set.wf(),
            forall|x: T| set@.contains(x) <==> items@.contains(x),
    {
        let mut set = BTreeSet::new();
        let n = items.len();
        set.extend(items);
        set
    }
}

/// `x` is one of the elements of `s` from the index `from` on.
pub open spec fn in_tail<T>(s: Seq<T>, from: int, x: T) -> bool {
    exists|i: int| from <= i < s.len() && s[i] == x
}

impl<T: Ord, C: ContainerMut<Node<T, ()>>> Default for BTreeSet<T, C> {
    fn default() -> (set: Self)
        ensures
            set.wf(),
            set@ == Set::<T>::empty(),
    {
        BTreeSet::new()
    }
}

/// Elements picked from two sets, in ascending order.
pub struct Selection<'a, T> {
    /// The elements, last first.
    items: Vec<&'a T>,
}

/// The elements of two sets that are in one of them at least.
pub type Union<'a, T> = Selection<'a, T>;

/// The elements of two sets that are in both.
pub type Intersection<'a, T> = Selection<'a, T>;

/// The elements of a set that are not in another.
pub type Difference<'a, T> = Selection<'a, T>;

/// The elements of two sets that are in one of them only.
pub type SymmetricDifference<'a, T> = Selection<'a, T>;

/// The values that the references of `s` refer to.
pub open spec fn values_of<T>(s: Seq<&T>) -> Seq<T> {
    Seq::new(s.len(), |i: int| *s[i])
}

/// The elements of `s` are strictly increasing.
pub open spec fn increasing<T: Ord>(s: Seq<T>) -> bool {
    forall|i: int, j: int| 0 <= i < j < s.len() ==> lt(#[trigger] s[i], #[trigger] s[j])
}

impl<'a, T> Selection<'a, T> {
    /// The elements that are left, in ascending order.
    pub closed spec fn left(&self) -> Seq<T> {
        values_of(self.items@.reverse())
    }

    /// The number of elements that are left.
    pub fn len(&self) -> (n: usize)
        ensures
            n == self.left().len(),
    {
        self.items.len()
    }

    /// The next of the elements.
    pub fn next(&mut self) -> (r: Option<&'a T>)
        ensures
            r is None <==> old(self).left().len() == 0,
            r is None ==> final(self).left() == old(self).left(),
            r is Some ==> *r->0 == old(self).left()[0] && final(self).left() == old(self).left().subrange(
                1,
                old(self).left().len() as int,
            ),
    {
        let ghost before = self.items@;
        let r = self.items.pop();
        proof {
            if r is Some {
                assert(self.left() =~= old(self).left().subrange(1, before.len() as int));
            }
        }
        r
    }
}

/// Tells which of two heads come first: the first one, the second one, or
/// both where they are the same; none where there is none.
fn first_of<T: Ord>(h1: &Option<&T>, h2: &Option<&T>) -> (r: (bool, bool))
    requires
        total_order::<T>(),
    ensures
        r.0 ==> *h1 is Some,
        r.1 ==> *h2 is Some,
        *h1 is None && *h2 is None ==> !r.0 && !r.1,
        *h1 is Some && *h2 is None ==> r.0,
        *h1 is None && *h2 is Some ==> r.1,
        *h1 is Some && *h2 is Some ==> r.0 == le(*(*h1)->0, *(*h2)->0) && r.1 == le(*(*h2)->0, *(*h1)->0),
{
    match (h1, h2) {
        (None, None) => (false, false),
        (Some(_), None) => (true, false),
        (None, Some(_)) => (false, true),
        (Some(a), Some(b)) => {
            proof {
                lemma_order_basics(**a, **b);
            }
            if key_lt(a, b) {
                (true, false)
            } else if key_lt(b, a) {
                (false, true)
            } else {
                (true, true)
            }
        },
    }
}

/// Whether an element is picked, by the sets that it is in: `left` picks
/// the elements of the first set only, `both` those of both sets, and
/// `right` those of the second set only.
pub open spec fn picked(in_first: bool, in_second: bool, left: bool, both: bool, right: bool) -> bool {
    (in_first && !in_second && left) || (in_first && in_second && both) || (!in_first && in_second && right)
}

/// `x` is what `head` refers to, or one of `rest`.
pub open spec fn ahead<T>(head: Option<&T>, rest: Set<T>, x: T) -> bool {
    head == Some(&x) || rest.contains(x)
}

impl<T: Ord, C: ContainerMut<Node<T, ()>>> BTreeSet<T, C> {
    /// Goes through the elements of two sets side by side, in ascending
    /// order, and picks each element by the sets that it is in.
    fn select<'a, D: ContainerMut<Node<T, ()>>>(
        &'a self,
        other: &'a BTreeSet<T, D>,
        left: bool,
        both: bool,
        right: bool,
    ) -> (r: Selection<'a, T>)
        requires
            total_order::<T>(),
            self.wf(),
            other.wf(),
        ensures
            increasing(r.left()),
            forall|x: T| r.left().contains(x) <==> picked(self@.contains(x), other@.contains(x), left, both, right),
    {
        let ghost s1 = self@;
        let ghost s2 = other@;
        let mut it1 = self.iter();
        let mut it2 = other.iter();
        let mut h1 = it1.next();
        let mut h2 = it2.next();
        let mut out: Vec<&'a T> = Vec::new();
        proof {
            it1.bindings().lemma_remaining();
            it2.bindings().lemma_remaining();
        }
        loop
            invariant
                total_order::<T>(),
                it1.bindings().wf(),
                it2.bindings().wf(),
                forall|x: T| #[trigger] ahead(h1, it1.bindings().remaining(), x) ==> s1.contains(x),
                forall|x: T| #[trigger] ahead(h2, it2.bindings().remaining(), x) ==> s2.contains(x),
                h1 is Some ==> forall|q: T| #[trigger] it1.bindings().remaining().contains(q) ==> lt(*h1->0, q),
                h2 is Some ==> forall|q: T| #[trigger] it2.bindings().remaining().contains(q) ==> lt(*h2->0, q),
                h1 is None ==> it1.bindings().count() == 0,
                h2 is None ==> it2.bindings().count() == 0,
                forall|p: T, q: T|
                    (s1.contains(p) && !ahead(h1, it1.bindings().remaining(), p) || s2.contains(p) && !ahead(
                        h2,
                        it2.bindings().remaining(),
                        p,
                    )) && (#[trigger] ahead(h1, it1.bindings().remaining(), q) || #[trigger] ahead(
                        h2,
                        it2.bindings().remaining(),
                        q,
                    )) ==> #[trigger] lt(p, q),
                forall|x: T|
                    values_of(out@).contains(x) <==> (s1.contains(x) && !ahead(h1, it1.bindings().remaining(), x)
                        || s2.contains(x) && !ahead(h2, it2.bindings().remaining(), x)) && picked(
                        s1.contains(x),
                        s2.contains(x),
                        left,
                        both,
                        right,
                    ),
                increasing(values_of(out@)),
            ensures
                h1 is None,
                h2 is None,
                it1.bindings().count() == 0,
                it2.bindings().count() == 0,
                it1.bindings().wf(),
                it2.bindings().wf(),
                forall|x: T|
                    values_of(out@).contains(x) <==> (s1.contains(x) && !ahead(h1, it1.bindings().remaining(), x)
                        || s2.contains(x) && !ahead(h2, it2.bindings().remaining(), x)) && picked(
                        s1.contains(x),
                        s2.contains(x),
                        left,
                        both,
                        right,
                    ),
                increasing(values_of(out@)),
            decreases
                    it1.bindings().count() + it2.bindings().count() + (if h1 is Some {
                        1int
                    } else {
                        0int
                    }) + (if h2 is Some {
                        1int
                    } else {
                        0int
                    }),
        {
            let ghost r1 = it1.bindings().remaining();
            let ghost r2 = it2.bindings().remaining();
            let ghost g1 = h1;
            let ghost g2 = h2;
            let ghost before = values_of(out@);
            // which of the two heads comes first
            let (take_first, take_second) = first_of(&h1, &h2);
            if !take_first && !take_second {
                break ;
            }
            proof {
                it1.bindings().lemma_remaining();
                it2.bindings().lemma_remaining();
                if g1 is None {
                    r1.lemma_len0_is_empty();
                }
                if g2 is None {
                    r2.lemma_len0_is_empty();
                }
                if g1 is Some && g2 is Some {
                    lemma_order_basics(*g1->0, *g2->0);
                }
            }
            let ghost x: T = if take_first {
                *h1->0
            } else {
                *h2->0
            };
            proof {
                lemma_order_basics(x, x);
                assert(take_first ==> ahead(g1, r1, x));
                assert(take_second ==> ahead(g2, r2, x));
                // the element taken is in the sets that it is taken from only
                if take_first && !take_second && s2.contains(x) {
                    if ahead(g2, r2, x) {
                        if g2 is Some {
                            lemma_order_basics(x, *g2->0);
                        }
                    } else {
                        assert(lt(x, x));
                    }
                }
                if take_second && !take_first && s1.contains(x) {
                    if ahead(g1, r1, x) {
                        if g1 is Some {
                            lemma_order_basics(x, *g1->0);
                        }
                    } else {
                        assert(lt(x, x));
                    }
                }
                assert(s1.contains(x) == take_first);
                assert(s2.contains(x) == take_second);
                // it comes before all that is ahead, and after all that has been taken
                assert forall|q: T| (ahead(g1, r1, q) || ahead(g2, r2, q)) && q != x implies lt(x, q) by {
                    lemma_order_basics(x, q);
                    if g1 is Some {
                        lemma_order_basics(*g1->0, q);
                    }
                    if g2 is Some {
                        lemma_order_basics(*g2->0, q);
                    }
                }
                assert forall|i: int| 0 <= i < before.len() implies lt(#[trigger] before[i], x) by {
                    assert(before.contains(before[i]));
                    if take_first {
                        assert(ahead(g1, r1, x));
                    } else {
                        assert(ahead(g2, r2, x));
                    }
                }
            }
            let pick = if take_first && take_second {
                both
            } else if take_first {
                left
            } else {
                right
            };
            if pick {
                if take_first {
                    out.push(h1.unwrap());
                } else {
                    out.push(h2.unwrap());
                }
                proof {
                    assert(values_of(out@) =~= before.push(x));
                }
            }
            if take_first {
                h1 = it1.next();
                proof {
                    it1.bindings().lemma_remaining();
                }
            }
            if take_second {
                h2 = it2.next();
                proof {
                    it2.bindings().lemma_remaining();
                }
            }
            proof {
                let n1 = it1.bindings().remaining();
                let n2 = it2.bindings().remaining();
                // what is ahead now is what was ahead but the element taken
                assert forall|q: T| ahead(h1, n1, q) <==> ahead(g1, r1, q) && !(take_first && q == x) by {
                    if take_first {
                        if h1 is Some {
                            lemma_order_basics(*h1->0, q);
                            lemma_order_basics(*h1->0, x);
                        }
                        if r1.contains(q) {
                            assert(lt(x, q));
                        }
                    }
                }
                assert forall|q: T| ahead(h2, n2, q) <==> ahead(g2, r2, q) && !(take_second && q == x) by {
                    if take_second {
                        if h2 is Some {
                            lemma_order_basics(*h2->0, q);
                            lemma_order_basics(*h2->0, x);
                        }
                        if r2.contains(q) {
                            assert(lt(x, q));
                        }
                    }
                }
                assert forall|q: T| #[trigger] ahead(h1, n1, q) implies s1.contains(q) by {
                    assert(ahead(g1, r1, q));
                }
                assert forall|q: T| #[trigger] ahead(h2, n2, q) implies s2.contains(q) by {
                    assert(ahead(g2, r2, q));
                }
                if h1 is Some {
                    assert forall|q: T| #[trigger] n1.contains(q) implies lt(*h1->0, q) by {
                        if take_first {
                            assert(r1.contains(q));
                            lemma_order_basics(*h1->0, q);
                        } else {
                            assert(r1.contains(q));
                        }
                    }
                }
                if h2 is Some {
                    assert forall|q: T| #[trigger] n2.contains(q) implies lt(*h2->0, q) by {
                        if take_second {
                            assert(r2.contains(q));
                            lemma_order_basics(*h2->0, q);
                        } else {
                            assert(r2.contains(q));
                        }
                    }
                }
                assert forall|p: T, q: T|
                    (s1.contains(p) && !ahead(h1, n1, p) || s2.contains(p) && !ahead(h2, n2, p)) && (#[trigger] ahead(
                        h1,
                        n1,
                        q,
                    ) || #[trigger] ahead(h2, n2, q)) implies #[trigger] lt(p, q) by {
                    assert(ahead(g1, r1, q) || ahead(g2, r2, q));
                    assert(q != x);
                    if p == x {
                    } else {
                        assert(s1.contains(p) && !ahead(g1, r1, p) || s2.contains(p) && !ahead(g2, r2, p));
                    }
                }
                assert forall|y: T|
                    values_of(out@).contains(y) <==> (s1.contains(y) && !ahead(h1, n1, y) || s2.contains(y) && !ahead(
                        h2,
                        n2,
                        y,
                    )) && picked(s1.contains(y), s2.contains(y), left, both, right) by {
                    let now = values_of(out@);
                    if pick {
                        assert(now[now.len() - 1] == x);
                        if before.contains(y) {
                            let i = choose|i: int| 0 <= i < before.len() && before[i] == y;
                            assert(now[i] == y);
                        }
                        if now.contains(y) && y != x {
                            let i = choose|i: int| 0 <= i < now.len() && now[i] == y;
                            assert(before[i] == y);
                        }
                    }
                    if y != x {
                        assert(before.contains(y) <==> (s1.contains(y) && !ahead(g1, r1, y) || s2.contains(y) && !ahead(
                            g2,
                            r2,
                            y,
                        )) && picked(s1.contains(y), s2.contains(y), left, both, right));
                    } else {
                        if before.contains(x) {
                            let i = choose|i: int| 0 <= i < before.len() && before[i] == x;
                            assert(lt(before[i], x));
                        }
                    }
                }
                assert(increasing(values_of(out@))) by {
                    let now = values_of(out@);
                    assert forall|i: int, j: int| 0 <= i < j < now.len() implies lt(#[trigger] now[i], #[trigger] now[j]) by {
                        if j < before.len() {
                            assert(lt(before[i], before[j]));
                        } else {
                            assert(lt(before[i], x));
                        }
                    }
                }
            }
        }
        proof {
            it1.bindings().lemma_remaining();
            it2.bindings().lemma_remaining();
            it1.bindings().remaining().lemma_len0_is_empty();
            it2.bindings().remaining().lemma_len0_is_empty();
        }
        let ghost in_order = out@;
        let mut items: Vec<&'a T> = Vec::new();
        while out.len() > 0
            invariant
                items@ + out@.reverse() =~= in_order.reverse(),
            decreases out@.len(),
        {
            let ghost was = out@;
            let x = out.pop().unwrap();
            items.push(x);
            proof {
                assert(was.reverse() =~= seq![x] + out@.reverse());
            }
        }
        proof {
            assert(items@ =~= in_order.reverse());
            assert(items@.reverse() =~= in_order);
        }
        Selection { items }
    }

    /// Visits the values representing the union, i.e., all the values in
    /// `self` or `other`, without duplicates, in ascending order.
    pub fn union<'a, D: ContainerMut<Node<T, ()>>>(&'a self, other: &'a BTreeSet<T, D>) -> (r: Union<'a, T>)
        requires
            total_order::<T>(),
            self.wf(),
            other.wf(),
        ensures
            increasing(r.left()),
            forall|x: T| r.left().contains(x) <==> self@.contains(x) || other@.contains(x),
    {
        self.select(other, true, true, true)
    }

    /// Visits the values representing the intersection, i.e., the values
    /// that are both in `self` and `other`, in ascending order.
    pub fn intersection<'a, D: ContainerMut<Node<T, ()>>>(&'a self, other: &'a BTreeSet<T, D>) -> (r: Intersection<'a, T>)
        requires
            total_order::<T>(),
            self.wf(),
            other.wf(),
        ensures
            increasing(r.left()),
            forall|x: T| r.left().contains(x) <==> self@.contains(x) && other@.contains(x),
    {
        self.select(other, false, true, false)
    }

    /// Visits the values representing the difference, i.e., the values
    /// that are in `self` but not in `other`, in ascending order.
    pub fn difference<'a, D: ContainerMut<Node<T, ()>>>(&'a self, other: &'a BTreeSet<T, D>) -> (r: Difference<'a, T>)
        requires
            total_order::<T>(),
            self.wf(),
            other.wf(),
        ensures
            increasing(r.left()),
            forall|x: T| r.left().contains(x) <==> self@.contains(x) && !other@.contains(x),
    {
        self.select(other, true, false, false)
    }

    /// Visits the values representing the symmetric difference, i.e., the
    /// values that are in `self` or in `other` but not in both, in
    /// ascending order.
    pub fn symmetric_difference<'a, D: ContainerMut<Node<T, ()>>>(&'a self, other: &'a BTreeSet<T, D>) -> (r:
        SymmetricDifference<'a, T>)
        requires
            total_order::<T>(),
            self.wf(),
            other.wf(),
        ensures
            increasing(r.left()),
            forall|x: T| r.left().contains(x) <==> (self@.contains(x) != other@.contains(x)),
    {
        self.select(other, true, false, true)
    }

    /// Returns `true` if `self` has no elements in common with `other`.
    pub fn is_disjoint<D: ContainerMut<Node<T, ()>>>(&self, other: &BTreeSet<T, D>) -> (r: bool)
        requires
            total_order::<T>(),
            self.wf(),
            other.wf(),
        ensures
            r == self@.disjoint(other@),
    {
        let mut common = self.intersection(other);
        let ghost all = common.left();
        let r = common.next().is_none();
        proof {
            if !r {
                assert(all.contains(all[0]));
            } else {
                assert forall|x: T| !(self@.contains(x) && other@.contains(x)) by {
                    if self@.contains(x) && other@.contains(x) {
                        assert(all.contains(x));
                    }
                }
            }
        }
        r
    }

    /// Returns `true` if the set is a subset of another, i.e., `other`
    /// contains at least all the values in `self`.
    pub fn is_subset<D: ContainerMut<Node<T, ()>>>(&self, other: &BTreeSet<T, D>) -> (r: bool)
        requires
            total_order::<T>(),
            self.wf(),
            other.wf(),
        ensures
            r == self@.subset_of(other@),
    {
        let mut more = self.difference(other);
        let ghost all = more.left();
        let r = more.next().is_none();
        proof {
            if !r {
                assert(all.contains(all[0]));
            } else {
                assert forall|x: T| self@.contains(x) implies other@.contains(x) by {
                    if !other@.contains(x) {
                        assert(all.contains(x));
                    }
                }
            }
        }
        r
    }

    /// Returns `true` if the set is a superset of another, i.e., `self`
    /// contains at least all the values in `other`.
    pub fn is_superset<D: ContainerMut<Node<T, ()>>>(&self, other: &BTreeSet<T, D>) -> (r: bool)
        requires
            total_order::<T>(),
            self.wf(),
            other.wf(),
        ensures
            r == other@.subset_of(self@),
    {
        other.is_subset(self)
    }
}

} // verus!
