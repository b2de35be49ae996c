//! The items of a leaf, kept in a small vector.
use vstd::prelude::*;
use smallvec::SmallVec;
use crate::generic::node::{Item, M};

verus! {

/// The number of items that a leaf holds without an allocation: one more
/// than a leaf may hold, for the time between an insertion and the split.
pub const ROOM: usize = M + 1;

/// A `SmallVec` of the `smallvec` crate, with room for the items of a leaf.
/// Nothing here looks into it.
#[verifier::external_body]
#[verifier::reject_recursive_types(K)]
#[verifier::reject_recursive_types(V)]
pub struct Small<K, V> {
    inner: SmallVec<[Item<K, V>; ROOM]>,
}

/// The items of a leaf, in a `SmallVec` of the `smallvec` crate.
///
/// `model` mirrors in proofs what the vector holds. The functions below
/// that call into the vector are not verified, and what they state of the
/// mirror is what the documentation and the source of `smallvec` say of the
/// vector. The items are made and changed through these functions alone, so
/// that the mirror and the vector stay in step: no verified code writes the
/// mirror. It exists in proofs only, so what such a function writes for it
/// is of no account: its contract says what the mirror is.
#[verifier::reject_recursive_types(K)]
#[verifier::reject_recursive_types(V)]
pub struct Items<K, V> {
    small: Small<K, V>,
    model: Ghost<Seq<Item<K, V>>>,
}

/// `SmallVec::new`: a vector that holds nothing. The items are made here,
/// with the empty mirror beside the new vector.
#[verifier::external_body]
fn small_new<K, V>() -> (items: Items<K, V>)
    ensures
        items.model@.len() == 0,
{
    Items { small: Small { inner: SmallVec::new() }, model: Ghost(Seq::empty()) }
}

/// `SmallVec::len`: the number of items held.
#[verifier::external_body]
fn small_len<K, V>(items: &Items<K, V>) -> (n: usize)
    ensures
        n == items.model@.len(),
{
    items.small.inner.len()
}

/// `SmallVec::as_slice`: the items held, in order.
#[verifier::external_body]
fn small_slice<K, V>(items: &Items<K, V>) -> (s: &[Item<K, V>])
    ensures
        s@ == items.model@,
{
    items.small.inner.as_slice()
}

/// `SmallVec::index_mut`: the item at `i`; what is written through the
/// reference is what the vector then holds there. The call panics where
/// `i` is not less than the length.
#[verifier::external_body]
fn small_get_mut<K, V>(items: &mut Items<K, V>, i: usize) -> (r: &mut Item<K, V>)
    requires
        i < old(items).model@.len(),
    ensures
        *r == old(items).model@[i as int],
        final(items).model@ == old(items).model@.update(i as int, *final(r)),
{
    &mut items.small.inner[i]
}

/// `SmallVec::push`: the item is put after the last. A vector never holds
/// more items than a `usize` counts.
#[verifier::external_body]
fn small_push<K, V>(items: &mut Items<K, V>, item: Item<K, V>)
    ensures
        final(items).model@ == old(items).model@.push(item),
        final(items).model@.len() <= usize::MAX,
{
    items.small.inner.push(item)
}

/// `SmallVec::pop`: the last item is taken out and returned, if there is
/// one.
#[verifier::external_body]
fn small_pop<K, V>(items: &mut Items<K, V>) -> (r: Option<Item<K, V>>)
    ensures
        r is None <==> old(items).model@.len() == 0,
        r is None ==> final(items).model@ == old(items).model@,
        r is Some ==> r == Some(old(items).model@.last()) && final(items).model@ == old(items).model@.drop_last(),
{
    items.small.inner.pop()
}

/// `SmallVec::insert`: the item is put at `i`, and the items from there on
/// move one place to the right. The call panics where `i` is greater than
/// the length.
#[verifier::external_body]
fn small_insert<K, V>(items: &mut Items<K, V>, i: usize, item: Item<K, V>)
    requires
        i <= old(items).model@.len(),
    ensures
        final(items).model@ == old(items).model@.insert(i as int, item),
        final(items).model@.len() <= usize::MAX,
{
    items.small.inner.insert(i, item)
}

/// `SmallVec::remove`: the item at `i` is taken out and returned, and the
/// items after it move one place to the left. The call panics where `i` is
/// not less than the length.
#[verifier::external_body]
fn small_remove<K, V>(items: &mut Items<K, V>, i: usize) -> (r: Item<K, V>)
    requires
        i < old(items).model@.len(),
    ensures
        r == old(items).model@[i as int],
        final(items).model@ == old(items).model@.remove(i as int),
{
    items.small.inner.remove(i)
}

/// `SmallVec::append`: the items of `other` are moved to the end of
/// `items`, in their order, and `other` is left empty.
#[verifier::external_body]
fn small_append<K, V>(items: &mut Items<K, V>, other: &mut Items<K, V>)
    ensures
        final(items).model@ == old(items).model@ + old(other).model@,
        final(items).model@.len() <= usize::MAX,
        final(other).model@.len() == 0,
{
    items.small.inner.append(&mut other.small.inner)
}

/// `SmallVec::drain` of the range from `at` on, collected into a vector
/// of its own: the items from `at` on are taken out and returned in their
/// order, and those before `at` stay. The call panics where `at` is
/// greater than the length.
#[verifier::external_body]
fn small_drain_from<K, V>(items: &mut Items<K, V>, at: usize) -> (r: Items<K, V>)
    requires
        at <= old(items).model@.len(),
    ensures
        r.model@ == old(items).model@.subrange(at as int, old(items).model@.len() as int),
        final(items).model@ == old(items).model@.subrange(0, at as int),
{
    Items { small: Small { inner: items.small.inner.drain(at..).collect() }, model: Ghost(Seq::empty()) }
}

/// `SmallVec::clone`: a vector of clones of the items. Nothing is stated
/// of them.
#[verifier::external_body]
fn small_clone<K: Clone, V: Clone>(items: &Items<K, V>) -> Items<K, V> {
    Items { small: Small { inner: items.small.inner.clone() }, model: Ghost(Seq::empty()) }
}

impl<K: Clone, V: Clone> Clone for Items<K, V> {
    fn clone(&self) -> Self {
        small_clone(self)
    }
}

impl<K, V> View for Items<K, V> {
    type V = Seq<Item<K, V>>;

    /// The items held, in order.
    closed spec fn view(&self) -> Seq<Item<K, V>> {
        if self.model@.len() <= usize::MAX {
            self.model@
        } else {
            Seq::empty()
        }
    }
}

impl<K, V> Items<K, V> {
    /// No more items are held than a `usize` counts.
    pub proof fn lemma_len(&self)
        ensures
            self@.len() <= usize::MAX,
    {
    }

    /// Items that hold nothing.
    pub fn new() -> (items: Items<K, V>)
        ensures
            items@ == Seq::<Item<K, V>>::empty(),
    {
        let items = small_new();
        assert(items@ =~= Seq::<Item<K, V>>::empty());
        items
    }

    /// The number of items.
    pub fn len(&self) -> (n: usize)
        ensures
            n == self@.len(),
    {
        small_len(self)
    }

    /// The items as a slice.
    pub fn as_slice(&self) -> (s: &[Item<K, V>])
        ensures
            s@ == self@,
    {
        let _ = small_len(self);
        small_slice(self)
    }

    /// The item at `i`.
    pub fn get(&self, i: usize) -> (r: &Item<K, V>)
        requires
            i < self@.len(),
        ensures
            *r == self@[i as int],
    {
        &self.as_slice()[i]
    }

    /// The item at `i`, to be changed in place.
    pub fn get_mut(&mut self, i: usize) -> (r: &mut Item<K, V>)
        requires
            i < old(self)@.len(),
        ensures
            *r == old(self)@[i as int],
            final(self)@ == old(self)@.update(i as int, *final(r)),
    {
        let _ = small_len(self);
        small_get_mut(self, i)
    }

    /// Puts `item` after the last item.
    pub fn push(&mut self, item: Item<K, V>)
        ensures
            final(self)@ == old(self)@.push(item),
    {
        let _ = small_len(self);
        small_push(self, item)
    }

    /// Takes out the last item, if there is one.
    pub fn pop(&mut self) -> (r: Option<Item<K, V>>)
        ensures
            r is None <==> old(self)@.len() == 0,
            r is None ==> final(self)@ == old(self)@,
            r is Some ==> r == Some(old(self)@.last()) && final(self)@ == old(self)@.drop_last(),
    {
        let _ = small_len(self);
        small_pop(self)
    }

    /// Puts `item` at `i`, before the item that was there.
    pub fn insert(&mut self, i: usize, item: Item<K, V>)
        requires
            i <= old(self)@.len(),
        ensures
            final(self)@ == old(self)@.insert(i as int, item),
    {
        let _ = small_len(self);
        small_insert(self, i, item)
    }

    /// Takes out the item at `i`.
    pub fn remove(&mut self, i: usize) -> (r: Item<K, V>)
        requires
            i < old(self)@.len(),
        ensures
            r == old(self)@[i as int],
            final(self)@ == old(self)@.remove(i as int),
    {
        let _ = small_len(self);
        small_remove(self, i)
    }

    /// Moves the items of `other` to the end of these.
    pub fn append(&mut self, other: &mut Items<K, V>)
        ensures
            final(self)@ == old(self)@ + old(other)@,
            final(other)@ == Seq::<Item<K, V>>::empty(),
    {
        let _ = small_len(self);
        let _ = small_len(other);
        small_append(self, other);
        assert(other@ =~= Seq::<Item<K, V>>::empty());
    }

    /// Takes out the items from `at` on, and returns them.
    pub fn split_off(&mut self, at: usize) -> (r: Items<K, V>)
        requires
            at <= old(self)@.len(),
        ensures
            r@ == old(self)@.subrange(at as int, old(self)@.len() as int),
            final(self)@ == old(self)@.subrange(0, at as int),
    {
        let _ = small_len(self);
        small_drain_from(self, at)
    }
}

} // verus!
