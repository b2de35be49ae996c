//! Key-value pairs.
use vstd::prelude::*;
use super::Keyed;

verus! {

/// A key together with the slot of its value.
///
/// The slot is full whenever the item can be reached from outside; it is
/// emptied only for the time an update has taken the value out.
#[derive(Clone)]
pub struct Item<K, V> {
    key: K,
    value: Option<V>,
}

impl<K, V> Keyed for Item<K, V> {
    type Key = K;

    closed spec fn key_spec(&self) -> K {
        self.key
    }

    fn key(&self) -> (k: &K) {
        &self.key
    }
}

impl<K, V> Item<K, V> {
    /// The value slot.
    pub closed spec fn slot(&self) -> Option<V> {
        self.value
    }

    /// The slot holds a value.
    pub open spec fn full(&self) -> bool {
        self.slot() is Some
    }

    /// The value of a full item.
    pub open spec fn value_spec(&self) -> V {
        self.slot()->0
    }

    /// The item that binds `key` to `value`.
    pub fn new(key: K, value: V) -> (item: Item<K, V>)
        ensures
            item.key_spec() == key,
            item.slot() == Some(value),
    {
        Item { key, value: Some(value) }
    }

    /// The key of the item.
    pub fn key(&self) -> (k: &K)
        ensures
            *k == self.key_spec(),
    {
        &self.key
    }

    /// Changing a key so that its order among the other keys changes is a
    /// logic error.
    pub fn key_mut(&mut self) -> (k: &mut K)
        ensures
            *k == old(self).key_spec(),
            final(self).key_spec() == *final(k),
            final(self).slot() == old(self).slot(),
    {
        &mut self.key
    }

    /// The value of the item.
    pub fn value(&self) -> (v: &V)
        requires
            self.full(),
        ensures
            *v == self.value_spec(),
    {
        self.value.as_ref().unwrap()
    }

    /// The value of the item, to be changed in place.
    pub fn value_mut(&mut self) -> (v: &mut V)
        requires
            old(self).full(),
        ensures
            *v == old(self).value_spec(),
            final(self).key_spec() == old(self).key_spec(),
            final(self).slot() == Some(*final(v)),
    {
        self.value.as_mut().unwrap()
    }

    /// Replaces key and value and returns the ones that were there.
    pub fn set(&mut self, key: K, value: V) -> (r: (K, V))
        requires
            old(self).full(),
        ensures
            r.0 == old(self).key_spec(),
            r.1 == old(self).value_spec(),
            final(self).key_spec() == key,
            final(self).slot() == Some(value),
    {
        let mut old_key = key;
        let mut old_value = Some(value);
        core::mem::swap(&mut old_key, &mut self.key);
        core::mem::swap(&mut old_value, &mut self.value);
        (old_key, old_value.unwrap())
    }

    /// Replaces the key and returns the key that was there.
    pub fn set_key(&mut self, key: K) -> (r: K)
        ensures
            r == old(self).key_spec(),
            final(self).key_spec() == key,
            final(self).slot() == old(self).slot(),
    {
        let mut old_key = key;
        core::mem::swap(&mut old_key, &mut self.key);
        old_key
    }

    /// Replaces the value and returns the value that was there.
    pub fn set_value(&mut self, value: V) -> (r: V)
        requires
            old(self).full(),
        ensures
            r == old(self).value_spec(),
            final(self).key_spec() == old(self).key_spec(),
            final(self).slot() == Some(value),
    {
        let mut old_value = Some(value);
        core::mem::swap(&mut old_value, &mut self.value);
        old_value.unwrap()
    }

    /// The value slot itself: the way to take a value out while the key
    /// stays in place.
    pub fn maybe_uninit_value_mut(&mut self) -> (slot: &mut Option<V>)
        ensures
            *slot == old(self).slot(),
            final(self).key_spec() == old(self).key_spec(),
            final(self).slot() == *final(slot),
    {
        &mut self.value
    }

    /// Takes the value out of the item; the key stays in place.
    pub fn take_value(&mut self) -> (v: V)
        requires
            old(self).full(),
        ensures
            v == old(self).value_spec(),
            final(self).key_spec() == old(self).key_spec(),
            final(self).slot() is None,
    {
        self.value.take().unwrap()
    }

    /// Puts a value into the item.
    pub fn put_value(&mut self, value: V)
        ensures
            final(self).key_spec() == old(self).key_spec(),
            final(self).slot() == Some(value),
    {
        self.value = Some(value);
    }

    /// Takes the item apart and keeps the key.
    pub fn into_key(self) -> (k: K)
        ensures
            k == self.key_spec(),
    {
        self.key
    }

    /// Takes the item apart and keeps the value.
    pub fn into_value(self) -> (v: V)
        requires
            self.full(),
        ensures
            v == self.value_spec(),
    {
        self.value.unwrap()
    }

    /// The key and the value of the item.
    pub fn as_pair(&self) -> (r: (&K, &V))
        requires
            self.full(),
        ensures
            *r.0 == self.key_spec(),
            *r.1 == self.value_spec(),
    {
        (&self.key, self.value.as_ref().unwrap())
    }

    /// The key and the value, the value to be changed in place.
    pub fn as_pair_mut(&mut self) -> (r: (&K, &mut V))
        requires
            old(self).full(),
        ensures
            *r.0 == old(self).key_spec(),
            *r.1 == old(self).value_spec(),
            final(self).key_spec() == old(self).key_spec(),
            final(self).slot() == Some(*final(r.1)),
    {
        (&self.key, self.value.as_mut().unwrap())
    }

    /// Takes the item apart into its key and its value.
    pub fn into_pair(self) -> (r: (K, V))
        requires
            self.full(),
        ensures
            r.0 == self.key_spec(),
            r.1 == self.value_spec(),
    {
        (self.key, self.value.unwrap())
    }

    /// Drops the key of an item whose value has been taken out.
    pub fn forget_value(self)
        requires
            !self.full(),
    {
    }

    /// Takes the item apart into its key and its slot.
    pub fn into_inner(self) -> (r: (K, Option<V>))
        ensures
            r.0 == self.key_spec(),
            r.1 == self.slot(),
    {
        (self.key, self.value)
    }
}

} // verus!
