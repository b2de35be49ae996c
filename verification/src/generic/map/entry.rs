//! A view into a single entry of a map, which may either be vacant or
//! occupied.
use vstd::prelude::*;
use crate::container::{Container, ContainerMut};
use crate::generic::map::tree::Tree;
use crate::generic::map::BTreeMap;
use crate::generic::node::{Item, ItemAddr, Keyed, Node, Offset};
use crate::utils::total_order;

verus! {

/// A view into a single entry in a map, which may either be vacant or
/// occupied.
///
/// This enum is constructed from the [`entry`](BTreeMap::entry) method on
/// [`BTreeMap`].
#[verifier::reject_recursive_types(K)]
#[verifier::reject_recursive_types(V)]
#[verifier::reject_recursive_types(C)]
pub enum Entry<'a, K, V, C> {
    Vacant(VacantEntry<'a, K, V, C>),
    Occupied(OccupiedEntry<'a, K, V, C>),
}

/// A view into a vacant entry in a map: a key that the map does not bind,
/// and the place in the map where it belongs.
#[verifier::reject_recursive_types(K)]
#[verifier::reject_recursive_types(V)]
#[verifier::reject_recursive_types(C)]
pub struct VacantEntry<'a, K, V, C> {
    /// The map that the entry belongs to.
    pub map: &'a mut BTreeMap<K, V, C>,
    /// The key of the entry.
    pub key: K,
    /// The place of the key in the map.
    pub addr: ItemAddr,
}

/// A view into an occupied entry in a map: the address of an item.
#[verifier::reject_recursive_types(K)]
#[verifier::reject_recursive_types(V)]
#[verifier::reject_recursive_types(C)]
pub struct OccupiedEntry<'a, K, V, C> {
    /// The map that the entry belongs to.
    pub map: &'a mut BTreeMap<K, V, C>,
    /// The address of the item.
    pub addr: ItemAddr,
}

impl<'a, K: Ord, V, C: ContainerMut<Node<K, V>>> VacantEntry<'a, K, V, C> {
    /// The entry is well formed: its map is, the map does not bind the key,
    /// and the address is the place of the key in the map.
    pub open spec fn wf(&self) -> bool {
        &&& self.map.wf()
        &&& !self.map@.dom().contains(self.key)
        &&& self.map.tree().is_address_of(self.key, Err(self.addr))
    }

    /// Gets the address of the vacant entry in the B-Tree.
    pub fn address(&self) -> (a: ItemAddr)
        ensures
            a == self.addr,
    {
        self.addr
    }

    /// Gets a reference to the key that would be used when inserting a
    /// value through the entry.
    pub fn key(&self) -> (k: &K)
        ensures
            *k == self.key,
    {
        &self.key
    }

    /// Take ownership of the key.
    pub fn into_key(self) -> (k: K)
        ensures
            k == self.key,
            *final(self.map) == *old(self.map),
    {
        self.key
    }

    /// Sets the value of the entry with the entry's key, and returns a
    /// mutable reference to it.
    pub fn insert(self, value: V) -> (r: &'a mut V)
        requires
            total_order::<K>(),
            self.wf(),
            old(self.map).count() < usize::MAX,
        ensures
            *r == value,
            final(self.map).wf(),
            final(self.map)@ == old(self.map)@.insert(self.key, *final(r)),
    {
        let ghost key = self.key;
        let ghost m0 = self.map@;
        proof {
            if self.map.tree().root is Some {
                self.map.tree().lemma_somewhere(self.addr);
            }
        }
        let addr = self.map.insert_exactly_at(self.addr, Item::new(self.key, value), None);
        let ghost t1 = self.map.tree();
        proof {
            t1.lemma_view_at(addr);
            assert forall|t2: Tree<K, V>, v: V| #[trigger] t1.value_set(t2, addr, v) implies t2.btree() && t2.full_but(None) && t2.view() == t1.view().insert(key, v) && t2.view().dom() == t1.view().dom() by {
                t1.lemma_value_set(t2, addr, v);
            }
            assert forall|v: V| #[trigger] m0.insert(key, value).insert(key, v) == m0.insert(key, v) by {
                assert(m0.insert(key, value).insert(key, v) =~= m0.insert(key, v));
            }
        }
        self.map.value_mut_at(addr)
    }
}

impl<'a, K: Ord, V, C: ContainerMut<Node<K, V>>> OccupiedEntry<'a, K, V, C> {
    /// The entry is well formed: its map is, and the address names an item
    /// of the map.
    pub open spec fn wf(&self) -> bool {
        self.map.wf() && self.map.tree().occupied(self.addr)
    }

    /// The key of the entry.
    pub open spec fn key_spec(&self) -> K {
        self.map.tree().key_at(self.addr)
    }

    /// The map of the entry as it is now.
    pub open spec fn now(&self) -> BTreeMap<K, V, C> {
        *self.map
    }

    /// Gets the address of the occupied entry in the B-Tree.
    pub fn address(&self) -> (a: ItemAddr)
        ensures
            a == self.addr,
    {
        self.addr
    }

    /// Gets a reference to the value in the entry.
    pub fn get(&self) -> (v: &V)
        requires
            total_order::<K>(),
            self.wf(),
        ensures
            *v == self.now()@[self.key_spec()],
            self.now()@.dom().contains(self.key_spec()),
    {
        proof {
            self.map.tree().lemma_view_at(self.addr);
        }
        self.map.item(self.addr).unwrap().value()
    }

    /// Gets a reference to the key in the entry.
    pub fn key(&self) -> (k: &K)
        requires
            total_order::<K>(),
            self.wf(),
        ensures
            *k == self.key_spec(),
            self.now()@.dom().contains(*k),
    {
        proof {
            self.map.tree().lemma_view_at(self.addr);
        }
        self.map.item(self.addr).unwrap().key()
    }

    /// Gets a mutable reference to the value in the entry.
    pub fn get_mut(&mut self) -> (r: &mut V)
        requires
            total_order::<K>(),
            old(self).wf(),
        ensures
            *r == old(self).map@[old(self).key_spec()],
            final(self).addr == old(self).addr,
            final(self).wf(),
            final(self).key_spec() == old(self).key_spec(),
            final(self).map@ == old(self).map@.insert(old(self).key_spec(), *final(r)),
            *final(final(self).map) == *final(old(self).map),
    {
        let ghost t0 = self.map.tree();
        let ghost addr = self.addr;
        let ghost key = self.key_spec();
        proof {
            t0.lemma_view_at(addr);
            assert forall|t2: Tree<K, V>, v: V| #[trigger] t0.value_set(t2, addr, v) implies t2.btree() && t2.full_but(None) && t2.view() == t0.view().insert(key, v) && t2.view().dom() == t0.view().dom() by {
                t0.lemma_value_set(t2, addr, v);
            }
        }
        self.map.value_mut_at(self.addr)
    }

    /// Sets the value of the entry, and returns the entry's old value.
    pub fn insert(&mut self, value: V) -> (r: V)
        requires
            total_order::<K>(),
            old(self).wf(),
        ensures
            r == old(self).map@[old(self).key_spec()],
            final(self).addr == old(self).addr,
            final(self).wf(),
            final(self).key_spec() == old(self).key_spec(),
            final(self).map@ == old(self).map@.insert(old(self).key_spec(), value),
            *final(final(self).map) == *final(old(self).map),
    {
        proof {
            self.map.tree().lemma_view_at(self.addr);
        }
        self.map.replace_value_at(self.addr, value)
    }

    /// Converts the entry into a mutable reference to its value.
    pub fn into_mut(self) -> (r: &'a mut V)
        requires
            total_order::<K>(),
            self.wf(),
        ensures
            *r == old(self.map)@[self.key_spec()],
            final(self.map).wf(),
            final(self.map)@ == old(self.map)@.insert(self.key_spec(), *final(r)),
    {
        let ghost t0 = self.map.tree();
        let ghost addr = self.addr;
        let ghost key = self.key_spec();
        proof {
            t0.lemma_view_at(addr);
            assert forall|t2: Tree<K, V>, v: V| #[trigger] t0.value_set(t2, addr, v) implies t2.btree() && t2.full_but(None) && t2.view() == t0.view().insert(key, v) && t2.view().dom() == t0.view().dom() by {
                t0.lemma_value_set(t2, addr, v);
            }
        }
        self.map.value_mut_at(self.addr)
    }

    /// Takes the value of the entry out of the map, and returns it.
    pub fn remove(self) -> (r: V)
        requires
            total_order::<K>(),
            self.wf(),
        ensures
            r == old(self.map)@[self.key_spec()],
            final(self.map).wf(),
            final(self.map)@ == old(self.map)@.remove(self.key_spec()),
    {
        proof {
            self.map.tree().lemma_view_at(self.addr);
        }
        self.map.remove_at(self.addr).unwrap().0.into_value()
    }

    /// Take ownership of the key and value from the map.
    pub fn remove_entry(self) -> (r: (K, V))
        requires
            total_order::<K>(),
            self.wf(),
        ensures
            r.0 == self.key_spec(),
            r.1 == old(self.map)@[self.key_spec()],
            final(self.map).wf(),
            final(self.map)@ == old(self.map)@.remove(self.key_spec()),
    {
        proof {
            self.map.tree().lemma_view_at(self.addr);
        }
        self.map.remove_at(self.addr).unwrap().0.into_pair()
    }
}

impl<'a, K: Ord, V, C: ContainerMut<Node<K, V>>> Entry<'a, K, V, C> {
    /// The entry is well formed.
    pub open spec fn wf(&self) -> bool {
        match self {
            Entry::Occupied(entry) => entry.wf(),
            Entry::Vacant(entry) => entry.wf(),
        }
    }

    /// The key of the entry.
    pub open spec fn key_spec(&self) -> K {
        match self {
            Entry::Occupied(entry) => entry.key_spec(),
            Entry::Vacant(entry) => entry.key,
        }
    }

    /// Gets the address of the entry in the B-Tree.
    pub fn address(&self) -> (a: ItemAddr)
        ensures
            a == (match self {
                Entry::Occupied(entry) => entry.addr,
                Entry::Vacant(entry) => entry.addr,
            }),
    {
        match self {
            Entry::Occupied(entry) => entry.address(),
            Entry::Vacant(entry) => entry.address(),
        }
    }

    /// Returns a reference to this entry's key.
    pub fn key(&self) -> (k: &K)
        requires
            total_order::<K>(),
            self.wf(),
        ensures
            *k == self.key_spec(),
    {
        match self {
            Entry::Occupied(entry) => entry.key(),
            Entry::Vacant(entry) => entry.key(),
        }
    }

    /// The map of the entry as it is now.
    pub open spec fn now(&self) -> BTreeMap<K, V, C> {
        match self {
            Entry::Occupied(entry) => *entry.map,
            Entry::Vacant(entry) => *entry.map,
        }
    }

    /// There is room in the map for the key of the entry.
    pub open spec fn has_room(&self) -> bool {
        self is Occupied || self.now().count() < usize::MAX
    }

    /// What the map of the entry comes to be when the entry has given out
    /// the reference `r` to its value: the map as it is now, with the key
    /// of the entry bound to what is written through `r`.
    pub open spec fn bound_to(&self, after: BTreeMap<K, V, C>, value: V) -> bool {
        after.wf() && after@ == self.now()@.insert(self.key_spec(), value)
    }

    /// Ensures a value is in the entry by inserting the default if empty,
    /// and returns a mutable reference to the value in the entry.
    pub fn or_insert(self, default: V) -> (r: &'a mut V)
        requires
            total_order::<K>(),
            self.wf(),
            self.has_room(),
        ensures
            *r == (if self is Occupied {
                self.now()@[self.key_spec()]
            } else {
                default
            }),
            match self {
                Entry::Occupied(entry) => self.bound_to(*final(entry.map), *final(r)),
                Entry::Vacant(entry) => self.bound_to(*final(entry.map), *final(r)),
            },
    {
        match self {
            Entry::Occupied(entry) => entry.into_mut(),
            Entry::Vacant(entry) => entry.insert(default),
        }
    }

    /// Ensures a value is in the entry by inserting the result of the
    /// default function if empty, and returns a mutable reference to the
    /// value in the entry.
    pub fn or_insert_with<F: FnOnce() -> V>(self, default: F) -> (r: &'a mut V)
        requires
            total_order::<K>(),
            self.wf(),
            self.has_room(),
            self is Vacant ==> call_requires(default, ()),
        ensures
            self is Occupied ==> *r == self.now()@[self.key_spec()],
            self is Vacant ==> call_ensures(default, (), *r),
            match self {
                Entry::Occupied(entry) => self.bound_to(*final(entry.map), *final(r)),
                Entry::Vacant(entry) => self.bound_to(*final(entry.map), *final(r)),
            },
    {
        match self {
            Entry::Occupied(entry) => entry.into_mut(),
            Entry::Vacant(entry) => entry.insert(default()),
        }
    }

    /// Provides in-place mutable access to an occupied entry before any
    /// potential inserts into the map.
    pub fn and_modify<F>(self, f: F) -> (r: Self) where F: FnOnce(&mut V)
        requires
            total_order::<K>(),
            self.wf(),
            self is Occupied ==> forall|v: &mut V| #[trigger] call_requires(f, (v,)),
        ensures
            r.wf(),
            r.key_spec() == self.key_spec(),
            r is Occupied <==> self is Occupied,
            r.now()@.dom() == self.now()@.dom(),
            forall|k: K| k != self.key_spec() && #[trigger] self.now()@.dom().contains(k) ==> r.now()@[k]
                == self.now()@[k],
            self is Occupied ==> exists|v: &mut V|
                *v == self.now()@[self.key_spec()] && *final(v) == r.now()@[self.key_spec()]
                    && #[trigger] call_ensures(f, (v,), ()),
            match (self, r) {
                (Entry::Occupied(before), Entry::Occupied(after)) => *final(before.map) == *final(after.map),
                (Entry::Vacant(before), Entry::Vacant(after)) => *final(before.map) == *final(after.map)
                    && *after.map == *before.map && after.addr == before.addr,
                _ => false,
            },
    {
        match self {
            Entry::Occupied(entry) => {
                let mut entry = entry;
                let ghost before = entry.now()@;
                let ghost key = entry.key_spec();
                proof {
                    entry.map.tree().lemma_view_at(entry.addr);
                }
                f(entry.get_mut());
                proof {
                    assert(entry.now()@.dom() =~= before.dom());
                }
                Entry::Occupied(entry)
            },
            Entry::Vacant(entry) => Entry::Vacant(entry),
        }
    }

    /// Ensures a value is in the entry by inserting the default value if
    /// empty, and returns a mutable reference to the value in the entry.
    pub fn or_default(self) -> (r: &'a mut V) where V: Default
        requires
            total_order::<K>(),
            self.wf(),
            self.has_room(),
        ensures
            self is Occupied ==> *r == self.now()@[self.key_spec()],
            self is Vacant ==> call_ensures(V::default, (), *r),
            match self {
                Entry::Occupied(entry) => self.bound_to(*final(entry.map), *final(r)),
                Entry::Vacant(entry) => self.bound_to(*final(entry.map), *final(r)),
            },
    {
        match self {
            Entry::Occupied(entry) => entry.into_mut(),
            Entry::Vacant(entry) => entry.insert(Default::default()),
        }
    }

    /// Ensures a value is in the entry by inserting, if empty, the result
    /// of the default function, which takes the key as its argument, and
    /// returns a mutable reference to the value in the entry.
    pub fn or_insert_with_key<F: FnOnce(&K) -> V>(self, default: F) -> (r: &'a mut V)
        requires
            total_order::<K>(),
            self.wf(),
            self.has_room(),
            self is Vacant ==> call_requires(default, (&self.key_spec(),)),
        ensures
            self is Occupied ==> *r == self.now()@[self.key_spec()],
            self is Vacant ==> call_ensures(default, (&self.key_spec(),), *r),
            match self {
                Entry::Occupied(entry) => self.bound_to(*final(entry.map), *final(r)),
                Entry::Vacant(entry) => self.bound_to(*final(entry.map), *final(r)),
            },
    {
        match self {
            Entry::Occupied(entry) => entry.into_mut(),
            Entry::Vacant(entry) => {
                let value = default(entry.key());
                entry.insert(value)
            },
        }
    }
}

impl<K: Ord, V, C: ContainerMut<Node<K, V>>> BTreeMap<K, V, C> {
    /// A mutable reference to the value at an address of the map.
    pub fn value_mut_at(&mut self, addr: ItemAddr) -> (r: &mut V)
        requires
            old(self).tree().occupied(addr),
            old(self).tree().item_at(addr).full(),
        ensures
            *r == old(self).tree().item_at(addr).value_spec(),
            old(self).tree().value_set(final(self).tree(), addr, *final(r)),
            final(self).count() == old(self).count(),
    {
        self.item_mut(addr).unwrap().value_mut()
    }

    /// Gets the given key's corresponding entry in the map for in-place
    /// manipulation.
    pub fn entry(&mut self, key: K) -> (r: Entry<'_, K, V, C>)
        requires
            total_order::<K>(),
            old(self).wf(),
        ensures
            r.wf(),
            r.key_spec() == key,
            match r {
                Entry::Occupied(entry) => {
                    &&& old(self)@.dom().contains(key)
                    &&& *entry.map == *old(self)
                    &&& *final(entry.map) == *final(self)
                },
                Entry::Vacant(entry) => {
                    &&& !old(self)@.dom().contains(key)
                    &&& *entry.map == *old(self)
                    &&& *final(entry.map) == *final(self)
                },
            },
    {
        match self.address_of(&key) {
            Ok(addr) => Entry::Occupied(OccupiedEntry { map: self, addr }),
            Err(addr) => Entry::Vacant(VacantEntry { map: self, key, addr }),
        }
    }

    /// Returns the first entry in the map for in-place manipulation. The
    /// key of this entry is the minimum key in the map.
    pub fn first_entry(&mut self) -> (r: Option<OccupiedEntry<'_, K, V, C>>)
        requires
            total_order::<K>(),
            old(self).wf(),
        ensures
            r is None <==> old(self)@.dom().len() == 0,
            r is None ==> *final(self) == *old(self),
            r is Some ==> {
                &&& r->0.wf()
                &&& old(self).is_first_key(r->0.key_spec())
                &&& *r->0.map == *old(self)
                &&& *final(r->0.map) == *final(self)
            },
    {
        proof {
            self.lemma_empty();
        }
        match self.first_item_address() {
            Some(addr) => {
                proof {
                    self.lemma_first_key(addr);
                }
                Some(OccupiedEntry { map: self, addr })
            },
            None => None,
        }
    }

    /// Returns the last entry in the map for in-place manipulation. The
    /// key of this entry is the maximum key in the map.
    pub fn last_entry(&mut self) -> (r: Option<OccupiedEntry<'_, K, V, C>>)
        requires
            total_order::<K>(),
            old(self).wf(),
        ensures
            r is None <==> old(self)@.dom().len() == 0,
            r is None ==> *final(self) == *old(self),
            r is Some ==> {
                &&& r->0.wf()
                &&& old(self).is_last_key(r->0.key_spec())
                &&& *r->0.map == *old(self)
                &&& *final(r->0.map) == *final(self)
            },
    {
        proof {
            self.lemma_empty();
        }
        match self.last_item_address() {
            Some(addr) => {
                proof {
                    self.lemma_last_key(addr);
                }
                Some(OccupiedEntry { map: self, addr })
            },
            None => None,
        }
    }
}

} // verus!
