//! Arenas: containers that hand out an identifier for each value stored.
//!
//! A tree holds its nodes in an arena and names them by identifier. Any
//! type that keeps the contracts of [`Container`] and [`ContainerMut`] can
//! be that arena; [`SlabStore`] is the one that the crate provides.
use vstd::prelude::*;
use slab::Slab;

verus! {

/// An arena that can be read.
pub trait Container<T>: Sized {
    /// The values stored, each under its identifier.
    spec fn contents(&self) -> Map<usize, T>;

    /// The value stored under `id`, if any.
    fn get(&self, id: usize) -> (r: Option<&T>)
        ensures
            r == (if self.contents().dom().contains(id) {
                Some(&self.contents()[id])
            } else {
                None
            }),
    ;
}

/// An arena that can be changed.
pub trait ContainerMut<T>: Container<T> {
    /// An arena that stores nothing.
    fn empty() -> (c: Self)
        ensures
            c.contents() == Map::<usize, T>::empty(),
    ;

    /// Drops every value.
    fn clear(&mut self)
        ensures
            final(self).contents() == Map::<usize, T>::empty(),
    ;

    /// The value stored under `id`, if any, to be changed in place.
    fn get_mut(&mut self, id: usize) -> (r: Option<&mut T>)
        ensures
            r is Some <==> old(self).contents().dom().contains(id),
            r is Some ==> *r->0 == old(self).contents()[id] && final(self).contents() == old(self).contents().insert(id, *final(r->0)),
            r is None ==> final(self).contents() == old(self).contents(),
    ;

    /// Stores `t` under an identifier that is not in use, and returns the
    /// identifier. No value is ever stored under `usize::MAX`.
    fn insert(&mut self, t: T) -> (id: usize)
        ensures
            id < usize::MAX,
            !old(self).contents().dom().contains(id),
            final(self).contents() == old(self).contents().insert(id, t),
    ;

    /// Takes out the value stored under `id`; the identifier is then free
    /// to be used again.
    fn remove(&mut self, id: usize) -> (t: T)
        requires
            old(self).contents().dom().contains(id),
        ensures
            t == old(self).contents()[id],
            final(self).contents() == old(self).contents().remove(id),
    ;
}

#[verifier::external_type_specification]
#[verifier::external_body]
#[verifier::reject_recursive_types(T)]
pub struct ExSlab<T>(Slab<T>);

/// An arena kept in a `Slab` of the `slab` crate.
///
/// `model` mirrors in proofs what the slab stores. Nothing here looks into
/// the slab: the functions below that call into it are not verified, and
/// what they state of the mirror is what the documentation and the source
/// of `slab` say of the slab. A store is made and changed through these
/// functions alone, so that the mirror and the slab stay in step: no
/// verified code writes the mirror.
#[verifier::reject_recursive_types(T)]
pub struct SlabStore<T> {
    slab: Slab<T>,
    model: Ghost<Map<usize, T>>,
}

/// `Slab::new`: a slab that stores nothing. The store is made here, with the
/// empty mirror beside the new slab.
#[verifier::external_body]
fn slab_new<T>() -> (store: SlabStore<T>)
    ensures
        store.model@.dom() == Set::<usize>::empty(),
{
    SlabStore { slab: Slab::new(), model: Ghost(Map::empty()) }
}

/// `Slab::get`: the value under `id` if `id` is in use, else nothing.
#[verifier::external_body]
fn slab_get<T>(store: &SlabStore<T>, id: usize) -> (r: Option<&T>)
    ensures
        r == (if store.model@.dom().contains(id) {
            Some(&store.model@[id])
        } else {
            None
        }),
{
    store.slab.get(id)
}

/// `Slab::get_mut`: as `Slab::get`, and what is written through the
/// reference is what the slab then holds under `id`.
#[verifier::external_body]
fn slab_get_mut<T>(store: &mut SlabStore<T>, id: usize) -> (r: Option<&mut T>)
    ensures
        r is Some <==> old(store).model@.dom().contains(id),
        r is Some ==> *r->0 == old(store).model@[id] && final(store).model@ == old(store).model@.insert(
            id,
            *final(r->0),
        ),
        r is None ==> final(store).model@ == old(store).model@,
{
    store.slab.get_mut(id)
}

/// `Slab::insert`: stores the value under a key that was vacant and
/// returns the key. The key is an index into a vector of entries that are
/// not zero-sized, so it is less than `usize::MAX`.
#[verifier::external_body]
fn slab_insert<T>(store: &mut SlabStore<T>, t: T) -> (id: usize)
    ensures
        id < usize::MAX,
        !old(store).model@.dom().contains(id),
        final(store).model@ == old(store).model@.insert(id, t),
{
    store.slab.insert(t)
}

/// `Slab::remove`: takes out and returns the value under `key`, which
/// must be in use: the call panics on a key that is not.
#[verifier::external_body]
fn slab_remove<T>(store: &mut SlabStore<T>, id: usize) -> (t: T)
    requires
        old(store).model@.dom().contains(id),
    ensures
        t == old(store).model@[id],
        final(store).model@ == old(store).model@.remove(id),
{
    store.slab.remove(id)
}

/// `Slab::clear`: the slab stores nothing afterwards.
#[verifier::external_body]
fn slab_clear<T>(store: &mut SlabStore<T>)
    ensures
        final(store).model@.dom() == Set::<usize>::empty(),
{
    store.slab.clear()
}

impl<T> SlabStore<T> {
    /// An arena that stores nothing.
    pub fn new() -> (s: Self)
        ensures
            s.contents() == Map::<usize, T>::empty(),
    {
        slab_new()
    }
}

impl<T> Container<T> for SlabStore<T> {
    closed spec fn contents(&self) -> Map<usize, T> {
        self.model@
    }

    fn get(&self, id: usize) -> (r: Option<&T>) {
        slab_get(self, id)
    }
}

impl<T> ContainerMut<T> for SlabStore<T> {
    fn empty() -> (c: Self) {
        SlabStore::new()
    }

    fn clear(&mut self) {
        slab_clear(self)
    }

    fn get_mut(&mut self, id: usize) -> (r: Option<&mut T>) {
        slab_get_mut(self, id)
    }

    fn insert(&mut self, t: T) -> (id: usize) {
        slab_insert(self, t)
    }

    fn remove(&mut self, id: usize) -> (t: T) {
        slab_remove(self, id)
    }
}

} // verus!
