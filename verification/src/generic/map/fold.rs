//! What comes of a map when bindings are put into it, or keys taken out of
//! it, one after the other.
use vstd::prelude::*;
use crate::container::{Container, ContainerMut};
use crate::generic::map::BTreeMap;
use crate::generic::node::Node;
use crate::utils::total_order;

verus! {

/// The map `m` after each pair of `s` has been inserted into it, in order.
pub open spec fn inserted<K, V>(m: Map<K, V>, s: Seq<(K, V)>) -> Map<K, V>
    decreases s.len(),
{
    if s.len() == 0 {
        m
    } else {
        inserted(m, s.drop_last()).insert(s.last().0, s.last().1)
    }
}

/// The map `m` after each key of `s` has been removed from it, in order.
pub open spec fn removed<K, V>(m: Map<K, V>, s: Seq<K>) -> Map<K, V>
    decreases s.len(),
{
    if s.len() == 0 {
        m
    } else {
        removed(m, s.drop_last()).remove(s.last())
    }
}

/// The key `k` is the key of a pair of `s`.
pub open spec fn key_in<K, V>(s: Seq<(K, V)>, k: K) -> bool {
    exists|i: int| 0 <= i < s.len() && (#[trigger] s[i]).0 == k
}

/// After a sequence of insertions a map binds each key to the value of the
/// most recent insertion of that key.
pub proof fn lemma_inserted_last<K, V>(m: Map<K, V>, s: Seq<(K, V)>, i: int)
    requires
        0 <= i < s.len(),
        forall|j: int| i < j < s.len() ==> (#[trigger] s[j]).0 != s[i].0,
    ensures
        inserted(m, s).dom().contains(s[i].0),
        inserted(m, s)[s[i].0] == s[i].1,
    decreases s.len(),
{
    if i < s.len() - 1 {
        let t = s.drop_last();
        assert forall|j: int| i < j < t.len() implies (#[trigger] t[j]).0 != t[i].0 by {
            assert(s[j].0 != s[i].0);
        }
        lemma_inserted_last(m, t, i);
        assert(s[s.len() - 1].0 != s[i].0);
    }
}

/// After a sequence of insertions the keys of a map are the keys it had
/// and the keys inserted: into an empty map, the distinct keys inserted.
pub proof fn lemma_inserted_keys<K, V>(m: Map<K, V>, s: Seq<(K, V)>)
    ensures
        forall|k: K| inserted(m, s).dom().contains(k) <==> m.dom().contains(k) || key_in(s, k),
        m.dom().finite() ==> inserted(m, s).dom().finite(),
    decreases s.len(),
{
    if s.len() > 0 {
        let t = s.drop_last();
        lemma_inserted_keys(m, t);
        assert forall|k: K| inserted(m, s).dom().contains(k) <==> m.dom().contains(k) || key_in(s, k) by {
            if key_in(s, k) {
                let i = choose|i: int| 0 <= i < s.len() && (#[trigger] s[i]).0 == k;
                if i < t.len() {
                    assert(t[i].0 == k);
                }
            }
            if key_in(t, k) {
                let i = choose|i: int| 0 <= i < t.len() && (#[trigger] t[i]).0 == k;
                assert(s[i].0 == k);
            }
            if k == s.last().0 {
                assert(s[s.len() - 1].0 == k);
            }
        }
    }
}

/// After a sequence of removals the keys of a map are the keys it had that
/// were not removed: none, where every key that it had was removed.
pub proof fn lemma_removed_keys<K, V>(m: Map<K, V>, s: Seq<K>)
    ensures
        forall|k: K| #[trigger] removed(m, s).dom().contains(k) <==> m.dom().contains(k) && !s.contains(k),
        forall|k: K| #[trigger] removed(m, s).dom().contains(k) ==> removed(m, s)[k] == m[k],
        (forall|k: K| m.dom().contains(k) ==> s.contains(k)) ==> removed(m, s) == Map::<K, V>::empty(),
    decreases s.len(),
{
    if s.len() > 0 {
        let t = s.drop_last();
        let last = s.last();
        lemma_removed_keys(m, t);
        assert forall|k: K| s.contains(k) <==> t.contains(k) || k == last by {
            if s.contains(k) {
                let i = choose|i: int| 0 <= i < s.len() && s[i] == k;
                if i < t.len() {
                    assert(t[i] == k);
                }
            }
            if t.contains(k) {
                let i = choose|i: int| 0 <= i < t.len() && t[i] == k;
                assert(s[i] == k);
            }
            assert(s[s.len() - 1] == last);
        }
        assert forall|k: K| #[trigger] removed(m, s).dom().contains(k) <==> m.dom().contains(k) && !s.contains(k) by {
            assert(removed(m, t).dom().contains(k) <==> m.dom().contains(k) && !t.contains(k));
        }
        assert forall|k: K| #[trigger] removed(m, s).dom().contains(k) implies removed(m, s)[k] == m[k] by {
            assert(removed(m, t).dom().contains(k));
        }
    }
    if forall|k: K| m.dom().contains(k) ==> s.contains(k) {
        assert forall|k: K| !removed(m, s).dom().contains(k) by {
            if removed(m, s).dom().contains(k) {
                assert(m.dom().contains(k) && !s.contains(k));
            }
        }
        assert(removed(m, s) =~= Map::<K, V>::empty());
    }
}

impl<K: Ord, V, C: ContainerMut<Node<K, V>>> BTreeMap<K, V, C> {
    /// Inserts each of the pairs into the map, in order.
    pub fn extend(&mut self, items: Vec<(K, V)>)
        requires
            total_order::<K>(),
            old(self).wf(),
            old(self)@.dom().len() + items@.len() <= usize::MAX,
        ensures
            final(self).wf(),
            final(self)@ == inserted(old(self)@, items@),
    {
        let ghost all = items@;
        let mut items = items;
        let mut rest: Vec<(K, V)> = Vec::new();
        while items.len() > 0
            invariant
                items@ + rest@.reverse() =~= all,
            decreases items@.len(),
        {
            let ghost before = items@;
            let pair = items.pop().unwrap();
            rest.push(pair);
            proof {
                assert(rest@.reverse() =~= seq![pair] + rest@.drop_last().reverse());
                assert(before =~= items@.push(pair));
            }
        }
        proof {
            assert(rest@.reverse() =~= all);
        }
        let ghost done: Seq<(K, V)> = Seq::empty();
        while rest.len() > 0
            invariant
                total_order::<K>(),
                self.wf(),
                done + rest@.reverse() =~= all,
                self@ == inserted(old(self)@, done),
                self@.dom().len() + rest@.len() <= usize::MAX,
            decreases rest@.len(),
        {
            let ghost before = rest@;
            let (key, value) = rest.pop().unwrap();
            proof {
                assert(before.reverse() =~= seq![(key, value)] + rest@.reverse());
                assert((done.push((key, value))).drop_last() =~= done);
            }
            let ghost had = self@.dom().contains(key);
            self.insert(key, value);
            proof {
                done = done.push((key, value));
            }
        }
        proof {
            assert(done =~= all);
        }
    }

    /// The map that holds the pairs, each inserted in order.
    pub fn from_iter(items: Vec<(K, V)>) -> (map: Self)
        requires
            total_order::<K>(),
        ensures
            map.wf(),
            map@ == inserted(Map::<K, V>::empty(), items@),
    {
        let mut map = BTreeMap::new();
        let n = items.len();
        map.extend(items);
        map
    }

    /// Moves all elements from `other` into `self`, leaving `other` empty.
    ///
    /// Where both maps bind a key, the value of `other` stays.
    pub fn append(&mut self, other: &mut Self)
        requires
            total_order::<K>(),
            old(self).wf(),
            old(other).wf(),
            old(self)@.dom().len() + old(other)@.dom().len() <= usize::MAX,
        ensures
            final(self).wf(),
            final(other).wf(),
            final(self)@ == old(self)@.union_prefer_right(old(other)@),
            final(other)@ == Map::<K, V>::empty(),
    {
        // Do we have to append anything at all?
        if other.is_empty() {
            proof {
                other.lemma_empty();
                assert(self@ =~= self@.union_prefer_right(other@));
            }
            return ;
        }
        // We can just swap `self` and `other` if `self` is empty.
        if self.is_empty() {
            proof {
                self.lemma_empty();
                assert(other@ =~= self@.union_prefer_right(other@));
            }
            core::mem::swap(self, other);
            return ;
        }
        let ghost theirs = other@;
        let ghost ours = self@;
        loop
            invariant
                total_order::<K>(),
                self.wf(),
                other.wf(),
                other@.submap_of(theirs),
                self@ =~= ours.union_prefer_right(theirs.remove_keys(other@.dom())),
                self@.dom().len() + other@.dom().len() <= usize::MAX,
            ensures
                self.wf(),
                other.wf(),
                other@ == Map::<K, V>::empty(),
                self@ == ours.union_prefer_right(theirs),
            decreases other@.dom().len(),
        {
            let ghost left = other@;
            match other.pop_first() {
                Some((key, value)) => {
                    self.insert(key, value);
                    proof {
                        assert(self@ =~= ours.union_prefer_right(theirs.remove_keys(other@.dom())));
                    }
                },
                None => {
                    proof {
                        other.lemma_empty();
                        assert(theirs.remove_keys(other@.dom()) =~= theirs);
                    }
                    break ;
                },
            }
        }
    }
}

} // verus!
