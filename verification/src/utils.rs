//! Key order and search in sorted slices.
use vstd::prelude::*;
use vstd::std_specs::cmp::OrdSpec;
use core::cmp::Ordering;
use crate::generic::node::Keyed;

verus! {

/// `a` sorts strictly before `b`.
pub open spec fn lt<K: Ord>(a: K, b: K) -> bool {
    a.cmp_spec(&b) == Ordering::Less
}

/// `a` sorts before `b`, or is `b`.
pub open spec fn le<K: Ord>(a: K, b: K) -> bool {
    lt(a, b) || a == b
}

/// The comparison of `K` is a strict total order in which two keys compare
/// equal exactly when they are the same key, and `Ord::cmp` computes it.
pub open spec fn total_order<K: Ord>() -> bool {
    &&& K::obeys_cmp_spec()
    &&& forall|a: K, b: K| #[trigger] a.cmp_spec(&b) == Ordering::Equal <==> a == b
    &&& forall|a: K, b: K| #[trigger] a.cmp_spec(&b) == Ordering::Greater <==> lt(b, a)
    &&& forall|a: K, b: K, c: K| #[trigger] lt(a, b) && #[trigger] lt(b, c) ==> lt(a, c)
}

/// In a total order no key sorts before itself, and of two distinct keys
/// exactly one sorts before the other.
pub proof fn lemma_order_basics<K: Ord>(a: K, b: K)
    requires
        total_order::<K>(),
    ensures
        !lt(a, a),
        lt(a, b) ==> !lt(b, a) && a != b,
        lt(a, b) || a == b || lt(b, a),
{
    assert(a.cmp_spec(&a) == Ordering::Equal);
    if lt(a, b) && lt(b, a) {
        assert(lt(a, a));
    }
    match a.cmp_spec(&b) {
        Ordering::Less => {},
        Ordering::Equal => {},
        Ordering::Greater => {},
    }
}

/// The unsigned integers are totally ordered.
pub proof fn lemma_unsigned_total_order()
    ensures
        total_order::<u8>(),
        total_order::<u16>(),
        total_order::<u32>(),
        total_order::<u64>(),
        total_order::<u128>(),
        total_order::<usize>(),
{
}

/// The signed integers are totally ordered.
pub proof fn lemma_signed_total_order()
    ensures
        total_order::<i8>(),
        total_order::<i16>(),
        total_order::<i32>(),
        total_order::<i64>(),
        total_order::<i128>(),
        total_order::<isize>(),
{
}

/// Tells whether `a` sorts strictly before `b`.
pub fn key_lt<K: Ord>(a: &K, b: &K) -> (r: bool)
    requires
        total_order::<K>(),
    ensures
        r == lt(*a, *b),
{
    match a.cmp(b) {
        Ordering::Less => true,
        _ => false,
    }
}

/// Tells whether `a` and `b` are the same key.
pub fn key_eq<K: Ord>(a: &K, b: &K) -> (r: bool)
    requires
        total_order::<K>(),
    ensures
        r == (*a == *b),
{
    match a.cmp(b) {
        Ordering::Equal => true,
        _ => false,
    }
}

/// The keys of `s` are strictly increasing.
pub open spec fn sorted<T: Keyed>(s: Seq<T>) -> bool where T::Key: Ord {
    forall|i: int, j: int| 0 <= i < j < s.len() ==> lt(#[trigger] s[i].key_spec(), #[trigger] s[j].key_spec())
}

/// Where `key` falls among the keys of `s`: the index of the last element
/// whose key is `key` or sorts before it, if there is one.
pub open spec fn is_floor<T: Keyed>(s: Seq<T>, key: T::Key, r: Option<usize>) -> bool where T::Key: Ord {
    match r {
        None => s.len() == 0 || lt(key, s[0].key_spec()),
        Some(i) => {
            &&& i < s.len()
            &&& le(s[i as int].key_spec(), key)
            &&& i + 1 < s.len() ==> lt(key, s[i + 1].key_spec())
        },
    }
}

/// In a sorted sequence, every element up to the floor of `key` sorts
/// before `key` or holds it, and every element after it sorts after `key`.
pub proof fn lemma_floor_splits<T: Keyed>(s: Seq<T>, key: T::Key, r: Option<usize>) where T::Key: Ord
    requires
        total_order::<T::Key>(),
        sorted(s),
        is_floor(s, key, r),
    ensures
        forall|j: int| 0 <= j < s.len() && (r is Some && j <= r->0) ==> le(#[trigger] s[j].key_spec(), key),
        forall|j: int| 0 <= j < s.len() && (r is None || j > r->0) ==> lt(key, #[trigger] s[j].key_spec()),
        forall|j: int| 0 <= j < s.len() && #[trigger] s[j].key_spec() == key ==> r == Some(j as usize),
{
    assert forall|j: int| 0 <= j < s.len() && (r is Some && j <= r->0) implies le(#[trigger] s[j].key_spec(), key) by {
        let i = r->0 as int;
        if j < i {
            assert(lt(s[j].key_spec(), s[i].key_spec()));
        }
    }
    assert forall|j: int| 0 <= j < s.len() && (r is None || j > r->0) implies lt(key, #[trigger] s[j].key_spec()) by {
        if r is None {
            if j > 0 {
                assert(lt(s[0].key_spec(), s[j].key_spec()));
            }
        } else {
            let i = r->0 as int;
            if j > i + 1 {
                assert(lt(s[i + 1].key_spec(), s[j].key_spec()));
            }
        }
    }
    assert forall|j: int| 0 <= j < s.len() && #[trigger] s[j].key_spec() == key implies r == Some(j as usize) by {
        lemma_order_basics(key, key);
        if r is None || j > r->0 {
            assert(lt(key, s[j].key_spec()));
        } else if j < r->0 {
            let i = r->0 as int;
            assert(lt(s[j].key_spec(), s[i].key_spec()));
            lemma_order_basics(s[i].key_spec(), key);
        }
    }
}

/// The index at which `key` stands in `s`, if it stands there.
pub open spec fn index_of<T: Keyed>(s: Seq<T>, key: T::Key) -> Option<int> {
    if exists|i: int| 0 <= i < s.len() && #[trigger] s[i].key_spec() == key {
        Some(choose|i: int| 0 <= i < s.len() && #[trigger] s[i].key_spec() == key)
    } else {
        None
    }
}

/// The elements of `s` before index `g` sort before `key`, the others after
/// it.
pub open spec fn is_gap<T: Keyed>(s: Seq<T>, key: T::Key, g: int) -> bool where T::Key: Ord {
    &&& 0 <= g <= s.len()
    &&& forall|j: int| 0 <= j < g ==> lt(#[trigger] s[j].key_spec(), key)
    &&& forall|j: int| g <= j < s.len() ==> lt(key, #[trigger] s[j].key_spec())
}

/// The index at which a key that is not in `s` is to be inserted.
pub open spec fn gap_of<T: Keyed>(s: Seq<T>, key: T::Key) -> int where T::Key: Ord {
    choose|g: int| is_gap(s, key, g)
}

/// A key stands at one index of a sorted sequence at most.
pub proof fn lemma_index_of<T: Keyed>(s: Seq<T>, key: T::Key, i: int) where T::Key: Ord
    requires
        total_order::<T::Key>(),
        sorted(s),
        0 <= i < s.len(),
        s[i].key_spec() == key,
    ensures
        index_of(s, key) == Some(i),
{
    let j = index_of(s, key)->0;
    lemma_order_basics(key, key);
    if j < i {
        assert(lt(s[j].key_spec(), s[i].key_spec()));
    } else if i < j {
        assert(lt(s[i].key_spec(), s[j].key_spec()));
    }
}

/// A key has one gap at most, and none where it stands in the sequence.
pub proof fn lemma_gap_of<T: Keyed>(s: Seq<T>, key: T::Key, g: int) where T::Key: Ord
    requires
        total_order::<T::Key>(),
        is_gap(s, key, g),
    ensures
        gap_of(s, key) == g,
        index_of(s, key) is None,
{
    let h = gap_of(s, key);
    assert(is_gap(s, key, h));
    if h < g {
        assert(lt(s[h].key_spec(), key));
        assert(lt(key, s[h].key_spec()));
        lemma_order_basics(key, s[h].key_spec());
    } else if g < h {
        assert(lt(s[g].key_spec(), key));
        assert(lt(key, s[g].key_spec()));
        lemma_order_basics(key, s[g].key_spec());
    }
    if index_of(s, key) is Some {
        let i = index_of(s, key)->0;
        lemma_order_basics(key, key);
        if i < g {
            assert(lt(s[i].key_spec(), key));
        } else {
            assert(lt(key, s[i].key_spec()));
        }
    }
}

/// Searches `sorted_slice` for the element with the nearest key smaller than
/// or equal to `key`.
///
/// The slice is expected to be sorted; whatever its order, the element found
/// does not sort after `key` and its right neighbour does.
pub fn binary_search_min<T: Keyed>(sorted_slice: &[T], key: &T::Key) -> (r: Option<usize>) where T::Key: Ord
    requires
        total_order::<T::Key>(),
    ensures
        is_floor(sorted_slice@, *key, r),
{
    if sorted_slice.len() == 0 || key_lt(key, sorted_slice[0].key()) {
        None
    } else {
        let mut i: usize = 0;
        let mut j: usize = sorted_slice.len() - 1;
        proof {
            lemma_order_basics(*key, sorted_slice@[0].key_spec());
        }
        if !key_lt(key, sorted_slice[j].key()) {
            proof {
                lemma_order_basics(*key, sorted_slice@[j as int].key_spec());
            }
            return Some(j);
        }
        while j - i > 1
            invariant
                total_order::<T::Key>(),
                i < j < sorted_slice.len(),
                le(sorted_slice@[i as int].key_spec(), *key),
                lt(*key, sorted_slice@[j as int].key_spec()),
            decreases j - i,
        {
            let k: usize = i + (j - i) / 2;
            if key_lt(key, sorted_slice[k].key()) {
                j = k;
            } else {
                proof {
                    lemma_order_basics(*key, sorted_slice@[k as int].key_spec());
                }
                i = k;
            }
        }
        Some(i)
    }
}

/// Inserting an element between the elements that sort before it and those
/// that sort after it keeps a sequence sorted.
pub proof fn lemma_inserted_sorted<T: Keyed>(s: Seq<T>, at: int, x: T) where T::Key: Ord
    requires
        total_order::<T::Key>(),
        sorted(s),
        0 <= at <= s.len(),
        forall|j: int| 0 <= j < at ==> lt(#[trigger] s[j].key_spec(), x.key_spec()),
        forall|j: int| at <= j < s.len() ==> lt(x.key_spec(), #[trigger] s[j].key_spec()),
    ensures
        sorted(s.insert(at, x)),
{
    let t = s.insert(at, x);
    assert forall|a: int, b: int| 0 <= a < b < t.len() implies lt(
        #[trigger] t[a].key_spec(),
        #[trigger] t[b].key_spec(),
    ) by {
        if a < at && b > at {
            assert(t[a] == s[a] && t[b] == s[b - 1]);
            if a < b - 1 {
                assert(lt(s[a].key_spec(), s[b - 1].key_spec()));
            } else {
                assert(lt(s[a].key_spec(), x.key_spec()));
                assert(lt(x.key_spec(), s[b - 1].key_spec()));
            }
        } else if a < at && b == at {
        } else if a < at {
            assert(t[a] == s[a] && t[b] == s[b]);
        } else if a == at {
            assert(t[b] == s[b - 1]);
        } else {
            assert(t[a] == s[a - 1] && t[b] == s[b - 1]);
        }
    }
}

/// A sequence whose neighbours are in order is sorted.
pub proof fn lemma_adjacent_sorted<T: Keyed>(s: Seq<T>) where T::Key: Ord
    requires
        total_order::<T::Key>(),
        forall|j: int| 1 <= j < s.len() ==> lt(#[trigger] s[j - 1].key_spec(), s[j].key_spec()),
    ensures
        sorted(s),
    decreases s.len(),
{
    if s.len() > 1 {
        let t = s.drop_last();
        assert forall|j: int| 1 <= j < t.len() implies lt(#[trigger] t[j - 1].key_spec(), t[j].key_spec()) by {
            assert(lt(s[j - 1].key_spec(), s[j].key_spec()));
        }
        lemma_adjacent_sorted(t);
        let n = s.len() as int;
        assert forall|a: int, b: int| 0 <= a < b < s.len() implies lt(
            #[trigger] s[a].key_spec(),
            #[trigger] s[b].key_spec(),
        ) by {
            if b < n - 1 {
                assert(lt(t[a].key_spec(), t[b].key_spec()));
            } else {
                assert(lt(s[n - 1 - 1].key_spec(), s[n - 1].key_spec()));
                if a < n - 2 {
                    assert(lt(t[a].key_spec(), t[n - 2].key_spec()));
                }
            }
        }
    }
}

/// Tells whether the keys of the slice are strictly increasing.
pub fn is_sorted<T: Keyed>(slice: &[T]) -> (r: bool) where T::Key: Ord
    requires
        total_order::<T::Key>(),
    ensures
        r == sorted(slice@),
{
    let n = slice.len();
    let mut i: usize = 1;
    while i < n
        invariant
            total_order::<T::Key>(),
            n == slice@.len(),
            1 <= i,
            forall|j: int| 1 <= j < i && j < n ==> lt(#[trigger] slice@[j - 1].key_spec(), slice@[j].key_spec()),
        decreases n - i,
    {
        if !key_lt(slice[i - 1].key(), slice[i].key()) {
            proof {
                if sorted(slice@) {
                    assert(lt(slice@[i - 1].key_spec(), slice@[i as int].key_spec()));
                }
            }
            return false;
        }
        i += 1;
    }
    proof {
        lemma_adjacent_sorted(slice@);
    }
    true
}

} // verus!
