use btree_slab::generic::map::Bound::{Excluded, Included, Unbounded};
use btree_slab::BTreeSet;

fn set_of(items: &[i32]) -> BTreeSet<i32> {
    BTreeSet::from_iter(items.to_vec())
}

fn drained<'a>(mut selection: btree_slab::generic::set::Selection<'a, i32>) -> Vec<i32> {
    let mut all = Vec::new();
    while let Some(x) = selection.next() {
        all.push(*x);
    }
    all
}

#[test]
fn set_basics() {
    let mut set = BTreeSet::new();
    assert!(set.is_empty());
    assert!(set.insert(2));
    assert!(set.insert(1));
    assert!(!set.insert(2));
    assert_eq!(set.len(), 2);
    assert!(set.contains(&1));
    assert!(!set.contains(&3));
    assert_eq!(set.get(&2), Some(&2));
    assert_eq!(set.get(&3), None);
    assert_eq!(set.first(), Some(&1));
    assert_eq!(set.last(), Some(&2));
    assert_eq!(set.replace(2), Some(2));
    assert_eq!(set.replace(5), None);
    assert_eq!(set.take(&5), Some(5));
    assert_eq!(set.take(&5), None);
    assert!(set.remove(&1));
    assert!(!set.remove(&1));
    assert_eq!(set.pop_first(), Some(2));
    assert_eq!(set.pop_last(), None);
    set.insert(7);
    set.clear();
    assert!(set.is_empty());
    assert_eq!(set.first(), None);
}

#[test]
fn set_iteration() {
    let set = set_of(&[5, 3, 9, 1, 7, 3]);
    assert_eq!(set.len(), 5);
    let mut it = set.iter();
    let mut all = Vec::new();
    while let Some(x) = it.next() {
        all.push(*x);
    }
    assert_eq!(all, vec![1, 3, 5, 7, 9]);
    let mut range = set.range(Excluded(&1), Included(&7));
    let mut some = Vec::new();
    while let Some((x, _)) = range.next() {
        some.push(*x);
    }
    assert_eq!(some, vec![3, 5, 7]);
    assert_eq!(set.range(Unbounded, Excluded(&1)).next(), None);
    let mut owned = Vec::new();
    let mut it = set.into_iter();
    assert_eq!(it.next_back(), Some(9));
    while let Some(x) = it.next() {
        owned.push(x);
    }
    assert_eq!(owned, vec![1, 3, 5, 7]);
}

#[test]
fn set_operations() {
    let a = set_of(&[1, 2, 3, 4, 5, 6]);
    let b = set_of(&[4, 5, 6, 7, 8]);
    let none = set_of(&[]);
    assert_eq!(drained(a.union(&b)), vec![1, 2, 3, 4, 5, 6, 7, 8]);
    assert_eq!(drained(a.intersection(&b)), vec![4, 5, 6]);
    assert_eq!(drained(a.difference(&b)), vec![1, 2, 3]);
    assert_eq!(drained(b.difference(&a)), vec![7, 8]);
    assert_eq!(drained(a.symmetric_difference(&b)), vec![1, 2, 3, 7, 8]);
    assert_eq!(drained(a.union(&none)), vec![1, 2, 3, 4, 5, 6]);
    assert_eq!(drained(none.union(&a)), vec![1, 2, 3, 4, 5, 6]);
    assert_eq!(drained(none.intersection(&a)), Vec::<i32>::new());
    assert_eq!(a.union(&b).len(), 8);
    assert!(!a.is_disjoint(&b));
    assert!(a.is_disjoint(&set_of(&[10, 11])));
    assert!(set_of(&[2, 3]).is_subset(&a));
    assert!(!b.is_subset(&a));
    assert!(a.is_superset(&set_of(&[1, 6])));
    assert!(!a.is_superset(&b));
    assert!(none.is_subset(&a));
}

#[test]
fn set_changes_in_bulk() {
    let mut a = set_of(&[1, 2, 3]);
    let mut b = set_of(&[3, 4, 5]);
    a.append(&mut b);
    assert_eq!(a.len(), 5);
    assert!(b.is_empty());
    a.extend(vec![5, 6, 7, 8]);
    assert_eq!(a.len(), 8);
    a.retain(|x| x % 2 == 0);
    assert_eq!(drained(a.union(&a)), vec![2, 4, 6, 8]);
    let mut out = a.drain_filter(|x| *x > 4);
    assert_eq!(out.next(), Some((6, ())));
    assert_eq!(out.next(), Some((8, ())));
    assert_eq!(out.next(), None);
    assert_eq!(drained(a.union(&a)), vec![2, 4]);
}
