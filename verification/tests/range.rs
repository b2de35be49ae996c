use btree_slab::generic::map::{
    is_valid_range,
    Bound::{self, Excluded, Included, Unbounded},
};
use btree_slab::BTreeMap;
use std::cell::Cell;
use std::cmp::Ordering;
use std::rc::Rc;

fn by_ref<T>(bound: &Bound<T>) -> Bound<&T> {
    match bound {
        Included(k) => Included(k),
        Excluded(k) => Excluded(k),
        Unbounded => Unbounded,
    }
}

fn range_keys(map: &BTreeMap<i32, i32>, range: (Bound<i32>, Bound<i32>)) -> Vec<i32> {
    let mut keys = Vec::new();
    let mut it = map.range(by_ref(&range.0), by_ref(&range.1));
    while let Some((&k, &v)) = it.next() {
        assert_eq!(k, v);
        keys.push(k);
    }
    keys
}

fn pairs_in(map: &BTreeMap<i32, i32>, range: (Bound<i32>, Bound<i32>)) -> Vec<(i32, i32)> {
    let mut pairs = Vec::new();
    let mut it = map.range(by_ref(&range.0), by_ref(&range.1));
    while let Some((&k, &v)) = it.next() {
        pairs.push((k, v));
    }
    pairs
}

/// The range of a map, where the bounds are those of a range.
fn checked_range<'a, K: Ord, V>(
    map: &'a BTreeMap<K, V>,
    start: Bound<&K>,
    end: Bound<&K>,
) -> btree_slab::generic::map::Range<'a, K, V, btree_slab::container::SlabStore<btree_slab::generic::Node<K, V>>> {
    if !is_valid_range(start, end) {
        panic!("Invalid range")
    }
    map.range(start, end)
}

fn from_keys(keys: Vec<i32>) -> BTreeMap<i32, i32> {
    BTreeMap::from_iter(keys.into_iter().map(|i| (i, i)).collect())
}

const ALL: Bound<i32> = Unbounded;

#[test]
fn test_range_small() {
    let size = 4;

    let all = Vec::from_iter(1..=size);
    let (first, last) = (vec![all[0]], vec![all[size as usize - 1]]);
    let map = from_keys(all.clone());

    assert_eq!(range_keys(&map, (Excluded(0), Excluded(size + 1))), all);
    assert_eq!(range_keys(&map, (Excluded(0), Included(size + 1))), all);
    assert_eq!(range_keys(&map, (Excluded(0), Included(size))), all);
    assert_eq!(range_keys(&map, (Excluded(0), Unbounded)), all);
    assert_eq!(range_keys(&map, (Included(0), Excluded(size + 1))), all);
    assert_eq!(range_keys(&map, (Included(0), Included(size + 1))), all);
    assert_eq!(range_keys(&map, (Included(0), Included(size))), all);
    assert_eq!(range_keys(&map, (Included(0), Unbounded)), all);
    assert_eq!(range_keys(&map, (Included(1), Excluded(size + 1))), all);
    assert_eq!(range_keys(&map, (Included(1), Included(size + 1))), all);
    assert_eq!(range_keys(&map, (Included(1), Included(size))), all);
    assert_eq!(range_keys(&map, (Included(1), Unbounded)), all);
    assert_eq!(range_keys(&map, (Unbounded, Excluded(size + 1))), all);
    assert_eq!(range_keys(&map, (Unbounded, Included(size + 1))), all);
    assert_eq!(range_keys(&map, (Unbounded, Included(size))), all);
    assert_eq!(range_keys(&map, (ALL, ALL)), all);

    assert_eq!(range_keys(&map, (Excluded(0), Excluded(1))), vec![]);
    assert_eq!(range_keys(&map, (Excluded(0), Included(0))), vec![]);
    assert_eq!(range_keys(&map, (Included(0), Included(0))), vec![]);
    assert_eq!(range_keys(&map, (Included(0), Excluded(1))), vec![]);
    assert_eq!(range_keys(&map, (Unbounded, Excluded(1))), vec![]);
    assert_eq!(range_keys(&map, (Unbounded, Included(0))), vec![]);
    assert_eq!(range_keys(&map, (Excluded(0), Excluded(2))), first);
    assert_eq!(range_keys(&map, (Excluded(0), Included(1))), first);
    assert_eq!(range_keys(&map, (Included(0), Excluded(2))), first);
    assert_eq!(range_keys(&map, (Included(0), Included(1))), first);
    assert_eq!(range_keys(&map, (Included(1), Excluded(2))), first);
    assert_eq!(range_keys(&map, (Included(1), Included(1))), first);
    assert_eq!(range_keys(&map, (Unbounded, Excluded(2))), first);
    assert_eq!(range_keys(&map, (Unbounded, Included(1))), first);
    assert_eq!(
        range_keys(&map, (Excluded(size - 1), Excluded(size + 1))),
        last
    );
    assert_eq!(
        range_keys(&map, (Excluded(size - 1), Included(size + 1))),
        last
    );
    assert_eq!(range_keys(&map, (Excluded(size - 1), Included(size))), last);
    assert_eq!(range_keys(&map, (Excluded(size - 1), Unbounded)), last);
    assert_eq!(range_keys(&map, (Included(size), Excluded(size + 1))), last);
    assert_eq!(range_keys(&map, (Included(size), Included(size + 1))), last);
    assert_eq!(range_keys(&map, (Included(size), Included(size))), last);
    assert_eq!(range_keys(&map, (Included(size), Unbounded)), last);
    assert_eq!(
        range_keys(&map, (Excluded(size), Excluded(size + 1))),
        vec![]
    );
    assert_eq!(range_keys(&map, (Excluded(size), Included(size))), vec![]);
    assert_eq!(range_keys(&map, (Excluded(size), Unbounded)), vec![]);
    assert_eq!(
        range_keys(&map, (Included(size + 1), Excluded(size + 1))),
        vec![]
    );
    assert_eq!(
        range_keys(&map, (Included(size + 1), Included(size + 1))),
        vec![]
    );
    assert_eq!(range_keys(&map, (Included(size + 1), Unbounded)), vec![]);

    assert_eq!(range_keys(&map, (ALL, Excluded(3))), vec![1, 2]);
    assert_eq!(range_keys(&map, (Included(3), ALL)), vec![3, 4]);
    assert_eq!(range_keys(&map, (Included(2), Included(3))), vec![2, 3]);
}

#[test]
fn test_range_large() {
    let size = 200;

    let all = Vec::from_iter(1..=size);
    let (first, last) = (vec![all[0]], vec![all[size as usize - 1]]);
    let map = from_keys(all.clone());

    assert_eq!(range_keys(&map, (Excluded(0), Excluded(size + 1))), all);
    assert_eq!(range_keys(&map, (Excluded(0), Included(size + 1))), all);
    assert_eq!(range_keys(&map, (Excluded(0), Included(size))), all);
    assert_eq!(range_keys(&map, (Excluded(0), Unbounded)), all);
    assert_eq!(range_keys(&map, (Included(0), Excluded(size + 1))), all);
    assert_eq!(range_keys(&map, (Included(0), Included(size + 1))), all);
    assert_eq!(range_keys(&map, (Included(0), Included(size))), all);
    assert_eq!(range_keys(&map, (Included(0), Unbounded)), all);
    assert_eq!(range_keys(&map, (Included(1), Excluded(size + 1))), all);
    assert_eq!(range_keys(&map, (Included(1), Included(size + 1))), all);
    assert_eq!(range_keys(&map, (Included(1), Included(size))), all);
    assert_eq!(range_keys(&map, (Included(1), Unbounded)), all);
    assert_eq!(range_keys(&map, (Unbounded, Excluded(size + 1))), all);
    assert_eq!(range_keys(&map, (Unbounded, Included(size + 1))), all);
    assert_eq!(range_keys(&map, (Unbounded, Included(size))), all);
    assert_eq!(range_keys(&map, (ALL, ALL)), all);

    assert_eq!(range_keys(&map, (Excluded(0), Excluded(1))), vec![]);
    assert_eq!(range_keys(&map, (Excluded(0), Included(0))), vec![]);
    assert_eq!(range_keys(&map, (Included(0), Included(0))), vec![]);
    assert_eq!(range_keys(&map, (Included(0), Excluded(1))), vec![]);
    assert_eq!(range_keys(&map, (Unbounded, Excluded(1))), vec![]);
    assert_eq!(range_keys(&map, (Unbounded, Included(0))), vec![]);
    assert_eq!(range_keys(&map, (Excluded(0), Excluded(2))), first);
    assert_eq!(range_keys(&map, (Excluded(0), Included(1))), first);
    assert_eq!(range_keys(&map, (Included(0), Excluded(2))), first);
    assert_eq!(range_keys(&map, (Included(0), Included(1))), first);
    assert_eq!(range_keys(&map, (Included(1), Excluded(2))), first);
    assert_eq!(range_keys(&map, (Included(1), Included(1))), first);
    assert_eq!(range_keys(&map, (Unbounded, Excluded(2))), first);
    assert_eq!(range_keys(&map, (Unbounded, Included(1))), first);
    assert_eq!(
        range_keys(&map, (Excluded(size - 1), Excluded(size + 1))),
        last
    );
    assert_eq!(
        range_keys(&map, (Excluded(size - 1), Included(size + 1))),
        last
    );
    assert_eq!(range_keys(&map, (Excluded(size - 1), Included(size))), last);
    assert_eq!(range_keys(&map, (Excluded(size - 1), Unbounded)), last);
    assert_eq!(range_keys(&map, (Included(size), Excluded(size + 1))), last);
    assert_eq!(range_keys(&map, (Included(size), Included(size + 1))), last);
    assert_eq!(range_keys(&map, (Included(size), Included(size))), last);
    assert_eq!(range_keys(&map, (Included(size), Unbounded)), last);
    assert_eq!(
        range_keys(&map, (Excluded(size), Excluded(size + 1))),
        vec![]
    );
    assert_eq!(range_keys(&map, (Excluded(size), Included(size))), vec![]);
    assert_eq!(range_keys(&map, (Excluded(size), Unbounded)), vec![]);
    assert_eq!(
        range_keys(&map, (Included(size + 1), Excluded(size + 1))),
        vec![]
    );
    assert_eq!(
        range_keys(&map, (Included(size + 1), Included(size + 1))),
        vec![]
    );
    assert_eq!(range_keys(&map, (Included(size + 1), Unbounded)), vec![]);

    assert_eq!(
        pairs_in(&map, (ALL, Included(100))),
        pairs_in(&map, (ALL, Excluded(101)))
    );
    assert_eq!(
        pairs_in(&map, (Included(5), Included(8))),
        vec![(5, 5), (6, 6), (7, 7), (8, 8)]
    );
    assert_eq!(pairs_in(&map, (Included(-1), Included(2))), vec![(1, 1), (2, 2)]);
}

#[test]
fn test_range_inclusive_max_value() {
    let max = usize::MAX;
    let mut map = BTreeMap::new();
    map.insert(max, 0);
    let mut it = map.range(Included(&max), Included(&max));
    assert_eq!(it.next(), Some((&max, &0)));
    assert_eq!(it.next(), None);
}

#[test]
fn test_range_equal_empty_cases() {
    let map = from_keys((0..5).collect());
    assert_eq!(map.range(Included(&2), Excluded(&2)).next(), None);
    assert_eq!(map.range(Excluded(&2), Included(&2)).next(), None);
}

#[test]
#[should_panic]
fn test_range_equal_excluded() {
    let map = from_keys((0..5).collect());
    let _ = checked_range(&map, Excluded(&2), Excluded(&2));
}

#[test]
#[should_panic]
fn test_range_backwards_1() {
    let map = from_keys((0..5).collect());
    let _ = checked_range(&map, Included(&3), Included(&2));
}

#[test]
#[should_panic]
fn test_range_backwards_2() {
    let map = from_keys((0..5).collect());
    let _ = checked_range(&map, Included(&3), Excluded(&2));
}

#[test]
#[should_panic]
fn test_range_backwards_3() {
    let map = from_keys((0..5).collect());
    let _ = checked_range(&map, Excluded(&3), Included(&2));
}

#[test]
#[should_panic]
fn test_range_backwards_4() {
    let map = from_keys((0..5).collect());
    let _ = checked_range(&map, Excluded(&3), Excluded(&2));
}

/// A key that, once it is a probe, has the proper order the first time
/// it is asked, and the reverse order ever after.
struct EvilTwin {
    key: i32,
    probe: bool,
    compares: Rc<Cell<usize>>,
}

impl PartialOrd for EvilTwin {
    fn partial_cmp(&self, other: &Self) -> Option<Ordering> {
        Some(self.cmp(other))
    }
}

impl Ord for EvilTwin {
    fn cmp(&self, other: &Self) -> Ordering {
        let ord = self.key.cmp(&other.key);
        if self.probe || other.probe {
            let asked = self.compares.get();
            self.compares.set(asked + 1);
            if asked > 0 {
                return ord.reverse();
            }
        }
        ord
    }
}

impl PartialEq for EvilTwin {
    fn eq(&self, other: &Self) -> bool {
        self.key.eq(&other.key)
    }
}

impl Eq for EvilTwin {}

#[test]
fn test_range_finding_ill_order_in_range_ord() {
    let compares = Rc::new(Cell::new(0));
    let twin = |key: i32, probe: bool| EvilTwin { key, probe, compares: compares.clone() };
    let map: BTreeMap<EvilTwin, ()> = BTreeMap::from_iter((0..12).map(|i| (twin(i, false), ())).collect());
    assert_eq!(compares.get(), 0);
    let (start, end) = (twin(5, true), twin(7, true));
    let _ = checked_range(&map, Included(&start), Included(&end));
    assert!(compares.get() > 1);
}

#[test]
fn test_range_1000() {
    let size = 1000;
    let map: BTreeMap<u32, u32> = BTreeMap::from_iter((0..size).map(|i| (i, i)).collect());

    fn test(map: &BTreeMap<u32, u32>, size: u32, min: Bound<&u32>, max: Bound<&u32>) {
        let mut kvs = map.range(min, max);
        let mut pairs = (0..size).map(|i| (i, i));

        loop {
            match (kvs.next(), pairs.next()) {
                (Some((&k, &v)), Some(pair)) => assert_eq!((k, v), pair),
                (None, None) => break,
                (kv, pair) => panic!("{:?} is not {:?}", kv, pair),
            }
        }
    }
    test(&map, size, Included(&0), Excluded(&size));
    test(&map, size, Unbounded, Excluded(&size));
    test(&map, size, Included(&0), Included(&(size - 1)));
    test(&map, size, Unbounded, Included(&(size - 1)));
    test(&map, size, Included(&0), Unbounded);
    test(&map, size, Unbounded, Unbounded);
}

#[test]
fn test_range_borrowed_key() {
    let mut map = BTreeMap::new();
    map.insert("aardvark".to_string(), 1);
    map.insert("baboon".to_string(), 2);
    map.insert("coyote".to_string(), 3);
    map.insert("dingo".to_string(), 4);
    let b = "b".to_string();
    let d = "d".to_string();
    let mut iter = map.range(Included(&b), Excluded(&d));
    assert_eq!(iter.next(), Some((&"baboon".to_string(), &2)));
    assert_eq!(iter.next(), Some((&"coyote".to_string(), &3)));
    assert_eq!(iter.next(), None);
}

#[test]
fn test_range() {
    let size = 200;
    let map: BTreeMap<i32, i32> = BTreeMap::from_iter((0..size).map(|i| (i, i)).collect());

    for i in 0..size {
        for j in i..size {
            let mut kvs = map.range(Included(&i), Included(&j));
            let mut pairs = (i..=j).map(|i| (i, i));

            loop {
                match (kvs.next(), pairs.next()) {
                    (Some((&k, &v)), Some(pair)) => assert_eq!((k, v), pair),
                    (None, None) => break,
                    (kv, pair) => panic!("{:?} is not {:?}", kv, pair),
                }
            }
        }
    }
}

#[should_panic]
#[test]
fn test_range_panic_1() {
    let mut map = BTreeMap::new();
    map.insert(3, "a");
    map.insert(5, "b");
    map.insert(8, "c");

    let _invalid_range = checked_range(&map, Included(&8), Included(&3));
}

#[should_panic]
#[test]
fn test_range_panic_2() {
    let mut map = BTreeMap::new();
    map.insert(3, "a");
    map.insert(5, "b");
    map.insert(8, "c");

    let _invalid_range = checked_range(&map, Excluded(&5), Excluded(&5));
}

#[should_panic]
#[test]
fn test_range_panic_3() {
    let mut map: BTreeMap<i32, ()> = BTreeMap::new();
    map.insert(3, ());
    map.insert(5, ());
    map.insert(8, ());

    let _invalid_range = checked_range(&map, Excluded(&5), Excluded(&5));
}

#[test]
fn range_of_a_hundred_keys() {
    let map = from_keys((1..=100).collect());
    assert_eq!(
        range_keys(&map, (Included(30), Included(40))),
        vec![30, 31, 32, 33, 34, 35, 36, 37, 38, 39, 40]
    );
    assert_eq!(range_keys(&map, (Included(101), ALL)), vec![]);
}

#[test]
fn test_range_mut() {
    let size = 200;
    let mut map: BTreeMap<i32, i32> = BTreeMap::from_iter((0..size).map(|i| (i, i)).collect());

    for i in 0..size {
        for j in i..size {
            let mut kvs = map.range_mut(Included(&i), Included(&j));
            let mut pairs = (i..=j).map(|i| (i, i));

            loop {
                match (kvs.next().map(|(&k, &mut v)| (k, v)), pairs.next()) {
                    (Some(kv), Some(pair)) => assert_eq!(kv, pair),
                    (None, None) => break,
                    (kv, pair) => panic!("{:?} is not {:?}", kv, pair),
                }
            }
        }
    }
    assert!(map.validate());
}
