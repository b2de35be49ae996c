use btree_slab::container::{Container, ContainerMut, SlabStore};
use btree_slab::generic::map::Bound::{Excluded, Included, Unbounded};
use btree_slab::generic::map::Entry;
use btree_slab::generic::node::store::Items;
use btree_slab::generic::node::{decimal_of, Balance, Item, ItemAddr, Node, Offset};
use btree_slab::utils::binary_search_min;
use btree_slab::BTreeMap;

fn keys_of<V>(map: &BTreeMap<i32, V>) -> Vec<i32> {
    let mut keys = Vec::new();
    let mut it = map.keys();
    while let Some(k) = it.next() {
        keys.push(*k);
    }
    keys
}

#[test]
fn scenario_with_order_of_eight() {
    let mut map: BTreeMap<i32, &str> = BTreeMap::new();
    for key in [3, 1, 4, 1, 5, 9, 2, 6] {
        map.insert(key, "x");
        assert!(map.validate());
    }
    assert_eq!(map.len(), 7);
    assert_eq!(map.insert(1, "a"), Some("x"));
    assert_eq!(map.insert(1, "b"), Some("a"));
    assert_eq!(map.get(&1), Some(&"b"));
    assert_eq!(map.len(), 7);
    assert_eq!(keys_of(&map), vec![1, 2, 3, 4, 5, 6, 9]);
    assert_eq!(map.remove(&9), Some("x"));
    assert_eq!(map.get(&9), None);
    assert!(map.validate());
    assert_eq!(map.len(), 6);
}

#[test]
fn get_returns_the_most_recent_value() {
    let mut map: BTreeMap<u32, u32> = BTreeMap::new();
    let mut expected = std::collections::BTreeMap::new();
    let mut x: u32 = 12345;
    for i in 0..2000 {
        x = x.wrapping_mul(1664525).wrapping_add(1013904223);
        let key = (x >> 16) % 300;
        assert_eq!(map.insert(key, i), expected.insert(key, i));
    }
    assert_eq!(map.len(), expected.len());
    for (key, value) in &expected {
        assert_eq!(map.get(key), Some(value));
    }
    assert!(map.validate());
}

#[test]
fn removing_every_key_empties_the_map() {
    let mut map: BTreeMap<u32, u32> = BTreeMap::new();
    for i in 0..500 {
        map.insert((i * 7919) % 1009, i);
    }
    let mut x: u32 = 99;
    let mut keys: Vec<u32> = (0..500).map(|i| (i * 7919) % 1009).collect();
    while !keys.is_empty() {
        x = x.wrapping_mul(1664525).wrapping_add(1013904223);
        let key = keys.swap_remove((x >> 8) as usize % keys.len());
        assert!(map.remove(&key).is_some());
        assert!(map.validate());
        assert_eq!(map.len(), keys.len());
    }
    assert!(map.is_empty());
    assert_eq!(map.len(), 0);
    assert_eq!(map.root_id(), None);
}

#[test]
fn iteration_is_ordered_after_interleaved_changes() {
    let mut map: BTreeMap<i32, i32> = BTreeMap::new();
    let mut expected = std::collections::BTreeMap::new();
    let mut x: u32 = 7;
    for _ in 0..3000 {
        x = x.wrapping_mul(1664525).wrapping_add(1013904223);
        let key = ((x >> 16) % 200) as i32;
        if (x >> 5) % 3 == 0 {
            assert_eq!(map.remove(&key), expected.remove(&key));
        } else {
            assert_eq!(map.insert(key, key * 2), expected.insert(key, key * 2));
        }
    }
    let mut it = map.iter();
    assert_eq!(it.len(), map.len());
    let mut seen = Vec::new();
    while let Some((k, v)) = it.next() {
        assert_eq!(*v, *k * 2);
        if let Some(last) = seen.last() {
            assert!(last < k);
        }
        seen.push(*k);
    }
    assert_eq!(seen.len(), map.len());
    assert_eq!(seen, expected.keys().copied().collect::<Vec<_>>());
}

#[test]
fn iter_from_both_ends_meets_in_the_middle() {
    let map: BTreeMap<i32, i32> = BTreeMap::from_iter((0..10).map(|i| (i, i)).collect());
    let mut it = map.iter();
    assert_eq!(it.size_hint(), (10, Some(10)));
    assert_eq!(it.next(), Some((&0, &0)));
    assert_eq!(it.next_back(), Some((&9, &9)));
    assert_eq!(it.next_back(), Some((&8, &8)));
    assert_eq!(it.len(), 7);
    let mut rest = Vec::new();
    while let Some((k, _)) = it.next() {
        rest.push(*k);
    }
    assert_eq!(rest, vec![1, 2, 3, 4, 5, 6, 7]);
    assert_eq!(it.next_back(), None);
}

#[test]
fn values_follow_the_keys() {
    let map: BTreeMap<i32, i32> = BTreeMap::from_iter(vec![(3, 30), (1, 10), (2, 20)]);
    let mut values = map.values();
    assert_eq!(values.len(), 3);
    assert_eq!(values.next(), Some(&10));
    assert_eq!(values.next_back(), Some(&30));
    assert_eq!(values.next(), Some(&20));
    assert_eq!(values.next(), None);
}

#[test]
fn from_iter_keeps_the_last_of_equal_keys() {
    let map: BTreeMap<i32, &str> = BTreeMap::from_iter(vec![(1, "a"), (2, "b"), (1, "c")]);
    assert_eq!(map.len(), 2);
    assert_eq!(map.get(&1), Some(&"c"));
    assert_eq!(map.get(&2), Some(&"b"));
}

#[test]
fn first_and_last() {
    let mut map: BTreeMap<i32, &str> = BTreeMap::new();
    assert_eq!(map.first_key_value(), None);
    assert_eq!(map.last_key_value(), None);
    assert_eq!(map.pop_first(), None);
    for i in 0..50 {
        map.insert((i * 17) % 50, "v");
    }
    assert_eq!(map.first_key_value(), Some((&0, &"v")));
    assert_eq!(map.last_key_value(), Some((&49, &"v")));
    assert_eq!(map.pop_first(), Some((0, "v")));
    assert_eq!(map.pop_last(), Some((49, "v")));
    assert_eq!(map.first_key_value(), Some((&1, &"v")));
    assert_eq!(map.last_key_value(), Some((&48, &"v")));
    assert_eq!(map.len(), 48);
    assert!(map.validate());
}

#[test]
fn get_mut_changes_the_value() {
    let mut map = BTreeMap::new();
    map.insert(1, "a");
    if let Some(x) = map.get_mut(&1) {
        *x = "b";
    }
    assert_eq!(map.get(&1), Some(&"b"));
    assert_eq!(map.get_mut(&2), None);
    assert_eq!(map.get_key_value(&1), Some((&1, &"b")));
    assert!(map.contains_key(&1));
    assert!(!map.contains_key(&2));
}

#[test]
fn replace_take_and_remove_entry() {
    let mut map = BTreeMap::new();
    assert_eq!(map.replace(1, "a"), None);
    assert_eq!(map.replace(1, "b"), Some((1, "a")));
    assert_eq!(map.remove_entry(&1), Some((1, "b")));
    assert_eq!(map.remove_entry(&1), None);
    map.insert(2, "c");
    assert_eq!(map.take(&2), Some((2, "c")));
    assert!(map.is_empty());
}

#[test]
fn clear_empties_the_map() {
    let mut map = BTreeMap::new();
    for i in 0..100 {
        map.insert(i, i);
    }
    map.clear();
    assert!(map.is_empty());
    assert_eq!(map.len(), 0);
    assert_eq!(map.get(&3), None);
    map.insert(3, 4);
    assert_eq!(map.get(&3), Some(&4));
    assert!(map.validate());
}

#[test]
fn update_with_a_result() {
    let mut map: BTreeMap<i32, i32> = BTreeMap::new();
    assert_eq!(map.update(1, |v| (Some(v.unwrap_or(0) + 1), v.is_some())), false);
    assert_eq!(map.update(1, |v| (Some(v.unwrap_or(0) + 1), v.is_some())), true);
    assert_eq!(map.get(&1), Some(&2));
    assert_eq!(map.update(1, |v| (None, v)), Some(2));
    assert_eq!(map.get(&1), None);
    assert_eq!(map.update(5, |v| (None, v)), None);
    assert!(map.is_empty());
    for i in 0..100 {
        map.insert(i, i);
    }
    let addr = map.address_of(&40).ok().unwrap();
    assert_eq!(map.update_at(addr, |v| (Some(v + 1), v)), 40);
    assert_eq!(map.get(&40), Some(&41));
    let addr = map.address_of(&41).ok().unwrap();
    assert_eq!(map.update_at(addr, |v| (None, v)), 41);
    assert_eq!(map.get(&41), None);
    assert_eq!(map.len(), 99);
    assert!(map.validate());
}

#[test]
fn entries() {
    let mut letters: BTreeMap<char, i32> = BTreeMap::new();
    for ch in "a short treatise on fungi".chars() {
        let counter = letters.entry(ch).or_insert(0);
        *counter += 1;
    }
    assert_eq!(letters.get(&'s'), Some(&2));
    assert_eq!(letters.get(&'t'), Some(&3));
    assert_eq!(letters.get(&'u'), Some(&1));
    assert_eq!(letters.get(&'y'), None);
    assert!(letters.validate());

    let mut map: BTreeMap<&str, usize> = BTreeMap::new();
    assert_eq!(map.entry("poneyland").key(), &"poneyland");
    map.entry("poneyland").or_insert_with(|| 3);
    assert_eq!(map.get(&"poneyland"), Some(&3));
    map.entry("horseland").or_insert_with_key(|key| key.chars().count());
    assert_eq!(map.get(&"horseland"), Some(&9));
    map.entry("poneyland").and_modify(|e| *e += 1).or_insert(42);
    assert_eq!(map.get(&"poneyland"), Some(&4));
    map.entry("zebraland").and_modify(|e| *e += 1).or_insert(42);
    assert_eq!(map.get(&"zebraland"), Some(&42));
    *map.entry("default").or_default() += 5;
    assert_eq!(map.get(&"default"), Some(&5));

    match map.entry("poneyland") {
        Entry::Occupied(mut entry) => {
            assert_eq!(entry.get(), &4);
            *entry.get_mut() += 10;
            assert_eq!(entry.insert(20), 14);
            assert_eq!(entry.remove_entry(), ("poneyland", 20));
        }
        Entry::Vacant(_) => panic!("the entry is occupied"),
    }
    match map.entry("poneyland") {
        Entry::Vacant(entry) => {
            assert_eq!(entry.into_key(), "poneyland");
        }
        Entry::Occupied(_) => panic!("the entry is vacant"),
    }
    assert_eq!(map.first_entry().map(|e| *e.key()), Some("default"));
    assert_eq!(map.last_entry().map(|e| e.remove()), Some(42));
    assert_eq!(map.len(), 2);
}

#[test]
fn cursor_inserts_before_the_next_item() {
    let mut map = BTreeMap::new();
    map.insert("a", 1);
    map.insert("b", 2);
    map.insert("d", 4);

    let mut entries = map.entries_mut();
    entries.next_item();
    entries.next_item();
    entries.insert("c", 3);
    assert_eq!(entries.peek().map(|item| *item.key()), Some("d"));
    assert_eq!(entries.len(), 1);

    let mut all = Vec::new();
    let mut it = map.into_iter();
    while let Some(pair) = it.next() {
        all.push(pair);
    }
    assert_eq!(all, vec![("a", 1), ("b", 2), ("c", 3), ("d", 4)]);
}

#[test]
fn cursor_removes_and_changes() {
    let mut map: BTreeMap<i32, i32> = BTreeMap::from_iter((0..200).map(|i| (i, i)).collect());
    let mut entries = map.entries_mut();
    let mut visited = 0;
    loop {
        let odd = match entries.peek() {
            Some(item) => item.key() % 2 == 1,
            None => break,
        };
        if odd {
            let item = entries.remove().unwrap();
            assert_eq!(item.key() % 2, 1);
        } else {
            let (_, value) = entries.next_item().unwrap();
            *value += 1000;
        }
        visited += 1;
    }
    assert_eq!(visited, 200);
    assert_eq!(map.len(), 100);
    assert!(map.validate());
    for i in 0..200 {
        if i % 2 == 0 {
            assert_eq!(map.get(&i), Some(&(i + 1000)));
        } else {
            assert_eq!(map.get(&i), None);
        }
    }
    let mut grow = map.entries_mut();
    while grow.skip() {}
    grow.insert(500, 5);
    grow.insert(501, 6);
    assert_eq!(map.len(), 102);
    assert_eq!(map.last_key_value(), Some((&501, &6)));
    assert!(map.validate());
}

#[test]
fn cursor_changes_the_next_value_without_moving() {
    let mut map: BTreeMap<i32, i32> = BTreeMap::from_iter((0..20).map(|i| (i, i)).collect());
    let mut entries = map.entries_mut();
    assert!(entries.skip());
    {
        let (key, value) = entries.peek_mut().unwrap();
        assert_eq!(*key, 1);
        *value = 111;
    }
    assert_eq!(entries.len(), 19);
    assert_eq!(entries.peek().map(|item| (*item.key(), *item.value())), Some((1, 111)));
    {
        let (key, value) = entries.next_item().unwrap();
        assert_eq!((*key, *value), (1, 111));
    }
    while entries.skip() {}
    assert!(entries.peek_mut().is_none());
    assert_eq!(map.get(&1), Some(&111));
    assert_eq!(map.get(&2), Some(&2));
    assert_eq!(map.len(), 20);
    assert!(map.validate());
}

#[test]
fn retain_and_drain_filter() {
    let mut map: BTreeMap<i32, i32> = BTreeMap::from_iter((0..100).map(|i| (i, i * 10)).collect());
    map.retain(|k, _| k % 2 == 0);
    assert_eq!(map.len(), 50);
    assert_eq!(keys_of(&map), (0..100).filter(|k| k % 2 == 0).collect::<Vec<_>>());
    assert!(map.validate());

    let mut drained = map.drain_filter(|_, v| v % 40 == 0);
    assert_eq!(drained.len(), 25);
    assert_eq!(drained.next(), Some((0, 0)));
    assert_eq!(drained.next(), Some((4, 40)));
    let mut count = 2;
    while let Some((k, v)) = drained.next() {
        assert_eq!(k % 4, 0);
        assert_eq!(v, k * 10);
        count += 1;
    }
    assert_eq!(count, 25);
    assert_eq!(map.len(), 25);
    assert_eq!(keys_of(&map), (0..100).filter(|k| k % 4 == 2).collect::<Vec<_>>());
    assert!(map.validate());
}

#[test]
fn append_moves_everything() {
    let mut a = BTreeMap::new();
    a.insert(1, "a");
    a.insert(2, "b");
    a.insert(3, "c");
    let mut b = BTreeMap::new();
    b.insert(3, "d");
    b.insert(4, "e");
    b.insert(5, "f");
    a.append(&mut b);
    assert_eq!(a.len(), 5);
    assert_eq!(b.len(), 0);
    assert_eq!(a.get(&1), Some(&"a"));
    assert_eq!(a.get(&3), Some(&"d"));
    assert_eq!(a.get(&5), Some(&"f"));
    let mut empty = BTreeMap::new();
    empty.append(&mut a);
    assert_eq!(empty.len(), 5);
    assert!(a.is_empty());
    empty.append(&mut a);
    assert_eq!(empty.len(), 5);
}

#[test]
fn navigation_over_addresses() {
    let map: BTreeMap<i32, i32> = BTreeMap::from_iter((0..300).map(|i| (i, i)).collect());
    let empty: BTreeMap<i32, i32> = BTreeMap::new();
    assert_eq!(empty.first_item_address(), None);
    assert!(empty.first_back_address().is_nowhere());
    assert_eq!(empty.last_item_address(), None);
    assert!(empty.last_valid_address().is_nowhere());
    assert_eq!(empty.address_of(&1), Err(ItemAddr::nowhere()));
    assert_eq!(empty.next_item_address(ItemAddr::nowhere()), None);
    assert_eq!(empty.normalize(ItemAddr::nowhere()), None);
    assert!(empty.leaf_address(ItemAddr::nowhere()).is_nowhere());

    // forwards over the items
    let mut addr = map.first_item_address();
    let mut expected = 0;
    while let Some(a) = addr {
        assert_eq!(map.item(a).unwrap().key(), &expected);
        assert_eq!(map.normalize(a), Some(a));
        expected += 1;
        addr = map.next_item_address(a);
    }
    assert_eq!(expected, 300);

    // backwards over the items
    let mut addr = map.last_item_address();
    let mut expected = 299;
    while let Some(a) = addr {
        assert_eq!(map.item(a).unwrap().key(), &expected);
        expected -= 1;
        addr = map.previous_item_address(a);
    }
    assert_eq!(expected, -1);

    // forwards over the back addresses: each item is met once
    let mut addr = Some(map.first_back_address());
    let mut items = 0;
    let mut steps = 0;
    while let Some(a) = addr {
        if let Some(item) = map.item(a) {
            assert_eq!(item.key(), &items);
            items += 1;
        }
        steps += 1;
        assert!(steps < 10000);
        addr = map.next_back_address(a);
    }
    assert_eq!(items, 300);

    // backwards over the front addresses: each item is met once
    let mut addr = Some(map.last_valid_address());
    let mut items = 300;
    while let Some(a) = addr {
        if let Some(item) = map.item(a) {
            items -= 1;
            assert_eq!(item.key(), &items);
        }
        addr = map.previous_front_address(a);
    }
    assert_eq!(items, 0);

    // the place of a key that is missing
    let map: BTreeMap<i32, i32> = BTreeMap::from_iter((0..300).map(|i| (2 * i, i)).collect());
    for k in 0..300 {
        let gap = map.address_of(&(2 * k + 1)).err().unwrap();
        assert_eq!(map.node(gap.id).child_count(), 0);
        let next = map.normalize(gap);
        if k < 299 {
            assert_eq!(map.item(next.unwrap()).unwrap().key(), &(2 * k + 2));
        } else {
            assert_eq!(next, None);
        }
        let found = map.address_of(&(2 * k)).ok().unwrap();
        let after = map.next_item_or_back_address(found).unwrap();
        if k < 299 {
            assert_eq!(map.item(after).unwrap().key(), &(2 * k + 2));
        } else {
            assert!(map.item(after).is_none());
        }
        assert_eq!(map.leaf_address(gap), gap);
    }
}

#[test]
fn range_from_the_back() {
    let map: BTreeMap<i32, i32> = BTreeMap::from_iter((0..100).map(|i| (i, i)).collect());
    let mut it = map.range(Included(&10), Excluded(&20));
    assert_eq!(it.next_back(), Some((&19, &19)));
    assert_eq!(it.next(), Some((&10, &10)));
    let mut rest = Vec::new();
    while let Some((k, _)) = it.next_back() {
        rest.push(*k);
    }
    assert_eq!(rest, vec![18, 17, 16, 15, 14, 13, 12, 11]);
    assert_eq!(it.next(), None);
    let mut it = map.range(Excluded(&98), Unbounded);
    assert_eq!(it.next_back(), Some((&99, &99)));
    assert_eq!(it.next_back(), None);
}

#[test]
fn offsets_and_addresses() {
    assert!(Offset::before().is_before());
    assert_eq!(Offset::before().value(), None);
    assert_eq!(Offset(3).value(), Some(3));
    assert_eq!(Offset(3).unwrap(), 3);
    let mut o = Offset::before();
    o.incr();
    assert_eq!(o, Offset(0));
    o.incr();
    assert_eq!(o, Offset(1));
    o.decr();
    o.decr();
    assert!(o.is_before());
    assert!(Offset::before().is_below(0));
    assert!(!Offset::before().is_above(0));
    assert!(Offset(2).is(2));
    assert!(!Offset::before().is(usize::MAX));
    let addr = ItemAddr::new(7, Offset(2));
    assert_eq!(addr.id, 7);
    assert_eq!(addr.offset, Offset(2));
    assert!(!addr.is_nowhere());
    assert!(ItemAddr::nowhere().is_nowhere());
    assert_eq!(ItemAddr::nowhere().id, usize::MAX);
}

#[test]
fn binary_search_finds_the_floor() {
    let items: Vec<Item<i32, ()>> = [10, 20, 30, 40].iter().map(|k| Item::new(*k, ())).collect();
    assert_eq!(binary_search_min(&items, &5), None);
    assert_eq!(binary_search_min(&items, &10), Some(0));
    assert_eq!(binary_search_min(&items, &15), Some(0));
    assert_eq!(binary_search_min(&items, &30), Some(2));
    assert_eq!(binary_search_min(&items, &35), Some(2));
    assert_eq!(binary_search_min(&items, &40), Some(3));
    assert_eq!(binary_search_min(&items, &99), Some(3));
    let none: Vec<Item<i32, ()>> = Vec::new();
    assert_eq!(binary_search_min(&none, &1), None);
}

#[test]
fn items() {
    let mut item = Item::new(1, "a");
    assert_eq!(item.key(), &1);
    assert_eq!(item.value(), &"a");
    assert_eq!(item.as_pair(), (&1, &"a"));
    *item.value_mut() = "b";
    assert_eq!(item.set_value("c"), "b");
    assert_eq!(item.set_key(2), 1);
    assert_eq!(item.set(3, "d"), (2, "c"));
    *item.key_mut() = 4;
    assert_eq!(item.take_value(), "d");
    assert_eq!(item.maybe_uninit_value_mut(), &mut None);
    item.put_value("e");
    assert_eq!(item.into_pair(), (4, "e"));
    assert_eq!(Item::new(1, 2).into_key(), 1);
    assert_eq!(Item::new(1, 2).into_value(), 2);
    assert_eq!(Item::new(1, 2).into_inner(), (1, Some(2)));
    let mut hollow = Item::new(1, 2);
    hollow.take_value();
    hollow.forget_value();
}

#[test]
fn leaf_nodes() {
    let mut node: Node<i32, i32> = Node::leaf(Some(3), Item::new(10, 100));
    assert_eq!(node.parent(), Some(3));
    node.set_parent(None);
    assert_eq!(node.parent(), None);
    assert_eq!(node.item_count(), 1);
    assert_eq!(node.child_count(), 0);
    assert_eq!(node.child_id_opt(0), None);
    assert_eq!(node.child_index(5), None);
    assert_eq!(node.balance(), Balance::Underflow(false));
    assert!(node.is_underflowing());
    assert!(!node.is_overflowing());
    assert!(matches!(node.insert_by_key(30, 300), Ok((Offset(1), None))));
    assert!(matches!(node.insert_by_key(20, 200), Ok((Offset(1), None))));
    assert!(matches!(node.insert_by_key(20, 201), Ok((Offset(1), Some(200)))));
    assert_eq!(node.offset_of(&20), Ok(Offset(1)));
    assert_eq!(node.offset_of(&25), Err((2, None)));
    assert_eq!(node.offset_of(&5), Err((0, None)));
    assert_eq!(node.get(&20), Ok(Some(&201)));
    assert_eq!(node.get(&21), Ok(None));
    *node.get_mut(&20).unwrap().unwrap() += 1;
    assert_eq!(node.item(Offset(1)).map(|item| *item.value()), Some(202));
    assert!(node.item(Offset(3)).is_none());
    assert!(node.item(Offset::before()).is_none());
    assert!(node.item_mut(Offset(0)).is_some());
    assert_eq!(node.balance(), Balance::Balanced);
    assert!(node.validate(None, None, None));
    assert!(!node.validate(Some(1), None, None));
    assert!(node.validate(None, Some(&5), Some(&31)));
    assert!(!node.validate(None, Some(&10), None));
    assert!(!node.validate(None, None, Some(&30)));
    assert!(matches!(node.pop_left(), Err(_)));
    assert!(matches!(node.pop_right(), Err(_)));
    node.push_left(Item::new(5, 50), None);
    assert_eq!(node.push_right(Item::new(35, 350), None), Offset(4));
    node.insert(Offset(2), Item::new(15, 150), None);
    assert_eq!(node.item_count(), 6);
    assert_eq!(node.pop_left().ok().map(|r| (*r.0.key(), r.1)), Some((5, None)));
    assert_eq!(
        node.pop_right().ok().map(|r| (r.0, *r.1.key(), r.2)),
        Some((Offset(4), 35, None))
    );
    assert_eq!(node.leaf_remove(Offset(1)).map(|r| r.map(|item| *item.key())), Some(Ok(15)));
    assert!(node.leaf_remove(Offset(7)).is_none());
    assert_eq!(node.remove_rightmost_leaf().map(|item| *item.key()), Ok(30));
    assert_eq!(node.separators(0), (None, None));
    assert_eq!(node.child_ids(), Vec::<usize>::new());
    assert!(node.children_with_separators().next().is_none());
    assert_eq!(node.children().next(), None);
    for k in 0..7 {
        node.push_right(Item::new(100 + k, k), None);
    }
    assert_eq!(node.item_count(), 9);
    assert_eq!(node.balance(), Balance::Overflow);
    let (len, median, right) = node.split();
    assert_eq!(len, 4);
    assert_eq!(median.key(), &102);
    assert_eq!(node.item_count(), 4);
    assert_eq!(right.item_count(), 4);
    assert_eq!(right.item(Offset(0)).map(|item| *item.key()), Some(103));
    assert_eq!(node.append(median, right), Offset(4));
    assert_eq!(node.item_count(), 9);
    assert_eq!(node.item(Offset(4)).map(|item| *item.key()), Some(102));
}

#[test]
fn internal_nodes() {
    let mut node: Node<i32, i32> = Node::binary(None, 1, Item::new(10, 100), 2);
    assert_eq!(node.item_count(), 1);
    assert_eq!(node.child_count(), 2);
    assert_eq!(node.child_id(0), 1);
    assert_eq!(node.child_id(1), 2);
    assert_eq!(node.child_id_opt(2), None);
    assert_eq!(node.child_index(2), Some(1));
    assert_eq!(node.child_index(9), None);
    assert_eq!(node.child_ids(), vec![1, 2]);
    assert_eq!(node.get(&10), Ok(Some(&100)));
    assert_eq!(node.get(&5), Err(1));
    assert_eq!(node.get(&15), Err(2));
    assert_eq!(node.offset_of(&10), Ok(Offset(0)));
    assert_eq!(node.offset_of(&11), Err((1, Some(2))));
    assert!(matches!(node.insert_by_key(10, 101), Ok((Offset(0), Some(100)))));
    assert!(matches!(node.insert_by_key(12, 7), Err((12, 7, 1, 2))));
    node.insert(Offset(1), Item::new(20, 200), Some(3));
    node.push_left(Item::new(5, 50), Some(0));
    assert_eq!(node.push_right(Item::new(30, 300), Some(4)), Offset(3));
    assert_eq!(node.child_ids(), vec![0, 1, 2, 3, 4]);
    assert_eq!(node.separators(0), (None, Some(&5)));
    assert_eq!(node.separators(2), (Some(&10), Some(&20)));
    assert_eq!(node.separators(4), (Some(&30), None));
    let mut seps = Vec::new();
    let mut it = node.children_with_separators();
    while let Some(triple) = it.next() {
        seps.push(triple);
    }
    assert_eq!(seps.len(), 5);
    let mut ids = Vec::new();
    let mut it = node.children();
    while let Some(id) = it.next() {
        ids.push(id);
    }
    assert_eq!(ids, vec![0, 1, 2, 3, 4]);
    assert_eq!(seps[0].1, 0);
    assert!(seps[0].0.is_none());
    assert_eq!(seps[1].0.map(|item| *item.key()), Some(5));
    assert_eq!(seps[1].2.map(|item| *item.key()), Some(10));
    assert!(seps[4].2.is_none());
    assert_eq!(node.leaf_remove(Offset(1)).map(|r| r.map(|item| *item.key())), Some(Err(1)));
    assert_eq!(node.remove_rightmost_leaf().map(|item| *item.key()), Err(4));
    assert_eq!(node.replace(Offset(0), Item::new(6, 60)).into_pair(), (5, 50));
    assert_eq!(node.pop_left().ok().map(|r| (*r.0.key(), r.1)), Some((6, Some(0))));
    assert!(matches!(node.pop_left(), Err(_)));
    assert!(matches!(node.pop_right(), Err(_)));
    let (offset, left, right, item, balance) = node.merge(0, 1);
    assert_eq!((offset, left, right, *item.key()), (0, 1, 2, 10));
    assert_eq!(balance, Balance::Underflow(false));
    assert_eq!(node.child_ids(), vec![1, 3, 4]);
    for k in 0..6 {
        node.push_right(Item::new(100 + k, k), Some(10 + k as usize));
    }
    assert_eq!(node.balance(), Balance::Overflow);
    let (len, median, right) = node.split();
    assert_eq!(len, 3);
    assert_eq!(median.key(), &101);
    assert_eq!(node.child_ids(), vec![1, 3, 4, 10]);
    assert_eq!(right.child_ids(), vec![11, 12, 13, 14, 15]);
    assert_eq!(node.append(median, right), Offset(3));
    assert_eq!(node.child_count(), 9);
}

#[test]
fn slab_store() {
    let mut store: SlabStore<&str> = SlabStore::new();
    let a = store.insert("a");
    let b = store.insert("b");
    assert_ne!(a, b);
    assert_eq!(store.get(a), Some(&"a"));
    assert_eq!(store.get(b), Some(&"b"));
    *store.get_mut(a).unwrap() = "c";
    assert_eq!(store.remove(a), "c");
    assert_eq!(store.get(a), None);
    assert_eq!(store.get_mut(a), None);
    let d = store.insert("d");
    assert_eq!(store.get(d), Some(&"d"));
    store.clear();
    assert_eq!(store.get(b), None);
    assert_eq!(store.get(d), None);
    let empty: SlabStore<u8> = SlabStore::empty();
    assert_eq!(empty.get(0), None);
}

#[test]
fn low_level_changes() {
    let mut map: BTreeMap<i32, i32> = BTreeMap::from_iter((0..50).map(|i| (i, i)).collect());
    let addr = map.address_of(&7).ok().unwrap();
    assert_eq!(map.replace_value_at(addr, 70), 7);
    assert_eq!(map.replace_at(addr, 7, 71), (7, 70));
    assert_eq!(map.get(&7), Some(&71));
    *map.value_mut_at(addr) += 1;
    assert_eq!(map.item_mut(addr).map(|item| *item.value()), Some(72));
    let (k, v) = map.pair_mut_at(addr);
    assert_eq!((*k, *v), (7, 72));
    let root = map.root_id().unwrap();
    assert_eq!(map.node(root).parent(), None);
    assert_eq!(map.node_mut(root).parent(), None);
    assert!(map.validate_node(root, None, None, None).is_some());
    assert_eq!(map.get_in(&8, root), Some(&8));
    assert_eq!(map.get_mut_in(&8, root), Some(&mut 8));
    assert_eq!(map.address_in(root, &9).ok().map(|a| *map.item(a).unwrap().key()), Some(9));
    assert_eq!(map.update_in(root, 9, |v| (v.map(|v| v + 1), 5)), 5);
    assert_eq!(map.get(&9), Some(&10));
    let addr = map.address_of(&20).ok().unwrap();
    let balanced = map.rebalance(addr.id, addr);
    assert_eq!(balanced, addr);
    let leaf = map.leaf_address(ItemAddr::new(root, Offset(0)));
    let (item, leaf_id) = map.remove_rightmost_leaf_of(leaf.id);
    assert_eq!(leaf_id, leaf.id);
    map.set_len(49);
    let after = map.rebalance(leaf_id, ItemAddr::new(leaf_id, Offset(0)));
    assert!(map.item(after).is_some());
    assert!(map.validate());
    assert!(map.get(item.key()).is_none());
    assert_eq!(map.len(), 49);
}

#[test]
fn values_changed_in_place() {
    let mut map: BTreeMap<i32, i32> = BTreeMap::from_iter((0..100).map(|i| (i, i)).collect());
    let mut it = map.iter_mut();
    assert_eq!(it.len(), 100);
    while let Some((k, v)) = it.next() {
        assert_eq!(k, v);
        *v += 1;
        if let Some((k, v)) = it.next_back() {
            *v += *k;
        }
    }
    for i in 0..50 {
        assert_eq!(map.get(&i), Some(&(i + 1)));
    }
    for i in 50..100 {
        assert_eq!(map.get(&i), Some(&(2 * i)));
    }
    let mut values = map.values_mut();
    assert_eq!(values.len(), 100);
    while let Some(v) = values.next() {
        *v = 0;
    }
    let mut range = map.range_mut(Included(&10), Excluded(&13));
    while let Some((k, v)) = range.next_back() {
        *v = *k;
    }
    assert_eq!(map.get(&9), Some(&0));
    assert_eq!(map.get(&10), Some(&10));
    assert_eq!(map.get(&12), Some(&12));
    assert_eq!(map.get(&13), Some(&0));
    assert!(map.validate());
}

#[test]
fn keys_and_values_taken() {
    let map: BTreeMap<i32, &str> = BTreeMap::from_iter(vec![(2, "b"), (1, "a"), (3, "c")]);
    let mut keys = map.into_keys();
    assert_eq!(keys.next(), Some(1));
    assert_eq!(keys.next_back(), Some(3));
    assert_eq!(keys.next(), Some(2));
    assert_eq!(keys.next(), None);
    let map: BTreeMap<i32, &str> = BTreeMap::from_iter(vec![(2, "b"), (1, "a"), (3, "c")]);
    let mut values = map.into_values();
    assert_eq!(values.next_back(), Some("c"));
    assert_eq!(values.next(), Some("a"));
    assert_eq!(values.next(), Some("b"));
    assert_eq!(values.next_back(), None);
}

#[test]
fn notations() {
    assert_eq!(Offset(12).to_string(), "12");
    assert_eq!(Offset::before().to_string(), "-1");
    assert_eq!(Offset::from(3), Offset(3));
    assert_eq!(ItemAddr::new(4, Offset(2)).to_string(), "@4:2");
    assert_eq!(ItemAddr::new(0, Offset::before()).to_string(), "@0:-1");
    assert_eq!(ItemAddr::new(1047, Offset(30)).to_string(), "@1047:30");
    assert_eq!(Offset(0).to_string(), "0");
    assert_eq!(Offset(9).to_string(), "9");
    assert_eq!(Offset(10).to_string(), "10");
    assert_eq!(Offset(1234567890).to_string(), "1234567890");
    assert_eq!(Offset(usize::MAX - 1).to_string(), (usize::MAX - 1).to_string());
    assert_eq!(decimal_of(0), vec!['0']);
    assert_eq!(decimal_of(905), vec!['9', '0', '5']);
}

#[test]
fn index_and_default() {
    let mut map: BTreeMap<&str, i32> = Default::default();
    assert!(map.is_empty());
    map.insert("Office Space", 1);
    assert_eq!(*map.index(&"Office Space"), 1);
    let set: btree_slab::BTreeSet<i32> = Default::default();
    assert!(set.is_empty());
}

#[test]
fn removal_leaves_the_place_of_the_key() {
    // after a removal the address returned leads to the item that followed the one removed
    for n in [1, 5, 9, 40, 200] {
        for gone in 0..n {
            let mut map: BTreeMap<i32, i32> = BTreeMap::from_iter((0..n).map(|i| (i, i)).collect());
            let addr = map.address_of(&gone).ok().unwrap();
            let (item, place) = map.remove_at(addr).unwrap();
            assert_eq!(item.into_pair(), (gone, gone));
            // the address is that of the next item itself, wherever there is one
            assert_eq!(place.is_nowhere(), n == 1);
            if !place.is_nowhere() {
                match map.item(place) {
                    Some(next) => assert_eq!(next.key(), &(gone + 1)),
                    None => assert_eq!(gone, n - 1),
                }
                assert_eq!(map.item(place).is_some(), gone + 1 < n);
            }
            match map.normalize(place) {
                Some(next) => assert_eq!(next, place),
                None => assert_eq!(gone, n - 1),
            }
            let back = map.insert_at(place, Item::new(gone, -1));
            assert_eq!(map.item(back).unwrap().value(), &-1);
            assert_eq!(map.len(), n as usize);
            assert!(map.validate());
            assert_eq!(keys_of(&map), (0..n).collect::<Vec<_>>());
        }
    }
}

#[test]
fn offsets_are_ordered_as_numbers() {
    assert!(Offset::before() < Offset(0));
    assert!(Offset(0) < Offset(1));
    assert!(Offset(1) > Offset::before());
    assert!(!(Offset::before() < Offset::before()));
    assert!(Offset::before() <= Offset::before());
    assert!(Offset(4) >= Offset(4));
    assert_eq!(
        Offset(2).partial_cmp(&Offset(7)),
        Some(std::cmp::Ordering::Less)
    );
    assert_eq!(
        Offset(2).partial_cmp(&Offset::before()),
        Some(std::cmp::Ordering::Greater)
    );
    assert_eq!(
        Offset::before().partial_cmp(&Offset::before()),
        Some(std::cmp::Ordering::Equal)
    );
}

#[test]
fn nodes_validate_themselves() {
    let mut node: Node<i32, i32> = Node::leaf(Some(3), Item::new(10, 100));
    for k in 2..5 {
        assert!(node.insert_by_key(10 * k, k).is_ok());
    }
    match &node {
        Node::Leaf(leaf) => {
            assert!(leaf.validate(Some(3), Some(&5), Some(&41)));
            assert!(leaf.validate(Some(3), None, None));
            assert!(!leaf.validate(None, None, None));
            assert!(!leaf.validate(Some(3), Some(&10), None));
            assert!(!leaf.validate(Some(3), None, Some(&40)));
        }
        Node::Internal(_) => unreachable!(),
    }
    // A leaf with a single item is no balanced child, but a fine root.
    let small: Node<i32, i32> = Node::leaf(None, Item::new(1, 1));
    assert!(small.validate(None, None, None));
    assert!(!small.validate(None, Some(&0), None));

    let mut inner: Node<i32, i32> = Node::binary(Some(9), 1, Item::new(10, 100), 2);
    match &inner {
        Node::Internal(n) => {
            assert!(n.validate(Some(9), None, None));
            // A single item is too few for a node that is not the root.
            assert!(!n.validate(Some(9), Some(&0), None));
        }
        Node::Leaf(_) => unreachable!(),
    }
    inner.push_right(Item::new(20, 200), Some(3));
    inner.push_right(Item::new(30, 300), Some(4));
    assert!(inner.validate(Some(9), Some(&0), Some(&31)));
    assert!(!inner.validate(Some(9), Some(&0), Some(&30)));
    assert!(!inner.validate(Some(8), Some(&0), Some(&31)));
    // Items out of order are found.
    inner.push_right(Item::new(25, 250), Some(5));
    assert!(!inner.validate(Some(9), None, None));
}

#[test]
fn nodes_can_be_cloned() {
    let mut node: Node<i32, i32> = Node::leaf(None, Item::new(10, 100));
    assert!(node.insert_by_key(20, 200).is_ok());
    let copy = node.clone();
    assert!(node.insert_by_key(30, 300).is_ok());
    assert_eq!(copy.item_count(), 2);
    assert_eq!(node.item_count(), 3);
    assert_eq!(copy.get(&20), Ok(Some(&200)));
    assert_eq!(copy.get(&30), Ok(None));
}

#[test]
fn validation_finds_what_is_wrong() {
    let build = || -> BTreeMap<i32, i32> { BTreeMap::from_iter((0..200).map(|i| (i, i)).collect()) };

    let map = build();
    let root = map.root_id().unwrap();
    assert!(map.validate());
    // 200 keys in nodes of at most 7 items: leaves are two or three steps down.
    let depth = map.validate_node(root, None, None, None).unwrap();
    assert!(depth == 2 || depth == 3);
    let first_child = map.node(root).child_id(0);
    let (min, max) = map.node(root).separators(0);
    assert_eq!(min, None);
    assert_eq!(map.validate_node(first_child, Some(root), min, max), Some(depth - 1));
    // Not against another parent, nor between keys that are not next to it.
    assert_eq!(map.validate_node(first_child, Some(first_child), min, max), None);
    assert_eq!(map.validate_node(first_child, Some(root), max, None), None);
    // No node is stored under an identifier that is not in use.
    assert_eq!(map.validate_node(usize::MAX, None, None, None), None);

    // A root that says it has a parent.
    let mut map = build();
    map.node_mut(root).set_parent(Some(root));
    assert!(!map.validate());

    // A child that does not know its parent.
    let mut map = build();
    map.node_mut(first_child).set_parent(None);
    assert!(!map.validate());

    // A key out of order.
    let mut map = build();
    let addr = map.address_of(&100).ok().unwrap();
    map.item_mut(addr).unwrap().set_key(1000);
    assert!(!map.validate());

    // A leaf that is too small.
    let mut map = build();
    let leaf = map.first_item_address().unwrap().id;
    while map.node(leaf).item_count() > 2 {
        assert!(map.node_mut(leaf).leaf_remove(Offset(0)).is_some());
    }
    assert!(!map.validate());

    // A root that is a node further down.
    let mut map = build();
    map.set_root_id(Some(first_child));
    assert!(!map.validate());

    // Children that are not at one depth.
    let mut map = build();
    let second_child = map.node(root).child_id(1);
    let below = map.node(second_child).child_id(0);
    let moved = map.node(below).clone();
    *map.node_mut(second_child) = moved;
    map.node_mut(second_child).set_parent(Some(root));
    assert!(!map.validate());

    // A tree without a root passes, whatever is stored.
    let mut map = build();
    map.set_root_id(None);
    assert!(map.validate());
}

#[test]
fn lookups_from_a_node_see_what_is_below_it() {
    let mut map: BTreeMap<i32, i32> = BTreeMap::from_iter((0..200).map(|i| (i, 10 * i)).collect());
    let root = map.root_id().unwrap();
    let first = map.node(root).child_id(0);
    let second = map.node(root).child_id(1);
    let (_, max) = map.node(root).separators(0);
    let split = *max.unwrap();
    for k in 0..200 {
        // from the root every key is found
        assert_eq!(map.get_in(&k, root), Some(&(10 * k)));
        // from a child, the keys on its side of the key next to it
        assert_eq!(map.get_in(&k, first).is_some(), k < split);
        assert_eq!(map.address_in(first, &k).is_ok(), k < split);
        if k <= split {
            assert_eq!(map.get_in(&k, second), None);
            assert!(map.get_mut_in(&k, second).is_none());
        }
    }
    assert_eq!(map.get_in(&-1, first), None);
    assert_eq!(map.get_in(&1000, first), None);
    *map.get_mut_in(&0, first).unwrap() = 7;
    assert_eq!(map.get(&0), Some(&7));
    assert!(map.node_opt(root).is_some());
    assert!(map.node_opt(usize::MAX).is_none());
    assert!(map.validate());
}

fn keys_in(items: &Items<i32, i32>) -> Vec<i32> {
    items.as_slice().iter().map(|item| *item.key()).collect()
}

#[test]
fn items_in_a_small_vector() {
    let mut items: Items<i32, i32> = Items::new();
    assert_eq!(items.len(), 0);
    assert!(items.pop().is_none());
    for k in 0..5 {
        items.push(Item::new(10 * k, k));
    }
    assert_eq!(keys_in(&items), vec![0, 10, 20, 30, 40]);
    items.insert(2, Item::new(15, 0));
    items.insert(0, Item::new(-5, 0));
    items.insert(7, Item::new(45, 0));
    assert_eq!(keys_in(&items), vec![-5, 0, 10, 15, 20, 30, 40, 45]);
    assert_eq!(items.len(), 8);
    assert_eq!(items.get(3).key(), &15);
    *items.get_mut(3).value_mut() = 99;
    assert_eq!(items.get(3).value(), &99);
    assert_eq!(items.get(2).value(), &1);
    assert_eq!(items.remove(3).into_pair(), (15, 99));
    assert_eq!(items.remove(0).into_pair(), (-5, 0));
    assert_eq!(keys_in(&items), vec![0, 10, 20, 30, 40, 45]);
    assert_eq!(items.pop().map(|item| item.into_pair()), Some((45, 0)));
    let mut tail = items.split_off(2);
    assert_eq!(keys_in(&items), vec![0, 10]);
    assert_eq!(keys_in(&tail), vec![20, 30, 40]);
    let copy = tail.clone();
    tail.push(Item::new(50, 5));
    assert_eq!(keys_in(&copy), vec![20, 30, 40]);
    items.append(&mut tail);
    assert_eq!(keys_in(&items), vec![0, 10, 20, 30, 40, 50]);
    assert_eq!(tail.len(), 0);
    // more items than the vector holds without an allocation
    for k in 6..40 {
        items.push(Item::new(10 * k, k));
    }
    assert_eq!(items.len(), 40);
    assert_eq!(keys_in(&items), (0..40).map(|k| 10 * k).collect::<Vec<_>>());
    let rest = items.split_off(0);
    assert_eq!(items.len(), 0);
    assert_eq!(rest.len(), 40);
}

#[test]
fn rebalancing_takes_the_tracked_item_to_the_new_sibling() {
    let mut map: BTreeMap<i32, i32> = BTreeMap::new();
    for k in 1..=13 {
        map.insert(k, 10 * k);
    }
    let a = map.address_of(&14).unwrap_err();
    let before = map.node(a.id).item_count();
    map.node_mut(a.id).insert(a.offset, Item::new(14, 140), None);
    map.set_len(14);
    assert!(map.node(a.id).is_overflowing());
    let r = map.rebalance(a.id, a);
    assert_eq!(map.item(r).map(|i| (*i.key(), *i.value())), Some((14, 140)));
    // the leaf was split: the item went to the new node on the right, and
    // stands there as far after the median as it stood in the leaf
    assert_ne!(r.id, a.id);
    let median = before / 2;
    assert_eq!(r.offset, Offset(a.offset.unwrap() - median - 1));
    assert_eq!(map.node(a.id).item_count(), median);
    assert_eq!(map.node(r.id).item_count(), before - median);
    assert_eq!(map.node(r.id).parent(), map.node(a.id).parent());
    assert!(map.validate());
    assert_eq!(keys_of(&map), (1..=14).collect::<Vec<_>>());
}

#[test]
fn rebalancing_by_rotation_and_by_merge() {
    // two leaves under a root: 1..=4 | 5 | 6..=13
    let mut map: BTreeMap<i32, i32> = BTreeMap::new();
    for k in 1..=13 {
        map.insert(k, 10 * k);
    }
    let root = map.root_id().unwrap();
    let (left, right) = (map.node(root).child_id(0), map.node(root).child_id(1));
    assert_eq!(map.node(left).item_count(), 4);
    assert_eq!(map.node(right).item_count(), 8);
    // the left leaf loses two items: the second loss is made good from the right
    assert!(map.remove(&1).is_some());
    assert_eq!(map.node(left).item_count(), 3);
    assert!(map.remove(&2).is_some());
    assert_eq!(map.node(left).item_count(), 3);
    assert_eq!(map.node(right).item_count(), 7);
    assert_eq!(map.node(root).item(Offset(0)).map(|i| *i.key()), Some(6));
    assert_eq!(keys_of(&map), (3..=13).collect::<Vec<_>>());
    // the right leaf gives until it has three items itself
    for k in [3, 4, 5, 6] {
        assert!(map.remove(&k).is_some());
        assert!(map.validate());
    }
    assert_eq!(map.node(left).item_count(), 3);
    assert_eq!(map.node(right).item_count(), 3);
    // then the two leaves are merged, and the root, left empty, is taken away
    assert!(map.remove(&7).is_some());
    assert!(map.validate());
    assert_eq!(map.root_id(), Some(left));
    assert_eq!(map.node(left).item_count(), 6);
    assert_eq!(map.node(left).parent(), None);
    assert!(map.node_opt(right).is_none());
    assert!(map.node_opt(root).is_none());
    assert_eq!(keys_of(&map), (8..=13).collect::<Vec<_>>());
}
