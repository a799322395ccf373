use ordered_sets::clock::{seed_of, time_seed};
use ordered_sets::{SkipList, SkipListEntry, SkipListNode, MAX_LEVEL};

#[derive(Debug, Clone)]
struct Item {
    key: u64,
    value: &'static str,
    node: SkipListNode,
}

impl Item {
    fn boxed(key: u64, value: &'static str) -> Box<Item> {
        Box::new(Item { key, value, node: SkipListNode::new() })
    }
}

impl SkipListEntry for Item {
    type Key = u64;

    fn key(&self) -> &u64 {
        &self.key
    }

    fn skiplist_node(&self) -> &SkipListNode {
        &self.node
    }

    fn skiplist_node_mut(&mut self) -> &mut SkipListNode {
        &mut self.node
    }
}

fn list_of(keys: &[u64]) -> SkipList<u64, Item> {
    let mut list = SkipList::new();
    for &k in keys {
        assert!(list.insert(Item::boxed(k, "v")).is_ok());
    }
    list
}

fn walk(list: &SkipList<u64, Item>) -> Vec<u64> {
    let mut keys = Vec::new();
    let mut at = list.first();
    while let Some(item) = at {
        keys.push(item.key);
        at = list.successor(&item.key);
    }
    keys
}

#[test]
fn first_is_the_minimum() {
    let list = list_of(&[5, 2, 8, 1, 9, 3]);
    assert_eq!(list.first().map(|e| e.key), Some(1));
    let empty: SkipList<u64, Item> = SkipList::new();
    assert!(empty.first().is_none());
}

#[test]
fn successor_is_the_least_greater_key() {
    let list = list_of(&[5, 2, 8, 1, 9, 3]);
    assert_eq!(list.successor(&5).map(|e| e.key), Some(8));
    assert_eq!(list.successor(&4).map(|e| e.key), Some(5));
    assert_eq!(list.successor(&0).map(|e| e.key), Some(1));
    assert!(list.successor(&9).is_none());
    assert!(list.successor(&100).is_none());
}

#[test]
fn walking_by_successor_visits_every_key_once() {
    let list = list_of(&[5, 2, 8, 1, 9, 3]);
    assert_eq!(walk(&list), vec![1, 2, 3, 5, 8, 9]);
    assert_eq!(list.len(), 6);
}

#[test]
fn duplicate_is_handed_back_and_changes_nothing() {
    let mut list: SkipList<u64, Item> = SkipList::new();
    assert!(list.insert(Item::boxed(42, "A")).is_ok());
    let back = list.insert(Item::boxed(42, "B"));
    match back {
        Err(item) => {
            assert_eq!(item.key, 42);
            assert_eq!(item.value, "B");
        },
        Ok(_) => panic!("a duplicate key must be rejected"),
    }
    assert_eq!(list.get(&42).map(|e| e.value), Some("A"));
    assert_eq!(list.len(), 1);
    assert_eq!(walk(&list), vec![42]);
}

#[test]
fn insert_then_remove_round_trip() {
    let mut list = list_of(&[10, 20, 30]);
    let before = list.len();
    assert!(list.insert(Item::boxed(25, "new")).is_ok());
    assert_eq!(list.len(), before + 1);
    let taken = list.remove(&25);
    assert_eq!(taken.as_ref().map(|e| e.key), Some(25));
    assert_eq!(taken.map(|e| e.value), Some("new"));
    assert_eq!(list.len(), before);
    assert_eq!(walk(&list), vec![10, 20, 30]);
}

#[test]
fn both_removals_report_presence_alike() {
    let mut a = list_of(&[1, 2, 3]);
    let mut b = list_of(&[1, 2, 3]);
    for key in [2u64, 7, 2, 1, 3, 3] {
        assert_eq!(a.remove(&key).is_some(), b.remove_by_key(&key));
    }
    assert!(a.is_empty() && b.is_empty());
}

#[test]
fn removal_of_head_tail_and_interior() {
    let mut list = list_of(&[1, 2, 3, 4, 5]);
    assert!(list.remove_by_key(&1));
    assert_eq!(walk(&list), vec![2, 3, 4, 5]);
    assert!(list.remove_by_key(&5));
    assert_eq!(walk(&list), vec![2, 3, 4]);
    assert!(list.remove_by_key(&3));
    assert_eq!(walk(&list), vec![2, 4]);
    assert!(!list.remove_by_key(&3));
    assert_eq!(list.len(), 2);
}

#[test]
fn operations_on_empty_and_single() {
    let mut list: SkipList<u64, Item> = SkipList::with_max_level(4);
    assert!(list.is_empty());
    assert!(list.get(&1).is_none());
    assert!(list.get_mut(&1).is_none());
    assert!(list.remove(&1).is_none());
    assert!(list.successor(&1).is_none());
    assert!(list.insert(Item::boxed(7, "only")).is_ok());
    assert_eq!(list.first().map(|e| e.key), Some(7));
    assert!(list.successor(&7).is_none());
    assert_eq!(list.remove(&7).map(|e| e.value), Some("only"));
    assert!(list.is_empty());
}

#[test]
fn get_mut_changes_the_value_in_place() {
    let mut list = list_of(&[1, 2, 3]);
    if let Some(item) = list.get_mut(&2) {
        item.value = "changed";
    }
    assert_eq!(list.get(&2).map(|e| e.value), Some("changed"));
    assert_eq!(list.get(&1).map(|e| e.value), Some("v"));
    assert_eq!(walk(&list), vec![1, 2, 3]);
}

#[test]
fn places_are_used_again_after_removal() {
    let mut list: SkipList<u64, Item> = SkipList::with_seed(MAX_LEVEL, 12345);
    for round in 0..20u64 {
        for k in 0..50u64 {
            assert!(list.insert(Item::boxed(round * 1000 + k, "x")).is_ok());
        }
        for k in 0..50u64 {
            assert!(list.remove_by_key(&(round * 1000 + k)));
        }
        assert!(list.is_empty());
    }
    assert!(list.insert(Item::boxed(1, "x")).is_ok());
    assert_eq!(walk(&list), vec![1]);
}

#[test]
fn many_keys_stay_sorted_whatever_the_seed() {
    for seed in [0u64, 1, 2, 0xdead_beef, u64::MAX] {
        let mut list: SkipList<u64, Item> = SkipList::with_seed(8, seed);
        let mut expect = Vec::new();
        let mut k: u64 = 17;
        for _ in 0..500 {
            k = (k * 7919 + 13) % 10007;
            if list.insert(Item::boxed(k, "x")).is_ok() {
                expect.push(k);
            }
        }
        expect.sort();
        assert_eq!(walk(&list), expect);
        assert_eq!(list.len(), expect.len());
        for key in expect.iter().step_by(3) {
            assert!(list.remove_by_key(key));
        }
        let rest: Vec<u64> =
            expect.iter().enumerate().filter(|(i, _)| i % 3 != 0).map(|(_, k)| *k).collect();
        assert_eq!(walk(&list), rest);
    }
}

#[test]
fn an_element_can_move_from_one_list_to_another() {
    let mut a = list_of(&[1, 2, 3]);
    let mut b = list_of(&[10, 20]);
    let moved = a.remove(&2).unwrap();
    assert!(b.insert(moved).is_ok());
    assert_eq!(walk(&a), vec![1, 3]);
    assert_eq!(walk(&b), vec![2, 10, 20]);
}

#[test]
fn nodes_can_be_made_with_levels_and_copied() {
    let node = SkipListNode::with_level(3);
    let copy = node.clone();
    let mut list: SkipList<u64, Item> = SkipList::new();
    assert!(list.insert(Box::new(Item { key: 1, value: "a", node })).is_ok());
    assert!(list.insert(Box::new(Item { key: 2, value: "b", node: copy })).is_ok());
    assert!(list.insert(Box::new(Item { key: 0, value: "c", node: SkipListNode::default() })).is_ok());
    assert_eq!(walk(&list), vec![0, 1, 2]);
}

#[test]
fn seed_is_the_low_bits_of_the_reading() {
    assert_eq!(seed_of(None), 0);
    assert_eq!(seed_of(Some(0)), 0);
    assert_eq!(seed_of(Some(5)), 5);
    assert_eq!(seed_of(Some(u64::MAX as u128)), u64::MAX);
    assert_eq!(seed_of(Some(u64::MAX as u128 + 1)), 0);
    assert_eq!(seed_of(Some((7u128 << 64) + 42)), 42);
    assert_eq!(seed_of(Some(u128::MAX)), u64::MAX);
}

#[test]
fn list_seeded_from_the_clock_works() {
    let seed = time_seed();
    let mut list: SkipList<u64, Item> = SkipList::with_seed(MAX_LEVEL, seed);
    for k in [3u64, 1, 2] {
        assert!(list.insert(Item::boxed(k, "x")).is_ok());
    }
    assert_eq!(walk(&list), vec![1, 2, 3]);
}
