use bstmap::BstMap;

#[test]
fn insert_and_get() {
    let mut map = BstMap::new();
    map.insert(0, 0);
    assert!(*map.get(0).unwrap() == 0);
    map.insert(1, 1);
    assert!(*map.get(1).unwrap() == 1);
    map.insert(1, 2);
    assert!(*map.get(1).unwrap() == 2);
}

#[test]
fn insert_or() {
    let mut map = BstMap::new();
    map.insert(0, 0);
    assert!(*map.get(0).unwrap() == 0);
    map.insert_or(0, 10, |v| *v + 1);
    assert!(*map.get(0).unwrap() == 1);
}

#[test]
fn clear() {
    let mut map = BstMap::new();
    map.insert(0, 0);
    map.insert(1, 0);
    map.insert(2, 0);
    map.insert(3, 0);
    map.insert(4, 0);
    map.insert(5, 0);
    map.insert(6, 0);
    map.insert(7, 0);
    assert!(!map.is_empty());
}

#[test]
fn get_mut() {
    let mut map = BstMap::new();
    map.insert(0, 0);
    let val = map.get_mut(0).unwrap();
    *val += 1;
    assert!(*map.get(0).unwrap() == 1);
}

#[test]
fn first_last_key_value() {
    let mut map = BstMap::new();
    map.insert(2, 2);
    map.insert(1, 1);
    map.insert(3, 3);
    let (key, value) = map.first_key_value().unwrap();
    assert!(*key == 1 && *value == 1);
    let (key, value) = map.last_key_value().unwrap();
    assert!(*key == 3 && *value == 3);
}

#[test]
fn remove() {
    let mut map = BstMap::new();
    map.insert(10, "head");
    map.insert(14, "last removed");
    map.insert(13, "new head");
    map.insert(16, "last");
    map.insert(15, "second last");
    map.insert(1, "first");
    map.insert(3, "third first");
    map.insert(2, "second first");

    let value = map.remove(99);
    assert!(value.is_none());

    let value = map.remove(10).unwrap();
    assert!(value == "head");

    let value = map.remove_first().unwrap();
    assert!(value == "first");

    let value = map.remove_first().unwrap();
    assert!(value == "second first");

    let value = map.remove_first().unwrap();
    assert!(value == "third first");

    let value = map.remove_first().unwrap();
    assert!(value == "new head");

    let value = map.remove_last().unwrap();
    assert!(value == "last");

    let value = map.remove_last().unwrap();
    assert!(value == "second last");

    let value = map.remove_last().unwrap();
    assert!(value == "last removed");

    assert!(map.is_empty());
}

#[test]
fn interleaved_removals_scenario() {
    let mut map = BstMap::new();
    map.insert(10, "head");
    map.insert(14, "x");
    map.insert(13, "y");
    map.insert(16, "z");
    map.insert(15, "w");
    map.insert(1, "a");
    map.insert(3, "b");
    map.insert(2, "c");
    assert_eq!(map.len(), 8);

    assert!(map.remove(99).is_none());
    assert_eq!(map.len(), 8);

    assert_eq!(map.remove(10).unwrap(), "head");
    assert_eq!(map.len(), 7);

    assert_eq!(map.remove_first().unwrap(), "a");
    assert_eq!(map.remove_first().unwrap(), "c");
    assert_eq!(map.remove_first().unwrap(), "b");
    assert_eq!(map.remove_first().unwrap(), "y");

    assert_eq!(map.remove_last().unwrap(), "z");
    assert_eq!(map.remove_last().unwrap(), "w");
    assert_eq!(map.remove_last().unwrap(), "x");

    assert!(map.is_empty());
    assert_eq!(map.len(), 0);
}

#[test]
fn empty_map_reports_absence() {
    let mut map: BstMap<&str> = BstMap::new();
    assert_eq!(map.len(), 0);
    assert!(map.is_empty());
    assert!(map.first_key_value().is_none());
    assert!(map.last_key_value().is_none());
    assert!(map.remove(0).is_none());
    assert!(map.remove(17).is_none());
    assert!(map.remove_first().is_none());
    assert!(map.remove_last().is_none());
    assert!(map.get(5).is_none());
    assert!(map.get_mut(5).is_none());
}

#[test]
fn insert_or_matches_insert_on_absent_key() {
    let mut with_insert = BstMap::new();
    let mut with_insert_or = BstMap::new();
    with_insert.insert(7, 70);
    with_insert_or.insert_or(7, 70, |v| *v + 1);
    assert_eq!(with_insert.len(), with_insert_or.len());
    assert_eq!(
        *with_insert.get(7).unwrap(),
        *with_insert_or.get(7).unwrap()
    );
}

#[test]
fn insert_or_updates_present_key() {
    let mut map = BstMap::new();
    map.insert(7, 70);
    let before = map.len();
    map.insert_or(7, 1000, |v| *v + 5);
    assert_eq!(map.len(), before);
    assert_eq!(*map.get(7).unwrap(), 75);
}

#[test]
fn insert_same_key_twice_keeps_one_entry() {
    let mut map = BstMap::new();
    map.insert(4, "old");
    map.insert(4, "new");
    assert_eq!(map.len(), 1);
    assert_eq!(*map.get(4).unwrap(), "new");
}

#[test]
fn clear_empties_the_map() {
    let mut map = BstMap::new();
    map.insert(1, 1);
    map.insert(2, 2);
    map.clear();
    assert!(map.is_empty());
    assert_eq!(map.len(), 0);
    assert!(map.get(1).is_none());
}

#[test]
fn removing_absent_key_changes_nothing() {
    let mut map = BstMap::new();
    map.insert(5, "five");
    map.insert(2, "two");
    map.insert(8, "eight");
    assert!(map.remove(3).is_none());
    assert_eq!(map.len(), 3);
    assert_eq!(*map.get(5).unwrap(), "five");
    assert_eq!(*map.get(2).unwrap(), "two");
    assert_eq!(*map.get(8).unwrap(), "eight");
}

#[test]
fn remove_root_with_deep_successor() {
    // The root has two children and its right child has a left chain, so
    // removal promotes the in-order successor found deeper in the tree.
    let mut map = BstMap::new();
    map.insert(50, "root");
    map.insert(20, "l");
    map.insert(80, "r");
    map.insert(60, "rl");
    map.insert(55, "rll");
    map.insert(70, "rlr");
    assert_eq!(map.remove(50).unwrap(), "root");
    assert_eq!(map.len(), 5);
    // The successor (55) must now be reachable, and order must survive.
    let (k, _) = map.first_key_value().unwrap();
    assert_eq!(*k, 20);
    assert_eq!(*map.get(55).unwrap(), "rll");
    assert_eq!(*map.get(60).unwrap(), "rl");
    assert_eq!(*map.get(70).unwrap(), "rlr");
    assert_eq!(*map.get(80).unwrap(), "r");
}

#[test]
fn remove_root_with_adjacent_successor() {
    // The right child itself has no left child: it is the successor and is
    // promoted in place.
    let mut map = BstMap::new();
    map.insert(50, "root");
    map.insert(20, "l");
    map.insert(80, "r");
    map.insert(90, "rr");
    assert_eq!(map.remove(50).unwrap(), "root");
    assert_eq!(map.len(), 3);
    assert_eq!(*map.get(20).unwrap(), "l");
    assert_eq!(*map.get(80).unwrap(), "r");
    assert_eq!(*map.get(90).unwrap(), "rr");
}

#[test]
fn structural_dump() {
    let empty: BstMap<u8> = BstMap::new();
    assert_eq!(empty.structure_string(), "0 -");

    let mut map = BstMap::new();
    map.insert(10, "j");
    map.insert(5, "e");
    map.insert(15, "o");
    assert_eq!(map.structure_string(), "3 ((- 5 -) 10 (- 15 -))");

    let leaf = bstmap::node::Node::new(7u64, ());
    assert_eq!(leaf.structure_string(), "(- 7 -)");
}

#[test]
fn index_returns_present_value() {
    let mut map = BstMap::new();
    map.insert(3, "three");
    map.insert(1, "one");
    assert_eq!(*map.index(3), "three");
    assert_eq!(*map.index(1), "one");
}
