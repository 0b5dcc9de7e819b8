use bstmap::BstMap;

#[test]
fn borrowing_iteration_round_trip() {
    let mut map = BstMap::new();
    let inserted = [(10u64, "j"), (4, "d"), (7, "g"), (1, "a"), (15, "o")];
    for (k, v) in inserted {
        map.insert(k, v);
    }
    map.insert(7, "g2");

    let mut seen: Vec<(u64, &str)> = Vec::new();
    let mut it = map.iter();
    while let Some((k, v)) = it.next() {
        seen.push((*k, *v));
    }

    // Count consistency: the traversal yields exactly len() entries.
    assert_eq!(seen.len(), map.len());
    assert_eq!(seen.len(), 5);

    // Every surviving entry appears exactly once, nothing else appears.
    let expected = [(1u64, "a"), (4, "d"), (7, "g2"), (10, "j"), (15, "o")];
    for (k, v) in expected {
        assert_eq!(seen.iter().filter(|p| p.0 == k).count(), 1);
        assert!(seen.contains(&(k, v)));
    }
}

#[test]
fn consuming_iteration_round_trip() {
    let mut map = BstMap::new();
    map.insert(2, String::from("b"));
    map.insert(1, String::from("a"));
    map.insert(3, String::from("c"));

    let mut seen: Vec<(u64, String)> = Vec::new();
    let mut it = map.into_iter();
    while let Some(pair) = it.next() {
        seen.push(pair);
    }
    assert_eq!(seen.len(), 3);
    for (k, v) in [(1u64, "a"), (2, "b"), (3, "c")] {
        assert_eq!(seen.iter().filter(|p| p.0 == k).count(), 1);
        assert!(seen.contains(&(k, String::from(v))));
    }
}

#[test]
fn mutable_iteration_updates_values() {
    let mut map = BstMap::new();
    map.insert(1, 10);
    map.insert(2, 20);
    map.insert(3, 30);

    let mut it = map.iter_mut();
    while let Some((k, v)) = it.next() {
        *v += *k as i32;
    }
    drop(it);

    assert_eq!(*map.get(1).unwrap(), 11);
    assert_eq!(*map.get(2).unwrap(), 22);
    assert_eq!(*map.get(3).unwrap(), 33);
    assert_eq!(map.len(), 3);
}

#[test]
fn iteration_of_empty_map_yields_nothing() {
    let map: BstMap<u8> = BstMap::new();
    let mut it = map.iter();
    assert!(it.next().is_none());
    let map2: BstMap<u8> = BstMap::new();
    let mut it2 = map2.into_iter();
    assert!(it2.next().is_none());
}
