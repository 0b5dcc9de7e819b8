use bstmap::action::{InsertAction, RemoveAction};
use bstmap::node::{Node, NodePosition};

#[test]
fn node_insert_reports_growth() {
    let mut node = Node::new(10u64, "ten");
    assert!(matches!(node.insert(5, "five"), InsertAction::Increment));
    assert!(matches!(node.insert(15, "fifteen"), InsertAction::Increment));
    assert!(matches!(node.insert(5, "five again"), InsertAction::Unchanged));
    assert_eq!(*node.get(5).unwrap(), "five again");
    assert_eq!(*node.get(10).unwrap(), "ten");
    assert_eq!(*node.get(15).unwrap(), "fifteen");
    assert!(node.get(99).is_none());
}

#[test]
fn node_insert_or_updates_in_place() {
    let mut node = Node::new(10u64, 100);
    node.insert(5, 50);
    assert!(matches!(node.insert_or(5, 0, |v| *v + 1), InsertAction::Unchanged));
    assert!(matches!(node.insert_or(7, 70, |v| *v + 1), InsertAction::Increment));
    assert_eq!(*node.get(5).unwrap(), 51);
    assert_eq!(*node.get(7).unwrap(), 70);
}

#[test]
fn node_extremes_and_positional_removal() {
    let mut node = Node::new(10u64, "j");
    node.insert(4, "d");
    node.insert(15, "o");
    node.insert(2, "b");
    let (k, v) = node.first_key_value().unwrap();
    assert_eq!((*k, *v), (2, "b"));
    let (k, v) = node.last_key_value().unwrap();
    assert_eq!((*k, *v), (15, "o"));

    match node.remove_position(NodePosition::First) {
        RemoveAction::Return(value) => assert_eq!(value.unwrap(), "b"),
        RemoveAction::UpdateNode(_) => panic!("the root had a left child"),
    }
    let (k, _) = node.first_key_value().unwrap();
    assert_eq!(*k, 4);
}

#[test]
fn node_remove_signals_replacement_at_match() {
    let mut node = Node::new(10u64, "j");
    node.insert(4, "d");
    node.insert(15, "o");

    // A key held by a child comes back as a plain value outcome.
    match node.remove(4) {
        RemoveAction::Return(value) => assert_eq!(value.unwrap(), "d"),
        RemoveAction::UpdateNode(_) => panic!("the matched node was not the root"),
    }

    // The root's own key makes the root hand its replacement upward.
    match node.remove(10) {
        RemoveAction::Return(_) => panic!("the root itself matched"),
        RemoveAction::UpdateNode(link) => {
            let replacement = link.expect("one child remains");
            assert_eq!(replacement.key, 15);
            assert_eq!(replacement.value, "o");
        },
    }
}

#[test]
fn node_fill_vecs_walk_in_order() {
    let mut node = Node::new(10u64, 1);
    node.insert(4, 2);
    node.insert(15, 3);
    node.insert(6, 4);

    let mut refs: Vec<(&u64, &i32)> = Vec::new();
    node.fill_ref_vec(&mut refs);
    let keys: Vec<u64> = refs.iter().map(|p| *p.0).collect();
    assert_eq!(keys, vec![4, 6, 10, 15]);

    let mut muts: Vec<(&u64, &mut i32)> = Vec::new();
    node.fill_mut_vec(&mut muts);
    for (_, v) in muts {
        *v *= 10;
    }
    assert_eq!(*node.get(6).unwrap(), 40);

    let mut owned: Vec<(u64, i32)> = Vec::new();
    node.fill_owned_vec(&mut owned);
    assert_eq!(owned, vec![(4, 20), (6, 40), (10, 10), (15, 30)]);
}
