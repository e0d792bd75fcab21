use kitties::linked_list::KittyLinkedItem;
use kitties::owned_kitties::OwnedKitties;

fn item(prev: Option<u32>, next: Option<u32>) -> KittyLinkedItem {
    KittyLinkedItem { prev, next }
}

#[test]
fn owned_kitties_can_append_values() {
    let mut owned = OwnedKitties::new();
    owned.append(&0, 1);

    assert_eq!(owned.get(&(0, None)), Some(KittyLinkedItem {
        prev: Some(1),
        next: Some(1),
    }));

    assert_eq!(owned.get(&(0, Some(1))), Some(KittyLinkedItem {
        prev: None,
        next: None,
    }));

    owned.append(&0, 2);

    assert_eq!(owned.get(&(0, None)), Some(KittyLinkedItem {
        prev: Some(2),
        next: Some(1),
    }));

    assert_eq!(owned.get(&(0, Some(1))), Some(KittyLinkedItem {
        prev: None,
        next: Some(2),
    }));

    assert_eq!(owned.get(&(0, Some(2))), Some(KittyLinkedItem {
        prev: Some(1),
        next: None,
    }));

    owned.append(&0, 3);

    assert_eq!(owned.get(&(0, None)), Some(KittyLinkedItem {
        prev: Some(3),
        next: Some(1),
    }));

    assert_eq!(owned.get(&(0, Some(1))), Some(KittyLinkedItem {
        prev: None,
        next: Some(2),
    }));

    assert_eq!(owned.get(&(0, Some(2))), Some(KittyLinkedItem {
        prev: Some(1),
        next: Some(3),
    }));

    assert_eq!(owned.get(&(0, Some(3))), Some(KittyLinkedItem {
        prev: Some(2),
        next: None,
    }));
}

#[test]
fn owned_kitties_can_remove_values() {
    let mut owned = OwnedKitties::new();

    owned.append(&0, 1);
    owned.append(&0, 2);
    owned.append(&0, 3);

    owned.remove(&0, 2);
    assert_eq!(owned.get(&(0, Some(2))), None);
    assert_eq!(owned.get(&(0, Some(3))), Some(KittyLinkedItem {
        prev: Some(1),
        next: None,
    }));
}

#[test]
fn new_index_has_no_nodes_and_empty_lists() {
    let owned = OwnedKitties::new();
    assert_eq!(owned.get(&(0, None)), None);
    assert_eq!(owned.get(&(0, Some(0))), None);
    assert_eq!(owned.head(&0), None);
    assert_eq!(owned.tail(&0), None);
    assert_eq!(owned.list(&0), Vec::<u32>::new());
    assert_eq!(owned.list_backward(&0), Vec::<u32>::new());
}

#[test]
fn first_append_sets_both_ends_of_the_sentinel() {
    for x in [0u32, 1, 77, u32::MAX] {
        let mut owned = OwnedKitties::new();
        owned.append(&5, x);
        assert_eq!(owned.get(&(5, None)), Some(item(Some(x), Some(x))));
        assert_eq!(owned.get(&(5, Some(x))), Some(item(None, None)));
        assert_eq!(owned.head(&5), Some(x));
        assert_eq!(owned.tail(&5), Some(x));
        assert_eq!(owned.list(&5), vec![x]);
    }
}

#[test]
fn three_appends_then_remove_of_the_middle() {
    let (a, b, c) = (10u32, 20u32, 30u32);
    let mut owned = OwnedKitties::new();
    owned.append(&1, a);
    owned.append(&1, b);
    owned.append(&1, c);
    assert_eq!(owned.list(&1), vec![a, b, c]);

    owned.remove(&1, b);
    assert_eq!(owned.list(&1), vec![a, c]);
    assert_eq!(owned.get(&(1, Some(b))), None);
    // a middle element leaves the sentinel alone
    assert_eq!(owned.get(&(1, None)), Some(item(Some(c), Some(a))));
    assert_eq!(owned.get(&(1, Some(a))), Some(item(None, Some(c))));
    assert_eq!(owned.get(&(1, Some(c))), Some(item(Some(a), None)));
}

#[test]
fn remove_of_the_head() {
    let mut owned = OwnedKitties::new();
    owned.append(&0, 1);
    owned.append(&0, 2);
    owned.append(&0, 3);
    owned.remove(&0, 1);
    assert_eq!(owned.list(&0), vec![2, 3]);
    assert_eq!(owned.get(&(0, None)), Some(item(Some(3), Some(2))));
    assert_eq!(owned.get(&(0, Some(2))), Some(item(None, Some(3))));
    assert_eq!(owned.get(&(0, Some(1))), None);
    assert_eq!(owned.head(&0), Some(2));
}

#[test]
fn remove_of_the_tail() {
    let mut owned = OwnedKitties::new();
    owned.append(&0, 1);
    owned.append(&0, 2);
    owned.append(&0, 3);
    owned.remove(&0, 3);
    assert_eq!(owned.list(&0), vec![1, 2]);
    assert_eq!(owned.get(&(0, None)), Some(item(Some(2), Some(1))));
    assert_eq!(owned.get(&(0, Some(2))), Some(item(Some(1), None)));
    assert_eq!(owned.get(&(0, Some(3))), None);
    assert_eq!(owned.tail(&0), Some(2));
}

#[test]
fn remove_of_the_sole_element_resets_the_sentinel() {
    let mut owned = OwnedKitties::new();
    owned.append(&0, 9);
    owned.remove(&0, 9);
    assert_eq!(owned.get(&(0, None)), Some(item(None, None)));
    assert_eq!(owned.get(&(0, Some(9))), None);
    assert_eq!(owned.list(&0), Vec::<u32>::new());
    assert_eq!(owned.head(&0), None);
    assert_eq!(owned.tail(&0), None);
}

#[test]
fn remove_of_an_absent_identifier_changes_nothing() {
    let mut owned = OwnedKitties::new();
    owned.remove(&0, 4);
    assert_eq!(owned.get(&(0, None)), None);

    owned.append(&0, 1);
    owned.append(&0, 2);
    owned.remove(&0, 4);
    assert_eq!(owned.list(&0), vec![1, 2]);
    assert_eq!(owned.get(&(0, None)), Some(item(Some(2), Some(1))));
    assert_eq!(owned.get(&(0, Some(4))), None);
}

#[test]
fn remove_under_another_owner_changes_nothing() {
    let mut owned = OwnedKitties::new();
    owned.append(&0, 1);
    owned.append(&0, 2);
    owned.append(&1, 3);
    owned.remove(&1, 2);
    owned.remove(&0, 3);
    assert_eq!(owned.list(&0), vec![1, 2]);
    assert_eq!(owned.list(&1), vec![3]);
    assert_eq!(owned.get(&(1, Some(2))), None);
    assert_eq!(owned.get(&(0, Some(2))), Some(item(Some(1), None)));
}

#[test]
fn append_then_remove_restores_the_sentinel() {
    // on a list that was never written: the sentinel reads as unlinked again
    let mut owned = OwnedKitties::new();
    owned.append(&0, 5);
    owned.remove(&0, 5);
    assert_eq!(owned.get(&(0, None)), Some(item(None, None)));

    // on a list of one and on a longer one: the stored sentinel is the same
    for len in 1u32..5 {
        let mut owned = OwnedKitties::new();
        for id in 0..len {
            owned.append(&7, id);
        }
        let sentinel = owned.get(&(7, None));
        let nodes: Vec<_> = (0..len).map(|id| owned.get(&(7, Some(id)))).collect();
        owned.append(&7, 100);
        assert_eq!(owned.get(&(7, None)), Some(item(Some(100), Some(0))));
        owned.remove(&7, 100);
        assert_eq!(owned.get(&(7, None)), sentinel);
        assert_eq!(owned.get(&(7, Some(100))), None);
        for id in 0..len {
            assert_eq!(owned.get(&(7, Some(id))), nodes[id as usize]);
        }
    }
}

#[test]
fn append_then_remove_restores_the_sentinel_for_any_identifier() {
    // also where the list holds the identifier already, as its last or as another element
    for id in [1u32, 2, 3, 4] {
        let mut owned = OwnedKitties::new();
        owned.append(&0, 1);
        owned.append(&0, 2);
        owned.append(&0, 3);
        let sentinel = owned.get(&(0, None));
        assert_eq!(sentinel, Some(item(Some(3), Some(1))));
        owned.append(&0, id);
        owned.remove(&0, id);
        assert_eq!(owned.get(&(0, None)), sentinel);
    }
}

#[test]
fn forward_traversal_is_backward_traversal_reversed() {
    let mut owned = OwnedKitties::new();
    let mut model: Vec<u32> = Vec::new();
    // a fixed run of appends and removes that meets head, tail, middle and sole element
    let steps: [(bool, u32); 14] = [
        (true, 4), (true, 8), (true, 15), (false, 8), (true, 16), (true, 23), (false, 4),
        (false, 23), (true, 42), (false, 99), (false, 15), (false, 16), (false, 42), (true, 4),
    ];
    for (is_append, id) in steps {
        if is_append {
            owned.append(&3, id);
            model.push(id);
        } else {
            owned.remove(&3, id);
            model.retain(|x| *x != id);
        }
        let forward = owned.list(&3);
        let mut backward = owned.list_backward(&3);
        backward.reverse();
        assert_eq!(forward, backward);
        assert_eq!(forward, model);
        assert_eq!(owned.head(&3), model.first().copied());
        assert_eq!(owned.tail(&3), model.last().copied());
    }
    assert_eq!(owned.list(&3), vec![4]);
}

#[test]
fn owners_do_not_share_nodes() {
    let mut owned = OwnedKitties::new();
    owned.append(&0, 1);
    owned.append(&u64::MAX, 1);
    owned.append(&0, u32::MAX);
    owned.append(&1, 0);
    assert_eq!(owned.list(&0), vec![1, u32::MAX]);
    assert_eq!(owned.list(&u64::MAX), vec![1]);
    assert_eq!(owned.list(&1), vec![0]);
    assert_eq!(owned.list(&2), Vec::<u32>::new());
    // the sentinel of owner 1 and the last slot of owner 0 are different nodes
    assert_eq!(owned.get(&(0, Some(u32::MAX))), Some(item(Some(1), None)));
    assert_eq!(owned.get(&(1, None)), Some(item(Some(0), Some(0))));
    owned.remove(&0, 1);
    assert_eq!(owned.list(&0), vec![u32::MAX]);
    assert_eq!(owned.list(&u64::MAX), vec![1]);
}

#[test]
fn list_backward_is_newest_first() {
    let mut owned = OwnedKitties::new();
    owned.append(&0, 1);
    owned.append(&0, 2);
    owned.append(&0, 3);
    assert_eq!(owned.list_backward(&0), vec![3, 2, 1]);
}
