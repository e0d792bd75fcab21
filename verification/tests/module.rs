use kitties::dna::{combine, Kitty};
use kitties::linked_list::KittyLinkedItem;
use kitties::module::{Error, Module};

const SEED: [u8; 32] = [7u8; 32];

fn genome(module: &Module, kitty_id: u32) -> [u8; 16] {
    module.kitties(kitty_id).unwrap().0
}

#[test]
fn new_module_is_empty() {
    let module = Module::new();
    assert_eq!(module.kitties_count(), 0);
    assert!(module.kitties(0).is_none());
    assert!(!module.kitty_exists(0));
    assert_eq!(module.next_kitty_id(), Ok(0));
    assert_eq!(module.list(&0), Vec::<u32>::new());
    assert_eq!(module.owned_kitties(&(0, None)), None);
}

#[test]
fn create_issues_identifiers_in_order() {
    let mut module = Module::new();
    for expected in 0u32..5 {
        assert_eq!(module.next_kitty_id(), Ok(expected));
        assert_eq!(module.create(9, &SEED, Some(expected)), Ok(expected));
        assert_eq!(module.kitties_count(), expected + 1);
        assert!(module.kitty_exists(expected));
        assert!(!module.kitty_exists(expected + 1));
    }
    assert_eq!(module.list(&9), vec![0, 1, 2, 3, 4]);
}

#[test]
fn create_stores_the_random_value_as_genome() {
    let mut module = Module::new();
    assert_eq!(module.create(3, &SEED, Some(2)), Ok(0));
    assert_eq!(genome(&module, 0), Module::random_value(&3, &SEED, Some(2)));
    assert_eq!(module.create(4, &[0u8; 32], None), Ok(1));
    assert_eq!(genome(&module, 1), Module::random_value(&4, &[0u8; 32], None));
    assert_eq!(module.list(&3), vec![0]);
    assert_eq!(module.list(&4), vec![1]);
}

#[test]
fn next_kitty_id_does_not_advance_the_counter() {
    let mut module = Module::new();
    assert_eq!(module.next_kitty_id(), Ok(0));
    assert_eq!(module.next_kitty_id(), Ok(0));
    assert_eq!(module.kitties_count(), 0);
    module.create(1, &SEED, None).unwrap();
    assert_eq!(module.next_kitty_id(), Ok(1));
    assert_eq!(module.next_kitty_id(), Ok(1));
}

#[test]
fn allocator_overflows_at_the_largest_identifier() {
    let mut module = Module::new();
    module.insert_kitty(1, u32::MAX - 1, Kitty([1; 16]));
    assert_eq!(module.kitties_count(), u32::MAX);
    assert_eq!(module.next_kitty_id(), Err(Error::KittiesCountOverflow));

    assert_eq!(module.create(1, &SEED, None), Err(Error::KittiesCountOverflow));
    assert_eq!(module.kitties_count(), u32::MAX);
    assert!(!module.kitty_exists(u32::MAX));
    assert_eq!(module.list(&1), vec![u32::MAX - 1]);

    // once more: a failing call has not moved anything
    assert_eq!(module.create(2, &SEED, None), Err(Error::KittiesCountOverflow));
    assert_eq!(module.next_kitty_id(), Err(Error::KittiesCountOverflow));
    assert_eq!(module.kitties_count(), u32::MAX);
    assert_eq!(module.list(&2), Vec::<u32>::new());
}

#[test]
fn last_identifier_before_overflow_is_issued() {
    let mut module = Module::new();
    module.insert_kitty(1, u32::MAX - 2, Kitty([1; 16]));
    assert_eq!(module.next_kitty_id(), Ok(u32::MAX - 1));
    assert_eq!(module.create(1, &SEED, None), Ok(u32::MAX - 1));
    assert_eq!(module.create(1, &SEED, None), Err(Error::KittiesCountOverflow));
    assert_eq!(module.list(&1), vec![u32::MAX - 2, u32::MAX - 1]);
}

#[test]
fn insert_kitty_stores_counts_and_links() {
    let mut module = Module::new();
    module.insert_kitty(5, 0, Kitty([0x11; 16]));
    module.insert_kitty(6, 1, Kitty([0x22; 16]));
    module.insert_kitty(5, 2, Kitty([0x33; 16]));
    assert_eq!(module.kitties_count(), 3);
    assert_eq!(genome(&module, 0), [0x11; 16]);
    assert_eq!(genome(&module, 1), [0x22; 16]);
    assert_eq!(genome(&module, 2), [0x33; 16]);
    assert_eq!(module.list(&5), vec![0, 2]);
    assert_eq!(module.list(&6), vec![1]);
    assert_eq!(
        module.owned_kitties(&(5, None)),
        Some(KittyLinkedItem { prev: Some(2), next: Some(0) })
    );
    assert_eq!(
        module.owned_kitties(&(5, Some(2))),
        Some(KittyLinkedItem { prev: Some(0), next: None })
    );
}

#[test]
fn breed_mixes_the_parents_under_the_random_value() {
    let mut module = Module::new();
    module.insert_kitty(1, 0, Kitty([0xaa; 16]));
    module.insert_kitty(2, 1, Kitty([0x55; 16]));

    assert_eq!(module.breed(3, 0, 1, &SEED, Some(4)), Ok(2));
    let selector = Module::random_value(&3, &SEED, Some(4));
    let expected = combine(&selector, &Kitty([0xaa; 16]), &Kitty([0x55; 16]));
    assert_eq!(genome(&module, 2), expected.0);
    for i in 0..16 {
        assert_eq!(genome(&module, 2)[i], (selector[i] & 0xaa) | (!selector[i] & 0x55));
    }
    assert_eq!(module.kitties_count(), 3);
    assert_eq!(module.list(&3), vec![2]);
    assert_eq!(module.list(&1), vec![0]);
    assert_eq!(module.list(&2), vec![1]);
    // the parents are as they were
    assert_eq!(genome(&module, 0), [0xaa; 16]);
    assert_eq!(genome(&module, 1), [0x55; 16]);
}

#[test]
fn do_breed_takes_the_parents_in_order() {
    let mut module = Module::new();
    module.insert_kitty(1, 0, Kitty([0xff; 16]));
    module.insert_kitty(1, 1, Kitty([0x00; 16]));
    assert_eq!(module.do_breed(1, 0, 1, &SEED, None), Ok(2));
    assert_eq!(module.do_breed(1, 1, 0, &SEED, None), Ok(3));
    let selector = Module::random_value(&1, &SEED, None);
    for i in 0..16 {
        assert_eq!(genome(&module, 2)[i], selector[i]);
        assert_eq!(genome(&module, 3)[i], !selector[i]);
    }
    assert_eq!(module.list(&1), vec![0, 1, 2, 3]);
}

#[test]
fn breed_with_itself_copies_the_parent() {
    let mut module = Module::new();
    module.insert_kitty(1, 0, Kitty([0x3c; 16]));
    assert_eq!(module.breed(1, 0, 0, &SEED, None), Ok(1));
    assert_eq!(genome(&module, 1), [0x3c; 16]);
}

#[test]
fn breed_with_unknown_parent_is_rejected_and_allocates_nothing() {
    let mut module = Module::new();
    module.create(1, &SEED, Some(0)).unwrap();
    module.create(1, &SEED, Some(1)).unwrap();
    let before_first = genome(&module, 0);

    assert_eq!(module.breed(1, 0, 2, &SEED, Some(2)), Err(Error::InvalidKittyId));
    assert_eq!(module.breed(1, 2, 0, &SEED, Some(2)), Err(Error::InvalidKittyId));
    assert_eq!(module.do_breed(1, 7, 9, &SEED, Some(2)), Err(Error::InvalidKittyId));

    assert_eq!(module.kitties_count(), 2);
    assert_eq!(module.next_kitty_id(), Ok(2));
    assert!(!module.kitty_exists(2));
    assert_eq!(module.list(&1), vec![0, 1]);
    assert_eq!(genome(&module, 0), before_first);
}

#[test]
fn breed_with_unknown_parent_comes_before_overflow() {
    let mut module = Module::new();
    module.insert_kitty(1, u32::MAX - 1, Kitty([1; 16]));
    assert_eq!(module.breed(1, 0, u32::MAX - 1, &SEED, None), Err(Error::InvalidKittyId));
    assert_eq!(
        module.breed(1, u32::MAX - 1, u32::MAX - 1, &SEED, None),
        Err(Error::KittiesCountOverflow)
    );
    assert_eq!(module.kitties_count(), u32::MAX);
    assert_eq!(module.list(&1), vec![u32::MAX - 1]);
}

#[test]
fn transfer_moves_the_entity_to_the_end_of_the_new_list() {
    let mut module = Module::new();
    for i in 0..3 {
        module.create(1, &SEED, Some(i)).unwrap();
    }
    module.create(2, &SEED, Some(3)).unwrap();
    let genomes: Vec<_> = (0..4).map(|id| genome(&module, id)).collect();

    assert_eq!(module.transfer(1, 2, 1), Ok(()));
    assert_eq!(module.list(&1), vec![0, 2]);
    assert_eq!(module.list(&2), vec![3, 1]);
    assert_eq!(module.owned_kitties(&(1, Some(1))), None);
    assert_eq!(
        module.owned_kitties(&(2, Some(1))),
        Some(KittyLinkedItem { prev: Some(3), next: None })
    );
    // neither the counter nor any genome moves
    assert_eq!(module.kitties_count(), 4);
    for id in 0..4 {
        assert_eq!(genome(&module, id), genomes[id as usize]);
    }
    assert_eq!(module.create(1, &SEED, Some(4)), Ok(4));
}

#[test]
fn transfer_to_oneself_moves_the_entity_to_the_end() {
    let mut module = Module::new();
    for i in 0..3 {
        module.create(1, &SEED, Some(i)).unwrap();
    }
    assert_eq!(module.transfer(1, 1, 0), Ok(()));
    assert_eq!(module.list(&1), vec![1, 2, 0]);
    assert_eq!(module.transfer(1, 1, 0), Ok(()));
    assert_eq!(module.list(&1), vec![1, 2, 0]);
}

#[test]
fn transfer_there_and_back() {
    let mut module = Module::new();
    module.create(1, &SEED, None).unwrap();
    assert_eq!(module.transfer(1, 2, 0), Ok(()));
    assert_eq!(module.list(&1), Vec::<u32>::new());
    assert_eq!(module.list(&2), vec![0]);
    assert_eq!(module.transfer(1, 2, 0), Err(Error::NotKittyOwner));
    assert_eq!(module.transfer(2, 1, 0), Ok(()));
    assert_eq!(module.list(&1), vec![0]);
    assert_eq!(module.list(&2), Vec::<u32>::new());
}

#[test]
fn transfer_by_a_non_owner_is_rejected_and_changes_nothing() {
    let mut module = Module::new();
    module.create(1, &SEED, Some(0)).unwrap();
    module.create(1, &SEED, Some(1)).unwrap();
    module.create(2, &SEED, Some(2)).unwrap();
    let stored = genome(&module, 0);
    let sentinel_1 = module.owned_kitties(&(1, None));
    let sentinel_2 = module.owned_kitties(&(2, None));
    let sentinel_3 = module.owned_kitties(&(3, None));

    assert_eq!(module.transfer(2, 3, 0), Err(Error::NotKittyOwner));
    assert_eq!(module.transfer(3, 2, 0), Err(Error::NotKittyOwner));
    assert_eq!(module.transfer(2, 2, 1), Err(Error::NotKittyOwner));

    assert_eq!(module.list(&1), vec![0, 1]);
    assert_eq!(module.list(&2), vec![2]);
    assert_eq!(module.list(&3), Vec::<u32>::new());
    assert_eq!(module.owned_kitties(&(1, None)), sentinel_1);
    assert_eq!(module.owned_kitties(&(2, None)), sentinel_2);
    assert_eq!(module.owned_kitties(&(3, None)), sentinel_3);
    assert_eq!(genome(&module, 0), stored);
    assert_eq!(module.kitties_count(), 3);
}

#[test]
fn transfer_of_an_unknown_entity_is_rejected() {
    let mut module = Module::new();
    assert_eq!(module.transfer(1, 2, 0), Err(Error::InvalidKittyId));
    module.create(1, &SEED, None).unwrap();
    assert_eq!(module.transfer(1, 2, 1), Err(Error::InvalidKittyId));
    assert_eq!(module.list(&1), vec![0]);
    assert_eq!(module.list(&2), Vec::<u32>::new());
    assert_eq!(module.kitties_count(), 1);
}

#[test]
fn every_entity_has_one_owner_after_mixed_requests() {
    let mut module = Module::new();
    for i in 0..6u32 {
        module.create((i % 3) as u64, &SEED, Some(i)).unwrap();
    }
    module.breed(0, 1, 2, &SEED, Some(6)).unwrap();
    module.transfer(0, 1, 3).unwrap();
    module.transfer(1, 2, 1).unwrap();
    module.transfer(2, 0, 2).unwrap();
    assert_eq!(module.list(&0), vec![0, 6, 2]);
    assert_eq!(module.list(&1), vec![4, 3]);
    assert_eq!(module.list(&2), vec![5, 1]);
    let mut all: Vec<u32> = Vec::new();
    for owner in 0..3u64 {
        all.extend(module.list(&owner));
    }
    all.sort();
    assert_eq!(all, (0..module.kitties_count()).collect::<Vec<u32>>());
}

#[test]
fn error_compares_by_variant() {
    assert_eq!(Error::InvalidKittyId, Error::InvalidKittyId);
    assert_ne!(Error::InvalidKittyId, Error::NotKittyOwner);
    assert_ne!(Error::NotKittyOwner, Error::KittiesCountOverflow);
}
