//! The ownership index: linked nodes kept in a hash map that is only ever
//! touched by single-key get, insert and take.

use std::collections::HashMap;
use vstd::prelude::*;
use crate::linked_list::{
    append_nodes, at, has_list, is_backward_walk, is_list, lemma_append_keeps_others,
    lemma_append_list_of, lemma_empty_is_well_formed, lemma_list_walks, lemma_remove_keeps_others,
    lemma_remove_list_of, lemma_same_nodes_same_list_of, list_of, read_node, remove_nodes,
    well_formed, without, AccountId, KittyIndex, KittyLinkedItem, NodeKey, Nodes,
};

verus! {

/// Number of slot codes per owner: one for the sentinel and one for each
/// possible identifier.
const SLOTS_PER_ACCOUNT: u128 = 0x1_0000_0001;

/// Code of a slot within its owner's range of storage keys.
spec fn slot_code(key: Option<KittyIndex>) -> int {
    match key {
        None => 0,
        Some(id) => id + 1,
    }
}

/// The storage key of a node. The hash map model of vstd covers integer keys
/// only, so the pair of owner and slot is packed into one integer.
spec fn storage_key(account: AccountId, key: Option<KittyIndex>) -> u128 {
    (account * SLOTS_PER_ACCOUNT + slot_code(key)) as u128
}

/// Distinct nodes have distinct storage keys.
proof fn lemma_storage_key_injective(a: NodeKey, b: NodeKey)
    ensures
        storage_key(a.0, a.1) == storage_key(b.0, b.1) <==> a == b,
{
    let ka = a.0 * SLOTS_PER_ACCOUNT + slot_code(a.1);
    let kb = b.0 * SLOTS_PER_ACCOUNT + slot_code(b.1);
    assert(0 <= slot_code(a.1) < SLOTS_PER_ACCOUNT);
    assert(0 <= slot_code(b.1) < SLOTS_PER_ACCOUNT);
    assert(0 <= ka < 0x1_0000_0000_0000_0000_0000_0000_0000_0000);
    assert(0 <= kb < 0x1_0000_0000_0000_0000_0000_0000_0000_0000);
    if ka == kb {
        if a.0 < b.0 {
            assert(ka < (a.0 + 1) * SLOTS_PER_ACCOUNT <= kb);
        } else if b.0 < a.0 {
            assert(kb < (b.0 + 1) * SLOTS_PER_ACCOUNT <= ka);
        }
        assert(a.0 == b.0);
        assert(slot_code(a.1) == slot_code(b.1));
        assert(a.1 == b.1);
    }
}

fn compute_storage_key(account: AccountId, key: Option<KittyIndex>) -> (k: u128)
    ensures
        k == storage_key(account, key),
{
    let code: u128 = match key {
        None => 0,
        Some(id) => id as u128 + 1,
    };
    account as u128 * SLOTS_PER_ACCOUNT + code
}

/// The node store of the ownership index.
pub struct OwnedKitties {
    nodes: HashMap<u128, KittyLinkedItem>,
}

impl View for OwnedKitties {
    type V = Nodes;

    closed spec fn view(&self) -> Nodes {
        Map::new(
            |k: NodeKey| self.nodes@.contains_key(storage_key(k.0, k.1)),
            |k: NodeKey| self.nodes@[storage_key(k.0, k.1)],
        )
    }
}

impl OwnedKitties {
    /// An index in which no owner has a node.
    pub fn new() -> (index: Self)
        ensures
            index@ == Nodes::empty(),
            well_formed(index@),
            forall|account: AccountId| #[trigger] list_of(index@, account) == Seq::<KittyIndex>::empty(),
    {
        let index = OwnedKitties { nodes: HashMap::new() };
        proof {
            assert(index@ =~= Nodes::empty());
            lemma_empty_is_well_formed();
        }
        index
    }

    /// The node stored under `key`, if there is one.
    pub fn get(&self, key: &NodeKey) -> (item: Option<KittyLinkedItem>)
        ensures
            item == (if self@.contains_key(*key) { Some(self@[*key]) } else { None }),
    {
        let k = compute_storage_key(key.0, key.1);
        match self.nodes.get(&k) {
            Some(item) => Some(*item),
            None => None,
        }
    }

    /// Stores `item` under `key`, replacing what was there.
    fn insert(&mut self, key: NodeKey, item: KittyLinkedItem)
        ensures
            final(self)@ == old(self)@.insert(key, item),
    {
        let k = compute_storage_key(key.0, key.1);
        self.nodes.insert(k, item);
        proof {
            assert forall|other: NodeKey| other != key implies storage_key(other.0, other.1) != k by {
                lemma_storage_key_injective(other, key);
            }
            assert(self@ =~= old(self)@.insert(key, item));
        }
    }

    /// Removes the node under `key` and hands it out, if there is one.
    fn take(&mut self, key: NodeKey) -> (item: Option<KittyLinkedItem>)
        ensures
            item == (if old(self)@.contains_key(key) { Some(old(self)@[key]) } else { None }),
            final(self)@ == old(self)@.remove(key),
    {
        let k = compute_storage_key(key.0, key.1);
        let item = self.nodes.remove(&k);
        proof {
            assert forall|other: NodeKey| other != key implies storage_key(other.0, other.1) != k by {
                lemma_storage_key_injective(other, key);
            }
            assert(self@ =~= old(self)@.remove(key));
        }
        item
    }

    fn read_head(&self, account: &AccountId) -> (item: KittyLinkedItem)
        ensures
            item == read_node(self@, *account, None),
    {
        self.read(account, None)
    }

    fn write_head(&mut self, account: &AccountId, item: KittyLinkedItem)
        ensures
            final(self)@ == old(self)@.insert((*account, None), item),
    {
        self.write(account, None, item);
    }

    fn read(&self, account: &AccountId, key: Option<KittyIndex>) -> (item: KittyLinkedItem)
        ensures
            item == read_node(self@, *account, key),
    {
        match self.get(&(*account, key)) {
            Some(item) => item,
            None => KittyLinkedItem { prev: None, next: None },
        }
    }

    fn write(&mut self, account: &AccountId, key: Option<KittyIndex>, item: KittyLinkedItem)
        ensures
            final(self)@ == old(self)@.insert((*account, key), item),
    {
        self.insert((*account, key), item);
    }

    /// Links `kitty_id` behind the last element of the list of `account`,
    /// with three writes and without walking the list.
    ///
    /// The list is only extended where it did not hold `kitty_id` before: a
    /// second append of the same identifier overwrites its element node.
    pub fn append(&mut self, account: &AccountId, kitty_id: KittyIndex)
        ensures
            final(self)@ == append_nodes(old(self)@, *account, kitty_id),
            has_list(old(self)@, *account) && !list_of(old(self)@, *account).contains(kitty_id) ==> {
                &&& has_list(final(self)@, *account)
                &&& list_of(final(self)@, *account) == list_of(old(self)@, *account).push(kitty_id)
            },
            forall|other: AccountId|
                other != *account ==> {
                    &&& #[trigger] has_list(final(self)@, other) == has_list(old(self)@, other)
                    &&& list_of(final(self)@, other) == list_of(old(self)@, other)
                },
    {
        let head = self.read_head(account);
        let new_head = KittyLinkedItem { prev: Some(kitty_id), next: head.next };

        self.write_head(account, new_head);

        let prev = self.read(account, head.prev);
        let new_prev = KittyLinkedItem { prev: prev.prev, next: Some(kitty_id) };
        self.write(account, head.prev, new_prev);

        let item = KittyLinkedItem { prev: head.prev, next: None };
        self.write(account, Some(kitty_id), item);

        proof {
            if has_list(old(self)@, *account) && !list_of(old(self)@, *account).contains(kitty_id) {
                lemma_append_list_of(old(self)@, *account, kitty_id);
            }
            assert forall|other: AccountId| other != *account implies {
                &&& #[trigger] has_list(self@, other) == has_list(old(self)@, other)
                &&& list_of(self@, other) == list_of(old(self)@, other)
            } by {
                lemma_append_keeps_others(old(self)@, *account, kitty_id, other);
                lemma_same_nodes_same_list_of(old(self)@, self@, other);
            }
        }
    }

    /// Unlinks `kitty_id` from wherever it stands in the list of `account`,
    /// without walking the list. Where `account` has no element node for it,
    /// nothing changes.
    pub fn remove(&mut self, account: &AccountId, kitty_id: KittyIndex)
        ensures
            final(self)@ == remove_nodes(old(self)@, *account, kitty_id),
            !old(self)@.contains_key((*account, Some(kitty_id))) ==> final(self)@ == old(self)@,
            has_list(old(self)@, *account) ==> {
                &&& has_list(final(self)@, *account)
                &&& list_of(final(self)@, *account) == without(list_of(old(self)@, *account), kitty_id)
            },
            forall|other: AccountId|
                other != *account ==> {
                    &&& #[trigger] has_list(final(self)@, other) == has_list(old(self)@, other)
                    &&& list_of(final(self)@, other) == list_of(old(self)@, other)
                },
    {
        if let Some(item) = self.take((*account, Some(kitty_id))) {
            let prev = self.read(account, item.prev);
            let new_prev = KittyLinkedItem { prev: prev.prev, next: item.next };

            self.write(account, item.prev, new_prev);

            let next = self.read(account, item.next);
            let new_next = KittyLinkedItem { prev: item.prev, next: next.next };

            self.write(account, item.next, new_next);
        } else {
            assert(self@ =~= old(self)@);
        }
        proof {
            if has_list(old(self)@, *account) {
                lemma_remove_list_of(old(self)@, *account, kitty_id);
            }
            assert forall|other: AccountId| other != *account implies {
                &&& #[trigger] has_list(self@, other) == has_list(old(self)@, other)
                &&& list_of(self@, other) == list_of(old(self)@, other)
            } by {
                lemma_remove_keeps_others(old(self)@, *account, kitty_id, other);
                lemma_same_nodes_same_list_of(old(self)@, self@, other);
            }
        }
    }

    /// The oldest identifier that `account` still holds.
    pub fn head(&self, account: &AccountId) -> (first: Option<KittyIndex>)
        ensures
            first == read_node(self@, *account, None).next,
            has_list(self@, *account) ==> first == at(list_of(self@, *account), 0),
    {
        self.read_head(account).next
    }

    /// The identifier that `account` received last among those it holds.
    pub fn tail(&self, account: &AccountId) -> (last: Option<KittyIndex>)
        ensures
            last == read_node(self@, *account, None).prev,
            has_list(self@, *account) ==> last == at(
                list_of(self@, *account),
                list_of(self@, *account).len() - 1,
            ),
    {
        self.read_head(account).prev
    }

    /// The identifiers that `account` holds, oldest first, found by following
    /// `next` from the sentinel.
    pub fn list(&self, account: &AccountId) -> (ids: Vec<KittyIndex>)
        requires
            has_list(self@, *account),
        ensures
            ids@ == list_of(self@, *account),
    {
        let ghost l = list_of(self@, *account);
        let mut ids: Vec<KittyIndex> = Vec::new();
        let mut cursor = self.read_head(account).next;
        while cursor.is_some()
            invariant
                is_list(self@, *account, l),
                ids.len() <= l.len(),
                ids@ == l.take(ids.len() as int),
                cursor == at(l, ids.len() as int),
            decreases l.len() - ids.len(),
        {
            let id = cursor.unwrap();
            cursor = self.read(account, Some(id)).next;
            ids.push(id);
            assert(ids@ =~= l.take(ids.len() as int));
        }
        assert(ids@ =~= l);
        ids
    }

    /// The identifiers that `account` holds, newest first, found by following
    /// `prev` from the sentinel.
    pub fn list_backward(&self, account: &AccountId) -> (ids: Vec<KittyIndex>)
        requires
            has_list(self@, *account),
        ensures
            ids@ == list_of(self@, *account).reverse(),
    {
        let ghost l = list_of(self@, *account);
        let ghost r = l.reverse();
        proof {
            lemma_list_walks(self@, *account, l);
        }
        let mut ids: Vec<KittyIndex> = Vec::new();
        let mut cursor = self.read_head(account).prev;
        while cursor.is_some()
            invariant
                is_backward_walk(self@, *account, r),
                ids.len() <= r.len(),
                ids@ == r.take(ids.len() as int),
                cursor == at(r, ids.len() as int),
            decreases r.len() - ids.len(),
        {
            let id = cursor.unwrap();
            cursor = self.read(account, Some(id)).prev;
            ids.push(id);
            assert(ids@ =~= r.take(ids.len() as int));
        }
        assert(ids@ =~= r);
        ids
    }
}

} // verus!
