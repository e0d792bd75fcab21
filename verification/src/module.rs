//! The game itself: the identifier allocator, the entity store and the
//! requests that create, breed and transfer entities.

use std::collections::HashMap;
use vstd::prelude::*;
use crate::dna::{combine, combine_spec, Kitty};
use crate::linked_list::{
    append_nodes, exclusive, has_list, lemma_append_gives, lemma_empty_is_well_formed,
    lemma_list_holds_what_has_a_node, lemma_remove_takes, list_of, owns, remove_nodes,
    well_formed, without, AccountId, KittyIndex, KittyLinkedItem, NodeKey, Nodes,
};
use crate::owned_kitties::OwnedKitties;
use crate::randomness::random_value_spec;

verus! {

/// Why a request was turned down. A request that is turned down changes
/// nothing.
#[derive(Clone, Copy, Debug, PartialEq, Eq, Structural)]
pub enum Error {
    /// Every identifier has been issued.
    KittiesCountOverflow,
    /// No entity has the identifier named.
    InvalidKittyId,
    /// The sender does not own the entity named.
    NotKittyOwner,
}

/// What the game holds, as mathematics.
pub struct State {
    /// The genome of every entity created so far.
    pub kitties: Map<KittyIndex, Kitty>,
    /// The next identifier to issue.
    pub kitties_count: KittyIndex,
    /// The linked nodes of the ownership index.
    pub owned_kitties: Nodes,
}

impl State {
    /// Every owner's nodes form a list, every entity was issued its
    /// identifier before the counter reached its present value, and every
    /// entity stands in the list of exactly one owner.
    #[verifier::opaque]
    pub open spec fn wf(self) -> bool {
        &&& well_formed(self.owned_kitties)
        &&& forall|kitty_id: KittyIndex| #[trigger]
            self.kitties.contains_key(kitty_id) ==> kitty_id < self.kitties_count
        &&& forall|kitty_id: KittyIndex| #[trigger]
            self.kitties.contains_key(kitty_id) ==> exists|account: AccountId|
                owns(self.owned_kitties, account, kitty_id)
        &&& forall|account: AccountId, kitty_id: KittyIndex| #[trigger]
            owns(self.owned_kitties, account, kitty_id) ==> self.kitties.contains_key(kitty_id)
        &&& exclusive(self.owned_kitties)
    }

    /// The store holds an entity for each identifier below the counter and
    /// for no other: no identifier was passed over.
    pub open spec fn dense(self) -> bool {
        forall|kitty_id: KittyIndex| #[trigger]
            self.kitties.contains_key(kitty_id) <==> kitty_id < self.kitties_count
    }

    /// The state after `kitty` was stored under `kitty_id` for `owner`: the
    /// counter stands one past the identifier, and the identifier is linked
    /// behind the owner's last.
    pub open spec fn with_kitty(self, owner: AccountId, kitty_id: KittyIndex, kitty: Kitty) -> State {
        State {
            kitties: self.kitties.insert(kitty_id, kitty),
            kitties_count: (kitty_id + 1) as KittyIndex,
            owned_kitties: append_nodes(self.owned_kitties, owner, kitty_id),
        }
    }

    /// The state after `kitty_id` went from `sender` to `to`: unlinked from
    /// the one list first, then linked at the end of the other.
    pub open spec fn with_transfer(self, sender: AccountId, to: AccountId, kitty_id: KittyIndex) -> State {
        State {
            kitties: self.kitties,
            kitties_count: self.kitties_count,
            owned_kitties: append_nodes(remove_nodes(self.owned_kitties, sender, kitty_id), to, kitty_id),
        }
    }

    /// The identifier that the allocator hands out next, or the reason why
    /// it has none left.
    pub open spec fn next_kitty_id(self) -> Result<KittyIndex, Error> {
        if self.kitties_count == KittyIndex::MAX {
            Err(Error::KittiesCountOverflow)
        } else {
            Ok(self.kitties_count)
        }
    }

    /// The identifier that a breeding of the two parents gets, or the reason
    /// why there is none: a parent that does not exist comes before an
    /// exhausted allocator.
    pub open spec fn breed_outcome(self, kitty_id_1: KittyIndex, kitty_id_2: KittyIndex) -> Result<KittyIndex, Error> {
        if !self.kitties.contains_key(kitty_id_1) || !self.kitties.contains_key(kitty_id_2) {
            Err(Error::InvalidKittyId)
        } else {
            self.next_kitty_id()
        }
    }

    /// Whether `sender` may hand `kitty_id` on: the entity must exist, and
    /// `sender` must hold it.
    pub open spec fn transfer_outcome(self, sender: AccountId, kitty_id: KittyIndex) -> Result<(), Error> {
        if !self.kitties.contains_key(kitty_id) {
            Err(Error::InvalidKittyId)
        } else if !owns(self.owned_kitties, sender, kitty_id) {
            Err(Error::NotKittyOwner)
        } else {
            Ok(())
        }
    }

    /// The state after a request to create an entity with the genome `kitty`
    /// for `owner`. A request that finds the allocator exhausted changes
    /// nothing.
    pub open spec fn after_create(self, owner: AccountId, kitty: Kitty) -> State {
        match self.next_kitty_id() {
            Ok(kitty_id) => self.with_kitty(owner, kitty_id, kitty),
            Err(_) => self,
        }
    }

    /// The state after one such request for each entry of `births`, first
    /// one first.
    pub open spec fn after_creates(self, births: Seq<(AccountId, Kitty)>) -> State
        decreases births.len(),
    {
        if births.len() == 0 {
            self
        } else {
            self.after_creates(births.drop_last()).after_create(births.last().0, births.last().1)
        }
    }

    /// `after` is this state with one more entity: a genome `dna` stored
    /// under `kitty_id` for `owner`.
    pub open spec fn minted(self, after: State, owner: AccountId, kitty_id: KittyIndex, dna: Seq<u8>) -> bool {
        &&& after == self.with_kitty(owner, kitty_id, after.kitties[kitty_id])
        &&& after.kitties[kitty_id]@ == dna
        &&& after.wf()
        &&& list_of(after.owned_kitties, owner) == list_of(self.owned_kitties, owner).push(kitty_id)
        &&& forall|other: AccountId|
            other != owner ==> #[trigger] list_of(after.owned_kitties, other) == list_of(self.owned_kitties, other)
    }
}

/// Storing a new entity under an identifier that was never issued keeps the
/// state well formed, puts the entity at the end of its owner's list and
/// leaves every other list as it was.
pub proof fn lemma_with_kitty_keeps_wf(state: State, owner: AccountId, kitty_id: KittyIndex, kitty: Kitty)
    requires
        state.wf(),
        state.kitties_count <= kitty_id < KittyIndex::MAX,
    ensures
        state.with_kitty(owner, kitty_id, kitty).wf(),
        list_of(state.with_kitty(owner, kitty_id, kitty).owned_kitties, owner) == list_of(
            state.owned_kitties,
            owner,
        ).push(kitty_id),
        forall|other: AccountId|
            other != owner ==> #[trigger] list_of(state.with_kitty(owner, kitty_id, kitty).owned_kitties, other)
                == list_of(state.owned_kitties, other),
{
    reveal(State::wf);
    let before = state.owned_kitties;
    let after = state.with_kitty(owner, kitty_id, kitty);
    assert forall|holder: AccountId| !owns(before, holder, kitty_id) by {
        if owns(before, holder, kitty_id) {
            assert(state.kitties.contains_key(kitty_id));
        }
    }
    lemma_append_gives(before, owner, kitty_id);
    assert forall|id: KittyIndex| #[trigger] after.kitties.contains_key(id) implies id < after.kitties_count by {
        if id != kitty_id {
            assert(state.kitties.contains_key(id));
        }
    }
    assert forall|id: KittyIndex| #[trigger] after.kitties.contains_key(id) implies exists|account: AccountId|
        owns(after.owned_kitties, account, id) by {
        if id == kitty_id {
            assert(owns(after.owned_kitties, owner, id));
        } else {
            assert(state.kitties.contains_key(id));
            let account = choose|account: AccountId| owns(before, account, id);
            assert(owns(after.owned_kitties, account, id));
        }
    }
    assert forall|account: AccountId, id: KittyIndex| #[trigger]
        owns(after.owned_kitties, account, id) implies after.kitties.contains_key(id) by {
        if id != kitty_id {
            assert(owns(before, account, id));
        }
    }
    assert forall|first: AccountId, second: AccountId, id: KittyIndex|
        #[trigger] owns(after.owned_kitties, first, id) && #[trigger] owns(
            after.owned_kitties,
            second,
            id,
        ) implies first == second by {
        if id != kitty_id {
            assert(owns(before, first, id) && owns(before, second, id));
        }
    }
}

/// In a well-formed state every entity was issued an identifier below the
/// counter and stands in the list of exactly one owner.
pub proof fn lemma_every_entity_has_one_owner(state: State, kitty_id: KittyIndex)
    requires
        state.wf(),
        state.kitties.contains_key(kitty_id),
    ensures
        kitty_id < state.kitties_count,
        exists|owner: AccountId| owns(state.owned_kitties, owner, kitty_id),
        forall|first: AccountId, second: AccountId|
            #[trigger] owns(state.owned_kitties, first, kitty_id) && #[trigger] owns(
                state.owned_kitties,
                second,
                kitty_id,
            ) ==> first == second,
{
    reveal(State::wf);
}

/// In a well-formed state an owner's list names entities only.
pub proof fn lemma_owned_entities_exist(state: State, owner: AccountId, kitty_id: KittyIndex)
    requires
        state.wf(),
        owns(state.owned_kitties, owner, kitty_id),
    ensures
        state.kitties.contains_key(kitty_id),
{
    reveal(State::wf);
}

/// The allocator counts the requests it served. Starting at zero it issues
/// each identifier below the largest value of its type once, in order; every
/// request after that fails and leaves the counter where it is.
pub proof fn lemma_allocator_runs_out(state: State, births: Seq<(AccountId, Kitty)>)
    requires
        state.kitties_count == 0,
    ensures
        births.len() < KittyIndex::MAX ==> state.after_creates(births).next_kitty_id() == Ok::<KittyIndex, Error>(
            births.len() as KittyIndex,
        ),
        births.len() >= KittyIndex::MAX ==> state.after_creates(births).next_kitty_id() == Err::<
            KittyIndex,
            Error,
        >(Error::KittiesCountOverflow),
        births.len() >= KittyIndex::MAX ==> forall|owner: AccountId, kitty: Kitty| #[trigger]
            state.after_creates(births).after_create(owner, kitty) == state.after_creates(births),
    decreases births.len(),
{
    if births.len() > 0 {
        lemma_allocator_runs_out(state, births.drop_last());
    }
}

/// As long as every new entity takes the identifier that the allocator
/// issues, the store holds exactly the identifiers below the counter.
pub proof fn lemma_creates_keep_dense(state: State, births: Seq<(AccountId, Kitty)>)
    requires
        state.dense(),
    ensures
        state.after_creates(births).dense(),
    decreases births.len(),
{
    if births.len() > 0 {
        lemma_creates_keep_dense(state, births.drop_last());
    }
}

/// Handing an entity from its owner to another account, or to its owner
/// again, keeps the state well formed: the entity becomes the last of the
/// receiver's list and leaves every other list, whose order stays.
pub proof fn lemma_with_transfer_keeps_wf(state: State, sender: AccountId, to: AccountId, kitty_id: KittyIndex)
    requires
        state.wf(),
        owns(state.owned_kitties, sender, kitty_id),
    ensures
        state.with_transfer(sender, to, kitty_id).wf(),
        list_of(state.with_transfer(sender, to, kitty_id).owned_kitties, to) == without(
            list_of(state.owned_kitties, to),
            kitty_id,
        ).push(kitty_id),
        forall|other: AccountId|
            other != to ==> #[trigger] list_of(state.with_transfer(sender, to, kitty_id).owned_kitties, other)
                == without(list_of(state.owned_kitties, other), kitty_id),
{
    reveal(State::wf);
    let before = state.owned_kitties;
    let between = remove_nodes(before, sender, kitty_id);
    let after = state.with_transfer(sender, to, kitty_id);
    lemma_remove_takes(before, sender, kitty_id);
    assert forall|holder: AccountId| !owns(between, holder, kitty_id) by {}
    lemma_append_gives(between, to, kitty_id);
    assert(list_of(between, to) == without(list_of(before, to), kitty_id));
    assert forall|other: AccountId| other != to implies #[trigger] list_of(after.owned_kitties, other)
        == without(list_of(before, other), kitty_id) by {
        assert(list_of(between, other) == without(list_of(before, other), kitty_id));
    }
    assert forall|id: KittyIndex| #[trigger] after.kitties.contains_key(id) implies exists|account: AccountId|
        owns(after.owned_kitties, account, id) by {
        if id == kitty_id {
            assert(owns(after.owned_kitties, to, id));
        } else {
            let account = choose|account: AccountId| owns(before, account, id);
            assert(owns(between, account, id));
            assert(owns(after.owned_kitties, account, id));
        }
    }
    assert forall|account: AccountId, id: KittyIndex| #[trigger]
        owns(after.owned_kitties, account, id) implies after.kitties.contains_key(id) by {
        if id == kitty_id {
            assert(state.kitties.contains_key(kitty_id));
        } else {
            assert(owns(between, account, id));
            assert(owns(before, account, id));
        }
    }
    assert forall|first: AccountId, second: AccountId, id: KittyIndex|
        #[trigger] owns(after.owned_kitties, first, id) && #[trigger] owns(
            after.owned_kitties,
            second,
            id,
        ) implies first == second by {
        if id != kitty_id {
            assert(owns(between, first, id) && owns(between, second, id));
            assert(owns(before, first, id) && owns(before, second, id));
        }
    }
}

/// The game's state: entity store, identifier counter and ownership index.
pub struct Module {
    kitties: HashMap<KittyIndex, Kitty>,
    kitties_count: KittyIndex,
    owned_kitties: OwnedKitties,
}

impl View for Module {
    type V = State;

    closed spec fn view(&self) -> State {
        State {
            kitties: self.kitties@,
            kitties_count: self.kitties_count,
            owned_kitties: self.owned_kitties@,
        }
    }
}

impl Module {
    /// A game without entities, whose first identifier is zero.
    pub fn new() -> (module: Self)
        ensures
            module@.wf(),
            module@.kitties == Map::<KittyIndex, Kitty>::empty(),
            module@.kitties_count == 0,
            module@.owned_kitties == Nodes::empty(),
            forall|owner: AccountId| #[trigger]
                list_of(module@.owned_kitties, owner) == Seq::<KittyIndex>::empty(),
    {
        let module = Module { kitties: HashMap::new(), kitties_count: 0, owned_kitties: OwnedKitties::new() };
        proof {
            reveal(State::wf);
            lemma_empty_is_well_formed();
        }
        module
    }

    /// The genome stored under `kitty_id`, if that identifier was issued.
    pub fn kitties(&self, kitty_id: KittyIndex) -> (kitty: Option<Kitty>)
        ensures
            kitty == (if self@.kitties.contains_key(kitty_id) {
                Some(self@.kitties[kitty_id])
            } else {
                None
            }),
    {
        match self.kitties.get(&kitty_id) {
            Some(kitty) => Some(*kitty),
            None => None,
        }
    }

    /// Whether an entity has the identifier `kitty_id`.
    pub fn kitty_exists(&self, kitty_id: KittyIndex) -> (found: bool)
        ensures
            found == self@.kitties.contains_key(kitty_id),
    {
        self.kitties.contains_key(&kitty_id)
    }

    /// The counter: one past the identifier issued last, and the next one to
    /// issue.
    pub fn kitties_count(&self) -> (count: KittyIndex)
        ensures
            count == self@.kitties_count,
    {
        self.kitties_count
    }

    /// The node of the ownership index stored under `key`, if there is one.
    pub fn owned_kitties(&self, key: &NodeKey) -> (item: Option<KittyLinkedItem>)
        ensures
            item == (if self@.owned_kitties.contains_key(*key) {
                Some(self@.owned_kitties[*key])
            } else {
                None
            }),
    {
        self.owned_kitties.get(key)
    }

    /// The identifier for the next entity. It fails once the counter has
    /// reached the largest value of its type, and it never writes.
    pub fn next_kitty_id(&self) -> (next: Result<KittyIndex, Error>)
        ensures
            next == self@.next_kitty_id(),
    {
        let kitty_id = self.kitties_count;
        if kitty_id == KittyIndex::MAX {
            return Err(Error::KittiesCountOverflow);
        }
        Ok(kitty_id)
    }

    fn insert_owned_kitty(&mut self, owner: &AccountId, kitty_id: KittyIndex)
        ensures
            final(self)@ == (State {
                owned_kitties: append_nodes(old(self)@.owned_kitties, *owner, kitty_id),
                ..old(self)@
            }),
    {
        self.owned_kitties.append(owner, kitty_id);
    }

    fn remove_owned_kitty(&mut self, owner: &AccountId, kitty_id: KittyIndex)
        ensures
            final(self)@ == (State {
                owned_kitties: remove_nodes(old(self)@.owned_kitties, *owner, kitty_id),
                ..old(self)@
            }),
    {
        self.owned_kitties.remove(owner, kitty_id);
    }

    /// Stores a new entity, moves the counter one past its identifier and
    /// links the identifier at the end of the owner's list.
    ///
    /// The identifier must be one that was never issued, that is, not below
    /// the counter, and the counter must be able to pass it.
    pub fn insert_kitty(&mut self, owner: AccountId, kitty_id: KittyIndex, kitty: Kitty)
        requires
            old(self)@.wf(),
            old(self)@.kitties_count <= kitty_id < KittyIndex::MAX,
        ensures
            final(self)@ == old(self)@.with_kitty(owner, kitty_id, kitty),
            old(self)@.minted(final(self)@, owner, kitty_id, kitty@),
    {
        self.kitties.insert(kitty_id, kitty);
        self.kitties_count = kitty_id + 1;

        self.insert_owned_kitty(&owner, kitty_id);
        proof {
            lemma_with_kitty_keeps_wf(old(self)@, owner, kitty_id, kitty);
        }
    }

    /// Breeds a new entity for `sender` from two existing ones. Its genome
    /// mixes the parents' genomes under the random bytes that belong to this
    /// sender, seed and extrinsic.
    pub fn do_breed(
        &mut self,
        sender: AccountId,
        kitty_id_1: KittyIndex,
        kitty_id_2: KittyIndex,
        random_seed: &[u8; 32],
        extrinsic_index: Option<u32>,
    ) -> (bred: Result<KittyIndex, Error>)
        requires
            old(self)@.wf(),
        ensures
            bred == old(self)@.breed_outcome(kitty_id_1, kitty_id_2),
            bred is Err ==> final(self)@ == old(self)@,
            bred matches Ok(kitty_id) ==> old(self)@.minted(
                final(self)@,
                sender,
                kitty_id,
                combine_spec(
                    random_value_spec(random_seed@, sender, extrinsic_index),
                    old(self)@.kitties[kitty_id_1]@,
                    old(self)@.kitties[kitty_id_2]@,
                ),
            ),
    {
        let kitty1 = match self.kitties(kitty_id_1) {
            Some(kitty) => kitty,
            None => return Err(Error::InvalidKittyId),
        };
        let kitty2 = match self.kitties(kitty_id_2) {
            Some(kitty) => kitty,
            None => return Err(Error::InvalidKittyId),
        };

        let kitty_id = match self.next_kitty_id() {
            Ok(kitty_id) => kitty_id,
            Err(error) => return Err(error),
        };
        let selector = Self::random_value(&sender, random_seed, extrinsic_index);

        let kitty = combine(&selector, &kitty1, &kitty2);

        self.insert_kitty(sender, kitty_id, kitty);

        Ok(kitty_id)
    }

    /// Creates a new entity for `sender`. Its genome is the random bytes that
    /// belong to this sender, seed and extrinsic.
    pub fn create(&mut self, sender: AccountId, random_seed: &[u8; 32], extrinsic_index: Option<u32>) -> (created:
        Result<KittyIndex, Error>)
        requires
            old(self)@.wf(),
        ensures
            created == old(self)@.next_kitty_id(),
            created is Err ==> final(self)@ == old(self)@,
            created matches Ok(kitty_id) ==> old(self)@.minted(
                final(self)@,
                sender,
                kitty_id,
                random_value_spec(random_seed@, sender, extrinsic_index),
            ),
    {
        let kitty_id = match self.next_kitty_id() {
            Ok(kitty_id) => kitty_id,
            Err(error) => return Err(error),
        };

        let dna = Self::random_value(&sender, random_seed, extrinsic_index);

        let kitty = Kitty(dna);

        self.insert_kitty(sender, kitty_id, kitty);
        Ok(kitty_id)
    }

    /// Breeds a new entity for `sender`; see `do_breed`.
    pub fn breed(
        &mut self,
        sender: AccountId,
        kitty_id_1: KittyIndex,
        kitty_id_2: KittyIndex,
        random_seed: &[u8; 32],
        extrinsic_index: Option<u32>,
    ) -> (bred: Result<KittyIndex, Error>)
        requires
            old(self)@.wf(),
        ensures
            bred == old(self)@.breed_outcome(kitty_id_1, kitty_id_2),
            bred is Err ==> final(self)@ == old(self)@,
            bred matches Ok(kitty_id) ==> old(self)@.minted(
                final(self)@,
                sender,
                kitty_id,
                combine_spec(
                    random_value_spec(random_seed@, sender, extrinsic_index),
                    old(self)@.kitties[kitty_id_1]@,
                    old(self)@.kitties[kitty_id_2]@,
                ),
            ),
    {
        self.do_breed(sender, kitty_id_1, kitty_id_2, random_seed, extrinsic_index)
    }

    /// Hands the entity `kitty_id` from `sender` to `to`: it leaves the
    /// sender's list first and then joins the receiver's list at the end.
    pub fn transfer(&mut self, sender: AccountId, to: AccountId, kitty_id: KittyIndex) -> (done: Result<(), Error>)
        requires
            old(self)@.wf(),
        ensures
            done == old(self)@.transfer_outcome(sender, kitty_id),
            done is Err ==> final(self)@ == old(self)@,
            done is Ok ==> {
                &&& final(self)@ == old(self)@.with_transfer(sender, to, kitty_id)
                &&& final(self)@.wf()
                &&& list_of(final(self)@.owned_kitties, to) == without(
                    list_of(old(self)@.owned_kitties, to),
                    kitty_id,
                ).push(kitty_id)
                &&& forall|other: AccountId|
                    other != to ==> #[trigger] list_of(final(self)@.owned_kitties, other) == without(
                        list_of(old(self)@.owned_kitties, other),
                        kitty_id,
                    )
            },
    {
        if self.kitties(kitty_id).is_none() {
            return Err(Error::InvalidKittyId);
        }
        proof {
            reveal(State::wf);
            assert(has_list(self@.owned_kitties, sender));
            lemma_list_holds_what_has_a_node(self@.owned_kitties, sender, kitty_id);
        }
        match self.owned_kitties.get(&(sender, Some(kitty_id))) {
            Some(_) => {
                self.remove_owned_kitty(&sender, kitty_id);
                self.insert_owned_kitty(&to, kitty_id);
                proof {
                    lemma_with_transfer_keeps_wf(old(self)@, sender, to, kitty_id);
                }
                Ok(())
            },
            None => Err(Error::NotKittyOwner),
        }
    }

    /// The identifiers that `owner` holds, oldest first.
    pub fn list(&self, owner: &AccountId) -> (ids: Vec<KittyIndex>)
        requires
            self@.wf(),
        ensures
            ids@ == list_of(self@.owned_kitties, *owner),
    {
        proof {
            reveal(State::wf);
            assert(has_list(self@.owned_kitties, *owner));
        }
        self.owned_kitties.list(owner)
    }
}

} // verus!
