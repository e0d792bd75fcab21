//! The mathematical model of the ownership index: a map of linked nodes per
//! owner, the two write sequences that grow and shrink it, and the sequence
//! of identifiers that a well-formed node map stands for.

use vstd::prelude::*;

verus! {

/// Identifier of an entity.
pub type KittyIndex = u32;

/// Opaque account identifier of an owner.
pub type AccountId = u64;

/// Key of a node: the owner and a slot. The slot `None` is the owner's
/// sentinel, the slot `Some(id)` the element node of entity `id`.
pub type NodeKey = (AccountId, Option<KittyIndex>);

/// A node of an owner's list. In an element node `None` marks the end of the
/// list in that direction. In the sentinel `next` is the first element and
/// `prev` the last one.
#[derive(Clone, Copy, Debug, PartialEq, Eq, Structural)]
pub struct KittyLinkedItem {
    pub prev: Option<KittyIndex>,
    pub next: Option<KittyIndex>,
}

/// The contents of the node store.
pub type Nodes = Map<NodeKey, KittyLinkedItem>;

/// The node that a lookup treats an absent key as.
pub open spec fn unlinked() -> KittyLinkedItem {
    KittyLinkedItem { prev: None, next: None }
}

/// Lookup with the default: an absent node reads as unlinked.
pub open spec fn read_node(nodes: Nodes, account: AccountId, key: Option<KittyIndex>) -> KittyLinkedItem {
    if nodes.contains_key((account, key)) {
        nodes[(account, key)]
    } else {
        unlinked()
    }
}

/// The node map after appending `kitty_id` to the list of `account`: the
/// sentinel takes the new tail, the old tail (the sentinel itself when the
/// list was empty) takes the new successor, and the new element node points
/// back at the old tail.
pub open spec fn append_nodes(nodes: Nodes, account: AccountId, kitty_id: KittyIndex) -> Nodes {
    let head = read_node(nodes, account, None);
    let with_head = nodes.insert(
        (account, None),
        KittyLinkedItem { prev: Some(kitty_id), next: head.next },
    );
    let prev = read_node(with_head, account, head.prev);
    let with_prev = with_head.insert(
        (account, head.prev),
        KittyLinkedItem { prev: prev.prev, next: Some(kitty_id) },
    );
    with_prev.insert((account, Some(kitty_id)), KittyLinkedItem { prev: head.prev, next: None })
}

/// The node map after removing `kitty_id` from the list of `account`: the
/// element node leaves, its predecessor takes its successor and its successor
/// takes its predecessor. Without an element node nothing changes.
pub open spec fn remove_nodes(nodes: Nodes, account: AccountId, kitty_id: KittyIndex) -> Nodes {
    if nodes.contains_key((account, Some(kitty_id))) {
        let item = nodes[(account, Some(kitty_id))];
        let taken = nodes.remove((account, Some(kitty_id)));
        let prev = read_node(taken, account, item.prev);
        let with_prev = taken.insert(
            (account, item.prev),
            KittyLinkedItem { prev: prev.prev, next: item.next },
        );
        let next = read_node(with_prev, account, item.next);
        with_prev.insert((account, item.next), KittyLinkedItem { prev: item.prev, next: next.next })
    } else {
        nodes
    }
}

/// The element of `l` at position `i`, or `None` beyond either end.
pub open spec fn at(l: Seq<KittyIndex>, i: int) -> Option<KittyIndex> {
    if 0 <= i < l.len() {
        Some(l[i])
    } else {
        None
    }
}

/// The nodes of `account` link exactly the identifiers of `l`, in this order:
/// the sentinel names the first and the last, each element node names its
/// two neighbours, nothing occurs twice and no other element node exists.
pub open spec fn is_list(nodes: Nodes, account: AccountId, l: Seq<KittyIndex>) -> bool {
    &&& l.no_duplicates()
    &&& read_node(nodes, account, None) == KittyLinkedItem { prev: at(l, l.len() - 1), next: at(l, 0) }
    &&& forall|i: int|
        0 <= i < l.len() ==> {
            &&& nodes.contains_key((account, Some(#[trigger] l[i])))
            &&& nodes[(account, Some(l[i]))] == KittyLinkedItem { prev: at(l, i - 1), next: at(l, i + 1) }
        }
    &&& forall|id: KittyIndex| #[trigger] nodes.contains_key((account, Some(id))) ==> l.contains(id)
}

/// `l` without `kitty_id`.
pub open spec fn without(l: Seq<KittyIndex>, kitty_id: KittyIndex) -> Seq<KittyIndex> {
    if l.contains(kitty_id) {
        l.remove(l.index_of(kitty_id))
    } else {
        l
    }
}

/// The two node maps hold the same nodes for `account`.
pub open spec fn same_nodes_of(before: Nodes, after: Nodes, account: AccountId) -> bool {
    forall|key: Option<KittyIndex>|
        (#[trigger] after.contains_key((account, key)) <==> before.contains_key((account, key)))
            && after[(account, key)] == before[(account, key)]
}

/// Appending an identifier that the list does not hold yet makes it the new
/// last element.
pub proof fn lemma_append_pushes(nodes: Nodes, account: AccountId, kitty_id: KittyIndex, l: Seq<KittyIndex>)
    requires
        is_list(nodes, account, l),
        !l.contains(kitty_id),
    ensures
        is_list(append_nodes(nodes, account, kitty_id), account, l.push(kitty_id)),
{
    let after = append_nodes(nodes, account, kitty_id);
    let m = l.push(kitty_id);
    let n = l.len() as int;
    assert(m.len() == n + 1);
    assert(m[n] == kitty_id);
    assert forall|i: int| 0 <= i < n implies m[i] == l[i] && m[i] != kitty_id by {
        assert(l.contains(l[i]));
    }
    assert(m.no_duplicates());
    assert forall|i: int| 0 <= i < m.len() implies {
        &&& after.contains_key((account, Some(#[trigger] m[i])))
        &&& after[(account, Some(m[i]))] == KittyLinkedItem { prev: at(m, i - 1), next: at(m, i + 1) }
    } by {
        if i < n {
            assert(nodes.contains_key((account, Some(l[i]))));
            if i < n - 1 {
                assert(l[i] != l[n - 1]);
            }
        }
    }
    assert forall|id: KittyIndex| #[trigger] after.contains_key((account, Some(id))) implies m.contains(id) by {
        if id == kitty_id {
            assert(m[n] == id);
        } else {
            assert(nodes.contains_key((account, Some(id))));
            let i = choose|i: int| 0 <= i < l.len() && l[i] == id;
            assert(m[i] == id);
        }
    }
}

/// Removing the identifier at position `k` closes the gap between its two
/// neighbours.
pub proof fn lemma_remove_unlinks(nodes: Nodes, account: AccountId, l: Seq<KittyIndex>, k: int)
    requires
        is_list(nodes, account, l),
        0 <= k < l.len(),
    ensures
        is_list(remove_nodes(nodes, account, l[k]), account, l.remove(k)),
{
    let kitty_id = l[k];
    let after = remove_nodes(nodes, account, kitty_id);
    let m = l.remove(k);
    let n = l.len() as int;
    assert(m.len() == n - 1);
    assert forall|i: int| 0 <= i < m.len() implies m[i] == (if i < k { l[i] } else { l[i + 1] })
        && m[i] != kitty_id by {}
    assert(m.no_duplicates());
    assert(nodes.contains_key((account, Some(l[k]))));
    if k > 0 {
        assert(nodes.contains_key((account, Some(l[k - 1]))));
    }
    if k < n - 1 {
        assert(nodes.contains_key((account, Some(l[k + 1]))));
    }
    assert(read_node(after, account, None) == KittyLinkedItem { prev: at(m, m.len() - 1), next: at(m, 0) });
    assert forall|i: int| 0 <= i < m.len() implies {
        &&& after.contains_key((account, Some(#[trigger] m[i])))
        &&& after[(account, Some(m[i]))] == KittyLinkedItem { prev: at(m, i - 1), next: at(m, i + 1) }
    } by {
        let j = if i < k { i } else { i + 1 };
        assert(m[i] == l[j]);
        assert(nodes.contains_key((account, Some(l[j]))));
        if k > 0 && j != k - 1 {
            assert(l[j] != l[k - 1]);
        }
        if k < n - 1 && j != k + 1 {
            assert(l[j] != l[k + 1]);
        }
    }
    assert forall|id: KittyIndex| #[trigger] after.contains_key((account, Some(id))) implies m.contains(id) by {
        assert(id != kitty_id);
        assert(nodes.contains_key((account, Some(id))));
        let j = choose|j: int| 0 <= j < l.len() && l[j] == id;
        if j < k {
            assert(m[j] == id);
        } else {
            assert(m[j - 1] == id);
        }
    }
}

/// Removing an identifier takes it out of the list and keeps the order of
/// the others; removing one that the list does not hold changes nothing.
pub proof fn lemma_remove_drops(nodes: Nodes, account: AccountId, kitty_id: KittyIndex, l: Seq<KittyIndex>)
    requires
        is_list(nodes, account, l),
    ensures
        is_list(remove_nodes(nodes, account, kitty_id), account, without(l, kitty_id)),
        !l.contains(kitty_id) ==> remove_nodes(nodes, account, kitty_id) == nodes,
{
    if l.contains(kitty_id) {
        let k = l.index_of(kitty_id);
        lemma_remove_unlinks(nodes, account, l, k);
    } else {
        assert(!nodes.contains_key((account, Some(kitty_id))));
    }
}

/// Appending for one owner leaves the nodes of every other owner alone.
pub proof fn lemma_append_keeps_others(nodes: Nodes, account: AccountId, kitty_id: KittyIndex, other: AccountId)
    requires
        other != account,
    ensures
        same_nodes_of(nodes, append_nodes(nodes, account, kitty_id), other),
{
}

/// Removing for one owner leaves the nodes of every other owner alone.
pub proof fn lemma_remove_keeps_others(nodes: Nodes, account: AccountId, kitty_id: KittyIndex, other: AccountId)
    requires
        other != account,
    ensures
        same_nodes_of(nodes, remove_nodes(nodes, account, kitty_id), other),
{
}

/// Whether the nodes of an owner form a list depends on that owner's nodes
/// alone.
pub proof fn lemma_same_nodes_same_list(before: Nodes, after: Nodes, account: AccountId, l: Seq<KittyIndex>)
    requires
        same_nodes_of(before, after, account),
    ensures
        is_list(before, account, l) <==> is_list(after, account, l),
{
    assert(after.contains_key((account, None)) <==> before.contains_key((account, None)));
    if is_list(before, account, l) {
        assert forall|i: int| 0 <= i < l.len() implies {
            &&& after.contains_key((account, Some(#[trigger] l[i])))
            &&& after[(account, Some(l[i]))] == KittyLinkedItem { prev: at(l, i - 1), next: at(l, i + 1) }
        } by {
            assert(before.contains_key((account, Some(l[i]))));
        }
    }
    if is_list(after, account, l) {
        assert forall|id: KittyIndex| #[trigger] before.contains_key((account, Some(id))) implies l.contains(id) by {
            assert(after.contains_key((account, Some(id))));
        }
    }
}

/// `l` is what a traversal from the sentinel along `next` visits before it
/// meets `None`.
pub open spec fn is_forward_walk(nodes: Nodes, account: AccountId, l: Seq<KittyIndex>) -> bool {
    &&& read_node(nodes, account, None).next == at(l, 0)
    &&& forall|i: int| 0 <= i < l.len() ==> read_node(nodes, account, Some(#[trigger] l[i])).next == at(l, i + 1)
}

/// `l` is what a traversal from the sentinel along `prev` visits before it
/// meets `None`.
pub open spec fn is_backward_walk(nodes: Nodes, account: AccountId, l: Seq<KittyIndex>) -> bool {
    &&& read_node(nodes, account, None).prev == at(l, 0)
    &&& forall|i: int| 0 <= i < l.len() ==> read_node(nodes, account, Some(#[trigger] l[i])).prev == at(l, i + 1)
}

proof fn lemma_forward_walks_agree_at(nodes: Nodes, account: AccountId, a: Seq<KittyIndex>, b: Seq<KittyIndex>, i: nat)
    requires
        is_forward_walk(nodes, account, a),
        is_forward_walk(nodes, account, b),
    ensures
        at(a, i as int) == at(b, i as int),
    decreases i,
{
    if i > 0 {
        lemma_forward_walks_agree_at(nodes, account, a, b, (i - 1) as nat);
        if i - 1 < a.len() {
            assert(a[i - 1] == b[i - 1]);
        }
    }
}

proof fn lemma_backward_walks_agree_at(nodes: Nodes, account: AccountId, a: Seq<KittyIndex>, b: Seq<KittyIndex>, i: nat)
    requires
        is_backward_walk(nodes, account, a),
        is_backward_walk(nodes, account, b),
    ensures
        at(a, i as int) == at(b, i as int),
    decreases i,
{
    if i > 0 {
        lemma_backward_walks_agree_at(nodes, account, a, b, (i - 1) as nat);
        if i - 1 < a.len() {
            assert(a[i - 1] == b[i - 1]);
        }
    }
}

proof fn lemma_agreeing_sequences_are_equal(a: Seq<KittyIndex>, b: Seq<KittyIndex>)
    requires
        forall|i: int| 0 <= i ==> at(a, i) == at(b, i),
    ensures
        a == b,
{
    assert(at(a, a.len() as int) == at(b, a.len() as int));
    assert(at(a, b.len() as int) == at(b, b.len() as int));
    assert(a.len() == b.len());
    assert forall|i: int| 0 <= i < a.len() implies a[i] == b[i] by {
        assert(at(a, i) == at(b, i));
    }
    assert(a =~= b);
}

/// A node map has at most one forward traversal per owner.
pub proof fn lemma_forward_walk_unique(nodes: Nodes, account: AccountId, a: Seq<KittyIndex>, b: Seq<KittyIndex>)
    requires
        is_forward_walk(nodes, account, a),
        is_forward_walk(nodes, account, b),
    ensures
        a == b,
{
    assert forall|i: int| 0 <= i implies at(a, i) == at(b, i) by {
        lemma_forward_walks_agree_at(nodes, account, a, b, i as nat);
    }
    lemma_agreeing_sequences_are_equal(a, b);
}

/// A node map has at most one backward traversal per owner.
pub proof fn lemma_backward_walk_unique(nodes: Nodes, account: AccountId, a: Seq<KittyIndex>, b: Seq<KittyIndex>)
    requires
        is_backward_walk(nodes, account, a),
        is_backward_walk(nodes, account, b),
    ensures
        a == b,
{
    assert forall|i: int| 0 <= i implies at(a, i) == at(b, i) by {
        lemma_backward_walks_agree_at(nodes, account, a, b, i as nat);
    }
    lemma_agreeing_sequences_are_equal(a, b);
}

/// The list that the nodes form is their forward traversal, and read from
/// the other end it is their backward traversal.
pub proof fn lemma_list_walks(nodes: Nodes, account: AccountId, l: Seq<KittyIndex>)
    requires
        is_list(nodes, account, l),
    ensures
        is_forward_walk(nodes, account, l),
        is_backward_walk(nodes, account, l.reverse()),
{
    let r = l.reverse();
    let n = l.len() as int;
    assert forall|i: int| 0 <= i < r.len() implies read_node(nodes, account, Some(#[trigger] r[i])).prev == at(
        r,
        i + 1,
    ) by {
        assert(r[i] == l[n - 1 - i]);
        assert(nodes.contains_key((account, Some(l[n - 1 - i]))));
        if i + 1 < n {
            assert(r[i + 1] == l[n - 1 - (i + 1)]);
        }
    }
    if n > 0 {
        assert(r[0] == l[n - 1]);
    }
}

/// The nodes of `account` form a list.
pub open spec fn has_list(nodes: Nodes, account: AccountId) -> bool {
    exists|l: Seq<KittyIndex>| is_list(nodes, account, l)
}

/// The identifiers that `account` owns, oldest first; empty where the nodes
/// form no list.
pub open spec fn list_of(nodes: Nodes, account: AccountId) -> Seq<KittyIndex> {
    if has_list(nodes, account) {
        choose|l: Seq<KittyIndex>| is_list(nodes, account, l)
    } else {
        Seq::empty()
    }
}

/// Every owner's nodes form a list.
pub open spec fn well_formed(nodes: Nodes) -> bool {
    forall|account: AccountId| #[trigger] has_list(nodes, account)
}

/// The nodes of an owner form at most one list.
pub proof fn lemma_list_unique(nodes: Nodes, account: AccountId, l: Seq<KittyIndex>)
    requires
        is_list(nodes, account, l),
    ensures
        has_list(nodes, account),
        list_of(nodes, account) == l,
{
    lemma_list_walks(nodes, account, l);
    lemma_list_walks(nodes, account, list_of(nodes, account));
    lemma_forward_walk_unique(nodes, account, l, list_of(nodes, account));
}

/// Where an owner's nodes are the same, so is the owner's list.
pub proof fn lemma_same_nodes_same_list_of(before: Nodes, after: Nodes, account: AccountId)
    requires
        same_nodes_of(before, after, account),
    ensures
        has_list(after, account) == has_list(before, account),
        list_of(after, account) == list_of(before, account),
{
    if has_list(before, account) {
        lemma_same_nodes_same_list(before, after, account, list_of(before, account));
        lemma_list_unique(after, account, list_of(before, account));
    }
    if has_list(after, account) {
        lemma_same_nodes_same_list(before, after, account, list_of(after, account));
        lemma_list_unique(before, account, list_of(after, account));
    }
}

/// A store without nodes holds the empty list for every owner.
pub proof fn lemma_empty_is_well_formed()
    ensures
        well_formed(Nodes::empty()),
        forall|account: AccountId| #[trigger] list_of(Nodes::empty(), account) == Seq::<KittyIndex>::empty(),
{
    assert forall|account: AccountId| #[trigger] has_list(Nodes::empty(), account) && list_of(Nodes::empty(), account) == Seq::<KittyIndex>::empty() by {
        assert(is_list(Nodes::empty(), account, Seq::empty()));
        lemma_list_unique(Nodes::empty(), account, Seq::empty());
    }
}

/// Appending an identifier that its owner does not hold yet puts it at the
/// end of that owner's list and leaves every other owner's list as it was.
pub proof fn lemma_append_list_of(nodes: Nodes, account: AccountId, kitty_id: KittyIndex)
    requires
        has_list(nodes, account),
        !list_of(nodes, account).contains(kitty_id),
    ensures
        has_list(append_nodes(nodes, account, kitty_id), account),
        list_of(append_nodes(nodes, account, kitty_id), account) == list_of(nodes, account).push(kitty_id),
        forall|other: AccountId|
            other != account ==> {
                &&& #[trigger] has_list(append_nodes(nodes, account, kitty_id), other) == has_list(nodes, other)
                &&& list_of(append_nodes(nodes, account, kitty_id), other) == list_of(nodes, other)
            },
{
    let after = append_nodes(nodes, account, kitty_id);
    lemma_append_pushes(nodes, account, kitty_id, list_of(nodes, account));
    lemma_list_unique(after, account, list_of(nodes, account).push(kitty_id));
    assert forall|other: AccountId| other != account implies {
        &&& #[trigger] has_list(after, other) == has_list(nodes, other)
        &&& list_of(after, other) == list_of(nodes, other)
    } by {
        lemma_append_keeps_others(nodes, account, kitty_id, other);
        lemma_same_nodes_same_list_of(nodes, after, other);
    }
}

/// Removing an identifier takes it out of its owner's list, keeps the order
/// of the rest and leaves every other owner's list as it was.
pub proof fn lemma_remove_list_of(nodes: Nodes, account: AccountId, kitty_id: KittyIndex)
    requires
        has_list(nodes, account),
    ensures
        has_list(remove_nodes(nodes, account, kitty_id), account),
        list_of(remove_nodes(nodes, account, kitty_id), account) == without(list_of(nodes, account), kitty_id),
        forall|other: AccountId|
            other != account ==> {
                &&& #[trigger] has_list(remove_nodes(nodes, account, kitty_id), other) == has_list(nodes, other)
                &&& list_of(remove_nodes(nodes, account, kitty_id), other) == list_of(nodes, other)
            },
{
    let after = remove_nodes(nodes, account, kitty_id);
    lemma_remove_drops(nodes, account, kitty_id, list_of(nodes, account));
    lemma_list_unique(after, account, without(list_of(nodes, account), kitty_id));
    assert forall|other: AccountId| other != account implies {
        &&& #[trigger] has_list(after, other) == has_list(nodes, other)
        &&& list_of(after, other) == list_of(nodes, other)
    } by {
        lemma_remove_keeps_others(nodes, account, kitty_id, other);
        lemma_same_nodes_same_list_of(nodes, after, other);
    }
}

/// An owner holds an identifier exactly where its element node exists.
pub proof fn lemma_list_holds_what_has_a_node(nodes: Nodes, account: AccountId, kitty_id: KittyIndex)
    requires
        has_list(nodes, account),
    ensures
        list_of(nodes, account).contains(kitty_id) <==> nodes.contains_key((account, Some(kitty_id))),
{
    let l = list_of(nodes, account);
    if l.contains(kitty_id) {
        let i = l.index_of(kitty_id);
        assert(nodes.contains_key((account, Some(l[i]))));
    }
}

/// Without its last element, a list that was just extended is the list
/// before.
pub proof fn lemma_without_pushed(l: Seq<KittyIndex>, kitty_id: KittyIndex)
    requires
        !l.contains(kitty_id),
    ensures
        without(l.push(kitty_id), kitty_id) == l,
{
    let m = l.push(kitty_id);
    assert(m[l.len() as int] == kitty_id);
    let k = m.index_of(kitty_id);
    if k < l.len() {
        assert(l[k] == kitty_id);
    }
    assert(m.remove(k) =~= l);
}

/// Taking an identifier out of a list without repetitions leaves the others,
/// and only them.
pub proof fn lemma_without_holds(l: Seq<KittyIndex>, kitty_id: KittyIndex, other: KittyIndex)
    requires
        l.no_duplicates(),
    ensures
        without(l, kitty_id).contains(other) <==> l.contains(other) && other != kitty_id,
{
    let m = without(l, kitty_id);
    if l.contains(kitty_id) {
        let k = l.index_of(kitty_id);
        if m.contains(other) {
            let i = m.index_of(other);
            let j = if i < k { i } else { i + 1 };
            assert(l[j] == other);
        }
        if l.contains(other) && other != kitty_id {
            let j = l.index_of(other);
            let i = if j < k { j } else { j - 1 };
            assert(m[i] == other);
        }
    }
}

/// `account` holds `kitty_id` in its list.
pub open spec fn owns(nodes: Nodes, account: AccountId, kitty_id: KittyIndex) -> bool {
    list_of(nodes, account).contains(kitty_id)
}

/// No identifier stands in the lists of two owners.
pub open spec fn exclusive(nodes: Nodes) -> bool {
    forall|first: AccountId, second: AccountId, kitty_id: KittyIndex|
        #[trigger] owns(nodes, first, kitty_id) && #[trigger] owns(nodes, second, kitty_id) ==> first == second
}

/// Linking an identifier that nobody holds: the receiver holds it from then
/// on, at the end of its list, and nothing else changes hands.
pub proof fn lemma_append_gives(nodes: Nodes, account: AccountId, kitty_id: KittyIndex)
    requires
        well_formed(nodes),
        forall|holder: AccountId| !owns(nodes, holder, kitty_id),
    ensures
        well_formed(append_nodes(nodes, account, kitty_id)),
        list_of(append_nodes(nodes, account, kitty_id), account) == list_of(nodes, account).push(kitty_id),
        forall|other: AccountId|
            other != account ==> #[trigger] list_of(append_nodes(nodes, account, kitty_id), other) == list_of(
                nodes,
                other,
            ),
        forall|holder: AccountId, id: KittyIndex| #[trigger]
            owns(append_nodes(nodes, account, kitty_id), holder, id) <==> owns(nodes, holder, id) || (holder
                == account && id == kitty_id),
{
    let after = append_nodes(nodes, account, kitty_id);
    assert(has_list(nodes, account));
    assert(!owns(nodes, account, kitty_id));
    lemma_append_list_of(nodes, account, kitty_id);
    assert forall|other: AccountId| #[trigger] has_list(after, other) by {
        assert(has_list(nodes, other));
    }
    assert forall|other: AccountId| other != account implies #[trigger] list_of(after, other) == list_of(
        nodes,
        other,
    ) by {
        assert(has_list(after, other));
    }
    assert forall|holder: AccountId, id: KittyIndex| #[trigger]
        owns(after, holder, id) <==> owns(nodes, holder, id) || (holder == account && id == kitty_id) by {
        if holder == account {
            let l = list_of(nodes, account);
            let m = l.push(kitty_id);
            assert(m[l.len() as int] == kitty_id);
            if l.contains(id) {
                assert(m[l.index_of(id)] == id);
            }
            if m.contains(id) && id != kitty_id {
                assert(l[m.index_of(id)] == id);
            }
        } else {
            assert(list_of(after, holder) == list_of(nodes, holder));
        }
    }
}

/// Unlinking an identifier from its only holder: nobody holds it afterwards,
/// and every list keeps its other identifiers in their order.
pub proof fn lemma_remove_takes(nodes: Nodes, account: AccountId, kitty_id: KittyIndex)
    requires
        well_formed(nodes),
        exclusive(nodes),
        owns(nodes, account, kitty_id),
    ensures
        well_formed(remove_nodes(nodes, account, kitty_id)),
        forall|holder: AccountId| #[trigger]
            list_of(remove_nodes(nodes, account, kitty_id), holder) == without(list_of(nodes, holder), kitty_id),
        forall|holder: AccountId, id: KittyIndex| #[trigger]
            owns(remove_nodes(nodes, account, kitty_id), holder, id) <==> owns(nodes, holder, id) && id
                != kitty_id,
{
    let after = remove_nodes(nodes, account, kitty_id);
    assert(has_list(nodes, account));
    lemma_remove_list_of(nodes, account, kitty_id);
    assert forall|holder: AccountId| #[trigger] has_list(after, holder) by {
        assert(has_list(nodes, holder));
    }
    assert forall|holder: AccountId| #[trigger] list_of(after, holder) == without(list_of(nodes, holder), kitty_id) by {
        assert(has_list(after, holder));
        if holder != account {
            assert(!owns(nodes, holder, kitty_id));
        }
    }
    assert forall|holder: AccountId, id: KittyIndex| #[trigger]
        owns(after, holder, id) <==> owns(nodes, holder, id) && id != kitty_id by {
        assert(has_list(nodes, holder));
        assert(list_of(after, holder) == without(list_of(nodes, holder), kitty_id));
        lemma_without_holds(list_of(nodes, holder), kitty_id, id);
    }
}

/// One change to an owner's list.
pub enum ListOp {
    Append(KittyIndex),
    Remove(KittyIndex),
}

/// The node map after one change to the list of `account`.
pub open spec fn apply_op(nodes: Nodes, account: AccountId, op: ListOp) -> Nodes {
    match op {
        ListOp::Append(kitty_id) => append_nodes(nodes, account, kitty_id),
        ListOp::Remove(kitty_id) => remove_nodes(nodes, account, kitty_id),
    }
}

/// The node map after the changes `ops` to the list of `account`, first one
/// first.
pub open spec fn apply_ops(nodes: Nodes, account: AccountId, ops: Seq<ListOp>) -> Nodes
    decreases ops.len(),
{
    if ops.len() == 0 {
        nodes
    } else {
        apply_op(apply_ops(nodes, account, ops.drop_last()), account, ops.last())
    }
}

/// What one change does to a sequence of identifiers.
pub open spec fn track_op(l: Seq<KittyIndex>, op: ListOp) -> Seq<KittyIndex> {
    match op {
        ListOp::Append(kitty_id) => l.push(kitty_id),
        ListOp::Remove(kitty_id) => without(l, kitty_id),
    }
}

/// What the changes `ops` do to a sequence of identifiers, first one first.
pub open spec fn track_ops(l: Seq<KittyIndex>, ops: Seq<ListOp>) -> Seq<KittyIndex>
    decreases ops.len(),
{
    if ops.len() == 0 {
        l
    } else {
        track_op(track_ops(l, ops.drop_last()), ops.last())
    }
}

/// No change in `ops` appends an identifier that the list holds at that
/// moment.
pub open spec fn appends_only_absent(l: Seq<KittyIndex>, ops: Seq<ListOp>) -> bool
    decreases ops.len(),
{
    if ops.len() == 0 {
        true
    } else {
        &&& appends_only_absent(l, ops.drop_last())
        &&& match ops.last() {
            ListOp::Append(kitty_id) => !track_ops(l, ops.drop_last()).contains(kitty_id),
            ListOp::Remove(_) => true,
        }
    }
}

/// The linked nodes follow the sequence: after any run of appends and removes
/// in which no identifier is appended while the list holds it, the nodes form
/// the list that the same run makes of the sequence.
pub proof fn lemma_ops_keep_list(nodes: Nodes, account: AccountId, l: Seq<KittyIndex>, ops: Seq<ListOp>)
    requires
        is_list(nodes, account, l),
        appends_only_absent(l, ops),
    ensures
        is_list(apply_ops(nodes, account, ops), account, track_ops(l, ops)),
    decreases ops.len(),
{
    if ops.len() > 0 {
        let before = apply_ops(nodes, account, ops.drop_last());
        let model = track_ops(l, ops.drop_last());
        lemma_ops_keep_list(nodes, account, l, ops.drop_last());
        match ops.last() {
            ListOp::Append(kitty_id) => lemma_append_pushes(before, account, kitty_id, model),
            ListOp::Remove(kitty_id) => lemma_remove_drops(before, account, kitty_id, model),
        }
    }
}

/// Where an owner's nodes form a list, the traversal from the front gives
/// that list and is the traversal from the back reversed.
pub proof fn lemma_walks_mirror(nodes: Nodes, account: AccountId, forward: Seq<KittyIndex>, backward: Seq<KittyIndex>)
    requires
        has_list(nodes, account),
        is_forward_walk(nodes, account, forward),
        is_backward_walk(nodes, account, backward),
    ensures
        forward == list_of(nodes, account),
        backward == list_of(nodes, account).reverse(),
        forward == backward.reverse(),
{
    let l = list_of(nodes, account);
    lemma_list_walks(nodes, account, l);
    lemma_forward_walk_unique(nodes, account, forward, l);
    lemma_backward_walk_unique(nodes, account, backward, l.reverse());
    assert(l.reverse().reverse() =~= l);
}

/// After any run of appends and removes on a new owner's list, in which no
/// identifier is appended while the list holds it, the traversal from the
/// front is the traversal from the back reversed.
pub proof fn lemma_forward_is_backward_reversed(
    account: AccountId,
    ops: Seq<ListOp>,
    forward: Seq<KittyIndex>,
    backward: Seq<KittyIndex>,
)
    requires
        appends_only_absent(Seq::empty(), ops),
        is_forward_walk(apply_ops(Nodes::empty(), account, ops), account, forward),
        is_backward_walk(apply_ops(Nodes::empty(), account, ops), account, backward),
    ensures
        forward == backward.reverse(),
        forward == track_ops(Seq::empty(), ops),
{
    let nodes = apply_ops(Nodes::empty(), account, ops);
    assert(is_list(Nodes::empty(), account, Seq::empty()));
    lemma_ops_keep_list(Nodes::empty(), account, Seq::empty(), ops);
    lemma_list_unique(nodes, account, track_ops(Seq::empty(), ops));
    lemma_walks_mirror(nodes, account, forward, backward);
}

/// Appending an identifier and removing it at once gives the sentinel its
/// value from before the append, whatever the list held.
pub proof fn lemma_append_then_remove_restores_sentinel(
    nodes: Nodes,
    account: AccountId,
    kitty_id: KittyIndex,
    l: Seq<KittyIndex>,
)
    requires
        is_list(nodes, account, l),
    ensures
        read_node(remove_nodes(append_nodes(nodes, account, kitty_id), account, kitty_id), account, None)
            == read_node(nodes, account, None),
{
    let n = l.len() as int;
    if n > 0 {
        assert(nodes.contains_key((account, Some(l[n - 1]))));
    }
}

/// Appending an identifier that the list does not hold and removing it at
/// once gives back the list, and every node of the owner reads as before.
pub proof fn lemma_append_then_remove_restores(nodes: Nodes, account: AccountId, kitty_id: KittyIndex, l: Seq<KittyIndex>)
    requires
        is_list(nodes, account, l),
        !l.contains(kitty_id),
    ensures
        is_list(remove_nodes(append_nodes(nodes, account, kitty_id), account, kitty_id), account, l),
        forall|key: Option<KittyIndex>|
            read_node(remove_nodes(append_nodes(nodes, account, kitty_id), account, kitty_id), account, key)
                == #[trigger] read_node(nodes, account, key),
{
    let appended = append_nodes(nodes, account, kitty_id);
    let after = remove_nodes(appended, account, kitty_id);
    lemma_append_pushes(nodes, account, kitty_id, l);
    lemma_remove_drops(appended, account, kitty_id, l.push(kitty_id));
    lemma_without_pushed(l, kitty_id);
    assert forall|key: Option<KittyIndex>| read_node(after, account, key) == #[trigger] read_node(nodes, account, key) by {
        match key {
            None => {},
            Some(id) => {
                if after.contains_key((account, Some(id))) {
                    let i = l.index_of(id);
                    assert(l[i] == id);
                } else if nodes.contains_key((account, Some(id))) {
                    let i = l.index_of(id);
                    assert(l[i] == id);
                    assert(after.contains_key((account, Some(l[i]))));
                }
            },
        }
    }
}

/// Three appends to an empty list give the three identifiers in that order,
/// and removing the middle one leaves the outer two next to each other and
/// no node for the one removed.
pub proof fn lemma_three_appends_one_remove(
    nodes: Nodes,
    account: AccountId,
    a: KittyIndex,
    b: KittyIndex,
    c: KittyIndex,
)
    requires
        is_list(nodes, account, Seq::empty()),
        a != b,
        a != c,
        b != c,
    ensures
        is_list(
            append_nodes(append_nodes(append_nodes(nodes, account, a), account, b), account, c),
            account,
            seq![a, b, c],
        ),
        is_list(
            remove_nodes(
                append_nodes(append_nodes(append_nodes(nodes, account, a), account, b), account, c),
                account,
                b,
            ),
            account,
            seq![a, c],
        ),
        !remove_nodes(
            append_nodes(append_nodes(append_nodes(nodes, account, a), account, b), account, c),
            account,
            b,
        ).contains_key((account, Some(b))),
{
    let one = append_nodes(nodes, account, a);
    let two = append_nodes(one, account, b);
    let three = append_nodes(two, account, c);
    lemma_append_pushes(nodes, account, a, Seq::empty());
    assert(Seq::<KittyIndex>::empty().push(a) =~= seq![a]);
    lemma_append_pushes(one, account, b, seq![a]);
    assert(seq![a].push(b) =~= seq![a, b]);
    lemma_append_pushes(two, account, c, seq![a, b]);
    assert(seq![a, b].push(c) =~= seq![a, b, c]);
    assert(seq![a, b, c][1] == b);
    lemma_remove_unlinks(three, account, seq![a, b, c], 1);
    assert(seq![a, b, c].remove(1) =~= seq![a, c]);
}

/// The first append to an empty list makes the new identifier both the first
/// and the last element that the sentinel names.
pub proof fn lemma_first_append_sets_both_ends(nodes: Nodes, account: AccountId, kitty_id: KittyIndex)
    requires
        is_list(nodes, account, Seq::empty()),
    ensures
        append_nodes(nodes, account, kitty_id)[(account, None)] == (KittyLinkedItem {
            prev: Some(kitty_id),
            next: Some(kitty_id),
        }),
        append_nodes(nodes, account, kitty_id)[(account, Some(kitty_id))] == unlinked(),
{
}

} // verus!
