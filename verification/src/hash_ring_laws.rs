//! Properties of `HashRing` that span several operations.

use vstd::prelude::*;
use crate::hash_ring::{
    has_node, index_named, names_distinct, node_named, with_node, with_nodes, without_node,
    HashRingView, NodeView,
};
use crate::hashing::key_hash;
use crate::ring::{
    ids, lemma_lower_bound, lookup_spec, owner_index, replicas_spec, slot_id, Slot,
};
use crate::ring_laws::{
    adding_moves_keys_only_to_new_node, count_named, has_slot, lemma_count_zero,
    lemma_lookup_same_pairs, lemma_pair_at_most_one, lemma_pair_zero, lemma_same_pairs_same_order,
    lemma_walk_cap_irrelevant, lemma_walk_same_pairs, pair_count, positions_distinct,
    removing_an_added_node_restores_positions, removing_keeps_other_owners, replicas_are_distinct,
    replicas_count, replicas_start_with_owner,
};

verus! {

/// The names of the registered nodes that own at least one position.
pub open spec fn positioned_names<I>(v: HashRingView<I>) -> Set<Seq<char>> {
    Set::new(
        |n: Seq<char>|
            exists|k: int|
                0 <= k < v.nodes.len() && v.nodes[k].name == n && v.ring.virtual_nodes
                    * v.nodes[k].weight > 0,
    )
}

/// A key's owner is always a registered node, and a key has an owner
/// exactly when some registered node owns a position (a positive weight
/// with a positive number of virtual nodes).
pub proof fn owner_is_registered<I>(v: HashRingView<I>, key: Seq<char>)
    requires
        v.wf(),
    ensures
        lookup_spec(v.ring.slots, key) matches Some(n) ==> has_node(v.nodes, n),
        lookup_spec(v.ring.slots, key) is None <==> forall|k: int|
            0 <= k < v.nodes.len() ==> v.ring.virtual_nodes * (#[trigger] v.nodes[k]).weight == 0,
{
    let s = v.ring.slots;
    if s.len() > 0 {
        lemma_lower_bound(s, key_hash(key));
        let i = owner_index(s, key_hash(key));
        assert(has_node(v.nodes, s[i].name));
        assert(has_node(v.nodes, s[0].name));
        let k = choose|k: int| 0 <= k < v.nodes.len() && v.nodes[k].name == s[0].name;
        lemma_count_zero(s, s[0].name);
        assert(count_named(s, v.nodes[k].name) > 0);
    } else {
        assert forall|k: int| 0 <= k < v.nodes.len() implies v.ring.virtual_nodes
            * (#[trigger] v.nodes[k]).weight == 0 by {
            lemma_count_zero(s, v.nodes[k].name);
        }
    }
}

/// Consistency of adding a node: every key keeps its owner or moves to the
/// new node.
pub proof fn adding_a_node_moves_keys_only_to_it<I>(v: HashRingView<I>, node: NodeView<I>, key: Seq<char>)
    ensures
        lookup_spec(with_node(v, node).ring.slots, key) == lookup_spec(v.ring.slots, key)
            || lookup_spec(with_node(v, node).ring.slots, key) == Some(node.name),
{
    adding_moves_keys_only_to_new_node(v.ring, node.name, node.weight, key);
}

/// Consistency of removing a node: every key owned by another node keeps
/// its owner.
pub proof fn removing_a_node_keeps_other_keys<I>(v: HashRingView<I>, name: Seq<char>, key: Seq<char>)
    requires
        lookup_spec(v.ring.slots, key) is Some,
        lookup_spec(v.ring.slots, key)->0 != name,
    ensures
        lookup_spec(without_node(v, name).ring.slots, key) == lookup_spec(v.ring.slots, key),
{
    removing_keeps_other_owners(v.ring, name, key);
}

/// A node added under a new name is registered with exactly the given
/// metadata; adding a taken name changes nothing.
pub proof fn added_node_is_registered<I>(v: HashRingView<I>, node: NodeView<I>)
    requires
        names_distinct(v.nodes),
    ensures
        has_node(with_node(v, node).nodes, node.name),
        !has_node(v.nodes, node.name) ==> node_named(with_node(v, node).nodes, node.name) == node,
        has_node(v.nodes, node.name) ==> with_node(v, node) == v,
{
    let w = with_node(v, node);
    if !has_node(v.nodes, node.name) {
        let last = v.nodes.len() as int;
        assert(w.nodes[last].name == node.name);
        let c = index_named(w.nodes, node.name);
        if c < last {
            assert(w.nodes[c] == v.nodes[c]);
        }
    }
}

/// A removed node is no longer registered, and the other nodes are kept
/// with their metadata.
pub proof fn removed_node_is_gone<I>(v: HashRingView<I>, name: Seq<char>)
    requires
        names_distinct(v.nodes),
    ensures
        !has_node(without_node(v, name).nodes, name),
        forall|n: Seq<char>|
            n != name ==> (has_node(without_node(v, name).nodes, n) <==> has_node(v.nodes, n)),
{
    if has_node(v.nodes, name) {
        let idx = index_named(v.nodes, name);
        let w = without_node(v, name).nodes;
        assert(w == v.nodes.remove(idx));
        if has_node(w, name) {
            let j = choose|j: int| 0 <= j < w.len() && w[j].name == name;
            if j < idx {
                assert(w[j] == v.nodes[j]);
            } else {
                assert(w[j] == v.nodes[j + 1]);
            }
        }
        assert forall|n: Seq<char>| n != name implies (has_node(w, n) <==> has_node(v.nodes, n)) by {
            if has_node(w, n) {
                let j = choose|j: int| 0 <= j < w.len() && w[j].name == n;
                if j < idx {
                    assert(w[j] == v.nodes[j]);
                } else {
                    assert(w[j] == v.nodes[j + 1]);
                }
            }
            if has_node(v.nodes, n) {
                let j = choose|j: int| 0 <= j < v.nodes.len() && v.nodes[j].name == n;
                assert(j != idx);
                if j < idx {
                    assert(w[j] == v.nodes[j]);
                } else {
                    assert(w[j - 1] == v.nodes[j]);
                }
            }
        }
    }
}

/// Replicas are distinct registered nodes, at most `count` of them, the
/// first being the key's owner; there are `min(count, number of nodes that
/// own a position)` of them.
pub proof fn replicas_are_distinct_registered_nodes<I>(v: HashRingView<I>, key: Seq<char>, count: nat)
    requires
        v.wf(),
    ensures
        replicas_spec(v.ring, key, count).no_duplicates(),
        forall|m: int|
            0 <= m < replicas_spec(v.ring, key, count).len() ==> has_node(
                v.nodes,
                #[trigger] replicas_spec(v.ring, key, count)[m],
            ),
        replicas_spec(v.ring, key, count).len() == (if count < positioned_names(v).len() {
            count
        } else {
            positioned_names(v).len()
        }),
        v.ring.slots.len() > 0 && count > 0 ==> Some(replicas_spec(v.ring, key, count)[0])
            == lookup_spec(v.ring.slots, key),
{
    let s = v.ring.slots;
    let r = replicas_spec(v.ring, key, count);
    replicas_are_distinct(v.ring, key, count);
    replicas_count(v.ring, key, count);
    if s.len() > 0 && count > 0 {
        replicas_start_with_owner(v.ring, key, count);
    }
    assert forall|m: int| 0 <= m < r.len() implies has_node(v.nodes, #[trigger] r[m]) by {
        let j = choose|j: int| 0 <= j < s.len() && s[j].name == r[m];
        assert(has_node(v.nodes, s[j].name));
    }
    positioned_names_count(v);
}

/// The number of distinct nodes on the ring is the number of registered
/// nodes that own a position.
proof fn positioned_names_count<I>(v: HashRingView<I>)
    requires
        v.wf(),
    ensures
        ids(v.ring.slots).len() == positioned_names(v).len(),
{
    let s = v.ring.slots;
    let f = |id: (Seq<char>, u64)| id.0;
    let idset = ids(s);
    broadcast use vstd::seq_lib::seq_to_set_is_finite;
    assert(idset.finite());
    assert(vstd::relations::injective_on(f, idset)) by {
        assert forall|x1: (Seq<char>, u64), x2: (Seq<char>, u64)|
            idset.contains(x1) && idset.contains(x2) && #[trigger] f(x1) == #[trigger] f(x2) implies x1
            == x2 by {
            let ms = s.map_values(|y: Slot| slot_id(y));
            let i = choose|i: int| 0 <= i < ms.len() && ms[i] == x1;
            let j = choose|j: int| 0 <= j < ms.len() && ms[j] == x2;
            assert(s[i].name == s[j].name);
        }
    }
    assert(idset.map(f) =~= positioned_names(v)) by {
        assert forall|n: Seq<char>| idset.map(f).contains(n) implies positioned_names(v).contains(n) by {
            let id = choose|id: (Seq<char>, u64)| idset.contains(id) && f(id) == n;
            let ms = s.map_values(|y: Slot| slot_id(y));
            let i = choose|i: int| 0 <= i < ms.len() && ms[i] == id;
            assert(has_node(v.nodes, s[i].name));
            let k = choose|k: int| 0 <= k < v.nodes.len() && v.nodes[k].name == s[i].name;
            lemma_count_zero(s, n);
            assert(count_named(s, v.nodes[k].name) > 0);
        }
        assert forall|n: Seq<char>| positioned_names(v).contains(n) implies idset.map(f).contains(n) by {
            let k = choose|k: int|
                0 <= k < v.nodes.len() && v.nodes[k].name == n && v.ring.virtual_nodes
                    * v.nodes[k].weight > 0;
            assert(count_named(s, v.nodes[k].name) > 0);
            lemma_count_zero(s, n);
            let i = choose|i: int| 0 <= i < s.len() && s[i].name == n;
            let ms = s.map_values(|y: Slot| slot_id(y));
            assert(ms[i] == slot_id(s[i]));
            assert(idset.contains(slot_id(s[i])));
            assert(f(slot_id(s[i])) == n);
        }
    }
    vstd::set_lib::lemma_map_size(idset, positioned_names(v), f);
}

/// Restoring a ring from its nodes, in order, gives back the same nodes
/// with the same metadata.
pub proof fn restoring_nodes_gives_same_nodes<I>(v: HashRingView<I>, empty: HashRingView<I>)
    requires
        names_distinct(v.nodes),
        empty.nodes.len() == 0,
    ensures
        with_nodes(empty, v.nodes).nodes == v.nodes,
{
    lemma_with_nodes_distinct(empty, v.nodes);
}

proof fn lemma_with_nodes_distinct<I>(empty: HashRingView<I>, ns: Seq<NodeView<I>>)
    requires
        names_distinct(ns),
        empty.nodes.len() == 0,
    ensures
        with_nodes(empty, ns).nodes == ns,
    decreases ns.len(),
{
    if ns.len() == 0 {
        assert(empty.nodes =~= ns);
    } else {
        let init = ns.drop_last();
        assert(names_distinct(init)) by {
            assert forall|i: int, j: int|
                0 <= i < init.len() && 0 <= j < init.len() && i != j implies init[i].name
                != init[j].name by {
                assert(init[i] == ns[i]);
                assert(init[j] == ns[j]);
            }
        }
        lemma_with_nodes_distinct(empty, init);
        let prev = with_nodes(empty, init);
        if has_node(prev.nodes, ns.last().name) {
            let k = choose|k: int| 0 <= k < prev.nodes.len() && prev.nodes[k].name == ns.last().name;
            assert(ns[k].name == ns[ns.len() - 1].name);
        }
        assert(prev.nodes.push(ns.last()) =~= ns);
    }
}

/// Adding a new node and then removing it gives back the same nodes and
/// the same ring positions, so every key keeps its owner; when the node had
/// positions, every replica list is the same as well.
pub proof fn removing_an_added_node_restores_the_ring<I>(
    v: HashRingView<I>,
    node: NodeView<I>,
    key: Seq<char>,
    count: nat,
)
    requires
        v.wf(),
        !has_node(v.nodes, node.name),
    ensures
        without_node(with_node(v, node), node.name).nodes == v.nodes,
        without_node(with_node(v, node), node.name).ring.slots == v.ring.slots,
        without_node(with_node(v, node), node.name).ring.virtual_nodes == v.ring.virtual_nodes,
        lookup_spec(without_node(with_node(v, node), node.name).ring.slots, key) == lookup_spec(
            v.ring.slots,
            key,
        ),
        v.ring.virtual_nodes * node.weight > 0 ==> replicas_spec(
            without_node(with_node(v, node), node.name).ring,
            key,
            count,
        ) == replicas_spec(v.ring, key, count),
{
    let w = with_node(v, node);
    let last = v.nodes.len() as int;
    assert(w.nodes[last].name == node.name);
    let c = index_named(w.nodes, node.name);
    if c < last {
        assert(w.nodes[c] == v.nodes[c]);
        assert(has_node(v.nodes, node.name));
    }
    assert(w.nodes.remove(last) =~= v.nodes);
    assert forall|j: int| 0 <= j < v.ring.slots.len() implies v.ring.slots[j].name != node.name by {
        assert(has_node(v.nodes, v.ring.slots[j].name));
    }
    removing_an_added_node_restores_positions(v.ring, node.name, node.weight, key, count);
}

/// One call that changes a `HashRing`.
pub enum NodeStep<I> {
    Add(NodeView<I>),
    Remove(Seq<char>),
}

/// The ring after the calls `steps`, in order.
pub open spec fn after_node_steps<I>(v: HashRingView<I>, steps: Seq<NodeStep<I>>) -> HashRingView<I>
    decreases steps.len(),
{
    if steps.len() == 0 {
        v
    } else {
        let prev = after_node_steps(v, steps.drop_last());
        match steps.last() {
            NodeStep::Add(node) => with_node(prev, node),
            NodeStep::Remove(name) => without_node(prev, name),
        }
    }
}

/// Whether `name` is registered after `steps`, starting from `initially`:
/// an add of `name` came after the last removal of `name` (or the name was
/// registered at the start and never removed).
pub open spec fn registered_after<I>(initially: bool, steps: Seq<NodeStep<I>>, name: Seq<char>) -> bool
    decreases steps.len(),
{
    if steps.len() == 0 {
        initially
    } else {
        match steps.last() {
            NodeStep::Add(node) => node.name == name || registered_after(
                initially,
                steps.drop_last(),
                name,
            ),
            NodeStep::Remove(gone) => gone != name && registered_after(
                initially,
                steps.drop_last(),
                name,
            ),
        }
    }
}

/// One add: names stay distinct, and exactly the added name joins.
proof fn lemma_with_node_names<I>(v: HashRingView<I>, node: NodeView<I>)
    requires
        names_distinct(v.nodes),
    ensures
        names_distinct(with_node(v, node).nodes),
        forall|n: Seq<char>|
            has_node(with_node(v, node).nodes, n) <==> (has_node(v.nodes, n) || n == node.name),
{
    if !has_node(v.nodes, node.name) {
        let w = with_node(v, node).nodes;
        let last = v.nodes.len() as int;
        assert(w[last].name == node.name);
        assert forall|a: int, b: int|
            0 <= a < w.len() && 0 <= b < w.len() && a != b implies w[a].name != w[b].name by {
            if a < last {
                assert(w[a] == v.nodes[a]);
            }
            if b < last {
                assert(w[b] == v.nodes[b]);
            }
        }
        assert forall|n: Seq<char>| has_node(w, n) <==> (has_node(v.nodes, n) || n == node.name) by {
            if has_node(w, n) && n != node.name {
                let j = choose|j: int| 0 <= j < w.len() && w[j].name == n;
                assert(w[j] == v.nodes[j]);
            }
            if has_node(v.nodes, n) {
                let j = choose|j: int| 0 <= j < v.nodes.len() && v.nodes[j].name == n;
                assert(w[j] == v.nodes[j]);
            }
        }
    }
}

/// One removal: names stay distinct, and exactly the removed name leaves.
proof fn lemma_without_node_names<I>(v: HashRingView<I>, name: Seq<char>)
    requires
        names_distinct(v.nodes),
    ensures
        names_distinct(without_node(v, name).nodes),
        forall|n: Seq<char>|
            has_node(without_node(v, name).nodes, n) <==> (has_node(v.nodes, n) && n != name),
{
    removed_node_is_gone(v, name);
    if has_node(v.nodes, name) {
        let idx = index_named(v.nodes, name);
        let w = without_node(v, name).nodes;
        assert forall|a: int, b: int|
            0 <= a < w.len() && 0 <= b < w.len() && a != b implies w[a].name != w[b].name by {
            let oa = if a < idx { a } else { a + 1 };
            let ob = if b < idx { b } else { b + 1 };
            assert(w[a] == v.nodes[oa]);
            assert(w[b] == v.nodes[ob]);
        }
    }
}

/// Membership follows the history of calls: a name is registered exactly
/// when it was added after its last removal. Names stay distinct and the
/// number of virtual positions per unit of weight never changes.
pub proof fn membership_follows_history<I>(v: HashRingView<I>, steps: Seq<NodeStep<I>>)
    requires
        names_distinct(v.nodes),
    ensures
        names_distinct(after_node_steps(v, steps).nodes),
        forall|n: Seq<char>|
            has_node(after_node_steps(v, steps).nodes, n) <==> registered_after(
                has_node(v.nodes, n),
                steps,
                n,
            ),
        after_node_steps(v, steps).ring.virtual_nodes == v.ring.virtual_nodes,
    decreases steps.len(),
{
    if steps.len() > 0 {
        membership_follows_history(v, steps.drop_last());
        let prev = after_node_steps(v, steps.drop_last());
        match steps.last() {
            NodeStep::Add(node) => {
                lemma_with_node_names(prev, node);
            },
            NodeStep::Remove(name) => {
                lemma_without_node_names(prev, name);
            },
        }
        let after = after_node_steps(v, steps);
        assert forall|n: Seq<char>|
            has_node(after.nodes, n) <==> registered_after(has_node(v.nodes, n), steps, n) by {
            assert(has_node(prev.nodes, n) <==> registered_after(
                has_node(v.nodes, n),
                steps.drop_last(),
                n,
            ));
        }
    }
}

/// The number of registered nodes is the number of names registered
/// according to the history of calls.
pub proof fn length_follows_history<I>(v: HashRingView<I>, steps: Seq<NodeStep<I>>)
    requires
        names_distinct(v.nodes),
    ensures
        Set::new(|n: Seq<char>| registered_after(has_node(v.nodes, n), steps, n)).finite(),
        after_node_steps(v, steps).nodes.len() == Set::new(
            |n: Seq<char>| registered_after(has_node(v.nodes, n), steps, n),
        ).len(),
{
    membership_follows_history(v, steps);
    let nodes = after_node_steps(v, steps).nodes;
    let names = nodes.map_values(|x: NodeView<I>| x.name);
    let s = Set::new(|n: Seq<char>| registered_after(has_node(v.nodes, n), steps, n));
    assert(names.no_duplicates()) by {
        assert forall|a: int, b: int| 0 <= a < names.len() && 0 <= b < names.len() && a != b implies names[a]
            != names[b] by {
            assert(names[a] == nodes[a].name);
            assert(names[b] == nodes[b].name);
        }
    }
    assert(names.to_set() =~= s) by {
        assert forall|n: Seq<char>| names.to_set().contains(n) <==> s.contains(n) by {
            if names.to_set().contains(n) {
                assert(names.contains(n));
                let k = choose|k: int| 0 <= k < names.len() && names[k] == n;
                assert(nodes[k].name == n);
                assert(has_node(nodes, n));
                assert(registered_after(has_node(v.nodes, n), steps, n));
            }
            if s.contains(n) {
                assert(registered_after(has_node(v.nodes, n), steps, n));
                assert(has_node(nodes, n));
                let k = choose|k: int| 0 <= k < nodes.len() && nodes[k].name == n;
                assert(names[k] == n);
                assert(names.contains(n));
            }
        }
    }
    broadcast use vstd::seq_lib::seq_to_set_is_finite;
    names.unique_seq_to_set();
}

/// Two well-formed rings with the same registered nodes (in the same order,
/// with the same metadata) and the same number of virtual positions per
/// unit of weight, where no two positions coincide, give every key the same
/// owner and the same replicas. In particular a ring restored with
/// `set_state` from another ring's nodes (whose result is well-formed and,
/// by `restoring_nodes_gives_same_nodes`, holds the same nodes) answers
/// every lookup as that ring does.
pub proof fn same_nodes_give_same_owners<I>(v1: HashRingView<I>, v2: HashRingView<I>, key: Seq<char>, count: nat)
    requires
        v1.wf(),
        v2.wf(),
        v1.nodes == v2.nodes,
        v1.ring.virtual_nodes == v2.ring.virtual_nodes,
        positions_distinct(v1.ring.slots),
    ensures
        positions_distinct(v2.ring.slots),
        lookup_spec(v2.ring.slots, key) == lookup_spec(v1.ring.slots, key),
        replicas_spec(v2.ring, key, count) == replicas_spec(v1.ring, key, count),
{
    let s1 = v1.ring.slots;
    let s2 = v2.ring.slots;
    // The same number of slots at every position for every name.
    assert forall|p: u64, n: Seq<char>| pair_count(s1, p, n) == pair_count(s2, p, n) by {
        if has_node(v1.nodes, n) {
            let k = choose|k: int| 0 <= k < v1.nodes.len() && v1.nodes[k].name == n;
            assert(pair_count(s1, p, v1.nodes[k].name) == pair_count(s2, p, v2.nodes[k].name));
        } else {
            lemma_pair_zero(s1, p, n);
            lemma_pair_zero(s2, p, n);
            assert forall|i: int| 0 <= i < s1.len() implies !(s1[i].name == n && s1[i].position == p) by {
                assert(has_node(v1.nodes, s1[i].name));
            }
            assert forall|i: int| 0 <= i < s2.len() implies !(s2[i].name == n && s2[i].position == p) by {
                assert(has_node(v2.nodes, s2[i].name));
            }
        }
    }
    assert(positions_distinct(s2)) by {
        assert forall|i: int, j: int| 0 <= i < j < s2.len() implies s2[i].position != s2[j].position by {
            if s2[i].position == s2[j].position {
                let p = s2[i].position;
                lemma_pair_zero(s2, p, s2[i].name);
                lemma_pair_zero(s2, p, s2[j].name);
                lemma_pair_at_most_one(s1, p, s2[i].name);
                lemma_pair_at_most_one(s1, p, s2[j].name);
                if s2[i].name == s2[j].name {
                    lemma_pair_two(s2, i, j);
                } else {
                    let a = choose|a: int| 0 <= a < s1.len() && s1[a].position == p && s1[a].name == s2[i].name;
                    let b = choose|b: int| 0 <= b < s1.len() && s1[b].position == p && s1[b].name == s2[j].name;
                    if a < b {
                        assert(s1[a].position != s1[b].position);
                    } else {
                        assert(s1[b].position != s1[a].position);
                    }
                }
            }
        }
    }
    assert forall|p: u64, n: Seq<char>| has_slot(s1, p, n) <==> has_slot(s2, p, n) by {
        lemma_pair_at_most_one(s1, p, n);
        lemma_pair_at_most_one(s2, p, n);
    }
    lemma_same_pairs_same_order(s1, s2);
    lemma_lookup_same_pairs(s1, s2, key);
    // Replicas: the same walk, and caps that make no difference.
    if s1.len() > 0 && count > 0 {
        positioned_names_count(v1);
        positioned_names_count(v2);
        assert(positioned_names(v1) =~= positioned_names(v2));
        let start = owner_index(s1, key_hash(key));
        lemma_lower_bound(s1, key_hash(key));
        let c1 = if count < v1.ring.node_count { count } else { v1.ring.node_count };
        let c2 = if count < v2.ring.node_count { count } else { v2.ring.node_count };
        if c1 != c2 {
            lemma_walk_cap_irrelevant(s1, start, s1.len(), c1);
            lemma_walk_cap_irrelevant(s2, start, s2.len(), c2);
            lemma_walk_same_pairs(s1, s2, start, s1.len(), 0);
        } else {
            lemma_walk_same_pairs(s1, s2, start, s1.len(), c1);
        }
    }
}

/// Two distinct slots with the same position and name count twice.
proof fn lemma_pair_two(s: Seq<Slot>, i: int, j: int)
    requires
        0 <= i < j < s.len(),
        s[i].position == s[j].position,
        s[i].name == s[j].name,
    ensures
        pair_count(s, s[i].position, s[i].name) >= 2,
    decreases s.len(),
{
    let d = s.drop_last();
    if j == s.len() - 1 {
        lemma_pair_zero(d, s[i].position, s[i].name);
        assert(d[i] == s[i]);
    } else {
        assert(d[i] == s[i]);
        assert(d[j] == s[j]);
        lemma_pair_two(d, i, j);
    }
}

} // verus!
