//! Properties of the ring that span several operations.

use vstd::prelude::*;
use crate::hashing::{key_hash, xxh3_64_of};
use vstd::utf8::encode_utf8;
use crate::ring::{
    added, ids, insert_all, insert_slot, lemma_insert_all_sorted, lemma_lower_bound,
    lemma_lower_bound_unique, lemma_upper_bound, lookup_spec, lower_bound, node_slots, owner_index, removed, replicas_spec, rot, slot_id,
    sorted, upper_bound, walk, without_name, RingView, Slot,
};

verus! {

/// Inserting one slot anywhere changes the owner of a hash at most to the
/// inserted slot.
proof fn lemma_owner_after_insert(s: Seq<Slot>, u: int, e: Slot, h: u64)
    requires
        0 <= u <= s.len(),
    ensures
        ({
            let s2 = s.insert(u, e);
            s.len() == 0 || s2[owner_index(s2, h)] == e || s2[owner_index(s2, h)] == s[owner_index(s, h)]
        }),
{
    let s2 = s.insert(u, e);
    lemma_lower_bound(s, h);
    let lb = lower_bound(s, h) as int;
    if s.len() > 0 {
        if lb < u {
            assert forall|j: int| 0 <= j < lb implies s2[j].position < h by {
                assert(s2[j] == s[j]);
            }
            assert(s2[lb] == s[lb]);
            lemma_lower_bound_unique(s2, h, lb);
        } else if e.position >= h {
            assert forall|j: int| 0 <= j < u implies s2[j].position < h by {
                assert(s2[j] == s[j]);
            }
            lemma_lower_bound_unique(s2, h, u);
        } else if lb < s.len() {
            assert forall|j: int| 0 <= j < lb + 1 implies s2[j].position < h by {
                if j < u {
                    assert(s2[j] == s[j]);
                } else if j > u {
                    assert(s2[j] == s[j - 1]);
                }
            }
            assert(s2[lb + 1] == s[lb]);
            lemma_lower_bound_unique(s2, h, lb + 1);
        } else {
            assert forall|j: int| 0 <= j < s2.len() implies s2[j].position < h by {
                if j < u {
                    assert(s2[j] == s[j]);
                } else if j > u {
                    assert(s2[j] == s[j - 1]);
                }
            }
            lemma_lower_bound_unique(s2, h, s2.len() as int);
            if u > 0 {
                assert(s2[0] == s[0]);
            }
        }
    }
}

/// Inserting slots of node `name` changes the owner of a key at most to `name`.
proof fn lemma_lookup_after_insert_all(s: Seq<Slot>, es: Seq<Slot>, name: Seq<char>, key: Seq<char>)
    requires
        forall|k: int| 0 <= k < es.len() ==> (#[trigger] es[k]).name == name,
    ensures
        lookup_spec(insert_all(s, es), key) == lookup_spec(s, key)
            || lookup_spec(insert_all(s, es), key) == Some(name),
    decreases es.len(),
{
    if es.len() > 0 {
        let prev = insert_all(s, es.drop_last());
        lemma_lookup_after_insert_all(s, es.drop_last(), name, key);
        let e = es.last();
        assert(es[es.len() - 1].name == name);
        lemma_upper_bound(prev, e.position);
        lemma_owner_after_insert(prev, upper_bound(prev, e.position) as int, e, key_hash(key));
    }
}

/// Consistency of adding a node: after `add_positions(name, weight)` every
/// key is owned either by the node it was owned by before or by `name`.
pub proof fn adding_moves_keys_only_to_new_node(v: RingView, name: Seq<char>, weight: u32, key: Seq<char>)
    ensures
        lookup_spec(added(v, name, weight).slots, key) == lookup_spec(v.slots, key)
            || lookup_spec(added(v, name, weight).slots, key) == Some(name),
{
    let es = node_slots(name, v.next_serial, (v.virtual_nodes * weight) as nat);
    lemma_lookup_after_insert_all(v.slots, es, name, key);
}

/// Consistency of removing a node: after `remove_positions(name)` every key
/// that was owned by another node keeps its owner.
pub proof fn removing_keeps_other_owners(v: RingView, name: Seq<char>, key: Seq<char>)
    requires
        lookup_spec(v.slots, key) is Some,
        lookup_spec(v.slots, key)->0 != name,
    ensures
        lookup_spec(removed(v, name).slots, key) == lookup_spec(v.slots, key),
{
    let s = v.slots;
    let h = key_hash(key);
    let keep = |x: Slot| x.name != name;
    let f = s.filter(keep);
    assert(f == removed(v, name).slots);
    lemma_lower_bound(s, h);
    let lb = lower_bound(s, h) as int;
    let i0 = owner_index(s, h);
    let a = s.take(i0);
    let b = s.skip(i0);
    assert(s =~= a + b);
    Seq::filter_distributes_over_add(a, b, keep);
    assert(b =~= seq![s[i0]] + s.skip(i0 + 1));
    s.skip(i0 + 1).lemma_filter_prepend(s[i0], keep);
    let fa = a.filter(keep);
    assert(f =~= fa + (seq![s[i0]] + s.skip(i0 + 1).filter(keep)));
    assert(f[fa.len() as int] == s[i0]);
    if lb < s.len() {
        assert forall|j: int| 0 <= j < fa.len() implies f[j].position < h by {
            assert(f[j] == fa[j]);
            assert(fa.contains(fa[j]));
            a.lemma_filter_contains_rev(keep, fa[j]);
            let k = choose|k: int| 0 <= k < a.len() && a[k] == fa[j];
            assert(a[k] == s[k]);
        }
        lemma_lower_bound_unique(f, h, fa.len() as int);
    } else {
        assert(fa.len() == 0) by {
            assert(a =~= Seq::<Slot>::empty());
            reveal_with_fuel(Seq::filter, 1);
        }
        assert forall|j: int| 0 <= j < f.len() implies f[j].position < h by {
            assert(f.contains(f[j]));
            s.lemma_filter_contains_rev(keep, f[j]);
        }
        lemma_lower_bound_unique(f, h, f.len() as int);
    }
}

/// What a walk around the ring collects.
pub proof fn lemma_walk(s: Seq<Slot>, start: int, k: nat, cap: nat)
    requires
        0 <= start < s.len(),
        k <= s.len(),
    ensures
        walk(s, start, k, cap).no_duplicates(),
        cap > 0 ==> walk(s, start, k, cap).len() <= cap,
        forall|m: int|
            0 <= m < walk(s, start, k, cap).len() ==> ids(s).contains(
                #[trigger] walk(s, start, k, cap)[m],
            ),
        k >= 1 ==> walk(s, start, k, cap).len() >= 1 && walk(s, start, k, cap)[0] == slot_id(
            s[start],
        ),
        cap == 0 || walk(s, start, k, cap).len() < cap ==> forall|j: int|
            0 <= j < k ==> walk(s, start, k, cap).contains(
                slot_id(#[trigger] s[rot(s.len() as int, start, j)]),
            ),
    decreases k,
{
    if k > 0 {
        let prev = walk(s, start, (k - 1) as nat, cap);
        lemma_walk(s, start, (k - 1) as nat, cap);
        let idx = rot(s.len() as int, start, k - 1);
        let id = slot_id(s[idx]);
        let w = walk(s, start, k, cap);
        assert(s.map_values(|x: Slot| slot_id(x))[idx] == id);
        assert(ids(s).contains(id));
        if w.len() > prev.len() {
            assert(w == prev.push(id));
            assert forall|m: int| 0 <= m < w.len() implies ids(s).contains(#[trigger] w[m]) by {
                if m < prev.len() {
                    assert(w[m] == prev[m]);
                }
            }
            assert(w[w.len() - 1] == id);
        }
        if cap == 0 || w.len() < cap {
            assert forall|j: int| 0 <= j < k implies w.contains(
                slot_id(#[trigger] s[rot(s.len() as int, start, j)]),
            ) by {
                if j < k - 1 {
                    assert(prev.contains(slot_id(s[rot(s.len() as int, start, j)])));
                    let m = choose|m: int| 0 <= m < prev.len() && prev[m] == slot_id(s[rot(s.len() as int, start, j)]);
                    assert(w[m] == prev[m]);
                } else if !prev.contains(id) {
                    assert(w[w.len() - 1] == id);
                }
            }
        }
    }
}

/// The replicas of a key on a non-empty ring start with the key's owner.
pub proof fn replicas_start_with_owner(v: RingView, key: Seq<char>, count: nat)
    requires
        v.slots.len() > 0,
        count > 0,
    ensures
        replicas_spec(v, key, count).len() >= 1,
        Some(replicas_spec(v, key, count)[0]) == lookup_spec(v.slots, key),
{
    let s = v.slots;
    let cap = if count < v.node_count { count } else { v.node_count };
    let start = owner_index(s, key_hash(key));
    lemma_lower_bound(s, key_hash(key));
    lemma_walk(s, start, s.len(), cap);
}

/// Replicas: at most `count` names, each owning a slot, and exactly
/// `min(count, number of distinct nodes on the ring)` of them.
pub proof fn replicas_count(v: RingView, key: Seq<char>, count: nat)
    requires
        v.wf(),
    ensures
        replicas_spec(v, key, count).len() == (if count < ids(v.slots).len() {
            count
        } else {
            ids(v.slots).len()
        }),
        forall|m: int|
            0 <= m < replicas_spec(v, key, count).len() ==> exists|j: int|
                0 <= j < v.slots.len() && v.slots[j].name == #[trigger] replicas_spec(
                    v,
                    key,
                    count,
                )[m],
{
    let s = v.slots;
    broadcast use vstd::seq_lib::seq_to_set_is_finite;
    if s.len() == 0 {
        assert(ids(s) =~= Set::<(Seq<char>, u64)>::empty());
    } else if count == 0 {
    } else {
        let cap = if count < v.node_count { count } else { v.node_count };
        let start = owner_index(s, key_hash(key));
        lemma_lower_bound(s, key_hash(key));
        lemma_walk(s, start, s.len(), cap);
        let w = walk(s, start, s.len(), cap);
        let r = replicas_spec(v, key, count);
        assert(r == w.map_values(|id: (Seq<char>, u64)| id.0));
        w.unique_seq_to_set();
        assert(w.to_set().subset_of(ids(s))) by {
            assert forall|x| w.to_set().contains(x) implies ids(s).contains(x) by {
                let m = choose|m: int| 0 <= m < w.len() && w[m] == x;
            }
        }
        vstd::set_lib::lemma_len_subset(w.to_set(), ids(s));
        assert(ids(s).contains(slot_id(s[0])) ) by {
            assert(s.map_values(|x: Slot| slot_id(x))[0] == slot_id(s[0]));
        }
        if cap == 0 || w.len() < cap {
            assert(ids(s).subset_of(w.to_set())) by {
                assert forall|x| ids(s).contains(x) implies w.to_set().contains(x) by {
                    let ms = s.map_values(|y: Slot| slot_id(y));
                    let i = choose|i: int| 0 <= i < ms.len() && ms[i] == x;
                    let j = if i >= start { i - start } else { i + s.len() - start };
                    assert(rot(s.len() as int, start, j) == i);
                    assert(w.contains(slot_id(s[rot(s.len() as int, start, j)])));
                }
            }
            vstd::set_lib::lemma_len_subset(ids(s), w.to_set());
        }
        assert forall|m: int| 0 <= m < r.len() implies exists|j: int|
            0 <= j < s.len() && s[j].name == #[trigger] r[m] by {
            assert(ids(s).contains(w[m]));
            let ms = s.map_values(|y: Slot| slot_id(y));
            let j = choose|j: int| 0 <= j < ms.len() && ms[j] == w[m];
            assert(s[j].name == r[m]);
        }
    }
}

/// Every name on the ring has a single serial: no name was added twice
/// without being removed in between.
pub open spec fn one_serial_per_name(s: Seq<Slot>) -> bool {
    forall|i: int, j: int|
        0 <= i < s.len() && 0 <= j < s.len() && s[i].name == s[j].name ==> s[i].serial == s[j].serial
}

/// Replicas are distinct nodes: when no name is on the ring twice, the
/// names returned are pairwise different.
pub proof fn replicas_are_distinct(v: RingView, key: Seq<char>, count: nat)
    requires
        one_serial_per_name(v.slots),
    ensures
        replicas_spec(v, key, count).no_duplicates(),
{
    let s = v.slots;
    if s.len() > 0 && count > 0 {
        let cap = if count < v.node_count { count } else { v.node_count };
        let start = owner_index(s, key_hash(key));
        lemma_lower_bound(s, key_hash(key));
        lemma_walk(s, start, s.len(), cap);
        let w = walk(s, start, s.len(), cap);
        let r = replicas_spec(v, key, count);
        assert forall|a: int, b: int| 0 <= a < r.len() && 0 <= b < r.len() && a != b implies r[a] != r[b] by {
            assert(ids(s).contains(w[a]));
            assert(ids(s).contains(w[b]));
            let ms = s.map_values(|y: Slot| slot_id(y));
            let i = choose|i: int| 0 <= i < ms.len() && ms[i] == w[a];
            let j = choose|j: int| 0 <= j < ms.len() && ms[j] == w[b];
            if r[a] == r[b] {
                assert(s[i].name == s[j].name);
                assert(w[a] == w[b]);
            }
        }
    }
}

/// Number of slots in `s` that belong to a node named `name`.
pub open spec fn count_named(s: Seq<Slot>, name: Seq<char>) -> nat
    decreases s.len(),
{
    if s.len() == 0 {
        0
    } else {
        count_named(s.drop_last(), name) + if s.last().name == name { 1nat } else { 0nat }
    }
}

/// Counting over a concatenation.
pub proof fn lemma_count_concat(a: Seq<Slot>, b: Seq<Slot>, name: Seq<char>)
    ensures
        count_named(a + b, name) == count_named(a, name) + count_named(b, name),
    decreases b.len(),
{
    if b.len() == 0 {
        assert(a + b =~= a);
    } else {
        assert((a + b).drop_last() =~= a + b.drop_last());
        lemma_count_concat(a, b.drop_last(), name);
    }
}

/// Counting after placing one slot anywhere.
pub proof fn lemma_count_insert(s: Seq<Slot>, u: int, e: Slot, name: Seq<char>)
    requires
        0 <= u <= s.len(),
    ensures
        count_named(s.insert(u, e), name) == count_named(s, name) + if e.name == name {
            1nat
        } else {
            0nat
        },
{
    let a = s.take(u);
    let b = s.skip(u);
    assert(s.insert(u, e) =~= a + (seq![e] + b));
    assert(s =~= a + b);
    lemma_count_concat(a, seq![e] + b, name);
    lemma_count_concat(seq![e], b, name);
    lemma_count_concat(a, b, name);
    assert(seq![e].drop_last() =~= Seq::<Slot>::empty());
    assert(count_named(Seq::<Slot>::empty(), name) == 0);
    assert(seq![e].last() == e);
}

/// Counting after inserting slots one by one.
pub proof fn lemma_count_insert_all(s: Seq<Slot>, es: Seq<Slot>, name: Seq<char>)
    ensures
        count_named(insert_all(s, es), name) == count_named(s, name) + count_named(es, name),
        insert_all(s, es).len() == s.len() + es.len(),
    decreases es.len(),
{
    if es.len() > 0 {
        let prev = insert_all(s, es.drop_last());
        lemma_count_insert_all(s, es.drop_last(), name);
        lemma_upper_bound(prev, es.last().position);
        lemma_count_insert(prev, upper_bound(prev, es.last().position) as int, es.last(), name);
    }
}

/// A node's own slots all carry its name.
pub proof fn lemma_count_node_slots(node: Seq<char>, serial: u64, k: nat, name: Seq<char>)
    ensures
        count_named(node_slots(node, serial, k), name) == if node == name { k } else { 0 },
    decreases k,
{
    if k > 0 {
        assert(node_slots(node, serial, k).drop_last() =~= node_slots(node, serial, (k - 1) as nat));
        lemma_count_node_slots(node, serial, (k - 1) as nat, name);
    }
}

/// After removing `gone`, nothing of it is left and the others keep their slots.
pub proof fn lemma_count_without(s: Seq<Slot>, gone: Seq<char>, name: Seq<char>)
    ensures
        count_named(without_name(s, gone), name) == if name == gone {
            0
        } else {
            count_named(s, name)
        },
    decreases s.len(),
{
    reveal_with_fuel(Seq::filter, 1);
    if s.len() > 0 {
        lemma_count_without(s.drop_last(), gone, name);
        let sub = without_name(s.drop_last(), gone);
        if s.last().name != gone {
            assert(without_name(s, gone) == sub.push(s.last()));
            assert(sub.push(s.last()).drop_last() =~= sub);
        }
    }
}

/// No slot carries a name exactly when the count for it is zero.
pub proof fn lemma_count_zero(s: Seq<Slot>, name: Seq<char>)
    ensures
        count_named(s, name) == 0 <==> forall|i: int| 0 <= i < s.len() ==> s[i].name != name,
    decreases s.len(),
{
    if s.len() > 0 {
        lemma_count_zero(s.drop_last(), name);
        assert forall|i: int| 0 <= i < s.len() - 1 implies s.drop_last()[i] == s[i] by {}
    }
}

/// Number of slots in `s` at position `p` that belong to a node named `name`.
pub open spec fn pair_count(s: Seq<Slot>, p: u64, name: Seq<char>) -> nat
    decreases s.len(),
{
    if s.len() == 0 {
        0
    } else {
        pair_count(s.drop_last(), p, name) + if s.last().name == name && s.last().position == p {
            1nat
        } else {
            0nat
        }
    }
}

/// Counting over a concatenation.
pub proof fn lemma_pair_concat(a: Seq<Slot>, b: Seq<Slot>, p: u64, name: Seq<char>)
    ensures
        pair_count(a + b, p, name) == pair_count(a, p, name) + pair_count(b, p, name),
    decreases b.len(),
{
    if b.len() == 0 {
        assert(a + b =~= a);
    } else {
        assert((a + b).drop_last() =~= a + b.drop_last());
        lemma_pair_concat(a, b.drop_last(), p, name);
    }
}

/// Counting after placing one slot anywhere.
pub proof fn lemma_pair_insert(s: Seq<Slot>, u: int, e: Slot, p: u64, name: Seq<char>)
    requires
        0 <= u <= s.len(),
    ensures
        pair_count(s.insert(u, e), p, name) == pair_count(s, p, name) + if e.name == name
            && e.position == p {
            1nat
        } else {
            0nat
        },
{
    let a = s.take(u);
    let b = s.skip(u);
    assert(s.insert(u, e) =~= a + (seq![e] + b));
    assert(s =~= a + b);
    lemma_pair_concat(a, seq![e] + b, p, name);
    lemma_pair_concat(seq![e], b, p, name);
    lemma_pair_concat(a, b, p, name);
    assert(seq![e].drop_last() =~= Seq::<Slot>::empty());
    assert(pair_count(Seq::<Slot>::empty(), p, name) == 0);
    assert(seq![e].last() == e);
}

/// Counting after inserting slots one by one.
pub proof fn lemma_pair_insert_all(s: Seq<Slot>, es: Seq<Slot>, p: u64, name: Seq<char>)
    ensures
        pair_count(insert_all(s, es), p, name) == pair_count(s, p, name) + pair_count(es, p, name),
        insert_all(s, es).len() == s.len() + es.len(),
    decreases es.len(),
{
    if es.len() > 0 {
        let prev = insert_all(s, es.drop_last());
        lemma_pair_insert_all(s, es.drop_last(), p, name);
        lemma_upper_bound(prev, es.last().position);
        lemma_pair_insert(prev, upper_bound(prev, es.last().position) as int, es.last(), p, name);
    }
}

/// The slots of another node are not counted; the serial does not matter.
pub proof fn lemma_pair_node_slots(node: Seq<char>, serial: u64, k: nat, p: u64, name: Seq<char>)
    ensures
        pair_count(node_slots(node, serial, k), p, name) == if node == name {
            pair_count(node_slots(node, 0, k), p, name)
        } else {
            0
        },
    decreases k,
{
    if k > 0 {
        assert(node_slots(node, serial, k).drop_last() =~= node_slots(node, serial, (k - 1) as nat));
        assert(node_slots(node, 0, k).drop_last() =~= node_slots(node, 0, (k - 1) as nat));
        lemma_pair_node_slots(node, serial, (k - 1) as nat, p, name);
    }
}

/// After removing `gone`, nothing of it is left at `p` and the others keep their slots.
pub proof fn lemma_pair_without(s: Seq<Slot>, gone: Seq<char>, p: u64, name: Seq<char>)
    ensures
        pair_count(without_name(s, gone), p, name) == if name == gone {
            0
        } else {
            pair_count(s, p, name)
        },
    decreases s.len(),
{
    reveal_with_fuel(Seq::filter, 1);
    if s.len() > 0 {
        lemma_pair_without(s.drop_last(), gone, p, name);
        let sub = without_name(s.drop_last(), gone);
        if s.last().name != gone {
            assert(without_name(s, gone) == sub.push(s.last()));
            assert(sub.push(s.last()).drop_last() =~= sub);
        }
    }
}

/// No slot at `p` carries a name exactly when the count for them is zero.
pub proof fn lemma_pair_zero(s: Seq<Slot>, p: u64, name: Seq<char>)
    ensures
        pair_count(s, p, name) == 0 <==> forall|i: int|
            0 <= i < s.len() ==> !(s[i].name == name && s[i].position == p),
    decreases s.len(),
{
    if s.len() > 0 {
        lemma_pair_zero(s.drop_last(), p, name);
        assert forall|i: int| 0 <= i < s.len() - 1 implies s.drop_last()[i] == s[i] by {}
    }
}

/// Every slot of `insert_all(s, es)` comes from `s` or from `es`.
pub proof fn lemma_insert_all_from(s: Seq<Slot>, es: Seq<Slot>)
    ensures
        forall|i: int|
            0 <= i < insert_all(s, es).len() ==> s.contains(#[trigger] insert_all(s, es)[i])
                || es.contains(insert_all(s, es)[i]),
    decreases es.len(),
{
    if es.len() > 0 {
        let prev = insert_all(s, es.drop_last());
        lemma_insert_all_from(s, es.drop_last());
        let e = es.last();
        lemma_upper_bound(prev, e.position);
        let u = upper_bound(prev, e.position) as int;
        let r = insert_all(s, es);
        assert(r == prev.insert(u, e));
        assert forall|i: int| 0 <= i < r.len() implies s.contains(#[trigger] r[i]) || es.contains(r[i]) by {
            if i < u {
                assert(r[i] == prev[i]);
                if !s.contains(prev[i]) {
                    let k = choose|k: int| 0 <= k < es.drop_last().len() && es.drop_last()[k] == prev[i];
                    assert(es[k] == prev[i]);
                }
            } else if i > u {
                assert(r[i] == prev[i - 1]);
                if !s.contains(prev[i - 1]) {
                    let k = choose|k: int| 0 <= k < es.drop_last().len() && es.drop_last()[k] == prev[i - 1];
                    assert(es[k] == prev[i - 1]);
                }
            } else {
                assert(es[es.len() - 1] == e);
            }
        }
    }
}

/// Adding a node of weight `w` adds `virtual_nodes * w` positions, all of
/// them named after it, and leaves the positions of other names alone
/// (the ring itself does not refuse a name that is already present).
pub proof fn adding_adds_weighted_positions(v: RingView, name: Seq<char>, weight: u32, other: Seq<char>)
    ensures
        added(v, name, weight).slots.len() == v.slots.len() + v.virtual_nodes * weight,
        count_named(added(v, name, weight).slots, name) == count_named(v.slots, name)
            + v.virtual_nodes * weight,
        other != name ==> count_named(added(v, name, weight).slots, other) == count_named(v.slots, other),
{
    let es = node_slots(name, v.next_serial, (v.virtual_nodes * weight) as nat);
    lemma_count_insert_all(v.slots, es, name);
    lemma_count_insert_all(v.slots, es, other);
    lemma_count_node_slots(name, v.next_serial, (v.virtual_nodes * weight) as nat, name);
    lemma_count_node_slots(name, v.next_serial, (v.virtual_nodes * weight) as nat, other);
}

/// Removing a name removes all its positions and no others.
pub proof fn removing_removes_only_its_positions(v: RingView, name: Seq<char>, other: Seq<char>)
    ensures
        count_named(removed(v, name).slots, name) == 0,
        other != name ==> count_named(removed(v, name).slots, other) == count_named(v.slots, other),
{
    lemma_count_without(v.slots, name, name);
    lemma_count_without(v.slots, name, other);
}

/// Filtering out a slot that the filter drops anyway changes nothing.
proof fn lemma_filter_insert_dropped(s: Seq<Slot>, u: int, e: Slot, name: Seq<char>)
    requires
        0 <= u <= s.len(),
        e.name == name,
    ensures
        without_name(s.insert(u, e), name) == without_name(s, name),
{
    let keep = |x: Slot| x.name != name;
    let a = s.take(u);
    let b = s.skip(u);
    assert(s.insert(u, e) =~= a + (seq![e] + b));
    assert(s =~= a + b);
    Seq::filter_distributes_over_add(a, seq![e] + b, keep);
    Seq::filter_distributes_over_add(a, b, keep);
    b.lemma_filter_prepend(e, keep);
    assert(Seq::<Slot>::empty() + b.filter(keep) =~= b.filter(keep));
}

/// A ring where no slot carries `name` is unchanged by removing `name`.
proof fn lemma_without_absent(s: Seq<Slot>, name: Seq<char>)
    requires
        forall|j: int| 0 <= j < s.len() ==> s[j].name != name,
    ensures
        without_name(s, name) == s,
    decreases s.len(),
{
    reveal_with_fuel(Seq::filter, 1);
    if s.len() > 0 {
        lemma_without_absent(s.drop_last(), name);
        assert(s.drop_last().push(s.last()) =~= s);
    }
}

/// Removing the slots of `name` undoes inserting slots of `name`.
proof fn lemma_without_insert_all(s: Seq<Slot>, es: Seq<Slot>, name: Seq<char>)
    requires
        forall|k: int| 0 <= k < es.len() ==> (#[trigger] es[k]).name == name,
    ensures
        without_name(insert_all(s, es), name) == without_name(s, name),
    decreases es.len(),
{
    if es.len() > 0 {
        let prev = insert_all(s, es.drop_last());
        lemma_without_insert_all(s, es.drop_last(), name);
        assert(es[es.len() - 1].name == name);
        lemma_upper_bound(prev, es.last().position);
        lemma_filter_insert_dropped(prev, upper_bound(prev, es.last().position) as int, es.last(), name);
    }
}

/// Removing a node right after adding it under a name the ring did not
/// hold gives back the same positions; when the node had positions, the
/// node count is restored too, and with it every lookup and every replica
/// list.
pub proof fn removing_an_added_node_restores_positions(
    v: RingView,
    name: Seq<char>,
    weight: u32,
    key: Seq<char>,
    count: nat,
)
    requires
        forall|j: int| 0 <= j < v.slots.len() ==> v.slots[j].name != name,
    ensures
        removed(added(v, name, weight), name).slots == v.slots,
        removed(added(v, name, weight), name).virtual_nodes == v.virtual_nodes,
        v.virtual_nodes * weight > 0 ==> removed(added(v, name, weight), name).node_count
            == v.node_count,
        lookup_spec(removed(added(v, name, weight), name).slots, key) == lookup_spec(v.slots, key),
        v.virtual_nodes * weight > 0 ==> replicas_spec(removed(added(v, name, weight), name), key, count)
            == replicas_spec(v, key, count),
{
    let es = node_slots(name, v.next_serial, (v.virtual_nodes * weight) as nat);
    lemma_without_insert_all(v.slots, es, name);
    lemma_without_absent(v.slots, name);
    lemma_count_insert_all(v.slots, es, name);
}

/// Placing a slot by `insert_slot` into an ordered ring puts it after every
/// slot of the same position.
proof fn lemma_insert_slot_filter(s: Seq<Slot>, e: Slot, p: u64)
    requires
        sorted(s),
    ensures
        insert_slot(s, e).filter(|x: Slot| x.position == p) == s.filter(|x: Slot| x.position == p)
            + if e.position == p { seq![e] } else { Seq::<Slot>::empty() },
{
    let f = |x: Slot| x.position == p;
    lemma_upper_bound(s, e.position);
    let u = upper_bound(s, e.position) as int;
    let a = s.take(u);
    let b = s.skip(u);
    assert(insert_slot(s, e) =~= a + (seq![e] + b));
    assert(s =~= a + b);
    Seq::filter_distributes_over_add(a, seq![e] + b, f);
    Seq::filter_distributes_over_add(a, b, f);
    b.lemma_filter_prepend(e, f);
    if e.position == p {
        assert(b.all(|x: Slot| !f(x))) by {
            assert forall|k: int| 0 <= k < b.len() implies !f(#[trigger] b[k]) by {
                assert(b[k] == s[u + k]);
                assert(s[u].position > e.position);
                assert(s[u].position <= s[u + k].position);
            }
        }
        b.lemma_all_neg_filter_empty(f);
        assert(b.filter(f) =~= Seq::<Slot>::empty());
        assert(a.filter(f) + (seq![e] + b.filter(f)) =~= a.filter(f) + b.filter(f) + seq![e]);
    } else {
        assert(a.filter(f) + (Seq::<Slot>::empty() + b.filter(f)) =~= a.filter(f) + b.filter(f)
            + Seq::<Slot>::empty());
    }
}

/// Inserting slots one by one into an ordered ring works as a stable sort:
/// among slots of the same position, the old ones come first in their old
/// order, then the inserted ones in the order they were given.
proof fn lemma_insert_all_stable(s: Seq<Slot>, es: Seq<Slot>, p: u64)
    requires
        sorted(s),
    ensures
        insert_all(s, es).filter(|x: Slot| x.position == p) == s.filter(|x: Slot| x.position == p)
            + es.filter(|x: Slot| x.position == p),
    decreases es.len(),
{
    let f = |x: Slot| x.position == p;
    reveal_with_fuel(Seq::filter, 1);
    if es.len() == 0 {
        assert(s.filter(f) + es.filter(f) =~= s.filter(f));
    } else {
        lemma_insert_all_stable(s, es.drop_last(), p);
        lemma_insert_all_sorted(s, es.drop_last());
        lemma_insert_slot_filter(insert_all(s, es.drop_last()), es.last(), p);
        if es.last().position == p {
            assert(s.filter(f) + es.drop_last().filter(f) + seq![es.last()] =~= s.filter(f)
                + es.drop_last().filter(f).push(es.last()));
        } else {
            assert(s.filter(f) + es.drop_last().filter(f) + Seq::<Slot>::empty() =~= s.filter(f)
                + es.drop_last().filter(f));
        }
    }
}

/// Adding a node keeps the ring ordered and places the new positions as a
/// stable sort of the old positions followed by the new ones would: at any
/// position `p`, the old slots at `p` come first in their old order, then
/// the new node's slots at `p` in the order of their virtual index.
pub proof fn adding_is_a_stable_sort(v: RingView, name: Seq<char>, weight: u32, p: u64)
    requires
        sorted(v.slots),
    ensures
        sorted(added(v, name, weight).slots),
        added(v, name, weight).slots.filter(|x: Slot| x.position == p) == v.slots.filter(
            |x: Slot| x.position == p,
        ) + node_slots(name, v.next_serial, (v.virtual_nodes * weight) as nat).filter(
            |x: Slot| x.position == p,
        ),
{
    let es = node_slots(name, v.next_serial, (v.virtual_nodes * weight) as nat);
    lemma_insert_all_sorted(v.slots, es);
    lemma_insert_all_stable(v.slots, es, p);
}

/// One call that changes a ring.
pub enum RingStep {
    Add(Seq<char>, u32),
    Remove(Seq<char>),
}

/// The ring after the calls `steps`, in order.
pub open spec fn after_steps(v: RingView, steps: Seq<RingStep>) -> RingView
    decreases steps.len(),
{
    if steps.len() == 0 {
        v
    } else {
        let prev = after_steps(v, steps.drop_last());
        match steps.last() {
            RingStep::Add(name, weight) => added(prev, name, weight),
            RingStep::Remove(name) => removed(prev, name),
        }
    }
}

/// The number of virtual positions per unit of weight is fixed when the
/// ring is made: no sequence of adds and removes changes it.
pub proof fn virtual_nodes_never_change(v: RingView, steps: Seq<RingStep>)
    ensures
        after_steps(v, steps).virtual_nodes == v.virtual_nodes,
    decreases steps.len(),
{
    if steps.len() > 0 {
        virtual_nodes_never_change(v, steps.drop_last());
    }
}

/// No two slots share a position.
pub open spec fn positions_distinct(s: Seq<Slot>) -> bool {
    forall|i: int, j: int| 0 <= i < j < s.len() ==> s[i].position != s[j].position
}

/// `s` has a slot at position `p` named `name`.
pub open spec fn has_slot(s: Seq<Slot>, p: u64, name: Seq<char>) -> bool {
    exists|i: int| 0 <= i < s.len() && s[i].position == p && s[i].name == name
}

/// With distinct positions, a position and name occur at most once.
pub proof fn lemma_pair_at_most_one(s: Seq<Slot>, p: u64, name: Seq<char>)
    requires
        positions_distinct(s),
    ensures
        pair_count(s, p, name) <= 1,
        pair_count(s, p, name) == 1 <==> has_slot(s, p, name),
    decreases s.len(),
{
    lemma_pair_zero(s, p, name);
    if s.len() > 0 {
        let d = s.drop_last();
        assert(positions_distinct(d)) by {
            assert forall|i: int, j: int| 0 <= i < j < d.len() implies d[i].position != d[j].position by {
                assert(d[i] == s[i]);
                assert(d[j] == s[j]);
            }
        }
        lemma_pair_at_most_one(d, p, name);
        lemma_pair_zero(d, p, name);
        if s.last().position == p {
            assert forall|i: int| 0 <= i < d.len() implies !(d[i].name == name && d[i].position == p) by {
                assert(d[i] == s[i]);
                assert(s[i].position != s[s.len() - 1].position);
            }
        }
        if has_slot(d, p, name) {
            let i = choose|i: int| 0 <= i < d.len() && d[i].position == p && d[i].name == name;
            assert(s[i] == d[i]);
        }
        if has_slot(s, p, name) && !has_slot(d, p, name) {
            let i = choose|i: int| 0 <= i < s.len() && s[i].position == p && s[i].name == name;
            if i < d.len() {
                assert(d[i] == s[i]);
            }
        }
    }
}

/// Two ordered rings with distinct positions and the same (position, name)
/// pairs agree slot by slot on position and name.
pub proof fn lemma_same_pairs_same_order(s1: Seq<Slot>, s2: Seq<Slot>)
    requires
        sorted(s1),
        sorted(s2),
        positions_distinct(s1),
        positions_distinct(s2),
        forall|p: u64, n: Seq<char>| has_slot(s1, p, n) <==> has_slot(s2, p, n),
    ensures
        s1.len() == s2.len(),
        forall|i: int|
            0 <= i < s1.len() ==> s1[i].position == s2[i].position && s1[i].name == s2[i].name,
    decreases s1.len() + s2.len(),
{
    if s1.len() == 0 {
        if s2.len() > 0 {
            assert(has_slot(s2, s2[0].position, s2[0].name));
        }
    } else if s2.len() == 0 {
        assert(has_slot(s1, s1[0].position, s1[0].name));
    } else {
        let x = s1[0];
        let y = s2[0];
        assert(has_slot(s1, x.position, x.name));
        assert(has_slot(s2, y.position, y.name));
        let j = choose|j: int| 0 <= j < s2.len() && s2[j].position == x.position && s2[j].name == x.name;
        let k = choose|k: int| 0 <= k < s1.len() && s1[k].position == y.position && s1[k].name == y.name;
        assert(y.position <= s2[j].position);
        assert(x.position <= s1[k].position);
        assert(j == 0);
        let d1 = s1.drop_first();
        let d2 = s2.drop_first();
        assert forall|p: u64, n: Seq<char>| has_slot(d1, p, n) <==> has_slot(d2, p, n) by {
            if has_slot(d1, p, n) {
                let a = choose|a: int| 0 <= a < d1.len() && d1[a].position == p && d1[a].name == n;
                assert(d1[a] == s1[a + 1]);
                assert(has_slot(s1, p, n));
                let b = choose|b: int| 0 <= b < s2.len() && s2[b].position == p && s2[b].name == n;
                assert(s1[0].position != s1[a + 1].position);
                assert(b != 0);
                assert(d2[b - 1] == s2[b]);
            }
            if has_slot(d2, p, n) {
                let a = choose|a: int| 0 <= a < d2.len() && d2[a].position == p && d2[a].name == n;
                assert(d2[a] == s2[a + 1]);
                assert(has_slot(s2, p, n));
                let b = choose|b: int| 0 <= b < s1.len() && s1[b].position == p && s1[b].name == n;
                assert(s2[0].position != s2[a + 1].position);
                assert(b != 0);
                assert(d1[b - 1] == s1[b]);
            }
        }
        lemma_same_pairs_same_order(d1, d2);
        assert forall|i: int| 0 <= i < s1.len() implies s1[i].position == s2[i].position && s1[i].name
            == s2[i].name by {
            if i > 0 {
                assert(d1[i - 1] == s1[i]);
                assert(d2[i - 1] == s2[i]);
            }
        }
    }
}

/// Lookups read only positions and names.
pub proof fn lemma_lookup_same_pairs(s1: Seq<Slot>, s2: Seq<Slot>, key: Seq<char>)
    requires
        s1.len() == s2.len(),
        forall|i: int|
            0 <= i < s1.len() ==> s1[i].position == s2[i].position && s1[i].name == s2[i].name,
    ensures
        lower_bound(s1, key_hash(key)) == lower_bound(s2, key_hash(key)),
        owner_index(s1, key_hash(key)) == owner_index(s2, key_hash(key)),
        lookup_spec(s1, key) == lookup_spec(s2, key),
{
    let h = key_hash(key);
    lemma_lower_bound(s1, h);
    lemma_lower_bound(s2, h);
    let lb = lower_bound(s1, h) as int;
    assert forall|j: int| 0 <= j < lb implies s2[j].position < h by {
        assert(s1[j].position < h);
    }
    lemma_lower_bound_unique(s2, h, lb);
}

/// A walk whose cap is at least the number of nodes on the ring never stops early.
pub proof fn lemma_walk_cap_irrelevant(s: Seq<Slot>, start: int, k: nat, cap: nat)
    requires
        0 <= start < s.len(),
        k <= s.len(),
        cap >= ids(s).len(),
    ensures
        walk(s, start, k, cap) == walk(s, start, k, 0),
    decreases k,
{
    broadcast use vstd::seq_lib::seq_to_set_is_finite;
    if k > 0 {
        lemma_walk_cap_irrelevant(s, start, (k - 1) as nat, cap);
        let prev = walk(s, start, (k - 1) as nat, cap);
        lemma_walk(s, start, (k - 1) as nat, cap);
        let id = slot_id(s[rot(s.len() as int, start, k - 1)]);
        if cap > 0 && prev.len() >= cap {
            prev.unique_seq_to_set();
            assert(prev.to_set().subset_of(ids(s))) by {
                assert forall|x| prev.to_set().contains(x) implies ids(s).contains(x) by {
                    let m = choose|m: int| 0 <= m < prev.len() && prev[m] == x;
                }
            }
            let idx = rot(s.len() as int, start, k - 1);
            assert(s.map_values(|y: Slot| slot_id(y))[idx] == id);
            assert(ids(s).contains(id));
            if !prev.contains(id) {
                assert(prev.to_set().subset_of(ids(s).remove(id)));
                vstd::set_lib::lemma_len_subset(prev.to_set(), ids(s).remove(id));
            }
        }
    }
}

/// Two rings that agree slot by slot on position and name, each with one
/// serial per name, give walks with the same names.
pub proof fn lemma_walk_same_pairs(s1: Seq<Slot>, s2: Seq<Slot>, start: int, k: nat, cap: nat)
    requires
        s1.len() == s2.len(),
        forall|i: int|
            0 <= i < s1.len() ==> s1[i].position == s2[i].position && s1[i].name == s2[i].name,
        one_serial_per_name(s1),
        one_serial_per_name(s2),
        0 <= start < s1.len(),
        k <= s1.len(),
    ensures
        walk(s1, start, k, cap).len() == walk(s2, start, k, cap).len(),
        walk(s1, start, k, cap).map_values(|id: (Seq<char>, u64)| id.0) == walk(s2, start, k, cap).map_values(
            |id: (Seq<char>, u64)| id.0,
        ),
    decreases k,
{
    if k > 0 {
        lemma_walk_same_pairs(s1, s2, start, (k - 1) as nat, cap);
        lemma_walk(s1, start, (k - 1) as nat, cap);
        lemma_walk(s2, start, (k - 1) as nat, cap);
        let p1 = walk(s1, start, (k - 1) as nat, cap);
        let p2 = walk(s2, start, (k - 1) as nat, cap);
        let idx = rot(s1.len() as int, start, k - 1);
        let id1 = slot_id(s1[idx]);
        let id2 = slot_id(s2[idx]);
        let nm1 = p1.map_values(|id: (Seq<char>, u64)| id.0);
        let nm2 = p2.map_values(|id: (Seq<char>, u64)| id.0);
        assert(p1.contains(id1) <==> p2.contains(id2)) by {
            if p1.contains(id1) {
                let m = choose|m: int| 0 <= m < p1.len() && p1[m] == id1;
                assert(nm1[m] == id1.0);
                assert(nm2[m] == p2[m].0);
                assert(ids(s2).contains(p2[m]));
                let ms = s2.map_values(|y: Slot| slot_id(y));
                let j = choose|j: int| 0 <= j < ms.len() && ms[j] == p2[m];
                assert(s2[j].name == s2[idx].name);
                assert(p2[m] == id2);
            }
            if p2.contains(id2) {
                let m = choose|m: int| 0 <= m < p2.len() && p2[m] == id2;
                assert(nm2[m] == id2.0);
                assert(nm1[m] == p1[m].0);
                assert(ids(s1).contains(p1[m]));
                let ms = s1.map_values(|y: Slot| slot_id(y));
                let j = choose|j: int| 0 <= j < ms.len() && ms[j] == p1[m];
                assert(s1[j].name == s1[idx].name);
                assert(p1[m] == id1);
            }
        }
        let w1 = walk(s1, start, k, cap);
        let w2 = walk(s2, start, k, cap);
        if !((cap > 0 && p1.len() >= cap) || p1.contains(id1)) {
            assert(w1 == p1.push(id1));
            assert(w2 == p2.push(id2));
            assert(w1.map_values(|id: (Seq<char>, u64)| id.0) =~= nm1.push(id1.0));
            assert(w2.map_values(|id: (Seq<char>, u64)| id.0) =~= nm2.push(id2.0));
        }
    }
}

/// One step clockwise is one index up, wrapping around: `rot` is addition
/// modulo the ring's length.
pub proof fn rot_is_clockwise(len: int, start: int, j: int)
    requires
        0 <= start < len,
        0 <= j < len,
    ensures
        rot(len, start, j) == (start + j) % len,
        0 <= rot(len, start, j) < len,
{
    if start + j < len {
        assert((start + j) % len == start + j) by (nonlinear_arith)
            requires
                0 <= start + j < len,
        ;
    } else {
        assert((start + j) % len == start + j - len) by (nonlinear_arith)
            requires
                len <= start + j < 2 * len,
        ;
    }
}

/// The slot `j` steps clockwise from index `start`: index `(start + j) mod len`.
pub open spec fn slot_clockwise(s: Seq<Slot>, start: int, j: int) -> Slot {
    s[(start + j) % (s.len() as int)]
}

/// The identities a walk collects, in order: the `m`-th is that of the slot
/// `j` steps clockwise from `start`, for a `j` such that every slot fewer
/// steps away belongs to one of the first `m` identities.
proof fn lemma_walk_clockwise(s: Seq<Slot>, start: int, k: nat, cap: nat)
    requires
        0 <= start < s.len(),
        k <= s.len(),
    ensures
        forall|m: int|
            0 <= m < walk(s, start, k, cap).len() ==> exists|j: int|
                0 <= j < k && #[trigger] walk(s, start, k, cap)[m] == slot_id(
                    #[trigger] slot_clockwise(s, start, j),
                )
                    && forall|jj: int|
                    0 <= jj < j ==> walk(s, start, k, cap).take(m).contains(
                        slot_id(#[trigger] slot_clockwise(s, start, jj)),
                    ),
    decreases k,
{
    let len = s.len() as int;
    if k > 0 {
        let prev = walk(s, start, (k - 1) as nat, cap);
        let w = walk(s, start, k, cap);
        lemma_walk_clockwise(s, start, (k - 1) as nat, cap);
        lemma_walk(s, start, (k - 1) as nat, cap);
        let idx = rot(len, start, k - 1);
        rot_is_clockwise(len, start, k - 1);
        assert forall|m: int| 0 <= m < w.len() implies exists|j: int|
            0 <= j < k && #[trigger] w[m] == slot_id(#[trigger] slot_clockwise(s, start, j))
                && forall|jj: int|
                0 <= jj < j ==> w.take(m).contains(slot_id(#[trigger] slot_clockwise(s, start, jj))) by {
            if m < prev.len() {
                let j = choose|j: int|
                    0 <= j < k - 1 && prev[m] == slot_id(#[trigger] slot_clockwise(s, start, j))
                        && forall|jj: int|
                        0 <= jj < j ==> prev.take(m).contains(
                            slot_id(#[trigger] slot_clockwise(s, start, jj)),
                        );
                assert(w[m] == prev[m]);
                assert(w.take(m) =~= prev.take(m));
                assert(w[m] == slot_id(slot_clockwise(s, start, j)));
            } else {
                assert(w == prev.push(slot_id(s[idx])));
                assert(m == prev.len());
                assert(w.take(m) =~= prev);
                assert forall|jj: int| 0 <= jj < k - 1 implies w.take(m).contains(
                    slot_id(#[trigger] slot_clockwise(s, start, jj)),
                ) by {
                    rot_is_clockwise(len, start, jj);
                    assert(prev.contains(slot_id(s[rot(len, start, jj)])));
                }
                assert(w[m] == slot_id(slot_clockwise(s, start, k - 1)));
            }
        }
    }
}

/// Replicas walk clockwise from the key's owner: the `m`-th replica is the
/// name of the slot `j` steps clockwise from the owner's slot (index
/// `(owner + j) mod len`), and every slot fewer steps away belongs to one
/// of the first `m` replicas.
pub proof fn replicas_walk_clockwise(v: RingView, key: Seq<char>, count: nat, m: int)
    requires
        0 <= m < replicas_spec(v, key, count).len(),
    ensures
        exists|j: int|
            0 <= j < v.slots.len() && replicas_spec(v, key, count)[m] == (#[trigger] slot_clockwise(
                v.slots,
                owner_index(v.slots, key_hash(key)),
                j,
            )).name && forall|jj: int|
                0 <= jj < j ==> replicas_spec(v, key, count).take(m).contains(
                    (#[trigger] slot_clockwise(v.slots, owner_index(v.slots, key_hash(key)), jj)).name,
                ),
{
    let s = v.slots;
    let len = s.len() as int;
    let start = owner_index(s, key_hash(key));
    lemma_lower_bound(s, key_hash(key));
    let cap = if count < v.node_count { count } else { v.node_count };
    let w = walk(s, start, s.len(), cap);
    let r = replicas_spec(v, key, count);
    lemma_walk_clockwise(s, start, s.len(), cap);
    assert(r == w.map_values(|id: (Seq<char>, u64)| id.0));
    assert(0 <= m < w.len());
    let j = choose|j: int|
        0 <= j < len && #[trigger] w[m] == slot_id(#[trigger] slot_clockwise(s, start, j))
            && forall|jj: int|
            0 <= jj < j ==> w.take(m).contains(slot_id(#[trigger] slot_clockwise(s, start, jj)));
    assert(r[m] == w[m].0);
    assert forall|jj: int| 0 <= jj < j implies r.take(m).contains(
        (#[trigger] slot_clockwise(s, start, jj)).name,
    ) by {
        assert(w.take(m).contains(slot_id(slot_clockwise(s, start, jj))));
        let q = choose|q: int| 0 <= q < m && w.take(m)[q] == slot_id(slot_clockwise(s, start, jj));
        assert(r.take(m)[q] == w[q].0);
    }
    assert(r[m] == slot_clockwise(s, start, j).name);
}
/// A key is owned by the first slot at or after the XXH3-64 hash of the
/// key's complete UTF-8 encoding, wrapping around to the first slot when
/// every position is below it; a ring without slots owns nothing.
pub proof fn lookup_is_first_slot_clockwise(s: Seq<Slot>, key: Seq<char>)
    ensures
        s.len() == 0 ==> lookup_spec(s, key) is None,
        s.len() > 0 ==> exists|i: int|
            0 <= i < s.len() && lookup_spec(s, key) == Some(s[i].name) && (forall|j: int|
                0 <= j < i ==> (#[trigger] s[j]).position < xxh3_64_of(encode_utf8(key))) && (
            s[i].position >= xxh3_64_of(encode_utf8(key)) || (i == 0 && forall|j: int|
                0 <= j < s.len() ==> (#[trigger] s[j]).position < xxh3_64_of(encode_utf8(key)))),
{
    let h = xxh3_64_of(encode_utf8(key));
    lemma_lower_bound(s, h);
    if s.len() > 0 {
        let i = owner_index(s, h);
        assert(lookup_spec(s, key) == Some(s[i].name));
    }
}

} // verus!
