//! A consistent hash ring with per-node metadata.

use vstd::prelude::*;
use crate::ring::{
    added, without_name, lookup_spec, opt_view, removed, replicas_spec, node_slots, Ring, RingView, Slot,
};
use crate::ring_laws::{
    count_named, lemma_count_insert_all, lemma_count_node_slots, lemma_count_without,
    lemma_count_zero, lemma_insert_all_from, lemma_pair_insert_all, lemma_pair_node_slots,
    lemma_pair_without, lemma_pair_zero, one_serial_per_name, pair_count,
};

verus! {

/// A registered node and the metadata stored with it.
pub struct NodeMetadata<I> {
    pub name: String,
    pub weight: u32,
    pub hostname: Option<String>,
    pub port: Option<u32>,
    pub instance: Option<I>,
}

/// A registered node, as the specifications see it.
pub struct NodeView<I> {
    pub name: Seq<char>,
    pub weight: u32,
    pub hostname: Option<Seq<char>>,
    pub port: Option<u32>,
    pub instance: Option<I>,
}

impl<I> View for NodeMetadata<I> {
    type V = NodeView<I>;

    open spec fn view(&self) -> NodeView<I> {
        NodeView {
            name: self.name@,
            weight: self.weight,
            hostname: opt_view(self.hostname),
            port: self.port,
            instance: self.instance,
        }
    }
}

/// The abstract state of a [`HashRing`]: its registered nodes, in the order
/// they were added, and the ring of their positions.
pub struct HashRingView<I> {
    pub nodes: Seq<NodeView<I>>,
    pub ring: RingView,
}

/// No two nodes share a name.
pub open spec fn names_distinct<I>(nodes: Seq<NodeView<I>>) -> bool {
    forall|i: int, j: int|
        0 <= i < nodes.len() && 0 <= j < nodes.len() && i != j ==> nodes[i].name != nodes[j].name
}

/// A node named `name` is registered.
pub open spec fn has_node<I>(nodes: Seq<NodeView<I>>, name: Seq<char>) -> bool {
    exists|i: int| 0 <= i < nodes.len() && nodes[i].name == name
}

/// The index of the registered node named `name` (meaningful when `has_node`).
pub open spec fn index_named<I>(nodes: Seq<NodeView<I>>, name: Seq<char>) -> int {
    choose|i: int| 0 <= i < nodes.len() && nodes[i].name == name
}

/// The registered node named `name` (meaningful when `has_node`).
pub open spec fn node_named<I>(nodes: Seq<NodeView<I>>, name: Seq<char>) -> NodeView<I> {
    nodes[index_named(nodes, name)]
}

impl<I> HashRingView<I> {
    /// Node names are unique, every ring position belongs to a registered
    /// node (each name with one serial), a node of weight `w` owns exactly
    /// `virtual_nodes * w` positions, namely those of its virtual indexes
    /// `0 .. virtual_nodes * w`, and the ring counts at least as many nodes
    /// as are registered.
    pub open spec fn wf(self) -> bool {
        &&& self.ring.wf()
        &&& names_distinct(self.nodes)
        &&& self.ring.node_count >= self.nodes.len()
        &&& forall|j: int|
            0 <= j < self.ring.slots.len() ==> has_node(self.nodes, #[trigger] self.ring.slots[j].name)
        &&& one_serial_per_name(self.ring.slots)
        &&& forall|k: int|
            0 <= k < self.nodes.len() ==> count_named(self.ring.slots, #[trigger] self.nodes[k].name)
                == self.ring.virtual_nodes * self.nodes[k].weight
        &&& forall|k: int, p: u64|
            0 <= k < self.nodes.len() ==> #[trigger] pair_count(self.ring.slots, p, self.nodes[k].name)
                == pair_count(
                node_slots(self.nodes[k].name, 0, (self.ring.virtual_nodes * self.nodes[k].weight) as nat),
                p,
                self.nodes[k].name,
            )
    }
}

/// The state after `add_node` of `node`: unchanged if the name is taken.
pub open spec fn with_node<I>(v: HashRingView<I>, node: NodeView<I>) -> HashRingView<I> {
    if has_node(v.nodes, node.name) {
        v
    } else {
        HashRingView { nodes: v.nodes.push(node), ring: added(v.ring, node.name, node.weight) }
    }
}

/// The state after `remove_node(name)`: unchanged if no such node.
pub open spec fn without_node<I>(v: HashRingView<I>, name: Seq<char>) -> HashRingView<I> {
    if has_node(v.nodes, name) {
        HashRingView { nodes: v.nodes.remove(index_named(v.nodes, name)), ring: removed(v.ring, name) }
    } else {
        v
    }
}

/// The state after adding each node of `state` in order.
pub open spec fn with_nodes<I>(v: HashRingView<I>, state: Seq<NodeView<I>>) -> HashRingView<I>
    decreases state.len(),
{
    if state.len() == 0 {
        v
    } else {
        with_node(with_nodes(v, state.drop_last()), state.last())
    }
}

/// Each node of `state` that `with_nodes` actually adds fits the machine
/// limits at the point where it is added: its positions are counted in a
/// `u32`, and the ring's node count stays below `usize::MAX`.
pub open spec fn can_restore<I>(v: HashRingView<I>, state: Seq<NodeView<I>>) -> bool {
    forall|i: int|
        0 <= i < state.len() ==> {
            let before = #[trigger] with_nodes(v, state.take(i));
            !has_node(before.nodes, state[i].name) ==> before.ring.virtual_nodes * state[i].weight
                <= u32::MAX && before.ring.node_count < usize::MAX
        }
}

/// A consistent hash ring.
///
/// Nodes are added with optional weights and metadata, and keys are
/// deterministically mapped to a node by hashing. `I` is the type of the
/// arbitrary object that may be attached to a node.
pub struct HashRing<I> {
    inner: Ring,
    nodes: Vec<NodeMetadata<I>>,
}

impl<I> View for HashRing<I> {
    type V = HashRingView<I>;

    closed spec fn view(&self) -> HashRingView<I> {
        HashRingView { nodes: self.nodes@.map_values(|m: NodeMetadata<I>| m@), ring: self.inner@ }
    }
}

impl<I> HashRing<I> {
    /// A ring with no nodes and `virtual_nodes` positions per unit of weight.
    pub fn new(virtual_nodes: u32) -> (r: Self)
        ensures
            r@.nodes == Seq::<NodeView<I>>::empty(),
            r@.ring == (RingView {
                slots: Seq::empty(),
                virtual_nodes,
                node_count: 0,
                next_serial: 0,
            }),
            r@.wf(),
    {
        let r = HashRing { inner: Ring::new(virtual_nodes), nodes: Vec::new() };
        proof {
            assert(r@.nodes =~= Seq::<NodeView<I>>::empty());
        }
        r
    }

    /// Index of the node named `name`, if any.
    fn find(&self, name: &str) -> (r: Option<usize>)
        requires
            names_distinct(self@.nodes),
        ensures
            match r {
                Some(i) => i < self@.nodes.len() && self@.nodes[i as int].name == name@
                    && has_node(self@.nodes, name@) && index_named(self@.nodes, name@) == i,
                None => !has_node(self@.nodes, name@),
            },
    {
        let target: String = name.to_owned();
        let mut i: usize = 0;
        while i < self.nodes.len()
            invariant
                0 <= i <= self@.nodes.len(),
                self@.nodes.len() == self.nodes@.len(),
                target@ == name@,
                names_distinct(self@.nodes),
                forall|j: int| 0 <= j < i ==> self@.nodes[j].name != name@,
            decreases self@.nodes.len() - i,
        {
            assert(self@.nodes[i as int].name == self.nodes@[i as int].name@);
            if self.nodes[i].name == target {
                proof {
                    assert(self@.nodes[i as int].name == name@);
                    let c = choose|c: int| 0 <= c < self@.nodes.len() && self@.nodes[c].name == name@;
                    assert(c == i);
                }
                return Some(i);
            }
            i = i + 1;
        }
        None
    }


    /// Adds a node. Adding a node that is already present is a no-op.
    /// A larger `weight` gives the node a proportionally larger share of
    /// the ring; `hostname`, `port` and `instance` are stored with it.
    pub fn add_node(
        &mut self,
        name: &str,
        weight: u32,
        hostname: Option<String>,
        port: Option<u32>,
        instance: Option<I>,
    )
        requires
            old(self)@.wf(),
            !has_node(old(self)@.nodes, name@) ==> old(self)@.ring.virtual_nodes * weight <= u32::MAX
                && old(self)@.ring.node_count < usize::MAX,
        ensures
            final(self)@ == with_node(
                old(self)@,
                NodeView { name: name@, weight, hostname: opt_view(hostname), port, instance },
            ),
            final(self)@.wf(),
    {
        if self.find(name).is_some() {
            return;
        }
        let ghost old_v = self@;
        let meta = NodeMetadata { name: name.to_owned(), weight, hostname, port, instance };
        self.nodes.push(meta);
        self.inner.add_positions(name, weight);
        proof {
            let v = self@;
            let s = old_v.ring.slots;
            let es = node_slots(name@, old_v.ring.next_serial, (old_v.ring.virtual_nodes * weight) as nat);
            assert(v.nodes =~= old_v.nodes.push(meta@));
            lemma_insert_all_from(s, es);
            lemma_count_zero(s, name@);
            assert(count_named(s, name@) == 0) by {
                assert forall|i: int| 0 <= i < s.len() implies s[i].name != name@ by {
                    assert(has_node(old_v.nodes, s[i].name));
                }
            }
            assert forall|j: int| 0 <= j < v.ring.slots.len() implies has_node(
                v.nodes,
                #[trigger] v.ring.slots[j].name,
            ) by {
                let x = v.ring.slots[j];
                if s.contains(x) {
                    let i = choose|i: int| 0 <= i < s.len() && s[i] == x;
                    assert(has_node(old_v.nodes, s[i].name));
                    let k = choose|k: int| 0 <= k < old_v.nodes.len() && old_v.nodes[k].name == s[i].name;
                    assert(v.nodes[k] == old_v.nodes[k]);
                } else {
                    let i = choose|i: int| 0 <= i < es.len() && es[i] == x;
                    assert(v.nodes[old_v.nodes.len() as int].name == name@);
                }
            }
            assert forall|a: int, b: int|
                0 <= a < v.ring.slots.len() && 0 <= b < v.ring.slots.len()
                    && v.ring.slots[a].name == v.ring.slots[b].name implies v.ring.slots[a].serial
                == v.ring.slots[b].serial by {
                let xa = v.ring.slots[a];
                let xb = v.ring.slots[b];
                if s.contains(xa) {
                    let i = choose|i: int| 0 <= i < s.len() && s[i] == xa;
                    assert(has_node(old_v.nodes, s[i].name));
                }
                if s.contains(xb) {
                    let i = choose|i: int| 0 <= i < s.len() && s[i] == xb;
                    assert(has_node(old_v.nodes, s[i].name));
                }
                if s.contains(xa) && s.contains(xb) {
                    let i = choose|i: int| 0 <= i < s.len() && s[i] == xa;
                    let j = choose|j: int| 0 <= j < s.len() && s[j] == xb;
                    assert(s[i].serial == s[j].serial);
                } else if !s.contains(xa) && !s.contains(xb) {
                    let i = choose|i: int| 0 <= i < es.len() && es[i] == xa;
                    let j = choose|j: int| 0 <= j < es.len() && es[j] == xb;
                } else if !s.contains(xa) {
                    let i = choose|i: int| 0 <= i < es.len() && es[i] == xa;
                } else {
                    let j = choose|j: int| 0 <= j < es.len() && es[j] == xb;
                }
            }
            assert forall|k: int| 0 <= k < v.nodes.len() implies count_named(
                v.ring.slots,
                #[trigger] v.nodes[k].name,
            ) == v.ring.virtual_nodes * v.nodes[k].weight by {
                let n = v.nodes[k].name;
                lemma_count_insert_all(s, es, n);
                lemma_count_node_slots(name@, old_v.ring.next_serial, (old_v.ring.virtual_nodes * weight) as nat, n);
                if k < old_v.nodes.len() {
                    assert(v.nodes[k] == old_v.nodes[k]);
                    assert(n != name@);
                }
            }
            assert forall|k: int, p: u64| 0 <= k < v.nodes.len() implies #[trigger] pair_count(
                v.ring.slots,
                p,
                v.nodes[k].name,
            ) == pair_count(
                node_slots(v.nodes[k].name, 0, (v.ring.virtual_nodes * v.nodes[k].weight) as nat),
                p,
                v.nodes[k].name,
            ) by {
                let n = v.nodes[k].name;
                lemma_pair_insert_all(s, es, p, n);
                lemma_pair_node_slots(name@, old_v.ring.next_serial, (old_v.ring.virtual_nodes * weight) as nat, p, n);
                if k < old_v.nodes.len() {
                    assert(v.nodes[k] == old_v.nodes[k]);
                    assert(n != name@);
                    assert(pair_count(s, p, old_v.nodes[k].name) == pair_count(
                        node_slots(old_v.nodes[k].name, 0, (old_v.ring.virtual_nodes * old_v.nodes[k].weight) as nat),
                        p,
                        old_v.nodes[k].name,
                    ));
                } else {
                    lemma_pair_zero(s, p, name@);
                }
            }
            assert forall|a: int, b: int|
                0 <= a < v.nodes.len() && 0 <= b < v.nodes.len() && a != b implies v.nodes[a].name
                != v.nodes[b].name by {
                if a < old_v.nodes.len() {
                    assert(v.nodes[a] == old_v.nodes[a]);
                }
                if b < old_v.nodes.len() {
                    assert(v.nodes[b] == old_v.nodes[b]);
                }
            }
        }
    }


    /// Removes the node named `name`; no-op if it is not registered.
    pub fn remove_node(&mut self, name: &str)
        requires
            old(self)@.wf(),
        ensures
            final(self)@ == without_node(old(self)@, name@),
            final(self)@.wf(),
    {
        match self.find(name) {
            None => {},
            Some(idx) => {
                let ghost old_v = self@;
                let _gone = self.nodes.remove(idx);
                self.inner.remove_positions(name);
                proof {
                    let v = self@;
                    let s = old_v.ring.slots;
                    let keep = |x: Slot| x.name != name@;
                    assert(v.nodes =~= old_v.nodes.remove(idx as int));
                    assert(v.ring.slots == without_name(s, name@));
                    assert forall|j: int| 0 <= j < v.ring.slots.len() implies has_node(
                        v.nodes,
                        #[trigger] v.ring.slots[j].name,
                    ) by {
                        let x = v.ring.slots[j];
                        assert(s.filter(keep).contains(x));
                        s.lemma_filter_contains_rev(keep, x);
                        s.lemma_filter_pred(keep, j);
                        let i = choose|i: int| 0 <= i < s.len() && s[i] == x;
                        assert(has_node(old_v.nodes, s[i].name));
                        let k = choose|k: int| 0 <= k < old_v.nodes.len() && old_v.nodes[k].name == s[i].name;
                        assert(k != idx);
                        if k < idx {
                            assert(v.nodes[k] == old_v.nodes[k]);
                        } else {
                            assert(v.nodes[k - 1] == old_v.nodes[k]);
                        }
                    }
                    assert forall|a: int, b: int|
                        0 <= a < v.ring.slots.len() && 0 <= b < v.ring.slots.len()
                            && v.ring.slots[a].name == v.ring.slots[b].name implies v.ring.slots[a].serial
                        == v.ring.slots[b].serial by {
                        let xa = v.ring.slots[a];
                        let xb = v.ring.slots[b];
                        assert(s.filter(keep).contains(xa));
                        assert(s.filter(keep).contains(xb));
                        s.lemma_filter_contains_rev(keep, xa);
                        s.lemma_filter_contains_rev(keep, xb);
                        let i = choose|i: int| 0 <= i < s.len() && s[i] == xa;
                        let j = choose|j: int| 0 <= j < s.len() && s[j] == xb;
                    }
                    assert forall|k: int| 0 <= k < v.nodes.len() implies count_named(
                        v.ring.slots,
                        #[trigger] v.nodes[k].name,
                    ) == v.ring.virtual_nodes * v.nodes[k].weight by {
                        let n = v.nodes[k].name;
                        lemma_count_without(s, name@, n);
                        if k < idx {
                            assert(v.nodes[k] == old_v.nodes[k]);
                            assert(n != name@);
                        } else {
                            assert(v.nodes[k] == old_v.nodes[k + 1]);
                            assert(n != name@);
                        }
                    }
                    assert forall|k: int, p: u64| 0 <= k < v.nodes.len() implies #[trigger] pair_count(
                        v.ring.slots,
                        p,
                        v.nodes[k].name,
                    ) == pair_count(
                        node_slots(v.nodes[k].name, 0, (v.ring.virtual_nodes * v.nodes[k].weight) as nat),
                        p,
                        v.nodes[k].name,
                    ) by {
                        let ok = if k < idx { k } else { k + 1 };
                        assert(v.nodes[k] == old_v.nodes[ok]);
                        let n = v.nodes[k].name;
                        assert(n != name@);
                        lemma_pair_without(s, name@, p, n);
                        assert(pair_count(s, p, old_v.nodes[ok].name) == pair_count(
                            node_slots(old_v.nodes[ok].name, 0, (old_v.ring.virtual_nodes * old_v.nodes[ok].weight) as nat),
                            p,
                            old_v.nodes[ok].name,
                        ));
                    }
                    assert forall|a: int, b: int|
                        0 <= a < v.nodes.len() && 0 <= b < v.nodes.len() && a != b implies v.nodes[a].name
                        != v.nodes[b].name by {
                        let oa = if a < idx { a } else { a + 1 };
                        let ob = if b < idx { b } else { b + 1 };
                        assert(v.nodes[a] == old_v.nodes[oa]);
                        assert(v.nodes[b] == old_v.nodes[ob]);
                    }
                }
            },
        }
    }


    /// The node responsible for `key`, or `None` if the ring is empty.
    pub fn get_node(&self, key: &str) -> (r: Option<String>)
        requires
            self@.wf(),
        ensures
            opt_view(r) == lookup_spec(self@.ring.slots, key@),
    {
        self.inner.lookup(key)
    }

    /// `get_node` for each key, in the order of `keys`.
    pub fn get_node_batch(&self, keys: Vec<String>) -> (r: Vec<Option<String>>)
        requires
            self@.wf(),
        ensures
            r.len() == keys.len(),
            forall|i: int|
                0 <= i < keys.len() ==> opt_view(#[trigger] r@[i]) == lookup_spec(
                    self@.ring.slots,
                    keys@[i]@,
                ),
    {
        let mut out: Vec<Option<String>> = Vec::new();
        let mut i: usize = 0;
        while i < keys.len()
            invariant
                self@.wf(),
                0 <= i <= keys.len(),
                out.len() == i,
                forall|j: int|
                    0 <= j < i ==> opt_view(#[trigger] out@[j]) == lookup_spec(
                        self@.ring.slots,
                        keys@[j]@,
                    ),
            decreases keys.len() - i,
        {
            let owner = self.inner.lookup(keys[i].as_str());
            out.push(owner);
            i = i + 1;
        }
        out
    }

    /// Up to `count` distinct nodes responsible for `key`: the owner first
    /// (the same as `get_node`), then the others met walking clockwise.
    pub fn get_replicas(&self, key: &str, count: usize) -> (r: Vec<String>)
        requires
            self@.wf(),
        ensures
            r@.map_values(|x: String| x@) == replicas_spec(self@.ring, key@, count as nat),
    {
        self.inner.replicas(key, count)
    }

    /// The weight of the node named `name`, or `None` if it is not registered.
    pub fn get_node_weight(&self, name: &str) -> (r: Option<u32>)
        requires
            self@.wf(),
        ensures
            r == (if has_node(self@.nodes, name@) {
                Some(node_named(self@.nodes, name@).weight)
            } else {
                None
            }),
    {
        match self.find(name) {
            Some(i) => Some(self.nodes[i].weight),
            None => None,
        }
    }

    /// The hostname of the node named `name`; `None` if it is not set or the
    /// node is not registered.
    pub fn get_node_hostname(&self, name: &str) -> (r: Option<String>)
        requires
            self@.wf(),
        ensures
            opt_view(r) == (if has_node(self@.nodes, name@) {
                node_named(self@.nodes, name@).hostname
            } else {
                None
            }),
    {
        match self.find(name) {
            Some(i) => match &self.nodes[i].hostname {
                Some(h) => Some(h.clone()),
                None => None,
            },
            None => None,
        }
    }

    /// The port of the node named `name`; `None` if it is not set or the
    /// node is not registered.
    pub fn get_node_port(&self, name: &str) -> (r: Option<u32>)
        requires
            self@.wf(),
        ensures
            r == (if has_node(self@.nodes, name@) {
                node_named(self@.nodes, name@).port
            } else {
                None
            }),
    {
        match self.find(name) {
            Some(i) => self.nodes[i].port,
            None => None,
        }
    }

    /// The object attached to the node named `name`; `None` if none is
    /// attached or the node is not registered.
    pub fn get_node_instance(&self, name: &str) -> (r: Option<&I>)
        requires
            self@.wf(),
        ensures
            match r {
                Some(x) => has_node(self@.nodes, name@) && node_named(self@.nodes, name@).instance
                    == Some(*x),
                None => !has_node(self@.nodes, name@) || node_named(self@.nodes, name@).instance
                    is None,
            },
    {
        match self.find(name) {
            Some(i) => match &self.nodes[i].instance {
                Some(x) => Some(x),
                None => None,
            },
            None => None,
        }
    }

    /// The names of the registered nodes.
    pub fn names(&self) -> (r: Vec<String>)
        ensures
            r@.map_values(|x: String| x@) == self@.nodes.map_values(|n: NodeView<I>| n.name),
    {
        let mut out: Vec<String> = Vec::new();
        let mut i: usize = 0;
        while i < self.nodes.len()
            invariant
                0 <= i <= self.nodes.len(),
                self@.nodes.len() == self.nodes.len(),
                out.len() == i,
                forall|j: int| 0 <= j < i ==> (#[trigger] out@[j])@ == self@.nodes[j].name,
            decreases self.nodes.len() - i,
        {
            out.push(self.nodes[i].name.clone());
            proof {
                assert(self@.nodes[i as int].name == self.nodes@[i as int].name@);
            }
            i = i + 1;
        }
        proof {
            assert(out@.map_values(|x: String| x@) =~= self@.nodes.map_values(|n: NodeView<I>| n.name));
        }
        out
    }

    /// The registered nodes with their metadata.
    pub fn nodes(&self) -> (r: &Vec<NodeMetadata<I>>)
        ensures
            r@.map_values(|m: NodeMetadata<I>| m@) == self@.nodes,
    {
        &self.nodes
    }

    /// Virtual positions per unit of weight.
    pub fn virtual_nodes(&self) -> (n: u32)
        ensures
            n == self@.ring.virtual_nodes,
    {
        self.inner.virtual_nodes()
    }

    /// The ring of positions.
    pub fn ring(&self) -> (r: &Ring)
        ensures
            r@ == self@.ring,
    {
        &self.inner
    }


    /// Adds each node of `state` in order, as `add_node` does (restoring a
    /// pickled ring).
    pub fn set_state(&mut self, state: Vec<NodeMetadata<I>>)
        requires
            old(self)@.wf(),
            can_restore(old(self)@, state@.map_values(|m: NodeMetadata<I>| m@)),
        ensures
            final(self)@ == with_nodes(old(self)@, state@.map_values(|m: NodeMetadata<I>| m@)),
            final(self)@.wf(),
    {
        let ghost st = state@.map_values(|m: NodeMetadata<I>| m@);
        let ghost v0 = self@;
        let ghost n = state.len();
        proof {
            assert(st.take(0) =~= Seq::<NodeView<I>>::empty());
        }
        for node in it: state.into_iter()
            invariant
                self@.wf(),
                n == st.len(),
                it.seq() == state@,
                st == state@.map_values(|m: NodeMetadata<I>| m@),
                self@ == with_nodes(v0, st.take(it.index() as int)),
                can_restore(v0, st),
        {
            let ghost k = it.index();
            assert(node == state@[k as int]);
            assert(st[k as int] == node@);
            self.add_node(node.name.as_str(), node.weight, node.hostname, node.port, node.instance);
            proof {
                assert(st.take(k + 1).drop_last() =~= st.take(k as int));
                assert(st.take(k + 1).last() == st[k as int]);
            }
        }
        proof {
            assert(st.take(n as int) =~= st);
        }
    }

    /// Whether a node named `name` is registered.
    pub fn contains(&self, name: &str) -> (b: bool)
        requires
            self@.wf(),
        ensures
            b == has_node(self@.nodes, name@),
    {
        self.find(name).is_some()
    }

    /// Number of registered nodes.
    pub fn len(&self) -> (n: usize)
        ensures
            n == self@.nodes.len(),
    {
        self.nodes.len()
    }
}

} // verus!
