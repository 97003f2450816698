//! The position-only ring index: sorted virtual-node positions and lookup.

use std::collections::VecDeque;
use vstd::prelude::*;
use crate::hashing::{hash_str, key_hash, vnode_position, VnodeHasher};

verus! {

/// Virtual positions per unit of weight when none is given.
pub const DEFAULT_VIRTUAL_NODES: u32 = 128;

/// One virtual position on the ring, as the specifications see it.
///
/// `serial` tells apart the nodes added by different calls of
/// `add_positions`, even when they carry the same name.
pub struct Slot {
    pub position: u64,
    pub name: Seq<char>,
    pub serial: u64,
}

/// The identity of the node that owns a slot.
pub open spec fn slot_id(s: Slot) -> (Seq<char>, u64) {
    (s.name, s.serial)
}

/// The abstract state of a [`Ring`].
pub struct RingView {
    /// The virtual positions in ring order.
    pub slots: Seq<Slot>,
    /// Virtual positions per unit of weight.
    pub virtual_nodes: u32,
    /// Number of `add_positions` calls minus the removals that removed something.
    pub node_count: nat,
    /// The serial the next added node receives.
    pub next_serial: u64,
}

/// `s` is ordered by position.
pub open spec fn sorted(s: Seq<Slot>) -> bool {
    forall|i: int, j: int| 0 <= i <= j < s.len() ==> s[i].position <= s[j].position
}

/// The distinct node identities that own a slot of `s`.
pub open spec fn ids(s: Seq<Slot>) -> Set<(Seq<char>, u64)> {
    s.map_values(|x: Slot| slot_id(x)).to_set()
}

impl RingView {
    /// The ring is ordered, and every node identity that owns a slot was
    /// counted by `node_count`.
    pub open spec fn wf(self) -> bool {
        &&& sorted(self.slots)
        &&& ids(self.slots).len() <= self.node_count
    }
}

/// Index of the first slot whose position is at least `h` (`s.len()` if none).
pub open spec fn lower_bound(s: Seq<Slot>, h: u64) -> nat
    decreases s.len(),
{
    if s.len() == 0 {
        0
    } else if s[0].position >= h {
        0
    } else {
        1 + lower_bound(s.drop_first(), h)
    }
}

/// Index of the first slot whose position is greater than `p` (`s.len()` if none).
pub open spec fn upper_bound(s: Seq<Slot>, p: u64) -> nat
    decreases s.len(),
{
    if s.len() == 0 {
        0
    } else if s[0].position > p {
        0
    } else {
        1 + upper_bound(s.drop_first(), p)
    }
}

/// The index of the slot that owns hash `h`: the first slot clockwise from
/// `h`, wrapping around to the first slot of the ring.
pub open spec fn owner_index(s: Seq<Slot>, h: u64) -> int {
    if lower_bound(s, h) < s.len() {
        lower_bound(s, h) as int
    } else {
        0
    }
}

/// The name of the node that owns `key`, or `None` on an empty ring.
pub open spec fn lookup_spec(s: Seq<Slot>, key: Seq<char>) -> Option<Seq<char>> {
    if s.len() == 0 {
        None
    } else {
        Some(s[owner_index(s, key_hash(key))].name)
    }
}

/// `s` with `e` placed after every slot whose position is not greater than its own.
pub open spec fn insert_slot(s: Seq<Slot>, e: Slot) -> Seq<Slot> {
    s.insert(upper_bound(s, e.position) as int, e)
}

/// `s` with each slot of `es` placed in turn by [`insert_slot`].
pub open spec fn insert_all(s: Seq<Slot>, es: Seq<Slot>) -> Seq<Slot>
    decreases es.len(),
{
    if es.len() == 0 {
        s
    } else {
        insert_slot(insert_all(s, es.drop_last()), es.last())
    }
}

/// The two rings `a` and `b` interleaved in position order; on equal
/// positions the slots of `a` come first.
pub open spec fn merge(a: Seq<Slot>, b: Seq<Slot>) -> Seq<Slot>
    decreases a.len() + b.len(),
{
    if a.len() == 0 {
        b
    } else if b.len() == 0 {
        a
    } else if a[0].position <= b[0].position {
        seq![a[0]] + merge(a.drop_first(), b)
    } else {
        seq![b[0]] + merge(a, b.drop_first())
    }
}

/// The `n` slots of a node named `name` with serial `serial`, in the order of
/// their virtual index.
pub open spec fn node_slots(name: Seq<char>, serial: u64, n: nat) -> Seq<Slot> {
    Seq::new(n, |i: int| Slot { position: vnode_position(name, i as u32), name, serial })
}

/// The serial after `s`.
pub open spec fn serial_after(s: u64) -> u64 {
    if s < u64::MAX { (s + 1) as u64 } else { 0 }
}

/// The slots that remain when the node `name` leaves.
pub open spec fn without_name(s: Seq<Slot>, name: Seq<char>) -> Seq<Slot> {
    s.filter(|x: Slot| x.name != name)
}

/// Ring state after `add_positions(name, weight)`.
pub open spec fn added(v: RingView, name: Seq<char>, weight: u32) -> RingView {
    RingView {
        slots: insert_all(v.slots, node_slots(name, v.next_serial, (v.virtual_nodes * weight) as nat)),
        virtual_nodes: v.virtual_nodes,
        node_count: v.node_count + 1,
        next_serial: serial_after(v.next_serial),
    }
}

/// Ring state after `remove_positions(name)`.
pub open spec fn removed(v: RingView, name: Seq<char>) -> RingView {
    let rest = without_name(v.slots, name);
    RingView {
        slots: rest,
        virtual_nodes: v.virtual_nodes,
        node_count: if rest.len() < v.slots.len() { (v.node_count - 1) as nat } else { v.node_count },
        next_serial: v.next_serial,
    }
}

/// The index reached `j` steps clockwise from `start` on a ring of `len` slots
/// (for `0 <= start < len` and `0 <= j < len`).
pub open spec fn rot(len: int, start: int, j: int) -> int {
    if start + j < len { start + j } else { start + j - len }
}

/// The distinct node identities met in the first `k` steps clockwise from
/// `start`, in the order met, stopping once `cap` of them are collected
/// (`cap == 0` never stops).
pub open spec fn walk(s: Seq<Slot>, start: int, k: nat, cap: nat) -> Seq<(Seq<char>, u64)>
    decreases k,
{
    if k == 0 {
        Seq::empty()
    } else {
        let prev = walk(s, start, (k - 1) as nat, cap);
        let id = slot_id(s[rot(s.len() as int, start, k - 1)]);
        if (cap > 0 && prev.len() >= cap) || prev.contains(id) {
            prev
        } else {
            prev.push(id)
        }
    }
}

/// The names returned by `replicas(key, count)`.
pub open spec fn replicas_spec(v: RingView, key: Seq<char>, count: nat) -> Seq<Seq<char>> {
    if v.slots.len() == 0 || count == 0 {
        Seq::empty()
    } else {
        let cap = if count < v.node_count { count } else { v.node_count };
        walk(v.slots, owner_index(v.slots, key_hash(key)), v.slots.len(), cap).map_values(
            |id: (Seq<char>, u64)| id.0,
        )
    }
}

/// An optional string, as an optional sequence of characters.
pub open spec fn opt_view(o: Option<String>) -> Option<Seq<char>> {
    match o {
        Some(s) => Some(s@),
        None => None,
    }
}

/// One virtual position on the ring.
struct VNode {
    position: u64,
    name: String,
    serial: u64,
}

impl VNode {
    spec fn slot(self) -> Slot {
        Slot { position: self.position, name: self.name@, serial: self.serial }
    }
}

spec fn slots_of(v: Seq<VNode>) -> Seq<Slot> {
    v.map_values(|x: VNode| x.slot())
}

/// Position-only ring index.
///
/// Holds the sorted virtual-node positions and the lookup machinery, but
/// not node attributes (weight, hostname, ...), which the owning
/// `HashRing` keeps.
pub struct Ring {
    positions: VecDeque<VNode>,
    virtual_nodes: u32,
    node_count: usize,
    next_serial: u64,
}

impl View for Ring {
    type V = RingView;

    closed spec fn view(&self) -> RingView {
        RingView {
            slots: slots_of(self.positions@),
            virtual_nodes: self.virtual_nodes,
            node_count: self.node_count as nat,
            next_serial: self.next_serial,
        }
    }
}

/// Every index before `lower_bound(s, h)` holds a position below `h`, and
/// the slot at it, if any, is at least `h`.
pub proof fn lemma_lower_bound(s: Seq<Slot>, h: u64)
    ensures
        lower_bound(s, h) <= s.len(),
        forall|j: int| 0 <= j < lower_bound(s, h) ==> s[j].position < h,
        lower_bound(s, h) < s.len() ==> s[lower_bound(s, h) as int].position >= h,
    decreases s.len(),
{
    if s.len() > 0 && s[0].position < h {
        lemma_lower_bound(s.drop_first(), h);
        assert forall|j: int| 0 <= j < lower_bound(s, h) implies s[j].position < h by {
            if j > 0 {
                assert(s[j] == s.drop_first()[j - 1]);
            }
        }
    }
}

/// The first index whose slot is at least `h` is `lower_bound(s, h)`.
pub proof fn lemma_lower_bound_unique(s: Seq<Slot>, h: u64, i: int)
    requires
        0 <= i <= s.len(),
        forall|j: int| 0 <= j < i ==> s[j].position < h,
        i < s.len() ==> s[i].position >= h,
    ensures
        i == lower_bound(s, h),
{
    lemma_lower_bound(s, h);
    let lb = lower_bound(s, h) as int;
    if i < lb {
        assert(s[i].position < h);
    } else if lb < i {
        assert(s[lb].position < h);
    }
}

/// Every index before `upper_bound(s, p)` holds a position not above `p`,
/// and the slot at it, if any, is above `p`.
pub proof fn lemma_upper_bound(s: Seq<Slot>, p: u64)
    ensures
        upper_bound(s, p) <= s.len(),
        forall|j: int| 0 <= j < upper_bound(s, p) ==> s[j].position <= p,
        upper_bound(s, p) < s.len() ==> s[upper_bound(s, p) as int].position > p,
    decreases s.len(),
{
    if s.len() > 0 && s[0].position <= p {
        lemma_upper_bound(s.drop_first(), p);
        assert forall|j: int| 0 <= j < upper_bound(s, p) implies s[j].position <= p by {
            if j > 0 {
                assert(s[j] == s.drop_first()[j - 1]);
            }
        }
    }
}

/// The first index whose slot is above `p` is `upper_bound(s, p)`.
pub proof fn lemma_upper_bound_unique(s: Seq<Slot>, p: u64, i: int)
    requires
        0 <= i <= s.len(),
        forall|j: int| 0 <= j < i ==> s[j].position <= p,
        i < s.len() ==> s[i].position > p,
    ensures
        i == upper_bound(s, p),
{
    lemma_upper_bound(s, p);
    let ub = upper_bound(s, p) as int;
    if i < ub {
        assert(s[i].position <= p);
    } else if ub < i {
        assert(s[ub].position <= p);
    }
}


/// Placing a slot by [`insert_slot`] keeps a ring ordered.
pub proof fn lemma_insert_slot_sorted(s: Seq<Slot>, e: Slot)
    requires
        sorted(s),
    ensures
        sorted(insert_slot(s, e)),
        insert_slot(s, e).len() == s.len() + 1,
{
    lemma_upper_bound(s, e.position);
    let u = upper_bound(s, e.position) as int;
    let r = insert_slot(s, e);
    assert forall|i: int, j: int| 0 <= i <= j < r.len() implies r[i].position <= r[j].position by {
        if j < u {
        } else if j == u {
            if i < u {
                assert(r[i] == s[i]);
            }
        } else if i < u {
            assert(r[i] == s[i]);
            assert(r[j] == s[j - 1]);
            assert(s[u].position > e.position);
        } else if i == u {
            assert(r[j] == s[j - 1]);
            assert(s[u].position > e.position);
            assert(s[u].position <= s[j - 1].position);
        } else {
            assert(r[i] == s[i - 1]);
            assert(r[j] == s[j - 1]);
        }
    }
}

/// Inserting slots that all belong to node `id` adds at most that identity.
pub proof fn lemma_ids_insert_all(s: Seq<Slot>, es: Seq<Slot>, id: (Seq<char>, u64))
    requires
        forall|k: int| 0 <= k < es.len() ==> slot_id(#[trigger] es[k]) == id,
    ensures
        ids(insert_all(s, es)).subset_of(ids(s).insert(id)),
    decreases es.len(),
{
    if es.len() > 0 {
        let prev = insert_all(s, es.drop_last());
        lemma_ids_insert_all(s, es.drop_last(), id);
        let e = es.last();
        assert(slot_id(es[es.len() - 1]) == id);
        let r = insert_slot(prev, e);
        lemma_upper_bound(prev, e.position);
        let u = upper_bound(prev, e.position) as int;
        assert forall|x| ids(r).contains(x) implies ids(s).insert(id).contains(x) by {
            let m = r.map_values(|x: Slot| slot_id(x));
            assert(m.contains(x));
            let k = choose|k: int| 0 <= k < m.len() && m[k] == x;
            if k < u {
                assert(r[k] == prev[k]);
                assert(prev.map_values(|x: Slot| slot_id(x))[k] == x);
                assert(ids(prev).contains(x));
            } else if k > u {
                assert(r[k] == prev[k - 1]);
                assert(prev.map_values(|x: Slot| slot_id(x))[k - 1] == x);
                assert(ids(prev).contains(x));
            }
        }
    }
}

/// Once a walk has collected `cap` identities it collects nothing more.
pub proof fn lemma_walk_saturated(s: Seq<Slot>, start: int, k: nat, k2: nat, cap: nat)
    requires
        cap > 0,
        walk(s, start, k, cap).len() >= cap,
        k <= k2,
    ensures
        walk(s, start, k2, cap) == walk(s, start, k, cap),
    decreases k2 - k,
{
    if k2 > k {
        lemma_walk_saturated(s, start, k, (k2 - 1) as nat, cap);
    }
}

/// Placing a slot into a ring that starts with `x`.
proof fn lemma_insert_slot_cons(x: Slot, r: Seq<Slot>, e: Slot)
    ensures
        insert_slot(seq![x] + r, e) == if x.position > e.position {
            seq![e] + (seq![x] + r)
        } else {
            seq![x] + insert_slot(r, e)
        },
{
    let s = seq![x] + r;
    assert(s[0] == x);
    assert(s.drop_first() =~= r);
    if x.position > e.position {
        assert(upper_bound(s, e.position) == 0);
        assert(s.insert(0, e) =~= seq![e] + s);
    } else {
        assert(upper_bound(s, e.position) == 1 + upper_bound(r, e.position));
        lemma_upper_bound(r, e.position);
        assert(s.insert(1 + upper_bound(r, e.position) as int, e) =~= seq![x] + r.insert(
            upper_bound(r, e.position) as int,
            e,
        ));
    }
}

proof fn lemma_merge_empty(a: Seq<Slot>)
    ensures
        merge(a, Seq::empty()) == a,
        merge(Seq::empty(), a) == a,
{
}

/// Placing a slot into a merge is merging with the slot placed.
proof fn lemma_insert_slot_merge(a: Seq<Slot>, b: Seq<Slot>, e: Slot)
    ensures
        insert_slot(merge(a, b), e) == merge(a, insert_slot(b, e)),
    decreases a.len() + b.len(),
{
    if a.len() == 0 {
        lemma_merge_empty(b);
        lemma_merge_empty(insert_slot(b, e));
    } else {
        let a0 = a[0];
        let a1 = a.drop_first();
        assert(a =~= seq![a0] + a1);
        if b.len() == 0 {
            lemma_merge_empty(a);
            lemma_merge_empty(a1);
            let b1 = seq![e];
            assert(insert_slot(b, e) =~= b1);
            assert(b1.drop_first() =~= Seq::<Slot>::empty());
            lemma_insert_slot_cons(a0, a1, e);
            if a0.position <= e.position {
                lemma_insert_slot_merge(a1, b, e);
                assert(merge(a, b1) == seq![a0] + merge(a1, b1));
                assert(insert_slot(merge(a, b), e) == merge(a, b1));
            } else {
                assert(merge(a, b1) == seq![e] + merge(a, b1.drop_first()));
                assert(insert_slot(merge(a, b), e) == merge(a, b1));
            }
        } else {
            let b0 = b[0];
            let b1 = b.drop_first();
            assert(b =~= seq![b0] + b1);
            lemma_insert_slot_cons(b0, b1, e);
            let bp = insert_slot(b, e);
            if a0.position <= b0.position {
                let m1 = merge(a1, b);
                assert(merge(a, b) == seq![a0] + m1);
                lemma_insert_slot_cons(a0, m1, e);
                if a0.position <= e.position {
                    lemma_insert_slot_merge(a1, b, e);
                    assert(bp.len() > 0);
                    assert(bp[0] == b0 || bp[0] == e);
                    assert(merge(a, bp) == seq![a0] + merge(a1, bp));
                    assert(insert_slot(merge(a, b), e) == merge(a, bp));
                } else {
                    assert(bp =~= seq![e] + b);
                    assert(bp.drop_first() =~= b);
                    assert(merge(a, bp) == seq![e] + merge(a, bp.drop_first()));
                    assert(insert_slot(merge(a, b), e) == merge(a, bp));
                }
            } else {
                let m1 = merge(a, b1);
                assert(merge(a, b) == seq![b0] + m1);
                lemma_insert_slot_cons(b0, m1, e);
                if b0.position <= e.position {
                    lemma_insert_slot_merge(a, b1, e);
                    let bq = seq![b0] + insert_slot(b1, e);
                    assert(bq[0] == b0);
                    assert(bq.drop_first() =~= insert_slot(b1, e));
                    assert(merge(a, bq) == seq![b0] + merge(a, bq.drop_first()));
                    assert(insert_slot(merge(a, b), e) == merge(a, bp));
                } else {
                    assert(bp =~= seq![e] + b);
                    assert(bp.drop_first() =~= b);
                    assert(merge(a, bp) == seq![e] + merge(a, bp.drop_first()));
                    assert(insert_slot(merge(a, b), e) == merge(a, bp));
                }
            }
        }
    }
}

/// Inserting slots one by one is merging with those slots inserted into
/// an empty ring.
pub proof fn lemma_insert_all_is_merge(a: Seq<Slot>, es: Seq<Slot>)
    ensures
        insert_all(a, es) == merge(a, insert_all(Seq::empty(), es)),
    decreases es.len(),
{
    if es.len() == 0 {
        lemma_merge_empty(a);
    } else {
        lemma_insert_all_is_merge(a, es.drop_last());
        lemma_insert_slot_merge(a, insert_all(Seq::empty(), es.drop_last()), es.last());
    }
}

/// Inserting slots one by one keeps a ring ordered.
pub proof fn lemma_insert_all_sorted(s: Seq<Slot>, es: Seq<Slot>)
    requires
        sorted(s),
    ensures
        sorted(insert_all(s, es)),
    decreases es.len(),
{
    if es.len() > 0 {
        lemma_insert_all_sorted(s, es.drop_last());
        lemma_insert_slot_sorted(insert_all(s, es.drop_last()), es.last());
    }
}

/// The first index whose position is not below `h`.
fn partition_point_below(v: &VecDeque<VNode>, h: u64) -> (r: usize)
    requires
        sorted(slots_of(v@)),
    ensures
        r == lower_bound(slots_of(v@), h),
{
    let ghost s = slots_of(v@);
    let mut lo: usize = 0;
    let mut hi: usize = v.len();
    while lo < hi
        invariant
            s == slots_of(v@),
            sorted(s),
            0 <= lo <= hi <= s.len(),
            forall|j: int| 0 <= j < lo ==> s[j].position < h,
            forall|j: int| hi <= j < s.len() ==> s[j].position >= h,
        decreases hi - lo,
    {
        let mid = lo + (hi - lo) / 2;
        assert(s[mid as int].position == v@[mid as int].position);
        if v[mid].position < h {
            lo = mid + 1;
        } else {
            hi = mid;
        }
    }
    proof {
        lemma_lower_bound_unique(s, h, lo as int);
    }
    lo
}

/// The first index whose position is above `p`.
fn partition_point_not_above(v: &VecDeque<VNode>, p: u64) -> (r: usize)
    requires
        sorted(slots_of(v@)),
    ensures
        r == upper_bound(slots_of(v@), p),
{
    let ghost s = slots_of(v@);
    let mut lo: usize = 0;
    let mut hi: usize = v.len();
    while lo < hi
        invariant
            s == slots_of(v@),
            sorted(s),
            0 <= lo <= hi <= s.len(),
            forall|j: int| 0 <= j < lo ==> s[j].position <= p,
            forall|j: int| hi <= j < s.len() ==> s[j].position > p,
        decreases hi - lo,
    {
        let mid = lo + (hi - lo) / 2;
        assert(s[mid as int].position == v@[mid as int].position);
        if v[mid].position <= p {
            lo = mid + 1;
        } else {
            hi = mid;
        }
    }
    proof {
        lemma_upper_bound_unique(s, p, lo as int);
    }
    lo
}

impl Ring {
    /// An empty ring with `virtual_nodes` positions per unit of weight.
    pub fn new(virtual_nodes: u32) -> (r: Self)
        ensures
            r@ == (RingView { slots: Seq::empty(), virtual_nodes, node_count: 0, next_serial: 0 }),
            r@.wf(),
    {
        let r = Ring { positions: VecDeque::new(), virtual_nodes, node_count: 0, next_serial: 0 };
        proof {
            assert(slots_of(r.positions@) =~= Seq::<Slot>::empty());
            assert(ids(Seq::<Slot>::empty()) =~= Set::<(Seq<char>, u64)>::empty());
        }
        r
    }

    /// Virtual positions per unit of weight.
    pub fn virtual_nodes(&self) -> (n: u32)
        ensures
            n == self@.virtual_nodes,
    {
        self.virtual_nodes
    }

    /// Number of nodes added and not yet removed, as the ring counts them.
    pub fn node_count(&self) -> (n: usize)
        ensures
            n == self@.node_count,
    {
        self.node_count
    }


    /// Adds `virtual_nodes * weight` ring positions for a node named `name`.
    /// Each is placed after every position not greater than it, which is
    /// the order a stable sort of the old positions followed by the new
    /// ones gives. Adding a name that is already present adds a second,
    /// separate node; the caller is responsible for avoiding that.
    pub fn add_positions(&mut self, name: &str, weight: u32)
        requires
            old(self)@.wf(),
            old(self)@.virtual_nodes * weight <= u32::MAX,
            old(self)@.node_count < usize::MAX,
        ensures
            final(self)@ == added(old(self)@, name@, weight),
            final(self)@.wf(),
    {
        let total = self.virtual_nodes * weight;
        let serial = self.next_serial;
        let ghost es = node_slots(name@, serial, total as nat);
        let ghost s0 = self@.slots;
        // The new positions, in ring order.
        let mut fresh: VecDeque<VNode> = VecDeque::new();
        let mut hasher = VnodeHasher::new();
        let mut i: u32 = 0;
        proof {
            assert(es.take(0) =~= Seq::<Slot>::empty());
            assert(slots_of(fresh@) =~= Seq::<Slot>::empty());
        }
        while i < total
            invariant
                0 <= i <= total,
                es == node_slots(name@, serial, total as nat),
                slots_of(fresh@) == insert_all(Seq::empty(), es.take(i as int)),
                sorted(slots_of(fresh@)),
                hasher.wf(),
            decreases total - i,
        {
            let position = hasher.position(name, i);
            let idx = partition_point_not_above(&fresh, position);
            let ghost before = slots_of(fresh@);
            let node = VNode { position, name: name.to_owned(), serial };
            proof {
                lemma_upper_bound(before, position);
                lemma_insert_slot_sorted(before, node.slot());
            }
            fresh.insert(idx, node);
            proof {
                assert(es.take(i + 1).drop_last() =~= es.take(i as int));
                assert(es.take(i + 1).last() == node.slot());
                assert(slots_of(fresh@) =~= before.insert(idx as int, node.slot()));
            }
            i = i + 1;
        }
        proof {
            assert(es.take(total as int) =~= es);
            lemma_insert_all_is_merge(s0, es);
            lemma_insert_all_sorted(s0, es);
        }
        // Merge the old positions with the new ones; on equal positions the
        // old ones come first.
        let ghost b0 = slots_of(fresh@);
        let mut old_positions: VecDeque<VNode> = VecDeque::new();
        std::mem::swap(&mut old_positions, &mut self.positions);
        let mut merged: VecDeque<VNode> = VecDeque::new();
        proof {
            assert(slots_of(merged@) =~= Seq::<Slot>::empty());
            assert(slots_of(merged@) + merge(slots_of(old_positions@), slots_of(fresh@)) =~= merge(s0, b0));
        }
        while old_positions.len() > 0 || fresh.len() > 0
            invariant
                slots_of(merged@) + merge(slots_of(old_positions@), slots_of(fresh@)) == merge(s0, b0),
                self.virtual_nodes == old(self).virtual_nodes,
                self.node_count == old(self).node_count,
                self.next_serial == serial,
            decreases old_positions@.len() + fresh@.len(),
        {
            let ghost a = slots_of(old_positions@);
            let ghost b = slots_of(fresh@);
            let ghost m = slots_of(merged@);
            let take_old = if old_positions.len() == 0 {
                false
            } else if fresh.len() == 0 {
                true
            } else {
                old_positions[0].position <= fresh[0].position
            };
            let moved = if take_old {
                old_positions.pop_front()
            } else {
                fresh.pop_front()
            };
            match moved {
                Some(node) => {
                    proof {
                        if take_old {
                            assert(node.slot() == a[0]);
                            assert(slots_of(old_positions@) =~= a.drop_first());
                            if b.len() == 0 {
                                lemma_merge_empty(a);
                                lemma_merge_empty(a.drop_first());
                                assert(a =~= seq![a[0]] + a.drop_first());
                            }
                            assert(merge(a, b) == seq![a[0]] + merge(a.drop_first(), b));
                        } else {
                            assert(node.slot() == b[0]);
                            assert(slots_of(fresh@) =~= b.drop_first());
                            if a.len() == 0 {
                                lemma_merge_empty(b);
                                lemma_merge_empty(b.drop_first());
                                assert(b =~= seq![b[0]] + b.drop_first());
                            }
                            assert(merge(a, b) == seq![b[0]] + merge(a, b.drop_first()));
                        }
                    }
                    merged.push_back(node);
                    proof {
                        assert(slots_of(merged@) =~= m.push(node.slot()));
                        assert(slots_of(merged@) + merge(slots_of(old_positions@), slots_of(fresh@))
                            =~= m + merge(a, b));
                    }
                },
                None => {},
            }
        }
        proof {
            lemma_merge_empty(Seq::<Slot>::empty());
            assert(slots_of(merged@) + Seq::<Slot>::empty() =~= slots_of(merged@));
            lemma_ids_insert_all(s0, es, (name@, serial));
            vstd::set_lib::lemma_len_subset(ids(slots_of(merged@)), ids(s0).insert((name@, serial)));
        }
        self.positions = merged;
        self.node_count = self.node_count + 1;
        self.next_serial = if self.next_serial < u64::MAX { self.next_serial + 1 } else { 0 };
    }

    /// Removes every position of the nodes named `name`; no-op if there is none.
    /// The node count drops by one when something was removed.
    pub fn remove_positions(&mut self, name: &str)
        requires
            old(self)@.wf(),
        ensures
            final(self)@ == removed(old(self)@, name@),
            final(self)@.wf(),
    {
        let ghost s = self@.slots;
        let ghost keep = |x: Slot| x.name != name@;
        let target: String = name.to_owned();
        let before = self.positions.len();
        let mut rest: VecDeque<VNode> = VecDeque::new();
        std::mem::swap(&mut rest, &mut self.positions);
        let mut kept: VecDeque<VNode> = VecDeque::new();
        let mut i: usize = 0;
        let ghost mut dropped: Option<Slot> = None;
        proof {
            reveal_with_fuel(Seq::filter, 1);
            assert(s.take(0) =~= Seq::<Slot>::empty());
            assert(slots_of(kept@) =~= Seq::<Slot>::empty());
            assert(slots_of(rest@) =~= s.skip(0));
        }
        while i < before
            invariant
                before == s.len(),
                sorted(s),
                keep == (|x: Slot| x.name != name@),
                target@ == name@,
                0 <= i <= before,
                slots_of(rest@) == s.skip(i as int),
                slots_of(kept@) == s.take(i as int).filter(keep),
                sorted(slots_of(kept@)),
                kept@.len() > 0 && i < before ==> kept@.last().position <= s[i as int].position,
                kept@.len() <= i,
                dropped is None ==> kept@.len() == i,
                dropped matches Some(d) ==> s.contains(d) && d.name == name@,
                self.virtual_nodes == old(self).virtual_nodes,
                self.node_count == old(self).node_count,
                self.next_serial == old(self).next_serial,
            decreases before - i,
        {
            let ghost prev = slots_of(kept@);
            let ghost r = slots_of(rest@);
            let ghost rv = rest@;
            assert(r.len() > 0);
            let popped = rest.pop_front();
            match popped {
                Some(e) => {
                    proof {
                        assert(e.slot() == r[0]);
                        assert(s[i as int] == e.slot());
                        assert(rest@ == rv.subrange(1, rv.len() as int));
                        assert(slots_of(rest@) =~= r.drop_first());
                        assert(slots_of(rest@) =~= s.skip(i + 1));
                        assert(s.take(i + 1).drop_last() =~= s.take(i as int));
                        assert(s.take(i + 1).last() == e.slot());
                        reveal_with_fuel(Seq::filter, 1);
                    }
                    if e.name == target {
                        proof {
                            dropped = Some(e.slot());
                        }
                    } else {
                        let ghost slot = e.slot();
                        kept.push_back(e);
                        proof {
                            assert(slots_of(kept@) =~= prev.push(slot));
                            assert forall|a: int, b: int|
                                0 <= a <= b < slots_of(kept@).len() implies slots_of(kept@)[a].position
                                <= slots_of(kept@)[b].position by {
                                if b == slots_of(kept@).len() - 1 && a < b {
                                    assert(prev[a].position <= prev.last().position);
                                }
                            }
                        }
                    }
                },
                None => {},
            }
            i = i + 1;
        }
        proof {
            assert(s.take(before as int) =~= s);
            let f = slots_of(kept@);
            assert(ids(f).subset_of(ids(s))) by {
                assert forall|x| ids(f).contains(x) implies ids(s).contains(x) by {
                    let mf = f.map_values(|y: Slot| slot_id(y));
                    let k = choose|k: int| 0 <= k < mf.len() && mf[k] == x;
                    s.lemma_filter_contains_rev(keep, f[k]);
                    let j = choose|j: int| 0 <= j < s.len() && s[j] == f[k];
                    assert(s.map_values(|y: Slot| slot_id(y))[j] == x);
                }
            }
            vstd::set_lib::lemma_len_subset(ids(f), ids(s));
            if let Some(d) = dropped {
                let j = choose|j: int| 0 <= j < s.len() && s[j] == d;
                assert(s.map_values(|y: Slot| slot_id(y))[j] == slot_id(d));
                assert(!ids(f).contains(slot_id(d))) by {
                    if ids(f).contains(slot_id(d)) {
                        let mf = f.map_values(|y: Slot| slot_id(y));
                        let k = choose|k: int| 0 <= k < mf.len() && mf[k] == slot_id(d);
                        s.lemma_filter_pred(keep, k);
                    }
                }
                vstd::set_lib::lemma_len_subset(ids(f), ids(s).remove(slot_id(d)));
            }
        }
        self.positions = kept;
        if self.positions.len() < before {
            self.node_count = self.node_count - 1;
        }
    }

    /// Up to `count` distinct nodes responsible for `key`: the owner first,
    /// then the other nodes met walking clockwise around the ring. At most
    /// as many nodes as the ring counts are returned.
    pub fn replicas(&self, key: &str, count: usize) -> (r: Vec<String>)
        requires
            self@.wf(),
        ensures
            r@.map_values(|x: String| x@) == replicas_spec(self@, key@, count as nat),
    {
        let len = self.positions.len();
        if len == 0 || count == 0 {
            let r: Vec<String> = Vec::new();
            proof {
                assert(r@.map_values(|x: String| x@) =~= Seq::<Seq<char>>::empty());
            }
            return r;
        }
        let cap = if count < self.node_count { count } else { self.node_count };
        let hash = hash_str(key);
        let pos = partition_point_below(&self.positions, hash);
        proof {
            lemma_lower_bound(self@.slots, hash);
            if pos < len {
                assert(pos % len == pos) by (nonlinear_arith) requires pos < len;
            } else {
                assert(pos % len == 0) by (nonlinear_arith) requires pos == len, len > 0;
            }
        }
        let start = pos % len;
        let ghost s = self@.slots;
        assert(start == owner_index(s, hash));
        let mut out: Vec<String> = Vec::new();
        let mut serials: Vec<u64> = Vec::new();
        let mut offset: usize = 0;
        while offset < len
            invariant_except_break
                cap > 0 ==> out.len() < cap,
                out.len() == serials.len(),
                out.len() == walk(s, start as int, offset as nat, cap as nat).len(),
                forall|m: int|
                    0 <= m < out.len() ==> (#[trigger] out@[m])@ == walk(
                        s,
                        start as int,
                        offset as nat,
                        cap as nat,
                    )[m].0 && serials@[m] == walk(s, start as int, offset as nat, cap as nat)[m].1,
            invariant
                s == self@.slots,
                len == s.len(),
                0 <= start < len,
                0 <= offset <= len,
            ensures
                out.len() == serials.len(),
                out.len() == walk(s, start as int, len as nat, cap as nat).len(),
                forall|m: int|
                    0 <= m < out.len() ==> (#[trigger] out@[m])@ == walk(
                        s,
                        start as int,
                        len as nat,
                        cap as nat,
                    )[m].0,
            decreases len - offset,
        {
            let ghost w = walk(s, start as int, offset as nat, cap as nat);
            let idx = if offset < len - start { start + offset } else { offset - (len - start) };
            let node = &self.positions[idx];
            let ghost id = slot_id(s[idx as int]);
            assert(s[idx as int] == node.slot());
            assert(idx == rot(len as int, start as int, offset as int));
            let mut found = false;
            let mut j: usize = 0;
            while j < out.len()
                invariant
                    0 <= j <= out.len(),
                    out.len() == serials.len(),
                    out.len() == w.len(),
                    forall|m: int|
                        0 <= m < out.len() ==> (#[trigger] out@[m])@ == w[m].0 && serials@[m]
                            == w[m].1,
                    id == (node.name@, node.serial),
                    found <==> exists|m: int| 0 <= m < j && w[m] == id,
                decreases out.len() - j,
            {
                assert(out@[j as int]@ == w[j as int].0 && serials@[j as int] == w[j as int].1);
                if serials[j] == node.serial && out[j] == node.name {
                    found = true;
                }
                j = j + 1;
            }
            proof {
                if w.contains(id) {
                    let m = choose|m: int| 0 <= m < w.len() && w[m] == id;
                    assert(found);
                }
                if found {
                    let m = choose|m: int| 0 <= m < j && w[m] == id;
                    assert(w.contains(id));
                }
            }
            if !found {
                let ghost out_before = out@;
                let ghost serials_before = serials@;
                out.push(node.name.clone());
                serials.push(node.serial);
                proof {
                    let w2 = walk(s, start as int, (offset + 1) as nat, cap as nat);
                    assert(w2 == w.push(id));
                    assert forall|m: int| 0 <= m < out.len() implies (#[trigger] out@[m])@ == w2[m].0
                        && serials@[m] == w2[m].1 by {
                        if m < out_before.len() {
                            assert(out@[m] == out_before[m]);
                            assert(serials@[m] == serials_before[m]);
                        }
                    }
                }
                if out.len() == cap {
                    proof {
                        lemma_walk_saturated(s, start as int, (offset + 1) as nat, len as nat, cap as nat);
                    }
                    break;
                }
            }
            proof {
                if found {
                    assert(walk(s, start as int, (offset + 1) as nat, cap as nat) == w);
                }
            }
            offset = offset + 1;
        }
        proof {
            let w = walk(s, start as int, len as nat, cap as nat);
            assert(out@.map_values(|x: String| x@) =~= w.map_values(|id: (Seq<char>, u64)| id.0));
        }
        out
    }


    /// Number of virtual positions on the ring.
    pub fn positions_len(&self) -> (n: usize)
        ensures
            n == self@.slots.len(),
    {
        self.positions.len()
    }

    /// Whether some position belongs to a node named `name`.
    pub fn contains_for_test(&self, name: &str) -> (b: bool)
        ensures
            b == exists|i: int| 0 <= i < self@.slots.len() && self@.slots[i].name == name@,
    {
        let target: String = name.to_owned();
        let mut i: usize = 0;
        while i < self.positions.len()
            invariant
                0 <= i <= self@.slots.len(),
                target@ == name@,
                forall|j: int| 0 <= j < i ==> self@.slots[j].name != name@,
            decreases self@.slots.len() - i,
        {
            assert(self@.slots[i as int].name == self.positions@[i as int].name@);
            if self.positions[i].name == target {
                return true;
            }
            i = i + 1;
        }
        false
    }

    /// Adds a node named `name` with the given weight (see `add_positions`).
    pub fn add_node(&mut self, name: &str, weight: u32)
        requires
            old(self)@.wf(),
            old(self)@.virtual_nodes * weight <= u32::MAX,
            old(self)@.node_count < usize::MAX,
        ensures
            final(self)@ == added(old(self)@, name@, weight),
            final(self)@.wf(),
    {
        self.add_positions(name, weight);
    }

    /// Removes the nodes named `name` (see `remove_positions`).
    pub fn remove_node(&mut self, name: &str)
        requires
            old(self)@.wf(),
        ensures
            final(self)@ == removed(old(self)@, name@),
            final(self)@.wf(),
    {
        self.remove_positions(name);
    }

    /// The node responsible for `key`, or `None` if the ring is empty.
    pub fn lookup(&self, key: &str) -> (r: Option<String>)
        requires
            self@.wf(),
        ensures
            opt_view(r) == lookup_spec(self@.slots, key@),
    {
        if self.positions.len() == 0 {
            return None;
        }
        let hash = hash_str(key);
        let pos = partition_point_below(&self.positions, hash);
        proof {
            lemma_lower_bound(self@.slots, hash);
        }
        let index = pos % self.positions.len();
        proof {
            let len = self.positions.len();
            if pos < len {
                assert(pos % len == pos) by (nonlinear_arith) requires pos < len;
            } else {
                assert(pos % len == 0) by (nonlinear_arith) requires pos == len, len > 0;
            }
            assert(index == owner_index(self@.slots, hash));
            assert(self@.slots[index as int].name == self.positions@[index as int].name@);
        }
        Some(self.positions[index].name.clone())
    }
}

} // verus!
