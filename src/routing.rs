use vstd::prelude::*;
use crate::coord::{
    DhtCoord,
    dist,
    xor_seq,
    leading_zeros,
    lemma_self_distance,
    COORD_BITS,
};
use crate::identity::{
    NodeIdentity,
    coord_of,
    node_ident_coord,
};

verus! {

/// Most peers kept per bucket, and most peers in a find's nearest set.
pub const NEIGHBORHOOD: usize = 8;

/// A peer's UDP address.
#[derive(Clone, Copy, Debug, PartialEq, Eq, Structural, Hash)]
pub enum PeerAddr {
    V4 { ip4: u32, port: u16 },
    V6 { ip6: u128, port: u16 },
}

/// A peer: its identity and where to reach it.
#[derive(Clone, Copy, Debug)]
pub struct NodeInfo {
    pub ident: NodeIdentity,
    pub address: PeerAddr,
}

/// A peer slot in a bucket.
#[derive(Clone, Copy, Debug)]
pub struct NodeState {
    pub node: NodeInfo,
    pub unresponsive: bool,
}

/// A slot for `node` that is marked responsive.
pub open spec fn fresh_slot(node: NodeInfo) -> NodeState {
    NodeState { node: node, unresponsive: false }
}

/// The bucket that a peer belongs in, seen from `own_coord`: the number of
/// leading zero bits of the XOR of the two coordinates.
pub open spec fn bucket_of(own_coord: Seq<u8>, id: Seq<u8>) -> nat {
    leading_zeros(xor_seq(coord_of(id), own_coord))
}

/// Whether the slot at `(c, k)` holds `addr` for an identity other than `id`.
pub open spec fn holds_addr(t: Seq<Seq<NodeState>>, addr: PeerAddr, id: Seq<u8>, c: int, k: int) -> bool {
    0 <= c < t.len() && 0 <= k < t[c].len() && t[c][k].node.address == addr
        && t[c][k].node.ident@ != id
}

/// At most one slot holds `addr` for an identity other than `id`.
pub open spec fn one_holder(t: Seq<Seq<NodeState>>, addr: PeerAddr, id: Seq<u8>) -> bool {
    forall|c1: int, k1: int, c2: int, k2: int|
        holds_addr(t, addr, id, c1, k1) && holds_addr(t, addr, id, c2, k2) ==> c1 == c2 && k1
            == k2
}

/// The table without the slot (if any) that holds `addr` for an identity other than `id`.
pub open spec fn evict_addr(t: Seq<Seq<NodeState>>, addr: PeerAddr, id: Seq<u8>) -> Seq<
    Seq<NodeState>,
> {
    if exists|c: int, k: int| holds_addr(t, addr, id, c, k) {
        let (c, k) = choose|c: int, k: int| holds_addr(t, addr, id, c, k);
        t.update(c, t[c].remove(k))
    } else {
        t
    }
}

/// Index of the last unresponsive slot of a bucket, if there is one.
pub open spec fn last_unresponsive(bucket: Seq<NodeState>) -> int
    decreases bucket.len(),
{
    if bucket.len() == 0 {
        -1
    } else if bucket.last().unresponsive {
        bucket.len() - 1
    } else {
        last_unresponsive(bucket.drop_last())
    }
}

/// Index of the slot of `id` in a bucket, if there is one.
pub open spec fn slot_of(bucket: Seq<NodeState>, id: Seq<u8>) -> int {
    if exists|i: int| 0 <= i < bucket.len() && bucket[i].node.ident@ == id {
        choose|i: int| 0 <= i < bucket.len() && bucket[i].node.ident@ == id
    } else {
        -1
    }
}

/// The table after `add_good_node(id, node)`, with whether `id` was new.
pub open spec fn add_spec(t: Seq<Seq<NodeState>>, own_coord: Seq<u8>, id: Seq<u8>, node: Option<
    NodeInfo,
>) -> (Seq<Seq<NodeState>>, bool) {
    let b = bucket_of(own_coord, id) as int;
    if b >= COORD_BITS {
        (t, false)
    } else {
        let bucket = t[b];
        let i = slot_of(bucket, id);
        if i >= 0 {
            match node {
                None => (t.update(b, bucket.update(i, NodeState { node: bucket[i].node, unresponsive: false })), false),
                Some(n) => (evict_addr(t.update(b, bucket.update(i, fresh_slot(n))), n.address, id), false),
            }
        } else if bucket.len() < NEIGHBORHOOD {
            match node {
                None => (t, true),
                Some(n) => (evict_addr(t.update(b, seq![fresh_slot(n)] + bucket), n.address, id), true),
            }
        } else if last_unresponsive(bucket) >= 0 {
            match node {
                None => (t, true),
                Some(n) => (
                    evict_addr(
                        t.update(b, bucket.remove(last_unresponsive(bucket)).push(fresh_slot(n))),
                        n.address,
                        id,
                    ),
                    true,
                ),
            }
        } else {
            (t, false)
        }
    }
}

/// Every peer sits in the bucket that its coordinate selects.
pub open spec fn slots_placed(t: Seq<Seq<NodeState>>, own_coord: Seq<u8>) -> bool {
    forall|b: int, i: int|
        0 <= b < t.len() && 0 <= i < t[b].len() ==> bucket_of(own_coord, #[trigger] t[b][i].node.ident@)
            == b
}

/// No identity appears twice in a bucket.
pub open spec fn idents_unique(t: Seq<Seq<NodeState>>) -> bool {
    forall|b: int, i: int, j: int|
        0 <= b < t.len() && 0 <= i < t[b].len() && 0 <= j < t[b].len() && i != j
            ==> #[trigger] t[b][i].node.ident@ != #[trigger] t[b][j].node.ident@
}

/// No address appears in two slots of the table.
pub open spec fn addrs_unique(t: Seq<Seq<NodeState>>) -> bool {
    forall|b1: int, i1: int, b2: int, i2: int|
        0 <= b1 < t.len() && 0 <= i1 < t[b1].len() && 0 <= b2 < t.len() && 0 <= i2 < t[b2].len()
            && (b1 != b2 || i1 != i2) ==> #[trigger] t[b1][i1].node.address != #[trigger] t[b2][i2].node.address
}

/// Each bucket holds at most `NEIGHBORHOOD` slots.
pub open spec fn sizes_ok(t: Seq<Seq<NodeState>>) -> bool {
    &&& t.len() == COORD_BITS
    &&& forall|b: int| 0 <= b < t.len() ==> #[trigger] t[b].len() <= NEIGHBORHOOD
}

/// Addresses are unique, except that a slot of `id` may share `addr` with one other slot.
pub open spec fn addrs_ok(t: Seq<Seq<NodeState>>, addr: PeerAddr, id: Seq<u8>) -> bool {
    forall|b1: int, i1: int, b2: int, i2: int|
        0 <= b1 < t.len() && 0 <= i1 < t[b1].len() && 0 <= b2 < t.len() && 0 <= i2 < t[b2].len()
            && (b1 != b2 || i1 != i2) && #[trigger] t[b1][i1].node.address == #[trigger] t[b2][i2].node.address
            ==> t[b1][i1].node.address == addr && (t[b1][i1].node.ident@ == id || t[b2][i2].node.ident@ == id)
}

/// Where slot `(c2, k2)` of a table came from, after slot `k` of bucket `c` was removed.
spec fn src_idx(c: int, k: int, c2: int, k2: int) -> int {
    if c2 == c && k2 >= k {
        k2 + 1
    } else {
        k2
    }
}

proof fn lemma_remove_keeps(
    t: Seq<Seq<NodeState>>,
    own: Seq<u8>,
    c: int,
    k: int,
    addr: PeerAddr,
    id: Seq<u8>,
)
    requires
        0 <= c < t.len(),
        0 <= k < t[c].len(),
        sizes_ok(t),
        slots_placed(t, own),
        idents_unique(t),
    ensures
        ({
            let t2 = t.update(c, t[c].remove(k));
            &&& sizes_ok(t2)
            &&& slots_placed(t2, own)
            &&& idents_unique(t2)
            &&& addrs_unique(t) ==> addrs_unique(t2)
            &&& addrs_ok(t, addr, id) ==> addrs_ok(t2, addr, id)
            &&& forall|c2: int, k2: int|
                holds_addr(t2, addr, id, c2, k2) ==> holds_addr(t, addr, id, c2, src_idx(c, k, c2, k2))
                    && (c2 != c || src_idx(c, k, c2, k2) != k)
        }),
{
    let t2 = t.update(c, t[c].remove(k));
    assert forall|c2: int, k2: int| 0 <= c2 < t2.len() && 0 <= k2 < t2[c2].len() implies t2[c2][k2]
        == t[c2][src_idx(c, k, c2, k2)] && 0 <= src_idx(c, k, c2, k2) < t[c2].len() by {
        if c2 == c {
            assert(t2[c2] == t[c].remove(k));
        }
    }
    assert forall|b: int| 0 <= b < t2.len() implies #[trigger] t2[b].len() <= NEIGHBORHOOD by {
        assert(t[b].len() <= NEIGHBORHOOD);
    }
    assert forall|b: int, i: int| 0 <= b < t2.len() && 0 <= i < t2[b].len() implies bucket_of(
        own,
        #[trigger] t2[b][i].node.ident@,
    ) == b by {
        let j = src_idx(c, k, b, i);
        assert(t2[b][i] == t[b][j]);
    }
    assert forall|b: int, i: int, j: int|
        0 <= b < t2.len() && 0 <= i < t2[b].len() && 0 <= j < t2[b].len() && i != j implies #[trigger] t2[b][i].node.ident@
        != #[trigger] t2[b][j].node.ident@ by {
        let i1 = src_idx(c, k, b, i);
        let j1 = src_idx(c, k, b, j);
        assert(t2[b][i] == t[b][i1]);
        assert(t2[b][j] == t[b][j1]);
    }
    if addrs_unique(t) {
        assert forall|b1: int, i1: int, b2: int, i2: int|
            0 <= b1 < t2.len() && 0 <= i1 < t2[b1].len() && 0 <= b2 < t2.len() && 0 <= i2 < t2[b2].len()
                && (b1 != b2 || i1 != i2) implies #[trigger] t2[b1][i1].node.address
            != #[trigger] t2[b2][i2].node.address by {
            let j1 = src_idx(c, k, b1, i1);
            let j2 = src_idx(c, k, b2, i2);
            assert(t2[b1][i1] == t[b1][j1]);
            assert(t2[b2][i2] == t[b2][j2]);
        }
    }
    if addrs_ok(t, addr, id) {
        assert forall|b1: int, i1: int, b2: int, i2: int|
            0 <= b1 < t2.len() && 0 <= i1 < t2[b1].len() && 0 <= b2 < t2.len() && 0 <= i2 < t2[b2].len()
                && (b1 != b2 || i1 != i2) && #[trigger] t2[b1][i1].node.address
                == #[trigger] t2[b2][i2].node.address implies t2[b1][i1].node.address == addr && (
            t2[b1][i1].node.ident@ == id || t2[b2][i2].node.ident@ == id) by {
            let j1 = src_idx(c, k, b1, i1);
            let j2 = src_idx(c, k, b2, i2);
            assert(t2[b1][i1] == t[b1][j1]);
            assert(t2[b2][i2] == t[b2][j2]);
            assert(t[b1][j1].node.address == t[b2][j2].node.address);
        }
    }
    assert forall|c2: int, k2: int| holds_addr(t2, addr, id, c2, k2) implies holds_addr(
        t,
        addr,
        id,
        c2,
        src_idx(c, k, c2, k2),
    ) && (c2 != c || src_idx(c, k, c2, k2) != k) by {
        assert(t2[c2][k2] == t[c2][src_idx(c, k, c2, k2)]);
    }
}

/// Evicting the other holder of `addr` restores unique addresses.
proof fn lemma_evict_keeps(t: Seq<Seq<NodeState>>, own: Seq<u8>, addr: PeerAddr, id: Seq<u8>)
    requires
        sizes_ok(t),
        slots_placed(t, own),
        idents_unique(t),
        addrs_ok(t, addr, id),
    ensures
        one_holder(t, addr, id),
        sizes_ok(evict_addr(t, addr, id)),
        slots_placed(evict_addr(t, addr, id), own),
        idents_unique(evict_addr(t, addr, id)),
        addrs_unique(evict_addr(t, addr, id)),
{
    assert forall|c1: int, k1: int, c2: int, k2: int|
        holds_addr(t, addr, id, c1, k1) && holds_addr(t, addr, id, c2, k2) implies c1 == c2 && k1
        == k2 by {
        if c1 != c2 || k1 != k2 {
            assert(t[c1][k1].node.address == t[c2][k2].node.address);
        }
    }
    if exists|c: int, k: int| holds_addr(t, addr, id, c, k) {
        let (c, k) = choose|c: int, k: int| holds_addr(t, addr, id, c, k);
        lemma_remove_keeps(t, own, c, k, addr, id);
        let t2 = t.update(c, t[c].remove(k));
        assert(evict_addr(t, addr, id) == t2);
        assert forall|c2: int, k2: int| !holds_addr(t2, addr, id, c2, k2) by {
            if holds_addr(t2, addr, id, c2, k2) {
                let j = src_idx(c, k, c2, k2);
                assert(holds_addr(t, addr, id, c2, j));
            }
        }
        lemma_no_holder_unique(t2, own, addr, id);
    } else {
        lemma_no_holder_unique(t, own, addr, id);
    }
}

proof fn lemma_no_holder_unique(t: Seq<Seq<NodeState>>, own: Seq<u8>, addr: PeerAddr, id: Seq<u8>)
    requires
        slots_placed(t, own),
        idents_unique(t),
        addrs_ok(t, addr, id),
        forall|c: int, k: int| !holds_addr(t, addr, id, c, k),
    ensures
        addrs_unique(t),
{
    assert forall|b1: int, i1: int, b2: int, i2: int|
        0 <= b1 < t.len() && 0 <= i1 < t[b1].len() && 0 <= b2 < t.len() && 0 <= i2 < t[b2].len()
            && (b1 != b2 || i1 != i2) implies #[trigger] t[b1][i1].node.address
        != #[trigger] t[b2][i2].node.address by {
        if t[b1][i1].node.address == t[b2][i2].node.address {
            assert(!holds_addr(t, addr, id, b1, i1));
            assert(!holds_addr(t, addr, id, b2, i2));
            assert(bucket_of(own, t[b1][i1].node.ident@) == b1);
            assert(bucket_of(own, t[b2][i2].node.ident@) == b2);
        }
    }
}

/// Replacing the slot of `id` in place keeps the table's invariant, but for `addr`.
proof fn lemma_update_keeps(t: Seq<Seq<NodeState>>, own: Seq<u8>, b: int, f: int, ns: NodeState)
    requires
        0 <= b < t.len(),
        0 <= f < t[b].len(),
        t[b][f].node.ident@ == ns.node.ident@,
        sizes_ok(t),
        slots_placed(t, own),
        idents_unique(t),
        addrs_unique(t),
    ensures
        ({
            let t1 = t.update(b, t[b].update(f, ns));
            &&& sizes_ok(t1)
            &&& slots_placed(t1, own)
            &&& idents_unique(t1)
            &&& addrs_ok(t1, ns.node.address, ns.node.ident@)
        }),
{
    let t1 = t.update(b, t[b].update(f, ns));
    assert forall|c: int, k: int| 0 <= c < t1.len() && 0 <= k < t1[c].len() implies (#[trigger] t1[c][k])
        == if c == b && k == f { ns } else { t[c][k] } by {}
    assert forall|c: int| 0 <= c < t1.len() implies #[trigger] t1[c].len() <= NEIGHBORHOOD by {
        assert(t[c].len() <= NEIGHBORHOOD);
    }
    assert forall|c: int, i: int| 0 <= c < t1.len() && 0 <= i < t1[c].len() implies bucket_of(
        own,
        #[trigger] t1[c][i].node.ident@,
    ) == c by {
        assert(bucket_of(own, t[c][i].node.ident@) == c);
    }
    assert forall|c: int, i: int, j: int|
        0 <= c < t1.len() && 0 <= i < t1[c].len() && 0 <= j < t1[c].len() && i != j implies #[trigger] t1[c][i].node.ident@
        != #[trigger] t1[c][j].node.ident@ by {
        assert(t[c][i].node.ident@ != t[c][j].node.ident@);
    }
    assert forall|b1: int, i1: int, b2: int, i2: int|
        0 <= b1 < t1.len() && 0 <= i1 < t1[b1].len() && 0 <= b2 < t1.len() && 0 <= i2 < t1[b2].len()
            && (b1 != b2 || i1 != i2) && #[trigger] t1[b1][i1].node.address
            == #[trigger] t1[b2][i2].node.address implies t1[b1][i1].node.address == ns.node.address && (
    t1[b1][i1].node.ident@ == ns.node.ident@ || t1[b2][i2].node.ident@ == ns.node.ident@) by {
        if !(b1 == b && i1 == f) && !(b2 == b && i2 == f) {
            assert(t[b1][i1].node.address != t[b2][i2].node.address);
        }
    }
}

/// Inserting a new slot for an identity that the bucket lacks keeps the table's
/// invariant, but for its address.
proof fn lemma_insert_keeps(t: Seq<Seq<NodeState>>, own: Seq<u8>, b: int, pos: int, ns: NodeState)
    requires
        0 <= b < t.len(),
        0 <= pos <= t[b].len(),
        t[b].len() < NEIGHBORHOOD,
        bucket_of(own, ns.node.ident@) == b,
        forall|i: int| 0 <= i < t[b].len() ==> t[b][i].node.ident@ != ns.node.ident@,
        sizes_ok(t),
        slots_placed(t, own),
        idents_unique(t),
        addrs_unique(t),
    ensures
        ({
            let t1 = t.update(b, t[b].insert(pos, ns));
            &&& sizes_ok(t1)
            &&& slots_placed(t1, own)
            &&& idents_unique(t1)
            &&& addrs_ok(t1, ns.node.address, ns.node.ident@)
        }),
{
    let t1 = t.update(b, t[b].insert(pos, ns));
    let src = |c: int, k: int| if c == b && k > pos { k - 1 } else { k };
    assert forall|c: int, k: int| 0 <= c < t1.len() && 0 <= k < t1[c].len() && !(c == b && k == pos) implies (#[trigger] t1[c][k])
        == t[c][src(c, k)] && 0 <= src(c, k) < t[c].len() by {}
    assert(t1[b][pos] == ns);
    assert forall|c: int| 0 <= c < t1.len() implies #[trigger] t1[c].len() <= NEIGHBORHOOD by {
        assert(t[c].len() <= NEIGHBORHOOD);
    }
    assert forall|c: int, i: int| 0 <= c < t1.len() && 0 <= i < t1[c].len() implies bucket_of(
        own,
        #[trigger] t1[c][i].node.ident@,
    ) == c by {
        if !(c == b && i == pos) {
            assert(bucket_of(own, t[c][src(c, i)].node.ident@) == c);
        }
    }
    assert forall|c: int, i: int, j: int|
        0 <= c < t1.len() && 0 <= i < t1[c].len() && 0 <= j < t1[c].len() && i != j implies #[trigger] t1[c][i].node.ident@
        != #[trigger] t1[c][j].node.ident@ by {
        if c == b && i == pos {
            assert(t1[c][j] == t[c][src(c, j)]);
        } else if c == b && j == pos {
            assert(t1[c][i] == t[c][src(c, i)]);
        } else {
            assert(t[c][src(c, i)].node.ident@ != t[c][src(c, j)].node.ident@);
        }
    }
    assert forall|b1: int, i1: int, b2: int, i2: int|
        0 <= b1 < t1.len() && 0 <= i1 < t1[b1].len() && 0 <= b2 < t1.len() && 0 <= i2 < t1[b2].len()
            && (b1 != b2 || i1 != i2) && #[trigger] t1[b1][i1].node.address
            == #[trigger] t1[b2][i2].node.address implies t1[b1][i1].node.address == ns.node.address && (
    t1[b1][i1].node.ident@ == ns.node.ident@ || t1[b2][i2].node.ident@ == ns.node.ident@) by {
        if !(b1 == b && i1 == pos) && !(b2 == b && i2 == pos) {
            assert(t1[b1][i1] == t[b1][src(b1, i1)]);
            assert(t1[b2][i2] == t[b2][src(b2, i2)]);
            assert(t[b1][src(b1, i1)].node.address != t[b2][src(b2, i2)].node.address);
        }
    }
}

proof fn lemma_last_unresponsive(bucket: Seq<NodeState>)
    ensures
        -1 <= last_unresponsive(bucket) < bucket.len(),
        last_unresponsive(bucket) >= 0 ==> bucket[last_unresponsive(bucket)].unresponsive,
        last_unresponsive(bucket) == -1 <==> forall|i: int|
            0 <= i < bucket.len() ==> !(#[trigger] bucket[i]).unresponsive,
    decreases bucket.len(),
{
    if bucket.len() > 0 {
        let d = bucket.drop_last();
        lemma_last_unresponsive(d);
        if !bucket.last().unresponsive {
            assert forall|i: int| 0 <= i < d.len() implies d[i] == bucket[i] by {}
            if last_unresponsive(d) == -1 {
                assert forall|i: int| 0 <= i < bucket.len() implies !(#[trigger] bucket[i]).unresponsive by {
                    if i < d.len() {
                        assert(d[i] == bucket[i]);
                    }
                }
            } else {
                assert(bucket[last_unresponsive(d)] == d[last_unresponsive(d)]);
            }
        }
    }
}

/// A table with the invariant of `Buckets`, for `own` as the node's coordinate.
pub open spec fn table_ok(t: Seq<Seq<NodeState>>, own: Seq<u8>) -> bool {
    &&& sizes_ok(t)
    &&& slots_placed(t, own)
    &&& idents_unique(t)
    &&& addrs_unique(t)
}

/// A table that holds `ns` as the slot of its identity, and is otherwise valid,
/// is left as it is when that same peer is added again.
proof fn lemma_add_present(t: Seq<Seq<NodeState>>, own: Seq<u8>, b: int, f: int, n: NodeInfo)
    requires
        table_ok(t, own),
        0 <= b < t.len(),
        0 <= f < t[b].len(),
        t[b][f] == fresh_slot(n),
    ensures
        add_spec(t, own, n.ident@, Some(n)) == (t, false),
{
    let id = n.ident@;
    assert(bucket_of(own, t[b][f].node.ident@) == b);
    assert(exists|j: int| 0 <= j < t[b].len() && t[b][j].node.ident@ == id);
    let ch = choose|j: int| 0 <= j < t[b].len() && t[b][j].node.ident@ == id;
    if ch != f {
        assert(t[b][ch].node.ident@ != t[b][f].node.ident@);
    }
    assert(slot_of(t[b], id) == f);
    assert(t[b].update(f, fresh_slot(n)) =~= t[b]);
    assert(t.update(b, t[b]) =~= t);
    assert forall|c: int, k: int| !holds_addr(t, n.address, id, c, k) by {
        if holds_addr(t, n.address, id, c, k) {
            assert(t[c][k].node.address == t[b][f].node.address);
        }
    }
}

/// The slot of `id` survives the eviction of the other holder of an address.
proof fn lemma_evict_keeps_slot(t: Seq<Seq<NodeState>>, addr: PeerAddr, id: Seq<u8>, b: int, f: int)
    requires
        0 <= b < t.len(),
        0 <= f < t[b].len(),
        t[b][f].node.ident@ == id,
    ensures
        exists|g: int| 0 <= g < evict_addr(t, addr, id)[b].len() && evict_addr(t, addr, id)[b][g] == t[b][f],
        evict_addr(t, addr, id).len() == t.len(),
{
    if exists|c: int, k: int| holds_addr(t, addr, id, c, k) {
        let (c, k) = choose|c: int, k: int| holds_addr(t, addr, id, c, k);
        let t2 = t.update(c, t[c].remove(k));
        assert(evict_addr(t, addr, id) == t2);
        if c == b {
            assert(k != f);
            if f < k {
                assert(t2[b][f] == t[b][f]);
            } else {
                assert(t2[b][f - 1] == t[b][f]);
            }
        } else {
            assert(t2[b][f] == t[b][f]);
        }
    } else {
        assert(evict_addr(t, addr, id)[b][f] == t[b][f]);
    }
}

/// Adding the same peer with the same information twice changes nothing the
/// second time, which reports that the peer is not new.
pub proof fn lemma_add_good_node_idempotent(t: Seq<Seq<NodeState>>, own: Seq<u8>, n: NodeInfo)
    requires
        table_ok(t, own),
    ensures
        ({
            let first = add_spec(t, own, n.ident@, Some(n));
            add_spec(first.0, own, n.ident@, Some(n)) == (first.0, false)
        }),
{
    let id = n.ident@;
    let ns = fresh_slot(n);
    let b = bucket_of(own, id) as int;
    if b < COORD_BITS {
        let bucket = t[b];
        let i = slot_of(bucket, id);
        let first = add_spec(t, own, id, Some(n));
        if i >= 0 {
            assert(bucket[i].node.ident@ == id);
            lemma_update_keeps(t, own, b, i, ns);
            let t1 = t.update(b, bucket.update(i, ns));
            lemma_evict_keeps(t1, own, n.address, id);
            lemma_evict_keeps_slot(t1, n.address, id, b, i);
            let g = choose|g: int| 0 <= g < first.0[b].len() && first.0[b][g] == t1[b][i];
            lemma_add_present(first.0, own, b, g, n);
        } else if bucket.len() < NEIGHBORHOOD {
            assert forall|j: int| 0 <= j < bucket.len() implies bucket[j].node.ident@ != id by {
                if bucket[j].node.ident@ == id {
                    assert(exists|j: int| 0 <= j < bucket.len() && bucket[j].node.ident@ == id);
                }
            }
            lemma_insert_keeps(t, own, b, 0, ns);
            let t1 = t.update(b, bucket.insert(0, ns));
            assert(bucket.insert(0, ns) =~= seq![ns] + bucket);
            lemma_evict_keeps(t1, own, n.address, id);
            lemma_evict_keeps_slot(t1, n.address, id, b, 0);
            let g = choose|g: int| 0 <= g < first.0[b].len() && first.0[b][g] == t1[b][0];
            lemma_add_present(first.0, own, b, g, n);
        } else if last_unresponsive(bucket) >= 0 {
            let j = last_unresponsive(bucket);
            lemma_last_unresponsive(bucket);
            lemma_remove_keeps(t, own, b, j, n.address, id);
            let t0 = t.update(b, bucket.remove(j));
            assert forall|k: int| 0 <= k < t0[b].len() implies t0[b][k].node.ident@ != id by {
                if k >= j {
                    assert(t0[b][k] == bucket[k + 1]);
                } else {
                    assert(t0[b][k] == bucket[k]);
                }
                if t0[b][k].node.ident@ == id {
                    assert(exists|j: int| 0 <= j < bucket.len() && bucket[j].node.ident@ == id);
                }
            }
            let len0 = t0[b].len() as int;
            lemma_insert_keeps(t0, own, b, len0, ns);
            let t1 = t0.update(b, t0[b].insert(len0, ns));
            assert(t0[b].insert(len0, ns) =~= bucket.remove(j).push(ns));
            assert(t1 =~= t.update(b, bucket.remove(j).push(ns)));
            lemma_evict_keeps(t1, own, n.address, id);
            lemma_evict_keeps_slot(t1, n.address, id, b, len0);
            let g = choose|g: int| 0 <= g < first.0[b].len() && first.0[b][g] == t1[b][len0];
            lemma_add_present(first.0, own, b, g, n);
        }
    }
}

proof fn lemma_asc_empty(t: Seq<Seq<NodeState>>, lo: int, hi: int)
    requires
        forall|b: int| 0 <= b < t.len() ==> (#[trigger] t[b]).len() == 0,
        0 <= lo,
        0 <= hi <= t.len(),
    ensures
        asc_range(t, lo, hi).len() == 0,
    decreases hi - lo,
{
    if hi > lo {
        lemma_asc_empty(t, lo, hi - 1);
        assert(nodes_of(t[hi - 1]).len() == 0);
    }
}

proof fn lemma_desc_empty(t: Seq<Seq<NodeState>>, top: int, m: int)
    requires
        forall|b: int| 0 <= b < t.len() ==> (#[trigger] t[b]).len() == 0,
        0 <= m <= top <= t.len(),
    ensures
        desc_range(t, top, m).len() == 0,
    decreases m,
{
    if m > 0 {
        lemma_desc_empty(t, top, m - 1);
        assert(nodes_of(t[top - m]).len() == 0);
    }
}

/// A table whose buckets are all empty offers no peer for any goal.
pub proof fn lemma_peer_order_empty(t: Seq<Seq<NodeState>>, lz: int)
    requires
        t.len() == COORD_BITS,
        forall|b: int| 0 <= b < t.len() ==> (#[trigger] t[b]).len() == 0,
        0 <= lz <= COORD_BITS,
    ensures
        peer_order(t, lz).len() == 0,
{
    lemma_asc_empty(t, lz, COORD_BITS as int);
    lemma_desc_empty(t, lz, lz);
}

/// In a valid table, an identity sits in one slot at most.
pub proof fn lemma_ident_one_slot(t: Seq<Seq<NodeState>>, own: Seq<u8>, a: int, x: int, c: int, y: int)
    requires
        table_ok(t, own),
        0 <= a < t.len(),
        0 <= x < t[a].len(),
        0 <= c < t.len(),
        0 <= y < t[c].len(),
        t[a][x].node.ident@ == t[c][y].node.ident@,
    ensures
        a == c && x == y,
{
    assert(bucket_of(own, t[a][x].node.ident@) == a);
    assert(bucket_of(own, t[c][y].node.ident@) == c);
    if x != y {
        assert(t[a][x].node.ident@ != t[a][y].node.ident@);
    }
}

/// A full bucket whose peers all answer turns away a peer that it does not hold.
pub proof fn lemma_full_bucket_rejects(
    t: Seq<Seq<NodeState>>,
    own: Seq<u8>,
    id: Seq<u8>,
    node: Option<NodeInfo>,
)
    requires
        bucket_of(own, id) < COORD_BITS,
        t.len() == COORD_BITS,
        t[bucket_of(own, id) as int].len() == NEIGHBORHOOD,
        forall|i: int|
            0 <= i < t[bucket_of(own, id) as int].len() ==> !(#[trigger] t[bucket_of(own, id) as int][i]).unresponsive
                && t[bucket_of(own, id) as int][i].node.ident@ != id,
    ensures
        add_spec(t, own, id, node) == (t, false),
{
    let bucket = t[bucket_of(own, id) as int];
    lemma_last_unresponsive(bucket);
    if exists|j: int| 0 <= j < bucket.len() && bucket[j].node.ident@ == id {
        let j = choose|j: int| 0 <= j < bucket.len() && bucket[j].node.ident@ == id;
        assert(bucket[j].node.ident@ != id);
    }
}

/// The table after `mark_node_unresponsive(id, lz, flag)`.
pub open spec fn mark_spec(t: Seq<Seq<NodeState>>, id: Seq<u8>, lz: int, flag: bool) -> Seq<Seq<NodeState>> {
    if 0 <= lz < t.len() && slot_of(t[lz], id) >= 0 {
        let i = slot_of(t[lz], id);
        t.update(lz, t[lz].update(i, NodeState { node: t[lz][i].node, unresponsive: flag }))
    } else {
        t
    }
}

/// The peers of a bucket, in slot order.
pub open spec fn nodes_of(bucket: Seq<NodeState>) -> Seq<NodeInfo> {
    bucket.map_values(|s: NodeState| s.node)
}

/// The peers of buckets `lo .. hi`, bucket by bucket upwards.
pub open spec fn asc_range(t: Seq<Seq<NodeState>>, lo: int, hi: int) -> Seq<NodeInfo>
    decreases hi - lo,
{
    if hi <= lo {
        Seq::empty()
    } else {
        asc_range(t, lo, hi - 1) + nodes_of(t[hi - 1])
    }
}

/// The peers of the `m` buckets below `top`, bucket by bucket downwards.
pub open spec fn desc_range(t: Seq<Seq<NodeState>>, top: int, m: int) -> Seq<NodeInfo>
    decreases m,
{
    if m <= 0 {
        Seq::empty()
    } else {
        desc_range(t, top, m - 1) + nodes_of(t[top - m])
    }
}

/// The order in which peers are offered for a goal whose bucket is `lz`: that
/// bucket and those above it, then those below it, nearest first.
pub open spec fn peer_order(t: Seq<Seq<NodeState>>, lz: int) -> Seq<NodeInfo> {
    asc_range(t, lz, COORD_BITS as int) + desc_range(t, lz, lz)
}

/// The first `n` items of `s`, or all of them.
pub open spec fn cap<T>(s: Seq<T>, n: nat) -> Seq<T> {
    if s.len() <= n {
        s
    } else {
        s.take(n as int)
    }
}

/// Number of slots in a bucket whose flag is `flag`.
pub open spec fn bucket_count(s: Seq<NodeState>, flag: bool) -> nat
    decreases s.len(),
{
    if s.len() == 0 {
        0
    } else {
        bucket_count(s.drop_last(), flag) + if s.last().unresponsive == flag {
            1nat
        } else {
            0nat
        }
    }
}

/// Number of slots in buckets `0 .. b` whose flag is `flag`.
pub open spec fn table_count(t: Seq<Seq<NodeState>>, flag: bool, b: int) -> nat
    decreases b,
{
    if b <= 0 {
        0
    } else {
        table_count(t, flag, b - 1) + bucket_count(t[b - 1], flag)
    }
}

/// Whether some slot of the table holds `addr`.
pub open spec fn has_addr(t: Seq<Seq<NodeState>>, addr: PeerAddr) -> bool {
    exists|c: int, k: int| 0 <= c < t.len() && 0 <= k < t[c].len() && t[c][k].node.address == addr
}

proof fn lemma_bucket_count_bound(s: Seq<NodeState>, flag: bool)
    ensures
        bucket_count(s, flag) <= s.len(),
    decreases s.len(),
{
    if s.len() > 0 {
        lemma_bucket_count_bound(s.drop_last(), flag);
    }
}

proof fn lemma_table_count_bound(t: Seq<Seq<NodeState>>, flag: bool, b: int)
    requires
        0 <= b <= t.len(),
        forall|c: int| 0 <= c < t.len() ==> #[trigger] t[c].len() <= NEIGHBORHOOD,
    ensures
        table_count(t, flag, b) <= NEIGHBORHOOD * b,
    decreases b,
{
    if b > 0 {
        lemma_table_count_bound(t, flag, b - 1);
        lemma_bucket_count_bound(t[b - 1], flag);
    }
}

/// Changing only flags keeps the table's invariant.
proof fn lemma_flag_keeps(t: Seq<Seq<NodeState>>, own: Seq<u8>, b: int, f: int, flag: bool)
    requires
        table_ok(t, own),
        0 <= b < t.len(),
        0 <= f < t[b].len(),
    ensures
        table_ok(t.update(b, t[b].update(f, NodeState { node: t[b][f].node, unresponsive: flag })), own),
{
    let t1 = t.update(b, t[b].update(f, NodeState { node: t[b][f].node, unresponsive: flag }));
    assert forall|c: int, k: int| 0 <= c < t1.len() && 0 <= k < t1[c].len() implies (#[trigger] t1[c][k]).node
        == t[c][k].node by {}
    assert forall|c: int| 0 <= c < t1.len() implies #[trigger] t1[c].len() <= NEIGHBORHOOD by {
        assert(t[c].len() <= NEIGHBORHOOD);
    }
    assert forall|c: int, i: int| 0 <= c < t1.len() && 0 <= i < t1[c].len() implies bucket_of(
        own,
        #[trigger] t1[c][i].node.ident@,
    ) == c by {
        assert(bucket_of(own, t[c][i].node.ident@) == c);
    }
    assert forall|c: int, i: int, j: int|
        0 <= c < t1.len() && 0 <= i < t1[c].len() && 0 <= j < t1[c].len() && i != j implies #[trigger] t1[c][i].node.ident@
        != #[trigger] t1[c][j].node.ident@ by {
        assert(t[c][i].node.ident@ != t[c][j].node.ident@);
    }
    assert forall|b1: int, i1: int, b2: int, i2: int|
        0 <= b1 < t1.len() && 0 <= i1 < t1[b1].len() && 0 <= b2 < t1.len() && 0 <= i2 < t1[b2].len()
            && (b1 != b2 || i1 != i2) implies #[trigger] t1[b1][i1].node.address
        != #[trigger] t1[b2][i2].node.address by {
        assert(t[b1][i1].node.address != t[b2][i2].node.address);
    }
}

/// The peers of buckets `b ..` up to the top, bucket by bucket upwards.
pub open spec fn asc_range_from(t: Seq<Seq<NodeState>>, b: int) -> Seq<NodeInfo>
    decreases COORD_BITS - b,
{
    if b >= COORD_BITS {
        Seq::empty()
    } else {
        nodes_of(t[b]) + asc_range_from(t, b + 1)
    }
}

/// The peers of the buckets below `top`, from the `m`-th one below it downwards.
pub open spec fn desc_range_from(t: Seq<Seq<NodeState>>, top: int, m: int) -> Seq<NodeInfo>
    decreases top - m,
{
    if m >= top {
        Seq::empty()
    } else {
        nodes_of(t[top - 1 - m]) + desc_range_from(t, top, m + 1)
    }
}

proof fn lemma_cap_prefix<T>(x: Seq<T>, y: Seq<T>, n: nat)
    requires
        x.len() == n,
    ensures
        cap(x + y, n) == x,
{
    assert((x + y).take(n as int) =~= x);
}

proof fn lemma_asc_whole(t: Seq<Seq<NodeState>>, lo: int, b: int)
    requires
        0 <= lo <= b <= COORD_BITS,
    ensures
        asc_range(t, lo, b) + asc_range_from(t, b) == asc_range(t, lo, COORD_BITS as int),
    decreases COORD_BITS - b,
{
    if b < COORD_BITS {
        lemma_asc_whole(t, lo, b + 1);
        assert(asc_range(t, lo, b + 1) == asc_range(t, lo, b) + nodes_of(t[b]));
        assert((asc_range(t, lo, b) + nodes_of(t[b])) + asc_range_from(t, b + 1) =~= asc_range(t, lo, b) + (
        nodes_of(t[b]) + asc_range_from(t, b + 1)));
    } else {
        assert(asc_range(t, lo, b) + asc_range_from(t, b) =~= asc_range(t, lo, b));
    }
}

proof fn lemma_asc_split(t: Seq<Seq<NodeState>>, lo: int, b: int, i: int)
    requires
        0 <= lo <= b <= COORD_BITS,
        b < COORD_BITS ==> 0 <= i <= t[b].len(),
        b == COORD_BITS ==> i == 0,
    ensures
        b < COORD_BITS ==> (asc_range(t, lo, b) + nodes_of(t[b]).take(i)) + (nodes_of(t[b]).skip(i)
            + asc_range_from(t, b + 1) + desc_range(t, lo, lo)) == peer_order(t, lo),
        (asc_range(t, lo, b)) + (asc_range_from(t, b) + desc_range(t, lo, lo)) == peer_order(t, lo),
{
    lemma_asc_whole(t, lo, b);
    assert((asc_range(t, lo, b)) + (asc_range_from(t, b) + desc_range(t, lo, lo)) =~= peer_order(t, lo));
    if b < COORD_BITS {
        let nb = nodes_of(t[b]);
        assert(nb.take(i) + nb.skip(i) =~= nb);
        assert(asc_range_from(t, b) == nb + asc_range_from(t, b + 1));
        assert((asc_range(t, lo, b) + nb.take(i)) + (nb.skip(i) + asc_range_from(t, b + 1) + desc_range(
            t,
            lo,
            lo,
        )) =~= asc_range(t, lo, b) + (asc_range_from(t, b) + desc_range(t, lo, lo)));
    }
}

proof fn lemma_desc_whole(t: Seq<Seq<NodeState>>, top: int, m: int)
    requires
        0 <= m <= top,
    ensures
        desc_range(t, top, m) + desc_range_from(t, top, m) == desc_range(t, top, top),
    decreases top - m,
{
    if m < top {
        lemma_desc_whole(t, top, m + 1);
        assert(desc_range(t, top, m + 1) == desc_range(t, top, m) + nodes_of(t[top - (m + 1)]));
        assert((desc_range(t, top, m) + nodes_of(t[top - 1 - m])) + desc_range_from(t, top, m + 1)
            =~= desc_range(t, top, m) + (nodes_of(t[top - 1 - m]) + desc_range_from(t, top, m + 1)));
    } else {
        assert(desc_range(t, top, m) + desc_range_from(t, top, m) =~= desc_range(t, top, m));
    }
}

proof fn lemma_desc_split(t: Seq<Seq<NodeState>>, top: int, m: int, i: int)
    requires
        0 <= m < top <= COORD_BITS,
        0 <= i <= t[top - 1 - m].len(),
    ensures
        (asc_range(t, top, COORD_BITS as int) + desc_range(t, top, m) + nodes_of(t[top - 1 - m]).take(i))
            + (nodes_of(t[top - 1 - m]).skip(i) + desc_range_from(t, top, m + 1)) == peer_order(t, top),
        (asc_range(t, top, COORD_BITS as int) + desc_range(t, top, m)) + desc_range_from(t, top, m)
            == peer_order(t, top),
{
    lemma_desc_whole(t, top, m);
    let nb = nodes_of(t[top - 1 - m]);
    assert(nb.take(i) + nb.skip(i) =~= nb);
    assert(desc_range_from(t, top, m) == nb + desc_range_from(t, top, m + 1));
    let a = asc_range(t, top, COORD_BITS as int);
    let d = desc_range(t, top, m);
    assert((a + d + nb.take(i)) + (nb.skip(i) + desc_range_from(t, top, m + 1)) =~= a + (d
        + desc_range_from(t, top, m)));
    assert((a + d) + desc_range_from(t, top, m) =~= a + (d + desc_range_from(t, top, m)));
}

/// The routing table: one bucket of peers per leading-zero count of the XOR of a
/// peer's coordinate with the node's own.
pub struct Buckets {
    own_ident: NodeIdentity,
    own_coord: DhtCoord,
    buckets: Vec<Vec<NodeState>>,
    dirty: bool,
}

impl Buckets {
    /// The node's own identity.
    pub closed spec fn own_id(&self) -> Seq<u8> {
        self.own_ident@
    }

    /// The node's own coordinate.
    pub closed spec fn own(&self) -> Seq<u8> {
        self.own_coord@
    }

    /// Whether the table changed since the flag was last cleared.
    pub closed spec fn is_dirty(&self) -> bool {
        self.dirty
    }

    /// The buckets, each as a sequence of slots.
    pub closed spec fn table(&self) -> Seq<Seq<NodeState>> {
        self.buckets@.map_values(|b: Vec<NodeState>| b@)
    }

    /// The table's invariant.
    pub closed spec fn wf(&self) -> bool {
        &&& self.own_coord@ == coord_of(self.own_ident@)
        &&& sizes_ok(self.table())
        &&& slots_placed(self.table(), self.own_coord@)
        &&& idents_unique(self.table())
        &&& addrs_unique(self.table())
    }

    /// Every peer sits in the bucket that its coordinate selects, and no address
    /// is held by two slots: an address in the table maps to exactly one identity.
    pub proof fn lemma_table_invariants(&self)
        requires
            self.wf(),
        ensures
            table_ok(self.table(), self.own()),
            self.own() == coord_of(self.own_id()),
            forall|b: int, i: int|
                0 <= b < self.table().len() && 0 <= i < self.table()[b].len() ==> bucket_of(
                    self.own(),
                    #[trigger] self.table()[b][i].node.ident@,
                ) == b,
            forall|b1: int, i1: int, b2: int, i2: int|
                0 <= b1 < self.table().len() && 0 <= i1 < self.table()[b1].len() && 0 <= b2
                    < self.table().len() && 0 <= i2 < self.table()[b2].len()
                    && #[trigger] self.table()[b1][i1].node.address
                    == #[trigger] self.table()[b2][i2].node.address ==> b1 == b2 && i1 == i2,
    {
    }

    /// An empty table for the node `own_ident`.
    pub fn new(own_ident: NodeIdentity) -> (r: Buckets)
        ensures
            r.wf(),
            r.own_id() == own_ident@,
            r.own() == coord_of(own_ident@),
            r.table() == Seq::new(COORD_BITS as nat, |b: int| Seq::<NodeState>::empty()),
            !r.is_dirty(),
    {
        let mut buckets: Vec<Vec<NodeState>> = Vec::new();
        for b in 0..COORD_BITS
            invariant
                buckets@.len() == b,
                forall|c: int| 0 <= c < b ==> (#[trigger] buckets@[c])@.len() == 0,
        {
            buckets.push(Vec::new());
        }
        let r = Buckets { own_ident, own_coord: node_ident_coord(&own_ident), buckets, dirty: false };
        assert forall|c: int| 0 <= c < COORD_BITS implies r.table()[c] =~= Seq::<NodeState>::empty() by {
            assert(r.buckets@[c]@.len() == 0);
        }
        assert(r.table() =~= Seq::new(COORD_BITS as nat, |b: int| Seq::<NodeState>::empty()));
        r
    }

    /// Removes the slot that holds `addr` for an identity other than `keep`.
    fn evict_address(&mut self, addr: PeerAddr, keep: &NodeIdentity) -> (removed: bool)
        requires
            old(self).table().len() == COORD_BITS,
            one_holder(old(self).table(), addr, keep@),
        ensures
            final(self).table() == evict_addr(old(self).table(), addr, keep@),
            final(self).own_ident == old(self).own_ident,
            final(self).own_coord == old(self).own_coord,
            final(self).dirty == old(self).dirty,
            removed == exists|c: int, k: int| holds_addr(old(self).table(), addr, keep@, c, k),
    {
        let ghost t = self.table();
        let mut c: usize = 0;
        while c < COORD_BITS
            invariant
                self.table() == t,
                t == old(self).table(),
                t.len() == COORD_BITS,
                self.buckets@.len() == COORD_BITS,
                one_holder(t, addr, keep@),
                0 <= c <= COORD_BITS,
                forall|c1: int, k1: int| 0 <= c1 < c ==> !holds_addr(t, addr, keep@, c1, k1),
                self.own_ident == old(self).own_ident,
                self.own_coord == old(self).own_coord,
                self.dirty == old(self).dirty,
            decreases COORD_BITS - c,
        {
            let n = self.buckets[c].len();
            let mut k: usize = 0;
            while k < n
                invariant
                    self.table() == t,
                    t == old(self).table(),
                    t.len() == COORD_BITS,
                    self.buckets@.len() == COORD_BITS,
                    0 <= c < COORD_BITS,
                    n == t[c as int].len(),
                    0 <= k <= n,
                    one_holder(t, addr, keep@),
                    forall|c1: int, k1: int| 0 <= c1 < c ==> !holds_addr(t, addr, keep@, c1, k1),
                    forall|k1: int| 0 <= k1 < k ==> !holds_addr(t, addr, keep@, c as int, k1),
                    self.own_ident == old(self).own_ident,
                    self.own_coord == old(self).own_coord,
                    self.dirty == old(self).dirty,
                decreases n - k,
            {
                assert(self.buckets@[c as int]@ == t[c as int]);
                let slot = self.buckets[c][k];
                if slot.node.address == addr && !(slot.node.ident == *keep) {
                    assert(holds_addr(t, addr, keep@, c as int, k as int));
                    self.buckets[c].remove(k);
                    proof {
                        assert(exists|c2: int, k2: int| holds_addr(t, addr, keep@, c2, k2));
                        let (c2, k2) = choose|c2: int, k2: int| holds_addr(t, addr, keep@, c2, k2);
                        assert(holds_addr(t, addr, keep@, c2, k2));
                        assert(c2 == c && k2 == k);
                        assert(evict_addr(t, addr, keep@) == t.update(c as int, t[c as int].remove(k as int)));
                        assert(self.table() =~= t.update(c as int, t[c as int].remove(k as int)));
                    }
                    return true;
                }
                k = k + 1;
            }
            c = c + 1;
        }
        false
    }

    /// Sets the liveness flag of the slot of `key` in bucket `leading_zeros`, if
    /// the bucket holds it.
    pub fn mark_node_unresponsive(&mut self, key: &NodeIdentity, leading_zeros: usize, unresponsive: bool)
        requires
            old(self).wf(),
        ensures
            final(self).wf(),
            final(self).table() == mark_spec(old(self).table(), key@, leading_zeros as int, unresponsive),
            final(self).own_id() == old(self).own_id(),
            final(self).own() == old(self).own(),
            final(self).is_dirty() == (old(self).is_dirty() || final(self).table() != old(self).table()),
    {
        let ghost t = self.table();
        if leading_zeros >= COORD_BITS {
            return;
        }
        let b = leading_zeros;
        assert(self.buckets@[b as int]@ == t[b as int]);
        let n = self.buckets[b].len();
        let mut i: usize = 0;
        while i < n
            invariant
                self.table() == t,
                t == old(self).table(),
                self.wf(),
                0 <= b < COORD_BITS,
                n == t[b as int].len(),
                0 <= i <= n,
                forall|j: int| 0 <= j < i ==> t[b as int][j].node.ident@ != key@,
                b == leading_zeros,
                self.dirty == old(self).dirty,
                self.own_ident == old(self).own_ident,
                self.own_coord == old(self).own_coord,
            decreases n - i,
        {
            assert(self.buckets@[b as int]@ == t[b as int]);
            let slot = self.buckets[b][i];
            assert(slot == t[b as int][i as int]);
            if slot.node.ident == *key {
                proof {
                    assert(exists|j: int| 0 <= j < t[b as int].len() && t[b as int][j].node.ident@ == key@);
                    let ch = choose|j: int| 0 <= j < t[b as int].len() && t[b as int][j].node.ident@ == key@;
                    if ch != i {
                        assert(t[b as int][ch].node.ident@ != t[b as int][i as int].node.ident@);
                    }
                    assert(slot_of(t[b as int], key@) == i);
                    lemma_flag_keeps(t, self.own_coord@, b as int, i as int, unresponsive);
                }
                if slot.unresponsive != unresponsive {
                    self.buckets[b][i] = NodeState { node: slot.node, unresponsive };
                    self.dirty = true;
                    proof {
                        assert(self.table() =~= mark_spec(t, key@, b as int, unresponsive));
                        assert(self.table()[b as int][i as int] != t[b as int][i as int]);
                    }
                } else {
                    proof {
                        assert(t[b as int].update(i as int, NodeState { node: slot.node, unresponsive }) =~= t[b as int]);
                        assert(t.update(b as int, t[b as int]) =~= t);
                        assert(mark_spec(t, key@, b as int, unresponsive) == t);
                    }
                }
                return;
            }
            i = i + 1;
        }
        proof {
            if exists|j: int| 0 <= j < t[b as int].len() && t[b as int][j].node.ident@ == key@ {
                let j = choose|j: int| 0 <= j < t[b as int].len() && t[b as int][j].node.ident@ == key@;
                assert(t[b as int][j].node.ident@ != key@);
            }
        }
    }

    /// Up to `count` peers, starting at the bucket of `goal_coord` and going up
    /// through the buckets nearer to this node, then down from the bucket below
    /// it. Unresponsive peers are included.
    pub fn get_closest_peers(&self, goal_coord: &DhtCoord, count: usize) -> (r: Vec<NodeInfo>)
        requires
            self.wf(),
        ensures
            r@ == cap(
                peer_order(self.table(), leading_zeros(xor_seq(goal_coord@, self.own())) as int),
                count as nat,
            ),
    {
        let ghost t = self.table();
        let (lz, _) = dist(goal_coord, &self.own_coord);
        let mut nodes: Vec<NodeInfo> = Vec::new();
        let mut b: usize = lz;
        while b < COORD_BITS && nodes.len() < count
            invariant
                self.wf(),
                t == self.table(),
                lz as nat == leading_zeros(xor_seq(goal_coord@, self.own())),
                lz <= b <= COORD_BITS,
                nodes@ == asc_range(t, lz as int, b as int),
                nodes@.len() <= count,
            decreases COORD_BITS - b,
        {
            assert(self.buckets@[b as int]@ == t[b as int]);
            let n = self.buckets[b].len();
            let mut i: usize = 0;
            while i < n && nodes.len() < count
                invariant
                    self.wf(),
                    t == self.table(),
                    lz as nat == leading_zeros(xor_seq(goal_coord@, self.own())),
                lz as nat == leading_zeros(xor_seq(goal_coord@, self.own())),
                    lz <= b < COORD_BITS,
                    n == t[b as int].len(),
                    0 <= i <= n,
                    nodes@ == asc_range(t, lz as int, b as int) + nodes_of(t[b as int]).take(i as int),
                    nodes@.len() <= count,
                decreases n - i,
            {
                assert(self.buckets@[b as int]@ == t[b as int]);
                nodes.push(self.buckets[b][i].node);
                proof {
                    assert(nodes_of(t[b as int]).take(i + 1) =~= nodes_of(t[b as int]).take(i as int).push(
                        t[b as int][i as int].node,
                    ));
                }
                i = i + 1;
            }
            if i < n {
                proof {
                    let x = asc_range(t, lz as int, b as int) + nodes_of(t[b as int]).take(i as int);
                    let y = nodes_of(t[b as int]).skip(i as int) + asc_range_from(t, b as int + 1) + desc_range(
                        t,
                        lz as int,
                        lz as int,
                    );
                    assert(nodes@.len() == count);
                    lemma_cap_prefix(x, y, count as nat);
                    lemma_asc_split(t, lz as int, b as int, i as int);
                    assert(x + y == peer_order(t, lz as int));
                }
                return nodes;
            }
            proof {
                assert(nodes_of(t[b as int]).take(n as int) =~= nodes_of(t[b as int]));
            }
            b = b + 1;
        }
        if nodes.len() >= count {
            proof {
                lemma_cap_prefix(
                    asc_range(t, lz as int, b as int),
                    asc_range_from(t, b as int) + desc_range(t, lz as int, lz as int),
                    count as nat,
                );
                lemma_asc_split(t, lz as int, b as int, 0);
                assert(nodes_of(t[b as int]).take(0) =~= Seq::<NodeInfo>::empty()) by {
                    if b < COORD_BITS {}
                };
            }
            return nodes;
        }
        let mut m: usize = 0;
        while m < lz && nodes.len() < count
            invariant
                self.wf(),
                t == self.table(),
                lz as nat == leading_zeros(xor_seq(goal_coord@, self.own())),
                lz <= COORD_BITS,
                0 <= m <= lz,
                nodes@ == asc_range(t, lz as int, COORD_BITS as int) + desc_range(t, lz as int, m as int),
                nodes@.len() <= count,
            decreases lz - m,
        {
            let c = lz - 1 - m;
            assert(self.buckets@[c as int]@ == t[c as int]);
            let n = self.buckets[c].len();
            let mut i: usize = 0;
            while i < n && nodes.len() < count
                invariant
                    self.wf(),
                    t == self.table(),
                    lz as nat == leading_zeros(xor_seq(goal_coord@, self.own())),
                lz as nat == leading_zeros(xor_seq(goal_coord@, self.own())),
                    0 <= m < lz <= COORD_BITS,
                    c == lz - 1 - m,
                    n == t[c as int].len(),
                    0 <= i <= n,
                    nodes@ == asc_range(t, lz as int, COORD_BITS as int) + desc_range(t, lz as int, m as int)
                        + nodes_of(t[c as int]).take(i as int),
                    nodes@.len() <= count,
                decreases n - i,
            {
                assert(self.buckets@[c as int]@ == t[c as int]);
                nodes.push(self.buckets[c][i].node);
                proof {
                    assert(nodes_of(t[c as int]).take(i + 1) =~= nodes_of(t[c as int]).take(i as int).push(
                        t[c as int][i as int].node,
                    ));
                }
                i = i + 1;
            }
            if i < n {
                proof {
                    let x = asc_range(t, lz as int, COORD_BITS as int) + desc_range(t, lz as int, m as int)
                        + nodes_of(t[c as int]).take(i as int);
                    let y = nodes_of(t[c as int]).skip(i as int) + desc_range_from(t, lz as int, m as int + 1);
                    assert(nodes@.len() == count);
                    lemma_cap_prefix(x, y, count as nat);
                    lemma_desc_split(t, lz as int, m as int, i as int);
                    assert(c == lz - 1 - m);
                    assert(x + y == peer_order(t, lz as int));
                }
                return nodes;
            }
            proof {
                assert(nodes_of(t[c as int]).take(n as int) =~= nodes_of(t[c as int]));
            }
            m = m + 1;
        }
        proof {
            if m < lz {
                lemma_cap_prefix(
                    asc_range(t, lz as int, COORD_BITS as int) + desc_range(t, lz as int, m as int),
                    desc_range_from(t, lz as int, m as int),
                    count as nat,
                );
                lemma_desc_split(t, lz as int, m as int, 0);
                assert(nodes_of(t[lz - 1 - m]).take(0) =~= Seq::<NodeInfo>::empty());
            } else {
                assert(nodes@ == peer_order(t, lz as int));
            }
        }
        nodes
    }

    /// Number of responsive and of unresponsive peers in the table.
    pub fn health_counts(&self) -> (r: (usize, usize))
        requires
            self.wf(),
        ensures
            r.0 as nat == table_count(self.table(), false, COORD_BITS as int),
            r.1 as nat == table_count(self.table(), true, COORD_BITS as int),
    {
        let ghost t = self.table();
        let mut responsive: usize = 0;
        let mut unresponsive: usize = 0;
        for b in 0..COORD_BITS
            invariant
                self.wf(),
                t == self.table(),
                responsive as nat == table_count(t, false, b as int),
                unresponsive as nat == table_count(t, true, b as int),
        {
            assert(self.buckets@[b as int]@ == t[b as int]);
            let n = self.buckets[b].len();
            let ghost before_r = responsive as nat;
            let ghost before_u = unresponsive as nat;
            proof {
                lemma_table_count_bound(t, false, b as int);
                lemma_table_count_bound(t, true, b as int);
            }
            for i in 0..n
                invariant
                    self.wf(),
                    t == self.table(),
                    0 <= b < COORD_BITS,
                    n == t[b as int].len(),
                    before_r == table_count(t, false, b as int),
                    before_u == table_count(t, true, b as int),
                    before_r <= NEIGHBORHOOD * b,
                    before_u <= NEIGHBORHOOD * b,
                    responsive as nat == before_r + bucket_count(t[b as int].take(i as int), false),
                    unresponsive as nat == before_u + bucket_count(t[b as int].take(i as int), true),
            {
                assert(self.buckets@[b as int]@ == t[b as int]);
                proof {
                    assert(t[b as int].take(i + 1).drop_last() =~= t[b as int].take(i as int));
                    lemma_bucket_count_bound(t[b as int].take(i as int), false);
                    lemma_bucket_count_bound(t[b as int].take(i as int), true);
                }
                if self.buckets[b][i].unresponsive {
                    unresponsive = unresponsive + 1;
                } else {
                    responsive = responsive + 1;
                }
            }
            proof {
                assert(t[b as int].take(n as int) =~= t[b as int]);
            }
        }
        (responsive, unresponsive)
    }

    /// The node's own identity.
    pub fn own_ident(&self) -> (r: NodeIdentity)
        ensures
            r@ == self.own_id(),
    {
        self.own_ident
    }

    /// The node's own coordinate.
    pub fn own_coord(&self) -> (r: DhtCoord)
        ensures
            r@ == self.own(),
    {
        self.own_coord
    }

    /// Clears the change flag and returns its former value.
    pub fn take_dirty(&mut self) -> (r: bool)
        requires
            old(self).wf(),
        ensures
            final(self).wf(),
            r == old(self).is_dirty(),
            !final(self).is_dirty(),
            final(self).table() == old(self).table(),
            final(self).own_id() == old(self).own_id(),
            final(self).own() == old(self).own(),
    {
        let r = self.dirty;
        self.dirty = false;
        r
    }

    /// Sets the change flag, so that the table is persisted again.
    pub fn set_dirty(&mut self)
        requires
            old(self).wf(),
        ensures
            final(self).wf(),
            final(self).is_dirty(),
            final(self).table() == old(self).table(),
            final(self).own_id() == old(self).own_id(),
            final(self).own() == old(self).own(),
    {
        self.dirty = true;
    }

    /// The slots of bucket `b`.
    pub fn bucket(&self, b: usize) -> (r: Vec<NodeState>)
        requires
            self.wf(),
            b < COORD_BITS,
        ensures
            r@ == self.table()[b as int],
    {
        assert(self.buckets@[b as int]@ == self.table()[b as int]);
        let mut out: Vec<NodeState> = Vec::new();
        let n = self.buckets[b].len();
        for i in 0..n
            invariant
                self.wf(),
                b < COORD_BITS,
                n == self.table()[b as int].len(),
                self.buckets@[b as int]@ == self.table()[b as int],
                out@ == self.table()[b as int].take(i as int),
        {
            out.push(self.buckets[b][i]);
            assert(out@ =~= self.table()[b as int].take(i + 1));
        }
        assert(out@ =~= self.table()[b as int]);
        out
    }

    /// Adds a peer that proved its identity, or refreshes its slot, and returns
    /// whether `id` was new to the table. With no `node` it only reports whether
    /// `id` would be new. Its own identity is never added.
    pub fn add_good_node(&mut self, id: NodeIdentity, node: Option<NodeInfo>) -> (r: bool)
        requires
            old(self).wf(),
            node matches Some(n) ==> n.ident@ == id@,
        ensures
            final(self).wf(),
            (final(self).table(), r) == add_spec(old(self).table(), old(self).own(), id@, node),
            final(self).own_id() == old(self).own_id(),
            final(self).own() == old(self).own(),
            final(self).is_dirty() == (old(self).is_dirty() || final(self).table() != old(self).table()),
    {
        let ghost t = self.table();
        let ghost own = self.own_coord@;
        if id == self.own_ident {
            proof {
                lemma_self_distance(coord_of(id@));
            }
            return false;
        }
        let (b, _) = dist(&node_ident_coord(&id), &self.own_coord);
        if b >= COORD_BITS {
            return false;
        }
        assert(self.buckets@[b as int]@ == t[b as int]);
        let n = self.buckets[b].len();
        let mut found = false;
        let mut last_unresp: usize = n;
        let mut i: usize = 0;
        while i < n && !found
            invariant
                self.table() == t,
                t == old(self).table(),
                self.wf(),
                own == self.own_coord@,
                0 <= b < COORD_BITS,
                n == t[b as int].len(),
                0 <= i <= n,
                found ==> i < n && t[b as int][i as int].node.ident@ == id@,
                forall|j: int| 0 <= j < i && !(found && j == i) ==> t[b as int][j].node.ident@ != id@,
                !found ==> (last_unresp < n && last_unresponsive(t[b as int].take(i as int))
                    == last_unresp) || (last_unresp == n && last_unresponsive(
                    t[b as int].take(i as int),
                ) == -1),
            decreases n - i + if found { 0int } else { 1int },
        {
            assert(self.buckets@[b as int]@ == t[b as int]);
            let slot = self.buckets[b][i];
            if slot.node.ident == id {
                found = true;
            } else {
                if slot.unresponsive {
                    last_unresp = i;
                }
                proof {
                    assert(t[b as int].take(i + 1).drop_last() =~= t[b as int].take(i as int));
                }
                i = i + 1;
            }
        }
        proof {
            assert(t[b as int].take(n as int) =~= t[b as int]);
        }
        if found {
            proof {
                assert(exists|j: int| 0 <= j < t[b as int].len() && t[b as int][j].node.ident@ == id@);
                let ch = choose|j: int| 0 <= j < t[b as int].len() && t[b as int][j].node.ident@ == id@;
                if ch != i {
                    assert(t[b as int][ch].node.ident@ != t[b as int][i as int].node.ident@);
                }
                assert(slot_of(t[b as int], id@) == i);
            }
            match node {
                None => {
                    let slot = self.buckets[b][i];
                    let cleared = NodeState { node: slot.node, unresponsive: false };
                    proof {
                        lemma_flag_keeps(t, own, b as int, i as int, false);
                    }
                    if slot.unresponsive {
                        self.buckets[b][i] = cleared;
                        self.dirty = true;
                        proof {
                            assert(self.table() =~= t.update(b as int, t[b as int].update(i as int, cleared)));
                            assert(self.table()[b as int][i as int] != t[b as int][i as int]);
                        }
                    } else {
                        proof {
                            assert(cleared == t[b as int][i as int]);
                            assert(t[b as int].update(i as int, cleared) =~= t[b as int]);
                            assert(t.update(b as int, t[b as int]) =~= t);
                        }
                    }
                    return false;
                },
                Some(nd) => {
                    let old_slot = self.buckets[b][i];
                    let ns = NodeState { node: nd, unresponsive: false };
                    let same = !old_slot.unresponsive && old_slot.node.address == nd.address;
                    self.buckets[b][i] = ns;
                    let ghost t1 = t.update(b as int, t[b as int].update(i as int, ns));
                    proof {
                        lemma_update_keeps(t, own, b as int, i as int, ns);
                        lemma_evict_keeps(t1, own, nd.address, id@);
                        assert(self.table() =~= t1);
                    }
                    let removed = self.evict_address(nd.address, &id);
                    if !same || removed {
                        self.dirty = true;
                        proof {
                            if removed {
                                let (c, k) = choose|c: int, k: int| holds_addr(t1, nd.address, id@, c, k);
                                assert(self.table()[c].len() == t1[c].len() - 1);
                                assert(self.table()[c] != t[c]);
                            } else {
                                assert(self.table()[b as int][i as int] == ns);
                                assert(self.table()[b as int][i as int] != t[b as int][i as int]);
                            }
                        }
                    } else {
                        proof {
                            assert(old_slot.node.ident.key =~= nd.ident.key);
                            assert(ns == t[b as int][i as int]);
                            assert(t[b as int].update(i as int, ns) =~= t[b as int]);
                            assert(t1 =~= t);
                        }
                    }
                    return false;
                },
            }
        }
        if n < NEIGHBORHOOD {
            match node {
                None => {
                    return true;
                },
                Some(nd) => {
                    let ns = NodeState { node: nd, unresponsive: false };
                    self.buckets[b].insert(0, ns);
                    let ghost t1 = t.update(b as int, t[b as int].insert(0, ns));
                    proof {
                        lemma_insert_keeps(t, own, b as int, 0, ns);
                        lemma_evict_keeps(t1, own, nd.address, id@);
                        assert(self.table() =~= t1);
                        assert(t[b as int].insert(0, ns) =~= seq![ns] + t[b as int]);
                    }
                    self.evict_address(nd.address, &id);
                    proof {
                        lemma_evict_keeps_slot(t1, nd.address, id@, b as int, 0);
                        let g = choose|g: int| 0 <= g < self.table()[b as int].len() && self.table()[b as int][g] == t1[b as int][0];
                        if self.table() == t {
                            assert(t[b as int][g].node.ident@ == id@);
                        }
                    }
                    self.dirty = true;
                    return true;
                },
            }
        }
        if last_unresp < n {
            match node {
                None => {
                    return true;
                },
                Some(nd) => {
                    let ns = NodeState { node: nd, unresponsive: false };
                    self.buckets[b].remove(last_unresp);
                    let ghost t0 = t.update(b as int, t[b as int].remove(last_unresp as int));
                    proof {
                        lemma_remove_keeps(t, own, b as int, last_unresp as int, nd.address, id@);
                        assert(self.table() =~= t0);
                        assert forall|j: int| 0 <= j < t0[b as int].len() implies t0[b as int][j].node.ident@
                            != id@ by {
                            if j >= last_unresp {
                                assert(t0[b as int][j] == t[b as int][j + 1]);
                            } else {
                                assert(t0[b as int][j] == t[b as int][j]);
                            }
                        }
                    }
                    self.buckets[b].push(ns);
                    let ghost t1 = t0.update(b as int, t0[b as int].insert(t0[b as int].len() as int, ns));
                    proof {
                        lemma_insert_keeps(t0, own, b as int, t0[b as int].len() as int, ns);
                        lemma_evict_keeps(t1, own, nd.address, id@);
                        assert(t0[b as int].insert(t0[b as int].len() as int, ns) =~= t[b as int].remove(
                            last_unresp as int,
                        ).push(ns));
                        assert(t1 =~= t.update(b as int, t[b as int].remove(last_unresp as int).push(ns)));
                        assert(self.table() =~= t1);
                    }
                    self.evict_address(nd.address, &id);
                    proof {
                        let p = t0[b as int].len() as int;
                        lemma_evict_keeps_slot(t1, nd.address, id@, b as int, p);
                        let g = choose|g: int| 0 <= g < self.table()[b as int].len() && self.table()[b as int][g] == t1[b as int][p];
                        if self.table() == t {
                            assert(t[b as int][g].node.ident@ == id@);
                        }
                    }
                    self.dirty = true;
                    return true;
                },
            }
        }
        false
    }
}

} // verus!
