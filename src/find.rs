use vstd::prelude::*;
use crate::coord::{
    DhtCoord,
    dist,
    coord_lt,
    coord_eq,
    lex_lt,
    xor_seq,
    lemma_lex_transitive,
    lemma_lex_total,
    lemma_lex_irreflexive,
};
use crate::identity::{
    NodeIdentity,
    Identity,
    coord_of,
    node_ident_coord,
    ident_coord,
};
use crate::routing::{
    NodeInfo,
    NEIGHBORHOOD,
};
use crate::announcement::{
    Announcement,
    verified_published,
    expired,
    EXPIRY_MS,
};
use crate::outside::{
    random_bytes32,
    bytes_eq_ct,
};

verus! {

/// Most requests that one find keeps in flight.
pub const PARALLEL: usize = 3;

/// Milliseconds without progress after which a request, or a find, gives up.
pub const REQ_TIMEOUT_MS: u64 = 5000;

/// What a find looks for: the peers nearest a coordinate, or the announcement
/// of an identity (and the peers nearest it).
#[derive(Clone, Copy, Debug)]
pub enum FindGoal {
    Coord(DhtCoord),
    Identity(Identity),
}

/// The coordinate that a goal is about.
pub open spec fn goal_coord_of(g: FindGoal) -> Seq<u8> {
    match g {
        FindGoal::Coord(c) => c@,
        FindGoal::Identity(i) => coord_of(i@),
    }
}

impl FindGoal {
    /// The coordinate that the goal is about.
    pub fn coord(&self) -> (r: DhtCoord)
        ensures
            r@ == goal_coord_of(*self),
    {
        match self {
            FindGoal::Coord(c) => *c,
            FindGoal::Identity(i) => ident_coord(i),
        }
    }

    /// Whether two goals are the same.
    pub fn same(&self, o: &FindGoal) -> (r: bool)
        ensures
            r == goal_same(*self, *o),
    {
        match (self, o) {
            (FindGoal::Coord(a), FindGoal::Coord(b)) => coord_eq(a, b),
            (FindGoal::Identity(a), FindGoal::Identity(b)) => *a == *b,
            _ => false,
        }
    }
}

/// Two goals ask for the same thing.
pub open spec fn goal_same(a: FindGoal, b: FindGoal) -> bool {
    match (a, b) {
        (FindGoal::Coord(x), FindGoal::Coord(y)) => x@ == y@,
        (FindGoal::Identity(x), FindGoal::Identity(y)) => x@ == y@,
        _ => false,
    }
}

/// A member of a find's nearest set: this node itself, or a peer that answered.
#[derive(Clone, Copy, Debug)]
pub enum NearestNode {
    Self_,
    Node(NodeInfo),
}

/// An entry of the nearest set, with its distance to the goal.
#[derive(Clone, Copy, Debug)]
pub struct NearestEntry {
    pub dist: DhtCoord,
    pub node: NearestNode,
}

/// A peer that a find is waiting on, with its distance to the goal and the
/// challenge that its answer must echo.
#[derive(Clone, Copy, Debug)]
pub struct OutstandingEntry {
    pub dist: DhtCoord,
    pub challenge: [u8; 32],
    pub node: NodeInfo,
}

/// A `FindRequest` to send: to whom, and with which challenge.
#[derive(Clone, Copy, Debug)]
pub struct FindRequestOut {
    pub node: NodeInfo,
    pub challenge: [u8; 32],
}

/// The identity of a nearest-set entry, where `own` is this node's.
pub open spec fn near_ident(e: NearestEntry, own: Seq<u8>) -> Seq<u8> {
    match e.node {
        NearestNode::Self_ => own,
        NearestNode::Node(n) => n.ident@,
    }
}

/// Distances of a nearest set, in order.
pub open spec fn near_dists(s: Seq<NearestEntry>) -> Seq<Seq<u8>> {
    s.map_values(|e: NearestEntry| e.dist@)
}

/// Distances of an outstanding set, in order.
pub open spec fn out_dists(s: Seq<OutstandingEntry>) -> Seq<Seq<u8>> {
    s.map_values(|e: OutstandingEntry| e.dist@)
}

/// Strictly ascending.
pub open spec fn sorted_strict(d: Seq<Seq<u8>>) -> bool {
    forall|i: int, j: int| 0 <= i < j < d.len() ==> lex_lt(#[trigger] d[i], #[trigger] d[j])
}

/// Every item is a 32-byte coordinate.
pub open spec fn all_coords(d: Seq<Seq<u8>>) -> bool {
    forall|i: int| 0 <= i < d.len() ==> (#[trigger] d[i]).len() == 32
}

/// Number of leading items of a sorted sequence that come before `x`.
pub open spec fn lower_bound(d: Seq<Seq<u8>>, x: Seq<u8>) -> int
    decreases d.len(),
{
    if d.len() == 0 {
        0
    } else if lex_lt(d[0], x) {
        1 + lower_bound(d.drop_first(), x)
    } else {
        0
    }
}

proof fn lemma_lower_bound(d: Seq<Seq<u8>>, x: Seq<u8>, p: int)
    requires
        0 <= p <= d.len(),
        forall|j: int| 0 <= j < p ==> lex_lt(d[j], x),
        p < d.len() ==> !lex_lt(d[p], x),
    ensures
        lower_bound(d, x) == p,
    decreases d.len(),
{
    if d.len() > 0 && p > 0 {
        assert forall|j: int| 0 <= j < p - 1 implies lex_lt(d.drop_first()[j], x) by {
            assert(d.drop_first()[j] == d[j + 1]);
        }
        if p < d.len() {
            assert(d.drop_first()[p - 1] == d[p]);
        }
        lemma_lower_bound(d.drop_first(), x, p - 1);
    }
}

/// Inserting `x` where it belongs keeps a sequence strictly ascending.
proof fn lemma_insert_sorted(d: Seq<Seq<u8>>, p: int, x: Seq<u8>)
    requires
        sorted_strict(d),
        all_coords(d),
        x.len() == 32,
        0 <= p <= d.len(),
        forall|j: int| 0 <= j < p ==> lex_lt(d[j], x),
        p < d.len() ==> lex_lt(x, d[p]),
    ensures
        sorted_strict(d.insert(p, x)),
        all_coords(d.insert(p, x)),
{
    let e = d.insert(p, x);
    assert forall|i: int, j: int| 0 <= i < j < e.len() implies lex_lt(#[trigger] e[i], #[trigger] e[j]) by {
        if j < p {
            assert(e[i] == d[i] && e[j] == d[j]);
        } else if j == p {
            assert(e[i] == d[i]);
        } else if i < p {
            assert(e[i] == d[i] && e[j] == d[j - 1]);
        } else if i == p {
            assert(e[j] == d[j - 1]);
            if j - 1 > p {
                lemma_lex_transitive(x, d[p], d[j - 1]);
            }
        } else {
            assert(e[i] == d[i - 1] && e[j] == d[j - 1]);
        }
    }
}

/// Dropping items keeps a sequence strictly ascending.
proof fn lemma_sorted_sub(d: Seq<Seq<u8>>, lo: int, hi: int)
    requires
        sorted_strict(d),
        all_coords(d),
        0 <= lo <= hi <= d.len(),
    ensures
        sorted_strict(d.subrange(lo, hi)),
        all_coords(d.subrange(lo, hi)),
{
    let e = d.subrange(lo, hi);
    assert forall|i: int, j: int| 0 <= i < j < e.len() implies lex_lt(#[trigger] e[i], #[trigger] e[j]) by {
        assert(e[i] == d[lo + i] && e[j] == d[lo + j]);
    }
}

/// The request that was sent for an outstanding entry.
pub open spec fn req_of(e: OutstandingEntry) -> FindRequestOut {
    FindRequestOut { node: e.node, challenge: e.challenge }
}

/// Whether outstanding entry `i` is the one that `sender` answers with `challenge`.
pub open spec fn answers(o: Seq<OutstandingEntry>, sender: Seq<u8>, challenge: Seq<u8>, i: int) -> bool {
    0 <= i < o.len() && o[i].node.ident@ == sender && o[i].challenge@ == challenge
}

/// The nearest set after the peer of `e` answered: it joins if there is room or
/// it is nearer than the farthest entry (which then leaves), unless an entry at
/// the same distance (the same identity, among others) is already there.
pub open spec fn nearest_after(s: Seq<NearestEntry>, e: NearestEntry) -> Seq<NearestEntry> {
    if s.len() >= NEIGHBORHOOD && !lex_lt(e.dist@, s.last().dist@) {
        s
    } else if exists|i: int| 0 <= i < s.len() && s[i].dist@ == e.dist@ {
        s
    } else {
        let base = if s.len() >= NEIGHBORHOOD {
            s.drop_last()
        } else {
            s
        };
        base.insert(lower_bound(near_dists(base), e.dist@), e)
    }
}

/// The `published` stamp under which a find for `goal` takes `v` at `now`, given
/// the stamp of the value it holds: the goal must be an identity that signed
/// `v`, `v` must not have expired, and it must be newer than what is held.
pub open spec fn accepted_stamp(goal: FindGoal, held: Option<u64>, v: Announcement, now: u64) -> Option<u64> {
    match goal {
        FindGoal::Identity(id) => match verified_published(id@, v.message@, v.signature@) {
            Some(p) => if !expired(p, now) && (held is None || p > held->0) {
                Some(p)
            } else {
                None
            },
            None => None,
        },
        FindGoal::Coord(_) => None,
    }
}

/// Distinct coordinates are at distinct distances from any goal.
proof fn lemma_xor_cancel(a: Seq<u8>, b: Seq<u8>, g: Seq<u8>)
    requires
        a.len() == g.len(),
        b.len() == g.len(),
    ensures
        xor_seq(a, g) == xor_seq(b, g) ==> a == b,
{
    if xor_seq(a, g) == xor_seq(b, g) {
        assert forall|i: int| 0 <= i < a.len() implies a[i] == b[i] by {
            let x = a[i];
            let y = b[i];
            let z = g[i];
            assert(xor_seq(a, g)[i] == xor_seq(b, g)[i]);
            assert((x ^ z) == (y ^ z) ==> x == y) by (bit_vector);
        }
        assert(a =~= b);
    }
}


/// Each outstanding entry had its request sent, and each request sent is for an
/// outstanding entry, with the same challenge.
pub open spec fn reqs_match(o: Seq<OutstandingEntry>, rq: Seq<FindRequestOut>) -> bool {
    &&& forall|i: int| 0 <= i < o.len() ==> rq.contains(req_of(#[trigger] o[i]))
    &&& forall|j: int| 0 <= j < rq.len() ==> o.map_values(|e: OutstandingEntry| req_of(e)).contains(#[trigger] rq[j])
}

/// Each outstanding entry is one of the first `k` peers.
pub open spec fn from_peers(o: Seq<OutstandingEntry>, peers: Seq<NodeInfo>, k: int) -> bool {
    forall|i: int|
        0 <= i < o.len() ==> exists|j: int| 0 <= j < k && j < peers.len() && peers[j] == (#[trigger] o[i]).node
}

/// Each of the first `k` peers, but one at this node's own coordinate, has an
/// outstanding entry at its distance from the goal.
pub open spec fn covers(o: Seq<OutstandingEntry>, peers: Seq<NodeInfo>, k: int, own: Seq<u8>, goal: Seq<u8>) -> bool {
    forall|j: int|
        0 <= j < k && j < peers.len() && coord_of(#[trigger] peers[j].ident@) != own ==> exists|i: int|
            0 <= i < o.len() && o[i].dist@ == xor_seq(coord_of(peers[j].ident@), goal)
}

proof fn lemma_new_insert_step(
    o: Seq<OutstandingEntry>,
    rq: Seq<FindRequestOut>,
    pos: int,
    e: OutstandingEntry,
    peers: Seq<NodeInfo>,
    k: int,
    own: Seq<u8>,
    goal: Seq<u8>,
)
    requires
        0 <= pos <= o.len(),
        0 <= k < peers.len(),
        peers[k] == e.node,
        e.dist@ == xor_seq(coord_of(peers[k].ident@), goal),
        reqs_match(o, rq),
        from_peers(o, peers, k),
        covers(o, peers, k, own, goal),
    ensures
        reqs_match(o.insert(pos, e), rq.push(req_of(e))),
        from_peers(o.insert(pos, e), peers, k + 1),
        covers(o.insert(pos, e), peers, k + 1, own, goal),
{
    let o2 = o.insert(pos, e);
    let rq2 = rq.push(req_of(e));
    assert(o2[pos] == e);
    assert(rq2[rq.len() as int] == req_of(e));
    assert forall|i: int| 0 <= i < o2.len() implies rq2.contains(req_of(#[trigger] o2[i])) by {
        if i == pos {
            assert(rq2[rq.len() as int] == req_of(o2[i]));
        } else {
            let src = if i < pos { i } else { i - 1 };
            assert(o2[i] == o[src]);
            assert(rq.contains(req_of(o[src])));
            let w = choose|w: int| 0 <= w < rq.len() && rq[w] == req_of(o[src]);
            assert(rq2[w] == rq[w]);
        }
    }
    let m2 = o2.map_values(|x: OutstandingEntry| req_of(x));
    let m1 = o.map_values(|x: OutstandingEntry| req_of(x));
    assert forall|j: int| 0 <= j < rq2.len() implies m2.contains(#[trigger] rq2[j]) by {
        if j == rq.len() {
            assert(m2[pos] == req_of(e));
        } else {
            assert(rq2[j] == rq[j]);
            assert(m1.contains(rq[j]));
            let w = choose|w: int| 0 <= w < m1.len() && m1[w] == rq[j];
            if w < pos {
                assert(m2[w] == m1[w]);
            } else {
                assert(m2[w + 1] == m1[w]);
            }
        }
    }
    assert forall|i: int| 0 <= i < o2.len() implies exists|j: int|
        0 <= j < k + 1 && j < peers.len() && peers[j] == (#[trigger] o2[i]).node by {
        if i == pos {
            assert(peers[k] == o2[i].node);
        } else {
            let src = if i < pos { i } else { i - 1 };
            assert(o2[i] == o[src]);
        }
    }
    assert forall|j: int|
        0 <= j < k + 1 && j < peers.len() && coord_of(#[trigger] peers[j].ident@) != own implies exists|i: int|
        0 <= i < o2.len() && o2[i].dist@ == xor_seq(coord_of(peers[j].ident@), goal) by {
        if j == k {
            assert(o2[pos].dist@ == e.dist@);
        } else {
            let i0 = choose|i0: int| 0 <= i0 < o.len() && o[i0].dist@ == xor_seq(coord_of(peers[j].ident@), goal);
            if i0 < pos {
                assert(o2[i0] == o[i0]);
            } else {
                assert(o2[i0 + 1] == o[i0]);
            }
        }
    }
}

proof fn lemma_new_skip_step(
    o: Seq<OutstandingEntry>,
    rq: Seq<FindRequestOut>,
    peers: Seq<NodeInfo>,
    k: int,
    own: Seq<u8>,
    goal: Seq<u8>,
)
    requires
        0 <= k < peers.len(),
        coord_of(peers[k].ident@) == own || exists|i: int|
            0 <= i < o.len() && o[i].dist@ == xor_seq(coord_of(peers[k].ident@), goal),
        reqs_match(o, rq),
        from_peers(o, peers, k),
        covers(o, peers, k, own, goal),
    ensures
        reqs_match(o, rq),
        from_peers(o, peers, k + 1),
        covers(o, peers, k + 1, own, goal),
{
    assert forall|i: int| 0 <= i < o.len() implies exists|j: int|
        0 <= j < k + 1 && j < peers.len() && peers[j] == (#[trigger] o[i]).node by {
        let j = choose|j: int| 0 <= j < k && j < peers.len() && peers[j] == o[i].node;
    }
}

/// Removing an item keeps a sequence strictly ascending.
proof fn lemma_remove_sorted(d: Seq<Seq<u8>>, i: int)
    requires
        sorted_strict(d),
        all_coords(d),
        0 <= i < d.len(),
    ensures
        sorted_strict(d.remove(i)),
        all_coords(d.remove(i)),
{
    let e = d.remove(i);
    assert forall|a: int, b: int| 0 <= a < b < e.len() implies lex_lt(#[trigger] e[a], #[trigger] e[b]) by {
        let a1 = if a < i { a } else { a + 1 };
        let b1 = if b < i { b } else { b + 1 };
        assert(e[a] == d[a1] && e[b] == d[b1]);
    }
    assert forall|a: int| 0 <= a < e.len() implies (#[trigger] e[a]).len() == 32 by {
        let a1 = if a < i { a } else { a + 1 };
        assert(e[a] == d[a1]);
    }
}

/// The stamp of the value a find holds.
pub open spec fn held_stamp(v: Option<(Announcement, u64)>) -> Option<u64> {
    match v {
        Some(x) => Some(x.1),
        None => None,
    }
}

/// Each entry of `o` was outstanding in `o0` already, or is one of the requests `rq`.
pub open spec fn sent_for(o: Seq<OutstandingEntry>, o0: Seq<OutstandingEntry>, rq: Seq<FindRequestOut>) -> bool {
    forall|i: int| 0 <= i < o.len() ==> o0.contains(#[trigger] o[i]) || rq.contains(req_of(o[i]))
}

/// The identities of a list of requests.
pub open spec fn req_idents(rq: Seq<FindRequestOut>) -> Seq<NodeIdentity> {
    rq.map_values(|q: FindRequestOut| q.node.ident)
}

/// Whether a request for a peer at `d` from the goal may join a find whose
/// nearest set is `s`: no entry is at that distance, and if the set is full, the
/// peer is nearer than its farthest entry.
pub open spec fn worth_asking(s: Seq<NearestEntry>, d: Seq<u8>) -> bool {
    &&& forall|j: int| 0 <= j < s.len() ==> s[j].dist@ != d
    &&& s.len() >= NEIGHBORHOOD ==> lex_lt(d, s.last().dist@)
}

proof fn lemma_sent_step(
    o1: Seq<OutstandingEntry>,
    o2: Seq<OutstandingEntry>,
    o3: Seq<OutstandingEntry>,
    o0: Seq<OutstandingEntry>,
    rq1: Seq<FindRequestOut>,
    pos: int,
    e: OutstandingEntry,
    popped: bool,
)
    requires
        sent_for(o1, o0, rq1),
        popped ==> o2 == o1.drop_last() && o1.len() > 0,
        !popped ==> o2 == o1,
        0 <= pos <= o2.len(),
        o3 == o2.insert(pos, e),
    ensures
        sent_for(o3, o0, rq1.push(req_of(e))),
{
    let rq2 = rq1.push(req_of(e));
    assert forall|i: int| 0 <= i < o3.len() implies o0.contains(#[trigger] o3[i]) || rq2.contains(req_of(o3[i])) by {
        if i == pos {
            assert(rq2[rq1.len() as int] == req_of(e));
        } else {
            let a = if i < pos { i } else { i - 1 };
            assert(o3[i] == o2[a]);
            assert(o2[a] == o1[a]);
            if rq1.contains(req_of(o1[a])) {
                let w = choose|w: int| 0 <= w < rq1.len() && rq1[w] == req_of(o1[a]);
                assert(rq2[w] == rq1[w]);
            }
        }
    }
}

/// Whether a find whose nearest set is `near` asks candidate `n`, given its
/// outstanding set `o` and the identities `rq` requested so far: `n` was never
/// requested, is worth asking, is at no outstanding distance, and, when
/// `PARALLEL` requests are out, is nearer than the farthest of them.
pub open spec fn asks(near: Seq<NearestEntry>, goal: Seq<u8>, o: Seq<OutstandingEntry>, rq: Seq<NodeIdentity>, n: NodeInfo) -> bool {
    let d = xor_seq(coord_of(n.ident@), goal);
    &&& !(exists|q: int| 0 <= q < rq.len() && rq[q]@ == n.ident@)
    &&& worth_asking(near, d)
    &&& !(exists|a: int| 0 <= a < o.len() && o[a].dist@ == d)
    &&& (o.len() >= PARALLEL ==> lex_lt(d, o.last().dist@))
}

/// One candidate considered: a candidate that is asked is requested, and enters
/// the outstanding set at its place by distance, in place of the farthest entry
/// when `PARALLEL` requests are out; `q` is the request sent for it. Any other
/// candidate changes nothing.
pub open spec fn cand_step(
    near: Seq<NearestEntry>,
    goal: Seq<u8>,
    n: NodeInfo,
    o: Seq<OutstandingEntry>,
    rq: Seq<NodeIdentity>,
    o2: Seq<OutstandingEntry>,
    rq2: Seq<NodeIdentity>,
    q: Option<FindRequestOut>,
) -> bool {
    if asks(near, goal, o, rq, n) {
        let base = if o.len() >= PARALLEL {
            o.drop_last()
        } else {
            o
        };
        let p = lower_bound(out_dists(base), xor_seq(coord_of(n.ident@), goal));
        &&& 0 <= p <= base.len()
        &&& o2.len() == base.len() + 1
        &&& o2 == base.insert(p, o2[p])
        &&& o2[p].node == n
        &&& o2[p].dist@ == xor_seq(coord_of(n.ident@), goal)
        &&& rq2 == rq.push(n.ident)
        &&& q == Some(req_of(o2[p]))
    } else {
        o2 == o && rq2 == rq && q is None
    }
}

/// The candidates `nodes` considered in turn: `os[k]`, `rqs[k]` are the
/// outstanding and requested sets before candidate `k`, and `qs[k]` its request.
pub open spec fn fanout(
    near: Seq<NearestEntry>,
    goal: Seq<u8>,
    nodes: Seq<NodeInfo>,
    os: Seq<Seq<OutstandingEntry>>,
    rqs: Seq<Seq<NodeIdentity>>,
    qs: Seq<Option<FindRequestOut>>,
) -> bool {
    &&& os.len() == nodes.len() + 1
    &&& rqs.len() == nodes.len() + 1
    &&& qs.len() == nodes.len()
    &&& forall|k: int|
        0 <= k < nodes.len() ==> #[trigger] cand_step(near, goal, nodes[k], os[k], rqs[k], os[k + 1], rqs[k + 1], qs[k])
}

/// The requests among `qs`, in order.
pub open spec fn somes(qs: Seq<Option<FindRequestOut>>) -> Seq<FindRequestOut>
    decreases qs.len(),
{
    if qs.len() == 0 {
        Seq::empty()
    } else {
        match qs.last() {
            Some(x) => somes(qs.drop_last()).push(x),
            None => somes(qs.drop_last()),
        }
    }
}

proof fn lemma_fanout_push(
    near: Seq<NearestEntry>,
    g: Seq<u8>,
    nodes: Seq<NodeInfo>,
    os: Seq<Seq<OutstandingEntry>>,
    rqs: Seq<Seq<NodeIdentity>>,
    qs: Seq<Option<FindRequestOut>>,
    n: NodeInfo,
    o2: Seq<OutstandingEntry>,
    rq2: Seq<NodeIdentity>,
    q: Option<FindRequestOut>,
)
    requires
        fanout(near, g, nodes, os, rqs, qs),
        cand_step(near, g, n, os.last(), rqs.last(), o2, rq2, q),
    ensures
        fanout(near, g, nodes.push(n), os.push(o2), rqs.push(rq2), qs.push(q)),
{
    let nodes2 = nodes.push(n);
    let os2 = os.push(o2);
    let rqs2 = rqs.push(rq2);
    let qs2 = qs.push(q);
    assert forall|k: int| 0 <= k < nodes2.len() implies #[trigger] cand_step(
        near,
        g,
        nodes2[k],
        os2[k],
        rqs2[k],
        os2[k + 1],
        rqs2[k + 1],
        qs2[k],
    ) by {
        if k < nodes.len() {
            assert(cand_step(near, g, nodes[k], os[k], rqs[k], os[k + 1], rqs[k + 1], qs[k]));
        }
    }
}

proof fn lemma_fanout_skip(
    near: Seq<NearestEntry>,
    g: Seq<u8>,
    nodes: Seq<NodeInfo>,
    os: Seq<Seq<OutstandingEntry>>,
    rqs: Seq<Seq<NodeIdentity>>,
    qs: Seq<Option<FindRequestOut>>,
    n: NodeInfo,
)
    requires
        fanout(near, g, nodes, os, rqs, qs),
        !asks(near, g, os.last(), rqs.last(), n),
    ensures
        fanout(near, g, nodes.push(n), os.push(os.last()), rqs.push(rqs.last()), qs.push(None)),
        somes(qs.push(None)) == somes(qs),
{
    lemma_fanout_push(near, g, nodes, os, rqs, qs, n, os.last(), rqs.last(), None);
    assert(qs.push(None).drop_last() =~= qs);
}

/// The state of one iterative find.
pub struct FindState {
    req_id: u64,
    goal: FindGoal,
    goal_coord: DhtCoord,
    own_ident: NodeIdentity,
    updated: u64,
    nearest: Vec<NearestEntry>,
    outstanding: Vec<OutstandingEntry>,
    requested: Vec<NodeIdentity>,
    value: Option<Announcement>,
    value_published: u64,
}

impl FindState {
    /// The request id that the find's timeouts carry.
    pub closed spec fn req_id_spec(&self) -> u64 {
        self.req_id
    }

    /// What the find looks for.
    pub closed spec fn goal_spec(&self) -> FindGoal {
        self.goal
    }

    /// The node's own identity.
    pub closed spec fn own_id(&self) -> Seq<u8> {
        self.own_ident@
    }

    /// When the find last made progress, in milliseconds.
    pub closed spec fn updated_spec(&self) -> u64 {
        self.updated
    }

    /// The nearest set.
    pub closed spec fn nearest_seq(&self) -> Seq<NearestEntry> {
        self.nearest@
    }

    /// The outstanding set.
    pub closed spec fn outstanding_seq(&self) -> Seq<OutstandingEntry> {
        self.outstanding@
    }

    /// Identities that a request was sent to.
    pub closed spec fn requested_seq(&self) -> Seq<NodeIdentity> {
        self.requested@
    }

    /// The best announcement found so far, with its `published` stamp.
    pub closed spec fn value_spec(&self) -> Option<(Announcement, u64)> {
        match self.value {
            Some(v) => Some((v, self.value_published)),
            None => None,
        }
    }

    /// The find's invariant.
    pub closed spec fn wf(&self) -> bool {
        &&& self.goal_coord@ == goal_coord_of(self.goal)
        &&& self.nearest@.len() <= NEIGHBORHOOD
        &&& self.outstanding@.len() <= PARALLEL
        &&& forall|i: int|
            0 <= i < self.nearest@.len() ==> (#[trigger] self.nearest@[i]).dist@ == xor_seq(
                coord_of(near_ident(self.nearest@[i], self.own_ident@)),
                self.goal_coord@,
            )
        &&& forall|i: int|
            0 <= i < self.outstanding@.len() ==> (#[trigger] self.outstanding@[i]).dist@ == xor_seq(
                coord_of(self.outstanding@[i].node.ident@),
                self.goal_coord@,
            )
        &&& sorted_strict(near_dists(self.nearest@))
        &&& sorted_strict(out_dists(self.outstanding@))
        &&& forall|i: int, j: int|
            0 <= i < self.outstanding@.len() && 0 <= j < self.nearest@.len() ==> (#[trigger] self.outstanding@[i]).dist@
                != (#[trigger] self.nearest@[j]).dist@
    }

    /// Inserts `e` into the outstanding set at its place by distance, unless an
    /// entry at the same distance is there.
    fn insert_outstanding(&mut self, e: OutstandingEntry) -> (r: bool)
        requires
            old(self).wf(),
            old(self).outstanding@.len() < PARALLEL,
            e.dist@ == xor_seq(coord_of(e.node.ident@), old(self).goal_coord@),
            forall|j: int| 0 <= j < old(self).nearest@.len() ==> old(self).nearest@[j].dist@ != e.dist@,
        ensures
            final(self).wf(),
            r == !(exists|i: int| 0 <= i < old(self).outstanding@.len() && old(self).outstanding@[i].dist@ == e.dist@),
            0 <= lower_bound(out_dists(old(self).outstanding@), e.dist@) <= old(self).outstanding@.len(),
            r ==> final(self).outstanding@ == old(self).outstanding@.insert(
                lower_bound(out_dists(old(self).outstanding@), e.dist@),
                e,
            ),
            !r ==> final(self).outstanding@ == old(self).outstanding@,
            final(self).nearest@ == old(self).nearest@,
            final(self).requested@ == old(self).requested@,
            final(self).req_id == old(self).req_id,
            final(self).goal == old(self).goal,
            final(self).goal_coord == old(self).goal_coord,
            final(self).own_ident == old(self).own_ident,
            final(self).updated == old(self).updated,
            final(self).value == old(self).value,
            final(self).value_published == old(self).value_published,
    {
        let ghost o = self.outstanding@;
        let ghost d = out_dists(o);
        let n = self.outstanding.len();
        let mut p: usize = 0;
        while p < n && coord_lt(&self.outstanding[p].dist, &e.dist)
            invariant
                self.outstanding@ == o,
                d == out_dists(o),
                n == o.len(),
                0 <= p <= n,
                forall|j: int| 0 <= j < p ==> lex_lt(d[j], e.dist@),
            decreases n - p,
        {
            p = p + 1;
        }
        proof {
            lemma_lower_bound(d, e.dist@, p as int);
            assert forall|j: int| 0 <= j < p implies o[j].dist@ != e.dist@ by {
                assert(d[j] == o[j].dist@);
                lemma_lex_irreflexive(e.dist@);
            }
        }
        if p < n && coord_eq(&self.outstanding[p].dist, &e.dist) {
            return false;
        }
        proof {
            assert(all_coords(d)) by {
                assert forall|i: int| 0 <= i < d.len() implies (#[trigger] d[i]).len() == 32 by {
                    assert(d[i] == o[i].dist@);
                }
            }
            if p < n {
                assert(d[p as int] == o[p as int].dist@);
                lemma_lex_total(e.dist@, d[p as int]);
            }
            assert forall|j: int| p < j < n implies o[j].dist@ != e.dist@ by {
                assert(d[j] == o[j].dist@);
                assert(lex_lt(d[p as int], d[j]));
                if p < n {
                    lemma_lex_transitive(e.dist@, d[p as int], d[j]);
                    lemma_lex_irreflexive(e.dist@);
                }
            }
            lemma_insert_sorted(d, p as int, e.dist@);
            assert(out_dists(o.insert(p as int, e)) =~= d.insert(p as int, e.dist@));
        }
        self.outstanding.insert(p, e);
        proof {
            let o2 = self.outstanding@;
            assert forall|i: int| 0 <= i < o2.len() implies (#[trigger] o2[i]).dist@ == xor_seq(
                coord_of(o2[i].node.ident@),
                self.goal_coord@,
            ) by {
                if i < p {
                    assert(o2[i] == o[i]);
                } else if i > p {
                    assert(o2[i] == o[i - 1]);
                }
            }
            assert forall|i: int, j: int|
                0 <= i < o2.len() && 0 <= j < self.nearest@.len() implies (#[trigger] o2[i]).dist@
                != (#[trigger] self.nearest@[j]).dist@ by {
                if i < p {
                    assert(o2[i] == o[i]);
                } else if i > p {
                    assert(o2[i] == o[i - 1]);
                }
            }
        }
        true
    }

    /// Starts a find for `goal` at `now`: the nearest set holds this node alone,
    /// and a request with a fresh challenge goes to each of the first `PARALLEL`
    /// of `peers` (the peers nearest the goal).
    #[verifier::rlimit(60)]
    pub fn new(req_id: u64, goal: FindGoal, own_ident: NodeIdentity, now: u64, peers: &Vec<NodeInfo>) -> (r: (
        FindState,
        Vec<FindRequestOut>,
    ))
        ensures
            r.0.wf(),
            r.0.req_id_spec() == req_id,
            r.0.goal_spec() == goal,
            r.0.own_id() == own_ident@,
            r.0.updated_spec() == now,
            r.0.nearest_seq().len() == 1,
            r.0.nearest_seq()[0].node is Self_,
            r.0.requested_seq().len() == 0,
            r.0.value_spec() is None,
            reqs_match(r.0.outstanding_seq(), r.1@),
            from_peers(r.0.outstanding_seq(), peers@, PARALLEL as int),
            covers(r.0.outstanding_seq(), peers@, PARALLEL as int, coord_of(own_ident@), goal_coord_of(goal)),
            peers@.len() == 0 ==> r.0.outstanding_seq().len() == 0 && r.1@.len() == 0,
            r.1@.len() == r.0.outstanding_seq().len(),
    {
        let goal_coord = goal.coord();
        let own_coord = node_ident_coord(&own_ident);
        let (_, self_dist) = dist(&own_coord, &goal_coord);
        let mut st = FindState {
            req_id,
            goal,
            goal_coord,
            own_ident,
            updated: now,
            nearest: vec![NearestEntry { dist: self_dist, node: NearestNode::Self_ }],
            outstanding: Vec::new(),
            requested: Vec::new(),
            value: None,
            value_published: 0,
        };
        proof {
            assert(near_dists(st.nearest@) =~= seq![self_dist@]);
            assert(out_dists(st.outstanding@) =~= Seq::<Seq<u8>>::empty());
        }
        let mut reqs: Vec<FindRequestOut> = Vec::new();
        let mut k: usize = 0;
        while k < peers.len() && k < PARALLEL
            invariant
                st.wf(),
                st.req_id == req_id,
                st.goal == goal,
                st.own_ident == own_ident,
                st.updated == now,
                st.goal_coord == goal_coord,
                goal_coord@ == goal_coord_of(goal),
                own_coord@ == coord_of(own_ident@),
                st.nearest@ == seq![NearestEntry { dist: self_dist, node: NearestNode::Self_ }],
                self_dist@ == xor_seq(coord_of(own_ident@), goal_coord_of(goal)),
                st.requested@.len() == 0,
                st.value is None,
                0 <= k <= peers@.len(),
                st.outstanding@.len() <= k,
                reqs@.len() <= k,
                reqs@.len() == st.outstanding@.len(),
                k <= PARALLEL,
                reqs_match(st.outstanding@, reqs@),
                from_peers(st.outstanding@, peers@, k as int),
                covers(st.outstanding@, peers@, k as int, coord_of(own_ident@), goal_coord_of(goal)),
            decreases PARALLEL - k,
        {
            let p = peers[k];
            let pc = node_ident_coord(&p.ident);
            let (_, d) = dist(&pc, &goal_coord);
            let ghost o = st.outstanding@;
            let ghost rq = reqs@;
            proof {
                lemma_xor_cancel(coord_of(p.ident@), coord_of(own_ident@), goal_coord_of(goal));
            }
            if !coord_eq(&d, &self_dist) {
                let challenge = random_bytes32();
                let e = OutstandingEntry { dist: d, challenge, node: p };
                if st.insert_outstanding(e) {
                    reqs.push(FindRequestOut { node: p, challenge });
                    proof {
                        lemma_new_insert_step(
                            o,
                            rq,
                            lower_bound(out_dists(o), e.dist@),
                            e,
                            peers@,
                            k as int,
                            coord_of(own_ident@),
                            goal_coord_of(goal),
                        );
                        assert(reqs@ == rq.push(req_of(e)));
                    }
                } else {
                    proof {
                        lemma_new_skip_step(o, rq, peers@, k as int, coord_of(own_ident@), goal_coord_of(goal));
                    }
                }
            } else {
                proof {
                    lemma_new_skip_step(o, rq, peers@, k as int, coord_of(own_ident@), goal_coord_of(goal));
                }
            }
            k = k + 1;
        }
        proof {
            let o = st.outstanding@;
            assert forall|i: int| 0 <= i < o.len() implies exists|j: int|
                0 <= j < PARALLEL && j < peers@.len() && peers@[j] == (#[trigger] o[i]).node by {
                let j = choose|j: int| 0 <= j < k && j < peers@.len() && peers@[j] == o[i].node;
            }
        }
        (st, reqs)
    }

    proof fn lemma_coords(&self)
        requires
            self.wf(),
        ensures
            all_coords(near_dists(self.nearest@)),
            all_coords(out_dists(self.outstanding@)),
            near_dists(self.nearest@).len() == self.nearest@.len(),
            out_dists(self.outstanding@).len() == self.outstanding@.len(),
            forall|i: int| 0 <= i < self.nearest@.len() ==> near_dists(self.nearest@)[i] == (#[trigger] self.nearest@[i]).dist@,
            forall|i: int|
                0 <= i < self.outstanding@.len() ==> out_dists(self.outstanding@)[i] == (#[trigger] self.outstanding@[i]).dist@,
    {
        let n = near_dists(self.nearest@);
        let o = out_dists(self.outstanding@);
        assert forall|i: int| 0 <= i < n.len() implies (#[trigger] n[i]).len() == 32 by {
            assert(n[i] == self.nearest@[i].dist@);
        }
        assert forall|i: int| 0 <= i < o.len() implies (#[trigger] o[i]).len() == 32 by {
            assert(o[i] == self.outstanding@[i].dist@);
        }
    }

    /// Whether an outstanding entry is the one that `sender` answers with
    /// `challenge`, comparing challenges in constant time.
    pub fn awaits(&self, sender: &NodeIdentity, challenge: &[u8]) -> (r: bool)
        ensures
            r == exists|i: int| answers(self.outstanding_seq(), sender@, challenge@, i),
    {
        let n = self.outstanding.len();
        for i in 0..n
            invariant
                n == self.outstanding@.len(),
                forall|j: int| 0 <= j < i ==> !answers(self.outstanding@, sender@, challenge@, j),
        {
            let e = self.outstanding[i];
            if e.node.ident == *sender && bytes_eq_ct(challenge, e.challenge.as_slice()) {
                assert(answers(self.outstanding_seq(), sender@, challenge@, i as int));
                return true;
            }
        }
        false
    }

    /// Takes out the outstanding entry that `sender` answers with `challenge`,
    /// comparing challenges in constant time. An answer that echoes a wrong
    /// challenge leaves the find as it is.
    pub fn take_outstanding(&mut self, sender: &NodeIdentity, challenge: &[u8]) -> (r: Option<OutstandingEntry>)
        requires
            old(self).wf(),
        ensures
            final(self).wf(),
            match r {
                Some(e) => (exists|i: int|
                    answers(old(self).outstanding_seq(), sender@, challenge@, i) && e == old(self).outstanding_seq()[i]
                        && final(self).outstanding_seq() == old(self).outstanding_seq().remove(i))
                    && e.node.ident@ == sender@
                    && e.dist@ == xor_seq(coord_of(e.node.ident@), goal_coord_of(old(self).goal_spec()))
                    && forall|j: int| 0 <= j < final(self).outstanding_seq().len() ==> final(self).outstanding_seq()[j].dist@ != e.dist@,
                None => (forall|i: int| !answers(old(self).outstanding_seq(), sender@, challenge@, i))
                    && *final(self) == *old(self),
            },
            final(self).nearest_seq() == old(self).nearest_seq(),
            final(self).requested_seq() == old(self).requested_seq(),
            final(self).value_spec() == old(self).value_spec(),
            final(self).req_id_spec() == old(self).req_id_spec(),
            final(self).goal_spec() == old(self).goal_spec(),
            final(self).own_id() == old(self).own_id(),
            final(self).updated_spec() == old(self).updated_spec(),
    {
        let ghost o = self.outstanding@;
        let n = self.outstanding.len();
        let mut i: usize = 0;
        while i < n
            invariant
                self.wf(),
                *self == *old(self),
                self.outstanding@ == o,
                o == old(self).outstanding@,
                n == o.len(),
                0 <= i <= n,
                forall|j: int| 0 <= j < i ==> !answers(o, sender@, challenge@, j),
                self.nearest == old(self).nearest,
                self.requested == old(self).requested,
                self.value == old(self).value,
                self.value_published == old(self).value_published,
                self.req_id == old(self).req_id,
                self.goal == old(self).goal,
                self.goal_coord == old(self).goal_coord,
                self.own_ident == old(self).own_ident,
                self.updated == old(self).updated,
            decreases n - i,
        {
            let e = self.outstanding[i];
            if e.node.ident == *sender && bytes_eq_ct(challenge, e.challenge.as_slice()) {
                proof {
                    self.lemma_coords();
                    lemma_remove_sorted(out_dists(o), i as int);
                    assert(out_dists(o.remove(i as int)) =~= out_dists(o).remove(i as int));
                    assert(answers(o, sender@, challenge@, i as int));
                }
                self.outstanding.remove(i);
                proof {
                    let o2 = self.outstanding@;
                    assert(answers(o, sender@, challenge@, i as int) && e == o[i as int] && o2 == o.remove(i as int));
                    assert forall|j: int| 0 <= j < o2.len() implies o2[j].dist@ != e.dist@ by {
                        let j1 = if j < i { j } else { j + 1 };
                        assert(o2[j] == o[j1]);
                        assert(out_dists(o)[j1] == o[j1].dist@);
                        assert(out_dists(o)[i as int] == o[i as int].dist@);
                        if j1 < i {
                            assert(lex_lt(out_dists(o)[j1], out_dists(o)[i as int]));
                        } else {
                            assert(lex_lt(out_dists(o)[i as int], out_dists(o)[j1]));
                        }
                        lemma_lex_irreflexive(e.dist@);
                    }
                    assert(o == old(self).outstanding_seq());
                    assert(o2 == self.outstanding_seq());
                    assert forall|a: int| 0 <= a < o2.len() implies (#[trigger] o2[a]).dist@ == xor_seq(
                        coord_of(o2[a].node.ident@),
                        self.goal_coord@,
                    ) by {
                        let a1 = if a < i { a } else { a + 1 };
                        assert(o2[a] == o[a1]);
                    }
                    assert forall|a: int, b: int|
                        0 <= a < o2.len() && 0 <= b < self.nearest@.len() implies (#[trigger] o2[a]).dist@
                        != (#[trigger] self.nearest@[b]).dist@ by {
                        let a1 = if a < i { a } else { a + 1 };
                        assert(o2[a] == o[a1]);
                    }
                }
                return Some(e);
            }
            i = i + 1;
        }
        None
    }

    /// Enters the peer of `e`, which just answered, into the nearest set.
    pub fn add_nearest(&mut self, e: &OutstandingEntry)
        requires
            old(self).wf(),
            e.dist@ == xor_seq(coord_of(e.node.ident@), goal_coord_of(old(self).goal_spec())),
            forall|j: int| 0 <= j < old(self).outstanding_seq().len() ==> old(self).outstanding_seq()[j].dist@ != e.dist@,
        ensures
            final(self).wf(),
            final(self).nearest_seq() == nearest_after(
                old(self).nearest_seq(),
                NearestEntry { dist: e.dist, node: NearestNode::Node(e.node) },
            ),
            final(self).outstanding_seq() == old(self).outstanding_seq(),
            final(self).requested_seq() == old(self).requested_seq(),
            final(self).value_spec() == old(self).value_spec(),
            final(self).req_id_spec() == old(self).req_id_spec(),
            final(self).goal_spec() == old(self).goal_spec(),
            final(self).own_id() == old(self).own_id(),
            final(self).updated_spec() == old(self).updated_spec(),
    {
        let ne = NearestEntry { dist: e.dist, node: NearestNode::Node(e.node) };
        let ghost s0 = self.nearest@;
        let n = self.nearest.len();
        if n >= NEIGHBORHOOD && !coord_lt(&ne.dist, &self.nearest[n - 1].dist) {
            return;
        }
        let mut i: usize = 0;
        while i < n
            invariant
                self.wf(),
                self.nearest@ == s0,
                s0 == old(self).nearest@,
                ne.dist == e.dist,
                ne.node == NearestNode::Node(e.node),
                n == s0.len(),
                0 <= i <= n,
                n >= NEIGHBORHOOD ==> lex_lt(ne.dist@, s0.last().dist@),
                forall|j: int| 0 <= j < i ==> s0[j].dist@ != ne.dist@,
                self.outstanding == old(self).outstanding,
                self.requested == old(self).requested,
                self.value == old(self).value,
                self.value_published == old(self).value_published,
                self.req_id == old(self).req_id,
                self.goal == old(self).goal,
                self.goal_coord == old(self).goal_coord,
                self.own_ident == old(self).own_ident,
                self.updated == old(self).updated,
            decreases n - i,
        {
            if coord_eq(&self.nearest[i].dist, &ne.dist) {
                proof {
                    assert(0 <= i < s0.len() && s0[i as int].dist@ == ne.dist@);
                }
                return;
            }
            i = i + 1;
        }
        proof {
            self.lemma_coords();
        }
        if n >= NEIGHBORHOOD {
            self.nearest.pop();
            proof {
                lemma_sorted_sub(near_dists(s0), 0, n - 1);
                assert(near_dists(s0).subrange(0, n - 1) =~= near_dists(self.nearest@));
            }
        }
        let ghost base = self.nearest@;
        let ghost d = near_dists(base);
        assert(base == if s0.len() >= NEIGHBORHOOD { s0.drop_last() } else { s0 });
        let m = self.nearest.len();
        let mut p: usize = 0;
        while p < m && coord_lt(&self.nearest[p].dist, &ne.dist)
            invariant
                self.nearest@ == base,
                self.outstanding == old(self).outstanding,
                self.requested == old(self).requested,
                self.value == old(self).value,
                self.value_published == old(self).value_published,
                self.req_id == old(self).req_id,
                self.goal == old(self).goal,
                self.goal_coord == old(self).goal_coord,
                self.own_ident == old(self).own_ident,
                self.updated == old(self).updated,
                d == near_dists(base),
                m == base.len(),
                0 <= p <= m,
                forall|j: int| 0 <= j < p ==> lex_lt(d[j], ne.dist@),
            decreases m - p,
        {
            p = p + 1;
        }
        proof {
            lemma_lower_bound(d, ne.dist@, p as int);
            assert forall|j: int| 0 <= j < d.len() implies (#[trigger] d[j]).len() == 32 && d[j] == base[j].dist@ by {
                assert(base[j] == s0[j]);
            }
            assert(sorted_strict(d)) by {
                if n < NEIGHBORHOOD {
                    assert(d == near_dists(s0));
                }
            }
            if p < m {
                assert(base[p as int] == s0[p as int]);
                lemma_lex_total(ne.dist@, d[p as int]);
            }
            lemma_insert_sorted(d, p as int, ne.dist@);
            assert(near_dists(base.insert(p as int, ne)) =~= d.insert(p as int, ne.dist@));
        }
        self.nearest.insert(p, ne);
        proof {
            let s2 = self.nearest@;
            assert forall|a: int| 0 <= a < s2.len() implies (#[trigger] s2[a]).dist@ == xor_seq(
                coord_of(near_ident(s2[a], self.own_ident@)),
                self.goal_coord@,
            ) by {
                if a < p {
                    assert(s2[a] == base[a] && base[a] == s0[a]);
                } else if a > p {
                    assert(s2[a] == base[a - 1] && base[a - 1] == s0[a - 1]);
                }
            }
            assert forall|a: int, b: int|
                0 <= a < self.outstanding@.len() && 0 <= b < s2.len() implies (#[trigger] self.outstanding@[a]).dist@
                != (#[trigger] s2[b]).dist@ by {
                assert(old(self).outstanding@[a] == self.outstanding@[a]);
                assert(old(self).outstanding_seq()[a] == self.outstanding@[a]);
                if b == p {
                    assert(s2[b] == ne);
                } else if b < p {
                    assert(s2[b] == base[b] && base[b] == s0[b]);
                    assert(old(self).outstanding@[a].dist@ != old(self).nearest@[b].dist@);
                } else if b > p {
                    assert(s2[b] == base[b - 1] && base[b - 1] == s0[b - 1]);
                    assert(old(self).outstanding@[a].dist@ != old(self).nearest@[b - 1].dist@);
                }
            }
        }
    }

    fn was_requested(&self, id: &NodeIdentity) -> (r: bool)
        ensures
            r == exists|q: int| 0 <= q < self.requested@.len() && self.requested@[q]@ == id@,
    {
        let n = self.requested.len();
        for j in 0..n
            invariant
                n == self.requested@.len(),
                forall|q: int| 0 <= q < j ==> self.requested@[q]@ != id@,
        {
            if self.requested[j] == *id {
                return true;
            }
        }
        false
    }

    fn nearest_has_dist(&self, d: &DhtCoord) -> (r: bool)
        ensures
            r == exists|a: int| 0 <= a < self.nearest@.len() && self.nearest@[a].dist@ == d@,
    {
        let n = self.nearest.len();
        for j in 0..n
            invariant
                n == self.nearest@.len(),
                forall|a: int| 0 <= a < j ==> self.nearest@[a].dist@ != d@,
        {
            if coord_eq(&self.nearest[j].dist, d) {
                return true;
            }
        }
        false
    }

    fn outstanding_has_dist(&self, d: &DhtCoord) -> (r: bool)
        ensures
            r == exists|a: int| 0 <= a < self.outstanding@.len() && self.outstanding@[a].dist@ == d@,
    {
        let n = self.outstanding.len();
        for j in 0..n
            invariant
                n == self.outstanding@.len(),
                forall|a: int| 0 <= a < j ==> self.outstanding@[a].dist@ != d@,
        {
            if coord_eq(&self.outstanding[j].dist, d) {
                return true;
            }
        }
        false
    }

    /// Considers the peers that an answer named, and returns the requests to send:
    /// one, with a fresh challenge, to each peer not requested before in this
    /// find, not already outstanding, and near enough to the goal to improve the
    /// nearest set. When `PARALLEL` requests are out, a nearer peer replaces the
    /// farthest of them.
    pub fn consider_candidates(&mut self, nodes: &Vec<NodeInfo>) -> (r: Vec<FindRequestOut>)
        requires
            old(self).wf(),
        ensures
            final(self).wf(),
            sent_for(final(self).outstanding_seq(), old(self).outstanding_seq(), r@),
            final(self).requested_seq() == old(self).requested_seq() + req_idents(r@),
            forall|k: int| 0 <= k < r@.len() ==> nodes@.contains(#[trigger] r@[k].node),
            forall|k: int, j: int|
                0 <= k < r@.len() && 0 <= j < old(self).requested_seq().len() ==> (#[trigger] old(self).requested_seq()[j])@
                    != (#[trigger] r@[k]).node.ident@,
            forall|k: int|
                0 <= k < r@.len() ==> worth_asking(
                    old(self).nearest_seq(),
                    xor_seq(coord_of((#[trigger] r@[k]).node.ident@), goal_coord_of(old(self).goal_spec())),
                ),
            final(self).nearest_seq() == old(self).nearest_seq(),
            final(self).value_spec() == old(self).value_spec(),
            final(self).req_id_spec() == old(self).req_id_spec(),
            final(self).goal_spec() == old(self).goal_spec(),
            final(self).own_id() == old(self).own_id(),
            final(self).updated_spec() == old(self).updated_spec(),
            exists|os: Seq<Seq<OutstandingEntry>>, rqs: Seq<Seq<NodeIdentity>>, qs: Seq<Option<FindRequestOut>>|
                #[trigger] fanout(old(self).nearest_seq(), goal_coord_of(old(self).goal_spec()), nodes@, os, rqs, qs)
                    && os[0] == old(self).outstanding_seq() && rqs[0] == old(self).requested_seq() && os.last()
                    == final(self).outstanding_seq() && rqs.last() == final(self).requested_seq() && r@ == somes(qs),
    {
        let ghost o0 = self.outstanding@;
        let ghost r0 = self.requested@;
        let ghost near = self.nearest@;
        let ghost g = goal_coord_of(self.goal);
        let ghost mut os_g: Seq<Seq<OutstandingEntry>> = seq![o0];
        let ghost mut rqs_g: Seq<Seq<NodeIdentity>> = seq![r0];
        let ghost mut qs_g: Seq<Option<FindRequestOut>> = Seq::empty();
        let mut reqs: Vec<FindRequestOut> = Vec::new();
        let mut idx: usize = 0;
        while idx < nodes.len()
            invariant
                self.wf(),
                o0 == old(self).outstanding@,
                r0 == old(self).requested@,
                0 <= idx <= nodes@.len(),
                sent_for(self.outstanding@, o0, reqs@),
                self.requested@ == r0 + req_idents(reqs@),
                forall|k: int| 0 <= k < reqs@.len() ==> nodes@.contains(#[trigger] reqs@[k].node),
                forall|k: int, j: int|
                    0 <= k < reqs@.len() && 0 <= j < r0.len() ==> (#[trigger] r0[j])@ != (#[trigger] reqs@[k]).node.ident@,
                forall|k: int|
                    0 <= k < reqs@.len() ==> worth_asking(
                        old(self).nearest@,
                        xor_seq(coord_of((#[trigger] reqs@[k]).node.ident@), goal_coord_of(old(self).goal)),
                    ),
                self.nearest@ == old(self).nearest@,
                self.value == old(self).value,
                self.value_published == old(self).value_published,
                self.req_id == old(self).req_id,
                self.goal == old(self).goal,
                self.goal_coord == old(self).goal_coord,
                self.own_ident == old(self).own_ident,
                self.updated == old(self).updated,
                near == old(self).nearest@,
                g == goal_coord_of(old(self).goal),
                fanout(near, g, nodes@.take(idx as int), os_g, rqs_g, qs_g),
                os_g[0] == o0,
                rqs_g[0] == r0,
                os_g.last() == self.outstanding@,
                rqs_g.last() == self.requested@,
                somes(qs_g) == reqs@,
            decreases nodes@.len() - idx,
        {
            let n = nodes[idx];
            let ghost take0 = nodes@.take(idx as int);
            idx = idx + 1;
            proof {
                assert(nodes@.take(idx as int) =~= take0.push(n));
            }
            let ghost o_now = self.outstanding@;
            let ghost rq_now = self.requested@;
            let seen = self.was_requested(&n.ident);
            if seen {
                proof {
                    lemma_fanout_skip(near, g, take0, os_g, rqs_g, qs_g, n);
                    os_g = os_g.push(o_now);
                    rqs_g = rqs_g.push(rq_now);
                    qs_g = qs_g.push(None);
                }
                continue;
            }
            let (_, cd) = dist(&node_ident_coord(&n.ident), &self.goal_coord);
            let nl = self.nearest.len();
            if nl >= NEIGHBORHOOD && !coord_lt(&cd, &self.nearest[nl - 1].dist) {
                proof {
                    lemma_fanout_skip(near, g, take0, os_g, rqs_g, qs_g, n);
                    os_g = os_g.push(o_now);
                    rqs_g = rqs_g.push(rq_now);
                    qs_g = qs_g.push(None);
                }
                continue;
            }
            let ol = self.outstanding.len();
            let replace = ol >= PARALLEL;
            if replace && !coord_lt(&cd, &self.outstanding[ol - 1].dist) {
                proof {
                    lemma_fanout_skip(near, g, take0, os_g, rqs_g, qs_g, n);
                    os_g = os_g.push(o_now);
                    rqs_g = rqs_g.push(rq_now);
                    qs_g = qs_g.push(None);
                }
                continue;
            }
            let clash = self.nearest_has_dist(&cd) || self.outstanding_has_dist(&cd);
            if clash {
                proof {
                    lemma_fanout_skip(near, g, take0, os_g, rqs_g, qs_g, n);
                    os_g = os_g.push(o_now);
                    rqs_g = rqs_g.push(rq_now);
                    qs_g = qs_g.push(None);
                }
                continue;
            }
            assert(asks(near, g, o_now, rq_now, n));
            let ghost o1 = self.outstanding@;
            let ghost rq1 = reqs@;
            self.requested.push(n.ident);
            let challenge = random_bytes32();
            if replace {
                proof {
                    self.lemma_coords();
                    lemma_remove_sorted(out_dists(o1), ol - 1);
                    assert(out_dists(o1.remove(ol - 1)) =~= out_dists(o1).remove(ol - 1));
                    assert(o1.remove(ol - 1) =~= o1.drop_last());
                }
                self.outstanding.pop();
                proof {
                    let o2 = self.outstanding@;
                    assert(o2 == o1.drop_last());
                    assert forall|a: int| 0 <= a < o2.len() implies (#[trigger] o2[a]).dist@ == xor_seq(
                        coord_of(o2[a].node.ident@),
                        self.goal_coord@,
                    ) by {
                        assert(o2[a] == o1[a]);
                    }
                    assert forall|a: int, b: int|
                        0 <= a < o2.len() && 0 <= b < self.nearest@.len() implies (#[trigger] o2[a]).dist@
                        != (#[trigger] self.nearest@[b]).dist@ by {
                        assert(o2[a] == o1[a]);
                    }
                }
            }
            let ghost o2 = self.outstanding@;
            let e = OutstandingEntry { dist: cd, challenge, node: n };
            proof {
                assert forall|a: int| 0 <= a < o2.len() implies o2[a].dist@ != e.dist@ by {
                    assert(o2[a] == o1[a]);
                }
            }
            let inserted = self.insert_outstanding(e);
            assert(inserted);
            reqs.push(FindRequestOut { node: n, challenge });
            proof {
                let o3 = self.outstanding@;
                let pos = lower_bound(out_dists(o2), e.dist@);
                assert(o3 == o2.insert(pos, e));
                assert(reqs@ == rq1.push(req_of(e)));
                lemma_sent_step(o1, o2, o3, o0, rq1, pos, e, replace);
                assert(self.requested@ == r0 + req_idents(reqs@)) by {
                    assert(req_idents(reqs@) =~= req_idents(rq1).push(n.ident));
                    assert((r0 + req_idents(rq1)).push(n.ident) =~= r0 + req_idents(rq1).push(n.ident));
                }
                assert(nodes@.contains(n)) by {
                    assert(nodes@[idx - 1] == n);
                }
                assert forall|k: int| 0 <= k < reqs@.len() implies nodes@.contains(#[trigger] reqs@[k].node) by {
                    if k < rq1.len() {
                        assert(reqs@[k] == rq1[k]);
                    }
                }
                assert forall|k: int, j: int|
                    0 <= k < reqs@.len() && 0 <= j < r0.len() implies (#[trigger] r0[j])@ != (#[trigger] reqs@[k]).node.ident@ by {
                    if k < rq1.len() {
                        assert(reqs@[k] == rq1[k]);
                    } else {
                        assert((r0 + req_idents(rq1))[j] == r0[j]);
                    }
                }
                assert forall|k: int|
                    0 <= k < reqs@.len() implies worth_asking(
                    old(self).nearest@,
                    xor_seq(coord_of((#[trigger] reqs@[k]).node.ident@), goal_coord_of(old(self).goal)),
                ) by {
                    if k < rq1.len() {
                        assert(reqs@[k] == rq1[k]);
                    }
                }
                assert(o3[pos] == e);
                assert(cand_step(near, g, n, o_now, rq_now, o3, self.requested@, Some(req_of(e))));
                lemma_fanout_push(near, g, take0, os_g, rqs_g, qs_g, n, o3, self.requested@, Some(req_of(e)));
                assert(somes(qs_g.push(Some(req_of(e)))) == somes(qs_g).push(req_of(e))) by {
                    assert(qs_g.push(Some(req_of(e))).drop_last() =~= qs_g);
                }
                os_g = os_g.push(o3);
                rqs_g = rqs_g.push(self.requested@);
                qs_g = qs_g.push(Some(req_of(e)));
            }
        }
        proof {
            assert(nodes@.take(nodes@.len() as int) =~= nodes@);
        }
        reqs
    }

    /// Offers an announcement that a peer returned; the find keeps it if the goal
    /// is an identity that signed it, it has not expired at `now`, and it is newer
    /// than the one the find holds.
    pub fn offer_value(&mut self, v: Announcement, now: u64)
        requires
            old(self).wf(),
        ensures
            final(self).wf(),
            final(self).value_spec() == match accepted_stamp(
                old(self).goal_spec(),
                held_stamp(old(self).value_spec()),
                v,
                now,
            ) {
                Some(p) => Some((v, p)),
                None => old(self).value_spec(),
            },
            final(self).nearest_seq() == old(self).nearest_seq(),
            final(self).outstanding_seq() == old(self).outstanding_seq(),
            final(self).requested_seq() == old(self).requested_seq(),
            final(self).req_id_spec() == old(self).req_id_spec(),
            final(self).goal_spec() == old(self).goal_spec(),
            final(self).own_id() == old(self).own_id(),
            final(self).updated_spec() == old(self).updated_spec(),
    {
        let id = match self.goal {
            FindGoal::Identity(id) => id,
            FindGoal::Coord(_) => {
                return;
            },
        };
        let p = match v.verify(&id) {
            Some(p) => p,
            None => {
                return;
            },
        };
        if now > p && now - p > EXPIRY_MS {
            return;
        }
        if self.value.is_some() && p <= self.value_published {
            return;
        }
        self.value = Some(v);
        self.value_published = p;
    }

    /// Records progress at `now`.
    pub fn touch(&mut self, now: u64)
        requires
            old(self).wf(),
        ensures
            final(self).wf(),
            final(self).updated_spec() == now,
            final(self).nearest_seq() == old(self).nearest_seq(),
            final(self).outstanding_seq() == old(self).outstanding_seq(),
            final(self).requested_seq() == old(self).requested_seq(),
            final(self).value_spec() == old(self).value_spec(),
            final(self).req_id_spec() == old(self).req_id_spec(),
            final(self).goal_spec() == old(self).goal_spec(),
            final(self).own_id() == old(self).own_id(),
    {
        self.updated = now;
    }

    /// Whether no request is in flight any more.
    pub fn is_done(&self) -> (r: bool)
        ensures
            r == (self.outstanding_seq().len() == 0),
    {
        self.outstanding.len() == 0
    }

    /// Whether a timeout queued with `req_id` ends the find at `now`: it is this
    /// find's timeout and no progress was made in the last `REQ_TIMEOUT_MS`.
    pub fn timed_out(&self, req_id: u64, now: u64) -> (r: bool)
        ensures
            r == (req_id == self.req_id_spec() && self.updated_spec() + REQ_TIMEOUT_MS <= now),
    {
        req_id == self.req_id && now >= self.updated && now - self.updated >= REQ_TIMEOUT_MS
    }

    /// The request id that the find's timeouts carry.
    pub fn req_id(&self) -> (r: u64)
        ensures
            r == self.req_id_spec(),
    {
        self.req_id
    }

    /// What the find looks for.
    pub fn goal(&self) -> (r: FindGoal)
        ensures
            r == self.goal_spec(),
    {
        self.goal
    }

    /// The nearest set.
    pub fn nearest(&self) -> (r: Vec<NearestEntry>)
        ensures
            r@ == self.nearest_seq(),
    {
        let mut out: Vec<NearestEntry> = Vec::new();
        for i in 0..self.nearest.len()
            invariant
                out@ == self.nearest@.take(i as int),
        {
            out.push(self.nearest[i]);
            assert(out@ =~= self.nearest@.take(i + 1));
        }
        assert(out@ =~= self.nearest@);
        out
    }

    /// The peers that requests are still out to.
    pub fn outstanding_nodes(&self) -> (r: Vec<NodeInfo>)
        ensures
            r@ == self.outstanding_seq().map_values(|e: OutstandingEntry| e.node),
    {
        let mut out: Vec<NodeInfo> = Vec::new();
        for i in 0..self.outstanding.len()
            invariant
                out@ == self.outstanding@.take(i as int).map_values(|e: OutstandingEntry| e.node),
        {
            out.push(self.outstanding[i].node);
            assert(out@ =~= self.outstanding@.take(i + 1).map_values(|e: OutstandingEntry| e.node));
        }
        assert(self.outstanding@.take(self.outstanding@.len() as int) =~= self.outstanding@);
        out
    }

    /// The best announcement found.
    pub fn value(&self) -> (r: &Option<Announcement>)
        ensures
            *r == match self.value_spec() {
                Some(x) => Some(x.0),
                None => None,
            },
    {
        &self.value
    }

    /// The find's invariant, spelled out: the nearest set holds at most
    /// `NEIGHBORHOOD` entries, strictly ascending by distance to the goal, with no
    /// identity twice (this node included); at most `PARALLEL` requests are
    /// outstanding, none to an identity of the nearest set.
    pub proof fn lemma_find_invariants(&self)
        requires
            self.wf(),
        ensures
            self.nearest_seq().len() <= NEIGHBORHOOD,
            self.outstanding_seq().len() <= PARALLEL,
            sorted_strict(near_dists(self.nearest_seq())),
            sorted_strict(out_dists(self.outstanding_seq())),
            forall|i: int, j: int|
                0 <= i < j < self.nearest_seq().len() ==> near_ident(#[trigger] self.nearest_seq()[i], self.own_id())
                    != near_ident(#[trigger] self.nearest_seq()[j], self.own_id()),
            forall|i: int, j: int|
                0 <= i < self.outstanding_seq().len() && 0 <= j < self.nearest_seq().len()
                    ==> (#[trigger] self.outstanding_seq()[i]).node.ident@ != near_ident(
                    #[trigger] self.nearest_seq()[j],
                    self.own_id(),
                ),
            forall|i: int, j: int|
                0 <= i < j < self.outstanding_seq().len() ==> (#[trigger] self.outstanding_seq()[i]).node.ident@
                    != (#[trigger] self.outstanding_seq()[j]).node.ident@,
    {
        let n = self.nearest@;
        let o = self.outstanding@;
        assert forall|i: int, j: int| 0 <= i < j < n.len() implies near_ident(#[trigger] n[i], self.own_ident@)
            != near_ident(#[trigger] n[j], self.own_ident@) by {
            assert(near_dists(n)[i] == n[i].dist@);
            assert(near_dists(n)[j] == n[j].dist@);
            assert(lex_lt(near_dists(n)[i], near_dists(n)[j]));
            lemma_lex_irreflexive(n[i].dist@);
        }
        assert forall|i: int, j: int| 0 <= i < o.len() && 0 <= j < n.len() implies (#[trigger] o[i]).node.ident@
            != near_ident(#[trigger] n[j], self.own_ident@) by {
            assert(o[i].dist@ != n[j].dist@);
        }
        assert forall|i: int, j: int| 0 <= i < j < o.len() implies (#[trigger] o[i]).node.ident@ != (#[trigger] o[j]).node.ident@ by {
            assert(out_dists(o)[i] == o[i].dist@);
            assert(out_dists(o)[j] == o[j].dist@);
            assert(lex_lt(out_dists(o)[i], out_dists(o)[j]));
            lemma_lex_irreflexive(o[i].dist@);
        }
    }
}

} // verus!
