use vstd::prelude::*;
use crate::coord::dist;
use crate::identity::{
    NodeIdentity,
    NodeSecret,
    node_ident_coord,
};
use crate::outside::ed25519_public_of;
use crate::routing::{
    Buckets,
    NodeInfo,
    PeerAddr,
    NEIGHBORHOOD,
    table_count,
    cap,
    peer_order,
    add_spec,
    mark_spec,
    table_ok,
};
use crate::store::{
    ValueStore,
    StoreError,
    StoreEntry,
    stored_after,
    stale,
    swept,
};
use crate::announcement::{
    verified_published,
    published_of,
    expired,
    CLOCK_SKEW_MS,
};
use crate::find::{
    FindState,
    FindGoal,
    FindRequestOut,
    NearestEntry,
    PARALLEL,
    goal_same,
    goal_coord_of,
    req_of,
};
use crate::announcement::{
    Announcement,
    array_bytes,
};
use crate::wire::{
    ChallengeResponse,
    Message,
    FindRequest,
    FindResponse,
    FindResponseContent,
    StoreRequest,
    enc_content,
    same_content,
    lemma_content_injective,
};
use crate::find::{
    answers,
    NearestNode,
    from_peers,
    covers,
    nearest_after,
    fanout,
    somes,
    accepted_stamp,
    held_stamp,
    OutstandingEntry,
};
use crate::coord::lex_lt;
use crate::identity::coord_of;
use crate::outside::{
    ed25519_signature_of,
    random_bytes32,
};
use crate::identity::Identity;
use crate::outside::ed25519_valid;
use crate::coord::coord_lt;
use crate::coord::{
    COORD_BITS,
    xor_seq,
    leading_zeros,
};

verus! {

/// Counts that describe the node's state.
#[derive(Clone, Copy, Debug, PartialEq, Eq, Structural)]
pub struct HealthDetail {
    pub responsive_neighbors: usize,
    pub unresponsive_neighbors: usize,
    pub active_finds: usize,
    pub active_challenges: usize,
    pub active_pings: usize,
}

/// A liveness probe in flight.
#[derive(Clone, Copy, Debug)]
pub struct PingState {
    pub ident: NodeIdentity,
    pub req_id: u64,
    pub leading_zeros: usize,
}

/// A challenge in flight to a peer that contacted this node first.
#[derive(Clone, Copy, Debug)]
pub struct ChallengeState {
    pub ident: NodeIdentity,
    pub req_id: u64,
    pub challenge: [u8; 32],
    pub node: NodeInfo,
}

/// Something for the host to do on the node's behalf.
#[derive(Debug)]
pub enum Action {
    /// Send `message` to `to`.
    Send { to: PeerAddr, message: Message },
    /// Call `find_timeout(goal, req_id, ..)` once the request timeout has passed.
    FindTimeout { goal: FindGoal, req_id: u64 },
    /// Call `ping_timeout(ident, req_id)` once the request timeout has passed.
    PingTimeout { ident: NodeIdentity, req_id: u64 },
    /// Call `challenge_timeout(ident, req_id)` once the request timeout has passed.
    ChallengeTimeout { ident: NodeIdentity, req_id: u64 },
    /// The find for `goal` finished: hand its result to whoever waits on it.
    FindDone { goal: FindGoal, nearest: Vec<NearestEntry>, value: Option<Announcement> },
}

proof fn lemma_goal_same_trans(a: FindGoal, b: FindGoal, c: FindGoal)
    requires
        goal_same(a, b),
        goal_same(b, c),
    ensures
        goal_same(a, c),
{
}

proof fn lemma_goal_same_sym(a: FindGoal, b: FindGoal)
    ensures
        goal_same(a, b) == goal_same(b, a),
{
}

/// The announcement that `store` holds for the identity of `goal`, if any.
pub open spec fn stored_value(store: Seq<StoreEntry>, goal: FindGoal) -> Option<Announcement> {
    match goal {
        FindGoal::Identity(id) => if crate::store::index_of(store, id@) >= 0 {
            Some(store[crate::store::index_of(store, id@)].value)
        } else {
            None
        },
        FindGoal::Coord(_) => None,
    }
}

/// `r` starts with the signed answer of `own` to a find for `goal` with
/// `challenge`, sent back to `from`, naming `nodes` and carrying the
/// announcement `store` holds for it.
pub open spec fn answers_find(
    r: Result<Vec<Action>, StoreError>,
    from: PeerAddr,
    own: NodeIdentity,
    secret: Seq<u8>,
    goal: FindGoal,
    challenge: Seq<u8>,
    nodes: Seq<NodeInfo>,
    store: Seq<StoreEntry>,
) -> bool {
    match r {
        Ok(a) => a@.len() >= 1 && match a@[0] {
            Action::Send { to, message: Message::FindResponse(resp) } => to == from && resp.sender == own
                && resp.signature@ == ed25519_signature_of(secret, resp.message@) && exists|c: FindResponseContent|
                enc_content(c) == resp.message@ && c.goal == goal && c.challenge@ == challenge && c.sender == own
                    && c.nodes@ == nodes && crate::wire::same_opt_ann(c.value, stored_value(store, goal)),
            _ => false,
        },
        Err(_) => false,
    }
}

/// Whether a put of `value` stops short: `value` has no stamp, or the find
/// returned an announcement at least as new.
pub open spec fn put_skipped(value: Announcement, found: Option<Announcement>) -> bool {
    match published_of(value.message@) {
        None => true,
        Some(p) => match found {
            Some(f) => match published_of(f.message@) {
                Some(fp) => fp >= p,
                None => false,
            },
            None => false,
        },
    }
}

/// `a` sends a Store of `value` under `key` to `to`.
pub open spec fn is_store_to(a: Action, key: Identity, value: Announcement, to: PeerAddr) -> bool {
    match a {
        Action::Send { to: t, message: Message::Store(req) } => t == to && req.key == key && req.value.message@
            == value.message@ && req.value.signature@ == value.signature@,
        _ => false,
    }
}

/// `a` sends a Store of `value` under `key` to the peer of `e`.
pub open spec fn is_store_for(a: Action, key: Identity, value: Announcement, e: NearestEntry) -> bool {
    match e.node {
        NearestNode::Node(n) => is_store_to(a, key, value, n.address),
        NearestNode::Self_ => false,
    }
}

/// `a` probes a peer of table `t`: a `Ping` to its address, or the timeout of
/// a ping to it.
pub open spec fn is_probe(a: Action, t: Seq<Seq<crate::routing::NodeState>>) -> bool {
    match a {
        Action::Send { to, message: Message::Ping } => exists|b: int, i: int|
            0 <= b < t.len() && 0 <= i < t[b].len() && t[b][i].node.address == to,
        Action::PingTimeout { ident, req_id: _ } => exists|b: int, i: int|
            0 <= b < t.len() && 0 <= i < t[b].len() && t[b][i].node.ident == ident,
        _ => false,
    }
}

/// `r` is a single `Pung` from `own` back to `from`.
pub open spec fn answers_ping(r: Result<Vec<Action>, StoreError>, from: PeerAddr, own: Seq<u8>) -> bool {
    match r {
        Ok(a) => a@.len() == 1 && match a@[0] {
            Action::Send { to, message: Message::Pung(id) } => to == from && id@ == own,
            _ => false,
        },
        Err(_) => false,
    }
}

/// `r` is a single `ChallengeResponse` back to `from`, signing `nonce` with `secret`.
pub open spec fn answers_challenge(
    r: Result<Vec<Action>, StoreError>,
    from: PeerAddr,
    own: Seq<u8>,
    secret: Seq<u8>,
    nonce: Seq<u8>,
) -> bool {
    match r {
        Ok(a) => a@.len() == 1 && match a@[0] {
            Action::Send { to, message: Message::ChallengeResponse(cr) } => to == from && cr.sender@ == own
                && cr.signature@ == ed25519_signature_of(secret, nonce),
            _ => false,
        },
        Err(_) => false,
    }
}

/// `c1` and `a1` extend `c0` and `a0` with a new challenge to `id` at `addr`
/// under `req_id`: the `Challenge` datagram carrying its nonce, then its timeout.
pub open spec fn opens_challenge(
    c0: Seq<ChallengeState>,
    c1: Seq<ChallengeState>,
    a0: Seq<Action>,
    a1: Seq<Action>,
    id: NodeIdentity,
    addr: PeerAddr,
    req_id: u64,
) -> bool {
    &&& c1.len() == c0.len() + 1
    &&& c1.drop_last() == c0
    &&& c1.last().ident == id
    &&& c1.last().req_id == req_id
    &&& c1.last().node == (NodeInfo { ident: id, address: addr })
    &&& a1.len() == a0.len() + 2
    &&& a1.take(a0.len() as int) == a0
    &&& match a1[a0.len() as int] {
        Action::Send { to, message: Message::Challenge(v) } => to == addr && v@ == c1.last().challenge@,
        _ => false,
    }
    &&& a1[a0.len() as int + 1] == (Action::ChallengeTimeout { ident: id, req_id })
}

/// Challenge `k` is open for `sender`, and `sig` signs its nonce.
pub open spec fn challenge_accepted(c: Seq<ChallengeState>, sender: Seq<u8>, sig: Seq<u8>, k: int) -> bool {
    0 <= k < c.len() && c[k].ident@ == sender && ed25519_valid(sender, c[k].challenge@, sig)
}

/// Ping `k` is the one to `ident` queued with `req_id`.
pub open spec fn ping_matches(p: Seq<PingState>, ident: Seq<u8>, req_id: u64, k: int) -> bool {
    0 <= k < p.len() && p[k].ident@ == ident && p[k].req_id == req_id
}

/// Challenge `k` is the one to `ident` queued with `req_id`.
pub open spec fn challenge_matches(c: Seq<ChallengeState>, ident: Seq<u8>, req_id: u64, k: int) -> bool {
    0 <= k < c.len() && c[k].ident@ == ident && c[k].req_id == req_id
}

/// `f` is `o` after a `Pung` from `k`: its ping closes and its slot is marked
/// responsive; with no ping to `k` open, nothing changes.
pub open spec fn pung_handled(o: NodeCore, f: NodeCore, k: Seq<u8>) -> bool {
    &&& forall|j: int|
        0 <= j < o.pings_seq().len() && o.pings_seq()[j].ident@ == k ==> f.pings_seq() == o.pings_seq().remove(j)
            && f.buckets_spec().table() == mark_spec(o.buckets_spec().table(), k, o.pings_seq()[j].leading_zeros as int, false)
    &&& (forall|j: int| 0 <= j < o.pings_seq().len() ==> o.pings_seq()[j].ident@ != k) ==> f.pings_seq() == o.pings_seq()
        && f.buckets_spec() == o.buckets_spec()
}

/// `f` is `o` after a `ChallengeResponse` from `sender` with `sig`: if it signs
/// the open challenge of `sender`, that closes and `sender` enters the table;
/// otherwise nothing changes.
pub open spec fn challenge_resp_handled(o: NodeCore, f: NodeCore, sender: Seq<u8>, sig: Seq<u8>) -> bool {
    &&& forall|k: int|
        challenge_accepted(o.challenges_seq(), sender, sig, k) ==> f.challenges_seq() == o.challenges_seq().remove(k)
            && f.buckets_spec().table() == add_spec(
            o.buckets_spec().table(),
            o.buckets_spec().own(),
            sender,
            Some(o.challenges_seq()[k].node),
        ).0
    &&& (forall|k: int| !challenge_accepted(o.challenges_seq(), sender, sig, k)) ==> f.challenges_seq()
        == o.challenges_seq() && f.buckets_spec() == o.buckets_spec()
}

/// `f` is `o` after a first contact from `id` at `addr`: if the table would
/// take `id` as new and no challenge to it is open, one is opened under the next
/// request id; otherwise the open challenges stay as they are.
pub open spec fn challenge_started(o: NodeCore, f: NodeCore, id: NodeIdentity, addr: PeerAddr) -> bool {
    if add_spec(o.buckets_spec().table(), o.buckets_spec().own(), id@, None).1 && !(exists|k: int|
        0 <= k < o.challenges_seq().len() && o.challenges_seq()[k].ident@ == id@) {
        &&& f.challenges_seq().len() == o.challenges_seq().len() + 1
        &&& f.challenges_seq().drop_last() == o.challenges_seq()
        &&& f.challenges_seq().last().ident == id
        &&& f.challenges_seq().last().req_id == o.next_req_id_spec()
        &&& f.challenges_seq().last().node == (NodeInfo { ident: id, address: addr })
    } else {
        f.challenges_seq() == o.challenges_seq()
    }
}

/// The peers that a new find for `goal` asks: the `PARALLEL` nearest the goal
/// in the routing table of `o`.
pub open spec fn start_peers(o: NodeCore, goal: FindGoal) -> Seq<NodeInfo> {
    cap(
        peer_order(
            o.buckets_spec().table(),
            leading_zeros(xor_seq(goal_coord_of(goal), o.buckets_spec().own())) as int,
        ),
        PARALLEL as nat,
    )
}

/// `a` hands out the result of find `s` for `goal`: its nearest set and value.
pub open spec fn find_done_of(a: Action, goal: FindGoal, s: FindState) -> bool {
    match a {
        Action::FindDone { goal: g, nearest, value } => g == goal && nearest@ == s.nearest_seq() && match (
            value,
            s.value_spec(),
        ) {
            (None, None) => true,
            (Some(v), Some(x)) => v.message@ == x.0.message@ && v.signature@ == x.0.signature@,
            _ => false,
        },
        _ => false,
    }
}

/// Table `t` after marking every peer of `nodes` unresponsive in its bucket,
/// seen from `own`.
pub open spec fn mark_all(t: Seq<Seq<crate::routing::NodeState>>, own: Seq<u8>, nodes: Seq<NodeInfo>) -> Seq<
    Seq<crate::routing::NodeState>,
>
    decreases nodes.len(),
{
    if nodes.len() == 0 {
        t
    } else {
        mark_spec(
            mark_all(t, own, nodes.drop_last()),
            nodes.last().ident@,
            crate::routing::bucket_of(own, nodes.last().ident@) as int,
            true,
        )
    }
}

/// The routing table after adding each of `bs` in turn to `t` (seen from
/// `own_coord`), skipping the node's own identity `own_id`.
pub open spec fn bootstrap_table(
    t: Seq<Seq<crate::routing::NodeState>>,
    own_coord: Seq<u8>,
    own_id: Seq<u8>,
    bs: Seq<NodeInfo>,
) -> Seq<Seq<crate::routing::NodeState>>
    decreases bs.len(),
{
    if bs.len() == 0 {
        t
    } else {
        let t1 = bootstrap_table(t, own_coord, own_id, bs.drop_last());
        if bs.last().ident@ == own_id {
            t1
        } else {
            add_spec(t1, own_coord, bs.last().ident@, Some(bs.last())).0
        }
    }
}

/// Some peer of table `t` that is offered for this node's own coordinate
/// `own` is strictly nearer `own` than distance `d`.
pub open spec fn nearer_exists(t: Seq<Seq<crate::routing::NodeState>>, own: Seq<u8>, d: Seq<u8>) -> bool {
    let p = cap(peer_order(t, leading_zeros(xor_seq(own, own)) as int), NEIGHBORHOOD as nat);
    exists|k: int| 0 <= k < p.len() && lex_lt(xor_seq(coord_of(p[k].ident@), own), d)
}

/// The value a find holds after an answer carrying `value` at `now`, given the
/// value `held` before.
pub open spec fn value_after(
    goal: FindGoal,
    held: Option<(Announcement, u64)>,
    value: Option<Announcement>,
    now: u64,
    got: Option<(Announcement, u64)>,
) -> bool {
    match value {
        None => got == held,
        Some(v) => match accepted_stamp(goal, held_stamp(held), v, now) {
            Some(p) => match got {
                Some(x) => x.1 == p && x.0.message@ == v.message@ && x.0.signature@ == v.signature@,
                None => false,
            },
            None => got == held,
        },
    }
}

/// Find `s2` is find `s` after outstanding entry `j` answered naming `nodes`
/// and carrying `value`, at `now`; `reqs` are the requests it sent on.
pub open spec fn find_step(
    s: FindState,
    s2: FindState,
    j: int,
    nodes: Seq<NodeInfo>,
    value: Option<Announcement>,
    now: u64,
    reqs: Seq<FindRequestOut>,
) -> bool {
    let e = s.outstanding_seq()[j];
    let near2 = nearest_after(s.nearest_seq(), NearestEntry { dist: e.dist, node: NearestNode::Node(e.node) });
    &&& s2.goal_spec() == s.goal_spec()
    &&& s2.req_id_spec() == s.req_id_spec()
    &&& s2.own_id() == s.own_id()
    &&& s2.nearest_seq() == near2
    &&& exists|os: Seq<Seq<OutstandingEntry>>, rqs: Seq<Seq<NodeIdentity>>, qs: Seq<Option<FindRequestOut>>|
        #[trigger] fanout(near2, goal_coord_of(s.goal_spec()), nodes, os, rqs, qs) && os[0] == s.outstanding_seq().remove(j)
            && rqs[0] == s.requested_seq() && os.last() == s2.outstanding_seq() && rqs.last() == s2.requested_seq()
            && reqs == somes(qs)
    &&& value_after(s.goal_spec(), s.value_spec(), value, now, s2.value_spec())
    &&& s2.outstanding_seq().len() > 0 ==> s2.updated_spec() == now
}

/// `f` and actions `r` follow from `o` when outstanding entry `j` of find `i`
/// answers from `sender` with body `c`, at `now`.
pub open spec fn find_resp_done(
    o: NodeCore,
    f: NodeCore,
    r: Seq<Action>,
    sender: NodeIdentity,
    c: FindResponseContent,
    i: int,
    j: int,
    now: u64,
) -> bool {
    let s = o.finds_seq()[i];
    let e = s.outstanding_seq()[j];
    let added = add_spec(o.buckets_spec().table(), o.buckets_spec().own(), sender@, Some(e.node));
    &&& f.buckets_spec().table() == added.0
    &&& r.len() >= 1
    &&& (added.1 && !nearer_exists(added.0, o.buckets_spec().own(), xor_seq(coord_of(sender@), o.buckets_spec().own())))
        ==> forall|k: int|
        0 <= k < o.store_seq().len() ==> exists|a: int|
            0 <= a < r.len() && is_store_to(r[a], o.store_seq()[k].key, #[trigger] o.store_seq()[k].value, e.node.address)
    &&& exists|s2: FindState, reqs: Seq<FindRequestOut>|
        #[trigger] find_step(s, s2, j, c.nodes@, c.value, now, reqs) && (forall|k: int|
            0 <= k < reqs.len() ==> exists|a: int|
                0 <= a < r.len() && is_find_request(r[a], o.node_ident_spec(), s.goal_spec(), #[trigger] reqs[k]))
            && if s2.outstanding_seq().len() == 0 {
            f.finds_seq() == o.finds_seq().remove(i) && find_done_of(r.last(), s.goal_spec(), s2)
        } else {
            f.finds_seq() == o.finds_seq().update(i, s2) && r.last() == (Action::FindTimeout {
                goal: s.goal_spec(),
                req_id: s.req_id_spec(),
            })
        }
}

/// Slot `i` of bucket `lz` comes before slot `i2` of bucket `lz2` in a ping
/// round, which takes the first slot of every bucket, then the second, and so on.
pub open spec fn round_before(i: int, lz: int, i2: int, lz2: int) -> bool {
    i < i2 || (i == i2 && lz < lz2)
}

/// A ping round pings slot `i` of bucket `lz` of `t`: the slot exists and its
/// identity had no ping open in `pings0`.
pub open spec fn round_pings(t: Seq<Seq<crate::routing::NodeState>>, pings0: Seq<PingState>, lz: int, i: int) -> bool {
    &&& 0 <= lz < t.len()
    &&& 0 <= i < NEIGHBORHOOD
    &&& i < t[lz].len()
    &&& !(exists|q: int| 0 <= q < pings0.len() && pings0[q].ident@ == t[lz][i].node.ident@)
}

/// Ping `p`, with its two actions, is the one a round opens for slot `i` of
/// bucket `lz` of `t`.
pub open spec fn ping_for(p: PingState, a0: Action, a1: Action, t: Seq<Seq<crate::routing::NodeState>>, lz: int, i: int) -> bool {
    &&& p.ident == t[lz][i].node.ident
    &&& p.leading_zeros == lz
    &&& a0 == (Action::Send { to: t[lz][i].node.address, message: Message::Ping })
    &&& a1 == (Action::PingTimeout { ident: p.ident, req_id: p.req_id })
}

/// New ping `m` of `p` (with its actions in `r`) was opened for a slot that the
/// round pings.
pub open spec fn round_src(t: Seq<Seq<crate::routing::NodeState>>, pings0: Seq<PingState>, p: Seq<PingState>, r: Seq<Action>, m: int) -> bool {
    exists|lz2: int, i2: int| round_pings(t, pings0, lz2, i2) && ping_for(p[pings0.len() + m], r[2 * m], r[2 * m + 1], t, lz2, i2)
}

/// Pings `p` and actions `r` are those of a ping round over `t` that began with
/// pings `pings0` and request id `id0`, and has taken every slot before slot `i` of
/// bucket `lz`; `id1` is the next request id.
pub open spec fn ping_round_done(
    t: Seq<Seq<crate::routing::NodeState>>,
    pings0: Seq<PingState>,
    p: Seq<PingState>,
    id0: u64,
    id1: u64,
    r: Seq<Action>,
    i: int,
    lz: int,
) -> bool {
    let n = p.len() - pings0.len();
    &&& p.len() >= pings0.len()
    &&& p.take(pings0.len() as int) == pings0
    &&& id1 == id0 + n
    &&& r.len() == 2 * n
    &&& forall|m: int| 0 <= m < n ==> (#[trigger] p[pings0.len() + m]).req_id == id0 + m
    &&& forall|m: int| 0 <= m < n ==> #[trigger] round_src(t, pings0, p, r, m)
    &&& forall|lz2: int, i2: int|
        #[trigger] round_pings(t, pings0, lz2, i2) && round_before(i2, lz2, i, lz) ==> exists|m: int|
            0 <= m < n && #[trigger] ping_for(p[pings0.len() + m], r[2 * m], r[2 * m + 1], t, lz2, i2)
}

proof fn lemma_round_skip(
    t: Seq<Seq<crate::routing::NodeState>>,
    pings0: Seq<PingState>,
    p: Seq<PingState>,
    id0: u64,
    id1: u64,
    r: Seq<Action>,
    i: int,
    lz: int,
)
    requires
        ping_round_done(t, pings0, p, id0, id1, r, i, lz),
        round_pings(t, pings0, lz, i) ==> exists|m: int|
            0 <= m < p.len() - pings0.len() && #[trigger] ping_for(p[pings0.len() + m], r[2 * m], r[2 * m + 1], t, lz, i),
    ensures
        ping_round_done(t, pings0, p, id0, id1, r, i, lz + 1),
{
    let n = p.len() - pings0.len();
    assert forall|lz2: int, i2: int| #[trigger] round_pings(t, pings0, lz2, i2) && round_before(i2, lz2, i, lz + 1) implies exists|m: int|
        0 <= m < n && #[trigger] ping_for(p[pings0.len() + m], r[2 * m], r[2 * m + 1], t, lz2, i2) by {
        if !round_before(i2, lz2, i, lz) {
            assert(lz2 == lz && i2 == i);
        }
    }
}

proof fn lemma_round_next_row(
    t: Seq<Seq<crate::routing::NodeState>>,
    pings0: Seq<PingState>,
    p: Seq<PingState>,
    id0: u64,
    id1: u64,
    r: Seq<Action>,
    i: int,
)
    requires
        ping_round_done(t, pings0, p, id0, id1, r, i, COORD_BITS as int),
        t.len() == COORD_BITS,
    ensures
        ping_round_done(t, pings0, p, id0, id1, r, i + 1, 0),
{
    let n = p.len() - pings0.len();
    assert forall|lz2: int, i2: int| #[trigger] round_pings(t, pings0, lz2, i2) && round_before(i2, lz2, i + 1, 0) implies exists|m: int|
        0 <= m < n && #[trigger] ping_for(p[pings0.len() + m], r[2 * m], r[2 * m + 1], t, lz2, i2) by {
        assert(round_before(i2, lz2, i, COORD_BITS as int));
    }
}

/// A slot of the round whose identity already has a new ping is that ping's slot.
proof fn lemma_round_seen(
    t: Seq<Seq<crate::routing::NodeState>>,
    own: Seq<u8>,
    pings0: Seq<PingState>,
    p: Seq<PingState>,
    id0: u64,
    id1: u64,
    r: Seq<Action>,
    i: int,
    lz: int,
    a: int,
)
    requires
        ping_round_done(t, pings0, p, id0, id1, r, i, lz),
        crate::routing::table_ok(t, own),
        round_pings(t, pings0, lz, i),
        0 <= a < p.len(),
        p[a].ident@ == t[lz][i].node.ident@,
    ensures
        exists|m: int| 0 <= m < p.len() - pings0.len() && #[trigger] ping_for(p[pings0.len() + m], r[2 * m], r[2 * m + 1], t, lz, i),
{
    if a < pings0.len() {
        assert(p[a] == p.take(pings0.len() as int)[a]);
        assert(pings0[a].ident@ == t[lz][i].node.ident@);
    } else {
        let m = a - pings0.len();
        assert(round_src(t, pings0, p, r, m));
        let (lz2, i2) = choose|lz2: int, i2: int| round_pings(t, pings0, lz2, i2) && ping_for(p[pings0.len() + m], r[2 * m], r[2 * m + 1], t, lz2, i2);
        crate::routing::lemma_ident_one_slot(t, own, lz2, i2, lz, i);
        assert(ping_for(p[pings0.len() + m], r[2 * m], r[2 * m + 1], t, lz, i));
    }
}

#[verifier::rlimit(60)]
proof fn lemma_round_push(
    t: Seq<Seq<crate::routing::NodeState>>,
    pings0: Seq<PingState>,
    p: Seq<PingState>,
    id0: u64,
    id1: u64,
    r: Seq<Action>,
    i: int,
    lz: int,
)
    requires
        ping_round_done(t, pings0, p, id0, id1, r, i, lz),
        round_pings(t, pings0, lz, i),
        id1 < u64::MAX,
        t.len() == COORD_BITS,
        forall|a: int| 0 <= a < p.len() ==> p[a].ident@ != t[lz][i].node.ident@,
    ensures
        ({
            let np = p.push(PingState { ident: t[lz][i].node.ident, req_id: id1, leading_zeros: lz as usize });
            let nr = r.push(Action::Send { to: t[lz][i].node.address, message: Message::Ping }).push(
                Action::PingTimeout { ident: t[lz][i].node.ident, req_id: id1 },
            );
            ping_round_done(t, pings0, np, id0, (id1 + 1) as u64, nr, i, lz + 1)
        }),
{
    let n = p.len() - pings0.len();
    let ps = PingState { ident: t[lz][i].node.ident, req_id: id1, leading_zeros: lz as usize };
    let np = p.push(ps);
    let a0 = Action::Send { to: t[lz][i].node.address, message: Message::Ping };
    let a1 = Action::PingTimeout { ident: t[lz][i].node.ident, req_id: id1 };
    let nr = r.push(a0).push(a1);
    assert(np.take(pings0.len() as int) =~= pings0) by {
        assert(p.take(pings0.len() as int) == pings0);
    }
    assert(nr[2 * n] == a0);
    assert(nr[2 * n + 1] == a1);
    assert(ping_for(ps, a0, a1, t, lz, i));
    assert forall|m: int| 0 <= m < n + 1 implies (#[trigger] np[pings0.len() + m]).req_id == id0 + m by {
        if m < n {
            assert(np[pings0.len() + m] == p[pings0.len() + m]);
        }
    }
    assert forall|m: int| 0 <= m < n + 1 implies #[trigger] round_src(t, pings0, np, nr, m) by {
        if m < n {
            assert(round_src(t, pings0, p, r, m));
            let (lz2, i2) = choose|lz2: int, i2: int| round_pings(t, pings0, lz2, i2) && ping_for(p[pings0.len() + m], r[2 * m], r[2 * m + 1], t, lz2, i2);
            assert(np[pings0.len() + m] == p[pings0.len() + m]);
            assert(nr[2 * m] == r[2 * m] && nr[2 * m + 1] == r[2 * m + 1]);
            assert(ping_for(np[pings0.len() + m], nr[2 * m], nr[2 * m + 1], t, lz2, i2));
        } else {
            assert(np[pings0.len() + m] == ps);
            assert(ping_for(np[pings0.len() + m], nr[2 * m], nr[2 * m + 1], t, lz, i));
        }
    }
    assert forall|lz2: int, i2: int| #[trigger] round_pings(t, pings0, lz2, i2) && round_before(i2, lz2, i, lz + 1) implies exists|m: int|
        0 <= m < n + 1 && #[trigger] ping_for(np[pings0.len() + m], nr[2 * m], nr[2 * m + 1], t, lz2, i2) by {
        if round_before(i2, lz2, i, lz) {
            let m = choose|m: int| 0 <= m < n && #[trigger] ping_for(p[pings0.len() + m], r[2 * m], r[2 * m + 1], t, lz2, i2);
            assert(np[pings0.len() + m] == p[pings0.len() + m]);
            assert(nr[2 * m] == r[2 * m] && nr[2 * m + 1] == r[2 * m + 1]);
            assert(ping_for(np[pings0.len() + m], nr[2 * m], nr[2 * m + 1], t, lz2, i2));
        } else {
            assert(lz2 == lz && i2 == i);
            assert(np[pings0.len() + n] == ps);
            assert(ping_for(np[pings0.len() + n], nr[2 * n], nr[2 * n + 1], t, lz2, i2));
        }
    }
}

proof fn lemma_remove_unique_pings(p: Seq<PingState>, j: int)
    requires
        0 <= j < p.len(),
        forall|a: int, b: int| 0 <= a < b < p.len() ==> (#[trigger] p[a]).ident@ != (#[trigger] p[b]).ident@,
    ensures
        forall|a: int, b: int|
            0 <= a < b < p.remove(j).len() ==> (#[trigger] p.remove(j)[a]).ident@ != (#[trigger] p.remove(j)[b]).ident@,
{
    let r = p.remove(j);
    assert forall|a: int, b: int| 0 <= a < b < r.len() implies (#[trigger] r[a]).ident@ != (#[trigger] r[b]).ident@ by {
        let a1 = if a < j { a } else { a + 1 };
        let b1 = if b < j { b } else { b + 1 };
        assert(r[a] == p[a1] && r[b] == p[b1]);
    }
}

/// The `FindRequest` datagram for a request of a find for `goal` by `own`.
pub open spec fn is_find_request(a: Action, own: NodeIdentity, goal: FindGoal, q: FindRequestOut) -> bool {
    match a {
        Action::Send { to, message: Message::FindRequest(r) } => to == q.node.address && r.sender == own
            && r.challenge@ == q.challenge@ && r.goal == goal,
        _ => false,
    }
}

/// The DHT node's state: its identity, routing table, announcement store, and the
/// finds, pings and challenges in flight.
pub struct NodeCore {
    own_secret: NodeSecret,
    own_ident: NodeIdentity,
    buckets: Buckets,
    store: ValueStore,
    finds: Vec<FindState>,
    pings: Vec<PingState>,
    challenges: Vec<ChallengeState>,
    next_req_id: u64,
}

impl NodeCore {
    /// The node's identity.
    pub closed spec fn own_id(&self) -> Seq<u8> {
        self.own_ident@
    }

    /// The routing table.
    pub closed spec fn buckets_spec(&self) -> Buckets {
        self.buckets
    }

    /// The stored announcements.
    pub closed spec fn store_seq(&self) -> Seq<StoreEntry> {
        self.store.entries_seq()
    }

    /// The pings in flight.
    pub closed spec fn pings_seq(&self) -> Seq<PingState> {
        self.pings@
    }

    /// The challenges in flight.
    pub closed spec fn challenges_seq(&self) -> Seq<ChallengeState> {
        self.challenges@
    }

    /// The finds in flight.
    pub closed spec fn finds_seq(&self) -> Seq<FindState> {
        self.finds@
    }

    /// The next request id to hand out.
    pub closed spec fn next_req_id_spec(&self) -> u64 {
        self.next_req_id
    }

    /// The node's invariant.
    pub closed spec fn wf(&self) -> bool {
        &&& self.own_ident@ == ed25519_public_of(self.own_secret@)
        &&& self.buckets.wf()
        &&& self.buckets.own_id() == self.own_ident@
        &&& self.store.wf()
        &&& forall|i: int|
            0 <= i < self.finds@.len() ==> (#[trigger] self.finds@[i]).wf() && self.finds@[i].own_id()
                == self.own_ident@ && self.finds@[i].req_id_spec() < self.next_req_id
        &&& forall|i: int, j: int|
            0 <= i < j < self.finds@.len() ==> !goal_same(
                (#[trigger] self.finds@[i]).goal_spec(),
                (#[trigger] self.finds@[j]).goal_spec(),
            )
        &&& forall|i: int, j: int|
            0 <= i < j < self.pings@.len() ==> (#[trigger] self.pings@[i]).ident@ != (#[trigger] self.pings@[j]).ident@
        &&& forall|i: int, j: int|
            0 <= i < j < self.challenges@.len() ==> (#[trigger] self.challenges@[i]).ident@
                != (#[trigger] self.challenges@[j]).ident@
        &&& forall|i: int| 0 <= i < self.challenges@.len() ==> (#[trigger] self.challenges@[i]).node.ident@ == self.challenges@[i].ident@
    }

    /// Whether request ids are left to hand out.
    pub open spec fn ids_left(&self) -> bool {
        self.next_req_id_spec() < u64::MAX
    }

    /// A node with identity `own_secret`, an empty store, and a routing table
    /// seeded with `bootstrap` (this node itself left out).
    pub fn new(own_secret: NodeSecret, bootstrap: &Vec<NodeInfo>) -> (r: NodeCore)
        ensures
            r.wf(),
            r.own_id() == ed25519_public_of(own_secret@),
            r.finds_seq().len() == 0,
            r.next_req_id_spec() == 0,
            r.store_seq().len() == 0,
            r.pings_seq().len() == 0,
            r.challenges_seq().len() == 0,
            r.buckets_spec().table() == bootstrap_table(
                Seq::new(COORD_BITS as nat, |b: int| Seq::<crate::routing::NodeState>::empty()),
                coord_of(r.own_id()),
                r.own_id(),
                bootstrap@,
            ),
    {
        let own_ident = own_secret.get_identity();
        let mut buckets = Buckets::new(own_ident);
        let ghost t0 = buckets.table();
        for i in 0..bootstrap.len()
            invariant
                buckets.wf(),
                buckets.own_id() == own_ident@,
                buckets.own() == coord_of(own_ident@),
                buckets.table() == bootstrap_table(t0, coord_of(own_ident@), own_ident@, bootstrap@.take(i as int)),
        {
            let b = bootstrap[i];
            proof {
                assert(bootstrap@.take(i + 1).drop_last() =~= bootstrap@.take(i as int));
                assert(bootstrap@.take(i + 1).last() == b);
            }
            if !(b.ident == own_ident) {
                buckets.add_good_node(b.ident, Some(b));
            }
        }
        proof {
            assert(bootstrap@.take(bootstrap@.len() as int) =~= bootstrap@);
        }
        NodeCore {
            own_secret,
            own_ident,
            buckets,
            store: ValueStore::new(),
            finds: Vec::new(),
            pings: Vec::new(),
            challenges: Vec::new(),
            next_req_id: 0,
        }
    }

    /// How many request ids are left to hand out.
    pub fn spare_req_ids(&self) -> (r: u64)
        ensures
            r == u64::MAX - self.next_req_id_spec(),
    {
        u64::MAX - self.next_req_id
    }

    /// The node's identity.
    pub fn node_identity(&self) -> (r: NodeIdentity)
        ensures
            r@ == self.own_id(),
    {
        self.own_ident
    }

    /// The routing table.
    pub fn buckets(&self) -> (r: &Buckets)
        ensures
            *r == self.buckets_spec(),
    {
        &self.buckets
    }

    /// Clears the routing table's change flag and returns its former value.
    pub fn take_dirty(&mut self) -> (r: bool)
        requires
            old(self).wf(),
        ensures
            final(self).wf(),
            r == old(self).buckets_spec().is_dirty(),
            !final(self).buckets_spec().is_dirty(),
            final(self).buckets_spec().table() == old(self).buckets_spec().table(),
            final(self).own_id() == old(self).own_id(),
            final(self).finds_seq() == old(self).finds_seq(),
            final(self).next_req_id_spec() == old(self).next_req_id_spec(),
    {
        self.buckets.take_dirty()
    }

    /// Sets the routing table's change flag again, after persisting it failed.
    pub fn set_dirty(&mut self)
        requires
            old(self).wf(),
        ensures
            final(self).wf(),
            final(self).buckets_spec().is_dirty(),
            final(self).buckets_spec().table() == old(self).buckets_spec().table(),
            final(self).own_id() == old(self).own_id(),
            final(self).finds_seq() == old(self).finds_seq(),
            final(self).next_req_id_spec() == old(self).next_req_id_spec(),
    {
        self.buckets.set_dirty();
    }

    /// The invariants of the node's parts: the routing table's, the store's
    /// (no key twice), and those of every find in flight, which are this
    /// node's and look for different goals.
    pub proof fn lemma_node_invariants(&self)
        requires
            self.wf(),
        ensures
            self.buckets_spec().wf(),
            self.buckets_spec().own_id() == self.own_id(),
            crate::store::keys_unique(self.store_seq()),
            forall|i: int| 0 <= i < self.finds_seq().len() ==> (#[trigger] self.finds_seq()[i]).wf()
                && self.finds_seq()[i].own_id() == self.own_id(),
            forall|i: int, j: int|
                0 <= i < j < self.finds_seq().len() ==> !goal_same(
                    (#[trigger] self.finds_seq()[i]).goal_spec(),
                    (#[trigger] self.finds_seq()[j]).goal_spec(),
                ),
    {
        self.store.lemma_keys_unique();
    }

    /// The announcement store.
    pub fn store(&self) -> (r: &ValueStore)
        requires
            self.wf(),
        ensures
            r.wf(),
            r.entries_seq() == self.store_seq(),
    {
        &self.store
    }

    /// Counts of responsive and unresponsive peers, and of the finds, challenges
    /// and pings in flight.
    pub fn health_detail(&self) -> (r: HealthDetail)
        requires
            self.wf(),
        ensures
            r.responsive_neighbors as nat == table_count(self.buckets_spec().table(), false, COORD_BITS as int),
            r.unresponsive_neighbors as nat == table_count(self.buckets_spec().table(), true, COORD_BITS as int),
            r.active_finds == self.finds_seq().len(),
            r.active_challenges == self.challenges_seq().len(),
            r.active_pings == self.pings_seq().len(),
    {
        let (responsive, unresponsive) = self.buckets.health_counts();
        HealthDetail {
            responsive_neighbors: responsive,
            unresponsive_neighbors: unresponsive,
            active_finds: self.finds.len(),
            active_challenges: self.challenges.len(),
            active_pings: self.pings.len(),
        }
    }

    fn find_index(&self, goal: &FindGoal) -> (r: Option<usize>)
        ensures
            match r {
                Some(i) => i < self.finds@.len() && goal_same(self.finds@[i as int].goal_spec(), *goal),
                None => forall|i: int| 0 <= i < self.finds@.len() ==> !goal_same(self.finds@[i].goal_spec(), *goal),
            },
    {
        for i in 0..self.finds.len()
            invariant
                forall|j: int| 0 <= j < i ==> !goal_same(self.finds@[j].goal_spec(), *goal),
        {
            if self.finds[i].goal().same(goal) {
                return Some(i);
            }
        }
        None
    }

    /// Starts a find for `goal` at `now`, unless one is running already (then the
    /// caller only waits for it; the result is `true`). Otherwise requests go to
    /// the peers nearest the goal, and a timeout is queued.
    pub fn start_find(&mut self, goal: FindGoal, now: u64) -> (r: (bool, Vec<Action>))
        requires
            old(self).wf(),
            old(self).ids_left(),
        ensures
            final(self).wf(),
            final(self).own_id() == old(self).own_id(),
            r.0 == exists|i: int| 0 <= i < old(self).finds_seq().len() && goal_same(old(self).finds_seq()[i].goal_spec(), goal),
            r.0 ==> *final(self) == *old(self) && r.1@.len() == 0,
            !r.0 ==> ({
                let st = final(self).finds_seq().last();
                &&& final(self).finds_seq().drop_last() == old(self).finds_seq()
                &&& st.goal_spec() == goal
                &&& st.req_id_spec() == old(self).next_req_id_spec()
                &&& st.updated_spec() == now
                &&& final(self).next_req_id_spec() == old(self).next_req_id_spec() + 1
                &&& r.1@.len() >= 1
                &&& forall|i: int| 0 <= i < st.outstanding_seq().len() ==> exists|k: int| 0 <= k < r.1@.len() - 1
                    && is_find_request(r.1@[k], final(self).node_ident_spec(), goal, req_of(#[trigger] st.outstanding_seq()[i]))
                &&& r.1@.last() == Action::FindTimeout { goal, req_id: st.req_id_spec() }
                &&& r.1@.len() == st.outstanding_seq().len() + 1
                &&& st.nearest_seq().len() == 1
                &&& st.nearest_seq()[0].node is Self_
                &&& st.value_spec() is None
                &&& st.requested_seq().len() == 0
                &&& from_peers(st.outstanding_seq(), start_peers(*old(self), goal), PARALLEL as int)
                &&& covers(
                    st.outstanding_seq(),
                    start_peers(*old(self), goal),
                    PARALLEL as int,
                    coord_of(old(self).own_id()),
                    goal_coord_of(goal),
                )
            }),
    {
        if self.find_index(&goal).is_some() {
            return (true, Vec::new());
        }
        let req_id = self.next_req_id;
        self.next_req_id = self.next_req_id + 1;
        let peers = self.buckets.get_closest_peers(&goal.coord(), PARALLEL);
        let (st, reqs) = FindState::new(req_id, goal, self.own_ident, now, &peers);
        let mut actions: Vec<Action> = Vec::new();
        for k in 0..reqs.len()
            invariant
                actions@.len() == k,
                forall|j: int| 0 <= j < k ==> is_find_request(actions@[j], self.own_ident, goal, #[trigger] reqs@[j]),
        {
            let q = reqs[k];
            actions.push(Action::Send {
                to: q.node.address,
                message: Message::FindRequest(FindRequest {
                    sender: self.own_ident,
                    challenge: array_bytes(&q.challenge),
                    goal,
                }),
            });
        }
        proof {
            let o = st.outstanding_seq();
            assert forall|i: int| 0 <= i < o.len() implies exists|k: int| 0 <= k < actions@.len()
                && is_find_request(actions@[k], self.own_ident, goal, req_of(#[trigger] o[i])) by {
                assert(reqs@.contains(req_of(o[i])));
                let k = choose|k: int| 0 <= k < reqs@.len() && reqs@[k] == req_of(o[i]);
            }
        }
        let ghost before = actions@;
        actions.push(Action::FindTimeout { goal, req_id });
        let ghost old_finds = self.finds@;
        self.finds.push(st);
        proof {
            assert(self.finds@.drop_last() =~= old_finds);
            assert(self.finds@.last() == st);
            let o = st.outstanding_seq();
            assert forall|i: int| 0 <= i < o.len() implies exists|k: int| 0 <= k < actions@.len() - 1
                && is_find_request(actions@[k], self.own_ident, goal, req_of(#[trigger] o[i])) by {
                let k = choose|k: int| 0 <= k < before.len() && is_find_request(before[k], self.own_ident, goal, req_of(o[i]));
                assert(actions@[k] == before[k]);
            }
            assert(self.finds_seq().drop_last() == old(self).finds_seq());
            assert(self.finds_seq().last() == st);
        }
        (false, actions)
    }

    /// Appends the `FindRequest` datagrams of `reqs`, requests of the find for `goal`.
    fn send_requests(&self, goal: FindGoal, reqs: &Vec<FindRequestOut>, actions: &mut Vec<Action>)
        ensures
            final(actions)@.len() == old(actions)@.len() + reqs@.len(),
            final(actions)@.take(old(actions)@.len() as int) == old(actions)@,
            forall|k: int|
                0 <= k < reqs@.len() ==> is_find_request(
                    #[trigger] final(actions)@[old(actions)@.len() + k],
                    self.own_ident,
                    goal,
                    reqs@[k],
                ),
    {
        let ghost a0 = actions@;
        for k in 0..reqs.len()
            invariant
                actions@.len() == a0.len() + k,
                actions@.take(a0.len() as int) == a0,
                a0 == old(actions)@,
                forall|q: int| 0 <= q < k ==> is_find_request(#[trigger] actions@[a0.len() + q], self.own_ident, goal, reqs@[q]),
        {
            let q = reqs[k];
            let ghost before = actions@;
            actions.push(Action::Send {
                to: q.node.address,
                message: Message::FindRequest(FindRequest {
                    sender: self.own_ident,
                    challenge: array_bytes(&q.challenge),
                    goal,
                }),
            });
            proof {
                assert(actions@.take(a0.len() as int) =~= before.take(a0.len() as int));
                assert forall|x: int| 0 <= x < k + 1 implies is_find_request(#[trigger] actions@[a0.len() + x], self.own_ident, goal, reqs@[x]) by {
                    if x < k {
                        assert(actions@[a0.len() + x] == before[a0.len() + x]);
                    }
                }
            }
        }
    }

    /// Sends every stored announcement to `to`.
    fn transfer_store(&self, to: PeerAddr, actions: &mut Vec<Action>)
        ensures
            final(actions)@.len() == old(actions)@.len() + self.store_seq().len(),
            final(actions)@.take(old(actions)@.len() as int) == old(actions)@,
            forall|k: int|
                0 <= k < self.store_seq().len() ==> is_store_to(
                    #[trigger] final(actions)@[old(actions)@.len() + k],
                    self.store_seq()[k].key,
                    self.store_seq()[k].value,
                    to,
                ),
    {
        let ghost a0 = actions@;
        let n = self.store.len();
        for k in 0..n
            invariant
                n == self.store.entries_seq().len(),
                actions@.len() == a0.len() + k,
                actions@.take(a0.len() as int) == a0,
                a0 == old(actions)@,
                forall|q: int|
                    0 <= q < k ==> is_store_to(
                        #[trigger] actions@[a0.len() + q],
                        self.store_seq()[q].key,
                        self.store_seq()[q].value,
                        to,
                    ),
        {
            let key = self.store.key_at(k);
            let value = self.store.value_at(k).duplicate();
            let ghost before = actions@;
            actions.push(Action::Send { to, message: Message::Store(StoreRequest { key, value }) });
            proof {
                assert(actions@.take(a0.len() as int) =~= before.take(a0.len() as int));
                assert forall|x: int| 0 <= x < k + 1 implies is_store_to(
                    #[trigger] actions@[a0.len() + x],
                    self.store_seq()[x].key,
                    self.store_seq()[x].value,
                    to,
                ) by {
                    if x < k {
                        assert(actions@[a0.len() + x] == before[a0.len() + x]);
                    }
                }
            }
        }
    }

    /// Whether the routing table holds a peer strictly nearer this node than
    /// `d` (a distance from this node).
    fn has_nearer_neighbor(&self, d: &crate::coord::DhtCoord) -> (r: bool)
        requires
            self.wf(),
        ensures
            r == nearer_exists(self.buckets_spec().table(), self.buckets_spec().own(), d@),
    {
        let own = self.buckets.own_coord();
        let peers = self.buckets.get_closest_peers(&own, NEIGHBORHOOD);
        for k in 0..peers.len()
            invariant
                own@ == self.buckets_spec().own(),
                peers@ == cap(
                    peer_order(self.buckets_spec().table(), leading_zeros(xor_seq(own@, own@)) as int),
                    NEIGHBORHOOD as nat,
                ),
                forall|q: int| 0 <= q < k ==> !lex_lt(xor_seq(coord_of(peers@[q].ident@), own@), d@),
        {
            let (_, pd) = dist(&node_ident_coord(&peers[k].ident), &own);
            if coord_lt(&pd, d) {
                return true;
            }
        }
        false
    }

    /// Handles a `FindResponse` at `now`. A response whose signature does not
    /// verify, whose find is gone, or whose sender and echoed challenge match no
    /// outstanding request of that find, changes nothing.
    ///
    /// When the sender is new to the routing table and, once it is entered, no
    /// peer of the table is strictly nearer this node than the sender, every
    /// stored announcement is sent to it: it has become one of the nodes that
    /// should hold them.
    pub fn handle_find_resp(&mut self, resp: FindResponse, now: u64) -> (r: Vec<Action>)
        requires
            old(self).wf(),
        ensures
            final(self).wf(),
            final(self).own_id() == old(self).own_id(),
            final(self).next_req_id_spec() == old(self).next_req_id_spec(),
            !ed25519_valid(resp.sender@, resp.message@, resp.signature@) ==> *final(self) == *old(self) && r@.len() == 0,
            forall|c: FindResponseContent|
                #![trigger enc_content(c)]
                enc_content(c) == resp.message@ && (forall|i: int|
                    0 <= i < old(self).finds_seq().len() && goal_same(old(self).finds_seq()[i].goal_spec(), c.goal)
                        ==> forall|j: int| !answers(old(self).finds_seq()[i].outstanding_seq(), resp.sender@, c.challenge@, j))
                    ==> *final(self) == *old(self) && r@.len() == 0,
            forall|c: FindResponseContent, i: int, j: int|
                #![trigger enc_content(c), old(self).finds_seq()[i], answers(old(self).finds_seq()[i].outstanding_seq(), resp.sender@, c.challenge@, j)]
                enc_content(c) == resp.message@ && ed25519_valid(resp.sender@, resp.message@, resp.signature@) && 0 <= i
                    < old(self).finds_seq().len() && goal_same(old(self).finds_seq()[i].goal_spec(), c.goal) && answers(
                    old(self).finds_seq()[i].outstanding_seq(),
                    resp.sender@,
                    c.challenge@,
                    j,
                ) ==> find_resp_done(*old(self), *final(self), r@, resp.sender, c, i, j, now),
    {
        let mut actions: Vec<Action> = Vec::new();
        if !resp.sender.verify(resp.message.as_slice(), resp.signature.as_slice()) {
            return actions;
        }
        let content = match FindResponseContent::from_bytes(resp.message.as_slice()) {
            Some(c) => c,
            None => {
                return actions;
            },
        };
        let mlen = resp.message.len();
        proof {
            assert forall|c: FindResponseContent| enc_content(c) == resp.message@ implies same_content(content, c) by {
                lemma_content_injective(content, c);
            }
        }
        let i = match self.find_index(&content.goal) {
            Some(i) => i,
            None => {
                return actions;
            },
        };
        if !self.finds[i].awaits(&resp.sender, content.challenge.as_slice()) {
            return actions;
        }
        proof {
            let fi = self.finds@[i as int];
            let j = choose|j: int| answers(fi.outstanding_seq(), resp.sender@, content.challenge@, j);
            assert(self.finds@ == old(self).finds_seq());
            assert forall|c: FindResponseContent| #![trigger enc_content(c)] enc_content(c) == resp.message@ implies !(forall|i2: int|
                0 <= i2 < old(self).finds_seq().len() && goal_same(old(self).finds_seq()[i2].goal_spec(), c.goal) ==> forall|j2: int|
                    !answers(old(self).finds_seq()[i2].outstanding_seq(), resp.sender@, c.challenge@, j2)) by {
                assert(same_content(content, c));
                assert(answers(self.finds@[i as int].outstanding_seq(), resp.sender@, c.challenge@, j));
            }
        }
        let ghost old_self = *self;
        let ghost s0 = self.finds@[i as int];
        let entry = match self.finds[i].take_outstanding(&resp.sender, content.challenge.as_slice()) {
            Some(e) => e,
            None => {
                return actions;
            },
        };
        let ghost j0 = choose|j: int|
            answers(s0.outstanding_seq(), resp.sender@, content.challenge@, j) && entry == s0.outstanding_seq()[j]
                && self.finds@[i as int].outstanding_seq() == s0.outstanding_seq().remove(j);
        assert(self.finds@[i as int].wf());
        let goal = self.finds[i].goal();
        let own = self.buckets.own_coord();
        let ghost t_old = self.buckets.table();
        let (_, sender_dist) = dist(&node_ident_coord(&entry.node.ident), &own);
        let ghost store0 = self.store_seq();
        let ghost a0 = actions@;
        let added_new = self.buckets.add_good_node(entry.node.ident, Some(entry.node));
        let ghost t_added = self.buckets.table();
        let mut transferred = false;
        if added_new {
            if !self.has_nearer_neighbor(&sender_dist) {
                self.transfer_store(entry.node.address, &mut actions);
                transferred = true;
            }
        }
        let ghost a1 = actions@;
        let ghost s_near = self.finds@[i as int];
        self.finds[i].add_nearest(&entry);
        let ghost s_cand = self.finds@[i as int];
        let reqs = self.finds[i].consider_candidates(&content.nodes);
        self.send_requests(goal, &reqs, &mut actions);
        let ghost a2 = actions@;
        let ghost cv = content.value;
        match content.value {
            Some(v) => self.finds[i].offer_value(v, now),
            None => {},
        }
        let ghost s_final: FindState;
        if self.finds[i].is_done() {
            let st = self.finds.remove(i);
            let value = match st.value() {
                Some(v) => Some(v.duplicate()),
                None => None,
            };
            actions.push(Action::FindDone { goal, nearest: st.nearest(), value });
            proof {
                s_final = st;
                assert(self.finds@ =~= old_self.finds@.remove(i as int));
            }
        } else {
            self.finds[i].touch(now);
            let req_id = self.finds[i].req_id();
            actions.push(Action::FindTimeout { goal, req_id });
            proof {
                s_final = self.finds@[i as int];
                assert(self.finds@ =~= old_self.finds@.update(i as int, s_final));
            }
        }
        proof {
            assert(actions@.take(a2.len() as int) =~= a2);
            assert(a0.len() == 0);
            if transferred {
                assert(a1.len() == store0.len());
                assert forall|k: int| 0 <= k < store0.len() implies is_store_to(actions@[k], store0[k].key, store0[k].value, entry.node.address) by {
                    assert(a2.take(a1.len() as int) == a1);
                    assert(actions@[k] == a2[k]);
                    assert(a2[k] == a1[k]);
                    assert(a1[a0.len() + k] == a1[k]);
                }
            }
            assert(store0 == old_self.store_seq());
            assert forall|k: int| 0 <= k < reqs@.len() implies exists|a: int|
                0 <= a < actions@.len() && is_find_request(actions@[a], old_self.node_ident_spec(), s0.goal_spec(), #[trigger] reqs@[k]) by {
                assert(actions@[a1.len() + k] == a2[a1.len() + k]);
            }
            let near2 = nearest_after(s0.nearest_seq(), NearestEntry { dist: entry.dist, node: NearestNode::Node(entry.node) });
            assert(s_cand.nearest_seq() == near2);
            let (os, rqs, qs) = choose|os: Seq<Seq<OutstandingEntry>>, rqs: Seq<Seq<NodeIdentity>>, qs: Seq<Option<FindRequestOut>>|
                #[trigger] fanout(s_cand.nearest_seq(), goal_coord_of(s_cand.goal_spec()), content.nodes@, os, rqs, qs)
                    && os[0] == s_cand.outstanding_seq() && rqs[0] == s_cand.requested_seq() && os.last()
                    == s_final.outstanding_seq() && rqs.last() == s_final.requested_seq() && reqs@ == somes(qs);
            assert(find_step(s0, s_final, j0, content.nodes@, cv, now, reqs@));
            assert forall|c: FindResponseContent, i2: int, j: int|
                #![trigger enc_content(c), old(self).finds_seq()[i2], answers(old(self).finds_seq()[i2].outstanding_seq(), resp.sender@, c.challenge@, j)]
                enc_content(c) == resp.message@ && ed25519_valid(resp.sender@, resp.message@, resp.signature@) && 0 <= i2
                    < old(self).finds_seq().len() && goal_same(old(self).finds_seq()[i2].goal_spec(), c.goal) && answers(
                    old(self).finds_seq()[i2].outstanding_seq(),
                    resp.sender@,
                    c.challenge@,
                    j,
                ) implies find_resp_done(*old(self), *self, actions@, resp.sender, c, i2, j, now) by {
                assert(same_content(content, c));
                if i2 != i {
                    lemma_goal_same_sym(c.goal, content.goal);
                    lemma_goal_same_trans(old_self.finds@[i2].goal_spec(), c.goal, old_self.finds@[i as int].goal_spec());
                    if i2 < i {
                        assert(!goal_same(old_self.finds@[i2].goal_spec(), old_self.finds@[i as int].goal_spec()));
                    } else {
                        assert(!goal_same(old_self.finds@[i as int].goal_spec(), old_self.finds@[i2].goal_spec()));
                        lemma_goal_same_sym(old_self.finds@[i as int].goal_spec(), old_self.finds@[i2].goal_spec());
                    }
                }
                s0.lemma_find_invariants();
                if j != j0 {
                    if j < j0 {
                        assert(s0.outstanding_seq()[j].node.ident@ != s0.outstanding_seq()[j0].node.ident@);
                    } else {
                        assert(s0.outstanding_seq()[j0].node.ident@ != s0.outstanding_seq()[j].node.ident@);
                    }
                }
                assert(c.nodes@ == content.nodes@);
                assert(find_step(s0, s_final, j, c.nodes@, c.value, now, reqs@));
                assert(entry.node.ident@ == resp.sender@);
                if transferred {
                    assert forall|k: int| 0 <= k < old_self.store_seq().len() implies exists|a: int|
                        0 <= a < actions@.len() && is_store_to(actions@[a], old_self.store_seq()[k].key, #[trigger] old_self.store_seq()[k].value, entry.node.address) by {
                        assert(is_store_to(actions@[k], store0[k].key, store0[k].value, entry.node.address));
                    }
                }
            }
        }
        proof {
            assert forall|a: int, b: int|
                0 <= a < b < self.finds@.len() implies !goal_same(
                (#[trigger] self.finds@[a]).goal_spec(),
                (#[trigger] self.finds@[b]).goal_spec(),
            ) by {
                if self.finds@.len() == old_self.finds@.len() {
                    assert(self.finds@[a].goal_spec() == old_self.finds@[a].goal_spec());
                    assert(self.finds@[b].goal_spec() == old_self.finds@[b].goal_spec());
                } else {
                    let a1 = if a < i { a } else { a + 1 };
                    let b1 = if b < i { b } else { b + 1 };
                    assert(self.finds@[a] == old_self.finds@[a1]);
                    assert(self.finds@[b] == old_self.finds@[b1]);
                }
            }
        }
        actions
    }

    /// Handles the timeout of the find for `goal` queued with `req_id`, at `now`:
    /// if it is still that find's timeout and no progress was made since, the
    /// find ends, and the peers it still waits on are marked unresponsive.
    pub fn find_timeout(&mut self, goal: FindGoal, req_id: u64, now: u64) -> (r: Vec<Action>)
        requires
            old(self).wf(),
        ensures
            final(self).wf(),
            final(self).own_id() == old(self).own_id(),
            final(self).next_req_id_spec() == old(self).next_req_id_spec(),
            (forall|i: int|
                0 <= i < old(self).finds_seq().len() && goal_same(old(self).finds_seq()[i].goal_spec(), goal)
                    ==> !(req_id == old(self).finds_seq()[i].req_id_spec() && old(self).finds_seq()[i].updated_spec()
                    + crate::find::REQ_TIMEOUT_MS <= now)) ==> *final(self) == *old(self) && r@.len() == 0,
            forall|i: int|
                0 <= i < old(self).finds_seq().len() && goal_same(old(self).finds_seq()[i].goal_spec(), goal)
                    && req_id == old(self).finds_seq()[i].req_id_spec() && old(self).finds_seq()[i].updated_spec()
                    + crate::find::REQ_TIMEOUT_MS <= now ==> final(self).finds_seq() == old(self).finds_seq().remove(i)
                    && r@.len() == 1 && find_done_of(r@[0], goal, old(self).finds_seq()[i])
                    && final(self).buckets_spec().table() == mark_all(
                    old(self).buckets_spec().table(),
                    old(self).buckets_spec().own(),
                    old(self).finds_seq()[i].outstanding_seq().map_values(|e: crate::find::OutstandingEntry| e.node),
                ),
    {
        let mut actions: Vec<Action> = Vec::new();
        let i = match self.find_index(&goal) {
            Some(i) => i,
            None => {
                return actions;
            },
        };
        proof {
            assert forall|j: int| 0 <= j < self.finds@.len() && goal_same(self.finds@[j].goal_spec(), goal) implies j == i by {
                if j != i {
                    lemma_goal_same_trans(self.finds@[j].goal_spec(), goal, self.finds@[i as int].goal_spec());
                    if j < i {
                        assert(!goal_same(self.finds@[j].goal_spec(), self.finds@[i as int].goal_spec()));
                    } else {
                        assert(!goal_same(self.finds@[i as int].goal_spec(), self.finds@[j].goal_spec()));
                        lemma_goal_same_sym(self.finds@[i as int].goal_spec(), self.finds@[j].goal_spec());
                    }
                }
            }
        }
        if !self.finds[i].timed_out(req_id, now) {
            return actions;
        }
        let ghost old_finds = self.finds@;
        let st = self.finds.remove(i);
        let stale = st.outstanding_nodes();
        let own = self.buckets.own_coord();
        let ghost t0 = self.buckets.table();
        for k in 0..stale.len()
            invariant
                self.wf(),
                self.own_ident == old(self).own_ident,
                self.next_req_id == old(self).next_req_id,
                self.finds@ == old_finds.remove(i as int),
                own@ == self.buckets.own(),
                t0 == old(self).buckets.table(),
                own@ == old(self).buckets.own(),
                self.buckets.table() == mark_all(t0, own@, stale@.take(k as int)),
        {
            let (lz, _) = dist(&node_ident_coord(&stale[k].ident), &own);
            self.buckets.mark_node_unresponsive(&stale[k].ident, lz, true);
            proof {
                assert(stale@.take(k + 1).drop_last() =~= stale@.take(k as int));
                assert(stale@.take(k + 1).last() == stale@[k as int]);
            }
        }
        proof {
            assert(stale@.take(stale@.len() as int) =~= stale@);
        }
        let value = match st.value() {
            Some(v) => Some(v.duplicate()),
            None => None,
        };
        actions.push(Action::FindDone { goal, nearest: st.nearest(), value });
        proof {
            assert(st == old(self).finds_seq()[i as int]);
        }
        actions
    }

    /// Opens a challenge to a peer that contacted this node first, unless one is
    /// open for it already.
    fn start_challenge(&mut self, id: NodeIdentity, addr: PeerAddr, actions: &mut Vec<Action>)
        requires
            old(self).wf(),
            old(self).ids_left(),
        ensures
            final(self).wf(),
            final(self).own_id() == old(self).own_id(),
            final(self).finds_seq() == old(self).finds_seq(),
            final(self).buckets_spec() == old(self).buckets_spec(),
            old(self).next_req_id_spec() <= final(self).next_req_id_spec() <= old(self).next_req_id_spec() + 1,
            final(actions)@.len() >= old(actions)@.len(),
            forall|i: int| 0 <= i < old(actions)@.len() ==> final(actions)@[i] == old(actions)@[i],
            final(self).pings_seq() == old(self).pings_seq(),
            final(self).store_seq() == old(self).store_seq(),
            (exists|k: int| 0 <= k < old(self).challenges_seq().len() && old(self).challenges_seq()[k].ident@ == id@)
                ==> final(self).challenges_seq() == old(self).challenges_seq() && final(self).next_req_id_spec()
                == old(self).next_req_id_spec() && final(actions)@ == old(actions)@,
            !(exists|k: int| 0 <= k < old(self).challenges_seq().len() && old(self).challenges_seq()[k].ident@ == id@)
                ==> final(self).next_req_id_spec() == old(self).next_req_id_spec() + 1 && opens_challenge(
                old(self).challenges_seq(),
                final(self).challenges_seq(),
                old(actions)@,
                final(actions)@,
                id,
                addr,
                old(self).next_req_id_spec(),
            ),
    {
        for k in 0..self.challenges.len()
            invariant
                self.wf(),
                self.ids_left(),
                *self == *old(self),
                forall|j: int| 0 <= j < k ==> self.challenges@[j].ident@ != id@,
        {
            if self.challenges[k].ident == id {
                return;
            }
        }
        let challenge = random_bytes32();
        let req_id = self.next_req_id;
        self.next_req_id = self.next_req_id + 1;
        let ghost before = self.challenges@;
        self.challenges.push(ChallengeState { ident: id, req_id, challenge, node: NodeInfo { ident: id, address: addr } });
        proof {
            assert forall|a: int, b: int| 0 <= a < b < self.challenges@.len() implies (#[trigger] self.challenges@[a]).ident@
                != (#[trigger] self.challenges@[b]).ident@ by {
                if b < before.len() {
                    assert(before[a].ident@ != before[b].ident@);
                }
            }
        }
        let ghost a0 = actions@;
        actions.push(Action::Send { to: addr, message: Message::Challenge(array_bytes(&challenge)) });
        actions.push(Action::ChallengeTimeout { ident: id, req_id });
        proof {
            assert(self.challenges@.drop_last() =~= before);
            assert(actions@.take(a0.len() as int) =~= a0);
        }
    }

    /// Handles a `ChallengeResponse`: if it signs the open challenge of its
    /// sender, the challenge closes and the sender enters the routing table.
    fn handle_challenge_resp(&mut self, resp: ChallengeResponse)
        requires
            old(self).wf(),
        ensures
            final(self).wf(),
            final(self).own_id() == old(self).own_id(),
            final(self).finds_seq() == old(self).finds_seq(),
            final(self).next_req_id_spec() == old(self).next_req_id_spec(),
            final(self).pings_seq() == old(self).pings_seq(),
            final(self).store_seq() == old(self).store_seq(),
            challenge_resp_handled(*old(self), *final(self), resp.sender@, resp.signature@),
    {
        let n = self.challenges.len();
        let mut k: usize = 0;
        while k < n
            invariant
                n == self.challenges@.len(),
                self.wf(),
                *self == *old(self),
                forall|j: int| 0 <= j < k ==> self.challenges@[j].ident@ != resp.sender@,
            decreases n - k,
        {
            let st = self.challenges[k];
            if st.ident == resp.sender {
                proof {
                    assert forall|j: int| 0 <= j < n && self.challenges@[j].ident@ == resp.sender@ implies j == k by {
                        if j > k {
                            assert(self.challenges@[k as int].ident@ != self.challenges@[j].ident@);
                        }
                    }
                }
                if !resp.sender.verify(st.challenge.as_slice(), resp.signature.as_slice()) {
                    return;
                }
                assert(challenge_accepted(old(self).challenges_seq(), resp.sender@, resp.signature@, k as int));
                let ghost before = self.challenges@;
                self.challenges.remove(k);
                proof {
                    assert forall|a: int, b: int| 0 <= a < b < self.challenges@.len() implies (#[trigger] self.challenges@[a]).ident@
                        != (#[trigger] self.challenges@[b]).ident@ by {
                        let a1 = if a < k { a } else { a + 1 };
                        let b1 = if b < k { b } else { b + 1 };
                        assert(self.challenges@[a] == before[a1] && self.challenges@[b] == before[b1]);
                    }
                    assert forall|a: int| 0 <= a < self.challenges@.len() implies (#[trigger] self.challenges@[a]).node.ident@
                        == self.challenges@[a].ident@ by {
                        let a1 = if a < k { a } else { a + 1 };
                        assert(self.challenges@[a] == before[a1]);
                    }
                }
                self.buckets.add_good_node(resp.sender, Some(st.node));
                return;
            }
            k = k + 1;
        }
    }

    /// Handles a datagram `m` that came from `from`, at `now`. A Store request
    /// that is turned away yields its error.
    pub fn handle(&mut self, m: Message, from: PeerAddr, now: u64) -> (r: Result<Vec<Action>, StoreError>)
        requires
            old(self).wf(),
            old(self).ids_left(),
        ensures
            final(self).wf(),
            final(self).own_id() == old(self).own_id(),
            old(self).next_req_id_spec() <= final(self).next_req_id_spec() <= old(self).next_req_id_spec() + 1,
            m is Ping ==> answers_ping(r, from, old(self).own_id()),
            m matches Message::FindRequest(req) ==> challenge_started(*old(self), *final(self), req.sender, from),
            m matches Message::Pung(k) ==> r matches Ok(a) && pung_handled(*old(self), *final(self), k@),
            m matches Message::ChallengeResponse(cr) ==> challenge_resp_handled(*old(self), *final(self), cr.sender@, cr.signature@),
            m matches Message::Store(req) ==> match verified_published(req.key@, req.value.message@, req.value.signature@) {
                None => r == Err::<Vec<Action>, StoreError>(StoreError::BadSignature) && final(self).store_seq()
                    == old(self).store_seq(),
                Some(p) => if p > now + CLOCK_SKEW_MS {
                    r == Err::<Vec<Action>, StoreError>(StoreError::TooNew) && final(self).store_seq() == old(self).store_seq()
                } else {
                    r matches Ok(a) && a@.len() == 0 && final(self).store_seq() == stored_after(
                        old(self).store_seq(),
                        req.key,
                        req.value,
                        p,
                        now,
                    )
                },
            },
            m matches Message::FindRequest(req) ==> answers_find(
                r,
                from,
                old(self).node_ident_spec(),
                old(self).own_secret_spec(),
                req.goal,
                req.challenge@,
                cap(
                    peer_order(
                        old(self).buckets_spec().table(),
                        leading_zeros(xor_seq(goal_coord_of(req.goal), old(self).buckets_spec().own())) as int,
                    ),
                    NEIGHBORHOOD as nat,
                ),
                old(self).store_seq(),
            ),
            m matches Message::Challenge(c) ==> answers_challenge(r, from, old(self).own_id(), old(self).own_secret_spec(), c@),
    {
        let mut actions: Vec<Action> = Vec::new();
        match m {
            Message::FindRequest(req) => {
                let coord = req.goal.coord();
                let nodes = self.buckets.get_closest_peers(&coord, NEIGHBORHOOD);
                let value = match req.goal {
                    FindGoal::Identity(id) => match self.store.get(&id) {
                        Some(v) => Some(v.duplicate()),
                        None => None,
                    },
                    FindGoal::Coord(_) => None,
                };
                let content = FindResponseContent {
                    goal: req.goal,
                    challenge: req.challenge,
                    sender: self.own_ident,
                    nodes,
                    value,
                };
                let ghost c = content;
                let message = content.to_bytes();
                let signature = self.own_secret.sign(message.as_slice());
                actions.push(Action::Send {
                    to: from,
                    message: Message::FindResponse(FindResponse { sender: self.own_ident, message, signature }),
                });
                proof {
                    assert(enc_content(c) == actions@[0]->Send_message->FindResponse_0.message@);
                }
                if self.buckets.add_good_node(req.sender, None) {
                    self.start_challenge(req.sender, from, &mut actions);
                }
            },
            Message::FindResponse(resp) => {
                let a = self.handle_find_resp(resp, now);
                return Ok(a);
            },
            Message::Store(req) => {
                match self.store.store(req.key, req.value, now) {
                    Ok(_) => {},
                    Err(e) => {
                        return Err(e);
                    },
                }
            },
            Message::Ping => {
                actions.push(Action::Send { to: from, message: Message::Pung(self.own_ident) });
            },
            Message::Pung(k) => {
                self.handle_pung(&k);
            },
            Message::Challenge(c) => {
                let signature = self.own_secret.sign(c.as_slice());
                actions.push(Action::Send {
                    to: from,
                    message: Message::ChallengeResponse(ChallengeResponse { sender: self.own_ident, signature }),
                });
            },
            Message::ChallengeResponse(resp) => {
                self.handle_challenge_resp(resp);
            },
        }
        Ok(actions)
    }

    /// Handles a `Pung` from `k`: its ping closes, and its slot is marked responsive.
    fn handle_pung(&mut self, k: &NodeIdentity)
        requires
            old(self).wf(),
        ensures
            final(self).wf(),
            final(self).own_id() == old(self).own_id(),
            final(self).finds_seq() == old(self).finds_seq(),
            final(self).next_req_id_spec() == old(self).next_req_id_spec(),
            final(self).challenges_seq() == old(self).challenges_seq(),
            final(self).store_seq() == old(self).store_seq(),
            pung_handled(*old(self), *final(self), k@),
    {
        let n = self.pings.len();
        let mut j: usize = 0;
        while j < n
            invariant
                n == self.pings@.len(),
                self.wf(),
                *self == *old(self),
                forall|q: int| 0 <= q < j ==> self.pings@[q].ident@ != k@,
            decreases n - j,
        {
            let st = self.pings[j];
            if st.ident == *k {
                assert(0 <= j < old(self).pings_seq().len() && old(self).pings_seq()[j as int].ident@ == k@);
                let ghost before = self.pings@;
                proof {
                    assert forall|q: int| 0 <= q < n && before[q].ident@ == k@ implies q == j by {
                        if q > j {
                            assert(before[j as int].ident@ != before[q].ident@);
                        }
                    }
                }
                self.pings.remove(j);
                proof {
                    lemma_remove_unique_pings(before, j as int);
                }
                self.buckets.mark_node_unresponsive(k, st.leading_zeros, false);
                return;
            }
            j = j + 1;
        }
    }

    /// Probes every peer of the routing table that has no ping in flight: the
    /// first slot of every bucket, then the second, and so on. Each probe opens a
    /// ping under the next request id, then sends a `Ping` and queues its timeout.
    pub fn ping_round(&mut self) -> (r: Vec<Action>)
        requires
            old(self).wf(),
            old(self).next_req_id_spec() < u64::MAX - NEIGHBORHOOD * COORD_BITS,
        ensures
            final(self).wf(),
            final(self).own_id() == old(self).own_id(),
            final(self).finds_seq() == old(self).finds_seq(),
            final(self).buckets_spec() == old(self).buckets_spec(),
            final(self).challenges_seq() == old(self).challenges_seq(),
            final(self).store_seq() == old(self).store_seq(),
            ping_round_done(
                old(self).buckets_spec().table(),
                old(self).pings_seq(),
                final(self).pings_seq(),
                old(self).next_req_id_spec(),
                final(self).next_req_id_spec(),
                r@,
                NEIGHBORHOOD as int,
                0,
            ),
    {
        let ghost t = self.buckets.table();
        let ghost pings0 = self.pings@;
        let p0len = self.pings.len();
        proof {
            self.buckets.lemma_table_invariants();
        }
        let mut actions: Vec<Action> = Vec::new();
        proof {
            assert(pings0.take(pings0.len() as int) =~= pings0);
        }
        for i in 0..NEIGHBORHOOD
            invariant
                self.wf(),
                self.buckets == old(self).buckets,
                t == old(self).buckets.table(),
                table_ok(t, old(self).buckets.own()),
                pings0 == old(self).pings@,
                p0len == pings0.len(),
                self.own_ident == old(self).own_ident,
                self.finds@ == old(self).finds@,
                self.challenges@ == old(self).challenges@,
                self.store == old(self).store,
                old(self).next_req_id < u64::MAX - NEIGHBORHOOD * COORD_BITS,
                old(self).next_req_id <= self.next_req_id <= old(self).next_req_id + i * COORD_BITS,
                ping_round_done(t, pings0, self.pings@, old(self).next_req_id, self.next_req_id, actions@, i as int, 0),
        {
            for lz in 0..COORD_BITS
                invariant
                    self.wf(),
                    self.buckets == old(self).buckets,
                    t == old(self).buckets.table(),
                    table_ok(t, old(self).buckets.own()),
                    pings0 == old(self).pings@,
                    p0len == pings0.len(),
                    self.own_ident == old(self).own_ident,
                    self.finds@ == old(self).finds@,
                    self.challenges@ == old(self).challenges@,
                    self.store == old(self).store,
                    i < NEIGHBORHOOD,
                    old(self).next_req_id < u64::MAX - NEIGHBORHOOD * COORD_BITS,
                    old(self).next_req_id <= self.next_req_id <= old(self).next_req_id + i * COORD_BITS + lz,
                    ping_round_done(t, pings0, self.pings@, old(self).next_req_id, self.next_req_id, actions@, i as int, lz as int),
            {
                let bucket = self.buckets.bucket(lz);
                let ghost pc = self.pings@;
                let ghost ac = actions@;
                if i < bucket.len() {
                    let slot = bucket[i];
                    let mut busy = false;
                    let np = self.pings.len();
                    for q in 0..np
                        invariant
                            np == self.pings@.len(),
                            busy == exists|a: int| 0 <= a < q && self.pings@[a].ident@ == slot.node.ident@,
                    {
                        if self.pings[q].ident == slot.node.ident {
                            busy = true;
                        }
                    }
                    assert(slot == t[lz as int][i as int]);
                    if !busy {
                        proof {
                            let ii = i as int;
                            let ll = lz as int;
                            assert(ii * 256 + ll + 1 <= 2048) by (nonlinear_arith)
                                requires
                                    0 <= ii < 8,
                                    0 <= ll < 256,
                            ;
                        }
                        let req_id = self.next_req_id;
                        self.next_req_id = self.next_req_id + 1;
                        self.pings.push(PingState { ident: slot.node.ident, req_id, leading_zeros: lz });
                        actions.push(Action::Send { to: slot.node.address, message: Message::Ping });
                        actions.push(Action::PingTimeout { ident: slot.node.ident, req_id });
                        proof {
                            assert(round_pings(t, pings0, lz as int, i as int)) by {
                                if exists|q: int| 0 <= q < pings0.len() && pings0[q].ident@ == t[lz as int][i as int].node.ident@ {
                                    let q = choose|q: int| 0 <= q < pings0.len() && pings0[q].ident@ == t[lz as int][i as int].node.ident@;
                                    assert(pc[q] == pc.take(pings0.len() as int)[q]);
                                }
                            }
                            lemma_round_push(t, pings0, pc, old(self).next_req_id, req_id, ac, i as int, lz as int);
                            assert(self.pings@ == pc.push(PingState { ident: slot.node.ident, req_id, leading_zeros: lz }));
                            assert forall|a: int, b: int| 0 <= a < b < self.pings@.len() implies (#[trigger] self.pings@[a]).ident@
                                != (#[trigger] self.pings@[b]).ident@ by {
                                if b < pc.len() {
                                    assert(pc[a].ident@ != pc[b].ident@);
                                }
                            }
                        }
                    } else {
                        proof {
                            if round_pings(t, pings0, lz as int, i as int) {
                                let a = choose|a: int| 0 <= a < pc.len() && pc[a].ident@ == slot.node.ident@;
                                lemma_round_seen(t, old(self).buckets.own(), pings0, pc, old(self).next_req_id, self.next_req_id, ac, i as int, lz as int, a);
                            }
                            lemma_round_skip(t, pings0, pc, old(self).next_req_id, self.next_req_id, ac, i as int, lz as int);
                        }
                    }
                } else {
                    proof {
                        lemma_round_skip(t, pings0, pc, old(self).next_req_id, self.next_req_id, ac, i as int, lz as int);
                    }
                }
            }
            proof {
                let ii = i as int;
                assert(ii * 256 + 256 == (ii + 1) * 256) by (nonlinear_arith);
                lemma_round_next_row(t, pings0, self.pings@, old(self).next_req_id, self.next_req_id, actions@, i as int);
            }
        }
        actions
    }

    /// Handles the timeout of the ping to `ident` queued with `req_id`: if that
    /// ping is still open, it closes and the peer is marked unresponsive.
    pub fn ping_timeout(&mut self, ident: &NodeIdentity, req_id: u64)
        requires
            old(self).wf(),
        ensures
            final(self).wf(),
            final(self).own_id() == old(self).own_id(),
            final(self).finds_seq() == old(self).finds_seq(),
            final(self).next_req_id_spec() == old(self).next_req_id_spec(),
            final(self).challenges_seq() == old(self).challenges_seq(),
            final(self).store_seq() == old(self).store_seq(),
            forall|j: int|
                ping_matches(old(self).pings_seq(), ident@, req_id, j) ==> final(self).pings_seq() == old(self).pings_seq().remove(j)
                    && final(self).buckets_spec().table() == mark_spec(
                    old(self).buckets_spec().table(),
                    ident@,
                    old(self).pings_seq()[j].leading_zeros as int,
                    true,
                ),
            (forall|j: int| !ping_matches(old(self).pings_seq(), ident@, req_id, j)) ==> final(self).pings_seq()
                == old(self).pings_seq() && final(self).buckets_spec() == old(self).buckets_spec(),
    {
        let n = self.pings.len();
        let mut j: usize = 0;
        while j < n
            invariant
                n == self.pings@.len(),
                self.wf(),
                *self == *old(self),
                forall|q: int| 0 <= q < j ==> !ping_matches(self.pings@, ident@, req_id, q),
            decreases n - j,
        {
            let st = self.pings[j];
            if st.ident == *ident && st.req_id == req_id {
                assert(ping_matches(old(self).pings_seq(), ident@, req_id, j as int));
                let ghost before = self.pings@;
                proof {
                    assert forall|q: int| ping_matches(before, ident@, req_id, q) implies q == j by {
                        if q > j {
                            assert(before[j as int].ident@ != before[q].ident@);
                        }
                    }
                }
                self.pings.remove(j);
                proof {
                    lemma_remove_unique_pings(before, j as int);
                }
                self.buckets.mark_node_unresponsive(ident, st.leading_zeros, true);
                return;
            }
            j = j + 1;
        }
    }

    /// Handles the timeout of the challenge to `ident` queued with `req_id`: if
    /// that challenge is still open, it is dropped.
    pub fn challenge_timeout(&mut self, ident: &NodeIdentity, req_id: u64)
        requires
            old(self).wf(),
        ensures
            final(self).wf(),
            final(self).own_id() == old(self).own_id(),
            final(self).finds_seq() == old(self).finds_seq(),
            final(self).buckets_spec() == old(self).buckets_spec(),
            final(self).next_req_id_spec() == old(self).next_req_id_spec(),
            final(self).pings_seq() == old(self).pings_seq(),
            final(self).store_seq() == old(self).store_seq(),
            forall|j: int|
                challenge_matches(old(self).challenges_seq(), ident@, req_id, j) ==> final(self).challenges_seq()
                    == old(self).challenges_seq().remove(j),
            (forall|j: int| !challenge_matches(old(self).challenges_seq(), ident@, req_id, j))
                ==> final(self).challenges_seq() == old(self).challenges_seq(),
    {
        let n = self.challenges.len();
        let mut j: usize = 0;
        while j < n
            invariant
                n == self.challenges@.len(),
                self.wf(),
                *self == *old(self),
                forall|q: int| 0 <= q < j ==> !challenge_matches(self.challenges@, ident@, req_id, q),
            decreases n - j,
        {
            let st = self.challenges[j];
            if st.ident == *ident && st.req_id == req_id {
                assert(challenge_matches(old(self).challenges_seq(), ident@, req_id, j as int));
                let ghost before = self.challenges@;
                proof {
                    assert forall|q: int| challenge_matches(before, ident@, req_id, q) implies q == j by {
                        if q > j {
                            assert(before[j as int].ident@ != before[q].ident@);
                        }
                    }
                }
                self.challenges.remove(j);
                proof {
                    assert forall|a: int, b: int| 0 <= a < b < self.challenges@.len() implies (#[trigger] self.challenges@[a]).ident@
                        != (#[trigger] self.challenges@[b]).ident@ by {
                        let a1 = if a < j { a } else { a + 1 };
                        let b1 = if b < j { b } else { b + 1 };
                        assert(self.challenges@[a] == before[a1] && self.challenges@[b] == before[b1]);
                    }
                    assert forall|a: int| 0 <= a < self.challenges@.len() implies (#[trigger] self.challenges@[a]).node.ident@
                        == self.challenges@[a].ident@ by {
                        let a1 = if a < j { a } else { a + 1 };
                        assert(self.challenges@[a] == before[a1]);
                    }
                }
                return;
            }
            j = j + 1;
        }
    }

    /// The hourly sweep of the store at `now`: expired announcements go, and the
    /// keys of those due to be published again are returned.
    pub fn sweep(&mut self, now: u64) -> (r: Vec<Identity>)
        requires
            old(self).wf(),
        ensures
            final(self).wf(),
            final(self).own_id() == old(self).own_id(),
            final(self).finds_seq() == old(self).finds_seq(),
            final(self).next_req_id_spec() == old(self).next_req_id_spec(),
            final(self).store_seq() == old(self).store_seq().filter(|e: StoreEntry| !expired(e.published, now)).map_values(
                |e: StoreEntry| swept(e, now),
            ),
            r@ == old(self).store_seq().filter(|e: StoreEntry| !expired(e.published, now) && stale(e, now)).map_values(
                |e: StoreEntry| e.key,
            ),
    {
        self.store.sweep(now)
    }

    /// Finishes a `put` of `value` under `key` once the find for `key` is done
    /// with `nearest` and `found`: unless `found` is at least as new, `value` is
    /// stored here if this node is among `nearest`, and sent to every other peer
    /// of `nearest`.
    pub fn finish_put(
        &mut self,
        key: Identity,
        value: &Announcement,
        nearest: &Vec<NearestEntry>,
        found: &Option<Announcement>,
        now: u64,
    ) -> (r: Vec<Action>)
        requires
            old(self).wf(),
        ensures
            final(self).wf(),
            final(self).own_id() == old(self).own_id(),
            final(self).finds_seq() == old(self).finds_seq(),
            final(self).next_req_id_spec() == old(self).next_req_id_spec(),
            put_skipped(*value, *found) ==> r@.len() == 0 && final(self).store_seq() == old(self).store_seq(),
            !put_skipped(*value, *found) ==> (forall|k: int|
                0 <= k < r@.len() ==> exists|j: int| 0 <= j < nearest@.len() && is_store_for(#[trigger] r@[k], key, *value, nearest@[j])),
            !put_skipped(*value, *found) ==> forall|j: int|
                0 <= j < nearest@.len() && (#[trigger] nearest@[j]).node is Node ==> exists|k: int|
                    0 <= k < r@.len() && is_store_for(r@[k], key, *value, nearest@[j]),
            !put_skipped(*value, *found) && (exists|j: int| 0 <= j < nearest@.len() && nearest@[j].node is Self_)
                ==> crate::store::index_of(final(self).store_seq(), key@) >= 0 && final(self).store_seq()[crate::store::index_of(
                final(self).store_seq(),
                key@,
            )].published >= published_of(value.message@)->0,
    {
        let mut actions: Vec<Action> = Vec::new();
        let published = match value.published() {
            Some(p) => p,
            None => {
                return actions;
            },
        };
        match found {
            Some(f) => match f.published() {
                Some(fp) => {
                    if fp >= published {
                        return actions;
                    }
                },
                None => {},
            },
            None => {},
        }
        assert(!put_skipped(*value, *found));
        for k in 0..nearest.len()
            invariant
                self.wf(),
                self.own_ident == old(self).own_ident,
                self.finds@ == old(self).finds@,
                self.next_req_id == old(self).next_req_id,
                published_of(value.message@) == Some(published),
                forall|a: int|
                    0 <= a < actions@.len() ==> exists|j: int|
                        0 <= j < nearest@.len() && is_store_for(#[trigger] actions@[a], key, *value, nearest@[j]),
                forall|j: int|
                    0 <= j < k && (#[trigger] nearest@[j]).node is Node ==> exists|a: int|
                        0 <= a < actions@.len() && is_store_for(actions@[a], key, *value, nearest@[j]),
                (exists|j: int| 0 <= j < k && nearest@[j].node is Self_) ==> crate::store::index_of(
                    self.store.entries_seq(),
                    key@,
                ) >= 0 && self.store.entries_seq()[crate::store::index_of(self.store.entries_seq(), key@)].published
                    >= published,
                !(exists|j: int| 0 <= j < k && nearest@[j].node is Self_) ==> self.store.entries_seq()
                    == old(self).store.entries_seq(),
        {
            let ghost before = actions@;
            match nearest[k].node {
                NearestNode::Self_ => {
                    let ghost s0 = self.store.entries_seq();
                    proof {
                        self.store.lemma_keys_unique();
                    }
                    let d = value.duplicate();
                    let ghost dg = d;
                    self.store.insert(key, d, published, now);
                    proof {
                        crate::store::lemma_stored_has_key(s0, key, dg, published, now);
                    }
                },
                NearestNode::Node(n) => {
                    actions.push(Action::Send {
                        to: n.address,
                        message: Message::Store(StoreRequest { key, value: value.duplicate() }),
                    });
                    proof {
                        assert(is_store_for(actions@[before.len() as int], key, *value, nearest@[k as int]));
                        assert forall|a: int| 0 <= a < before.len() implies actions@[a] == before[a] by {}
                    }
                },
            }
        }
        actions
    }

    /// The node's secret, as bytes.
    pub closed spec fn own_secret_spec(&self) -> Seq<u8> {
        self.own_secret@
    }

    /// The node's identity, as a value.
    pub closed spec fn node_ident_spec(&self) -> NodeIdentity {
        self.own_ident
    }
}

} // verus!
