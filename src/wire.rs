use vstd::prelude::*;
use crate::identity::{
    NodeIdentity,
    Identity,
};
use crate::coord::DhtCoord;
use crate::outside::{
    sha256,
    sha256_of,
};
use crate::announcement::Announcement;
use crate::find::FindGoal;
use crate::routing::{
    NodeInfo,
    PeerAddr,
};

verus! {

/// The `n`-byte little-endian form of `v`.
pub open spec fn le_bytes(v: nat, n: nat) -> Seq<u8>
    decreases n,
{
    if n == 0 {
        Seq::empty()
    } else {
        seq![(v % 256) as u8] + le_bytes(v / 256, (n - 1) as nat)
    }
}

/// The value of a little-endian byte string.
pub open spec fn le_value(s: Seq<u8>) -> nat
    decreases s.len(),
{
    if s.len() == 0 {
        0
    } else {
        s[0] as nat + 256 * le_value(s.drop_first())
    }
}

/// 256 to the power `n`.
pub open spec fn radix(n: nat) -> nat
    decreases n,
{
    if n == 0 {
        1
    } else {
        256 * radix((n - 1) as nat)
    }
}

/// Encoding of a length or other 64-bit count.
pub open spec fn enc_u64(v: nat) -> Seq<u8> {
    le_bytes(v, 8)
}

/// Encoding of a variant index.
pub open spec fn enc_u32(v: nat) -> Seq<u8> {
    le_bytes(v, 4)
}

/// Encoding of a byte string: its length, then its bytes.
pub open spec fn enc_blob(b: Seq<u8>) -> Seq<u8> {
    enc_u64(b.len()) + b
}

pub proof fn lemma_le_len(v: nat, n: nat)
    ensures
        le_bytes(v, n).len() == n,
    decreases n,
{
    if n > 0 {
        lemma_le_len(v / 256, (n - 1) as nat);
    }
}

/// Reading back the little-endian form of a value that fits gives the value.
pub proof fn lemma_le_round_trip(v: nat, n: nat)
    requires
        v < radix(n),
    ensures
        le_value(le_bytes(v, n)) == v,
        le_bytes(v, n).len() == n,
    decreases n,
{
    lemma_le_len(v, n);
    if n > 0 {
        let rest = le_bytes(v / 256, (n - 1) as nat);
        assert(v / 256 < radix((n - 1) as nat)) by (nonlinear_arith)
            requires
                v < 256 * radix((n - 1) as nat),
        ;
        lemma_le_round_trip(v / 256, (n - 1) as nat);
        let s = le_bytes(v, n);
        assert(s.drop_first() =~= rest);
        assert(v == v % 256 + 256 * (v / 256)) by (nonlinear_arith);
    }
}

/// A byte string is the little-endian form of its value.
pub proof fn lemma_le_from_value(s: Seq<u8>)
    ensures
        le_bytes(le_value(s), s.len()) == s,
        le_value(s) < radix(s.len()),
    decreases s.len(),
{
    if s.len() > 0 {
        let t = s.drop_first();
        lemma_le_from_value(t);
        let v = le_value(s);
        let x = s[0] as nat;
        let w = le_value(t);
        assert(v % 256 == x && v / 256 == w) by (nonlinear_arith)
            requires
                v == x + 256 * w,
                x < 256,
        ;
        assert(v < radix(s.len())) by (nonlinear_arith)
            requires
                v == x + 256 * w,
                x < 256,
                w < radix(t.len()),
                radix(s.len()) == 256 * radix(t.len()),
        ;
        assert(le_bytes(v, s.len()) =~= s);
    }
}

/// `s` stands in `b` at `pos`.
pub open spec fn at(b: Seq<u8>, pos: int, s: Seq<u8>) -> bool {
    0 <= pos && pos + s.len() <= b.len() && b.subrange(pos, pos + s.len()) == s
}

pub proof fn lemma_at_split(b: Seq<u8>, pos: int, s1: Seq<u8>, s2: Seq<u8>)
    requires
        at(b, pos, s1 + s2),
    ensures
        at(b, pos, s1),
        at(b, pos + s1.len(), s2),
{
    assert(b.subrange(pos, pos + s1.len()) =~= (s1 + s2).subrange(0, s1.len() as int));
    assert(b.subrange(pos + s1.len(), pos + s1.len() + s2.len()) =~= (s1 + s2).subrange(
        s1.len() as int,
        (s1.len() + s2.len()) as int,
    ));
    assert((s1 + s2).subrange(0, s1.len() as int) =~= s1);
    assert((s1 + s2).subrange(s1.len() as int, (s1.len() + s2.len()) as int) =~= s2);
}

pub proof fn lemma_at_join(b: Seq<u8>, pos: int, s1: Seq<u8>, s2: Seq<u8>)
    requires
        at(b, pos, s1),
        at(b, pos + s1.len(), s2),
    ensures
        at(b, pos, s1 + s2),
{
    assert(b.subrange(pos, pos + (s1 + s2).len()) =~= s1 + s2);
}

/// Encoding of a 32-byte key: the version index (zero), then the key.
pub open spec fn enc_key(k: Seq<u8>) -> Seq<u8> {
    enc_u32(0) + k
}

/// Encoding of a coordinate: as a 32-byte blob.
pub open spec fn enc_coord(c: Seq<u8>) -> Seq<u8> {
    enc_blob(c)
}

proof fn lemma_small_u32(v: nat)
    requires
        v < 256,
    ensures
        enc_u32(v) == seq![v as u8, 0u8, 0u8, 0u8],
        le_value(enc_u32(v)) == v,
{
    reveal_with_fuel(le_bytes, 5);
    reveal_with_fuel(le_value, 5);
    assert(enc_u32(v) =~= seq![v as u8, 0u8, 0u8, 0u8]);
    lemma_radix_16(0);
    lemma_le_round_trip(v, 4);
}

/// Appends a small variant index.
fn put_tag(out: &mut Vec<u8>, v: u8)
    ensures
        final(out)@ == old(out)@ + enc_u32(v as nat),
{
    proof {
        lemma_small_u32(v as nat);
    }
    out.push(v);
    out.push(0);
    out.push(0);
    out.push(0);
    assert(out@ =~= old(out)@ + seq![v, 0u8, 0u8, 0u8]);
}

/// Reads a variant index at `pos`.
fn get_tag(b: &[u8], pos: usize) -> (r: Option<(u32, usize)>)
    ensures
        match r {
            Some((v, e)) => e == pos + 4 && at(b@, pos as int, enc_u32(v as nat)),
            None => forall|v: nat| v < radix(4) ==> !at(b@, pos as int, #[trigger] enc_u32(v)),
        },
{
    proof {
        lemma_radix_16(0);
    }
    if b.len() < 4 || pos > b.len() - 4 {
        proof {
            assert forall|v: nat| v < radix(4) implies !at(b@, pos as int, #[trigger] enc_u32(v)) by {
                lemma_le_len(v, 4);
            }
        }
        return None;
    }
    let v = get_le(b, pos, 4);
    proof {
        lemma_le_from_value(b@.subrange(pos as int, pos + 4));
        assert(b@.subrange(pos as int, pos + 4).len() == 4);
    }
    Some((v as u32, pos + 4))
}

/// Appends a length-prefixed byte string.
fn put_blob(out: &mut Vec<u8>, data: &[u8])
    ensures
        final(out)@ == old(out)@ + enc_blob(data@),
{
    proof {
        lemma_radix_16(0);
    }
    let ghost start = out@;
    put_le(out, data.len() as u128, 8);
    let ghost mid = out@;
    for i in 0..data.len()
        invariant
            out@ == mid + data@.take(i as int),
    {
        out.push(data[i]);
        assert(out@ =~= mid + data@.take(i + 1));
    }
    assert(out@ =~= start + enc_blob(data@));
}

/// Reads a length-prefixed byte string at `pos`.
fn get_blob(b: &[u8], pos: usize) -> (r: Option<(Vec<u8>, usize)>)
    ensures
        match r {
            Some((v, e)) => e == pos + enc_blob(v@).len() && at(b@, pos as int, enc_blob(v@)),
            None => forall|v: Seq<u8>| !at(b@, pos as int, #[trigger] enc_blob(v)),
        },
{
    proof {
        lemma_radix_16(0);
    }
    if b.len() < 8 || pos > b.len() - 8 {
        proof {
            assert forall|v: Seq<u8>| !at(b@, pos as int, #[trigger] enc_blob(v)) by {
                lemma_le_len(v.len(), 8);
            }
        }
        return None;
    }
    let n = get_le(b, pos, 8);
    let start = pos + 8;
    if n > (b.len() - start) as u128 {
        proof {
            assert forall|v: Seq<u8>| !at(b@, pos as int, #[trigger] enc_blob(v)) by {
                if at(b@, pos as int, enc_blob(v)) {
                    lemma_at_split(b@, pos as int, enc_u64(v.len()), v);
                    lemma_le_len(v.len(), 8);
                    lemma_le_round_trip(v.len(), 8);
                }
            }
        }
        return None;
    }
    let n = n as usize;
    let blen = b.len();
    let mut out: Vec<u8> = Vec::new();
    for i in 0..n
        invariant
            start + n <= b@.len(),
            blen == b@.len(),
            out@ == b@.subrange(start as int, start + i),
    {
        out.push(b[start + i]);
        assert(out@ =~= b@.subrange(start as int, start + i + 1));
    }
    proof {
        lemma_le_from_value(b@.subrange(pos as int, pos + 8));
        lemma_le_len(n as nat, 8);
        lemma_at_join(b@, pos as int, enc_u64(n as nat), out@);
    }
    Some((out, start + n))
}

/// Appends a key.
fn put_key(out: &mut Vec<u8>, k: &[u8; 32])
    ensures
        final(out)@ == old(out)@ + enc_key(k@),
{
    let ghost start = out@;
    put_tag(out, 0);
    let ghost mid = out@;
    for i in 0..32
        invariant
            out@ == mid + k@.take(i as int),
    {
        out.push(k[i]);
        assert(out@ =~= mid + k@.take(i + 1));
    }
    assert(out@ =~= start + enc_key(k@));
}

/// Reads a key at `pos`.
fn get_key(b: &[u8], pos: usize) -> (r: Option<([u8; 32], usize)>)
    ensures
        match r {
            Some((k, e)) => e == pos + 36 && at(b@, pos as int, enc_key(k@)),
            None => forall|k: Seq<u8>| k.len() == 32 ==> !at(b@, pos as int, #[trigger] enc_key(k)),
        },
{
    proof {
        lemma_small_u32(0);
        lemma_radix_16(0);
    }
    let blen = b.len();
    let (tag, at1) = match get_tag(b, pos) {
        Some(t) => t,
        None => {
            proof {
                assert forall|k: Seq<u8>| k.len() == 32 implies !at(b@, pos as int, #[trigger] enc_key(k)) by {
                    if at(b@, pos as int, enc_key(k)) {
                        lemma_at_split(b@, pos as int, enc_u32(0), k);
                    }
                }
            }
            return None;
        },
    };
    if tag != 0 || b.len() < 32 || at1 > b.len() - 32 {
        proof {
            assert forall|k: Seq<u8>| k.len() == 32 implies !at(b@, pos as int, #[trigger] enc_key(k)) by {
                if at(b@, pos as int, enc_key(k)) {
                    lemma_at_split(b@, pos as int, enc_u32(0), k);
                    lemma_le_from_value(b@.subrange(pos as int, pos + 4));
                    lemma_le_round_trip(tag as nat, 4);
                }
            }
        }
        return None;
    }
    let mut k = [0u8; 32];
    for i in 0..32
        invariant
            at1 + 32 <= b@.len(),
            blen == b@.len(),
            forall|j: int| 0 <= j < i ==> k@[j] == b@[at1 + j],
    {
        k[i] = b[at1 + i];
    }
    proof {
        assert(k@ =~= b@.subrange(at1 as int, at1 + 32));
        lemma_le_from_value(b@.subrange(pos as int, pos + 4));
        lemma_le_round_trip(tag as nat, 4);
        lemma_at_join(b@, pos as int, enc_u32(0), k@);
    }
    Some((k, at1 + 32))
}

/// Two 32-byte arrays with the same bytes are equal.
pub proof fn lemma_array_eq(a: [u8; 32], b: [u8; 32])
    requires
        a@ == b@,
    ensures
        a == b,
{
    assert forall|i: int| 0 <= i < 32 implies a[i] == b[i] by {
        assert(a@[i] == b@[i]);
    }
    assert(a =~= b);
}

proof fn lemma_at_same_len(b: Seq<u8>, pos: int, s1: Seq<u8>, s2: Seq<u8>)
    requires
        at(b, pos, s1),
        at(b, pos, s2),
        s1.len() == s2.len(),
    ensures
        s1 == s2,
{
}

proof fn lemma_unique_le(b: Seq<u8>, pos: int, v1: nat, v2: nat, n: nat)
    requires
        at(b, pos, le_bytes(v1, n)),
        at(b, pos, le_bytes(v2, n)),
        v1 < radix(n),
        v2 < radix(n),
    ensures
        v1 == v2,
{
    lemma_le_round_trip(v1, n);
    lemma_le_round_trip(v2, n);
}

proof fn lemma_unique_blob(b: Seq<u8>, pos: int, s1: Seq<u8>, s2: Seq<u8>)
    requires
        at(b, pos, enc_blob(s1)),
        at(b, pos, enc_blob(s2)),
        s1.len() < radix(8),
        s2.len() < radix(8),
    ensures
        s1 == s2,
{
    lemma_at_split(b, pos, enc_u64(s1.len()), s1);
    lemma_at_split(b, pos, enc_u64(s2.len()), s2);
    lemma_le_len(s1.len(), 8);
    lemma_le_len(s2.len(), 8);
    lemma_unique_le(b, pos, s1.len(), s2.len(), 8);
}

proof fn lemma_unique_key(b: Seq<u8>, pos: int, k1: Seq<u8>, k2: Seq<u8>)
    requires
        at(b, pos, enc_key(k1)),
        at(b, pos, enc_key(k2)),
        k1.len() == 32,
        k2.len() == 32,
    ensures
        k1 == k2,
{
    lemma_le_len(0, 4);
    lemma_at_same_len(b, pos, enc_key(k1), enc_key(k2));
    assert(k1 =~= enc_key(k1).subrange(4, 36));
    assert(k2 =~= enc_key(k2).subrange(4, 36));
}

/// Encoding of a find goal.
pub open spec fn enc_goal(g: FindGoal) -> Seq<u8> {
    match g {
        FindGoal::Coord(c) => enc_u32(0) + enc_coord(c@),
        FindGoal::Identity(i) => enc_u32(1) + enc_key(i@),
    }
}

/// Encoding of a peer address: the variant index, the address and the port,
/// integers little-endian.
pub open spec fn enc_addr(a: PeerAddr) -> Seq<u8> {
    match a {
        PeerAddr::V4 { ip4, port } => enc_u32(0) + le_bytes(ip4 as nat, 4) + le_bytes(port as nat, 2),
        PeerAddr::V6 { ip6, port } => enc_u32(1) + le_bytes(ip6 as nat, 16) + le_bytes(port as nat, 2),
    }
}

/// Encoding of a peer: its identity, then its address.
pub open spec fn enc_node(n: NodeInfo) -> Seq<u8> {
    enc_key(n.ident@) + enc_addr(n.address)
}

/// Encodings of a list of peers, one after the other.
pub open spec fn enc_node_items(s: Seq<NodeInfo>) -> Seq<u8>
    decreases s.len(),
{
    if s.len() == 0 {
        Seq::empty()
    } else {
        enc_node_items(s.drop_last()) + enc_node(s.last())
    }
}

/// Encoding of a list of peers: its length, then the peers.
pub open spec fn enc_nodes(s: Seq<NodeInfo>) -> Seq<u8> {
    enc_u64(s.len()) + enc_node_items(s)
}

proof fn lemma_radix_facts()
    ensures
        radix(16) == 0x1_0000_0000_0000_0000_0000_0000_0000_0000,
        radix(8) == 0x1_0000_0000_0000_0000,
        radix(4) == 0x1_0000_0000,
        radix(2) == 0x1_0000,
{
    lemma_radix_16(0);
}

fn put_coord(out: &mut Vec<u8>, c: &DhtCoord)
    ensures
        final(out)@ == old(out)@ + enc_coord(c@),
{
    put_blob(out, c.0.as_slice());
}

fn get_coord(b: &[u8], pos: usize) -> (r: Option<(DhtCoord, usize)>)
    ensures
        match r {
            Some((c, e)) => e == pos + 40 && at(b@, pos as int, enc_coord(c@)),
            None => forall|c: Seq<u8>| c.len() == 32 ==> !at(b@, pos as int, #[trigger] enc_coord(c)),
        },
{
    proof {
        lemma_radix_facts();
    }
    let (v, e) = match get_blob(b, pos) {
        Some(x) => x,
        None => {
            return None;
        },
    };
    if v.len() != 32 {
        proof {
            assert forall|c: Seq<u8>| c.len() == 32 implies !at(b@, pos as int, #[trigger] enc_coord(c)) by {
                if at(b@, pos as int, enc_coord(c)) {
                    lemma_unique_blob(b@, pos as int, c, v@);
                }
            }
        }
        return None;
    }
    let mut c = [0u8; 32];
    for i in 0..32
        invariant
            v@.len() == 32,
            forall|j: int| 0 <= j < i ==> c@[j] == v@[j],
    {
        c[i] = v[i];
    }
    assert(c@ =~= v@);
    proof {
        lemma_le_len(32, 8);
    }
    Some((DhtCoord(c), e))
}

fn put_goal(out: &mut Vec<u8>, g: &FindGoal)
    ensures
        final(out)@ == old(out)@ + enc_goal(*g),
{
    let ghost start = out@;
    match g {
        FindGoal::Coord(c) => {
            put_tag(out, 0);
            put_coord(out, c);
        },
        FindGoal::Identity(i) => {
            put_tag(out, 1);
            put_key(out, &i.key);
        },
    }
    assert(out@ =~= start + enc_goal(*g));
}

proof fn lemma_unique_goal(b: Seq<u8>, pos: int, g1: FindGoal, g2: FindGoal)
    requires
        at(b, pos, enc_goal(g1)),
        at(b, pos, enc_goal(g2)),
    ensures
        g1 == g2,
{
    lemma_radix_facts();
    lemma_le_len(0, 4);
    lemma_le_len(1, 4);
    let t1: nat = match g1 {
        FindGoal::Coord(_) => 0,
        FindGoal::Identity(_) => 1,
    };
    let t2: nat = match g2 {
        FindGoal::Coord(_) => 0,
        FindGoal::Identity(_) => 1,
    };
    let r1 = enc_goal(g1).subrange(4, enc_goal(g1).len() as int);
    let r2 = enc_goal(g2).subrange(4, enc_goal(g2).len() as int);
    assert(enc_goal(g1) =~= enc_u32(t1) + r1);
    assert(enc_goal(g2) =~= enc_u32(t2) + r2);
    lemma_at_split(b, pos, enc_u32(t1), r1);
    lemma_at_split(b, pos, enc_u32(t2), r2);
    lemma_unique_le(b, pos, t1, t2, 4);
    match (g1, g2) {
        (FindGoal::Coord(c1), FindGoal::Coord(c2)) => {
            assert(r1 == enc_coord(c1@));
            assert(r2 == enc_coord(c2@));
            lemma_unique_blob(b, pos + 4, c1@, c2@);
            lemma_array_eq(c1.0, c2.0);
        },
        (FindGoal::Identity(i1), FindGoal::Identity(i2)) => {
            assert(r1 == enc_key(i1@));
            assert(r2 == enc_key(i2@));
            lemma_unique_key(b, pos + 4, i1@, i2@);
            lemma_array_eq(i1.key, i2.key);
        },
        _ => {},
    }
}

proof fn lemma_tagged(b: Seq<u8>, pos: int, t: nat, tag: nat, rest: Seq<u8>)
    requires
        at(b, pos, enc_u32(t) + rest),
        at(b, pos, enc_u32(tag)),
        t < radix(4),
        tag < radix(4),
    ensures
        t == tag,
        at(b, pos + 4, rest),
{
    lemma_le_len(t, 4);
    lemma_at_split(b, pos, enc_u32(t), rest);
    lemma_unique_le(b, pos, t, tag, 4);
}

fn get_goal(b: &[u8], pos: usize) -> (r: Option<(FindGoal, usize)>)
    ensures
        match r {
            Some((g, e)) => e == pos + enc_goal(g).len() && at(b@, pos as int, enc_goal(g)),
            None => forall|g: FindGoal| !at(b@, pos as int, #[trigger] enc_goal(g)),
        },
{
    proof {
        lemma_radix_facts();
        lemma_le_len(0, 4);
        lemma_le_len(1, 4);
        lemma_le_len(32, 8);
    }
    let (tag, at1) = match get_tag(b, pos) {
        Some(x) => x,
        None => {
            proof {
                assert forall|g: FindGoal| !at(b@, pos as int, #[trigger] enc_goal(g)) by {
                    if at(b@, pos as int, enc_goal(g)) {
                        match g {
                            FindGoal::Coord(c) => lemma_at_split(b@, pos as int, enc_u32(0), enc_coord(c@)),
                            FindGoal::Identity(i) => lemma_at_split(b@, pos as int, enc_u32(1), enc_key(i@)),
                        }
                    }
                }
            }
            return None;
        },
    };
    if tag == 0 {
        match get_coord(b, at1) {
            Some((c, e)) => {
                proof {
                    lemma_at_join(b@, pos as int, enc_u32(0), enc_coord(c@));
                }
                return Some((FindGoal::Coord(c), e));
            },
            None => {},
        }
    } else if tag == 1 {
        match get_key(b, at1) {
            Some((k, e)) => {
                proof {
                    lemma_at_join(b@, pos as int, enc_u32(1), enc_key(k@));
                }
                return Some((FindGoal::Identity(Identity { key: k }), e));
            },
            None => {},
        }
    }
    proof {
        assert forall|g: FindGoal| !at(b@, pos as int, #[trigger] enc_goal(g)) by {
            if at(b@, pos as int, enc_goal(g)) {
                match g {
                    FindGoal::Coord(c) => lemma_tagged(b@, pos as int, 0, tag as nat, enc_coord(c@)),
                    FindGoal::Identity(i) => lemma_tagged(b@, pos as int, 1, tag as nat, enc_key(i@)),
                }
            }
        }
    }
    None
}

fn put_addr(out: &mut Vec<u8>, a: &PeerAddr)
    ensures
        final(out)@ == old(out)@ + enc_addr(*a),
{
    proof {
        lemma_radix_facts();
    }
    let ghost start = out@;
    match a {
        PeerAddr::V4 { ip4, port } => {
            put_tag(out, 0);
            put_le(out, *ip4 as u128, 4);
            put_le(out, *port as u128, 2);
        },
        PeerAddr::V6 { ip6, port } => {
            put_tag(out, 1);
            put_le(out, *ip6, 16);
            put_le(out, *port as u128, 2);
        },
    }
    assert(out@ =~= start + enc_addr(*a));
}

proof fn lemma_unique_addr(b: Seq<u8>, pos: int, a1: PeerAddr, a2: PeerAddr)
    requires
        at(b, pos, enc_addr(a1)),
        at(b, pos, enc_addr(a2)),
    ensures
        a1 == a2,
{
    lemma_radix_facts();
    match (a1, a2) {
        (PeerAddr::V4 { ip4: x1, port: at1 }, PeerAddr::V4 { ip4: x2, port: at2 }) => {
            lemma_le_len(0, 4);
            lemma_le_len(x1 as nat, 4);
            lemma_le_len(x2 as nat, 4);
            lemma_at_split(b, pos, enc_u32(0) + le_bytes(x1 as nat, 4), le_bytes(at1 as nat, 2));
            lemma_at_split(b, pos, enc_u32(0) + le_bytes(x2 as nat, 4), le_bytes(at2 as nat, 2));
            lemma_at_split(b, pos, enc_u32(0), le_bytes(x1 as nat, 4));
            lemma_at_split(b, pos, enc_u32(0), le_bytes(x2 as nat, 4));
            lemma_unique_le(b, pos + 4, x1 as nat, x2 as nat, 4);
            lemma_unique_le(b, pos + 8, at1 as nat, at2 as nat, 2);
        },
        (PeerAddr::V6 { ip6: x1, port: at1 }, PeerAddr::V6 { ip6: x2, port: at2 }) => {
            lemma_le_len(1, 4);
            lemma_le_len(x1 as nat, 16);
            lemma_le_len(x2 as nat, 16);
            lemma_at_split(b, pos, enc_u32(1) + le_bytes(x1 as nat, 16), le_bytes(at1 as nat, 2));
            lemma_at_split(b, pos, enc_u32(1) + le_bytes(x2 as nat, 16), le_bytes(at2 as nat, 2));
            lemma_at_split(b, pos, enc_u32(1), le_bytes(x1 as nat, 16));
            lemma_at_split(b, pos, enc_u32(1), le_bytes(x2 as nat, 16));
            lemma_unique_le(b, pos + 4, x1 as nat, x2 as nat, 16);
            lemma_unique_le(b, pos + 20, at1 as nat, at2 as nat, 2);
        },
        (PeerAddr::V4 { ip4: x1, port: at1 }, PeerAddr::V6 { ip6: x2, port: at2 }) => {
            assert(enc_u32(0) + le_bytes(x1 as nat, 4) + le_bytes(at1 as nat, 2) =~= enc_u32(0) + (le_bytes(x1 as nat, 4) + le_bytes(at1 as nat, 2)));
            assert(enc_u32(1) + le_bytes(x2 as nat, 16) + le_bytes(at2 as nat, 2) =~= enc_u32(1) + (le_bytes(x2 as nat, 16) + le_bytes(at2 as nat, 2)));
            lemma_at_split(b, pos, enc_u32(0), le_bytes(x1 as nat, 4) + le_bytes(at1 as nat, 2));
            lemma_at_split(b, pos, enc_u32(1), le_bytes(x2 as nat, 16) + le_bytes(at2 as nat, 2));
            lemma_unique_le(b, pos, 0, 1, 4);
        },
        (PeerAddr::V6 { ip6: x1, port: at1 }, PeerAddr::V4 { ip4: x2, port: at2 }) => {
            assert(enc_u32(1) + le_bytes(x1 as nat, 16) + le_bytes(at1 as nat, 2) =~= enc_u32(1) + (le_bytes(x1 as nat, 16) + le_bytes(at1 as nat, 2)));
            assert(enc_u32(0) + le_bytes(x2 as nat, 4) + le_bytes(at2 as nat, 2) =~= enc_u32(0) + (le_bytes(x2 as nat, 4) + le_bytes(at2 as nat, 2)));
            lemma_at_split(b, pos, enc_u32(1), le_bytes(x1 as nat, 16) + le_bytes(at1 as nat, 2));
            lemma_at_split(b, pos, enc_u32(0), le_bytes(x2 as nat, 4) + le_bytes(at2 as nat, 2));
            lemma_unique_le(b, pos, 1, 0, 4);
        },
    }
}

fn get_addr(b: &[u8], pos: usize) -> (r: Option<(PeerAddr, usize)>)
    ensures
        match r {
            Some((a, e)) => e == pos + enc_addr(a).len() && at(b@, pos as int, enc_addr(a)),
            None => forall|a: PeerAddr| !at(b@, pos as int, #[trigger] enc_addr(a)),
        },
{
    proof {
        lemma_radix_facts();
    }
    let blen = b.len();
    if let Some((tag, at1)) = get_tag(b, pos) {
        if tag == 0 && blen >= 6 && at1 <= blen - 6 {
            let ip = get_le(b, at1, 4);
            let port = get_le(b, at1 + 4, 2);
            proof {
                lemma_le_len(0, 4);
                lemma_le_from_value(b@.subrange(at1 as int, at1 + 4));
                lemma_le_from_value(b@.subrange(at1 + 4, at1 + 6));
                lemma_at_join(b@, pos as int, enc_u32(0), le_bytes(ip as nat, 4));
                lemma_le_len(ip as nat, 4);
                lemma_at_join(b@, pos as int, enc_u32(0) + le_bytes(ip as nat, 4), le_bytes(port as nat, 2));
                lemma_le_len(port as nat, 2);
                lemma_le_len(0, 4);
            }
            return Some((PeerAddr::V4 { ip4: ip as u32, port: port as u16 }, at1 + 6));
        }
        if tag == 1 && blen >= 18 && at1 <= blen - 18 {
            let ip = get_le(b, at1, 16);
            let port = get_le(b, at1 + 16, 2);
            proof {
                lemma_le_len(1, 4);
                lemma_le_from_value(b@.subrange(at1 as int, at1 + 16));
                lemma_le_from_value(b@.subrange(at1 + 16, at1 + 18));
                lemma_at_join(b@, pos as int, enc_u32(1), le_bytes(ip as nat, 16));
                lemma_le_len(ip as nat, 16);
                lemma_at_join(b@, pos as int, enc_u32(1) + le_bytes(ip as nat, 16), le_bytes(port as nat, 2));
                lemma_le_len(port as nat, 2);
                lemma_le_len(1, 4);
            }
            return Some((PeerAddr::V6 { ip6: ip, port: port as u16 }, at1 + 18));
        }
        proof {
            assert forall|a: PeerAddr| !at(b@, pos as int, #[trigger] enc_addr(a)) by {
                if at(b@, pos as int, enc_addr(a)) {
                    match a {
                        PeerAddr::V4 { ip4, port } => {
                            lemma_le_len(ip4 as nat, 4);
                            lemma_le_len(port as nat, 2);
                            assert(enc_addr(a) =~= enc_u32(0) + (le_bytes(ip4 as nat, 4) + le_bytes(port as nat, 2)));
                            lemma_tagged(b@, pos as int, 0, tag as nat, le_bytes(ip4 as nat, 4) + le_bytes(port as nat, 2));
                        },
                        PeerAddr::V6 { ip6, port } => {
                            lemma_le_len(ip6 as nat, 16);
                            lemma_le_len(port as nat, 2);
                            assert(enc_addr(a) =~= enc_u32(1) + (le_bytes(ip6 as nat, 16) + le_bytes(port as nat, 2)));
                            lemma_tagged(b@, pos as int, 1, tag as nat, le_bytes(ip6 as nat, 16) + le_bytes(port as nat, 2));
                        },
                    }
                }
            }
        }
        return None;
    }
    proof {
        assert forall|a: PeerAddr| !at(b@, pos as int, #[trigger] enc_addr(a)) by {
            if at(b@, pos as int, enc_addr(a)) {
                match a {
                    PeerAddr::V4 { ip4, port } => {
                        assert(enc_addr(a) =~= enc_u32(0) + (le_bytes(ip4 as nat, 4) + le_bytes(port as nat, 2)));
                        lemma_at_split(b@, pos as int, enc_u32(0), le_bytes(ip4 as nat, 4) + le_bytes(port as nat, 2));
                    },
                    PeerAddr::V6 { ip6, port } => {
                        assert(enc_addr(a) =~= enc_u32(1) + (le_bytes(ip6 as nat, 16) + le_bytes(port as nat, 2)));
                        lemma_at_split(b@, pos as int, enc_u32(1), le_bytes(ip6 as nat, 16) + le_bytes(port as nat, 2));
                    },
                }
            }
        }
    }
    None
}

fn put_node(out: &mut Vec<u8>, n: &NodeInfo)
    ensures
        final(out)@ == old(out)@ + enc_node(*n),
{
    let ghost start = out@;
    put_key(out, &n.ident.key);
    put_addr(out, &n.address);
    assert(out@ =~= start + enc_node(*n));
}

proof fn lemma_unique_node(b: Seq<u8>, pos: int, n1: NodeInfo, n2: NodeInfo)
    requires
        at(b, pos, enc_node(n1)),
        at(b, pos, enc_node(n2)),
    ensures
        n1 == n2,
{
    lemma_le_len(0, 4);
    lemma_at_split(b, pos, enc_key(n1.ident@), enc_addr(n1.address));
    lemma_at_split(b, pos, enc_key(n2.ident@), enc_addr(n2.address));
    lemma_unique_key(b, pos, n1.ident@, n2.ident@);
    lemma_array_eq(n1.ident.key, n2.ident.key);
    lemma_unique_addr(b, pos + 36, n1.address, n2.address);
}

fn get_node(b: &[u8], pos: usize) -> (r: Option<(NodeInfo, usize)>)
    ensures
        match r {
            Some((n, e)) => e == pos + enc_node(n).len() && at(b@, pos as int, enc_node(n)),
            None => forall|n: NodeInfo| !at(b@, pos as int, #[trigger] enc_node(n)),
        },
{
    proof {
        lemma_le_len(0, 4);
    }
    if let Some((k, at1)) = get_key(b, pos) {
        if let Some((a, at2)) = get_addr(b, at1) {
            let n = NodeInfo { ident: NodeIdentity { key: k }, address: a };
            proof {
                lemma_at_join(b@, pos as int, enc_key(k@), enc_addr(a));
            }
            return Some((n, at2));
        }
        proof {
            assert forall|n: NodeInfo| !at(b@, pos as int, #[trigger] enc_node(n)) by {
                if at(b@, pos as int, enc_node(n)) {
                    lemma_at_split(b@, pos as int, enc_key(n.ident@), enc_addr(n.address));
                    lemma_unique_key(b@, pos as int, n.ident@, k@);
                }
            }
        }
        return None;
    }
    proof {
        assert forall|n: NodeInfo| !at(b@, pos as int, #[trigger] enc_node(n)) by {
            if at(b@, pos as int, enc_node(n)) {
                lemma_at_split(b@, pos as int, enc_key(n.ident@), enc_addr(n.address));
            }
        }
    }
    None
}

proof fn lemma_items_prefix(m: Seq<NodeInfo>, k: int)
    requires
        0 <= k <= m.len(),
    ensures
        enc_node_items(m.take(k)).len() <= enc_node_items(m).len(),
        enc_node_items(m).subrange(0, enc_node_items(m.take(k)).len() as int) == enc_node_items(m.take(k)),
    decreases m.len(),
{
    if k == m.len() {
        assert(m.take(k) =~= m);
        assert(enc_node_items(m).subrange(0, enc_node_items(m).len() as int) =~= enc_node_items(m));
    } else {
        let d = m.drop_last();
        lemma_items_prefix(d, k);
        assert(d.take(k) =~= m.take(k));
        let p = enc_node_items(m.take(k));
        assert(enc_node_items(m) == enc_node_items(d) + enc_node(m.last()));
        assert(enc_node_items(m).subrange(0, p.len() as int) =~= enc_node_items(d).subrange(0, p.len() as int));
    }
}

proof fn lemma_item_at(b: Seq<u8>, q: int, m: Seq<NodeInfo>, i: int)
    requires
        at(b, q, enc_node_items(m)),
        0 <= i < m.len(),
    ensures
        at(b, q + enc_node_items(m.take(i)).len(), enc_node(m[i])),
{
    lemma_items_prefix(m, i + 1);
    let t = m.take(i + 1);
    assert(t.drop_last() =~= m.take(i));
    assert(enc_node_items(t) == enc_node_items(m.take(i)) + enc_node(m[i]));
    let whole = enc_node_items(m);
    let pre = enc_node_items(t);
    assert(b.subrange(q, q + pre.len()) =~= whole.subrange(0, pre.len() as int));
    lemma_at_split(b, q, enc_node_items(m.take(i)), enc_node(m[i]));
}

fn put_nodes(out: &mut Vec<u8>, s: &Vec<NodeInfo>)
    ensures
        final(out)@ == old(out)@ + enc_nodes(s@),
{
    proof {
        lemma_radix_facts();
    }
    let ghost start = out@;
    put_le(out, s.len() as u128, 8);
    let ghost mid = out@;
    for i in 0..s.len()
        invariant
            out@ == mid + enc_node_items(s@.take(i as int)),
    {
        let ghost before = out@;
        put_node(out, &s[i]);
        proof {
            assert(s@.take(i + 1).drop_last() =~= s@.take(i as int));
            assert(out@ =~= mid + enc_node_items(s@.take(i + 1)));
        }
    }
    assert(s@.take(s@.len() as int) =~= s@);
    assert(out@ =~= start + enc_nodes(s@));
}

fn get_nodes(b: &[u8], pos: usize) -> (r: Option<(Vec<NodeInfo>, usize)>)
    ensures
        match r {
            Some((s, e)) => e == pos + enc_nodes(s@).len() && at(b@, pos as int, enc_nodes(s@)),
            None => forall|s: Seq<NodeInfo>| s.len() < radix(8) ==> !at(b@, pos as int, #[trigger] enc_nodes(s)),
        },
{
    proof {
        lemma_radix_facts();
    }
    let blen = b.len();
    if blen < 8 || pos > blen - 8 {
        proof {
            assert forall|s: Seq<NodeInfo>| s.len() < radix(8) implies !at(b@, pos as int, #[trigger] enc_nodes(s)) by {
                lemma_le_len(s.len(), 8);
            }
        }
        return None;
    }
    let n = get_le(b, pos, 8);
    proof {
        lemma_le_from_value(b@.subrange(pos as int, pos + 8));
    }
    let ghost cnt = b@.subrange(pos as int, pos + 8);
    let mut out: Vec<NodeInfo> = Vec::new();
    let mut cur: usize = pos + 8;
    let mut i: u128 = 0;
    proof {
        assert(enc_node_items(out@) =~= Seq::<u8>::empty());
        assert(b@.subrange(pos + 8, pos + 8) =~= Seq::<u8>::empty());
        assert forall|m: Seq<NodeInfo>|
            #![trigger enc_nodes(m)]
            m.len() < radix(8) && at(b@, pos as int, enc_nodes(m)) implies m.len() == n && out@ == m.take(0) by {
            lemma_le_len(m.len(), 8);
            lemma_at_split(b@, pos as int, enc_u64(m.len()), enc_node_items(m));
            lemma_unique_le(b@, pos as int, m.len(), n as nat, 8);
            assert(m.take(0) =~= Seq::<NodeInfo>::empty());
        }
    }
    while i < n
        invariant
            blen == b@.len(),
            pos + 8 <= blen,
            cnt == b@.subrange(pos as int, pos + 8),
            n as nat == le_value(cnt),
            le_bytes(n as nat, 8) == cnt,
            (n as nat) < radix(8),
            i <= n,
            out@.len() == i,
            cur <= blen,
            cur == pos + 8 + enc_node_items(out@).len(),
            at(b@, pos + 8, enc_node_items(out@)),
            forall|m: Seq<NodeInfo>|
                #![trigger enc_nodes(m)]
                m.len() < radix(8) && at(b@, pos as int, enc_nodes(m)) ==> m.len() == n && out@ == m.take(i as int),
        decreases n - i,
    {
        match get_node(b, cur) {
            Some((x, e)) => {
                proof {
                    lemma_at_join(b@, pos + 8, enc_node_items(out@), enc_node(x));
                    assert forall|m: Seq<NodeInfo>|
                        #![trigger enc_nodes(m)]
                        m.len() < radix(8) && at(b@, pos as int, enc_nodes(m)) implies m.len() == n && out@.push(x)
                        == m.take(i + 1) by {
                        lemma_le_len(m.len(), 8);
                        lemma_at_split(b@, pos as int, enc_u64(m.len()), enc_node_items(m));
                        lemma_item_at(b@, pos + 8, m, i as int);
                        lemma_unique_node(b@, cur as int, x, m[i as int]);
                        assert(m.take(i + 1) =~= m.take(i as int).push(m[i as int]));
                    }
                    assert(out@.push(x).drop_last() =~= out@);
                }
                out.push(x);
                cur = e;
                i = i + 1;
            },
            None => {
                proof {
                    assert forall|m: Seq<NodeInfo>| m.len() < radix(8) implies !at(b@, pos as int, #[trigger] enc_nodes(m)) by {
                        if at(b@, pos as int, enc_nodes(m)) {
                            lemma_le_len(m.len(), 8);
                            lemma_at_split(b@, pos as int, enc_u64(m.len()), enc_node_items(m));
                            lemma_item_at(b@, pos + 8, m, i as int);
                        }
                    }
                }
                return None;
            },
        }
    }
    proof {
        lemma_le_len(out@.len(), 8);
        lemma_at_join(b@, pos as int, enc_u64(out@.len()), enc_node_items(out@));
    }
    Some((out, cur))
}

/// Encoding of an announcement: the version index (zero), its body, its signature.
pub open spec fn enc_ann(message: Seq<u8>, signature: Seq<u8>) -> Seq<u8> {
    enc_u32(0) + enc_blob(message) + enc_blob(signature)
}

fn put_ann(out: &mut Vec<u8>, a: &Announcement)
    ensures
        final(out)@ == old(out)@ + enc_ann(a.message@, a.signature@),
{
    let ghost start = out@;
    put_tag(out, 0);
    put_blob(out, a.message.as_slice());
    put_blob(out, a.signature.as_slice());
    assert(out@ =~= start + enc_ann(a.message@, a.signature@));
}

proof fn lemma_unique_ann(b: Seq<u8>, pos: int, m1: Seq<u8>, s1: Seq<u8>, m2: Seq<u8>, s2: Seq<u8>)
    requires
        at(b, pos, enc_ann(m1, s1)),
        at(b, pos, enc_ann(m2, s2)),
        m1.len() < radix(8),
        s1.len() < radix(8),
        m2.len() < radix(8),
        s2.len() < radix(8),
    ensures
        m1 == m2,
        s1 == s2,
{
    lemma_le_len(0, 4);
    lemma_le_len(m1.len(), 8);
    lemma_le_len(m2.len(), 8);
    lemma_at_split(b, pos, enc_u32(0) + enc_blob(m1), enc_blob(s1));
    lemma_at_split(b, pos, enc_u32(0) + enc_blob(m2), enc_blob(s2));
    lemma_at_split(b, pos, enc_u32(0), enc_blob(m1));
    lemma_at_split(b, pos, enc_u32(0), enc_blob(m2));
    lemma_unique_blob(b, pos + 4, m1, m2);
    lemma_unique_blob(b, pos + 4 + enc_blob(m1).len(), s1, s2);
}

fn get_ann(b: &[u8], pos: usize) -> (r: Option<(Announcement, usize)>)
    ensures
        match r {
            Some((a, e)) => e == pos + enc_ann(a.message@, a.signature@).len() && at(
                b@,
                pos as int,
                enc_ann(a.message@, a.signature@),
            ),
            None => forall|m: Seq<u8>, s: Seq<u8>| !at(b@, pos as int, #[trigger] enc_ann(m, s)),
        },
{
    proof {
        lemma_radix_facts();
        lemma_le_len(0, 4);
    }
    let blen = b.len();
    if let Some((tag, at1)) = get_tag(b, pos) {
        if tag == 0 {
            if let Some((m, at2)) = get_blob(b, at1) {
                if let Some((sig, at3)) = get_blob(b, at2) {
                    proof {
                        lemma_at_join(b@, pos as int, enc_u32(0), enc_blob(m@));
                        lemma_at_join(b@, pos as int, enc_u32(0) + enc_blob(m@), enc_blob(sig@));
                    }
                    return Some((Announcement { message: m, signature: sig }, at3));
                }
                proof {
                    assert forall|m2: Seq<u8>, s2: Seq<u8>| !at(b@, pos as int, #[trigger] enc_ann(m2, s2)) by {
                        if at(b@, pos as int, enc_ann(m2, s2)) {
                            lemma_at_split(b@, pos as int, enc_u32(0) + enc_blob(m2), enc_blob(s2));
                            lemma_at_split(b@, pos as int, enc_u32(0), enc_blob(m2));
                            lemma_le_len(m2.len(), 8);
                            lemma_le_len(m@.len(), 8);
                            assert(m2.len() <= blen && m@.len() <= blen);
                            lemma_unique_blob(b@, at1 as int, m2, m@);
                        }
                    }
                }
                return None;
            }
        }
        proof {
            assert forall|m2: Seq<u8>, s2: Seq<u8>| !at(b@, pos as int, #[trigger] enc_ann(m2, s2)) by {
                if at(b@, pos as int, enc_ann(m2, s2)) {
                    assert(enc_ann(m2, s2) =~= enc_u32(0) + (enc_blob(m2) + enc_blob(s2)));
                    lemma_tagged(b@, pos as int, 0, tag as nat, enc_blob(m2) + enc_blob(s2));
                    lemma_at_split(b@, pos + 4, enc_blob(m2), enc_blob(s2));
                }
            }
        }
        return None;
    }
    proof {
        assert forall|m2: Seq<u8>, s2: Seq<u8>| !at(b@, pos as int, #[trigger] enc_ann(m2, s2)) by {
            if at(b@, pos as int, enc_ann(m2, s2)) {
                assert(enc_ann(m2, s2) =~= enc_u32(0) + (enc_blob(m2) + enc_blob(s2)));
                lemma_at_split(b@, pos as int, enc_u32(0), enc_blob(m2) + enc_blob(s2));
            }
        }
    }
    None
}

proof fn lemma_unique_items_prefix(b: Seq<u8>, q: int, s1: Seq<NodeInfo>, s2: Seq<NodeInfo>, i: int)
    requires
        at(b, q, enc_node_items(s1)),
        at(b, q, enc_node_items(s2)),
        s1.len() == s2.len(),
        0 <= i <= s1.len(),
    ensures
        s1.take(i) == s2.take(i),
    decreases i,
{
    if i == 0 {
        assert(s1.take(0) =~= s2.take(0));
    } else {
        lemma_unique_items_prefix(b, q, s1, s2, i - 1);
        lemma_item_at(b, q, s1, i - 1);
        lemma_item_at(b, q, s2, i - 1);
        lemma_unique_node(b, q + enc_node_items(s1.take(i - 1)).len(), s1[i - 1], s2[i - 1]);
        assert(s1.take(i) =~= s1.take(i - 1).push(s1[i - 1]));
        assert(s2.take(i) =~= s2.take(i - 1).push(s2[i - 1]));
    }
}

proof fn lemma_unique_nodes(b: Seq<u8>, pos: int, s1: Seq<NodeInfo>, s2: Seq<NodeInfo>)
    requires
        at(b, pos, enc_nodes(s1)),
        at(b, pos, enc_nodes(s2)),
        s1.len() < radix(8),
        s2.len() < radix(8),
    ensures
        s1 == s2,
{
    lemma_le_len(s1.len(), 8);
    lemma_le_len(s2.len(), 8);
    lemma_at_split(b, pos, enc_u64(s1.len()), enc_node_items(s1));
    lemma_at_split(b, pos, enc_u64(s2.len()), enc_node_items(s2));
    lemma_unique_le(b, pos, s1.len(), s2.len(), 8);
    lemma_unique_items_prefix(b, pos + 8, s1, s2, s1.len() as int);
    assert(s1.take(s1.len() as int) =~= s1);
    assert(s2.take(s2.len() as int) =~= s2);
}

/// Encoding of an optional announcement: a zero byte, or a one byte and the announcement.
pub open spec fn enc_opt_ann(v: Option<Announcement>) -> Seq<u8> {
    match v {
        None => seq![0u8],
        Some(a) => seq![1u8] + enc_ann(a.message@, a.signature@),
    }
}

/// Two optional announcements with the same bytes.
pub open spec fn same_opt_ann(a: Option<Announcement>, b: Option<Announcement>) -> bool {
    match (a, b) {
        (None, None) => true,
        (Some(x), Some(y)) => x.message@ == y.message@ && x.signature@ == y.signature@,
        _ => false,
    }
}

/// The signed body of a `FindResponse`.
#[derive(Debug)]
pub struct FindResponseContent {
    pub goal: FindGoal,
    pub challenge: Vec<u8>,
    pub sender: NodeIdentity,
    pub nodes: Vec<NodeInfo>,
    pub value: Option<Announcement>,
}

/// Encoding of a find response's body; this is the byte string that is signed.
pub open spec fn enc_content(c: FindResponseContent) -> Seq<u8> {
    enc_goal(c.goal) + enc_blob(c.challenge@) + enc_key(c.sender@) + enc_nodes(c.nodes@) + enc_opt_ann(c.value)
}

/// Two find response bodies that hold the same values.
pub open spec fn same_content(a: FindResponseContent, b: FindResponseContent) -> bool {
    &&& a.goal == b.goal
    &&& a.challenge@ == b.challenge@
    &&& a.sender == b.sender
    &&& a.nodes@ == b.nodes@
    &&& same_opt_ann(a.value, b.value)
}

impl FindResponseContent {
    /// The canonical bytes of this body.
    pub fn to_bytes(&self) -> (r: Vec<u8>)
        ensures
            r@ == enc_content(*self),
    {
        let mut out: Vec<u8> = Vec::new();
        put_goal(&mut out, &self.goal);
        put_blob(&mut out, self.challenge.as_slice());
        put_key(&mut out, &self.sender.key);
        put_nodes(&mut out, &self.nodes);
        match &self.value {
            None => {
                out.push(0);
            },
            Some(a) => {
                out.push(1);
                put_ann(&mut out, a);
            },
        }
        assert(out@ =~= enc_content(*self));
        out
    }

    /// Reads a body back from bytes that hold exactly one.
    pub fn from_bytes(b: &[u8]) -> (r: Option<FindResponseContent>)
        ensures
            match r {
                Some(c) => enc_content(c) == b@,
                None => forall|c: FindResponseContent| enc_content(c) != b@,
            },
    {
        proof {
            lemma_radix_facts();
            lemma_le_len(0, 4);
        }
        let blen = b.len();
        let r = decode_content(b);
        match r {
            Some((c, e)) => {
                if e == blen {
                    proof {
                        assert(b@.subrange(0, b@.len() as int) =~= b@);
                    }
                    return Some(c);
                }
                proof {
                    assert forall|c2: FindResponseContent| enc_content(c2) != b@ by {
                        if enc_content(c2) == b@ {
                            assert(b@.subrange(0, b@.len() as int) =~= b@);
                            assert(b@.len() <= blen);
                            lemma_unique_content(b@, 0, c, c2);
                            lemma_same_content_len(c, c2);
                        }
                    }
                }
                None
            },
            None => {
                proof {
                    assert forall|c2: FindResponseContent| enc_content(c2) != b@ by {
                        if enc_content(c2) == b@ {
                            assert(b@.subrange(0, b@.len() as int) =~= b@);
                        }
                    }
                }
                None
            },
        }
    }
}

/// Different find response bodies have different encodings.
pub proof fn lemma_content_injective(c1: FindResponseContent, c2: FindResponseContent)
    requires
        enc_content(c1).len() <= usize::MAX,
        enc_content(c1) == enc_content(c2),
    ensures
        same_content(c1, c2),
{
    let b = enc_content(c1);
    lemma_radix_facts();
    assert(b.subrange(0, b.len() as int) =~= b);
    lemma_unique_content(b, 0, c1, c2);
}

proof fn lemma_same_content_len(a: FindResponseContent, b: FindResponseContent)
    requires
        same_content(a, b),
    ensures
        enc_content(a) == enc_content(b),
{
}

fn decode_content(b: &[u8]) -> (r: Option<(FindResponseContent, usize)>)
    ensures
        match r {
            Some((c, e)) => e == enc_content(c).len() && at(b@, 0, enc_content(c)),
            None => forall|c: FindResponseContent| !at(b@, 0, #[trigger] enc_content(c)),
        },
{
    proof {
        lemma_radix_facts();
        lemma_le_len(0, 4);
    }
    let blen = b.len();
    let ghost bb = b@;
    let (goal, at1) = match get_goal(b, 0) {
        Some(x) => x,
        None => {
            proof {
                assert forall|c: FindResponseContent| !at(bb, 0, #[trigger] enc_content(c)) by {
                    if at(bb, 0, enc_content(c)) {
                        lemma_content_parts(bb, c);
                    }
                }
            }
            return None;
        },
    };
    let (challenge, at2) = match get_blob(b, at1) {
        Some(x) => x,
        None => {
            proof {
                assert forall|c: FindResponseContent| !at(bb, 0, #[trigger] enc_content(c)) by {
                    if at(bb, 0, enc_content(c)) {
                        lemma_content_parts(bb, c);
                        lemma_unique_goal(bb, 0, c.goal, goal);
                    }
                }
            }
            return None;
        },
    };
    let (sender, at3) = match get_key(b, at2) {
        Some(x) => x,
        None => {
            proof {
                assert forall|c: FindResponseContent| !at(bb, 0, #[trigger] enc_content(c)) by {
                    if at(bb, 0, enc_content(c)) {
                        lemma_content_parts(bb, c);
                        lemma_unique_goal(bb, 0, c.goal, goal);
                        assert(c.challenge@.len() <= blen && challenge@.len() <= blen);
                        lemma_unique_blob(bb, at1 as int, c.challenge@, challenge@);
                    }
                }
            }
            return None;
        },
    };
    let (nodes, at4) = match get_nodes(b, at3) {
        Some(x) => x,
        None => {
            proof {
                assert forall|c: FindResponseContent| !at(bb, 0, #[trigger] enc_content(c)) by {
                    if at(bb, 0, enc_content(c)) {
                        lemma_content_parts(bb, c);
                        lemma_unique_goal(bb, 0, c.goal, goal);
                        assert(c.challenge@.len() <= blen && challenge@.len() <= blen);
                        lemma_unique_blob(bb, at1 as int, c.challenge@, challenge@);
                        assert(c.nodes@.len() * 38 <= blen) by {
                            lemma_items_len(c.nodes@);
                        }
                    }
                }
            }
            return None;
        },
    };
    let ghost pre = enc_goal(goal) + enc_blob(challenge@) + enc_key(sender@) + enc_nodes(nodes@);
    proof {
        lemma_at_join(bb, 0, enc_goal(goal), enc_blob(challenge@));
        lemma_at_join(bb, 0, enc_goal(goal) + enc_blob(challenge@), enc_key(sender@));
        lemma_at_join(bb, 0, enc_goal(goal) + enc_blob(challenge@) + enc_key(sender@), enc_nodes(nodes@));
    }
    let mut value: Option<Announcement> = None;
    let mut ok = false;
    let mut end: usize = at4;
    if at4 < blen {
        if b[at4] == 0 {
            ok = true;
            end = at4 + 1;
        } else if b[at4] == 1 {
            match get_ann(b, at4 + 1) {
                Some((a, e)) => {
                    value = Some(a);
                    ok = true;
                    end = e;
                },
                None => {},
            }
        }
    }
    let c = FindResponseContent { goal, challenge, sender: NodeIdentity { key: sender }, nodes, value };
    let ghost cv = c.value;
    if ok {
        proof {
            match cv {
                None => {
                    assert(bb.subrange(at4 as int, at4 + 1) =~= seq![0u8]);
                },
                Some(a) => {
                    assert(bb.subrange(at4 as int, at4 + 1) =~= seq![1u8]);
                    lemma_at_join(bb, at4 as int, seq![1u8], enc_ann(a.message@, a.signature@));
                },
            }
            lemma_at_join(bb, 0, pre, enc_opt_ann(c.value));
            assert(pre + enc_opt_ann(c.value) =~= enc_content(c));
        }
        return Some((c, end));
    }
    proof {
        assert forall|c2: FindResponseContent| !at(bb, 0, #[trigger] enc_content(c2)) by {
            if at(bb, 0, enc_content(c2)) {
                lemma_content_parts(bb, c2);
                lemma_unique_goal(bb, 0, c2.goal, goal);
                assert(c2.challenge@.len() <= blen && challenge@.len() <= blen);
                lemma_unique_blob(bb, at1 as int, c2.challenge@, challenge@);
                lemma_unique_key(bb, at2 as int, c2.sender@, sender@);
                assert(c2.nodes@.len() * 38 <= blen && nodes@.len() * 38 <= blen) by {
                    lemma_items_len(c2.nodes@);
                    lemma_items_len(nodes@);
                }
                lemma_unique_nodes(bb, at3 as int, c2.nodes@, nodes@);
                assert(bb.subrange(at4 as int, at4 + 1)[0] == bb[at4 as int]);
                match c2.value {
                    None => {
                        assert(bb[at4 as int] == 0);
                    },
                    Some(a) => {
                        lemma_at_split(bb, at4 as int, seq![1u8], enc_ann(a.message@, a.signature@));
                        assert(bb[at4 as int] == 1);
                    },
                }
            }
        }
    }
    None
}

proof fn lemma_items_len(s: Seq<NodeInfo>)
    ensures
        enc_node_items(s).len() >= 38 * s.len(),
        enc_nodes(s).len() >= 38 * s.len(),
    decreases s.len(),
{
    lemma_le_len(s.len(), 8);
    if s.len() > 0 {
        lemma_items_len(s.drop_last());
        lemma_le_len(0, 4);
        let a = s.last().address;
        match a {
            PeerAddr::V4 { ip4, port } => {
                lemma_le_len(ip4 as nat, 4);
                lemma_le_len(port as nat, 2);
            },
            PeerAddr::V6 { ip6, port } => {
                lemma_le_len(ip6 as nat, 16);
                lemma_le_len(port as nat, 2);
            },
        }
    }
}

proof fn lemma_content_parts(b: Seq<u8>, c: FindResponseContent)
    requires
        at(b, 0, enc_content(c)),
    ensures
        at(b, 0, enc_goal(c.goal)),
        at(b, enc_goal(c.goal).len() as int, enc_blob(c.challenge@)),
        at(b, (enc_goal(c.goal).len() + enc_blob(c.challenge@).len()) as int, enc_key(c.sender@)),
        at(
            b,
            (enc_goal(c.goal).len() + enc_blob(c.challenge@).len() + enc_key(c.sender@).len()) as int,
            enc_nodes(c.nodes@),
        ),
        at(
            b,
            (enc_goal(c.goal).len() + enc_blob(c.challenge@).len() + enc_key(c.sender@).len() + enc_nodes(
                c.nodes@,
            ).len()) as int,
            enc_opt_ann(c.value),
        ),
{
    let g = enc_goal(c.goal);
    let ch = enc_blob(c.challenge@);
    let k = enc_key(c.sender@);
    let n = enc_nodes(c.nodes@);
    let v = enc_opt_ann(c.value);
    lemma_at_split(b, 0, g + ch + k + n, v);
    lemma_at_split(b, 0, g + ch + k, n);
    lemma_at_split(b, 0, g + ch, k);
    lemma_at_split(b, 0, g, ch);
}

proof fn lemma_unique_content(b: Seq<u8>, pos: int, c1: FindResponseContent, c2: FindResponseContent)
    requires
        pos == 0,
        b.len() < radix(8),
        at(b, 0, enc_content(c1)),
        at(b, 0, enc_content(c2)),
    ensures
        same_content(c1, c2),
{
    lemma_radix_facts();
    lemma_le_len(0, 4);
    lemma_content_parts(b, c1);
    lemma_content_parts(b, c2);
    lemma_unique_goal(b, 0, c1.goal, c2.goal);
    let at1 = enc_goal(c1.goal).len() as int;
    lemma_unique_blob(b, at1, c1.challenge@, c2.challenge@);
    let at2 = at1 + enc_blob(c1.challenge@).len();
    lemma_unique_key(b, at2, c1.sender@, c2.sender@);
    lemma_array_eq(c1.sender.key, c2.sender.key);
    let at3 = at2 + 36;
    lemma_items_len(c1.nodes@);
    lemma_items_len(c2.nodes@);
    lemma_unique_nodes(b, at3, c1.nodes@, c2.nodes@);
    let at4 = at3 + enc_nodes(c1.nodes@).len();
    match (c1.value, c2.value) {
        (Some(a1), Some(a2)) => {
            lemma_at_split(b, at4, seq![1u8], enc_ann(a1.message@, a1.signature@));
            lemma_at_split(b, at4, seq![1u8], enc_ann(a2.message@, a2.signature@));
            lemma_le_len(a1.message@.len(), 8);
            lemma_le_len(a2.message@.len(), 8);
            lemma_unique_ann(b, at4 + 1, a1.message@, a1.signature@, a2.message@, a2.signature@);
        },
        (Some(a1), None) => {
            lemma_at_split(b, at4, seq![1u8], enc_ann(a1.message@, a1.signature@));
            assert(b.subrange(at4, at4 + 1)[0] == b[at4]);
            assert(b.subrange(at4, at4 + 1) == seq![1u8]);
            assert(b.subrange(at4, at4 + 1) == seq![0u8]);
        },
        (None, Some(a2)) => {
            lemma_at_split(b, at4, seq![1u8], enc_ann(a2.message@, a2.signature@));
            assert(b.subrange(at4, at4 + 1)[0] == b[at4]);
            assert(b.subrange(at4, at4 + 1) == seq![1u8]);
            assert(b.subrange(at4, at4 + 1) == seq![0u8]);
        },
        (None, None) => {},
    }
}

/// Asks a peer for the nodes nearest `goal`, or for the announcement stored
/// under it; the answer must echo `challenge`.
#[derive(Debug)]
pub struct FindRequest {
    pub sender: NodeIdentity,
    pub challenge: Vec<u8>,
    pub goal: FindGoal,
}

/// An answer to a `FindRequest`: the encoded `FindResponseContent`, signed by the sender.
#[derive(Debug)]
pub struct FindResponse {
    pub sender: NodeIdentity,
    pub message: Vec<u8>,
    pub signature: Vec<u8>,
}

/// Asks a peer to store an announcement.
#[derive(Debug)]
pub struct StoreRequest {
    pub key: Identity,
    pub value: Announcement,
}

/// An answer to a `Challenge`: the nonce, signed by the sender.
#[derive(Debug)]
pub struct ChallengeResponse {
    pub sender: NodeIdentity,
    pub signature: Vec<u8>,
}

/// The answer of a peer to a Store request.
#[derive(Debug)]
pub struct StoreResponse {
    pub key: Identity,
    pub value: Announcement,
}

/// A SHA-256 digest.
#[derive(Clone, Copy, Debug)]
pub struct Hash(pub [u8; 32]);

impl Hash {
    /// The SHA-256 digest of `data`.
    pub fn new(data: &[u8]) -> (r: Hash)
        ensures
            r.0@ == sha256_of(data@),
    {
        Hash(sha256(data))
    }
}

/// A datagram of the node protocol.
#[derive(Debug)]
pub enum Message {
    FindRequest(FindRequest),
    FindResponse(FindResponse),
    Store(StoreRequest),
    Ping,
    Pung(NodeIdentity),
    Challenge(Vec<u8>),
    ChallengeResponse(ChallengeResponse),
}

/// Encoding of what follows a message's variant index.
pub open spec fn enc_payload(m: Message) -> Seq<u8> {
    match m {
        Message::FindRequest(r) => enc_key(r.sender@) + enc_blob(r.challenge@) + enc_goal(r.goal),
        Message::FindResponse(r) => enc_key(r.sender@) + enc_blob(r.message@) + enc_blob(r.signature@),
        Message::Store(r) => enc_key(r.key@) + enc_ann(r.value.message@, r.value.signature@),
        Message::Ping => Seq::empty(),
        Message::Pung(id) => enc_key(id@),
        Message::Challenge(c) => enc_blob(c@),
        Message::ChallengeResponse(r) => enc_key(r.sender@) + enc_blob(r.signature@),
    }
}

/// A message's variant index.
pub open spec fn variant(m: Message) -> nat {
    match m {
        Message::FindRequest(_) => 0,
        Message::FindResponse(_) => 1,
        Message::Store(_) => 2,
        Message::Ping => 3,
        Message::Pung(_) => 4,
        Message::Challenge(_) => 5,
        Message::ChallengeResponse(_) => 6,
    }
}

/// Encoding of a datagram: the protocol version index (zero), the variant
/// index, then the variant's fields.
pub open spec fn enc_message(m: Message) -> Seq<u8> {
    enc_u32(0) + enc_u32(variant(m)) + enc_payload(m)
}

/// Two messages that hold the same values.
pub open spec fn same_message(a: Message, b: Message) -> bool {
    match (a, b) {
        (Message::FindRequest(x), Message::FindRequest(y)) => x.sender == y.sender && x.challenge@ == y.challenge@
            && x.goal == y.goal,
        (Message::FindResponse(x), Message::FindResponse(y)) => x.sender == y.sender && x.message@ == y.message@
            && x.signature@ == y.signature@,
        (Message::Store(x), Message::Store(y)) => x.key == y.key && x.value.message@ == y.value.message@
            && x.value.signature@ == y.value.signature@,
        (Message::Ping, Message::Ping) => true,
        (Message::Pung(x), Message::Pung(y)) => x == y,
        (Message::Challenge(x), Message::Challenge(y)) => x@ == y@,
        (Message::ChallengeResponse(x), Message::ChallengeResponse(y)) => x.sender == y.sender && x.signature@
            == y.signature@,
        _ => false,
    }
}

proof fn lemma_unique_payload(b: Seq<u8>, pos: int, m1: Message, m2: Message)
    requires
        b.len() < radix(8),
        variant(m1) == variant(m2),
        at(b, pos, enc_payload(m1)),
        at(b, pos, enc_payload(m2)),
    ensures
        same_message(m1, m2),
{
    lemma_radix_facts();
    lemma_le_len(0, 4);
    match (m1, m2) {
        (Message::FindRequest(x), Message::FindRequest(y)) => {
            lemma_at_split(b, pos, enc_key(x.sender@) + enc_blob(x.challenge@), enc_goal(x.goal));
            lemma_at_split(b, pos, enc_key(y.sender@) + enc_blob(y.challenge@), enc_goal(y.goal));
            lemma_at_split(b, pos, enc_key(x.sender@), enc_blob(x.challenge@));
            lemma_at_split(b, pos, enc_key(y.sender@), enc_blob(y.challenge@));
            lemma_unique_key(b, pos, x.sender@, y.sender@);
            lemma_array_eq(x.sender.key, y.sender.key);
            lemma_unique_blob(b, pos + 36, x.challenge@, y.challenge@);
            lemma_unique_goal(b, pos + 36 + enc_blob(x.challenge@).len(), x.goal, y.goal);
        },
        (Message::FindResponse(x), Message::FindResponse(y)) => {
            lemma_at_split(b, pos, enc_key(x.sender@) + enc_blob(x.message@), enc_blob(x.signature@));
            lemma_at_split(b, pos, enc_key(y.sender@) + enc_blob(y.message@), enc_blob(y.signature@));
            lemma_at_split(b, pos, enc_key(x.sender@), enc_blob(x.message@));
            lemma_at_split(b, pos, enc_key(y.sender@), enc_blob(y.message@));
            lemma_unique_key(b, pos, x.sender@, y.sender@);
            lemma_array_eq(x.sender.key, y.sender.key);
            lemma_unique_blob(b, pos + 36, x.message@, y.message@);
            lemma_unique_blob(b, pos + 36 + enc_blob(x.message@).len(), x.signature@, y.signature@);
        },
        (Message::Store(x), Message::Store(y)) => {
            lemma_at_split(b, pos, enc_key(x.key@), enc_ann(x.value.message@, x.value.signature@));
            lemma_at_split(b, pos, enc_key(y.key@), enc_ann(y.value.message@, y.value.signature@));
            lemma_unique_key(b, pos, x.key@, y.key@);
            lemma_array_eq(x.key.key, y.key.key);
            lemma_unique_ann(b, pos + 36, x.value.message@, x.value.signature@, y.value.message@, y.value.signature@);
        },
        (Message::Pung(x), Message::Pung(y)) => {
            lemma_unique_key(b, pos, x@, y@);
            lemma_array_eq(x.key, y.key);
        },
        (Message::Challenge(x), Message::Challenge(y)) => {
            lemma_unique_blob(b, pos, x@, y@);
        },
        (Message::ChallengeResponse(x), Message::ChallengeResponse(y)) => {
            lemma_at_split(b, pos, enc_key(x.sender@), enc_blob(x.signature@));
            lemma_at_split(b, pos, enc_key(y.sender@), enc_blob(y.signature@));
            lemma_unique_key(b, pos, x.sender@, y.sender@);
            lemma_array_eq(x.sender.key, y.sender.key);
            lemma_unique_blob(b, pos + 36, x.signature@, y.signature@);
        },
        _ => {},
    }
}

/// Different messages have different encodings: reading back the bytes of a
/// message gives that message again, for every variant.
pub proof fn lemma_message_round_trip(m1: Message, m2: Message)
    requires
        enc_message(m1).len() <= usize::MAX,
        enc_message(m1) == enc_message(m2),
    ensures
        same_message(m1, m2),
{
    let b = enc_message(m1);
    lemma_radix_facts();
    lemma_le_len(0, 4);
    lemma_le_len(variant(m1), 4);
    lemma_le_len(variant(m2), 4);
    assert(b.subrange(0, b.len() as int) =~= b);
    lemma_at_split(b, 0, enc_u32(0) + enc_u32(variant(m1)), enc_payload(m1));
    lemma_at_split(b, 0, enc_u32(0) + enc_u32(variant(m2)), enc_payload(m2));
    lemma_at_split(b, 0, enc_u32(0), enc_u32(variant(m1)));
    lemma_at_split(b, 0, enc_u32(0), enc_u32(variant(m2)));
    lemma_unique_le(b, 4, variant(m1), variant(m2), 4);
    lemma_unique_payload(b, 8, m1, m2);
}

impl Message {
    /// The datagram bytes of this message.
    pub fn to_bytes(&self) -> (r: Vec<u8>)
        ensures
            r@ == enc_message(*self),
    {
        let mut out: Vec<u8> = Vec::new();
        put_tag(&mut out, 0);
        match self {
            Message::FindRequest(r) => {
                put_tag(&mut out, 0);
                put_key(&mut out, &r.sender.key);
                put_blob(&mut out, r.challenge.as_slice());
                put_goal(&mut out, &r.goal);
            },
            Message::FindResponse(r) => {
                put_tag(&mut out, 1);
                put_key(&mut out, &r.sender.key);
                put_blob(&mut out, r.message.as_slice());
                put_blob(&mut out, r.signature.as_slice());
            },
            Message::Store(r) => {
                put_tag(&mut out, 2);
                put_key(&mut out, &r.key.key);
                put_ann(&mut out, &r.value);
            },
            Message::Ping => {
                put_tag(&mut out, 3);
            },
            Message::Pung(id) => {
                put_tag(&mut out, 4);
                put_key(&mut out, &id.key);
            },
            Message::Challenge(c) => {
                put_tag(&mut out, 5);
                put_blob(&mut out, c.as_slice());
            },
            Message::ChallengeResponse(r) => {
                put_tag(&mut out, 6);
                put_key(&mut out, &r.sender.key);
                put_blob(&mut out, r.signature.as_slice());
            },
        }
        assert(out@ =~= enc_message(*self));
        out
    }

    /// Reads a message from a datagram that holds exactly one.
    pub fn from_bytes(b: &[u8]) -> (r: Option<Message>)
        ensures
            match r {
                Some(m) => enc_message(m) == b@,
                None => forall|m: Message| enc_message(m) != b@,
            },
            forall|m: Message| enc_message(m) == b@ ==> (r matches Some(d) && same_message(d, m)),
    {
        proof {
            lemma_radix_facts();
            lemma_le_len(0, 4);
        }
        let blen = b.len();
        let r = decode_message(b);
        proof {
            assert(b@.subrange(0, b@.len() as int) =~= b@);
        }
        match r {
            Some((m, e)) => {
                if e == blen {
                    proof {
                        assert forall|m2: Message| enc_message(m2) == b@ implies same_message(m, m2) by {
                            lemma_message_round_trip(m, m2);
                        }
                    }
                    return Some(m);
                }
                proof {
                    assert forall|m2: Message| enc_message(m2) != b@ by {
                        if enc_message(m2) == b@ {
                            lemma_message_prefix_unique(b@, m, m2);
                        }
                    }
                }
                None
            },
            None => None,
        }
    }
}

proof fn lemma_message_prefix_unique(b: Seq<u8>, m1: Message, m2: Message)
    requires
        b.len() < radix(8),
        at(b, 0, enc_message(m1)),
        at(b, 0, enc_message(m2)),
    ensures
        enc_message(m1) == enc_message(m2),
{
    lemma_radix_facts();
    lemma_le_len(0, 4);
    lemma_le_len(variant(m1), 4);
    lemma_le_len(variant(m2), 4);
    lemma_at_split(b, 0, enc_u32(0) + enc_u32(variant(m1)), enc_payload(m1));
    lemma_at_split(b, 0, enc_u32(0) + enc_u32(variant(m2)), enc_payload(m2));
    lemma_at_split(b, 0, enc_u32(0), enc_u32(variant(m1)));
    lemma_at_split(b, 0, enc_u32(0), enc_u32(variant(m2)));
    lemma_unique_le(b, 4, variant(m1), variant(m2), 4);
    lemma_unique_payload(b, 8, m1, m2);
}

proof fn lemma_message_parts(b: Seq<u8>, m: Message)
    requires
        at(b, 0, enc_message(m)),
    ensures
        at(b, 0, enc_u32(0)),
        at(b, 4, enc_u32(variant(m))),
        at(b, 8, enc_payload(m)),
{
    lemma_le_len(0, 4);
    lemma_le_len(variant(m), 4);
    lemma_at_split(b, 0, enc_u32(0) + enc_u32(variant(m)), enc_payload(m));
    lemma_at_split(b, 0, enc_u32(0), enc_u32(variant(m)));
}

/// Reads a key then a byte string.
fn get_key_blob(b: &[u8], pos: usize) -> (r: Option<([u8; 32], Vec<u8>, usize)>)
    ensures
        match r {
            Some((k, v, e)) => e == pos + enc_key(k@).len() + enc_blob(v@).len() && at(
                b@,
                pos as int,
                enc_key(k@) + enc_blob(v@),
            ),
            None => forall|k: Seq<u8>, v: Seq<u8>| k.len() == 32 ==> !at(b@, pos as int, #[trigger] (enc_key(k) + enc_blob(v))),
        },
{
    proof {
        lemma_le_len(0, 4);
    }
    if let Some((k, at1)) = get_key(b, pos) {
        if let Some((v, at2)) = get_blob(b, at1) {
            proof {
                lemma_at_join(b@, pos as int, enc_key(k@), enc_blob(v@));
            }
            return Some((k, v, at2));
        }
        proof {
            assert forall|k2: Seq<u8>, v2: Seq<u8>| k2.len() == 32 implies !at(b@, pos as int, #[trigger] (enc_key(k2) + enc_blob(v2))) by {
                if at(b@, pos as int, enc_key(k2) + enc_blob(v2)) {
                    lemma_at_split(b@, pos as int, enc_key(k2), enc_blob(v2));
                    lemma_unique_key(b@, pos as int, k2, k@);
                }
            }
        }
        return None;
    }
    proof {
        assert forall|k2: Seq<u8>, v2: Seq<u8>| k2.len() == 32 implies !at(b@, pos as int, #[trigger] (enc_key(k2) + enc_blob(v2))) by {
            if at(b@, pos as int, enc_key(k2) + enc_blob(v2)) {
                lemma_at_split(b@, pos as int, enc_key(k2), enc_blob(v2));
            }
        }
    }
    None
}

fn decode_payload(b: &[u8], pos: usize, v: u32) -> (r: Option<(Message, usize)>)
    ensures
        match r {
            Some((m, e)) => variant(m) == v && e == pos + enc_payload(m).len() && at(b@, pos as int, enc_payload(m)),
            None => forall|m: Message| variant(m) == v ==> !at(b@, pos as int, #[trigger] enc_payload(m)),
        },
{
    proof {
        lemma_radix_facts();
        lemma_le_len(0, 4);
    }
    let blen = b.len();
    if v == 0 {
        if let Some((k, c, at1)) = get_key_blob(b, pos) {
            if let Some((g, at2)) = get_goal(b, at1) {
                let m = Message::FindRequest(FindRequest { sender: NodeIdentity { key: k }, challenge: c, goal: g });
                proof {
                    lemma_at_join(b@, pos as int, enc_key(k@) + enc_blob(c@), enc_goal(g));
                }
                return Some((m, at2));
            }
            proof {
                assert forall|m: Message| variant(m) == v implies !at(b@, pos as int, #[trigger] enc_payload(m)) by {
                    if at(b@, pos as int, enc_payload(m)) {
                        if let Message::FindRequest(x) = m {
                            lemma_at_split(b@, pos as int, enc_key(x.sender@) + enc_blob(x.challenge@), enc_goal(x.goal));
                            lemma_at_split(b@, pos as int, enc_key(x.sender@), enc_blob(x.challenge@));
                            lemma_at_split(b@, pos as int, enc_key(k@), enc_blob(c@));
                            lemma_unique_key(b@, pos as int, x.sender@, k@);
                            assert(x.challenge@.len() <= blen && c@.len() <= blen);
                            lemma_unique_blob(b@, pos + 36, x.challenge@, c@);
                        }
                    }
                }
            }
            return None;
        }
        proof {
            assert forall|m: Message| variant(m) == v implies !at(b@, pos as int, #[trigger] enc_payload(m)) by {
                if at(b@, pos as int, enc_payload(m)) {
                    if let Message::FindRequest(x) = m {
                        lemma_at_split(b@, pos as int, enc_key(x.sender@) + enc_blob(x.challenge@), enc_goal(x.goal));
                    }
                }
            }
        }
        return None;
    }
    if v == 1 {
        if let Some((k, msg, at1)) = get_key_blob(b, pos) {
            if let Some((sig, at2)) = get_blob(b, at1) {
                let m = Message::FindResponse(FindResponse { sender: NodeIdentity { key: k }, message: msg, signature: sig });
                proof {
                    lemma_at_join(b@, pos as int, enc_key(k@) + enc_blob(msg@), enc_blob(sig@));
                }
                return Some((m, at2));
            }
            proof {
                assert forall|m: Message| variant(m) == v implies !at(b@, pos as int, #[trigger] enc_payload(m)) by {
                    if at(b@, pos as int, enc_payload(m)) {
                        if let Message::FindResponse(x) = m {
                            lemma_at_split(b@, pos as int, enc_key(x.sender@) + enc_blob(x.message@), enc_blob(x.signature@));
                            lemma_at_split(b@, pos as int, enc_key(x.sender@), enc_blob(x.message@));
                            lemma_at_split(b@, pos as int, enc_key(k@), enc_blob(msg@));
                            lemma_unique_key(b@, pos as int, x.sender@, k@);
                            assert(x.message@.len() <= blen && msg@.len() <= blen);
                            lemma_unique_blob(b@, pos + 36, x.message@, msg@);
                        }
                    }
                }
            }
            return None;
        }
        proof {
            assert forall|m: Message| variant(m) == v implies !at(b@, pos as int, #[trigger] enc_payload(m)) by {
                if at(b@, pos as int, enc_payload(m)) {
                    if let Message::FindResponse(x) = m {
                        lemma_at_split(b@, pos as int, enc_key(x.sender@) + enc_blob(x.message@), enc_blob(x.signature@));
                    }
                }
            }
        }
        return None;
    }
    if v == 2 {
        if let Some((k, at1)) = get_key(b, pos) {
            if let Some((a, at2)) = get_ann(b, at1) {
                let ghost am = a.message@;
                let ghost asg = a.signature@;
                let m = Message::Store(StoreRequest { key: Identity { key: k }, value: a });
                proof {
                    lemma_at_join(b@, pos as int, enc_key(k@), enc_ann(am, asg));
                }
                return Some((m, at2));
            }
            proof {
                assert forall|m: Message| variant(m) == v implies !at(b@, pos as int, #[trigger] enc_payload(m)) by {
                    if at(b@, pos as int, enc_payload(m)) {
                        if let Message::Store(x) = m {
                            lemma_at_split(b@, pos as int, enc_key(x.key@), enc_ann(x.value.message@, x.value.signature@));
                            lemma_unique_key(b@, pos as int, x.key@, k@);
                        }
                    }
                }
            }
            return None;
        }
        proof {
            assert forall|m: Message| variant(m) == v implies !at(b@, pos as int, #[trigger] enc_payload(m)) by {
                if at(b@, pos as int, enc_payload(m)) {
                    if let Message::Store(x) = m {
                        lemma_at_split(b@, pos as int, enc_key(x.key@), enc_ann(x.value.message@, x.value.signature@));
                    }
                }
            }
        }
        return None;
    }
    if v == 3 {
        if pos <= blen {
            proof {
                assert(b@.subrange(pos as int, pos as int) =~= Seq::<u8>::empty());
            }
            return Some((Message::Ping, pos));
        }
        return None;
    }
    if v == 4 {
        if let Some((k, at1)) = get_key(b, pos) {
            return Some((Message::Pung(NodeIdentity { key: k }), at1));
        }
        return None;
    }
    if v == 5 {
        if let Some((c, at1)) = get_blob(b, pos) {
            return Some((Message::Challenge(c), at1));
        }
        return None;
    }
    if v == 6 {
        if let Some((k, sig, at1)) = get_key_blob(b, pos) {
            return Some((Message::ChallengeResponse(ChallengeResponse { sender: NodeIdentity { key: k }, signature: sig }), at1));
        }
        return None;
    }
    None
}

fn decode_message(b: &[u8]) -> (r: Option<(Message, usize)>)
    ensures
        match r {
            Some((m, e)) => e == enc_message(m).len() && at(b@, 0, enc_message(m)),
            None => forall|m: Message| !at(b@, 0, #[trigger] enc_message(m)),
        },
{
    proof {
        lemma_radix_facts();
        lemma_le_len(0, 4);
    }
    if let Some((ver, at0)) = get_tag(b, 0) {
        if ver == 0 {
            if let Some((v, at1)) = get_tag(b, at0) {
                if let Some((m, e)) = decode_payload(b, at1, v) {
                    proof {
                        lemma_le_len(v as nat, 4);
                        lemma_at_join(b@, 0, enc_u32(0), enc_u32(v as nat));
                        lemma_at_join(b@, 0, enc_u32(0) + enc_u32(v as nat), enc_payload(m));
                    }
                    return Some((m, e));
                }
                proof {
                    assert forall|m: Message| !at(b@, 0, #[trigger] enc_message(m)) by {
                        if at(b@, 0, enc_message(m)) {
                            lemma_message_parts(b@, m);
                            lemma_unique_le(b@, 4, variant(m), v as nat, 4);
                        }
                    }
                }
                return None;
            }
            proof {
                assert forall|m: Message| !at(b@, 0, #[trigger] enc_message(m)) by {
                    if at(b@, 0, enc_message(m)) {
                        lemma_message_parts(b@, m);
                    }
                }
            }
            return None;
        }
        proof {
            assert forall|m: Message| !at(b@, 0, #[trigger] enc_message(m)) by {
                if at(b@, 0, enc_message(m)) {
                    lemma_message_parts(b@, m);
                    lemma_unique_le(b@, 0, 0, ver as nat, 4);
                }
            }
        }
        return None;
    }
    proof {
        assert forall|m: Message| !at(b@, 0, #[trigger] enc_message(m)) by {
            if at(b@, 0, enc_message(m)) {
                lemma_message_parts(b@, m);
            }
        }
    }
    None
}

/// Appends the `n`-byte little-endian form of `v`.
pub fn put_le(out: &mut Vec<u8>, v: u128, n: usize)
    requires
        n <= 16,
        (v as nat) < radix(n as nat),
    ensures
        final(out)@ == old(out)@ + le_bytes(v as nat, n as nat),
{
    let ghost start = out@;
    let mut rest: u128 = v;
    let mut i: usize = 0;
    while i < n
        invariant
            0 <= i <= n,
            out@ + le_bytes(rest as nat, (n - i) as nat) == start + le_bytes(v as nat, n as nat),
        decreases n - i,
    {
        let ghost before = out@;
        out.push((rest % 256) as u8);
        proof {
            let tail = le_bytes((rest / 256) as nat, (n - i - 1) as nat);
            assert(le_bytes(rest as nat, (n - i) as nat) == seq![((rest as nat) % 256) as u8] + tail);
            assert(out@ + tail =~= before + le_bytes(rest as nat, (n - i) as nat));
        }
        rest = rest / 256;
        i = i + 1;
    }
    assert(out@ =~= start + le_bytes(v as nat, n as nat));
}

/// Reads the `n`-byte little-endian value at `pos`.
pub fn get_le(b: &[u8], pos: usize, n: usize) -> (r: u128)
    requires
        n <= 16,
        pos + n <= b@.len(),
    ensures
        r as nat == le_value(b@.subrange(pos as int, pos + n)),
{
    let blen = b.len();
    let mut acc: u128 = 0;
    let mut i: usize = n;
    proof {
        lemma_le_from_value(b@.subrange(pos as int, pos + n));
    }
    while i > 0
        invariant
            0 <= i <= n,
            n <= 16,
            pos + n <= b@.len(),
            blen == b@.len(),
            acc as nat == le_value(b@.subrange(pos + i, pos + n)),
            (acc as nat) < radix((n - i) as nat),
        decreases i,
    {
        let ghost t = b@.subrange(pos + i, pos + n);
        let ghost s = b@.subrange(pos + i - 1, pos + n);
        proof {
            assert(s.drop_first() =~= t);
            lemma_radix_16((n - i) as nat);
            let a = acc as nat;
            let x = b@[pos + i - 1] as nat;
            assert(x + 256 * a < 256 * radix((n - i) as nat)) by (nonlinear_arith)
                requires
                    a < radix((n - i) as nat),
                    x < 256,
            ;
            assert(256 * radix((n - i) as nat) <= radix(16)) by {
                lemma_radix_mono((n - i + 1) as nat, 16);
            }
        }
        let idx = pos + (i - 1);
        acc = b[idx] as u128 + 256 * acc;
        i = i - 1;
    }
    acc
}

proof fn lemma_radix_mono(a: nat, b: nat)
    requires
        a <= b,
    ensures
        radix(a) <= radix(b),
    decreases b,
{
    if a < b {
        lemma_radix_mono(a, (b - 1) as nat);
    }
}

proof fn lemma_radix_16(k: nat)
    requires
        k <= 15,
    ensures
        256 * radix(k) <= radix(16),
        radix(16) == 0x1_0000_0000_0000_0000_0000_0000_0000_0000,
        radix(8) == 0x1_0000_0000_0000_0000,
        radix(4) == 0x1_0000_0000,
        radix(2) == 0x1_0000,
{
    reveal_with_fuel(radix, 17);
    lemma_radix_mono(k + 1, 16);
}

} // verus!
