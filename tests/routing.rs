use spaghettinuum::coord::dist;
use spaghettinuum::identity::{
    node_ident_coord,
    NodeIdentity,
};
use spaghettinuum::routing::{
    Buckets,
    NodeInfo,
    PeerAddr,
};

fn addr(n: u16) -> PeerAddr {
    PeerAddr::V4 { ip4: 0x7f00_0001, port: 1000 + n }
}

/// A fresh identity whose peers land in bucket `want` of `table`.
fn peer_in_bucket(table: &Buckets, want: usize) -> NodeIdentity {
    loop {
        let (id, _) = NodeIdentity::new();
        let (lz, _) = dist(&node_ident_coord(&id), &table.own_coord());
        if lz == want {
            return id;
        }
    }
}

fn full_bucket_zero() -> (Buckets, Vec<NodeIdentity>) {
    let (own, _) = NodeIdentity::new();
    let mut table = Buckets::new(own);
    let mut ids = vec![];
    for k in 0..8u16 {
        let id = peer_in_bucket(&table, 0);
        assert!(table.add_good_node(id, Some(NodeInfo { ident: id, address: addr(k) })));
        ids.push(id);
    }
    (table, ids)
}

#[test]
fn peers_sit_in_their_bucket() {
    let (own, _) = NodeIdentity::new();
    let mut table = Buckets::new(own);
    for k in 0..20u16 {
        let (id, _) = NodeIdentity::new();
        table.add_good_node(id, Some(NodeInfo { ident: id, address: addr(k) }));
    }
    for b in 0..256 {
        for slot in table.bucket(b) {
            let (lz, _) = dist(&node_ident_coord(&slot.node.ident), &table.own_coord());
            assert_eq!(lz, b);
        }
    }
}

#[test]
fn new_peers_go_to_the_front() {
    let (table, ids) = full_bucket_zero();
    let bucket = table.bucket(0);
    assert_eq!(bucket.len(), 8);
    assert_eq!(bucket[0].node.ident, ids[7]);
    assert_eq!(bucket[7].node.ident, ids[0]);
}

#[test]
fn full_bucket_rejects_responsive_peer() {
    let (mut table, _) = full_bucket_zero();
    let newcomer = peer_in_bucket(&table, 0);
    let before = table.bucket(0).iter().map(|s| s.node.ident).collect::<Vec<_>>();
    assert!(!table.add_good_node(newcomer, Some(NodeInfo { ident: newcomer, address: addr(50) })));
    let after = table.bucket(0).iter().map(|s| s.node.ident).collect::<Vec<_>>();
    assert_eq!(before, after);
}

#[test]
fn unresponsive_slot_is_evicted_for_new_peer() {
    let (mut table, ids) = full_bucket_zero();
    table.mark_node_unresponsive(&ids[3], 0, true);
    let newcomer = peer_in_bucket(&table, 0);
    assert!(table.add_good_node(newcomer, Some(NodeInfo { ident: newcomer, address: addr(60) })));
    let bucket = table.bucket(0);
    assert_eq!(bucket.len(), 8);
    assert_eq!(bucket[7].node.ident, newcomer);
    assert!(!bucket[7].unresponsive);
    assert!(bucket.iter().all(|s| s.node.ident != ids[3]));
}

#[test]
fn add_good_node_twice_is_idempotent() {
    let (own, _) = NodeIdentity::new();
    let mut table = Buckets::new(own);
    let (id, _) = NodeIdentity::new();
    let info = NodeInfo { ident: id, address: addr(1) };
    assert!(table.add_good_node(id, Some(info)));
    let (lz, _) = dist(&node_ident_coord(&id), &table.own_coord());
    let first = table.bucket(lz).len();
    table.take_dirty();
    assert!(!table.add_good_node(id, Some(info)));
    assert_eq!(table.bucket(lz).len(), first);
    assert!(!table.take_dirty());
}

#[test]
fn own_identity_is_never_added() {
    let (own, _) = NodeIdentity::new();
    let mut table = Buckets::new(own);
    assert!(!table.add_good_node(own, Some(NodeInfo { ident: own, address: addr(1) })));
    assert_eq!(table.health_counts(), (0, 0));
}

#[test]
fn address_rebinding_evicts_previous_holder() {
    let (own, _) = NodeIdentity::new();
    let mut table = Buckets::new(own);
    let (a, _) = NodeIdentity::new();
    let (b, _) = NodeIdentity::new();
    table.add_good_node(a, Some(NodeInfo { ident: a, address: addr(7) }));
    table.add_good_node(b, Some(NodeInfo { ident: b, address: addr(7) }));
    let all = table.get_closest_peers(&table.own_coord(), 100);
    assert_eq!(all.len(), 1);
    assert_eq!(all[0].ident, b);
}

#[test]
fn mark_unresponsive_and_back() {
    let (mut table, ids) = full_bucket_zero();
    table.mark_node_unresponsive(&ids[0], 0, true);
    table.mark_node_unresponsive(&ids[0], 0, true);
    assert_eq!(table.health_counts(), (7, 1));
    table.mark_node_unresponsive(&ids[0], 0, false);
    assert_eq!(table.health_counts(), (8, 0));
}

#[test]
fn closest_peers_walk_up_then_down() {
    let (own, _) = NodeIdentity::new();
    let mut table = Buckets::new(own);
    let low = peer_in_bucket(&table, 0);
    let high = peer_in_bucket(&table, 2);
    table.add_good_node(low, Some(NodeInfo { ident: low, address: addr(1) }));
    table.add_good_node(high, Some(NodeInfo { ident: high, address: addr(2) }));
    let goal = node_ident_coord(&peer_in_bucket(&table, 1));
    let peers = table.get_closest_peers(&goal, 8);
    assert_eq!(peers.len(), 2);
    assert_eq!(peers[0].ident, high);
    assert_eq!(peers[1].ident, low);
    let one = table.get_closest_peers(&goal, 1);
    assert_eq!(one.len(), 1);
    assert_eq!(one[0].ident, high);
}

#[test]
fn refresh_without_info_clears_unresponsive() {
    let (mut table, ids) = full_bucket_zero();
    table.mark_node_unresponsive(&ids[2], 0, true);
    assert_eq!(table.health_counts(), (7, 1));
    table.take_dirty();
    assert!(!table.add_good_node(ids[2], None));
    assert_eq!(table.health_counts(), (8, 0));
    assert!(table.take_dirty());
    assert!(!table.add_good_node(ids[2], None));
    assert!(!table.take_dirty());
}
