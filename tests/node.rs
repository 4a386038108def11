use spaghettinuum::announcement::Announcement;
use spaghettinuum::find::{
    FindGoal,
    NearestNode,
};
use spaghettinuum::identity::{
    node_ident_coord,
    BackedIdentityLocal,
    NodeIdentity,
    NodeSecret,
};
use spaghettinuum::node::{
    Action,
    NodeCore,
};
use spaghettinuum::routing::{
    NodeInfo,
    PeerAddr,
};
use spaghettinuum::wire::{
    FindResponse,
    FindResponseContent,
    Message,
    StoreRequest,
};

const NOW: u64 = 1_700_000_000_000;

fn secret() -> NodeSecret {
    NodeIdentity::new().1
}

fn addr(n: u16) -> PeerAddr {
    PeerAddr::V4 { ip4: 0x7f00_0001, port: n }
}

/// The datagrams among `actions`, with where they go.
fn sends(actions: Vec<Action>) -> Vec<(PeerAddr, Message)> {
    actions
        .into_iter()
        .filter_map(|a| match a {
            Action::Send { to, message } => Some((to, message)),
            _ => None,
        })
        .collect()
}

/// Delivers every datagram of `actions` that goes to `to_addr` into `node`, as
/// coming from `from_addr`, and returns what the node wants done.
fn deliver(node: &mut NodeCore, to_addr: PeerAddr, from_addr: PeerAddr, actions: Vec<Action>) -> Vec<Action> {
    let mut out = vec![];
    for (to, m) in sends(actions) {
        if to == to_addr {
            out.extend(node.handle(m, from_addr, NOW).unwrap());
        }
    }
    out
}

fn joined() -> (NodeCore, NodeCore) {
    let mut a = NodeCore::new(secret(), &vec![]);
    let a_info = NodeInfo { ident: a.node_identity(), address: addr(1) };
    let mut b = NodeCore::new(secret(), &vec![a_info]);
    let b_coord = node_ident_coord(&b.node_identity());
    let (_, start) = b.start_find(FindGoal::Coord(b_coord), NOW);
    let from_a = deliver(&mut a, addr(1), addr(2), start);
    let from_b = deliver(&mut b, addr(2), addr(1), from_a);
    let from_a = deliver(&mut a, addr(1), addr(2), from_b);
    assert!(sends(from_a).is_empty());
    (a, b)
}

#[test]
fn single_node_bootstrap() {
    let mut a = NodeCore::new(secret(), &vec![]);
    assert_eq!(a.health_detail().responsive_neighbors, 0);
    let (user, _) = BackedIdentityLocal::new();
    let goal = FindGoal::Identity(user);
    let (existing, actions) = a.start_find(goal, NOW);
    assert!(!existing);
    assert_eq!(actions.len(), 1);
    let req_id = match actions[0] {
        Action::FindTimeout { req_id, .. } => req_id,
        _ => panic!("expected a timeout"),
    };
    assert!(a.find_timeout(goal, req_id, NOW + 4_999).is_empty());
    let done = a.find_timeout(goal, req_id, NOW + 5_000);
    match &done[0] {
        Action::FindDone { nearest, value, .. } => {
            assert_eq!(nearest.len(), 1);
            assert!(matches!(nearest[0].node, NearestNode::Self_));
            assert!(value.is_none());
        },
        _ => panic!("expected the find to end"),
    }
    assert_eq!(a.health_detail().active_finds, 0);
}

#[test]
fn coalesced_find_starts_once() {
    let mut a = NodeCore::new(secret(), &vec![]);
    let (user, _) = BackedIdentityLocal::new();
    let (first, _) = a.start_find(FindGoal::Identity(user), NOW);
    let (second, actions) = a.start_find(FindGoal::Identity(user), NOW);
    assert!(!first);
    assert!(second);
    assert!(actions.is_empty());
    assert_eq!(a.health_detail().active_finds, 1);
}

#[test]
fn two_node_join() {
    let (a, b) = joined();
    assert_eq!(a.health_detail().responsive_neighbors, 1);
    assert_eq!(b.health_detail().responsive_neighbors, 1);
    assert_eq!(a.health_detail().active_challenges, 0);
    assert_eq!(b.health_detail().active_finds, 0);
}

#[test]
fn publish_and_resolve() {
    let (mut a, mut b) = joined();
    let (user, user_secret) = BackedIdentityLocal::new();
    let mut message = NOW.to_be_bytes().to_vec();
    message.extend_from_slice(b"publisher at 10.0.0.1");
    let signature = user_secret.sign(&message);
    let ann = Announcement { message: message.clone(), signature: signature.clone() };
    let stored = a.handle(Message::Store(StoreRequest { key: user, value: ann }), addr(9), NOW).unwrap();
    assert!(stored.is_empty());
    let (_, start) = b.start_find(FindGoal::Identity(user), NOW);
    let from_a = deliver(&mut a, addr(1), addr(2), start);
    let done = deliver(&mut b, addr(2), addr(1), from_a);
    let value = done
        .into_iter()
        .find_map(|x| match x {
            Action::FindDone { value, .. } => Some(value),
            _ => None,
        })
        .expect("the find ends");
    let value = value.expect("the announcement is found");
    assert_eq!(value.message, message);
    assert_eq!(value.signature, signature);
}

#[test]
fn stale_announcement_rejection() {
    let (mut a, _) = joined();
    let (user, user_secret) = BackedIdentityLocal::new();
    let message = (NOW + 2 * 60 * 1000).to_be_bytes().to_vec();
    let signature = user_secret.sign(&message);
    let r = a.handle(Message::Store(StoreRequest { key: user, value: Announcement { message, signature } }), addr(9), NOW);
    assert!(r.is_err());
    assert!(a.store().get(&user).is_none());
}

#[test]
fn wrong_challenge_ignored() {
    let a_secret = secret();
    let mut a = NodeCore::new(a_secret, &vec![]);
    let a_id = a.node_identity();
    let a_info = NodeInfo { ident: a_id, address: addr(1) };
    let mut c = NodeCore::new(secret(), &vec![a_info]);
    let (target, _) = NodeIdentity::new();
    let goal = FindGoal::Coord(node_ident_coord(&target));
    let (_, start) = c.start_find(goal, NOW);
    let request = match sends(start).pop() {
        Some((_, Message::FindRequest(r))) => r,
        _ => panic!("expected a request to a"),
    };
    let mut flipped = request.challenge.clone();
    flipped[5] ^= 1;
    let forged = FindResponseContent { goal, challenge: flipped, sender: a_id, nodes: vec![], value: None };
    let forged_bytes = forged.to_bytes();
    let signature = a_secret.sign(&forged_bytes);
    assert!(a_id.verify(&forged_bytes, &signature));
    let r = c.handle(
        Message::FindResponse(FindResponse { sender: a_id, message: forged_bytes, signature }),
        addr(1),
        NOW,
    );
    assert!(r.unwrap().is_empty());
    assert_eq!(c.health_detail().active_finds, 1);
    let reply = a.handle(Message::FindRequest(request), addr(3), NOW).unwrap();
    let from_c = deliver(&mut c, addr(3), addr(1), reply);
    assert!(from_c.iter().any(|x| matches!(x, Action::FindDone { .. })));
    assert_eq!(c.health_detail().active_finds, 0);
}

#[test]
fn put_then_get() {
    let (mut a, mut b) = joined();
    let (user, user_secret) = BackedIdentityLocal::new();
    let mut message = NOW.to_be_bytes().to_vec();
    message.extend_from_slice(b"publisher at 10.0.0.2");
    let signature = user_secret.sign(&message);
    let ann = Announcement { message: message.clone(), signature };
    let goal = FindGoal::Identity(user);
    let (_, start) = b.start_find(goal, NOW);
    let from_a = deliver(&mut a, addr(1), addr(2), start);
    let done = deliver(&mut b, addr(2), addr(1), from_a);
    let (nearest, found) = done
        .into_iter()
        .find_map(|x| match x {
            Action::FindDone { nearest, value, .. } => Some((nearest, value)),
            _ => None,
        })
        .expect("the find ends");
    assert!(found.is_none());
    assert_eq!(nearest.len(), 2);
    let stores = b.finish_put(user, &ann, &nearest, &found, NOW);
    assert_eq!(stores.len(), 1);
    assert!(b.store().get(&user).is_some());
    deliver(&mut a, addr(1), addr(2), stores);
    assert_eq!(a.store().get(&user).unwrap().message, message);
    let (_, again) = a.start_find(goal, NOW + 1);
    let from_b = deliver(&mut b, addr(2), addr(1), again);
    let done = deliver(&mut a, addr(1), addr(2), from_b);
    let value = done.into_iter().find_map(|x| match x {
        Action::FindDone { value, .. } => value,
        _ => None,
    });
    assert_eq!(value.expect("found").message, message);
}
