use spaghettinuum::announcement::Announcement;
use spaghettinuum::coord::DhtCoord;
use spaghettinuum::find::FindGoal;
use spaghettinuum::identity::{
    BackedIdentityLocal,
    Identity,
    NodeIdentity,
};
use spaghettinuum::routing::{
    NodeInfo,
    PeerAddr,
};
use spaghettinuum::wire::{
    ChallengeResponse,
    FindRequest,
    FindResponse,
    FindResponseContent,
    Message,
    StoreRequest,
};

fn round_trip(m: &Message) -> Message {
    let bytes = m.to_bytes();
    Message::from_bytes(&bytes).expect("decodes")
}

fn ann() -> Announcement {
    Announcement { message: vec![0, 0, 1, 2, 3, 4, 5, 6, 9, 9], signature: vec![7; 64] }
}

#[test]
fn find_request_round_trip() {
    let (id, _) = NodeIdentity::new();
    let m = Message::FindRequest(FindRequest {
        sender: id,
        challenge: vec![1; 32],
        goal: FindGoal::Coord(DhtCoord([5; 32])),
    });
    match round_trip(&m) {
        Message::FindRequest(r) => {
            assert_eq!(r.sender, id);
            assert_eq!(r.challenge, vec![1; 32]);
            assert!(matches!(r.goal, FindGoal::Coord(c) if c.0 == [5; 32]));
        },
        other => panic!("{:?}", other),
    }
}

#[test]
fn find_response_round_trip() {
    let (id, _) = NodeIdentity::new();
    let m = Message::FindResponse(FindResponse { sender: id, message: vec![1, 2, 3], signature: vec![4; 64] });
    match round_trip(&m) {
        Message::FindResponse(r) => {
            assert_eq!(r.sender, id);
            assert_eq!(r.message, vec![1, 2, 3]);
            assert_eq!(r.signature, vec![4; 64]);
        },
        other => panic!("{:?}", other),
    }
}

#[test]
fn store_round_trip() {
    let (user, _) = BackedIdentityLocal::new();
    let m = Message::Store(StoreRequest { key: user, value: ann() });
    match round_trip(&m) {
        Message::Store(r) => {
            assert_eq!(r.key, user);
            assert_eq!(r.value.message, ann().message);
            assert_eq!(r.value.signature, ann().signature);
        },
        other => panic!("{:?}", other),
    }
}

#[test]
fn small_messages_round_trip() {
    let (id, _) = NodeIdentity::new();
    assert!(matches!(round_trip(&Message::Ping), Message::Ping));
    assert!(matches!(round_trip(&Message::Pung(id)), Message::Pung(x) if x == id));
    assert!(matches!(round_trip(&Message::Challenge(vec![9; 32])), Message::Challenge(c) if c == vec![9; 32]));
    let m = Message::ChallengeResponse(ChallengeResponse { sender: id, signature: vec![3; 64] });
    match round_trip(&m) {
        Message::ChallengeResponse(r) => {
            assert_eq!(r.sender, id);
            assert_eq!(r.signature, vec![3; 64]);
        },
        other => panic!("{:?}", other),
    }
}

#[test]
fn ping_bytes_are_exact() {
    assert_eq!(Message::Ping.to_bytes(), vec![0, 0, 0, 0, 3, 0, 0, 0]);
}

#[test]
fn truncated_and_padded_datagrams_are_refused() {
    let (id, _) = NodeIdentity::new();
    let bytes = Message::Pung(id).to_bytes();
    assert!(Message::from_bytes(&bytes[..bytes.len() - 1]).is_none());
    let mut longer = bytes.clone();
    longer.push(0);
    assert!(Message::from_bytes(&longer).is_none());
    assert!(Message::from_bytes(&[0, 0, 0, 0, 9, 0, 0, 0]).is_none());
    assert!(Message::from_bytes(&[]).is_none());
}

#[test]
fn content_round_trip() {
    let (id, _) = NodeIdentity::new();
    let (peer, _) = NodeIdentity::new();
    let (user, _) = BackedIdentityLocal::new();
    let c = FindResponseContent {
        goal: FindGoal::Identity(user),
        challenge: vec![2; 32],
        sender: id,
        nodes: vec![
            NodeInfo { ident: peer, address: PeerAddr::V4 { ip4: 0x0a00_0001, port: 43890 } },
            NodeInfo { ident: id, address: PeerAddr::V6 { ip6: 1, port: 7 } },
        ],
        value: Some(ann()),
    };
    let back = FindResponseContent::from_bytes(&c.to_bytes()).expect("decodes");
    assert!(matches!(back.goal, FindGoal::Identity(u) if u == user));
    assert_eq!(back.challenge, vec![2; 32]);
    assert_eq!(back.sender, id);
    assert_eq!(back.nodes.len(), 2);
    assert_eq!(back.nodes[0].ident, peer);
    assert_eq!(back.nodes[0].address, PeerAddr::V4 { ip4: 0x0a00_0001, port: 43890 });
    assert_eq!(back.nodes[1].address, PeerAddr::V6 { ip6: 1, port: 7 });
    assert_eq!(back.value.unwrap().message, ann().message);
}

#[test]
fn sha256_digest_of_abc() {
    let h = spaghettinuum::wire::Hash::new(b"abc");
    assert_eq!(
        h.0,
        [
            0xba, 0x78, 0x16, 0xbf, 0x8f, 0x01, 0xcf, 0xea, 0x41, 0x41, 0x40, 0xde, 0x5d, 0xae, 0x22, 0x23, 0xb0, 0x03,
            0x61, 0xa3, 0x96, 0x17, 0x7a, 0x9c, 0xb4, 0x10, 0xff, 0x61, 0xf2, 0x00, 0x15, 0xad,
        ]
    );
}

#[test]
fn signatures_verify_only_for_their_message() {
    let (user, secret) = BackedIdentityLocal::new();
    let sig = secret.sign(b"hello");
    assert_eq!(sig.len(), 64);
    assert!(user.verify(b"hello", &sig));
    assert!(!user.verify(b"hellp", &sig));
    let (other, _) = BackedIdentityLocal::new();
    assert!(!other.verify(b"hello", &sig));
    assert_eq!(secret.identity(), user);
    let again: Identity = secret.identity();
    assert_eq!(again, user);
}

fn unhex(s: &str) -> Vec<u8> {
    (0..s.len() / 2).map(|i| u8::from_str_radix(&s[2 * i..2 * i + 2], 16).unwrap()).collect()
}

#[test]
fn ed25519_known_answer() {
    let mut key = [0u8; 32];
    key.copy_from_slice(&unhex("9d61b19deffd5a60ba844af492ec2cc44449c5697b326919703bac031cae7f60"));
    let local = BackedIdentityLocal::V1(spaghettinuum::identity::LocalIdentitySecret { key });
    assert_eq!(local.identity().key.to_vec(), unhex("d75a980182b10ab7d54bfed3c964073a0ee172f3daa62325af021a68f707511a"));
    let sig = local.sign(b"");
    assert_eq!(
        sig,
        unhex(
            "e5564300c360ac729086e2cc806e828a84877f1eb8e5d974d873e065224901555fb8821590a33bacc61e39701cf9b46bd25bf5f0595bbe24655141438e7a100b"
        )
    );
    let node = spaghettinuum::identity::NodeSecret { key };
    assert_eq!(node.get_identity().key, local.identity().key);
    assert!(node.get_identity().verify(b"", &sig));
}
