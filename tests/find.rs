use spaghettinuum::coord::coord_lt;
use spaghettinuum::find::{
    FindGoal,
    FindState,
    NearestNode,
};
use spaghettinuum::identity::{
    node_ident_coord,
    NodeIdentity,
};
use spaghettinuum::routing::{
    NodeInfo,
    PeerAddr,
};

const NOW: u64 = 1_700_000_000_000;

fn peers(n: u16) -> Vec<NodeInfo> {
    (0..n)
        .map(|k| NodeInfo { ident: NodeIdentity::new().0, address: PeerAddr::V4 { ip4: 0x0a00_0000 + k as u32, port: 4000 } })
        .collect()
}

#[test]
fn find_sets_stay_bounded_sorted_and_disjoint() {
    let (own, _) = NodeIdentity::new();
    let (target, _) = NodeIdentity::new();
    let goal = FindGoal::Coord(node_ident_coord(&target));
    let (mut st, reqs) = FindState::new(1, goal, own, NOW, &peers(5));
    assert_eq!(reqs.len(), 3);
    assert_eq!(st.outstanding_nodes().len(), 3);
    let fanned = st.consider_candidates(&peers(30));
    assert!(st.outstanding_nodes().len() <= 3);
    assert!(!fanned.is_empty());
    let again = st.consider_candidates(&peers(0));
    assert!(again.is_empty());
    let nearest = st.nearest();
    assert_eq!(nearest.len(), 1);
    assert!(matches!(nearest[0].node, NearestNode::Self_));
    let outstanding = st.outstanding_nodes();
    for w in outstanding.windows(2) {
        let a = spaghettinuum::coord::dist(&node_ident_coord(&w[0].ident), &goal.coord()).1;
        let b = spaghettinuum::coord::dist(&node_ident_coord(&w[1].ident), &goal.coord()).1;
        assert!(coord_lt(&a, &b));
    }
    assert!(!st.is_done());
    assert!(!st.timed_out(1, NOW + 4_999));
    assert!(!st.timed_out(2, NOW + 5_000));
    assert!(st.timed_out(1, NOW + 5_000));
}

#[test]
fn requested_peer_is_not_asked_twice() {
    let (own, _) = NodeIdentity::new();
    let goal = FindGoal::Coord(node_ident_coord(&NodeIdentity::new().0));
    let (mut st, _) = FindState::new(7, goal, own, NOW, &vec![]);
    let candidates = peers(2);
    let first = st.consider_candidates(&candidates);
    assert_eq!(first.len(), 2);
    let second = st.consider_candidates(&candidates);
    assert!(second.is_empty());
}
