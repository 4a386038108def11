//! The node of a Kademlia-style distributed hash table in which self-certifying
//! identities publish signed announcements.
//!
//! - `coord`: 256-bit coordinates, XOR distance and its leading-zero count.
//! - `identity`: node and user identities, their canonical bytes and coordinates.
//! - `announcement`: signed announcements and their `published` stamp.
//! - `routing`: the routing table of peers, one bucket per leading-zero count.
//! - `find`: the state of one iterative find.
//! - `store`: the announcements held for others, with expiry and re-publication.
//! - `wire`: the canonical binary form of every protocol message.
//! - `node`: the node itself, turning datagrams and timeouts into actions.
//! - `outside`: the functions of other crates that the node relies on.
use vstd::prelude::*;

pub mod announcement;
pub mod coord;
pub mod find;
pub mod identity;
pub mod node;
pub mod outside;
pub mod routing;
pub mod store;
pub mod wire;

verus! {

} // verus!
