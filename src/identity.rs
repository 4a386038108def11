use vstd::prelude::*;
use crate::coord::DhtCoord;
use crate::outside::{
    sha256,
    sha256_of,
    ed25519_public,
    ed25519_public_of,
    ed25519_sign,
    ed25519_signature_of,
    ed25519_verify,
    ed25519_valid,
    random_bytes32,
};

verus! {

/// Canonical serialization of a version-1 key: the version index as a 4-byte
/// little-endian integer (zero), then the 32 key bytes.
pub open spec fn ident_bytes(key: Seq<u8>) -> Seq<u8> {
    seq![0u8, 0u8, 0u8, 0u8] + key
}

/// The DHT coordinate of an identity: the SHA-256 digest of its canonical bytes.
pub open spec fn coord_of(key: Seq<u8>) -> Seq<u8> {
    sha256_of(ident_bytes(key))
}

fn key_bytes(key: &[u8; 32]) -> (r: Vec<u8>)
    ensures
        r@ == ident_bytes(key@),
{
    let mut out: Vec<u8> = vec![0u8, 0u8, 0u8, 0u8];
    for i in 0..32
        invariant
            out@ == ident_bytes(key@).take(4 + i),
    {
        out.push(key[i]);
        assert(out@ =~= ident_bytes(key@).take(4 + i + 1));
    }
    assert(out@ =~= ident_bytes(key@));
    out
}

fn key_coord(key: &[u8; 32]) -> (r: DhtCoord)
    ensures
        r@ == coord_of(key@),
{
    let bytes = key_bytes(key);
    DhtCoord(sha256(bytes.as_slice()))
}

/// Whether two keys hold the same bytes.
pub fn keys_eq(a: &[u8; 32], b: &[u8; 32]) -> (r: bool)
    ensures
        r == (a@ == b@),
{
    for i in 0..32
        invariant
            forall|j: int| 0 <= j < i ==> a@[j] == b@[j],
    {
        if a[i] != b[i] {
            return false;
        }
    }
    assert(a@ =~= b@);
    true
}

impl PartialEq for NodeIdentity {
    fn eq(&self, o: &NodeIdentity) -> (r: bool) {
        keys_eq(&self.key, &o.key)
    }
}

impl vstd::std_specs::cmp::PartialEqSpecImpl for NodeIdentity {
    open spec fn obeys_eq_spec() -> bool {
        true
    }

    open spec fn eq_spec(&self, o: &NodeIdentity) -> bool {
        self.key@ == o.key@
    }
}

impl PartialEq for Identity {
    fn eq(&self, o: &Identity) -> (r: bool) {
        keys_eq(&self.key, &o.key)
    }
}

impl vstd::std_specs::cmp::PartialEqSpecImpl for Identity {
    open spec fn obeys_eq_spec() -> bool {
        true
    }

    open spec fn eq_spec(&self, o: &Identity) -> bool {
        self.key@ == o.key@
    }
}

/// Public half of a node's Ed25519 keypair.
#[derive(Clone, Copy, Debug, Eq, Hash)]
pub struct NodeIdentity {
    pub key: [u8; 32],
}

/// Secret half of a node's Ed25519 keypair.
#[derive(Clone, Copy, Debug)]
pub struct NodeSecret {
    pub key: [u8; 32],
}

/// A user identity: the Ed25519 public key that announcements are published under.
#[derive(Clone, Copy, Debug, Eq, Hash)]
pub struct Identity {
    pub key: [u8; 32],
}

impl View for NodeIdentity {
    type V = Seq<u8>;

    open spec fn view(&self) -> Seq<u8> {
        self.key@
    }
}

impl View for NodeSecret {
    type V = Seq<u8>;

    open spec fn view(&self) -> Seq<u8> {
        self.key@
    }
}

impl View for Identity {
    type V = Seq<u8>;

    open spec fn view(&self) -> Seq<u8> {
        self.key@
    }
}

impl NodeIdentity {
    /// Generates a fresh keypair from the process-wide random generator.
    pub fn new() -> (r: (NodeIdentity, NodeSecret))
        ensures
            r.0@ == ed25519_public_of(r.1@),
    {
        let secret = NodeSecret { key: random_bytes32() };
        (secret.get_identity(), secret)
    }

    /// Canonical serialization.
    pub fn to_bytes(&self) -> (r: Vec<u8>)
        ensures
            r@ == ident_bytes(self@),
    {
        key_bytes(&self.key)
    }

    /// Whether `signature` signs `message` under this identity.
    pub fn verify(&self, message: &[u8], signature: &[u8]) -> (r: bool)
        ensures
            r == ed25519_valid(self@, message@, signature@),
    {
        ed25519_verify(&self.key, message, signature)
    }
}

impl NodeSecret {
    /// The identity that this secret signs for.
    pub fn get_identity(&self) -> (r: NodeIdentity)
        ensures
            r@ == ed25519_public_of(self@),
    {
        NodeIdentity { key: ed25519_public(&self.key) }
    }

    /// Signs `message`.
    pub fn sign(&self, message: &[u8]) -> (r: Vec<u8>)
        ensures
            r@ == ed25519_signature_of(self@, message@),
            r@.len() == 64,
    {
        ed25519_sign(&self.key, message)
    }
}

impl Identity {
    /// Canonical serialization.
    pub fn to_bytes(&self) -> (r: Vec<u8>)
        ensures
            r@ == ident_bytes(self@),
    {
        key_bytes(&self.key)
    }

    /// Whether `signature` signs `message` under this identity.
    pub fn verify(&self, message: &[u8], signature: &[u8]) -> (r: bool)
        ensures
            r == ed25519_valid(self@, message@, signature@),
    {
        ed25519_verify(&self.key, message, signature)
    }
}

/// Coordinate of a node identity.
pub fn node_ident_coord(x: &NodeIdentity) -> (r: DhtCoord)
    ensures
        r@ == coord_of(x@),
{
    key_coord(&x.key)
}

/// Coordinate of a user identity.
pub fn ident_coord(x: &Identity) -> (r: DhtCoord)
    ensures
        r@ == coord_of(x@),
{
    key_coord(&x.key)
}

/// Where the secret of a user identity is kept.
#[derive(Clone, Debug)]
pub enum BackedIdentityArg {
    /// A file containing a generated key, by its path.
    Local(String),
}

/// Secret of a locally stored user identity.
#[derive(Clone, Copy, Debug)]
pub struct LocalIdentitySecret {
    pub key: [u8; 32],
}

/// A user identity whose secret is held locally.
#[derive(Clone, Copy, Debug)]
pub enum BackedIdentityLocal {
    V1(LocalIdentitySecret),
}

impl BackedIdentityLocal {
    /// The secret key bytes.
    pub open spec fn secret(&self) -> Seq<u8> {
        match self {
            BackedIdentityLocal::V1(s) => s.key@,
        }
    }

    /// Generates a fresh user identity with its secret.
    pub fn new() -> (r: (Identity, Self))
        ensures
            r.0@ == ed25519_public_of(r.1.secret()),
    {
        let secret = BackedIdentityLocal::V1(LocalIdentitySecret { key: random_bytes32() });
        (secret.identity(), secret)
    }

    /// The public identity of this secret.
    pub fn identity(&self) -> (r: Identity)
        ensures
            r@ == ed25519_public_of(self.secret()),
    {
        match self {
            BackedIdentityLocal::V1(s) => Identity { key: ed25519_public(&s.key) },
        }
    }

    /// Signs `message` with this identity's secret.
    pub fn sign(&self, message: &[u8]) -> (r: Vec<u8>)
        ensures
            r@ == ed25519_signature_of(self.secret(), message@),
            r@.len() == 64,
    {
        match self {
            BackedIdentityLocal::V1(s) => ed25519_sign(&s.key, message),
        }
    }
}

} // verus!
