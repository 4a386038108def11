use vstd::prelude::*;
use crate::identity::Identity;
use crate::outside::{
    ed25519_verify,
    ed25519_valid,
};

verus! {

/// Announcements expire this many milliseconds after they were published.
pub const EXPIRY_MS: u64 = 24 * 60 * 60 * 1000;

/// Largest tolerated clock skew on an incoming `published` stamp, in milliseconds.
pub const CLOCK_SKEW_MS: u64 = 60 * 1000;

/// Unsigned big-endian value of a byte string.
pub open spec fn be_value(s: Seq<u8>) -> nat
    decreases s.len(),
{
    if s.len() == 0 {
        0
    } else {
        be_value(s.drop_last()) * 256 + s.last() as nat
    }
}

/// 256 to the power `n`.
pub open spec fn pow256(n: nat) -> nat
    decreases n,
{
    if n == 0 {
        1
    } else {
        256 * pow256((n - 1) as nat)
    }
}

/// The `published` stamp of an announcement body: its first eight bytes, a
/// big-endian count of milliseconds since the Unix epoch. The rest of the body
/// locates the publisher.
pub open spec fn published_of(message: Seq<u8>) -> Option<u64> {
    if message.len() >= 8 {
        Some(be_value(message.take(8)) as u64)
    } else {
        None
    }
}

/// The `published` stamp of an announcement that is signed by `key`, if it is.
pub open spec fn verified_published(key: Seq<u8>, message: Seq<u8>, signature: Seq<u8>) -> Option<u64> {
    if ed25519_valid(key, message, signature) {
        published_of(message)
    } else {
        None
    }
}

/// Whether an announcement published at `published` has expired at `now`.
pub open spec fn expired(published: u64, now: u64) -> bool {
    published + EXPIRY_MS < now
}

proof fn lemma_be_bound(s: Seq<u8>)
    ensures
        be_value(s) < pow256(s.len()),
    decreases s.len(),
{
    if s.len() > 0 {
        lemma_be_bound(s.drop_last());
        let a = be_value(s.drop_last());
        let p = pow256(s.drop_last().len());
        let x = s.last() as nat;
        assert(a * 256 + x < 256 * p) by (nonlinear_arith)
            requires
                a < p,
                x < 256,
        ;
    }
}

/// A signed record naming the publisher of a user identity at a point in time.
#[derive(Clone, Debug)]
pub struct Announcement {
    /// The signed body: the `published` stamp, then the publisher's details.
    pub message: Vec<u8>,
    /// Ed25519 signature of `message` by the identity that it is published under.
    pub signature: Vec<u8>,
}

impl Announcement {
    /// The `published` stamp of the body, if the body is long enough to hold one.
    pub fn published(&self) -> (r: Option<u64>)
        ensures
            r == published_of(self.message@),
    {
        if self.message.len() < 8 {
            return None;
        }
        let mut acc: u64 = 0;
        for i in 0..8
            invariant
                self.message@.len() >= 8,
                acc as nat == be_value(self.message@.take(i as int)),
        {
            proof {
                lemma_be_bound(self.message@.take(i as int));
                assert(self.message@.take(i + 1).drop_last() =~= self.message@.take(i as int));
                let a = acc as nat;
                let p = pow256(i as nat);
                reveal_with_fuel(pow256, 8);
                assert(pow256(7) == 0x100_0000_0000_0000);
                assert(pow256(i as nat) <= pow256(7)) by {
                    lemma_pow_mono(i as nat, 7);
                }
                assert(a * 256 + 255 <= 0xffff_ffff_ffff_ffff) by (nonlinear_arith)
                    requires
                        a < p,
                        p <= pow256(7),
                        pow256(7) == 0x100_0000_0000_0000,
                ;
            }
            acc = acc * 256 + self.message[i] as u64;
        }
        assert(self.message@.take(8) == self.message@.take(8 as int));
        Some(acc)
    }

    /// A copy of this announcement.
    pub fn duplicate(&self) -> (r: Announcement)
        ensures
            r.message@ == self.message@,
            r.signature@ == self.signature@,
    {
        Announcement { message: copy_bytes(&self.message), signature: copy_bytes(&self.signature) }
    }

    /// The `published` stamp, if `key` signed this announcement.
    pub fn verify(&self, key: &Identity) -> (r: Option<u64>)
        ensures
            r == verified_published(key@, self.message@, self.signature@),
    {
        if !ed25519_verify(&key.key, self.message.as_slice(), self.signature.as_slice()) {
            return None;
        }
        self.published()
    }
}

/// A copy of a byte string.
pub fn copy_bytes(v: &Vec<u8>) -> (r: Vec<u8>)
    ensures
        r@ == v@,
{
    let mut out: Vec<u8> = Vec::new();
    for i in 0..v.len()
        invariant
            out@ == v@.take(i as int),
    {
        out.push(v[i]);
        assert(out@ =~= v@.take(i + 1));
    }
    assert(out@ =~= v@);
    out
}

/// The bytes of a 32-byte array, as a vector.
pub fn array_bytes(a: &[u8; 32]) -> (r: Vec<u8>)
    ensures
        r@ == a@,
{
    let mut out: Vec<u8> = Vec::new();
    for i in 0..32
        invariant
            out@ == a@.take(i as int),
    {
        out.push(a[i]);
        assert(out@ =~= a@.take(i + 1));
    }
    assert(out@ =~= a@);
    out
}

proof fn lemma_pow_mono(a: nat, b: nat)
    requires
        a <= b,
    ensures
        pow256(a) <= pow256(b),
    decreases b,
{
    if a < b {
        lemma_pow_mono(a, (b - 1) as nat);
    }
}

} // verus!
