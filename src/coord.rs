use vstd::prelude::*;
use vstd::std_specs::bits::u8_leading_zeros;
use vstd::std_specs::bits::axiom_u8_leading_zeros;

verus! {

/// Number of bits in a coordinate, and so the number of routing buckets.
pub const COORD_BITS: usize = 256;

/// Byte-wise XOR of two sequences of equal length.
pub open spec fn xor_seq(a: Seq<u8>, b: Seq<u8>) -> Seq<u8> {
    Seq::new(a.len(), |i: int| a[i] ^ b[i])
}

/// Number of leading zero bits of `x`, counting from byte `i` on.
pub open spec fn lz_from(x: Seq<u8>, i: int) -> nat
    decreases x.len() - i,
{
    if i < 0 || i >= x.len() {
        0
    } else if x[i] == 0 {
        8 + lz_from(x, i + 1)
    } else {
        u8_leading_zeros(x[i]) as nat
    }
}

/// Number of leading zero bits of a big-endian byte string.
pub open spec fn leading_zeros(x: Seq<u8>) -> nat {
    lz_from(x, 0)
}

/// Unsigned big-endian order: `a` comes strictly before `b`.
pub open spec fn lex_lt(a: Seq<u8>, b: Seq<u8>) -> bool {
    exists|i: int|
        0 <= i < a.len() && i < b.len() && a[i] < b[i] && (forall|j: int|
            0 <= j < i ==> a[j] == b[j])
}

/// A 256-bit position in the DHT keyspace, compared as an unsigned big-endian number.
#[derive(Clone, Copy, Debug)]
pub struct DhtCoord(pub [u8; 32]);

impl View for DhtCoord {
    type V = Seq<u8>;

    open spec fn view(&self) -> Seq<u8> {
        self.0@
    }
}

proof fn lemma_lz_zero_prefix(x: Seq<u8>, i: int)
    requires
        0 <= i <= x.len(),
        forall|j: int| 0 <= j < i ==> x[j] == 0,
    ensures
        lz_from(x, 0) == 8 * i + lz_from(x, i),
    decreases i,
{
    if i > 0 {
        lemma_lz_zero_prefix(x, i - 1);
    }
}

proof fn lemma_lz_bounded(x: Seq<u8>, i: int)
    requires
        0 <= i <= x.len(),
    ensures
        lz_from(x, i) <= 8 * (x.len() - i),
    decreases x.len() - i,
{
    if i < x.len() {
        lemma_lz_bounded(x, i + 1);
        axiom_u8_leading_zeros(x[i]);
    }
}

/// XOR distance of two byte strings of equal length, with the number of leading
/// zero bits of that distance.
pub fn dist_(a: &[u8], b: &[u8]) -> (r: (usize, Vec<u8>))
    requires
        a@.len() == b@.len(),
        a@.len() * 8 <= usize::MAX,
    ensures
        r.1@ == xor_seq(a@, b@),
        r.0 as nat == leading_zeros(xor_seq(a@, b@)),
        r.0 <= 8 * a@.len(),
{
    let ghost x = xor_seq(a@, b@);
    let mut leading: usize = 0;
    let mut first_one = false;
    let mut out: Vec<u8> = Vec::new();
    let n = a.len();
    proof {
        lemma_lz_bounded(x, 0);
    }
    for i in 0..n
        invariant
            n == a@.len(),
            n == b@.len(),
            n * 8 <= usize::MAX,
            x == xor_seq(a@, b@),
            out@ == x.take(i as int),
            !first_one ==> (forall|j: int| 0 <= j < i ==> x[j] == 0) && leading == 8 * i,
            first_one ==> leading as nat == lz_from(x, 0),
            lz_from(x, 0) <= 8 * n,
    {
        let byte = a[i] ^ b[i];
        out.push(byte);
        if !first_one {
            let byte_leading_zeros = byte.leading_zeros();
            proof {
                axiom_u8_leading_zeros(byte);
                lemma_lz_zero_prefix(x, i as int);
            }
            leading = leading + byte_leading_zeros as usize;
            if byte_leading_zeros < 8 {
                first_one = true;
            }
        }
        assert(out@ =~= x.take(i + 1));
    }
    proof {
        if !first_one {
            lemma_lz_zero_prefix(x, n as int);
        }
        assert(out@ =~= x);
    }
    (leading, out)
}

/// XOR distance between two coordinates, with its number of leading zero bits
/// (the routing bucket of one as seen from the other).
pub fn dist(a: &DhtCoord, b: &DhtCoord) -> (r: (usize, DhtCoord))
    ensures
        r.1@ == xor_seq(a@, b@),
        r.0 as nat == leading_zeros(xor_seq(a@, b@)),
        r.0 <= COORD_BITS,
{
    let (lz, v) = dist_(a.0.as_slice(), b.0.as_slice());
    let mut out = [0u8; 32];
    for i in 0..32
        invariant
            v@.len() == 32,
            forall|j: int| 0 <= j < i ==> out@[j] == v@[j],
    {
        out[i] = v[i];
    }
    assert(out@ =~= v@);
    (lz, DhtCoord(out))
}

/// Whether `a` is strictly smaller than `b` in the coordinate order.
pub fn coord_lt(a: &DhtCoord, b: &DhtCoord) -> (r: bool)
    ensures
        r == lex_lt(a@, b@),
{
    for i in 0..32
        invariant
            forall|j: int| 0 <= j < i ==> a@[j] == b@[j],
    {
        if a.0[i] != b.0[i] {
            let r = a.0[i] < b.0[i];
            proof {
                if !r {
                    assert forall|k: int|
                        0 <= k < 32 && a@[k] < b@[k] implies exists|j: int|
                        0 <= j < k && a@[j] != b@[j] by {
                        if k < i {
                        } else if k > i {
                            assert(a@[i as int] != b@[i as int]);
                        }
                    }
                }
            }
            return r;
        }
    }
    proof {
        assert forall|k: int| 0 <= k < 32 implies !(a@[k] < b@[k]) by {}
    }
    false
}

/// Whether two coordinates are equal.
pub fn coord_eq(a: &DhtCoord, b: &DhtCoord) -> (r: bool)
    ensures
        r == (a@ == b@),
{
    for i in 0..32
        invariant
            forall|j: int| 0 <= j < i ==> a@[j] == b@[j],
    {
        if a.0[i] != b.0[i] {
            return false;
        }
    }
    assert(a@ =~= b@);
    true
}

/// No coordinate is strictly before itself.
pub proof fn lemma_lex_irreflexive(a: Seq<u8>)
    ensures
        !lex_lt(a, a),
{
}

/// The coordinate order is transitive.
pub proof fn lemma_lex_transitive(a: Seq<u8>, b: Seq<u8>, c: Seq<u8>)
    requires
        lex_lt(a, b),
        lex_lt(b, c),
        a.len() == b.len(),
        b.len() == c.len(),
    ensures
        lex_lt(a, c),
{
    let i = choose|i: int|
        0 <= i < a.len() && i < b.len() && a[i] < b[i] && (forall|j: int| 0 <= j < i ==> a[j] == b[j]);
    let k = choose|k: int|
        0 <= k < b.len() && k < c.len() && b[k] < c[k] && (forall|j: int| 0 <= j < k ==> b[j] == c[j]);
    let m = if i < k { i } else { k };
    assert(a[m] < c[m]);
    assert forall|j: int| 0 <= j < m implies a[j] == c[j] by {}
}

proof fn lemma_lex_total_from(a: Seq<u8>, b: Seq<u8>, i: int)
    requires
        a.len() == b.len(),
        0 <= i <= a.len(),
        forall|j: int| 0 <= j < i ==> a[j] == b[j],
    ensures
        lex_lt(a, b) || lex_lt(b, a) || a == b,
    decreases a.len() - i,
{
    if i == a.len() {
        assert(a =~= b);
    } else if a[i] == b[i] {
        lemma_lex_total_from(a, b, i + 1);
    } else if a[i] < b[i] {
        assert(lex_lt(a, b));
    } else {
        assert(lex_lt(b, a));
    }
}

/// Two coordinates of equal length are equal or ordered one way or the other.
pub proof fn lemma_lex_total(a: Seq<u8>, b: Seq<u8>)
    requires
        a.len() == b.len(),
    ensures
        lex_lt(a, b) || lex_lt(b, a) || a == b,
{
    lemma_lex_total_from(a, b, 0);
}

/// The distance from a coordinate to itself is zero, and all of its bits are
/// leading zeros.
pub proof fn lemma_self_distance(a: Seq<u8>)
    ensures
        xor_seq(a, a) == Seq::new(a.len(), |i: int| 0u8),
        leading_zeros(xor_seq(a, a)) == 8 * a.len(),
{
    let x = xor_seq(a, a);
    assert forall|i: int| 0 <= i < a.len() implies x[i] == 0u8 by {
        let v = a[i];
        assert(v ^ v == 0u8) by (bit_vector);
    }
    assert(x =~= Seq::new(a.len(), |i: int| 0u8));
    lemma_lz_zero_prefix(x, a.len() as int);
}

} // verus!
