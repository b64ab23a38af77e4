//! Node identifiers and the XOR metric of the key space.
use vstd::prelude::*;

verus! {

broadcast use vstd::std_specs::bits::axiom_u8_leading_zeros;

/// Number of bytes in a node identifier.
pub const ID_BYTES: usize = 20;

/// Number of bits in a node identifier.
pub const ID_BITS: usize = 160;

/// Bytewise XOR of two equal-length byte sequences.
pub open spec fn xor_bytes(a: Seq<u8>, b: Seq<u8>) -> Seq<u8> {
    Seq::new(a.len(), |i: int| a[i] ^ b[i])
}

/// Bytewise XOR of two equal-length identifier slices.
pub fn compute_distance(node_id1: &[u8], node_id2: &[u8]) -> (r: Vec<u8>)
    requires
        node_id1@.len() == node_id2@.len(),
    ensures
        r@ == xor_bytes(node_id1@, node_id2@),
{
    let mut out: Vec<u8> = Vec::new();
    let n = node_id1.len();
    let mut i: usize = 0;
    while i < n
        invariant
            n == node_id1@.len(),
            n == node_id2@.len(),
            i <= n,
            out@.len() == i,
            forall|j: int| 0 <= j < i ==> out@[j] == (node_id1@[j] ^ node_id2@[j]),
        decreases n - i,
    {
        out.push(node_id1[i] ^ node_id2[i]);
        i = i + 1;
    }
    assert(out@ =~= xor_bytes(node_id1@, node_id2@));
    out
}

/// XOR of an identifier with itself is the zero distance.
pub proof fn lemma_xor_self_is_zero(a: Seq<u8>)
    ensures
        forall|i: int| 0 <= i < a.len() ==> xor_bytes(a, a)[i] == 0u8,
{
    assert forall|i: int| 0 <= i < a.len() implies xor_bytes(a, a)[i] == 0u8 by {
        let x = a[i];
        assert((x ^ x) == 0u8) by (bit_vector);
    }
}

/// The XOR distance is symmetric.
pub proof fn lemma_xor_symmetric(a: Seq<u8>, b: Seq<u8>)
    requires
        a.len() == b.len(),
    ensures
        xor_bytes(a, b) =~= xor_bytes(b, a),
{
    assert forall|i: int| 0 <= i < a.len() implies xor_bytes(a, b)[i] == xor_bytes(b, a)[i] by {
        let x = a[i];
        let y = b[i];
        assert((x ^ y) == (y ^ x)) by (bit_vector);
    }
}

/// XOR distances compose: d(a,b) XOR d(b,c) equals d(a,c).
pub proof fn lemma_xor_triangle(a: Seq<u8>, b: Seq<u8>, c: Seq<u8>)
    requires
        a.len() == b.len(),
        b.len() == c.len(),
    ensures
        xor_bytes(xor_bytes(a, b), xor_bytes(b, c)) =~= xor_bytes(a, c),
{
    assert forall|i: int| 0 <= i < a.len() implies xor_bytes(xor_bytes(a, b), xor_bytes(b, c))[i]
        == xor_bytes(a, c)[i] by {
        let x = a[i];
        let y = b[i];
        let z = c[i];
        assert(((x ^ y) ^ (y ^ z)) == (x ^ z)) by (bit_vector);
    }
}

/// 160-bit node identifier for the Kademlia-style network.
#[derive(Clone, Copy, Debug, PartialEq, Eq, Hash)]
pub struct NodeID(pub [u8; 20]);

impl NodeID {
    /// The identifier's bytes as a sequence.
    pub open spec fn view(self) -> Seq<u8> {
        self.0@
    }

    /// Wrap twenty raw bytes as a node identifier.
    pub fn new(id: [u8; 20]) -> (r: Self)
        ensures
            r@ == id@,
    {
        NodeID(id)
    }

    /// Byte equality of identifiers.
    pub fn equals(&self, other: &NodeID) -> (r: bool)
        ensures
            r == (self@ =~= other@),
    {
        let mut i: usize = 0;
        while i < 20
            invariant
                i <= 20,
                forall|j: int| 0 <= j < i ==> self.0@[j] == other.0@[j],
            decreases 20 - i,
        {
            if self.0[i] != other.0[i] {
                return false;
            }
            i = i + 1;
        }
        true
    }

    /// XOR distance to another identifier.
    pub fn distance_to(&self, other: &NodeID) -> (r: [u8; 20])
        ensures
            r@ == xor_bytes(self@, other@),
    {
        let dist_vec = compute_distance(self.0.as_slice(), other.0.as_slice());
        let mut res = [0u8; 20];
        let mut i: usize = 0;
        while i < 20
            invariant
                dist_vec@ == xor_bytes(self.0@, other.0@),
                i <= 20,
                forall|j: int| 0 <= j < i ==> res@[j] == dist_vec@[j],
            decreases 20 - i,
        {
            res[i] = dist_vec[i];
            i = i + 1;
        }
        assert(res@ =~= xor_bytes(self@, other@));
        res
    }
}

/// Number of leading zero bits of a byte sequence read most-significant first.
pub open spec fn leading_zeros_of(d: Seq<u8>) -> int
    decreases d.len(),
{
    if d.len() == 0 {
        0
    } else if d[0] != 0 {
        vstd::std_specs::bits::u8_leading_zeros(d[0]) as int
    } else {
        8 + leading_zeros_of(d.drop_first())
    }
}

proof fn lemma_leading_zeros_bound(d: Seq<u8>)
    ensures
        0 <= leading_zeros_of(d) <= 8 * d.len(),
    decreases d.len(),
{
    if d.len() > 0 && d[0] == 0 {
        lemma_leading_zeros_bound(d.drop_first());
    }
}

/// If the first `k` bytes are zero and byte `k` is not, the count is
/// eight per zero byte plus the leading zeros of byte `k`.
proof fn lemma_leading_zeros_skip(d: Seq<u8>, k: int)
    requires
        0 <= k < d.len(),
        forall|j: int| 0 <= j < k ==> d[j] == 0,
        d[k] != 0,
    ensures
        leading_zeros_of(d) == 8 * k + vstd::std_specs::bits::u8_leading_zeros(d[k]) as int,
    decreases k,
{
    if k > 0 {
        let rest = d.drop_first();
        assert(forall|j: int| 0 <= j < k - 1 ==> rest[j] == 0);
        assert(rest[k - 1] == d[k]);
        lemma_leading_zeros_skip(rest, k - 1);
    }
}

/// If every byte is zero, the count is eight bits per byte.
proof fn lemma_leading_zeros_all_zero(d: Seq<u8>)
    requires
        forall|j: int| 0 <= j < d.len() ==> d[j] == 0,
    ensures
        leading_zeros_of(d) == 8 * d.len(),
    decreases d.len(),
{
    if d.len() > 0 {
        lemma_leading_zeros_all_zero(d.drop_first());
    }
}

/// Count the leading zero bits of a byte slice.
pub fn leading_zero_bits(d: &[u8]) -> (r: usize)
    requires
        8 * d@.len() <= usize::MAX,
    ensures
        r == leading_zeros_of(d@),
{
    let n = d.len();
    let mut i: usize = 0;
    while i < n
        invariant
            n == d@.len(),
            8 * n <= usize::MAX,
            i <= n,
            forall|j: int| 0 <= j < i ==> d@[j] == 0,
        decreases n - i,
    {
        if d[i] != 0 {
            let lz = d[i].leading_zeros();
            proof {
                lemma_leading_zeros_skip(d@, i as int);
            }
            return i * 8 + (lz as usize);
        }
        i = i + 1;
    }
    proof {
        lemma_leading_zeros_all_zero(d@);
    }
    n * 8
}

/// Lexicographic order on byte sequences, most-significant byte first;
/// a proper prefix comes before its extensions, and on equal lengths it
/// is the unsigned integer order.
pub open spec fn lex_le(a: Seq<u8>, b: Seq<u8>) -> bool
    decreases a.len(),
{
    if a.len() == 0 {
        true
    } else if b.len() == 0 {
        false
    } else if a[0] < b[0] {
        true
    } else if b[0] < a[0] {
        false
    } else {
        lex_le(a.drop_first(), b.drop_first())
    }
}

/// The lexicographic order relates every pair of sequences.
pub proof fn lemma_lex_le_total(a: Seq<u8>, b: Seq<u8>)
    ensures
        lex_le(a, b) || lex_le(b, a),
    decreases a.len(),
{
    if a.len() != 0 && b.len() != 0 && a[0] == b[0] {
        lemma_lex_le_total(a.drop_first(), b.drop_first());
    }
}

/// The lexicographic order is transitive.
pub proof fn lemma_lex_le_trans(a: Seq<u8>, b: Seq<u8>, c: Seq<u8>)
    requires
        lex_le(a, b),
        lex_le(b, c),
    ensures
        lex_le(a, c),
    decreases a.len(),
{
    if a.len() != 0 && b.len() != 0 && c.len() != 0 {
        if a[0] == b[0] && b[0] == c[0] {
            lemma_lex_le_trans(a.drop_first(), b.drop_first(), c.drop_first());
        }
    }
}

/// Two sequences each at most the other are equal.
pub proof fn lemma_lex_le_antisymmetric(a: Seq<u8>, b: Seq<u8>)
    requires
        lex_le(a, b),
        lex_le(b, a),
    ensures
        a =~= b,
    decreases a.len(),
{
    if a.len() != 0 && b.len() != 0 {
        lemma_lex_le_antisymmetric(a.drop_first(), b.drop_first());
        assert(a =~= seq![a[0]] + a.drop_first());
        assert(b =~= seq![b[0]] + b.drop_first());
    }
}

/// Compare two byte slices in lexicographic order.
pub fn lex_le_bytes(a: &[u8], b: &[u8]) -> (r: bool)
    ensures
        r == lex_le(a@, b@),
{
    let n = if a.len() < b.len() {
        a.len()
    } else {
        b.len()
    };
    proof {
        assert(a@.subrange(0, a@.len() as int) =~= a@);
        assert(b@.subrange(0, b@.len() as int) =~= b@);
    }
    let mut i: usize = 0;
    while i < n
        invariant
            n == if a@.len() < b@.len() {
                a@.len() as int
            } else {
                b@.len() as int
            },
            i <= n,
            lex_le(a@, b@) == lex_le(
                a@.subrange(i as int, a@.len() as int),
                b@.subrange(i as int, b@.len() as int),
            ),
        decreases n - i,
    {
        let ghost ai = i as int;
        let ghost asub = a@.subrange(ai, a@.len() as int);
        let ghost bsub = b@.subrange(ai, b@.len() as int);
        proof {
            assert(asub[0] == a@[ai]);
            assert(bsub[0] == b@[ai]);
            assert(asub.drop_first() =~= a@.subrange(ai + 1, a@.len() as int));
            assert(bsub.drop_first() =~= b@.subrange(ai + 1, b@.len() as int));
        }
        if a[i] < b[i] {
            return true;
        }
        if b[i] < a[i] {
            return false;
        }
        i = i + 1;
    }
    proof {
        if a@.len() <= b@.len() {
            assert(a@.subrange(n as int, a@.len() as int).len() == 0);
        } else {
            assert(b@.subrange(n as int, b@.len() as int).len() == 0);
            assert(a@.subrange(n as int, a@.len() as int).len() > 0);
        }
    }
    a.len() <= b.len()
}

/// XOR with a fixed sequence is injective: equal distances mean equal
/// identifiers.
pub proof fn lemma_xor_cancel(a: Seq<u8>, b: Seq<u8>, t: Seq<u8>)
    requires
        a.len() == t.len(),
        b.len() == t.len(),
        xor_bytes(a, t) =~= xor_bytes(b, t),
    ensures
        a =~= b,
{
    assert forall|i: int| 0 <= i < a.len() implies a[i] == b[i] by {
        let x = a[i];
        let y = b[i];
        let z = t[i];
        assert(xor_bytes(a, t)[i] == xor_bytes(b, t)[i]);
        assert((x ^ z) == (y ^ z) ==> x == y) by (bit_vector);
    }
}

/// Bucket index of a distance: its leading-zero count, clamped to the
/// last bucket when the distance is zero or the table is shorter.
pub open spec fn spec_bucket_index(local: Seq<u8>, peer: Seq<u8>, bucket_count: int) -> int {
    let lz = leading_zeros_of(xor_bytes(local, peer));
    if lz < bucket_count - 1 {
        lz
    } else {
        bucket_count - 1
    }
}

/// Compute the bucket index of `peer` relative to `local`.
pub fn bucket_index_of(local: &NodeID, peer: &NodeID, bucket_count: usize) -> (r: usize)
    requires
        bucket_count >= 1,
    ensures
        r == spec_bucket_index(local@, peer@, bucket_count as int),
        r < bucket_count,
{
    let dist = compute_distance(local.0.as_slice(), peer.0.as_slice());
    proof {
        lemma_leading_zeros_bound(dist@);
    }
    let lz = leading_zero_bits(dist.as_slice());
    if lz < bucket_count - 1 {
        lz
    } else {
        bucket_count - 1
    }
}

/// An identifier lying in the distance band of bucket `index` around
/// `local`: the first `index` bits are kept, the bit at `index` is
/// flipped, and the bits below it are scrambled with `noise`.
pub fn random_id_for_bucket(local: &NodeID, index: usize, noise: &[u8; 20]) -> (r: NodeID)
    requires
        index < 160,
    ensures
        spec_bucket_index(local@, r@, 160) == index,
{
    let mut id = local.0;
    let byte_index = index / 8;
    let bit_index = (index % 8) as u8;
    let flip: u8 = 0x80u8 >> bit_index;
    proof {
        let bi = bit_index;
        assert(bi < 8 ==> (0x80u8 >> bi) != 0) by (bit_vector);
    }
    id[byte_index] = id[byte_index] ^ flip;
    let mut i: usize = byte_index;
    while i < 20
        invariant
            byte_index == index / 8,
            bit_index == (index % 8) as u8,
            byte_index <= i <= 20,
            flip == 0x80u8 >> bit_index,
            forall|j: int| 0 <= j < byte_index ==> id@[j] == local@[j],
            byte_index < i ==> id@[byte_index as int] == (local@[byte_index as int] ^ flip ^ (
            noise@[byte_index as int] & (vstd::prelude::sub(1u8 << vstd::prelude::sub(7u8, bit_index), 1)))),
            i == byte_index ==> id@[byte_index as int] == (local@[byte_index as int] ^ flip),
        decreases 20 - i,
    {
        let mask: u8 = if i == byte_index {
            proof {
                let bi = bit_index;
                assert(bi < 8 ==> ((1u8 << vstd::prelude::sub(7u8, bi)) >= 1)) by (bit_vector);
            }
            (1u8 << ((7 - bit_index) as u32)) - 1
        } else {
            0xFF
        };
        id[i] = id[i] ^ (noise[i] & mask);
        i = i + 1;
    }
    let r = NodeID(id);
    proof {
        let b = byte_index as int;
        let bi = bit_index;
        let dist = xor_bytes(local@, r@);
        assert forall|j: int| 0 <= j < b implies dist[j] == 0 by {
            let x = local@[j];
            assert((x ^ x) == 0) by (bit_vector);
        }
        let n = noise@[b];
        let l = local@[b];
        let x: u8 = dist[b];
        assert(x == (l ^ (l ^ (0x80u8 >> bi) ^ (n & (vstd::prelude::sub(1u8 << vstd::prelude::sub(7u8, bi), 1))))));
        assert(x != 0 && ((x >> vstd::prelude::sub(7u8, bi)) & 1) == 1) by (bit_vector)
            requires
                bi < 8,
                x == (l ^ (l ^ (0x80u8 >> bi) ^ (n & (vstd::prelude::sub(1u8 << vstd::prelude::sub(7u8, bi), 1))))),
        ;
        let lz = vstd::std_specs::bits::u8_leading_zeros(x);
        assert(0 <= lz < 8);
        let lzv: u8 = lz as u8;
        assert((x >> vstd::prelude::sub(7u8, lzv)) & 1 != 0);
        if lzv < bi {
            assert(((x >> vstd::prelude::sub(7u8, lzv)) & 1) == 0) by (bit_vector)
                requires
                    bi < 8,
                    lzv < bi,
                    x == (l ^ (l ^ (0x80u8 >> bi) ^ (n & (vstd::prelude::sub(1u8 << vstd::prelude::sub(7u8, bi), 1))))),
            ;
        }
        if lzv > bi {
            assert(8 - lz <= vstd::prelude::sub(7u8, bi) < 8);
            assert((x >> vstd::prelude::sub(7u8, bi)) & 1 == 0);
        }
        assert(lzv == bi);
        lemma_leading_zeros_skip(dist, b);
        assert(leading_zeros_of(dist) == 8 * b + bi);
        assert(8 * b + bi == index);
    }
    r
}

} // verus!
