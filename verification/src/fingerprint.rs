//! Perceptual fingerprints and the distance between two of them.

use vstd::prelude::*;

verus! {

/// Number of bytes in a fingerprint: 64 bits, one for each cell of an 8 by 8 grid.
pub const HASH_BYTES: usize = 8;

/// Number of bits set in a byte.
pub open spec fn bit_count(b: u8) -> nat {
    ((b & 1) + ((b >> 1) & 1) + ((b >> 2) & 1) + ((b >> 3) & 1) + ((b >> 4) & 1) + ((b >> 5) & 1)
        + ((b >> 6) & 1) + ((b >> 7) & 1)) as nat
}

/// Hamming distance of two byte strings: the number of bit positions in which
/// they differ, counted over the bytes that both have.
pub open spec fn hamming(a: Seq<u8>, b: Seq<u8>) -> nat
    decreases a.len(),
{
    if a.len() == 0 || b.len() == 0 {
        0
    } else {
        bit_count(a[0] ^ b[0]) + hamming(a.skip(1), b.skip(1))
    }
}

/// The fingerprint of an image: a bit vector of fixed length, held as bytes.
#[derive(Clone, Copy, Debug, PartialEq, Eq, Hash)]
pub struct ImageHash {
    bytes: [u8; 8],
}

impl View for ImageHash {
    type V = Seq<u8>;

    closed spec fn view(&self) -> Seq<u8> {
        self.bytes@
    }
}

/// Calls `image_hasher::ImageHash::dist` on two hashes made of the given bytes.
/// That method pairs the bytes of the two hashes in order, counts the 1-bits
/// of the XOR of each pair and adds the counts up.
#[verifier::external_body]
fn hamming_distance(a: &[u8; 8], b: &[u8; 8]) -> (d: u32)
    ensures
        d == hamming(a@, b@),
{
    let x = image_hasher::ImageHash::<Box<[u8]>>::from_bytes(a).unwrap();
    let y = image_hasher::ImageHash::<Box<[u8]>>::from_bytes(b).unwrap();
    x.dist(&y)
}

/// The text that stands for the given bytes in Base64: standard alphabet, no
/// padding.
pub uninterp spec fn base64_text(bytes: Seq<u8>) -> Seq<char>;

/// Calls `image_hasher::ImageHash::to_base64` on a hash made of the given
/// bytes, which encodes them in Base64 with the standard alphabet and
/// without padding.
#[verifier::external_body]
fn base64(bytes: &[u8; 8]) -> (text: String)
    ensures
        text@ == base64_text(bytes@),
{
    image_hasher::ImageHash::<Box<[u8]>>::from_bytes(bytes).unwrap().to_base64()
}

impl ImageHash {
    /// Every fingerprint has exactly `HASH_BYTES` bytes.
    pub broadcast proof fn lemma_len(self)
        ensures
            #[trigger] self@.len() == HASH_BYTES,
    {
    }

    /// Makes a fingerprint of the given bytes; `None` unless there are
    /// exactly `HASH_BYTES` of them.
    pub fn from_bytes(bytes: &[u8]) -> (res: Option<ImageHash>)
        ensures
            res is Some <==> bytes@.len() == HASH_BYTES,
            res matches Some(h) ==> h@ == bytes@,
    {
        if bytes.len() != HASH_BYTES {
            return None;
        }
        let mut out: [u8; 8] = [0u8; 8];
        let mut i: usize = 0;
        while i < HASH_BYTES
            invariant
                i <= HASH_BYTES,
                bytes@.len() == HASH_BYTES,
                forall|k: int| 0 <= k < i ==> out@[k] == bytes@[k],
            decreases HASH_BYTES - i,
        {
            out[i] = bytes[i];
            i += 1;
        }
        assert(out@ =~= bytes@);
        Some(ImageHash { bytes: out })
    }

    /// The bytes of this fingerprint.
    pub fn as_bytes(&self) -> (bytes: &[u8])
        ensures
            bytes@ == self@,
    {
        self.bytes.as_slice()
    }

    /// The fingerprint as text, in Base64.
    pub fn to_base64(&self) -> (text: String)
        ensures
            text@ == base64_text(self@),
    {
        base64(&self.bytes)
    }

    /// Whether this fingerprint and `other` have the same bytes.
    pub fn same(&self, other: &ImageHash) -> (same: bool)
        ensures
            same == (self@ == other@),
    {
        let mut i: usize = 0;
        while i < HASH_BYTES
            invariant
                i <= HASH_BYTES,
                forall|k: int| 0 <= k < i ==> self.bytes@[k] == other.bytes@[k],
            decreases HASH_BYTES - i,
        {
            if self.bytes[i] != other.bytes[i] {
                return false;
            }
            i += 1;
        }
        assert(self.bytes@ =~= other.bytes@);
        true
    }

    /// The Hamming distance between this fingerprint and `other`.
    pub fn dist(&self, other: &ImageHash) -> (d: u32)
        ensures
            d == hamming(self@, other@),
    {
        hamming_distance(&self.bytes, &other.bytes)
    }
}

/// A byte XORed with another has no bit set exactly if the two are equal, and
/// the XOR does not depend on the order of the two.
proof fn lemma_xor_bits(x: u8, y: u8)
    ensures
        bit_count(x ^ y) == bit_count(y ^ x),
        bit_count(x ^ y) == 0 <==> x == y,
        bit_count(x ^ y) <= 8,
{
    assert(x ^ y == y ^ x) by (bit_vector);
    let z = x ^ y;
    assert((z & 1) + ((z >> 1) & 1) + ((z >> 2) & 1) + ((z >> 3) & 1) + ((z >> 4) & 1) + ((z >> 5)
        & 1) + ((z >> 6) & 1) + ((z >> 7) & 1) <= 8) by (bit_vector);
    assert(((z & 1) + ((z >> 1) & 1) + ((z >> 2) & 1) + ((z >> 3) & 1) + ((z >> 4) & 1) + ((z >> 5)
        & 1) + ((z >> 6) & 1) + ((z >> 7) & 1) == 0) <==> z == 0) by (bit_vector);
    assert((x ^ y == 0) <==> x == y) by (bit_vector);
}

/// Distance is symmetric: the distance from `a` to `b` is the distance from
/// `b` to `a`.
pub proof fn lemma_hamming_symmetric(a: Seq<u8>, b: Seq<u8>)
    ensures
        hamming(a, b) == hamming(b, a),
    decreases a.len(),
{
    if a.len() != 0 && b.len() != 0 {
        lemma_xor_bits(a[0], b[0]);
        lemma_hamming_symmetric(a.skip(1), b.skip(1));
    }
}

/// Two byte strings of one length are at distance 0 exactly if they are equal.
pub proof fn lemma_hamming_zero(a: Seq<u8>, b: Seq<u8>)
    requires
        a.len() == b.len(),
    ensures
        hamming(a, b) == 0 <==> a == b,
    decreases a.len(),
{
    if a.len() == 0 {
        assert(a =~= b);
    } else {
        lemma_xor_bits(a[0], b[0]);
        lemma_hamming_zero(a.skip(1), b.skip(1));
        if hamming(a, b) == 0 {
            assert(a.skip(1) == b.skip(1));
            assert forall|i: int| 0 <= i < a.len() implies a[i] == b[i] by {
                if i > 0 {
                    assert(a[i] == a.skip(1)[i - 1]);
                    assert(b[i] == b.skip(1)[i - 1]);
                }
            }
            assert(a =~= b);
        }
    }
}

/// No distance exceeds the number of bits that the shorter string has.
pub proof fn lemma_hamming_bound(a: Seq<u8>, b: Seq<u8>)
    ensures
        hamming(a, b) <= 8 * a.len(),
        hamming(a, b) <= 8 * b.len(),
    decreases a.len(),
{
    if a.len() != 0 && b.len() != 0 {
        lemma_xor_bits(a[0], b[0]);
        lemma_hamming_bound(a.skip(1), b.skip(1));
    }
}

} // verus!
