//! Perceptual fingerprints and the similarity of two of them.

use vstd::prelude::*;

verus! {

/// The longest fingerprint the library takes, in bytes: the number of its
/// bits still fits a `u32`.
pub const MAX_FINGERPRINT_BYTES: usize = 0x1fff_ffff;

/// The number of one bits in a byte.
pub open spec fn bit_count(x: u8) -> nat {
    ((x & 1) + ((x >> 1) & 1) + ((x >> 2) & 1) + ((x >> 3) & 1) + ((x >> 4) & 1) + ((x >> 5) & 1) + ((x
        >> 6) & 1) + ((x >> 7) & 1)) as nat
}

/// The number of bits in which the first `n` bytes of `a` and `b` differ.
pub open spec fn differing_bits(a: Seq<u8>, b: Seq<u8>, n: nat) -> nat
    decreases n,
{
    if n == 0 {
        0
    } else {
        differing_bits(a, b, (n - 1) as nat) + bit_count(a[n - 1] ^ b[n - 1])
    }
}

/// The Hamming distance of two bit vectors: the number of one bits in their
/// exclusive or, taken over the bytes that both have.
pub open spec fn hamming(a: Seq<u8>, b: Seq<u8>) -> nat {
    differing_bits(a, b, if a.len() <= b.len() { a.len() } else { b.len() })
}

/// The number of one bits in a byte.
pub fn count_ones(x: u8) -> (ones: u32)
    ensures
        ones == bit_count(x),
        ones <= 8,
{
    assert((x & 1) <= 1 && ((x >> 1) & 1) <= 1 && ((x >> 2) & 1) <= 1 && ((x >> 3) & 1) <= 1 && ((x >> 4)
        & 1) <= 1 && ((x >> 5) & 1) <= 1 && ((x >> 6) & 1) <= 1 && ((x >> 7) & 1) <= 1) by (bit_vector);
    let low: u8 = (x & 1) + ((x >> 1) & 1) + ((x >> 2) & 1) + ((x >> 3) & 1);
    let high: u8 = ((x >> 4) & 1) + ((x >> 5) & 1) + ((x >> 6) & 1) + ((x >> 7) & 1);
    (low + high) as u32
}

/// The distance does not depend on the order of the two fingerprints.
pub proof fn lemma_differing_bits_symmetric(a: Seq<u8>, b: Seq<u8>, n: nat)
    ensures
        differing_bits(a, b, n) == differing_bits(b, a, n),
    decreases n,
{
    if n > 0 {
        lemma_differing_bits_symmetric(a, b, (n - 1) as nat);
        let x = a[n - 1];
        let y = b[n - 1];
        assert(x ^ y == y ^ x) by (bit_vector);
    }
}

/// A fingerprint differs from itself in no bit.
pub proof fn lemma_differing_bits_same(a: Seq<u8>, n: nat)
    ensures
        differing_bits(a, a, n) == 0,
    decreases n,
{
    if n > 0 {
        lemma_differing_bits_same(a, (n - 1) as nat);
        let x = a[n - 1];
        let z = x ^ x;
        assert((z & 1) == 0 && ((z >> 1) & 1) == 0 && ((z >> 2) & 1) == 0 && ((z >> 3) & 1) == 0 && ((z
            >> 4) & 1) == 0 && ((z >> 5) & 1) == 0 && ((z >> 6) & 1) == 0 && ((z >> 7) & 1) == 0)
            by (bit_vector)
            requires
                z == x ^ x,
        ;
    }
}

/// Each byte contributes at most eight differing bits.
pub proof fn lemma_differing_bits_bound(a: Seq<u8>, b: Seq<u8>, n: nat)
    ensures
        differing_bits(a, b, n) <= 8 * n,
    decreases n,
{
    if n > 0 {
        lemma_differing_bits_bound(a, b, (n - 1) as nat);
        let x = a[n - 1] ^ b[n - 1];
        assert((x & 1) <= 1 && ((x >> 1) & 1) <= 1 && ((x >> 2) & 1) <= 1 && ((x >> 3) & 1) <= 1 && ((x
            >> 4) & 1) <= 1 && ((x >> 5) & 1) <= 1 && ((x >> 6) & 1) <= 1 && ((x >> 7) & 1) <= 1)
            by (bit_vector);
    }
}

/// How alike two fingerprints are: `distance` of their `bits` bits differ,
/// so the score is `1 - distance / bits`, and 1 where there are no bits.
#[derive(Debug, Clone, Copy, PartialEq, Eq, Structural)]
pub struct SimilarityScore {
    /// The Hamming distance of the two fingerprints.
    pub distance: u32,
    /// The number of bits of the first fingerprint.
    pub bits: u32,
}

impl SimilarityScore {
    /// Whether the score is 1: the fingerprints differ in no bit.
    pub open spec fn is_one(&self) -> bool {
        self.distance == 0
    }

    /// Whether the score is at least `percent` hundredths:
    /// `1 - distance / bits >= percent / 100`.
    pub open spec fn reaches(&self, percent: u32) -> bool {
        if self.bits == 0 {
            percent <= 100
        } else {
            100 * (self.bits - self.distance) >= percent * self.bits
        }
    }

    /// Whether the score is at least `percent` hundredths.
    pub fn meets(&self, percent: u32) -> (enough: bool)
        ensures
            enough == self.reaches(percent),
    {
        if self.bits == 0 {
            percent <= 100
        } else if percent > 100 || self.distance > self.bits {
            proof {
                let (p, t, d) = (percent as int, self.bits as int, self.distance as int);
                assert(100 * (t - d) < p * t) by (nonlinear_arith)
                    requires
                        t > 0,
                        d >= 0,
                        p > 100 || d > t,
                        p >= 0,
                ;
            }
            false
        } else {
            let left: u64 = 100 * ((self.bits - self.distance) as u64);
            assert(percent * self.bits <= 100 * 0xffff_ffff) by (nonlinear_arith)
                requires
                    percent <= 100,
                    self.bits <= 0xffff_ffff,
            ;
            let right: u64 = (percent as u64) * (self.bits as u64);
            left >= right
        }
    }
}

/// The perceptual fingerprint of an image: a bit vector, eight bits to the byte.
#[derive(Debug)]
pub struct Fingerprint {
    bits: Vec<u8>,
}

impl View for Fingerprint {
    type V = Seq<u8>;

    closed spec fn view(&self) -> Seq<u8> {
        self.bits@
    }
}

impl Fingerprint {
    #[verifier::type_invariant]
    spec fn within_limit(&self) -> bool {
        self.bits.len() <= MAX_FINGERPRINT_BYTES
    }

    /// Takes the bytes of a fingerprint, unless they are more than
    /// `MAX_FINGERPRINT_BYTES`.
    pub fn new(bits: Vec<u8>) -> (fingerprint: Option<Fingerprint>)
        ensures
            fingerprint.is_some() <==> bits.len() <= MAX_FINGERPRINT_BYTES,
            fingerprint matches Some(f) ==> f@ == bits@,
    {
        if bits.len() <= MAX_FINGERPRINT_BYTES {
            Some(Fingerprint { bits })
        } else {
            None
        }
    }

    /// The bytes of the fingerprint.
    pub fn as_bytes(&self) -> (bytes: &[u8])
        ensures
            bytes@ == self@,
            bytes@.len() <= MAX_FINGERPRINT_BYTES,
    {
        proof {
            use_type_invariant(self);
        }
        self.bits.as_slice()
    }

    /// The Hamming distance to `other`.
    pub fn dist(&self, other: &Fingerprint) -> (distance: u32)
        ensures
            distance == hamming(self@, other@),
            distance <= 8 * self@.len(),
            distance <= 8 * other@.len(),
    {
        proof {
            use_type_invariant(self);
            use_type_invariant(other);
        }
        let n = if self.bits.len() <= other.bits.len() {
            self.bits.len()
        } else {
            other.bits.len()
        };
        let mut distance: u32 = 0;
        let mut i: usize = 0;
        while i < n
            invariant
                i <= n,
                n <= self.bits.len(),
                n <= other.bits.len(),
                n <= MAX_FINGERPRINT_BYTES,
                distance == differing_bits(self.bits@, other.bits@, i as nat),
                distance <= 8 * i,
            decreases n - i,
        {
            let ones = count_ones(self.bits[i] ^ other.bits[i]);
            distance = distance + ones;
            i += 1;
        }
        distance
    }

    /// How alike this fingerprint and `other` are: their Hamming distance
    /// against the number of bits of this one.
    pub fn similarity(&self, other: &Fingerprint) -> (score: SimilarityScore)
        ensures
            score == similarity_of(self@, other@),
            score.distance <= score.bits,
    {
        proof {
            use_type_invariant(self);
        }
        let distance = self.dist(other);
        let bits = (self.bits.len() * 8) as u32;
        SimilarityScore { distance, bits }
    }
}

/// The similarity of two fingerprints.
pub open spec fn similarity_of(a: Seq<u8>, b: Seq<u8>) -> SimilarityScore {
    SimilarityScore { distance: hamming(a, b) as u32, bits: (8 * a.len()) as u32 }
}

/// The similarity of two fingerprints of one length does not depend on
/// their order.
pub proof fn lemma_similarity_symmetric(a: Seq<u8>, b: Seq<u8>)
    requires
        a.len() == b.len(),
    ensures
        similarity_of(a, b) == similarity_of(b, a),
{
    lemma_differing_bits_symmetric(a, b, a.len());
}

/// Identical fingerprints have a score of 1, which reaches every threshold
/// up to 100 percent.
pub proof fn lemma_similarity_identical(a: Seq<u8>, percent: u32)
    requires
        percent <= 100,
    ensures
        similarity_of(a, a).is_one(),
        similarity_of(a, a).reaches(percent),
{
    lemma_differing_bits_same(a, a.len());
    let score = similarity_of(a, a);
    assert(100 * (score.bits - 0) >= percent * score.bits) by (nonlinear_arith)
        requires
            percent <= 100,
            score.bits >= 0,
    ;
}

/// The score lies between 0 and 1: no more bits differ than the first
/// fingerprint has.
pub proof fn lemma_similarity_in_range(a: Seq<u8>, b: Seq<u8>)
    requires
        a.len() <= MAX_FINGERPRINT_BYTES,
    ensures
        similarity_of(a, b).distance <= similarity_of(a, b).bits,
{
    lemma_differing_bits_bound(a, b, if a.len() <= b.len() { a.len() } else { b.len() });
}

} // verus!
