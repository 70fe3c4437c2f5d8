//! SHA-1 digests and the count of their leading zero bits.

use sha1::Digest;
use vstd::prelude::*;

verus! {

/// Length of a SHA-1 digest in bytes.
pub const DIGEST_LEN: usize = 20;

/// Largest difficulty a stamp can be minted for: the digest length in bits.
pub const MAX_BITS: u32 = 160;

/// The SHA-1 digest of `data`, as computed by the `sha1` crate.
pub uninterp spec fn sha1_digest(data: Seq<u8>) -> Seq<u8>;

/// Calls `sha1::Sha1::digest` (the `Digest::digest` one-shot function) on
/// `data`. The contract names the 20-byte output [`sha1_digest`]; nothing
/// about its value is proved here.
#[verifier::external_body]
pub(crate) fn sha1(data: &[u8]) -> (out: [u8; DIGEST_LEN])
    ensures
        out@ == sha1_digest(data@),
{
    sha1::Sha1::digest(data).into()
}

/// Number of zero bits above the highest set bit of `b`; 8 for zero.
pub open spec fn byte_zero_prefix(b: u8) -> nat {
    if b >= 128 {
        0
    } else if b >= 64 {
        1
    } else if b >= 32 {
        2
    } else if b >= 16 {
        3
    } else if b >= 8 {
        4
    } else if b >= 4 {
        5
    } else if b >= 2 {
        6
    } else if b >= 1 {
        7
    } else {
        8
    }
}

/// Number of zero bits before the first set bit of `bytes`, read from the
/// most significant bit of the first byte; `8 * bytes.len()` if no bit is set.
pub open spec fn zero_prefix(bytes: Seq<u8>) -> nat
    decreases bytes.len(),
{
    if bytes.len() == 0 {
        0
    } else if bytes[0] == 0 {
        8 + zero_prefix(bytes.skip(1))
    } else {
        byte_zero_prefix(bytes[0])
    }
}

/// The work a wire string proves: the zero prefix of its SHA-1 digest.
pub open spec fn proven_bits(wire: Seq<u8>) -> nat {
    zero_prefix(sha1_digest(wire))
}

/// Bit `j` of the byte `b`, where bit 0 is the most significant.
pub open spec fn byte_bit(b: u8, j: int) -> bool
    recommends
        0 <= j < 8,
{
    (b >> ((7 - j) as u8)) & 1 == 1
}

/// Bit `k` of `bytes`, where bit 0 is the most significant bit of the first
/// byte.
pub open spec fn bit(bytes: Seq<u8>, k: int) -> bool
    recommends
        0 <= k < 8 * bytes.len(),
{
    byte_bit(bytes[k / 8], k % 8)
}

/// The bits of a byte before its zero prefix ends are zero, and the bit at
/// which it ends is set.
pub proof fn lemma_byte_zero_prefix(b: u8)
    ensures
        forall|j: int| 0 <= j < byte_zero_prefix(b) ==> !#[trigger] byte_bit(b, j),
        byte_zero_prefix(b) < 8 ==> byte_bit(b, byte_zero_prefix(b) as int),
{
    assert(b >= 128 ==> (b >> 7u8) & 1 == 1) by (bit_vector);
    assert(b < 128 ==> (b >> 7u8) & 1 == 0) by (bit_vector);
    assert(64 <= b < 128 ==> (b >> 6u8) & 1 == 1) by (bit_vector);
    assert(b < 64 ==> (b >> 6u8) & 1 == 0) by (bit_vector);
    assert(32 <= b < 64 ==> (b >> 5u8) & 1 == 1) by (bit_vector);
    assert(b < 32 ==> (b >> 5u8) & 1 == 0) by (bit_vector);
    assert(16 <= b < 32 ==> (b >> 4u8) & 1 == 1) by (bit_vector);
    assert(b < 16 ==> (b >> 4u8) & 1 == 0) by (bit_vector);
    assert(8 <= b < 16 ==> (b >> 3u8) & 1 == 1) by (bit_vector);
    assert(b < 8 ==> (b >> 3u8) & 1 == 0) by (bit_vector);
    assert(4 <= b < 8 ==> (b >> 2u8) & 1 == 1) by (bit_vector);
    assert(b < 4 ==> (b >> 2u8) & 1 == 0) by (bit_vector);
    assert(2 <= b < 4 ==> (b >> 1u8) & 1 == 1) by (bit_vector);
    assert(b < 2 ==> (b >> 1u8) & 1 == 0) by (bit_vector);
    assert(b == 1 ==> (b >> 0u8) & 1 == 1) by (bit_vector);
    assert(b == 0 ==> (b >> 0u8) & 1 == 0) by (bit_vector);
    assert forall|j: int| 0 <= j < byte_zero_prefix(b) implies !#[trigger] byte_bit(b, j) by {
        assert(j == 0 || j == 1 || j == 2 || j == 3 || j == 4 || j == 5 || j == 6 || j == 7);
    }
}

/// The zero prefix is the place of the first set bit: every bit before it
/// is zero, and unless it runs to the end, the bit at it is set.
pub proof fn lemma_zero_prefix_is_first_set_bit(bytes: Seq<u8>)
    ensures
        forall|k: int| 0 <= k < zero_prefix(bytes) ==> !#[trigger] bit(bytes, k),
        zero_prefix(bytes) < 8 * bytes.len() ==> bit(bytes, zero_prefix(bytes) as int),
    decreases bytes.len(),
{
    if bytes.len() > 0 {
        let rest = bytes.skip(1);
        lemma_byte_zero_prefix(bytes[0]);
        lemma_zero_prefix_bound(bytes);
        if bytes[0] == 0 {
            lemma_zero_prefix_is_first_set_bit(rest);
            lemma_zero_prefix_bound(rest);
            assert forall|k: int| 0 <= k < zero_prefix(bytes) implies !#[trigger] bit(
                bytes,
                k,
            ) by {
                if k < 8 {
                    assert(k / 8 == 0 && k % 8 == k);
                    assert(!byte_bit(bytes[0], k));
                } else {
                    assert((k - 8) / 8 == k / 8 - 1 && (k - 8) % 8 == k % 8);
                    assert(rest[(k - 8) / 8] == bytes[k / 8]);
                    assert(!bit(rest, k - 8));
                }
            }
            if zero_prefix(bytes) < 8 * bytes.len() {
                let k = zero_prefix(bytes) as int;
                assert((k - 8) / 8 == k / 8 - 1 && (k - 8) % 8 == k % 8);
                assert(rest[(k - 8) / 8] == bytes[k / 8]);
                assert(bit(rest, k - 8));
            }
        } else {
            assert forall|k: int| 0 <= k < zero_prefix(bytes) implies !#[trigger] bit(
                bytes,
                k,
            ) by {
                assert(k / 8 == 0 && k % 8 == k);
                assert(!byte_bit(bytes[0], k));
            }
            let k = zero_prefix(bytes) as int;
            assert(k / 8 == 0 && k % 8 == k);
        }
    }
}

/// Whether `n` is the first place in a sequence of digests at which the
/// zero prefix reaches `bits`.
pub open spec fn first_meeting(digests: spec_fn(nat) -> Seq<u8>, bits: nat, n: nat) -> bool {
    &&& zero_prefix(digests(n)) >= bits
    &&& forall|m: nat| m < n ==> zero_prefix(#[trigger] digests(m)) < bits
}

/// Over one sequence of digests, the search for a higher difficulty ends no
/// earlier than the search for a lower one.
pub proof fn lemma_search_cost_monotone(
    digests: spec_fn(nat) -> Seq<u8>,
    easier: nat,
    harder: nat,
    a: nat,
    b: nat,
)
    requires
        easier <= harder,
        first_meeting(digests, easier, a),
        first_meeting(digests, harder, b),
    ensures
        a <= b,
{
    if b < a {
        assert(zero_prefix(digests(b)) < easier);
    }
}

/// A zero prefix never exceeds the number of bits in `bytes`.
pub proof fn lemma_zero_prefix_bound(bytes: Seq<u8>)
    ensures
        zero_prefix(bytes) <= 8 * bytes.len(),
    decreases bytes.len(),
{
    if bytes.len() > 0 && bytes[0] == 0 {
        lemma_zero_prefix_bound(bytes.skip(1));
    }
}

fn byte_leading_zeros(b: u8) -> (n: u32)
    ensures
        n == byte_zero_prefix(b),
{
    if b >= 128 {
        0
    } else if b >= 64 {
        1
    } else if b >= 32 {
        2
    } else if b >= 16 {
        3
    } else if b >= 8 {
        4
    } else if b >= 4 {
        5
    } else if b >= 2 {
        6
    } else if b >= 1 {
        7
    } else {
        8
    }
}

/// Counts the leading zero bits of `bytes`, most significant bit first,
/// stopping at the first set bit. A count that does not fit in 32 bits is
/// given as `u32::MAX`.
pub fn leading_zero_bits(bytes: &[u8]) -> (n: u32)
    ensures
        n == if zero_prefix(bytes@) <= u32::MAX {
            zero_prefix(bytes@)
        } else {
            u32::MAX as nat
        },
{
    let mut i: usize = 0;
    let mut n: u32 = 0;
    assert(bytes@.skip(0) == bytes@);
    while i < bytes.len() && bytes[i] == 0
        invariant
            i <= bytes@.len(),
            n == 8 * i,
            zero_prefix(bytes@) == n + zero_prefix(bytes@.skip(i as int)),
        decreases bytes@.len() - i,
    {
        assert(bytes@.skip(i as int).skip(1) == bytes@.skip(i + 1));
        if n > u32::MAX - 8 {
            return u32::MAX;
        }
        i += 1;
        n += 8;
    }
    if i < bytes.len() {
        n + byte_leading_zeros(bytes[i])
    } else {
        n
    }
}

/// Hashes `wire` with SHA-1 and counts the leading zero bits of the digest.
pub fn count_proven_bits(wire: &[u8]) -> (n: u32)
    ensures
        n == proven_bits(wire@),
        n <= MAX_BITS,
{
    let out = sha1(wire);
    proof {
        lemma_zero_prefix_bound(out@);
    }
    leading_zero_bits(out.as_slice())
}

} // verus!
