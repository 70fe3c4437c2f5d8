//! Verification of stamps against a required difficulty and an optional
//! expiry policy.

use crate::digest::{count_proven_bits, proven_bits};
use crate::error::Error;
use crate::fields::field_count;
use crate::stamp::{Stamp, StampView, FIELD_COUNT};
use crate::wire::{decode, lemma_decode_wire, lemma_field_count, parse, serialize};
use vstd::prelude::*;

verus! {

/// An expiry policy: the verifier's clock and the age, in seconds, up to
/// which a stamp is still accepted.
#[derive(Clone, Copy, Debug, PartialEq, Eq, Structural)]
pub struct Freshness {
    /// The current time, in seconds since the Unix epoch.
    pub now: u64,
    /// The greatest age, in seconds, of a stamp that is not yet expired.
    pub window: u64,
}

/// What verification found of a stamp that could be read and is not expired.
#[derive(Clone, Copy, Debug, PartialEq, Eq, Structural)]
pub enum Verdict {
    /// The stamp claims at least the required difficulty and its digest has
    /// at least as many leading zero bits.
    Valid,
    /// The stamp claims fewer bits than required.
    ClaimTooLow,
    /// The stamp claims enough, but its digest has fewer leading zero bits
    /// than required.
    DigestTooWeak,
}

impl Verdict {
    /// Whether the stamp passed.
    pub fn is_valid(&self) -> (b: bool)
        ensures
            b == (*self == Verdict::Valid),
    {
        match self {
            Verdict::Valid => true,
            _ => false,
        }
    }
}

/// Whether a stamp made at `timestamp` is older than `policy` allows.
/// Without a policy nothing expires; a stamp from the future is not
/// expired.
pub open spec fn is_expired(timestamp: u64, policy: Option<Freshness>) -> bool {
    match policy {
        Some(p) => p.now - timestamp > p.window,
        None => false,
    }
}

/// The judgement on a stamp whose wire form proves `proven` bits: both the
/// claim and the digest must reach `required`.
pub open spec fn judgement(
    s: StampView,
    proven: nat,
    required: u32,
    policy: Option<Freshness>,
) -> Result<Verdict, Error> {
    if is_expired(s.timestamp, policy) {
        Err(Error::Expired)
    } else if s.bits < required {
        Ok(Verdict::ClaimTooLow)
    } else if proven < required {
        Ok(Verdict::DigestTooWeak)
    } else {
        Ok(Verdict::Valid)
    }
}

/// The outcome of verifying `wire`: a parse error if it is no stamp's wire
/// form, else the judgement on the stamp and on the digest of `wire` itself.
pub open spec fn verdict(wire: Seq<u8>, required: u32, policy: Option<Freshness>) -> Result<
    Verdict,
    Error,
> {
    match decode(wire) {
        Some(s) => judgement(s, proven_bits(wire), required, policy),
        None => Err(Error::ParseError),
    }
}

/// A verdict of `Valid` for a difficulty holds for every lower difficulty.
pub proof fn lemma_verdict_monotone(
    wire: Seq<u8>,
    easier: u32,
    harder: u32,
    policy: Option<Freshness>,
)
    requires
        easier <= harder,
        verdict(wire, harder, policy) == Ok::<Verdict, Error>(Verdict::Valid),
    ensures
        verdict(wire, easier, policy) == Ok::<Verdict, Error>(Verdict::Valid),
{
}

/// A stamp that proves its claim is `Valid` for every difficulty up to its
/// claim, under every policy by which it is not expired.
pub proof fn lemma_proven_stamp_verifies(s: StampView, required: u32, policy: Option<Freshness>)
    requires
        s.wf(),
        s.is_proven(),
        required <= s.bits,
        !is_expired(s.timestamp, policy),
    ensures
        verdict(s.wire(), required, policy) == Ok::<Verdict, Error>(Verdict::Valid),
{
    lemma_decode_wire(s);
}

/// Judges a stamp, given the number of leading zero bits in the digest of
/// its wire form.
///
/// Fails with `Expired` exactly when a policy is given and the stamp is
/// older than its window. Otherwise the stamp is `Valid` exactly when both
/// its claimed bits and `proven` are at least `required_bits`.
pub fn judge(stamp: &Stamp, proven: u32, required_bits: u32, policy: Option<Freshness>) -> (r:
    Result<Verdict, Error>)
    ensures
        r == judgement(stamp@, proven as nat, required_bits, policy),
{
    let timestamp = stamp.timestamp();
    match policy {
        Some(p) => {
            if p.now > timestamp && p.now - timestamp > p.window {
                return Err(Error::Expired);
            }
        },
        None => {},
    }
    if stamp.bits() < required_bits {
        Ok(Verdict::ClaimTooLow)
    } else if proven < required_bits {
        Ok(Verdict::DigestTooWeak)
    } else {
        Ok(Verdict::Valid)
    }
}

/// Verifies a wire string against a required difficulty.
///
/// Fails with `ParseError` exactly when `wire` is no stamp's wire form, in
/// particular when it does not have seven fields, and with `Expired` exactly
/// when it is one, a policy is given and the stamp is older than its window.
/// Otherwise the verdict is `Valid` exactly when the stamp claims at least
/// `required_bits` and the SHA-1 digest of `wire` as given starts with at
/// least `required_bits` zero bits.
pub fn verify(wire: &[u8], required_bits: u32, policy: Option<Freshness>) -> (r: Result<
    Verdict,
    Error,
>)
    ensures
        r == verdict(wire@, required_bits, policy),
        field_count(wire@) != FIELD_COUNT ==> r == Err::<Verdict, Error>(Error::ParseError),
        r == Ok::<Verdict, Error>(Verdict::Valid) <==> (decode(wire@) matches Some(s)
            && !is_expired(s.timestamp, policy) && s.bits >= required_bits && proven_bits(wire@)
            >= required_bits),
{
    proof {
        if field_count(wire@) != FIELD_COUNT {
            lemma_field_count(wire@);
        }
    }
    match parse(wire) {
        Ok(stamp) => {
            let proven = count_proven_bits(wire);
            judge(&stamp, proven, required_bits, policy)
        },
        Err(_) => Err(Error::ParseError),
    }
}

/// Verifies a stamp: the same as verifying its wire form.
pub fn verify_stamp(stamp: &Stamp, required_bits: u32, policy: Option<Freshness>) -> (r: Result<
    Verdict,
    Error,
>)
    ensures
        r == verdict(stamp@.wire(), required_bits, policy),
        r == judgement(stamp@, proven_bits(stamp@.wire()), required_bits, policy),
{
    let wire = serialize(stamp);
    let proven = count_proven_bits(wire.as_slice());
    judge(stamp, proven, required_bits, policy)
}

} // verus!
