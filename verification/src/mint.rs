//! Minting: the search for a counter that gives a stamp the work it claims.

use crate::digest::{count_proven_bits, first_meeting, proven_bits, sha1_digest, MAX_BITS};
use crate::error::Error;
use crate::fields::push_bytes;
use crate::stamp::{prefix_text, Stamp, StampView, VERSION};
use crate::token::{
    advance_counter, counter_text, counter_value, is_symbol, is_token, is_token_bytes,
    lemma_counter_value, lemma_successor,
};
use crate::verify::{is_expired, verdict, Freshness, Verdict};
use crate::wire::{lemma_decode_wire, lemma_wire_prefix, write_prefix};
use rand::Rng;
use vstd::prelude::*;
use vstd::slice::slice_to_vec;

verus! {

/// The length of the salt that [`mint`] draws.
pub const SALT_LEN: usize = 16;

/// What a search is given: everything in a stamp but its counter. The
/// extension of a minted stamp is empty.
pub struct Challenge {
    /// The difficulty to reach.
    pub bits: u32,
    /// The creation time to write into the stamp.
    pub timestamp: u64,
    /// The resource to bind the stamp to.
    pub resource: Seq<u8>,
    /// The salt.
    pub salt: Seq<u8>,
}

impl Challenge {
    /// Whether a stamp can be minted for this challenge: the resource is
    /// not empty, the difficulty is at most [`MAX_BITS`], and the salt is a
    /// token.
    pub open spec fn is_valid(self) -> bool {
        &&& self.resource.len() > 0
        &&& self.bits <= MAX_BITS
        &&& is_token(self.salt)
    }

    /// The stamp that the search tries `n`-th, counting from zero: the one
    /// whose counter is the numeral of `n`.
    pub open spec fn candidate(self, n: nat) -> StampView {
        StampView {
            version: VERSION,
            bits: self.bits,
            timestamp: self.timestamp,
            resource: self.resource,
            extension: Seq::empty(),
            salt: self.salt,
            counter: counter_text(n),
        }
    }

    /// Whether the `n`-th candidate proves the work: the digest of its wire
    /// form starts with at least `bits` zero bits.
    pub open spec fn solved_by(self, n: nat) -> bool {
        self.candidate(n).is_proven()
    }

    /// Whether no candidate before the `n`-th proves the work.
    pub open spec fn none_below(self, n: nat) -> bool {
        forall|m: nat| m < n ==> !#[trigger] self.solved_by(m)
    }

    /// Whether the `n`-th candidate is the first that proves the work.
    pub open spec fn first_solution(self, n: nat) -> bool {
        self.solved_by(n) && self.none_below(n)
    }
}

/// What minting yields for a challenge within a budget of hash evaluations:
/// the first candidate that proves the work, if it is among the first
/// `budget` candidates.
pub open spec fn minted(c: Challenge, budget: nat) -> Result<StampView, Error> {
    if !c.is_valid() {
        Err(Error::InvalidInput)
    } else if exists|n: nat| n < budget && #[trigger] c.first_solution(n) {
        Ok(c.candidate(choose|n: nat| n < budget && #[trigger] c.first_solution(n)))
    } else {
        Err(Error::Cancelled)
    }
}

/// The number of candidates a search is expected to try for a difficulty,
/// if digests are spread evenly: two to the power of `bits`. This models the
/// cost of minting; it says nothing of SHA-1.
pub open spec fn expected_attempts(bits: nat) -> nat
    decreases bits,
{
    if bits == 0 {
        1
    } else {
        2 * expected_attempts((bits - 1) as nat)
    }
}

/// The expected cost of minting never falls as the difficulty rises.
pub proof fn lemma_expected_attempts_monotone(easier: nat, harder: nat)
    requires
        easier <= harder,
    ensures
        expected_attempts(easier) <= expected_attempts(harder),
    decreases harder,
{
    if easier < harder {
        lemma_expected_attempts_monotone(easier, (harder - 1) as nat);
    }
}

/// The expected number of hash evaluations for a difficulty, for choosing a
/// budget: two to the power of `bits`, or `u64::MAX` where that is larger.
pub fn estimate_attempts(bits: u32) -> (n: u64)
    ensures
        n == if expected_attempts(bits as nat) <= u64::MAX {
            expected_attempts(bits as nat)
        } else {
            u64::MAX as nat
        },
{
    let mut n: u64 = 1;
    let mut i: u32 = 0;
    while i < bits
        invariant
            i <= bits,
            n == expected_attempts(i as nat),
        decreases bits - i,
    {
        if n > u64::MAX / 2 {
            proof {
                lemma_expected_attempts_monotone((i + 1) as nat, bits as nat);
            }
            return u64::MAX;
        }
        n = n * 2;
        i += 1;
    }
    n
}

/// Whether every byte of `text` is an ASCII letter or digit.
pub open spec fn is_alphanumeric(text: Seq<u8>) -> bool {
    forall|i: int|
        0 <= i < text.len() ==> {
            let c = #[trigger] text[i];
            (65 <= c <= 90) || (97 <= c <= 122) || (48 <= c <= 57)
        }
}

/// The candidates of a valid challenge are well-formed stamps.
pub proof fn lemma_candidate_wf(c: Challenge, n: nat)
    requires
        c.is_valid(),
    ensures
        c.candidate(n).wf(),
{
    lemma_counter_value(n);
}

/// The first solution of a challenge is the first of its candidates'
/// digests that reaches the challenge's bits.
pub proof fn lemma_first_solution_is_first_meeting(c: Challenge, n: nat)
    ensures
        c.first_solution(n) <==> first_meeting(
            |m: nat| sha1_digest(c.candidate(m).wire()),
            c.bits as nat,
            n,
        ),
{
    let digests = |m: nat| sha1_digest(c.candidate(m).wire());
    if c.first_solution(n) {
        assert forall|m: nat| m < n implies crate::digest::zero_prefix(#[trigger] digests(m))
            < c.bits by {
            assert(!c.solved_by(m));
        }
    }
    if first_meeting(digests, c.bits as nat, n) {
        assert forall|m: nat| m < n implies !#[trigger] c.solved_by(m) by {
            assert(crate::digest::zero_prefix(digests(m)) < c.bits);
        }
    }
}

/// A challenge has at most one first solution.
pub proof fn lemma_first_solution_unique(c: Challenge, a: nat, b: nat)
    requires
        c.first_solution(a),
        c.first_solution(b),
    ensures
        a == b,
{
    if a < b {
        assert(!c.solved_by(a));
    }
    if b < a {
        assert(!c.solved_by(b));
    }
}

/// A minted stamp verifies at the difficulty it was minted for: a candidate
/// that proves the work of a valid challenge is `Valid` for the challenge's
/// bits, under every policy by which it is not expired.
pub proof fn lemma_minted_stamp_verifies(c: Challenge, n: nat, policy: Option<Freshness>)
    requires
        c.is_valid(),
        c.solved_by(n),
        !is_expired(c.timestamp, policy),
    ensures
        verdict(c.candidate(n).wire(), c.bits, policy) == Ok::<Verdict, Error>(Verdict::Valid),
{
    lemma_candidate_wf(c, n);
    lemma_decode_wire(c.candidate(n));
}

/// What [`minted`] yields is a well-formed stamp for the challenge that
/// proves its claim and verifies at the challenge's difficulty.
pub proof fn lemma_minted(c: Challenge, budget: nat)
    ensures
        minted(c, budget) matches Ok(s) ==> s.wf() && s.is_proven() && s.bits == c.bits
            && s.timestamp == c.timestamp && s.resource == c.resource && s.salt == c.salt
            && verdict(s.wire(), c.bits, None) == Ok::<Verdict, Error>(Verdict::Valid),
{
    if minted(c, budget) is Ok {
        let n = choose|n: nat| n < budget && #[trigger] c.first_solution(n);
        lemma_minted_stamp_verifies(c, n, None);
        lemma_candidate_wf(c, n);
    }
}

/// A search in progress: a challenge and the counter to try next.
///
/// The search can be run a bounded number of steps at a time, so that the
/// caller can look at a clock or a cancellation flag between runs. The
/// counter is a numeral that grows in width as needed and so never
/// overflows.
pub struct Search {
    bits: u32,
    timestamp: u64,
    resource: Vec<u8>,
    salt: Vec<u8>,
    prefix: Vec<u8>,
    counter: Vec<u8>,
}

impl Search {
    /// The challenge that this search works on.
    pub closed spec fn challenge(&self) -> Challenge {
        Challenge {
            bits: self.bits,
            timestamp: self.timestamp,
            resource: self.resource@,
            salt: self.salt@,
        }
    }

    /// The number of the candidate to try next; every candidate before it
    /// has been tried and found wanting.
    pub closed spec fn position(&self) -> nat {
        counter_value(self.counter@)
    }

    #[verifier::type_invariant]
    spec fn inv(self) -> bool {
        &&& self.challenge().is_valid()
        &&& self.challenge().none_below(self.position())
        &&& self.counter@ == counter_text(self.position())
        &&& self.prefix@ == prefix_text(
            VERSION,
            self.bits,
            self.timestamp,
            self.resource@,
            Seq::empty(),
            self.salt@,
        )
    }

    /// Starts a search at candidate zero.
    ///
    /// Fails with `InvalidInput` exactly when the challenge is not valid:
    /// when `resource` is empty, `bits` exceeds [`MAX_BITS`], or `salt`
    /// holds a byte outside the token alphabet.
    pub fn new(resource: &[u8], bits: u32, now: u64, salt: &[u8]) -> (r: Result<Search, Error>)
        ensures
            r is Ok <==> (Challenge {
                bits,
                timestamp: now,
                resource: resource@,
                salt: salt@,
            }).is_valid(),
            match r {
                Ok(search) => search.position() == 0 && search.challenge() == (
                Challenge { bits, timestamp: now, resource: resource@, salt: salt@ }),
                Err(e) => e == Error::InvalidInput,
            },
    {
        if resource.len() == 0 || bits > MAX_BITS || !is_token_bytes(salt) {
            return Err(Error::InvalidInput);
        }
        let extension: Vec<u8> = Vec::new();
        let prefix = write_prefix(VERSION, bits, now, resource, extension.as_slice(), salt);
        let mut counter: Vec<u8> = Vec::new();
        counter.push(65);
        proof {
            lemma_counter_value(0);
            assert(counter@ =~= counter_text(0));
            assert(extension@ =~= Seq::<u8>::empty());
        }
        Ok(
            Search {
                bits,
                timestamp: now,
                resource: slice_to_vec(resource),
                salt: slice_to_vec(salt),
                prefix,
                counter,
            },
        )
    }

    /// Starts a search at candidate zero with a fresh random salt of
    /// [`SALT_LEN`] letters and digits.
    ///
    /// Fails with `InvalidInput` exactly when `resource` is empty or `bits`
    /// exceeds [`MAX_BITS`].
    pub fn with_random_salt(resource: &[u8], bits: u32, now: u64) -> (r: Result<Search, Error>)
        ensures
            (resource@.len() == 0 || bits > MAX_BITS) <==> r is Err,
            match r {
                Ok(search) => {
                    &&& search.position() == 0
                    &&& search.challenge().bits == bits
                    &&& search.challenge().timestamp == now
                    &&& search.challenge().resource == resource@
                    &&& search.challenge().salt.len() == SALT_LEN
                    &&& is_alphanumeric(search.challenge().salt)
                },
                Err(e) => e == Error::InvalidInput,
            },
    {
        if resource.len() == 0 || bits > MAX_BITS {
            return Err(Error::InvalidInput);
        }
        let salt = random_alphanumeric(SALT_LEN);
        assert(is_token(salt@)) by {
            assert forall|i: int| 0 <= i < salt@.len() implies is_symbol(#[trigger] salt@[i]) by {}
        }
        Search::new(resource, bits, now, salt.as_slice())
    }

    /// Tries up to `budget` candidates, from the search's position on.
    ///
    /// Returns the first candidate that proves the work, if the search
    /// reaches it within `budget` hash evaluations; the search then stays
    /// at that candidate. Returns `None` after `budget` candidates that do
    /// not; the search has then moved on by `budget` and can be advanced
    /// again.
    pub fn advance(&mut self, budget: u64) -> (found: Option<Stamp>)
        ensures
            final(self).challenge() == old(self).challenge(),
            match found {
                Some(stamp) => {
                    &&& stamp@ == old(self).challenge().candidate(final(self).position())
                    &&& old(self).challenge().first_solution(final(self).position())
                    &&& old(self).position() <= final(self).position() < old(self).position()
                        + budget
                },
                None => {
                    &&& final(self).position() == old(self).position() + budget
                    &&& old(self).challenge().none_below(final(self).position())
                },
            },
    {
        let mut tried: u64 = 0;
        while tried < budget
            invariant
                self.challenge() == old(self).challenge(),
                self.position() == old(self).position() + tried,
                tried <= budget,
            decreases budget - tried,
        {
            let ghost c = self.challenge();
            let ghost n = self.position();
            let mut wire: Vec<u8> = slice_to_vec(self.prefix.as_slice());
            push_bytes(&mut wire, self.counter.as_slice());
            proof {
                use_type_invariant(&*self);
                lemma_wire_prefix(c.candidate(n));
                lemma_counter_value(n);
            }
            let proven = count_proven_bits(wire.as_slice());
            if proven >= self.bits {
                let stamp = Stamp::from_parts(
                    self.bits,
                    self.timestamp,
                    slice_to_vec(self.resource.as_slice()),
                    Vec::new(),
                    slice_to_vec(self.salt.as_slice()),
                    slice_to_vec(self.counter.as_slice()),
                );
                assert(stamp@.extension =~= Seq::<u8>::empty());
                return Some(stamp);
            }
            proof {
                lemma_successor(n);
                lemma_counter_value(n + 1);
                assert forall|m: nat| m < n + 1 implies !#[trigger] c.solved_by(m) by {
                    if m < n {
                        assert(c.none_below(n));
                    }
                }
            }
            let mut next: Vec<u8> = slice_to_vec(self.counter.as_slice());
            advance_counter(&mut next);
            self.counter = next;
            tried += 1;
        }
        proof {
            use_type_invariant(&*self);
        }
        None
    }
}

/// Draws `len` bytes with `rand`: `thread_rng()` sampled through
/// `Rng::sample_iter` with the `Alphanumeric` distribution, which picks each
/// byte from the ASCII letters and digits. Which bytes come out is left
/// open. `thread_rng` panics if the operating system's random source cannot
/// seed it.
#[verifier::external_body]
fn random_alphanumeric(len: usize) -> (salt: Vec<u8>)
    requires
        len <= 256,
    ensures
        salt@.len() == len,
        is_alphanumeric(salt@),
{
    rand::thread_rng().sample_iter(rand::distributions::Alphanumeric).take(len).collect()
}

/// Runs a search from candidate zero until it ends or `budget` runs out.
fn finish(search: Search, budget: u64) -> (r: Result<Stamp, Error>)
    requires
        search.position() == 0,
    ensures
        search.challenge().is_valid(),
        match r {
            Ok(stamp) => minted(search.challenge(), budget as nat) == Ok::<StampView, Error>(
                stamp@,
            ),
            Err(e) => minted(search.challenge(), budget as nat) == Err::<StampView, Error>(e),
        },
{
    let ghost c = search.challenge();
    let mut search = search;
    proof {
        use_type_invariant(&search);
    }
    match search.advance(budget) {
        Some(stamp) => {
            proof {
                let n = search.position();
                let found = choose|k: nat| k < budget && #[trigger] c.first_solution(k);
                lemma_first_solution_unique(c, n, found);
            }
            Ok(stamp)
        },
        None => {
            proof {
                assert forall|k: nat| k < budget implies !#[trigger] c.first_solution(k) by {
                    assert(!c.solved_by(k));
                }
            }
            Err(Error::Cancelled)
        },
    }
}

/// Mints a stamp with a salt that the caller supplies.
///
/// Tries the candidates of the challenge in order, from counter zero, and
/// returns the first whose digest has at least `bits` leading zero bits.
/// Fails with `InvalidInput` exactly when `resource` is empty, `bits`
/// exceeds [`MAX_BITS`] or `salt` is no token, and with `Cancelled` exactly
/// when the challenge is valid and none of its first `budget` candidates
/// proves the work.
pub fn mint_with_salt(resource: &[u8], bits: u32, now: u64, salt: &[u8], budget: u64) -> (r:
    Result<Stamp, Error>)
    ensures
        match r {
            Ok(stamp) => minted(
                Challenge { bits, timestamp: now, resource: resource@, salt: salt@ },
                budget as nat,
            ) == Ok::<StampView, Error>(stamp@),
            Err(e) => minted(
                Challenge { bits, timestamp: now, resource: resource@, salt: salt@ },
                budget as nat,
            ) == Err::<StampView, Error>(e),
        },
        r matches Ok(stamp) ==> stamp@.is_proven() && verdict(stamp@.wire(), bits, None) == Ok::<
            Verdict,
            Error,
        >(Verdict::Valid),
{
    let ghost c = Challenge { bits, timestamp: now, resource: resource@, salt: salt@ };
    proof {
        lemma_minted(c, budget as nat);
    }
    match Search::new(resource, bits, now, salt) {
        Ok(search) => finish(search, budget),
        Err(e) => Err(e),
    }
}

/// Mints a stamp for `resource` at difficulty `bits`, made at time `now`,
/// with a fresh random salt of [`SALT_LEN`] letters and digits.
///
/// Fails with `InvalidInput` exactly when `resource` is empty or `bits`
/// exceeds [`MAX_BITS`]. Otherwise the result is what [`mint_with_salt`]
/// gives for the salt that was drawn: the first candidate that proves the
/// work, or `Cancelled` when none of the first `budget` candidates does.
pub fn mint(resource: &[u8], bits: u32, now: u64, budget: u64) -> (r: Result<Stamp, Error>)
    ensures
        (resource@.len() == 0 || bits > MAX_BITS) <==> r == Err::<Stamp, Error>(
            Error::InvalidInput,
        ),
        match r {
            Ok(stamp) => exists|salt: Seq<u8>|
                salt.len() == SALT_LEN && is_alphanumeric(salt) && #[trigger] minted(
                    Challenge { bits, timestamp: now, resource: resource@, salt },
                    budget as nat,
                ) == Ok::<StampView, Error>(stamp@),
            Err(e) => e == Error::InvalidInput || (e == Error::Cancelled && exists|salt: Seq<u8>|
                salt.len() == SALT_LEN && is_alphanumeric(salt) && #[trigger] minted(
                    Challenge { bits, timestamp: now, resource: resource@, salt },
                    budget as nat,
                ) == Err::<StampView, Error>(Error::Cancelled)),
        },
        r matches Ok(stamp) ==> {
            &&& stamp@.wf()
            &&& stamp@.is_proven()
            &&& stamp@.bits == bits
            &&& stamp@.timestamp == now
            &&& stamp@.resource == resource@
            &&& stamp@.extension.len() == 0
            &&& stamp@.salt.len() == SALT_LEN
            &&& verdict(stamp@.wire(), bits, None) == Ok::<Verdict, Error>(Verdict::Valid)
        },
{
    match Search::with_random_salt(resource, bits, now) {
        Ok(search) => {
            let ghost c = search.challenge();
            proof {
                lemma_minted(c, budget as nat);
                assert(c == Challenge { bits, timestamp: now, resource: resource@, salt: c.salt });
            }
            finish(search, budget)
        },
        Err(e) => Err(e),
    }
}

} // verus!
