//! The stamp: a proof-of-work token bound to a resource, a difficulty and a
//! creation time.

use crate::digest::proven_bits;
use crate::error::Error;
use crate::escape::escape;
use crate::fields::{join, SEPARATOR};
use crate::numeral::decimal;
use crate::token::{is_token, is_token_bytes};
use vstd::prelude::*;
use vstd::slice::slice_to_vec;

verus! {

/// The protocol version that this crate writes and reads.
pub const VERSION: u32 = 1;

/// The number of fields in the wire form of a stamp.
pub const FIELD_COUNT: usize = 7;

/// The first six fields of a wire form, each followed by a separator.
pub open spec fn prefix_text(
    version: u32,
    bits: u32,
    timestamp: u64,
    resource: Seq<u8>,
    extension: Seq<u8>,
    salt: Seq<u8>,
) -> Seq<u8> {
    decimal(version as nat) + seq![SEPARATOR] + decimal(bits as nat) + seq![SEPARATOR] + decimal(
        timestamp as nat,
    ) + seq![SEPARATOR] + escape(resource) + seq![SEPARATOR] + escape(extension)
        + seq![SEPARATOR] + salt + seq![SEPARATOR]
}

/// What a stamp holds, as mathematical values.
pub struct StampView {
    /// Protocol version tag.
    pub version: u32,
    /// Claimed difficulty: the number of leading zero bits that the digest
    /// of the wire form is said to have.
    pub bits: u32,
    /// Creation time, in seconds since the Unix epoch.
    pub timestamp: u64,
    /// What the stamp is bound to: arbitrary bytes.
    pub resource: Seq<u8>,
    /// Free-form extension, possibly empty.
    pub extension: Seq<u8>,
    /// Random salt, a token.
    pub salt: Seq<u8>,
    /// The counter found by the search, a token.
    pub counter: Seq<u8>,
}

impl StampView {
    /// Whether the fields are those of a stamp: the version is the one
    /// supported, and salt and counter are tokens.
    pub open spec fn wf(self) -> bool {
        &&& self.version == VERSION
        &&& is_token(self.salt)
        &&& is_token(self.counter)
    }

    /// The seven fields of the wire form, in their fixed order: version,
    /// bits and timestamp as decimal numerals, resource and extension
    /// escaped, salt and counter as they are.
    pub open spec fn fields(self) -> Seq<Seq<u8>> {
        seq![
            decimal(self.version as nat),
            decimal(self.bits as nat),
            decimal(self.timestamp as nat),
            escape(self.resource),
            escape(self.extension),
            self.salt,
            self.counter,
        ]
    }

    /// The wire form: the fields joined by separators.
    pub open spec fn wire(self) -> Seq<u8> {
        join(self.fields())
    }

    /// Whether the stamp proves the work it claims: the SHA-1 digest of its
    /// wire form starts with at least `bits` zero bits. Minting yields only
    /// such stamps; a stamp that was read from a wire string may claim more
    /// than it proves, which is for verification to find out.
    pub open spec fn is_proven(self) -> bool {
        proven_bits(self.wire()) >= self.bits
    }

    /// The wire form up to and including the separator before the counter.
    pub open spec fn prefix(self) -> Seq<u8> {
        prefix_text(
            self.version,
            self.bits,
            self.timestamp,
            self.resource,
            self.extension,
            self.salt,
        )
    }
}

/// A stamp. Every value of this type satisfies [`StampView::wf`].
#[derive(Debug, PartialEq, Eq)]
pub struct Stamp {
    version: u32,
    bits: u32,
    timestamp: u64,
    resource: Vec<u8>,
    extension: Vec<u8>,
    salt: Vec<u8>,
    counter: Vec<u8>,
}

impl View for Stamp {
    type V = StampView;

    closed spec fn view(&self) -> StampView {
        StampView {
            version: self.version,
            bits: self.bits,
            timestamp: self.timestamp,
            resource: self.resource@,
            extension: self.extension@,
            salt: self.salt@,
            counter: self.counter@,
        }
    }
}

impl Clone for Stamp {
    fn clone(&self) -> (copy: Stamp)
        ensures
            copy@ == self@,
    {
        proof {
            use_type_invariant(self);
        }
        Stamp {
            version: self.version,
            bits: self.bits,
            timestamp: self.timestamp,
            resource: slice_to_vec(self.resource.as_slice()),
            extension: slice_to_vec(self.extension.as_slice()),
            salt: slice_to_vec(self.salt.as_slice()),
            counter: slice_to_vec(self.counter.as_slice()),
        }
    }
}

impl Stamp {
    #[verifier::type_invariant]
    spec fn inv(self) -> bool {
        self@.wf()
    }

    /// Makes a stamp of the current version from its fields.
    ///
    /// Fails with `InvalidInput` exactly when the salt or the counter holds
    /// a byte outside the token alphabet. Nothing is hashed: whether the
    /// stamp proves any work is for verification to find out.
    pub fn new(
        bits: u32,
        timestamp: u64,
        resource: Vec<u8>,
        extension: Vec<u8>,
        salt: Vec<u8>,
        counter: Vec<u8>,
    ) -> (r: Result<Stamp, Error>)
        ensures
            match r {
                Ok(stamp) => stamp@ == (StampView {
                    version: VERSION,
                    bits,
                    timestamp,
                    resource: resource@,
                    extension: extension@,
                    salt: salt@,
                    counter: counter@,
                }) && stamp@.wf(),
                Err(e) => e == Error::InvalidInput && !(is_token(salt@) && is_token(counter@)),
            },
    {
        if is_token_bytes(salt.as_slice()) && is_token_bytes(counter.as_slice()) {
            Ok(Stamp { version: VERSION, bits, timestamp, resource, extension, salt, counter })
        } else {
            Err(Error::InvalidInput)
        }
    }

    /// Makes a stamp from fields already known to be well formed.
    pub(crate) fn from_parts(
        bits: u32,
        timestamp: u64,
        resource: Vec<u8>,
        extension: Vec<u8>,
        salt: Vec<u8>,
        counter: Vec<u8>,
    ) -> (stamp: Stamp)
        requires
            is_token(salt@),
            is_token(counter@),
        ensures
            stamp@ == (StampView {
                version: VERSION,
                bits,
                timestamp,
                resource: resource@,
                extension: extension@,
                salt: salt@,
                counter: counter@,
            }),
            stamp@.wf(),
    {
        Stamp { version: VERSION, bits, timestamp, resource, extension, salt, counter }
    }

    /// The protocol version tag.
    pub fn version(&self) -> (v: u32)
        ensures
            v == self@.version,
            v == VERSION,
    {
        proof {
            use_type_invariant(self);
        }
        self.version
    }

    /// The claimed difficulty in bits.
    pub fn bits(&self) -> (b: u32)
        ensures
            b == self@.bits,
    {
        self.bits
    }

    /// The creation time, in seconds since the Unix epoch.
    pub fn timestamp(&self) -> (t: u64)
        ensures
            t == self@.timestamp,
    {
        self.timestamp
    }

    /// The resource that the stamp is bound to.
    pub fn resource(&self) -> (r: &[u8])
        ensures
            r@ == self@.resource,
    {
        self.resource.as_slice()
    }

    /// The extension field.
    pub fn extension(&self) -> (r: &[u8])
        ensures
            r@ == self@.extension,
    {
        self.extension.as_slice()
    }

    /// The salt.
    pub fn salt(&self) -> (r: &[u8])
        ensures
            r@ == self@.salt,
            is_token(r@),
    {
        proof {
            use_type_invariant(self);
        }
        self.salt.as_slice()
    }

    /// The counter.
    pub fn counter(&self) -> (r: &[u8])
        ensures
            r@ == self@.counter,
            is_token(r@),
    {
        proof {
            use_type_invariant(self);
        }
        self.counter.as_slice()
    }
}

} // verus!
