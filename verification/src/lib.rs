//! Hashcash proof-of-work stamps.
//!
//! A stamp binds a resource, a difficulty and a creation time to a counter
//! for which the SHA-1 digest of the stamp's wire form starts with at least
//! as many zero bits as the difficulty asks for. This crate mints such
//! stamps, writes and reads their wire form, and verifies them.
//!
//! # Wire form
//!
//! A stamp travels as one line of printable ASCII with seven fields,
//! separated by `:`:
//!
//! ```text
//! version:bits:timestamp:resource:extension:salt:counter
//! 1:20:1700000000:alice@example.com::Salt000000000007:IgZ
//! ```
//!
//! - `version` is `1`.
//! - `bits` and `timestamp` are decimal numerals without sign or leading
//!   zeros; the timestamp counts seconds since the Unix epoch.
//! - `resource` and `extension` are arbitrary bytes, percent-escaped: a
//!   printable byte other than space, `:` and `%` stands for itself, any
//!   other byte is `%` and two upper-case hexadecimal digits.
//! - `salt` and `counter` are strings over `A`-`Z`, `a`-`z`, `0`-`9`, `+`
//!   and `/`. A minted counter is a numeral in base 64 over these symbols.
//!
//! Every stamp has exactly one wire form and every wire form belongs to
//! exactly one stamp, so reading and writing are inverse to each other. The
//! digest is taken over the bytes of the wire form as they stand.
//!
//! # Overview
//!
//! - [`mint`] searches for the counter; [`Search`] runs the same search a
//!   bounded number of steps at a time.
//! - [`serialize`] and [`parse`] write and read the wire form.
//! - [`verify`] checks a wire string against a required difficulty and an
//!   optional expiry policy.

pub mod digest;
pub mod error;
pub mod escape;
pub mod fields;
pub mod mint;
pub mod numeral;
pub mod stamp;
pub mod token;
pub mod verify;
pub mod wire;

pub use crate::error::Error;
pub use crate::mint::{mint, mint_with_salt, Search};
pub use crate::stamp::Stamp;
pub use crate::verify::{judge, verify, verify_stamp, Freshness, Verdict};
pub use crate::wire::{parse, serialize};
