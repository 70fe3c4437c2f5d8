//! The wire form of a stamp: writing it, reading it, and the two round
//! trips between stamps and wire strings.

use crate::error::Error;
use crate::escape::{
    decode_escaped, escape, lemma_escape_injective, lemma_escape_is_field, push_escaped,
};
use crate::fields::{
    are_fields, field_count, is_field, is_printable, lemma_join_push, lemma_join_split,
    lemma_printable_concat, lemma_split_join, push_bytes, split, split_fields, views, SEPARATOR,
};
use crate::numeral::{
    decimal, lemma_decimal_injective, lemma_decimal_value, parse_decimal, push_decimal,
};
use crate::stamp::{prefix_text, Stamp, StampView, FIELD_COUNT, VERSION};
use crate::token::is_token_bytes;
use vstd::prelude::*;
use vstd::slice::slice_to_vec;

verus! {

/// The stamp that `wire` is the wire form of, if there is one.
pub open spec fn decode(wire: Seq<u8>) -> Option<StampView> {
    if exists|s: StampView| s.wf() && #[trigger] s.wire() == wire {
        Some(choose|s: StampView| s.wf() && #[trigger] s.wire() == wire)
    } else {
        None
    }
}

/// The wire form of a stamp has exactly seven fields, and they are the
/// stamp's fields.
pub proof fn lemma_stamp_fields(s: StampView)
    requires
        s.wf(),
    ensures
        s.fields().len() == FIELD_COUNT,
        are_fields(s.fields()),
        split(s.wire()) == s.fields(),
        field_count(s.wire()) == FIELD_COUNT,
{
    let f = s.fields();
    lemma_decimal_value(s.version as nat);
    lemma_decimal_value(s.bits as nat);
    lemma_decimal_value(s.timestamp as nat);
    lemma_escape_is_field(s.resource);
    lemma_escape_is_field(s.extension);
    assert(is_field(f[0]));
    assert(is_field(f[1]));
    assert(is_field(f[2]));
    assert(is_field(f[3]));
    assert(is_field(f[4]));
    assert(is_field(f[5]));
    assert(is_field(f[6]));
    lemma_split_join(f);
}

/// The wire form is the prefix followed by the counter.
pub proof fn lemma_wire_prefix(s: StampView)
    ensures
        s.wire() == s.prefix() + s.counter,
{
    let f = s.fields();
    let f1 = seq![f[0]];
    let f2 = f1.push(f[1]);
    let f3 = f2.push(f[2]);
    let f4 = f3.push(f[3]);
    let f5 = f4.push(f[4]);
    let f6 = f5.push(f[5]);
    let f7 = f6.push(f[6]);
    lemma_join_push(f1, f[1]);
    lemma_join_push(f2, f[2]);
    lemma_join_push(f3, f[3]);
    lemma_join_push(f4, f[4]);
    lemma_join_push(f5, f[5]);
    lemma_join_push(f6, f[6]);
    assert(f7 =~= f);
    assert(s.wire() =~= s.prefix() + s.counter);
}

/// A wire form is printable ASCII without spaces.
pub proof fn lemma_wire_is_printable(s: StampView)
    requires
        s.wf(),
    ensures
        is_printable(s.wire()),
{
    lemma_wire_prefix(s);
    lemma_decimal_value(s.version as nat);
    lemma_decimal_value(s.bits as nat);
    lemma_decimal_value(s.timestamp as nat);
    lemma_escape_is_field(s.resource);
    lemma_escape_is_field(s.extension);
    let sep = seq![SEPARATOR];
    let t0 = decimal(s.version as nat);
    lemma_printable_concat(t0, sep);
    let t1 = t0 + sep;
    lemma_printable_concat(t1, decimal(s.bits as nat));
    let t2 = t1 + decimal(s.bits as nat);
    lemma_printable_concat(t2, sep);
    let t3 = t2 + sep;
    lemma_printable_concat(t3, decimal(s.timestamp as nat));
    let t4 = t3 + decimal(s.timestamp as nat);
    lemma_printable_concat(t4, sep);
    let t5 = t4 + sep;
    lemma_printable_concat(t5, escape(s.resource));
    let t6 = t5 + escape(s.resource);
    lemma_printable_concat(t6, sep);
    let t7 = t6 + sep;
    lemma_printable_concat(t7, escape(s.extension));
    let t8 = t7 + escape(s.extension);
    lemma_printable_concat(t8, sep);
    let t9 = t8 + sep;
    lemma_printable_concat(t9, s.salt);
    let t10 = t9 + s.salt;
    lemma_printable_concat(t10, sep);
    let t11 = t10 + sep;
    lemma_printable_concat(t11, s.counter);
}

/// Two stamps with the same wire form are the same stamp.
pub proof fn lemma_wire_injective(a: StampView, b: StampView)
    requires
        a.wf(),
        b.wf(),
        a.wire() == b.wire(),
    ensures
        a == b,
{
    lemma_stamp_fields(a);
    lemma_stamp_fields(b);
    let fa = a.fields();
    let fb = b.fields();
    assert(fa[1] == fb[1]);
    assert(fa[2] == fb[2]);
    assert(fa[3] == fb[3]);
    assert(fa[4] == fb[4]);
    assert(fa[5] == fb[5]);
    assert(fa[6] == fb[6]);
    lemma_decimal_injective(a.bits as nat, b.bits as nat);
    lemma_decimal_injective(a.timestamp as nat, b.timestamp as nat);
    lemma_escape_injective(a.resource, b.resource);
    lemma_escape_injective(a.extension, b.extension);
}

/// Reading what was written gives the stamp back: the wire form of a stamp
/// decodes to that stamp.
pub proof fn lemma_decode_wire(s: StampView)
    requires
        s.wf(),
    ensures
        decode(s.wire()) == Some(s),
{
    let wire = s.wire();
    let found = choose|t: StampView| t.wf() && #[trigger] t.wire() == wire;
    lemma_wire_injective(found, s);
}

/// Writing what was read gives the wire string back: a wire string that
/// decodes is the wire form of the stamp it decodes to.
pub proof fn lemma_wire_decode(wire: Seq<u8>)
    ensures
        decode(wire) matches Some(s) ==> s.wf() && s.wire() == wire,
{
}

/// A wire string that does not have seven fields decodes to nothing.
pub proof fn lemma_field_count(wire: Seq<u8>)
    requires
        field_count(wire) != FIELD_COUNT,
    ensures
        decode(wire) is None,
{
    if decode(wire) is Some {
        lemma_stamp_fields(decode(wire)->0);
    }
}

/// No stamp has the fields of `wire`, so `wire` decodes to nothing.
proof fn lemma_undecodable(wire: Seq<u8>)
    requires
        forall|s: StampView| s.wf() ==> #[trigger] s.fields() != split(wire),
    ensures
        decode(wire) is None,
{
    assert forall|s: StampView| s.wf() implies #[trigger] s.wire() != wire by {
        if s.wire() == wire {
            lemma_stamp_fields(s);
        }
    }
}

/// Writes the part of a wire form that comes before the counter.
pub(crate) fn write_prefix(
    version: u32,
    bits: u32,
    timestamp: u64,
    resource: &[u8],
    extension: &[u8],
    salt: &[u8],
) -> (out: Vec<u8>)
    ensures
        out@ == prefix_text(version, bits, timestamp, resource@, extension@, salt@),
{
    let mut out: Vec<u8> = Vec::new();
    push_decimal(&mut out, version as u64);
    out.push(SEPARATOR);
    push_decimal(&mut out, bits as u64);
    out.push(SEPARATOR);
    push_decimal(&mut out, timestamp);
    out.push(SEPARATOR);
    push_escaped(&mut out, resource);
    out.push(SEPARATOR);
    push_escaped(&mut out, extension);
    out.push(SEPARATOR);
    push_bytes(&mut out, salt);
    out.push(SEPARATOR);
    assert(out@ =~= prefix_text(version, bits, timestamp, resource@, extension@, salt@));
    out
}

/// Writes the wire form of `stamp`.
pub fn serialize(stamp: &Stamp) -> (wire: Vec<u8>)
    ensures
        wire@ == stamp@.wire(),
        stamp@.wf(),
        decode(wire@) == Some(stamp@),
        is_printable(wire@),
{
    let mut out = write_prefix(
        stamp.version(),
        stamp.bits(),
        stamp.timestamp(),
        stamp.resource(),
        stamp.extension(),
        stamp.salt(),
    );
    push_bytes(&mut out, stamp.counter());
    proof {
        lemma_wire_prefix(stamp@);
        lemma_decode_wire(stamp@);
        lemma_wire_is_printable(stamp@);
    }
    out
}

/// Reads a stamp from its wire form.
///
/// Succeeds exactly when `wire` is the wire form of some stamp, and then
/// returns that stamp. Fails with `ParseError` otherwise: when `wire` does
/// not have seven fields, when version, bits or timestamp is no canonical
/// decimal numeral in range, when the version is not [`VERSION`], when an
/// escape in resource or extension is not canonical, or when salt or counter
/// holds a byte outside the token alphabet.
pub fn parse(wire: &[u8]) -> (r: Result<Stamp, Error>)
    ensures
        match r {
            Ok(stamp) => stamp@.wf() && stamp@.wire() == wire@ && decode(wire@) == Some(stamp@),
            Err(e) => e == Error::ParseError && decode(wire@) is None,
        },
        field_count(wire@) != FIELD_COUNT ==> r is Err,
{
    let fields = split_fields(wire);
    let ghost parts = split(wire@);
    if fields.len() != FIELD_COUNT {
        proof {
            assert(views(fields@).len() == fields@.len());
            assert forall|s: StampView| s.wf() implies #[trigger] s.fields() != parts by {
                lemma_stamp_fields(s);
            }
            lemma_undecodable(wire@);
        }
        return Err(Error::ParseError);
    }
    assert(views(fields@).len() == 7);
    assert(forall|j: int| 0 <= j < 7 ==> (#[trigger] fields@[j])@ == views(fields@)[j]);

    let version: u64 = match parse_decimal(fields[0].as_slice()) {
        Some(v) => v,
        None => {
            proof {
                assert forall|s: StampView| s.wf() implies #[trigger] s.fields() != parts by {
                    assert(s.fields()[0] == decimal(s.version as nat));
                }
                lemma_undecodable(wire@);
            }
            return Err(Error::ParseError);
        },
    };
    if version != VERSION as u64 {
        proof {
            assert forall|s: StampView| s.wf() implies #[trigger] s.fields() != parts by {
                assert(s.fields()[0] == decimal(s.version as nat));
                if s.fields() == parts {
                    lemma_decimal_injective(version as nat, s.version as nat);
                }
            }
            lemma_undecodable(wire@);
        }
        return Err(Error::ParseError);
    }
    let bits: u64 = match parse_decimal(fields[1].as_slice()) {
        Some(v) => v,
        None => {
            proof {
                assert forall|s: StampView| s.wf() implies #[trigger] s.fields() != parts by {
                    assert(s.fields()[1] == decimal(s.bits as nat));
                }
                lemma_undecodable(wire@);
            }
            return Err(Error::ParseError);
        },
    };
    if bits > u32::MAX as u64 {
        proof {
            assert forall|s: StampView| s.wf() implies #[trigger] s.fields() != parts by {
                assert(s.fields()[1] == decimal(s.bits as nat));
                if s.fields() == parts {
                    lemma_decimal_injective(bits as nat, s.bits as nat);
                }
            }
            lemma_undecodable(wire@);
        }
        return Err(Error::ParseError);
    }
    let timestamp: u64 = match parse_decimal(fields[2].as_slice()) {
        Some(v) => v,
        None => {
            proof {
                assert forall|s: StampView| s.wf() implies #[trigger] s.fields() != parts by {
                    assert(s.fields()[2] == decimal(s.timestamp as nat));
                }
                lemma_undecodable(wire@);
            }
            return Err(Error::ParseError);
        },
    };
    let resource: Vec<u8> = match decode_escaped(fields[3].as_slice()) {
        Some(bytes) => bytes,
        None => {
            proof {
                assert forall|s: StampView| s.wf() implies #[trigger] s.fields() != parts by {
                    assert(s.fields()[3] == escape(s.resource));
                }
                lemma_undecodable(wire@);
            }
            return Err(Error::ParseError);
        },
    };
    let extension: Vec<u8> = match decode_escaped(fields[4].as_slice()) {
        Some(bytes) => bytes,
        None => {
            proof {
                assert forall|s: StampView| s.wf() implies #[trigger] s.fields() != parts by {
                    assert(s.fields()[4] == escape(s.extension));
                }
                lemma_undecodable(wire@);
            }
            return Err(Error::ParseError);
        },
    };
    if !is_token_bytes(fields[5].as_slice()) || !is_token_bytes(fields[6].as_slice()) {
        proof {
            assert forall|s: StampView| s.wf() implies #[trigger] s.fields() != parts by {
                assert(s.fields()[5] == s.salt);
                assert(s.fields()[6] == s.counter);
            }
            lemma_undecodable(wire@);
        }
        return Err(Error::ParseError);
    }
    let salt = slice_to_vec(fields[5].as_slice());
    let counter = slice_to_vec(fields[6].as_slice());
    let stamp = Stamp::from_parts(bits as u32, timestamp, resource, extension, salt, counter);
    proof {
        lemma_join_split(wire@);
        assert(stamp@.fields() =~= parts);
        lemma_decode_wire(stamp@);
    }
    Ok(stamp)
}

} // verus!
