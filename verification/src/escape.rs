//! Percent-escaping of free-form fields.
//!
//! A stamp's resource and extension are arbitrary bytes, while its wire form
//! is printable ASCII in which `:` separates the fields. A byte that is
//! printable, no space, and neither `:` nor `%` stands for itself; every
//! other byte is written as `%` and two upper-case hexadecimal digits. Each
//! byte string has exactly one escaped form.

use crate::fields::{is_field, is_printable};
use vstd::prelude::*;

verus! {

/// The byte that introduces an escape, `%`.
pub const ESCAPE: u8 = 37;

/// Whether `c` is written on the wire as itself.
pub open spec fn is_plain(c: u8) -> bool {
    33 <= c <= 126 && c != 58 && c != ESCAPE
}

/// The upper-case hexadecimal digit for `v`.
pub open spec fn hex_digit(v: nat) -> u8
    recommends
        v < 16,
{
    if v < 10 {
        (48 + v) as u8
    } else {
        (55 + v) as u8
    }
}

/// The value of an upper-case hexadecimal digit, if `c` is one.
pub open spec fn hex_value(c: u8) -> Option<nat> {
    if 48 <= c <= 57 {
        Some((c - 48) as nat)
    } else if 65 <= c <= 70 {
        Some((c - 55) as nat)
    } else {
        None
    }
}

/// The wire form of the single byte `c`.
pub open spec fn escape_byte(c: u8) -> Seq<u8> {
    if is_plain(c) {
        seq![c]
    } else {
        seq![ESCAPE, hex_digit((c / 16) as nat), hex_digit((c % 16) as nat)]
    }
}

/// The wire form of `bytes`: the wire forms of its bytes, in order.
pub open spec fn escape(bytes: Seq<u8>) -> Seq<u8>
    decreases bytes.len(),
{
    if bytes.len() == 0 {
        Seq::empty()
    } else {
        escape_byte(bytes[0]) + escape(bytes.skip(1))
    }
}

/// Reads an escaped field from the front: the bytes that `text` is the wire
/// form of, or `None` if it is the wire form of none. An escape of a byte
/// that stands for itself, a lower-case digit and a cut-off escape are all
/// refused.
pub open spec fn unescape(text: Seq<u8>) -> Option<Seq<u8>>
    decreases text.len(),
{
    if text.len() == 0 {
        Some(Seq::empty())
    } else if text[0] == ESCAPE {
        if text.len() >= 3 && hex_value(text[1]) is Some && hex_value(text[2]) is Some {
            let v = (hex_value(text[1])->0 * 16 + hex_value(text[2])->0) as u8;
            if is_plain(v) {
                None
            } else {
                match unescape(text.skip(3)) {
                    Some(rest) => Some(seq![v] + rest),
                    None => None,
                }
            }
        } else {
            None
        }
    } else if is_plain(text[0]) {
        match unescape(text.skip(1)) {
            Some(rest) => Some(seq![text[0]] + rest),
            None => None,
        }
    } else {
        None
    }
}

/// Unescaping an escaped byte string gives the byte string back.
pub proof fn lemma_unescape_escape(bytes: Seq<u8>)
    ensures
        unescape(escape(bytes)) == Some(bytes),
    decreases bytes.len(),
{
    if bytes.len() > 0 {
        let c = bytes[0];
        let rest = bytes.skip(1);
        let text = escape(bytes);
        lemma_unescape_escape(rest);
        if is_plain(c) {
            assert(text.skip(1) =~= escape(rest));
            assert(seq![c] + rest =~= bytes);
        } else {
            assert(text.skip(3) =~= escape(rest));
            assert(text[1] == hex_digit((c / 16) as nat));
            assert(text[2] == hex_digit((c % 16) as nat));
            assert(seq![c] + rest =~= bytes);
        }
    }
}

/// Whatever unescapes to a byte string is that byte string's escaped form.
pub proof fn lemma_escape_unescape(text: Seq<u8>)
    ensures
        unescape(text) matches Some(bytes) ==> escape(bytes) == text,
    decreases text.len(),
{
    if text.len() > 0 && unescape(text) is Some {
        let bytes = unescape(text)->0;
        if text[0] == ESCAPE {
            let v = (hex_value(text[1])->0 * 16 + hex_value(text[2])->0) as u8;
            lemma_escape_unescape(text.skip(3));
            let rest = unescape(text.skip(3))->0;
            assert(bytes.skip(1) =~= rest);
            assert(bytes[0] == v);
            assert(escape_byte(v) =~= text.take(3));
            assert(text.take(3) + text.skip(3) =~= text);
        } else {
            lemma_escape_unescape(text.skip(1));
            let rest = unescape(text.skip(1))->0;
            assert(bytes.skip(1) =~= rest);
            assert(escape_byte(text[0]) =~= text.take(1));
            assert(text.take(1) + text.skip(1) =~= text);
        }
    }
}

/// Two byte strings with the same escaped form are equal.
pub proof fn lemma_escape_injective(a: Seq<u8>, b: Seq<u8>)
    requires
        escape(a) == escape(b),
    ensures
        a == b,
{
    lemma_unescape_escape(a);
    lemma_unescape_escape(b);
}

/// An escaped form is printable ASCII and holds no field separator.
pub proof fn lemma_escape_is_field(bytes: Seq<u8>)
    ensures
        is_field(escape(bytes)),
        is_printable(escape(bytes)),
    decreases bytes.len(),
{
    if bytes.len() > 0 {
        lemma_escape_is_field(bytes.skip(1));
        let head = escape_byte(bytes[0]);
        let tail = escape(bytes.skip(1));
        let text = escape(bytes);
        assert forall|i: int| 0 <= i < text.len() implies #[trigger] text[i] != 58 && 33
            <= text[i] <= 126 by {
            if i < head.len() {
                assert(text[i] == head[i]);
            } else {
                assert(text[i] == tail[i - head.len()]);
            }
        }
    }
}

fn is_plain_byte(c: u8) -> (r: bool)
    ensures
        r == is_plain(c),
{
    33 <= c && c <= 126 && c != 58 && c != ESCAPE
}

fn hex_digit_of(v: u8) -> (c: u8)
    requires
        v < 16,
    ensures
        c == hex_digit(v as nat),
{
    if v < 10 {
        48 + v
    } else {
        55 + v
    }
}

fn hex_value_of(c: u8) -> (r: Option<u8>)
    ensures
        match r {
            Some(v) => hex_value(c) == Some(v as nat) && v < 16,
            None => hex_value(c) is None,
        },
{
    if 48 <= c && c <= 57 {
        Some(c - 48)
    } else if 65 <= c && c <= 70 {
        Some(c - 55)
    } else {
        None
    }
}

/// Appends the escaped form of `bytes` to `out`.
pub fn push_escaped(out: &mut Vec<u8>, bytes: &[u8])
    ensures
        final(out)@ == old(out)@ + escape(bytes@),
{
    let mut i: usize = 0;
    assert(bytes@.skip(0) =~= bytes@);
    while i < bytes.len()
        invariant
            i <= bytes@.len(),
            out@ + escape(bytes@.skip(i as int)) == old(out)@ + escape(bytes@),
        decreases bytes@.len() - i,
    {
        let c: u8 = bytes[i];
        let ghost before = out@;
        let ghost rest = bytes@.skip(i as int);
        assert(rest.skip(1) =~= bytes@.skip(i + 1));
        assert(rest[0] == c);
        if is_plain_byte(c) {
            out.push(c);
        } else {
            out.push(ESCAPE);
            out.push(hex_digit_of(c / 16));
            out.push(hex_digit_of(c % 16));
        }
        assert(out@ =~= before + escape_byte(c));
        assert(out@ + escape(bytes@.skip(i + 1)) =~= before + escape(rest));
        i += 1;
    }
    assert(escape(bytes@.skip(i as int)) =~= Seq::<u8>::empty());
    assert(out@ =~= out@ + escape(bytes@.skip(i as int)));
}

/// Reads an escaped field.
///
/// Returns the bytes whose escaped form `text` is, and `None` when `text` is
/// the escaped form of no byte string.
pub fn decode_escaped(text: &[u8]) -> (r: Option<Vec<u8>>)
    ensures
        match r {
            Some(bytes) => escape(bytes@) == text@,
            None => forall|bytes: Seq<u8>| escape(bytes) != text@,
        },
        r matches Some(bytes) ==> unescape(text@) == Some(bytes@),
        r is None ==> unescape(text@) is None,
{
    let len: usize = text.len();
    let mut out: Vec<u8> = Vec::new();
    let mut i: usize = 0;
    assert(text@.skip(0) =~= text@);
    assert(forall|rest: Seq<u8>| out@ + rest =~= rest);
    while i < len
        invariant
            len == text@.len(),
            i <= len,
            unescape(text@) == match unescape(text@.skip(i as int)) {
                Some(rest) => Some(out@ + rest),
                None => None,
            },
        decreases len - i,
    {
        let c: u8 = text[i];
        let ghost here = text@.skip(i as int);
        let ghost before = out@;
        assert(here[0] == c);
        if c == ESCAPE {
            if len - i < 3 {
                proof {
                    lemma_none_is_no_escape(text@);
                }
                return None;
            }
            assert(here[1] == text@[i + 1]);
            assert(here[2] == text@[i + 2]);
            let hi = hex_value_of(text[i + 1]);
            let lo = hex_value_of(text[i + 2]);
            match (hi, lo) {
                (Some(h), Some(l)) => {
                    let v: u8 = h * 16 + l;
                    if is_plain_byte(v) {
                        proof {
                            lemma_none_is_no_escape(text@);
                        }
                        return None;
                    }
                    out.push(v);
                    assert(here.skip(3) =~= text@.skip(i + 3));
                    assert(forall|rest: Seq<u8>| out@ + rest =~= before + (seq![v] + rest));
                    i += 3;
                },
                _ => {
                    proof {
                        lemma_none_is_no_escape(text@);
                    }
                    return None;
                },
            }
        } else if is_plain_byte(c) {
            out.push(c);
            assert(here.skip(1) =~= text@.skip(i + 1));
            assert(forall|rest: Seq<u8>| out@ + rest =~= before + (seq![c] + rest));
            i += 1;
        } else {
            proof {
                lemma_none_is_no_escape(text@);
            }
            return None;
        }
    }
    proof {
        assert(text@.skip(len as int) =~= Seq::<u8>::empty());
        assert(out@ + Seq::<u8>::empty() =~= out@);
        lemma_escape_unescape(text@);
    }
    Some(out)
}

/// What does not unescape is the escaped form of nothing.
proof fn lemma_none_is_no_escape(text: Seq<u8>)
    requires
        unescape(text) is None,
    ensures
        forall|bytes: Seq<u8>| escape(bytes) != text,
{
    assert forall|bytes: Seq<u8>| escape(bytes) != text by {
        lemma_unescape_escape(bytes);
    }
}

} // verus!
