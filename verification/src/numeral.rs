//! Canonical decimal numerals: the wire form of a stamp's integer fields.

use vstd::prelude::*;

verus! {

/// Whether `c` is one of the ASCII digits `0` to `9`.
pub open spec fn is_digit(c: u8) -> bool {
    48 <= c <= 57
}

/// The ASCII digit that stands for `d`.
pub open spec fn digit_byte(d: nat) -> u8
    recommends
        d < 10,
{
    (48 + d) as u8
}

/// The decimal numeral of `n`: no sign, no leading zero, `0` for zero.
pub open spec fn decimal(n: nat) -> Seq<u8>
    decreases n,
{
    if n < 10 {
        seq![digit_byte(n)]
    } else {
        decimal(n / 10).push(digit_byte(n % 10))
    }
}

/// The number that a string of digits denotes, most significant digit first.
pub open spec fn decimal_value(text: Seq<u8>) -> nat
    decreases text.len(),
{
    if text.len() == 0 {
        0
    } else {
        decimal_value(text.drop_last()) * 10 + (text.last() - 48) as nat
    }
}

/// Whether every byte of `text` is a digit.
pub open spec fn all_digits(text: Seq<u8>) -> bool {
    forall|i: int| 0 <= i < text.len() ==> is_digit(#[trigger] text[i])
}

/// Whether `text` is a numeral in canonical form: at least one digit, and
/// no leading zero unless it is the single digit `0`.
pub open spec fn is_canonical(text: Seq<u8>) -> bool {
    &&& text.len() >= 1
    &&& all_digits(text)
    &&& (text.len() == 1 || text[0] != 48)
}

/// `decimal` writes canonical numerals, and `decimal_value` reads them back.
pub proof fn lemma_decimal_value(n: nat)
    ensures
        is_canonical(decimal(n)),
        decimal_value(decimal(n)) == n,
        n >= 1 ==> decimal(n)[0] != 48,
    decreases n,
{
    if n < 10 {
        let text = decimal(n);
        assert(text.drop_last() =~= Seq::<u8>::empty());
        assert(decimal_value(text.drop_last()) == 0);
    } else {
        lemma_decimal_value(n / 10);
        let head = decimal(n / 10);
        let text = decimal(n);
        assert(text.drop_last() =~= head);
        assert(text[0] == head[0]);
        assert forall|i: int| 0 <= i < text.len() implies is_digit(#[trigger] text[i]) by {
            if i < head.len() {
                assert(text[i] == head[i]);
            }
        }
    }
}

/// Every canonical numeral is the `decimal` of the number it denotes.
pub proof fn lemma_canonical_is_decimal(text: Seq<u8>)
    requires
        is_canonical(text),
    ensures
        decimal(decimal_value(text)) == text,
    decreases text.len(),
{
    if text.len() == 1 {
        assert(text.drop_last() =~= Seq::<u8>::empty());
        assert(decimal_value(text.drop_last()) == 0);
        assert(is_digit(text[0]));
        assert(decimal(decimal_value(text)) =~= text);
    } else {
        let head = text.drop_last();
        assert(head[0] == text[0]);
        assert forall|i: int| 0 <= i < head.len() implies is_digit(#[trigger] head[i]) by {
            assert(head[i] == text[i]);
        }
        lemma_canonical_is_decimal(head);
        let v = decimal_value(head);
        if v == 0 {
            assert(decimal(0) =~= seq![48u8]);
            assert(head[0] == 48);
        }
        assert(is_digit(text[text.len() - 1]));
        let d = (text.last() - 48) as nat;
        assert(decimal_value(text) == v * 10 + d);
        assert((v * 10 + d) / 10 == v);
        assert((v * 10 + d) % 10 == d);
        assert(decimal(decimal_value(text)) =~= text);
    }
}

/// Two numbers with the same numeral are equal.
pub proof fn lemma_decimal_injective(a: nat, b: nat)
    requires
        decimal(a) == decimal(b),
    ensures
        a == b,
{
    lemma_decimal_value(a);
    lemma_decimal_value(b);
}

/// The value of a string of digits is at least the value of each prefix.
proof fn lemma_prefix_value(text: Seq<u8>, k: int)
    requires
        all_digits(text),
        0 <= k <= text.len(),
    ensures
        decimal_value(text.take(k)) <= decimal_value(text),
    decreases text.len(),
{
    if k == text.len() {
        assert(text.take(k) =~= text);
    } else {
        let head = text.drop_last();
        assert forall|i: int| 0 <= i < head.len() implies is_digit(#[trigger] head[i]) by {
            assert(head[i] == text[i]);
        }
        lemma_prefix_value(head, k);
        assert(head.take(k) =~= text.take(k));
        assert(is_digit(text[text.len() - 1]));
    }
}

/// Appends the decimal numeral of `n` to `out`.
pub fn push_decimal(out: &mut Vec<u8>, n: u64)
    ensures
        final(out)@ == old(out)@ + decimal(n as nat),
    decreases n,
{
    if n >= 10 {
        push_decimal(out, n / 10);
    }
    let d: u8 = (n % 10) as u8;
    out.push(48 + d);
    assert(out@ =~= old(out)@ + decimal(n as nat));
}

/// Reads a canonical decimal numeral that fits in 64 bits.
///
/// Returns the number that `text` is the numeral of, and `None` when `text`
/// is the numeral of no number up to `u64::MAX`: when it is empty, holds a
/// byte that is no digit, starts with a superfluous zero, or is too large.
pub fn parse_decimal(text: &[u8]) -> (r: Option<u64>)
    ensures
        match r {
            Some(n) => decimal(n as nat) == text@,
            None => forall|n: nat| n <= u64::MAX ==> decimal(n) != text@,
        },
{
    let len: usize = text.len();
    if len == 0 || (len > 1 && text[0] == 48) {
        assert forall|n: nat| n <= u64::MAX implies decimal(n) != text@ by {
            lemma_decimal_value(n);
        }
        return None;
    }
    let mut acc: u64 = 0;
    let mut i: usize = 0;
    assert(text@.take(0) =~= Seq::<u8>::empty());
    while i < len
        invariant
            len == text@.len(),
            i <= len,
            all_digits(text@.take(i as int)),
            acc == decimal_value(text@.take(i as int)),
        decreases len - i,
    {
        let c: u8 = text[i];
        let ghost prefix = text@.take(i + 1);
        assert(prefix.drop_last() =~= text@.take(i as int));
        assert(prefix.last() == c);
        if c < 48 || c > 57 {
            assert forall|n: nat| n <= u64::MAX implies decimal(n) != text@ by {
                lemma_decimal_value(n);
                if decimal(n) == text@ {
                    assert(is_digit(text@[i as int]));
                }
            }
            return None;
        }
        assert forall|j: int| 0 <= j < prefix.len() implies is_digit(#[trigger] prefix[j]) by {
            if j < i {
                assert(prefix[j] == text@.take(i as int)[j]);
            }
        }
        let d: u64 = (c - 48) as u64;
        if acc > (u64::MAX - d) / 10 {
            assert(decimal_value(prefix) > u64::MAX);
            assert forall|n: nat| n <= u64::MAX implies decimal(n) != text@ by {
                lemma_decimal_value(n);
                if decimal(n) == text@ {
                    lemma_prefix_value(text@, i + 1);
                }
            }
            return None;
        }
        acc = acc * 10 + d;
        i += 1;
    }
    proof {
        assert(text@.take(len as int) =~= text@);
        lemma_canonical_is_decimal(text@);
    }
    Some(acc)
}

} // verus!
