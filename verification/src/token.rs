//! The token alphabet and the counter numerals written in it.
//!
//! A stamp's salt and counter are strings over the 64 symbols `A`-`Z`,
//! `a`-`z`, `0`-`9`, `+` and `/`, in this order. A counter is a numeral in
//! base 64 over these symbols, most significant symbol first, so that the
//! search for a counter can go on past any fixed width.

use vstd::prelude::*;

verus! {

/// The symbol with the value `v`.
pub open spec fn symbol(v: nat) -> u8
    recommends
        v < 64,
{
    if v < 26 {
        (65 + v) as u8
    } else if v < 52 {
        (71 + v) as u8
    } else if v < 62 {
        (v - 4) as u8
    } else if v == 62 {
        43
    } else {
        47
    }
}

/// Whether `c` is one of the 64 symbols.
pub open spec fn is_symbol(c: u8) -> bool {
    (65 <= c <= 90) || (97 <= c <= 122) || (48 <= c <= 57) || c == 43 || c == 47
}

/// The value of the symbol `c`.
pub open spec fn symbol_value(c: u8) -> nat
    recommends
        is_symbol(c),
{
    if 65 <= c <= 90 {
        (c - 65) as nat
    } else if 97 <= c <= 122 {
        (c - 71) as nat
    } else if 48 <= c <= 57 {
        (c + 4) as nat
    } else if c == 43 {
        62
    } else {
        63
    }
}

/// Whether every byte of `text` is a symbol.
pub open spec fn is_token(text: Seq<u8>) -> bool {
    forall|i: int| 0 <= i < text.len() ==> is_symbol(#[trigger] text[i])
}

/// The numeral of `n` in base 64: no leading `A` (zero), and `A` for zero.
pub open spec fn counter_text(n: nat) -> Seq<u8>
    decreases n,
{
    if n < 64 {
        seq![symbol(n)]
    } else {
        counter_text(n / 64).push(symbol(n % 64))
    }
}

/// The number that a token denotes as a numeral in base 64.
pub open spec fn counter_value(text: Seq<u8>) -> nat
    decreases text.len(),
{
    if text.len() == 0 {
        0
    } else {
        counter_value(text.drop_last()) * 64 + symbol_value(text.last())
    }
}

/// The symbol after `c` in the alphabet. For a byte that is no symbol, the
/// next byte, and zero after the last.
pub open spec fn next_symbol(c: u8) -> u8 {
    if c == 90 {
        97
    } else if c == 122 {
        48
    } else if c == 57 {
        43
    } else if c == 43 {
        47
    } else if c == 255 {
        0
    } else {
        (c + 1) as u8
    }
}

/// The numeral that follows `text`: its last symbol moves on by one, and a
/// last symbol that cannot move on goes back to `A` while the symbols
/// before it move on.
pub open spec fn successor(text: Seq<u8>) -> Seq<u8>
    decreases text.len(),
{
    if text.len() == 0 {
        seq![66u8]
    } else if text.last() == 47 {
        successor(text.drop_last()).push(65u8)
    } else {
        text.drop_last().push(next_symbol(text.last()))
    }
}

/// Symbols and their values correspond one to one.
pub proof fn lemma_symbol_value(v: nat)
    requires
        v < 64,
    ensures
        is_symbol(symbol(v)),
        symbol_value(symbol(v)) == v,
        v < 63 ==> next_symbol(symbol(v)) == symbol(v + 1) && symbol(v) != 47,
        v == 63 ==> symbol(v) == 47,
{
}

/// A counter numeral is a token, and denotes the number it was written for.
pub proof fn lemma_counter_value(n: nat)
    ensures
        is_token(counter_text(n)),
        counter_text(n).len() >= 1,
        counter_value(counter_text(n)) == n,
    decreases n,
{
    let text = counter_text(n);
    if n < 64 {
        lemma_symbol_value(n);
        assert(text.drop_last() =~= Seq::<u8>::empty());
        assert(counter_value(text.drop_last()) == 0);
    } else {
        lemma_counter_value(n / 64);
        lemma_symbol_value(n % 64);
        let head = counter_text(n / 64);
        assert(text.drop_last() =~= head);
        assert forall|i: int| 0 <= i < text.len() implies is_symbol(#[trigger] text[i]) by {
            if i < head.len() {
                assert(text[i] == head[i]);
            }
        }
    }
}

/// Two numbers with the same counter numeral are equal.
pub proof fn lemma_counter_text_injective(a: nat, b: nat)
    requires
        counter_text(a) == counter_text(b),
    ensures
        a == b,
{
    lemma_counter_value(a);
    lemma_counter_value(b);
}

/// The successor of the numeral of `n` is the numeral of `n + 1`.
pub proof fn lemma_successor(n: nat)
    ensures
        successor(counter_text(n)) == counter_text(n + 1),
    decreases n,
{
    let text = counter_text(n);
    if n < 64 {
        lemma_symbol_value(n);
        assert(text.drop_last() =~= Seq::<u8>::empty());
        if n == 63 {
            assert(successor(text.drop_last()) =~= seq![66u8]);
            assert(counter_text(1) =~= seq![66u8]);
            assert(successor(text) =~= counter_text(64));
        } else {
            assert(successor(text) =~= counter_text(n + 1));
        }
    } else {
        let head = counter_text(n / 64);
        lemma_symbol_value(n % 64);
        assert(text.drop_last() =~= head);
        assert(text.last() == symbol(n % 64));
        if n % 64 == 63 {
            lemma_successor(n / 64);
            assert((n + 1) / 64 == n / 64 + 1);
            assert((n + 1) % 64 == 0);
            assert(successor(text) =~= counter_text(n + 1));
        } else {
            assert((n + 1) / 64 == n / 64);
            assert((n + 1) % 64 == n % 64 + 1);
            assert(successor(text) =~= counter_text(n + 1));
        }
    }
}

/// Whether `c` is a symbol of the token alphabet.
pub fn is_symbol_byte(c: u8) -> (r: bool)
    ensures
        r == is_symbol(c),
{
    (65 <= c && c <= 90) || (97 <= c && c <= 122) || (48 <= c && c <= 57) || c == 43 || c == 47
}

/// Whether `text` is a token: a string of symbols, possibly empty.
pub fn is_token_bytes(text: &[u8]) -> (r: bool)
    ensures
        r == is_token(text@),
{
    let mut i: usize = 0;
    while i < text.len()
        invariant
            i <= text@.len(),
            forall|j: int| 0 <= j < i ==> is_symbol(#[trigger] text@[j]),
        decreases text@.len() - i,
    {
        if !is_symbol_byte(text[i]) {
            return false;
        }
        i += 1;
    }
    true
}

fn next_symbol_of(c: u8) -> (r: u8)
    ensures
        r == next_symbol(c),
{
    if c == 90 {
        97
    } else if c == 122 {
        48
    } else if c == 57 {
        43
    } else if c == 43 {
        47
    } else if c == 255 {
        0
    } else {
        c + 1
    }
}

/// Moves a counter numeral on to its successor, in place.
pub fn advance_counter(text: &mut Vec<u8>)
    ensures
        final(text)@ == successor(old(text)@),
{
    let mut i: usize = text.len();
    assert(old(text)@.take(i as int) =~= old(text)@);
    assert(successor(old(text)@) =~= successor(old(text)@) + text@.skip(i as int));
    while i > 0 && text[i - 1] == 47
        invariant
            i <= text@.len(),
            text@.len() == old(text)@.len(),
            text@.take(i as int) == old(text)@.take(i as int),
            successor(old(text)@) == successor(old(text)@.take(i as int)) + text@.skip(i as int),
        decreases i,
    {
        let ghost before = text@;
        let ghost head = old(text)@.take(i as int);
        assert(head.last() == before.take(i as int)[i - 1]);
        assert(head.drop_last() =~= old(text)@.take(i - 1));
        text.set(i - 1, 65);
        assert(text@.skip(i - 1) =~= seq![65u8] + before.skip(i as int));
        assert(successor(head) + before.skip(i as int) =~= successor(head.drop_last())
            + text@.skip(i - 1));
        assert(text@.take(i - 1) =~= before.take(i as int).take(i - 1));
        assert(old(text)@.take(i - 1) =~= old(text)@.take(i as int).take(i - 1));
        i -= 1;
    }
    if i == 0 {
        let ghost before = text@;
        assert(old(text)@.take(0) =~= Seq::<u8>::empty());
        assert(before.skip(0) =~= before);
        text.insert(0, 66);
        assert(text@ =~= seq![66u8] + before);
    } else {
        let ghost before = text@;
        let ghost head = old(text)@.take(i as int);
        let c: u8 = text[i - 1];
        assert(head.last() == before.take(i as int)[i - 1]);
        assert(head.drop_last() =~= before.take(i - 1));
        text.set(i - 1, next_symbol_of(c));
        assert(text@ =~= head.drop_last().push(next_symbol(c)) + before.skip(i as int));
    }
}

} // verus!
