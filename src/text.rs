//! Decimal text of numbers, for messages.
use vstd::prelude::*;

use crate::hex::hex_digit;

verus! {

/// The decimal digits of `n`, without leading zeros.
pub open spec fn decimal(n: nat) -> Seq<char>
    decreases n,
{
    if n < 10 {
        seq![hex_digit(n as u8)]
    } else {
        decimal(n / 10) + seq![hex_digit((n % 10) as u8)]
    }
}

fn digit_str(d: u64) -> (r: &'static str)
    requires
        d < 10,
    ensures
        r@ == seq![hex_digit(d as u8)],
{
    proof {
        reveal_strlit("0");
        reveal_strlit("1");
        reveal_strlit("2");
        reveal_strlit("3");
        reveal_strlit("4");
        reveal_strlit("5");
        reveal_strlit("6");
        reveal_strlit("7");
        reveal_strlit("8");
        reveal_strlit("9");
    }
    match d {
        0 => "0",
        1 => "1",
        2 => "2",
        3 => "3",
        4 => "4",
        5 => "5",
        6 => "6",
        7 => "7",
        8 => "8",
        _ => "9",
    }
}

/// Appends the decimal digits of `n`.
pub fn push_decimal(s: &mut String, n: u64)
    ensures
        final(s)@ == old(s)@ + decimal(n as nat),
    decreases n,
{
    if n >= 10 {
        push_decimal(s, n / 10);
    }
    s.append(digit_str(n % 10));
    proof {
        if n >= 10 {
            assert(decimal(n as nat) == decimal((n / 10) as nat) + seq![hex_digit((n % 10) as u8)]);
        } else {
            assert(old(s)@ + decimal(n as nat) =~= old(s)@ + seq![hex_digit(n as u8)]);
        }
    }
    assert(s@ =~= old(s)@ + decimal(n as nat));
}

pub open spec fn is_digit(c: char) -> bool {
    '0' <= c && c <= '9'
}

/// The number that a string of decimal digits stands for.
pub open spec fn digits_value(s: Seq<char>) -> nat
    decreases s.len(),
{
    if s.len() == 0 {
        0
    } else {
        digits_value(s.drop_last()) * 10 + (s.last() as u32 - '0' as u32) as nat
    }
}

/// The digits of a number's text, after an optional `+`.
pub open spec fn unsigned_digits(s: Seq<char>) -> Seq<char> {
    if s.len() > 0 && s[0] == '+' {
        s.subrange(1, s.len() as int)
    } else {
        s
    }
}

/// The `u16` that a text stands for: an optional `+`, then at least one
/// decimal digit, with a value that fits.
pub open spec fn u16_of_text(s: Seq<char>) -> Option<u16> {
    let d = unsigned_digits(s);
    if d.len() > 0 && (forall|i: int| 0 <= i < d.len() ==> is_digit(#[trigger] d[i])) && digits_value(d)
        <= u16::MAX {
        Some(digits_value(d) as u16)
    } else {
        None
    }
}

proof fn lemma_digits_value_grows(d: Seq<char>, i: int)
    requires
        0 <= i <= d.len(),
        forall|j: int| 0 <= j < d.len() ==> is_digit(#[trigger] d[j]),
    ensures
        digits_value(d.take(i)) <= digits_value(d),
    decreases d.len() - i,
{
    if i < d.len() {
        lemma_digits_value_grows(d, i + 1);
        assert(d.take(i + 1).drop_last() =~= d.take(i));
    } else {
        assert(d.take(i) =~= d);
    }
}

/// Reads a `u16` the way `str::parse` does.
pub fn parse_u16(s: &str) -> (r: Option<u16>)
    ensures
        r == u16_of_text(s@),
{
    let len = s.unicode_len();
    let mut i: usize = 0;
    if len > 0 && s.get_char(0) == '+' {
        i = 1;
    }
    let start = i;
    let ghost d = unsigned_digits(s@);
    assert(d =~= s@.subrange(start as int, len as int));
    if start == len {
        return None;
    }
    let mut value: u32 = 0;
    while i < len
        invariant
            len == s@.len(),
            start <= i <= len,
            d == s@.subrange(start as int, len as int),
            d == unsigned_digits(s@),
            value as nat == digits_value(d.take(i - start)),
            value <= u16::MAX,
            forall|j: int| 0 <= j < i - start ==> is_digit(#[trigger] d[j]),
        decreases len - i,
    {
        let c = s.get_char(i);
        assert(c == d[i - start]);
        if !('0' <= c && c <= '9') {
            proof {
                assert(!is_digit(d[i - start]));
                assert(!(forall|j: int| 0 <= j < d.len() ==> is_digit(#[trigger] d[j])));
                assert(u16_of_text(s@) is None);
            }
            return None;
        }
        assert(d.take(i - start + 1).drop_last() =~= d.take(i - start));
        let next: u32 = value * 10 + (c as u32 - '0' as u32);
        assert(d.take(i - start + 1).last() == c);
        assert(next as nat == digits_value(d.take(i - start + 1)));
        i += 1;
        if next > 65535 {
            proof {
                if forall|j: int| 0 <= j < d.len() ==> is_digit(#[trigger] d[j]) {
                    lemma_digits_value_grows(d, i - start);
                    assert(digits_value(d) > u16::MAX);
                }
                assert(u16_of_text(s@) is None);
            }
            return None;
        }
        value = next;
    }
    assert(d.take(len - start) =~= d);
    Some(value as u16)
}

} // verus!
