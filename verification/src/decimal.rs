//! Decimal numbers as text.

use vstd::prelude::*;

verus! {

/// Whether `c` is one of the ten decimal digits.
pub open spec fn is_digit(c: char) -> bool {
    '0' as u32 <= c as u32 <= '9' as u32
}

/// The number that a run of decimal digits stands for.
pub open spec fn digits_value(s: Seq<char>) -> nat
    decreases s.len(),
{
    if s.len() == 0 {
        0
    } else {
        10 * digits_value(s.drop_last()) + (s.last() as u32 - '0' as u32) as nat
    }
}

/// The text without its leading plus sign, if it has one.
pub open spec fn without_plus(s: Seq<char>) -> Seq<char> {
    if s.len() > 0 && s[0] == '+' {
        s.drop_first()
    } else {
        s
    }
}

/// The unsigned number that `s` denotes: an optional plus sign, then one or more
/// digits and nothing else.
pub open spec fn decimal_value(s: Seq<char>) -> Option<nat> {
    let digits = without_plus(s);
    if digits.len() > 0 && forall|i: int| 0 <= i < digits.len() ==> is_digit(#[trigger] digits[i]) {
        Some(digits_value(digits))
    } else {
        None
    }
}

/// Bytes read as text, one character each.
pub open spec fn byte_text(s: Seq<u8>) -> Seq<char> {
    Seq::new(s.len(), |i: int| s[i] as char)
}

/// A longer run of digits never stands for a smaller number.
proof fn lemma_digits_value_grows(s: Seq<char>, n: int)
    requires
        0 <= n <= s.len(),
    ensures
        digits_value(s.take(n)) <= digits_value(s),
    decreases s.len() - n,
{
    if n < s.len() {
        lemma_digits_value_grows(s, n + 1);
        assert(s.take(n + 1).drop_last() =~= s.take(n));
    } else {
        assert(s.take(n) =~= s);
    }
}

/// Reads a decimal number of at most 255 from `field`.
pub fn decimal_u8(field: &Vec<u8>) -> (value: Option<u8>)
    ensures
        match decimal_value(byte_text(field@)) {
            Some(n) => value == (if n <= 255 {
                Some(n as u8)
            } else {
                None
            }),
            None => value is None,
        },
{
    let start: usize = if field.len() > 0 && field[0] == 43 {
        1
    } else {
        0
    };
    let ghost text: Seq<char> = byte_text(field@);
    let ghost digits: Seq<char> = without_plus(text);
    assert(digits =~= text.skip(start as int));
    let mut acc: u32 = 0;
    let mut i: usize = start;
    while i < field.len()
        invariant
            start <= i <= field.len(),
            acc <= 255,
            text == byte_text(field@),
            digits == text.skip(start as int),
            digits == without_plus(text),
            acc == digits_value(digits.take(i - start)),
            forall|k: int| 0 <= k < i - start ==> is_digit(#[trigger] digits[k]),
        decreases field.len() - i,
    {
        let b: u8 = field[i];
        assert(digits[i - start] == b as char);
        if b < 48 || b > 57 {
            assert(!is_digit(digits[i - start]));
            return None;
        }
        acc = acc * 10 + (b - 48) as u32;
        assert(digits.take(i - start + 1).drop_last() =~= digits.take(i - start));
        if acc > 255 {
            proof {
                lemma_digits_value_grows(digits, i - start + 1);
            }
            return None;
        }
        i = i + 1;
    }
    assert(digits.take(i - start) =~= digits);
    if i == start {
        None
    } else {
        Some(acc as u8)
    }
}

/// Ten to the power `n`.
pub open spec fn ten_to(n: nat) -> nat {
    vstd::arithmetic::power::pow(10, n) as nat
}

/// Digits in front of others count as many tens more as there are others.
pub proof fn digits_have_places(a: Seq<char>, b: Seq<char>)
    ensures
        digits_value(a + b) == digits_value(a) * ten_to(b.len()) + digits_value(b),
    decreases b.len(),
{
    vstd::arithmetic::power::lemma_pow0(10);
    if b.len() == 0 {
        assert(a + b =~= a);
        assert(digits_value(b) == 0);
        assert(digits_value(a) * 1 == digits_value(a));
    } else {
        let shorter = b.drop_last();
        digits_have_places(a, shorter);
        assert((a + b).drop_last() =~= a + shorter);
        assert((a + b).last() == b.last());
        reveal(vstd::arithmetic::power::pow);
        vstd::arithmetic::power::lemma_pow_positive(10, shorter.len());
        let v = digits_value(a);
        let span = ten_to(shorter.len());
        assert(ten_to(b.len()) == 10 * span);
        assert(10 * (v * span) == v * (10 * span)) by (nonlinear_arith);
        assert(v * ten_to(b.len()) == 10 * (v * span));
    }
}

/// A digit counts what it says.
pub proof fn digit_counts_what_it_says(c: char)
    ensures
        is_digit(c) <==> 48 <= c as u32 <= 57,
        is_digit(c) ==> digits_value(seq![c]) == c as u32 - 48,
{
    assert(seq![c].drop_last() =~= Seq::empty());
    reveal_with_fuel(digits_value, 2);
    assert('0' as u32 == 48 && '9' as u32 == 57);
}

/// A text denotes a number if it is one or more digits, with or without one plus sign in
/// front, which changes nothing; no other text does.
pub proof fn numbers_are_digits(s: Seq<char>)
    ensures
        (s.len() > 0 && forall|i: int| 0 <= i < s.len() ==> 48 <= (#[trigger] s[i]) as u32 <= 57)
            ==> decimal_value(s) == Some(digits_value(s)) && decimal_value(seq!['+'] + s) == Some(
            digits_value(s),
        ),
        decimal_value(s) is Some ==> s.len() > 0 && (48 <= s.last() as u32 <= 57) && (s[0] == '+' || 48
            <= s[0] as u32 <= 57) && forall|i: int|
            1 <= i < s.len() ==> 48 <= (#[trigger] s[i]) as u32 <= 57,
{
    assert('0' as u32 == 48 && '9' as u32 == 57 && '+' as u32 == 43);
    let signed = seq!['+'] + s;
    assert(signed.drop_first() =~= s);
    let digits = without_plus(s);
    if decimal_value(s) is Some {
        assert(is_digit(digits[digits.len() - 1]));
        assert(is_digit(digits[0]));
        assert forall|i: int| 1 <= i < s.len() implies 48 <= (#[trigger] s[i]) as u32 <= 57 by {
            if s[0] == '+' {
                assert(digits[i - 1] == s[i]);
            } else {
                assert(digits[i] == s[i]);
            }
            assert(is_digit(s[i]));
        }
    }
    if s.len() > 0 && forall|i: int| 0 <= i < s.len() ==> 48 <= (#[trigger] s[i]) as u32 <= 57 {
        assert(48 <= s[0] as u32 <= 57);
        assert(s[0] != '+');
        assert forall|i: int| 0 <= i < s.len() implies is_digit(#[trigger] s[i]) by {}
    }
}

} // verus!
