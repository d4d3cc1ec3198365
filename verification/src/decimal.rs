//! Decimal numbers written as text: reading digits, rounding to hundredths and
//! writing the result.

use vstd::prelude::*;
use crate::text::{
    find_from, first_at, is_digit, is_digit_char, lemma_first_at, push_all, slice_chars,
};

verus! {

/// Ten to the power `n`.
pub open spec fn pow10(n: nat) -> nat
    decreases n,
{
    if n == 0 {
        1
    } else {
        10 * pow10((n - 1) as nat)
    }
}

/// The powers of ten are positive and grow with the exponent.
pub proof fn lemma_pow10_grows(a: nat, b: nat)
    requires
        a <= b,
    ensures
        0 < pow10(a) <= pow10(b),
    decreases b,
{
    if b > 0 {
        if a < b {
            lemma_pow10_grows(a, (b - 1) as nat);
        } else {
            lemma_pow10_grows((a - 1) as nat, (b - 1) as nat);
        }
    }
}

/// The power of a sum is the product of the powers.
pub proof fn lemma_pow10_sum(a: nat, b: nat)
    ensures
        pow10(a + b) == pow10(a) * pow10(b),
    decreases a,
{
    if a > 0 {
        lemma_pow10_sum((a - 1) as nat, b);
        assert(pow10(a + b) == 10 * pow10((a - 1 + b) as nat));
        assert(10 * (pow10((a - 1) as nat) * pow10(b)) == (10 * pow10((a - 1) as nat)) * pow10(b))
            by (nonlinear_arith);
    } else {
        assert(pow10(a + b) == pow10(b));
        assert(1 * pow10(b) == pow10(b));
    }
}

/// The powers of ten that the limits of this library are made of.
pub proof fn lemma_pow10_values()
    ensures
        pow10(1) == 10,
        pow10(2) == 100,
        pow10(12) == 1_000_000_000_000,
{
    reveal_with_fuel(pow10, 13);
}

/// The value of a decimal digit.
pub open spec fn digit_of(c: char) -> nat
    recommends
        is_digit(c),
{
    (c as u32 - '0' as u32) as nat
}

/// The decimal digit for a value below ten.
pub open spec fn digit_char(n: nat) -> char
    recommends
        n < 10,
{
    (n + 48) as char
}

/// Gives the value of a decimal digit.
pub(crate) fn digit_value(c: char) -> (n: u8)
    requires
        is_digit(c),
    ensures
        n == digit_of(c),
        n < 10,
{
    (c as u32 - '0' as u32) as u8
}

/// Gives the decimal digit for a value below ten.
pub(crate) fn digit_for(n: u8) -> (c: char)
    requires
        n < 10,
    ensures
        c == digit_char(n as nat),
        is_digit(c),
        digit_of(c) == n,
{
    (n + 48u8) as char
}

/// Every character of `s` is a decimal digit.
pub open spec fn all_digits(s: Seq<char>) -> bool {
    forall|i: int| 0 <= i < s.len() ==> is_digit(#[trigger] s[i])
}

/// Tells whether every character of `s` is a decimal digit.
pub fn only_digits(s: &Vec<char>) -> (yes: bool)
    ensures
        yes == all_digits(s@),
{
    let mut i: usize = 0;
    while i < s.len()
        invariant
            i <= s.len(),
            forall|j: int| 0 <= j < i ==> is_digit(#[trigger] s@[j]),
        decreases s.len() - i,
    {
        if !is_digit_char(s[i]) {
            return false;
        }
        i += 1;
    }
    true
}

/// The number that a run of digits denotes; zero for the empty run.
pub open spec fn digits_value(d: Seq<char>) -> nat
    decreases d.len(),
{
    if d.len() == 0 {
        0
    } else {
        digits_value(d.drop_last()) * 10 + digit_of(d.last())
    }
}

/// A run of `n` digits denotes a number below ten to the power `n`.
pub proof fn lemma_digits_value_bound(d: Seq<char>)
    requires
        all_digits(d),
    ensures
        digits_value(d) < pow10(d.len()),
    decreases d.len(),
{
    if d.len() > 0 {
        lemma_digits_value_bound(d.drop_last());
        assert(is_digit(d[d.len() - 1]));
    }
}

/// The decimal digits of `n`, without leading zeros.
pub open spec fn number_text(n: nat) -> Seq<char>
    decreases n,
{
    if n < 10 {
        seq![digit_char(n)]
    } else {
        number_text(n / 10).push(digit_char(n % 10))
    }
}

/// `n / d` rounded to the nearest whole number, a tie going to the even one.
pub open spec fn round_half_even(n: nat, d: nat) -> nat
    recommends
        d > 0,
{
    let q = n / d;
    let r = n % d;
    if 2 * r > d || (2 * r == d && q % 2 == 1) {
        q + 1
    } else {
        q
    }
}

/// A count of hundredths as text: the whole part, a dot and two digits, with a
/// minus sign in front if `negative`.
pub open spec fn hundredths_text(negative: bool, h: nat) -> Seq<char> {
    (if negative {
        seq!['-']
    } else {
        Seq::empty()
    }) + number_text(h / 100) + seq!['.', digit_char(h / 10 % 10), digit_char(h % 10)]
}

/// What stands in front of the first dot of `s`: all of `s` if it has no dot.
pub open spec fn whole_part(s: Seq<char>) -> Seq<char> {
    s.take(first_at(s, '.', 0))
}

/// What stands behind the first dot of `s`: nothing if it has no dot.
pub open spec fn fraction_part(s: Seq<char>) -> Seq<char> {
    let dot = first_at(s, '.', 0);
    if dot < s.len() {
        s.skip(dot + 1)
    } else {
        Seq::empty()
    }
}

/// The digits of a number, those of the fraction behind those of the whole part.
pub open spec fn number_digits(s: Seq<char>) -> Seq<char> {
    whole_part(s) + fraction_part(s)
}

/// `s` is a number without a sign: digits with at most one dot among them, at
/// their start or at their end, and at least one digit.
pub open spec fn is_number(s: Seq<char>) -> bool {
    all_digits(number_digits(s)) && number_digits(s).len() >= 1
}

/// Every digit of the number `s` is a zero.
pub open spec fn is_zero_number(s: Seq<char>) -> bool {
    forall|i: int| 0 <= i < number_digits(s).len() ==> #[trigger] number_digits(s)[i] == '0'
}

/// The digits of `s` as one vector, if `s` is a number.
pub fn read_digits(s: &Vec<char>) -> (digits: Option<Vec<char>>)
    ensures
        digits is Some <==> is_number(s@),
        digits is Some ==> digits->0@ == number_digits(s@),
{
    proof {
        lemma_first_at(s@, '.', 0);
    }
    let dot: usize = find_from(s, '.', 0);
    let mut digits = slice_chars(s, 0, dot);
    assert(digits@ == whole_part(s@));
    if dot < s.len() {
        let fraction = slice_chars(s, dot + 1, s.len());
        push_all(&mut digits, &fraction);
    }
    assert(digits@ =~= number_digits(s@));
    if digits.len() >= 1 && only_digits(&digits) {
        Some(digits)
    } else {
        None
    }
}

/// The number of characters behind the first dot of `s`.
pub fn fraction_len(s: &Vec<char>) -> (n: usize)
    ensures
        n == fraction_part(s@).len(),
{
    proof {
        lemma_first_at(s@, '.', 0);
    }
    let dot: usize = find_from(s, '.', 0);
    if dot < s.len() {
        s.len() - dot - 1
    } else {
        0
    }
}

/// Tells whether every character of `digits` is a zero.
pub fn only_zeros(digits: &Vec<char>) -> (yes: bool)
    ensures
        yes == (forall|i: int| 0 <= i < digits.len() ==> #[trigger] digits@[i] == '0'),
{
    let mut i: usize = 0;
    while i < digits.len()
        invariant
            i <= digits.len(),
            forall|j: int| 0 <= j < i ==> #[trigger] digits@[j] == '0',
        decreases digits.len() - i,
    {
        if digits[i] != '0' {
            return false;
        }
        i += 1;
    }
    true
}

} // verus!
