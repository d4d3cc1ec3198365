//! Amounts of money: text that may hold a small calculation and that settles on
//! a positive number with two digits behind the dot.
//!
//! Numbers are decimal numbers of any size and are calculated with exactly.
//! Each result is rounded to hundredths, a tie going to the even digit.

use vstd::prelude::*;
use crate::big::{
    is_digits, is_zero, lemma_value_small, minus, multiply, plus, raise, read_big, round_divide,
    value, write_big_hundredths,
};
use crate::decimal::{
    all_digits, digits_value, fraction_len, fraction_part, hundredths_text, is_number,
    is_zero_number, lemma_digits_value_bound, lemma_pow10_grows, lemma_pow10_sum,
    lemma_pow10_values, number_digits, only_zeros, pow10, read_digits, round_half_even,
    whole_part,
};
use crate::outputs::{AType, NAType, StepType, SteppingError, VerifyingOutput};
use crate::text::{
    find_from, first_at, is_digit, is_numeral, is_numeral_char, keep, lemma_first_at,
    lemma_first_at_is, lemma_keep, push_all, replace_chars, replaced, slice_chars, text_chars,
};

verus! {

/// One of the four signs of calculation.
pub open spec fn is_symbol(c: char) -> bool {
    c == '*' || c == '/' || c == '+' || c == '-'
}

/// Tells whether `c` is a sign of calculation.
pub fn is_symbol_char(c: char) -> (yes: bool)
    ensures
        yes == is_symbol(c),
{
    c == '*' || c == '/' || c == '+' || c == '-'
}

/// The signs of calculation, as a set.
pub open spec fn symbols() -> Set<char> {
    Set::new(|c: char| is_symbol(c))
}

/// What the text of an amount may hold: numerals, the dot and the four signs.
pub open spec fn amount_chars() -> Set<char> {
    Set::new(|c: char| is_numeral(c) || c == '.' || is_symbol(c))
}

/// The most characters that an amount keeps in front of its dot.
pub const WHOLE_LIMIT: usize = 10;

/// The largest amount, in hundredths.
pub const CEILING: u64 = 999_999_999_999;

/// A number that can take part in a calculation. It is given as the pair of
/// its digits read as one whole number and the count of those that stand
/// behind the dot, so that `(u, k)` stands for `u / pow10(k)`.
pub open spec fn operand(s: Seq<char>) -> Option<(nat, nat)> {
    if is_number(s) {
        Some((digits_value(number_digits(s)), fraction_part(s).len()))
    } else {
        None
    }
}

/// The result of `left symbol right`, rounded to hundredths, as text. The
/// result of a subtraction carries a minus sign if `right` is the larger side,
/// also where it is rounded to zero. There is no result if a side is no
/// operand, if `symbol` is no sign of calculation, or on division by zero.
pub open spec fn combine(left: Seq<char>, symbol: char, right: Seq<char>) -> Option<Seq<char>> {
    match (operand(left), operand(right)) {
        (Some(x), Some(y)) => {
            let unit = pow10(x.1 + y.1);
            let a = x.0 * pow10(y.1);
            let b = y.0 * pow10(x.1);
            if symbol == '*' {
                Some(hundredths_text(false, round_half_even(x.0 * y.0 * 100, unit)))
            } else if symbol == '/' {
                if y.0 == 0 {
                    None
                } else {
                    Some(hundredths_text(false, round_half_even(a * 100, b)))
                }
            } else if symbol == '+' {
                Some(hundredths_text(false, round_half_even((a + b) * 100, unit)))
            } else if symbol != '-' {
                None
            } else if a >= b {
                Some(hundredths_text(false, round_half_even(((a - b) * 100) as nat, unit)))
            } else {
                Some(hundredths_text(true, round_half_even(((b - a) * 100) as nat, unit)))
            }
        },
        _ => None,
    }
}

/// The view of an optional vector.
pub open spec fn seen(value: Option<Vec<char>>) -> Option<Seq<char>> {
    match value {
        Some(v) => Some(v@),
        None => None,
    }
}

/// The number one.
fn one() -> (d: Vec<u8>)
    ensures
        is_digits(d@),
        value(d@) == 1,
{
    let mut d: Vec<u8> = Vec::new();
    d.push(1);
    proof {
        assert(d@ =~= seq![1u8]);
        lemma_value_small(1);
    }
    d
}

/// Calculates `left symbol right`, both sides being text.
pub fn combine_numbers(left: &Vec<char>, symbol: char, right: &Vec<char>) -> (result: Option<
    Vec<char>,
>)
    ensures
        seen(result) == combine(left@, symbol, right@),
{
    let x_digits = match read_digits(left) {
        Some(d) => d,
        None => {
            return None;
        },
    };
    let y_digits = match read_digits(right) {
        Some(d) => d,
        None => {
            return None;
        },
    };
    let x = read_big(&x_digits);
    let y = read_big(&y_digits);
    let x_scale: usize = fraction_len(left);
    let y_scale: usize = fraction_len(right);
    let ghost xv = value(x@);
    let ghost yv = value(y@);
    let ghost xp = pow10(x_scale as nat);
    let ghost yp = pow10(y_scale as nat);
    proof {
        lemma_pow10_values();
        lemma_pow10_sum(x_scale as nat, y_scale as nat);
        lemma_pow10_grows(0, x_scale as nat);
        lemma_pow10_grows(0, y_scale as nat);
        assert(1 * xp * yp == xp * yp) by (nonlinear_arith);
        assert(xp * yp > 0) by (nonlinear_arith)
            requires
                xp > 0,
                yp > 0,
        ;
    }
    let unit = raise(&raise(&one(), x_scale), y_scale);
    let a = raise(&x, y_scale);
    let b = raise(&y, x_scale);
    if symbol == '*' {
        let n = raise(&multiply(&x, &y), 2);
        Some(write_big_hundredths(false, &round_divide(&n, &unit)))
    } else if symbol == '/' {
        if is_zero(&y) {
            None
        } else {
            assert(yv * xp > 0) by (nonlinear_arith)
                requires
                    yv > 0,
                    xp > 0,
            ;
            let n = raise(&a, 2);
            Some(write_big_hundredths(false, &round_divide(&n, &b)))
        }
    } else if symbol == '+' {
        let n = raise(&plus(&a, &b), 2);
        Some(write_big_hundredths(false, &round_divide(&n, &unit)))
    } else if symbol != '-' {
        None
    } else {
        let (gap, borrow) = minus(&a, &b);
        if borrow == 0 {
            let n = raise(&gap, 2);
            Some(write_big_hundredths(false, &round_divide(&n, &unit)))
        } else {
            let (other, _) = minus(&b, &a);
            let n = raise(&other, 2);
            Some(write_big_hundredths(true, &round_divide(&n, &unit)))
        }
    }
}

/// The number of signs of calculation in `s`.
pub open spec fn symbol_count(s: Seq<char>) -> nat {
    keep(s, symbols()).len()
}

/// Counts the signs of calculation in `s`.
pub fn count_symbols(s: &Vec<char>) -> (n: usize)
    ensures
        n == symbol_count(s@),
{
    let mut n: usize = 0;
    let mut i: usize = 0;
    while i < s.len()
        invariant
            i <= s.len(),
            n <= i,
            n == symbol_count(s@.take(i as int)),
        decreases s.len() - i,
    {
        assert(s@.take(i + 1).drop_last() == s@.take(i as int));
        if is_symbol_char(s[i]) {
            n += 1;
        }
        i += 1;
    }
    assert(s@.take(s.len() as int) == s@);
    n
}

/// The sign that is worked on next: the first of `*`, `/`, `+`, `-` that `w`
/// holds.
pub open spec fn next_symbol(w: Seq<char>) -> Option<char> {
    if first_at(w, '*', 0) < w.len() {
        Some('*')
    } else if first_at(w, '/', 0) < w.len() {
        Some('/')
    } else if first_at(w, '+', 0) < w.len() {
        Some('+')
    } else if first_at(w, '-', 0) < w.len() {
        Some('-')
    } else {
        None
    }
}

/// Where the run of characters that are no signs, and that ends before index
/// `k`, begins.
pub open spec fn run_start(w: Seq<char>, k: int) -> int
    decreases k,
{
    if 0 < k <= w.len() && !is_symbol(w[k - 1]) {
        run_start(w, k - 1)
    } else {
        k
    }
}

/// Where the run of characters that are no signs, and that begins at index
/// `k`, ends.
pub open spec fn run_end(w: Seq<char>, k: int) -> int
    decreases w.len() - k,
{
    if 0 <= k < w.len() && !is_symbol(w[k]) {
        run_end(w, k + 1)
    } else {
        k
    }
}

/// One round of the calculation: the numbers on both sides of the sign that is
/// worked on next are replaced, together with the sign, by their result, and
/// so is every further place where the same numbers stand on both sides of
/// the same sign. Where a side is empty the other side stands for the result.
/// A text without a sign stays as it is; there is no result where the two
/// sides cannot be combined.
pub open spec fn reduce_once(w: Seq<char>) -> Option<Seq<char>> {
    match next_symbol(w) {
        None => Some(w),
        Some(symbol) => {
            let at = first_at(w, symbol, 0);
            let from = run_start(w, at);
            let to = run_end(w, at + 1);
            let left = w.subrange(from, at);
            let right = w.subrange(at + 1, to);
            let value = if left.len() == 0 {
                Some(right)
            } else if right.len() == 0 {
                Some(left)
            } else {
                combine(left, symbol, right)
            };
            match value {
                Some(v) => Some(replaced(w, left + seq![symbol] + right, v)),
                None => None,
            }
        },
    }
}

/// `rounds` rounds of the calculation, one after the other.
pub open spec fn reduce(w: Seq<char>, rounds: nat) -> Option<Seq<char>>
    decreases rounds,
{
    if rounds == 0 {
        Some(w)
    } else {
        match reduce_once(w) {
            Some(next) => reduce(next, (rounds - 1) as nat),
            None => None,
        }
    }
}

/// Finds the sign that is worked on next, and its first place.
fn pick_symbol(w: &Vec<char>) -> (found: Option<(char, usize)>)
    ensures
        match found {
            Some((symbol, at)) => next_symbol(w@) == Some(symbol) && at == first_at(w@, symbol, 0)
                && at < w.len() && is_symbol(symbol),
            None => next_symbol(w@) is None,
        },
{
    let star: usize = find_from(w, '*', 0);
    if star < w.len() {
        return Some(('*', star));
    }
    let slash: usize = find_from(w, '/', 0);
    if slash < w.len() {
        return Some(('/', slash));
    }
    let plus: usize = find_from(w, '+', 0);
    if plus < w.len() {
        return Some(('+', plus));
    }
    let minus: usize = find_from(w, '-', 0);
    if minus < w.len() {
        return Some(('-', minus));
    }
    None
}

/// Carries out one round of the calculation.
pub fn reduce_step(w: &Vec<char>) -> (next: Option<Vec<char>>)
    ensures
        seen(next) == reduce_once(w@),
{
    let (symbol, at) = match pick_symbol(w) {
        None => {
            let same = slice_chars(w, 0, w.len());
            assert(same@ == w@);
            return Some(same);
        },
        Some(found) => found,
    };
    let mut from: usize = at;
    while from > 0 && !is_symbol_char(w[from - 1])
        invariant
            from <= at < w.len(),
            run_start(w@, at as int) == run_start(w@, from as int),
        decreases from,
    {
        from -= 1;
    }
    let mut to: usize = at + 1;
    while to < w.len() && !is_symbol_char(w[to])
        invariant
            at < to <= w.len(),
            run_end(w@, at + 1) == run_end(w@, to as int),
        decreases w.len() - to,
    {
        to += 1;
    }
    let left = slice_chars(w, from, at);
    let right = slice_chars(w, at + 1, to);
    let pattern = slice_chars(w, from, to);
    proof {
        lemma_first_at(w@, symbol, 0);
        assert(pattern@ =~= left@ + seq![symbol] + right@);
    }
    let value = if left.len() == 0 {
        Some(right)
    } else if right.len() == 0 {
        Some(left)
    } else {
        combine_numbers(&left, symbol, &right)
    };
    match value {
        None => None,
        Some(v) => Some(replace_chars(w, &pattern, &v)),
    }
}

/// The text with its fraction made explicit: `.00` is put behind a text without
/// a dot, and `00` behind one where nothing stands between the first dot and
/// the next dot or the end.
pub open spec fn with_fraction(w: Seq<char>) -> Seq<char> {
    let dot = first_at(w, '.', 0);
    if dot < w.len() {
        if first_at(w, '.', dot + 1) == dot + 1 {
            w + seq!['0', '0']
        } else {
            w
        }
    } else {
        w + seq!['.', '0', '0']
    }
}

/// Makes the fraction of the text explicit.
pub fn add_fraction(w: &mut Vec<char>)
    ensures
        final(w)@ == with_fraction(old(w)@),
{
    proof {
        lemma_first_at(w@, '.', 0);
    }
    let dot: usize = find_from(w, '.', 0);
    if dot < w.len() {
        let next: usize = find_from(w, '.', dot + 1);
        if next == dot + 1 {
            w.push('0');
            w.push('0');
            assert(w@ =~= old(w)@ + seq!['0', '0']);
        }
    } else {
        w.push('.');
        w.push('0');
        w.push('0');
        assert(w@ =~= old(w)@ + seq!['.', '0', '0']);
    }
}

/// The first `limit` characters of `s`, or all of `s` if it has fewer.
pub open spec fn at_most(s: Seq<char>, limit: int) -> Seq<char> {
    if s.len() > limit {
        s.take(limit)
    } else {
        s
    }
}

/// The canonical text of a positive number: its whole part cut to ten
/// characters, a dot, and its fraction filled or cut to two digits.
pub open spec fn canonical(t: Seq<char>) -> Seq<char> {
    at_most(whole_part(t), WHOLE_LIMIT as int) + seq!['.'] + at_most(
        fraction_part(t) + seq!['0'],
        2,
    )
}

/// The last stage of validation, on a text whose calculation is done.
///
/// A text that is no number, with or without a minus sign in front, is a
/// parsing error. A number that is zero or negative is rewritten as the
/// positive number of the same size, rounded to hundredths, and is not
/// accepted. A positive number is accepted in its canonical text.
pub open spec fn settle(t: Seq<char>) -> (VerifyingOutput, Seq<char>) {
    let negative = t.len() > 0 && t[0] == '-';
    let body = if negative {
        t.skip(1)
    } else {
        t
    };
    if !is_number(body) {
        (VerifyingOutput::NotAccepted(NAType::ParsingError(AType::Amount)), t)
    } else if is_zero_number(body) {
        (VerifyingOutput::NotAccepted(NAType::AmountBelowZero), "0.00"@)
    } else if negative {
        (
            VerifyingOutput::NotAccepted(NAType::AmountBelowZero),
            hundredths_text(
                false,
                round_half_even(
                    digits_value(number_digits(body)) * 100,
                    pow10(fraction_part(body).len()),
                ),
            ),
        )
    } else {
        (VerifyingOutput::Accepted(AType::Amount), canonical(t))
    }
}

/// Carries out the last stage of validation.
pub fn settle_amount(t: Vec<char>) -> (r: (VerifyingOutput, Vec<char>))
    ensures
        (r.0, r.1@) == settle(t@),
{
    let negative: bool = t.len() > 0 && t[0] == '-';
    let body = if negative {
        slice_chars(&t, 1, t.len())
    } else {
        slice_chars(&t, 0, t.len())
    };
    assert(body@ == if negative {
        t@.skip(1)
    } else {
        t@
    });
    let digits = match read_digits(&body) {
        Some(d) => d,
        None => {
            return (VerifyingOutput::NotAccepted(NAType::ParsingError(AType::Amount)), t);
        },
    };
    if only_zeros(&digits) {
        return (VerifyingOutput::NotAccepted(NAType::AmountBelowZero), text_chars("0.00"));
    }
    if negative {
        let units = read_big(&digits);
        let scale: usize = fraction_len(&body);
        proof {
            lemma_pow10_values();
            lemma_pow10_grows(0, scale as nat);
            assert(1 * pow10(scale as nat) == pow10(scale as nat));
        }
        let n = raise(&units, 2);
        let d = raise(&one(), scale);
        let mirrored = write_big_hundredths(false, &round_divide(&n, &d));
        return (VerifyingOutput::NotAccepted(NAType::AmountBelowZero), mirrored);
    }
    proof {
        lemma_first_at(t@, '.', 0);
    }
    let dot: usize = find_from(&t, '.', 0);
    let whole_end: usize = if dot > WHOLE_LIMIT {
        WHOLE_LIMIT
    } else {
        dot
    };
    let mut fixed = slice_chars(&t, 0, whole_end);
    assert(fixed@ == at_most(whole_part(t@), WHOLE_LIMIT as int));
    fixed.push('.');
    let mut fraction = if dot < t.len() {
        slice_chars(&t, dot + 1, t.len())
    } else {
        Vec::new()
    };
    assert(fraction@ =~= fraction_part(t@));
    fraction.push('0');
    let kept: usize = if fraction.len() > 2 {
        2
    } else {
        fraction.len()
    };
    let cut = slice_chars(&fraction, 0, kept);
    assert(cut@ == at_most(fraction_part(t@) + seq!['0'], 2));
    push_all(&mut fixed, &cut);
    assert(fixed@ =~= canonical(t@));
    (VerifyingOutput::Accepted(AType::Amount), fixed)
}

/// What validation makes of the text of an amount: the outcome and the text
/// that the buffer holds afterwards.
///
/// An empty text is left alone. Otherwise only numerals, dots and signs of
/// calculation are kept. If nothing is left, or the calculation has no result,
/// that is a parsing error and the buffer holds what was kept. Else there is
/// one round of calculation for each sign, and the text is settled.
pub open spec fn amount_check(s: Seq<char>) -> (VerifyingOutput, Seq<char>) {
    let kept = keep(s, amount_chars());
    if s.len() == 0 {
        (VerifyingOutput::Nothing(AType::Amount), s)
    } else if kept.len() == 0 {
        (VerifyingOutput::NotAccepted(NAType::ParsingError(AType::Amount)), kept)
    } else {
        match reduce(kept, symbol_count(kept)) {
            None => (VerifyingOutput::NotAccepted(NAType::ParsingError(AType::Amount)), kept),
            Some(w) => settle(with_fraction(w)),
        }
    }
}

/// Keeps the numerals, the dots and the signs of calculation of `s`.
fn keep_amount_chars(s: &Vec<char>) -> (kept: Vec<char>)
    ensures
        kept@ == keep(s@, amount_chars()),
{
    let mut kept: Vec<char> = Vec::new();
    let mut i: usize = 0;
    while i < s.len()
        invariant
            i <= s.len(),
            kept@ == keep(s@.take(i as int), amount_chars()),
        decreases s.len() - i,
    {
        assert(s@.take(i + 1).drop_last() == s@.take(i as int));
        let c: char = s[i];
        if is_numeral_char(c) || c == '.' || is_symbol_char(c) {
            kept.push(c);
        }
        i += 1;
    }
    assert(s@.take(s.len() as int) == s@);
    kept
}

/// Validates the text of an amount.
pub fn check_amount(text: &Vec<char>) -> (r: (VerifyingOutput, Vec<char>))
    ensures
        (r.0, r.1@) == amount_check(text@),
{
    if text.len() == 0 {
        return (VerifyingOutput::Nothing(AType::Amount), Vec::new());
    }
    let kept = keep_amount_chars(text);
    if kept.len() == 0 {
        return (VerifyingOutput::NotAccepted(NAType::ParsingError(AType::Amount)), kept);
    }
    let rounds: usize = count_symbols(&kept);
    let mut working = slice_chars(&kept, 0, kept.len());
    assert(working@ == kept@);
    let mut done: usize = 0;
    while done < rounds
        invariant
            done <= rounds,
            text.len() > 0,
            kept.len() > 0,
            kept@ == keep(text@, amount_chars()),
            rounds == symbol_count(kept@),
            reduce(kept@, rounds as nat) == reduce(working@, (rounds - done) as nat),
        decreases rounds - done,
    {
        let ghost before = working@;
        match reduce_step(&working) {
            None => {
                assert(reduce(before, (rounds - done) as nat) is None);
                return (VerifyingOutput::NotAccepted(NAType::ParsingError(AType::Amount)), kept);
            },
            Some(next) => {
                working = next;
            },
        }
        assert(reduce(before, (rounds - done) as nat) == reduce(
            working@,
            (rounds - done - 1) as nat,
        ));
        done += 1;
    }
    add_fraction(&mut working);
    settle_amount(working)
}

/// The text is an amount as validation accepts it: at most ten digits, a dot
/// and two digits.
pub open spec fn is_canonical_amount(b: Seq<char>) -> bool {
    &&& first_at(b, '.', 0) <= WHOLE_LIMIT
    &&& b.len() == first_at(b, '.', 0) + 3
    &&& all_digits(whole_part(b))
    &&& all_digits(fraction_part(b))
}

/// A positive number that has a digit behind its dot settles on a canonical
/// amount.
proof fn lemma_canonical_shape(t: Seq<char>)
    requires
        is_number(t),
        fraction_part(t).len() >= 1,
    ensures
        is_canonical_amount(canonical(t)),
{
    let b = canonical(t);
    let whole = at_most(whole_part(t), WHOLE_LIMIT as int);
    let fraction = at_most(fraction_part(t) + seq!['0'], 2);
    lemma_first_at(t, '.', 0);
    assert forall|j: int| 0 <= j < whole.len() implies is_digit(whole[j]) && whole[j] != '.' by {
        assert(whole[j] == number_digits(t)[j]);
    }
    assert forall|j: int| 0 <= j < fraction.len() implies is_digit(#[trigger] fraction[j]) by {
        if j < fraction_part(t).len() {
            assert(fraction[j] == number_digits(t)[whole_part(t).len() + j]);
        }
    }
    assert(b[whole.len() as int] == '.');
    assert forall|j: int| 0 <= j < whole.len() implies b[j] != '.' by {
        assert(b[j] == whole[j]);
    }
    lemma_first_at_is(b, '.', 0, whole.len() as int);
    assert(whole_part(b) =~= whole);
    assert(fraction_part(b) =~= fraction);
}

/// The text that validation hands to the last stage has a digit behind its
/// dot, if it is a number.
proof fn lemma_with_fraction(w: Seq<char>)
    requires
        is_number(with_fraction(w)),
    ensures
        fraction_part(with_fraction(w)).len() >= 1,
{
    let t = with_fraction(w);
    let dot = first_at(w, '.', 0);
    lemma_first_at(w, '.', 0);
    if dot < w.len() {
        lemma_first_at(w, '.', dot + 1);
        assert(t[dot] == '.');
        assert forall|j: int| 0 <= j < dot implies t[j] != '.' by {
            assert(t[j] == w[j]);
        }
        lemma_first_at_is(t, '.', 0, dot);
        if first_at(w, '.', dot + 1) == dot + 1 {
            if dot + 1 < w.len() {
                assert(fraction_part(t)[0] == w[dot + 1]);
                assert(number_digits(t)[dot] == '.');
                assert(false);
            }
        }
    } else {
        assert(t[dot] == '.');
        assert forall|j: int| 0 <= j < dot implies t[j] != '.' by {
            assert(t[j] == w[j]);
        }
        lemma_first_at_is(t, '.', 0, dot);
    }
}

/// Whatever validation accepts is a canonical amount.
pub proof fn lemma_accepted_amount(s: Seq<char>)
    requires
        amount_check(s).0 is Accepted,
    ensures
        is_canonical_amount(amount_check(s).1),
{
    let kept = keep(s, amount_chars());
    let w = reduce(kept, symbol_count(kept))->0;
    lemma_with_fraction(w);
    lemma_canonical_shape(with_fraction(w));
}

/// A canonical amount in hundredths.
pub open spec fn hundredths(b: Seq<char>) -> nat {
    digits_value(number_digits(b))
}

/// A canonical amount is at most the ceiling.
pub proof fn lemma_canonical_bound(b: Seq<char>)
    requires
        is_canonical_amount(b),
    ensures
        is_number(b),
        number_digits(b).len() <= 12,
        hundredths(b) <= CEILING,
{
    lemma_first_at(b, '.', 0);
    assert(whole_part(b).len() == first_at(b, '.', 0));
    assert(fraction_part(b).len() == 2);
    assert forall|i: int| 0 <= i < number_digits(b).len() implies is_digit(
        #[trigger] number_digits(b)[i],
    ) by {
        if i < whole_part(b).len() {
            assert(number_digits(b)[i] == whole_part(b)[i]);
        } else {
            assert(number_digits(b)[i] == fraction_part(b)[i - whole_part(b).len()]);
        }
    }
    lemma_pow10_values();
    lemma_digits_value_bound(number_digits(b));
    lemma_pow10_grows(number_digits(b).len(), 12);
}

/// The amount one unit up or down: up unless that would pass the ceiling, down
/// unless that would pass zero.
pub open spec fn moved(h: nat, step: StepType) -> nat {
    match step {
        StepType::StepUp => if h + 100 <= CEILING {
            h + 100
        } else {
            h
        },
        StepType::StepDown => if h >= 100 {
            (h - 100) as nat
        } else {
            h
        },
    }
}

/// What stepping makes of the text of an amount.
///
/// The text is validated first. An accepted amount moves by one unit and is
/// written anew. An amount that was zero or negative becomes `1.00` on a step
/// up and stays as validation left it on a step down. After any other
/// rejection the step fails. An empty text becomes `1.00`.
pub open spec fn amount_step(s: Seq<char>, step: StepType) -> (
    Result<(), SteppingError>,
    Seq<char>,
) {
    let checked = amount_check(s);
    match checked.0 {
        VerifyingOutput::Accepted(_) => (
            Ok(()),
            hundredths_text(false, moved(hundredths(checked.1), step)),
        ),
        VerifyingOutput::NotAccepted(NAType::AmountBelowZero) => (
            Ok(()),
            if step is StepUp {
                "1.00"@
            } else {
                checked.1
            },
        ),
        VerifyingOutput::NotAccepted(_) => (Err(SteppingError::InvalidAmount), checked.1),
        VerifyingOutput::Nothing(_) => (Ok(()), "1.00"@),
    }
}

/// Steps the text of an amount.
pub fn move_amount(text: &Vec<char>, step: StepType) -> (r: (Result<(), SteppingError>, Vec<char>))
    ensures
        (r.0, r.1@) == amount_step(text@, step),
{
    let (outcome, fixed) = check_amount(text);
    match outcome {
        VerifyingOutput::Accepted(_) => {
            proof {
                lemma_accepted_amount(text@);
                lemma_canonical_bound(fixed@);
            }
            let digits = match read_digits(&fixed) {
                Some(d) => d,
                None => {
                    return (Ok(()), fixed);
                },
            };
            let h = read_big(&digits);
            proof {
                lemma_pow10_values();
                assert(1 * pow10(2) == 100);
                assert(1 * pow10(12) == CEILING + 1);
            }
            let unit = raise(&one(), 2);
            let next = match step {
                StepType::StepUp => {
                    let (ceiling, _) = minus(&raise(&one(), 12), &one());
                    let up = plus(&h, &unit);
                    let (_, over) = minus(&ceiling, &up);
                    if over == 0 {
                        up
                    } else {
                        h
                    }
                },
                StepType::StepDown => {
                    let (down, under) = minus(&h, &unit);
                    if under == 0 {
                        down
                    } else {
                        h
                    }
                },
            };
            (Ok(()), write_big_hundredths(false, &next))
        },
        VerifyingOutput::NotAccepted(NAType::AmountBelowZero) => {
            match step {
                StepType::StepUp => (Ok(()), text_chars("1.00")),
                StepType::StepDown => (Ok(()), fixed),
            }
        },
        VerifyingOutput::NotAccepted(_) => (Err(SteppingError::InvalidAmount), fixed),
        VerifyingOutput::Nothing(_) => (Ok(()), text_chars("1.00")),
    }
}

/// An accepted amount lies between zero and the ceiling, and so does the
/// amount that a step makes of it.
pub proof fn amount_step_stays_within_bounds(s: Seq<char>, step: StepType)
    requires
        amount_check(s).0 is Accepted,
    ensures
        0 <= hundredths(amount_check(s).1) <= CEILING,
        0 <= moved(hundredths(amount_check(s).1), step) <= CEILING,
        amount_step(s, step) == (
            Ok::<(), SteppingError>(()),
            hundredths_text(false, moved(hundredths(amount_check(s).1), step)),
        ),
{
    lemma_accepted_amount(s);
    lemma_canonical_bound(amount_check(s).1);
}

/// Validating an accepted amount again accepts it and leaves it as it is,
/// unless all its digits are zeros: such an amount is not positive, and is not
/// accepted a second time.
pub proof fn amount_validation_is_idempotent(s: Seq<char>)
    requires
        amount_check(s).0 is Accepted,
        !is_zero_number(amount_check(s).1),
    ensures
        amount_check(amount_check(s).1) == amount_check(s),
{
    let b = amount_check(s).1;
    lemma_accepted_amount(s);
    lemma_canonical_again(b);
}

/// A canonical amount that is not zero is accepted as it is.
pub proof fn lemma_canonical_again(b: Seq<char>)
    requires
        is_canonical_amount(b),
        !is_zero_number(b),
    ensures
        amount_check(b) == (VerifyingOutput::Accepted(AType::Amount), b),
{
    let dot = first_at(b, '.', 0);
    lemma_first_at(b, '.', 0);
    assert forall|i: int| 0 <= i < b.len() implies amount_chars().contains(b[i]) && !symbols().contains(
        b[i],
    ) by {
        if i < dot {
            assert(b[i] == whole_part(b)[i]);
        } else if i > dot {
            assert(b[i] == fraction_part(b)[i - dot - 1]);
        }
    }
    lemma_keep(b, amount_chars());
    lemma_keep(b, symbols());
    assert(keep(b, amount_chars()) == b);
    assert(symbol_count(b) == 0);
    assert(reduce(b, 0) == Some(b));
    lemma_first_at(b, '.', dot + 1);
    assert(b[dot + 1] == fraction_part(b)[0]);
    assert(with_fraction(b) == b);
    if dot > 0 {
        assert(b[0] == whole_part(b)[0]);
    }
    assert(b[0] != '-');
    assert(number_digits(b).len() == dot + 2);
    assert(canonical(b) =~= b);
}

} // verus!
