//! Whole numbers of any size, held as their decimal digits with the lowest
//! digit first.

use vstd::prelude::*;
use vstd::arithmetic::div_mod::lemma_fundamental_div_mod_converse;
use crate::decimal::{
    all_digits, digit_for, digit_value, digits_value, hundredths_text,
    lemma_pow10_grows, lemma_pow10_sum, number_text, pow10, round_half_even,
};

verus! {

/// Every entry is a decimal digit.
pub open spec fn is_digits(d: Seq<u8>) -> bool {
    forall|i: int| 0 <= i < d.len() ==> #[trigger] d[i] < 10
}

/// The number that the digits denote, the lowest digit first.
pub open spec fn value(d: Seq<u8>) -> nat
    decreases d.len(),
{
    if d.len() == 0 {
        0
    } else {
        value(d.drop_last()) + d.last() as nat * pow10((d.len() - 1) as nat)
    }
}

/// The digit at place `i`, which is zero above the highest digit.
pub open spec fn digit_at(d: Seq<u8>, i: int) -> nat {
    if 0 <= i < d.len() {
        d[i] as nat
    } else {
        0
    }
}

/// The number that the lowest `i` digits denote.
pub open spec fn low(d: Seq<u8>, i: int) -> nat {
    if i < d.len() {
        value(d.take(i))
    } else {
        value(d)
    }
}

/// One more digit adds its value at its place.
pub proof fn lemma_low_next(d: Seq<u8>, i: int)
    requires
        0 <= i,
    ensures
        low(d, i + 1) == low(d, i) + digit_at(d, i) * pow10(i as nat),
{
    if i < d.len() {
        assert(d.take(i + 1).drop_last() == d.take(i));
        if i + 1 == d.len() {
            assert(d.take(i + 1) == d);
        }
    }
}

/// Digits denote a number below ten to the power of their count.
pub proof fn lemma_value_bound(d: Seq<u8>)
    requires
        is_digits(d),
    ensures
        value(d) < pow10(d.len()),
    decreases d.len(),
{
    if d.len() > 0 {
        let front = d.drop_last();
        lemma_value_bound(front);
        let unit = pow10(front.len());
        assert(d.last() < 10);
        assert(d.last() as nat * unit <= 9 * unit) by (nonlinear_arith)
            requires
                d.last() <= 9,
                unit >= 0,
        ;
    }
}

/// The digits of `a` below those of `b` denote the number of `a` plus that of
/// `b` at the place above `a`.
pub proof fn lemma_value_concat(a: Seq<u8>, b: Seq<u8>)
    ensures
        value(a + b) == value(a) + pow10(a.len()) * value(b),
    decreases b.len(),
{
    if b.len() == 0 {
        assert(a + b == a);
        assert(pow10(a.len()) * 0 == 0);
    } else {
        let front = b.drop_last();
        lemma_value_concat(a, front);
        assert((a + b).drop_last() == a + front);
        assert((a + b).last() == b.last());
        lemma_pow10_sum(a.len(), front.len());
        let pa = pow10(a.len());
        let pf = pow10(front.len());
        let x = b.last() as nat;
        let v = value(front);
        assert(pa * (v + x * pf) == pa * v + x * (pa * pf)) by (nonlinear_arith);
    }
}

/// A single digit denotes itself, and no digits denote zero.
pub proof fn lemma_value_small(x: u8)
    ensures
        value(seq![x]) == x,
        value(Seq::<u8>::empty()) == 0,
{
    let one = seq![x];
    assert(one.drop_last() =~= Seq::<u8>::empty());
    assert(value(one.drop_last()) == 0);
    assert(one.last() == x);
    assert(pow10(0) == 1);
    assert(value(one) == value(one.drop_last()) + one.last() as nat * pow10(0));
}

/// A digit put below digits: the number is the digit plus ten times the number
/// of the digits.
pub proof fn lemma_value_under(x: u8, d: Seq<u8>)
    ensures
        value(seq![x] + d) == x + 10 * value(d),
{
    lemma_value_small(x);
    lemma_value_concat(seq![x], d);
    assert(pow10(1) == 10) by {
        reveal_with_fuel(pow10, 2);
    }
}

/// Digits denote zero exactly if each of them is zero.
pub proof fn lemma_value_zero(d: Seq<u8>)
    ensures
        value(d) == 0 <==> (forall|i: int| 0 <= i < d.len() ==> #[trigger] d[i] == 0),
    decreases d.len(),
{
    if d.len() > 0 {
        let front = d.drop_last();
        lemma_value_zero(front);
        lemma_pow10_grows(0, front.len());
        let unit = pow10(front.len());
        let x = d.last() as nat;
        assert(x * unit == 0 <==> x == 0) by (nonlinear_arith)
            requires
                unit > 0,
        ;
        if forall|i: int| 0 <= i < d.len() ==> #[trigger] d[i] == 0 {
            assert forall|i: int| 0 <= i < front.len() implies #[trigger] front[i] == 0 by {
                assert(front[i] == d[i]);
            }
            assert(d[d.len() - 1] == 0);
        }
        if value(d) == 0 {
            assert forall|i: int| 0 <= i < d.len() implies #[trigger] d[i] == 0 by {
                if i < front.len() {
                    assert(front[i] == d[i]);
                }
            }
        }
    }
}

/// Ten to the next power is ten times the power.
proof fn lemma_pow10_next(i: nat)
    ensures
        pow10(i + 1) == 10 * pow10(i),
{
}

/// The sum of two numbers.
pub(crate) fn plus(a: &Vec<u8>, b: &Vec<u8>) -> (sum: Vec<u8>)
    requires
        is_digits(a@),
        is_digits(b@),
    ensures
        is_digits(sum@),
        value(sum@) == value(a@) + value(b@),
{
    let n: usize = if a.len() > b.len() {
        a.len()
    } else {
        b.len()
    };
    let mut sum: Vec<u8> = Vec::new();
    let mut carry: u8 = 0;
    let mut i: usize = 0;
    while i < n
        invariant
            i <= n,
            n >= a.len(),
            n >= b.len(),
            is_digits(a@),
            is_digits(b@),
            is_digits(sum@),
            sum.len() == i,
            carry <= 1,
            value(sum@) + carry * pow10(i as nat) == low(a@, i as int) + low(b@, i as int),
        decreases n - i,
    {
        let x: u8 = if i < a.len() {
            a[i]
        } else {
            0
        };
        let y: u8 = if i < b.len() {
            b[i]
        } else {
            0
        };
        let t: u8 = x + y + carry;
        let ghost before = sum@;
        sum.push(t % 10);
        proof {
            lemma_low_next(a@, i as int);
            lemma_low_next(b@, i as int);
            lemma_pow10_next(i as nat);
            assert(sum@.drop_last() == before);
            let p = pow10(i as nat);
            assert((t % 10) * p + (t / 10) * (10 * p) == t * p) by (nonlinear_arith)
                requires
                    t == 10 * (t / 10) + t % 10,
            ;
            assert((x + y + carry) * p == x * p + y * p + carry * p) by (nonlinear_arith);
        }
        carry = t / 10;
        i += 1;
    }
    if carry > 0 {
        let ghost before = sum@;
        sum.push(carry);
        assert(sum@.drop_last() == before);
    }
    sum
}

/// Subtracts `b` from `a` digit by digit. The second part of the result is 0
/// if `a` is at least `b`, and the first part is then their difference; else
/// the second part is 1.
pub(crate) fn minus(a: &Vec<u8>, b: &Vec<u8>) -> (r: (Vec<u8>, u8))
    requires
        is_digits(a@),
        is_digits(b@),
    ensures
        is_digits(r.0@),
        r.1 <= 1,
        (r.1 == 0) == (value(a@) >= value(b@)),
        r.1 == 0 ==> value(r.0@) == value(a@) - value(b@),
{
    let n: usize = if a.len() > b.len() {
        a.len()
    } else {
        b.len()
    };
    let mut gap: Vec<u8> = Vec::new();
    let mut borrow: u8 = 0;
    let mut i: usize = 0;
    while i < n
        invariant
            i <= n,
            n >= a.len(),
            n >= b.len(),
            is_digits(a@),
            is_digits(b@),
            is_digits(gap@),
            gap.len() == i,
            borrow <= 1,
            value(gap@) + low(b@, i as int) == low(a@, i as int) + borrow * pow10(i as nat),
        decreases n - i,
    {
        let x: u8 = if i < a.len() {
            a[i]
        } else {
            0
        };
        let y: u8 = if i < b.len() {
            b[i]
        } else {
            0
        };
        let take: u8 = y + borrow;
        let ghost before = gap@;
        let ghost old_borrow = borrow;
        let digit: u8 = if x >= take {
            borrow = 0;
            x - take
        } else {
            borrow = 1;
            x + 10 - take
        };
        gap.push(digit);
        proof {
            lemma_low_next(a@, i as int);
            lemma_low_next(b@, i as int);
            lemma_pow10_next(i as nat);
            assert(gap@.drop_last() == before);
            let p = pow10(i as nat);
            assert(digit * p + y * p + old_borrow * p == x * p + borrow * (10 * p))
                by (nonlinear_arith)
                requires
                    digit + y + old_borrow == x + 10 * borrow,
            ;
        }
        i += 1;
    }
    proof {
        lemma_value_bound(gap@);
        let top = pow10(n as nat);
        assert(low(a@, n as int) == value(a@));
        assert(low(b@, n as int) == value(b@));
        if borrow == 1 {
            assert(borrow * top == top) by (nonlinear_arith)
                requires
                    borrow == 1,
            ;
        } else {
            assert(borrow * top == 0) by (nonlinear_arith)
                requires
                    borrow == 0,
            ;
        }
    }
    (gap, borrow)
}

/// The product of a number and a digit.
pub(crate) fn times_digit(a: &Vec<u8>, m: u8) -> (product: Vec<u8>)
    requires
        is_digits(a@),
        m < 10,
    ensures
        is_digits(product@),
        value(product@) == value(a@) * m,
{
    let mut product: Vec<u8> = Vec::new();
    let mut carry: u8 = 0;
    let mut i: usize = 0;
    proof {
        assert(a@.take(0) =~= Seq::<u8>::empty());
        assert(low(a@, 0) == 0);
        assert(0 * m == 0);
    }
    while i < a.len()
        invariant
            i <= a.len(),
            is_digits(a@),
            is_digits(product@),
            m < 10,
            product.len() == i,
            carry <= 8,
            value(product@) + carry * pow10(i as nat) == low(a@, i as int) * m,
        decreases a.len() - i,
    {
        let x: u8 = a[i];
        assert(x * m <= 81) by (nonlinear_arith)
            requires
                x <= 9,
                m <= 9,
        ;
        let t: u8 = x * m + carry;
        let ghost before = product@;
        product.push(t % 10);
        proof {
            lemma_low_next(a@, i as int);
            lemma_pow10_next(i as nat);
            assert(product@.drop_last() == before);
            let p = pow10(i as nat);
            let v = low(a@, i as int);
            assert((t % 10) * p + (t / 10) * (10 * p) == t * p) by (nonlinear_arith)
                requires
                    t == 10 * (t / 10) + t % 10,
            ;
            assert((v + x * p) * m == v * m + (x * m) * p) by (nonlinear_arith);
            assert((x * m + carry) * p == (x * m) * p + carry * p) by (nonlinear_arith);
        }
        carry = t / 10;
        i += 1;
    }
    if carry > 0 {
        let ghost before = product@;
        product.push(carry);
        assert(product@.drop_last() == before);
    }
    product
}

/// A number times ten to the power `k`.
pub(crate) fn raise(a: &Vec<u8>, k: usize) -> (raised: Vec<u8>)
    requires
        is_digits(a@),
    ensures
        is_digits(raised@),
        value(raised@) == value(a@) * pow10(k as nat),
{
    let mut raised: Vec<u8> = Vec::new();
    let mut i: usize = 0;
    while i < k
        invariant
            i <= k,
            raised.len() == i,
            forall|j: int| 0 <= j < i ==> #[trigger] raised@[j] == 0,
        decreases k - i,
    {
        raised.push(0);
        i += 1;
    }
    let ghost zeros = raised@;
    let mut j: usize = 0;
    while j < a.len()
        invariant
            j <= a.len(),
            raised@ == zeros + a@.take(j as int),
        decreases a.len() - j,
    {
        raised.push(a[j]);
        j += 1;
        assert(raised@ =~= zeros + a@.take(j as int));
    }
    proof {
        assert(a@.take(a.len() as int) == a@);
        lemma_value_zero(zeros);
        lemma_value_concat(zeros, a@);
        assert(pow10(k as nat) * value(a@) == value(a@) * pow10(k as nat)) by (nonlinear_arith);
    }
    raised
}

/// The product of two numbers.
pub(crate) fn multiply(a: &Vec<u8>, b: &Vec<u8>) -> (product: Vec<u8>)
    requires
        is_digits(a@),
        is_digits(b@),
    ensures
        is_digits(product@),
        value(product@) == value(a@) * value(b@),
{
    let mut product: Vec<u8> = Vec::new();
    let mut j: usize = 0;
    assert(value(a@) * 0 == 0);
    while j < b.len()
        invariant
            j <= b.len(),
            is_digits(a@),
            is_digits(b@),
            is_digits(product@),
            value(product@) == value(a@) * low(b@, j as int),
        decreases b.len() - j,
    {
        let part = times_digit(a, b[j]);
        let raised = raise(&part, j);
        product = plus(&product, &raised);
        proof {
            lemma_low_next(b@, j as int);
            let v = value(a@);
            let w = low(b@, j as int);
            let x = b@[j as int] as nat;
            let p = pow10(j as nat);
            assert(v * (w + x * p) == v * w + (v * x) * p) by (nonlinear_arith);
        }
        j += 1;
    }
    product
}

/// Puts a digit below the digits of a number: ten times the number, plus the
/// digit.
fn put_under(x: u8, d: &Vec<u8>) -> (r: Vec<u8>)
    requires
        x < 10,
        is_digits(d@),
    ensures
        is_digits(r@),
        r@ == seq![x] + d@,
        value(r@) == x + 10 * value(d@),
{
    let mut r: Vec<u8> = Vec::new();
    r.push(x);
    let mut i: usize = 0;
    while i < d.len()
        invariant
            i <= d.len(),
            r@ == seq![x] + d@.take(i as int),
        decreases d.len() - i,
    {
        r.push(d[i]);
        i += 1;
        assert(r@ =~= seq![x] + d@.take(i as int));
    }
    proof {
        assert(d@.take(d.len() as int) == d@);
        lemma_value_under(x, d@);
    }
    r
}

/// The quotient and the remainder of a division by a number that is not
/// zero.
pub(crate) fn divide(n: &Vec<u8>, d: &Vec<u8>) -> (r: (Vec<u8>, Vec<u8>))
    requires
        is_digits(n@),
        is_digits(d@),
        value(d@) > 0,
    ensures
        is_digits(r.0@),
        is_digits(r.1@),
        value(r.0@) == value(n@) / value(d@),
        value(r.1@) == value(n@) % value(d@),
{
    let mut quotient: Vec<u8> = Vec::new();
    let mut rest: Vec<u8> = Vec::new();
    let mut i: usize = n.len();
    proof {
        assert(n@.skip(n.len() as int) =~= Seq::<u8>::empty());
        assert(0 * value(d@) == 0);
    }
    while i > 0
        invariant
            i <= n.len(),
            is_digits(n@),
            is_digits(d@),
            value(d@) > 0,
            is_digits(quotient@),
            is_digits(rest@),
            value(rest@) < value(d@),
            value(n@.skip(i as int)) == value(quotient@) * value(d@) + value(rest@),
        decreases i,
    {
        i -= 1;
        let ghost old_rest = value(rest@);
        let ghost old_quotient = value(quotient@);
        rest = put_under(n[i], &rest);
        let ghost start = value(rest@);
        let mut count: u8 = 0;
        let mut more: bool = true;
        while more
            invariant
                is_digits(d@),
                value(d@) > 0,
                is_digits(rest@),
                value(rest@) + count * value(d@) == start,
                start < 10 * value(d@),
                count <= 9,
                !more ==> value(rest@) < value(d@),
            decreases value(rest@) + (if more {
                1nat
            } else {
                0nat
            }),
        {
            let (gap, borrow) = minus(&rest, d);
            if borrow == 0 {
                proof {
                    let v = value(d@);
                    let c = count as nat;
                    assert((c + 1) * v == c * v + v) by (nonlinear_arith);
                    assert(c + 1 < 10) by (nonlinear_arith)
                        requires
                            (c + 1) * v <= start,
                            start < 10 * v,
                            v > 0,
                    ;
                }
                rest = gap;
                count += 1;
            } else {
                more = false;
            }
        }
        quotient = put_under(count, &quotient);
        proof {
            let v = value(d@);
            let c = count as nat;
            let x = n@[i as int] as nat;
            assert(n@.skip(i as int) =~= seq![n@[i as int]] + n@.skip(i + 1));
            lemma_value_under(n@[i as int], n@.skip(i + 1));
            assert((c + 10 * old_quotient) * v + value(rest@) == x + 10 * (old_quotient * v
                + old_rest)) by (nonlinear_arith)
                requires
                    value(rest@) + c * v == x + 10 * old_rest,
            ;
        }
    }
    proof {
        assert(n@.skip(0) =~= n@);
        lemma_fundamental_div_mod_converse(
            value(n@) as int,
            value(d@) as int,
            value(quotient@) as int,
            value(rest@) as int,
        );
    }
    (quotient, rest)
}

/// Tells whether every digit is a zero, that is whether the number is zero.
pub(crate) fn is_zero(d: &Vec<u8>) -> (yes: bool)
    ensures
        yes == (value(d@) == 0),
{
    proof {
        lemma_value_zero(d@);
    }
    let mut i: usize = 0;
    while i < d.len()
        invariant
            i <= d.len(),
            forall|j: int| 0 <= j < i ==> #[trigger] d@[j] == 0,
        decreases d.len() - i,
    {
        if d[i] != 0 {
            proof {
                lemma_value_zero(d@);
            }
            return false;
        }
        i += 1;
    }
    true
}

/// The lowest digit of a number is its remainder by ten and tells whether it
/// is odd; the digits above denote its tenth.
proof fn lemma_parity(d: Seq<u8>)
    requires
        d.len() > 0,
    ensures
        value(d) % 2 == (d[0] as nat) % 2,
        value(d) % 10 == (d[0] as nat) % 10,
        value(d) / 10 == value(d.skip(1)) + (d[0] as nat) / 10,
{
    assert(d =~= seq![d[0]] + d.skip(1));
    lemma_value_under(d[0], d.skip(1));
    let x = d[0] as nat;
    let v = value(d.skip(1));
    assert((x + 10 * v) % 2 == x % 2) by (nonlinear_arith);
    assert((x + 10 * v) % 10 == x % 10) by (nonlinear_arith);
    assert((x + 10 * v) / 10 == v + x / 10) by (nonlinear_arith);
}

/// The quotient of a division by a number that is not zero, rounded to the
/// nearest whole number, a tie going to the even one.
pub(crate) fn round_divide(n: &Vec<u8>, d: &Vec<u8>) -> (rounded: Vec<u8>)
    requires
        is_digits(n@),
        is_digits(d@),
        value(d@) > 0,
    ensures
        is_digits(rounded@),
        value(rounded@) == round_half_even(value(n@), value(d@)),
{
    let (quotient, rest) = divide(n, d);
    let twice = plus(&rest, &rest);
    let (gap, borrow) = minus(&twice, d);
    let odd: bool = quotient.len() > 0 && quotient[0] % 2 == 1;
    proof {
        if quotient.len() > 0 {
            lemma_parity(quotient@);
        }
    }
    let up: bool = borrow == 0 && (!is_zero(&gap) || odd);
    if up {
        let mut one: Vec<u8> = Vec::new();
        one.push(1);
        proof {
            lemma_value_small(1);
            assert(one@ =~= seq![1u8]);
        }
        plus(&quotient, &one)
    } else {
        quotient
    }
}

/// The number that a run of decimal digits denotes.
pub(crate) fn read_big(text: &Vec<char>) -> (d: Vec<u8>)
    requires
        all_digits(text@),
    ensures
        is_digits(d@),
        value(d@) == digits_value(text@),
{
    let mut d: Vec<u8> = Vec::new();
    let mut i: usize = 0;
    while i < text.len()
        invariant
            i <= text.len(),
            all_digits(text@),
            is_digits(d@),
            value(d@) == digits_value(text@.take(i as int)),
        decreases text.len() - i,
    {
        assert(text@.take(i + 1).drop_last() == text@.take(i as int));
        d = put_under(digit_value(text[i]), &d);
        i += 1;
    }
    assert(text@.take(text.len() as int) == text@);
    d
}

/// Writes the decimal digits of a number, without leading zeros.
pub(crate) fn write_big(d: &Vec<u8>) -> (text: Vec<char>)
    requires
        is_digits(d@),
    ensures
        text@ == number_text(value(d@)),
{
    let mut top: usize = d.len();
    while top > 0 && d[top - 1] == 0
        invariant
            top <= d.len(),
            forall|j: int| top <= j < d.len() ==> #[trigger] d@[j] == 0,
        decreases top,
    {
        top -= 1;
    }
    proof {
        lemma_value_zero(d@.skip(top as int));
        assert(d@ =~= d@.take(top as int) + d@.skip(top as int));
        lemma_value_concat(d@.take(top as int), d@.skip(top as int));
        assert(pow10(top as nat) * 0 == 0);
        assert(value(d@) == value(d@.take(top as int)));
    }
    let mut text: Vec<char> = Vec::new();
    if top == 0 {
        proof {
            assert(d@.take(0) =~= Seq::<u8>::empty());
        }
        text.push(digit_for(0));
        assert(text@ =~= number_text(0));
        return text;
    }
    let mut i: usize = top - 1;
    text.push(digit_for(d[i]));
    proof {
        let high = d@.subrange(i as int, top as int);
        assert(high =~= seq![d@[i as int]]);
        lemma_value_small(d@[i as int]);
        assert(text@ =~= number_text(value(high)));
    }
    while i > 0
        invariant
            i < top <= d.len(),
            is_digits(d@),
            d@[top - 1] != 0,
            text@ == number_text(value(d@.subrange(i as int, top as int))),
            value(d@.subrange(i as int, top as int)) > 0,
        decreases i,
    {
        i -= 1;
        text.push(digit_for(d[i]));
        proof {
            let part = d@.subrange(i as int, top as int);
            let above = d@.subrange(i + 1, top as int);
            assert(part =~= seq![d@[i as int]] + above);
            lemma_value_under(d@[i as int], above);
            let x = d@[i as int] as nat;
            let v = value(above);
            assert((x + 10 * v) / 10 == v) by (nonlinear_arith)
                requires
                    x < 10,
            ;
            assert((x + 10 * v) % 10 == x) by (nonlinear_arith)
                requires
                    x < 10,
            ;
        }
    }
    proof {
        assert(d@.subrange(0, top as int) == d@.take(top as int));
    }
    text
}

/// Writes a count of hundredths: the whole part, a dot and two digits, with a
/// minus sign in front if `negative`.
pub(crate) fn write_big_hundredths(negative: bool, h: &Vec<u8>) -> (text: Vec<char>)
    requires
        is_digits(h@),
    ensures
        text@ == hundredths_text(negative, value(h@)),
{
    let low_digit: u8 = if h.len() > 0 {
        h[0]
    } else {
        0
    };
    let next_digit: u8 = if h.len() > 1 {
        h[1]
    } else {
        0
    };
    let mut whole: Vec<u8> = Vec::new();
    let mut i: usize = 2;
    while i < h.len()
        invariant
            2 <= i,
            h.len() > 2 ==> i <= h.len(),
            h.len() > 2 ==> whole@ == h@.subrange(2, i as int),
            h.len() <= 2 ==> whole@.len() == 0,
        decreases h.len() - i,
    {
        whole.push(h[i]);
        i += 1;
        assert(whole@ =~= h@.subrange(2, i as int));
    }
    proof {
        let v = value(h@);
        if h.len() == 0 {
            assert(h@ =~= Seq::<u8>::empty());
            assert(whole@ =~= Seq::<u8>::empty());
        } else {
            lemma_parity(h@);
            let rest = h@.skip(1);
            if h.len() == 1 {
                assert(rest =~= Seq::<u8>::empty());
                assert(whole@ =~= Seq::<u8>::empty());
            } else {
                lemma_parity(rest);
                assert(rest[0] == h@[1]);
                assert(whole@ =~= rest.skip(1));
                let x = h@[0] as nat;
                let y = h@[1] as nat;
                let w = value(whole@);
                assert(value(rest) / 10 == w);
                assert(value(rest) % 10 == y);
                assert(v / 10 == value(rest));
                assert(v / 100 == w) by (nonlinear_arith)
                    requires
                        v / 10 == value(rest),
                        value(rest) / 10 == w,
                ;
            }
        }
    }
    let mut text: Vec<char> = Vec::new();
    if negative {
        text.push('-');
    }
    let digits = write_big(&whole);
    let mut j: usize = 0;
    let ghost sign = text@;
    while j < digits.len()
        invariant
            j <= digits.len(),
            text@ == sign + digits@.take(j as int),
        decreases digits.len() - j,
    {
        text.push(digits[j]);
        j += 1;
        assert(text@ =~= sign + digits@.take(j as int));
    }
    assert(digits@.take(digits.len() as int) == digits@);
    text.push('.');
    text.push(digit_for(next_digit));
    text.push(digit_for(low_digit));
    assert(text@ =~= hundredths_text(negative, value(h@)));
    text
}

} // verus!
