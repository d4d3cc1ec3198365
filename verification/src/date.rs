//! Dates, written as year, month and day with dashes between them.

use vstd::prelude::*;
use chrono::{Datelike, NaiveDate};
use crate::decimal::{all_digits, digit_char, digit_for, digit_value, digits_value, only_digits};
use crate::outputs::{AType, NAType, StepType, SteppingError, VerifyingOutput};
use crate::text::{
    is_numeral, is_numeral_char, join, keep, lemma_keep, lemma_keep_twice, lemma_split,
    lemma_split_around, lemma_split_join, push_all, slice_chars, split, split_chars, text_chars,
};

verus! {

/// The first year that a date may have.
pub const FIRST_YEAR: u32 = 2022;

/// The last year that a date may have.
pub const LAST_YEAR: u32 = 2037;

/// What the text of a date may hold: numerals and the dash.
pub open spec fn date_chars() -> Set<char> {
    Set::new(|c: char| is_numeral(c) || c == '-')
}

/// Whether the year has a 29th of February.
pub open spec fn is_leap_year(year: nat) -> bool {
    year % 4 == 0 && (year % 100 != 0 || year % 400 == 0)
}

/// The number of days of a month.
pub open spec fn days_in_month(year: nat, month: nat) -> nat {
    if month == 2 {
        if is_leap_year(year) {
            29
        } else {
            28
        }
    } else if month == 4 || month == 6 || month == 9 || month == 11 {
        30
    } else {
        31
    }
}

/// Whether the calendar has this day.
pub open spec fn is_calendar_day(year: nat, month: nat, day: nat) -> bool {
    1 <= month <= 12 && 1 <= day <= days_in_month(year, month)
}

/// The day after a day of the calendar.
pub open spec fn following_day(year: nat, month: nat, day: nat) -> (nat, nat, nat) {
    if day < days_in_month(year, month) {
        (year, month, day + 1)
    } else if month < 12 {
        (year, month + 1, 1)
    } else {
        (year + 1, 1, 1)
    }
}

/// The day before a day of the calendar.
pub open spec fn preceding_day(year: nat, month: nat, day: nat) -> (nat, nat, nat) {
    if day > 1 {
        (year, month, (day - 1) as nat)
    } else if month > 1 {
        (year, (month - 1) as nat, days_in_month(year, (month - 1) as nat))
    } else {
        ((year - 1) as nat, 12, 31)
    }
}

/// `NaiveDate::from_ymd_opt` of chrono: there is a date for a year, a month
/// and a day exactly if the calendar has that day. The years are limited to
/// those that chrono writes with four digits.
#[verifier::external_body]
fn calendar_has(year: u32, month: u32, day: u32) -> (yes: bool)
    requires
        year <= 9999,
    ensures
        yes == is_calendar_day(year as nat, month as nat, day as nat),
{
    NaiveDate::from_ymd_opt(year as i32, month, day).is_some()
}

/// `NaiveDate::succ_opt` of chrono: the next date of the calendar, given and
/// returned as year, month and day.
#[verifier::external_body]
fn day_after(year: u32, month: u32, day: u32) -> (next: (u32, u32, u32))
    requires
        year < 9999,
        is_calendar_day(year as nat, month as nat, day as nat),
    ensures
        (next.0 as nat, next.1 as nat, next.2 as nat) == following_day(
            year as nat,
            month as nat,
            day as nat,
        ),
{
    let date = NaiveDate::from_ymd_opt(year as i32, month, day).unwrap();
    let next = date.succ_opt().unwrap();
    (next.year() as u32, next.month(), next.day())
}

/// `NaiveDate::pred_opt` of chrono: the previous date of the calendar, given
/// and returned as year, month and day.
#[verifier::external_body]
fn day_before(year: u32, month: u32, day: u32) -> (previous: (u32, u32, u32))
    requires
        1 <= year <= 9999,
        is_calendar_day(year as nat, month as nat, day as nat),
    ensures
        (previous.0 as nat, previous.1 as nat, previous.2 as nat) == preceding_day(
            year as nat,
            month as nat,
            day as nat,
        ),
{
    let date = NaiveDate::from_ymd_opt(year as i32, month, day).unwrap();
    let previous = date.pred_opt().unwrap();
    (previous.year() as u32, previous.month(), previous.day())
}

/// The number that a part of a date denotes: the part must be made of digits,
/// at least one, and the number must fit in 32 bits.
pub open spec fn number_of(part: Seq<char>) -> Option<nat> {
    if part.len() >= 1 && all_digits(part) && digits_value(part) <= u32::MAX {
        Some(digits_value(part))
    } else {
        None
    }
}

/// A run of digits denotes at least what any of its starts denotes.
proof fn lemma_digits_value_grows(d: Seq<char>, k: int)
    requires
        0 <= k <= d.len(),
    ensures
        digits_value(d.take(k)) <= digits_value(d),
    decreases d.len() - k,
{
    if k < d.len() {
        lemma_digits_value_grows(d, k + 1);
        assert(d.take(k + 1).drop_last() == d.take(k));
    } else {
        assert(d.take(k) == d);
    }
}

/// Reads the number that a part of a date denotes.
pub fn read_part(part: &Vec<char>) -> (number: Option<u32>)
    ensures
        match number {
            Some(n) => number_of(part@) == Some(n as nat),
            None => number_of(part@) is None,
        },
{
    if part.len() == 0 || !only_digits(part) {
        return None;
    }
    let mut n: u64 = 0;
    let mut i: usize = 0;
    while i < part.len()
        invariant
            i <= part.len(),
            all_digits(part@),
            n == digits_value(part@.take(i as int)),
            n <= u32::MAX,
        decreases part.len() - i,
    {
        assert(part@.take(i + 1).drop_last() == part@.take(i as int));
        let d: u64 = digit_value(part[i]) as u64;
        let next: u64 = n * 10 + d;
        if next > 0xffff_ffff {
            proof {
                lemma_digits_value_grows(part@, i + 1);
            }
            return None;
        }
        n = next;
        i += 1;
    }
    assert(part@.take(part.len() as int) == part@);
    Some(n as u32)
}

/// A year, a month and a day as text, with dashes between them.
pub open spec fn dashed(year: Seq<char>, month: Seq<char>, day: Seq<char>) -> Seq<char> {
    year + seq!['-'] + month + seq!['-'] + day
}

/// The two digits of a number below 100.
pub open spec fn two_digits(n: nat) -> Seq<char> {
    seq![digit_char(n / 10), digit_char(n % 10)]
}

/// The four digits of a number below 10000.
pub open spec fn four_digits(n: nat) -> Seq<char> {
    seq![
        digit_char(n / 1000),
        digit_char(n / 100 % 10),
        digit_char(n / 10 % 10),
        digit_char(n % 10),
    ]
}

/// The text of the first day that a date may be.
pub open spec fn floor_text() -> Seq<char> {
    "2022-01-01"@
}

/// What the rules on the three parts of a date make of them. `kept` is the
/// text that the parts were taken from, and `year`, `month` and `day` are the
/// numbers that the parts `y`, `m` and `d` denote.
///
/// The rules are tried in this order, and the first that is broken decides.
/// Each corrects the part it is about and leaves the others as they are.
/// 1. The year has four characters: a shorter one becomes the first year, a
///    longer one is cut.
/// 2. The month has two characters: a month below 10 gets a leading zero, one
///    above 12 becomes 12.
/// 3. The day has two characters: a day below 10 gets a leading zero, one above
///    31 becomes 31.
/// 4. The year lies between the first and the last year: else it becomes the
///    nearer of the two.
/// 5. The month lies between 1 and 12: else it becomes the nearer of the two.
/// 6. The day lies between 1 and 31: else it becomes the nearer of the two.
/// 7. The calendar has the day: else nothing is corrected.
pub open spec fn date_rules(
    kept: Seq<char>,
    y: Seq<char>,
    m: Seq<char>,
    d: Seq<char>,
    year: nat,
    month: nat,
    day: nat,
) -> (VerifyingOutput, Seq<char>) {
    if y.len() != 4 {
        (
            VerifyingOutput::NotAccepted(NAType::InvalidYear),
            if y.len() < 4 {
                dashed("2022"@, m, d)
            } else {
                dashed(y.take(4), m, d)
            },
        )
    } else if m.len() != 2 {
        (
            VerifyingOutput::NotAccepted(NAType::InvalidMonth),
            if month < 10 {
                dashed(y, two_digits(month), d)
            } else if month > 12 {
                dashed(y, "12"@, d)
            } else {
                kept
            },
        )
    } else if d.len() != 2 {
        (
            VerifyingOutput::NotAccepted(NAType::InvalidDay),
            if day < 10 {
                dashed(y, m, two_digits(day))
            } else if day > 31 {
                dashed(y, m, "31"@)
            } else {
                kept
            },
        )
    } else if year < FIRST_YEAR {
        (
            VerifyingOutput::NotAccepted(NAType::YearTooBig),
            dashed("2022"@, m, d),
        )
    } else if year > LAST_YEAR {
        (
            VerifyingOutput::NotAccepted(NAType::YearTooBig),
            dashed("2037"@, m, d),
        )
    } else if month < 1 {
        (VerifyingOutput::NotAccepted(NAType::MonthTooBig), dashed(y, "01"@, d))
    } else if month > 12 {
        (VerifyingOutput::NotAccepted(NAType::MonthTooBig), dashed(y, "12"@, d))
    } else if day < 1 {
        (VerifyingOutput::NotAccepted(NAType::DayTooBig), dashed(y, m, "01"@))
    } else if day > 31 {
        (VerifyingOutput::NotAccepted(NAType::DayTooBig), dashed(y, m, "31"@))
    } else if !is_calendar_day(year, month, day) {
        (VerifyingOutput::NotAccepted(NAType::NonExistingDate), kept)
    } else {
        (VerifyingOutput::Accepted(AType::Date), kept)
    }
}

/// What validation makes of the text of a date: the outcome and the text that
/// the buffer holds afterwards.
///
/// An empty text is left alone. Otherwise only numerals and dashes are kept. A
/// text that does not have three parts between its dashes becomes the first
/// day. A part that denotes no number is a parsing error, and the buffer holds
/// what was kept. Else the rules on the parts decide.
pub open spec fn date_check(s: Seq<char>) -> (VerifyingOutput, Seq<char>) {
    let kept = keep(s, date_chars());
    let parts = split(kept, '-');
    if s.len() == 0 {
        (VerifyingOutput::Nothing(AType::Date), s)
    } else if parts.len() != 3 {
        (VerifyingOutput::NotAccepted(NAType::InvalidDate), floor_text())
    } else {
        match (number_of(parts[0]), number_of(parts[1]), number_of(parts[2])) {
            (Some(year), Some(month), Some(day)) => date_rules(
                kept,
                parts[0],
                parts[1],
                parts[2],
                year,
                month,
                day,
            ),
            _ => (VerifyingOutput::NotAccepted(NAType::ParsingError(AType::Date)), kept),
        }
    }
}

/// Keeps the numerals and the dashes of `s`.
fn keep_date_chars(s: &Vec<char>) -> (kept: Vec<char>)
    ensures
        kept@ == keep(s@, date_chars()),
{
    let mut kept: Vec<char> = Vec::new();
    let mut i: usize = 0;
    while i < s.len()
        invariant
            i <= s.len(),
            kept@ == keep(s@.take(i as int), date_chars()),
        decreases s.len() - i,
    {
        assert(s@.take(i + 1).drop_last() == s@.take(i as int));
        let c: char = s[i];
        if is_numeral_char(c) || c == '-' {
            kept.push(c);
        }
        i += 1;
    }
    assert(s@.take(s.len() as int) == s@);
    kept
}

/// Writes a number below 100 with two digits.
fn write_two(n: u32) -> (text: Vec<char>)
    requires
        n < 100,
    ensures
        text@ == two_digits(n as nat),
{
    let mut text: Vec<char> = Vec::new();
    text.push(digit_for((n / 10) as u8));
    text.push(digit_for((n % 10) as u8));
    assert(text@ =~= two_digits(n as nat));
    text
}

/// Writes a number below 10000 with four digits.
fn write_four(n: u32) -> (text: Vec<char>)
    requires
        n < 10000,
    ensures
        text@ == four_digits(n as nat),
{
    let mut text: Vec<char> = Vec::new();
    text.push(digit_for((n / 1000) as u8));
    text.push(digit_for((n / 100 % 10) as u8));
    text.push(digit_for((n / 10 % 10) as u8));
    text.push(digit_for((n % 10) as u8));
    assert(text@ =~= four_digits(n as nat));
    text
}

/// Writes a year, a month and a day with dashes between them.
fn write_dashed(year: &Vec<char>, month: &Vec<char>, day: &Vec<char>) -> (text: Vec<char>)
    ensures
        text@ == dashed(year@, month@, day@),
{
    let mut text: Vec<char> = Vec::new();
    push_all(&mut text, year);
    text.push('-');
    push_all(&mut text, month);
    text.push('-');
    push_all(&mut text, day);
    assert(text@ =~= dashed(year@, month@, day@));
    text
}

/// Validates the text of a date.
pub fn check_date(text: &Vec<char>) -> (r: (VerifyingOutput, Vec<char>))
    ensures
        (r.0, r.1@) == date_check(text@),
{
    if text.len() == 0 {
        return (VerifyingOutput::Nothing(AType::Date), Vec::new());
    }
    let kept = keep_date_chars(text);
    let parts = split_chars(&kept, '-');
    assert(parts.len() == split(kept@, '-').len());
    if parts.len() != 3 {
        return (VerifyingOutput::NotAccepted(NAType::InvalidDate), text_chars("2022-01-01"));
    }
    let y = &parts[0];
    let m = &parts[1];
    let d = &parts[2];
    assert(y@ == split(kept@, '-')[0]);
    assert(m@ == split(kept@, '-')[1]);
    assert(d@ == split(kept@, '-')[2]);
    let parsing = (VerifyingOutput::NotAccepted(NAType::ParsingError(AType::Date)));
    let year: u32 = match read_part(y) {
        Some(n) => n,
        None => {
            return (parsing, kept);
        },
    };
    let month: u32 = match read_part(m) {
        Some(n) => n,
        None => {
            return (parsing, kept);
        },
    };
    let day: u32 = match read_part(d) {
        Some(n) => n,
        None => {
            return (parsing, kept);
        },
    };
    if y.len() != 4 {
        let fixed = if y.len() < 4 {
            write_dashed(&text_chars("2022"), m, d)
        } else {
            write_dashed(&slice_chars(y, 0, 4), m, d)
        };
        (VerifyingOutput::NotAccepted(NAType::InvalidYear), fixed)
    } else if m.len() != 2 {
        let fixed = if month < 10 {
            write_dashed(y, &write_two(month), d)
        } else if month > 12 {
            write_dashed(y, &text_chars("12"), d)
        } else {
            kept
        };
        (VerifyingOutput::NotAccepted(NAType::InvalidMonth), fixed)
    } else if d.len() != 2 {
        let fixed = if day < 10 {
            write_dashed(y, m, &write_two(day))
        } else if day > 31 {
            write_dashed(y, m, &text_chars("31"))
        } else {
            kept
        };
        (VerifyingOutput::NotAccepted(NAType::InvalidDay), fixed)
    } else if year < FIRST_YEAR {
        (
            VerifyingOutput::NotAccepted(NAType::YearTooBig),
            write_dashed(&text_chars("2022"), m, d),
        )
    } else if year > LAST_YEAR {
        (
            VerifyingOutput::NotAccepted(NAType::YearTooBig),
            write_dashed(&text_chars("2037"), m, d),
        )
    } else if month < 1 {
        (VerifyingOutput::NotAccepted(NAType::MonthTooBig), write_dashed(y, &text_chars("01"), d))
    } else if month > 12 {
        (VerifyingOutput::NotAccepted(NAType::MonthTooBig), write_dashed(y, &text_chars("12"), d))
    } else if day < 1 {
        (VerifyingOutput::NotAccepted(NAType::DayTooBig), write_dashed(y, m, &text_chars("01")))
    } else if day > 31 {
        (VerifyingOutput::NotAccepted(NAType::DayTooBig), write_dashed(y, m, &text_chars("31")))
    } else if !calendar_has(year, month, day) {
        (VerifyingOutput::NotAccepted(NAType::NonExistingDate), kept)
    } else {
        (VerifyingOutput::Accepted(AType::Date), kept)
    }
}

/// The text of a day of the years that are written with four digits.
pub open spec fn date_text(day: (nat, nat, nat)) -> Seq<char> {
    dashed(four_digits(day.0), two_digits(day.1), two_digits(day.2))
}

/// The day one step from the given day: the next day on a step up, unless the
/// day is the last one allowed; the previous day on a step down, unless the
/// day is the first one allowed.
pub open spec fn moved_day(year: nat, month: nat, day: nat, step: StepType) -> (nat, nat, nat) {
    match step {
        StepType::StepUp => if year == LAST_YEAR && month == 12 && day == 31 {
            (year, month, day)
        } else {
            following_day(year, month, day)
        },
        StepType::StepDown => if year == FIRST_YEAR && month == 1 && day == 1 {
            (year, month, day)
        } else {
            preceding_day(year, month, day)
        },
    }
}

/// What stepping makes of the text of a date.
///
/// The text is validated first. An accepted date moves by one day, within the
/// first and the last day allowed, and is written anew. After a rejection the
/// step fails and the buffer holds what validation left. An empty text becomes
/// the first day.
pub open spec fn date_step(s: Seq<char>, step: StepType) -> (Result<(), SteppingError>, Seq<char>) {
    let checked = date_check(s);
    let parts = split(checked.1, '-');
    match checked.0 {
        VerifyingOutput::Accepted(_) => (
            Ok(()),
            date_text(
                moved_day(
                    digits_value(parts[0]),
                    digits_value(parts[1]),
                    digits_value(parts[2]),
                    step,
                ),
            ),
        ),
        VerifyingOutput::NotAccepted(_) => (Err(SteppingError::InvalidDate), checked.1),
        VerifyingOutput::Nothing(_) => (Ok(()), floor_text()),
    }
}

/// An accepted date has three parts that denote a day of the calendar within
/// the years allowed, and is made of digits and dashes only.
pub proof fn lemma_accepted_date(s: Seq<char>)
    requires
        date_check(s).0 is Accepted,
    ensures
        ({
            let b = date_check(s).1;
            let parts = split(b, '-');
            &&& b == keep(s, date_chars())
            &&& b == keep(b, date_chars())
            &&& b == dashed(parts[0], parts[1], parts[2])
            &&& parts.len() == 3
            &&& parts[0].len() == 4
            &&& parts[1].len() == 2
            &&& parts[2].len() == 2
            &&& number_of(parts[0]) == Some(digits_value(parts[0]))
            &&& number_of(parts[1]) == Some(digits_value(parts[1]))
            &&& number_of(parts[2]) == Some(digits_value(parts[2]))
            &&& FIRST_YEAR <= digits_value(parts[0]) <= LAST_YEAR
            &&& is_calendar_day(
                digits_value(parts[0]),
                digits_value(parts[1]),
                digits_value(parts[2]),
            )
        }),
{
    let b = date_check(s).1;
    let parts = split(b, '-');
    lemma_keep_twice(s, date_chars());
    lemma_split_join(b, '-');
    let two = parts.drop_last();
    assert(two.len() == 2 && two.last() == parts[1]);
    assert(two.drop_last().len() == 1 && two.drop_last()[0] == parts[0]);
    assert(join(two.drop_last(), seq!['-']) == parts[0]);
    assert(join(two, seq!['-']) == parts[0] + seq!['-'] + parts[1]);
    assert(join(parts, seq!['-']) == dashed(parts[0], parts[1], parts[2]));
}

/// Validating an accepted date again accepts it and leaves it as it is.
pub proof fn date_validation_is_idempotent(s: Seq<char>)
    requires
        date_check(s).0 is Accepted,
    ensures
        date_check(date_check(s).1) == date_check(s),
{
    lemma_accepted_date(s);
}

/// Steps the text of a date.
pub fn move_date(text: &Vec<char>, step: StepType) -> (r: (Result<(), SteppingError>, Vec<char>))
    ensures
        (r.0, r.1@) == date_step(text@, step),
{
    let (outcome, fixed) = check_date(text);
    match outcome {
        VerifyingOutput::Accepted(_) => {
            proof {
                lemma_accepted_date(text@);
            }
            let parts = split_chars(&fixed, '-');
            assert(parts.len() == split(fixed@, '-').len());
            let y = &parts[0];
            let m = &parts[1];
            let d = &parts[2];
            assert(y@ == split(fixed@, '-')[0]);
            assert(m@ == split(fixed@, '-')[1]);
            assert(d@ == split(fixed@, '-')[2]);
            let year: u32 = match read_part(y) {
                Some(n) => n,
                None => FIRST_YEAR,
            };
            let month: u32 = match read_part(m) {
                Some(n) => n,
                None => 1,
            };
            let day: u32 = match read_part(d) {
                Some(n) => n,
                None => 1,
            };
            let next: (u32, u32, u32) = match step {
                StepType::StepUp => if year == LAST_YEAR && month == 12 && day == 31 {
                    (year, month, day)
                } else {
                    day_after(year, month, day)
                },
                StepType::StepDown => if year == FIRST_YEAR && month == 1 && day == 1 {
                    (year, month, day)
                } else {
                    day_before(year, month, day)
                },
            };
            let moved = write_dashed(&write_four(next.0), &write_two(next.1), &write_two(next.2));
            (Ok(()), moved)
        },
        VerifyingOutput::NotAccepted(_) => (Err(SteppingError::InvalidDate), fixed),
        VerifyingOutput::Nothing(_) => (Ok(()), text_chars("2022-01-01")),
    }
}

/// The digits of a number denote the number.
proof fn lemma_digits_read_back(n: nat)
    ensures
        n < 100 ==> all_digits(two_digits(n)) && digits_value(two_digits(n)) == n,
        n < 10000 ==> all_digits(four_digits(n)) && digits_value(four_digits(n)) == n,
{
    reveal_with_fuel(digits_value, 5);
    if n < 100 {
        let t = two_digits(n);
        assert(t.drop_last() =~= seq![digit_char(n / 10)]);
        assert(t.drop_last().drop_last() =~= Seq::<char>::empty());
        assert(digits_value(t) == n);
    }
    if n < 10000 {
        let t = four_digits(n);
        let t3 = t.drop_last();
        let t2 = t3.drop_last();
        let t1 = t2.drop_last();
        assert(t3 =~= seq![digit_char(n / 1000), digit_char(n / 100 % 10), digit_char(n / 10 % 10)]);
        assert(t2 =~= seq![digit_char(n / 1000), digit_char(n / 100 % 10)]);
        assert(t1 =~= seq![digit_char(n / 1000)]);
        assert(t1.drop_last() =~= Seq::<char>::empty());
        assert(digits_value(t1) == n / 1000);
        assert(digits_value(t2) == n / 100);
        assert(digits_value(t3) == n / 10);
        assert(digits_value(t) == n);
    }
}

/// The text of a day of the calendar, within the years allowed, is accepted as
/// it is.
pub proof fn lemma_date_text_accepted(year: nat, month: nat, day: nat)
    requires
        FIRST_YEAR <= year <= LAST_YEAR,
        is_calendar_day(year, month, day),
    ensures
        date_check(date_text((year, month, day))) == (
            VerifyingOutput::Accepted(AType::Date),
            date_text((year, month, day)),
        ),
{
    let y = four_digits(year);
    let m = two_digits(month);
    let d = two_digits(day);
    let t = date_text((year, month, day));
    lemma_digits_read_back(year);
    lemma_digits_read_back(month);
    lemma_digits_read_back(day);
    assert forall|i: int| 0 <= i < t.len() implies date_chars().contains(t[i]) by {
        if i < 4 {
            assert(t[i] == y[i]);
        } else if 5 <= i < 7 {
            assert(t[i] == m[i - 5]);
        } else if 8 <= i {
            assert(t[i] == d[i - 8]);
        }
    }
    lemma_keep(t, date_chars());
    assert(!y.contains('-') && !m.contains('-') && !d.contains('-'));
    lemma_split(y, '-');
    lemma_split(m, '-');
    lemma_split(d, '-');
    lemma_split_around(y, m, '-');
    lemma_split_around(y + seq!['-'] + m, d, '-');
    assert(split(t, '-') =~= seq![y, m, d]);
}

/// The day one step from a day of the calendar, within the years allowed, is
/// such a day too.
proof fn lemma_moved_day(year: nat, month: nat, day: nat, step: StepType)
    requires
        FIRST_YEAR <= year <= LAST_YEAR,
        is_calendar_day(year, month, day),
    ensures
        FIRST_YEAR <= moved_day(year, month, day, step).0 <= LAST_YEAR,
        is_calendar_day(
            moved_day(year, month, day, step).0,
            moved_day(year, month, day, step).1,
            moved_day(year, month, day, step).2,
        ),
{
}

/// A step that succeeds leaves a date that validation accepts as it is.
pub proof fn date_step_leaves_an_accepted_date(s: Seq<char>, step: StepType)
    requires
        date_step(s, step).0 is Ok,
    ensures
        date_check(date_step(s, step).1) == (
            VerifyingOutput::Accepted(AType::Date),
            date_step(s, step).1,
        ),
{
    let checked = date_check(s);
    if checked.0 is Accepted {
        lemma_accepted_date(s);
        let parts = split(checked.1, '-');
        let year = digits_value(parts[0]);
        let month = digits_value(parts[1]);
        let day = digits_value(parts[2]);
        lemma_moved_day(year, month, day, step);
        let next = moved_day(year, month, day, step);
        lemma_date_text_accepted(next.0, next.1, next.2);
    } else {
        reveal_strlit("2022-01-01");
        assert(floor_text() =~= date_text((2022, 1, 1)));
        lemma_date_text_accepted(2022, 1, 1);
    }
}

} // verus!
