use tx_fields::amount::{combine_numbers, reduce_step};
use tx_fields::names::edit_distance;
use tx_fields::tags::list_tags;
use tx_fields::text::{
    chars_text, is_digit_char, is_numeral_char, is_space_char, join_chars, replace_chars,
    split_chars, text_chars, trim_chars,
};
use tx_fields::{
    AType, DataVerifier, FieldStepper, StepType, VerifyingOutput,
};

fn chars(text: &str) -> Vec<char> {
    text.chars().collect()
}

fn string(chars: &Vec<char>) -> String {
    chars.iter().collect()
}

struct Form;

impl DataVerifier for Form {}

impl FieldStepper for Form {}

#[test]
fn rules_come_with_the_traits() {
    let mut date = String::from("2030-1-1");
    assert_eq!(
        Form.verify_date(&mut date),
        VerifyingOutput::NotAccepted(tx_fields::NAType::InvalidMonth)
    );
    assert_eq!(date, "2030-01-1");
    assert_eq!(Form.verify_date(&mut date), VerifyingOutput::NotAccepted(tx_fields::NAType::InvalidDay));
    assert_eq!(Form.verify_date(&mut date), VerifyingOutput::Accepted(AType::Date));
    assert_eq!(Form.step_date(&mut date, StepType::StepDown), Ok(()));
    assert_eq!(date, "2029-12-31");
}

#[test]
fn text_and_chars_convert_both_ways() {
    for text in ["", "abc", "2022-01-01", "naïve café ₿ 😀"] {
        assert_eq!(text_chars(text), chars(text));
        assert_eq!(chars_text(&chars(text)), text);
    }
}

#[test]
fn white_space_is_what_std_calls_white_space() {
    for code in 0..=0x10FFFFu32 {
        if let Some(c) = char::from_u32(code) {
            assert_eq!(is_space_char(c), c.is_whitespace(), "U+{:04X}", code);
        }
    }
}

#[test]
fn digits_are_the_ten_ascii_digits() {
    for code in 0..=0x10FFFFu32 {
        if let Some(c) = char::from_u32(code) {
            assert_eq!(is_digit_char(c), c.is_ascii_digit(), "U+{:04X}", code);
        }
    }
}

#[test]
fn numerals_are_what_std_calls_numeric() {
    for code in 0..=0x10FFFFu32 {
        if let Some(c) = char::from_u32(code) {
            assert_eq!(is_numeral_char(c), c.is_numeric(), "U+{:04X}", code);
        }
    }
}

#[test]
fn replace_is_what_std_replaces() {
    let cases = [
        ("1+1+1+1", "1+1", "2.00"),
        ("aaaa", "aa", "b"),
        ("aaa", "aa", "b"),
        ("abc", "abc", ""),
        ("abc", "abcd", "x"),
        ("", "a", "b"),
        ("--5", "-", ""),
        ("2+3*4", "3*4", "12.00"),
        ("xyx", "y", "yy"),
    ];
    for (text, pattern, with) in cases {
        assert_eq!(
            string(&replace_chars(&chars(text), &chars(pattern), &chars(with))),
            text.replace(pattern, with),
            "{text} {pattern} {with}"
        );
    }
    assert_eq!(string(&replace_chars(&chars("abc"), &chars(""), &chars("-"))), "abc");
}

#[test]
fn trim_is_what_std_trims() {
    for text in ["", " ", "a", "  a b  ", "\t\n a \u{a0}\u{2003}", "\u{3000}x\u{3000}", " \u{200b} "] {
        assert_eq!(string(&trim_chars(&chars(text))), text.trim());
    }
}

#[test]
fn split_is_what_std_splits() {
    for text in ["", ",", "a", "a,b", ",a,,b,", "2022-01-01", "a, b ,c"] {
        for sep in [',', '-'] {
            let parts: Vec<String> = split_chars(&chars(text), sep).iter().map(string).collect();
            let expected: Vec<String> = text.split(sep).map(|s| s.to_string()).collect();
            assert_eq!(parts, expected);
        }
    }
}

#[test]
fn join_is_what_std_joins() {
    let lists: [&[&str]; 4] = [&[], &["a"], &["a", "b"], &["", "x", ""]];
    for list in lists {
        let parts: Vec<Vec<char>> = list.iter().map(|s| chars(s)).collect();
        assert_eq!(string(&join_chars(&parts, &chars(", "))), list.join(", "));
    }
}

#[test]
fn tags_of_a_text() {
    let tags: Vec<String> = list_tags(&chars(" b, a ,,b , c")).iter().map(string).collect();
    assert_eq!(tags, vec!["b", "a", "c"]);
    assert!(list_tags(&chars(" , ")).is_empty());
}

#[test]
fn edit_distance_of_known_pairs() {
    let pairs = [
        ("", "", 0),
        ("", "abc", 3),
        ("abc", "", 3),
        ("abc", "abc", 0),
        ("kitten", "sitting", 3),
        ("flaw", "lawn", 2),
        ("bnak", "Bank", 3),
        ("bnak", "Cash", 4),
        ("Cach", "Cash", 1),
        ("Cach", "Cache", 1),
        ("intention", "execution", 5),
    ];
    for (a, b, expected) in pairs {
        assert_eq!(edit_distance(&chars(a), &chars(b)), expected, "{a} {b}");
        assert_eq!(edit_distance(&chars(b), &chars(a)), expected, "{b} {a}");
    }
}

#[test]
fn one_round_of_calculation() {
    let step = |text: &str| reduce_step(&chars(text)).map(|next| string(&next));
    assert_eq!(step("2+3*4"), Some("2+12.00".to_string()));
    assert_eq!(step("2+12.00"), Some("14.00".to_string()));
    assert_eq!(step("14.00"), Some("14.00".to_string()));
    assert_eq!(step("8/2*3"), Some("8/6.00".to_string()));
    assert_eq!(step("1-2-3"), Some("-1.00-3".to_string()));
    assert_eq!(step("1+1+1+1"), Some("2.00+2.00".to_string()));
    assert_eq!(step("--5"), Some("5".to_string()));
    assert_eq!(step("-1.00-3"), Some("1.00-3".to_string()));
    assert_eq!(step("7+"), Some("7".to_string()));
    assert_eq!(step("+-"), Some("-".to_string()));
    assert_eq!(step("1.2.3*2"), None);
    assert_eq!(step("4/0"), None);
}

#[test]
fn calculation_of_two_numbers() {
    let combine = |a: &str, symbol: char, b: &str| {
        combine_numbers(&chars(a), symbol, &chars(b)).map(|value| string(&value))
    };
    assert_eq!(combine("3", '*', "4"), Some("12.00".to_string()));
    assert_eq!(combine("1.5", '*', "1.5"), Some("2.25".to_string()));
    assert_eq!(combine("1.05", '*', "1.5"), Some("1.58".to_string()));
    assert_eq!(combine("1.15", '*', "1.5"), Some("1.72".to_string()));
    assert_eq!(combine("1", '/', "3"), Some("0.33".to_string()));
    assert_eq!(combine("2", '/', "3"), Some("0.67".to_string()));
    assert_eq!(combine("1", '/', "0.001"), Some("1000.00".to_string()));
    assert_eq!(combine("0.1", '+', "0.2"), Some("0.30".to_string()));
    assert_eq!(combine("5.", '+', ".5"), Some("5.50".to_string()));
    assert_eq!(combine("0.004", '-', "0.009"), Some("-0.00".to_string()));
    assert_eq!(combine("0.004", '-', "0.01"), Some("-0.01".to_string()));
    assert_eq!(combine("10", '-', "2.5"), Some("7.50".to_string()));
    assert_eq!(combine("1", '/', "0"), None);
    assert_eq!(combine("1", '/', "0.000"), None);
    assert_eq!(combine(".", '+', "1"), None);
    assert_eq!(combine("1", '+', ""), None);
    assert_eq!(combine("1", '+', "1.1.1"), None);
    assert_eq!(combine("1", '^', "2"), None);
    assert_eq!(combine("123456789012345678", '+', "1"), Some("123456789012345679.00".to_string()));
    assert_eq!(combine("1234567890123456789", '+', "1"), Some("1234567890123456790.00".to_string()));
    assert_eq!(
        combine("340282366920938463463374607431768211456", '*', "340282366920938463463374607431768211456"),
        Some("115792089237316195423570985008687907853269984665640564039457584007913129639936.00".to_string())
    );
    assert_eq!(
        combine("115792089237316195423570985008687907853269984665640564039457584007913129639936", '/', "340282366920938463463374607431768211456"),
        Some("340282366920938463463374607431768211456.00".to_string())
    );
    assert_eq!(combine("000000000000000000000000000000007", '-', "0000000000009"), Some("-2.00".to_string()));
    assert_eq!(
        combine("999999999999999999", '*', "999999999999999999"),
        Some("999999999999999998000000000000000001.00".to_string())
    );
    assert_eq!(
        combine("999999999999999999", '/', "0.00000000000000001"),
        Some("99999999999999999900000000000000000.00".to_string())
    );
}

fn is_tie(numerator: u128, denominator: u128) -> bool {
    2 * (numerator % denominator) == denominator
}

#[test]
fn calculation_agrees_with_floating_point_off_ties() {
    for a in 0u128..60 {
        for b in 1u128..40 {
            // left is a count of tenths, right a count of hundredths
            let tenths = a * 10 + b % 10;
            let hundredths = b * 100 + a % 100;
            let left = format!("{}.{}", tenths / 10, tenths % 10);
            let right = format!("{}.{:02}", hundredths / 100, hundredths % 100);
            let x: f64 = left.parse().unwrap();
            let y: f64 = right.parse().unwrap();
            let cases = [
                ('*', x * y, is_tie(tenths * hundredths, 10)),
                ('/', x / y, is_tie(tenths * 1000, hundredths)),
                ('+', x + y, false),
                ('-', x - y, false),
            ];
            for (symbol, value, tie) in cases {
                let expected = format!("{:.2}", value);
                if tie || expected == "0.00" || expected == "-0.00" {
                    continue;
                }
                let got = combine_numbers(&chars(&left), symbol, &chars(&right)).map(|v| string(&v));
                assert_eq!(got, Some(expected), "{left} {symbol} {right}");
            }
        }
    }
}
