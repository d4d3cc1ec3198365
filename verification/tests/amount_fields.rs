use tx_fields::{
    AType, DataVerifier, FieldRules, FieldStepper, NAType, StepType, SteppingError,
    VerifyingOutput,
};

fn validate(text: &str) -> (VerifyingOutput, String) {
    let mut buffer = text.to_string();
    let status = FieldRules.verify_amount(&mut buffer);
    (status, buffer)
}

fn step(text: &str, direction: StepType) -> (Result<(), SteppingError>, String) {
    let mut buffer = text.to_string();
    let done = FieldRules.step_amount(&mut buffer, direction);
    (done, buffer)
}

fn accepted(text: &str) -> (VerifyingOutput, String) {
    (VerifyingOutput::Accepted(AType::Amount), text.to_string())
}

fn parsing(text: &str) -> (VerifyingOutput, String) {
    (VerifyingOutput::NotAccepted(NAType::ParsingError(AType::Amount)), text.to_string())
}

fn below_zero(text: &str) -> (VerifyingOutput, String) {
    (VerifyingOutput::NotAccepted(NAType::AmountBelowZero), text.to_string())
}

#[test]
fn amount_empty_is_nothing() {
    assert_eq!(validate(""), (VerifyingOutput::Nothing(AType::Amount), String::new()));
}

#[test]
fn amount_plain_number_gets_fraction() {
    assert_eq!(validate("100"), accepted("100.00"));
    assert_eq!(validate("100."), accepted("100.00"));
    assert_eq!(validate("100.5"), accepted("100.50"));
    assert_eq!(validate("100.567"), accepted("100.56"));
    assert_eq!(validate(".5"), accepted(".50"));
}

#[test]
fn amount_strips_other_characters() {
    assert_eq!(validate(" 1 0 0 "), accepted("100.00"));
    assert_eq!(validate("$1,000.25 USD"), accepted("1000.25"));
    assert_eq!(validate("abc"), parsing(""));
}

#[test]
fn amount_whole_part_is_cut_to_ten() {
    assert_eq!(validate("123456789012345"), accepted("1234567890.00"));
    assert_eq!(validate("12345678901.789"), accepted("1234567890.78"));
}

#[test]
fn amount_evaluates_by_symbol_priority() {
    assert_eq!(validate("2+3*4"), accepted("14.00"));
    assert_eq!(validate("1+5*10"), accepted("51.00"));
    assert_eq!(validate("10/4"), accepted("2.50"));
    assert_eq!(validate("10-3"), accepted("7.00"));
    assert_eq!(validate("1.5+2.25"), accepted("3.75"));
    assert_eq!(validate("100*1.1"), accepted("110.00"));
}

#[test]
fn amount_rounds_results_to_hundredths() {
    assert_eq!(validate("10/3"), accepted("3.33"));
    assert_eq!(validate("20/3"), accepted("6.67"));
    assert_eq!(validate("1/8"), accepted("0.12"));
    assert_eq!(validate("3/8"), accepted("0.38"));
    assert_eq!(validate("0.005+0"), below_zero("0.00"));
    assert_eq!(validate("0.015+0"), accepted("0.02"));
}

#[test]
fn amount_one_sided_sign_keeps_the_other_side() {
    assert_eq!(validate("-5"), accepted("5.00"));
    assert_eq!(validate("5+"), accepted("5.00"));
    assert_eq!(validate("*7"), accepted("7.00"));
    assert_eq!(validate("--5"), accepted("5.00"));
    assert_eq!(validate("5--"), accepted("5.00"));
}

#[test]
fn amount_negative_result_is_mirrored() {
    assert_eq!(validate("3-5"), below_zero("2.00"));
    assert_eq!(validate("0-5"), below_zero("5.00"));
    assert_eq!(validate("3-5*2"), below_zero("7.00"));
    assert_eq!(validate("0-0.001"), below_zero("0.00"));
}

#[test]
fn amount_zero_is_below_zero() {
    assert_eq!(validate("0"), below_zero("0.00"));
    assert_eq!(validate("0.00"), below_zero("0.00"));
    assert_eq!(validate("."), below_zero("0.00"));
    assert_eq!(validate("-"), below_zero("0.00"));
    assert_eq!(validate("5-5"), below_zero("0.00"));
}

#[test]
fn amount_numerals_of_other_scripts_are_kept_and_not_read() {
    assert_eq!(validate("5\u{663}"), parsing("5\u{663}.00"));
    assert_eq!(validate("\u{663}+1"), parsing("\u{663}+1"));
    assert_eq!(validate("\u{bd}"), parsing("\u{bd}.00"));
    assert_eq!(validate("1\u{2460}.5"), parsing("1\u{2460}.5"));
}

#[test]
fn amount_equal_calculations_are_replaced_together() {
    assert_eq!(validate("1+1+1+1"), accepted("4.00"));
    assert_eq!(validate("5-3-5-3"), below_zero("0.00"));
    assert_eq!(validate("2*3+2*3"), accepted("12.00"));
    assert_eq!(validate("1-2-1-2"), below_zero("0.00"));
}

#[test]
fn amount_chain_of_minus_is_left_unfinished() {
    assert_eq!(validate("10-3-2"), accepted("5.00"));
    assert_eq!(validate("3-5-1"), parsing("2.00-1"));
}

#[test]
fn amount_parsing_errors() {
    assert_eq!(validate("1.2.3"), parsing("1.2.3"));
    assert_eq!(validate("1.."), parsing("1..00"));
    assert_eq!(validate("1.2.3+1"), parsing("1.2.3+1"));
    assert_eq!(validate("1/0"), parsing("1/0"));
}

#[test]
fn amount_numbers_of_any_size() {
    assert_eq!(validate("999999999999999999*1"), accepted("9999999999.00"));
    assert_eq!(validate("999999999999999999*999999999999999999"), accepted("9999999999.00"));
    assert_eq!(validate("0-999999999999999999"), below_zero("999999999999999999.00"));
    assert_eq!(validate("1234567890123456789*2"), accepted("2469135780.00"));
    assert_eq!(
        validate("100000000000000000000000000000000000000000/3"),
        accepted("3333333333.33")
    );
    assert_eq!(
        validate("0.00000000000000000000000000000000000000001*1000000000000000000000000000000000000000000"),
        accepted("10.00")
    );
    assert_eq!(
        validate("1-123456789012345678901234567890123456789012345678901234567890.125"),
        below_zero("123456789012345678901234567890123456789012345678901234567889.12")
    );
}

#[test]
fn amount_validation_twice_is_the_same() {
    for text in ["100", "2+3*4", ".5", "123456789012345", "10/3"] {
        let (first, buffer) = validate(text);
        assert_eq!(first, VerifyingOutput::Accepted(AType::Amount));
        assert_eq!(validate(&buffer), (first, buffer.clone()));
    }
}

#[test]
fn amount_accepted_zero_is_not_accepted_again() {
    assert_eq!(validate("0.001"), accepted("0.00"));
    assert_eq!(validate("0.00"), below_zero("0.00"));
}

#[test]
fn amount_step_moves_by_one() {
    assert_eq!(step("5.50", StepType::StepUp), (Ok(()), "6.50".to_string()));
    assert_eq!(step("5.50", StepType::StepDown), (Ok(()), "4.50".to_string()));
    assert_eq!(step("007", StepType::StepUp), (Ok(()), "8.00".to_string()));
    assert_eq!(step("2*3", StepType::StepUp), (Ok(()), "7.00".to_string()));
    assert_eq!(step("1.00", StepType::StepDown), (Ok(()), "0.00".to_string()));
}

#[test]
fn amount_step_stops_at_the_ends() {
    assert_eq!(step("9999999999.99", StepType::StepUp), (Ok(()), "9999999999.99".to_string()));
    assert_eq!(step("9999999999.50", StepType::StepUp), (Ok(()), "9999999999.50".to_string()));
    assert_eq!(step("9999999998.99", StepType::StepUp), (Ok(()), "9999999999.99".to_string()));
    assert_eq!(step("0.00", StepType::StepDown), (Ok(()), "0.00".to_string()));
    assert_eq!(step("0.99", StepType::StepDown), (Ok(()), "0.99".to_string()));
    assert_eq!(step(".50", StepType::StepDown), (Ok(()), "0.50".to_string()));
}

#[test]
fn amount_step_from_zero_or_nothing() {
    assert_eq!(step("", StepType::StepUp), (Ok(()), "1.00".to_string()));
    assert_eq!(step("", StepType::StepDown), (Ok(()), "1.00".to_string()));
    assert_eq!(step("0", StepType::StepUp), (Ok(()), "1.00".to_string()));
    assert_eq!(step("3-5", StepType::StepUp), (Ok(()), "1.00".to_string()));
    assert_eq!(step("3-5", StepType::StepDown), (Ok(()), "2.00".to_string()));
}

#[test]
fn amount_step_fails_on_parsing_error() {
    assert_eq!(step("1.2.3", StepType::StepUp), (Err(SteppingError::InvalidAmount), "1.2.3".to_string()));
    assert_eq!(step("abc", StepType::StepDown), (Err(SteppingError::InvalidAmount), String::new()));
}
