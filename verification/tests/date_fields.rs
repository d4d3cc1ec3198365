use tx_fields::{
    AType, DataVerifier, FieldRules, FieldStepper, NAType, StepType, SteppingError,
    VerifyingOutput,
};

fn validate(text: &str) -> (VerifyingOutput, String) {
    let mut buffer = text.to_string();
    let status = FieldRules.verify_date(&mut buffer);
    (status, buffer)
}

fn step(text: &str, direction: StepType) -> (Result<(), SteppingError>, String) {
    let mut buffer = text.to_string();
    let done = FieldRules.step_date(&mut buffer, direction);
    (done, buffer)
}

fn rejected(reason: NAType, text: &str) -> (VerifyingOutput, String) {
    (VerifyingOutput::NotAccepted(reason), text.to_string())
}

#[test]
fn date_empty_is_nothing() {
    assert_eq!(validate(""), (VerifyingOutput::Nothing(AType::Date), String::new()));
}

#[test]
fn date_accepts_a_day_of_the_calendar() {
    assert_eq!(validate("2022-07-19"), (VerifyingOutput::Accepted(AType::Date), "2022-07-19".to_string()));
    assert_eq!(validate("2024-02-29"), (VerifyingOutput::Accepted(AType::Date), "2024-02-29".to_string()));
    assert_eq!(validate(" 2022 - 07 - 19 "), (VerifyingOutput::Accepted(AType::Date), "2022-07-19".to_string()));
    assert_eq!(validate("2037-12-31x"), (VerifyingOutput::Accepted(AType::Date), "2037-12-31".to_string()));
}

#[test]
fn date_without_three_parts_becomes_the_first_day() {
    assert_eq!(validate("2022-07"), rejected(NAType::InvalidDate, "2022-01-01"));
    assert_eq!(validate("20220719"), rejected(NAType::InvalidDate, "2022-01-01"));
    assert_eq!(validate("2022-07-19-01"), rejected(NAType::InvalidDate, "2022-01-01"));
    assert_eq!(validate("abc"), rejected(NAType::InvalidDate, "2022-01-01"));
}

#[test]
fn date_part_that_is_no_number() {
    assert_eq!(validate("2022--19"), rejected(NAType::ParsingError(AType::Date), "2022--19"));
    assert_eq!(validate("-07-19"), rejected(NAType::ParsingError(AType::Date), "-07-19"));
    assert_eq!(validate("2022-07-"), rejected(NAType::ParsingError(AType::Date), "2022-07-"));
    assert_eq!(
        validate("2022-4294967296-19"),
        rejected(NAType::ParsingError(AType::Date), "2022-4294967296-19")
    );
    assert_eq!(validate("2022-4294967295-19"), rejected(NAType::InvalidMonth, "2022-12-19"));
}

#[test]
fn date_numerals_of_other_scripts_are_kept_and_not_read() {
    assert_eq!(
        validate("\u{663}2022-07-19"),
        rejected(NAType::ParsingError(AType::Date), "\u{663}2022-07-19")
    );
    assert_eq!(
        validate("2022-07-1\u{b2}"),
        rejected(NAType::ParsingError(AType::Date), "2022-07-1\u{b2}")
    );
    assert_eq!(validate("\u{ff12}\u{ff10}"), rejected(NAType::InvalidDate, "2022-01-01"));
}

#[test]
fn date_year_of_wrong_length() {
    assert_eq!(validate("22-07-19"), rejected(NAType::InvalidYear, "2022-07-19"));
    assert_eq!(validate("20225-07-19"), rejected(NAType::InvalidYear, "2022-07-19"));
    assert_eq!(validate("203712-7-1"), rejected(NAType::InvalidYear, "2037-7-1"));
}

#[test]
fn date_month_of_wrong_length() {
    assert_eq!(validate("2022-7-19"), rejected(NAType::InvalidMonth, "2022-07-19"));
    assert_eq!(validate("2022-007-19"), rejected(NAType::InvalidMonth, "2022-07-19"));
    assert_eq!(validate("2022-0-19"), rejected(NAType::InvalidMonth, "2022-00-19"));
    assert_eq!(validate("2022-123-19"), rejected(NAType::InvalidMonth, "2022-12-19"));
    assert_eq!(validate("2022-012-19"), rejected(NAType::InvalidMonth, "2022-012-19"));
}

#[test]
fn date_day_of_wrong_length() {
    assert_eq!(validate("2022-07-1"), rejected(NAType::InvalidDay, "2022-07-01"));
    assert_eq!(validate("2022-07-190"), rejected(NAType::InvalidDay, "2022-07-31"));
    assert_eq!(validate("2022-07-031"), rejected(NAType::InvalidDay, "2022-07-031"));
}

#[test]
fn date_values_out_of_range() {
    assert_eq!(validate("2021-07-19"), rejected(NAType::YearTooBig, "2022-07-19"));
    assert_eq!(validate("2038-07-19"), rejected(NAType::YearTooBig, "2037-07-19"));
    assert_eq!(validate("2022-00-19"), rejected(NAType::MonthTooBig, "2022-01-19"));
    assert_eq!(validate("2022-13-19"), rejected(NAType::MonthTooBig, "2022-12-19"));
    assert_eq!(validate("2022-07-00"), rejected(NAType::DayTooBig, "2022-07-01"));
    assert_eq!(validate("2022-07-32"), rejected(NAType::DayTooBig, "2022-07-31"));
}

#[test]
fn date_that_the_calendar_lacks() {
    assert_eq!(validate("2022-02-30"), rejected(NAType::NonExistingDate, "2022-02-30"));
    assert_eq!(validate("2023-02-29"), rejected(NAType::NonExistingDate, "2023-02-29"));
    assert_eq!(validate("2022-04-31"), rejected(NAType::NonExistingDate, "2022-04-31"));
}

#[test]
fn date_validation_twice_is_the_same() {
    for text in ["2022-07-19", "2024 02 - 29", "2037-12-31"] {
        let (first, buffer) = validate(text);
        if first == VerifyingOutput::Accepted(AType::Date) {
            assert_eq!(validate(&buffer), (first, buffer.clone()));
        }
    }
    let (first, buffer) = validate("x2030-11-30");
    assert_eq!(first, VerifyingOutput::Accepted(AType::Date));
    assert_eq!(validate(&buffer), (first, "2030-11-30".to_string()));
}

#[test]
fn date_step_moves_by_one_day() {
    assert_eq!(step("2022-07-19", StepType::StepUp), (Ok(()), "2022-07-20".to_string()));
    assert_eq!(step("2022-07-19", StepType::StepDown), (Ok(()), "2022-07-18".to_string()));
    assert_eq!(step("2022-07-31", StepType::StepUp), (Ok(()), "2022-08-01".to_string()));
    assert_eq!(step("2022-12-31", StepType::StepUp), (Ok(()), "2023-01-01".to_string()));
    assert_eq!(step("2023-01-01", StepType::StepDown), (Ok(()), "2022-12-31".to_string()));
    assert_eq!(step("2024-02-28", StepType::StepUp), (Ok(()), "2024-02-29".to_string()));
    assert_eq!(step("2023-02-28", StepType::StepUp), (Ok(()), "2023-03-01".to_string()));
    assert_eq!(step("2024-03-01", StepType::StepDown), (Ok(()), "2024-02-29".to_string()));
}

#[test]
fn date_step_stops_at_the_ends() {
    assert_eq!(step("2022-01-01", StepType::StepDown), (Ok(()), "2022-01-01".to_string()));
    assert_eq!(step("2037-12-31", StepType::StepUp), (Ok(()), "2037-12-31".to_string()));
    assert_eq!(step("2022-01-01", StepType::StepUp), (Ok(()), "2022-01-02".to_string()));
    assert_eq!(step("2037-12-31", StepType::StepDown), (Ok(()), "2037-12-30".to_string()));
}

#[test]
fn date_step_from_nothing_is_the_first_day() {
    assert_eq!(step("", StepType::StepUp), (Ok(()), "2022-01-01".to_string()));
    assert_eq!(step("", StepType::StepDown), (Ok(()), "2022-01-01".to_string()));
}

#[test]
fn date_step_fails_after_rejection() {
    assert_eq!(step("2022-7-19", StepType::StepUp), (Err(SteppingError::InvalidDate), "2022-07-19".to_string()));
    assert_eq!(step("2022-02-30", StepType::StepDown), (Err(SteppingError::InvalidDate), "2022-02-30".to_string()));
    assert_eq!(step("x", StepType::StepUp), (Err(SteppingError::InvalidDate), "2022-01-01".to_string()));
}

fn days_of(year: u32, month: u32) -> u32 {
    match month {
        2 => {
            if year % 4 == 0 && (year % 100 != 0 || year % 400 == 0) {
                29
            } else {
                28
            }
        }
        4 | 6 | 9 | 11 => 30,
        _ => 31,
    }
}

#[test]
fn date_every_day_of_every_year() {
    for year in 2022..=2037u32 {
        for month in 1..=12u32 {
            for day in 1..=31u32 {
                let text = format!("{:04}-{:02}-{:02}", year, month, day);
                let expected = if day <= days_of(year, month) {
                    VerifyingOutput::Accepted(AType::Date)
                } else {
                    VerifyingOutput::NotAccepted(NAType::NonExistingDate)
                };
                assert_eq!(validate(&text), (expected, text.clone()));
            }
        }
    }
}

#[test]
fn date_step_through_every_day() {
    let mut days: Vec<String> = Vec::new();
    for year in 2022..=2037u32 {
        for month in 1..=12u32 {
            for day in 1..=days_of(year, month) {
                days.push(format!("{:04}-{:02}-{:02}", year, month, day));
            }
        }
    }
    assert_eq!(days.len(), 5844);
    for at in 0..days.len() {
        let up = if at + 1 < days.len() { at + 1 } else { at };
        let down = if at > 0 { at - 1 } else { at };
        assert_eq!(step(&days[at], StepType::StepUp), (Ok(()), days[up].clone()));
        assert_eq!(step(&days[at], StepType::StepDown), (Ok(()), days[down].clone()));
    }
}
