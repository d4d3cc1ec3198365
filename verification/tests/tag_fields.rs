use tx_fields::{
    AType, DataVerifier, FieldRules, FieldStepper, NAType, StepType, SteppingError,
    VerifyingOutput,
};

fn list(names: &[&str]) -> Vec<String> {
    names.iter().map(|s| s.to_string()).collect()
}

fn tidy(text: &str) -> String {
    let mut buffer = text.to_string();
    FieldRules.verify_tags(&mut buffer);
    buffer
}

fn forced(text: &str, store: &[&str]) -> (VerifyingOutput, String) {
    let mut buffer = text.to_string();
    let status = FieldRules.verify_tags_forced(&mut buffer, &list(store));
    (status, buffer)
}

fn step(text: &str, autofill: &str, direction: StepType, store: &[&str]) -> (Result<(), SteppingError>, String) {
    let mut buffer = text.to_string();
    let done = FieldRules.step_tags(&mut buffer, autofill, direction, &list(store));
    (done, buffer)
}

#[test]
fn tags_are_trimmed_and_kept_once() {
    assert_eq!(tidy("food,travel"), "food, travel");
    assert_eq!(tidy("  food ,, travel ,food, "), "food, travel");
    assert_eq!(tidy("food, Food, travel"), "food, Food, travel");
    assert_eq!(tidy("a b , c"), "a b, c");
    assert_eq!(tidy(""), "");
    assert_eq!(tidy(" , ,"), "");
}

#[test]
fn tags_tidy_twice_is_the_same() {
    for text in ["  food ,, travel ,food, ", "a,b,a,c", "", ",,"] {
        let once = tidy(text);
        assert_eq!(tidy(&once), once);
    }
}

#[test]
fn tags_forced_keeps_what_the_store_holds() {
    let store = ["food", "travel"];
    assert_eq!(forced("", &store), (VerifyingOutput::Nothing(AType::Tags), String::new()));
    assert_eq!(forced("travel ,food", &store), (VerifyingOutput::Accepted(AType::Tags), "travel, food".to_string()));
    assert_eq!(
        forced("food, Food, travel", &store),
        (VerifyingOutput::NotAccepted(NAType::NonExistingTag), "food, travel".to_string())
    );
    assert_eq!(forced("food, travel", &store), (VerifyingOutput::Accepted(AType::Tags), "food, travel".to_string()));
    assert_eq!(forced("rent", &store), (VerifyingOutput::NotAccepted(NAType::NonExistingTag), String::new()));
    assert_eq!(forced("food, food", &store), (VerifyingOutput::Accepted(AType::Tags), "food".to_string()));
}

#[test]
fn tags_forced_twice_is_the_same() {
    let store = ["food", "travel", "rent"];
    let (first, buffer) = forced(" rent,food ,rent", &store);
    assert_eq!(first, VerifyingOutput::Accepted(AType::Tags));
    assert_eq!(forced(&buffer, &store), (first, "rent, food".to_string()));
}

#[test]
fn tags_forced_accepts_a_list_without_tags_only_once() {
    let store = ["food"];
    assert_eq!(forced(",", &store), (VerifyingOutput::Accepted(AType::Tags), String::new()));
    assert_eq!(forced("", &store), (VerifyingOutput::Nothing(AType::Tags), String::new()));
}

#[test]
fn tags_step_goes_round() {
    let store = ["a", "b", "c"];
    assert_eq!(step("a", "", StepType::StepUp, &store), (Ok(()), "b".to_string()));
    assert_eq!(step("a", "", StepType::StepDown, &store), (Ok(()), "c".to_string()));
    assert_eq!(step("c", "", StepType::StepUp, &store), (Ok(()), "a".to_string()));
    assert_eq!(step("B", "", StepType::StepDown, &store), (Ok(()), "a".to_string()));
}

#[test]
fn tags_step_works_on_the_last_part_only() {
    let store = ["a", "b", "c"];
    assert_eq!(step("x,  y ,b", "", StepType::StepUp, &store), (Ok(()), "x, y, c".to_string()));
    assert_eq!(step("a,a", "", StepType::StepDown, &store), (Ok(()), "a, c".to_string()));
    assert_eq!(step("x,,b", "", StepType::StepUp, &store), (Ok(()), "x, , c".to_string()));
}

#[test]
fn tags_step_from_nothing() {
    assert_eq!(step("", "", StepType::StepUp, &["a", "b"]), (Ok(()), "a".to_string()));
    assert_eq!(step("", "", StepType::StepDown, &["a", "b"]), (Ok(()), "a".to_string()));
    assert_eq!(step("", "a", StepType::StepUp, &[]), (Err(SteppingError::InvalidTags), String::new()));
}

#[test]
fn tags_step_after_a_comma_takes_the_first_tag() {
    assert_eq!(step("x, y,", "", StepType::StepUp, &["a", "b"]), (Ok(()), "x, y, a".to_string()));
    assert_eq!(step("x, y, ", "", StepType::StepDown, &["a", "b"]), (Ok(()), "x, y, a".to_string()));
    assert_eq!(step("x ,y,", "", StepType::StepUp, &[]), (Ok(()), "x, y".to_string()));
    assert_eq!(step(",", "", StepType::StepUp, &["a"]), (Ok(()), ", a".to_string()));
}

#[test]
fn tags_step_of_unknown_tag_takes_the_suggestion() {
    let store = ["food", "travel"];
    assert_eq!(step("fo", "food", StepType::StepUp, &store), (Err(SteppingError::InvalidTags), "food".to_string()));
    assert_eq!(
        step("travel, fo", "food", StepType::StepDown, &store),
        (Err(SteppingError::InvalidTags), "travel, food".to_string())
    );
    assert_eq!(step("x", "", StepType::StepUp, &[]), (Err(SteppingError::InvalidTags), String::new()));
}
