use tx_fields::{
    AType, DataVerifier, FieldRules, FieldStepper, NAType, StepType, SteppingError,
    VerifyingOutput,
};

fn list(names: &[&str]) -> Vec<String> {
    names.iter().map(|s| s.to_string()).collect()
}

fn method(text: &str, store: &[&str]) -> (VerifyingOutput, String) {
    let mut buffer = text.to_string();
    let status = FieldRules.verify_tx_method(&mut buffer, &list(store));
    (status, buffer)
}

fn step_method(text: &str, direction: StepType, store: &[&str]) -> (Result<(), SteppingError>, String) {
    let mut buffer = text.to_string();
    let done = FieldRules.step_tx_method(&mut buffer, direction, &list(store));
    (done, buffer)
}

fn kind(text: &str) -> (VerifyingOutput, String) {
    let mut buffer = text.to_string();
    let status = FieldRules.verify_tx_type(&mut buffer);
    (status, buffer)
}

fn step_kind(text: &str, direction: StepType) -> (Result<(), SteppingError>, String) {
    let mut buffer = text.to_string();
    let done = FieldRules.step_tx_type(&mut buffer, direction);
    (done, buffer)
}

#[test]
fn method_empty_is_nothing() {
    assert_eq!(method("", &["Bank", "Cash"]), (VerifyingOutput::Nothing(AType::TxMethod), String::new()));
    assert_eq!(method("  \t ", &["Bank", "Cash"]), (VerifyingOutput::Nothing(AType::TxMethod), String::new()));
}

#[test]
fn method_matches_whatever_the_case() {
    let accepted = VerifyingOutput::Accepted(AType::TxMethod);
    assert_eq!(method("bank", &["Bank", "Cash"]), (accepted, "Bank".to_string()));
    assert_eq!(method("  CASH ", &["Bank", "Cash"]), (accepted, "Cash".to_string()));
    assert_eq!(method("Cash", &["Bank", "Cash"]), (accepted, "Cash".to_string()));
    assert_eq!(method("CAFÉ", &["Bank", "café"]), (accepted, "café".to_string()));
    assert_eq!(method("cash", &["CASH", "Cash"]), (accepted, "CASH".to_string()));
}

#[test]
fn method_corrects_to_the_closest() {
    let rejected = VerifyingOutput::NotAccepted(NAType::InvalidTxMethod);
    assert_eq!(method("bnak", &["Bank", "Cash"]), (rejected, "Bank".to_string()));
    assert_eq!(method("Cas", &["Bank", "Cash"]), (rejected, "Cash".to_string()));
    assert_eq!(method("xyz", &["Bank", "Cash"]), (rejected, "Bank".to_string()));
    assert_eq!(method("Cach", &["Bank", "Cash", "Cache"]), (rejected, "Cash".to_string()));
    assert_eq!(method(" xyz ", &[]), (rejected, "xyz".to_string()));
}

#[test]
fn method_validation_twice_is_the_same() {
    let (first, buffer) = method("bank", &["Bank", "Cash"]);
    assert_eq!(first, VerifyingOutput::Accepted(AType::TxMethod));
    assert_eq!(method(&buffer, &["Bank", "Cash"]), (first, buffer.clone()));
}

#[test]
fn method_with_spaces_in_the_store_is_not_accepted_again() {
    let (first, buffer) = method("cash", &["Bank", " Cash"]);
    assert_eq!((first, buffer.as_str()), (VerifyingOutput::NotAccepted(NAType::InvalidTxMethod), " Cash"));
    let (first, buffer) = method("cash", &["Bank", "cash ", "Cash"]);
    assert_eq!((first, buffer.as_str()), (VerifyingOutput::Accepted(AType::TxMethod), "Cash"));
}

#[test]
fn method_step_goes_round() {
    let store = ["Bank", "Cash", "Card"];
    assert_eq!(step_method("bank", StepType::StepUp, &store), (Ok(()), "Cash".to_string()));
    assert_eq!(step_method("Card", StepType::StepUp, &store), (Ok(()), "Bank".to_string()));
    assert_eq!(step_method("Bank", StepType::StepDown, &store), (Ok(()), "Card".to_string()));
    assert_eq!(step_method("Card", StepType::StepDown, &store), (Ok(()), "Cash".to_string()));
    assert_eq!(step_method("Bank", StepType::StepUp, &["Bank"]), (Ok(()), "Bank".to_string()));
}

#[test]
fn method_step_from_nothing_or_rejection() {
    let store = ["Bank", "Cash"];
    assert_eq!(step_method("", StepType::StepDown, &store), (Ok(()), "Bank".to_string()));
    assert_eq!(step_method("bnak", StepType::StepUp, &store), (Err(SteppingError::InvalidTxMethod), "Bank".to_string()));
    assert_eq!(step_method("  ", StepType::StepUp, &store), (Ok(()), "Bank".to_string()));
    assert_eq!(step_method("x", StepType::StepUp, &[]), (Err(SteppingError::InvalidTxMethod), "x".to_string()));
}

#[test]
fn type_expands_the_first_letter() {
    let accepted = VerifyingOutput::Accepted(AType::TxType);
    assert_eq!(kind("exp"), (accepted, "Expense".to_string()));
    assert_eq!(kind("E"), (accepted, "Expense".to_string()));
    assert_eq!(kind(" i n "), (accepted, "Income".to_string()));
    assert_eq!(kind("Tx"), (accepted, "Transfer".to_string()));
    assert_eq!(kind("Income"), (accepted, "Income".to_string()));
}

#[test]
fn type_rejects_other_letters() {
    assert_eq!(kind("x"), (VerifyingOutput::NotAccepted(NAType::InvalidTxType), String::new()));
    assert_eq!(kind("1e"), (VerifyingOutput::NotAccepted(NAType::InvalidTxType), String::new()));
    assert_eq!(kind(""), (VerifyingOutput::Nothing(AType::TxType), String::new()));
    assert_eq!(kind("   "), (VerifyingOutput::Nothing(AType::TxType), String::new()));
}

#[test]
fn type_validation_twice_is_the_same() {
    for text in ["e", "i", "t"] {
        let (first, buffer) = kind(text);
        assert_eq!(first, VerifyingOutput::Accepted(AType::TxType));
        assert_eq!(kind(&buffer), (first, buffer.clone()));
    }
}

#[test]
fn type_step_goes_round() {
    assert_eq!(step_kind("Income", StepType::StepUp), (Ok(()), "Expense".to_string()));
    assert_eq!(step_kind("e", StepType::StepUp), (Ok(()), "Transfer".to_string()));
    assert_eq!(step_kind("Transfer", StepType::StepUp), (Ok(()), "Income".to_string()));
    assert_eq!(step_kind("Income", StepType::StepDown), (Ok(()), "Transfer".to_string()));
    assert_eq!(step_kind("t", StepType::StepDown), (Ok(()), "Expense".to_string()));
}

#[test]
fn type_step_from_nothing_is_income() {
    assert_eq!(step_kind("", StepType::StepUp), (Ok(()), "Income".to_string()));
    assert_eq!(step_kind("  ", StepType::StepDown), (Ok(()), "Income".to_string()));
}

#[test]
fn type_step_of_unknown_letter_is_income() {
    assert_eq!(step_kind("x", StepType::StepUp), (Ok(()), "Income".to_string()));
    assert_eq!(step_kind("x", StepType::StepDown), (Ok(()), "Income".to_string()));
    assert_eq!(step_kind(" 7 e", StepType::StepDown), (Ok(()), "Income".to_string()));
}
