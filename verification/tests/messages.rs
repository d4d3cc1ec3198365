use tx_fields::{CheckingError, SteppingError, TxUpdateError, UiHandlingError};

#[test]
fn checking_error_messages() {
    assert_eq!(CheckingError::EmptyDate.message(), "Date: Date cannot be empty");
    assert_eq!(CheckingError::EmptyMethod.message(), "Tx Method: TX Method cannot be empty");
    assert_eq!(CheckingError::EmptyAmount.message(), "Amount: Amount cannot be empty");
    assert_eq!(CheckingError::EmptyTxType.message(), "Tx Type: Transaction Type cannot be empty");
    assert_eq!(
        CheckingError::SameTxMethod.message(),
        "Tx Method: From and To methods cannot be the same for Transfer"
    );
}

#[test]
fn stepping_error_messages() {
    assert_eq!(SteppingError::InvalidDate.message(), "Date: Failed to step due to invalid date format");
    assert_eq!(
        SteppingError::InvalidTxMethod.message(),
        "Tx Method: Failed to step as the tx method does not exists"
    );
    assert_eq!(SteppingError::InvalidAmount.message(), "Amount: Failed to step due to invalid amount format");
    assert_eq!(SteppingError::InvalidTxType.message(), "Tx Type: Failed to step due to invalid tx type");
    assert_eq!(SteppingError::InvalidTags.message(), "Tags: Failed to step as the tag does not exists");
    assert_eq!(
        SteppingError::UnknownBValue.message(),
        "Amount: Failed to step value. Value of B cannot be determined"
    );
}

#[test]
fn ui_error_messages() {
    let drawing = UiHandlingError::DrawingError(std::io::Error::new(std::io::ErrorKind::Other, "no screen"));
    assert_eq!(drawing.message(), "Error while trying to draw widgets. Error: no screen");
    assert_eq!(drawing.message_with("x"), "Error while trying to draw widgets. Error: x");
    let polling = UiHandlingError::PollingError(std::io::Error::new(std::io::ErrorKind::Other, "no keys"));
    assert_eq!(polling.message(), "Error while polling for keyboard input. no keys");
}

#[test]
fn update_error_messages() {
    let add = TxUpdateError::FailedAddTx(rusqlite::Error::QueryReturnedNoRows);
    assert_eq!(
        add.message(),
        format!(
            "Delete Transaction: Something went wrong. Failed to delete transaction. Error: \n{}",
            rusqlite::Error::QueryReturnedNoRows
        )
    );
    let edit = TxUpdateError::FailedEditTx(rusqlite::Error::InvalidQuery);
    assert_eq!(
        edit.message(),
        format!(
            "Edit Transaction: Something went wrong. Failed to edit transaction. Error: {}",
            rusqlite::Error::InvalidQuery
        )
    );
    let delete = TxUpdateError::FailedDeleteTx(rusqlite::Error::InvalidQuery);
    assert_eq!(
        delete.message_with("gone"),
        "Add Transaction: Something went wrong. Failed to add transaction. Error: gone"
    );
}
