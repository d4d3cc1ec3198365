//! The errors that the caller shows to the user, each with its message.

use vstd::prelude::*;
use vstd::string::StringExecFns;

verus! {

/// `std::io::Error`, of which nothing is known here.
#[verifier::external_type_specification]
#[verifier::external_body]
pub struct ExIoError(std::io::Error);

/// `rusqlite::Error`, of which nothing is known here.
#[verifier::external_type_specification]
#[verifier::external_body]
pub struct ExSqlError(rusqlite::Error);

/// The text that `std::io::Error` prints for itself (its `Display`). Nothing
/// is known of that text.
#[verifier::external_body]
fn io_error_text(error: &std::io::Error) -> (text: String) {
    format!("{}", error)
}

/// The text that `rusqlite::Error` prints for itself (its `Display`). Nothing
/// is known of that text.
#[verifier::external_body]
fn sql_error_text(error: &rusqlite::Error) -> (text: String) {
    format!("{}", error)
}

/// A failure of the user interface.
#[derive(Debug)]
pub enum UiHandlingError {
    DrawingError(std::io::Error),
    PollingError(std::io::Error),
}

impl UiHandlingError {
    /// What the message begins with; the text of the inner error follows.
    pub open spec fn headline(&self) -> Seq<char> {
        match self {
            UiHandlingError::DrawingError(_) => "Error while trying to draw widgets. Error: "@,
            UiHandlingError::PollingError(_) => "Error while polling for keyboard input. "@,
        }
    }

    /// The message for an inner error whose own text is `detail`.
    pub fn message_with(&self, detail: &str) -> (text: String)
        ensures
            text@ == self.headline() + detail@,
    {
        let head = match self {
            UiHandlingError::DrawingError(_) => "Error while trying to draw widgets. Error: ",
            UiHandlingError::PollingError(_) => "Error while polling for keyboard input. ",
        };
        String::from_str(head).concat(detail)
    }

    /// The message: the headline, then the inner error in its own words.
    pub fn message(&self) -> (text: String)
        ensures
            self.headline().is_prefix_of(text@),
    {
        let detail = match self {
            UiHandlingError::DrawingError(inner) => io_error_text(inner),
            UiHandlingError::PollingError(inner) => io_error_text(inner),
        };
        self.message_with(detail.as_str())
    }
}

/// A field that must not be left as it is when a transaction is saved.
#[derive(Clone, Copy, Debug, PartialEq, Eq, Hash)]
pub enum CheckingError {
    EmptyDate,
    EmptyMethod,
    EmptyAmount,
    EmptyTxType,
    SameTxMethod,
}

impl CheckingError {
    /// The text of the message.
    pub open spec fn message_text(&self) -> Seq<char> {
        match self {
            CheckingError::EmptyDate => "Date: Date cannot be empty"@,
            CheckingError::EmptyMethod => "Tx Method: TX Method cannot be empty"@,
            CheckingError::EmptyAmount => "Amount: Amount cannot be empty"@,
            CheckingError::EmptyTxType => "Tx Type: Transaction Type cannot be empty"@,
            CheckingError::SameTxMethod => "Tx Method: From and To methods cannot be the same for Transfer"@,
        }
    }

    /// The message for the user.
    pub fn message(&self) -> (text: String)
        ensures
            text@ == self.message_text(),
    {
        match self {
            CheckingError::EmptyDate => String::from_str("Date: Date cannot be empty"),
            CheckingError::EmptyMethod => String::from_str("Tx Method: TX Method cannot be empty"),
            CheckingError::EmptyAmount => String::from_str("Amount: Amount cannot be empty"),
            CheckingError::EmptyTxType => String::from_str(
                "Tx Type: Transaction Type cannot be empty",
            ),
            CheckingError::SameTxMethod => String::from_str(
                "Tx Method: From and To methods cannot be the same for Transfer",
            ),
        }
    }
}

/// Why a field could not be stepped.
#[derive(Clone, Copy, Debug, PartialEq, Eq, Hash)]
pub enum SteppingError {
    InvalidDate,
    InvalidTxMethod,
    InvalidAmount,
    InvalidTxType,
    InvalidTags,
    UnknownBValue,
}

impl SteppingError {
    /// The text of the message.
    pub open spec fn message_text(&self) -> Seq<char> {
        match self {
            SteppingError::InvalidDate => "Date: Failed to step due to invalid date format"@,
            SteppingError::InvalidTxMethod => "Tx Method: Failed to step as the tx method does not exists"@,
            SteppingError::InvalidAmount => "Amount: Failed to step due to invalid amount format"@,
            SteppingError::InvalidTxType => "Tx Type: Failed to step due to invalid tx type"@,
            SteppingError::InvalidTags => "Tags: Failed to step as the tag does not exists"@,
            SteppingError::UnknownBValue => "Amount: Failed to step value. Value of B cannot be determined"@,
        }
    }

    /// The message for the user.
    pub fn message(&self) -> (text: String)
        ensures
            text@ == self.message_text(),
    {
        match self {
            SteppingError::InvalidDate => String::from_str(
                "Date: Failed to step due to invalid date format",
            ),
            SteppingError::InvalidTxMethod => String::from_str(
                "Tx Method: Failed to step as the tx method does not exists",
            ),
            SteppingError::InvalidAmount => String::from_str(
                "Amount: Failed to step due to invalid amount format",
            ),
            SteppingError::InvalidTxType => String::from_str(
                "Tx Type: Failed to step due to invalid tx type",
            ),
            SteppingError::InvalidTags => String::from_str(
                "Tags: Failed to step as the tag does not exists",
            ),
            SteppingError::UnknownBValue => String::from_str(
                "Amount: Failed to step value. Value of B cannot be determined",
            ),
        }
    }
}

/// A failure to change the stored transactions.
#[derive(Debug)]
pub enum TxUpdateError {
    FailedAddTx(rusqlite::Error),
    FailedEditTx(rusqlite::Error),
    FailedDeleteTx(rusqlite::Error),
}

impl TxUpdateError {
    /// What the message begins with; the text of the inner error follows.
    pub open spec fn headline(&self) -> Seq<char> {
        match self {
            TxUpdateError::FailedAddTx(_) => "Delete Transaction: Something went wrong. Failed to delete transaction. Error: \n"@,
            TxUpdateError::FailedEditTx(_) => "Edit Transaction: Something went wrong. Failed to edit transaction. Error: "@,
            TxUpdateError::FailedDeleteTx(_) => "Add Transaction: Something went wrong. Failed to add transaction. Error: "@,
        }
    }

    /// The message for an inner error whose own text is `detail`.
    pub fn message_with(&self, detail: &str) -> (text: String)
        ensures
            text@ == self.headline() + detail@,
    {
        let head = match self {
            TxUpdateError::FailedAddTx(_) => "Delete Transaction: Something went wrong. Failed to delete transaction. Error: \n",
            TxUpdateError::FailedEditTx(_) => "Edit Transaction: Something went wrong. Failed to edit transaction. Error: ",
            TxUpdateError::FailedDeleteTx(_) => "Add Transaction: Something went wrong. Failed to add transaction. Error: ",
        };
        String::from_str(head).concat(detail)
    }

    /// The message: the headline, then the inner error in its own words.
    pub fn message(&self) -> (text: String)
        ensures
            self.headline().is_prefix_of(text@),
    {
        let detail = match self {
            TxUpdateError::FailedAddTx(inner) => sql_error_text(inner),
            TxUpdateError::FailedEditTx(inner) => sql_error_text(inner),
            TxUpdateError::FailedDeleteTx(inner) => sql_error_text(inner),
        };
        self.message_with(detail.as_str())
    }
}

} // verus!
