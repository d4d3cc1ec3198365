//! The values that validation and stepping hand back to the caller.

use vstd::prelude::*;

verus! {

/// The kind of a field of a transaction record.
#[derive(Clone, Copy, Debug, PartialEq, Eq, Hash)]
pub enum AType {
    Date,
    TxMethod,
    Amount,
    TxType,
    Tags,
}

/// Why a buffer was not accepted.
#[derive(Clone, Copy, Debug, PartialEq, Eq, Hash)]
pub enum NAType {
    /// The date does not consist of three parts.
    InvalidDate,
    /// The year part is not four characters long.
    InvalidYear,
    /// The month part is not two characters long.
    InvalidMonth,
    /// The day part is not two characters long.
    InvalidDay,
    /// The year lies outside the supported range.
    YearTooBig,
    /// The month lies outside 1 to 12.
    MonthTooBig,
    /// The day lies outside 1 to 31.
    DayTooBig,
    /// Year, month and day are in range, but the calendar has no such day.
    NonExistingDate,
    /// The amount is zero or negative.
    AmountBelowZero,
    /// The text of the field of the given kind could not be read as a value.
    ParsingError(AType),
    /// The store knows no such transaction method.
    InvalidTxMethod,
    /// The text names no transaction type.
    InvalidTxType,
    /// At least one tag is not in the store.
    NonExistingTag,
}

/// The three outcomes of validating a buffer.
#[derive(Clone, Copy, Debug, PartialEq, Eq, Hash)]
pub enum VerifyingOutput {
    /// The buffer is canonical and usable.
    Accepted(AType),
    /// The buffer broke a rule; it may have been corrected towards validity.
    NotAccepted(NAType),
    /// The buffer was empty.
    Nothing(AType),
}

/// The direction of a step.
#[derive(Clone, Copy, Debug, PartialEq, Eq, Hash)]
pub enum StepType {
    StepUp,
    StepDown,
}

} // verus!
