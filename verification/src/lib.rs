//! Validation and stepping of the text fields of a transaction record.
//!
//! The user types free text into fields of a fixed purpose: a date, an amount,
//! a transaction method, a transaction type and a list of tags. Validation
//! brings the text of a field into its canonical form and says whether it is
//! acceptable; stepping puts the next or the previous value into the field.

pub mod amount;
pub mod big;
pub mod date;
pub mod decimal;
pub mod method;
pub mod names;
pub mod outputs;
pub mod stepper;
pub mod tags;
pub mod text;
pub mod tx_type;
pub mod validate;

pub use outputs::{
    AType, CheckingError, NAType, StepType, SteppingError, TxUpdateError, UiHandlingError,
    VerifyingOutput,
};
pub use stepper::{FieldRules, FieldStepper};
pub use validate::DataVerifier;
