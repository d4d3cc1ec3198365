//! Outcomes and errors.

pub mod error;
pub mod outcome;

pub use error::{CheckingError, SteppingError, TxUpdateError, UiHandlingError};
pub use outcome::{AType, NAType, StepType, VerifyingOutput};
