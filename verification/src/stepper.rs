//! Stepping of the buffers: the next or the previous value of a field.

use vstd::prelude::*;
use crate::amount::{amount_step, move_amount};
use crate::date::{date_step, move_date};
use crate::method::{method_step, move_method};
use crate::outputs::{StepType, SteppingError};
use crate::tags::{move_tags, tags_step};
use crate::text::{chars_text, name_rows, names, text_chars, trim};
use crate::tx_type::{move_type, type_step};
use crate::validate::DataVerifier;

verus! {

/// Stepping, one method for each kind of field. Each validates the buffer of
/// the field as [`DataVerifier`] does, and then puts the value one step up or
/// down into it.
pub trait FieldStepper: DataVerifier {
    /// Steps a date by one day, as [`date_step`] says.
    fn step_date(&self, user_date: &mut String, step_type: StepType) -> (done: Result<
        (),
        SteppingError,
    >)
        ensures
            (done, final(user_date)@) == date_step(old(user_date)@, step_type),
    {
        let (done, moved) = move_date(&text_chars(user_date.as_str()), step_type);
        *user_date = chars_text(&moved);
        done
    }

    /// Steps a transaction method to its neighbour in the store, as
    /// [`method_step`] says. For a buffer that is empty or white space only,
    /// the store must hold a method.
    fn step_tx_method(
        &self,
        user_method: &mut String,
        step_type: StepType,
        methods: &Vec<String>,
    ) -> (done: Result<(), SteppingError>)
        requires
            trim(old(user_method)@).len() == 0 ==> methods.len() > 0,
        ensures
            (done, final(user_method)@) == method_step(
                old(user_method)@,
                step_type,
                names(methods@),
            ),
    {
        let store = name_rows(methods);
        let (done, moved) = move_method(&text_chars(user_method.as_str()), step_type, &store);
        *user_method = chars_text(&moved);
        done
    }

    /// Steps an amount by one unit, as [`amount_step`] says.
    fn step_amount(&self, user_amount: &mut String, step_type: StepType) -> (done: Result<
        (),
        SteppingError,
    >)
        ensures
            (done, final(user_amount)@) == amount_step(old(user_amount)@, step_type),
    {
        let (done, moved) = move_amount(&text_chars(user_amount.as_str()), step_type);
        *user_amount = chars_text(&moved);
        done
    }

    /// Steps a transaction type to its neighbour, as [`type_step`] says.
    fn step_tx_type(&self, user_type: &mut String, step_type: StepType) -> (done: Result<
        (),
        SteppingError,
    >)
        ensures
            (done, final(user_type)@) == type_step(old(user_type)@, step_type),
    {
        let (done, moved) = move_type(&text_chars(user_type.as_str()), step_type);
        *user_type = chars_text(&moved);
        done
    }

    /// Steps the last tag of a list to its neighbour in the store, as
    /// [`tags_step`] says.
    fn step_tags(
        &self,
        user_tag: &mut String,
        autofill: &str,
        step_type: StepType,
        tags: &Vec<String>,
    ) -> (done: Result<(), SteppingError>)
        ensures
            (done, final(user_tag)@) == tags_step(
                old(user_tag)@,
                autofill@,
                step_type,
                names(tags@),
            ),
    {
        let store = name_rows(tags);
        let (done, moved) = move_tags(
            &text_chars(user_tag.as_str()),
            &text_chars(autofill),
            step_type,
            &store,
        );
        *user_tag = chars_text(&moved);
        done
    }
}

/// The rules of validation and stepping as they stand, with nothing of their
/// own.
#[derive(Clone, Copy, Debug, Default)]
pub struct FieldRules;

impl DataVerifier for FieldRules {

}

impl FieldStepper for FieldRules {

}

} // verus!
