//! Validation of the buffers that the user types into.

use vstd::prelude::*;
use crate::amount::{amount_check, check_amount};
use crate::date::{check_date, date_check};
use crate::method::{check_method, method_check};
use crate::outputs::VerifyingOutput;
use crate::tags::{check_tags, tags_check, tidy, tidy_tags};
use crate::text::{chars_text, name_rows, names, text_chars};
use crate::tx_type::{check_type, type_check};

verus! {

/// Validation, one method for each kind of field. Each takes the buffer of the
/// field, may rewrite it towards a valid text, and says what it found.
pub trait DataVerifier {
    /// Validates a date of the form year, month, day, as [`date_check`] says.
    fn verify_date(&self, user_date: &mut String) -> (status: VerifyingOutput)
        ensures
            (status, final(user_date)@) == date_check(old(user_date)@),
    {
        let (status, fixed) = check_date(&text_chars(user_date.as_str()));
        *user_date = chars_text(&fixed);
        status
    }

    /// Validates an amount, which may hold a calculation, as [`amount_check`]
    /// says.
    fn verify_amount(&self, user_amount: &mut String) -> (status: VerifyingOutput)
        ensures
            (status, final(user_amount)@) == amount_check(old(user_amount)@),
    {
        let (status, fixed) = check_amount(&text_chars(user_amount.as_str()));
        *user_amount = chars_text(&fixed);
        status
    }

    /// Validates a transaction method against the methods of the store, as
    /// [`method_check`] says.
    fn verify_tx_method(&self, user_method: &mut String, methods: &Vec<String>) -> (status:
        VerifyingOutput)
        ensures
            (status, final(user_method)@) == method_check(old(user_method)@, names(methods@)),
    {
        let store = name_rows(methods);
        let (status, fixed) = check_method(&text_chars(user_method.as_str()), &store);
        *user_method = chars_text(&fixed);
        status
    }

    /// Validates a transaction type, as [`type_check`] says.
    fn verify_tx_type(&self, user_type: &mut String) -> (status: VerifyingOutput)
        ensures
            (status, final(user_type)@) == type_check(old(user_type)@),
    {
        let (status, fixed) = check_type(&text_chars(user_type.as_str()));
        *user_type = chars_text(&fixed);
        status
    }

    /// Makes a list of tags tidy, as [`tidy_tags`] says. The store is not
    /// asked.
    fn verify_tags(&self, user_tag: &mut String)
        ensures
            final(user_tag)@ == tidy_tags(old(user_tag)@),
    {
        let fixed = tidy(&text_chars(user_tag.as_str()));
        *user_tag = chars_text(&fixed);
    }

    /// Validates a list of tags against the tags of the store, as
    /// [`tags_check`] says.
    fn verify_tags_forced(&self, user_tag: &mut String, tags: &Vec<String>) -> (status:
        VerifyingOutput)
        ensures
            (status, final(user_tag)@) == tags_check(old(user_tag)@, names(tags@)),
    {
        let store = name_rows(tags);
        let (status, fixed) = check_tags(&text_chars(user_tag.as_str()), &store);
        *user_tag = chars_text(&fixed);
        status
    }
}

} // verus!
