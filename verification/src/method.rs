//! Transaction methods: names that the store knows.

use vstd::prelude::*;
use crate::names::{
    closest, cycle, cycle_index, find_closest, find_equal, find_match, first_equal, first_match,
    lemma_first_equal, lemma_first_match, same_name,
};
use crate::outputs::{AType, NAType, StepType, SteppingError, VerifyingOutput};
use crate::text::{copy_chars, is_tight, lemma_trim_tight, rows, trim, trim_chars};

verus! {

/// What validation makes of the text of a transaction method, given the
/// methods of the store in their order.
///
/// The text is trimmed. If nothing is left, it is empty. If a method of the
/// store is the same name, whatever the case of its letters, the text becomes
/// the first such method as the store writes it, and is accepted. Otherwise
/// the text becomes the method that is closest to it by edit distance, the
/// first of several, and is not accepted; with no method in the store the
/// trimmed text stays.
pub open spec fn method_check(s: Seq<char>, methods: Seq<Seq<char>>) -> (
    VerifyingOutput,
    Seq<char>,
) {
    let t = trim(s);
    let at = first_match(methods, t, 0);
    if t.len() == 0 {
        (VerifyingOutput::Nothing(AType::TxMethod), t)
    } else if at < methods.len() {
        (VerifyingOutput::Accepted(AType::TxMethod), methods[at])
    } else if methods.len() == 0 {
        (VerifyingOutput::NotAccepted(NAType::InvalidTxMethod), t)
    } else {
        (
            VerifyingOutput::NotAccepted(NAType::InvalidTxMethod),
            methods[closest(methods, t, methods.len() as int)],
        )
    }
}

/// Validates the text of a transaction method.
pub fn check_method(text: &Vec<char>, methods: &Vec<Vec<char>>) -> (r: (
    VerifyingOutput,
    Vec<char>,
))
    ensures
        (r.0, r.1@) == method_check(text@, rows(methods@)),
{
    let t = trim_chars(text);
    if t.len() == 0 {
        return (VerifyingOutput::Nothing(AType::TxMethod), t);
    }
    let at: usize = find_match(methods, &t);
    if at < methods.len() {
        return (VerifyingOutput::Accepted(AType::TxMethod), copy_chars(&methods[at]));
    }
    if methods.len() == 0 {
        return (VerifyingOutput::NotAccepted(NAType::InvalidTxMethod), t);
    }
    let near: usize = find_closest(methods, &t);
    (VerifyingOutput::NotAccepted(NAType::InvalidTxMethod), copy_chars(&methods[near]))
}

/// What stepping makes of the text of a transaction method.
///
/// The text is validated first. An accepted method gives way to the one after
/// or before the first place where the store holds it, going round at both
/// ends. After a rejection the step fails and the buffer holds what validation
/// left. An empty text becomes the first method of the store, which must hold
/// one.
pub open spec fn method_step(s: Seq<char>, step: StepType, methods: Seq<Seq<char>>) -> (
    Result<(), SteppingError>,
    Seq<char>,
) {
    let checked = method_check(s, methods);
    match checked.0 {
        VerifyingOutput::Accepted(_) => (
            Ok(()),
            methods[cycle(first_equal(methods, checked.1, 0), methods.len() as int, step)],
        ),
        VerifyingOutput::NotAccepted(_) => (Err(SteppingError::InvalidTxMethod), checked.1),
        VerifyingOutput::Nothing(_) => (Ok(()), methods[0]),
    }
}

/// Steps the text of a transaction method.
pub fn move_method(text: &Vec<char>, step: StepType, methods: &Vec<Vec<char>>) -> (r: (
    Result<(), SteppingError>,
    Vec<char>,
))
    requires
        trim(text@).len() == 0 ==> methods.len() > 0,
    ensures
        (r.0, r.1@) == method_step(text@, step, rows(methods@)),
{
    let (outcome, fixed) = check_method(text, methods);
    match outcome {
        VerifyingOutput::Accepted(_) => {
            proof {
                lemma_first_match(rows(methods@), trim(text@), 0);
                lemma_first_equal(rows(methods@), fixed@, 0);
            }
            let at: usize = find_equal(methods, &fixed);
            if at < methods.len() {
                let next: usize = cycle_index(at, methods.len(), step);
                (Ok(()), copy_chars(&methods[next]))
            } else {
                (Ok(()), fixed)
            }
        },
        VerifyingOutput::NotAccepted(_) => (Err(SteppingError::InvalidTxMethod), fixed),
        VerifyingOutput::Nothing(_) => (Ok(()), copy_chars(&methods[0])),
    }
}

/// Validating an accepted method again accepts it and leaves it as it is,
/// provided that the store writes the method without white space at its ends
/// and not as the empty name: validation trims the text before it looks for
/// it.
pub proof fn method_validation_is_idempotent(s: Seq<char>, methods: Seq<Seq<char>>)
    requires
        method_check(s, methods).0 is Accepted,
        is_tight(method_check(s, methods).1),
        method_check(s, methods).1.len() > 0,
    ensures
        method_check(method_check(s, methods).1, methods) == method_check(s, methods),
{
    let t = trim(s);
    let b = method_check(s, methods).1;
    lemma_trim_tight(b);
    lemma_first_match(methods, t, 0);
    lemma_first_match(methods, b, 0);
    let at = first_match(methods, t, 0);
    assert(same_name(methods[at], b));
    assert forall|j: int| 0 <= j < at implies !same_name(methods[j], b) by {
        assert(!same_name(methods[j], t));
    }
    assert(first_match(methods, b, 0) == at);
}

} // verus!
