//! Transaction types: Income, Expense and Transfer.

use vstd::prelude::*;
use crate::names::{cycle, cycle_index};
use crate::outputs::{AType, NAType, StepType, SteppingError, VerifyingOutput};
use crate::text::{keep, lemma_keep, text_chars};

verus! {

/// Every character but the space.
pub open spec fn no_space() -> Set<char> {
    Set::new(|c: char| c != ' ')
}

/// The place of the type that begins with the letter `c`, in either case, in
/// the order Income, Expense, Transfer.
pub open spec fn kind_index(c: char) -> Option<int> {
    if c == 'i' || c == 'I' {
        Some(0)
    } else if c == 'e' || c == 'E' {
        Some(1)
    } else if c == 't' || c == 'T' {
        Some(2)
    } else {
        None
    }
}

/// The name of the type at a place of the order Income, Expense, Transfer.
pub open spec fn kind_name(at: int) -> Seq<char> {
    if at == 0 {
        "Income"@
    } else if at == 1 {
        "Expense"@
    } else {
        "Transfer"@
    }
}

/// What validation makes of the text of a transaction type.
///
/// Spaces are taken out. If nothing is left, the text is empty. If the first
/// letter is that of a type, in either case, the text becomes the name of the
/// type and is accepted. Otherwise the text is cleared and not accepted.
pub open spec fn type_check(s: Seq<char>) -> (VerifyingOutput, Seq<char>) {
    let t = keep(s, no_space());
    if t.len() == 0 {
        (VerifyingOutput::Nothing(AType::TxType), t)
    } else {
        match kind_index(t[0]) {
            Some(at) => (VerifyingOutput::Accepted(AType::TxType), kind_name(at)),
            None => (VerifyingOutput::NotAccepted(NAType::InvalidTxType), Seq::empty()),
        }
    }
}

/// What stepping makes of the text of a transaction type.
///
/// The text is validated first. If the buffer is empty after that, it becomes
/// Income. Otherwise it becomes the type one step from the type of its first
/// letter, in the order Income, Expense, Transfer and going round at both
/// ends; a letter of no type counts as that of Income. The step fails if
/// validation had rejected the text, although the buffer was rewritten.
pub open spec fn type_step(s: Seq<char>, step: StepType) -> (Result<(), SteppingError>, Seq<char>) {
    let checked = type_check(s);
    if checked.1.len() == 0 {
        (Ok(()), kind_name(0))
    } else {
        let at = match kind_index(checked.1[0]) {
            Some(at) => at,
            None => 0,
        };
        (
            if checked.0 is NotAccepted {
                Err(SteppingError::InvalidTxType)
            } else {
                Ok(())
            },
            kind_name(cycle(at, 3, step)),
        )
    }
}

/// Takes the spaces out of `s`.
fn drop_spaces(s: &Vec<char>) -> (kept: Vec<char>)
    ensures
        kept@ == keep(s@, no_space()),
{
    let mut kept: Vec<char> = Vec::new();
    let mut i: usize = 0;
    while i < s.len()
        invariant
            i <= s.len(),
            kept@ == keep(s@.take(i as int), no_space()),
        decreases s.len() - i,
    {
        assert(s@.take(i + 1).drop_last() == s@.take(i as int));
        if s[i] != ' ' {
            kept.push(s[i]);
        }
        i += 1;
    }
    assert(s@.take(s.len() as int) == s@);
    kept
}

/// Gives the place of the type that begins with the letter `c`.
fn index_of_letter(c: char) -> (at: Option<usize>)
    ensures
        match at {
            Some(i) => kind_index(c) == Some(i as int) && i < 3,
            None => kind_index(c) is None,
        },
{
    if c == 'i' || c == 'I' {
        Some(0)
    } else if c == 'e' || c == 'E' {
        Some(1)
    } else if c == 't' || c == 'T' {
        Some(2)
    } else {
        None
    }
}

/// Writes the name of the type at a place.
fn name_at(at: usize) -> (name: Vec<char>)
    ensures
        name@ == kind_name(at as int),
{
    if at == 0 {
        text_chars("Income")
    } else if at == 1 {
        text_chars("Expense")
    } else {
        text_chars("Transfer")
    }
}

/// Validates the text of a transaction type.
pub fn check_type(text: &Vec<char>) -> (r: (VerifyingOutput, Vec<char>))
    ensures
        (r.0, r.1@) == type_check(text@),
{
    let t = drop_spaces(text);
    if t.len() == 0 {
        return (VerifyingOutput::Nothing(AType::TxType), t);
    }
    match index_of_letter(t[0]) {
        Some(at) => (VerifyingOutput::Accepted(AType::TxType), name_at(at)),
        None => (VerifyingOutput::NotAccepted(NAType::InvalidTxType), Vec::new()),
    }
}

/// Steps the text of a transaction type.
pub fn move_type(text: &Vec<char>, step: StepType) -> (r: (Result<(), SteppingError>, Vec<char>))
    ensures
        (r.0, r.1@) == type_step(text@, step),
{
    let (outcome, fixed) = check_type(text);
    if fixed.len() == 0 {
        return (Ok(()), name_at(0));
    }
    let at: usize = match index_of_letter(fixed[0]) {
        Some(at) => at,
        None => 0,
    };
    let moved = name_at(cycle_index(at, 3, step));
    match outcome {
        VerifyingOutput::NotAccepted(_) => (Err(SteppingError::InvalidTxType), moved),
        _ => (Ok(()), moved),
    }
}

/// Validating an accepted type again accepts it and leaves it as it is.
pub proof fn type_validation_is_idempotent(s: Seq<char>)
    requires
        type_check(s).0 is Accepted,
    ensures
        type_check(type_check(s).1) == type_check(s),
{
    reveal_strlit("Income");
    reveal_strlit("Expense");
    reveal_strlit("Transfer");
    let b = type_check(s).1;
    lemma_keep(b, no_space());
    assert(forall|i: int| 0 <= i < b.len() ==> no_space().contains(b[i]));
}

/// A step of a type always succeeds: validation clears the text that it
/// rejects, and an empty buffer becomes Income.
pub proof fn type_step_always_succeeds(s: Seq<char>, step: StepType)
    ensures
        type_step(s, step).0 is Ok,
        type_check(s).0 is NotAccepted ==> type_step(s, step).1 == kind_name(0),
{
}

/// A step leaves the name of a type, which validation accepts as it is.
pub proof fn type_step_leaves_an_accepted_type(s: Seq<char>, step: StepType)
    ensures
        type_check(type_step(s, step).1) == (
            VerifyingOutput::Accepted(AType::TxType),
            type_step(s, step).1,
        ),
{
    reveal_strlit("Income");
    reveal_strlit("Expense");
    reveal_strlit("Transfer");
    let b = type_step(s, step).1;
    assert(b == kind_name(0) || b == kind_name(1) || b == kind_name(2));
    lemma_keep(b, no_space());
    assert(forall|i: int| 0 <= i < b.len() ==> no_space().contains(b[i]));
}

} // verus!
