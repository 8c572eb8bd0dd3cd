use vstd::prelude::*;
use crate::printer::{pr_str, print_datum};
use crate::reader::{form_at, lexed, read_str};
use crate::types::{Datum, MalType};

verus! {

/// What reading a line yields: the first form among its tokens.
pub open spec fn read_text(s: Seq<char>) -> Datum {
    form_at(lexed(s), 0).0
}

#[allow(non_snake_case)]
fn READ(s: &str) -> (r: MalType)
    ensures
        r@ == read_text(s@),
{
    read_str(s)
}

/// Evaluation is the identity for now.
#[allow(non_snake_case)]
fn EVAL(mal: MalType) -> (r: MalType)
    ensures
        r@ == mal@,
{
    mal
}

#[allow(non_snake_case)]
fn PRINT(mal: MalType) -> (r: String)
    ensures
        r@ == print_datum(mal@),
{
    pr_str(&mal)
}

/// Reads one line, evaluates the form and prints the result.
pub fn rep(s: &str) -> (r: String)
    ensures
        r@ == print_datum(read_text(s@)),
{
    PRINT(EVAL(READ(s)))
}

} // verus!
