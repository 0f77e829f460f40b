//! Why an evaluation failed, and how that is told to the user.

use vstd::prelude::*;
use crate::decimal::digits;
use crate::decimal::push_digits;
use crate::instant::quoted;
use crate::instant::quote;
use crate::text::{push_text, text_copy};
use crate::value::Value;

verus! {

/// Why an evaluation failed.
#[derive(Debug)]
pub enum EvalError {
    Thrown(Value),
    UnboundSymbol(String),
    Arity { name: String, expected: String, got: usize },
    NotCallable(String),
    Runtime(String),
    GasExhausted,
    ForbiddenEffect(String),
    /// The reader's own account of the error.
    Read(String),
    Recur(Vec<Value>),
    CommitSignatureVerificationFailed { commit: String, reason: String },
}

/// The account of an error, where `printed` is the thrown value as the printer writes it.
pub open spec fn account(e: EvalError, printed: Seq<char>) -> Seq<char> {
    match e {
        EvalError::Thrown(_) => "Unhandled exception: "@ + printed,
        EvalError::UnboundSymbol(s) => "Unable to resolve symbol: "@ + s@,
        EvalError::Arity { name, expected, got } => "Wrong number of args ("@ + digits(got as nat)
            + ") passed to "@ + name@ + "; expected "@ + expected@,
        EvalError::NotCallable(s) => "Not a function: "@ + s@,
        EvalError::Runtime(msg) => msg@,
        EvalError::GasExhausted => "gas exhausted"@,
        EvalError::ForbiddenEffect(operation) => "effect forbidden in transaction function: "@
            + operation@,
        EvalError::Read(e) => e@,
        EvalError::Recur(_) => "recur outside of loop/fn"@,
        EvalError::CommitSignatureVerificationFailed { commit, reason } => "commit "@ + quoted(
            commit@,
        ) + " failed signature verification: "@ + reason@,
    }
}

fn joined(before: &str, detail: &str) -> (r: String)
    ensures
        r@ == before@ + detail@,
{
    let mut m = text_copy(before);
    push_text(&mut m, detail);
    m
}

/// The account of an error, where `printed` is the thrown value as the printer writes it.
pub fn format_eval_error(e: &EvalError, printed: &str) -> (r: String)
    ensures
        r@ == account(*e, printed@),
{
    match e {
        EvalError::Thrown(_) => joined("Unhandled exception: ", printed),
        EvalError::UnboundSymbol(s) => joined("Unable to resolve symbol: ", s.as_str()),
        EvalError::Arity { name, expected, got } => {
            let mut m = text_copy("Wrong number of args (");
            push_digits(&mut m, *got as u64);
            push_text(&mut m, ") passed to ");
            push_text(&mut m, name.as_str());
            push_text(&mut m, "; expected ");
            push_text(&mut m, expected.as_str());
            m
        },
        EvalError::NotCallable(s) => joined("Not a function: ", s.as_str()),
        EvalError::Runtime(msg) => msg.clone(),
        EvalError::GasExhausted => text_copy("gas exhausted"),
        EvalError::ForbiddenEffect(operation) => joined(
            "effect forbidden in transaction function: ",
            operation.as_str(),
        ),
        EvalError::Read(e) => e.clone(),
        EvalError::Recur(_) => text_copy("recur outside of loop/fn"),
        EvalError::CommitSignatureVerificationFailed { commit, reason } => {
            let mut m = joined("commit ", quote(commit.as_str()).as_str());
            push_text(&mut m, " failed signature verification: ");
            push_text(&mut m, reason.as_str());
            m
        },
    }
}

} // verus!
