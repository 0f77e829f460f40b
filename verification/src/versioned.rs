//! Versioned resolution in a build without host dependencies: every lookup is refused.

use vstd::prelude::*;
use crate::eval_error::EvalError;
use crate::text::{chars_of, text_copy};
use crate::value::Value;

verus! {

pub const VERSIONED_LOOKUP: &'static str = "versioned namespace lookup";

/// The position of the `@` that starts a version suffix: the last one.
pub open spec fn suffix_position(ns: Seq<char>) -> Option<int>
    decreases ns.len(),
{
    if ns.len() == 0 {
        None
    } else if ns.last() == '@' {
        Some(ns.len() - 1)
    } else {
        suffix_position(ns.drop_last())
    }
}

/// The name without a version suffix.
pub open spec fn base_name(ns: Seq<char>) -> Seq<char> {
    match suffix_position(ns) {
        Some(i) => ns.take(i),
        None => ns,
    }
}

/// Strip a trailing version suffix from a namespace name.
pub fn base_ns_name(ns: &str) -> (r: String)
    ensures
        r@ == base_name(ns@),
{
    let chars = chars_of(ns);
    let mut end: usize = chars.len();
    assert(chars@.take(end as int) =~= chars@);
    while end > 0 && chars[end - 1] != '@'
        invariant
            end <= chars@.len(),
            suffix_position(chars@) == suffix_position(chars@.take(end as int)),
        decreases end,
    {
        assert(chars@.take(end as int).drop_last() =~= chars@.take(end - 1));
        end = end - 1;
    }
    if end == 0 {
        return text_copy(ns);
    }
    assert(chars@.take(end as int).last() == '@');
    let mut out = String::new();
    assert(out@ =~= chars@.take(0));
    let at: usize = end - 1;
    for i in 0..at
        invariant
            at < chars@.len(),
            out@ == chars@.take(i as int),
    {
        out.push(chars[i]);
        assert(chars@.take(i + 1) =~= chars@.take(i as int).push(chars@[i as int]));
    }
    out
}

/// The error is the refusal of a versioned lookup.
pub open spec fn refused(e: EvalError) -> bool {
    e matches EvalError::ForbiddenEffect(operation) && operation@ == VERSIONED_LOOKUP@
}

fn forbidden() -> (r: EvalError)
    ensures
        refused(r),
{
    EvalError::ForbiddenEffect(text_copy(VERSIONED_LOOKUP))
}

/// Refuse a versioned value lookup.
pub fn resolve_versioned_value(
    _defining_ns: &str,
    _ns_part: Option<&str>,
    _name: &str,
    _commit: &str,
) -> (r: Result<Value, EvalError>)
    ensures
        r matches Err(e) && refused(e),
{
    Err(forbidden())
}

/// Refuse versioned source discovery.
pub fn pin_if_available(_base_ns: &str, _commit: &str) -> (r: Result<bool, EvalError>)
    ensures
        r matches Err(e) && refused(e),
{
    Err(forbidden())
}

/// Refuse versioned namespace loading.
pub fn ensure_versioned_ns_loaded(_base_ns: &str, _commit: &str) -> (r: Result<String, EvalError>)
    ensures
        r matches Err(e) && refused(e),
{
    Err(forbidden())
}

} // verus!
