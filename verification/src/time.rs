//! Time builtins: the clock as values, and instants.

use vstd::prelude::*;
use vstd::utf8::encode_utf8;
use crate::instant::{bad_inst, inst_millis};
use crate::instant::parse_rfc3339_millis;
use crate::javamap::outcome;
use crate::value::{kind_of, vals, Failure, Val};
use crate::value::{Value, ValueError, ValueResult};

verus! {

/// `num_traits::ToPrimitive::to_i64` of a `u128`: the number where a 64-bit signed integer holds
/// it, else nothing.
#[verifier::external_body]
fn as_long(n: u128) -> (r: Option<i64>)
    ensures
        r == (if n <= i64::MAX {
            Some(n as i64)
        } else {
            None
        }),
{
    num_traits::ToPrimitive::to_i64(&n)
}

/// What a clock reading gives as a long: `since_epoch` is the time since the epoch, or why the
/// clock could not be read.
pub open spec fn reading(since_epoch: Result<u128, String>) -> Result<i64, Failure> {
    match since_epoch {
        Ok(n) => if n <= i64::MAX {
            Ok(n as i64)
        } else {
            Err(Failure::OutOfRange)
        },
        Err(e) => Err(Failure::Other(e@)),
    }
}

fn read_clock(since_epoch: Result<u128, String>) -> (r: ValueResult<i64>)
    ensures
        (match r {
            Ok(n) => Ok::<i64, Failure>(n),
            Err(e) => Err(e.view()),
        }) == reading(since_epoch),
{
    match since_epoch {
        Ok(n) => match as_long(n) {
            Some(n) => Ok(n),
            None => Err(ValueError::OutOfRange),
        },
        Err(e) => Err(ValueError::Other(e)),
    }
}

/// The clock in nanoseconds.
pub fn builtin_nanotime(nanos: Result<u128, String>) -> (r: ValueResult<Value>)
    ensures
        outcome(r) == (match reading(nanos) {
            Ok(n) => Ok::<Val, Failure>(Val::Long(n)),
            Err(e) => Err(e),
        }),
{
    match read_clock(nanos) {
        Ok(n) => Ok(Value::Long(n)),
        Err(e) => Err(e),
    }
}

/// `(instant-now)`: the current time, of which `millis` are the milliseconds since the epoch.
pub fn builtin_instant_now(millis: Result<u128, String>) -> (r: ValueResult<Value>)
    ensures
        outcome(r) == (match reading(millis) {
            Ok(n) => Ok::<Val, Failure>(Val::Instant(n)),
            Err(e) => Err(e),
        }),
{
    match read_clock(millis) {
        Ok(n) => Ok(Value::Instant(n)),
        Err(e) => Err(e),
    }
}

/// The instant of epoch milliseconds, of an instant, or of an RFC 3339 text.
pub open spec fn instant_of(v: Val) -> Result<Val, Failure> {
    match v {
        Val::Long(ms) => Ok(Val::Instant(ms)),
        Val::Instant(ms) => Ok(Val::Instant(ms)),
        Val::Str(s) => match inst_millis(encode_utf8(s)) {
            Some(ms) => Ok(Val::Instant(ms as i64)),
            None => Err(Failure::Other(bad_inst(s))),
        },
        other => Err(
            Failure::WrongType {
                expected: "integer millis or RFC 3339 string"@,
                got: kind_of(other),
            },
        ),
    }
}

/// `(instant ms-or-string)`.
pub fn builtin_instant(args: &[Value]) -> (r: ValueResult<Value>)
    requires
        args@.len() == 1,
    ensures
        outcome(r) == instant_of(vals(args@)[0]),
{
    assert(vals(args@)[0] == args@[0].view());
    match &args[0] {
        Value::Long(ms) => Ok(Value::Instant(*ms)),
        Value::Instant(ms) => Ok(Value::Instant(*ms)),
        Value::Str(s) => match parse_rfc3339_millis(s.as_str()) {
            Ok(ms) => Ok(Value::Instant(ms)),
            Err(e) => Err(ValueError::Other(e)),
        },
        other => Err(ValueError::wrong_type("integer millis or RFC 3339 string", other)),
    }
}

/// `(instant-ms inst)`: the epoch milliseconds of an instant.
pub fn builtin_instant_ms(args: &[Value]) -> (r: ValueResult<Value>)
    requires
        args@.len() == 1,
    ensures
        outcome(r) == (match vals(args@)[0] {
            Val::Instant(ms) => Ok::<Val, Failure>(Val::Long(ms)),
            other => Err(Failure::WrongType { expected: "instant"@, got: kind_of(other) }),
        }),
{
    assert(vals(args@)[0] == args@[0].view());
    match &args[0] {
        Value::Instant(ms) => Ok(Value::Long(*ms)),
        other => Err(ValueError::wrong_type("instant", other)),
    }
}

/// `(instant? x)`.
pub fn builtin_instant_q(args: &[Value]) -> (r: ValueResult<Value>)
    requires
        args@.len() == 1,
    ensures
        outcome(r) == Ok::<Val, Failure>(Val::Bool(vals(args@)[0] is Instant)),
{
    assert(vals(args@)[0] == args@[0].view());
    match &args[0] {
        Value::Instant(_) => Ok(Value::Bool(true)),
        _ => Ok(Value::Bool(false)),
    }
}

/// The milliseconds of an instant make that instant again.
pub proof fn law_millis_make_the_instant(ms: i64)
    ensures
        instant_of(Val::Long(ms)) == Ok::<Val, Failure>(Val::Instant(ms)),
        instant_of(Val::Instant(ms)) == instant_of(Val::Long(ms)),
{
}

} // verus!
