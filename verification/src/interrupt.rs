//! The evaluation interrupt: a request to stop the running form.
//!
//! Every evaluation tier looks at the flag at its checkpoints and unwinds once per request.

use vstd::prelude::*;

verus! {

/// Whether the current evaluation is to be interrupted.
#[derive(Clone, Copy, Debug, PartialEq, Eq, Structural)]
pub struct Interrupt {
    pub requested: bool,
}

impl Interrupt {
    pub fn new() -> (r: Interrupt)
        ensures
            !r.requested,
    {
        Interrupt { requested: false }
    }
}

/// Flag the current evaluation for interruption.
pub fn request(flag: &mut Interrupt)
    ensures
        final(flag).requested,
{
    flag.requested = true;
}

/// Whether an interruption is asked for.
pub fn pending(flag: &Interrupt) -> (r: bool)
    ensures
        r == flag.requested,
{
    flag.requested
}

/// Consume the flag: true exactly once per request, so that what runs while the evaluation
/// unwinds does not trip on the same request.
pub fn take(flag: &mut Interrupt) -> (r: bool)
    ensures
        r == old(flag).requested,
        !final(flag).requested,
{
    let r = flag.requested;
    flag.requested = false;
    r
}

/// Clear the flag, before a fresh prompt is handed out.
pub fn clear(flag: &mut Interrupt)
    ensures
        !final(flag).requested,
{
    flag.requested = false;
}

} // verus!
