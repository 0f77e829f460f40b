//! Opt-in garbage-collection debugging modes.
//!
//! - Quarantine: dead values are dropped in place and their allocations are never returned.
//! - Stress: a collection is requested at every safepoint, or at every so-manieth.
//!
//! Both are read once from the environment and are off by default.

use vstd::prelude::*;
use crate::parse::unsigned_number;
use crate::parse::parse_usize;
use crate::text::{chars_of, same_text, trim};
use crate::text::trimmed;

verus! {

/// The debugging modes of the collector, and the safepoints that a thread has seen since the last
/// request that stress mode forced.
#[derive(Debug)]
pub struct DebugModes {
    pub quarantine: bool,
    /// 0 is off; otherwise a collection is requested at every so-manieth safepoint.
    pub stress_period: usize,
    pub stress_tick: usize,
}

/// A setting that switches a mode off.
pub open spec fn is_off(v: Seq<char>) -> bool {
    v == ""@ || v == "0"@ || v == "off"@ || v == "false"@ || v == "no"@
}

/// A setting that switches stress mode on at every safepoint.
pub open spec fn is_on(v: Seq<char>) -> bool {
    v == "on"@ || v == "true"@ || v == "yes"@
}

/// The stress period that a setting stands for.
pub open spec fn period_of(v: Seq<char>) -> nat {
    if is_off(v) {
        0
    } else if is_on(v) {
        1
    } else {
        match unsigned_number(v, usize::MAX as nat) {
            Some(n) => n,
            None => 1,
        }
    }
}

fn off(v: &str) -> (r: bool)
    ensures
        r == is_off(v@),
{
    same_text(v, "") || same_text(v, "0") || same_text(v, "off") || same_text(v, "false")
        || same_text(v, "no")
}

fn on(v: &str) -> (r: bool)
    ensures
        r == is_on(v@),
{
    same_text(v, "on") || same_text(v, "true") || same_text(v, "yes")
}

impl DebugModes {
    /// The modes by the values of `CLJRS_GC_QUARANTINE` and `CLJRS_GC_STRESS`.
    pub fn from_settings(quarantine: Option<&str>, stress: Option<&str>) -> (r: DebugModes)
        ensures
            r.quarantine == (quarantine matches Some(v) && !is_off(trimmed(v@))),
            r.stress_period == (match stress {
                Some(v) => period_of(trimmed(v@)),
                None => 0,
            }),
            r.stress_tick == 0,
    {
        let quarantine = match quarantine {
            Some(v) => !off(trim(v).as_str()),
            None => false,
        };
        let stress_period: usize = match stress {
            Some(v) => {
                let v = trim(v);
                if off(v.as_str()) {
                    0
                } else if on(v.as_str()) {
                    1
                } else {
                    let chars = chars_of(v.as_str());
                    assert(chars@.skip(0) =~= chars@);
                    match parse_usize(&chars, 0) {
                        Some(n) => n,
                        None => 1,
                    }
                }
            },
            None => 0,
        };
        DebugModes { quarantine, stress_period, stress_tick: 0 }
    }
}

/// Whether the sweep quarantines dead objects instead of freeing them.
pub fn quarantine_enabled(modes: &DebugModes) -> (r: bool)
    ensures
        r == modes.quarantine,
{
    modes.quarantine
}

/// Override the quarantine switch.
pub fn set_quarantine(modes: &mut DebugModes, on: bool)
    ensures
        *final(modes) == (DebugModes { quarantine: on, ..*old(modes) }),
{
    modes.quarantine = on;
}

/// Override the stress period; 0 disables.
pub fn set_stress_period(modes: &mut DebugModes, period: usize)
    ensures
        *final(modes) == (DebugModes { stress_period: period, ..*old(modes) }),
{
    modes.stress_period = period;
}

/// Stress mode wants a collection at the next safepoint.
pub open spec fn due(period: nat, tick: nat) -> bool {
    period > 0 && tick + 1 >= period
}

/// The safepoints counted after one more.
pub open spec fn next_tick(period: nat, tick: nat) -> nat {
    if period == 0 {
        tick
    } else if due(period, tick) {
        0
    } else {
        tick + 1
    }
}

/// Called at each safepoint: whether stress mode wants a collection now. While it is off the
/// counter is not touched.
pub fn stress_due(modes: &mut DebugModes) -> (r: bool)
    ensures
        r == due(old(modes).stress_period as nat, old(modes).stress_tick as nat),
        *final(modes) == (DebugModes {
            stress_tick: next_tick(
                old(modes).stress_period as nat,
                old(modes).stress_tick as nat,
            ) as usize,
            ..*old(modes)
        }),
{
    let period: usize = modes.stress_period;
    if period == 0 {
        return false;
    }
    if modes.stress_tick >= period - 1 {
        modes.stress_tick = 0;
        true
    } else {
        modes.stress_tick = modes.stress_tick + 1;
        false
    }
}

/// The counter after some safepoints.
pub open spec fn tick_after(period: nat, tick: nat, safepoints: nat) -> nat
    decreases safepoints,
{
    if safepoints == 0 {
        tick
    } else {
        next_tick(period, tick_after(period, tick, (safepoints - 1) as nat))
    }
}

/// From a fresh counter, a collection is due at every so-manieth safepoint, and at no other.
pub proof fn law_stress_honors_its_period(period: nat, safepoints: nat)
    requires
        period > 0,
    ensures
        tick_after(period, 0, safepoints) == safepoints % period,
        due(period, tick_after(period, 0, safepoints)) <==> (safepoints + 1) % period == 0,
    decreases safepoints,
{
    if safepoints > 0 {
        law_stress_honors_its_period(period, (safepoints - 1) as nat);
    }
    let k = safepoints as int;
    let p = period as int;
    vstd::arithmetic::div_mod::lemma_small_mod(0, period);
    if k > 0 {
        lemma_next_mod(k - 1, p);
    }
    lemma_next_mod(k, p);
}

proof fn lemma_next_mod(k: int, p: int)
    requires
        k >= 0,
        p > 0,
    ensures
        (k + 1) % p == (if k % p + 1 == p {
            0
        } else {
            k % p + 1
        }),
{
    vstd::arithmetic::div_mod::lemma_fundamental_div_mod(k, p);
    let q = k / p;
    let r = k % p;
    if r + 1 == p {
        assert(k + 1 == (q + 1) * p + 0) by (nonlinear_arith)
            requires
                k == p * q + r,
                r + 1 == p,
        ;
        vstd::arithmetic::div_mod::lemma_fundamental_div_mod_converse(k + 1, p, q + 1, 0);
    } else {
        assert(k + 1 == q * p + (r + 1)) by (nonlinear_arith)
            requires
                k == p * q + r,
        ;
        vstd::arithmetic::div_mod::lemma_fundamental_div_mod_converse(k + 1, p, q, r + 1);
    }
}

} // verus!
