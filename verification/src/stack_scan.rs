//! Conservative stack scanning: an additional source of roots for the collector.
//!
//! Precise rooting cannot see a value held only in a local of the host. The scan looks at the
//! words of the collecting thread's own stack and marks every object whose address one of them
//! equals. A false positive only retains garbage for one more cycle.

use vstd::prelude::*;
use crate::text::{same_text, trim};
use crate::text::trimmed;

verus! {

/// The switch of the scan, and the bounds of a thread's stack as far as they are known (0 is
/// unknown).
#[derive(Debug)]
pub struct StackScan {
    pub conservative: bool,
    /// The highest address to scan to, recorded near the thread's start.
    pub stack_base: usize,
    /// The end of the stack as the operating system tells it.
    pub os_stack_top: usize,
}

/// A setting that switches the scan off.
pub open spec fn switched_off(v: Seq<char>) -> bool {
    v == "0"@ || v == "off"@ || v == "false"@ || v == "no"@
}

impl StackScan {
    /// The scan by the value of `CLJRS_GC_CONSERVATIVE`: on without one.
    pub fn from_setting(setting: Option<&str>) -> (r: StackScan)
        ensures
            r.conservative == !(setting matches Some(v) && switched_off(trimmed(v@))),
            r.stack_base == 0,
            r.os_stack_top == 0,
    {
        let conservative = match setting {
            Some(v) => {
                let v = trim(v);
                !(same_text(v.as_str(), "0") || same_text(v.as_str(), "off") || same_text(
                    v.as_str(),
                    "false",
                ) || same_text(v.as_str(), "no"))
            },
            None => true,
        };
        StackScan { conservative, stack_base: 0, os_stack_top: 0 }
    }
}

/// Whether conservative scanning is enabled.
pub fn conservative_enabled(scan: &StackScan) -> (r: bool)
    ensures
        r == scan.conservative,
{
    scan.conservative
}

/// Override the switch.
pub fn set_conservative(scan: &mut StackScan, on: bool)
    ensures
        *final(scan) == (StackScan { conservative: on, ..*old(scan) }),
{
    scan.conservative = on;
}

/// Record the current stack position as the thread's scan ceiling.
pub fn record_stack_base(scan: &mut StackScan, position: usize)
    ensures
        *final(scan) == (StackScan { stack_base: position, ..*old(scan) }),
{
    scan.stack_base = position;
}

/// The address above which the thread's frames cannot hold heap pointers, by the position `sp`:
/// the recorded mark, else what the operating system told before, else what it tells now.
pub open spec fn scan_ceiling(base: usize, cached: usize, told: Option<usize>, sp: usize) -> Option<
    usize,
> {
    if base > sp {
        Some(base)
    } else if cached > sp {
        Some(cached)
    } else {
        match told {
            Some(top) => if top <= sp {
                None
            } else {
                Some(top)
            },
            None => None,
        }
    }
}

/// The scan ceiling above a position, where `told` is what the operating system tells. What it
/// tells is kept once it is used.
pub fn stack_top(scan: &mut StackScan, sp: usize, told: Option<usize>) -> (r: Option<usize>)
    ensures
        r == scan_ceiling(old(scan).stack_base, old(scan).os_stack_top, told, sp),
        *final(scan) == (if old(scan).stack_base > sp || old(scan).os_stack_top > sp || r is None {
            *old(scan)
        } else {
            StackScan { os_stack_top: r->Some_0, ..*old(scan) }
        }),
{
    if scan.stack_base > sp {
        return Some(scan.stack_base);
    }
    if scan.os_stack_top > sp {
        return Some(scan.os_stack_top);
    }
    match told {
        Some(top) => {
            if top <= sp {
                return None;
            }
            scan.os_stack_top = top;
            Some(top)
        },
        None => None,
    }
}

/// The addresses ascend.
pub open spec fn ascending(objects: Seq<usize>) -> bool {
    forall|i: int, j: int| 0 <= i < j < objects.len() ==> objects[i] < objects[j]
}

fn find(objects: &Vec<usize>, word: usize) -> (r: Option<usize>)
    requires
        ascending(objects@),
    ensures
        match r {
            Some(i) => i < objects@.len() && objects@[i as int] == word,
            None => forall|i: int| 0 <= i < objects@.len() ==> #[trigger] objects@[i] != word,
        },
{
    let mut lo: usize = 0;
    let mut hi: usize = objects.len();
    while lo < hi
        invariant
            lo <= hi <= objects@.len(),
            ascending(objects@),
            forall|i: int| 0 <= i < lo ==> #[trigger] objects@[i] < word,
            forall|i: int| hi <= i < objects@.len() ==> #[trigger] objects@[i] > word,
        decreases hi - lo,
    {
        let mid: usize = lo + (hi - lo) / 2;
        let at: usize = objects[mid];
        if at == word {
            return Some(mid);
        }
        if at < word {
            lo = mid + 1;
        } else {
            hi = mid;
        }
    }
    None
}

/// How many of the first `n` objects are marked in `after` and not in `before`.
pub open spec fn newly_marked(before: Seq<bool>, after: Seq<bool>, n: nat) -> nat
    decreases n,
{
    if n == 0 {
        0
    } else {
        newly_marked(before, after, (n - 1) as nat) + if after[n - 1] && !before[n - 1] {
            1nat
        } else {
            0nat
        }
    }
}

proof fn lemma_none_new(marked: Seq<bool>, n: nat)
    ensures
        newly_marked(marked, marked, n) == 0,
    decreases n,
{
    if n > 0 {
        lemma_none_new(marked, (n - 1) as nat);
    }
}

proof fn lemma_at_most(before: Seq<bool>, after: Seq<bool>, n: nat)
    ensures
        newly_marked(before, after, n) <= n,
    decreases n,
{
    if n > 0 {
        lemma_at_most(before, after, (n - 1) as nat);
    }
}

proof fn lemma_one_more(before: Seq<bool>, after: Seq<bool>, k: int, n: nat)
    requires
        0 <= k < after.len(),
        n <= after.len(),
        !after[k],
        !before[k],
    ensures
        newly_marked(before, after.update(k, true), n) == newly_marked(before, after, n) + if k < n {
            1nat
        } else {
            0nat
        },
    decreases n,
{
    if n > 0 {
        lemma_one_more(before, after, k, (n - 1) as nat);
    }
}

/// Some of the words is the address.
pub open spec fn pointed_to(words: Seq<usize>, address: usize) -> bool {
    exists|i: int| 0 <= i < words.len() && #[trigger] words[i] == address
}

/// Mark every object whose address one of the stack's words equals. Gives how many of them were
/// not marked before: the objects that precise rooting missed.
pub fn scan_and_mark(words: &Vec<usize>, objects: &Vec<usize>, marked: &mut Vec<bool>) -> (r: usize)
    requires
        ascending(objects@),
        old(marked)@.len() == objects@.len(),
    ensures
        final(marked)@.len() == objects@.len(),
        forall|i: int|
            0 <= i < objects@.len() ==> #[trigger] final(marked)@[i] == (old(marked)@[i]
                || pointed_to(words@, objects@[i])),
        r == newly_marked(old(marked)@, final(marked)@, objects@.len()),
{
    let ghost before = marked@;
    if objects.len() == 0 {
        return 0;
    }
    let lo: usize = objects[0];
    let hi: usize = objects[objects.len() - 1];
    let count: usize = objects.len();
    let mut rescued: usize = 0;
    proof {
        lemma_none_new(before, objects@.len());
    }
    for w in 0..words.len()
        invariant
            objects@.len() > 0,
            count == objects@.len(),
            ascending(objects@),
            lo == objects@[0],
            hi == objects@[objects@.len() - 1],
            before == old(marked)@,
            before.len() == objects@.len(),
            marked@.len() == objects@.len(),
            rescued == newly_marked(before, marked@, objects@.len()),
            forall|i: int|
                0 <= i < objects@.len() ==> #[trigger] marked@[i] == (before[i] || pointed_to(
                    words@.take(w as int),
                    objects@[i],
                )),
    {
        let word: usize = words[w];
        let ghost seen = words@.take(w as int);
        let ghost now = words@.take(w + 1);
        let ghost was = marked@;
        assert(now =~= seen.push(word));
        assert forall|a: usize| #[trigger] pointed_to(now, a) == (pointed_to(seen, a) || a == word) by {
            if pointed_to(seen, a) {
                let i = choose|i: int| 0 <= i < seen.len() && #[trigger] seen[i] == a;
                assert(now[i] == a);
            }
            if a == word {
                assert(now[w as int] == a);
            }
            if pointed_to(now, a) {
                let i = choose|i: int| 0 <= i < now.len() && #[trigger] now[i] == a;
                if i < w {
                    assert(seen[i] == a);
                }
            }
        }
        if word >= lo && word <= hi {
            if let Some(k) = find(objects, word) {
                if !marked[k] {
                    proof {
                        assert(!before[k as int]) by {
                            assert(!marked@[k as int]);
                        }
                        lemma_one_more(before, marked@, k as int, objects@.len());
                        lemma_at_most(before, marked@.update(k as int, true), objects@.len());
                    }
                    marked.set(k, true);
                    rescued = rescued + 1;
                }
                assert forall|i: int| 0 <= i < objects@.len() implies #[trigger] marked@[i] == (
                before[i] || pointed_to(now, objects@[i])) by {
                    assert(was[i] == (before[i] || pointed_to(seen, objects@[i])));
                    if i != k {
                        if i < k {
                            assert(objects@[i] < objects@[k as int]);
                        } else {
                            assert(objects@[k as int] < objects@[i]);
                        }
                    }
                }
            }
        }
        assert forall|i: int| 0 <= i < objects@.len() implies #[trigger] marked@[i] == (before[i]
            || pointed_to(now, objects@[i])) by {
            if !(word >= lo && word <= hi) {
                if i > 0 {
                    assert(objects@[0] < objects@[i]);
                }
                if i < objects@.len() - 1 {
                    assert(objects@[i] < objects@[objects@.len() - 1]);
                }
            }
        }
    }
    assert(words@.take(words@.len() as int) =~= words@);
    rescued
}

} // verus!
