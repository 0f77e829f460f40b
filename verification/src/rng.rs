//! Deterministic per-stream random numbers: a splitmix64 core, seeded by an FNV-1a hash of the
//! stream's name.
//!
//! Scalar draws and bulk fills from the same stream state produce identical sequences.

use vstd::prelude::*;
use crate::doubles::{is_double_of, FRACTION_SPAN};
use crate::doubles::of_magnitude;

verus! {

pub const GOLDEN: u64 = 0x9E37_79B9_7F4A_7C15;

pub const MIX1: u64 = 0xBF58_476D_1CE4_E5B9;

pub const MIX2: u64 = 0x94D0_49BB_1331_11EB;

pub const FNV_OFFSET: u64 = 0xCBF2_9CE4_8422_2325;

pub const FNV_PRIME: u64 = 0x0000_0100_0000_01B3;

pub const RNG_TAG: &'static str = "NumRng";

/// The splitmix64 finalizer.
pub open spec fn mixed(z: u64) -> u64 {
    let a = (z ^ (z >> 30)).wrapping_mul(MIX1);
    let b = (a ^ (a >> 27)).wrapping_mul(MIX2);
    b ^ (b >> 31)
}

pub fn mix64(z: u64) -> (r: u64)
    ensures
        r == mixed(z),
{
    let a: u64 = (z ^ (z >> 30)).wrapping_mul(MIX1);
    let b: u64 = (a ^ (a >> 27)).wrapping_mul(MIX2);
    b ^ (b >> 31)
}

/// One FNV-1a step.
#[verifier::opaque]
pub open spec fn fnv_step(h: u64, c: char) -> u64 {
    (h ^ (c as u64)).wrapping_mul(FNV_PRIME)
}

fn hash_step(h: u64, c: char) -> (r: u64)
    ensures
        r == fnv_step(h, c),
{
    reveal(fnv_step);
    (h ^ (c as u64)).wrapping_mul(FNV_PRIME)
}

/// The FNV-1a hash of a text, character by character.
pub open spec fn fnv1a(s: Seq<char>) -> u64
    decreases s.len(),
{
    if s.len() == 0 {
        FNV_OFFSET
    } else {
        fnv_step(fnv1a(s.drop_last()), s.last())
    }
}

pub fn fnv1a_64(s: &str) -> (r: u64)
    ensures
        r == fnv1a(s@),
{
    let mut h: u64 = FNV_OFFSET;
    for c in it: s.chars()
        invariant
            h == fnv1a(it.seq().take(it.index() as int)),
            it.seq() == s@,
    {
        proof {
            let seen = it.seq().take(it.index() + 1);
            assert(seen.drop_last() =~= it.seq().take(it.index() as int));
            assert(seen.last() == c);
        }
        h = hash_step(h, c);
    }
    assert(s@.take(s@.len() as int) =~= s@);
    h
}

/// A random stream: the generator's state.
#[derive(Debug)]
pub struct NumRng {
    state: u64,
}

/// The state after one draw.
pub open spec fn stepped(state: u64) -> u64 {
    state.wrapping_add(GOLDEN)
}

/// The state after `n` draws.
pub open spec fn advanced(state: u64, n: nat) -> u64
    decreases n,
{
    if n == 0 {
        state
    } else {
        stepped(advanced(state, (n - 1) as nat))
    }
}

/// The draw that a state gives.
pub open spec fn drawn(state: u64) -> u64 {
    mixed(stepped(state))
}

/// The long in `[lo, hi)` that a state gives.
pub open spec fn drawn_between(state: u64, lo: int, hi: int) -> int {
    lo + (drawn(state) >> 1) as int % (hi - lo)
}

/// `bits` is the double `k` over two to the power of 53.
pub open spec fn is_unit_double(bits: u64, k: nat) -> bool {
    if k == 0 {
        bits == 0
    } else {
        is_double_of((bits + 53 * FRACTION_SPAN) as nat, k)
    }
}

/// The pool after the swaps at the positions before `k`: each swaps with a position drawn from
/// itself to the end.
pub open spec fn shuffled(pool: Seq<i64>, state: u64, k: nat) -> Seq<i64>
    decreases k,
{
    if k == 0 {
        pool
    } else {
        let i = k - 1;
        let before = shuffled(pool, state, i as nat);
        let j = drawn_between(advanced(state, i as nat), i, pool.len() as int);
        before.update(i, before[j]).update(j, before[i])
    }
}

/// The numbers from 0 up to `m`.
pub open spec fn numbers(m: nat) -> Seq<i64> {
    Seq::new(m, |i: int| i as i64)
}

impl NumRng {
    /// The generator's state.
    pub closed spec fn view(&self) -> u64 {
        self.state
    }

    pub fn new(seed: i64, stream: &str) -> (r: Self)
        ensures
            r.view() == (seed as u64) ^ fnv1a(stream@),
    {
        NumRng { state: (seed as u64) ^ fnv1a_64(stream) }
    }

    pub fn next_u64(&mut self) -> (r: u64)
        ensures
            r == drawn(old(self).view()),
            final(self).view() == stepped(old(self).view()),
    {
        self.state = self.state.wrapping_add(GOLDEN);
        mix64(self.state)
    }

    /// Uniform double in `[0, 1)`, as its bit pattern: 53 drawn bits over two to the power of 53.
    pub fn next_double(&mut self) -> (r: u64)
        ensures
            is_unit_double(r, (drawn(old(self).view()) >> 11) as nat),
            final(self).view() == stepped(old(self).view()),
    {
        let u: u64 = self.next_u64();
        let k: u64 = u >> 11;
        assert(k < 0x20_0000_0000_0000) by (bit_vector)
            requires
                k == u >> 11,
        ;
        if k == 0 {
            return 0;
        }
        of_magnitude(k) - 53 * FRACTION_SPAN
    }

    /// Uniform long in `[lo, hi)`.
    pub fn integers(&mut self, lo: i64, hi: i64) -> (r: i64)
        requires
            lo < hi,
        ensures
            r == drawn_between(old(self).view(), lo as int, hi as int),
            lo <= r < hi,
            final(self).view() == stepped(old(self).view()),
    {
        let u: u64 = self.next_u64();
        let half: u64 = u >> 1;
        let span: u64 = (hi as i128 - lo as i128) as u64;
        let offset: u64 = half % span;
        assert(offset as int == half as int % (hi - lo));
        assert(half < 0x8000_0000_0000_0000) by (bit_vector)
            requires
                half == u >> 1,
        ;
        assert(offset <= half) by (nonlinear_arith)
            requires
                span > 0,
                offset == half % span,
        ;
        lo + offset as i64
    }

    /// `n` uniform longs in `[lo, hi)`.
    pub fn fill_integers(&mut self, n: usize, lo: i64, hi: i64) -> (r: Vec<i64>)
        requires
            lo < hi,
        ensures
            r@.len() == n,
            forall|i: int|
                0 <= i < n ==> (#[trigger] r@[i]) == drawn_between(
                    advanced(old(self).view(), i as nat),
                    lo as int,
                    hi as int,
                ) && lo <= r@[i] < hi,
            final(self).view() == advanced(old(self).view(), n as nat),
    {
        let mut r: Vec<i64> = Vec::new();
        let ghost start = self.view();
        for k in 0..n
            invariant
                start == old(self).view(),
                lo < hi,
                    r@.len() == k,
                self.view() == advanced(start, k as nat),
                forall|i: int|
                    0 <= i < k ==> (#[trigger] r@[i]) == drawn_between(
                        advanced(start, i as nat),
                        lo as int,
                        hi as int,
                    ) && lo <= r@[i] < hi,
        {
            let x: i64 = self.integers(lo, hi);
            r.push(x);
        }
        r
    }

    /// `n` distinct indices from `[0, m)`, by a partial Fisher-Yates shuffle, in random order;
    /// all `m` of them where `n` is larger.
    pub fn sample_idx(&mut self, n: usize, m: usize) -> (r: Vec<i64>)
        requires
            m <= i64::MAX,
        ensures
            ({
                let k = if n <= m { n } else { m };
                &&& r@ == shuffled(numbers(m as nat), old(self).view(), k as nat).take(k as int)
                &&& final(self).view() == advanced(old(self).view(), k as nat)
            }),
            r@.no_duplicates(),
            forall|i: int| 0 <= i < r@.len() ==> 0 <= #[trigger] r@[i] < m,
    {
        let k: usize = if n <= m {
            n
        } else {
            m
        };
        let ghost start = self.view();
        let ghost all = numbers(m as nat);
        let mut pool: Vec<i64> = Vec::new();
        for i in 0..m
            invariant
                m <= i64::MAX,
                pool@ == numbers(i as nat),
        {
            pool.push(i as i64);
            assert(numbers((i + 1) as nat) =~= numbers(i as nat).push(i as i64));
        }
        let mut out: Vec<i64> = Vec::new();
        for i in 0..k
            invariant
                k <= m <= i64::MAX,
                all == numbers(m as nat),
                pool@ == shuffled(all, start, i as nat),
                pool@.len() == m,
                self.view() == advanced(start, i as nat),
                out@ == pool@.take(i as int),
        {
            let j64: i64 = self.integers(i as i64, m as i64);
            let j: usize = j64 as usize;
            let a: i64 = pool[i];
            let b: i64 = pool[j];
            let ghost before = pool@;
            pool.set(i, b);
            pool.set(j, a);
            assert(pool@ == shuffled(all, start, (i + 1) as nat));
            out.push(pool[i]);
            assert(pool@.take(i + 1) =~= before.take(i as int).push(pool@[i as int]));
        }
        proof {
            lemma_shuffled(all, start, k as nat);
            assert forall|i: int, j: int| 0 <= i < out@.len() && 0 <= j < out@.len() && i != j implies out@[i]
                != out@[j] by {
                assert(pool@[i] == out@[i] && pool@[j] == out@[j]);
            }
            assert forall|i: int| 0 <= i < out@.len() implies 0 <= #[trigger] out@[i] < m by {
                assert(pool@[i] == out@[i]);
                assert(all.contains(pool@[i]));
            }
        }
        out
    }
}

/// Shuffling keeps the pool's numbers, each once.
proof fn lemma_shuffled(pool: Seq<i64>, state: u64, k: nat)
    requires
        k <= pool.len(),
        pool.no_duplicates(),
    ensures
        shuffled(pool, state, k).len() == pool.len(),
        shuffled(pool, state, k).no_duplicates(),
        forall|i: int| 0 <= i < pool.len() ==> pool.contains(#[trigger] shuffled(pool, state, k)[i]),
    decreases k,
{
    if k > 0 {
        let i = k - 1;
        lemma_shuffled(pool, state, i as nat);
        let before = shuffled(pool, state, i as nat);
        let j = drawn_between(advanced(state, i as nat), i, pool.len() as int);
        let h = (drawn(advanced(state, i as nat)) >> 1) as int;
        assert(0 <= h % (pool.len() - i) < pool.len() - i) by (nonlinear_arith)
            requires
                h >= 0,
                pool.len() - i > 0,
        ;
        assert(i <= j < pool.len());
        let after = shuffled(pool, state, k);
        assert(after == before.update(i, before[j]).update(j, before[i]));
        assert forall|a: int| 0 <= a < pool.len() implies pool.contains(#[trigger] after[a]) by {
            let b = if a == i { j } else if a == j { i } else { a };
            assert(after[a] == before[b]);
        }
    }
}

} // verus!
