//! Laws of the numeric kernels: what their results hold, position by position.

use vstd::arithmetic::power2::{lemma2_to64, lemma2_to64_rest, lemma_pow2_adds, pow2};
use vstd::prelude::*;
use crate::decimal::{digits, int_text};
use crate::doubles::{
    double_less, is_double_of_long, packed, top_bit, truncated, FRACTION_SPAN, SIGN_BIT,
};
use crate::doubles::law_small_magnitudes_survive;
use crate::kernels::{
    cell_error, counts_expanded, gathered, index_error, lagged, larger_long, positive_positions,
    spread, stacked, strided,
};
use crate::value::Val;

verus! {

/// The mask of usable prices holds the position of every double that is above zero and below
/// infinity, in ascending order, and no other position.
pub proof fn law_positive_positions(xs: Seq<u64>)
    requires
        xs.len() <= i64::MAX,
    ensures
        forall|k: int, l: int|
            0 <= k < l < positive_positions(xs).len() ==> #[trigger] positive_positions(xs)[k]
                < #[trigger] positive_positions(xs)[l],
        forall|i: i64| #[trigger]
            positive_positions(xs).contains(i) <==> (0 <= i < xs.len() && 0u64 < xs[i as int]
                < 0x7FF0_0000_0000_0000u64),
    decreases xs.len(),
{
    let all = positive_positions(xs);
    if xs.len() > 0 {
        let rest = xs.drop_last();
        let before = positive_positions(rest);
        law_positive_positions(rest);
        let last = (xs.len() - 1) as i64;
        assert forall|k: int| 0 <= k < before.len() implies 0 <= #[trigger] before[k] < last by {
            assert(before.contains(before[k]));
        }
        assert forall|i: i64| #[trigger] all.contains(i) <==> (0 <= i < xs.len() && 0u64
            < xs[i as int] < 0x7FF0_0000_0000_0000u64) by {
            assert(before.contains(i) <==> (0 <= i < rest.len() && 0u64 < rest[i as int]
                < 0x7FF0_0000_0000_0000u64));
            if all.len() == before.len() {
                assert(all == before);
            } else {
                assert(all == before.push(last));
                assert(all[before.len() as int] == last);
                if before.contains(i) {
                    let k = choose|k: int| 0 <= k < before.len() && before[k] == i;
                    assert(all[k] == i);
                }
                if all.contains(i) && i != last {
                    let k = choose|k: int| 0 <= k < all.len() && all[k] == i;
                    assert(before[k] == i);
                }
            }
        }
    }
}

/// How often a long occurs.
pub open spec fn occurrences(s: Seq<i64>, x: i64) -> nat {
    s.filter(|y: i64| y == x).len()
}

proof fn lemma_occurrences_append(a: Seq<i64>, b: Seq<i64>, x: i64)
    ensures
        occurrences(a + b, x) == occurrences(a, x) + occurrences(b, x),
    decreases b.len(),
{
    reveal(Seq::filter);
    if b.len() == 0 {
        assert(a + b =~= a);
    } else {
        let f = |y: i64| y == x;
        assert((a + b).drop_last() =~= a + b.drop_last());
        lemma_occurrences_append(a, b.drop_last(), x);
    }
}

proof fn lemma_occurrences_repeat(s: Seq<i64>, y: i64, x: i64)
    requires
        forall|i: int| 0 <= i < s.len() ==> s[i] == y,
    ensures
        occurrences(s, x) == (if x == y {
            s.len()
        } else {
            0
        }),
    decreases s.len(),
{
    reveal(Seq::filter);
    if s.len() > 0 {
        assert forall|i: int| 0 <= i < s.drop_last().len() implies s.drop_last()[i] == y by {
            assert(s.drop_last()[i] == s[i]);
        }
        lemma_occurrences_repeat(s.drop_last(), y, x);
        assert(s.last() == s[s.len() - 1]);
    }
}

/// A count vector becomes its positions in ascending order, each as often as its count says; a
/// negative count is none.
pub proof fn law_expanded_counts(cs: Seq<i64>)
    requires
        cs.len() <= i64::MAX,
    ensures
        forall|p: i64| #[trigger]
            occurrences(counts_expanded(cs), p) == (if 0 <= p < cs.len() && cs[p as int] > 0 {
                cs[p as int] as nat
            } else {
                0
            }),
        forall|k: int, l: int|
            0 <= k < l < counts_expanded(cs).len() ==> #[trigger] counts_expanded(cs)[k]
                <= #[trigger] counts_expanded(cs)[l],
        forall|k: int|
            0 <= k < counts_expanded(cs).len() ==> 0 <= #[trigger] counts_expanded(cs)[k]
                < cs.len(),
    decreases cs.len(),
{
    reveal(Seq::filter);
    if cs.len() > 0 {
        let rest = cs.drop_last();
        law_expanded_counts(rest);
        let last = (cs.len() - 1) as i64;
        let run = Seq::new(larger_long(cs.last(), 0) as nat, |i: int| (cs.len() - 1) as i64);
        assert(counts_expanded(cs) == counts_expanded(rest) + run);
        assert forall|p: i64| #[trigger] occurrences(counts_expanded(cs), p) == (if 0 <= p
            < cs.len() && cs[p as int] > 0 {
            cs[p as int] as nat
        } else {
            0
        }) by {
            lemma_occurrences_append(counts_expanded(rest), run, p);
            lemma_occurrences_repeat(run, last, p);
            assert(occurrences(counts_expanded(rest), p) == (if 0 <= p < rest.len()
                && rest[p as int] > 0 {
                rest[p as int] as nat
            } else {
                0
            }));
        }
    }
}

/// A lag starts with the seed, and behind it each element follows the one that it lags.
pub proof fn law_lag(xs: Seq<u64>, seed: u64)
    ensures
        lagged(xs, seed).len() == xs.len(),
        xs.len() > 0 ==> lagged(xs, seed)[0] == seed,
        forall|i: int| 0 <= i < xs.len() - 1 ==> lagged(xs, seed)[i + 1] == #[trigger] xs[i],
{
    assert forall|i: int| 0 <= i < xs.len() - 1 implies lagged(xs, seed)[i + 1]
        == #[trigger] xs[i] by {}
}

/// Strides take the elements at the multiples of their step, up to the last one in the array.
pub proof fn law_strides(xs: Seq<u64>, k: int)
    requires
        k > 0,
    ensures
        forall|i: int|
            0 <= i < strided(xs, k).len() ==> #[trigger] strided(xs, k)[i] == xs[i * k],
        forall|i: int| 0 <= i < strided(xs, k).len() ==> #[trigger] (i * k) < xs.len(),
        strided(xs, k).len() * k >= xs.len(),
{
    let n = xs.len() as int;
    let c = (n + k - 1) / k;
    assert(c * k <= n + k - 1 && n <= c * k && c >= 0) by (nonlinear_arith)
        requires
            k > 0,
            n >= 0,
            c == (n + k - 1) / k,
    ;
    assert(strided(xs, k).len() == c);
    assert forall|i: int| 0 <= i < strided(xs, k).len() implies #[trigger] (i * k) < xs.len() by {
        assert(i * k < n) by (nonlinear_arith)
            requires
                0 <= i < c,
                k > 0,
                c * k <= n + k - 1,
        ;
    }
}

/// Spreading puts each element at the multiple of the step that it has room at, and the double NaN
/// at every other place.
pub proof fn law_spread(xs: Seq<u64>, k: int, n: nat)
    requires
        k > 0,
    ensures
        spread(xs, k, n).len() == n,
        forall|i: int|
            0 <= i < xs.len() && i * k < n ==> spread(xs, k, n)[i * k] == #[trigger] xs[i],
        forall|j: int|
            0 <= j < n && (j % k != 0 || j >= xs.len() * k) ==> #[trigger] spread(xs, k, n)[j]
                == 0x7FF8_0000_0000_0000u64,
{
    assert forall|i: int| 0 <= i < xs.len() && i * k < n implies spread(xs, k, n)[i * k]
        == #[trigger] xs[i] by {
        assert(0 <= i * k && (i * k) % k == 0 && (i * k) / k == i) by (nonlinear_arith)
            requires
                k > 0,
                0 <= i,
        ;
    }
    assert forall|j: int| 0 <= j < n && (j % k != 0 || j >= xs.len() * k) implies #[trigger] spread(
        xs,
        k,
        n,
    )[j] == 0x7FF8_0000_0000_0000u64 by {
        let l = xs.len() as int;
        if j >= l * k {
            assert(j / k >= l) by (nonlinear_arith)
                requires
                    k > 0,
                    j >= l * k,
            ;
        }
    }
}

/// The larger of two longs is one of them, and neither is above it.
pub proof fn law_larger(a: i64, b: i64)
    ensures
        larger_long(a, b) >= a,
        larger_long(a, b) >= b,
        larger_long(a, b) == a || larger_long(a, b) == b,
{
}

/// A gather fails exactly where an index is negative or beyond the array, and names the first such
/// index and the length.
pub proof fn law_index_errors(what: Seq<char>, is: Seq<i64>, len: nat)
    ensures
        match index_error(what, is, len) {
            None => forall|i: int| 0 <= i < is.len() ==> 0 <= #[trigger] is[i] < len,
            Some(e) => exists|i: int|
                {
                    &&& 0 <= i < is.len()
                    &&& #[trigger] is[i] < 0 || is[i] >= len
                    &&& e == what + " index "@ + int_text(is[i] as int)
                        + " out of bounds for length "@ + digits(len)
                    &&& forall|j: int| 0 <= j < i ==> 0 <= #[trigger] is[j] < len
                },
        },
    decreases is.len(),
{
    if is.len() > 0 {
        let rest = is.drop_last();
        law_index_errors(what, rest, len);
        let last = is.len() - 1;
        match index_error(what, rest, len) {
            Some(e) => {
                let i = choose|i: int|
                    {
                        &&& 0 <= i < rest.len()
                        &&& #[trigger] rest[i] < 0 || rest[i] >= len
                        &&& e == what + " index "@ + int_text(rest[i] as int)
                            + " out of bounds for length "@ + digits(len)
                        &&& forall|j: int| 0 <= j < i ==> 0 <= #[trigger] rest[j] < len
                    };
                assert(is[i] == rest[i]);
                assert forall|j: int| 0 <= j < i implies 0 <= #[trigger] is[j] < len by {
                    assert(rest[j] == is[j]);
                }
            },
            None => {
                assert forall|j: int| 0 <= j < last implies 0 <= #[trigger] is[j] < len by {
                    assert(rest[j] == is[j]);
                }
                if !(0 <= is[last] < len) {
                    assert(is[last] == is.last());
                }
            },
        }
    }
}

/// The first `k` cells of a two-dimensional gather are in the matrix exactly where there is no
/// error.
pub proof fn law_cell_errors(rs: Seq<i64>, cs: Seq<i64>, row_len: nat, n_rows: nat, k: nat)
    requires
        k <= rs.len() == cs.len(),
    ensures
        cell_error(rs, cs, row_len, n_rows, k) is None <==> forall|i: int|
            0 <= i < k ==> 0 <= #[trigger] rs[i] < n_rows && 0 <= cs[i] < row_len,
    decreases k,
{
    if k > 0 {
        law_cell_errors(rs, cs, row_len, n_rows, (k - 1) as nat);
        let last = k - 1;
        if cell_error(rs, cs, row_len, n_rows, k) is Some {
            if cell_error(rs, cs, row_len, n_rows, (k - 1) as nat) is None {
                assert(!(0 <= rs[last] < n_rows && 0 <= cs[last] < row_len));
            }
        }
    }
}

/// A two-dimensional gather succeeds exactly where rows and columns pair up and lie in the matrix,
/// and gives the element of each row and column.
pub proof fn law_gather(m: Seq<u64>, rs: Seq<i64>, cs: Seq<i64>, row_len: int)
    requires
        row_len > 0,
    ensures
        gathered(m, rs, cs, row_len) is Ok <==> rs.len() == cs.len() && forall|i: int|
            0 <= i < rs.len() ==> 0 <= #[trigger] rs[i] < m.len() as int / row_len && 0 <= cs[i]
                < row_len,
        gathered(m, rs, cs, row_len) matches Ok(v) ==> v is DoubleArray && v->DoubleArray_0.len()
            == rs.len() && forall|i: int|
            0 <= i < rs.len() ==> v->DoubleArray_0[i] == m[#[trigger] rs[i] * row_len + cs[i]],
{
    if rs.len() == cs.len() {
        law_cell_errors(rs, cs, row_len as nat, (m.len() as int / row_len) as nat, rs.len());
        let n_rows = m.len() as int / row_len;
        assert(n_rows >= 0) by (nonlinear_arith)
            requires
                row_len > 0,
                n_rows == m.len() as int / row_len,
        ;
    }
}

/// Rows stack into a matrix exactly where each is a double array of the row length or nil; the
/// element at a row and column is the row's, and the double NaN for nil.
pub proof fn law_stack(items: Seq<Val>, n: nat)
    ensures
        stacked(items, n) is Ok <==> forall|i: int|
            0 <= i < items.len() ==> (#[trigger] items[i]) is Nil || (items[i] is DoubleArray
                && items[i]->DoubleArray_0.len() == n),
        stacked(items, n) matches Ok(m) ==> m.len() == items.len() * n && forall|i: int, j: int|
            0 <= i < items.len() && 0 <= j < n ==> m[i * n + j] == #[trigger] cell_of_rows(
                items,
                i,
                j,
            ),
    decreases items.len(),
{
    if items.len() > 0 {
        let rest = items.drop_last();
        let last = items.len() - 1;
        law_stack(rest, n);
        assert(items.len() * n == last * n + n) by (nonlinear_arith)
            requires
                last == items.len() - 1,
        ;
        assert forall|i: int| 0 <= i < last implies rest[i] == #[trigger] items[i] by {}
        if let Ok(m) = stacked(items, n) {
            let before = stacked(rest, n)->Ok_0;
            assert forall|i: int, j: int| 0 <= i < items.len() && 0 <= j < n implies m[i * n + j]
                == #[trigger] cell_of_rows(items, i, j) by {
                if i < last {
                    assert(cell_of_rows(rest, i, j) == cell_of_rows(items, i, j));
                    assert(0 <= i * n && i * n + j < last * n) by (nonlinear_arith)
                        requires
                            0 <= i < last,
                            0 <= j < n,
                    ;
                    assert(m[i * n + j] == before[i * n + j]);
                } else {
                    assert(items.last() == items[last]);
                }
            }
        } else {
            if stacked(rest, n) is Ok {
                assert(items.last() == items[last]);
            } else {
                let i = choose|i: int|
                    0 <= i < rest.len() && !((#[trigger] rest[i]) is Nil || (rest[i] is DoubleArray
                        && rest[i]->DoubleArray_0.len() == n));
                assert(items[i] == rest[i]);
            }
        }
    }
}

/// The element at a row and column: the double NaN in a row that is nil.
pub open spec fn cell_of_rows(items: Seq<Val>, i: int, j: int) -> u64 {
    if items[i] is Nil {
        0x7FF8_0000_0000_0000u64
    } else {
        items[i]->DoubleArray_0[j]
    }
}

proof fn lemma_packed_below(m: nat, n: nat, t: nat, u: nat)
    requires
        m < n < 0x20_0000_0000_0000,
        top_bit(m, t),
        top_bit(n, u),
    ensures
        packed(m, t) < packed(n, u),
{
    lemma2_to64();
    lemma2_to64_rest();
    assert(t <= 52) by {
        if t > 52 {
            vstd::arithmetic::power2::lemma_pow2_strictly_increases(52, t);
            if t > 53 {
                vstd::arithmetic::power2::lemma_pow2_strictly_increases(53, t);
            }
        }
    }
    assert(u <= 52) by {
        if u > 53 {
            vstd::arithmetic::power2::lemma_pow2_strictly_increases(53, u);
        }
    }
    let a = (52 - t) as nat;
    let b = (52 - u) as nat;
    lemma_pow2_adds(t + 1, a);
    lemma_pow2_adds(u, b);
    vstd::arithmetic::power2::lemma_pow2_pos(a);
    let p = pow2(a);
    let q = pow2(b);
    let span = FRACTION_SPAN as nat;
    assert(pow2(52) == span);
    assert(m * p < 2 * span) by (nonlinear_arith)
        requires
            m < pow2(t + 1),
            pow2(t + 1) * p == 2 * span,
            p > 0 || p == 0,
            p >= 0,
            span > 0,
    ;
    assert(n * q >= span) by (nonlinear_arith)
        requires
            n >= pow2(u),
            pow2(u) * q == span,
    ;
    if t == u {
        assert(m * p < n * p) by (nonlinear_arith)
            requires
                m < n,
                p > 0,
        ;
    } else if t < u {
        assert((1022 + t) * span + 2 * span <= (1022 + u) * span + span) by (nonlinear_arith)
            requires
                t + 1 <= u,
                span > 0,
        ;
    } else {
        if u + 1 < t {
            vstd::arithmetic::power2::lemma_pow2_strictly_increases(u + 1, t);
        }
        assert(false);
    }
}

/// The order of doubles is that of the numbers that they are.
pub proof fn law_double_order_is_number_order(a: u64, b: u64, m: int, n: int)
    requires
        -0x20_0000_0000_0000 < m < 0x20_0000_0000_0000,
        -0x20_0000_0000_0000 < n < 0x20_0000_0000_0000,
        is_double_of_long(a, m),
        is_double_of_long(b, n),
    ensures
        double_less(a, b) <==> m < n,
{
    lemma_small_bits(a, m);
    lemma_small_bits(b, n);
    lemma_ranks(a, b, m, n);
    lemma_ranks(b, a, n, m);
    if m == n {
        if m < 0 {
            crate::doubles::law_one_nearest_double(
                (a - SIGN_BIT) as nat,
                (b - SIGN_BIT) as nat,
                (-m) as nat,
            );
        } else {
            crate::doubles::law_one_nearest_double(a as nat, b as nat, m as nat);
        }
    }
}

proof fn lemma_small_bits(a: u64, m: int)
    requires
        -0x20_0000_0000_0000 < m < 0x20_0000_0000_0000,
        is_double_of_long(a, m),
    ensures
        m >= 0 ==> a < 0x7FF0_0000_0000_0000,
        m < 0 ==> SIGN_BIT < a < 0xFFF0_0000_0000_0000,
        m > 0 ==> a > 0,
{
    lemma2_to64();
    lemma2_to64_rest();
    let k: nat = if m < 0 {
        (-m) as nat
    } else {
        m as nat
    };
    let bits: nat = if m < 0 {
        (a - SIGN_BIT) as nat
    } else {
        a as nat
    };
    if k > 0 {
        let t = choose|t: nat| #[trigger] top_bit(k, t) && bits == packed(k, t);
        if t > 52 {
            if t > 53 {
                vstd::arithmetic::power2::lemma_pow2_strictly_increases(53, t);
            }
        }
        lemma_pow2_adds(t + 1, (52 - t) as nat);
        let p = pow2((52 - t) as nat);
        let span = FRACTION_SPAN as nat;
        assert(k * p < 2 * span) by (nonlinear_arith)
            requires
                k < pow2(t + 1),
                pow2(t + 1) * p == 2 * span,
                p >= 0,
                span > 0,
        ;
        assert(k * p >= 0) by (nonlinear_arith)
            requires
                p >= 0,
        ;
    }
}

proof fn lemma_ranks(a: u64, b: u64, m: int, n: int)
    requires
        -0x20_0000_0000_0000 < m < n < 0x20_0000_0000_0000 || m >= n,
        -0x20_0000_0000_0000 < m < 0x20_0000_0000_0000,
        -0x20_0000_0000_0000 < n < 0x20_0000_0000_0000,
        is_double_of_long(a, m),
        is_double_of_long(b, n),
    ensures
        m < n ==> double_less(a, b),
{
    lemma_small_bits(a, m);
    lemma_small_bits(b, n);
    if m < n {
        if m < 0 && n < 0 {
            let t = choose|t: nat| #[trigger]
                top_bit((-m) as nat, t) && (a - SIGN_BIT) as nat == packed((-m) as nat, t);
            let u = choose|u: nat| #[trigger]
                top_bit((-n) as nat, u) && (b - SIGN_BIT) as nat == packed((-n) as nat, u);
            lemma_packed_below((-n) as nat, (-m) as nat, u, t);
        } else if m > 0 {
            let t = choose|t: nat| #[trigger] top_bit(m as nat, t) && a as nat == packed(m as nat, t);
            let u = choose|u: nat| #[trigger] top_bit(n as nat, u) && b as nat == packed(n as nat, u);
            lemma_packed_below(m as nat, n as nat, t, u);
        }
    }
}

/// A double that a small integer is reads back as it, of either sign.
pub proof fn law_small_integers_survive(bits: u64, n: int)
    requires
        -0x20_0000_0000_0000 < n < 0x20_0000_0000_0000,
        is_double_of_long(bits, n),
    ensures
        truncated(bits) == n,
{
    if n >= 0 {
        law_small_magnitudes_survive(bits, n as nat);
    } else {
        lemma_small_bits(bits, n);
        let plus = (bits - SIGN_BIT) as u64;
        law_small_magnitudes_survive(plus, (-n) as nat);
        assert(bits % SIGN_BIT == plus % SIGN_BIT);
        assert(bits % FRACTION_SPAN == plus % FRACTION_SPAN);
    }
}

} // verus!
