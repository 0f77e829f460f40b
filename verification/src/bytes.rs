//! Byte strings: lexicographic order and fixed-width big-endian integers.

use vstd::prelude::*;

verus! {

/// Strict lexicographic order: a proper prefix sorts first.
pub open spec fn lex_lt(a: Seq<u8>, b: Seq<u8>) -> bool
    decreases a.len(),
{
    if b.len() == 0 {
        false
    } else if a.len() == 0 {
        true
    } else if a[0] == b[0] {
        lex_lt(a.skip(1), b.skip(1))
    } else {
        a[0] < b[0]
    }
}

/// `a` and `b` first differ at a position inside both, where `a` is smaller.
pub open spec fn splits_below(a: Seq<u8>, b: Seq<u8>) -> bool {
    exists|i: int| splits_at(a, b, i)
}

/// Position `i` is where `a` and `b` first differ, and `a` is smaller there.
pub open spec fn splits_at(a: Seq<u8>, b: Seq<u8>, i: int) -> bool {
    &&& 0 <= i < a.len()
    &&& i < b.len()
    &&& a.take(i) == b.take(i)
    &&& a[i] < b[i]
}

/// A first difference inside both strings decides the order of every pair of extensions.
pub proof fn lemma_split_orders(a: Seq<u8>, b: Seq<u8>, x: Seq<u8>, y: Seq<u8>)
    requires
        splits_below(a, b),
    ensures
        lex_lt(a + x, b + y),
    decreases a.len(),
{
    let i = choose|i: int| splits_at(a, b, i);
    assert((a + x)[0] == a[0]);
    assert((b + y)[0] == b[0]);
    if i > 0 {
        assert(a.take(i)[0] == a[0]);
        assert(b.take(i)[0] == b[0]);
        assert(a.skip(1).take(i - 1) =~= a.take(i).skip(1));
        assert(b.skip(1).take(i - 1) =~= b.take(i).skip(1));
        assert(splits_at(a.skip(1), b.skip(1), i - 1));
        lemma_split_orders(a.skip(1), b.skip(1), x, y);
        assert((a + x).skip(1) =~= a.skip(1) + x);
        assert((b + y).skip(1) =~= b.skip(1) + y);
    }
}

/// The order is irreflexive.
pub proof fn lemma_lex_irreflexive(a: Seq<u8>)
    ensures
        !lex_lt(a, a),
    decreases a.len(),
{
    if a.len() > 0 {
        lemma_lex_irreflexive(a.skip(1));
    }
}

/// The order is transitive.
pub proof fn lemma_lex_transitive(a: Seq<u8>, b: Seq<u8>, c: Seq<u8>)
    requires
        lex_lt(a, b),
        lex_lt(b, c),
    ensures
        lex_lt(a, c),
    decreases a.len(),
{
    if a.len() > 0 && a[0] == b[0] && b[0] == c[0] {
        lemma_lex_transitive(a.skip(1), b.skip(1), c.skip(1));
    }
}

/// Any two byte strings are equal or ordered one way.
pub proof fn lemma_lex_total(a: Seq<u8>, b: Seq<u8>)
    ensures
        a == b || lex_lt(a, b) || lex_lt(b, a),
    decreases a.len(),
{
    if a.len() == 0 || b.len() == 0 {
        if a.len() == 0 && b.len() == 0 {
            assert(a =~= b);
        }
    } else if a[0] == b[0] {
        lemma_lex_total(a.skip(1), b.skip(1));
        if a.skip(1) == b.skip(1) {
            assert(a =~= seq![a[0]] + a.skip(1));
            assert(b =~= seq![b[0]] + b.skip(1));
        }
    }
}

/// Two strings are never ordered both ways.
pub proof fn lemma_lex_asymmetric(a: Seq<u8>, b: Seq<u8>)
    requires
        lex_lt(a, b),
    ensures
        !lex_lt(b, a),
        a != b,
{
    lemma_lex_irreflexive(a);
    if lex_lt(b, a) {
        lemma_lex_transitive(a, b, a);
    }
}

/// A common prefix does not change the order.
pub proof fn lemma_lex_prefix(p: Seq<u8>, a: Seq<u8>, b: Seq<u8>)
    ensures
        lex_lt(p + a, p + b) == lex_lt(a, b),
    decreases p.len(),
{
    if p.len() == 0 {
        assert(p + a =~= a);
        assert(p + b =~= b);
    } else {
        lemma_lex_prefix(p.skip(1), a, b);
        assert((p + a).skip(1) =~= p.skip(1) + a);
        assert((p + b).skip(1) =~= p.skip(1) + b);
        assert((p + a)[0] == p[0]);
        assert((p + b)[0] == p[0]);
    }
}

/// A split survives a common prefix.
pub proof fn lemma_split_prefix(p: Seq<u8>, a: Seq<u8>, b: Seq<u8>)
    requires
        splits_below(a, b),
    ensures
        splits_below(p + a, p + b),
{
    let i = choose|i: int| splits_at(a, b, i);
    assert((p + a).take(p.len() + i) =~= p + a.take(i));
    assert((p + b).take(p.len() + i) =~= p + b.take(i));
    assert(splits_at(p + a, p + b, p.len() + i));
}

/// A split survives anything appended to either side.
pub proof fn lemma_split_extend(a: Seq<u8>, b: Seq<u8>, x: Seq<u8>, y: Seq<u8>)
    requires
        splits_below(a, b),
    ensures
        splits_below(a + x, b + y),
{
    let i = choose|i: int| splits_at(a, b, i);
    assert((a + x).take(i) =~= a.take(i));
    assert((b + y).take(i) =~= b.take(i));
    assert(splits_at(a + x, b + y, i));
}

/// How two byte strings compare.
#[derive(Clone, Copy, Debug, PartialEq, Eq, Structural)]
pub enum Rank {
    Below,
    Same,
    Above,
}

/// The lexicographic relation of `a` to `b`.
pub open spec fn lex_rank(a: Seq<u8>, b: Seq<u8>) -> Rank {
    if a == b {
        Rank::Same
    } else if lex_lt(a, b) {
        Rank::Below
    } else {
        Rank::Above
    }
}

/// Compare two byte strings lexicographically.
pub fn lex_compare(a: &[u8], b: &[u8]) -> (r: Rank)
    ensures
        r == lex_rank(a@, b@),
{
    let mut i: usize = 0;
    while i < a.len() && i < b.len()
        invariant
            i <= a.len(),
            i <= b.len(),
            a@.take(i as int) == b@.take(i as int),
        decreases a.len() - i,
    {
        if a[i] != b[i] {
            proof {
                let p = a@.take(i as int);
                let x = a@.skip(i as int);
                let y = b@.skip(i as int);
                assert(a@ =~= p + x);
                assert(b@ =~= p + y);
                lemma_lex_prefix(p, x, y);
                assert(x[0] == a@[i as int] && y[0] == b@[i as int]);
                assert(a@[i as int] != b@[i as int]);
            }
            if a[i] < b[i] {
                return Rank::Below;
            } else {
                return Rank::Above;
            }
        }
        assert(a@.take(i + 1) =~= a@.take(i as int).push(a@[i as int]));
        assert(b@.take(i + 1) =~= b@.take(i as int).push(b@[i as int]));
        i = i + 1;
    }
    proof {
        let p = a@.take(i as int);
        let x = a@.skip(i as int);
        let y = b@.skip(i as int);
        assert(a@ =~= p + x);
        assert(b@ =~= p + y);
        lemma_lex_prefix(p, x, y);
        if x.len() == 0 && y.len() == 0 {
            assert(x =~= y);
        }
    }
    if i < b.len() {
        Rank::Below
    } else if i < a.len() {
        Rank::Above
    } else {
        Rank::Same
    }
}

/// Whether two byte strings are equal.
pub fn same_bytes(a: &[u8], b: &[u8]) -> (r: bool)
    ensures
        r == (a@ == b@),
{
    match lex_compare(a, b) {
        Rank::Same => true,
        _ => false,
    }
}

/// Whether `bytes` starts with `prefix`.
pub open spec fn starts_with(bytes: Seq<u8>, prefix: Seq<u8>) -> bool {
    prefix.len() <= bytes.len() && bytes.take(prefix.len() as int) == prefix
}

/// Whether `bytes` starts with `prefix`.
pub fn has_prefix(bytes: &[u8], prefix: &[u8]) -> (r: bool)
    ensures
        r == starts_with(bytes@, prefix@),
{
    if prefix.len() > bytes.len() {
        return false;
    }
    let mut i: usize = 0;
    while i < prefix.len()
        invariant
            i <= prefix.len() <= bytes.len(),
            forall|j: int| 0 <= j < i ==> bytes@[j] == prefix@[j],
        decreases prefix.len() - i,
    {
        if bytes[i] != prefix[i] {
            assert(bytes@.take(prefix@.len() as int)[i as int] != prefix@[i as int]);
            return false;
        }
        i = i + 1;
    }
    assert(bytes@.take(prefix@.len() as int) =~= prefix@);
    true
}

/// The bytes of `s` from `from` up to `to`.
pub fn slice_of(s: &[u8], from: usize, to: usize) -> (r: Vec<u8>)
    requires
        from <= to <= s.len(),
    ensures
        r@ == s@.subrange(from as int, to as int),
{
    let mut r: Vec<u8> = Vec::new();
    let mut i: usize = from;
    while i < to
        invariant
            from <= i <= to <= s.len(),
            r@ == s@.subrange(from as int, i as int),
        decreases to - i,
    {
        r.push(s[i]);
        i = i + 1;
    }
    r
}

/// A copy of `s`.
pub fn bytes_copy(s: &[u8]) -> (r: Vec<u8>)
    ensures
        r@ == s@,
{
    let r = slice_of(s, 0, s.len());
    assert(s@.subrange(0, s@.len() as int) =~= s@);
    r
}

/// Append `more` to `out`.
pub fn push_bytes(out: &mut Vec<u8>, more: &[u8])
    ensures
        final(out)@ == old(out)@ + more@,
{
    let ghost start = out@;
    let mut i: usize = 0;
    while i < more.len()
        invariant
            i <= more.len(),
            out@ == start + more@.take(i as int),
        decreases more.len() - i,
    {
        out.push(more[i]);
        assert(more@.take(i + 1) =~= more@.take(i as int).push(more@[i as int]));
        i = i + 1;
    }
    assert(more@.take(more@.len() as int) =~= more@);
}

/// 256 to the power `k`.
pub open spec fn pow256(k: nat) -> nat
    decreases k,
{
    if k == 0 {
        1
    } else {
        256 * pow256((k - 1) as nat)
    }
}

/// The low `k` bytes of `n`, most significant first.
pub open spec fn be_bytes(n: nat, k: nat) -> Seq<u8>
    decreases k,
{
    if k == 0 {
        Seq::empty()
    } else {
        be_bytes(n / 256, (k - 1) as nat).push((n % 256) as u8)
    }
}

/// The number that `s` writes, most significant byte first.
pub open spec fn be_value(s: Seq<u8>) -> nat
    decreases s.len(),
{
    if s.len() == 0 {
        0
    } else {
        256 * be_value(s.drop_last()) + s.last() as nat
    }
}

/// `be_bytes` writes `k` bytes.
pub proof fn lemma_be_len(n: nat, k: nat)
    ensures
        be_bytes(n, k).len() == k,
    decreases k,
{
    if k > 0 {
        lemma_be_len(n / 256, (k - 1) as nat);
    }
}

/// Reading back what was written gives the number.
pub proof fn lemma_be_round_trip(n: nat, k: nat)
    requires
        n < pow256(k),
    ensures
        be_value(be_bytes(n, k)) == n,
    decreases k,
{
    if k > 0 {
        let m = (k - 1) as nat;
        lemma_be_round_trip(n / 256, m);
        assert(be_bytes(n, k).drop_last() =~= be_bytes(n / 256, m));
        assert(be_bytes(n, k).last() == (n % 256) as u8);
    }
}

/// What `k` bytes write is below 256 to the power `k`.
pub proof fn lemma_be_bound(s: Seq<u8>)
    ensures
        be_value(s) < pow256(s.len()),
    decreases s.len(),
{
    if s.len() > 0 {
        lemma_be_bound(s.drop_last());
    }
}

/// Writing a number that was read gives the bytes back.
pub proof fn lemma_be_rewrite(s: Seq<u8>)
    ensures
        be_bytes(be_value(s), s.len()) == s,
    decreases s.len(),
{
    if s.len() > 0 {
        lemma_be_rewrite(s.drop_last());
        assert(be_value(s) / 256 == be_value(s.drop_last()));
        assert(be_value(s) % 256 == s.last() as nat);
        assert(s =~= s.drop_last().push(s.last()));
    } else {
        assert(s =~= Seq::empty());
    }
}

/// Smaller numbers are written as smaller byte strings of the same length.
pub proof fn lemma_be_order(n: nat, m: nat, k: nat)
    requires
        n < m,
        m < pow256(k),
    ensures
        splits_below(be_bytes(n, k), be_bytes(m, k)),
    decreases k,
{
    if k > 0 {
        let j = (k - 1) as nat;
        let a = be_bytes(n / 256, j);
        let b = be_bytes(m / 256, j);
        let x = seq![(n % 256) as u8];
        let y = seq![(m % 256) as u8];
        assert(be_bytes(n, k) =~= a + x);
        assert(be_bytes(m, k) =~= b + y);
        if n / 256 < m / 256 {
            lemma_be_order(n / 256, m / 256, j);
            lemma_split_extend(a, b, x, y);
        } else {
            assert(n / 256 == m / 256);
            assert(x.take(0) =~= y.take(0));
            assert(splits_at(x, y, 0));
            lemma_split_prefix(a, x, y);
        }
    }
}

/// `u64::MAX` is the largest number that eight bytes write.
pub proof fn lemma_pow256_8()
    ensures
        pow256(8) == 0x1_0000_0000_0000_0000,
{
    reveal_with_fuel(pow256, 9);
}

/// Append the low `k` bytes of `n`, most significant first.
pub fn push_be(n: u64, k: usize, out: &mut Vec<u8>)
    ensures
        final(out)@ == old(out)@ + be_bytes(n as nat, k as nat),
    decreases k,
{
    if k > 0 {
        push_be(n / 256, k - 1, out);
        out.push((n % 256) as u8);
    }
    assert(out@ =~= old(out)@ + be_bytes(n as nat, k as nat));
}

/// Append the eight bytes of `n`.
pub fn push_u64(n: u64, out: &mut Vec<u8>)
    ensures
        final(out)@ == old(out)@ + be_bytes(n as nat, 8),
{
    push_be(n, 8, out);
}

/// Read the `k` bytes of `s` that start at `at`.
pub fn read_be(s: &[u8], at: usize, k: usize) -> (n: u64)
    requires
        k <= 8,
        at + k <= s.len(),
    ensures
        n as nat == be_value(s@.subrange(at as int, at + k)),
        be_bytes(n as nat, k as nat) == s@.subrange(at as int, at + k),
        n < pow256(k as nat),
{
    let mut n: u64 = 0;
    let mut i: usize = 0;
    while i < k
        invariant
            i <= k <= 8,
            at + k <= s.len(),
            n as nat == be_value(s@.subrange(at as int, at + i)),
        decreases k - i,
    {
        proof {
            let part = s@.subrange(at as int, at + i + 1);
            assert(part.drop_last() =~= s@.subrange(at as int, at + i));
            assert(part.last() == s@[at + i]);
            lemma_be_bound(part);
            assert(pow256((i + 1) as nat) <= pow256(8)) by {
                reveal_with_fuel(pow256, 9);
            }
            lemma_pow256_8();
        }
        n = n * 256 + s[at + i] as u64;
        i = i + 1;
    }
    proof {
        lemma_be_rewrite(s@.subrange(at as int, at + k));
        lemma_be_bound(s@.subrange(at as int, at + k));
    }
    n
}

/// Read the eight bytes of `s` that start at `at`.
pub fn read_u64(s: &[u8], at: usize) -> (n: u64)
    requires
        at + 8 <= s.len(),
    ensures
        n as nat == be_value(s@.subrange(at as int, at + 8)),
        be_bytes(n as nat, 8) == s@.subrange(at as int, at + 8),
{
    read_be(s, at, 8)
}

} // verus!
