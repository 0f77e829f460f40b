//! Finding and replacing text.

use vstd::prelude::*;
use crate::text::{chars_of, text_of};

verus! {

/// The pattern stands at a position of the text.
pub open spec fn occurs_at(s: Seq<char>, pat: Seq<char>, i: int) -> bool {
    0 <= i && i + pat.len() <= s.len() && s.subrange(i, i + pat.len()) == pat
}

/// The first position, from `from` on, where the pattern stands.
pub open spec fn first_from(s: Seq<char>, pat: Seq<char>, from: int) -> Option<int>
    decreases s.len() - from + 1,
{
    if from < 0 || from > s.len() {
        None
    } else if occurs_at(s, pat, from) {
        Some(from)
    } else {
        first_from(s, pat, from + 1)
    }
}

/// The text with each occurrence of the pattern replaced, from the left, without overlap.
pub open spec fn replaced(s: Seq<char>, pat: Seq<char>, with: Seq<char>) -> Seq<char>
    decreases s.len(),
{
    if s.len() == 0 || pat.len() == 0 {
        s
    } else if occurs_at(s, pat, 0) {
        with + replaced(s.skip(pat.len() as int), pat, with)
    } else {
        seq![s[0]] + replaced(s.skip(1), pat, with)
    }
}

fn stands_at(s: &Vec<char>, pat: &Vec<char>, i: usize) -> (r: bool)
    requires
        i <= s@.len(),
    ensures
        r == occurs_at(s@, pat@, i as int),
{
    if pat.len() > s.len() - i {
        return false;
    }
    let ghost part = s@.subrange(i as int, i + pat@.len());
    let total: usize = s.len();
    for k in 0..pat.len()
        invariant
            total == s@.len(),
            i + pat@.len() <= total,
            part == s@.subrange(i as int, i + pat@.len()),
            forall|j: int| 0 <= j < k ==> #[trigger] part[j] == pat@[j],
    {
        if s[i + k] != pat[k] {
            assert(part[k as int] != pat@[k as int]);
            return false;
        }
    }
    assert(part =~= pat@);
    true
}

/// The first position, from `from` on, where the pattern stands.
pub fn find_from(s: &Vec<char>, pat: &Vec<char>, from: usize) -> (r: Option<usize>)
    requires
        from <= s@.len(),
    ensures
        (match r {
            Some(i) => Some(i as int),
            None => None,
        }) == first_from(s@, pat@, from as int),
        r matches Some(i) ==> from <= i && i + pat@.len() <= s@.len(),
{
    let mut i: usize = from;
    while i < s.len()
        invariant
            from <= i <= s@.len(),
            first_from(s@, pat@, from as int) == first_from(s@, pat@, i as int),
        decreases s@.len() - i,
    {
        if stands_at(s, pat, i) {
            return Some(i);
        }
        i = i + 1;
    }
    if stands_at(s, pat, i) {
        return Some(i);
    }
    assert(first_from(s@, pat@, i + 1) is None);
    None
}

fn replace_chars(s: &Vec<char>, pat: &Vec<char>, with: &Vec<char>) -> (r: Vec<char>)
    requires
        pat@.len() > 0,
    ensures
        r@ == replaced(s@, pat@, with@),
{
    let mut out: Vec<char> = Vec::new();
    let mut i: usize = 0;
    assert(s@.skip(0) =~= s@);
    assert(out@ + replaced(s@, pat@, with@) =~= replaced(s@, pat@, with@));
    while i < s.len()
        invariant
            pat@.len() > 0,
            i <= s@.len(),
            out@ + replaced(s@.skip(i as int), pat@, with@) == replaced(s@, pat@, with@),
        decreases s@.len() - i,
    {
        let ghost rest = s@.skip(i as int);
        let ghost before = out@;
        let here = stands_at(s, pat, i);
        assert(here == occurs_at(rest, pat@, 0)) by {
            if i + pat@.len() <= s@.len() {
                assert(rest.subrange(0, pat@.len() as int) =~= s@.subrange(
                    i as int,
                    i + pat@.len(),
                ));
            }
        }
        if here {
            let mut k: usize = 0;
            assert(before + with@.take(0) =~= before);
            while k < with.len()
                invariant
                    k <= with@.len(),
                    out@ == before + with@.take(k as int),
                decreases with@.len() - k,
            {
                out.push(with[k]);
                assert(before + with@.take(k + 1) =~= (before + with@.take(k as int)).push(
                    with@[k as int],
                ));
                k = k + 1;
            }
            assert(with@.take(with@.len() as int) =~= with@);
            assert(rest.skip(pat@.len() as int) =~= s@.skip(i + pat@.len()));
            let ghost tail = replaced(s@.skip(i + pat@.len()), pat@, with@);
            assert(before + (with@ + tail) =~= (before + with@) + tail);
            i = i + pat.len();
        } else {
            let c: char = s[i];
            out.push(c);
            assert(rest[0] == c);
            assert(rest.skip(1) =~= s@.skip(i + 1));
            let ghost tail = replaced(s@.skip(i + 1), pat@, with@);
            assert(before + (seq![c] + tail) =~= before.push(c) + tail);
            i = i + 1;
        }
    }
    assert(out@ + replaced(s@.skip(i as int), pat@, with@) =~= out@);
    out
}

/// The text with each occurrence of the pattern replaced.
pub fn replace_text(s: &str, pat: &str, with: &str) -> (r: String)
    requires
        pat@.len() > 0,
    ensures
        r@ == replaced(s@, pat@, with@),
{
    text_of(replace_chars(&chars_of(s), &chars_of(pat), &chars_of(with)).as_slice())
}

/// The text without the characters `c` at its end.
pub open spec fn without_trailing(s: Seq<char>, c: char) -> Seq<char>
    decreases s.len(),
{
    if s.len() > 0 && s.last() == c {
        without_trailing(s.drop_last(), c)
    } else {
        s
    }
}

/// The text without the characters `c` at its end.
pub fn trim_trailing(s: &str, c: char) -> (r: String)
    ensures
        r@ == without_trailing(s@, c),
{
    let mut chars = chars_of(s);
    while chars.len() > 0 && chars[chars.len() - 1] == c
        invariant
            without_trailing(s@, c) == without_trailing(chars@, c),
        decreases chars@.len(),
    {
        let ghost before = chars@;
        let _last = chars.pop();
        assert(chars@ =~= before.drop_last());
    }
    text_of(chars.as_slice())
}

} // verus!
