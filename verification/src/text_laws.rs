//! Laws of searching and cutting texts.

use vstd::prelude::*;
use crate::search::{first_from, occurs_at, replaced, without_trailing};

verus! {

/// The first position where a pattern stands is one where it does, and it stands at none before.
pub proof fn law_first_position(s: Seq<char>, pat: Seq<char>, from: int)
    requires
        0 <= from <= s.len(),
    ensures
        match first_from(s, pat, from) {
            Some(i) => {
                &&& from <= i <= s.len() - pat.len()
                &&& s.subrange(i, i + pat.len()) == pat
                &&& forall|j: int| from <= j < i ==> !#[trigger] occurs_at(s, pat, j)
            },
            None => forall|j: int| from <= j ==> !#[trigger] occurs_at(s, pat, j),
        },
    decreases s.len() - from,
{
    if !occurs_at(s, pat, from) && from < s.len() {
        law_first_position(s, pat, from + 1);
        match first_from(s, pat, from) {
            Some(i) => {
                assert forall|j: int| from <= j < i implies !#[trigger] occurs_at(s, pat, j) by {
                    if j != from {
                        assert(from + 1 <= j);
                    }
                }
            },
            None => {
                assert forall|j: int| from <= j implies !#[trigger] occurs_at(s, pat, j) by {
                    if j != from {
                        assert(from + 1 <= j);
                    }
                }
            },
        }
    } else if from == s.len() && !occurs_at(s, pat, from) {
        assert(first_from(s, pat, from + 1) is None);
        assert forall|j: int| from <= j implies !#[trigger] occurs_at(s, pat, j) by {
            if occurs_at(s, pat, j) {
                assert(j == from);
            }
        }
    }
}

/// Replacing leaves a text without the pattern as it is; else what stands before the first
/// occurrence stays, the replacement takes its place, and what follows is treated alike.
pub proof fn law_replacing(s: Seq<char>, pat: Seq<char>, with: Seq<char>, i: int)
    requires
        pat.len() > 0,
    ensures
        (forall|j: int| !#[trigger] occurs_at(s, pat, j)) ==> replaced(s, pat, with) == s,
        occurs_at(s, pat, i) && (forall|j: int| 0 <= j < i ==> !#[trigger] occurs_at(s, pat, j))
            ==> replaced(s, pat, with) == s.take(i) + with + replaced(
            s.skip(i + pat.len()),
            pat,
            with,
        ),
    decreases s.len(),
{
    if s.len() == 0 {
    } else {
        let rest = s.skip(1);
        law_replacing(rest, pat, with, i - 1);
        assert forall|j: int| #[trigger] occurs_at(rest, pat, j) implies occurs_at(s, pat, j + 1) by {
            assert(s.subrange(j + 1, j + 1 + pat.len()) =~= rest.subrange(j, j + pat.len()));
        }
        if forall|j: int| !#[trigger] occurs_at(s, pat, j) {
            assert(!occurs_at(s, pat, 0));
            assert forall|j: int| !#[trigger] occurs_at(rest, pat, j) by {
                if occurs_at(rest, pat, j) {
                    assert(occurs_at(s, pat, j + 1));
                }
            }
            assert(seq![s[0]] + rest =~= s);
        }
        if occurs_at(s, pat, i) && forall|j: int|
            0 <= j < i ==> !#[trigger] occurs_at(s, pat, j) {
            if i == 0 {
                assert(s.take(0) + with =~= with);
            } else {
                assert(!occurs_at(s, pat, 0));
                assert(rest.subrange(i - 1, i - 1 + pat.len()) =~= s.subrange(i, i + pat.len()));
                assert(occurs_at(rest, pat, i - 1));
                assert forall|j: int| 0 <= j < i - 1 implies !#[trigger] occurs_at(rest, pat, j) by {
                    if occurs_at(rest, pat, j) {
                        assert(occurs_at(s, pat, j + 1));
                    }
                }
                assert(rest.skip(i - 1 + pat.len()) =~= s.skip(i + pat.len()));
                assert(seq![s[0]] + (rest.take(i - 1) + with + replaced(
                    s.skip(i + pat.len()),
                    pat,
                    with,
                )) =~= s.take(i) + with + replaced(s.skip(i + pat.len()), pat, with));
            }
        }
    }
}

/// Cutting a character from the end takes all of them and nothing else.
pub proof fn law_cutting_the_end(s: Seq<char>, c: char)
    ensures
        ({
            let r = without_trailing(s, c);
            &&& r.len() <= s.len()
            &&& r == s.take(r.len() as int)
            &&& r.len() > 0 ==> r.last() != c
            &&& forall|i: int| r.len() <= i < s.len() ==> #[trigger] s[i] == c
        }),
    decreases s.len(),
{
    let r = without_trailing(s, c);
    if s.len() > 0 && s.last() == c {
        let t = s.drop_last();
        law_cutting_the_end(t, c);
        assert(t.take(r.len() as int) =~= s.take(r.len() as int));
        assert forall|i: int| r.len() <= i < s.len() implies #[trigger] s[i] == c by {
            if i < t.len() {
                assert(t[i] == s[i]);
            }
        }
    } else {
        assert(s.take(s.len() as int) =~= s);
    }
}

} // verus!
