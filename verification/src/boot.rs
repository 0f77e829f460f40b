//! Setting up the core namespace.

use vstd::prelude::*;
use crate::process::word_texts;
use crate::text::same_text;

verus! {

/// The namespace that every other one refers to.
pub const CORE: &'static str = "clojure.core";

/// The names other than that of the core namespace.
pub open spec fn others(names: Seq<Seq<char>>) -> Seq<Seq<char>>
    decreases names.len(),
{
    if names.len() == 0 {
        Seq::empty()
    } else if names.last() == CORE@ {
        others(names.drop_last())
    } else {
        others(names.drop_last()).push(names.last())
    }
}

/// After `eval` is interned in the core namespace: the namespaces whose references to it are to be
/// refreshed, since each took its snapshot when it was created.
pub fn register_eval(names: &Vec<String>) -> (r: Vec<String>)
    ensures
        word_texts(r@) == others(word_texts(names@)),
{
    let ghost all = word_texts(names@);
    let mut out: Vec<String> = Vec::new();
    assert(all.take(0) =~= Seq::empty());
    assert(word_texts(out@) =~= Seq::empty());
    for i in 0..names.len()
        invariant
            all == word_texts(names@),
            word_texts(out@) == others(all.take(i as int)),
    {
        assert(all.take(i + 1).drop_last() =~= all.take(i as int));
        assert(all.take(i + 1).last() == names@[i as int]@);
        if !same_text(names[i].as_str(), CORE) {
            let ghost before = word_texts(out@);
            out.push(names[i].clone());
            assert(word_texts(out@) =~= before.push(names@[i as int]@));
        }
    }
    assert(all.take(all.len() as int) =~= all);
    out
}

} // verus!
