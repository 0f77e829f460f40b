//! Laws of source paths and the namespaces of files.

use vstd::prelude::*;
use crate::session::{
    dashed, dep_paths, dep_warnings, dotted, file_stem, last_dot, namespace_of, paths_with,
    DepOutcome,
};
use crate::process::word_texts;

verus! {

/// Adding paths keeps those that are there, in front and in order, and adds each of the others once.
pub proof fn law_paths_are_added(paths: Seq<Seq<char>>, more: Seq<Seq<char>>, p: Seq<char>)
    ensures
        paths_with(paths, more).contains(p) <==> paths.contains(p) || more.contains(p),
        paths_with(paths, more).len() >= paths.len(),
        paths_with(paths, more).take(paths.len() as int) == paths,
        paths.no_duplicates() ==> paths_with(paths, more).no_duplicates(),
    decreases more.len(),
{
    let after = paths_with(paths, more);
    if more.len() == 0 {
        assert(paths.take(paths.len() as int) =~= paths);
    } else {
        let rest = more.drop_last();
        let x = more.last();
        let before = paths_with(paths, rest);
        law_paths_are_added(paths, rest, p);
        if more.contains(p) {
            let i = choose|i: int| 0 <= i < more.len() && more[i] == p;
            if i < rest.len() {
                assert(rest[i] == p);
            }
        }
        if rest.contains(p) {
            let i = choose|i: int| 0 <= i < rest.len() && rest[i] == p;
            assert(more[i] == p);
        }
        assert(more[more.len() - 1] == x);
        if !before.contains(x) {
            assert(after.take(paths.len() as int) =~= before.take(paths.len() as int));
            assert(after[before.len() as int] == x);
            if before.contains(p) {
                let i = choose|i: int| 0 <= i < before.len() && before[i] == p;
                assert(after[i] == p);
            }
            if paths.no_duplicates() {
                assert forall|i: int, j: int|
                    0 <= i < after.len() && 0 <= j < after.len() && i != j implies after[i]
                    != after[j] by {
                    if i < before.len() && j < before.len() {
                        assert(before[i] != before[j]);
                    } else if i < before.len() {
                        assert(before.contains(before[i]));
                    } else {
                        assert(before.contains(before[j]));
                    }
                }
            }
        }
    }
}

/// Dependencies contribute the source paths of those that were found, each once, and no others.
pub proof fn law_dependency_paths(deps: Seq<(String, DepOutcome)>, p: Seq<char>)
    ensures
        dep_paths(deps).no_duplicates(),
        dep_paths(deps).contains(p) <==> exists|i: int|
            0 <= i < deps.len() && found_at((#[trigger] deps[i]).1, p),
    decreases deps.len(),
{
    if deps.len() > 0 {
        let rest = deps.drop_last();
        law_dependency_paths(rest, p);
        if let DepOutcome::Found(roots) = deps.last().1 {
            law_paths_are_added(dep_paths(rest), word_texts(roots@), p);
        }
        if exists|i: int| 0 <= i < deps.len() && found_at((#[trigger] deps[i]).1, p) {
            let i = choose|i: int| 0 <= i < deps.len() && found_at((#[trigger] deps[i]).1, p);
            if i < rest.len() {
                assert(rest[i] == deps[i]);
            }
        }
        if exists|i: int| 0 <= i < rest.len() && found_at((#[trigger] rest[i]).1, p) {
            let i = choose|i: int| 0 <= i < rest.len() && found_at((#[trigger] rest[i]).1, p);
            assert(rest[i] == deps[i]);
        }
        if found_at(deps[deps.len() - 1].1, p) {
            assert(found_at(deps.last().1, p));
        }
    }
}

/// A dependency was found, and the path is one of its source paths.
pub open spec fn found_at(d: DepOutcome, p: Seq<char>) -> bool {
    d matches DepOutcome::Found(roots) && word_texts(roots@).contains(p)
}

proof fn lemma_last_dot(stem: Seq<char>, ext: Seq<char>)
    requires
        forall|i: int| 0 <= i < ext.len() ==> #[trigger] ext[i] != '.',
    ensures
        last_dot(stem + seq!['.'] + ext) == Some(stem.len() as int),
    decreases ext.len(),
{
    let s = stem + seq!['.'] + ext;
    if ext.len() == 0 {
        assert(s.last() == '.');
    } else {
        let e = ext.drop_last();
        assert forall|i: int| 0 <= i < e.len() implies #[trigger] e[i] != '.' by {
            assert(e[i] == ext[i]);
        }
        lemma_last_dot(stem, e);
        assert(s.drop_last() =~= stem + seq!['.'] + e);
        assert(s.last() == ext[ext.len() - 1]);
    }
}

/// The stem of a file name is what stands before its last dot.
pub proof fn law_file_stems(stem: Seq<char>, ext: Seq<char>)
    requires
        stem.len() > 0,
        ext.len() > 0,
        forall|i: int| 0 <= i < ext.len() ==> #[trigger] ext[i] != '.',
    ensures
        file_stem(stem + seq!['.'] + ext) == stem,
{
    let s = stem + seq!['.'] + ext;
    lemma_last_dot(stem, ext);
    reveal_strlit("..");
    assert("..".view().len() == 2);
    assert(s.take(stem.len() as int) =~= stem);
}

/// A file directly below a source root is named by its stem, with dashes for underscores; below a
/// directory, the directory's name and a dot come first. A file outside the root has no namespace.
pub proof fn law_namespaces(
    root: Seq<Seq<char>>,
    dir: Seq<char>,
    stem: Seq<char>,
    ext: Seq<char>,
    file: Seq<Seq<char>>,
)
    requires
        stem.len() > 0,
        ext.len() > 0,
        forall|i: int| 0 <= i < ext.len() ==> #[trigger] ext[i] != '.',
    ensures
        namespace_of(root, root.push(stem + seq!['.'] + ext)) == Some(dashed(stem)),
        namespace_of(root, root.push(dir).push(stem + seq!['.'] + ext)) == Some(
            dashed(dir) + "."@ + dashed(stem),
        ),
        !(root.len() <= file.len() && file.take(root.len() as int) == root) ==> namespace_of(
            root,
            file,
        ) is None,
{
    law_file_stems(stem, ext);
    let name = stem + seq!['.'] + ext;
    let n = root.len() as int;
    let one = root.push(name);
    let two = root.push(dir).push(name);
    assert(one.take(n) =~= root);
    assert(two.take(n) =~= root);
    assert(one.skip(n) =~= seq![name]);
    assert(two.skip(n) =~= seq![dir, name]);
    assert(seq![name].drop_last().push(stem) =~= seq![stem]);
    assert(seq![dir, name].drop_last().push(stem) =~= seq![dir, stem]);
    assert(seq![dir, stem].drop_last() =~= seq![dir]);
    reveal_with_fuel(dotted, 2);
}

/// Dashes stand for underscores, and every other character for itself.
pub proof fn law_dashes(s: Seq<char>, i: int)
    requires
        0 <= i < s.len(),
    ensures
        dashed(s).len() == s.len(),
        s[i] == '_' ==> dashed(s)[i] == '-',
        s[i] != '_' ==> dashed(s)[i] == s[i],
{
}

/// Each dependency that was not found is warned about, in order, and no other.
pub proof fn law_dependency_warnings(deps: Seq<(String, DepOutcome)>, name: String, d: DepOutcome)
    ensures
        dep_warnings(Seq::empty()).len() == 0,
        d is Found ==> dep_warnings(deps.push((name, d))) == dep_warnings(deps),
        !(d is Found) ==> dep_warnings(deps.push((name, d))).len() == dep_warnings(deps).len() + 1
            && dep_warnings(deps.push((name, d))).drop_last() == dep_warnings(deps),
        d matches DepOutcome::LocalMissing { root } ==> dep_warnings(deps.push((name, d))).last()
            == "cljrs: warning: local dep "@ + name@ + " not found at "@ + root@,
{
    assert(deps.push((name, d)).drop_last() =~= deps);
    if !(d is Found) {
        assert(dep_warnings(deps.push((name, d))).drop_last() =~= dep_warnings(deps));
    }
}

} // verus!
