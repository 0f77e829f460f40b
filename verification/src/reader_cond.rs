//! Reader conditionals: which branch a `#?(...)` selects, and what forms it expands to.

use vstd::prelude::*;
use crate::decimal::digits;
use crate::decimal::push_digits;
use crate::form::{lemma_form_views, trees, Place, Tree, TreeKind};
use crate::form::{form_copy, Form, FormKind, Span};
use crate::text::{push_text, same_text, text_copy};

verus! {

/// The feature keys that conditionals match against. Unset means `rust` alone.
#[derive(Debug)]
pub struct ReaderFeatures {
    keys: Option<Vec<String>>,
}

/// What each text holds.
pub open spec fn key_texts(keys: Seq<String>) -> Seq<Seq<char>> {
    Seq::new(keys.len(), |i: int| keys[i]@)
}

/// The feature set holds the key.
pub open spec fn has_feature(features: Option<Seq<Seq<char>>>, key: Seq<char>) -> bool {
    match features {
        Some(keys) => keys.contains(key),
        None => key == "rust"@,
    }
}

impl ReaderFeatures {
    /// The keys that were set.
    pub closed spec fn view(&self) -> Option<Seq<Seq<char>>> {
        match self.keys {
            Some(keys) => Some(key_texts(keys@)),
            None => None,
        }
    }

    pub fn new() -> (r: ReaderFeatures)
        ensures
            r.view() is None,
    {
        ReaderFeatures { keys: None }
    }

    /// Whether a clause key is in the feature set.
    pub fn feature_matches(&self, key: &str) -> (r: bool)
        ensures
            r == has_feature(self.view(), key@),
    {
        match &self.keys {
            Some(keys) => {
                let ghost all = key_texts(keys@);
                for i in 0..keys.len()
                    invariant
                        all == key_texts(keys@),
                        self.view() == Some(all),
                        forall|j: int| 0 <= j < i ==> #[trigger] all[j] != key@,
                {
                    if same_text(keys[i].as_str(), key) {
                        assert(all[i as int] == key@);
                        return true;
                    }
                }
                false
            },
            None => same_text(key, "rust"),
        }
    }
}

/// Set the feature keys that conditionals match against. `:default` always matches and need not be
/// listed. Returns `false`, and changes nothing, if the set was already fixed.
pub fn set_reader_features(features: &mut ReaderFeatures, keys: Vec<String>) -> (r: bool)
    ensures
        r == old(features).view() is None,
        final(features).view() == if old(features).view() is None {
            Some(key_texts(keys@))
        } else {
            old(features).view()
        },
{
    if features.keys.is_some() {
        return false;
    }
    features.keys = Some(keys);
    true
}

/// The clause key at `i` selects its branch.
pub open spec fn key_matches(
    clauses: Seq<Tree>,
    features: Option<Seq<Seq<char>>>,
    i: int,
) -> bool {
    clauses[i].kind matches TreeKind::Keyword(k) && (k == "default"@ || has_feature(features, k))
}

/// The position of the branch that the clauses from `i` on select: clauses are tried in order, and
/// an earlier `:default` shadows a later platform clause.
pub open spec fn branch_from(
    clauses: Seq<Tree>,
    features: Option<Seq<Seq<char>>>,
    i: int,
) -> Option<int>
    decreases clauses.len() - i,
{
    if i < 0 || i + 1 >= clauses.len() {
        None
    } else if key_matches(clauses, features, i) {
        Some(i + 1)
    } else {
        branch_from(clauses, features, i + 2)
    }
}

/// The branch that a conditional selects.
pub open spec fn selected(clauses: Seq<Tree>, features: Option<Seq<Seq<char>>>) -> Option<Tree> {
    match branch_from(clauses, features, 0) {
        Some(i) => Some(clauses[i]),
        None => None,
    }
}

/// The selected branch is one of the clauses' forms.
pub proof fn lemma_branch_from(clauses: Seq<Tree>, features: Option<Seq<Seq<char>>>, i: int)
    requires
        0 <= i,
    ensures
        branch_from(clauses, features, i) matches Some(b) ==> i < b < clauses.len()
            && key_matches(clauses, features, b - 1),
    decreases clauses.len() - i,
{
    if i + 1 < clauses.len() && !key_matches(clauses, features, i) {
        lemma_branch_from(clauses, features, i + 2);
    }
}

/// Where a `:default` clause stands at the front, it is selected, whatever the features are.
pub proof fn law_earlier_default_shadows(clauses: Seq<Tree>, features: Option<Seq<Seq<char>>>)
    requires
        clauses.len() >= 2,
        clauses[0].kind == TreeKind::Keyword("default"@),
    ensures
        selected(clauses, features) == Some(clauses[1]),
{
}

/// The position of the selected branch.
fn select_branch(clauses: &Vec<Form>, features: &ReaderFeatures) -> (r: Option<usize>)
    ensures
        (match r {
            Some(i) => Some(i as int),
            None => None,
        }) == branch_from(trees(clauses@), features.view(), 0),
        r matches Some(i) ==> i < clauses@.len(),
{
    let ghost all = trees(clauses@);
    let mut i: usize = 0;
    while i < clauses.len() && clauses.len() - i > 1
        invariant
            i <= clauses@.len() + 1,
            all == trees(clauses@),
            branch_from(all, features.view(), 0) == branch_from(all, features.view(), i as int),
        decreases clauses@.len() + 2 - i,
    {
        assert(all[i as int] == clauses@[i as int].view());
        match &clauses[i].kind {
            FormKind::Keyword(k) => {
                if same_text(k.as_str(), "default") || features.feature_matches(k.as_str()) {
                    return Some(i + 1);
                }
            },
            _ => {},
        }
        if clauses.len() - i == 2 {
            assert(branch_from(all, features.view(), i + 2) is None);
            return None;
        }
        i = i + 2;
    }
    None
}

/// Resolve a `#?(...)` reader conditional to the selected branch, or `None` if no clause key is in
/// the feature set and no `:default` clause is present.
pub fn select_reader_cond<'a>(clauses: &'a Vec<Form>, features: &ReaderFeatures) -> (r: Option<
    &'a Form,
>)
    ensures
        (match r {
            Some(f) => Some(f.view()),
            None => None,
        }) == selected(trees(clauses@), features.view()),
        r matches Some(f) ==> exists|i: int| 0 <= i < clauses@.len() && *f == #[trigger] clauses@[i],
{
    match select_branch(clauses, features) {
        Some(i) => {
            assert(trees(clauses@)[i as int] == clauses@[i as int].view());
            Some(&clauses[i])
        },
        None => None,
    }
}

/// The conditional has a `:clj` or `:cljs` branch.
pub open spec fn has_foreign(clauses: Seq<Tree>) -> bool {
    exists|i: int|
        0 <= i < clauses.len() && i % 2 == 0 && #[trigger] clauses[i].kind is Keyword && (
        clauses[i].kind->Keyword_0 == "clj"@ || clauses[i].kind->Keyword_0 == "cljs"@)
}

/// The warning about a conditional that expands to nothing on this platform.
pub open spec fn foreign_warning(place: Place) -> Seq<char> {
    "WARNING: reader conditional at "@ + place.file + ":"@ + digits(place.line as nat) + ":"@
        + digits(place.col as nat)
        + " has no matching clause for this platform (only :clj/:cljs); it expands to nothing. Add a :default clause or a platform-specific branch."@
}

fn foreign_clause(clauses: &Vec<Form>) -> (r: bool)
    ensures
        r == has_foreign(trees(clauses@)),
{
    let ghost all = trees(clauses@);
    let mut i: usize = 0;
    while i < clauses.len()
        invariant
            i <= clauses@.len() + 1,
            i % 2 == 0,
            all == trees(clauses@),
            forall|j: int|
                0 <= j < i && j < all.len() && j % 2 == 0 && #[trigger] all[j].kind is Keyword
                    ==> all[j].kind->Keyword_0 != "clj"@ && all[j].kind->Keyword_0 != "cljs"@,
        decreases clauses@.len() + 2 - i,
    {
        assert(all[i as int] == clauses@[i as int].view());
        match &clauses[i].kind {
            FormKind::Keyword(k) => {
                if same_text(k.as_str(), "clj") || same_text(k.as_str(), "cljs") {
                    assert(all[i as int].kind is Keyword);
                    return true;
                }
            },
            _ => {},
        }
        if clauses.len() - i == 1 {
            return false;
        }
        i = i + 2;
    }
    false
}

/// The places that were warned about.
#[derive(Debug)]
pub struct WarnLog {
    places: Vec<Span>,
}

impl WarnLog {
    /// The places, in the order of the warnings.
    pub closed spec fn view(&self) -> Seq<Place> {
        Seq::new(self.places@.len(), |i: int| self.places@[i].view())
    }

    pub fn new() -> (r: WarnLog)
        ensures
            r.view().len() == 0,
    {
        WarnLog { places: Vec::new() }
    }

    /// Note a place; says whether it is new.
    fn note(&mut self, span: &Span) -> (r: bool)
        ensures
            r == !old(self).view().contains(span.view()),
            final(self).view() == if old(self).view().contains(span.view()) {
                old(self).view()
            } else {
                old(self).view().push(span.view())
            },
    {
        let ghost before = self.view();
        for i in 0..self.places.len()
            invariant
                before == self.view(),
                self.view() == old(self).view(),
                forall|j: int| 0 <= j < i ==> #[trigger] before[j] != span.view(),
        {
            let p = &self.places[i];
            if p.line == span.line && p.col == span.col && same_text(
                p.file.as_str(),
                span.file.as_str(),
            ) {
                assert(before[i as int] == span.view());
                return false;
            }
        }
        self.places.push(span.copy());
        assert(self.view() =~= before.push(span.view()));
        true
    }
}

/// A conditional with only `:clj` and `:cljs` branches silently expands to nothing on this
/// platform: say so once per source location. Gives the warning to print.
pub fn warn_foreign_platform_cond(clauses: &Vec<Form>, log: &mut WarnLog) -> (r: Option<String>)
    ensures
        ({
            let all = trees(clauses@);
            if has_foreign(all) && !old(log).view().contains(all[0].span) {
                &&& r matches Some(w) && w@ == foreign_warning(all[0].span)
                &&& final(log).view() == old(log).view().push(all[0].span)
            } else {
                r is None && final(log).view() == old(log).view()
            }
        }),
{
    if !foreign_clause(clauses) {
        return None;
    }
    let span = &clauses[0].span;
    assert(trees(clauses@)[0].span == span.view());
    if !log.note(span) {
        return None;
    }
    let mut w = text_copy("WARNING: reader conditional at ");
    push_text(&mut w, span.file.as_str());
    push_text(&mut w, ":");
    push_digits(&mut w, span.line as u64);
    push_text(&mut w, ":");
    push_digits(&mut w, span.col as u64);
    push_text(
        &mut w,
        " has no matching clause for this platform (only :clj/:cljs); it expands to nothing. Add a :default clause or a platform-specific branch.",
    );
    Some(w)
}

/// The forms that one form stands for among others: a conditional its branch or nothing, a
/// splicing one the elements of its branch.
pub open spec fn expanded_form(t: Tree, features: Option<Seq<Seq<char>>>) -> Seq<Tree>
    decreases t,
{
    match t.kind {
        TreeKind::ReaderCond(splicing, clauses) => match branch_from(clauses, features, 0) {
            Some(i) => if 0 <= i < clauses.len() {
                match clauses[i].kind {
                    TreeKind::Items(b, elems) => if splicing && (b is List || b is Vector) {
                        expanded(elems, features)
                    } else {
                        seq![clauses[i]]
                    },
                    _ => seq![clauses[i]],
                }
            } else {
                Seq::empty()
            },
            None => Seq::empty(),
        },
        _ => seq![t],
    }
}

/// The forms with their reader conditionals expanded.
pub open spec fn expanded(ts: Seq<Tree>, features: Option<Seq<Seq<char>>>) -> Seq<Tree>
    decreases ts,
{
    if ts.len() == 0 {
        Seq::empty()
    } else {
        expanded(ts.drop_last(), features) + expanded_form(ts.last(), features)
    }
}

fn append_forms(out: &mut Vec<Form>, more: &Vec<Form>)
    ensures
        trees(final(out)@) == trees(old(out)@) + trees(more@),
{
    let ghost before = trees(out@);
    assert(trees(more@).take(0) =~= Seq::empty());
    assert(before + Seq::empty() =~= before);
    for i in 0..more.len()
        invariant
            trees(out@) == before + trees(more@).take(i as int),
    {
        let ghost now = out@;
        out.push(form_copy(&more[i]));
        proof {
            let all = trees(more@);
            assert(all.take(i + 1) =~= all.take(i as int).push(all[i as int]));
            assert(trees(out@) =~= trees(now).push(all[i as int]));
            assert(trees(out@) =~= before + all.take(i + 1));
        }
    }
    assert(trees(more@).take(more@.len() as int) =~= trees(more@));
}

fn one_form(f: &Form) -> (r: Vec<Form>)
    ensures
        trees(r@) == seq![f.view()],
{
    let mut r: Vec<Form> = Vec::new();
    r.push(form_copy(f));
    assert(trees(r@) =~= seq![f.view()]);
    r
}

fn no_forms() -> (r: Vec<Form>)
    ensures
        trees(r@) == Seq::<Tree>::empty(),
{
    let r: Vec<Form> = Vec::new();
    assert(trees(r@) =~= Seq::empty());
    r
}

/// The forms that one form stands for among others.
fn expand_one(form: &Form, features: &ReaderFeatures) -> (r: Vec<Form>)
    ensures
        trees(r@) == expanded_form(form.view(), features.view()),
    decreases form,
{
    proof {
        lemma_form_views(form.kind);
    }
    match &form.kind {
        FormKind::ReaderCond { splicing, clauses } => match select_branch(clauses, features) {
            Some(i) => {
                let branch = &clauses[i];
                assert(trees(clauses@)[i as int] == branch.view());
                assert(decreases_to!(form => clauses@[i as int].kind));
                proof {
                    lemma_form_views(branch.kind);
                }
                if *splicing {
                    match &branch.kind {
                        FormKind::Vector(elems) => {
                            return expand_reader_conds(elems, features);
                        },
                        FormKind::List(elems) => {
                            return expand_reader_conds(elems, features);
                        },
                        _ => {},
                    }
                }
                one_form(branch)
            },
            None => no_forms(),
        },
        _ => one_form(form),
    }
}

/// Expand reader conditionals in a flat list of forms.
///
/// A `#?(...)` is replaced by the selected branch, or removed if there is none. A `#?@(...)`
/// inlines the elements of a selected vector or list, any other branch as a single element.
pub fn expand_reader_conds(forms: &Vec<Form>, features: &ReaderFeatures) -> (r: Vec<Form>)
    ensures
        trees(r@) == expanded(trees(forms@), features.view()),
    decreases forms,
{
    let ghost all = trees(forms@);
    let mut out = no_forms();
    let mut i: usize = 0;
    assert(all.take(0) =~= Seq::empty());
    while i < forms.len()
        invariant
            i <= forms.len(),
            all == trees(forms@),
            trees(out@) == expanded(all.take(i as int), features.view()),
        decreases forms.len() - i,
    {
        assert(decreases_to!(forms => forms@[i as int]));
        proof {
            let seen = all.take(i + 1);
            assert(seen.drop_last() =~= all.take(i as int));
            assert(seen.last() == forms@[i as int].view());
        }
        let more = expand_one(&forms[i], features);
        append_forms(&mut out, &more);
        i = i + 1;
    }
    assert(all.take(all.len() as int) =~= all);
    out
}

} // verus!
