//! Reader forms: anonymous-function expansion, reader conditionals, and the literal value of a
//! form.

use vstd::prelude::*;

verus! {

/// Where a form was read.
#[derive(Debug, PartialEq, Eq)]
pub struct Span {
    pub file: String,
    pub line: u32,
    pub col: u32,
}

/// One form, with the place where it was read.
#[derive(Debug, PartialEq, Eq)]
pub struct Form {
    pub kind: FormKind,
    pub span: Span,
}

/// What a form is. Floats are held as their bit patterns.
#[derive(Debug, PartialEq, Eq)]
pub enum FormKind {
    Nil,
    Bool(bool),
    Int(i64),
    Float(u64),
    /// `##Inf`, `##-Inf` or `##NaN`.
    Symbolic(u64),
    Str(String),
    Char(char),
    BigInt(String),
    BigDecimal(String),
    Ratio(String),
    Symbol(String),
    Keyword(String),
    AutoKeyword(String),
    Regex(String),
    List(Vec<Form>),
    Vector(Vec<Form>),
    /// Keys and values in turn.
    MapLit(Vec<Form>),
    SetLit(Vec<Form>),
    Quote(Box<Form>),
    SyntaxQuote(Box<Form>),
    Unquote(Box<Form>),
    UnquoteSplice(Box<Form>),
    Deref(Box<Form>),
    Var(Box<Form>),
    /// The metadata, and the form that carries it.
    Meta(Box<Form>, Box<Form>),
    AnonFn(Vec<Form>),
    TaggedLiteral(String, Box<Form>),
    /// Feature keys and branches in turn.
    ReaderCond { splicing: bool, clauses: Vec<Form> },
}

/// What a [`Span`] holds.
pub struct Place {
    pub file: Seq<char>,
    pub line: u32,
    pub col: u32,
}

/// A bracketed form.
pub enum Bracket {
    List,
    Vector,
    MapLit,
    SetLit,
}

/// A reader macro around one form.
pub enum Sugar {
    Quote,
    SyntaxQuote,
    Unquote,
    UnquoteSplice,
    Deref,
    Var,
}

/// What a [`Form`] holds.
pub struct Tree {
    pub kind: TreeKind,
    pub span: Place,
}

/// What a [`FormKind`] holds.
pub enum TreeKind {
    Nil,
    Bool(bool),
    Int(i64),
    Float(u64),
    Symbolic(u64),
    Str(Seq<char>),
    Char(char),
    BigInt(Seq<char>),
    BigDecimal(Seq<char>),
    Ratio(Seq<char>),
    Symbol(Seq<char>),
    Keyword(Seq<char>),
    AutoKeyword(Seq<char>),
    Regex(Seq<char>),
    Items(Bracket, Seq<Tree>),
    Wrapped(Sugar, Box<Tree>),
    Meta(Box<Tree>, Box<Tree>),
    AnonFn(Seq<Tree>),
    TaggedLiteral(Seq<char>, Box<Tree>),
    ReaderCond(bool, Seq<Tree>),
}

impl Span {
    /// What the span holds.
    pub open spec fn view(&self) -> Place {
        Place { file: self.file@, line: self.line, col: self.col }
    }

    pub fn copy(&self) -> (r: Span)
        ensures
            r.view() == self.view(),
    {
        Span { file: self.file.clone(), line: self.line, col: self.col }
    }
}

impl Form {
    /// What the form holds.
    pub open spec fn view(&self) -> Tree
        decreases self,
    {
        Tree { kind: self.kind.view(), span: self.span.view() }
    }

    pub fn new(kind: FormKind, span: Span) -> (r: Form)
        ensures
            r.view() == (Tree { kind: kind.view(), span: span.view() }),
    {
        Form { kind, span }
    }
}

impl FormKind {
    /// What the form holds.
    pub open spec fn view(&self) -> TreeKind
        decreases self,
    {
        match self {
            FormKind::Nil => TreeKind::Nil,
            FormKind::Bool(b) => TreeKind::Bool(*b),
            FormKind::Int(n) => TreeKind::Int(*n),
            FormKind::Float(f) => TreeKind::Float(*f),
            FormKind::Symbolic(f) => TreeKind::Symbolic(*f),
            FormKind::Str(s) => TreeKind::Str(s@),
            FormKind::Char(c) => TreeKind::Char(*c),
            FormKind::BigInt(s) => TreeKind::BigInt(s@),
            FormKind::BigDecimal(s) => TreeKind::BigDecimal(s@),
            FormKind::Ratio(s) => TreeKind::Ratio(s@),
            FormKind::Symbol(s) => TreeKind::Symbol(s@),
            FormKind::Keyword(s) => TreeKind::Keyword(s@),
            FormKind::AutoKeyword(s) => TreeKind::AutoKeyword(s@),
            FormKind::Regex(s) => TreeKind::Regex(s@),
            FormKind::List(c) => TreeKind::Items(
                Bracket::List,
                Seq::new(
                    c@.len(),
                    |i: int| if 0 <= i < c@.len() { c@[i].view() } else { arbitrary() },
                ),
            ),
            FormKind::Vector(c) => TreeKind::Items(
                Bracket::Vector,
                Seq::new(
                    c@.len(),
                    |i: int| if 0 <= i < c@.len() { c@[i].view() } else { arbitrary() },
                ),
            ),
            FormKind::MapLit(c) => TreeKind::Items(
                Bracket::MapLit,
                Seq::new(
                    c@.len(),
                    |i: int| if 0 <= i < c@.len() { c@[i].view() } else { arbitrary() },
                ),
            ),
            FormKind::SetLit(c) => TreeKind::Items(
                Bracket::SetLit,
                Seq::new(
                    c@.len(),
                    |i: int| if 0 <= i < c@.len() { c@[i].view() } else { arbitrary() },
                ),
            ),
            FormKind::Quote(f) => TreeKind::Wrapped(Sugar::Quote, Box::new((*f).view())),
            FormKind::SyntaxQuote(f) => TreeKind::Wrapped(
                Sugar::SyntaxQuote,
                Box::new((*f).view()),
            ),
            FormKind::Unquote(f) => TreeKind::Wrapped(Sugar::Unquote, Box::new((*f).view())),
            FormKind::UnquoteSplice(f) => TreeKind::Wrapped(
                Sugar::UnquoteSplice,
                Box::new((*f).view()),
            ),
            FormKind::Deref(f) => TreeKind::Wrapped(Sugar::Deref, Box::new((*f).view())),
            FormKind::Var(f) => TreeKind::Wrapped(Sugar::Var, Box::new((*f).view())),
            FormKind::Meta(m, f) => TreeKind::Meta(Box::new((*m).view()), Box::new((*f).view())),
            FormKind::AnonFn(c) => TreeKind::AnonFn(
                Seq::new(
                    c@.len(),
                    |i: int| if 0 <= i < c@.len() { c@[i].view() } else { arbitrary() },
                ),
            ),
            FormKind::TaggedLiteral(tag, f) => TreeKind::TaggedLiteral(
                tag@,
                Box::new((*f).view()),
            ),
            FormKind::ReaderCond { splicing, clauses } => TreeKind::ReaderCond(
                *splicing,
                Seq::new(
                    clauses@.len(),
                    |i: int|
                        if 0 <= i < clauses@.len() { clauses@[i].view() } else { arbitrary() },
                ),
            ),
        }
    }
}

/// What each form holds.
pub open spec fn trees(forms: Seq<Form>) -> Seq<Tree> {
    Seq::new(forms.len(), |i: int| forms[i].view())
}

/// The view of a bracketed form is the views of its elements.
pub proof fn lemma_form_views(k: FormKind)
    ensures
        k matches FormKind::List(c) ==> k.view() == TreeKind::Items(Bracket::List, trees(c@)),
        k matches FormKind::Vector(c) ==> k.view() == TreeKind::Items(Bracket::Vector, trees(c@)),
        k matches FormKind::MapLit(c) ==> k.view() == TreeKind::Items(Bracket::MapLit, trees(c@)),
        k matches FormKind::SetLit(c) ==> k.view() == TreeKind::Items(Bracket::SetLit, trees(c@)),
        k matches FormKind::AnonFn(c) ==> k.view() == TreeKind::AnonFn(trees(c@)),
        k matches FormKind::ReaderCond { splicing, clauses } ==> k.view() == TreeKind::ReaderCond(
            splicing,
            trees(clauses@),
        ),
{
    match k {
        FormKind::List(c) => assert(k.view()->Items_1 =~= trees(c@)),
        FormKind::Vector(c) => assert(k.view()->Items_1 =~= trees(c@)),
        FormKind::MapLit(c) => assert(k.view()->Items_1 =~= trees(c@)),
        FormKind::SetLit(c) => assert(k.view()->Items_1 =~= trees(c@)),
        FormKind::AnonFn(c) => assert(k.view()->AnonFn_0 =~= trees(c@)),
        FormKind::ReaderCond { splicing, clauses } => assert(k.view()->ReaderCond_1 =~= trees(
            clauses@,
        )),
        _ => {},
    }
}

/// A copy of a form.
pub fn form_copy(f: &Form) -> (r: Form)
    ensures
        r.view() == f.view(),
    decreases f,
{
    Form { kind: kind_copy(&f.kind), span: f.span.copy() }
}

/// A copy of each form.
pub fn forms_copy(forms: &Vec<Form>) -> (r: Vec<Form>)
    ensures
        trees(r@) == trees(forms@),
    decreases forms,
{
    let mut r: Vec<Form> = Vec::new();
    let mut i: usize = 0;
    while i < forms.len()
        invariant
            i <= forms.len(),
            r@.len() == i,
            forall|j: int| 0 <= j < i ==> (#[trigger] r@[j]).view() == forms@[j].view(),
        decreases forms.len() - i,
    {
        assert(decreases_to!(forms => forms@[i as int]));
        r.push(form_copy(&forms[i]));
        i = i + 1;
    }
    assert(trees(r@) =~= trees(forms@));
    r
}

fn kind_copy(k: &FormKind) -> (r: FormKind)
    ensures
        r.view() == k.view(),
    decreases k,
{
    let r = match k {
        FormKind::Nil => FormKind::Nil,
        FormKind::Bool(b) => FormKind::Bool(*b),
        FormKind::Int(n) => FormKind::Int(*n),
        FormKind::Float(f) => FormKind::Float(*f),
        FormKind::Symbolic(f) => FormKind::Symbolic(*f),
        FormKind::Str(s) => FormKind::Str(s.clone()),
        FormKind::Char(c) => FormKind::Char(*c),
        FormKind::BigInt(s) => FormKind::BigInt(s.clone()),
        FormKind::BigDecimal(s) => FormKind::BigDecimal(s.clone()),
        FormKind::Ratio(s) => FormKind::Ratio(s.clone()),
        FormKind::Symbol(s) => FormKind::Symbol(s.clone()),
        FormKind::Keyword(s) => FormKind::Keyword(s.clone()),
        FormKind::AutoKeyword(s) => FormKind::AutoKeyword(s.clone()),
        FormKind::Regex(s) => FormKind::Regex(s.clone()),
        FormKind::List(c) => FormKind::List(forms_copy(c)),
        FormKind::Vector(c) => FormKind::Vector(forms_copy(c)),
        FormKind::MapLit(c) => FormKind::MapLit(forms_copy(c)),
        FormKind::SetLit(c) => FormKind::SetLit(forms_copy(c)),
        FormKind::Quote(f) => FormKind::Quote(Box::new(form_copy(f))),
        FormKind::SyntaxQuote(f) => FormKind::SyntaxQuote(Box::new(form_copy(f))),
        FormKind::Unquote(f) => FormKind::Unquote(Box::new(form_copy(f))),
        FormKind::UnquoteSplice(f) => FormKind::UnquoteSplice(Box::new(form_copy(f))),
        FormKind::Deref(f) => FormKind::Deref(Box::new(form_copy(f))),
        FormKind::Var(f) => FormKind::Var(Box::new(form_copy(f))),
        FormKind::Meta(m, f) => FormKind::Meta(Box::new(form_copy(m)), Box::new(form_copy(f))),
        FormKind::AnonFn(c) => FormKind::AnonFn(forms_copy(c)),
        FormKind::TaggedLiteral(tag, f) => FormKind::TaggedLiteral(
            tag.clone(),
            Box::new(form_copy(f)),
        ),
        FormKind::ReaderCond { splicing, clauses } => FormKind::ReaderCond {
            splicing: *splicing,
            clauses: forms_copy(clauses),
        },
    };
    proof {
        lemma_form_views(*k);
        lemma_form_views(r);
    }
    r
}

impl Clone for Form {
    fn clone(&self) -> (r: Self)
        ensures
            r.view() == self.view(),
    {
        form_copy(self)
    }
}

} // verus!
