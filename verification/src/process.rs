//! Subprocesses: what a call asks to be run, and what becomes of the child.
//!
//! - `sh` runs a command to completion: leading strings, then keyword options.
//! - `spawn` starts a command vector with an option map and gives a handle.
//! - `wait`, `alive?`, `exit-code` and `destroy` follow the child behind a handle.

use vstd::prelude::*;
use vstd::utf8::*;
use crate::javamap::{referred, tag_of, Native};
use crate::javamap::{Heap, NativeObject};
use crate::text::{push_text, same_text, text_copy};
use crate::value::{kind_of, lemma_views, pair_vals, vals, NameView, Val};
use crate::value::{value_copy, Name, Value};

verus! {

pub const NS: &'static str = "cljrs.process";

// ---------------------------------------------------------------------------
// Values
// ---------------------------------------------------------------------------

/// `(exit, out, err)` of a completed child; `out` and `err` are `None` for inherited streams.
pub type WaitResult = (i32, Option<String>, Option<String>);

/// The keyword of a plain name.
pub open spec fn keyword_val(name: Seq<char>) -> Val {
    Val::Keyword(NameView { namespace: None, name })
}

/// A text, or nil.
pub open spec fn text_or_nil(s: Option<Seq<char>>) -> Val {
    match s {
        Some(s) => Val::Str(s),
        None => Val::Nil,
    }
}

/// The view of an optional text.
pub open spec fn maybe_text(s: Option<String>) -> Option<Seq<char>> {
    match s {
        Some(s) => Some(s@),
        None => None,
    }
}

/// The map that a completed child is reported as.
pub open spec fn report(exit: int, out: Option<Seq<char>>, err: Option<Seq<char>>) -> Val {
    Val::HashMap(
        seq![
            (keyword_val("exit"@), Val::Long(exit as i64)),
            (keyword_val("out"@), text_or_nil(out)),
            (keyword_val("err"@), text_or_nil(err)),
        ],
    )
}

fn kw(name: &str) -> (r: Value)
    ensures
        r.view() == keyword_val(name@),
{
    Value::Keyword(Name::simple(name))
}

fn string_or_nil(s: Option<String>) -> (r: Value)
    ensures
        r.view() == text_or_nil(maybe_text(s)),
{
    match s {
        Some(s) => Value::Str(s),
        None => Value::Nil,
    }
}

/// The map that a completed child is reported as.
pub fn result_map(exit: i32, out: Option<String>, err: Option<String>) -> (r: Value)
    ensures
        r.view() == report(exit as int, maybe_text(out), maybe_text(err)),
{
    let mut entries: Vec<(Value, Value)> = Vec::new();
    entries.push((kw("exit"), Value::Long(exit as i64)));
    entries.push((kw("out"), string_or_nil(out)));
    entries.push((kw("err"), string_or_nil(err)));
    let r = Value::HashMap(entries);
    proof {
        lemma_views(r);
        assert(r.view()->HashMap_0 =~= report(exit as int, maybe_text(out), maybe_text(err))->HashMap_0);
    }
    r
}

/// A message that ends in the type of a value.
fn of_kind(before: &str, middle: &str, v: &Value) -> (r: String)
    ensures
        r@ == before@ + middle@ + kind_of(v.view()),
{
    let mut m = text_copy(before);
    push_text(&mut m, middle);
    push_text(&mut m, v.kind());
    m
}

/// The text of a string value, or what is wrong with the value.
pub open spec fn string_of(v: Val, what: Seq<char>) -> Result<Seq<char>, Seq<char>> {
    match v {
        Val::Str(s) => Ok(s),
        other => Err(what + " must be a string, got "@ + kind_of(other)),
    }
}

/// The text of a string value.
pub fn as_str(v: &Value, what: &str) -> (r: Result<String, String>)
    ensures
        (match r {
            Ok(s) => Ok::<Seq<char>, Seq<char>>(s@),
            Err(e) => Err(e@),
        }) == string_of(v.view(), what@),
{
    match v {
        Value::Str(s) => Ok(s.clone()),
        other => Err(of_kind(what, " must be a string, got ", other)),
    }
}

/// The name of a keyword, without its namespace.
pub open spec fn keyword_text(v: Val) -> Option<Seq<char>> {
    match v {
        Val::Keyword(n) => Some(n.name),
        _ => None,
    }
}

/// The name of a keyword, without its namespace.
pub fn keyword_name(v: &Value) -> (r: Option<String>)
    ensures
        maybe_text(r) == keyword_text(v.view()),
{
    match v {
        Value::Keyword(n) => Some(n.name.clone()),
        _ => None,
    }
}

/// The view of environment variables.
pub open spec fn env_texts(pairs: Seq<(String, String)>) -> Seq<(Seq<char>, Seq<char>)> {
    Seq::new(pairs.len(), |i: int| (pairs[i].0@, pairs[i].1@))
}

/// The name that a map key stands for as an environment variable.
pub open spec fn variable_name(k: Val, what: Seq<char>) -> Result<Seq<char>, Seq<char>> {
    match k {
        Val::Str(s) => Ok(s),
        Val::Keyword(n) => Ok(n.name),
        other => Err(what + " keys must be strings or keywords, got "@ + kind_of(other)),
    }
}

/// The variables of the entries from the `i`-th on, after those in `done`.
pub open spec fn variables_from(
    entries: Seq<(Val, Val)>,
    i: int,
    done: Seq<(Seq<char>, Seq<char>)>,
    what: Seq<char>,
) -> Result<Seq<(Seq<char>, Seq<char>)>, Seq<char>>
    decreases entries.len() - i,
{
    if i < 0 || i >= entries.len() {
        Ok(done)
    } else {
        match (variable_name(entries[i].0, what), string_of(entries[i].1, what)) {
            (Err(e), _) => Err(e),
            (Ok(_), Err(e)) => Err(e),
            (Ok(k), Ok(v)) => variables_from(entries, i + 1, done.push((k, v)), what),
        }
    }
}

/// The environment variables of a map, or what is wrong with the value.
pub open spec fn variables_of(v: Val, what: Seq<char>) -> Result<
    Seq<(Seq<char>, Seq<char>)>,
    Seq<char>,
> {
    match v {
        Val::HashMap(entries) => variables_from(entries, 0, Seq::empty(), what),
        other => Err(what + " must be a map, got "@ + kind_of(other)),
    }
}

/// The view of environment variables or an error.
pub open spec fn env_view(r: Result<Vec<(String, String)>, String>) -> Result<
    Seq<(Seq<char>, Seq<char>)>,
    Seq<char>,
> {
    match r {
        Ok(pairs) => Ok(env_texts(pairs@)),
        Err(e) => Err(e@),
    }
}

/// The environment variables of a map.
pub fn env_pairs(v: &Value, what: &str) -> (r: Result<Vec<(String, String)>, String>)
    ensures
        env_view(r) == variables_of(v.view(), what@),
{
    proof {
        lemma_views(*v);
    }
    match v {
        Value::HashMap(entries) => {
            let ghost all = pair_vals(entries@);
            let mut pairs: Vec<(String, String)> = Vec::new();
            assert(env_texts(pairs@) =~= Seq::empty());
            let mut i: usize = 0;
            while i < entries.len()
                invariant
                    i <= entries@.len(),
                    all == pair_vals(entries@),
                    v.view() == Val::HashMap(all),
                    variables_of(v.view(), what@) == variables_from(
                        all,
                        i as int,
                        env_texts(pairs@),
                        what@,
                    ),
                decreases entries@.len() - i,
            {
                let entry = &entries[i];
                assert(all[i as int] == (entry.0.view(), entry.1.view()));
                let key = match &entry.0 {
                    Value::Str(s) => s.clone(),
                    Value::Keyword(n) => n.name.clone(),
                    other => {
                        return Err(of_kind(what, " keys must be strings or keywords, got ", other));
                    },
                };
                let text = match as_str(&entry.1, what) {
                    Ok(t) => t,
                    Err(e) => {
                        return Err(e);
                    },
                };
                let ghost before = env_texts(pairs@);
                let ghost added = (key@, text@);
                pairs.push((key, text));
                assert(env_texts(pairs@) =~= before.push(added));
                i = i + 1;
            }
            Ok(pairs)
        },
        other => Err(of_kind(what, " must be a map, got ", other)),
    }
}

// ---------------------------------------------------------------------------
// Options
// ---------------------------------------------------------------------------

/// What a child reads as its standard input.
#[derive(Debug)]
pub enum StdinSpec {
    Null,
    Inherit,
    Pipe(String),
}

/// How a child is started.
#[derive(Debug)]
pub struct SpawnOpts {
    pub dir: Option<String>,
    /// The whole environment, in place of the parent's.
    pub env: Option<Vec<(String, String)>>,
    /// Variables set on top of the environment.
    pub extra_env: Vec<(String, String)>,
    pub stdin: StdinSpec,
    pub out_inherit: bool,
    pub err_inherit: bool,
}

/// What a [`StdinSpec`] holds.
pub enum Input {
    Null,
    Inherit,
    Pipe(Seq<char>),
}

/// What a [`SpawnOpts`] holds.
pub struct Options {
    pub dir: Option<Seq<char>>,
    pub env: Option<Seq<(Seq<char>, Seq<char>)>>,
    pub extra_env: Seq<(Seq<char>, Seq<char>)>,
    pub stdin: Input,
    pub out_inherit: bool,
    pub err_inherit: bool,
}

impl StdinSpec {
    pub open spec fn view(&self) -> Input {
        match self {
            StdinSpec::Null => Input::Null,
            StdinSpec::Inherit => Input::Inherit,
            StdinSpec::Pipe(s) => Input::Pipe(s@),
        }
    }
}

impl SpawnOpts {
    pub open spec fn view(&self) -> Options {
        Options {
            dir: maybe_text(self.dir),
            env: match self.env {
                Some(pairs) => Some(env_texts(pairs@)),
                None => None,
            },
            extra_env: env_texts(self.extra_env@),
            stdin: self.stdin.view(),
            out_inherit: self.out_inherit,
            err_inherit: self.err_inherit,
        }
    }

    /// No input, piped output, the parent's directory and environment.
    pub fn new() -> (r: SpawnOpts)
        ensures
            r.view() == plain_options(),
    {
        let r = SpawnOpts {
            dir: None,
            env: None,
            extra_env: Vec::new(),
            stdin: StdinSpec::Null,
            out_inherit: false,
            err_inherit: false,
        };
        assert(env_texts(r.extra_env@) =~= Seq::empty());
        r
    }
}

/// No input, piped output, the parent's directory and environment.
pub open spec fn plain_options() -> Options {
    Options {
        dir: None,
        env: None,
        extra_env: Seq::empty(),
        stdin: Input::Null,
        out_inherit: false,
        err_inherit: false,
    }
}

/// What `:in` asks for.
pub open spec fn input_of(v: Val) -> Result<Input, Seq<char>> {
    match v {
        Val::Str(s) => Ok(Input::Pipe(s)),
        other => if keyword_text(other) == Some("inherit"@) {
            Ok(Input::Inherit)
        } else {
            Err(":in must be a string or :inherit, got "@ + kind_of(other))
        },
    }
}

/// The options with the directory or the environment that an option sets; `None` for a name that
/// sets neither.
pub open spec fn place_set(opts: Options, name: Seq<char>, v: Val) -> Option<
    Result<Options, Seq<char>>,
> {
    if name == "dir"@ {
        Some(
            match string_of(v, ":dir"@) {
                Ok(s) => Ok(Options { dir: Some(s), ..opts }),
                Err(e) => Err(e),
            },
        )
    } else if name == "env"@ {
        Some(
            match variables_of(v, ":env"@) {
                Ok(p) => Ok(Options { env: Some(p), ..opts }),
                Err(e) => Err(e),
            },
        )
    } else if name == "extra-env"@ {
        Some(
            match variables_of(v, ":extra-env"@) {
                Ok(p) => Ok(Options { extra_env: p, ..opts }),
                Err(e) => Err(e),
            },
        )
    } else {
        None
    }
}

/// The options after one entry of an option map.
pub open spec fn option_set(opts: Options, name: Seq<char>, v: Val) -> Result<Options, Seq<char>> {
    match place_set(opts, name, v) {
        Some(r) => r,
        None => if name == "in"@ {
            match input_of(v) {
                Ok(i) => Ok(Options { stdin: i, ..opts }),
                Err(e) => Err(e),
            }
        } else if name == "out"@ {
            Ok(Options { out_inherit: keyword_text(v) == Some("inherit"@), ..opts })
        } else if name == "err"@ {
            Ok(Options { err_inherit: keyword_text(v) == Some("inherit"@), ..opts })
        } else {
            Err("unknown option :"@ + name)
        },
    }
}

/// The options after one keyword option of `sh`.
pub open spec fn sh_option_set(opts: Options, name: Seq<char>, v: Val) -> Result<
    Options,
    Seq<char>,
> {
    match place_set(opts, name, v) {
        Some(r) => r,
        None => if name == "in"@ {
            match string_of(v, ":in"@) {
                Ok(s) => Ok(Options { stdin: Input::Pipe(s), ..opts }),
                Err(e) => Err(e),
            }
        } else {
            Err("unknown sh option :"@ + name)
        },
    }
}

/// The options of the entries of an option map from the `i`-th on.
pub open spec fn options_from(entries: Seq<(Val, Val)>, i: int, opts: Options) -> Result<
    Options,
    Seq<char>,
>
    decreases entries.len() - i,
{
    if i < 0 || i >= entries.len() {
        Ok(opts)
    } else {
        match keyword_text(entries[i].0) {
            None => Err("option keys must be keywords, got "@ + kind_of(entries[i].0)),
            Some(name) => match option_set(opts, name, entries[i].1) {
                Err(e) => Err(e),
                Ok(next) => options_from(entries, i + 1, next),
            },
        }
    }
}

/// The options of an option map, or what is wrong with the value.
pub open spec fn options_of(v: Val) -> Result<Options, Seq<char>> {
    match v {
        Val::HashMap(entries) => options_from(entries, 0, plain_options()),
        other => Err("options must be a map, got "@ + kind_of(other)),
    }
}

/// The view of options or an error.
pub open spec fn opts_view(r: Result<SpawnOpts, String>) -> Result<Options, Seq<char>> {
    match r {
        Ok(o) => Ok(o.view()),
        Err(e) => Err(e@),
    }
}

fn set_place(opts: SpawnOpts, name: &str, v: &Value) -> (r: Result<SpawnOpts, String>)
    requires
        place_set(opts.view(), name@, v.view()) is Some,
    ensures
        Some(opts_view(r)) == place_set(opts.view(), name@, v.view()),
{
    let mut opts = opts;
    if same_text(name, "dir") {
        match as_str(v, ":dir") {
            Ok(s) => {
                opts.dir = Some(s);
                Ok(opts)
            },
            Err(e) => Err(e),
        }
    } else if same_text(name, "env") {
        match env_pairs(v, ":env") {
            Ok(p) => {
                opts.env = Some(p);
                Ok(opts)
            },
            Err(e) => Err(e),
        }
    } else {
        match env_pairs(v, ":extra-env") {
            Ok(p) => {
                opts.extra_env = p;
                Ok(opts)
            },
            Err(e) => Err(e),
        }
    }
}

fn is_place(name: &str) -> (r: bool)
    ensures
        forall|o: Options, v: Val| r == (#[trigger] place_set(o, name@, v) is Some),
{
    same_text(name, "dir") || same_text(name, "env") || same_text(name, "extra-env")
}

fn with_detail(message: &str, name: &str) -> (r: String)
    ensures
        r@ == message@ + name@,
{
    let mut m = text_copy(message);
    push_text(&mut m, name);
    m
}

fn inherits(v: &Value) -> (r: bool)
    ensures
        r == (keyword_text(v.view()) == Some("inherit"@)),
{
    match v {
        Value::Keyword(n) => same_text(n.name.as_str(), "inherit"),
        _ => false,
    }
}

fn set_option(opts: SpawnOpts, name: &str, v: &Value) -> (r: Result<SpawnOpts, String>)
    ensures
        opts_view(r) == option_set(opts.view(), name@, v.view()),
{
    if is_place(name) {
        return set_place(opts, name, v);
    }
    let mut opts = opts;
    if same_text(name, "in") {
        if let Value::Str(s) = v {
            opts.stdin = StdinSpec::Pipe(s.clone());
            return Ok(opts);
        }
        if inherits(v) {
            opts.stdin = StdinSpec::Inherit;
            return Ok(opts);
        }
        Err(with_detail(":in must be a string or :inherit, got ", v.kind()))
    } else if same_text(name, "out") {
        opts.out_inherit = inherits(v);
        Ok(opts)
    } else if same_text(name, "err") {
        opts.err_inherit = inherits(v);
        Ok(opts)
    } else {
        Err(with_detail("unknown option :", name))
    }
}

fn set_sh_option(opts: SpawnOpts, name: &str, v: &Value) -> (r: Result<SpawnOpts, String>)
    ensures
        opts_view(r) == sh_option_set(opts.view(), name@, v.view()),
{
    if is_place(name) {
        return set_place(opts, name, v);
    }
    let mut opts = opts;
    if same_text(name, "in") {
        match as_str(v, ":in") {
            Ok(s) => {
                opts.stdin = StdinSpec::Pipe(s);
                Ok(opts)
            },
            Err(e) => Err(e),
        }
    } else {
        Err(with_detail("unknown sh option :", name))
    }
}

/// The options of an option map.
pub fn parse_opts_map(v: &Value) -> (r: Result<SpawnOpts, String>)
    ensures
        opts_view(r) == options_of(v.view()),
{
    proof {
        lemma_views(*v);
    }
    match v {
        Value::HashMap(entries) => {
            let ghost all = pair_vals(entries@);
            let mut opts = SpawnOpts::new();
            let mut i: usize = 0;
            while i < entries.len()
                invariant
                    i <= entries@.len(),
                    all == pair_vals(entries@),
                    options_of(v.view()) == options_from(all, i as int, opts.view()),
                decreases entries@.len() - i,
            {
                let entry = &entries[i];
                assert(all[i as int] == (entry.0.view(), entry.1.view()));
                let name = match keyword_name(&entry.0) {
                    Some(n) => n,
                    None => {
                        return Err(with_detail("option keys must be keywords, got ", entry.0.kind()));
                    },
                };
                match set_option(opts, name.as_str(), &entry.1) {
                    Ok(next) => {
                        opts = next;
                    },
                    Err(e) => {
                        return Err(e);
                    },
                }
                i = i + 1;
            }
            Ok(opts)
        },
        other => Err(with_detail("options must be a map, got ", other.kind())),
    }
}

// ---------------------------------------------------------------------------
// Requests
// ---------------------------------------------------------------------------

/// A command and how it is started.
#[derive(Debug)]
pub struct SpawnRequest {
    pub argv: Vec<String>,
    pub opts: SpawnOpts,
}

/// What a [`SpawnRequest`] holds.
pub struct Started {
    pub argv: Seq<Seq<char>>,
    pub opts: Options,
}

/// The view of words.
pub open spec fn word_texts(words: Seq<String>) -> Seq<Seq<char>> {
    Seq::new(words.len(), |i: int| words[i]@)
}

impl SpawnRequest {
    pub open spec fn view(&self) -> Started {
        Started { argv: word_texts(self.argv@), opts: self.opts.view() }
    }
}

/// The view of a request or an error.
pub open spec fn request_view(r: Result<SpawnRequest, String>) -> Result<Started, Seq<char>> {
    match r {
        Ok(q) => Ok(q.view()),
        Err(e) => Err(e@),
    }
}

/// How many of the values are strings before the first that is not.
pub open spec fn leading_strings(args: Seq<Val>) -> nat
    decreases args.len(),
{
    if args.len() > 0 && args[0] is Str {
        1 + leading_strings(args.skip(1))
    } else {
        0
    }
}

/// The texts of the first `n` values.
pub open spec fn command_words(args: Seq<Val>, n: nat) -> Seq<Seq<char>> {
    Seq::new(n, |i: int| args[i]->Str_0)
}

/// The position of an option.
pub open spec fn option_position(given: Seq<(Seq<char>, Val)>, name: Seq<char>) -> Option<int>
    decreases given.len(),
{
    if given.len() == 0 {
        None
    } else if given.last().0 == name {
        Some(given.len() - 1)
    } else {
        option_position(given.drop_last(), name)
    }
}

/// The options with one set: a name given before takes the new value.
pub open spec fn with_option(given: Seq<(Seq<char>, Val)>, name: Seq<char>, v: Val) -> Seq<
    (Seq<char>, Val),
> {
    match option_position(given, name) {
        Some(p) => given.update(p, (name, v)),
        None => given.push((name, v)),
    }
}

/// The keyword options from the `i`-th value on, after those in `given`.
pub open spec fn options_given(args: Seq<Val>, i: int, given: Seq<(Seq<char>, Val)>) -> Result<
    Seq<(Seq<char>, Val)>,
    Seq<char>,
>
    decreases args.len() - i,
{
    if i < 0 || i >= args.len() {
        Ok(given)
    } else {
        match keyword_text(args[i]) {
            None => Err("sh options must be keyword/value pairs, got "@ + kind_of(args[i])),
            Some(name) => if i + 1 >= args.len() {
                Err("sh option :"@ + name + " is missing a value"@)
            } else {
                options_given(args, i + 2, with_option(given, name, args[i + 1]))
            },
        }
    }
}

/// The options after the given ones from the `i`-th on.
pub open spec fn sh_options(given: Seq<(Seq<char>, Val)>, i: int, opts: Options) -> Result<
    Options,
    Seq<char>,
>
    decreases given.len() - i,
{
    if i < 0 || i >= given.len() {
        Ok(opts)
    } else {
        match sh_option_set(opts, given[i].0, given[i].1) {
            Err(e) => Err(e),
            Ok(next) => sh_options(given, i + 1, next),
        }
    }
}

/// What a call of `sh` asks to be run, or what is wrong with its arguments.
pub open spec fn sh_asked(args: Seq<Val>) -> Result<Started, Seq<char>> {
    let n = leading_strings(args);
    if n == 0 {
        Err("sh needs at least one command string"@)
    } else {
        match options_given(args, n as int, Seq::empty()) {
            Err(e) => Err(e),
            Ok(given) => match sh_options(given, 0, plain_options()) {
                Err(e) => Err(e),
                Ok(opts) => Ok(Started { argv: command_words(args, n), opts }),
            },
        }
    }
}

/// The view of options as given.
pub open spec fn given_vals(given: Seq<(String, Value)>) -> Seq<(Seq<char>, Val)> {
    Seq::new(given.len(), |i: int| (given[i].0@, given[i].1.view()))
}

fn give_option(given: &mut Vec<(String, Value)>, name: String, v: Value)
    ensures
        given_vals(final(given)@) == with_option(given_vals(old(given)@), name@, v.view()),
{
    let ghost all = given_vals(given@);
    let mut i: usize = given.len();
    assert(all.take(i as int) =~= all);
    while i > 0
        invariant
            i <= given@.len(),
            given@ == old(given)@,
            all == given_vals(given@),
            option_position(all, name@) == option_position(all.take(i as int), name@),
        decreases i,
    {
        assert(all.take(i as int).drop_last() =~= all.take(i - 1));
        assert(all.take(i as int).last() == all[i - 1]);
        if same_text(given[i - 1].0.as_str(), name.as_str()) {
            let ghost added = (name@, v.view());
            given.set(i - 1, (name, v));
            assert(given_vals(given@) =~= all.update(i - 1, added));
            return;
        }
        i = i - 1;
    }
    let ghost added = (name@, v.view());
    given.push((name, v));
    assert(given_vals(given@) =~= all.push(added));
}

fn given_options(args: &[Value], from: usize) -> (r: Result<Vec<(String, Value)>, String>)
    ensures
        (match r {
            Ok(g) => Ok::<Seq<(Seq<char>, Val)>, Seq<char>>(given_vals(g@)),
            Err(e) => Err(e@),
        }) == options_given(vals(args@), from as int, Seq::empty()),
{
    let ghost all = vals(args@);
    let mut given: Vec<(String, Value)> = Vec::new();
    assert(given_vals(given@) =~= Seq::empty());
    let mut i: usize = from;
    while i < args.len()
        invariant
            from <= i,
            all == vals(args@),
            options_given(all, from as int, Seq::empty()) == options_given(
                all,
                i as int,
                given_vals(given@),
            ),
        decreases args@.len() - i,
    {
        assert(all[i as int] == args@[i as int].view());
        let name = match keyword_name(&args[i]) {
            Some(n) => n,
            None => {
                return Err(with_detail("sh options must be keyword/value pairs, got ", args[i].kind()));
            },
        };
        let last: usize = args.len() - 1;
        if i == last {
            let mut m = with_detail("sh option :", name.as_str());
            push_text(&mut m, " is missing a value");
            return Err(m);
        }
        assert(all[i + 1] == args@[i + 1].view());
        let v = value_copy(&args[i + 1]);
        let ghost before = given_vals(given@);
        give_option(&mut given, name, v);
        if i + 1 == last {
            assert(options_given(all, i + 2, given_vals(given@)) == Ok::<
                Seq<(Seq<char>, Val)>,
                Seq<char>,
            >(given_vals(given@)));
            return Ok(given);
        }
        i = i + 2;
    }
    Ok(given)
}

proof fn lemma_leading(args: Seq<Val>, k: int)
    requires
        0 <= k <= args.len(),
        forall|i: int| 0 <= i < k ==> #[trigger] args[i] is Str,
        k == args.len() || !(args[k] is Str),
    ensures
        leading_strings(args) == k,
    decreases args.len(),
{
    if k > 0 {
        assert(args[0] is Str);
        let rest = args.skip(1);
        assert forall|i: int| 0 <= i < k - 1 implies #[trigger] rest[i] is Str by {
            assert(args[i + 1] is Str);
        }
        lemma_leading(rest, k - 1);
    }
}

/// Take apart a call of `sh`: leading strings, then keyword options.
pub fn sh_request(args: &[Value]) -> (r: Result<SpawnRequest, String>)
    ensures
        request_view(r) == sh_asked(vals(args@)),
{
    let ghost all = vals(args@);
    let mut argv: Vec<String> = Vec::new();
    let mut i: usize = 0;
    let mut more = true;
    while more && i < args.len()
        invariant
            i <= args@.len(),
            all == vals(args@),
            argv@.len() == i,
            forall|j: int| 0 <= j < i ==> #[trigger] all[j] is Str && argv@[j]@ == all[j]->Str_0,
            !more ==> i < args@.len() && !(all[i as int] is Str),
        decreases
            args@.len() - i,
            if more {
                1int
            } else {
                0int
            },
    {
        assert(all[i as int] == args@[i as int].view());
        match &args[i] {
            Value::Str(s) => {
                argv.push(s.clone());
                i = i + 1;
            },
            _ => {
                more = false;
            },
        }
    }
    proof {
        lemma_leading(all, i as int);
        assert(word_texts(argv@) =~= command_words(all, i as nat));
    }
    if argv.len() == 0 {
        return Err(text_copy("sh needs at least one command string"));
    }
    let given = match given_options(args, i) {
        Ok(g) => g,
        Err(e) => {
            return Err(e);
        },
    };
    let ghost pairs = given_vals(given@);
    let mut opts = SpawnOpts::new();
    let mut k: usize = 0;
    while k < given.len()
        invariant
            k <= given@.len(),
            all == vals(args@),
            pairs == given_vals(given@),
            leading_strings(all) > 0,
            options_given(all, leading_strings(all) as int, Seq::empty()) == Ok::<
                Seq<(Seq<char>, Val)>,
                Seq<char>,
            >(pairs),
            sh_options(pairs, 0, plain_options()) == sh_options(pairs, k as int, opts.view()),
        decreases given@.len() - k,
    {
        assert(pairs[k as int] == (given@[k as int].0@, given@[k as int].1.view()));
        match set_sh_option(opts, given[k].0.as_str(), &given[k].1) {
            Ok(next) => {
                opts = next;
            },
            Err(e) => {
                return Err(e);
            },
        }
        k = k + 1;
    }
    Ok(SpawnRequest { argv, opts })
}

/// The texts of the values of a command vector, or what is wrong with the first that is none.
pub open spec fn words_from(items: Seq<Val>, i: int, done: Seq<Seq<char>>) -> Result<
    Seq<Seq<char>>,
    Seq<char>,
>
    decreases items.len() - i,
{
    if i < 0 || i >= items.len() {
        Ok(done)
    } else {
        match string_of(items[i], "command element"@) {
            Err(e) => Err(e),
            Ok(s) => words_from(items, i + 1, done.push(s)),
        }
    }
}

/// The command that a value stands for.
pub open spec fn command_of(v: Val) -> Result<Seq<Seq<char>>, Seq<char>> {
    match v {
        Val::Vector(items) => words_from(items, 0, Seq::empty()),
        Val::Str(s) => Ok(seq![s]),
        other => Err("spawn expects a command vector or string, got "@ + kind_of(other)),
    }
}

/// What a call of `spawn` asks to be started, or what is wrong with its arguments.
pub open spec fn spawn_asked(args: Seq<Val>) -> Result<Started, Seq<char>> {
    match command_of(args[0]) {
        Err(e) => Err(e),
        Ok(argv) => if args.len() > 1 {
            match options_of(args[1]) {
                Err(e) => Err(e),
                Ok(opts) => Ok(Started { argv, opts }),
            }
        } else {
            Ok(Started { argv, opts: plain_options() })
        },
    }
}

fn command(v: &Value) -> (r: Result<Vec<String>, String>)
    ensures
        (match r {
            Ok(w) => Ok::<Seq<Seq<char>>, Seq<char>>(word_texts(w@)),
            Err(e) => Err(e@),
        }) == command_of(v.view()),
{
    proof {
        lemma_views(*v);
    }
    let mut argv: Vec<String> = Vec::new();
    assert(word_texts(argv@) =~= Seq::empty());
    match v {
        Value::Vector(items) => {
            let ghost all = vals(items@);
            let mut i: usize = 0;
            while i < items.len()
                invariant
                    i <= items@.len(),
                    all == vals(items@),
                    command_of(v.view()) == words_from(all, i as int, word_texts(argv@)),
                decreases items@.len() - i,
            {
                assert(all[i as int] == items@[i as int].view());
                match as_str(&items[i], "command element") {
                    Ok(s) => {
                        let ghost before = word_texts(argv@);
                        let ghost added = s@;
                        argv.push(s);
                        assert(word_texts(argv@) =~= before.push(added));
                    },
                    Err(e) => {
                        return Err(e);
                    },
                }
                i = i + 1;
            }
            Ok(argv)
        },
        Value::Str(s) => {
            argv.push(s.clone());
            assert(word_texts(argv@) =~= seq![s@]);
            Ok(argv)
        },
        other => Err(with_detail("spawn expects a command vector or string, got ", other.kind())),
    }
}

/// Take apart a call of `spawn`: a command, then an option map.
pub fn spawn_request(args: &[Value]) -> (r: Result<SpawnRequest, String>)
    requires
        args@.len() >= 1,
    ensures
        request_view(r) == spawn_asked(vals(args@)),
{
    let ghost all = vals(args@);
    assert(all[0] == args@[0].view());
    let argv = match command(&args[0]) {
        Ok(a) => a,
        Err(e) => {
            return Err(e);
        },
    };
    if args.len() > 1 {
        assert(all[1] == args@[1].view());
        match parse_opts_map(&args[1]) {
            Ok(opts) => Ok(SpawnRequest { argv, opts }),
            Err(e) => Err(e),
        }
    } else {
        Ok(SpawnRequest { argv, opts: SpawnOpts::new() })
    }
}

// ---------------------------------------------------------------------------
// Starting a child
// ---------------------------------------------------------------------------

/// A command ready to be started.
#[derive(Debug)]
pub struct CommandPlan {
    pub program: String,
    pub args: Vec<String>,
    pub dir: Option<String>,
    /// Start from an empty environment.
    pub clear_env: bool,
    /// The variables to set, in order.
    pub envs: Vec<(String, String)>,
}

/// What a [`CommandPlan`] holds.
pub struct Plan {
    pub program: Seq<char>,
    pub args: Seq<Seq<char>>,
    pub dir: Option<Seq<char>>,
    pub clear_env: bool,
    pub envs: Seq<(Seq<char>, Seq<char>)>,
}

impl CommandPlan {
    pub open spec fn view(&self) -> Plan {
        Plan {
            program: self.program@,
            args: word_texts(self.args@),
            dir: maybe_text(self.dir),
            clear_env: self.clear_env,
            envs: env_texts(self.envs@),
        }
    }
}

/// The command that a request comes to: a replaced environment first, then what is set on top.
pub open spec fn planned(argv: Seq<Seq<char>>, opts: Options) -> Result<Plan, Seq<char>> {
    if argv.len() == 0 {
        Err("empty command"@)
    } else {
        Ok(
            Plan {
                program: argv[0],
                args: argv.skip(1),
                dir: opts.dir,
                clear_env: opts.env is Some,
                envs: (match opts.env {
                    Some(p) => p,
                    None => Seq::empty(),
                }) + opts.extra_env,
            },
        )
    }
}

fn push_env(out: &mut Vec<(String, String)>, more: &Vec<(String, String)>)
    ensures
        env_texts(final(out)@) == env_texts(old(out)@) + env_texts(more@),
{
    let ghost before = env_texts(out@);
    assert(before + env_texts(more@).take(0) =~= before);
    for i in 0..more.len()
        invariant
            env_texts(out@) == before + env_texts(more@).take(i as int),
    {
        let ghost step = env_texts(out@);
        let pair = (more[i].0.clone(), more[i].1.clone());
        out.push(pair);
        assert(env_texts(out@) =~= step.push(env_texts(more@)[i as int]));
        assert(env_texts(more@).take(i + 1) =~= env_texts(more@).take(i as int).push(
            env_texts(more@)[i as int],
        ));
        assert(env_texts(out@) =~= before + env_texts(more@).take(i + 1));
    }
    assert(env_texts(more@).take(more@.len() as int) =~= env_texts(more@));
}

/// The command that a request comes to.
pub fn build_command(argv: &Vec<String>, opts: &SpawnOpts) -> (r: Result<CommandPlan, String>)
    ensures
        (match r {
            Ok(p) => Ok::<Plan, Seq<char>>(p.view()),
            Err(e) => Err(e@),
        }) == planned(word_texts(argv@), opts.view()),
{
    if argv.len() == 0 {
        return Err(text_copy("empty command"));
    }
    let ghost words = word_texts(argv@);
    let mut args: Vec<String> = Vec::new();
    for i in 1..argv.len()
        invariant
            words == word_texts(argv@),
            args@.len() == i - 1,
            forall|j: int| 0 <= j < i - 1 ==> #[trigger] args@[j]@ == words[j + 1],
    {
        args.push(argv[i].clone());
    }
    assert(word_texts(args@) =~= words.skip(1));
    let mut envs: Vec<(String, String)> = Vec::new();
    assert(env_texts(envs@) =~= Seq::empty());
    let clear_env = match &opts.env {
        Some(pairs) => {
            push_env(&mut envs, pairs);
            assert(env_texts(envs@) =~= env_texts(pairs@));
            true
        },
        None => false,
    };
    push_env(&mut envs, &opts.extra_env);
    let dir = match &opts.dir {
        Some(d) => Some(d.clone()),
        None => None,
    };
    Ok(CommandPlan { program: argv[0].clone(), args, dir, clear_env, envs })
}

// ---------------------------------------------------------------------------
// The child behind a handle
// ---------------------------------------------------------------------------

/// The words, with a space between.
pub open spec fn joined(words: Seq<Seq<char>>) -> Seq<char>
    decreases words.len(),
{
    if words.len() == 0 {
        Seq::empty()
    } else if words.len() == 1 {
        words[0]
    } else {
        joined(words.drop_last()) + " "@ + words.last()
    }
}

/// A child process as its handle knows it.
#[derive(Debug)]
pub struct ChildProcess {
    pub cmd: String,
    /// The child has not been waited for.
    pub held: bool,
    pub out_inherit: bool,
    pub err_inherit: bool,
    /// How it ended, once it was waited for.
    pub result: Option<WaitResult>,
}

/// What a [`ChildProcess`] holds.
pub struct Child {
    pub cmd: Seq<char>,
    pub held: bool,
    pub out_inherit: bool,
    pub err_inherit: bool,
    pub result: Option<(i32, Option<Seq<char>>, Option<Seq<char>>)>,
}

/// The view of a result.
pub open spec fn wait_view(r: WaitResult) -> (i32, Option<Seq<char>>, Option<Seq<char>>) {
    (r.0, maybe_text(r.1), maybe_text(r.2))
}

/// What is to be done to wait for a child.
#[derive(Debug)]
pub enum WaitStep {
    /// It was waited for before.
    Done(WaitResult),
    /// Wait for it now.
    Wait,
}

/// What waiting for a child comes to, before the child is looked at.
pub open spec fn wait_asked(c: Child) -> Result<
    Option<(i32, Option<Seq<char>>, Option<Seq<char>>)>,
    Seq<char>,
> {
    match c.result {
        Some(r) => Ok(Some(r)),
        None => if c.held {
            Ok(None)
        } else {
            Err("process is being waited on concurrently"@)
        },
    }
}

fn copy_text(s: &Option<String>) -> (r: Option<String>)
    ensures
        maybe_text(r) == maybe_text(*s),
{
    match s {
        Some(t) => Some(t.clone()),
        None => None,
    }
}

/// The text that bytes stand for, with what is not UTF-8 replaced.
pub uninterp spec fn lossy_utf8(bytes: Seq<u8>) -> Seq<char>;

/// `String::from_utf8_lossy`: the text that valid UTF-8 encodes; in other bytes, each invalid
/// sequence is replaced.
#[verifier::external_body]
pub(crate) fn lossy_text(bytes: &[u8]) -> (r: String)
    ensures
        r@ == lossy_utf8(bytes@),
        valid_utf8(bytes@) ==> r@ == decode_utf8(bytes@),
{
    String::from_utf8_lossy(bytes).into_owned()
}

/// What a stream of a completed child is reported as.
pub open spec fn captured(inherited: bool, text: Seq<char>) -> Option<Seq<char>> {
    if inherited {
        None
    } else {
        Some(text)
    }
}

impl ChildProcess {
    pub open spec fn view(&self) -> Child {
        Child {
            cmd: self.cmd@,
            held: self.held,
            out_inherit: self.out_inherit,
            err_inherit: self.err_inherit,
            result: match self.result {
                Some(r) => Some(wait_view(r)),
                None => None,
            },
        }
    }

    /// The handle of a child just started.
    pub fn started(request: &SpawnRequest) -> (r: ChildProcess)
        ensures
            r.view() == (Child {
                cmd: joined(request.view().argv),
                held: true,
                out_inherit: request.view().opts.out_inherit,
                err_inherit: request.view().opts.err_inherit,
                result: None,
            }),
    {
        let ghost words = word_texts(request.argv@);
        let mut cmd = String::new();
        proof {
            assert(words.take(0) =~= Seq::empty());
            assert(cmd@ =~= Seq::empty());
        }
        for i in 0..request.argv.len()
            invariant
                words == word_texts(request.argv@),
                cmd@ == joined(words.take(i as int)),
        {
            assert(words.take(i + 1).drop_last() =~= words.take(i as int));
            assert(words.take(i + 1).last() == request.argv@[i as int]@);
            if i > 0 {
                push_text(&mut cmd, " ");
            } else {
                assert(joined(words.take(1)) == words[0]);
                assert(Seq::<char>::empty() + words[0] =~= words[0]);
            }
            push_text(&mut cmd, request.argv[i].as_str());
        }
        assert(words.take(words.len() as int) =~= words);
        ChildProcess {
            cmd,
            held: true,
            out_inherit: request.opts.out_inherit,
            err_inherit: request.opts.err_inherit,
            result: None,
        }
    }

    /// What is to be done to wait for the child. A child to wait for is held no longer.
    pub fn wait_step(&mut self) -> (r: Result<WaitStep, String>)
        ensures
            match (wait_asked(old(self).view()), r) {
                (Ok(Some(seen)), Ok(WaitStep::Done(w))) => wait_view(w) == seen
                    && final(self).view() == old(self).view(),
                (Ok(None), Ok(WaitStep::Wait)) => final(self).view() == (Child {
                    held: false,
                    ..old(self).view()
                }),
                (Err(m), Err(e)) => e@ == m && final(self).view() == old(self).view(),
                _ => false,
            },
    {
        if let Some(w) = &self.result {
            return Ok(WaitStep::Done((w.0, copy_text(&w.1), copy_text(&w.2))));
        }
        if self.held {
            self.held = false;
            return Ok(WaitStep::Wait);
        }
        Err(text_copy("process is being waited on concurrently"))
    }

    /// Note how the child ended: its exit code, if it has one, and what it wrote.
    pub fn ended(&mut self, code: Option<i32>, out: &[u8], err: &[u8]) -> (r: WaitResult)
        ensures
            wait_view(r) == (
                (match code {
                    Some(c) => c,
                    None => -1i32,
                }),
                captured(old(self).view().out_inherit, lossy_utf8(out@)),
                captured(old(self).view().err_inherit, lossy_utf8(err@)),
            ),
            final(self).view() == (Child { result: Some(wait_view(r)), ..old(self).view() }),
    {
        let exit: i32 = match code {
            Some(c) => c,
            None => -1,
        };
        let out_text = if self.out_inherit {
            None
        } else {
            Some(lossy_text(out))
        };
        let err_text = if self.err_inherit {
            None
        } else {
            Some(lossy_text(err))
        };
        self.result = Some((exit, copy_text(&out_text), copy_text(&err_text)));
        (exit, out_text, err_text)
    }

    /// Whether the child runs, by what looking at it gave: its exit, nothing yet, or an error.
    pub fn alive(&self, polled: Result<Option<Option<i32>>, String>) -> (r: Result<Value, String>)
        ensures
            match (r, polled) {
                (Ok(v), Ok(seen)) => v.view() == Val::Bool(self.view().held && seen is None),
                (Ok(v), Err(_)) => !self.view().held && v.view() == Val::Bool(false),
                (Err(e), Err(m)) => self.view().held && e@ == "try_wait failed: "@ + m@,
                (Err(_), Ok(_)) => false,
            },
    {
        if !self.held {
            return Ok(Value::Bool(false));
        }
        match polled {
            Ok(seen) => Ok(Value::Bool(seen.is_none())),
            Err(m) => Err(with_detail("try_wait failed: ", m.as_str())),
        }
    }

    /// The child's exit code, or nil while it runs, by what looking at it gave.
    pub fn exit_code(&self, polled: Result<Option<Option<i32>>, String>) -> (r: Result<
        Value,
        String,
    >)
        ensures
            match self.view().result {
                Some(w) => r is Ok && r->Ok_0.view() == Val::Long(w.0 as i64),
                None => if !self.view().held {
                    r is Ok && r->Ok_0.view() == Val::Nil
                } else {
                    match polled {
                        Ok(None) => r is Ok && r->Ok_0.view() == Val::Nil,
                        Ok(Some(code)) => r is Ok && r->Ok_0.view() == Val::Long(
                            (match code {
                                Some(c) => c as int,
                                None => -1,
                            }) as i64,
                        ),
                        Err(m) => r is Err && r->Err_0@ == "try_wait failed: "@ + m@,
                    }
                },
            },
    {
        if let Some(w) = &self.result {
            return Ok(Value::Long(w.0 as i64));
        }
        if !self.held {
            return Ok(Value::Nil);
        }
        match polled {
            Ok(None) => Ok(Value::Nil),
            Ok(Some(Some(c))) => Ok(Value::Long(c as i64)),
            Ok(Some(None)) => Ok(Value::Long(-1)),
            Err(m) => Err(with_detail("try_wait failed: ", m.as_str())),
        }
    }
}

/// The handle of the child that a value refers to, or what is wrong with the value.
pub open spec fn child_handle(v: Val, heap: Seq<Native>) -> Result<u64, Seq<char>> {
    match referred(v, heap) {
        Some(n) => if tag_of(n) == "ChildProcess"@ {
            Ok(v->NativeObject_0)
        } else {
            Err("expected a ChildProcess, got "@ + kind_of(v))
        },
        None => Err("expected a ChildProcess, got "@ + kind_of(v)),
    }
}

/// The handle of the child that a value refers to.
pub fn handle_of(v: &Value, heap: &Heap) -> (r: Result<u64, String>)
    ensures
        (match r {
            Ok(h) => Ok::<u64, Seq<char>>(h),
            Err(e) => Err(e@),
        }) == child_handle(v.view(), heap.view()),
{
    if let Value::NativeObject(h) = v {
        if let Some(o) = heap.object(*h) {
            if same_text(o.type_tag(), "ChildProcess") {
                return Ok(*h);
            }
        }
    }
    Err(with_detail("expected a ChildProcess, got ", v.kind()))
}

/// A child that was waited for stays as it ended: waiting again gives the same result, and it is
/// never alive.
pub proof fn law_ended_stays_ended(c: Child, code: i32, out: Seq<char>, err: Seq<char>)
    requires
        wait_asked(c) == Ok::<
            Option<(i32, Option<Seq<char>>, Option<Seq<char>>)>,
            Seq<char>,
        >(None),
    ensures
        ({
            let result = (code, captured(c.out_inherit, out), captured(c.err_inherit, err));
            let after = Child { held: false, result: Some(result), ..c };
            wait_asked(after) == Ok::<
                Option<(i32, Option<Seq<char>>, Option<Seq<char>>)>,
                Seq<char>,
            >(Some(result)) && !after.held
        }),
{
}

} // verus!
