//! Laws of child processes: which command a call asks for, with which options.

use vstd::prelude::*;
use crate::process::{
    captured, command_of, command_words, keyword_val, leading_strings, option_set, options_of,
    plain_options, planned, report, sh_asked, sh_option_set, spawn_asked, variables_from,
    variables_of, wait_asked, words_from, Child, Input, Options, Started,
};
use crate::value::Val;

verus! {

proof fn lemma_option_names()
    ensures
        "dir"@.len() == 3,
        "dir"@[0] == 'd',
        "env"@.len() == 3,
        "env"@[0] == 'e',
        "env"@[1] == 'n',
        "extra-env"@.len() == 9,
        "in"@.len() == 2,
        "out"@.len() == 3,
        "out"@[0] == 'o',
        "err"@.len() == 3,
        "err"@[0] == 'e',
        "err"@[1] == 'r',
        "inherit"@.len() == 7,
        "exit"@.len() == 4,
{
    reveal_strlit("dir");
    reveal_strlit("env");
    reveal_strlit("extra-env");
    reveal_strlit("in");
    reveal_strlit("out");
    reveal_strlit("err");
    reveal_strlit("inherit");
    reveal_strlit("exit");
}

/// What the words of a command are: its strings.
pub open spec fn strings(words: Seq<Seq<char>>) -> Seq<Val> {
    Seq::new(words.len(), |i: int| Val::Str(words[i]))
}

proof fn lemma_leading(args: Seq<Val>)
    ensures
        leading_strings(args) <= args.len(),
        forall|i: int| 0 <= i < leading_strings(args) ==> (#[trigger] args[i]) is Str,
        leading_strings(args) < args.len() ==> !(args[leading_strings(args) as int] is Str),
    decreases args.len(),
{
    if args.len() > 0 && args[0] is Str {
        let rest = args.skip(1);
        lemma_leading(rest);
        assert forall|i: int| 0 <= i < leading_strings(args) implies (#[trigger] args[i]) is Str by {
            if i > 0 {
                assert(rest[i - 1] == args[i]);
            }
        }
        if leading_strings(args) < args.len() {
            assert(rest[leading_strings(rest) as int] == args[leading_strings(args) as int]);
        }
    }
}

/// The command of `sh` is the strings at the front of its arguments, all of them and in order; there
/// is at least one.
pub proof fn law_sh_command(args: Seq<Val>)
    ensures
        sh_asked(args) matches Ok(s) ==> {
            &&& 0 < s.argv.len() <= args.len()
            &&& args.take(s.argv.len() as int) == strings(s.argv)
            &&& s.argv.len() < args.len() ==> !(args[s.argv.len() as int] is Str)
        },
        args.len() == 0 || !(args[0] is Str) ==> sh_asked(args) is Err,
{
    lemma_leading(args);
    if let Ok(s) = sh_asked(args) {
        let n = leading_strings(args) as int;
        assert forall|i: int| 0 <= i < n implies args.take(n)[i] == strings(s.argv)[i] by {
            assert(args[i] is Str);
        }
        assert(args.take(n) =~= strings(s.argv));
    }
}

/// `sh` with strings alone runs them without any option.
pub proof fn law_sh_without_options(words: Seq<Seq<char>>)
    requires
        words.len() > 0,
    ensures
        sh_asked(strings(words)) == Ok::<Started, Seq<char>>(
            Started { argv: words, opts: plain_options() },
        ),
{
    lemma_leading(strings(words));
    let n = leading_strings(strings(words));
    if n < words.len() {
        assert(strings(words)[n as int] is Str);
    }
    assert(command_words(strings(words), n) =~= words);
}

/// `sh` with one option sets it.
pub proof fn law_sh_option(words: Seq<Seq<char>>, name: Seq<char>, v: Val)
    requires
        words.len() > 0,
    ensures
        ({
            let args = strings(words) + seq![keyword_val(name), v];
            match sh_option_set(plain_options(), name, v) {
                Ok(opts) => sh_asked(args) == Ok::<Started, Seq<char>>(
                    Started { argv: words, opts },
                ),
                Err(_) => sh_asked(args) is Err,
            }
        }),
{
    let args = strings(words) + seq![keyword_val(name), v];
    lemma_leading(args);
    let n = leading_strings(args) as int;
    if n < words.len() {
        assert(args[n] == strings(words)[n]);
    }
    if n > words.len() {
        assert(args[words.len() as int] == keyword_val(name));
    }
    assert(command_words(args, n as nat) =~= words);
    let none = Seq::<(Seq<char>, Val)>::empty();
    let one = none.push((name, v));
    assert(args[n] == keyword_val(name) && args[n + 1] == v);
    reveal_with_fuel(crate::process::options_given, 2);
    assert(crate::process::options_given(args, n, none) == Ok::<Seq<(Seq<char>, Val)>, Seq<char>>(
        one,
    ));
    reveal_with_fuel(crate::process::sh_options, 2);
    assert(one[0] == (name, v));
}

/// What each option sets, and that it sets nothing else: the directory, the environment in place of
/// the parent's, variables on top of it, the input, and where the output goes.
pub proof fn law_options(
    opts: Options,
    s: Seq<char>,
    v: Val,
    vars: Seq<(Seq<char>, Seq<char>)>,
)
    ensures
        option_set(opts, "dir"@, Val::Str(s)) == Ok::<Options, Seq<char>>(
            Options { dir: Some(s), ..opts },
        ),
        variables_of(v, ":env"@) == Ok::<Seq<(Seq<char>, Seq<char>)>, Seq<char>>(vars)
            ==> option_set(opts, "env"@, v) == Ok::<Options, Seq<char>>(
            Options { env: Some(vars), ..opts },
        ),
        variables_of(v, ":extra-env"@) == Ok::<Seq<(Seq<char>, Seq<char>)>, Seq<char>>(vars)
            ==> option_set(opts, "extra-env"@, v) == Ok::<Options, Seq<char>>(
            Options { extra_env: vars, ..opts },
        ),
        option_set(opts, "in"@, Val::Str(s)) == Ok::<Options, Seq<char>>(
            Options { stdin: Input::Pipe(s), ..opts },
        ),
        option_set(opts, "in"@, keyword_val("inherit"@)) == Ok::<Options, Seq<char>>(
            Options { stdin: Input::Inherit, ..opts },
        ),
        option_set(opts, "out"@, keyword_val("inherit"@)) == Ok::<Options, Seq<char>>(
            Options { out_inherit: true, ..opts },
        ),
        option_set(opts, "out"@, Val::Str(s)) == Ok::<Options, Seq<char>>(
            Options { out_inherit: false, ..opts },
        ),
        option_set(opts, "err"@, keyword_val("inherit"@)) == Ok::<Options, Seq<char>>(
            Options { err_inherit: true, ..opts },
        ),
        option_set(opts, "err"@, Val::Str(s)) == Ok::<Options, Seq<char>>(
            Options { err_inherit: false, ..opts },
        ),
        sh_option_set(opts, "dir"@, Val::Str(s)) == Ok::<Options, Seq<char>>(
            Options { dir: Some(s), ..opts },
        ),
        sh_option_set(opts, "in"@, Val::Str(s)) == Ok::<Options, Seq<char>>(
            Options { stdin: Input::Pipe(s), ..opts },
        ),
        sh_option_set(opts, "out"@, v) is Err,
        s != "dir"@ && s != "env"@ && s != "extra-env"@ && s != "in"@ && s != "out"@ && s != "err"@
            ==> option_set(opts, s, v) is Err && sh_option_set(opts, s, v) is Err,
{
    lemma_option_names();
}

/// Without options a child reads nothing, its output is captured, and it has the parent's directory
/// and environment.
pub proof fn law_plain_options()
    ensures
        ({
            let o = plain_options();
            &&& o.dir is None
            &&& o.env is None
            &&& o.extra_env.len() == 0
            &&& o.stdin is Null
            &&& !o.out_inherit
            &&& !o.err_inherit
        }),
        options_of(Val::HashMap(Seq::empty())) == Ok::<Options, Seq<char>>(plain_options()),
{
}

proof fn lemma_words(items: Seq<Val>, i: int, done: Seq<Seq<char>>)
    requires
        0 <= i <= items.len(),
        done.len() == i,
        forall|j: int| 0 <= j < i ==> items[j] == Val::Str(#[trigger] done[j]),
    ensures
        words_from(items, i, done) matches Ok(w) ==> strings(w) == items,
        words_from(items, i, done) is Err <==> exists|j: int|
            i <= j < items.len() && !((#[trigger] items[j]) is Str),
    decreases items.len() - i,
{
    if i >= items.len() {
        assert forall|j: int| 0 <= j < items.len() implies strings(done)[j] == items[j] by {
            assert(items[j] == Val::Str(done[j]));
        }
        assert(strings(done) =~= items);
    } else if let Val::Str(s) = items[i] {
        let more = done.push(s);
        assert forall|j: int| 0 <= j < i + 1 implies items[j] == Val::Str(#[trigger] more[j]) by {
            if j < i {
                assert(more[j] == done[j]);
            }
        }
        lemma_words(items, i + 1, more);
    } else {
        assert(!(items[i] is Str));
    }
}

/// The command of `spawn` is a vector of strings, word by word, or one string that is the program
/// alone; any other value is refused.
pub proof fn law_spawn_command(v: Val)
    ensures
        match v {
            Val::Vector(items) => {
                &&& command_of(v) matches Ok(w) ==> strings(w) == items
                &&& command_of(v) is Ok <==> forall|j: int|
                    0 <= j < items.len() ==> (#[trigger] items[j]) is Str
            },
            Val::Str(s) => command_of(v) == Ok::<Seq<Seq<char>>, Seq<char>>(seq![s]),
            _ => command_of(v) is Err,
        },
        command_of(v) matches Ok(w) ==> spawn_asked(seq![v]) == Ok::<Started, Seq<char>>(
            Started { argv: w, opts: plain_options() },
        ),
{
    if let Val::Vector(items) = v {
        lemma_words(items, 0, Seq::empty());
    }
}

/// A command is run by its first word with the others as arguments, in the directory of the options.
/// A replaced environment is cleared first; the variables on top come last, so they win.
pub proof fn law_command_plan(argv: Seq<Seq<char>>, opts: Options)
    ensures
        argv.len() == 0 <==> planned(argv, opts) is Err,
        planned(argv, opts) matches Ok(p) ==> {
            &&& seq![p.program] + p.args == argv
            &&& p.dir == opts.dir
            &&& p.clear_env <==> opts.env is Some
            &&& opts.env is None ==> p.envs == opts.extra_env
            &&& opts.env matches Some(e) ==> p.envs == e + opts.extra_env
        },
{
    if argv.len() > 0 {
        assert(seq![argv[0]] + argv.skip(1) =~= argv);
        assert(Seq::<(Seq<char>, Seq<char>)>::empty() + opts.extra_env =~= opts.extra_env);
    }
}

/// The name of a variable: a string, or a keyword's name.
pub open spec fn names(k: Val, name: Seq<char>) -> bool {
    match k {
        Val::Str(s) => s == name,
        Val::Keyword(n) => n.name == name,
        _ => false,
    }
}

proof fn lemma_variables(
    entries: Seq<(Val, Val)>,
    i: int,
    done: Seq<(Seq<char>, Seq<char>)>,
    what: Seq<char>,
)
    requires
        0 <= i <= entries.len(),
        done.len() == i,
        forall|j: int|
            0 <= j < i ==> names(entries[j].0, (#[trigger] done[j]).0) && entries[j].1 == Val::Str(
                done[j].1,
            ),
    ensures
        variables_from(entries, i, done, what) matches Ok(vars) ==> {
            &&& vars.len() == entries.len()
            &&& forall|j: int|
                0 <= j < vars.len() ==> names(entries[j].0, (#[trigger] vars[j]).0) && entries[j].1
                    == Val::Str(vars[j].1)
        },
        variables_from(entries, i, done, what) is Err <==> exists|j: int|
            i <= j < entries.len() && !(((#[trigger] entries[j]).0 is Str || entries[j].0 is Keyword)
                && entries[j].1 is Str),
    decreases entries.len() - i,
{
    if i < entries.len() {
        let e = entries[i];
        if (e.0 is Str || e.0 is Keyword) && e.1 is Str {
            let name = match e.0 {
                Val::Str(s) => s,
                Val::Keyword(n) => n.name,
                _ => Seq::empty(),
            };
            let more = done.push((name, e.1->Str_0));
            assert forall|j: int| 0 <= j < i + 1 implies names(
                entries[j].0,
                (#[trigger] more[j]).0,
            ) && entries[j].1 == Val::Str(more[j].1) by {
                if j < i {
                    assert(more[j] == done[j]);
                }
            }
            lemma_variables(entries, i + 1, more, what);
        } else {
            assert(!((entries[i].0 is Str || entries[i].0 is Keyword) && entries[i].1 is Str));
        }
    }
}

/// The variables of a map are its entries one by one, strings under strings or keywords; any other
/// entry is refused.
pub proof fn law_variables(entries: Seq<(Val, Val)>, what: Seq<char>)
    ensures
        variables_of(Val::HashMap(entries), what) matches Ok(vars) ==> {
            &&& vars.len() == entries.len()
            &&& forall|j: int|
                0 <= j < vars.len() ==> names(entries[j].0, (#[trigger] vars[j]).0) && entries[j].1
                    == Val::Str(vars[j].1)
        },
        variables_of(Val::HashMap(entries), what) is Err <==> exists|j: int|
            0 <= j < entries.len() && !(((#[trigger] entries[j]).0 is Str || entries[j].0 is Keyword)
                && entries[j].1 is Str),
{
    lemma_variables(entries, 0, Seq::empty(), what);
}

/// A report tells the exit code and the two captured texts, each under its own name; nil stands for
/// a stream that was not captured.
pub proof fn law_reports(exit: i32, out: Seq<char>, err: Seq<char>)
    ensures
        report(exit as int, Some(out), Some(err)) == Val::HashMap(
            seq![
                (keyword_val("exit"@), Val::Long(exit as i64)),
                (keyword_val("out"@), Val::Str(out)),
                (keyword_val("err"@), Val::Str(err)),
            ],
        ),
        report(exit as int, None, Some(err)) == Val::HashMap(
            seq![
                (keyword_val("exit"@), Val::Long(exit as i64)),
                (keyword_val("out"@), Val::Nil),
                (keyword_val("err"@), Val::Str(err)),
            ],
        ),
        captured(true, out) is None,
        captured(false, out) == Some(out),
{
}

/// A child is waited for once: where it was, its result is given again; where another wait holds it,
/// waiting fails.
pub proof fn law_waiting(c: Child)
    ensures
        c.result is Some ==> wait_asked(c) == Ok::<
            Option<(i32, Option<Seq<char>>, Option<Seq<char>>)>,
            Seq<char>,
        >(c.result),
        c.result is None && c.held ==> wait_asked(c) == Ok::<
            Option<(i32, Option<Seq<char>>, Option<Seq<char>>)>,
            Seq<char>,
        >(None),
        c.result is None && !c.held ==> wait_asked(c) is Err,
{
}

} // verus!
