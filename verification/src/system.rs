//! Host and system builtins for scripting: environment variables, system properties, and the
//! request to leave the process.

use vstd::prelude::*;
use crate::dynamics::maybe;
use crate::dynamics::Var;
use crate::form_value::bind;
use crate::hash_map::with_entry;
use crate::javamap::outcome;
use crate::process::{env_texts, maybe_text, text_or_nil, word_texts};
use crate::text::{push_text, same_text, text_copy};
use crate::value::{kind_of, lemma_views, pair_vals, vals, Failure, Val};
use crate::value::{value_copy, Value, ValueError, ValueResult};

verus! {

// ---------------------------------------------------------------------------
// Command-line arguments
// ---------------------------------------------------------------------------

/// The value of `*command-line-args*`: a list of the strings, nil when there are none.
pub open spec fn command_line(args: Seq<Seq<char>>) -> Val {
    if args.len() == 0 {
        Val::Nil
    } else {
        Val::List(Seq::new(args.len(), |i: int| Val::Str(args[i])))
    }
}

/// Bind `*command-line-args*` to a list of the given strings.
pub fn set_command_line_args(var: &mut Var, args: &Vec<String>)
    ensures
        final(var).key == old(var).key,
        maybe(final(var).root) == Some(command_line(word_texts(args@))),
{
    if args.len() == 0 {
        var.bind(Value::Nil);
        return;
    }
    let mut items: Vec<Value> = Vec::new();
    for i in 0..args.len()
        invariant
            items@.len() == i,
            forall|j: int| 0 <= j < i ==> (#[trigger] items@[j]).view() == Val::Str(args@[j]@),
    {
        items.push(Value::Str(args[i].clone()));
    }
    let list = Value::List(items);
    proof {
        lemma_views(list);
        assert(vals(items@) =~= command_line(word_texts(args@))->List_0);
    }
    var.bind(list);
}

// ---------------------------------------------------------------------------
// Environment variables
// ---------------------------------------------------------------------------

/// The value of a variable.
pub open spec fn variable(vars: Seq<(Seq<char>, Seq<char>)>, name: Seq<char>) -> Option<Seq<char>>
    decreases vars.len(),
{
    if vars.len() == 0 {
        None
    } else if vars.last().0 == name {
        Some(vars.last().1)
    } else {
        variable(vars.drop_last(), name)
    }
}

/// The entries of the map of all variables.
pub open spec fn variable_entries(vars: Seq<(Seq<char>, Seq<char>)>) -> Seq<(Val, Val)>
    decreases vars.len(),
{
    if vars.len() == 0 {
        Seq::empty()
    } else {
        with_entry(
            variable_entries(vars.drop_last()),
            Val::Str(vars.last().0),
            Val::Str(vars.last().1),
        )
    }
}

fn lookup<'a>(vars: &'a Vec<(String, String)>, name: &str) -> (r: Option<&'a String>)
    ensures
        (match r {
            Some(s) => Some(s@),
            None => None,
        }) == variable(env_texts(vars@), name@),
{
    let ghost all = env_texts(vars@);
    let mut i: usize = vars.len();
    assert(all.take(i as int) =~= all);
    while i > 0
        invariant
            i <= vars@.len(),
            all == env_texts(vars@),
            variable(all, name@) == variable(all.take(i as int), name@),
        decreases i,
    {
        assert(all.take(i as int).drop_last() =~= all.take(i - 1));
        assert(all.take(i as int).last() == all[i - 1]);
        if same_text(vars[i - 1].0.as_str(), name) {
            return Some(&vars[i - 1].1);
        }
        i = i - 1;
    }
    None
}

fn string_or_nil(s: Option<&String>) -> (r: Value)
    ensures
        r.view() == (match s {
            Some(s) => Val::Str(s@),
            None => Val::Nil,
        }),
{
    match s {
        Some(s) => Value::Str(s.clone()),
        None => Value::Nil,
    }
}

/// What `System/getenv` gives: the map of all variables, or the value of one.
pub open spec fn getenv_result(args: Seq<Val>, vars: Seq<(Seq<char>, Seq<char>)>) -> Result<
    Val,
    Failure,
> {
    if args.len() == 0 {
        Ok(Val::HashMap(variable_entries(vars)))
    } else if args.len() == 1 {
        match args[0] {
            Val::Str(name) => Ok(text_or_nil(variable(vars, name))),
            other => Err(Failure::WrongType { expected: "string"@, got: kind_of(other) }),
        }
    } else {
        Err(
            Failure::ArityError {
                name: "System/getenv"@,
                expected: "0 or 1 args"@,
                got: args.len(),
            },
        )
    }
}

/// `(System/getenv)` or `(System/getenv name)`, in an environment of these variables.
pub fn builtin_getenv(args: &[Value], vars: &Vec<(String, String)>) -> (r: ValueResult<Value>)
    ensures
        outcome(r) == getenv_result(vals(args@), env_texts(vars@)),
{
    let ghost all = env_texts(vars@);
    if args.len() == 0 {
        let mut entries: Vec<(Value, Value)> = Vec::new();
        assert(all.take(0) =~= Seq::empty());
        assert(pair_vals(entries@) =~= Seq::empty());
        for i in 0..vars.len()
            invariant
                all == env_texts(vars@),
                pair_vals(entries@) == variable_entries(all.take(i as int)),
        {
            assert(all.take(i + 1).drop_last() =~= all.take(i as int));
            assert(all.take(i + 1).last() == all[i as int]);
            bind(
                &mut entries,
                Value::Str(vars[i].0.clone()),
                Value::Str(vars[i].1.clone()),
            );
        }
        assert(all.take(all.len() as int) =~= all);
        let r = Value::HashMap(entries);
        proof {
            lemma_views(r);
        }
        return Ok(r);
    }
    if args.len() > 1 {
        return Err(
            ValueError::ArityError {
                name: text_copy("System/getenv"),
                expected: text_copy("0 or 1 args"),
                got: args.len(),
            },
        );
    }
    assert(vals(args@)[0] == args@[0].view());
    match &args[0] {
        Value::Str(name) => Ok(string_or_nil(lookup(vars, name.as_str()))),
        other => Err(ValueError::wrong_type("string", other)),
    }
}

/// `(System/exit code)`: the request to leave the process with this code.
pub fn builtin_exit(args: &[Value]) -> (r: ValueResult<Value>)
    requires
        args@.len() == 1,
    ensures
        outcome(r) == Err::<Val, Failure>(
            match vals(args@)[0] {
                Val::Long(code) => Failure::Exit(code as i32),
                other => Failure::WrongType { expected: "integer exit code"@, got: kind_of(other) },
            },
        ),
{
    assert(vals(args@)[0] == args@[0].view());
    match &args[0] {
        Value::Long(code) => Err(ValueError::Exit(*code as i32)),
        other => Err(ValueError::wrong_type("integer exit code", other)),
    }
}

// ---------------------------------------------------------------------------
// System properties
// ---------------------------------------------------------------------------

/// What the host tells about itself.
#[derive(Debug)]
pub struct HostFacts {
    pub home: Option<String>,
    pub user_profile: Option<String>,
    pub current_dir: Option<String>,
    pub user: Option<String>,
    pub username: Option<String>,
    pub os: String,
    pub arch: String,
    pub separator: String,
    pub windows: bool,
    pub temp_dir: String,
}

/// The name that the property `os.name` gives an operating system.
pub open spec fn os_name(os: Seq<char>) -> Seq<char> {
    if os == "linux"@ {
        "Linux"@
    } else if os == "macos"@ {
        "Mac OS X"@
    } else if os == "windows"@ {
        "Windows"@
    } else {
        os
    }
}

/// The first of two texts that is there.
pub open spec fn either(a: Option<Seq<char>>, b: Option<Seq<char>>) -> Option<Seq<char>> {
    if a is Some {
        a
    } else {
        b
    }
}

/// The built-in value of a system property.
pub open spec fn property_default(name: Seq<char>, facts: HostFacts) -> Option<Seq<char>> {
    if name == "user.home"@ {
        either(maybe_text(facts.home), maybe_text(facts.user_profile))
    } else if name == "user.dir"@ {
        maybe_text(facts.current_dir)
    } else if name == "user.name"@ {
        either(maybe_text(facts.user), maybe_text(facts.username))
    } else if name == "os.name"@ {
        Some(os_name(facts.os@))
    } else if name == "os.arch"@ {
        Some(facts.arch@)
    } else if name == "file.separator"@ {
        Some(facts.separator@)
    } else if name == "path.separator"@ {
        Some(
            if facts.windows {
                ";"@
            } else {
                ":"@
            },
        )
    } else if name == "line.separator"@ {
        Some(
            if facts.windows {
                "\r\n"@
            } else {
                "\n"@
            },
        )
    } else if name == "java.io.tmpdir"@ {
        Some(facts.temp_dir@)
    } else {
        None
    }
}

fn copy_either(a: &Option<String>, b: &Option<String>) -> (r: Option<String>)
    ensures
        maybe_text(r) == either(maybe_text(*a), maybe_text(*b)),
{
    match a {
        Some(s) => Some(s.clone()),
        None => match b {
            Some(s) => Some(s.clone()),
            None => None,
        },
    }
}

/// The built-in value of a system property.
pub fn default_property(name: &str, facts: &HostFacts) -> (r: Option<String>)
    ensures
        maybe_text(r) == property_default(name@, *facts),
{
    if same_text(name, "user.home") {
        copy_either(&facts.home, &facts.user_profile)
    } else if same_text(name, "user.dir") {
        copy_either(&facts.current_dir, &None)
    } else if same_text(name, "user.name") {
        copy_either(&facts.user, &facts.username)
    } else if same_text(name, "os.name") {
        if same_text(facts.os.as_str(), "linux") {
            Some(text_copy("Linux"))
        } else if same_text(facts.os.as_str(), "macos") {
            Some(text_copy("Mac OS X"))
        } else if same_text(facts.os.as_str(), "windows") {
            Some(text_copy("Windows"))
        } else {
            Some(facts.os.clone())
        }
    } else if same_text(name, "os.arch") {
        Some(facts.arch.clone())
    } else if same_text(name, "file.separator") {
        Some(facts.separator.clone())
    } else if same_text(name, "path.separator") {
        if facts.windows {
            Some(text_copy(";"))
        } else {
            Some(text_copy(":"))
        }
    } else if same_text(name, "line.separator") {
        if facts.windows {
            Some(text_copy("\r\n"))
        } else {
            Some(text_copy("\n"))
        }
    } else if same_text(name, "java.io.tmpdir") {
        Some(facts.temp_dir.clone())
    } else {
        None
    }
}

/// The properties that programs have set, each name once.
#[derive(Debug)]
pub struct Properties {
    pub set: Vec<(String, String)>,
}

/// The position of a property.
pub open spec fn property_position(props: Seq<(Seq<char>, Seq<char>)>, name: Seq<char>) -> Option<int>
    decreases props.len(),
{
    if props.len() == 0 {
        None
    } else if props.last().0 == name {
        Some(props.len() - 1)
    } else {
        property_position(props.drop_last(), name)
    }
}

/// The properties with one set: a name that is there takes the new value, in its place.
pub open spec fn with_property(
    props: Seq<(Seq<char>, Seq<char>)>,
    name: Seq<char>,
    value: Seq<char>,
) -> Seq<(Seq<char>, Seq<char>)> {
    match property_position(props, name) {
        Some(i) => props.update(i, (name, value)),
        None => props.push((name, value)),
    }
}

impl Properties {
    pub open spec fn view(&self) -> Seq<(Seq<char>, Seq<char>)> {
        env_texts(self.set@)
    }

    pub fn new() -> (r: Properties)
        ensures
            r.view() == Seq::<(Seq<char>, Seq<char>)>::empty(),
    {
        let r = Properties { set: Vec::new() };
        assert(r.view() =~= Seq::<(Seq<char>, Seq<char>)>::empty());
        r
    }

    fn put(&mut self, name: String, value: String) -> (r: Option<String>)
        ensures
            maybe_text(r) == variable(old(self).view(), name@),
            final(self).view() == with_property(old(self).view(), name@, value@),
    {
        let ghost all = self.view();
        let ghost added = (name@, value@);
        let mut i: usize = self.set.len();
        assert(all.take(i as int) =~= all);
        while i > 0
            invariant
                i <= self.set@.len(),
                self.view() == all,
                self.set@ == old(self).set@,
                added == (name@, value@),
                variable(all, name@) == variable(all.take(i as int), name@),
                property_position(all, name@) == property_position(all.take(i as int), name@),
            decreases i,
        {
            assert(all.take(i as int).drop_last() =~= all.take(i - 1));
            assert(all.take(i as int).last() == all[i - 1]);
            if same_text(self.set[i - 1].0.as_str(), name.as_str()) {
                let previous = self.set[i - 1].1.clone();
                self.set.set(i - 1, (name, value));
                assert(self.view() =~= all.update(i - 1, added));
                return Some(previous);
            }
            i = i - 1;
        }
        self.set.push((name, value));
        assert(self.view() =~= all.push(added));
        None
    }
}

/// What `System/getProperty` gives: a property that was set, else a built-in one, else the given
/// default or nil.
pub open spec fn get_property_result(
    args: Seq<Val>,
    props: Seq<(Seq<char>, Seq<char>)>,
    facts: HostFacts,
) -> Result<Val, Failure> {
    if args.len() == 0 {
        Err(arity_failure(args.len()))
    } else if args[0] is Str && args.len() <= 2 {
        let name = args[0]->Str_0;
        match variable(props, name) {
            Some(v) => Ok(Val::Str(v)),
            None => match property_default(name, facts) {
                Some(v) => Ok(Val::Str(v)),
                None => Ok(
                    if args.len() == 2 {
                        args[1]
                    } else {
                        Val::Nil
                    },
                ),
            },
        }
    } else {
        Err(Failure::WrongType { expected: "string property name"@, got: kind_of(args[0]) })
    }
}

/// A call with another number of arguments.
pub open spec fn arity_failure(got: nat) -> Failure {
    Failure::ArityError { name: "System/getProperty"@, expected: "1 or 2 args"@, got }
}

/// `(System/getProperty name)` or `(System/getProperty name default)`.
pub fn builtin_get_property(args: &[Value], props: &Properties, facts: &HostFacts) -> (r:
    ValueResult<Value>)
    ensures
        outcome(r) == get_property_result(vals(args@), props.view(), *facts),
{
    let ghost all = vals(args@);
    assert(forall|i: int| 0 <= i < args@.len() ==> #[trigger] all[i] == args@[i].view());
    if args.len() == 0 {
        return Err(
            ValueError::ArityError {
                name: text_copy("System/getProperty"),
                expected: text_copy("1 or 2 args"),
                got: args.len(),
            },
        );
    }
    if args.len() <= 2 {
        if let Value::Str(name) = &args[0] {
            if let Some(v) = lookup(&props.set, name.as_str()) {
                return Ok(Value::Str(v.clone()));
            }
            return match default_property(name.as_str(), facts) {
                Some(v) => Ok(Value::Str(v)),
                None => if args.len() == 2 {
                    Ok(value_copy(&args[1]))
                } else {
                    Ok(Value::Nil)
                },
            };
        }
    }
    Err(ValueError::wrong_type("string property name", &args[0]))
}

/// `(System/setProperty name value)`: gives the value that was set before, or nil.
pub fn builtin_set_property(args: &[Value], props: &mut Properties) -> (r: ValueResult<Value>)
    requires
        args@.len() == 2,
    ensures
        match (vals(args@)[0], vals(args@)[1]) {
            (Val::Str(name), Val::Str(value)) => outcome(r) == Ok::<Val, Failure>(
                text_or_nil(variable(old(props).view(), name)),
            ) && final(props).view() == with_property(old(props).view(), name, value),
            (a, b) => outcome(r) == Err::<Val, Failure>(
                Failure::WrongType {
                    expected: "two strings"@,
                    got: kind_of(a) + " and "@ + kind_of(b),
                },
            ) && final(props).view() == old(props).view(),
        },
{
    assert(vals(args@)[0] == args@[0].view());
    assert(vals(args@)[1] == args@[1].view());
    if let Value::Str(name) = &args[0] {
        if let Value::Str(value) = &args[1] {
            let previous = props.put(name.clone(), value.clone());
            return Ok(
                match previous {
                    Some(s) => Value::Str(s),
                    None => Value::Nil,
                },
            );
        }
    }
    let mut got = text_copy(args[0].kind());
    push_text(&mut got, " and ");
    push_text(&mut got, args[1].kind());
    Err(ValueError::WrongType { expected: text_copy("two strings"), got })
}

// ---------------------------------------------------------------------------
// Laws
// ---------------------------------------------------------------------------

/// A property that was set is read back; every other property reads as before.
pub proof fn law_set_then_get_property(
    props: Seq<(Seq<char>, Seq<char>)>,
    name: Seq<char>,
    value: Seq<char>,
    other: Seq<char>,
)
    ensures
        variable(with_property(props, name, value), name) == Some(value),
        other != name ==> variable(with_property(props, name, value), other) == variable(
            props,
            other,
        ),
    decreases props.len(),
{
    let after = with_property(props, name, value);
    if props.len() == 0 {
        assert(after.drop_last() =~= props);
    } else if props.last().0 == name {
        assert(after.drop_last() =~= props.drop_last());
        assert(after.last() == (name, value));
    } else {
        let rest = props.drop_last();
        law_set_then_get_property(rest, name, value, other);
        lemma_position_in_range(rest, name);
        match property_position(rest, name) {
            Some(i) => {
                assert(after.drop_last() =~= with_property(rest, name, value));
                assert(after.last() == props.last());
            },
            None => {
                assert(after.drop_last() =~= props);
                assert(after.last() == (name, value));
            },
        }
    }
}

proof fn lemma_position_in_range(props: Seq<(Seq<char>, Seq<char>)>, name: Seq<char>)
    ensures
        property_position(props, name) matches Some(i) ==> 0 <= i < props.len(),
    decreases props.len(),
{
    if props.len() > 0 && props.last().0 != name {
        lemma_position_in_range(props.drop_last(), name);
    }
}

} // verus!
