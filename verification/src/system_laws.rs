//! Laws of system properties and environment variables.

use vstd::prelude::*;
use crate::hash_map::{distinct_keys, entry_value};
use crate::hash_map::{law_binding_keeps_keys_distinct, law_lookup_after_binding};
use crate::process::maybe_text;
use crate::system::{
    get_property_result, getenv_result, os_name, property_default, variable, variable_entries,
    HostFacts,
};
use crate::value::{Failure, Val};

verus! {

proof fn lemma_property_names()
    ensures
        "user.home"@.len() == 9,
        "user.home"@[5] == 'h',
        "user.dir"@.len() == 8,
        "user.name"@.len() == 9,
        "user.name"@[5] == 'n',
        "os.name"@.len() == 7,
        "os.name"@[3] == 'n',
        "os.arch"@.len() == 7,
        "os.arch"@[3] == 'a',
        "file.separator"@.len() == 14,
        "file.separator"@[0] == 'f',
        "path.separator"@.len() == 14,
        "path.separator"@[0] == 'p',
        "line.separator"@.len() == 14,
        "line.separator"@[0] == 'l',
        "java.io.tmpdir"@.len() == 14,
        "java.io.tmpdir"@[0] == 'j',
{
    reveal_strlit("user.home");
    reveal_strlit("user.dir");
    reveal_strlit("user.name");
    reveal_strlit("os.name");
    reveal_strlit("os.arch");
    reveal_strlit("file.separator");
    reveal_strlit("path.separator");
    reveal_strlit("line.separator");
    reveal_strlit("java.io.tmpdir");
}

proof fn lemma_os_names()
    ensures
        "linux"@.len() == 5,
        "linux"@[0] == 'l',
        "macos"@.len() == 5,
        "macos"@[0] == 'm',
        "windows"@.len() == 7,
{
    reveal_strlit("linux");
    reveal_strlit("macos");
    reveal_strlit("windows");
}

/// A variable has the value of its last binding, and none where nothing binds it.
pub proof fn law_variables_are_found(
    vars: Seq<(Seq<char>, Seq<char>)>,
    name: Seq<char>,
    i: int,
)
    ensures
        0 <= i < vars.len() && vars[i].0 == name && (forall|j: int|
            i < j < vars.len() ==> (#[trigger] vars[j]).0 != name) ==> variable(vars, name) == Some(
            vars[i].1,
        ),
        (forall|j: int| 0 <= j < vars.len() ==> (#[trigger] vars[j]).0 != name) ==> variable(
            vars,
            name,
        ) is None,
    decreases vars.len(),
{
    if vars.len() > 0 {
        let rest = vars.drop_last();
        law_variables_are_found(rest, name, i);
        if 0 <= i < rest.len() && vars[i].0 == name && forall|j: int|
            i < j < vars.len() ==> (#[trigger] vars[j]).0 != name {
            assert(vars[vars.len() - 1].0 != name);
            assert forall|j: int| i < j < rest.len() implies (#[trigger] rest[j]).0 != name by {
                assert(rest[j] == vars[j]);
            }
        }
        if forall|j: int| 0 <= j < vars.len() ==> (#[trigger] vars[j]).0 != name {
            assert(vars[vars.len() - 1].0 != name);
            assert forall|j: int| 0 <= j < rest.len() implies (#[trigger] rest[j]).0 != name by {
                assert(rest[j] == vars[j]);
            }
        }
    }
}

/// The map of all variables holds each under its name, as the lookup of one gives it.
pub proof fn law_all_variables(vars: Seq<(Seq<char>, Seq<char>)>, name: Seq<char>)
    ensures
        distinct_keys(variable_entries(vars)),
        entry_value(variable_entries(vars), Val::Str(name)) == (match variable(vars, name) {
            Some(v) => Some(Val::Str(v)),
            None => None,
        }),
    decreases vars.len(),
{
    if vars.len() > 0 {
        let rest = vars.drop_last();
        let key = Val::Str(vars.last().0);
        let value = Val::Str(vars.last().1);
        law_all_variables(rest, name);
        law_binding_keeps_keys_distinct(variable_entries(rest), key, value);
        law_lookup_after_binding(variable_entries(rest), key, value, Val::Str(name));
    }
}

/// `System/getenv` gives all variables, or the value of one, or nil.
pub proof fn law_getenv(vars: Seq<(Seq<char>, Seq<char>)>, name: Seq<char>)
    ensures
        getenv_result(Seq::empty(), vars) == Ok::<Val, Failure>(
            Val::HashMap(variable_entries(vars)),
        ),
        variable(vars, name) matches Some(v) ==> getenv_result(seq![Val::Str(name)], vars) == Ok::<
            Val,
            Failure,
        >(Val::Str(v)),
        variable(vars, name) is None ==> getenv_result(seq![Val::Str(name)], vars) == Ok::<
            Val,
            Failure,
        >(Val::Nil),
{
}

/// The built-in properties tell of the host: the home and the name of the user under either of two
/// variables, the directories, the system, and the separators, which differ on Windows.
pub proof fn law_built_in_properties(facts: HostFacts)
    ensures
        property_default("user.home"@, facts) == (if facts.home is Some {
            maybe_text(facts.home)
        } else {
            maybe_text(facts.user_profile)
        }),
        property_default("user.dir"@, facts) == maybe_text(facts.current_dir),
        property_default("user.name"@, facts) == (if facts.user is Some {
            maybe_text(facts.user)
        } else {
            maybe_text(facts.username)
        }),
        property_default("os.name"@, facts) == Some(os_name(facts.os@)),
        property_default("os.arch"@, facts) == Some(facts.arch@),
        property_default("file.separator"@, facts) == Some(facts.separator@),
        property_default("java.io.tmpdir"@, facts) == Some(facts.temp_dir@),
        facts.windows ==> property_default("path.separator"@, facts) == Some(";"@)
            && property_default("line.separator"@, facts) == Some("\r\n"@),
        !facts.windows ==> property_default("path.separator"@, facts) == Some(":"@)
            && property_default("line.separator"@, facts) == Some("\n"@),
        os_name("linux"@) == "Linux"@,
        os_name("macos"@) == "Mac OS X"@,
        os_name("windows"@) == "Windows"@,
{
    lemma_property_names();
    lemma_os_names();
}

/// A property that was set is given before the built-in one, and that before the default of the
/// call.
pub proof fn law_properties_in_turn(
    props: Seq<(Seq<char>, Seq<char>)>,
    facts: HostFacts,
    name: Seq<char>,
    d: Val,
)
    ensures
        ({
            let one = get_property_result(seq![Val::Str(name)], props, facts);
            let two = get_property_result(seq![Val::Str(name), d], props, facts);
            &&& variable(props, name) matches Some(v) ==> one == Ok::<Val, Failure>(Val::Str(v))
                && two == one
            &&& variable(props, name) is None ==> (property_default(name, facts) matches Some(v)
                ==> one == Ok::<Val, Failure>(Val::Str(v)) && two == one)
            &&& variable(props, name) is None && property_default(name, facts) is None ==> one
                == Ok::<Val, Failure>(Val::Nil) && two == Ok::<Val, Failure>(d)
        }),
{
}

} // verus!
