//! System functions, isolates, child processes, sessions and the bridge to an nREPL.

use cljrs::bencode::Bencode;
use cljrs::dynamics::Var;
use cljrs::isolate::{
    builtin_isolate, builtin_isolate_call, builtin_isolate_close, builtin_isolate_p, pool_size,
    resolve_source, run_cmd, settle, CallPhase, IsolateCounter, Isolates,
};
use cljrs::process::{
    build_command, result_map, sh_request, spawn_request, ChildProcess, StdinSpec, WaitStep,
};
use cljrs::qt::{
    envelope, eval_request, json_escape, printed_to_json, state_key, strip_nul, value_json,
    Exchange,
};
use cljrs::session::{
    add_paths, build_gc_config, call_main_if_defined, configure_jit, escape_clojure_string,
    file_to_namespace, main_call, GcConfig, VersioningFlags,
};
use cljrs::system::{
    builtin_exit, builtin_get_property, builtin_getenv, builtin_set_property,
    set_command_line_args, HostFacts, Properties,
};
use cljrs::value::{Name, Value, ValueError};

fn text(s: &str) -> Value {
    Value::Str(s.to_string())
}

fn kw(s: &str) -> Value {
    Value::Keyword(Name::simple(s))
}

fn strings(items: &[&str]) -> Vec<String> {
    items.iter().map(|s| s.to_string()).collect()
}

fn get_kw(map: &Value, name: &str) -> Value {
    let Value::HashMap(pairs) = map else {
        panic!("expected map");
    };
    pairs
        .iter()
        .find(|p| p.0 == kw(name))
        .map(|p| p.1.clone())
        .unwrap_or(Value::Nil)
}

// ── System ───────────────────────────────────────────────────────────────

#[test]
fn getenv_reads_a_variable() {
    let vars = vec![("CLJRS_SYSTEM_TEST_VAR".to_string(), "hello".to_string())];
    let v = builtin_getenv(&[text("CLJRS_SYSTEM_TEST_VAR")], &vars).unwrap();
    assert_eq!(v, text("hello"));
    let missing = builtin_getenv(&[text("CLJRS_SYSTEM_TEST_NOPE")], &vars).unwrap();
    assert_eq!(missing, Value::Nil);
    assert!(builtin_getenv(&[Value::Long(1)], &vars).is_err());
}

#[test]
fn getenv_zero_arity_returns_map() {
    let vars = vec![("CLJRS_SYSTEM_TEST_MAP".to_string(), "42".to_string())];
    let Value::HashMap(pairs) = builtin_getenv(&[], &vars).unwrap() else {
        panic!("expected map");
    };
    let found = pairs.iter().find(|p| p.0 == text("CLJRS_SYSTEM_TEST_MAP"));
    assert_eq!(found.map(|p| p.1.clone()), Some(text("42")));
}

fn facts() -> HostFacts {
    HostFacts {
        home: Some("/home/me".to_string()),
        user_profile: None,
        current_dir: Some("/work".to_string()),
        user: Some("me".to_string()),
        username: None,
        os: "linux".to_string(),
        arch: "x86_64".to_string(),
        separator: "/".to_string(),
        windows: false,
        temp_dir: "/tmp".to_string(),
    }
}

#[test]
fn properties_defaults_and_overrides() {
    let mut props = Properties::new();
    let v = builtin_get_property(&[text("user.home")], &props, &facts()).unwrap();
    assert_eq!(v, text("/home/me"));
    let args = [text("no.such.prop"), text("dflt")];
    let v = builtin_get_property(&args, &props, &facts()).unwrap();
    assert_eq!(v, text("dflt"));
    builtin_set_property(&[text("cljrs.test.prop"), text("x")], &mut props).unwrap();
    let v = builtin_get_property(&[text("cljrs.test.prop")], &props, &facts()).unwrap();
    assert_eq!(v, text("x"));
    assert!(matches!(
        builtin_get_property(&[], &props, &facts()),
        Err(ValueError::ArityError { .. })
    ));
}

#[test]
fn exit_is_a_request_to_leave() {
    assert!(matches!(
        builtin_exit(&[Value::Long(3)]),
        Err(ValueError::Exit(3))
    ));
    assert!(matches!(
        builtin_exit(&[Value::Nil]),
        Err(ValueError::WrongType { .. })
    ));
}

#[test]
fn command_line_args_bound_by_host() {
    let mut var = Var { key: 1, root: None };
    set_command_line_args(&mut var, &vec![]);
    assert_eq!(var.root, Some(Value::Nil));
    set_command_line_args(&mut var, &strings(&["a", "b"]));
    assert_eq!(var.root, Some(Value::List(vec![text("a"), text("b")])));
}

// ── Isolates ─────────────────────────────────────────────────────────────

fn sym(ns: &str, name: &str) -> Value {
    Value::Symbol(Name::qualified(ns, name))
}

#[test]
fn unqualified_symbol_is_error_at_call_site() {
    let mut isolates = Isolates::new();
    let iso = builtin_isolate(&mut isolates, &mut IsolateCounter { next: 0 }, 7);
    let args = [iso, Value::Symbol(Name::simple("inc")), Value::Long(1)];
    let err = builtin_isolate_call(&isolates, &args).expect_err("unqualified symbol");
    let msg = format!("{err:?}");
    assert!(
        msg.contains("fully qualified"),
        "error should demand a qualified symbol, got: {msg}"
    );
}

#[test]
fn non_shareable_arg_is_located_error_at_call_site() {
    let mut isolates = Isolates::new();
    let iso = builtin_isolate(&mut isolates, &mut IsolateCounter { next: 0 }, 7);
    let args = [iso, sym("clojure.core", "identity"), Value::NativeObject(1)];
    let err = builtin_isolate_call(&isolates, &args).expect_err("a local value");
    let msg = format!("{err:?}");
    assert!(
        msg.contains("isolate-call") && msg.contains("cannot cross"),
        "error should be located at the call site, got: {msg}"
    );
}

#[test]
fn closed_isolate_rejects_new_calls() {
    let mut isolates = Isolates::new();
    let iso = builtin_isolate(&mut isolates, &mut IsolateCounter { next: 0 }, 7);
    builtin_isolate_close(&mut isolates, &[iso.clone()]).expect("close");
    let args = [iso, sym("clojure.core", "+"), Value::Long(1), Value::Long(2)];
    let err = builtin_isolate_call(&isolates, &args).expect_err("closed isolate");
    assert!(format!("{err:?}").contains("closed"));
}

#[test]
fn worker_error_settles_reply_future_as_error() {
    let phase = CallPhase::Unresolved("no such var".to_string());
    let reply = run_cmd("clojure.core", "definitely-not-a-fn", phase);
    let err = settle("isolate-1", Some(reply)).expect_err("unresolvable symbol");
    assert!(
        format!("{err:?}").contains("isolate"),
        "error should name the isolate"
    );
    assert!(settle("isolate-1", None).is_err());
}

#[test]
fn non_shareable_result_is_located_error() {
    let reply = run_cmd("clojure.core", "atom", CallPhase::Applied(Value::NativeObject(5)));
    let err = settle("isolate-1", Some(reply)).expect_err("a local result");
    assert!(
        format!("{err:?}").contains("cannot cross"),
        "error should explain the result cannot cross"
    );
}

#[test]
fn threads_share_the_numbers_of_isolates() {
    let mut counter = IsolateCounter { next: 0 };
    let mut here = Isolates::new();
    let mut there = Isolates::new();
    builtin_isolate(&mut here, &mut counter, 7);
    builtin_isolate(&mut there, &mut counter, 7);
    builtin_isolate(&mut here, &mut counter, 8);
    assert_eq!(here.handles[0].name, "isolate-0");
    assert_eq!(there.handles[0].name, "isolate-1");
    assert_eq!(here.handles[1].name, "isolate-2");
    assert_eq!(IsolateCounter { next: u64::MAX }.take(), u64::MAX);
}

#[test]
fn a_call_is_handed_to_its_isolate() {
    let mut isolates = Isolates::new();
    let a = builtin_isolate(&mut isolates, &mut IsolateCounter { next: 0 }, 7);
    let b = builtin_isolate(&mut isolates, &mut IsolateCounter { next: 0 }, 8);
    assert_eq!(builtin_isolate_p(&isolates, &[a.clone()]), Value::Bool(true));
    assert_eq!(builtin_isolate_p(&isolates, &[Value::Long(42)]), Value::Bool(false));
    builtin_isolate_close(&mut isolates, &[a]).expect("close");
    let args = [b, sym("clojure.core", "+"), Value::Long(20), Value::Long(22)];
    let cmd = builtin_isolate_call(&isolates, &args).expect("call");
    assert_eq!(cmd.resource, 8);
    assert_eq!((cmd.ns.as_str(), cmd.name.as_str()), ("clojure.core", "+"));
    assert_eq!(cmd.args, vec![Value::Long(20), Value::Long(22)]);
    assert!(resolve_source("a.b", "f").contains("a.b/f"));
    assert_eq!(pool_size(Some("3"), Some(8)), 3);
    assert_eq!(pool_size(Some("0"), Some(8)), 8);
    assert_eq!(pool_size(Some("x"), None), 1);
}

// ── Child processes ──────────────────────────────────────────────────────

#[test]
fn shell_arguments_and_options_are_parted() {
    let args = [text("cat"), text("-n"), kw("in"), text("piped"), kw("dir"), text("/tmp")];
    let q = sh_request(&args).expect("request");
    assert_eq!(q.argv, strings(&["cat", "-n"]));
    assert_eq!(q.opts.dir, Some("/tmp".to_string()));
    assert!(matches!(&q.opts.stdin, StdinSpec::Pipe(s) if s == "piped"));
    let env = Value::HashMap(vec![(text("CLJRS_PROC_TEST"), text("yes"))]);
    let q = sh_request(&[text("sh"), kw("extra-env"), env]).expect("request");
    let plan = build_command(&q.argv, &q.opts).expect("plan");
    assert_eq!(plan.program, "sh");
    assert!(!plan.clear_env);
    assert_eq!(
        plan.envs,
        vec![("CLJRS_PROC_TEST".to_string(), "yes".to_string())]
    );
    assert!(sh_request(&[Value::Long(1)]).is_err());
}

#[test]
fn a_child_is_waited_for_once() {
    let argv = Value::Vector(vec![text("sh"), text("-c"), text("echo done")]);
    let q = spawn_request(&[argv]).expect("request");
    let mut child = ChildProcess::started(&q);
    assert_eq!(child.alive(Ok(None)).unwrap(), Value::Bool(true));
    assert!(matches!(child.wait_step(), Ok(WaitStep::Wait)));
    assert!(child.wait_step().is_err());
    let r = child.ended(Some(0), b"done\n", b"");
    assert_eq!(r.0, 0);
    assert_eq!(r.1, Some("done\n".to_string()));
    assert!(matches!(child.wait_step(), Ok(WaitStep::Done(_))));
    let v = result_map(r.0, r.1, r.2);
    assert_eq!(get_kw(&v, "exit"), Value::Long(0));
    assert_eq!(get_kw(&v, "out"), text("done\n"));
    assert_eq!(child.alive(Ok(Some(Some(0)))).unwrap(), Value::Bool(false));
}

#[test]
fn a_killed_child_has_no_exit_code() {
    let q = spawn_request(&[Value::Vector(vec![text("sleep"), text("30")])]).expect("request");
    let mut child = ChildProcess::started(&q);
    assert!(matches!(child.wait_step(), Ok(WaitStep::Wait)));
    assert_eq!(child.ended(None, b"", &[0xFF]).0, -1);
    let Ok(WaitStep::Done(r)) = child.wait_step() else {
        panic!("waited before");
    };
    assert_eq!(r.2, Some("\u{FFFD}".to_string()));
}

// ── Sessions ─────────────────────────────────────────────────────────────

#[test]
fn limits_and_flags() {
    assert_eq!(build_gc_config(None, None), GcConfig::Standard);
    assert_eq!(build_gc_config(Some(1), None), GcConfig::HardLimit(1_048_576));
    assert!(!configure_jit(true, Some(5)).enabled);
    assert!(!configure_jit(false, Some(0)).enabled);
    assert_eq!(configure_jit(false, Some(5)).threshold, Some(5));
    let off = VersioningFlags {
        verify_commit_signatures: false,
        enforce_native_versions: false,
    };
    let on = VersioningFlags {
        verify_commit_signatures: true,
        enforce_native_versions: false,
    };
    assert!(off.merged(&on).verify_commit_signatures);
    let mut paths = strings(&["a"]);
    add_paths(&mut paths, &strings(&["b", "a"]));
    assert_eq!(paths, strings(&["a", "b"]));
}

#[test]
fn files_name_their_namespaces() {
    let root = strings(&["src"]);
    assert_eq!(
        file_to_namespace(&root, &strings(&["src", "my_app", "core.cljrs"])),
        Some("my-app.core".to_string())
    );
    assert_eq!(file_to_namespace(&root, &strings(&["other", "x.clj"])), None);
}

#[test]
fn main_is_called_where_it_is_defined() {
    let args = strings(&["x"]);
    assert_eq!(call_main_if_defined(&Ok(Value::Nil), &args), None);
    assert_eq!(call_main_if_defined(&Err("no".to_string()), &args), None);
    assert_eq!(
        call_main_if_defined(&Ok(Value::Bool(true)), &args),
        Some("(-main \"x\")".to_string())
    );
}

#[test]
fn arguments_are_quoted_for_main() {
    assert_eq!(escape_clojure_string("a\"b\n"), "\"a\\\"b\\n\"");
    assert_eq!(main_call(&strings(&["x", "y\"z"])), "(-main \"x\" \"y\\\"z\")");
}

// ── The bridge ───────────────────────────────────────────────────────────

#[test]
fn values_cross_as_json() {
    assert_eq!(json_escape("a\"\n\u{1}"), "a\\\"\\n\\u0001");
    assert_eq!(value_json(&Value::Nil, "nil"), "null");
    assert_eq!(value_json(&Value::Bool(true), "true"), "true");
    assert_eq!(value_json(&Value::Long(5), "5"), "5");
    assert_eq!(value_json(&text("a\"b"), "\"a\\\"b\""), "\"a\\\"b\"");
    assert_eq!(printed_to_json("nil", false), "null");
    assert_eq!(printed_to_json("12", true), "12");
    assert_eq!(printed_to_json("[1 2]", false), "\"[1 2]\"");
    assert_eq!(envelope(&Ok("1".to_string()), true), "{\"ok\":1}");
    assert_eq!(envelope(&Err("bad".to_string()), false), "{\"error\":\"bad\"}");
    assert_eq!(strip_nul("a\0b"), "ab");
    assert_eq!(state_key(&kw("count"), ":count"), "count");
}

fn frame(entries: Vec<(&str, Bencode)>) -> Bencode {
    Bencode::Dict(
        entries
            .into_iter()
            .map(|(k, v)| (k.as_bytes().to_vec(), v))
            .collect(),
    )
}

#[test]
fn an_exchange_hears_its_own_frames() {
    let mut x = Exchange::new(3);
    let id = x.id.clone();
    let Bencode::Dict(asked) = eval_request("(+ 1 2)", &id) else {
        panic!("a dictionary");
    };
    assert!(asked.iter().any(|e| e.0 == b"code".to_vec()));
    let other = frame(vec![("id", Bencode::text("else")), ("value", Bencode::text("9"))]);
    assert!(x.hear(&other).is_none());
    let value = frame(vec![("id", Bencode::text(&id)), ("value", Bencode::text("3"))]);
    assert!(x.hear(&value).is_none());
    let done = frame(vec![
        ("id", Bencode::text(&id)),
        ("status", Bencode::List(vec![Bencode::text("done")])),
    ]);
    assert_eq!(x.hear(&done), Some(Ok("3".to_string())));
}
