//! Reader forms: anonymous functions, reader conditionals and literals.

use cljrs::anon_fn::expand_anon_fn;
use cljrs::form::{Form, FormKind, Span};
use cljrs::form_value::form_to_value;
use cljrs::reader_cond::{
    select_reader_cond, set_reader_features, warn_foreign_platform_cond, ReaderFeatures, WarnLog,
};
use cljrs::value::{Name, Value};

fn span() -> Span {
    Span {
        file: "<test>".to_string(),
        line: 1,
        col: 1,
    }
}

fn form(kind: FormKind) -> Form {
    Form::new(kind, span())
}

fn sym(s: &str) -> Form {
    form(FormKind::Symbol(s.to_string()))
}

fn kw(s: &str) -> Form {
    form(FormKind::Keyword(s.to_string()))
}

fn long(n: i64) -> Form {
    form(FormKind::Int(n))
}

fn arity(expanded: &Form) -> usize {
    let FormKind::List(parts) = &expanded.kind else {
        panic!("expected (fn* [...] ...)");
    };
    let FormKind::Vector(params) = &parts[1].kind else {
        panic!("expected param vector");
    };
    params.len()
}

#[test]
fn deref_sugar_counts_as_one_arg() {
    // #(:x @%) must expand to (fn* [p__1] (:x (deref p__1))), arity 1.
    let body = vec![kw("x"), form(FormKind::Deref(Box::new(sym("%"))))];
    let expanded = expand_anon_fn(&body, &span());
    assert_eq!(arity(&expanded), 1);

    let FormKind::List(parts) = &expanded.kind else {
        unreachable!()
    };
    let FormKind::List(body) = &parts[2].kind else {
        panic!("expected body list");
    };
    let FormKind::Deref(inner) = &body[1].kind else {
        panic!("expected deref form, got {:?}", body[1].kind);
    };
    assert_eq!(inner.kind, FormKind::Symbol("p__1".to_string()));
}

#[test]
fn reader_cond_clauses_tried_in_order() {
    // The first matching clause wins, and :default matches when reached.
    let clauses = vec![kw("default"), long(1), kw("rust"), long(2)];
    let selected = select_reader_cond(&clauses, &ReaderFeatures::new()).expect("expected a match");
    assert_eq!(selected.kind, FormKind::Int(1));
}

#[test]
fn reader_cond_rust_matches() {
    let clauses = vec![kw("clj"), long(1), kw("rust"), long(2)];
    let selected = select_reader_cond(&clauses, &ReaderFeatures::new()).expect("expected a match");
    assert_eq!(selected.kind, FormKind::Int(2));
}

#[test]
fn reader_cond_foreign_platform_only_is_none() {
    let clauses = vec![kw("clj"), long(1), kw("cljs"), long(2)];
    assert!(select_reader_cond(&clauses, &ReaderFeatures::new()).is_none());
}

#[test]
fn reader_cond_honors_configured_features() {
    let mut features = ReaderFeatures::new();
    let keys = ["bb", "cljrsh", "rust"].map(String::from).to_vec();
    assert!(set_reader_features(&mut features, keys));
    let clauses = vec![kw("bb"), long(1), kw("rust"), long(2)];
    let selected = select_reader_cond(&clauses, &features).expect("expected a match");
    assert_eq!(selected.kind, FormKind::Int(1));
    // Only the first configuration counts.
    assert!(!set_reader_features(&mut features, vec!["clj".to_string()]));
}

#[test]
fn var_and_meta_sugar_also_scanned() {
    let var = vec![form(FormKind::Var(Box::new(sym("%"))))];
    assert_eq!(arity(&expand_anon_fn(&var, &span())), 1);
    let meta = vec![form(FormKind::Meta(Box::new(kw("x")), Box::new(sym("%"))))];
    assert_eq!(arity(&expand_anon_fn(&meta, &span())), 1);
    let quote = vec![form(FormKind::Quote(Box::new(sym("%"))))];
    assert_eq!(arity(&expand_anon_fn(&quote, &span())), 1);
}

#[test]
fn the_highest_reference_sets_the_arity() {
    let body = vec![sym("f"), sym("%3"), sym("%&")];
    let expanded = expand_anon_fn(&body, &span());
    // Three positions, the ampersand, and the rest parameter.
    assert_eq!(arity(&expanded), 5);
}

#[test]
fn foreign_platforms_are_warned_of_once() {
    let clauses = vec![kw("clj"), long(1)];
    let mut log = WarnLog::new();
    assert!(warn_foreign_platform_cond(&clauses, &mut log).is_some());
    assert!(warn_foreign_platform_cond(&clauses, &mut log).is_none());
}

#[test]
fn literals_become_values() {
    let f = ReaderFeatures::new();
    let map = form(FormKind::MapLit(vec![kw("a"), long(1), kw("a"), long(2)]));
    assert_eq!(
        form_to_value(&map, &f),
        Value::HashMap(vec![(Value::Keyword(Name::simple("a")), Value::Long(2))])
    );
    let quoted = form(FormKind::Quote(Box::new(sym("ns/x"))));
    assert_eq!(
        form_to_value(&quoted, &f),
        Value::List(vec![
            Value::Symbol(Name::simple("quote")),
            Value::Symbol(Name::qualified("ns", "x")),
        ])
    );
}

#[test]
fn regex_and_uuid_literals_are_checked() {
    let f = ReaderFeatures::new();
    let good = form(FormKind::Regex("a+".to_string()));
    assert_eq!(form_to_value(&good, &f), Value::Pattern("a+".to_string()));
    let bad = form(FormKind::Regex("(".to_string()));
    assert_ne!(form_to_value(&bad, &f), Value::Pattern("(".to_string()));
    let text = form(FormKind::Str("00000000-0000-0000-0000-00000000002a".to_string()));
    let uuid = form(FormKind::TaggedLiteral("uuid".to_string(), Box::new(text)));
    assert_eq!(form_to_value(&uuid, &f), Value::Uuid(42));
}
