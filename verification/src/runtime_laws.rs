//! Laws of the runtime around evaluation: settings, safepoints, bindings, output and names.

use vstd::prelude::*;
use crate::boot::others;
use crate::debug_modes::period_of;
use crate::decimal::digits;
use crate::dynamics::{binding_roots, bound, frame_roots, innermost, sentinel, VarKey};
use crate::eval_error::{account, EvalError};
use crate::gc_roots::{request_left, safepoint_action, sources, RootSource, SafepointAction};
use crate::io_target::{destination, top_capture, written, Destination, Target};
use crate::stack_scan::{scan_ceiling, switched_off};
use crate::time::instant_of;
use crate::value::{kind_of, NameView, Val};
use crate::versioned::{base_name, suffix_position};

verus! {

proof fn lemma_settings()
    ensures
        "0"@.len() == 1,
        "off"@.len() == 3,
        "off"@[0] == 'o',
        "false"@.len() == 5,
        "no"@.len() == 2,
        "no"@[0] == 'n',
        "on"@.len() == 2,
        "on"@[0] == 'o',
        "true"@.len() == 4,
        "yes"@.len() == 3,
        "yes"@[0] == 'y',
{
    reveal_strlit("0");
    reveal_strlit("off");
    reveal_strlit("false");
    reveal_strlit("no");
    reveal_strlit("on");
    reveal_strlit("true");
    reveal_strlit("yes");
}

/// What switches stress mode off and on, and that a number is its period.
pub proof fn law_stress_settings(n: nat)
    requires
        n <= usize::MAX,
    ensures
        period_of(""@) == 0,
        period_of("0"@) == 0,
        period_of("off"@) == 0,
        period_of("false"@) == 0,
        period_of("no"@) == 0,
        period_of("on"@) == 1,
        period_of("true"@) == 1,
        period_of("yes"@) == 1,
        n > 0 ==> period_of(digits(n)) == n,
{
    lemma_settings();
    reveal_strlit("");
    crate::parse::law_unsigned_reads_back(n, usize::MAX as nat);
    crate::csv_laws::lemma_number_start(n as int);
    if n > 0 {
        lemma_no_zero(n);
        assert(digits(n) == crate::decimal::int_text(n as int));
        assert("off"@[0] == 'o' && "false"@[0] == 'f' && "no"@[0] == 'n' && "on"@[0] == 'o'
            && "true"@[0] == 't' && "yes"@[0] == 'y') by {
            reveal_strlit("off");
            reveal_strlit("false");
            reveal_strlit("no");
            reveal_strlit("on");
            reveal_strlit("true");
            reveal_strlit("yes");
        }
    }
}

proof fn lemma_no_zero(n: nat)
    requires
        n > 0,
    ensures
        digits(n) != "0"@,
{
    crate::decimal::law_digits_round_trip(n);
    crate::decimal::law_digits_round_trip(0);
    reveal_strlit("0");
    if digits(n) == "0"@ {
        assert(digits(0) =~= "0"@);
    }
}

/// What switches the scan of the stack off; any other setting leaves it on.
pub proof fn law_scan_settings(v: Seq<char>)
    ensures
        switched_off("0"@),
        switched_off("off"@),
        switched_off("false"@),
        switched_off("no"@),
        switched_off(v) ==> v == "0"@ || v == "off"@ || v == "false"@ || v == "no"@,
{
}

/// The stack is scanned up to the recorded mark where it lies above the position, else up to the end
/// that the system told before or tells now; never up to an address below the position.
pub proof fn law_scan_ceiling(base: usize, cached: usize, told: Option<usize>, sp: usize)
    ensures
        scan_ceiling(base, cached, told, sp) matches Some(top) ==> top > sp && (top == base || top
            == cached || told == Some(top)),
        base > sp ==> scan_ceiling(base, cached, told, sp) == Some(base),
        base <= sp && cached > sp ==> scan_ceiling(base, cached, told, sp) == Some(cached),
        base <= sp && cached <= sp ==> (told matches Some(top) ==> top > sp ==> scan_ceiling(
            base,
            cached,
            told,
            sp,
        ) == Some(top)),
{
}

/// At a safepoint a thread waits while another collects, goes on where nothing is asked for, and
/// collects where it took the request and could stop the world.
pub proof fn law_safepoints(requested: bool, in_progress: bool, took: bool, began: bool)
    ensures
        safepoint_action(requested, true, took, began) == SafepointAction::Park,
        safepoint_action(false, false, took, began) == SafepointAction::Nothing,
        safepoint_action(true, false, true, true) == SafepointAction::Collect,
        !(took && began) ==> safepoint_action(true, false, took, began) == SafepointAction::Park,
        request_left(requested, in_progress, took) ==> requested,
        request_left(true, true, took),
        request_left(true, false, false),
        !request_left(true, false, true),
{
}

/// A collection traces every source of roots once; the innermost environment only where there is
/// one.
pub proof fn law_root_sources(with_env: bool, s: RootSource)
    ensures
        sources(with_env).no_duplicates(),
        sources(with_env).contains(s) <==> (with_env || s != RootSource::InnermostEnv),
{
    let all = sources(true);
    let some = sources(false);
    assert(all[0] == RootSource::Registered && all[1] == RootSource::InnermostEnv && all[2]
        == RootSource::ThreadEnvs && all[3] == RootSource::Values && all[4]
        == RootSource::InteropMethods && all[5] == RootSource::OptionValues && all[6]
        == RootSource::DynamicBindings && all[7] == RootSource::Taps && all[8]
        == RootSource::InFlightAllocations);
    assert(some[0] == RootSource::Registered && some[1] == RootSource::ThreadEnvs && some[2]
        == RootSource::Values && some[3] == RootSource::InteropMethods && some[4]
        == RootSource::OptionValues && some[5] == RootSource::DynamicBindings && some[6]
        == RootSource::Taps && some[7] == RootSource::InFlightAllocations);
    assert(some.len() == 8);
    assert forall|i: int| 0 <= i < some.len() implies some[i] != RootSource::InnermostEnv by {
        assert(i == 0 || i == 1 || i == 2 || i == 3 || i == 4 || i == 5 || i == 6 || i == 7);
    }
}

/// Every value that a frame binds is a root, and every root is bound.
pub proof fn law_bindings_are_roots(frames: Seq<Seq<(VarKey, Val)>>, v: Val)
    ensures
        binding_roots(frames).contains(v) <==> exists|i: int, j: int|
            0 <= i < frames.len() && 0 <= j < frames[i].len() && (#[trigger] frames[i][j]).1 == v,
    decreases frames.len(),
{
    if frames.len() > 0 {
        let rest = frames.drop_last();
        let last = frames.len() - 1;
        law_bindings_are_roots(rest, v);
        let before = binding_roots(rest);
        let more = frame_roots(frames.last());
        let all = binding_roots(frames);
        if all.contains(v) {
            let k = choose|k: int| 0 <= k < all.len() && all[k] == v;
            if k < before.len() {
                assert(before[k] == v);
                let (i, j) = choose|i: int, j: int|
                    0 <= i < rest.len() && 0 <= j < rest[i].len() && (#[trigger] rest[i][j]).1 == v;
                assert(frames[i][j].1 == v);
            } else {
                let j = k - before.len();
                assert(frames[last][j].1 == v);
            }
        }
        if exists|i: int, j: int|
            0 <= i < frames.len() && 0 <= j < frames[i].len() && (#[trigger] frames[i][j]).1 == v {
            let (i, j) = choose|i: int, j: int|
                0 <= i < frames.len() && 0 <= j < frames[i].len() && (#[trigger] frames[i][j]).1
                    == v;
            if i < last {
                assert(rest[i][j].1 == v);
                let k = choose|k: int| 0 <= k < before.len() && before[k] == v;
                assert(all[k] == v);
            } else {
                assert(all[before.len() + j] == v);
            }
        }
    }
}

/// The sentinels that stand for the two output streams.
pub proof fn law_output_sentinels(v: Val)
    ensures
        sentinel(Val::Keyword(NameView { namespace: Some("cljrs.io"@), name: "stderr"@ })) == Some(
            true,
        ),
        sentinel(Val::Keyword(NameView { namespace: Some("cljrs.io"@), name: "stdout"@ })) == Some(
            false,
        ),
        !(v is Keyword) ==> sentinel(v) is None,
{
    reveal_strlit("stderr");
    reveal_strlit("stdout");
    assert("stderr"@[3] == 'e' && "stdout"@[3] == 'o');
}

/// A print goes to the topmost capture buffer, wherever it stands on the stack; without one to the
/// error stream where that is on top, and to the output stream else. Only the buffer changes.
pub proof fn law_prints_go_to_the_top(stack: Seq<Target>, s: Seq<char>, i: int)
    ensures
        0 <= i < stack.len() && stack[i] is Capture && (forall|j: int|
            i < j < stack.len() ==> !((#[trigger] stack[j]) is Capture)) ==> {
            &&& destination(stack) == Destination::Captured
            &&& written(stack, s) == stack.update(
                i,
                Target::Capture(stack[i]->Capture_0 + s),
            )
        },
        (forall|j: int| 0 <= j < stack.len() ==> !((#[trigger] stack[j]) is Capture)) ==> {
            &&& written(stack, s) == stack
            &&& destination(stack) == (if stack.len() > 0 && stack.last() is Stderr {
                Destination::Stderr
            } else {
                Destination::Stdout
            })
        },
{
    lemma_top(stack);
    if let Some(k) = top_capture(stack) {
        assert(stack[k] is Capture);
    }
}

proof fn lemma_top(stack: Seq<Target>)
    ensures
        match top_capture(stack) {
            Some(k) => 0 <= k < stack.len() && stack[k] is Capture && forall|j: int|
                k < j < stack.len() ==> !((#[trigger] stack[j]) is Capture),
            None => forall|j: int| 0 <= j < stack.len() ==> !((#[trigger] stack[j]) is Capture),
        },
    decreases stack.len(),
{
    if stack.len() > 0 && !(stack.last() is Capture) {
        let rest = stack.drop_last();
        lemma_top(rest);
        match top_capture(stack) {
            Some(k) => {
                assert forall|j: int| k < j < stack.len() implies !((#[trigger] stack[j]) is Capture) by {
                    if j < rest.len() {
                        assert(rest[j] == stack[j]);
                    }
                }
            },
            None => {
                assert forall|j: int| 0 <= j < stack.len() implies !((#[trigger] stack[j]) is Capture) by {
                    if j < rest.len() {
                        assert(rest[j] == stack[j]);
                    }
                }
            },
        }
    }
}

/// The base of a versioned name is what stands before its last at-sign; a name without one is its
/// own base.
pub proof fn law_version_suffixes(base: Seq<char>, version: Seq<char>)
    requires
        forall|i: int| 0 <= i < version.len() ==> #[trigger] version[i] != '@',
    ensures
        base_name(base + seq!['@'] + version) == base,
        base_name(version) == version,
    decreases version.len(),
{
    let s = base + seq!['@'] + version;
    if version.len() == 0 {
        assert(s.last() == '@');
        assert(s.take(base.len() as int) =~= base);
    } else {
        let v = version.drop_last();
        assert forall|i: int| 0 <= i < v.len() implies #[trigger] v[i] != '@' by {
            assert(v[i] == version[i]);
        }
        law_version_suffixes(base, v);
        lemma_no_suffix(version);
        lemma_suffix(base, version);
        assert(s.take(base.len() as int) =~= base);
    }
}

proof fn lemma_no_suffix(s: Seq<char>)
    requires
        forall|i: int| 0 <= i < s.len() ==> #[trigger] s[i] != '@',
    ensures
        suffix_position(s) is None,
    decreases s.len(),
{
    if s.len() > 0 {
        let t = s.drop_last();
        assert forall|i: int| 0 <= i < t.len() implies #[trigger] t[i] != '@' by {
            assert(t[i] == s[i]);
        }
        lemma_no_suffix(t);
        assert(s[s.len() - 1] != '@');
    }
}

proof fn lemma_suffix(base: Seq<char>, version: Seq<char>)
    requires
        forall|i: int| 0 <= i < version.len() ==> #[trigger] version[i] != '@',
    ensures
        suffix_position(base + seq!['@'] + version) == Some(base.len() as int),
    decreases version.len(),
{
    let s = base + seq!['@'] + version;
    if version.len() == 0 {
        assert(s.last() == '@');
    } else {
        let v = version.drop_last();
        assert forall|i: int| 0 <= i < v.len() implies #[trigger] v[i] != '@' by {
            assert(v[i] == version[i]);
        }
        lemma_suffix(base, v);
        assert(s.drop_last() =~= base + seq!['@'] + v);
        assert(s.last() == version[version.len() - 1]);
    }
}

/// Every namespace but the core one refreshes what it refers to.
pub proof fn law_other_namespaces(names: Seq<Seq<char>>, n: Seq<char>)
    ensures
        others(names).contains(n) <==> names.contains(n) && n != "clojure.core"@,
    decreases names.len(),
{
    if names.len() > 0 {
        let rest = names.drop_last();
        law_other_namespaces(rest, n);
        let all = others(names);
        if names.contains(n) {
            let i = choose|i: int| 0 <= i < names.len() && names[i] == n;
            if i < rest.len() {
                assert(rest[i] == n);
            }
        }
        if rest.contains(n) {
            let i = choose|i: int| 0 <= i < rest.len() && rest[i] == n;
            assert(names[i] == n);
        }
        assert(names[names.len() - 1] == names.last());
        if names.last() != "clojure.core"@ {
            let before = others(rest);
            assert(all == before.push(names.last()));
            assert(all[before.len() as int] == names.last());
            if before.contains(n) {
                let i = choose|i: int| 0 <= i < before.len() && before[i] == n;
                assert(all[i] == n);
            }
            if all.contains(n) && n != names.last() {
                let i = choose|i: int| 0 <= i < all.len() && all[i] == n;
                assert(before[i] == n);
            }
        }
    }
}

/// What the types of values are called.
pub proof fn law_kinds(
    b: bool,
    n: i64,
    x: u64,
    s: Seq<char>,
    c: char,
    k: NameView,
    items: Seq<Val>,
    entries: Seq<(Val, Val)>,
    bytes: Seq<u8>,
    longs: Seq<i64>,
    doubles: Seq<u64>,
)
    ensures
        kind_of(Val::Nil) == "nil"@,
        kind_of(Val::Bool(b)) == "boolean"@,
        kind_of(Val::Long(n)) == "long"@,
        kind_of(Val::Double(x)) == "double"@,
        kind_of(Val::BigInt(s)) == "bigint"@,
        kind_of(Val::BigDecimal(s)) == "bigdecimal"@,
        kind_of(Val::Ratio(s)) == "ratio"@,
        kind_of(Val::Char(c)) == "char"@,
        kind_of(Val::Str(s)) == "string"@,
        kind_of(Val::Keyword(k)) == "keyword"@,
        kind_of(Val::Symbol(k)) == "symbol"@,
        kind_of(Val::Instant(n)) == "instant"@,
        kind_of(Val::Pattern(s)) == "pattern"@,
        kind_of(Val::List(items)) == "list"@,
        kind_of(Val::Vector(items)) == "vector"@,
        kind_of(Val::HashMap(entries)) == "map"@,
        kind_of(Val::HashSet(items)) == "set"@,
        kind_of(Val::ByteArray(bytes)) == "byte-array"@,
        kind_of(Val::LongArray(longs)) == "long-array"@,
        kind_of(Val::DoubleArray(doubles)) == "double-array"@,
        kind_of(Val::ObjectArray(items)) == "object-array"@,
        kind_of(Val::NativeObject(x)) == "native-object"@,
        kind_of(Val::Resource(x)) == "resource"@,
{
}

/// An instant is made of epoch milliseconds or of another instant as it is, and of a text by what
/// it says; of no other value.
pub proof fn law_instants_are_made(ms: i64, v: Val)
    ensures
        instant_of(Val::Long(ms)) == Ok::<Val, crate::value::Failure>(Val::Instant(ms)),
        instant_of(Val::Instant(ms)) == Ok::<Val, crate::value::Failure>(Val::Instant(ms)),
        v matches Val::Str(s) ==> (instant_of(v) is Ok <==> crate::instant::inst_millis(
            vstd::utf8::encode_utf8(s),
        ) is Some),
        instant_of(v) is Ok ==> v is Long || v is Instant || v is Str,
{
}

/// How each kind of error is told.
pub proof fn law_error_accounts(s: String, t: String, n: usize, printed: Seq<char>)
    ensures
        account(EvalError::UnboundSymbol(s), printed) == "Unable to resolve symbol: "@ + s@,
        account(EvalError::NotCallable(s), printed) == "Not a function: "@ + s@,
        account(EvalError::Runtime(s), printed) == s@,
        account(EvalError::Read(s), printed) == s@,
        account(EvalError::GasExhausted, printed) == "gas exhausted"@,
        account(EvalError::ForbiddenEffect(s), printed)
            == "effect forbidden in transaction function: "@ + s@,
        account(EvalError::Arity { name: s, expected: t, got: n }, printed)
            == "Wrong number of args ("@ + digits(n as nat) + ") passed to "@ + s@ + "; expected "@
            + t@,
{
}

} // verus!
