//! Laws of the JSON that evaluations are told in, and of the exchange with the evaluator.

use vstd::prelude::*;
use vstd::utf8::encode_utf8;
use crate::bencode::{entry_under, text_under, Ben};
use crate::decimal::int_text;
use crate::qt::{
    concluded, enveloped, heard_after, hex_digit, json_char, json_escaped, json_of, json_of_printed,
    json_string, state_key_of, without_colons, without_nul, Heard,
};
use crate::value::Val;

verus! {

/// The number of a hexadecimal digit.
pub open spec fn hex_number(c: char) -> int {
    if '0' <= c <= '9' {
        c as int - '0' as int
    } else {
        c as int - 'a' as int + 10
    }
}

/// The text that the inside of a JSON string stands for.
pub open spec fn json_read(s: Seq<char>) -> Seq<char>
    decreases s.len(),
{
    if s.len() == 0 {
        Seq::empty()
    } else if s[0] != '\\' {
        seq![s[0]] + json_read(s.skip(1))
    } else if s.len() >= 6 && s[1] == 'u' {
        seq![
            (hex_number(s[2]) * 4096 + hex_number(s[3]) * 256 + hex_number(s[4]) * 16 + hex_number(
                s[5],
            )) as char,
        ] + json_read(s.skip(6))
    } else if s.len() >= 2 {
        seq![
            if s[1] == 'n' {
                '\n'
            } else if s[1] == 'r' {
                '\r'
            } else if s[1] == 't' {
                '\t'
            } else {
                s[1]
            },
        ] + json_read(s.skip(2))
    } else {
        s
    }
}

proof fn lemma_hex(n: int)
    requires
        0 <= n < 16,
    ensures
        hex_number(hex_digit(n)) == n,
{
    if n < 10 {
        assert(hex_digit(n) as int == '0' as int + n);
    } else {
        assert(hex_digit(n) as int == 'a' as int + n - 10);
    }
}

proof fn lemma_control(c: char)
    requires
        (c as int) < 0x20,
    ensures
        hex_number(hex_digit(c as int / 16)) * 16 + hex_number(hex_digit(c as int % 16))
            == c as int,
        hex_number('0') == 0,
        (c as int) as char == c,
{
    assert(0 <= c as int);
    lemma_hex(c as int / 16);
    lemma_hex(c as int % 16);
}

proof fn lemma_escaped_first(s: Seq<char>)
    requires
        s.len() > 0,
    ensures
        json_escaped(s) == json_char(s[0]) + json_escaped(s.skip(1)),
    decreases s.len(),
{
    if s.len() == 1 {
        assert(s.drop_last() =~= Seq::empty());
        assert(s.skip(1) =~= Seq::empty());
        reveal_with_fuel(json_escaped, 2);
        assert(json_escaped(s) =~= json_char(s[0]) + json_escaped(s.skip(1)));
    } else {
        lemma_escaped_first(s.drop_last());
        assert(s.drop_last().skip(1) =~= s.skip(1).drop_last());
        assert(s.skip(1).last() == s.last());
        assert(json_escaped(s) =~= json_char(s[0]) + json_escaped(s.skip(1)));
    }
}

/// A JSON string stands for the text that it was made from.
pub proof fn law_json_strings_read_back(s: Seq<char>)
    ensures
        json_read(json_escaped(s)) == s,
        json_string(s) == seq!['"'] + json_escaped(s) + seq!['"'],
    decreases s.len(),
{
    reveal_strlit("\"");
    assert("\""@ =~= seq!['"']);
    if s.len() == 0 {
        assert(s =~= Seq::empty());
    } else {
        let c = s[0];
        let rest = s.skip(1);
        law_json_strings_read_back(rest);
        lemma_escaped_first(s);
        let whole = json_escaped(s);
        let tail = json_escaped(rest);
        assert(seq![c] + rest =~= s);
        let width = json_char(c).len() as int;
        assert(whole.skip(width) =~= tail);
        if c == '"' || c == '\\' || c == '\n' || c == '\r' || c == '\t' {
            assert(whole[0] == '\\' && whole[1] == json_char(c)[1]);
        } else if (c as int) < 0x20 {
            assert(whole[0] == '\\' && whole[1] == 'u' && whole[2] == '0' && whole[3] == '0');
            assert(whole[4] == json_char(c)[4] && whole[5] == json_char(c)[5]);
            lemma_control(c);
            assert(json_read(whole) == seq![c] + json_read(whole.skip(6)));
        } else {
            assert(whole[0] == c);
        }
    }
}

/// Scalars are told as JSON scalars, strings and anything else as JSON strings; a double that is no
/// finite number is a string too.
pub proof fn law_values_as_json(n: i64, x: u64, s: Seq<char>, v: Val, printed: Seq<char>)
    ensures
        json_of(Val::Nil, printed) == "null"@,
        json_of(Val::Bool(true), printed) == "true"@,
        json_of(Val::Bool(false), printed) == "false"@,
        json_of(Val::Long(n), printed) == int_text(n as int),
        json_of(Val::Str(s), printed) == json_string(s),
        x % 0x8000_0000_0000_0000u64 < 0x7FF0_0000_0000_0000u64 ==> json_of(Val::Double(x), printed)
            == printed,
        x % 0x8000_0000_0000_0000u64 >= 0x7FF0_0000_0000_0000u64 ==> json_of(
            Val::Double(x),
            printed,
        ) == json_string(printed),
        !(v is Nil || v is Bool || v is Long || v is Double || v is Str) ==> json_of(v, printed)
            == json_string(printed),
{
}

/// Printed scalars are told as JSON scalars.
pub proof fn law_printed_scalars(finite: bool, n: i64)
    ensures
        json_of_printed("nil"@, finite) == "null"@,
        json_of_printed("true"@, finite) == "true"@,
        json_of_printed("false"@, finite) == "false"@,
        json_of_printed(int_text(n as int), finite) == int_text(n as int),
{
    reveal_strlit("nil");
    reveal_strlit("true");
    reveal_strlit("false");
    assert("nil"@.len() == 3 && "true"@.len() == 4 && "false"@.len() == 5);
    crate::parse::law_long_reads_back(n);
    let t = int_text(n as int);
    crate::csv_laws::lemma_number_start(n as int);
    assert("nil"@[0] == 'n' && "true"@[0] == 't' && "false"@[0] == 'f');
}

/// The envelope tells a result under `ok`, and an error under `error`.
pub proof fn law_envelopes(printed: Seq<char>, e: Seq<char>, finite: bool)
    ensures
        enveloped(Ok(printed), finite) == "{\"ok\":"@ + json_of_printed(printed, finite) + "}"@,
        enveloped(Err(e), finite) == "{\"error\":\""@ + json_escaped(e) + "\"}"@,
{
}

/// Stripping takes out the NUL characters and nothing else.
pub proof fn law_no_nul_is_left(s: Seq<char>, t: Seq<char>)
    ensures
        forall|i: int| 0 <= i < without_nul(s).len() ==> #[trigger] without_nul(s)[i] != '\0',
        (forall|i: int| 0 <= i < s.len() ==> #[trigger] s[i] != '\0') ==> without_nul(s) == s,
        without_nul(s + seq!['\0']) == without_nul(s),
        t.len() == 1 && t[0] != '\0' ==> without_nul(s + t) == without_nul(s) + t,
    decreases s.len(),
{
    reveal(Seq::filter);
    let keep = |c: char| c != '\0';
    assert((s + seq!['\0']).drop_last() =~= s);
    assert((s + seq!['\0']).last() == '\0');
    if t.len() == 1 {
        assert((s + t).drop_last() =~= s);
        assert((s + t).last() == t[0]);
        if t[0] != '\0' {
            assert(without_nul(s).push(t[0]) =~= without_nul(s) + t);
        }
    }
    if s.len() > 0 {
        let rest = s.drop_last();
        law_no_nul_is_left(rest, t);
        if forall|i: int| 0 <= i < s.len() ==> #[trigger] s[i] != '\0' {
            assert forall|i: int| 0 <= i < rest.len() implies #[trigger] rest[i] != '\0' by {
                assert(rest[i] == s[i]);
            }
            assert(s[s.len() - 1] != '\0');
            assert(rest.push(s.last()) =~= s);
        }
    } else {
        assert(s =~= Seq::empty());
    }
}

/// The key of a state is a string itself, or else what is printed, without the colons in front.
pub proof fn law_state_keys(s: Seq<char>, printed: Seq<char>, v: Val)
    requires
        !(v is Str),
    ensures
        state_key_of(Val::Str(s), printed) == s,
        ({
            let k = state_key_of(v, printed);
            &&& k.len() <= printed.len()
            &&& k == printed.skip(printed.len() - k.len())
            &&& k.len() > 0 ==> k[0] != ':'
            &&& forall|i: int| 0 <= i < printed.len() - k.len() ==> #[trigger] printed[i] == ':'
        }),
    decreases printed.len(),
{
    if printed.len() > 0 && printed[0] == ':' {
        let rest = printed.skip(1);
        law_state_keys(s, rest, v);
        let k = without_colons(printed);
        assert(rest.skip(rest.len() - k.len()) =~= printed.skip(printed.len() - k.len()));
        assert forall|i: int| 0 <= i < printed.len() - k.len() implies #[trigger] printed[i]
            == ':' by {
            if i > 0 {
                assert(rest[i - 1] == printed[i]);
            }
        }
    } else {
        assert(printed.skip(0) =~= printed);
    }
}

/// The text under a key of a frame.
pub open spec fn told_under(frame: Ben, key: Seq<char>) -> Option<Seq<char>> {
    match frame {
        Ben::Dict(entries) => text_under(entries, encode_utf8(key)),
        _ => None,
    }
}

/// A reply to the exchange sets the value where it has one, and adds its errors to those heard
/// before; any other frame changes nothing.
pub proof fn law_replies_are_heard(h: Heard, frame: Ben)
    ensures
        heard_after(h, frame).id == h.id,
        told_under(frame, "id"@) != Some(h.id) ==> heard_after(h, frame) == h,
        frame is Dict && told_under(frame, "id"@) == Some(h.id) ==> {
            let next = heard_after(h, frame);
            &&& told_under(frame, "value"@) is Some ==> next.value == told_under(frame, "value"@)
            &&& told_under(frame, "value"@) is None ==> next.value == h.value
            &&& told_under(frame, "err"@) is None && told_under(frame, "ex"@) is None
                ==> next.err_text == h.err_text
            &&& told_under(frame, "err"@) is Some && told_under(frame, "ex"@) is None
                ==> next.err_text == h.err_text + told_under(frame, "err"@)->0
            &&& told_under(frame, "err"@) is None && told_under(frame, "ex"@) is Some
                && h.err_text.len() == 0 ==> next.err_text == told_under(frame, "ex"@)->0
            &&& told_under(frame, "err"@) is None && told_under(frame, "ex"@) is Some
                && h.err_text.len() > 0 ==> next.err_text == h.err_text + " "@ + told_under(
                frame,
                "ex"@,
            )->0
        },
{
    if told_under(frame, "ex"@) is Some && h.err_text.len() == 0 {
        let e = told_under(frame, "ex"@)->0;
        assert(h.err_text + e =~= e);
    }
}

/// An evaluation comes to its last value, or nil where it told none; errors go before values.
pub proof fn law_conclusions(h: Heard)
    ensures
        h.err_text.len() > 0 ==> concluded(h) == Err::<Seq<char>, Seq<char>>(h.err_text),
        h.err_text.len() == 0 ==> (h.value matches Some(v) ==> concluded(h) == Ok::<
            Seq<char>,
            Seq<char>,
        >(v)),
        h.err_text.len() == 0 && h.value is None ==> concluded(h) == Ok::<Seq<char>, Seq<char>>(
            "nil"@,
        ),
{
}

/// The value under a key of a frame is that of its last entry.
pub proof fn law_entries_under(entries: Seq<(Seq<u8>, Ben)>, key: Seq<u8>, k: Seq<u8>, v: Ben)
    ensures
        entry_under(entries.push((key, v)), key) == Some(v),
        k != key ==> entry_under(entries.push((k, v)), key) == entry_under(entries, key),
        entry_under(Seq::empty(), key) is None,
{
    assert(entries.push((key, v)).drop_last() =~= entries);
    assert(entries.push((k, v)).drop_last() =~= entries);
}

} // verus!
