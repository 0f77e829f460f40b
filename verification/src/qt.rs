//! Evaluation for an embedding host: values as JSON, and the exchange with the evaluator.
//!
//! Results cross to the host as a JSON envelope, `{"ok": ...}` or `{"error": ...}`. The evaluator
//! answers with printed values, so the envelope re-derives scalars and carries anything else as
//! its printed form.

use vstd::prelude::*;
use vstd::utf8::*;
use crate::bencode::{bens, entry_bens, entry_under, lemma_ben_views, text_in, text_under, Ben};
use crate::bencode::{bstr, dict_get, Bencode};
use crate::bytes::bytes_copy;
use crate::doubles::exponent;
use crate::doubles::is_finite;
use crate::decimal::int_text;
use crate::decimal::{int_string, uint_string};
use crate::parse::{is_digit, only_digits, signed_number};
use crate::parse::parse_i64;
use crate::text::{chars_of, push_text, same_text, text_copy};
use crate::value::Val;
use crate::value::Value;

verus! {

// ---------------------------------------------------------------------------
// JSON text
// ---------------------------------------------------------------------------

/// A hexadecimal digit, in lower case.
pub open spec fn hex_digit(n: int) -> char {
    if n < 10 {
        ('0' as int + n) as char
    } else {
        ('a' as int + n - 10) as char
    }
}

/// A character in a JSON string.
pub open spec fn json_char(c: char) -> Seq<char> {
    if c == '"' {
        seq!['\\', '"']
    } else if c == '\\' {
        seq!['\\', '\\']
    } else if c == '\n' {
        seq!['\\', 'n']
    } else if c == '\r' {
        seq!['\\', 'r']
    } else if c == '\t' {
        seq!['\\', 't']
    } else if (c as int) < 0x20 {
        seq!['\\', 'u', '0', '0', hex_digit(c as int / 16), hex_digit(c as int % 16)]
    } else {
        seq![c]
    }
}

/// A text in a JSON string.
pub open spec fn json_escaped(s: Seq<char>) -> Seq<char>
    decreases s.len(),
{
    if s.len() == 0 {
        Seq::empty()
    } else {
        json_escaped(s.drop_last()) + json_char(s.last())
    }
}

fn hex(n: u32) -> (r: char)
    requires
        n < 16,
    ensures
        r == hex_digit(n as int),
{
    if n < 10 {
        (48u8 + n as u8) as char
    } else {
        (97u8 + (n as u8 - 10)) as char
    }
}

fn push_json_char(out: &mut String, c: char)
    ensures
        final(out)@ == old(out)@ + json_char(c),
{
    let ghost before = out@;
    if c == '"' {
        out.push('\\');
        out.push('"');
    } else if c == '\\' {
        out.push('\\');
        out.push('\\');
    } else if c == '\n' {
        out.push('\\');
        out.push('n');
    } else if c == '\r' {
        out.push('\\');
        out.push('r');
    } else if c == '\t' {
        out.push('\\');
        out.push('t');
    } else if (c as u32) < 0x20 {
        let n: u32 = c as u32;
        out.push('\\');
        out.push('u');
        out.push('0');
        out.push('0');
        out.push(hex(n / 16));
        out.push(hex(n % 16));
    } else {
        out.push(c);
    }
    assert(out@ =~= before + json_char(c));
}

/// A text in a JSON string.
pub fn json_escape(s: &str) -> (r: String)
    ensures
        r@ == json_escaped(s@),
{
    let chars = chars_of(s);
    let mut out = String::new();
    assert(chars@.take(0) =~= Seq::empty());
    assert(out@ =~= Seq::empty());
    for i in 0..chars.len()
        invariant
            out@ == json_escaped(chars@.take(i as int)),
    {
        assert(chars@.take(i + 1).drop_last() =~= chars@.take(i as int));
        assert(chars@.take(i + 1).last() == chars@[i as int]);
        push_json_char(&mut out, chars[i]);
    }
    assert(chars@.take(chars@.len() as int) =~= chars@);
    out
}

/// A JSON string.
pub open spec fn json_string(s: Seq<char>) -> Seq<char> {
    "\""@ + json_escaped(s) + "\""@
}

fn quoted_json(s: &str) -> (r: String)
    ensures
        r@ == json_string(s@),
{
    let mut out = text_copy("\"");
    push_text(&mut out, json_escape(s).as_str());
    push_text(&mut out, "\"");
    out
}

/// A value as JSON, where `printed` is its text: of a finite double the shortest text that reads
/// back as it, without an exponent or a trailing zero; of anything else what the printer writes.
pub open spec fn json_of(v: Val, printed: Seq<char>) -> Seq<char> {
    match v {
        Val::Nil => "null"@,
        Val::Bool(b) => if b {
            "true"@
        } else {
            "false"@
        },
        Val::Long(n) => int_text(n as int),
        Val::Double(d) => if exponent(d) < 2047 {
            printed
        } else {
            json_string(printed)
        },
        Val::Str(s) => json_string(s),
        _ => json_string(printed),
    }
}

/// A value as JSON: a scalar as itself, a finite double as the text given for it, anything else as
/// a string that holds its text.
pub fn value_json(v: &Value, printed: &str) -> (r: String)
    ensures
        r@ == json_of(v.view(), printed@),
{
    match v {
        Value::Nil => text_copy("null"),
        Value::Bool(b) => if *b {
            text_copy("true")
        } else {
            text_copy("false")
        },
        Value::Long(n) => int_string(*n),
        Value::Double(d) => if is_finite(*d) {
            text_copy(printed)
        } else {
            quoted_json(printed)
        },
        Value::Str(s) => quoted_json(s.as_str()),
        _ => quoted_json(printed),
    }
}

// ---------------------------------------------------------------------------
// Printed values
// ---------------------------------------------------------------------------

/// The text with each occurrence of the two characters `a`, `b` replaced by `c`, from the left.
pub open spec fn pair_replaced(s: Seq<char>, a: char, b: char, c: char) -> Seq<char>
    decreases s.len(),
{
    if s.len() == 0 {
        Seq::empty()
    } else if s.len() >= 2 && s[0] == a && s[1] == b {
        seq![c] + pair_replaced(s.skip(2), a, b, c)
    } else {
        seq![s[0]] + pair_replaced(s.skip(1), a, b, c)
    }
}

/// A character that a number is written with.
pub open spec fn is_number_char(c: char) -> bool {
    c == '+' || c == '-' || c == '.' || c == 'e' || c == 'E' || '0' <= c <= '9'
}

/// The text is made of characters that a number is written with.
pub open spec fn number_chars(s: Seq<char>) -> bool {
    forall|i: int| 0 <= i < s.len() ==> is_number_char(#[trigger] s[i])
}

/// The text inside the quotes of a printed string, unescaped.
pub open spec fn unprinted(s: Seq<char>) -> Seq<char> {
    pair_replaced(
        pair_replaced(s.subrange(1, s.len() - 1), '\\', '"', '"'),
        '\\',
        '\\',
        '\\',
    )
}

/// A printed value as JSON, where `finite` says whether the text reads as a finite double.
pub open spec fn json_of_printed(s: Seq<char>, finite: bool) -> Seq<char> {
    if s == "nil"@ {
        "null"@
    } else if s == "true"@ {
        "true"@
    } else if s == "false"@ {
        "false"@
    } else if signed_number(s) is Some {
        s
    } else if finite && number_chars(s) {
        s
    } else if s.len() >= 2 && s[0] == '"' && s.last() == '"' {
        json_string(unprinted(s))
    } else {
        json_string(s)
    }
}

fn replace_pair(s: &Vec<char>, a: char, b: char, c: char) -> (r: Vec<char>)
    ensures
        r@ == pair_replaced(s@, a, b, c),
{
    let mut out: Vec<char> = Vec::new();
    let mut i: usize = 0;
    assert(s@.skip(0) =~= s@);
    assert(out@ + pair_replaced(s@, a, b, c) =~= pair_replaced(s@, a, b, c));
    while i < s.len()
        invariant
            i <= s@.len(),
            out@ + pair_replaced(s@.skip(i as int), a, b, c) == pair_replaced(s@, a, b, c),
        decreases s@.len() - i,
    {
        let ghost rest = s@.skip(i as int);
        let ghost before = out@;
        if s.len() - i >= 2 && s[i] == a && s[i + 1] == b {
            out.push(c);
            assert(rest.skip(2) =~= s@.skip(i + 2));
            assert(before + (seq![c] + pair_replaced(rest.skip(2), a, b, c)) =~= before.push(c)
                + pair_replaced(rest.skip(2), a, b, c));
            i = i + 2;
        } else {
            let x: char = s[i];
            out.push(x);
            assert(rest[0] == x);
            assert(rest.skip(1) =~= s@.skip(i + 1));
            assert(before + (seq![x] + pair_replaced(rest.skip(1), a, b, c)) =~= before.push(x)
                + pair_replaced(rest.skip(1), a, b, c));
            i = i + 1;
        }
    }
    assert(out@ + pair_replaced(s@.skip(i as int), a, b, c) =~= out@);
    out
}

fn all_number_chars(s: &Vec<char>) -> (r: bool)
    ensures
        r == number_chars(s@),
{
    for i in 0..s.len()
        invariant
            forall|j: int| 0 <= j < i ==> is_number_char(#[trigger] s@[j]),
    {
        let c: char = s[i];
        if !(c == '+' || c == '-' || c == '.' || c == 'e' || c == 'E' || ('0' <= c && c <= '9')) {
            assert(!is_number_char(s@[i as int]));
            return false;
        }
    }
    true
}

/// A printed value as JSON: scalars become JSON scalars, everything else the printed text as a
/// JSON string. `finite` says whether the text reads as a finite double.
pub fn printed_to_json(printed: &str, finite: bool) -> (r: String)
    ensures
        r@ == json_of_printed(printed@, finite),
{
    if same_text(printed, "nil") {
        return text_copy("null");
    }
    if same_text(printed, "true") {
        return text_copy("true");
    }
    if same_text(printed, "false") {
        return text_copy("false");
    }
    if parse_i64(printed).is_some() {
        return text_copy(printed);
    }
    let chars = chars_of(printed);
    if finite && all_number_chars(&chars) {
        return text_copy(printed);
    }
    if chars.len() >= 2 && chars[0] == '"' && chars[chars.len() - 1] == '"' {
        let mut inner: Vec<char> = Vec::new();
        let ghost whole = chars@.subrange(1, chars@.len() - 1);
        for i in 1..chars.len() - 1
            invariant
                chars@.len() >= 2,
                whole == chars@.subrange(1, chars@.len() - 1),
                inner@ == whole.take(i - 1),
        {
            inner.push(chars[i]);
            assert(whole.take(i as int) =~= whole.take(i - 1).push(whole[i - 1]));
        }
        assert(whole.take(whole.len() as int) =~= whole);
        let quotes = replace_pair(&inner, '\\', '"', '"');
        let text = crate::text::text_of(replace_pair(&quotes, '\\', '\\', '\\').as_slice());
        return quoted_json(text.as_str());
    }
    quoted_json(printed)
}

/// The envelope of an evaluation.
pub open spec fn enveloped(r: Result<Seq<char>, Seq<char>>, finite: bool) -> Seq<char> {
    match r {
        Ok(printed) => "{\"ok\":"@ + json_of_printed(printed, finite) + "}"@,
        Err(e) => "{\"error\":\""@ + json_escaped(e) + "\"}"@,
    }
}

/// The JSON envelope of an evaluation. `finite` says whether the printed value reads as a finite
/// double.
pub fn envelope(result: &Result<String, String>, finite: bool) -> (r: String)
    ensures
        r@ == enveloped(
            match *result {
                Ok(s) => Ok(s@),
                Err(e) => Err(e@),
            },
            finite,
        ),
{
    match result {
        Ok(printed) => {
            let mut out = text_copy("{\"ok\":");
            push_text(&mut out, printed_to_json(printed.as_str(), finite).as_str());
            push_text(&mut out, "}");
            out
        },
        Err(e) => {
            let mut out = text_copy("{\"error\":\"");
            push_text(&mut out, json_escape(e.as_str()).as_str());
            push_text(&mut out, "\"}");
            out
        },
    }
}

/// The text without its NUL characters.
pub open spec fn without_nul(s: Seq<char>) -> Seq<char> {
    s.filter(|c: char| c != '\0')
}

/// The text without its NUL characters, as a C string holds it.
pub fn strip_nul(s: &str) -> (r: String)
    ensures
        r@ == without_nul(s@),
{
    let chars = chars_of(s);
    let mut out = String::new();
    let ghost keep = |c: char| c != '\0';
    assert(chars@.take(0).filter(keep) =~= Seq::empty()) by {
        reveal(Seq::filter);
    }
    assert(out@ =~= Seq::empty());
    for i in 0..chars.len()
        invariant
            keep == (|c: char| c != '\0'),
            out@ == chars@.take(i as int).filter(keep),
    {
        proof {
            let seen = chars@.take(i + 1);
            assert(seen.drop_last() =~= chars@.take(i as int));
            assert(seen.last() == chars@[i as int]);
            reveal(Seq::filter);
        }
        let c: char = chars[i];
        if c != '\0' {
            out.push(c);
        }
    }
    assert(chars@.take(chars@.len() as int) =~= chars@);
    out
}

/// The text without its leading colons.
pub open spec fn without_colons(s: Seq<char>) -> Seq<char>
    decreases s.len(),
{
    if s.len() > 0 && s[0] == ':' {
        without_colons(s.skip(1))
    } else {
        s
    }
}

/// The key that the host sees for the first argument of `qml/set!`, where `printed` is the
/// argument as the printer writes it.
pub open spec fn state_key_of(v: Val, printed: Seq<char>) -> Seq<char> {
    match v {
        Val::Str(s) => s,
        _ => without_colons(printed),
    }
}

/// The key that the host sees: a string as it is, anything else as printed without its leading
/// colons.
pub fn state_key(v: &Value, printed: &str) -> (r: String)
    ensures
        r@ == state_key_of(v.view(), printed@),
{
    if let Value::Str(s) = v {
        return s.clone();
    }
    let chars = chars_of(printed);
    let mut i: usize = 0;
    assert(chars@.skip(0) =~= chars@);
    while i < chars.len() && chars[i] == ':'
        invariant
            i <= chars@.len(),
            without_colons(chars@) == without_colons(chars@.skip(i as int)),
        decreases chars@.len() - i,
    {
        assert(chars@.skip(i as int).skip(1) =~= chars@.skip(i + 1));
        i = i + 1;
    }
    let mut out = String::new();
    let ghost rest = chars@.skip(i as int);
    assert(rest.take(0) =~= out@);
    for k in i..chars.len()
        invariant
            i <= chars@.len(),
            rest == chars@.skip(i as int),
            out@ == rest.take(k - i),
    {
        out.push(chars[k]);
        assert(rest.take(k + 1 - i) =~= rest.take(k - i).push(rest[k - i]));
    }
    assert(rest.take(rest.len() as int) =~= rest);
    out
}

// ---------------------------------------------------------------------------
// The exchange with the evaluator
// ---------------------------------------------------------------------------

/// The message that asks for an evaluation, its keys in order.
pub open spec fn eval_message(code: Seq<char>, id: Seq<char>) -> Ben {
    Ben::Dict(
        seq![
            (encode_utf8("code"@), Ben::Bytes(encode_utf8(code))),
            (encode_utf8("id"@), Ben::Bytes(encode_utf8(id))),
            (encode_utf8("op"@), Ben::Bytes(encode_utf8("eval"@))),
        ],
    )
}

/// The message that asks for an evaluation.
pub fn eval_request(code: &str, id: &str) -> (r: Bencode)
    ensures
        r.view() == eval_message(code@, id@),
{
    let mut entries: Vec<(Vec<u8>, Bencode)> = Vec::new();
    entries.push((bytes_copy("code".as_bytes()), Bencode::text(code)));
    entries.push((bytes_copy("id".as_bytes()), Bencode::text(id)));
    entries.push((bytes_copy("op".as_bytes()), Bencode::text("eval")));
    let r = Bencode::Dict(entries);
    proof {
        lemma_ben_views(r);
        assert(r.view()->Dict_0 =~= eval_message(code@, id@)->Dict_0);
    }
    r
}

/// What was heard of an evaluation so far.
#[derive(Debug)]
pub struct Exchange {
    pub id: String,
    pub value: Option<String>,
    pub err_text: String,
}

/// What an [`Exchange`] holds.
pub struct Heard {
    pub id: Seq<char>,
    pub value: Option<Seq<char>>,
    pub err_text: Seq<char>,
}

/// The reply says that the evaluation is done.
pub open spec fn says_done(entries: Seq<(Seq<u8>, Ben)>) -> bool {
    match entry_under(entries, encode_utf8("status"@)) {
        Some(Ben::List(items)) => exists|i: int|
            0 <= i < items.len() && text_in(#[trigger] items[i]) == Some("done"@),
        _ => false,
    }
}

/// The error text after a reply.
pub open spec fn error_heard(before: Seq<char>, err: Option<Seq<char>>, ex: Option<Seq<char>>) -> Seq<
    char,
> {
    let printed = match err {
        Some(e) => before + e,
        None => before,
    };
    match ex {
        Some(e) => if printed.len() == 0 {
            printed + e
        } else {
            printed + " "@ + e
        },
        None => printed,
    }
}

/// The reply is one to this exchange.
pub open spec fn is_reply(h: Heard, frame: Ben) -> bool {
    match frame {
        Ben::Dict(entries) => text_under(entries, encode_utf8("id"@)) == Some(h.id),
        _ => false,
    }
}

/// What was heard after a frame.
pub open spec fn heard_after(h: Heard, frame: Ben) -> Heard {
    if is_reply(h, frame) {
        let entries = frame->Dict_0;
        Heard {
            id: h.id,
            value: match text_under(entries, encode_utf8("value"@)) {
                Some(v) => Some(v),
                None => h.value,
            },
            err_text: error_heard(
                h.err_text,
                text_under(entries, encode_utf8("err"@)),
                text_under(entries, encode_utf8("ex"@)),
            ),
        }
    } else {
        h
    }
}

/// What an evaluation came to: its last value, or the errors.
pub open spec fn concluded(h: Heard) -> Result<Seq<char>, Seq<char>> {
    if h.err_text.len() == 0 {
        Ok(
            match h.value {
                Some(v) => v,
                None => "nil"@,
            },
        )
    } else {
        Err(h.err_text)
    }
}

/// The frame ends the exchange.
pub open spec fn ends(h: Heard, frame: Ben) -> bool {
    is_reply(h, frame) && says_done(frame->Dict_0)
}

/// The views of an outcome.
pub open spec fn said(r: Option<Result<String, String>>) -> Option<Result<Seq<char>, Seq<char>>> {
    match r {
        Some(Ok(s)) => Some(Ok(s@)),
        Some(Err(e)) => Some(Err(e@)),
        None => None,
    }
}

fn done(entries: &Vec<(Vec<u8>, Bencode)>) -> (r: bool)
    ensures
        r == says_done(entry_bens(entries@)),
{
    match dict_get(entries, "status".as_bytes()) {
        Some(status) => {
            proof {
                lemma_ben_views(*status);
            }
            match status {
                Bencode::List(items) => {
                    let ghost all = bens(items@);
                    for i in 0..items.len()
                        invariant
                            all == bens(items@),
                            status.view() == Ben::List(all),
                            entry_under(entry_bens(entries@), encode_utf8("status"@)) == Some(
                                status.view(),
                            ),
                            forall|j: int|
                                0 <= j < i ==> text_in(#[trigger] all[j]) != Some("done"@),
                    {
                        assert(all[i as int] == items@[i as int].view());
                        if let Some(s) = items[i].as_str() {
                            if same_text(s.as_str(), "done") {
                                assert(text_in(all[i as int]) == Some("done"@));
                                return true;
                            }
                        }
                    }
                    false
                },
                _ => false,
            }
        },
        None => false,
    }
}

impl Exchange {
    pub open spec fn view(&self) -> Heard {
        Heard {
            id: self.id@,
            value: match self.value {
                Some(v) => Some(v@),
                None => None,
            },
            err_text: self.err_text@,
        }
    }

    /// The exchange of the message with this number.
    pub fn new(number: u64) -> (r: Exchange)
        ensures
            r.view() == (Heard {
                id: crate::decimal::digits(number as nat),
                value: None,
                err_text: Seq::empty(),
            }),
    {
        let r = Exchange { id: uint_string(number), value: None, err_text: String::new() };
        assert(r.err_text@ =~= Seq::empty());
        r
    }

    /// Take in one frame; gives what the evaluation came to when the frame ends it.
    pub fn hear(&mut self, frame: &Bencode) -> (r: Option<Result<String, String>>)
        ensures
            final(self).view() == heard_after(old(self).view(), frame.view()),
            said(r) == (if ends(old(self).view(), frame.view()) {
                Some(concluded(final(self).view()))
            } else {
                None
            }),
    {
        proof {
            lemma_ben_views(*frame);
        }
        let entries = match frame {
            Bencode::Dict(entries) => entries,
            _ => {
                return None;
            },
        };
        match bstr(entries, "id") {
            Some(id) => {
                if !same_text(id.as_str(), self.id.as_str()) {
                    return None;
                }
            },
            None => {
                return None;
            },
        }
        if let Some(v) = bstr(entries, "value") {
            self.value = Some(v);
        }
        if let Some(e) = bstr(entries, "err") {
            push_text(&mut self.err_text, e.as_str());
        }
        if let Some(e) = bstr(entries, "ex") {
            if !same_text(self.err_text.as_str(), "") {
                proof {
                    reveal_strlit("");
                    assert(self.err_text@.len() != 0) by {
                        if self.err_text@.len() == 0 {
                            assert(self.err_text@ =~= ""@);
                        }
                    }
                }
                push_text(&mut self.err_text, " ");
            } else {
                proof {
                    reveal_strlit("");
                }
            }
            push_text(&mut self.err_text, e.as_str());
        }
        if !done(entries) {
            return None;
        }
        proof {
            reveal_strlit("");
        }
        if same_text(self.err_text.as_str(), "") {
            Some(
                Ok(
                    match &self.value {
                        Some(v) => v.clone(),
                        None => text_copy("nil"),
                    },
                ),
            )
        } else {
            assert(self.err_text@.len() != 0) by {
                if self.err_text@.len() == 0 {
                    assert(self.err_text@ =~= ""@);
                }
            }
            Some(Err(self.err_text.clone()))
        }
    }

    /// Take in frames up to the one that ends the exchange.
    pub fn hear_all(&mut self, frames: &Vec<Bencode>) -> (r: Option<Result<String, String>>)
        ensures
            said(r) == conversation(old(self).view(), bens(frames@)).1,
            final(self).view() == conversation(old(self).view(), bens(frames@)).0,
    {
        let ghost all = bens(frames@);
        let mut i: usize = 0;
        assert(all.skip(0) =~= all);
        while i < frames.len()
            invariant
                i <= frames@.len(),
                all == bens(frames@),
                conversation(old(self).view(), all) == conversation(
                    self.view(),
                    all.skip(i as int),
                ),
            decreases frames@.len() - i,
        {
            assert(all.skip(i as int)[0] == frames@[i as int].view());
            assert(all.skip(i as int).skip(1) =~= all.skip(i + 1));
            let r = self.hear(&frames[i]);
            if r.is_some() {
                return r;
            }
            i = i + 1;
        }
        None
    }
}

/// What was heard of an exchange after some frames, and what it came to if one of them ended it.
pub open spec fn conversation(h: Heard, frames: Seq<Ben>) -> (
    Heard,
    Option<Result<Seq<char>, Seq<char>>>,
)
    decreases frames.len(),
{
    if frames.len() == 0 {
        (h, None)
    } else {
        let next = heard_after(h, frames[0]);
        if ends(h, frames[0]) {
            (next, Some(concluded(next)))
        } else {
            conversation(next, frames.skip(1))
        }
    }
}

// ---------------------------------------------------------------------------
// Laws
// ---------------------------------------------------------------------------

/// A character as the printer writes it in a string: a backslash before a quote and before a
/// backslash.
pub open spec fn printed_char(c: char) -> Seq<char> {
    if c == '"' {
        seq!['\\', '"']
    } else if c == '\\' {
        seq!['\\', '\\']
    } else {
        seq![c]
    }
}

/// A text as the printer writes it between the quotes of a string.
pub open spec fn printed_text(s: Seq<char>) -> Seq<char>
    decreases s.len(),
{
    if s.len() == 0 {
        Seq::empty()
    } else {
        printed_char(s[0]) + printed_text(s.skip(1))
    }
}

/// A text with its backslashes doubled.
pub open spec fn backslashes_doubled(s: Seq<char>) -> Seq<char>
    decreases s.len(),
{
    if s.len() == 0 {
        Seq::empty()
    } else if s[0] == '\\' {
        seq!['\\', '\\'] + backslashes_doubled(s.skip(1))
    } else {
        seq![s[0]] + backslashes_doubled(s.skip(1))
    }
}

proof fn lemma_quotes_unprinted(s: Seq<char>)
    ensures
        pair_replaced(printed_text(s), '\\', '"', '"') == backslashes_doubled(s),
        printed_text(s).len() > 0 ==> printed_text(s)[0] != '"',
    decreases s.len(),
{
    reveal_with_fuel(pair_replaced, 3);
    if s.len() > 0 {
        let rest = printed_text(s.skip(1));
        lemma_quotes_unprinted(s.skip(1));
        let whole = printed_text(s);
        if s[0] == '"' {
            assert(whole.skip(2) =~= rest);
            assert(whole[0] == '\\' && whole[1] == '"');
        } else if s[0] == '\\' {
            let once = whole.skip(1);
            assert(whole[0] == '\\' && whole[1] == '\\');
            assert(once =~= seq!['\\'] + rest);
            assert(once.skip(1) =~= rest);
            assert(once[0] == '\\');
            assert(once.len() >= 2 ==> once[1] == rest[0]);
            assert(pair_replaced(once, '\\', '"', '"') == seq!['\\'] + pair_replaced(
                rest,
                '\\',
                '"',
                '"',
            ));
            assert(pair_replaced(whole, '\\', '"', '"') == seq!['\\'] + pair_replaced(
                once,
                '\\',
                '"',
                '"',
            ));
            assert(seq!['\\'] + (seq!['\\'] + backslashes_doubled(s.skip(1))) =~= seq!['\\', '\\']
                + backslashes_doubled(s.skip(1)));
        } else {
            assert(whole.skip(1) =~= rest);
            assert(whole[0] == s[0]);
        }
    }
}

proof fn lemma_backslashes_undoubled(s: Seq<char>)
    ensures
        pair_replaced(backslashes_doubled(s), '\\', '\\', '\\') == s,
    decreases s.len(),
{
    if s.len() > 0 {
        lemma_backslashes_undoubled(s.skip(1));
        let rest = backslashes_doubled(s.skip(1));
        let whole = backslashes_doubled(s);
        assert(seq![s[0]] + s.skip(1) =~= s);
        if s[0] == '\\' {
            assert(whole.skip(2) =~= rest);
            assert(whole[0] == '\\' && whole[1] == '\\');
        } else {
            assert(whole.skip(1) =~= rest);
            assert(whole[0] == s[0]);
        }
    } else {
        assert(s =~= Seq::empty());
    }
}

/// A string that comes back printed reaches the host as that string: whatever the text, its
/// printed form is carried as the JSON string of the text.
pub proof fn law_printed_string_is_carried(s: Seq<char>, finite: bool)
    ensures
        json_of_printed(seq!['"'] + printed_text(s) + seq!['"'], finite) == json_string(s),
{
    let inner = printed_text(s);
    let whole = seq!['"'] + inner + seq!['"'];
    reveal_strlit("nil");
    reveal_strlit("true");
    reveal_strlit("false");
    assert("nil"@[0] == 'n' && "true"@[0] == 't' && "false"@[0] == 'f');
    assert(whole[0] == '"');
    assert(signed_number(whole) is None) by {
        if only_digits(whole) {
            assert(is_digit(whole[0]));
        }
    }
    assert(!number_chars(whole)) by {
        assert(!is_number_char(whole[0]));
    }
    assert(whole.subrange(1, whole.len() - 1) =~= inner);
    lemma_quotes_unprinted(s);
    lemma_backslashes_undoubled(s);
}

proof fn lemma_json_char(c: char)
    ensures
        forall|i: int| 0 <= i < json_char(c).len() ==> (#[trigger] json_char(c)[i] as int) >= 0x20,
        forall|i: int|
            0 <= i < json_char(c).len() && #[trigger] json_char(c)[i] == '"' ==> i > 0
                && json_char(c)[i - 1] == '\\',
{
    if 0 <= (c as int) < 0x20 {
        let high = c as int / 16;
        let low = c as int % 16;
        assert(0 <= high < 16 && 0 <= low < 16);
        assert(hex_digit(high) as int >= 0x30 && hex_digit(low) as int >= 0x30);
        assert(hex_digit(high) != '"' && hex_digit(low) != '"');
    }
}

/// Escaped text holds no control character, and no quote but behind a backslash.
pub proof fn law_escaped_text_is_inert(s: Seq<char>)
    ensures
        forall|i: int|
            0 <= i < json_escaped(s).len() ==> (#[trigger] json_escaped(s)[i] as int) >= 0x20,
        forall|i: int|
            0 <= i < json_escaped(s).len() && #[trigger] json_escaped(s)[i] == '"' ==> i > 0
                && json_escaped(s)[i - 1] == '\\',
    decreases s.len(),
{
    if s.len() > 0 {
        law_escaped_text_is_inert(s.drop_last());
        let before = json_escaped(s.drop_last());
        let c = s.last();
        let tail = json_char(c);
        let whole = json_escaped(s);
        lemma_json_char(c);
        assert forall|i: int| 0 <= i < whole.len() implies (#[trigger] whole[i] as int) >= 0x20 by {
            if i < before.len() {
                assert(whole[i] == before[i]);
            } else {
                assert(whole[i] == tail[i - before.len()]);
            }
        }
        assert forall|i: int| 0 <= i < whole.len() && #[trigger] whole[i] == '"' implies i > 0
            && whole[i - 1] == '\\' by {
            if i < before.len() {
                assert(whole[i] == before[i]);
            } else {
                assert(whole[i] == tail[i - before.len()]);
            }
        }
    }
}

/// A frame that is no reply to this exchange changes nothing and ends nothing.
pub proof fn law_other_frames_are_ignored(h: Heard, frame: Ben, frames: Seq<Ben>)
    requires
        !is_reply(h, frame),
    ensures
        conversation(h, seq![frame] + frames) == conversation(h, frames),
{
    assert((seq![frame] + frames).skip(1) =~= frames);
}

/// An exchange that ended is decided by the frames up to the one that ended it: what comes after
/// changes nothing.
pub proof fn law_later_frames_change_nothing(h: Heard, frames: Seq<Ben>, later: Seq<Ben>)
    requires
        conversation(h, frames).1 is Some,
    ensures
        conversation(h, frames + later) == conversation(h, frames),
    decreases frames.len(),
{
    if frames.len() > 0 {
        assert((frames + later)[0] == frames[0]);
        assert((frames + later).skip(1) =~= frames.skip(1) + later);
        if !ends(h, frames[0]) {
            law_later_frames_change_nothing(heard_after(h, frames[0]), frames.skip(1), later);
        }
    }
}

} // verus!
