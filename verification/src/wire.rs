//! HTTP exchanges with AWS services: how they are planned, and the little XML that the responses
//! need.

use vstd::prelude::*;
use vstd::utf8::*;
use crate::bytes::{lex_lt, Rank};
use crate::bytes::{lemma_lex_irreflexive, lemma_lex_total, lemma_lex_transitive};
use crate::bytes::lex_compare;
use crate::process::{env_texts, word_texts};
use crate::search::{first_from, occurs_at, replaced, without_trailing};
use crate::search::{find_from, replace_text, trim_trailing};
use crate::text::{chars_of, push_text, same_text, text_copy, trim};
use crate::text::{lemma_utf8_injective, trimmed};

verus! {

/// A fully planned HTTP exchange.
#[derive(Debug)]
pub struct Plan {
    pub method: String,
    /// The whole URL, with the query.
    pub url: String,
    pub headers: Vec<(String, String)>,
    pub body: Vec<u8>,
    /// The name of the service that the signature is for.
    pub service: String,
    pub region: String,
}

/// What a [`Plan`] holds.
pub struct Planned {
    pub method: Seq<char>,
    pub url: Seq<char>,
    pub headers: Seq<(Seq<char>, Seq<char>)>,
    pub body: Seq<u8>,
    pub service: Seq<char>,
    pub region: Seq<char>,
}

impl Plan {
    pub open spec fn view(&self) -> Planned {
        Planned {
            method: self.method@,
            url: self.url@,
            headers: env_texts(self.headers@),
            body: self.body@,
            service: self.service@,
            region: self.region@,
        }
    }
}

/// What came back of an exchange.
#[derive(Debug)]
pub struct Exchange {
    pub status: u16,
    pub headers: Vec<(String, String)>,
    pub body: Vec<u8>,
}

// ---------------------------------------------------------------------------
// XML
// ---------------------------------------------------------------------------

/// The opening tag of a name.
pub open spec fn open_tag(tag: Seq<char>) -> Seq<char> {
    "<"@ + tag + ">"@
}

/// The closing tag of a name.
pub open spec fn close_tag(tag: Seq<char>) -> Seq<char> {
    "</"@ + tag + ">"@
}

/// Where the content of the first element of a name, from `from` on, starts and ends.
pub open spec fn element_from(xml: Seq<char>, tag: Seq<char>, from: int) -> Option<(int, int)> {
    match first_from(xml, open_tag(tag), from) {
        None => None,
        Some(at) => {
            let start = at + open_tag(tag).len();
            match first_from(xml, close_tag(tag), start) {
                None => None,
                Some(end) => Some((start, end)),
            }
        },
    }
}

/// The text without the entities of XML; the ampersand comes last.
pub open spec fn xml_unescaped(s: Seq<char>) -> Seq<char> {
    replaced(
        replaced(
            replaced(
                replaced(replaced(s, "&lt;"@, "<"@), "&gt;"@, ">"@),
                "&quot;"@,
                "\""@,
            ),
            "&apos;"@,
            "'"@,
        ),
        "&amp;"@,
        "&"@,
    )
}

/// The text with the characters that XML reserves as entities; the ampersand comes first.
pub open spec fn xml_escaped(s: Seq<char>) -> Seq<char> {
    replaced(
        replaced(replaced(s, "&"@, "&amp;"@), "<"@, "&lt;"@),
        ">"@,
        "&gt;"@,
    )
}

/// The text content of the first element of a name.
pub open spec fn tag_text(xml: Seq<char>, tag: Seq<char>) -> Option<Seq<char>> {
    match element_from(xml, tag, 0) {
        Some((start, end)) => Some(xml_unescaped(trimmed(xml.subrange(start, end)))),
        None => None,
    }
}

/// The content of every element of a name, from `from` on, in order.
pub open spec fn blocks_from(xml: Seq<char>, tag: Seq<char>, from: int) -> Seq<Seq<char>>
    decreases xml.len() - from,
{
    match element_from(xml, tag, from) {
        Some((start, end)) => if from < end + close_tag(tag).len() && start <= end && end
            + close_tag(tag).len() <= xml.len() {
            seq![xml.subrange(start, end)] + blocks_from(xml, tag, (end + close_tag(tag).len()) as int)
        } else {
            Seq::empty()
        },
        None => Seq::empty(),
    }
}

fn tag_chars(before: &str, tag: &str) -> (r: Vec<char>)
    ensures
        r@ == before@ + tag@ + ">"@,
{
    let mut s = text_copy(before);
    push_text(&mut s, tag);
    push_text(&mut s, ">");
    chars_of(s.as_str())
}

pub(crate) fn part(chars: &Vec<char>, from: usize, to: usize) -> (r: String)
    requires
        from <= to <= chars@.len(),
    ensures
        r@ == chars@.subrange(from as int, to as int),
{
    let mut out = String::new();
    let ghost whole = chars@.subrange(from as int, to as int);
    assert(out@ =~= whole.take(0));
    for i in from..to
        invariant
            from <= to <= chars@.len(),
            whole == chars@.subrange(from as int, to as int),
            out@ == whole.take(i - from),
    {
        out.push(chars[i]);
        assert(whole.take(i + 1 - from) =~= whole.take(i - from).push(whole[i - from]));
    }
    assert(whole.take(to - from) =~= whole);
    out
}

pub(crate) fn element(chars: &Vec<char>, tag: &str, from: usize) -> (r: Option<(usize, usize)>)
    requires
        from <= chars@.len(),
    ensures
        (match r {
            Some((a, b)) => Some((a as int, b as int)),
            None => None,
        }) == element_from(chars@, tag@, from as int),
        r matches Some((a, b)) ==> from + open_tag(tag@).len() <= a <= b && b + close_tag(
            tag@,
        ).len() <= chars@.len(),
{
    let open = tag_chars("<", tag);
    let close = tag_chars("</", tag);
    match find_from(chars, &open, from) {
        Some(at) => {
            let total: usize = chars.len();
            assert(at + open@.len() <= total);
            let start: usize = at + open.len();
            match find_from(chars, &close, start) {
                Some(end) => Some((start, end)),
                None => None,
            }
        },
        None => None,
    }
}

/// The text content of the first element of a name.
pub fn xml_tag(xml: &str, tag: &str) -> (r: Option<String>)
    ensures
        (match r {
            Some(s) => Some(s@),
            None => None,
        }) == tag_text(xml@, tag@),
{
    let chars = chars_of(xml);
    match element(&chars, tag, 0) {
        Some((start, end)) => {
            let inner = trim(part(&chars, start, end).as_str());
            Some(xml_unescape(inner.as_str()))
        },
        None => None,
    }
}

/// The content of every element of a name, in order.
pub fn xml_blocks(xml: &str, tag: &str) -> (r: Vec<String>)
    ensures
        word_texts(r@) == blocks_from(xml@, tag@, 0),
{
    let chars = chars_of(xml);
    let mut out: Vec<String> = Vec::new();
    let mut from: usize = 0;
    let close: usize = tag_chars("</", tag).len();
    proof {
        reveal_strlit("<");
        reveal_strlit("</");
        reveal_strlit(">");
        assert(word_texts(out@) + blocks_from(xml@, tag@, 0) =~= blocks_from(xml@, tag@, 0));
    }
    loop
        invariant
            chars@ == xml@,
            from <= chars@.len(),
            close == close_tag(tag@).len(),
            close > 0,
            word_texts(out@) + blocks_from(xml@, tag@, from as int) == blocks_from(xml@, tag@, 0),
        decreases chars@.len() - from,
    {
        match element(&chars, tag, from) {
            Some((start, end)) => {
                let block = part(&chars, start, end);
                let ghost before = word_texts(out@);
                let ghost content = block@;
                out.push(block);
                assert(word_texts(out@) =~= before.push(content));
                let ghost rest = blocks_from(xml@, tag@, end + close);
                assert(before + (seq![content] + rest) =~= before.push(content) + rest);
                let total: usize = chars.len();
                assert(end + close <= total);
                from = end + close;
            },
            None => {
                assert(word_texts(out@) + blocks_from(xml@, tag@, from as int) =~= word_texts(out@));
                return out;
            },
        }
    }
}

/// The text without the entities of XML.
pub fn xml_unescape(s: &str) -> (r: String)
    ensures
        r@ == xml_unescaped(s@),
{
    proof {
        lemma_entity_lengths();
    }
    let s = replace_text(s, "&lt;", "<");
    let s = replace_text(s.as_str(), "&gt;", ">");
    let s = replace_text(s.as_str(), "&quot;", "\"");
    let s = replace_text(s.as_str(), "&apos;", "'");
    replace_text(s.as_str(), "&amp;", "&")
}

/// The text with the characters that XML reserves as entities.
pub fn xml_escape(s: &str) -> (r: String)
    ensures
        r@ == xml_escaped(s@),
{
    proof {
        lemma_entity_lengths();
    }
    let s = replace_text(s, "&", "&amp;");
    let s = replace_text(s.as_str(), "<", "&lt;");
    replace_text(s.as_str(), ">", "&gt;")
}

proof fn lemma_entity_lengths()
    ensures
        "&lt;"@.len() == 4,
        "&gt;"@.len() == 4,
        "&quot;"@.len() == 6,
        "&apos;"@.len() == 6,
        "&amp;"@.len() == 5,
        "&"@.len() == 1,
        "<"@.len() == 1,
        ">"@.len() == 1,
{
    reveal_strlit("&lt;");
    reveal_strlit("&gt;");
    reveal_strlit("&quot;");
    reveal_strlit("&apos;");
    reveal_strlit("&amp;");
    reveal_strlit("&");
    reveal_strlit("<");
    reveal_strlit(">");
}

// ---------------------------------------------------------------------------
// URLs
// ---------------------------------------------------------------------------

/// A byte that stands for itself in a URL.
pub open spec fn unreserved(b: u8) -> bool {
    (0x41 <= b <= 0x5A) || (0x61 <= b <= 0x7A) || (0x30 <= b <= 0x39) || b == 0x2D || b == 0x2E || b
        == 0x5F || b == 0x7E
}

/// A hexadecimal digit, in upper case.
pub open spec fn hex_upper(n: int) -> char {
    if n < 10 {
        ('0' as int + n) as char
    } else {
        ('A' as int + n - 10) as char
    }
}

/// A byte in a URL.
pub open spec fn byte_encoded(b: u8, encode_slash: bool) -> Seq<char> {
    if unreserved(b) || (b == 0x2F && !encode_slash) {
        seq![b as char]
    } else {
        seq!['%', hex_upper(b as int / 16), hex_upper(b as int % 16)]
    }
}

/// Bytes in a URL.
pub open spec fn bytes_encoded(s: Seq<u8>, encode_slash: bool) -> Seq<char>
    decreases s.len(),
{
    if s.len() == 0 {
        Seq::empty()
    } else {
        bytes_encoded(s.drop_last(), encode_slash) + byte_encoded(s.last(), encode_slash)
    }
}

fn hex_char(n: u8) -> (r: char)
    requires
        n < 16,
    ensures
        r == hex_upper(n as int),
{
    if n < 10 {
        (48 + n) as char
    } else {
        (65 + (n - 10)) as char
    }
}

fn push_encoded(out: &mut String, b: u8, encode_slash: bool)
    ensures
        final(out)@ == old(out)@ + byte_encoded(b, encode_slash),
{
    let ghost before = out@;
    let plain = (0x41 <= b && b <= 0x5A) || (0x61 <= b && b <= 0x7A) || (0x30 <= b && b <= 0x39) || b
        == 0x2D || b == 0x2E || b == 0x5F || b == 0x7E;
    if plain || (b == 0x2F && !encode_slash) {
        out.push(b as char);
    } else {
        out.push('%');
        out.push(hex_char(b / 16));
        out.push(hex_char(b % 16));
    }
    assert(out@ =~= before + byte_encoded(b, encode_slash));
}

/// Percent-encode one path or query value: every byte of its UTF-8 form but the unreserved ones,
/// and slashes unless they are to stay.
pub fn uri_encode(s: &str, encode_slash: bool) -> (r: String)
    ensures
        r@ == bytes_encoded(encode_utf8(s@), encode_slash),
{
    let bytes = s.as_bytes();
    let mut out = String::new();
    assert(bytes@.take(0) =~= Seq::empty());
    assert(out@ =~= Seq::empty());
    for i in 0..bytes.len()
        invariant
            out@ == bytes_encoded(bytes@.take(i as int), encode_slash),
    {
        assert(bytes@.take(i + 1).drop_last() =~= bytes@.take(i as int));
        assert(bytes@.take(i + 1).last() == bytes@[i as int]);
        push_encoded(&mut out, bytes[i], encode_slash);
    }
    assert(bytes@.take(bytes@.len() as int) =~= bytes@);
    out
}

/// Query parameters, in the order of their names.
#[derive(Debug)]
pub struct Query {
    pub pairs: Vec<(String, String)>,
}

/// Where a name belongs among the parameters: before the first name that is not below it.
pub open spec fn query_position(pairs: Seq<(Seq<char>, Seq<char>)>, name: Seq<char>) -> int
    decreases pairs.len(),
{
    if pairs.len() == 0 {
        0
    } else if lex_lt(encode_utf8(pairs.last().0), encode_utf8(name)) {
        pairs.len() as int
    } else {
        query_position(pairs.drop_last(), name)
    }
}

/// The parameters with one set.
pub open spec fn query_with(
    pairs: Seq<(Seq<char>, Seq<char>)>,
    name: Seq<char>,
    value: Seq<char>,
) -> Seq<(Seq<char>, Seq<char>)> {
    let i = query_position(pairs, name);
    if i < pairs.len() && pairs[i].0 == name {
        pairs.update(i, (name, value))
    } else {
        pairs.insert(i, (name, value))
    }
}

/// The names ascend.
pub open spec fn in_order(pairs: Seq<(Seq<char>, Seq<char>)>) -> bool {
    forall|i: int, j: int|
        0 <= i < j < pairs.len() ==> lex_lt(
            encode_utf8((#[trigger] pairs[i]).0),
            encode_utf8((#[trigger] pairs[j]).0),
        )
}

impl Query {
    pub open spec fn view(&self) -> Seq<(Seq<char>, Seq<char>)> {
        env_texts(self.pairs@)
    }

    pub fn new() -> (r: Query)
        ensures
            r.view() == Seq::<(Seq<char>, Seq<char>)>::empty(),
    {
        let r = Query { pairs: Vec::new() };
        assert(r.view() =~= Seq::<(Seq<char>, Seq<char>)>::empty());
        r
    }

    /// Set a parameter, in its place.
    pub fn insert(&mut self, name: &str, value: String)
        ensures
            final(self).view() == query_with(old(self).view(), name@, value@),
    {
        let ghost all = self.view();
        let ghost added = (name@, value@);
        let mut i: usize = self.pairs.len();
        assert(all.take(i as int) =~= all);
        let mut more = true;
        while i > 0 && more
            invariant
                i <= self.pairs@.len(),
                self.pairs@ == old(self).pairs@,
                all == self.view(),
                query_position(all, name@) == query_position(all.take(i as int), name@),
                !more ==> query_position(all, name@) == i,
            decreases
                i,
                if more {
                    1int
                } else {
                    0int
                },
        {
            assert(all.take(i as int).drop_last() =~= all.take(i - 1));
            assert(all.take(i as int).last() == all[i - 1]);
            match lex_compare(self.pairs[i - 1].0.as_str().as_bytes(), name.as_bytes()) {
                Rank::Below => {
                    more = false;
                },
                _ => {
                    proof {
                        lemma_lex_irreflexive(encode_utf8(name@));
                    }
                    assert(!lex_lt(encode_utf8(all[i - 1].0), encode_utf8(name@)));
                    assert(query_position(all.take(i as int), name@) == query_position(
                        all.take(i - 1),
                        name@,
                    ));
                    i = i - 1;
                },
            }
        }
        assert(query_position(all, name@) == i);
        if i < self.pairs.len() && same_text(self.pairs[i].0.as_str(), name) {
            self.pairs.set(i, (text_copy(name), value));
            assert(self.view() =~= all.update(i as int, added));
        } else {
            self.pairs.insert(i, (text_copy(name), value));
            assert(self.view() =~= all.insert(i as int, added));
        }
    }
}

/// A query parameter: a name alone where it has no value.
pub open spec fn parameter(p: (Seq<char>, Seq<char>)) -> Seq<char> {
    if p.1.len() == 0 {
        bytes_encoded(encode_utf8(p.0), true)
    } else {
        bytes_encoded(encode_utf8(p.0), true) + "="@ + bytes_encoded(encode_utf8(p.1), true)
    }
}

/// The query parameters, with ampersands between.
pub open spec fn parameters(pairs: Seq<(Seq<char>, Seq<char>)>) -> Seq<char>
    decreases pairs.len(),
{
    if pairs.len() == 0 {
        Seq::empty()
    } else if pairs.len() == 1 {
        parameter(pairs[0])
    } else {
        parameters(pairs.drop_last()) + "&"@ + parameter(pairs.last())
    }
}

/// A URL of an endpoint, a path and query parameters.
pub open spec fn url_of(
    endpoint: Seq<char>,
    path: Seq<char>,
    query: Seq<(Seq<char>, Seq<char>)>,
) -> Seq<char> {
    let base = without_trailing(endpoint, '/') + path;
    if query.len() == 0 {
        base
    } else {
        base + "?"@ + parameters(query)
    }
}

/// Assemble a URL from an endpoint, a path and query parameters.
pub fn build_url(endpoint: &str, path: &str, query: &Query) -> (r: String)
    ensures
        r@ == url_of(endpoint@, path@, query.view()),
{
    let mut url = trim_trailing(endpoint, '/');
    push_text(&mut url, path);
    if query.pairs.len() == 0 {
        return url;
    }
    let ghost all = query.view();
    let mut list = String::new();
    assert(list@ =~= parameters(all.take(0)));
    for i in 0..query.pairs.len()
        invariant
            all == query.view(),
            list@ == parameters(all.take(i as int)),
    {
        let ghost seen = all.take(i + 1);
        assert(seen.drop_last() =~= all.take(i as int));
        assert(seen.last() == all[i as int]);
        if i > 0 {
            push_text(&mut list, "&");
        }
        let ghost before = list@;
        let name = query.pairs[i].0.as_str();
        let value = query.pairs[i].1.as_str();
        push_text(&mut list, uri_encode(name, true).as_str());
        if !same_text(value, "") {
            proof {
                reveal_strlit("");
                if value@.len() == 0 {
                    assert(value@ =~= ""@);
                }
            }
            push_text(&mut list, "=");
            push_text(&mut list, uri_encode(value, true).as_str());
        } else {
            proof {
                reveal_strlit("");
            }
        }
        assert(list@ =~= before + parameter(all[i as int]));
        if i == 0 {
            assert(seen.len() == 1);
            assert(list@ =~= parameter(seen[0]));
        }
    }
    assert(all.take(all.len() as int) =~= all);
    push_text(&mut url, "?");
    push_text(&mut url, list.as_str());
    url
}

// ---------------------------------------------------------------------------
// Laws
// ---------------------------------------------------------------------------

pub proof fn lemma_query_position(pairs: Seq<(Seq<char>, Seq<char>)>, name: Seq<char>)
    requires
        in_order(pairs),
    ensures
        0 <= query_position(pairs, name) <= pairs.len(),
        forall|j: int|
            0 <= j < query_position(pairs, name) ==> lex_lt(
                encode_utf8((#[trigger] pairs[j]).0),
                encode_utf8(name),
            ),
        forall|j: int|
            query_position(pairs, name) <= j < pairs.len() ==> !lex_lt(
                encode_utf8((#[trigger] pairs[j]).0),
                encode_utf8(name),
            ),
    decreases pairs.len(),
{
    if pairs.len() > 0 {
        let last = pairs.len() - 1;
        if lex_lt(encode_utf8(pairs.last().0), encode_utf8(name)) {
            assert forall|j: int| 0 <= j < pairs.len() implies lex_lt(
                encode_utf8((#[trigger] pairs[j]).0),
                encode_utf8(name),
            ) by {
                if j < last {
                    assert(lex_lt(encode_utf8(pairs[j].0), encode_utf8(pairs[last].0)));
                    lemma_lex_transitive(
                        encode_utf8(pairs[j].0),
                        encode_utf8(pairs[last].0),
                        encode_utf8(name),
                    );
                }
            }
        } else {
            let rest = pairs.drop_last();
            assert(in_order(rest)) by {
                assert forall|i: int, j: int| 0 <= i < j < rest.len() implies lex_lt(
                    encode_utf8((#[trigger] rest[i]).0),
                    encode_utf8((#[trigger] rest[j]).0),
                ) by {
                    assert(lex_lt(encode_utf8(pairs[i].0), encode_utf8(pairs[j].0)));
                }
            }
            lemma_query_position(rest, name);
            let p = query_position(rest, name);
            assert forall|j: int| 0 <= j < p implies lex_lt(
                encode_utf8((#[trigger] pairs[j]).0),
                encode_utf8(name),
            ) by {
                assert(pairs[j] == rest[j]);
            }
            assert forall|j: int| p <= j < pairs.len() implies !lex_lt(
                encode_utf8((#[trigger] pairs[j]).0),
                encode_utf8(name),
            ) by {
                if j < last {
                    assert(pairs[j] == rest[j]);
                }
            }
        }
    }
}

/// Query parameters stay in the order of their names, each name once, whatever is set.
pub proof fn law_query_stays_in_order(
    pairs: Seq<(Seq<char>, Seq<char>)>,
    name: Seq<char>,
    value: Seq<char>,
)
    requires
        in_order(pairs),
    ensures
        in_order(query_with(pairs, name, value)),
{
    lemma_query_position(pairs, name);
    let p = query_position(pairs, name);
    let key = encode_utf8(name);
    let after = query_with(pairs, name, value);
    if p < pairs.len() && pairs[p].0 == name {
        assert forall|i: int, j: int| 0 <= i < j < after.len() implies lex_lt(
            encode_utf8((#[trigger] after[i]).0),
            encode_utf8((#[trigger] after[j]).0),
        ) by {
            assert(after[i].0 == pairs[i].0 && after[j].0 == pairs[j].0);
            assert(lex_lt(encode_utf8(pairs[i].0), encode_utf8(pairs[j].0)));
        }
    } else {
        assert forall|j: int| p <= j < pairs.len() implies lex_lt(
            key,
            encode_utf8((#[trigger] pairs[j]).0),
        ) by {
            let at = encode_utf8(pairs[p].0);
            if at == key {
                lemma_utf8_injective(pairs[p].0, name);
            }
            lemma_lex_total(at, key);
            if j > p {
                assert(lex_lt(at, encode_utf8(pairs[j].0)));
                lemma_lex_transitive(key, at, encode_utf8(pairs[j].0));
            }
        }
        assert forall|i: int, j: int| 0 <= i < j < after.len() implies lex_lt(
            encode_utf8((#[trigger] after[i]).0),
            encode_utf8((#[trigger] after[j]).0),
        ) by {
            if i < p && j > p {
                assert(after[i] == pairs[i] && after[j] == pairs[j - 1]);
                assert(lex_lt(encode_utf8(pairs[i].0), encode_utf8(pairs[j - 1].0)));
            } else if i < p && j < p {
                assert(after[i] == pairs[i] && after[j] == pairs[j]);
                assert(lex_lt(encode_utf8(pairs[i].0), encode_utf8(pairs[j].0)));
            } else if i < p {
                assert(after[i] == pairs[i]);
                assert(after[j].0 == name);
            } else if i == p {
                assert(after[j] == pairs[j - 1]);
                assert(after[i].0 == name);
            } else {
                assert(after[i] == pairs[i - 1] && after[j] == pairs[j - 1]);
                assert(lex_lt(encode_utf8(pairs[i - 1].0), encode_utf8(pairs[j - 1].0)));
            }
        }
    }
}

/// The value of a hexadecimal digit.
pub open spec fn hex_value(c: char) -> int {
    if '0' <= c <= '9' {
        c as int - '0' as int
    } else {
        c as int - 'A' as int + 10
    }
}

/// The bytes that percent-encoded text stands for.
pub open spec fn percent_decoded(s: Seq<char>) -> Seq<u8>
    decreases s.len(),
{
    if s.len() == 0 {
        Seq::empty()
    } else if s[0] == '%' && s.len() >= 3 {
        seq![(hex_value(s[1]) * 16 + hex_value(s[2])) as u8] + percent_decoded(s.skip(3))
    } else {
        seq![s[0] as u8] + percent_decoded(s.skip(1))
    }
}

proof fn lemma_encoded_first(s: Seq<u8>, encode_slash: bool)
    requires
        s.len() > 0,
    ensures
        bytes_encoded(s, encode_slash) == byte_encoded(s[0], encode_slash) + bytes_encoded(
            s.skip(1),
            encode_slash,
        ),
    decreases s.len(),
{
    if s.len() == 1 {
        assert(s.drop_last() =~= Seq::empty());
        assert(s.skip(1) =~= Seq::empty());
        assert(bytes_encoded(Seq::<u8>::empty(), encode_slash) =~= Seq::<char>::empty());
        assert(bytes_encoded(s, encode_slash) =~= byte_encoded(s[0], encode_slash));
        assert(byte_encoded(s[0], encode_slash) + bytes_encoded(s.skip(1), encode_slash)
            =~= byte_encoded(s[0], encode_slash));
    } else {
        lemma_encoded_first(s.drop_last(), encode_slash);
        assert(s.drop_last().skip(1) =~= s.skip(1).drop_last());
        assert(s.skip(1).last() == s.last());
        let a = byte_encoded(s[0], encode_slash);
        let b = bytes_encoded(s.skip(1).drop_last(), encode_slash);
        let c = byte_encoded(s.last(), encode_slash);
        assert(a + b + c =~= a + (b + c));
    }
}

/// Percent-encoding loses nothing: decoding gives the bytes back.
pub proof fn law_decode_undoes_encode(s: Seq<u8>, encode_slash: bool)
    ensures
        percent_decoded(bytes_encoded(s, encode_slash)) == s,
    decreases s.len(),
{
    if s.len() == 0 {
        assert(s =~= Seq::empty());
    } else {
        lemma_encoded_first(s, encode_slash);
        law_decode_undoes_encode(s.skip(1), encode_slash);
        let whole = bytes_encoded(s, encode_slash);
        let rest = bytes_encoded(s.skip(1), encode_slash);
        let b = s[0];
        assert(seq![b] + s.skip(1) =~= s);
        if unreserved(b) || (b == 0x2F && !encode_slash) {
            assert(whole.skip(1) =~= rest);
            assert(whole[0] == b as char);
            assert(b as char != '%');
            assert((b as char) as u8 == b);
        } else {
            let high = b as int / 16;
            let low = b as int % 16;
            assert(0 <= high < 16 && 0 <= low < 16);
            assert(whole.skip(3) =~= rest);
            assert(whole[0] == '%' && whole[1] == hex_upper(high) && whole[2] == hex_upper(low));
            assert(hex_value(hex_upper(high)) == high);
            assert(hex_value(hex_upper(low)) == low);
        }
    }
}

/// A character with the entity that stands for it while some of the entities are still there.
pub open spec fn half_escaped_char(c: char, lt: bool, gt: bool) -> Seq<char> {
    if c == '&' {
        "&amp;"@
    } else if c == '<' && lt {
        "&lt;"@
    } else if c == '>' && gt {
        "&gt;"@
    } else {
        seq![c]
    }
}

/// A text with its ampersands as entities, and its angle brackets as far as they are chosen.
pub open spec fn half_escaped(s: Seq<char>, lt: bool, gt: bool) -> Seq<char>
    decreases s.len(),
{
    if s.len() == 0 {
        Seq::empty()
    } else {
        half_escaped_char(s[0], lt, gt) + half_escaped(s.skip(1), lt, gt)
    }
}

proof fn lemma_entities()
    ensures
        "&amp;"@ == seq!['&', 'a', 'm', 'p', ';'],
        "&lt;"@ == seq!['&', 'l', 't', ';'],
        "&gt;"@ == seq!['&', 'g', 't', ';'],
        "&quot;"@ == seq!['&', 'q', 'u', 'o', 't', ';'],
        "&apos;"@ == seq!['&', 'a', 'p', 'o', 's', ';'],
        "&"@ == seq!['&'],
        "<"@ == seq!['<'],
        ">"@ == seq!['>'],
{
    reveal_strlit("&lt;");
    reveal_strlit("&gt;");
    reveal_strlit("&quot;");
    reveal_strlit("&apos;");
    reveal_strlit("&amp;");
    reveal_strlit("&");
    reveal_strlit("<");
    reveal_strlit(">");
    assert("&amp;"@ =~= seq!['&', 'a', 'm', 'p', ';']);
    assert("&lt;"@ =~= seq!['&', 'l', 't', ';']);
    assert("&gt;"@ =~= seq!['&', 'g', 't', ';']);
    assert("&quot;"@ =~= seq!['&', 'q', 'u', 'o', 't', ';']);
    assert("&apos;"@ =~= seq!['&', 'a', 'p', 'o', 's', ';']);
    assert("&"@ =~= seq!['&']);
    assert("<"@ =~= seq!['<']);
    assert(">"@ =~= seq!['>']);
}

/// Text in front that holds no start of the pattern passes through a replacement.
proof fn lemma_passes(front: Seq<char>, rest: Seq<char>, pat: Seq<char>, with: Seq<char>)
    requires
        pat.len() > 0,
        forall|i: int| 0 <= i < front.len() ==> !occurs_at(#[trigger] front.skip(i) + rest, pat, 0),
    ensures
        replaced(front + rest, pat, with) == front + replaced(rest, pat, with),
    decreases front.len(),
{
    if front.len() == 0 {
        assert(front + rest =~= rest);
        assert(front + replaced(rest, pat, with) =~= replaced(rest, pat, with));
    } else {
        let whole = front + rest;
        assert(front.skip(0) =~= front);
        assert(!occurs_at(whole, pat, 0));
        assert(whole.skip(1) =~= front.skip(1) + rest);
        assert forall|i: int| 0 <= i < front.skip(1).len() implies !occurs_at(
            #[trigger] front.skip(1).skip(i) + rest,
            pat,
            0,
        ) by {
            assert(front.skip(1).skip(i) =~= front.skip(i + 1));
        }
        lemma_passes(front.skip(1), rest, pat, with);
        assert(seq![whole[0]] + (front.skip(1) + replaced(rest, pat, with)) =~= front + replaced(
            rest,
            pat,
            with,
        ));
    }
}

/// The pattern does not stand where its first two characters do not.
proof fn lemma_absent(s: Seq<char>, pat: Seq<char>)
    requires
        pat.len() >= 1,
        s.len() == 0 || s[0] != pat[0] || (pat.len() >= 2 && s.len() >= 2 && s[1] != pat[1]) || (
        pat.len() >= 3 && s.len() >= 3 && s[2] != pat[2]),
    ensures
        !occurs_at(s, pat, 0),
{
    if occurs_at(s, pat, 0) {
        let sub = s.subrange(0, pat.len() as int);
        assert(sub[0] == s[0]);
        if pat.len() >= 2 {
            assert(sub[1] == s[1]);
        }
        if pat.len() >= 3 {
            assert(sub[2] == s[2]);
        }
    }
}

/// An entity passes through the replacement of another.
proof fn lemma_entity_passes(e: Seq<char>, rest: Seq<char>, pat: Seq<char>, with: Seq<char>)
    requires
        e.len() >= 3,
        pat.len() >= 3,
        pat[0] == '&',
        e[1] != pat[1] || e[2] != pat[2],
        forall|i: int| 1 <= i < e.len() ==> #[trigger] e[i] != '&',
    ensures
        replaced(e + rest, pat, with) == e + replaced(rest, pat, with),
{
    assert forall|i: int| 0 <= i < e.len() implies !occurs_at(#[trigger] e.skip(i) + rest, pat, 0) by {
        let s = e.skip(i) + rest;
        assert(s[0] == e[i]);
        if i == 0 {
            assert(s[1] == e[1] && s[2] == e[2]);
        }
        lemma_absent(s, pat);
    }
    lemma_passes(e, rest, pat, with);
}

/// A character other than an ampersand passes through the replacement of an entity.
proof fn lemma_char_passes(c: char, rest: Seq<char>, pat: Seq<char>, with: Seq<char>)
    requires
        pat.len() > 0,
        c != pat[0],
    ensures
        replaced(seq![c] + rest, pat, with) == seq![c] + replaced(rest, pat, with),
{
    assert forall|i: int| 0 <= i < seq![c].len() implies !occurs_at(
        #[trigger] seq![c].skip(i) + rest,
        pat,
        0,
    ) by {
        assert((seq![c].skip(i) + rest)[0] == c);
        lemma_absent(seq![c].skip(i) + rest, pat);
    }
    lemma_passes(seq![c], rest, pat, with);
}

/// The pattern in front is replaced.
proof fn lemma_front_replaced(rest: Seq<char>, pat: Seq<char>, with: Seq<char>)
    requires
        pat.len() > 0,
    ensures
        replaced(pat + rest, pat, with) == with + replaced(rest, pat, with),
{
    assert((pat + rest).subrange(0, pat.len() as int) =~= pat);
    assert((pat + rest).skip(pat.len() as int) =~= rest);
}

proof fn lemma_escapes(s: Seq<char>)
    ensures
        replaced(s, "&"@, "&amp;"@) == half_escaped(s, false, false),
        replaced(half_escaped(s, false, false), "<"@, "&lt;"@) == half_escaped(s, true, false),
        replaced(half_escaped(s, true, false), ">"@, "&gt;"@) == half_escaped(s, true, true),
    decreases s.len(),
{
    lemma_entities();
    if s.len() == 0 {
        assert(s =~= Seq::empty());
    } else {
        let t = s.skip(1);
        let c = s[0];
        lemma_escapes(t);
        assert(s =~= seq![c] + t);
        let none = half_escaped(t, false, false);
        let lt = half_escaped(t, true, false);
        if c == '&' {
            lemma_front_replaced(t, "&"@, "&amp;"@);
            lemma_single_absent("&amp;"@, none, "<"@, "&lt;"@);
            lemma_single_absent("&amp;"@, lt, ">"@, "&gt;"@);
        } else {
            lemma_char_passes(c, t, "&"@, "&amp;"@);
            if c == '<' {
                lemma_front_replaced(none, "<"@, "&lt;"@);
                lemma_single_absent("&lt;"@, lt, ">"@, "&gt;"@);
            } else {
                lemma_char_passes(c, none, "<"@, "&lt;"@);
                if c == '>' {
                    lemma_front_replaced(lt, ">"@, "&gt;"@);
                } else {
                    lemma_char_passes(c, lt, ">"@, "&gt;"@);
                }
            }
        }
    }
}

/// Text without the one character of a pattern passes through its replacement.
proof fn lemma_single_absent(front: Seq<char>, rest: Seq<char>, pat: Seq<char>, with: Seq<char>)
    requires
        pat.len() == 1,
        forall|i: int| 0 <= i < front.len() ==> #[trigger] front[i] != pat[0],
    ensures
        replaced(front + rest, pat, with) == front + replaced(rest, pat, with),
{
    assert forall|i: int| 0 <= i < front.len() implies !occurs_at(
        #[trigger] front.skip(i) + rest,
        pat,
        0,
    ) by {
        assert((front.skip(i) + rest)[0] == front[i]);
        lemma_absent(front.skip(i) + rest, pat);
    }
    lemma_passes(front, rest, pat, with);
}

proof fn lemma_unescapes(s: Seq<char>)
    ensures
        replaced(half_escaped(s, true, true), "&lt;"@, "<"@) == half_escaped(s, false, true),
        replaced(half_escaped(s, false, true), "&gt;"@, ">"@) == half_escaped(s, false, false),
        replaced(half_escaped(s, false, false), "&quot;"@, "\""@) == half_escaped(s, false, false),
        replaced(half_escaped(s, false, false), "&apos;"@, "'"@) == half_escaped(s, false, false),
        replaced(half_escaped(s, false, false), "&amp;"@, "&"@) == s,
    decreases s.len(),
{
    lemma_entities();
    if s.len() == 0 {
        assert(s =~= Seq::empty());
    } else {
        let t = s.skip(1);
        let c = s[0];
        lemma_unescapes(t);
        assert(s =~= seq![c] + t);
        let both = half_escaped(t, true, true);
        let gt = half_escaped(t, false, true);
        let none = half_escaped(t, false, false);
        if c == '&' {
            lemma_entity_passes("&amp;"@, both, "&lt;"@, "<"@);
            lemma_entity_passes("&amp;"@, gt, "&gt;"@, ">"@);
            lemma_entity_passes("&amp;"@, none, "&quot;"@, "\""@);
            lemma_entity_passes("&amp;"@, none, "&apos;"@, "'"@);
            lemma_front_replaced(none, "&amp;"@, "&"@);
        } else {
            if c == '<' {
                lemma_front_replaced(both, "&lt;"@, "<"@);
            } else if c == '>' {
                lemma_entity_passes("&gt;"@, both, "&lt;"@, "<"@);
            } else {
                lemma_char_passes(c, both, "&lt;"@, "<"@);
            }
            if c == '>' {
                lemma_front_replaced(gt, "&gt;"@, ">"@);
            } else {
                lemma_char_passes(c, gt, "&gt;"@, ">"@);
            }
            lemma_char_passes(c, none, "&quot;"@, "\""@);
            lemma_char_passes(c, none, "&apos;"@, "'"@);
            lemma_char_passes(c, none, "&amp;"@, "&"@);
        }
    }
}

/// What is escaped for XML reads back as it was.
pub proof fn law_unescape_undoes_escape(s: Seq<char>)
    ensures
        xml_unescaped(xml_escaped(s)) == s,
{
    lemma_escapes(s);
    lemma_unescapes(s);
}

} // verus!
