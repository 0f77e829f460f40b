//! Laws of what goes over the wire: elements, trimmed texts, URLs and signatures.

use vstd::prelude::*;
use vstd::utf8::encode_utf8;
use crate::creds::Keys;
use crate::search::{first_from, occurs_at, without_trailing};
use crate::sign::{signed_plan, signer_for};
use crate::text::{trimmed, trimmed_end, trimmed_start, white_space};
use crate::text_laws::law_first_position;
use crate::wire::{
    blocks_from, bytes_encoded, close_tag, element_from, open_tag, parameter, parameters, tag_text,
    url_of, xml_unescaped, Planned,
};

verus! {

/// Trimming takes the white space from both ends and nothing else.
pub proof fn law_trimming(s: Seq<char>)
    ensures
        ({
            let t = trimmed(s);
            &&& t.len() > 0 ==> !white_space(t[0]) && !white_space(t.last())
            &&& exists|i: int|
                {
                    &&& 0 <= i <= s.len() - t.len()
                    &&& t == #[trigger] s.subrange(i, i + t.len())
                    &&& forall|j: int|
                        0 <= j < s.len() && (j < i || j >= i + t.len()) ==> white_space(
                            #[trigger] s[j],
                        )
                }
        }),
        s.len() > 0 && !white_space(s[0]) && !white_space(s.last()) ==> trimmed(s) == s,
{
    let m = trimmed_start(s);
    let t = trimmed(s);
    lemma_start(s);
    lemma_end(m);
    let i = s.len() - m.len();
    assert(s.subrange(i, i + t.len()) =~= t) by {
        assert(m =~= s.skip(i));
        assert(t =~= m.take(t.len() as int));
    }
    assert forall|j: int| 0 <= j < s.len() && (j < i || j >= i + t.len()) implies white_space(
        #[trigger] s[j],
    ) by {
        if j >= i {
            assert(m[j - i] == s[j]);
        }
    }
}

proof fn lemma_start(s: Seq<char>)
    ensures
        ({
            let m = trimmed_start(s);
            &&& m.len() <= s.len()
            &&& m == s.skip(s.len() - m.len())
            &&& m.len() > 0 ==> !white_space(m[0])
            &&& forall|j: int| 0 <= j < s.len() - m.len() ==> white_space(#[trigger] s[j])
        }),
    decreases s.len(),
{
    if s.len() > 0 && white_space(s[0]) {
        let r = s.skip(1);
        lemma_start(r);
        let m = trimmed_start(s);
        assert(r.skip(r.len() - m.len()) =~= s.skip(s.len() - m.len()));
        assert forall|j: int| 0 <= j < s.len() - m.len() implies white_space(#[trigger] s[j]) by {
            if j > 0 {
                assert(r[j - 1] == s[j]);
            }
        }
    } else {
        assert(s.skip(0) =~= s);
    }
}

proof fn lemma_end(s: Seq<char>)
    ensures
        ({
            let t = trimmed_end(s);
            &&& t.len() <= s.len()
            &&& t == s.take(t.len() as int)
            &&& t.len() > 0 ==> !white_space(t.last())
            &&& forall|j: int| t.len() <= j < s.len() ==> white_space(#[trigger] s[j])
        }),
    decreases s.len(),
{
    if s.len() > 0 && white_space(s.last()) {
        let r = s.drop_last();
        lemma_end(r);
        let t = trimmed_end(s);
        assert(r.take(t.len() as int) =~= s.take(t.len() as int));
        assert forall|j: int| t.len() <= j < s.len() implies white_space(#[trigger] s[j]) by {
            if j < r.len() {
                assert(r[j] == s[j]);
            }
        }
    } else {
        assert(s.take(s.len() as int) =~= s);
    }
}

/// The element at `at` with its content ends at `end`: it is the first of its name from `from` on,
/// and its content runs up to the first closing tag behind it.
pub open spec fn element_at(xml: Seq<char>, tag: Seq<char>, from: int, at: int, end: int) -> bool {
    &&& from <= at
    &&& occurs_at(xml, "<"@ + tag + ">"@, at)
    &&& forall|j: int| from <= j < at ==> !#[trigger] occurs_at(xml, "<"@ + tag + ">"@, j)
    &&& at + tag.len() + 2 <= end
    &&& occurs_at(xml, "</"@ + tag + ">"@, end)
    &&& forall|j: int|
        at + tag.len() + 2 <= j < end ==> !#[trigger] occurs_at(xml, "</"@ + tag + ">"@, j)
}

proof fn lemma_element(xml: Seq<char>, tag: Seq<char>, from: int, at: int, end: int)
    requires
        0 <= from <= xml.len(),
        element_at(xml, tag, from, at, end),
    ensures
        element_from(xml, tag, from) == Some(((at + tag.len() + 2) as int, end)),
        close_tag(tag).len() == tag.len() + 3,
{
    reveal_strlit("<");
    reveal_strlit("</");
    reveal_strlit(">");
    assert("<"@.len() == 1 && "</"@.len() == 2 && ">"@.len() == 1);
    let start = at + tag.len() + 2;
    law_first_position(xml, open_tag(tag), from);
    assert(occurs_at(xml, open_tag(tag), at));
    assert(open_tag(tag).len() == tag.len() + 2);
    match first_from(xml, open_tag(tag), from) {
        Some(i) => {
            assert(occurs_at(xml, open_tag(tag), i));
        },
        None => {},
    }
    assert(first_from(xml, open_tag(tag), from) == Some(at));
    law_first_position(xml, close_tag(tag), start);
    assert(occurs_at(xml, close_tag(tag), end));
    match first_from(xml, close_tag(tag), start) {
        Some(i) => {
            assert(occurs_at(xml, close_tag(tag), i));
        },
        None => {},
    }
}

/// The text of a tag is the content of its first element, trimmed and with its entities undone; a
/// document without the opening tag has none.
pub proof fn law_tag_texts(xml: Seq<char>, tag: Seq<char>, at: int, end: int)
    ensures
        element_at(xml, tag, 0, at, end) ==> tag_text(xml, tag) == Some(
            xml_unescaped(trimmed(xml.subrange(at + tag.len() + 2, end))),
        ),
        (forall|j: int| !#[trigger] occurs_at(xml, "<"@ + tag + ">"@, j)) ==> tag_text(xml, tag)
            is None,
{
    if element_at(xml, tag, 0, at, end) {
        lemma_element(xml, tag, 0, at, end);
    }
    if forall|j: int| !#[trigger] occurs_at(xml, "<"@ + tag + ">"@, j) {
        law_first_position(xml, open_tag(tag), 0);
        if let Some(i) = first_from(xml, open_tag(tag), 0) {
            assert(occurs_at(xml, open_tag(tag), i));
        }
    }
}

/// The blocks of a name are the contents of its elements, one after the other.
pub proof fn law_blocks(xml: Seq<char>, tag: Seq<char>, from: int, at: int, end: int)
    requires
        0 <= from <= xml.len(),
    ensures
        element_at(xml, tag, from, at, end) ==> blocks_from(xml, tag, from) == seq![
            xml.subrange(at + tag.len() + 2, end),
        ] + blocks_from(xml, tag, end + tag.len() + 3),
        (forall|j: int| from <= j ==> !#[trigger] occurs_at(xml, "<"@ + tag + ">"@, j))
            ==> blocks_from(xml, tag, from).len() == 0,
{
    if element_at(xml, tag, from, at, end) {
        lemma_element(xml, tag, from, at, end);
    }
    if forall|j: int| from <= j ==> !#[trigger] occurs_at(xml, "<"@ + tag + ">"@, j) {
        law_first_position(xml, open_tag(tag), from);
        if let Some(i) = first_from(xml, open_tag(tag), from) {
            assert(occurs_at(xml, open_tag(tag), i));
        }
    }
}

/// A URL is the endpoint without slashes at its end, the path, and a question mark with the
/// parameters where there are any, in order and with ampersands between them.
pub proof fn law_urls(
    endpoint: Seq<char>,
    path: Seq<char>,
    more: Seq<(Seq<char>, Seq<char>)>,
    p: (Seq<char>, Seq<char>),
)
    ensures
        url_of(endpoint, path, Seq::empty()) == without_trailing(endpoint, '/') + path,
        url_of(endpoint, path, more.push(p)) == without_trailing(endpoint, '/') + path + "?"@
            + parameters(more.push(p)),
        parameters(seq![p]) == parameter(p),
        more.len() > 0 ==> parameters(more.push(p)) == parameters(more) + "&"@ + parameter(p),
        p.1.len() == 0 ==> parameter(p) == bytes_encoded(encode_utf8(p.0), true),
        p.1.len() > 0 ==> parameter(p) == bytes_encoded(encode_utf8(p.0), true) + "="@
            + bytes_encoded(encode_utf8(p.1), true),
{
    assert(more.push(p).drop_last() =~= more);
}

/// A plan is signed with the credentials' keys, for its own region and service, at the given time.
/// For S3 the checksum of the body is signed too, and the path is taken as it is; for every other
/// service it is not, and the path is encoded.
pub proof fn law_signatures(plan: Planned, keys: Keys, seconds: u64)
    ensures
        ({
            let s = signer_for(plan, keys, seconds);
            &&& s.access_key_id == keys.access_key_id
            &&& s.secret_access_key == keys.secret_access_key
            &&& s.session_token == keys.session_token
            &&& s.region == plan.region
            &&& s.service == plan.service
            &&& s.seconds == seconds
        }),
        crate::sign::http_request(plan.method, plan.url, plan.headers) is Err ==> signed_plan(
            plan,
            keys,
            seconds,
        ) is Err,
        crate::sign::url_fault(plan.url) is Some ==> signed_plan(plan, keys, seconds) is Err,
        crate::sign::http_request(plan.method, plan.url, plan.headers) matches Ok(r) ==> crate::sign::url_fault(plan.url)
            is None ==> {
            let added = crate::sign::sigv4_headers(
                plan.method,
                plan.url,
                r.headers,
                plan.body,
                signer_for(plan, keys, seconds),
                plan.service == "s3"@,
                plan.service != "s3"@,
            );
            &&& signed_plan(plan, keys, seconds) is Ok <==> added is Ok
            &&& signed_plan(plan, keys, seconds) matches Ok(q) ==> q.uri == r.uri
        },
{
}

} // verus!
