//! Laws of S3 requests and responses.

use vstd::prelude::*;
use vstd::utf8::{encode_utf8, encode_utf8_decode_utf8};
use crate::bytes::lemma_lex_irreflexive;
use crate::decimal::int_text;
use crate::hash_map::entry_value;
use crate::process::{keyword_val, lossy_utf8};
use crate::s3::{
    addressed, bucket_url, equal_ignoring_case, header_value, list_query, listed_object,
    listed_prefixes, listing, long_in, long_val, lower, object_url, planned, query_maybe, shaped,
    text_in, text_val, time_val, Shape, Target,
};
use crate::search::without_trailing;
use crate::value::Val;
use crate::wire::{
    blocks_from, byte_encoded, bytes_encoded, in_order, parameters, query_with, tag_text,
    xml_escaped, Planned,
};
use crate::wire::{law_decode_undoes_encode, law_query_stays_in_order, lemma_query_position};

verus! {

proof fn lemma_operations()
    ensures
        "GetObject"@ != "HeadObject"@,
        "GetObject"@ != "PutObject"@,
        "GetObject"@ != "DeleteObject"@,
        "HeadObject"@ != "PutObject"@,
        "HeadObject"@ != "DeleteObject"@,
        "PutObject"@ != "DeleteObject"@,
        forall|s: Seq<char>|
            #![trigger s.len()]
            s == "GetObject"@ || s == "HeadObject"@ || s == "PutObject"@ || s == "DeleteObject"@
                ==> s != "HeadBucket"@ && s != "CreateBucket"@ && s != "ListObjectsV2"@,
        "HeadBucket"@ != "CreateBucket"@,
        "HeadBucket"@ != "ListObjectsV2"@,
        "CreateBucket"@ != "ListObjectsV2"@,
{
    reveal_strlit("GetObject");
    reveal_strlit("HeadObject");
    reveal_strlit("PutObject");
    reveal_strlit("DeleteObject");
    reveal_strlit("HeadBucket");
    reveal_strlit("CreateBucket");
    reveal_strlit("ListObjectsV2");
    assert("GetObject"@[0] == 'G' && "PutObject"@[0] == 'P');
    assert("HeadObject"@[4] == 'O' && "HeadBucket"@[4] == 'B');
    assert("DeleteObject"@[0] == 'D' && "CreateBucket"@[0] == 'C');
    assert("GetObject"@.len() == 9 && "PutObject"@.len() == 9 && "HeadObject"@.len() == 10);
    assert("HeadBucket"@.len() == 10 && "DeleteObject"@.len() == 12 && "CreateBucket"@.len() == 12);
    assert("ListObjectsV2"@.len() == 13);
}

/// An object is fetched with GET, looked at with HEAD, stored with PUT and removed with DELETE, at
/// its own URL. Only storing sends a body and a content type.
pub proof fn law_object_requests(
    req: Seq<(Val, Val)>,
    t: Target,
    bucket: Seq<char>,
    key: Seq<char>,
)
    requires
        text_in(req, "Bucket"@) == Some(bucket),
        text_in(req, "Key"@) == Some(key),
    ensures
        planned("GetObject"@, req, t) == Ok::<(Planned, Shape), Seq<char>>(
            (bare_request("GET"@, object_url(t, bucket, key), t), Shape::Object),
        ),
        planned("HeadObject"@, req, t) == Ok::<(Planned, Shape), Seq<char>>(
            (bare_request("HEAD"@, object_url(t, bucket, key), t), Shape::Head),
        ),
        planned("DeleteObject"@, req, t) == Ok::<(Planned, Shape), Seq<char>>(
            (bare_request("DELETE"@, object_url(t, bucket, key), t), Shape::Empty),
        ),
        planned("PutObject"@, req, t) matches Ok((p, shape)) ==> {
            &&& shape == Shape::Put
            &&& p.method == "PUT"@
            &&& p.url == object_url(t, bucket, key)
            &&& p.service == "s3"@
            &&& p.region == t.region
            &&& p.headers == (match entry_value(req, keyword_val("ContentType"@)) {
                Some(Val::Str(ct)) => seq![("content-type"@, ct)],
                _ => Seq::empty(),
            })
            &&& match entry_value(req, keyword_val("Body"@)) {
                Some(Val::Str(s)) => p.body == encode_utf8(s),
                Some(Val::ByteArray(b)) => p.body == b,
                None => p.body.len() == 0,
                _ => false,
            }
        },
        planned("PutObject"@, req, t) is Err <==> (entry_value(
            req,
            keyword_val("Body"@),
        ) matches Some(v) && !(v is Str) && !(v is ByteArray)),
{
    lemma_operations();
}

/// A request without headers and body.
pub open spec fn bare_request(method: Seq<char>, url: Seq<char>, t: Target) -> Planned {
    Planned {
        method,
        url,
        headers: Seq::empty(),
        body: Seq::empty(),
        service: "s3"@,
        region: t.region,
    }
}

/// A bucket is looked at with HEAD, created with PUT and listed with GET. Creating one names the
/// region in the body, but for `us-east-1` and for custom endpoints.
pub proof fn law_bucket_requests(req: Seq<(Val, Val)>, t: Target, bucket: Seq<char>)
    requires
        text_in(req, "Bucket"@) == Some(bucket),
    ensures
        planned("HeadBucket"@, req, t) == Ok::<(Planned, Shape), Seq<char>>(
            (bare_request("HEAD"@, bucket_url(t, bucket, Seq::empty()), t), Shape::Head),
        ),
        planned("ListObjectsV2"@, req, t) == Ok::<(Planned, Shape), Seq<char>>(
            (bare_request("GET"@, bucket_url(t, bucket, list_query(req)), t), Shape::List),
        ),
        planned("CreateBucket"@, req, t) matches Ok((p, shape)) && {
            &&& shape == Shape::Empty
            &&& p == (Planned {
                body: p.body,
                ..bare_request("PUT"@, bucket_url(t, bucket, Seq::empty()), t)
            })
            &&& t.region == "us-east-1"@ || t.endpoint is Some ==> p.body.len() == 0
            &&& t.region != "us-east-1"@ && t.endpoint is None ==> p.body == encode_utf8(
                "<CreateBucketConfiguration><LocationConstraint>"@ + xml_escaped(t.region)
                    + "</LocationConstraint></CreateBucketConfiguration>"@,
            )
        },
{
    lemma_operations();
    lemma_bucket_operations();
}

proof fn lemma_bucket_operations()
    ensures
        crate::s3::object_op("HeadBucket"@) is None,
        crate::s3::object_op("CreateBucket"@) is None,
        crate::s3::object_op("ListObjectsV2"@) is None,
{
    lemma_operations();
    assert("GetObject"@.len() >= 0 && "HeadObject"@.len() >= 0);
    assert("PutObject"@.len() >= 0 && "DeleteObject"@.len() >= 0);
}

/// A request without a bucket is refused, and so is one for an object without a key.
pub proof fn law_requests_name_their_object(op: Seq<char>, req: Seq<(Val, Val)>, t: Target)
    ensures
        text_in(req, "Bucket"@) is None ==> planned(op, req, t) == Err::<
            (Planned, Shape),
            Seq<char>,
        >(op + " needs :Bucket"@),
        text_in(req, "Bucket"@) is Some && text_in(req, "Key"@) is None && (op == "GetObject"@ || op
            == "HeadObject"@ || op == "PutObject"@ || op == "DeleteObject"@) ==> planned(op, req, t)
            == Err::<(Planned, Shape), Seq<char>>(op + " needs :Key"@),
        planned(op, req, t) is Ok ==> op == "GetObject"@ || op == "HeadObject"@ || op
            == "PutObject"@ || op == "DeleteObject"@ || op == "HeadBucket"@ || op
            == "CreateBucket"@ || op == "ListObjectsV2"@,
{
}

proof fn lemma_no_trailing(a: Seq<char>)
    ensures
        without_trailing(a + ".amazonaws.com"@, '/') == a + ".amazonaws.com"@,
{
    reveal_strlit(".amazonaws.com");
    let s = a + ".amazonaws.com"@;
    assert(s.last() == ".amazonaws.com"@.last());
    assert(".amazonaws.com"@.last() == 'm');
}

/// Where objects live. A bucket is a label of the host, or with path-style addressing the first
/// segment of the path; a custom endpoint takes the place of the service's own. The key follows,
/// percent-encoded.
pub proof fn law_object_urls(
    region: Seq<char>,
    endpoint: Seq<char>,
    bucket: Seq<char>,
    key: Seq<char>,
)
    ensures
        object_url(Target { region, endpoint: None, path_style: false }, bucket, key) == "https://"@
            + bucket + ".s3."@ + region + ".amazonaws.com"@ + "/"@ + bytes_encoded(
            encode_utf8(key),
            false,
        ),
        object_url(Target { region, endpoint: None, path_style: true }, bucket, key)
            == "https://s3."@ + region + ".amazonaws.com"@ + "/"@ + bucket + "/"@ + bytes_encoded(
            encode_utf8(key),
            false,
        ),
        object_url(Target { region, endpoint: Some(endpoint), path_style: true }, bucket, key)
            == without_trailing(endpoint, '/') + "/"@ + bucket + "/"@ + bytes_encoded(
            encode_utf8(key),
            false,
        ),
        object_url(Target { region, endpoint: Some(endpoint), path_style: false }, bucket, key)
            == without_trailing(
            crate::search::replaced(endpoint, "://"@, "://"@ + bucket + "."@),
            '/',
        ) + "/"@ + bytes_encoded(encode_utf8(key), false),
{
    let enc = bytes_encoded(encode_utf8(key), false);
    let host = "https://"@ + bucket + ".s3."@ + region;
    lemma_no_trailing(host);
    assert(object_url(Target { region, endpoint: None, path_style: false }, bucket, key) =~= host
        + ".amazonaws.com"@ + "/"@ + enc);
    let shared = "https://s3."@ + region;
    lemma_no_trailing(shared);
    assert(object_url(Target { region, endpoint: None, path_style: true }, bucket, key) =~= shared
        + ".amazonaws.com"@ + "/"@ + bucket + "/"@ + enc);
    assert(object_url(Target { region, endpoint: Some(endpoint), path_style: true }, bucket, key)
        =~= without_trailing(endpoint, '/') + "/"@ + bucket + "/"@ + enc);
    assert(object_url(Target { region, endpoint: Some(endpoint), path_style: false }, bucket, key)
        =~= without_trailing(
        crate::search::replaced(endpoint, "://"@, "://"@ + bucket + "."@),
        '/',
    ) + "/"@ + enc);
}

/// Different keys of a bucket have different URLs.
pub proof fn law_keys_have_their_own_urls(
    t: Target,
    bucket: Seq<char>,
    a: Seq<char>,
    b: Seq<char>,
)
    requires
        object_url(t, bucket, a) == object_url(t, bucket, b),
    ensures
        a == b,
{
    let x = bytes_encoded(encode_utf8(a), false);
    let y = bytes_encoded(encode_utf8(b), false);
    let front = without_trailing(addressed(t, bucket).0, '/') + addressed(t, bucket).1 + "/"@;
    assert(object_url(t, bucket, a) =~= front + x);
    assert(object_url(t, bucket, b) =~= front + y);
    assert((front + x).skip(front.len() as int) =~= x);
    assert((front + y).skip(front.len() as int) =~= y);
    law_decode_undoes_encode(encode_utf8(a), false);
    law_decode_undoes_encode(encode_utf8(b), false);
    encode_utf8_decode_utf8(a);
    encode_utf8_decode_utf8(b);
}

/// A character that a URL takes as it is.
pub open spec fn plain_in_url(c: char) -> bool {
    ||| 'a' <= c <= 'z'
    ||| 'A' <= c <= 'Z'
    ||| '0' <= c <= '9'
    ||| c == '-' || c == '.' || c == '_' || c == '~'
}

/// Encoded bytes hold only plain characters and percent signs, and slashes where they may stay.
pub proof fn law_encoded_characters(s: Seq<u8>, encode_slash: bool, i: int)
    requires
        0 <= i < bytes_encoded(s, encode_slash).len(),
    ensures
        ({
            let c = bytes_encoded(s, encode_slash)[i];
            plain_in_url(c) || c == '%' || (c == '/' && !encode_slash)
        }),
    decreases s.len(),
{
    let front = bytes_encoded(s.drop_last(), encode_slash);
    if i < front.len() {
        law_encoded_characters(s.drop_last(), encode_slash, i);
        assert(bytes_encoded(s, encode_slash)[i] == front[i]);
    } else {
        let b = s.last();
        assert(bytes_encoded(s, encode_slash)[i] == byte_encoded(b, encode_slash)[i - front.len()]);
    }
}

/// A text of plain characters encodes as itself.
pub proof fn law_plain_bytes_stay(s: Seq<u8>, encode_slash: bool)
    requires
        forall|i: int|
            0 <= i < s.len() ==> #[trigger] s[i] < 0x80 && (plain_in_url(s[i] as char) || (s[i]
                == 0x2F && !encode_slash)),
    ensures
        bytes_encoded(s, encode_slash) == Seq::new(s.len(), |i: int| s[i] as char),
    decreases s.len(),
{
    if s.len() == 0 {
        assert(bytes_encoded(s, encode_slash) =~= Seq::new(s.len(), |i: int| s[i] as char));
    } else {
        let rest = s.drop_last();
        assert forall|i: int| 0 <= i < rest.len() implies #[trigger] rest[i] < 0x80 && (plain_in_url(
            rest[i] as char,
        ) || (rest[i] == 0x2F && !encode_slash)) by {
            assert(rest[i] == s[i]);
        }
        law_plain_bytes_stay(rest, encode_slash);
        let b = s[s.len() - 1];
        assert(b < 0x80 && (plain_in_url(b as char) || (b == 0x2F && !encode_slash)));
        assert(byte_encoded(b, encode_slash) =~= seq![b as char]);
        assert(bytes_encoded(s, encode_slash) =~= Seq::new(s.len(), |i: int| s[i] as char));
    }
}

// ---------------------------------------------------------------------------
// Query parameters
// ---------------------------------------------------------------------------

/// Setting a parameter puts it there and leaves the others.
pub proof fn law_parameter_is_set(
    pairs: Seq<(Seq<char>, Seq<char>)>,
    name: Seq<char>,
    value: Seq<char>,
    p: (Seq<char>, Seq<char>),
)
    requires
        in_order(pairs),
    ensures
        query_with(pairs, name, value).contains(p) <==> (p == (name, value) || (pairs.contains(p)
            && p.0 != name)),
{
    lemma_query_position(pairs, name);
    let at = crate::wire::query_position(pairs, name);
    let after = query_with(pairs, name, value);
    lemma_lex_irreflexive(encode_utf8(name));
    let replaces = at < pairs.len() && pairs[at].0 == name;
    assert forall|j: int| 0 <= j < pairs.len() && (#[trigger] pairs[j]).0 == name implies replaces
        && j == at by {
        if j > at {
            assert(crate::bytes::lex_lt(encode_utf8(pairs[at].0), encode_utf8(pairs[j].0)));
        }
    }
    if after.contains(p) {
        let i = choose|i: int| 0 <= i < after.len() && after[i] == p;
        if i != at {
            if replaces || i < at {
                assert(pairs[i] == p);
            } else {
                assert(pairs[i - 1] == p);
            }
        }
    }
    assert(after[at] == (name, value));
    if pairs.contains(p) && p.0 != name {
        let i = choose|i: int| 0 <= i < pairs.len() && pairs[i] == p;
        if replaces || i < at {
            assert(after[i] == p);
        } else {
            assert(after[i + 1] == p);
        }
    }
}

/// Listing asks for version 2 of the listing, and hands on the prefix, the delimiter, the
/// continuation token and the number of keys where the request gives them; nothing else.
pub proof fn law_list_parameters(req: Seq<(Val, Val)>, p: (Seq<char>, Seq<char>))
    ensures
        in_order(list_query(req)),
        list_query(req).contains(p) <==> {
            ||| p == ("list-type"@, "2"@)
            ||| p.0 == "prefix"@ && text_in(req, "Prefix"@) == Some(p.1)
            ||| p.0 == "delimiter"@ && text_in(req, "Delimiter"@) == Some(p.1)
            ||| p.0 == "continuation-token"@ && text_in(req, "ContinuationToken"@) == Some(p.1)
            ||| p.0 == "max-keys"@ && (long_in(req, "MaxKeys"@) matches Some(n) && p.1 == int_text(
                n as int,
            ))
        },
{
    reveal_strlit("list-type");
    reveal_strlit("prefix");
    reveal_strlit("delimiter");
    reveal_strlit("continuation-token");
    reveal_strlit("max-keys");
    assert("list-type"@.len() == 9 && "delimiter"@.len() == 9 && "prefix"@.len() == 6);
    assert("continuation-token"@.len() == 18 && "max-keys"@.len() == 8);
    assert("list-type"@[0] == 'l' && "delimiter"@[0] == 'd');
    let none = Seq::<(Seq<char>, Seq<char>)>::empty();
    let kind = query_with(none, "list-type"@, "2"@);
    lemma_maybe_set(none, "list-type"@, Some("2"@), p);
    let prefix = query_maybe(kind, "prefix"@, text_in(req, "Prefix"@));
    lemma_maybe_set(kind, "prefix"@, text_in(req, "Prefix"@), p);
    let delimiter = query_maybe(prefix, "delimiter"@, text_in(req, "Delimiter"@));
    lemma_maybe_set(prefix, "delimiter"@, text_in(req, "Delimiter"@), p);
    let token = query_maybe(
        delimiter,
        "continuation-token"@,
        text_in(req, "ContinuationToken"@),
    );
    lemma_maybe_set(delimiter, "continuation-token"@, text_in(req, "ContinuationToken"@), p);
    let count = match long_in(req, "MaxKeys"@) {
        Some(n) => Some(int_text(n as int)),
        None => None,
    };
    lemma_maybe_set(token, "max-keys"@, count, p);
}

proof fn lemma_maybe_set(
    pairs: Seq<(Seq<char>, Seq<char>)>,
    name: Seq<char>,
    value: Option<Seq<char>>,
    p: (Seq<char>, Seq<char>),
)
    requires
        in_order(pairs),
    ensures
        in_order(query_maybe(pairs, name, value)),
        value is Some ==> (query_maybe(pairs, name, value).contains(p) <==> (p == (
            name,
            value->0,
        ) || (pairs.contains(p) && p.0 != name))),
        value is None ==> query_maybe(pairs, name, value) == pairs,
{
    if let Some(v) = value {
        law_query_stays_in_order(pairs, name, v);
        law_parameter_is_set(pairs, name, v, p);
    }
}

// ---------------------------------------------------------------------------
// Responses
// ---------------------------------------------------------------------------

/// A header is the first whose name is equal but for the case of ASCII letters.
pub proof fn law_header_lookup(headers: Seq<(Seq<char>, Seq<char>)>, name: Seq<char>, i: int)
    ensures
        0 <= i < headers.len() && equal_ignoring_case(headers[i].0, name) && (forall|j: int|
            0 <= j < i ==> !equal_ignoring_case((#[trigger] headers[j]).0, name)) ==> header_value(
            headers,
            name,
        ) == Some(headers[i].1),
        (forall|j: int|
            0 <= j < headers.len() ==> !equal_ignoring_case((#[trigger] headers[j]).0, name))
            ==> header_value(headers, name) is None,
        forall|c: char| 'A' <= c <= 'Z' ==> #[trigger] lower(c) as int == c as int + 32,
        forall|c: char| !('A' <= c <= 'Z') ==> #[trigger] lower(c) == c,
    decreases headers.len(),
{
    if headers.len() > 0 {
        let rest = headers.skip(1);
        law_header_lookup(rest, name, i - 1);
        if 0 < i < headers.len() && forall|j: int|
            0 <= j < i ==> !equal_ignoring_case((#[trigger] headers[j]).0, name) {
            assert(!equal_ignoring_case(headers[0].0, name));
            assert forall|j: int| 0 <= j < i - 1 implies !equal_ignoring_case(
                (#[trigger] rest[j]).0,
                name,
            ) by {
                assert(rest[j] == headers[j + 1]);
            }
            assert(rest[i - 1] == headers[i]);
        }
        if forall|j: int|
            0 <= j < headers.len() ==> !equal_ignoring_case((#[trigger] headers[j]).0, name) {
            assert(!equal_ignoring_case(headers[0].0, name));
            assert forall|j: int| 0 <= j < rest.len() implies !equal_ignoring_case(
                (#[trigger] rest[j]).0,
                name,
            ) by {
                assert(rest[j] == headers[j + 1]);
            }
        }
    }
}

/// An entry of a response.
pub open spec fn told(name: Seq<char>, v: Val) -> (Val, Val) {
    (keyword_val(name), v)
}

/// What the response to a stored, fetched, looked-at or removed object tells: the body as bytes,
/// the length as a number, and the other headers as texts.
pub proof fn law_object_responses(
    headers: Seq<(Seq<char>, Seq<char>)>,
    body: Seq<u8>,
    e: (Val, Val),
)
    ensures
        ({
            let etag = header_value(headers, "etag"@) matches Some(v) && e == told(
                "ETag"@,
                Val::Str(v),
            );
            let kind = header_value(headers, "content-type"@) matches Some(v) && e == told(
                "ContentType"@,
                Val::Str(v),
            );
            let length = long_val(header_value(headers, "content-length"@)) matches Some(v) && e
                == told("ContentLength"@, v);
            let changed = header_value(headers, "last-modified"@) matches Some(v) && e == told(
                "LastModified"@,
                Val::Str(v),
            );
            &&& shaped(Shape::Empty, headers, body).len() == 0
            &&& shaped(Shape::Put, headers, body).contains(e) <==> etag
            &&& shaped(Shape::Head, headers, body).contains(e) <==> length || kind || etag
                || changed
            &&& shaped(Shape::Object, headers, body).contains(e) <==> e == told(
                "Body"@,
                Val::ByteArray(body),
            ) || kind || length || etag
            &&& shaped(Shape::List, headers, body) == listing(lossy_utf8(body))
        }),
{
    let none = Seq::<(Val, Val)>::empty();
    let etag = crate::s3::maybe_entry("ETag"@, text_val(header_value(headers, "etag"@)));
    let kind = crate::s3::maybe_entry(
        "ContentType"@,
        text_val(header_value(headers, "content-type"@)),
    );
    let length = crate::s3::maybe_entry(
        "ContentLength"@,
        long_val(header_value(headers, "content-length"@)),
    );
    let changed = crate::s3::maybe_entry(
        "LastModified"@,
        text_val(header_value(headers, "last-modified"@)),
    );
    let bytes = seq![told("Body"@, Val::ByteArray(body))];
    lemma_one(told("Body"@, Val::ByteArray(body)), e);
    lemma_maybe("ETag"@, text_val(header_value(headers, "etag"@)), e);
    lemma_maybe("ContentType"@, text_val(header_value(headers, "content-type"@)), e);
    lemma_maybe("ContentLength"@, long_val(header_value(headers, "content-length"@)), e);
    lemma_maybe("LastModified"@, text_val(header_value(headers, "last-modified"@)), e);
    lemma_both(length, kind, e);
    lemma_both(length + kind, etag, e);
    lemma_both(length + kind + etag, changed, e);
    lemma_both(bytes, kind, e);
    lemma_both(bytes + kind, length, e);
    lemma_both(bytes + kind + length, etag, e);
}

proof fn lemma_one(x: (Val, Val), e: (Val, Val))
    ensures
        seq![x].contains(e) <==> x == e,
{
    assert(seq![x][0] == x);
}

pub proof fn lemma_maybe(name: Seq<char>, v: Option<Val>, e: (Val, Val))
    ensures
        crate::s3::maybe_entry(name, v).contains(e) <==> (v matches Some(w) && e == told(name, w)),
{
    if let Some(w) = v {
        lemma_one(told(name, w), e);
    }
}

pub proof fn lemma_both(a: Seq<(Val, Val)>, b: Seq<(Val, Val)>, e: (Val, Val))
    ensures
        (a + b).contains(e) <==> a.contains(e) || b.contains(e),
{
    let s = a + b;
    if a.contains(e) {
        let i = choose|i: int| 0 <= i < a.len() && a[i] == e;
        assert(s[i] == e);
    }
    if b.contains(e) {
        let i = choose|i: int| 0 <= i < b.len() && b[i] == e;
        assert(s[a.len() + i] == e);
    }
}

/// What a listing tells: its objects, its number of keys, whether it was cut, where the next part
/// starts, and the common prefixes where there are any.
pub proof fn law_listings(xml: Seq<char>, e: (Val, Val))
    ensures
        listing(xml).contains(e) <==> {
            ||| e.0 == keyword_val("Contents"@) && (e.1 matches Val::Vector(items) && items.len()
                == blocks_from(xml, "Contents"@, 0).len() && forall|i: int|
                0 <= i < items.len() ==> #[trigger] items[i] == listed_object(
                    blocks_from(xml, "Contents"@, 0)[i],
                ))
            ||| long_val(tag_text(xml, "KeyCount"@)) matches Some(v) && e == told("KeyCount"@, v)
            ||| e == told("IsTruncated"@, Val::Bool(tag_text(xml, "IsTruncated"@) == Some("true"@)))
            ||| tag_text(xml, "NextContinuationToken"@) matches Some(v) && e == told(
                "NextContinuationToken"@,
                Val::Str(v),
            )
            ||| e.0 == keyword_val("CommonPrefixes"@) && (e.1 matches Val::Vector(items)
                && items.len() > 0 && items == listed_prefixes(
                blocks_from(xml, "CommonPrefixes"@, 0),
            ))
        },
{
    let objects = blocks_from(xml, "Contents"@, 0);
    let prefixes = listed_prefixes(blocks_from(xml, "CommonPrefixes"@, 0));
    let items = Seq::new(objects.len(), |i: int| listed_object(objects[i]));
    let first = told("Contents"@, Val::Vector(items));
    let count = crate::s3::maybe_entry("KeyCount"@, long_val(tag_text(xml, "KeyCount"@)));
    let cut = told("IsTruncated"@, Val::Bool(tag_text(xml, "IsTruncated"@) == Some("true"@)));
    let token = crate::s3::maybe_entry(
        "NextContinuationToken"@,
        text_val(tag_text(xml, "NextContinuationToken"@)),
    );
    let common: Option<Val> = if prefixes.len() == 0 {
        None
    } else {
        Some(Val::Vector(prefixes))
    };
    lemma_one(first, e);
    lemma_maybe("KeyCount"@, long_val(tag_text(xml, "KeyCount"@)), e);
    lemma_one(cut, e);
    lemma_maybe(
        "NextContinuationToken"@,
        text_val(tag_text(xml, "NextContinuationToken"@)),
        e,
    );
    lemma_maybe("CommonPrefixes"@, common, e);
    lemma_both(seq![first], count, e);
    lemma_both(seq![first] + count, seq![cut], e);
    lemma_both(seq![first] + count + seq![cut], token, e);
    lemma_both(
        seq![first] + count + seq![cut] + token,
        crate::s3::maybe_entry("CommonPrefixes"@, common),
        e,
    );
    if let Val::Vector(given) = e.1 {
        if given.len() == objects.len() && forall|i: int|
            0 <= i < given.len() ==> #[trigger] given[i] == listed_object(objects[i]) {
            assert(given =~= items);
        }
    }
}

/// What a listing tells of an object: its key, its size as a number, its tag, and when it changed.
pub proof fn law_listed_objects(block: Seq<char>, e: (Val, Val))
    ensures
        listed_object(block) matches Val::HashMap(entries) && (entries.contains(e) <==> {
            ||| tag_text(block, "Key"@) matches Some(v) && e == told("Key"@, Val::Str(v))
            ||| long_val(tag_text(block, "Size"@)) matches Some(v) && e == told("Size"@, v)
            ||| tag_text(block, "ETag"@) matches Some(v) && e == told("ETag"@, Val::Str(v))
            ||| time_val(tag_text(block, "LastModified"@)) matches Some(v) && e == told(
                "LastModified"@,
                v,
            )
        }),
{
    let key = crate::s3::maybe_entry("Key"@, text_val(tag_text(block, "Key"@)));
    let size = crate::s3::maybe_entry("Size"@, long_val(tag_text(block, "Size"@)));
    let etag = crate::s3::maybe_entry("ETag"@, text_val(tag_text(block, "ETag"@)));
    let changed = crate::s3::maybe_entry(
        "LastModified"@,
        time_val(tag_text(block, "LastModified"@)),
    );
    lemma_maybe("Key"@, text_val(tag_text(block, "Key"@)), e);
    lemma_maybe("Size"@, long_val(tag_text(block, "Size"@)), e);
    lemma_maybe("ETag"@, text_val(tag_text(block, "ETag"@)), e);
    lemma_maybe("LastModified"@, time_val(tag_text(block, "LastModified"@)), e);
    lemma_both(key, size, e);
    lemma_both(key + size, etag, e);
    lemma_both(key + size + etag, changed, e);
}

/// What a request gives under a keyword is what its entry holds: a text where that is a string, a
/// number where it is a long, and nothing else.
pub proof fn law_request_entries(req: Seq<(Val, Val)>, key: Seq<char>, i: int)
    requires
        crate::hash_map::distinct_keys(req),
    ensures
        0 <= i < req.len() && req[i].0 == keyword_val(key) ==> {
            &&& text_in(req, key) == (match req[i].1 {
                Val::Str(s) => Some(s),
                _ => None,
            })
            &&& long_in(req, key) == (match req[i].1 {
                Val::Long(n) => Some(n),
                _ => None,
            })
        },
        (forall|j: int|
            0 <= j < req.len() ==> !crate::value::same((#[trigger] req[j]).0, keyword_val(key)))
            ==> text_in(req, key) is None && long_in(req, key) is None,
{
    crate::hash_map::lemma_key_position(req, keyword_val(key));
    if 0 <= i < req.len() && req[i].0 == keyword_val(key) {
        crate::hash_map::lemma_position_of(req, keyword_val(key), i);
    }
}

/// A number in a response is read as one, and left out where it is none; a time that reads as no
/// instant stays a text.
pub proof fn law_read_fields(n: i64, s: Seq<char>)
    ensures
        long_val(Some(int_text(n as int))) == Some(Val::Long(n)),
        long_val(None) is None,
        crate::parse::signed_number(s) is None ==> long_val(Some(s)) is None,
        time_val(None) is None,
        crate::instant::inst_millis(encode_utf8(s)) is None ==> time_val(Some(s)) == Some(
            Val::Str(s),
        ),
        crate::instant::inst_millis(encode_utf8(s)) matches Some(ms) ==> time_val(Some(s)) == Some(
            Val::Instant(ms as i64),
        ),
{
    crate::parse::law_long_reads_back(n);
}

/// The common prefixes are those that the blocks name, in their order.
pub proof fn law_prefixes(blocks: Seq<Seq<char>>, block: Seq<char>)
    ensures
        listed_prefixes(Seq::empty()).len() == 0,
        tag_text(block, "Prefix"@) matches Some(p) ==> listed_prefixes(blocks.push(block))
            == listed_prefixes(blocks).push(Val::Str(p)),
        tag_text(block, "Prefix"@) is None ==> listed_prefixes(blocks.push(block))
            == listed_prefixes(blocks),
{
    assert(blocks.push(block).drop_last() =~= blocks);
}

} // verus!
