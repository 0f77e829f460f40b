//! S3 operations: how a request is planned, and what a response is made of. Custom endpoints and
//! path-style addressing are supported.

use vstd::prelude::*;
use vstd::utf8::encode_utf8;
use crate::bytes::bytes_copy;
use crate::decimal::int_text;
use crate::decimal::int_string;
use crate::form_value::find_entry;
use crate::hash_map::entry_value;
use crate::instant::inst_millis;
use crate::instant::parse_rfc3339_millis;
use crate::parse::signed_number;
use crate::parse::parse_i64;
use crate::process::{env_texts, keyword_val, lossy_utf8, maybe_text, word_texts};
use crate::process::lossy_text;
use crate::s3_laws::{law_bucket_requests, law_object_requests};
use crate::search::replaced;
use crate::search::replace_text;
use crate::text::{chars_of, push_text, same_text, text_copy};
use crate::value::{kind_of, lemma_views, pair_vals, vals, Val};
use crate::value::{Name, Value};
use crate::wire::{blocks_from, bytes_encoded, query_with, tag_text, url_of, xml_escaped, Planned};
use crate::wire::{build_url, uri_encode, xml_blocks, xml_escape, xml_tag, Exchange, Plan, Query};

verus! {

/// Where S3 requests go.
#[derive(Debug)]
pub struct S3Target {
    pub region: String,
    pub endpoint: Option<String>,
    pub path_style: bool,
}

/// What an [`S3Target`] holds.
pub struct Target {
    pub region: Seq<char>,
    pub endpoint: Option<Seq<char>>,
    pub path_style: bool,
}

impl S3Target {
    pub open spec fn view(&self) -> Target {
        Target {
            region: self.region@,
            endpoint: maybe_text(self.endpoint),
            path_style: self.path_style,
        }
    }
}

/// How a successful exchange becomes a value.
#[derive(Clone, Copy, Debug, PartialEq, Eq, Structural)]
pub enum Shape {
    Object,
    Head,
    Put,
    Empty,
    List,
}

fn kw(name: &str) -> (r: Value)
    ensures
        r.view() == keyword_val(name@),
{
    Value::Keyword(Name::simple(name))
}

// ---------------------------------------------------------------------------
// Requests
// ---------------------------------------------------------------------------

/// The text under a keyword of a request.
pub open spec fn text_in(req: Seq<(Val, Val)>, key: Seq<char>) -> Option<Seq<char>> {
    match entry_value(req, keyword_val(key)) {
        Some(Val::Str(s)) => Some(s),
        _ => None,
    }
}

/// The long under a keyword of a request.
pub open spec fn long_in(req: Seq<(Val, Val)>, key: Seq<char>) -> Option<i64> {
    match entry_value(req, keyword_val(key)) {
        Some(Val::Long(n)) => Some(n),
        _ => None,
    }
}

fn get_str(req: &Vec<(Value, Value)>, key: &str) -> (r: Option<String>)
    ensures
        maybe_text(r) == text_in(pair_vals(req@), key@),
{
    match find_entry(req, &kw(key)) {
        Some(Value::Str(s)) => Some(s.clone()),
        _ => None,
    }
}

fn get_long(req: &Vec<(Value, Value)>, key: &str) -> (r: Option<i64>)
    ensures
        r == long_in(pair_vals(req@), key@),
{
    match find_entry(req, &kw(key)) {
        Some(Value::Long(n)) => Some(*n),
        _ => None,
    }
}

/// The endpoint and the path prefix for a bucket.
pub open spec fn addressed(t: Target, bucket: Seq<char>) -> (Seq<char>, Seq<char>) {
    match (t.endpoint, t.path_style) {
        (Some(ep), true) => (ep, "/"@ + bucket),
        (Some(ep), false) => (replaced(ep, "://"@, "://"@ + bucket + "."@), Seq::empty()),
        (None, true) => ("https://s3."@ + t.region + ".amazonaws.com"@, "/"@ + bucket),
        (None, false) => (
            "https://"@ + bucket + ".s3."@ + t.region + ".amazonaws.com"@,
            Seq::empty(),
        ),
    }
}

/// The endpoint and the path prefix for a bucket.
pub fn addressing(t: &S3Target, bucket: &str) -> (r: (String, String))
    ensures
        (r.0@, r.1@) == addressed(t.view(), bucket@),
{
    let mut prefix = text_copy("/");
    push_text(&mut prefix, bucket);
    let none = String::new();
    assert(none@ =~= Seq::empty());
    match &t.endpoint {
        Some(ep) => {
            if t.path_style {
                return (ep.clone(), prefix);
            }
            let mut label = text_copy("://");
            push_text(&mut label, bucket);
            push_text(&mut label, ".");
            proof {
                reveal_strlit("://");
            }
            (replace_text(ep.as_str(), "://", label.as_str()), none)
        },
        None => {
            if t.path_style {
                let mut base = text_copy("https://s3.");
                push_text(&mut base, t.region.as_str());
                push_text(&mut base, ".amazonaws.com");
                return (base, prefix);
            }
            let mut base = text_copy("https://");
            push_text(&mut base, bucket);
            push_text(&mut base, ".s3.");
            push_text(&mut base, t.region.as_str());
            push_text(&mut base, ".amazonaws.com");
            (base, none)
        },
    }
}

/// The plan of a request.
pub open spec fn s3_plan(
    method: Seq<char>,
    url: Seq<char>,
    headers: Seq<(Seq<char>, Seq<char>)>,
    body: Seq<u8>,
    region: Seq<char>,
) -> Planned {
    Planned { method, url, headers, body, service: "s3"@, region }
}

/// The URL of an object.
pub open spec fn object_url(t: Target, bucket: Seq<char>, key: Seq<char>) -> Seq<char> {
    url_of(
        addressed(t, bucket).0,
        addressed(t, bucket).1 + "/"@ + bytes_encoded(encode_utf8(key), false),
        Seq::empty(),
    )
}

/// The URL of a bucket, with a query.
pub open spec fn bucket_url(
    t: Target,
    bucket: Seq<char>,
    query: Seq<(Seq<char>, Seq<char>)>,
) -> Seq<char> {
    url_of(addressed(t, bucket).0, addressed(t, bucket).1 + "/"@, query)
}

/// The body of an object to put, or what is wrong with it.
pub open spec fn put_body(req: Seq<(Val, Val)>) -> Result<Seq<u8>, Seq<char>> {
    match entry_value(req, keyword_val("Body"@)) {
        Some(Val::Str(s)) => Ok(encode_utf8(s)),
        Some(Val::ByteArray(b)) => Ok(b),
        None => Ok(Seq::empty()),
        Some(other) => Err(":Body must be a string or byte array, got "@ + kind_of(other)),
    }
}

/// The headers of an object to put.
pub open spec fn put_headers(req: Seq<(Val, Val)>) -> Seq<(Seq<char>, Seq<char>)> {
    match text_in(req, "ContentType"@) {
        Some(ct) => seq![("content-type"@, ct)],
        None => Seq::empty(),
    }
}

/// The body that creates a bucket: it names the region, but for the default one and for custom
/// endpoints.
pub open spec fn create_body(t: Target) -> Seq<u8> {
    if t.region == "us-east-1"@ || t.endpoint is Some {
        Seq::empty()
    } else {
        encode_utf8(
            "<CreateBucketConfiguration><LocationConstraint>"@ + xml_escaped(t.region)
                + "</LocationConstraint></CreateBucketConfiguration>"@,
        )
    }
}

/// The query with a parameter, where there is one.
pub open spec fn query_maybe(
    query: Seq<(Seq<char>, Seq<char>)>,
    name: Seq<char>,
    value: Option<Seq<char>>,
) -> Seq<(Seq<char>, Seq<char>)> {
    match value {
        Some(v) => query_with(query, name, v),
        None => query,
    }
}

/// The query that lists a bucket.
pub open spec fn list_query(req: Seq<(Val, Val)>) -> Seq<(Seq<char>, Seq<char>)> {
    let kind = query_with(Seq::empty(), "list-type"@, "2"@);
    let prefix = query_maybe(kind, "prefix"@, text_in(req, "Prefix"@));
    let delimiter = query_maybe(prefix, "delimiter"@, text_in(req, "Delimiter"@));
    let token = query_maybe(
        delimiter,
        "continuation-token"@,
        text_in(req, "ContinuationToken"@),
    );
    query_maybe(
        token,
        "max-keys"@,
        match long_in(req, "MaxKeys"@) {
            Some(n) => Some(int_text(n as int)),
            None => None,
        },
    )
}

/// An operation that is not built in.
pub open spec fn unsupported(op: Seq<char>) -> Seq<char> {
    "unsupported s3 op :"@ + op
        + " (supported: GetObject PutObject DeleteObject HeadObject HeadBucket CreateBucket ListObjectsV2; use pod-babashka-aws for the full surface)"@
}

/// The method of an operation on one object, and how its response becomes a value.
pub open spec fn object_op(op: Seq<char>) -> Option<(Seq<char>, Shape)> {
    if op == "GetObject"@ {
        Some(("GET"@, Shape::Object))
    } else if op == "HeadObject"@ {
        Some(("HEAD"@, Shape::Head))
    } else if op == "DeleteObject"@ {
        Some(("DELETE"@, Shape::Empty))
    } else if op == "PutObject"@ {
        Some(("PUT"@, Shape::Put))
    } else {
        None
    }
}

/// The plan of an operation on one object.
pub open spec fn object_planned(op: Seq<char>, req: Seq<(Val, Val)>, t: Target, bucket: Seq<char>) -> Result<
    (Planned, Shape),
    Seq<char>,
> {
    match text_in(req, "Key"@) {
        None => Err(op + " needs :Key"@),
        Some(key) => {
            let (method, shape) = object_op(op)->Some_0;
            let url = object_url(t, bucket, key);
            if shape is Put {
                match put_body(req) {
                    Err(e) => Err(e),
                    Ok(body) => Ok(
                        (s3_plan(method, url, put_headers(req), body, t.region), shape),
                    ),
                }
            } else {
                Ok((s3_plan(method, url, Seq::empty(), Seq::empty(), t.region), shape))
            }
        },
    }
}

/// The plan of an operation, and how its response becomes a value; or what is wrong with the
/// request.
pub open spec fn planned(op: Seq<char>, req: Seq<(Val, Val)>, t: Target) -> Result<
    (Planned, Shape),
    Seq<char>,
> {
    match text_in(req, "Bucket"@) {
        None => Err(op + " needs :Bucket"@),
        Some(bucket) => if object_op(op) is Some {
            object_planned(op, req, t, bucket)
        } else if op == "HeadBucket"@ {
            Ok(
                (
                    s3_plan(
                        "HEAD"@,
                        bucket_url(t, bucket, Seq::empty()),
                        Seq::empty(),
                        Seq::empty(),
                        t.region,
                    ),
                    Shape::Head,
                ),
            )
        } else if op == "CreateBucket"@ {
            Ok(
                (
                    s3_plan(
                        "PUT"@,
                        bucket_url(t, bucket, Seq::empty()),
                        Seq::empty(),
                        create_body(t),
                        t.region,
                    ),
                    Shape::Empty,
                ),
            )
        } else if op == "ListObjectsV2"@ {
            Ok(
                (
                    s3_plan(
                        "GET"@,
                        bucket_url(t, bucket, list_query(req)),
                        Seq::empty(),
                        Seq::empty(),
                        t.region,
                    ),
                    Shape::List,
                ),
            )
        } else {
            Err(unsupported(op))
        },
    }
}

fn make_plan(
    method: &str,
    url: String,
    headers: Vec<(String, String)>,
    body: Vec<u8>,
    region: &str,
) -> (r: Plan)
    ensures
        r.view() == s3_plan(method@, url@, env_texts(headers@), body@, region@),
{
    Plan {
        method: text_copy(method),
        url,
        headers,
        body,
        service: text_copy("s3"),
        region: text_copy(region),
    }
}

fn no_headers() -> (r: Vec<(String, String)>)
    ensures
        env_texts(r@) == Seq::<(Seq<char>, Seq<char>)>::empty(),
{
    let r: Vec<(String, String)> = Vec::new();
    assert(env_texts(r@) =~= Seq::<(Seq<char>, Seq<char>)>::empty());
    r
}

fn needs(op: &str, what: &str) -> (r: String)
    ensures
        r@ == op@ + what@,
{
    let mut m = text_copy(op);
    push_text(&mut m, what);
    m
}

/// The view of a plan or an error.
pub open spec fn plan_view(r: Result<(Plan, Shape), String>) -> Result<(Planned, Shape), Seq<char>> {
    match r {
        Ok((p, s)) => Ok((p.view(), s)),
        Err(e) => Err(e@),
    }
}

fn object_method(op: &str) -> (r: Option<(&'static str, Shape)>)
    ensures
        (match r {
            Some((m, s)) => Some((m@, s)),
            None => None,
        }) == object_op(op@),
{
    if same_text(op, "GetObject") {
        Some(("GET", Shape::Object))
    } else if same_text(op, "HeadObject") {
        Some(("HEAD", Shape::Head))
    } else if same_text(op, "DeleteObject") {
        Some(("DELETE", Shape::Empty))
    } else if same_text(op, "PutObject") {
        Some(("PUT", Shape::Put))
    } else {
        None
    }
}

fn body_to_put(req: &Vec<(Value, Value)>) -> (r: Result<Vec<u8>, String>)
    ensures
        (match r {
            Ok(b) => Ok::<Seq<u8>, Seq<char>>(b@),
            Err(e) => Err(e@),
        }) == put_body(pair_vals(req@)),
{
    match find_entry(req, &kw("Body")) {
        Some(Value::Str(s)) => Ok(bytes_copy(s.as_str().as_bytes())),
        Some(Value::ByteArray(b)) => Ok(bytes_copy(b)),
        None => Ok(Vec::new()),
        Some(other) => Err(needs(":Body must be a string or byte array, got ", other.kind())),
    }
}

fn plan_object(op: &str, req: &Vec<(Value, Value)>, t: &S3Target, bucket: &str) -> (r: Result<
    (Plan, Shape),
    String,
>)
    requires
        object_op(op@) is Some,
    ensures
        plan_view(r) == object_planned(op@, pair_vals(req@), t.view(), bucket@),
{
    let key = match get_str(req, "Key") {
        Some(k) => k,
        None => {
            return Err(needs(op, " needs :Key"));
        },
    };
    let (base, prefix) = addressing(t, bucket);
    let mut path = prefix;
    push_text(&mut path, "/");
    push_text(&mut path, uri_encode(key.as_str(), false).as_str());
    let url = build_url(base.as_str(), path.as_str(), &Query::new());
    match object_method(op) {
        Some((method, shape)) => {
            if let Shape::Put = shape {
                let body = match body_to_put(req) {
                    Ok(b) => b,
                    Err(e) => {
                        return Err(e);
                    },
                };
                let mut headers = no_headers();
                if let Some(ct) = get_str(req, "ContentType") {
                    let ghost c = ct@;
                    headers.push((text_copy("content-type"), ct));
                    assert(env_texts(headers@) =~= seq![("content-type"@, c)]);
                }
                return Ok(
                    (make_plan(method, url, headers, body, t.region.as_str()), shape),
                );
            }
            Ok((make_plan(method, url, no_headers(), Vec::new(), t.region.as_str()), shape))
        },
        None => Err(text_copy("")),
    }
}

fn set_maybe(query: &mut Query, name: &str, value: Option<String>)
    ensures
        final(query).view() == query_maybe(old(query).view(), name@, maybe_text(value)),
{
    if let Some(v) = value {
        query.insert(name, v);
    }
}

fn query_to_list(req: &Vec<(Value, Value)>) -> (r: Query)
    ensures
        r.view() == list_query(pair_vals(req@)),
{
    let mut query = Query::new();
    query.insert("list-type", text_copy("2"));
    set_maybe(&mut query, "prefix", get_str(req, "Prefix"));
    set_maybe(&mut query, "delimiter", get_str(req, "Delimiter"));
    set_maybe(&mut query, "continuation-token", get_str(req, "ContinuationToken"));
    let max = match get_long(req, "MaxKeys") {
        Some(n) => Some(int_string(n)),
        None => None,
    };
    set_maybe(&mut query, "max-keys", max);
    query
}

fn body_to_create(t: &S3Target) -> (r: Vec<u8>)
    ensures
        r@ == create_body(t.view()),
{
    if same_text(t.region.as_str(), "us-east-1") || t.endpoint.is_some() {
        return Vec::new();
    }
    let mut xml = text_copy("<CreateBucketConfiguration><LocationConstraint>");
    push_text(&mut xml, xml_escape(t.region.as_str()).as_str());
    push_text(&mut xml, "</LocationConstraint></CreateBucketConfiguration>");
    bytes_copy(xml.as_str().as_bytes())
}

/// Plan one S3 operation. Gives the plan and how a successful response becomes a value.
pub fn plan(op: &str, req: &Vec<(Value, Value)>, t: &S3Target) -> (r: Result<(Plan, Shape), String>)
    ensures
        plan_view(r) == planned(op@, pair_vals(req@), t.view()),
        text_in(pair_vals(req@), "Bucket"@) is Some && text_in(pair_vals(req@), "Key"@) is Some
            ==> {
            &&& op@ == "GetObject"@ ==> (r matches Ok((p, s)) && p.method@ == "GET"@)
            &&& op@ == "HeadObject"@ ==> (r matches Ok((p, s)) && p.method@ == "HEAD"@)
            &&& op@ == "DeleteObject"@ ==> (r matches Ok((p, s)) && p.method@ == "DELETE"@)
            &&& op@ == "PutObject"@ ==> (r matches Ok((p, s)) ==> p.method@ == "PUT"@)
        },
        text_in(pair_vals(req@), "Bucket"@) is Some ==> {
            &&& op@ == "HeadBucket"@ ==> (r matches Ok((p, s)) && p.method@ == "HEAD"@)
            &&& op@ == "CreateBucket"@ ==> (r matches Ok((p, s)) && p.method@ == "PUT"@)
            &&& op@ == "ListObjectsV2"@ ==> (r matches Ok((p, s)) && p.method@ == "GET"@)
        },
{
    proof {
        if let Some(bucket) = text_in(pair_vals(req@), "Bucket"@) {
            law_bucket_requests(pair_vals(req@), t.view(), bucket);
            if let Some(key) = text_in(pair_vals(req@), "Key"@) {
                law_object_requests(pair_vals(req@), t.view(), bucket, key);
            }
        }
    }
    let bucket = match get_str(req, "Bucket") {
        Some(b) => b,
        None => {
            return Err(needs(op, " needs :Bucket"));
        },
    };
    if object_method(op).is_some() {
        return plan_object(op, req, t, bucket.as_str());
    }
    let (base, prefix) = addressing(t, bucket.as_str());
    let mut path = prefix;
    push_text(&mut path, "/");
    if same_text(op, "HeadBucket") {
        let url = build_url(base.as_str(), path.as_str(), &Query::new());
        return Ok(
            (make_plan("HEAD", url, no_headers(), Vec::new(), t.region.as_str()), Shape::Head),
        );
    }
    if same_text(op, "CreateBucket") {
        let url = build_url(base.as_str(), path.as_str(), &Query::new());
        let body = body_to_create(t);
        return Ok((make_plan("PUT", url, no_headers(), body, t.region.as_str()), Shape::Empty));
    }
    if same_text(op, "ListObjectsV2") {
        let url = build_url(base.as_str(), path.as_str(), &query_to_list(req));
        return Ok(
            (make_plan("GET", url, no_headers(), Vec::new(), t.region.as_str()), Shape::List),
        );
    }
    let mut m = needs("unsupported s3 op :", op);
    push_text(
        &mut m,
        " (supported: GetObject PutObject DeleteObject HeadObject HeadBucket CreateBucket ListObjectsV2; use pod-babashka-aws for the full surface)",
    );
    Err(m)
}

// ---------------------------------------------------------------------------
// Responses
// ---------------------------------------------------------------------------

/// An ASCII capital as the small letter.
pub open spec fn lower(c: char) -> char {
    if 'A' <= c <= 'Z' {
        (c as int + 32) as char
    } else {
        c
    }
}

/// Two texts are equal but for the case of ASCII letters.
pub open spec fn equal_ignoring_case(a: Seq<char>, b: Seq<char>) -> bool {
    a.len() == b.len() && forall|i: int| 0 <= i < a.len() ==> lower(#[trigger] a[i]) == lower(b[i])
}

fn lower_char(c: char) -> (r: char)
    ensures
        r == lower(c),
{
    if 'A' <= c && c <= 'Z' {
        ((c as u8) + 32) as char
    } else {
        c
    }
}

fn same_ignoring_case(a: &str, b: &str) -> (r: bool)
    ensures
        r == equal_ignoring_case(a@, b@),
{
    let x = chars_of(a);
    let y = chars_of(b);
    if x.len() != y.len() {
        return false;
    }
    for i in 0..x.len()
        invariant
            x@ == a@,
            y@ == b@,
            x@.len() == y@.len(),
            forall|j: int| 0 <= j < i ==> lower(#[trigger] a@[j]) == lower(b@[j]),
    {
        if lower_char(x[i]) != lower_char(y[i]) {
            assert(lower(a@[i as int]) != lower(b@[i as int]));
            return false;
        }
    }
    true
}

/// The value of the first header of a name.
pub open spec fn header_value(headers: Seq<(Seq<char>, Seq<char>)>, name: Seq<char>) -> Option<
    Seq<char>,
>
    decreases headers.len(),
{
    if headers.len() == 0 {
        None
    } else if equal_ignoring_case(headers[0].0, name) {
        Some(headers[0].1)
    } else {
        header_value(headers.skip(1), name)
    }
}

fn header(ex: &Exchange, name: &str) -> (r: Option<String>)
    ensures
        maybe_text(r) == header_value(env_texts(ex.headers@), name@),
{
    let ghost all = env_texts(ex.headers@);
    let mut i: usize = 0;
    assert(all.skip(0) =~= all);
    while i < ex.headers.len()
        invariant
            i <= ex.headers@.len(),
            all == env_texts(ex.headers@),
            header_value(all, name@) == header_value(all.skip(i as int), name@),
        decreases ex.headers@.len() - i,
    {
        assert(all.skip(i as int)[0] == all[i as int]);
        assert(all.skip(i as int).skip(1) =~= all.skip(i + 1));
        if same_ignoring_case(ex.headers[i].0.as_str(), name) {
            return Some(ex.headers[i].1.clone());
        }
        i = i + 1;
    }
    None
}

/// An entry under a keyword, where there is a value.
pub open spec fn maybe_entry(name: Seq<char>, v: Option<Val>) -> Seq<(Val, Val)> {
    match v {
        Some(v) => seq![(keyword_val(name), v)],
        None => Seq::empty(),
    }
}

/// A text as a value.
pub open spec fn text_val(s: Option<Seq<char>>) -> Option<Val> {
    match s {
        Some(s) => Some(Val::Str(s)),
        None => None,
    }
}

/// A text that reads as a long, as a value.
pub open spec fn long_val(s: Option<Seq<char>>) -> Option<Val> {
    match s {
        Some(s) => match signed_number(s) {
            Some(n) => Some(Val::Long(n as i64)),
            None => None,
        },
        None => None,
    }
}

/// A timestamp as an instant where it reads as one, else as its text.
pub open spec fn time_val(s: Option<Seq<char>>) -> Option<Val> {
    match s {
        Some(s) => match inst_millis(encode_utf8(s)) {
            Some(ms) => Some(Val::Instant(ms as i64)),
            None => Some(Val::Str(s)),
        },
        None => None,
    }
}

/// An object of a listing.
pub open spec fn listed_object(block: Seq<char>) -> Val {
    Val::HashMap(
        maybe_entry("Key"@, text_val(tag_text(block, "Key"@))) + maybe_entry(
            "Size"@,
            long_val(tag_text(block, "Size"@)),
        ) + maybe_entry("ETag"@, text_val(tag_text(block, "ETag"@))) + maybe_entry(
            "LastModified"@,
            time_val(tag_text(block, "LastModified"@)),
        ),
    )
}

/// The prefixes that blocks name.
pub open spec fn listed_prefixes(blocks: Seq<Seq<char>>) -> Seq<Val>
    decreases blocks.len(),
{
    if blocks.len() == 0 {
        Seq::empty()
    } else {
        match tag_text(blocks.last(), "Prefix"@) {
            Some(p) => listed_prefixes(blocks.drop_last()).push(Val::Str(p)),
            None => listed_prefixes(blocks.drop_last()),
        }
    }
}

/// The entries that a listing becomes.
pub open spec fn listing(xml: Seq<char>) -> Seq<(Val, Val)> {
    let objects = blocks_from(xml, "Contents"@, 0);
    let prefixes = listed_prefixes(blocks_from(xml, "CommonPrefixes"@, 0));
    seq![
        (
            keyword_val("Contents"@),
            Val::Vector(Seq::new(objects.len(), |i: int| listed_object(objects[i]))),
        ),
    ] + maybe_entry("KeyCount"@, long_val(tag_text(xml, "KeyCount"@))) + seq![
        (
            keyword_val("IsTruncated"@),
            Val::Bool(tag_text(xml, "IsTruncated"@) == Some("true"@)),
        ),
    ] + maybe_entry(
        "NextContinuationToken"@,
        text_val(tag_text(xml, "NextContinuationToken"@)),
    ) + maybe_entry(
        "CommonPrefixes"@,
        if prefixes.len() == 0 {
            None
        } else {
            Some(Val::Vector(prefixes))
        },
    )
}

/// The entries that a successful response becomes.
pub open spec fn shaped(
    shape: Shape,
    headers: Seq<(Seq<char>, Seq<char>)>,
    body: Seq<u8>,
) -> Seq<(Val, Val)> {
    let etag = maybe_entry("ETag"@, text_val(header_value(headers, "etag"@)));
    let kind = maybe_entry("ContentType"@, text_val(header_value(headers, "content-type"@)));
    let length = maybe_entry(
        "ContentLength"@,
        long_val(header_value(headers, "content-length"@)),
    );
    match shape {
        Shape::Empty => Seq::empty(),
        Shape::Put => etag,
        Shape::Object => seq![(keyword_val("Body"@), Val::ByteArray(body))] + kind + length + etag,
        Shape::Head => length + kind + etag + maybe_entry(
            "LastModified"@,
            text_val(header_value(headers, "last-modified"@)),
        ),
        Shape::List => listing(lossy_utf8(body)),
    }
}

fn put(entries: &mut Vec<(Value, Value)>, name: &str, v: Value)
    ensures
        pair_vals(final(entries)@) == pair_vals(old(entries)@).push((keyword_val(name@), v.view())),
{
    let ghost before = pair_vals(entries@);
    let ghost added = (keyword_val(name@), v.view());
    entries.push((kw(name), v));
    assert(pair_vals(entries@) =~= before.push(added));
}

fn put_text(entries: &mut Vec<(Value, Value)>, name: &str, s: Option<String>)
    ensures
        pair_vals(final(entries)@) == pair_vals(old(entries)@) + maybe_entry(
            name@,
            text_val(maybe_text(s)),
        ),
{
    let ghost before = pair_vals(entries@);
    if let Some(s) = s {
        put(entries, name, Value::Str(s));
    }
    assert(pair_vals(entries@) =~= before + maybe_entry(name@, text_val(maybe_text(s))));
}

fn put_long(entries: &mut Vec<(Value, Value)>, name: &str, s: Option<String>)
    ensures
        pair_vals(final(entries)@) == pair_vals(old(entries)@) + maybe_entry(
            name@,
            long_val(maybe_text(s)),
        ),
{
    let ghost before = pair_vals(entries@);
    let ghost wanted = maybe_entry(name@, long_val(maybe_text(s)));
    if let Some(s) = s {
        if let Some(n) = parse_i64(s.as_str()) {
            put(entries, name, Value::Long(n));
        }
    }
    assert(pair_vals(entries@) =~= before + wanted);
}

fn put_time(entries: &mut Vec<(Value, Value)>, name: &str, s: Option<String>)
    ensures
        pair_vals(final(entries)@) == pair_vals(old(entries)@) + maybe_entry(
            name@,
            time_val(maybe_text(s)),
        ),
{
    let ghost before = pair_vals(entries@);
    let ghost wanted = maybe_entry(name@, time_val(maybe_text(s)));
    if let Some(s) = s {
        match parse_rfc3339_millis(s.as_str()) {
            Ok(ms) => {
                put(entries, name, Value::Instant(ms));
            },
            Err(_) => {
                put(entries, name, Value::Str(s));
            },
        }
    }
    assert(pair_vals(entries@) =~= before + wanted);
}

fn map_of(entries: Vec<(Value, Value)>) -> (r: Value)
    ensures
        r.view() == Val::HashMap(pair_vals(entries@)),
{
    let r = Value::HashMap(entries);
    proof {
        lemma_views(r);
    }
    r
}

fn no_entries() -> (r: Vec<(Value, Value)>)
    ensures
        pair_vals(r@) == Seq::<(Val, Val)>::empty(),
{
    let r: Vec<(Value, Value)> = Vec::new();
    assert(pair_vals(r@) =~= Seq::<(Val, Val)>::empty());
    r
}

fn object_of(block: &str) -> (r: Value)
    ensures
        r.view() == listed_object(block@),
{
    let mut e = no_entries();
    put_text(&mut e, "Key", xml_tag(block, "Key"));
    put_long(&mut e, "Size", xml_tag(block, "Size"));
    put_text(&mut e, "ETag", xml_tag(block, "ETag"));
    put_time(&mut e, "LastModified", xml_tag(block, "LastModified"));
    assert(pair_vals(e@) =~= listed_object(block@)->HashMap_0);
    map_of(e)
}

fn objects_of(xml: &str) -> (r: Value)
    ensures
        r.view() == Val::Vector(
            Seq::new(
                blocks_from(xml@, "Contents"@, 0).len(),
                |i: int| listed_object(blocks_from(xml@, "Contents"@, 0)[i]),
            ),
        ),
{
    let blocks = xml_blocks(xml, "Contents");
    let ghost all = blocks_from(xml@, "Contents"@, 0);
    let mut items: Vec<Value> = Vec::new();
    for i in 0..blocks.len()
        invariant
            all == word_texts(blocks@),
            items@.len() == i,
            forall|j: int| 0 <= j < i ==> (#[trigger] items@[j]).view() == listed_object(all[j]),
    {
        items.push(object_of(blocks[i].as_str()));
    }
    let r = Value::Vector(items);
    proof {
        lemma_views(r);
        assert(vals(items@) =~= Seq::new(all.len(), |i: int| listed_object(all[i])));
    }
    r
}

fn prefixes_of(xml: &str) -> (r: Vec<Value>)
    ensures
        vals(r@) == listed_prefixes(blocks_from(xml@, "CommonPrefixes"@, 0)),
{
    let blocks = xml_blocks(xml, "CommonPrefixes");
    let ghost all = blocks_from(xml@, "CommonPrefixes"@, 0);
    let mut items: Vec<Value> = Vec::new();
    assert(all.take(0) =~= Seq::empty());
    assert(vals(items@) =~= Seq::empty());
    for i in 0..blocks.len()
        invariant
            all == word_texts(blocks@),
            vals(items@) == listed_prefixes(all.take(i as int)),
    {
        assert(all.take(i + 1).drop_last() =~= all.take(i as int));
        assert(all.take(i + 1).last() == blocks@[i as int]@);
        if let Some(p) = xml_tag(blocks[i].as_str(), "Prefix") {
            let ghost before = vals(items@);
            let ghost text = p@;
            items.push(Value::Str(p));
            assert(vals(items@) =~= before.push(Val::Str(text)));
        }
    }
    assert(all.take(all.len() as int) =~= all);
    items
}

fn is_true(s: Option<String>) -> (r: bool)
    ensures
        r == (maybe_text(s) == Some("true"@)),
{
    match s {
        Some(s) => same_text(s.as_str(), "true"),
        None => false,
    }
}

/// The value that a listing becomes.
pub fn shape_listing(xml: &str) -> (r: Value)
    ensures
        r.view() == Val::HashMap(listing(xml@)),
{
    let mut m = no_entries();
    put(&mut m, "Contents", objects_of(xml));
    put_long(&mut m, "KeyCount", xml_tag(xml, "KeyCount"));
    put(&mut m, "IsTruncated", Value::Bool(is_true(xml_tag(xml, "IsTruncated"))));
    put_text(&mut m, "NextContinuationToken", xml_tag(xml, "NextContinuationToken"));
    let prefixes = prefixes_of(xml);
    let ghost found = vals(prefixes@);
    if prefixes.len() > 0 {
        let v = Value::Vector(prefixes);
        proof {
            lemma_views(v);
        }
        put(&mut m, "CommonPrefixes", v);
    }
    assert(pair_vals(m@) =~= listing(xml@));
    map_of(m)
}

/// The value that a successful response becomes.
pub fn shape_response(shape: &Shape, ex: &Exchange) -> (r: Value)
    ensures
        r.view() == Val::HashMap(shaped(*shape, env_texts(ex.headers@), ex.body@)),
{
    let mut m = no_entries();
    match shape {
        Shape::Empty => {},
        Shape::Put => {
            put_text(&mut m, "ETag", header(ex, "etag"));
        },
        Shape::Object => {
            put(&mut m, "Body", Value::ByteArray(bytes_copy(&ex.body)));
            put_text(&mut m, "ContentType", header(ex, "content-type"));
            put_long(&mut m, "ContentLength", header(ex, "content-length"));
            put_text(&mut m, "ETag", header(ex, "etag"));
        },
        Shape::Head => {
            put_long(&mut m, "ContentLength", header(ex, "content-length"));
            put_text(&mut m, "ContentType", header(ex, "content-type"));
            put_text(&mut m, "ETag", header(ex, "etag"));
            put_text(&mut m, "LastModified", header(ex, "last-modified"));
        },
        Shape::List => {
            return shape_listing(lossy_text(&ex.body).as_str());
        },
    }
    assert(pair_vals(m@) =~= shaped(*shape, env_texts(ex.headers@), ex.body@));
    map_of(m)
}

} // verus!
