//! Signing planned exchanges: the signature as headers of a request, or as a query of a URL.

use aws_credential_types::Credentials;
use aws_sigv4::http_request::PayloadChecksumKind::{NoHeader, XAmzSha256};
use aws_sigv4::http_request::SignableBody::{Bytes, UnsignedPayload};
use aws_sigv4::http_request::SignatureLocation::QueryParams;
use aws_sigv4::http_request::{sign, SignableRequest, SigningInstructions, SigningSettings};
use aws_sigv4::sign::v4::SigningParams;
use std::iter::empty;
use std::time::{Duration, UNIX_EPOCH};
use vstd::prelude::*;
use vstd::utf8::{encode_utf8, valid_utf8};
use crate::creds::{Creds, Keys};
use crate::process::{env_texts, maybe_text};
use crate::text::{chars_of, push_text, same_text, text_copy, text_from_utf8};
use crate::wire::{bytes_encoded, unreserved, uri_encode, Plan, Planned};

verus! {

/// Names and values, in order.
pub type Pairs = Seq<(Seq<char>, Seq<char>)>;

/// The first second of year 10000.
pub const END_OF_TIME: u64 = 253_402_300_800;

/// How many bytes a URL may hold.
pub const URL_ROOM: usize = 65_534;

/// How many headers a request to sign may have. A map of more may be asked to grow over its limit
/// by an unlucky list, and that ends in a panic.
pub const HEADER_ROOM: usize = 6_549;

/// The bytes that the query parameters of a signature take at most in a URL, but for what names
/// the signer.
pub const PARAMS_ROOM: usize = 274;

// ---------------------------------------------------------------------------
// Requests
// ---------------------------------------------------------------------------

/// A request: where it goes, and its headers.
#[derive(Debug)]
pub struct SignedRequest {
    pub uri: String,
    pub headers: Vec<(String, String)>,
}

/// What a [`SignedRequest`] holds.
pub struct Request {
    pub uri: Seq<char>,
    pub headers: Pairs,
}

impl SignedRequest {
    pub open spec fn view(&self) -> Request {
        Request { uri: self.uri@, headers: env_texts(self.headers@) }
    }
}

/// The view of a request or an error.
pub open spec fn request_view(r: Result<SignedRequest, String>) -> Result<Request, Seq<char>> {
    match r {
        Ok(q) => Ok(q.view()),
        Err(e) => Err(e@),
    }
}

/// The view of a text or an error.
pub open spec fn text_view(r: Result<String, String>) -> Result<Seq<char>, Seq<char>> {
    match r {
        Ok(s) => Ok(s@),
        Err(e) => Err(e@),
    }
}

/// What `http` makes of a method, a URL and headers.
pub uninterp spec fn http_request(
    method: Seq<char>,
    url: Seq<char>,
    headers: Seq<(Seq<char>, Seq<char>)>,
) -> Result<Request, Seq<char>>;

/// `http::request::Builder`: the URI as `http` writes it and the headers in the order of its map,
/// every one of them, a value that is not visible ASCII as the empty text; else what is wrong with
/// the parts.
#[verifier::external_body]
fn build_request(method: &str, url: &str, headers: &Vec<(String, String)>) -> (r: Result<
    SignedRequest,
    String,
>)
    ensures
        request_view(r) == http_request(method@, url@, env_texts(headers@)),
        r matches Ok(q) ==> q.headers@.len() == headers@.len(),
{
    let start = http::Request::builder().method(method).uri(url);
    let request = headers.iter().fold(start, |b, h| b.header(&h.0, &h.1)).body(());
    let request = request.map_err(|e| e.to_string())?;
    let pairs = request.headers().iter();
    let headers = pairs.map(|(k, v)| (k.to_string(), v.to_str().unwrap_or("").to_string()));
    Ok(SignedRequest { uri: request.uri().to_string(), headers: headers.collect() })
}

// ---------------------------------------------------------------------------
// Signatures
// ---------------------------------------------------------------------------

/// What is to be added to a request: `aws_sigv4::http_request::SigningInstructions`.
#[verifier::external_type_specification]
#[verifier::external_body]
pub struct ExSigningInstructions(aws_sigv4::http_request::SigningInstructions);

/// The headers that instructions hold.
pub uninterp spec fn instructed_headers(i: SigningInstructions) -> Seq<(Seq<char>, Seq<char>)>;

/// The query parameters that instructions hold.
pub uninterp spec fn instructed_params(i: SigningInstructions) -> Seq<(Seq<char>, Seq<char>)>;

/// Who signs, for what and when.
pub struct Signer {
    pub access_key_id: Seq<char>,
    pub secret_access_key: Seq<char>,
    pub session_token: Option<Seq<char>>,
    pub region: Seq<char>,
    pub service: Seq<char>,
    /// Epoch seconds.
    pub seconds: u64,
}

/// The headers of a SigV4 signature; else why the request cannot be signed.
pub uninterp spec fn sigv4_headers(
    method: Seq<char>,
    url: Seq<char>,
    headers: Seq<(Seq<char>, Seq<char>)>,
    body: Seq<u8>,
    signer: Signer,
    checksum: bool,
    normalize: bool,
) -> Result<Seq<(Seq<char>, Seq<char>)>, Seq<char>>;

/// The query parameters of a SigV4 signature; else why the URL cannot be signed.
pub uninterp spec fn sigv4_params(
    method: Seq<char>,
    url: Seq<char>,
    signer: Signer,
    expires: u64,
    normalize: bool,
) -> Result<Seq<(Seq<char>, Seq<char>)>, Seq<char>>;

/// What is wrong with a URL that is to be signed.
pub uninterp spec fn url_fault(url: Seq<char>) -> Option<Seq<char>>;

/// `aws_sigv4::http_request::SignableRequest::new`, of which only the URL decides: `None` where it
/// is a URI, else what is said of it.
#[verifier::external_body]
fn fault_of_url(url: &str) -> (r: Option<String>)
    ensures
        maybe_text(r) == url_fault(url@),
{
    SignableRequest::new("GET", url, empty(), UnsignedPayload).err().map(|e| e.to_string())
}

/// A letter in lower case, if it is one of ASCII.
pub open spec fn lower(c: char) -> char {
    if 'A' <= c <= 'Z' {
        (c as u8 + 32) as char
    } else {
        c
    }
}

/// The text starts with another, whatever the case of its letters.
pub open spec fn starts_like(s: Seq<char>, start: Seq<char>) -> bool {
    start.len() <= s.len() && forall|i: int|
        0 <= i < start.len() ==> lower(#[trigger] s[i]) == start[i]
}

/// A URL with a scheme: if it is one at all, it names a host.
pub open spec fn has_scheme(url: Seq<char>) -> bool {
    starts_like(url, "http://"@) || starts_like(url, "https://"@)
}

/// The bytes of a text.
pub open spec fn size_of(s: Seq<char>) -> nat {
    encode_utf8(s).len()
}

/// The bytes of a text once it is percent-encoded.
pub open spec fn encoded_size(s: Seq<char>) -> nat {
    bytes_encoded(encode_utf8(s), true).len()
}

/// A hexadecimal digit.
pub open spec fn is_hex(b: u8) -> bool {
    0x30 <= b <= 0x39 || 0x41 <= b <= 0x46 || 0x61 <= b <= 0x66
}

/// The value of a hexadecimal digit.
pub open spec fn hex_of(b: u8) -> int {
    if b <= 0x39 {
        b - 0x30
    } else if b <= 0x46 {
        b - 0x41 + 10
    } else {
        b - 0x61 + 10
    }
}

/// An escape stands in front.
pub open spec fn escape_first(q: Seq<u8>) -> bool {
    q.len() >= 3 && q[0] == 0x25 && is_hex(q[1]) && is_hex(q[2])
}

/// The byte that the escape in front stands for.
pub open spec fn escaped_byte(q: Seq<u8>) -> u8 {
    (hex_of(q[1]) * 16 + hex_of(q[2])) as u8
}

/// A query with its escapes taken away.
pub open spec fn unescaped(q: Seq<u8>) -> Seq<u8>
    decreases q.len(),
{
    if q.len() == 0 {
        q
    } else if escape_first(q) {
        seq![escaped_byte(q)] + unescaped(q.skip(3))
    } else {
        seq![q[0]] + unescaped(q.skip(1))
    }
}

/// The bytes that a byte takes in a query; `wide` for one outside of ASCII.
pub open spec fn byte_room(b: u8, wide: nat) -> nat {
    if unreserved(b) {
        1
    } else if b < 0x80 {
        3
    } else {
        wide
    }
}

/// The bytes that a query takes once it is read and encoded again: a mark before each parameter and
/// an equals sign in it, and its name and its value. `inside` in the midst of a parameter, `named`
/// behind its equals sign.
pub open spec fn query_room(q: Seq<u8>, inside: bool, named: bool, wide: nat) -> nat
    decreases q.len(),
{
    if q.len() == 0 {
        0
    } else if q[0] == 0x26 {
        query_room(q.skip(1), false, false, wide)
    } else {
        let start: nat = if inside {
            0
        } else {
            2
        };
        if q[0] == 0x3D && !named {
            start + query_room(q.skip(1), true, true, wide)
        } else if escape_first(q) {
            start + byte_room(escaped_byte(q), wide) + query_room(q.skip(3), true, named, wide)
        } else {
            start + byte_room(q[0], wide) + query_room(q.skip(1), true, named, wide)
        }
    }
}

/// The bytes that a byte outside of ASCII takes in a query that is encoded again: three, but nine
/// where the query is no UTF-8 and the byte may have to be replaced.
pub open spec fn wide_room(q: Seq<u8>) -> nat {
    if valid_utf8(unescaped(q)) {
        3
    } else {
        9
    }
}

/// The bytes that a URL takes with its query encoded again.
pub open spec fn url_room(u: Seq<u8>) -> nat
    decreases u.len(),
{
    if u.len() == 0 {
        1
    } else if u[0] == 0x3F {
        1 + query_room(u.skip(1), false, false, wide_room(u.skip(1)))
    } else {
        1 + url_room(u.skip(1))
    }
}

/// A text that a header's value may hold.
pub open spec fn header_text(s: Seq<char>) -> bool {
    forall|i: int|
        0 <= i < encode_utf8(s).len() ==> ((#[trigger] encode_utf8(s)[i]) >= 0x20 && encode_utf8(
            s,
        )[i] != 0x7F) || encode_utf8(s)[i] == 0x09
}

/// What a signer can sign: a URL with a scheme, before the year 10000, that stays short enough for
/// a URL once its query is encoded again.
pub open spec fn can_sign(url: Seq<char>, signer: Signer) -> bool {
    &&& has_scheme(url)
    &&& signer.seconds < END_OF_TIME
    &&& url_room(encode_utf8(url)) <= URL_ROOM
}

/// What a plan's signature can be put on: few enough headers, and a signer who can be named in one.
pub open spec fn can_sign_plan(plan: Planned, signer: Signer) -> bool {
    &&& can_sign(plan.url, signer)
    &&& plan.headers.len() <= HEADER_ROOM
    &&& header_text(signer.access_key_id)
    &&& header_text(signer.region)
    &&& header_text(signer.service)
}

/// The bytes that the query parameters of a signature take at most in a URL.
pub open spec fn signature_room(signer: Signer) -> nat {
    PARAMS_ROOM as nat + encoded_size(signer.access_key_id) + encoded_size(signer.region)
        + encoded_size(signer.service) + (match signer.session_token {
        Some(t) => encoded_size(t),
        None => 0,
    })
}

/// What a signer can presign: what they can sign, where the signature still fits into the URL.
pub open spec fn can_presign(url: Seq<char>, signer: Signer) -> bool {
    &&& can_sign(url, signer)
    &&& url_room(encode_utf8(url)) + signature_room(signer) <= URL_ROOM
    &&& size_of(url) + 1 + signature_room(signer) <= URL_ROOM
}

/// The pairs of borrowed texts.
pub open spec fn borrowed_texts(pairs: Seq<(&str, &str)>) -> Pairs {
    Seq::new(pairs.len(), |i: int| (pairs[i].0@, pairs[i].1@))
}

/// The headers of instructions, or the error.
pub open spec fn added_headers(r: Result<SigningInstructions, String>) -> Result<
    Pairs,
    Seq<char>,
> {
    match r {
        Ok(i) => Ok(instructed_headers(i)),
        Err(e) => Err(e@),
    }
}

/// The query parameters of instructions, or the error.
pub open spec fn added_params(r: Result<SigningInstructions, String>) -> Result<
    Pairs,
    Seq<char>,
> {
    match r {
        Ok(i) => Ok(instructed_params(i)),
        Err(e) => Err(e@),
    }
}

/// `aws_sigv4::http_request::sign`, with the signature in headers over the body's bytes; else what
/// it says of the request. It panics on a URI without a host, on a time past the year 9999, on too
/// many headers, and where the query, encoded again, is too long for a URI.
#[verifier::external_body]
fn sign_in_headers(
    method: &str,
    url: &str,
    headers: Vec<(&str, &str)>,
    body: &[u8],
    key: &str,
    secret: &str,
    token: Option<String>,
    region: &str,
    service: &str,
    seconds: u64,
    checksum: bool,
    normalize: bool,
) -> (r: Result<SigningInstructions, String>)
    requires
        can_sign(url@, signer_of(key@, secret@, maybe_text(token), region@, service@, seconds)),
        url_fault(url@) is None,
        headers@.len() <= HEADER_ROOM,
    ensures
        added_headers(r) == sigv4_headers(
            method@,
            url@,
            borrowed_texts(headers@),
            body@,
            signer_of(key@, secret@, maybe_text(token), region@, service@, seconds),
            checksum,
            normalize,
        ),
{
    let identity = Credentials::new(key, secret, token, None, "cljrsh").into();
    let mut settings = SigningSettings::default();
    settings.payload_checksum_kind = [NoHeader, XAmzSha256][usize::from(checksum)];
    settings.uri_path_normalization_mode = normalize.into();
    let time = UNIX_EPOCH + Duration::from_secs(seconds);
    let params = SigningParams::builder().identity(&identity).region(region).name(service);
    let params = params.time(time).settings(settings).build().map_err(|e| e.to_string())?.into();
    let request = SignableRequest::new(method, url, headers.into_iter(), Bytes(body));
    let signed = request.and_then(|r| sign(r, &params)).map_err(|e| e.to_string())?;
    Ok(signed.into_parts().0)
}

/// `aws_sigv4::http_request::sign`, with the signature in query parameters that expire, over no
/// body and no headers; else what it says of the URL. It gives no headers, and parameters of a
/// bounded size: those that every signature has, and what names the signer, each once. It panics
/// where [`sign_in_headers`] does, and where the query is too long with the parameters.
#[verifier::external_body]
fn sign_in_query(
    method: &str,
    url: &str,
    key: &str,
    secret: &str,
    token: Option<String>,
    region: &str,
    service: &str,
    seconds: u64,
    expires: u64,
    normalize: bool,
) -> (r: Result<SigningInstructions, String>)
    requires
        can_presign(url@, signer_of(key@, secret@, maybe_text(token), region@, service@, seconds)),
        url_fault(url@) is None,
    ensures
        added_params(r) == sigv4_params(
            method@,
            url@,
            signer_of(key@, secret@, maybe_text(token), region@, service@, seconds),
            expires,
            normalize,
        ),
        r matches Ok(i) ==> instructed_headers(i).len() == 0 && params_room(instructed_params(i))
            <= signature_room(
            signer_of(key@, secret@, maybe_text(token), region@, service@, seconds),
        ),
{
    let identity = Credentials::new(key, secret, token, None, "cljrsh").into();
    let mut settings = SigningSettings::default();
    settings.signature_location = QueryParams;
    settings.expires_in = Some(Duration::from_secs(expires));
    settings.uri_path_normalization_mode = normalize.into();
    let time = UNIX_EPOCH + Duration::from_secs(seconds);
    let params = SigningParams::builder().identity(&identity).region(region).name(service);
    let params = params.time(time).settings(settings).build().map_err(|e| e.to_string())?.into();
    let request = SignableRequest::new(method, url, empty(), UnsignedPayload);
    let signed = request.and_then(|r| sign(r, &params)).map_err(|e| e.to_string())?;
    Ok(signed.into_parts().0)
}

/// `SigningInstructions::headers`.
#[verifier::external_body]
fn headers_of(i: &SigningInstructions) -> (r: Vec<(String, String)>)
    ensures
        env_texts(r@) == instructed_headers(*i),
{
    i.headers().map(|(k, v)| (k.to_string(), v.to_string())).collect()
}

/// What `SigningInstructions::apply_to_request_http1x` makes of a URL.
pub uninterp spec fn url_with_params(
    method: Seq<char>,
    url: Seq<char>,
    params: Seq<(Seq<char>, Seq<char>)>,
) -> Result<Seq<char>, Seq<char>>;

/// `SigningInstructions::apply_to_request_http1x`, on a request without headers or body, then its
/// URI as `http` writes it; else what is wrong with the method or the URL. It panics where the URL
/// would be too long, and on a header value that is none.
#[verifier::external_body]
fn apply_params(method: &str, url: &str, i: SigningInstructions) -> (r: Result<String, String>)
    requires
        has_scheme(url@),
        instructed_headers(i).len() == 0,
        fits(url@, instructed_params(i)),
    ensures
        text_view(r) == url_with_params(method@, url@, instructed_params(i)),
{
    let built = http::Request::builder().method(method).uri(url).body(());
    let mut request = built.map_err(|e| e.to_string())?;
    i.apply_to_request_http1x(&mut request);
    Ok(request.uri().to_string())
}

pub open spec fn signer_of(
    key: Seq<char>,
    secret: Seq<char>,
    token: Option<Seq<char>>,
    region: Seq<char>,
    service: Seq<char>,
    seconds: u64,
) -> Signer {
    Signer {
        access_key_id: key,
        secret_access_key: secret,
        session_token: token,
        region,
        service,
        seconds,
    }
}

/// The bytes that query parameters take in a URL.
pub open spec fn params_room(params: Pairs) -> nat
    decreases params.len(),
{
    if params.len() == 0 {
        0
    } else {
        params_room(params.drop_last()) + encoded_size(params.last().0) + encoded_size(
            params.last().1,
        ) + 2
    }
}

/// The URL stays one with the query parameters.
pub open spec fn fits(url: Seq<char>, params: Pairs) -> bool {
    size_of(url) + 1 + params_room(params) <= URL_ROOM
}

// ---------------------------------------------------------------------------
// What can be signed
// ---------------------------------------------------------------------------

/// The signer of a plan.
pub open spec fn signer_for(plan: Planned, keys: Keys, seconds: u64) -> Signer {
    signer_of(
        keys.access_key_id,
        keys.secret_access_key,
        keys.session_token,
        plan.region,
        plan.service,
        seconds,
    )
}

fn lower_char(c: char) -> (r: char)
    ensures
        r == lower(c),
{
    if 'A' <= c && c <= 'Z' {
        (c as u8 + 32) as char
    } else {
        c
    }
}

fn starts_with(s: &str, start: &str) -> (r: bool)
    ensures
        r == starts_like(s@, start@),
{
    let all = chars_of(s);
    let first = chars_of(start);
    let total: usize = first.len();
    if all.len() < total {
        return false;
    }
    for i in 0..total
        invariant
            all@ == s@,
            first@ == start@,
            total == first@.len(),
            total <= all@.len(),
            forall|j: int| 0 <= j < i ==> lower(#[trigger] all@[j]) == first@[j],
    {
        if lower_char(all[i]) != first[i] {
            assert(lower(s@[i as int]) != start@[i as int]);
            return false;
        }
    }
    true
}

fn size(s: &str) -> (r: u128)
    ensures
        r == size_of(s@),
        r <= usize::MAX,
{
    s.as_bytes().len() as u128
}

fn encoded(s: &str) -> (r: u128)
    ensures
        r == encoded_size(s@),
        r <= usize::MAX,
{
    chars_of(uri_encode(s, true).as_str()).len() as u128
}

fn hex_digit(b: u8) -> (r: Option<u8>)
    ensures
        match r {
            Some(n) => is_hex(b) && n == hex_of(b) && n < 16,
            None => !is_hex(b),
        },
{
    if 0x30 <= b && b <= 0x39 {
        Some((b - 0x30) as u8)
    } else if 0x41 <= b && b <= 0x46 {
        Some((b - 0x41 + 10) as u8)
    } else if 0x61 <= b && b <= 0x66 {
        Some((b - 0x61 + 10) as u8)
    } else {
        None
    }
}

/// The byte that an escape at a place stands for.
fn escape_at(bytes: &[u8], at: usize) -> (r: Option<u8>)
    requires
        at <= bytes@.len(),
    ensures
        match r {
            Some(b) => escape_first(bytes@.skip(at as int)) && b == escaped_byte(
                bytes@.skip(at as int),
            ),
            None => !escape_first(bytes@.skip(at as int)),
        },
{
    if bytes.len() - at < 3 || bytes[at] != 0x25 {
        return None;
    }
    match (hex_digit(bytes[at + 1]), hex_digit(bytes[at + 2])) {
        (Some(high), Some(low)) => Some(high * 16 + low),
        _ => None,
    }
}

fn without_escapes(bytes: &[u8], from: usize) -> (r: Vec<u8>)
    requires
        from <= bytes@.len(),
    ensures
        r@ == unescaped(bytes@.skip(from as int)),
{
    let ghost start = bytes@.skip(from as int);
    let mut out: Vec<u8> = Vec::new();
    let mut i: usize = from;
    assert(out@ + unescaped(start) =~= unescaped(start));
    while i < bytes.len()
        invariant
            from <= i <= bytes@.len(),
            out@ + unescaped(bytes@.skip(i as int)) == unescaped(start),
        decreases bytes@.len() - i,
    {
        let ghost rest = bytes@.skip(i as int);
        let ghost before = out@;
        match escape_at(bytes, i) {
            Some(b) => {
                out.push(b);
                assert(rest.skip(3) =~= bytes@.skip(i + 3));
                assert(out@ + unescaped(rest.skip(3)) =~= before + (seq![b] + unescaped(
                    rest.skip(3),
                )));
                i = i + 3;
            },
            None => {
                out.push(bytes[i]);
                assert(rest.skip(1) =~= bytes@.skip(i + 1));
                assert(out@ + unescaped(rest.skip(1)) =~= before + (seq![rest[0]] + unescaped(
                    rest.skip(1),
                )));
                i = i + 1;
            },
        }
    }
    assert(bytes@.skip(i as int) =~= Seq::empty());
    assert(out@ + Seq::<u8>::empty() =~= out@);
    out
}

fn room_of_byte(b: u8, wide: u128) -> (r: u128)
    ensures
        r == byte_room(b, wide as nat),
{
    let plain = (0x41 <= b && b <= 0x5A) || (0x61 <= b && b <= 0x7A) || (0x30 <= b && b <= 0x39) || b
        == 0x2D || b == 0x2E || b == 0x5F || b == 0x7E;
    if plain {
        1
    } else if b < 0x80 {
        3
    } else {
        wide
    }
}

fn room_of_query(bytes: &[u8], from: usize) -> (r: u128)
    requires
        from <= bytes@.len(),
    ensures
        r == query_room(
            bytes@.skip(from as int),
            false,
            false,
            wide_room(bytes@.skip(from as int)),
        ),
        r <= 11 * usize::MAX,
{
    let ghost start = bytes@.skip(from as int);
    let wide: u128 = if text_from_utf8(without_escapes(bytes, from)).is_some() {
        3
    } else {
        9
    };
    let total: usize = bytes.len();
    let mut inside = false;
    let mut named = false;
    let mut taken: u128 = 0;
    let mut i: usize = from;
    while i < total
        invariant
            total == bytes@.len(),
            from <= i <= total,
            3 <= wide <= 9,
            taken <= 11 * i,
            taken + query_room(bytes@.skip(i as int), inside, named, wide as nat) == query_room(
                start,
                false,
                false,
                wide as nat,
            ),
        decreases bytes@.len() - i,
    {
        let ghost rest = bytes@.skip(i as int);
        proof {
            assert(rest.skip(1) =~= bytes@.skip(i + 1));
            if rest.len() >= 3 {
                assert(rest.skip(3) =~= bytes@.skip(i + 3));
            }
        }
        if bytes[i] == 0x26 {
            inside = false;
            named = false;
            i = i + 1;
        } else {
            if !inside {
                taken = taken + 2;
            }
            inside = true;
            if bytes[i] == 0x3D && !named {
                named = true;
                i = i + 1;
            } else {
                match escape_at(bytes, i) {
                    Some(b) => {
                        taken = taken + room_of_byte(b, wide);
                        i = i + 3;
                    },
                    None => {
                        taken = taken + room_of_byte(bytes[i], wide);
                        i = i + 1;
                    },
                }
            }
        }
    }
    assert(bytes@.skip(i as int) =~= Seq::empty());
    taken
}

fn room_of_url(url: &str) -> (r: u128)
    ensures
        r == url_room(encode_utf8(url@)),
        r <= 12 * usize::MAX + 1,
{
    let bytes = url.as_bytes();
    let ghost all = bytes@;
    assert(all.skip(0) =~= all);
    let total: usize = bytes.len();
    let mut i: usize = 0;
    while i < total
        invariant
            all == bytes@,
            all == encode_utf8(url@),
            total == all.len(),
            i <= total,
            i + url_room(all.skip(i as int)) == url_room(all),
        decreases total - i,
    {
        let ghost rest = all.skip(i as int);
        assert(rest.skip(1) =~= all.skip(i + 1));
        if bytes[i] == 0x3F {
            let query: u128 = room_of_query(bytes, i + 1);
            return i as u128 + 1 + query;
        }
        i = i + 1;
    }
    assert(all.skip(i as int) =~= Seq::empty());
    i as u128 + 1
}

fn is_header_text(s: &str) -> (r: bool)
    ensures
        r == header_text(s@),
{
    let bytes = s.as_bytes();
    for i in 0..bytes.len()
        invariant
            bytes@ == encode_utf8(s@),
            forall|j: int|
                0 <= j < i ==> ((#[trigger] bytes@[j]) >= 0x20 && bytes@[j] != 0x7F) || bytes@[j]
                    == 0x09,
    {
        if !((bytes[i] >= 0x20 && bytes[i] != 0x7F) || bytes[i] == 0x09) {
            assert(encode_utf8(s@)[i as int] == bytes@[i as int]);
            return false;
        }
    }
    true
}

fn is_signable_url(plan: &Plan, seconds: u64) -> (r: bool)
    ensures
        forall|signer: Signer|
            signer.seconds == seconds ==> r == #[trigger] can_sign(plan.view().url, signer),
{
    (starts_with(plan.url.as_str(), "http://") || starts_with(plan.url.as_str(), "https://"))
        && seconds < END_OF_TIME && room_of_url(plan.url.as_str()) <= URL_ROOM as u128
}

/// Whether a plan can be signed with the credentials at a time, in epoch seconds.
pub fn signable(plan: &Plan, creds: &Creds, seconds: u64) -> (r: bool)
    ensures
        r == can_sign_plan(plan.view(), signer_for(plan.view(), creds.view(), seconds)),
{
    is_signable_url(plan, seconds) && plan.headers.len() <= HEADER_ROOM && is_header_text(
        creds.access_key_id.as_str(),
    ) && is_header_text(plan.region.as_str()) && is_header_text(plan.service.as_str())
}

/// Whether a plan can be presigned with the credentials at a time, in epoch seconds.
pub fn presignable(plan: &Plan, creds: &Creds, seconds: u64) -> (r: bool)
    ensures
        r == can_presign(plan.view().url, signer_for(plan.view(), creds.view(), seconds)),
{
    let token: u128 = match &creds.session_token {
        Some(t) => encoded(t.as_str()),
        None => 0,
    };
    let room: u128 = PARAMS_ROOM as u128 + encoded(creds.access_key_id.as_str()) + encoded(
        plan.region.as_str(),
    ) + encoded(plan.service.as_str()) + token;
    is_signable_url(plan, seconds) && room_of_url(plan.url.as_str()) + room <= URL_ROOM as u128
        && size(plan.url.as_str()) + 1 + room <= URL_ROOM as u128
}

// ---------------------------------------------------------------------------
// Signing
// ---------------------------------------------------------------------------

/// The headers without those of a name.
pub open spec fn headers_without(headers: Pairs, name: Seq<char>) -> Pairs
    decreases headers.len(),
{
    if headers.len() == 0 {
        headers
    } else if headers.last().0 == name {
        headers_without(headers.drop_last(), name)
    } else {
        headers_without(headers.drop_last(), name).push(headers.last())
    }
}

/// The headers with more of them, each in the place of those of its name.
pub open spec fn headers_with(headers: Pairs, more: Pairs) -> Pairs
    decreases more.len(),
{
    if more.len() == 0 {
        headers
    } else {
        headers_without(headers_with(headers, more.drop_last()), more.last().0).push(more.last())
    }
}

fn without_header(headers: Vec<(String, String)>, name: &str) -> (r: Vec<(String, String)>)
    ensures
        env_texts(r@) == headers_without(env_texts(headers@), name@),
{
    let ghost all = env_texts(headers@);
    let mut kept: Vec<(String, String)> = Vec::new();
    for i in 0..headers.len()
        invariant
            all == env_texts(headers@),
            env_texts(kept@) == headers_without(all.take(i as int), name@),
    {
        proof {
            let seen = all.take(i + 1);
            assert(seen.drop_last() =~= all.take(i as int));
            assert(seen.last() == all[i as int]);
        }
        if !same_text(headers[i].0.as_str(), name) {
            let ghost before = kept@;
            kept.push((headers[i].0.clone(), headers[i].1.clone()));
            assert(env_texts(kept@) =~= env_texts(before).push(all[i as int]));
        }
    }
    assert(all.take(headers@.len() as int) =~= all);
    kept
}

/// A request with the headers of a signature, each in the place of those of its name.
pub fn apply_signature(request: SignedRequest, added: Vec<(String, String)>) -> (r: SignedRequest)
    ensures
        r.view() == (Request {
            uri: request.view().uri,
            headers: headers_with(request.view().headers, env_texts(added@)),
        }),
{
    let ghost all = env_texts(added@);
    let ghost start = env_texts(request.headers@);
    let mut headers = request.headers;
    for i in 0..added.len()
        invariant
            all == env_texts(added@),
            env_texts(headers@) == headers_with(start, all.take(i as int)),
    {
        proof {
            let seen = all.take(i + 1);
            assert(seen.drop_last() =~= all.take(i as int));
            assert(seen.last() == all[i as int]);
        }
        let mut kept = without_header(headers, added[i].0.as_str());
        let ghost before = kept@;
        kept.push((added[i].0.clone(), added[i].1.clone()));
        assert(env_texts(kept@) =~= env_texts(before).push(all[i as int]));
        headers = kept;
    }
    assert(all.take(added@.len() as int) =~= all);
    SignedRequest { uri: request.uri, headers }
}

/// What a signature comes to on a request: the request as `http` makes it, with the signature's
/// headers. For S3 the payload's checksum is a header too, and the path is taken as it is.
pub open spec fn signed_plan(plan: Planned, keys: Keys, seconds: u64) -> Result<
    Request,
    Seq<char>,
> {
    match http_request(plan.method, plan.url, plan.headers) {
        Err(e) => Err("building request: "@ + e),
        Ok(request) => match url_fault(plan.url) {
            Some(e) => Err("signable request: "@ + e),
            None => match sigv4_headers(
                plan.method,
                plan.url,
                request.headers,
                plan.body,
                signer_for(plan, keys, seconds),
                plan.service == "s3"@,
                plan.service != "s3"@,
            ) {
                Err(e) => Err("sigv4: "@ + e),
                Ok(added) => Ok(
                    Request { uri: request.uri, headers: headers_with(request.headers, added) },
                ),
            },
        },
    }
}

fn joined(start: &str, end: &str) -> (r: String)
    ensures
        r@ == start@ + end@,
{
    let mut text = text_copy(start);
    push_text(&mut text, end);
    text
}

fn token_copy(t: &Option<String>) -> (r: Option<String>)
    ensures
        maybe_text(r) == maybe_text(*t),
{
    match t {
        Some(s) => Some(s.clone()),
        None => None,
    }
}

fn borrowed<'a>(pairs: &'a Vec<(String, String)>) -> (r: Vec<(&'a str, &'a str)>)
    ensures
        borrowed_texts(r@) == env_texts(pairs@),
        r@.len() == pairs@.len(),
{
    let mut out: Vec<(&'a str, &'a str)> = Vec::new();
    for i in 0..pairs.len()
        invariant
            out@.len() == i,
            forall|j: int|
                0 <= j < i ==> (#[trigger] out@[j]).0@ == pairs@[j].0@ && out@[j].1@
                    == pairs@[j].1@,
    {
        out.push((pairs[i].0.as_str(), pairs[i].1.as_str()));
    }
    assert(borrowed_texts(out@) =~= env_texts(pairs@));
    out
}

/// Sign a plan: the request to send, with the signature in its headers.
pub fn sign_plan(plan: &Plan, creds: &Creds, seconds: u64) -> (r: Result<SignedRequest, String>)
    requires
        can_sign_plan(plan.view(), signer_for(plan.view(), creds.view(), seconds)),
    ensures
        request_view(r) == signed_plan(plan.view(), creds.view(), seconds),
{
    let request = match build_request(plan.method.as_str(), plan.url.as_str(), &plan.headers) {
        Ok(request) => request,
        Err(e) => {
            return Err(joined("building request: ", e.as_str()));
        },
    };
    if let Some(e) = fault_of_url(plan.url.as_str()) {
        return Err(joined("signable request: ", e.as_str()));
    }
    let s3 = same_text(plan.service.as_str(), "s3");
    let signature = sign_in_headers(
        plan.method.as_str(),
        plan.url.as_str(),
        borrowed(&request.headers),
        plan.body.as_slice(),
        creds.access_key_id.as_str(),
        creds.secret_access_key.as_str(),
        token_copy(&creds.session_token),
        plan.region.as_str(),
        plan.service.as_str(),
        seconds,
        s3,
        !s3,
    );
    match signature {
        Ok(i) => Ok(apply_signature(request, headers_of(&i))),
        Err(e) => Err(joined("sigv4: ", e.as_str())),
    }
}

/// A URL that a plan can be fetched from until it expires.
pub open spec fn presigned(plan: Planned, keys: Keys, seconds: u64, expires: u64) -> Result<
    Seq<char>,
    Seq<char>,
> {
    match url_fault(plan.url) {
        Some(e) => Err("signable request: "@ + e),
        None => match sigv4_params(
            plan.method,
            plan.url,
            signer_for(plan, keys, seconds),
            expires,
            plan.service != "s3"@,
        ) {
            Err(e) => Err("sigv4: "@ + e),
            Ok(params) => url_with_params(plan.method, plan.url, params),
        },
    }
}

/// Presign a plan: its URL with a signature that ends after some seconds in the query.
pub fn presign(plan: &Plan, creds: &Creds, seconds: u64, expires: u64) -> (r: Result<
    String,
    String,
>)
    requires
        can_presign(plan.view().url, signer_for(plan.view(), creds.view(), seconds)),
    ensures
        text_view(r) == presigned(plan.view(), creds.view(), seconds, expires),
{
    if let Some(e) = fault_of_url(plan.url.as_str()) {
        return Err(joined("signable request: ", e.as_str()));
    }
    let signature = sign_in_query(
        plan.method.as_str(),
        plan.url.as_str(),
        creds.access_key_id.as_str(),
        creds.secret_access_key.as_str(),
        token_copy(&creds.session_token),
        plan.region.as_str(),
        plan.service.as_str(),
        seconds,
        expires,
        !same_text(plan.service.as_str(), "s3"),
    );
    match signature {
        Ok(i) => apply_params(plan.method.as_str(), plan.url.as_str(), i),
        Err(e) => Err(joined("sigv4: ", e.as_str())),
    }
}

// ---------------------------------------------------------------------------
// Laws
// ---------------------------------------------------------------------------

/// Leaving out the headers of a name leaves none of that name, and keeps the others.
proof fn lemma_without(headers: Pairs, name: Seq<char>)
    ensures
        forall|i: int|
            0 <= i < headers_without(headers, name).len() ==> (#[trigger] headers_without(
                headers,
                name,
            )[i]).0 != name && headers.contains(headers_without(headers, name)[i]),
        forall|i: int|
            0 <= i < headers.len() && (#[trigger] headers[i]).0 != name ==> headers_without(
                headers,
                name,
            ).contains(headers[i]),
    decreases headers.len(),
{
    if headers.len() > 0 {
        let rest = headers.drop_last();
        lemma_without(rest, name);
        let kept = headers_without(rest, name);
        let all = headers_without(headers, name);
        assert forall|i: int| 0 <= i < all.len() implies (#[trigger] all[i]).0 != name
            && headers.contains(all[i]) by {
            if i < kept.len() {
                assert(all[i] == kept[i]);
                let j = choose|j: int| 0 <= j < rest.len() && rest[j] == kept[i];
                assert(headers[j] == all[i]);
            } else {
                assert(headers[headers.len() - 1] == all[i]);
            }
        }
        assert forall|i: int|
            0 <= i < headers.len() && (#[trigger] headers[i]).0 != name implies all.contains(
            headers[i],
        ) by {
            if i < rest.len() {
                assert(rest[i] == headers[i]);
                let j = choose|j: int| 0 <= j < kept.len() && kept[j] == rest[i];
                assert(all[j] == headers[i]);
            } else {
                assert(all[all.len() - 1] == headers[i]);
            }
        }
    }
}

/// A signed request holds every header of the signature, and no other header of its name.
pub proof fn law_signature_decides_its_headers(headers: Pairs, added: Pairs, k: int)
    requires
        0 <= k < added.len(),
        forall|i: int, j: int|
            0 <= i < j < added.len() ==> (#[trigger] added[i]).0 != (#[trigger] added[j]).0,
    ensures
        headers_with(headers, added).contains(added[k]),
        forall|i: int|
            0 <= i < headers_with(headers, added).len() && (#[trigger] headers_with(
                headers,
                added,
            )[i]).0 == added[k].0 ==> headers_with(headers, added)[i] == added[k],
    decreases added.len(),
{
    let rest = added.drop_last();
    let before = headers_with(headers, rest);
    let kept = headers_without(before, added.last().0);
    let all = headers_with(headers, added);
    lemma_without(before, added.last().0);
    assert(all == kept.push(added.last()));
    assert(all[all.len() - 1] == added.last());
    if k < rest.len() {
        assert(rest[k] == added[k]);
        assert(added[k].0 != added[added.len() - 1].0);
        law_signature_decides_its_headers(headers, rest, k);
        let j = choose|j: int| 0 <= j < before.len() && before[j] == rest[k];
        assert(kept.contains(before[j]));
        let n = choose|n: int| 0 <= n < kept.len() && kept[n] == before[j];
        assert(all[n] == added[k]);
        assert forall|i: int| 0 <= i < all.len() && (#[trigger] all[i]).0 == added[k].0 implies all[i]
            == added[k] by {
            assert(all[i] == kept[i]);
            let m = choose|m: int| 0 <= m < before.len() && before[m] == kept[i];
            assert(before[m].0 == rest[k].0);
        }
    } else {
        assert forall|i: int| 0 <= i < all.len() && (#[trigger] all[i]).0 == added[k].0 implies all[i]
            == added[k] by {
            if i < kept.len() {
                assert(kept[i].0 != added.last().0);
            }
        }
    }
}

/// A header that the signature does not name stays.
pub proof fn law_signature_keeps_other_headers(headers: Pairs, added: Pairs, k: int)
    requires
        0 <= k < headers.len(),
        forall|i: int| 0 <= i < added.len() ==> (#[trigger] added[i]).0 != headers[k].0,
    ensures
        headers_with(headers, added).contains(headers[k]),
    decreases added.len(),
{
    if added.len() == 0 {
        assert(headers_with(headers, added)[k] == headers[k]);
    } else {
        let rest = added.drop_last();
        assert forall|i: int| 0 <= i < rest.len() implies (#[trigger] rest[i]).0
            != headers[k].0 by {
            assert(rest[i] == added[i]);
        }
        law_signature_keeps_other_headers(headers, rest, k);
        let before = headers_with(headers, rest);
        let kept = headers_without(before, added.last().0);
        lemma_without(before, added.last().0);
        let j = choose|j: int| 0 <= j < before.len() && before[j] == headers[k];
        assert(added[added.len() - 1].0 != headers[k].0);
        assert(kept.contains(before[j]));
        let n = choose|n: int| 0 <= n < kept.len() && kept[n] == before[j];
        assert(headers_with(headers, added)[n] == headers[k]);
    }
}

} // verus!
