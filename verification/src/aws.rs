//! A minimal data-driven AWS client: what a client is configured with, what a call asks for, and
//! what a response means.
//!
//! S3 speaks its own protocol; the JSON services take any operation. A failed exchange becomes an
//! anomaly map.

use vstd::prelude::*;
use crate::creds::Keys;
use crate::creds::{irsa_available, static_creds, Creds};
use crate::form_value::find_entry;
use crate::hash_map::entry_value;
use crate::javamap::{referred, tag_of, Native};
use crate::javamap::Heap;
use crate::process::{env_texts, keyword_val, lossy_utf8, maybe_text};
use crate::process::lossy_text;
use crate::s3::{maybe_entry, shaped, text_val};
use crate::s3::{S3Target, Shape};
use crate::search::without_trailing;
use crate::search::trim_trailing;
use crate::text::{push_text, same_text, text_copy};
use crate::value::{kind_of, lemma_views, pair_vals, NameView, Val};
use crate::value::{pairs_copy, Name, Value};
use crate::wire::{tag_text, Planned};
use crate::wire::{xml_tag, Exchange, Plan};

verus! {

pub const NS: &'static str = "aws";

// ---------------------------------------------------------------------------
// Services
// ---------------------------------------------------------------------------

/// What a JSON service is known by: its endpoint, its target prefix, and its protocol version.
pub open spec fn service_of(api: Seq<char>) -> Option<(Seq<char>, Seq<char>, Seq<char>)> {
    if api == "secretsmanager"@ {
        Some(("secretsmanager"@, "secretsmanager"@, "1.1"@))
    } else if api == "dynamodb"@ {
        Some(("dynamodb"@, "DynamoDB_20120810"@, "1.0"@))
    } else if api == "sqs"@ {
        Some(("sqs"@, "AmazonSQS"@, "1.0"@))
    } else if api == "ssm"@ {
        Some(("ssm"@, "AmazonSSM"@, "1.1"@))
    } else if api == "logs"@ {
        Some(("logs"@, "Logs_20140328"@, "1.1"@))
    } else if api == "ecs"@ {
        Some(("ecs"@, "AmazonEC2ContainerServiceV20141113"@, "1.1"@))
    } else if api == "kinesis"@ {
        Some(("kinesis"@, "Kinesis_20131202"@, "1.1"@))
    } else if api == "states"@ {
        Some(("states"@, "AWSStepFunctions"@, "1.0"@))
    } else if api == "eventbridge"@ {
        Some(("events"@, "AWSEvents"@, "1.1"@))
    } else {
        None
    }
}

/// What a JSON service is known by.
pub fn json_service(api: &str) -> (r: Option<(&'static str, &'static str, &'static str)>)
    ensures
        (match r {
            Some((e, t, v)) => Some((e@, t@, v@)),
            None => None,
        }) == service_of(api@),
{
    if same_text(api, "secretsmanager") {
        Some(("secretsmanager", "secretsmanager", "1.1"))
    } else if same_text(api, "dynamodb") {
        Some(("dynamodb", "DynamoDB_20120810", "1.0"))
    } else if same_text(api, "sqs") {
        Some(("sqs", "AmazonSQS", "1.0"))
    } else if same_text(api, "ssm") {
        Some(("ssm", "AmazonSSM", "1.1"))
    } else if same_text(api, "logs") {
        Some(("logs", "Logs_20140328", "1.1"))
    } else if same_text(api, "ecs") {
        Some(("ecs", "AmazonEC2ContainerServiceV20141113", "1.1"))
    } else if same_text(api, "kinesis") {
        Some(("kinesis", "Kinesis_20131202", "1.1"))
    } else if same_text(api, "states") {
        Some(("states", "AWSStepFunctions", "1.0"))
    } else if same_text(api, "eventbridge") {
        Some(("events", "AWSEvents", "1.1"))
    } else {
        None
    }
}

// ---------------------------------------------------------------------------
// Clients
// ---------------------------------------------------------------------------

/// What the environment tells a client.
#[derive(Debug)]
pub struct AwsEnv {
    pub region: Option<String>,
    pub default_region: Option<String>,
    pub endpoint_url: Option<String>,
    pub access_key_id: Option<String>,
    pub secret_access_key: Option<String>,
    pub session_token: Option<String>,
    pub web_identity_token_file: bool,
    pub role_arn: bool,
}

/// A client of one service.
#[derive(Debug)]
pub struct AwsClient {
    pub api: String,
    pub region: String,
    pub endpoint: Option<String>,
    pub path_style: bool,
    pub explicit: Option<(String, String, Option<String>)>,
    pub cached: Option<Creds>,
}

/// What an [`AwsClient`] holds.
pub struct Client {
    pub api: Seq<char>,
    pub region: Seq<char>,
    pub endpoint: Option<Seq<char>>,
    pub path_style: bool,
    pub explicit: Option<(Seq<char>, Seq<char>, Option<Seq<char>>)>,
    pub cached: Option<Keys>,
}

/// The view of explicit keys.
pub open spec fn explicit_view(e: Option<(String, String, Option<String>)>) -> Option<
    (Seq<char>, Seq<char>, Option<Seq<char>>),
> {
    match e {
        Some((k, s, t)) => Some((k@, s@, maybe_text(t))),
        None => None,
    }
}

impl AwsClient {
    pub open spec fn view(&self) -> Client {
        Client {
            api: self.api@,
            region: self.region@,
            endpoint: maybe_text(self.endpoint),
            path_style: self.path_style,
            explicit: explicit_view(self.explicit),
            cached: match self.cached {
                Some(c) => Some(c.view()),
                None => None,
            },
        }
    }
}

/// The text under a keyword: of a string or a keyword.
pub open spec fn config_text(m: Seq<(Val, Val)>, key: Seq<char>) -> Option<Seq<char>> {
    match entry_value(m, keyword_val(key)) {
        Some(Val::Str(s)) => Some(s),
        Some(Val::Keyword(k)) => Some(k.name),
        _ => None,
    }
}

/// The first text that is there.
pub open spec fn first_text(a: Option<Seq<char>>, b: Option<Seq<char>>) -> Option<Seq<char>> {
    if a is Some {
        a
    } else {
        b
    }
}

/// A service that is not built in.
pub open spec fn not_built_in(api: Seq<char>) -> Seq<char> {
    ":api "@ + api
        + " is not built in (built-ins: s3 secretsmanager dynamodb sqs ssm logs ecs kinesis states eventbridge); use pod-babashka-aws for the full surface"@
}

/// The keys that a configuration names: both, or none.
pub open spec fn explicit_keys(m: Seq<(Val, Val)>) -> Option<
    (Seq<char>, Seq<char>, Option<Seq<char>>),
> {
    match (config_text(m, "access-key-id"@), config_text(m, "secret-access-key"@)) {
        (Some(k), Some(s)) => Some((k, s, config_text(m, "session-token"@))),
        _ => None,
    }
}

/// The client that a configuration describes, or what is wrong with it.
pub open spec fn configured(config: Val, env: AwsEnv) -> Result<Client, Seq<char>> {
    match config {
        Val::HashMap(m) => match config_text(m, "api"@) {
            None => Err("client config needs :api"@),
            Some(api) => if api != "s3"@ && service_of(api) is None {
                Err(not_built_in(api))
            } else {
                let region = first_text(
                    config_text(m, "region"@),
                    first_text(maybe_text(env.region), maybe_text(env.default_region)),
                );
                let endpoint = first_text(
                    config_text(m, "endpoint"@),
                    maybe_text(env.endpoint_url),
                );
                match region {
                    None => Err("client config needs :region (or AWS_REGION)"@),
                    Some(region) => Ok(
                        Client {
                            api,
                            region,
                            endpoint,
                            path_style: match entry_value(m, keyword_val("path-style"@)) {
                                Some(Val::Bool(b)) => b,
                                _ => endpoint is Some,
                            },
                            explicit: explicit_keys(m),
                            cached: None,
                        },
                    ),
                }
            },
        },
        _ => Err("aws/client expects a config map"@),
    }
}

fn kw(name: &str) -> (r: Value)
    ensures
        r.view() == keyword_val(name@),
{
    Value::Keyword(Name::simple(name))
}

/// The text under a keyword: of a string or a keyword.
pub fn opt_str(m: &Vec<(Value, Value)>, key: &str) -> (r: Option<String>)
    ensures
        maybe_text(r) == config_text(pair_vals(m@), key@),
{
    match find_entry(m, &kw(key)) {
        Some(Value::Str(s)) => Some(s.clone()),
        Some(Value::Keyword(k)) => Some(k.name.clone()),
        _ => None,
    }
}

fn or_copy(a: Option<String>, b: &Option<String>) -> (r: Option<String>)
    ensures
        maybe_text(r) == first_text(maybe_text(a), maybe_text(*b)),
{
    match a {
        Some(s) => Some(s),
        None => match b {
            Some(s) => Some(s.clone()),
            None => None,
        },
    }
}

fn joined(before: &str, detail: &str) -> (r: String)
    ensures
        r@ == before@ + detail@,
{
    let mut m = text_copy(before);
    push_text(&mut m, detail);
    m
}

/// The client that a configuration describes.
pub fn client(config: &Value, env: &AwsEnv) -> (r: Result<AwsClient, String>)
    ensures
        (match r {
            Ok(c) => Ok::<Client, Seq<char>>(c.view()),
            Err(e) => Err(e@),
        }) == configured(config.view(), *env),
{
    proof {
        lemma_views(*config);
    }
    let m = match config {
        Value::HashMap(m) => m,
        _ => {
            return Err(text_copy("aws/client expects a config map"));
        },
    };
    let api = match opt_str(m, "api") {
        Some(a) => a,
        None => {
            return Err(text_copy("client config needs :api"));
        },
    };
    if !same_text(api.as_str(), "s3") && json_service(api.as_str()).is_none() {
        let mut e = joined(":api ", api.as_str());
        push_text(
            &mut e,
            " is not built in (built-ins: s3 secretsmanager dynamodb sqs ssm logs ecs kinesis states eventbridge); use pod-babashka-aws for the full surface",
        );
        return Err(e);
    }
    let region = match or_copy(or_copy(opt_str(m, "region"), &env.region), &env.default_region) {
        Some(s) => s,
        None => {
            return Err(text_copy("client config needs :region (or AWS_REGION)"));
        },
    };
    let endpoint = or_copy(opt_str(m, "endpoint"), &env.endpoint_url);
    let path_style = match find_entry(m, &kw("path-style")) {
        Some(Value::Bool(b)) => *b,
        _ => endpoint.is_some(),
    };
    let explicit = match (opt_str(m, "access-key-id"), opt_str(m, "secret-access-key")) {
        (Some(k), Some(s)) => Some((k, s, opt_str(m, "session-token"))),
        _ => None,
    };
    Ok(AwsClient { api, region, endpoint, path_style, explicit, cached: None })
}

/// The handle of the client that a value refers to, or what is wrong with the value.
pub open spec fn client_handle(v: Val, heap: Seq<Native>) -> Result<u64, Seq<char>> {
    match v {
        Val::NativeObject(h) => match referred(v, heap) {
            Some(n) => if tag_of(n) == "AwsClient"@ {
                Ok(h)
            } else {
                Err("expected an aws client"@)
            },
            None => Err("expected an aws client"@),
        },
        other => Err("expected an aws client, got "@ + kind_of(other)),
    }
}

/// The handle of the client that a value refers to.
pub fn as_client(v: &Value, heap: &Heap) -> (r: Result<u64, String>)
    ensures
        (match r {
            Ok(h) => Ok::<u64, Seq<char>>(h),
            Err(e) => Err(e@),
        }) == client_handle(v.view(), heap.view()),
{
    match v {
        Value::NativeObject(h) => {
            if let Some(o) = heap.object(*h) {
                if same_text(o.type_tag(), "AwsClient") {
                    return Ok(*h);
                }
            }
            Err(text_copy("expected an aws client"))
        },
        other => Err(joined("expected an aws client, got ", other.kind())),
    }
}

/// Where a client gets its credentials.
#[derive(Debug)]
pub enum CredStep {
    /// These.
    Use(Creds),
    /// A web identity is to be exchanged.
    Exchange,
}

/// No credentials are to be had.
pub open spec fn no_credentials() -> Seq<char> {
    "no AWS credentials: set AWS_ACCESS_KEY_ID/AWS_SECRET_ACCESS_KEY, pass :access-key-id/:secret-access-key in the client config, or run with IRSA (AWS_WEB_IDENTITY_TOKEN_FILE + AWS_ROLE_ARN)"@
}

/// The credentials without an exchange: explicit keys, else those of the environment.
pub open spec fn static_keys(c: Client, env: AwsEnv) -> Option<Keys> {
    match c.explicit {
        Some((k, s, t)) => Some(
            Keys { access_key_id: k, secret_access_key: s, session_token: t, expires: None },
        ),
        None => match (env.access_key_id, env.secret_access_key) {
            (Some(k), Some(s)) => Some(
                Keys {
                    access_key_id: k@,
                    secret_access_key: s@,
                    session_token: maybe_text(env.session_token),
                    expires: None,
                },
            ),
            _ => None,
        },
    }
}

/// Where a client gets its credentials at a time; `None` is the exchange of a web identity.
pub open spec fn credentials_from(c: Client, env: AwsEnv, now: u64) -> Result<
    Option<Keys>,
    Seq<char>,
> {
    match static_keys(c, env) {
        Some(k) => Ok(Some(k)),
        None => if env.web_identity_token_file && env.role_arn {
            match c.cached {
                Some(k) => if k.expires matches Some(t) && now + crate::creds::REFRESH_EARLY >= t {
                    Ok(None)
                } else {
                    Ok(Some(k))
                },
                None => Ok(None),
            }
        } else {
            Err(no_credentials())
        },
    }
}

fn copy_text(s: &Option<String>) -> (r: Option<String>)
    ensures
        maybe_text(r) == maybe_text(*s),
{
    match s {
        Some(t) => Some(t.clone()),
        None => None,
    }
}

impl AwsClient {
    /// Where the client gets its credentials: explicit keys, the environment's, or a web identity
    /// that is kept until it nears its end.
    pub fn credentials(&self, env: &AwsEnv, now: u64) -> (r: Result<CredStep, String>)
        ensures
            match (credentials_from(self.view(), *env, now), r) {
                (Ok(Some(k)), Ok(CredStep::Use(c))) => c.view() == k,
                (Ok(None), Ok(CredStep::Exchange)) => true,
                (Err(m), Err(e)) => e@ == m,
                _ => false,
            },
    {
        let explicit = match &self.explicit {
            Some((k, s, t)) => Some((k.clone(), s.clone(), copy_text(t))),
            None => None,
        };
        if let Some(c) = static_creds(
            explicit,
            copy_text(&env.access_key_id),
            copy_text(&env.secret_access_key),
            copy_text(&env.session_token),
        ) {
            return Ok(CredStep::Use(c));
        }
        if irsa_available(env.web_identity_token_file, env.role_arn) {
            if let Some(c) = &self.cached {
                if !c.expired(now) {
                    return Ok(CredStep::Use(c.copy()));
                }
            }
            return Ok(CredStep::Exchange);
        }
        Err(
            text_copy(
                "no AWS credentials: set AWS_ACCESS_KEY_ID/AWS_SECRET_ACCESS_KEY, pass :access-key-id/:secret-access-key in the client config, or run with IRSA (AWS_WEB_IDENTITY_TOKEN_FILE + AWS_ROLE_ARN)",
            ),
        )
    }

    /// Where the client's S3 requests go.
    pub fn s3_target(&self) -> (r: S3Target)
        ensures
            r.view() == (crate::s3::Target {
                region: self.view().region,
                endpoint: self.view().endpoint,
                path_style: self.view().path_style,
            }),
    {
        S3Target {
            region: self.region.clone(),
            endpoint: copy_text(&self.endpoint),
            path_style: self.path_style,
        }
    }
}

// ---------------------------------------------------------------------------
// Calls
// ---------------------------------------------------------------------------

/// The operation and the request of a call, or what is wrong with its argument.
pub open spec fn asked(arg: Val) -> Result<(Seq<char>, Seq<(Val, Val)>), Seq<char>> {
    match arg {
        Val::HashMap(m) => match config_text(m, "op"@) {
            None => Err("invoke map needs :op"@),
            Some(op) => match entry_value(m, keyword_val("request"@)) {
                Some(Val::HashMap(r)) => Ok((op, r)),
                None => Ok((op, Seq::empty())),
                Some(other) => Err(":request must be a map, got "@ + kind_of(other)),
            },
        },
        other => Err("invoke expects {:op ... :request ...}, got "@ + kind_of(other)),
    }
}

/// The operation and the request of a call.
pub fn op_and_request(arg: &Value) -> (r: Result<(String, Vec<(Value, Value)>), String>)
    ensures
        (match r {
            Ok((op, req)) => Ok::<(Seq<char>, Seq<(Val, Val)>), Seq<char>>(
                (op@, pair_vals(req@)),
            ),
            Err(e) => Err(e@),
        }) == asked(arg.view()),
{
    proof {
        lemma_views(*arg);
    }
    let m = match arg {
        Value::HashMap(m) => m,
        other => {
            return Err(joined("invoke expects {:op ... :request ...}, got ", other.kind()));
        },
    };
    let op = match opt_str(m, "op") {
        Some(op) => op,
        None => {
            return Err(text_copy("invoke map needs :op"));
        },
    };
    match find_entry(m, &kw("request")) {
        Some(req) => {
            proof {
                lemma_views(*req);
            }
            match req {
                Value::HashMap(r) => Ok((op, pairs_copy(r))),
                other => Err(joined(":request must be a map, got ", other.kind())),
            }
        },
        None => {
            let none: Vec<(Value, Value)> = Vec::new();
            assert(pair_vals(none@) =~= Seq::empty());
            Ok((op, none))
        },
    }
}

/// The plan of a call of a JSON service.
pub open spec fn json_planned(c: Client, op: Seq<char>, body: Seq<u8>) -> Result<Planned, Seq<char>> {
    match service_of(c.api) {
        None => Err("unknown api "@ + c.api),
        Some((endpoint, target, version)) => {
            let base = match c.endpoint {
                Some(e) => e,
                None => "https://"@ + endpoint + "."@ + c.region + ".amazonaws.com"@,
            };
            Ok(
                Planned {
                    method: "POST"@,
                    url: without_trailing(base, '/') + "/"@,
                    headers: seq![
                        ("content-type"@, "application/x-amz-json-"@ + version),
                        ("x-amz-target"@, target + "."@ + op),
                    ],
                    body,
                    service: endpoint,
                    region: c.region,
                },
            )
        },
    }
}

/// Plan a call of a JSON service, whose request is already written as JSON.
pub fn invoke_json(client: &AwsClient, op: &str, body: Vec<u8>) -> (r: Result<Plan, String>)
    ensures
        (match r {
            Ok(p) => Ok::<Planned, Seq<char>>(p.view()),
            Err(e) => Err(e@),
        }) == json_planned(client.view(), op@, body@),
{
    match json_service(client.api.as_str()) {
        None => Err(joined("unknown api ", client.api.as_str())),
        Some((endpoint, target, version)) => {
            let base = match &client.endpoint {
                Some(e) => e.clone(),
                None => {
                    let mut s = joined("https://", endpoint);
                    push_text(&mut s, ".");
                    push_text(&mut s, client.region.as_str());
                    push_text(&mut s, ".amazonaws.com");
                    s
                },
            };
            let mut url = trim_trailing(base.as_str(), '/');
            push_text(&mut url, "/");
            let mut goal = joined(target, ".");
            push_text(&mut goal, op);
            let mut headers: Vec<(String, String)> = Vec::new();
            headers.push((text_copy("content-type"), joined("application/x-amz-json-", version)));
            headers.push((text_copy("x-amz-target"), goal));
            assert(env_texts(headers@) =~= seq![
                ("content-type"@, "application/x-amz-json-"@ + version@),
                ("x-amz-target"@, target@ + "."@ + op@),
            ]);
            Ok(
                Plan {
                    method: text_copy("POST"),
                    url,
                    headers,
                    body,
                    service: text_copy(endpoint),
                    region: client.region.clone(),
                },
            )
        },
    }
}

/// How long a presigned URL is valid, in seconds, where the call does not say.
pub const PRESIGN_SECONDS: u64 = 900;

/// What a call of `presign` asks for: the request and the seconds of validity.
pub open spec fn presign_asked(api: Seq<char>, arg: Val) -> Result<
    (Seq<(Val, Val)>, u64),
    Seq<char>,
> {
    if api != "s3"@ {
        Err("presign is only supported for :s3 clients"@)
    } else if !(arg is HashMap) {
        Err("presign expects {:op ... :request ... :expires secs}"@)
    } else {
        match asked(arg) {
            Err(e) => Err(e),
            Ok((op, req)) => if op != "GetObject"@ {
                Err("presign currently supports :GetObject only"@)
            } else {
                match entry_value(arg->HashMap_0, keyword_val("expires"@)) {
                    Some(Val::Long(secs)) => Ok((req, secs as u64)),
                    None => Ok((req, PRESIGN_SECONDS)),
                    Some(other) => Err(":expires must be seconds, got "@ + kind_of(other)),
                }
            },
        }
    }
}

/// Take apart a call of `presign` on a client of a service.
pub fn presign_request(api: &str, arg: &Value) -> (r: Result<(Vec<(Value, Value)>, u64), String>)
    ensures
        (match r {
            Ok((req, secs)) => Ok::<(Seq<(Val, Val)>, u64), Seq<char>>((pair_vals(req@), secs)),
            Err(e) => Err(e@),
        }) == presign_asked(api@, arg.view()),
{
    if !same_text(api, "s3") {
        return Err(text_copy("presign is only supported for :s3 clients"));
    }
    proof {
        lemma_views(*arg);
    }
    let m = match arg {
        Value::HashMap(m) => m,
        _ => {
            return Err(text_copy("presign expects {:op ... :request ... :expires secs}"));
        },
    };
    let (op, req) = match op_and_request(arg) {
        Ok(x) => x,
        Err(e) => {
            return Err(e);
        },
    };
    if !same_text(op.as_str(), "GetObject") {
        return Err(text_copy("presign currently supports :GetObject only"));
    }
    match find_entry(m, &kw("expires")) {
        Some(Value::Long(secs)) => Ok((req, *secs as u64)),
        None => Ok((req, PRESIGN_SECONDS)),
        Some(other) => Err(joined(":expires must be seconds, got ", other.kind())),
    }
}

/// The names of the built-in operations of a service.
pub open spec fn op_names(api: Seq<char>) -> Seq<Seq<char>> {
    if api == "s3"@ {
        seq![
            "GetObject"@,
            "PutObject"@,
            "DeleteObject"@,
            "HeadObject"@,
            "HeadBucket"@,
            "CreateBucket"@,
            "ListObjectsV2"@,
        ]
    } else {
        Seq::empty()
    }
}

fn push_op(entries: &mut Vec<(Value, Value)>, name: &str)
    ensures
        pair_vals(final(entries)@) == pair_vals(old(entries)@).push(
            (keyword_val(name@), Val::HashMap(Seq::empty())),
        ),
{
    let ghost before = pair_vals(entries@);
    let none = Value::HashMap(Vec::new());
    proof {
        lemma_views(none);
        assert(none.view()->HashMap_0 =~= Seq::empty());
    }
    entries.push((kw(name), none));
    assert(pair_vals(entries@) =~= before.push((keyword_val(name@), Val::HashMap(Seq::empty()))));
}

/// The catalog of a service's built-in operations; the JSON services are open-ended and list
/// none.
pub fn ops(api: &str) -> (r: Value)
    ensures
        r.view() == Val::HashMap(
            Seq::new(
                op_names(api@).len(),
                |i: int| (keyword_val(op_names(api@)[i]), Val::HashMap(Seq::empty())),
            ),
        ),
{
    let mut entries: Vec<(Value, Value)> = Vec::new();
    if same_text(api, "s3") {
        push_op(&mut entries, "GetObject");
        push_op(&mut entries, "PutObject");
        push_op(&mut entries, "DeleteObject");
        push_op(&mut entries, "HeadObject");
        push_op(&mut entries, "HeadBucket");
        push_op(&mut entries, "CreateBucket");
        push_op(&mut entries, "ListObjectsV2");
    }
    let r = Value::HashMap(entries);
    proof {
        lemma_views(r);
        assert(r.view()->HashMap_0 =~= Seq::new(
            op_names(api@).len(),
            |i: int| (keyword_val(op_names(api@)[i]), Val::HashMap(Seq::empty())),
        ));
    }
    r
}

// ---------------------------------------------------------------------------
// Responses
// ---------------------------------------------------------------------------

/// A keyword of the anomaly vocabulary.
pub open spec fn anomaly_keyword(name: Seq<char>) -> Val {
    Val::Keyword(NameView { namespace: Some("cognitect.anomalies"@), name })
}

/// The anomaly category of a status.
pub open spec fn category(status: u16) -> Seq<char> {
    if status == 401 || status == 403 {
        "forbidden"@
    } else if status == 404 {
        "not-found"@
    } else if status == 429 {
        "busy"@
    } else if 400 <= status <= 499 {
        "incorrect"@
    } else if status == 503 {
        "unavailable"@
    } else {
        "fault"@
    }
}

/// The entries of an anomaly.
pub open spec fn anomaly_entries(
    status: u16,
    code: Option<Seq<char>>,
    message: Option<Seq<char>>,
) -> Seq<(Val, Val)> {
    seq![
        (anomaly_keyword("category"@), anomaly_keyword(category(status))),
        (keyword_val("StatusCode"@), Val::Long(status as i64)),
    ] + maybe_entry("Code"@, text_val(code)) + maybe_entry("Message"@, text_val(message))
}

/// What a field of a JSON object holds: nothing where the text is no JSON object or the object
/// has no such field, and no text where the field is not a string.
pub uninterp spec fn json_field_of(text: Seq<char>, key: Seq<char>) -> Option<Option<Seq<char>>>;

/// A field of a JSON object, by `serde_json::from_str`, `Value::get` and `Value::as_str`. Which
/// texts are JSON is not spelled out.
#[verifier::external_body]
fn json_field(text: &str, key: &str) -> (r: Option<Option<String>>)
    ensures
        (match r {
            Some(Some(s)) => Some(Some(s@)),
            Some(None) => Some(None),
            None => None,
        }) == json_field_of(text@, key@),
{
    match serde_json::from_str::<serde_json::Value>(text) {
        Ok(v) => v.get(key).map(|f| f.as_str().map(|s| s.to_string())),
        Err(_) => None,
    }
}

/// The text of a field, where it has one.
pub open spec fn field_text(field: Option<Option<Seq<char>>>) -> Option<Seq<char>> {
    match field {
        Some(text) => text,
        None => None,
    }
}

/// The message of an error: of the field `message`, and of `Message` only where the other is not
/// there.
pub open spec fn message_text(
    small: Option<Option<Seq<char>>>,
    capital: Option<Option<Seq<char>>>,
) -> Option<Seq<char>> {
    match small {
        Some(text) => text,
        None => field_text(capital),
    }
}

/// What the views of an optional field are.
pub open spec fn field_view(f: Option<Option<String>>) -> Option<Option<Seq<char>>> {
    match f {
        Some(Some(s)) => Some(Some(s@)),
        Some(None) => Some(None),
        None => None,
    }
}

fn anomaly_name(name: &str) -> (r: Value)
    ensures
        r.view() == anomaly_keyword(name@),
{
    Value::Keyword(Name::qualified("cognitect.anomalies", name))
}

fn category_of(status: u16) -> (r: &'static str)
    ensures
        r@ == category(status),
{
    if status == 401 || status == 403 {
        "forbidden"
    } else if status == 404 {
        "not-found"
    } else if status == 429 {
        "busy"
    } else if 400 <= status && status <= 499 {
        "incorrect"
    } else if status == 503 {
        "unavailable"
    } else {
        "fault"
    }
}

fn put_text(entries: &mut Vec<(Value, Value)>, name: &str, s: Option<String>)
    ensures
        pair_vals(final(entries)@) == pair_vals(old(entries)@) + maybe_entry(
            name@,
            text_val(maybe_text(s)),
        ),
{
    let ghost before = pair_vals(entries@);
    let ghost wanted = maybe_entry(name@, text_val(maybe_text(s)));
    if let Some(s) = s {
        entries.push((kw(name), Value::Str(s)));
    }
    assert(pair_vals(entries@) =~= before + wanted);
}

fn anomaly_map(status: u16, code: Option<String>, message: Option<String>) -> (r: Value)
    ensures
        r.view() == Val::HashMap(anomaly_entries(status, maybe_text(code), maybe_text(message))),
{
    let mut m: Vec<(Value, Value)> = Vec::new();
    m.push((anomaly_name("category"), anomaly_name(category_of(status))));
    m.push((kw("StatusCode"), Value::Long(status as i64)));
    assert(pair_vals(m@) =~= seq![
        (anomaly_keyword("category"@), anomaly_keyword(category(status))),
        (keyword_val("StatusCode"@), Val::Long(status as i64)),
    ]);
    put_text(&mut m, "Code", code);
    put_text(&mut m, "Message", message);
    let r = Value::HashMap(m);
    proof {
        lemma_views(r);
        assert(r.view()->HashMap_0 =~= anomaly_entries(
            status,
            maybe_text(code),
            maybe_text(message),
        ));
    }
    r
}

/// The anomaly of a JSON service's error, by the fields `__type`, `message` and `Message` of its
/// body.
pub fn json_anomaly(
    status: u16,
    kind: Option<Option<String>>,
    small: Option<Option<String>>,
    capital: Option<Option<String>>,
) -> (r: Value)
    ensures
        r.view() == Val::HashMap(
            anomaly_entries(
                status,
                field_text(field_view(kind)),
                message_text(field_view(small), field_view(capital)),
            ),
        ),
{
    let code = match kind {
        Some(text) => text,
        None => None,
    };
    let message = match small {
        Some(text) => text,
        None => match capital {
            Some(text) => text,
            None => None,
        },
    };
    anomaly_map(status, code, message)
}

/// The anomaly of an XML service's error.
pub fn xml_anomaly(status: u16, text: &str) -> (r: Value)
    ensures
        r.view() == Val::HashMap(
            anomaly_entries(status, tag_text(text@, "Code"@), tag_text(text@, "Message"@)),
        ),
{
    anomaly_map(status, xml_tag(text, "Code"), xml_tag(text, "Message"))
}

/// The entries of the anomaly of a failed exchange.
pub open spec fn anomaly_of(status: u16, text: Seq<char>, json_api: bool) -> Seq<(Val, Val)> {
    if json_api {
        anomaly_entries(
            status,
            field_text(json_field_of(text, "__type"@)),
            message_text(json_field_of(text, "message"@), json_field_of(text, "Message"@)),
        )
    } else {
        anomaly_entries(status, tag_text(text, "Code"@), tag_text(text, "Message"@))
    }
}

/// The anomaly map of a failed exchange.
pub fn anomaly(status: u16, body: &[u8], json_api: bool) -> (r: Value)
    ensures
        r.view() == Val::HashMap(anomaly_of(status, lossy_utf8(body@), json_api)),
{
    let text = lossy_text(body);
    if json_api {
        json_anomaly(
            status,
            json_field(text.as_str(), "__type"),
            json_field(text.as_str(), "message"),
            json_field(text.as_str(), "Message"),
        )
    } else {
        xml_anomaly(status, text.as_str())
    }
}

/// A status of success.
pub open spec fn succeeded(status: u16) -> bool {
    200 <= status < 300
}

/// What an S3 exchange comes to: the shaped response, or the anomaly of a failure.
pub fn invoke_s3(shape: &Shape, ex: &Exchange) -> (r: Value)
    ensures
        r.view() == Val::HashMap(
            if succeeded(ex.status) {
                shaped(*shape, env_texts(ex.headers@), ex.body@)
            } else {
                anomaly_of(ex.status, lossy_utf8(ex.body@), false)
            },
        ),
{
    if 200 <= ex.status && ex.status < 300 {
        crate::s3::shape_response(shape, ex)
    } else {
        anomaly(ex.status, ex.body.as_slice(), false)
    }
}

/// What an exchange with a JSON service comes to.
#[derive(Debug)]
pub enum JsonReply {
    /// A value: an empty map for a response without a body, or an anomaly.
    Value(Value),
    /// The text that is the result: it is JSON.
    Json(String),
}

/// What a [`JsonReply`] holds.
pub enum JsonReplied {
    Value(Val),
    Json(Seq<char>),
}

impl JsonReply {
    pub open spec fn view(&self) -> JsonReplied {
        match self {
            JsonReply::Value(v) => JsonReplied::Value(v.view()),
            JsonReply::Json(text) => JsonReplied::Json(text@),
        }
    }
}

/// The view of a reply or an error.
pub open spec fn reply_view(r: Result<JsonReply, String>) -> Result<JsonReplied, Seq<char>> {
    match r {
        Ok(reply) => Ok(reply.view()),
        Err(e) => Err(e@),
    }
}

/// Why a text is no JSON.
pub uninterp spec fn json_fault_of(text: Seq<char>) -> Option<Seq<char>>;

/// `serde_json::from_str`, into a `serde_json::Value`: nothing where the text is JSON, else what is
/// said of it. Which texts are JSON is not spelled out.
#[verifier::external_body]
fn json_fault(text: &str) -> (r: Option<String>)
    ensures
        maybe_text(r) == json_fault_of(text@),
{
    serde_json::from_str::<serde_json::Value>(text).err().map(|e| e.to_string())
}

/// What the text of a successful response comes to, by what is wrong with it as JSON.
pub open spec fn json_body(endpoint: Seq<char>, text: Seq<char>, fault: Option<Seq<char>>) -> Result<
    JsonReplied,
    Seq<char>,
> {
    match fault {
        None => Ok(JsonReplied::Json(text)),
        Some(e) => Err("bad "@ + endpoint + " response JSON: "@ + e),
    }
}

/// What the text of a successful response comes to, by what is wrong with it as JSON.
pub fn json_result(endpoint: &str, text: String, fault: Option<String>) -> (r: Result<
    JsonReply,
    String,
>)
    ensures
        reply_view(r) == json_body(endpoint@, text@, maybe_text(fault)),
{
    match fault {
        None => Ok(JsonReply::Json(text)),
        Some(e) => {
            let mut m = joined("bad ", endpoint);
            push_text(&mut m, " response JSON: ");
            push_text(&mut m, e.as_str());
            Err(m)
        },
    }
}

/// What an exchange with a JSON service at an endpoint comes to: the text of its body, which has to
/// be JSON; an empty map where there is none; the anomaly of a failure.
pub open spec fn json_replied(endpoint: Seq<char>, status: u16, body: Seq<u8>) -> Result<
    JsonReplied,
    Seq<char>,
> {
    if !succeeded(status) {
        Ok(JsonReplied::Value(Val::HashMap(anomaly_of(status, lossy_utf8(body), true))))
    } else if body.len() == 0 {
        Ok(JsonReplied::Value(Val::HashMap(Seq::empty())))
    } else {
        json_body(endpoint, lossy_utf8(body), json_fault_of(lossy_utf8(body)))
    }
}

/// What an exchange with a JSON service at an endpoint comes to.
pub fn json_answer(endpoint: &str, ex: &Exchange) -> (r: Result<JsonReply, String>)
    ensures
        reply_view(r) == json_replied(endpoint@, ex.status, ex.body@),
{
    if ex.status < 200 || ex.status >= 300 {
        return Ok(JsonReply::Value(anomaly(ex.status, ex.body.as_slice(), true)));
    }
    if ex.body.len() == 0 {
        let none = Value::HashMap(Vec::new());
        proof {
            lemma_views(none);
            assert(none.view()->HashMap_0 =~= Seq::empty());
        }
        return Ok(JsonReply::Value(none));
    }
    let text = lossy_text(ex.body.as_slice());
    let fault = json_fault(text.as_str());
    json_result(endpoint, text, fault)
}

/// What an exchange of a client comes to; an api that is no JSON service is refused as its plan is.
pub fn json_reply(client: &AwsClient, ex: &Exchange) -> (r: Result<JsonReply, String>)
    ensures
        reply_view(r) == (match service_of(client.view().api) {
            None => Err::<JsonReplied, Seq<char>>("unknown api "@ + client.view().api),
            Some((endpoint, _, _)) => json_replied(endpoint, ex.status, ex.body@),
        }),
{
    match json_service(client.api.as_str()) {
        None => Err(joined("unknown api ", client.api.as_str())),
        Some((endpoint, _, _)) => json_answer(endpoint, ex),
    }
}

// ---------------------------------------------------------------------------
// Laws
// ---------------------------------------------------------------------------

/// Every operation in a service's catalog is one that is planned, given the keys it needs.
pub proof fn law_catalog_is_supported(
    i: int,
    req: Seq<(Val, Val)>,
    t: crate::s3::Target,
)
    requires
        0 <= i < op_names("s3"@).len(),
        crate::s3::text_in(req, "Bucket"@) is Some,
        crate::s3::text_in(req, "Key"@) is Some,
        crate::s3::put_body(req) is Ok,
    ensures
        crate::s3::planned(op_names("s3"@)[i], req, t) is Ok,
{
    let op = op_names("s3"@)[i];
    assert(i == 0 || i == 1 || i == 2 || i == 3 || i == 4 || i == 5 || i == 6);
}

/// Credentials that were exchanged are used until two minutes before their end, and not after.
pub proof fn law_exchanged_credentials_are_kept(c: Client, env: AwsEnv, now: u64)
    requires
        static_keys(c, env) is None,
        env.web_identity_token_file,
        env.role_arn,
        c.cached is Some,
        c.cached->Some_0.expires is Some,
    ensures
        credentials_from(c, env, now) == Ok::<Option<Keys>, Seq<char>>(
            if now + crate::creds::REFRESH_EARLY < c.cached->Some_0.expires->Some_0 {
                c.cached
            } else {
                None
            },
        ),
{
}

} // verus!
