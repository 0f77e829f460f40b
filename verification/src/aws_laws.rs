//! Laws of service clients: how they are configured, what they send and what answers become.

use vstd::prelude::*;
use crate::aws::{
    anomaly_entries, anomaly_keyword, asked, category, config_text, configured, credentials_from,
    json_planned, json_replied, presign_asked, service_of, succeeded, AwsEnv, Client, JsonReplied,
};
use crate::creds::{exchanged, sts_expiry, sts_tag, Keys};
use crate::hash_map::entry_value;
use crate::process::{keyword_val, lossy_utf8, maybe_text};
use crate::s3_laws::told;
use crate::search::without_trailing;
use crate::value::Val;

verus! {

proof fn lemma_service_names()
    ensures
        "secretsmanager"@.len() == 14,
        "dynamodb"@.len() == 8,
        "sqs"@.len() == 3,
        "sqs"@[0] == 's',
        "sqs"@[1] == 'q',
        "ssm"@.len() == 3,
        "ssm"@[0] == 's',
        "ssm"@[1] == 's',
        "logs"@.len() == 4,
        "ecs"@.len() == 3,
        "ecs"@[0] == 'e',
        "kinesis"@.len() == 7,
        "states"@.len() == 6,
        "eventbridge"@.len() == 11,
        "s3"@.len() == 2,
{
    reveal_strlit("secretsmanager");
    reveal_strlit("dynamodb");
    reveal_strlit("sqs");
    reveal_strlit("ssm");
    reveal_strlit("logs");
    reveal_strlit("ecs");
    reveal_strlit("kinesis");
    reveal_strlit("states");
    reveal_strlit("eventbridge");
    reveal_strlit("s3");
}

/// The JSON services: the host label, the target prefix and the protocol version of each.
pub proof fn law_json_services()
    ensures
        service_of("secretsmanager"@) == Some(("secretsmanager"@, "secretsmanager"@, "1.1"@)),
        service_of("dynamodb"@) == Some(("dynamodb"@, "DynamoDB_20120810"@, "1.0"@)),
        service_of("sqs"@) == Some(("sqs"@, "AmazonSQS"@, "1.0"@)),
        service_of("ssm"@) == Some(("ssm"@, "AmazonSSM"@, "1.1"@)),
        service_of("logs"@) == Some(("logs"@, "Logs_20140328"@, "1.1"@)),
        service_of("ecs"@) == Some(("ecs"@, "AmazonEC2ContainerServiceV20141113"@, "1.1"@)),
        service_of("kinesis"@) == Some(("kinesis"@, "Kinesis_20131202"@, "1.1"@)),
        service_of("states"@) == Some(("states"@, "AWSStepFunctions"@, "1.0"@)),
        service_of("eventbridge"@) == Some(("events"@, "AWSEvents"@, "1.1"@)),
        service_of("s3"@) is None,
{
    lemma_service_names();
}

/// A call of a JSON service posts its body to the root of the service's own host in the client's
/// region, or of the client's endpoint; headers name the protocol version and the operation.
pub proof fn law_json_requests(c: Client, op: Seq<char>, body: Seq<u8>)
    ensures
        service_of(c.api) is None <==> json_planned(c, op, body) is Err,
        json_planned(c, op, body) matches Ok(p) ==> {
            &&& service_of(c.api) matches Some((host, target, version))
            &&& p.method == "POST"@
            &&& p.body == body
            &&& p.service == host
            &&& p.region == c.region
            &&& p.headers == seq![
                ("content-type"@, "application/x-amz-json-"@ + version),
                ("x-amz-target"@, target + "."@ + op),
            ]
            &&& c.endpoint is None ==> p.url == "https://"@ + host + "."@ + c.region
                + ".amazonaws.com"@ + "/"@
            &&& c.endpoint matches Some(e) ==> p.url == without_trailing(e, '/') + "/"@
        },
{
    if let Some((host, target, version)) = service_of(c.api) {
        reveal_strlit(".amazonaws.com");
        let s = "https://"@ + host + "."@ + c.region + ".amazonaws.com"@;
        assert(s.last() == ".amazonaws.com"@.last());
        assert(".amazonaws.com"@.last() == 'm');
    }
}

/// What a configuration decides. The region is its own, else `AWS_REGION`, else the default region;
/// the endpoint its own, else the environment's. A custom endpoint is addressed by path where the
/// configuration does not say. Keys are explicit only where both are given.
pub proof fn law_client_configuration(m: Seq<(Val, Val)>, env: AwsEnv)
    ensures
        configured(Val::HashMap(m), env) matches Ok(c) ==> {
            &&& config_text(m, "api"@) == Some(c.api)
            &&& c.api == "s3"@ || service_of(c.api) is Some
            &&& config_text(m, "region"@) matches Some(r) ==> c.region == r
            &&& config_text(m, "region"@) is None && env.region is Some ==> c.region
                == env.region->0@
            &&& config_text(m, "region"@) is None && env.region is None ==> env.default_region
                is Some && c.region == env.default_region->0@
            &&& config_text(m, "endpoint"@) is Some ==> c.endpoint == config_text(m, "endpoint"@)
            &&& config_text(m, "endpoint"@) is None ==> c.endpoint == maybe_text(env.endpoint_url)
            &&& entry_value(m, keyword_val("path-style"@)) == Some(Val::Bool(true)) ==> c.path_style
            &&& entry_value(m, keyword_val("path-style"@)) == Some(Val::Bool(false))
                ==> !c.path_style
            &&& entry_value(m, keyword_val("path-style"@)) is None ==> (c.path_style
                <==> c.endpoint is Some)
            &&& c.explicit is Some <==> config_text(m, "access-key-id"@) is Some && config_text(
                m,
                "secret-access-key"@,
            ) is Some
            &&& c.explicit matches Some((k, s, t)) ==> Some(k) == config_text(m, "access-key-id"@)
                && Some(s) == config_text(m, "secret-access-key"@) && t == config_text(
                m,
                "session-token"@,
            )
            &&& c.cached is None
        },
        configured(Val::HashMap(m), env) is Err <==> {
            ||| config_text(m, "api"@) is None
            ||| config_text(m, "api"@)->0 != "s3"@ && service_of(config_text(m, "api"@)->0) is None
            ||| config_text(m, "region"@) is None && env.region is None && env.default_region
                is None
        },
{
}

/// Whose credentials a client uses: its own, else the environment's, else a web identity's, which is
/// exchanged anew two minutes before it ends; without any of these there are none.
pub proof fn law_credentials_in_turn(c: Client, env: AwsEnv, now: u64)
    ensures
        c.explicit matches Some((k, s, t)) ==> credentials_from(c, env, now) == Ok::<
            Option<Keys>,
            Seq<char>,
        >(
            Some(Keys { access_key_id: k, secret_access_key: s, session_token: t, expires: None }),
        ),
        c.explicit is None && env.access_key_id is Some && env.secret_access_key is Some
            ==> credentials_from(c, env, now) == Ok::<Option<Keys>, Seq<char>>(
            Some(
                Keys {
                    access_key_id: env.access_key_id->0@,
                    secret_access_key: env.secret_access_key->0@,
                    session_token: maybe_text(env.session_token),
                    expires: None,
                },
            ),
        ),
        c.explicit is None && !(env.access_key_id is Some && env.secret_access_key is Some) ==> {
            let identity = env.web_identity_token_file && env.role_arn;
            let fresh = c.cached matches Some(k) && (k.expires matches Some(t) ==> now + 120_000
                < t);
            &&& !identity <==> credentials_from(c, env, now) is Err
            &&& identity && fresh ==> credentials_from(c, env, now) == Ok::<
                Option<Keys>,
                Seq<char>,
            >(c.cached)
            &&& identity && !fresh ==> credentials_from(c, env, now) == Ok::<
                Option<Keys>,
                Seq<char>,
            >(None)
        },
{
}

/// A call names its operation; its request is a map, and an empty one where it is not given.
pub proof fn law_calls_name_their_operation(m: Seq<(Val, Val)>)
    ensures
        config_text(m, "op"@) is None ==> asked(Val::HashMap(m)) is Err,
        config_text(m, "op"@) matches Some(op) ==> match entry_value(m, keyword_val("request"@)) {
            Some(Val::HashMap(r)) => asked(Val::HashMap(m)) == Ok::<
                (Seq<char>, Seq<(Val, Val)>),
                Seq<char>,
            >((op, r)),
            None => asked(Val::HashMap(m)) == Ok::<(Seq<char>, Seq<(Val, Val)>), Seq<char>>(
                (op, Seq::empty()),
            ),
            _ => asked(Val::HashMap(m)) is Err,
        },
{
}

/// Only fetching an S3 object can be presigned, for as many seconds as the call says, else for
/// fifteen minutes.
pub proof fn law_presigning(api: Seq<char>, m: Seq<(Val, Val)>)
    ensures
        presign_asked(api, Val::HashMap(m)) matches Ok((req, secs)) ==> {
            &&& api == "s3"@
            &&& asked(Val::HashMap(m)) == Ok::<(Seq<char>, Seq<(Val, Val)>), Seq<char>>(
                ("GetObject"@, req),
            )
            &&& match entry_value(m, keyword_val("expires"@)) {
                Some(Val::Long(n)) => secs == n as u64,
                None => secs == 900,
                _ => false,
            }
        },
        presign_asked(api, Val::HashMap(m)) is Err <==> {
            ||| api != "s3"@
            ||| asked(Val::HashMap(m)) is Err
            ||| (asked(Val::HashMap(m))->Ok_0).0 != "GetObject"@
            ||| (entry_value(m, keyword_val("expires"@)) matches Some(v) && !(v is Long))
        },
{
}

/// The kind of failure that a status tells.
pub proof fn law_failure_categories(status: u16)
    ensures
        category(401) == "forbidden"@,
        category(403) == "forbidden"@,
        category(404) == "not-found"@,
        category(429) == "busy"@,
        category(503) == "unavailable"@,
        400 <= status < 500 && status != 401 && status != 403 && status != 404 && status != 429
            ==> category(status) == "incorrect"@,
        (status < 400 || status >= 500) && status != 503 ==> category(status) == "fault"@,
        succeeded(status) <==> 200 <= status <= 299,
{
}

/// An anomaly tells its category and status, and the code and the message where there are any.
pub proof fn law_anomalies(
    status: u16,
    code: Option<Seq<char>>,
    message: Option<Seq<char>>,
    e: (Val, Val),
)
    ensures
        anomaly_entries(status, code, message).contains(e) <==> {
            ||| e == (anomaly_keyword("category"@), anomaly_keyword(category(status)))
            ||| e == told("StatusCode"@, Val::Long(status as i64))
            ||| code matches Some(s) && e == told("Code"@, Val::Str(s))
            ||| message matches Some(s) && e == told("Message"@, Val::Str(s))
        },
{
    let first = seq![
        (anomaly_keyword("category"@), anomaly_keyword(category(status))),
        (keyword_val("StatusCode"@), Val::Long(status as i64)),
    ];
    assert(first[0] == (anomaly_keyword("category"@), anomaly_keyword(category(status))));
    assert(first[1] == told("StatusCode"@, Val::Long(status as i64)));
    crate::s3_laws::lemma_maybe("Code"@, crate::s3::text_val(code), e);
    crate::s3_laws::lemma_maybe("Message"@, crate::s3::text_val(message), e);
    let c = crate::s3::maybe_entry("Code"@, crate::s3::text_val(code));
    let m = crate::s3::maybe_entry("Message"@, crate::s3::text_val(message));
    crate::s3_laws::lemma_both(first, c, e);
    crate::s3_laws::lemma_both(first + c, m, e);
    if first.contains(e) {
        let i = choose|i: int| 0 <= i < first.len() && first[i] == e;
        assert(i == 0 || i == 1);
    }
}

/// A JSON service's answer: a failure is an anomaly, an empty body an empty map, and any other body
/// its text, which has to be JSON.
pub proof fn law_json_answers(endpoint: Seq<char>, status: u16, body: Seq<u8>)
    ensures
        status < 200 || status >= 300 ==> (json_replied(endpoint, status, body) matches Ok(
            JsonReplied::Value(Val::HashMap(_)),
        )),
        200 <= status < 300 && body.len() == 0 ==> json_replied(endpoint, status, body) == Ok::<
            JsonReplied,
            Seq<char>,
        >(JsonReplied::Value(Val::HashMap(Seq::empty()))),
        200 <= status < 300 && body.len() > 0 && crate::aws::json_fault_of(lossy_utf8(body))
            is None ==> json_replied(endpoint, status, body) == Ok::<JsonReplied, Seq<char>>(
            JsonReplied::Json(lossy_utf8(body)),
        ),
        200 <= status < 300 && body.len() > 0 && crate::aws::json_fault_of(lossy_utf8(body))
            is Some ==> json_replied(endpoint, status, body) is Err,
{
}

/// The exchange of a web identity gives the keys, the token and the end that the response names; it
/// fails where the exchange did, or where a key is missing.
pub proof fn law_identity_exchange(success: bool, status: Seq<char>, body: Seq<char>)
    ensures
        exchanged(success, status, body) is Ok <==> success && sts_tag(body, "AccessKeyId"@) is Some
            && sts_tag(body, "SecretAccessKey"@) is Some,
        exchanged(success, status, body) matches Ok(k) ==> {
            &&& sts_tag(body, "AccessKeyId"@) == Some(k.access_key_id)
            &&& sts_tag(body, "SecretAccessKey"@) == Some(k.secret_access_key)
            &&& k.session_token == sts_tag(body, "SessionToken"@)
            &&& k.expires == sts_expiry(body)
        },
{
}

} // verus!
