//! AWS clients: plans, signatures, credentials and replies.

use cljrs::aws::{
    anomaly, client, json_answer, json_reply, json_result, json_service, op_and_request, ops, presign_request, AwsClient,
    AwsEnv,
    CredStep, JsonReply,
};
use cljrs::creds::{
    assume_role_with_web_identity, exchange_parameters, irsa_available, static_creds, Creds,
};
use cljrs::s3::{addressing, plan, shape_response, S3Target, Shape};
use cljrs::sign::{
    apply_signature, presign, presignable, sign_plan, signable, SignedRequest, HEADER_ROOM,
};
use cljrs::value::{Name, Value};
use cljrs::wire::{
    build_url, uri_encode, xml_blocks, xml_escape, xml_tag, xml_unescape, Exchange, Plan, Query,
};

fn kw(s: &str) -> Value {
    Value::Keyword(Name::simple(s))
}

fn text(s: &str) -> Value {
    Value::Str(s.to_string())
}

fn no_env() -> AwsEnv {
    AwsEnv {
        region: None,
        default_region: None,
        endpoint_url: None,
        access_key_id: None,
        secret_access_key: None,
        session_token: None,
        web_identity_token_file: false,
        role_arn: false,
    }
}

fn creds(token: Option<&str>) -> Creds {
    Creds {
        access_key_id: "AKID".to_string(),
        secret_access_key: "shh".to_string(),
        session_token: token.map(String::from),
        expires: None,
    }
}

fn json_client(api: &str) -> AwsClient {
    AwsClient {
        api: api.to_string(),
        region: "us-east-1".to_string(),
        endpoint: None,
        path_style: false,
        explicit: None,
        cached: None,
    }
}

fn get_plan(url: &str, service: &str) -> Plan {
    Plan {
        method: "GET".to_string(),
        url: url.to_string(),
        headers: vec![("X-Extra".to_string(), "1".to_string())],
        body: vec![],
        service: service.to_string(),
        region: "us-east-1".to_string(),
    }
}

fn header<'a>(r: &'a SignedRequest, name: &str) -> Option<&'a str> {
    r.headers.iter().find(|h| h.0 == name).map(|h| h.1.as_str())
}

const NOON: u64 = 1_440_938_160;

#[test]
fn a_signed_plan_carries_the_signature() {
    let p = get_plan("https://example.amazonaws.com/", "service");
    assert!(signable(&p, &creds(None), NOON));
    let r = sign_plan(&p, &creds(None), NOON).expect("signed");
    assert_eq!(r.uri, "https://example.amazonaws.com/");
    assert_eq!(header(&r, "x-amz-date"), Some("20150830T123600Z"));
    assert_eq!(header(&r, "x-extra"), Some("1"));
    let auth = header(&r, "authorization").expect("authorization");
    assert!(auth.starts_with(
        "AWS4-HMAC-SHA256 Credential=AKID/20150830/us-east-1/service/aws4_request, \
         SignedHeaders=host;x-amz-date;x-extra, Signature="
    ));
    assert_eq!(header(&r, "x-amz-content-sha256"), None);
    assert_eq!(header(&r, "x-amz-security-token"), None);
}

#[test]
fn s3_signs_the_payload_checksum_and_the_token() {
    let p = get_plan("https://s3.us-east-1.amazonaws.com/b/k", "s3");
    let r = sign_plan(&p, &creds(Some("tok")), NOON).expect("signed");
    assert_eq!(
        header(&r, "x-amz-content-sha256"),
        Some("e3b0c44298fc1c149afbf4c8996fb92427ae41e4649b934ca495991b7852b855")
    );
    assert_eq!(header(&r, "x-amz-security-token"), Some("tok"));
}

#[test]
fn what_is_signed_decides_the_signature() {
    let p = get_plan("https://example.amazonaws.com/", "service");
    let q = get_plan("https://example.amazonaws.com/x", "service");
    let a = sign_plan(&p, &creds(None), NOON).expect("signed");
    let b = sign_plan(&p, &creds(None), NOON).expect("signed");
    let c = sign_plan(&q, &creds(None), NOON).expect("signed");
    assert_eq!(header(&a, "authorization"), header(&b, "authorization"));
    assert_ne!(header(&a, "authorization"), header(&c, "authorization"));
}

#[test]
fn what_cannot_be_signed_is_refused() {
    assert!(!signable(&get_plan("/only/a/path", "s3"), &creds(None), NOON));
    assert!(!signable(&get_plan("https://h/", "s3"), &creds(None), u64::MAX));
    let loud = get_plan("HTTPS://h/k", "s3");
    assert!(signable(&loud, &creds(None), NOON));
    assert_eq!(sign_plan(&loud, &creds(None), NOON).expect("signed").uri, "https://h/k");
    let bad = get_plan("https://h/ space", "s3");
    assert!(signable(&bad, &creds(None), NOON));
    assert!(sign_plan(&bad, &creds(None), NOON)
        .unwrap_err()
        .starts_with("building request: "));
    assert_eq!(
        sign_plan(&get_plan("https://h/", "s3"), &creds(Some("a\nb")), NOON).unwrap_err(),
        "sigv4: failed to create canonical request"
    );
}

#[test]
fn a_signer_is_named_in_a_header() {
    let mut odd = creds(None);
    odd.access_key_id = "AK\nID".to_string();
    assert!(!signable(&get_plan("https://h/", "s3"), &odd, NOON));
    let mut p = get_plan("https://h/", "s3");
    p.region = "us\u{7f}".to_string();
    assert!(!signable(&p, &creds(None), NOON));
    let mut wide = creds(None);
    wide.access_key_id = "\tcl\u{e9}".to_string();
    let p = get_plan("https://h/", "s3");
    assert!(signable(&p, &wide, NOON));
    let r = sign_plan(&p, &wide, NOON).expect("signed");
    assert!(header(&r, "authorization").expect("authorization").contains("Credential=\tcl\u{e9}/"));
}

#[test]
fn a_url_is_measured_as_it_is_encoded_again() {
    // A path is taken as it is.
    let long = get_plan(&format!("https://h/{}", "a".repeat(65_523)), "s3");
    assert!(signable(&long, &creds(None), NOON));
    assert!(sign_plan(&long, &creds(None), NOON).is_ok());
    let over = get_plan(&format!("https://h/{}", "a".repeat(65_524)), "s3");
    assert!(!signable(&over, &creds(None), NOON));
    // In a query an escape keeps its length, and a slash takes three bytes.
    let escapes = get_plan(&format!("https://h/?x={}", "%C3%A9".repeat(10_900)), "s3");
    assert!(signable(&escapes, &creds(None), NOON));
    assert!(sign_plan(&escapes, &creds(None), NOON).is_ok());
    let slashes = get_plan(&format!("https://h/?x={}", "/".repeat(21_840)), "s3");
    assert!(signable(&slashes, &creds(None), NOON));
    assert!(sign_plan(&slashes, &creds(None), NOON).is_ok());
    let slashes = get_plan(&format!("https://h/?x={}", "/".repeat(21_850)), "s3");
    assert!(!signable(&slashes, &creds(None), NOON));
    // What is no UTF-8 is replaced by something longer.
    let broken = get_plan(&format!("https://h/?x={}", "%FF".repeat(7_270)), "s3");
    assert!(signable(&broken, &creds(None), NOON));
    assert!(sign_plan(&broken, &creds(None), NOON).is_ok());
    let broken = get_plan(&format!("https://h/?x={}", "%FF".repeat(7_300)), "s3");
    assert!(!signable(&broken, &creds(None), NOON));
}

#[test]
fn as_many_headers_as_there_is_room_for_are_signed() {
    let mut p = get_plan("https://h/", "s3");
    p.headers = (0..HEADER_ROOM).map(|i| (format!("x-h{i}"), "1".to_string())).collect();
    assert!(signable(&p, &creds(Some("tok")), NOON));
    let r = sign_plan(&p, &creds(Some("tok")), NOON).expect("signed");
    assert_eq!(r.headers.len(), HEADER_ROOM + 4);
    p.headers.push(("x-more".to_string(), "1".to_string()));
    assert!(!signable(&p, &creds(None), NOON));
}

#[test]
fn a_presigned_url_has_room_for_its_signature() {
    let p = get_plan(&format!("https://h/{}", "a".repeat(65_200)), "s3");
    assert!(presignable(&p, &creds(None), NOON));
    let url = presign(&p, &creds(None), NOON, u64::MAX).expect("presigned");
    assert!(url.len() <= 65_534);
    let p = get_plan(&format!("https://h/{}", "a".repeat(65_300)), "s3");
    assert!(signable(&p, &creds(None), NOON));
    assert!(!presignable(&p, &creds(None), NOON));
    let long_token = "/".repeat(21_000);
    let p = get_plan("https://h/k?a=b", "s3");
    assert!(presignable(&p, &creds(Some(&long_token)), NOON));
    assert!(presign(&p, &creds(Some(&long_token)), NOON, 900).is_ok());
}

#[test]
fn a_presigned_url_ends() {
    let p = get_plan("https://s3.us-east-1.amazonaws.com/b/k", "s3");
    let url = presign(&p, &creds(None), NOON, 900).expect("presigned");
    assert!(url.starts_with("https://s3.us-east-1.amazonaws.com/b/k?X-Amz-Algorithm=AWS4-HMAC-SHA256&"));
    assert!(url.contains("X-Amz-Expires=900"));
    assert!(url.contains("X-Amz-Date=20150830T123600Z"));
    assert!(url.contains("X-Amz-Signature="));
    let bad = get_plan("https://h/ space", "s3");
    assert_eq!(
        presign(&bad, &creds(None), NOON, 900).unwrap_err(),
        "signable request: failed to create canonical request"
    );
}

#[test]
fn a_signature_takes_the_place_of_its_headers() {
    let pair = |k: &str, v: &str| (k.to_string(), v.to_string());
    let r = SignedRequest {
        uri: "u".to_string(),
        headers: vec![pair("a", "1"), pair("x-amz-date", "old"), pair("b", "2")],
    };
    let r = apply_signature(r, vec![pair("x-amz-date", "new")]);
    assert_eq!(
        r.headers,
        vec![pair("a", "1"), pair("b", "2"), pair("x-amz-date", "new")]
    );
}

#[test]
fn uris_are_encoded() {
    assert_eq!(uri_encode("a b/c~", true), "a%20b%2Fc~");
    assert_eq!(uri_encode("a b/c~", false), "a%20b/c~");
    assert_eq!(uri_encode("\u{e9}", true), "%C3%A9");
}

#[test]
fn queries_stay_in_order() {
    let mut q = Query::new();
    q.insert("prefix", "a b".to_string());
    q.insert("list-type", "2".to_string());
    q.insert("prefix", "c".to_string());
    assert_eq!(
        build_url("https://h", "/b", &q),
        "https://h/b?list-type=2&prefix=c"
    );
    assert_eq!(build_url("https://h/", "/b", &Query::new()), "https://h/b");
}

#[test]
fn xml_is_read_and_written() {
    let xml = "<R><Key> a&amp;b </Key><C><Key>x</Key></C><C><Key>y</Key></C></R>";
    assert_eq!(xml_tag(xml, "Key"), Some("a&b".to_string()));
    assert_eq!(xml_tag(xml, "None"), None);
    assert_eq!(xml_blocks(xml, "C"), vec!["<Key>x</Key>", "<Key>y</Key>"]);
    let raw = "<a href=\"x\">'&'</a>";
    assert_eq!(xml_unescape(&xml_escape(raw)), raw);
}

#[test]
fn keys_come_from_the_config_first() {
    let explicit = Some(("A".to_string(), "B".to_string(), None));
    let some = |s: &str| Some(s.to_string());
    let got = static_creds(explicit, some("E"), some("F"), None);
    assert_eq!(got.expect("keys").access_key_id, "A");
    let got = static_creds(None, some("E"), some("F"), None);
    assert_eq!(got.expect("keys").secret_access_key, "F");
    assert!(static_creds(None, some("E"), None, None).is_none());
    assert!(irsa_available(true, true));
    assert!(!irsa_available(true, false));
}

#[test]
fn credentials_are_refreshed_early() {
    let mut c = creds(None);
    assert!(!c.expired(u64::MAX));
    c.expires = Some(1_000_000);
    assert!(!c.expired(879_999));
    assert!(c.expired(880_000));
}

#[test]
fn a_role_exchange_is_read() {
    let body = "<Credentials><AccessKeyId>K</AccessKeyId>\
                <SecretAccessKey>S</SecretAccessKey><SessionToken>T</SessionToken>\
                <Expiration>1970-01-01T00:00:10Z</Expiration></Credentials>";
    let c = assume_role_with_web_identity(true, "200 OK", body).expect("credentials");
    assert_eq!(c.access_key_id, "K");
    assert_eq!(c.session_token, Some("T".to_string()));
    assert_eq!(c.expires, Some(10_000));
    assert!(assume_role_with_web_identity(false, "403 Forbidden", "<E/>").is_err());
    let params = exchange_parameters("arn", None, " tok\n");
    assert!(params.iter().any(|p| p.0 == "RoleArn" && p.1 == "arn"));
    assert!(params.iter().any(|p| p.0 == "WebIdentityToken" && p.1 == "tok"));
}

#[test]
fn clients_know_their_services() {
    assert!(json_service("secretsmanager").is_some());
    assert!(json_service("s3").is_none());
    let config = Value::HashMap(vec![(kw("api"), kw("s3")), (kw("region"), text("eu-west-1"))]);
    let c = client(&config, &no_env()).expect("client");
    assert_eq!(c.region, "eu-west-1");
    assert_eq!(c.api, "s3");
    assert!(client(&Value::Nil, &no_env()).is_err());
    assert!(matches!(c.credentials(&no_env(), 0), Err(_)));
    let mut env = no_env();
    env.web_identity_token_file = true;
    env.role_arn = true;
    assert!(matches!(
        c.credentials(&env, 0),
        Ok(CredStep::Exchange)
    ));
}

#[test]
fn requests_name_an_operation() {
    let arg = Value::HashMap(vec![
        (kw("op"), kw("GetObject")),
        (kw("request"), Value::HashMap(vec![(kw("Bucket"), text("b"))])),
    ]);
    let (op, req) = op_and_request(&arg).expect("request");
    assert_eq!(op, "GetObject");
    assert_eq!(req.len(), 1);
    assert!(op_and_request(&Value::Nil).is_err());
    let (_, seconds) = presign_request("s3", &arg).expect("presign");
    assert_eq!(seconds, 900);
    assert!(presign_request("secretsmanager", &arg).is_err());
    let Value::HashMap(catalog) = ops("s3") else {
        panic!("a map")
    };
    assert_eq!(catalog.len(), 7);
    assert_eq!(ops("secretsmanager"), Value::HashMap(vec![]));
}

#[test]
fn buckets_are_addressed_by_host_or_path() {
    let t = S3Target {
        region: "us-east-1".to_string(),
        endpoint: None,
        path_style: false,
    };
    assert_eq!(
        addressing(&t, "b"),
        (
            "https://b.s3.us-east-1.amazonaws.com".to_string(),
            String::new()
        )
    );
    let req = vec![(kw("Bucket"), text("b")), (kw("Key"), text("k 1"))];
    let (p, shape) = plan("GetObject", &req, &t).expect("plan");
    assert_eq!(p.method, "GET");
    assert_eq!(p.url, "https://b.s3.us-east-1.amazonaws.com/k%201");
    assert!(matches!(shape, Shape::Object));
    assert!(plan("Nonsense", &req, &t).is_err());
    assert!(plan("GetObject", &vec![], &t).is_err());
}

#[test]
fn a_reply_of_a_json_service_is_json() {
    let reply = |status: u16, body: &[u8]| Exchange {
        status,
        headers: vec![],
        body: body.to_vec(),
    };
    let events = json_client("eventbridge");
    assert!(matches!(
        json_reply(&events, &reply(200, b"{\"a\": [1, null]}")),
        Ok(JsonReply::Json(t)) if t == "{\"a\": [1, null]}"
    ));
    // The error names the endpoint, not the api.
    let failed = json_reply(&events, &reply(200, b"<html>")).unwrap_err();
    assert_eq!(failed, "bad events response JSON: expected value at line 1 column 1");
    let cut = json_answer("sqs", &reply(299, b"{\"a\":")).unwrap_err();
    assert_eq!(cut, "bad sqs response JSON: EOF while parsing a value at line 1 column 5");
    assert!(json_answer("sqs", &reply(200, b"\xff")).is_err());
    assert!(matches!(
        json_reply(&events, &reply(204, b"")),
        Ok(JsonReply::Value(Value::HashMap(m))) if m.is_empty()
    ));
    assert!(matches!(json_reply(&events, &reply(500, b"<html>")), Ok(JsonReply::Value(_))));
    assert_eq!(
        json_reply(&json_client("s3"), &reply(200, b"{}")).unwrap_err(),
        "unknown api s3"
    );
    assert_eq!(
        json_result("logs", "x".to_string(), Some("why".to_string())).unwrap_err(),
        "bad logs response JSON: why"
    );
    assert!(json_result("logs", "x".to_string(), None).is_ok());
}

#[test]
fn failures_become_anomalies() {
    let v = anomaly(404, b"<Error><Code>NoSuchKey</Code></Error>", false);
    let Value::HashMap(pairs) = v else { panic!("map") };
    assert!(pairs.contains(&(kw("Code"), text("NoSuchKey"))));
    assert!(pairs.contains(&(
        Value::Keyword(Name::qualified("cognitect.anomalies", "category")),
        Value::Keyword(Name::qualified("cognitect.anomalies", "not-found")),
    )));
    let ok = Exchange {
        status: 200,
        headers: vec![],
        body: b"{}".to_vec(),
    };
    assert!(matches!(json_answer("events", &ok), Ok(JsonReply::Json(t)) if t == "{}"));
    let bad = Exchange {
        status: 400,
        headers: vec![],
        body: b"{\"__type\":\"X#Throttled\",\"message\":\"slow\"}".to_vec(),
    };
    let Ok(JsonReply::Value(Value::HashMap(pairs))) = json_answer("events", &bad) else {
        panic!("an anomaly");
    };
    let under = |key: &str| pairs.iter().find(|p| p.0 == kw(key)).map(|p| p.1.clone());
    assert_eq!(under("StatusCode"), Some(Value::Long(400)));
    assert_eq!(under("Code"), Some(text("X#Throttled")));
    assert_eq!(under("Message"), Some(text("slow")));
    assert!(matches!(
        shape_response(&Shape::Object, &ok),
        Value::HashMap(_)
    ));
}
