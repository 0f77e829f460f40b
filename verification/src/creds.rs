//! Credentials: explicit or environment keys, else a web-identity exchange that is kept until it
//! nears its end.

use vstd::prelude::*;
use vstd::utf8::encode_utf8;
use crate::instant::inst_millis;
use crate::instant::parse_rfc3339_millis;
use crate::process::maybe_text;
use crate::text::{chars_of, push_text, text_copy, trim};
use crate::text::trimmed;
use crate::wire::element_from;
use crate::wire::{element, part};

verus! {

/// Credential material.
#[derive(Debug)]
pub struct Creds {
    pub access_key_id: String,
    pub secret_access_key: String,
    pub session_token: Option<String>,
    /// When web-identity credentials end, in epoch milliseconds.
    pub expires: Option<u64>,
}

/// What a [`Creds`] holds.
pub struct Keys {
    pub access_key_id: Seq<char>,
    pub secret_access_key: Seq<char>,
    pub session_token: Option<Seq<char>>,
    pub expires: Option<u64>,
}

/// How long before their end credentials are refreshed, in milliseconds.
pub const REFRESH_EARLY: u64 = 120_000;

impl Creds {
    pub open spec fn view(&self) -> Keys {
        Keys {
            access_key_id: self.access_key_id@,
            secret_access_key: self.secret_access_key@,
            session_token: maybe_text(self.session_token),
            expires: self.expires,
        }
    }

    /// Whether the credentials are to be refreshed at a time: two minutes early.
    pub fn expired(&self, now: u64) -> (r: bool)
        ensures
            r == (self.expires matches Some(t) && now + REFRESH_EARLY >= t),
    {
        match self.expires {
            Some(t) => t < REFRESH_EARLY || t - REFRESH_EARLY <= now,
            None => false,
        }
    }

    /// A copy of the credentials.
    pub fn copy(&self) -> (r: Creds)
        ensures
            r.view() == self.view(),
    {
        Creds {
            access_key_id: self.access_key_id.clone(),
            secret_access_key: self.secret_access_key.clone(),
            session_token: copy_text(&self.session_token),
            expires: self.expires,
        }
    }
}

fn copy_text(s: &Option<String>) -> (r: Option<String>)
    ensures
        maybe_text(r) == maybe_text(*s),
{
    match s {
        Some(t) => Some(t.clone()),
        None => None,
    }
}

/// The keys that need no exchange: explicit ones, else those of the environment.
pub fn static_creds(
    explicit: Option<(String, String, Option<String>)>,
    env_key: Option<String>,
    env_secret: Option<String>,
    env_token: Option<String>,
) -> (r: Option<Creds>)
    ensures
        match explicit {
            Some((key, secret, token)) => r is Some && r->Some_0.view() == (Keys {
                access_key_id: key@,
                secret_access_key: secret@,
                session_token: maybe_text(token),
                expires: None,
            }),
            None => match (env_key, env_secret) {
                (Some(key), Some(secret)) => r is Some && r->Some_0.view() == (Keys {
                    access_key_id: key@,
                    secret_access_key: secret@,
                    session_token: maybe_text(env_token),
                    expires: None,
                }),
                _ => r is None,
            },
        },
{
    if let Some((key, secret, token)) = explicit {
        return Some(
            Creds {
                access_key_id: key,
                secret_access_key: secret,
                session_token: token,
                expires: None,
            },
        );
    }
    match (env_key, env_secret) {
        (Some(key), Some(secret)) => Some(
            Creds {
                access_key_id: key,
                secret_access_key: secret,
                session_token: env_token,
                expires: None,
            },
        ),
        _ => None,
    }
}

/// Whether the environment offers a web identity: a token file and a role.
pub fn irsa_available(token_file: bool, role_arn: bool) -> (r: bool)
    ensures
        r == (token_file && role_arn),
{
    token_file && role_arn
}

/// The text of the first element of a name, trimmed.
pub open spec fn sts_tag(body: Seq<char>, name: Seq<char>) -> Option<Seq<char>> {
    match element_from(body, name, 0) {
        Some((start, end)) => Some(trimmed(body.subrange(start, end))),
        None => None,
    }
}

/// The end of the credentials, where the response tells one.
pub open spec fn sts_expiry(body: Seq<char>) -> Option<u64> {
    match sts_tag(body, "Expiration"@) {
        Some(t) => match inst_millis(encode_utf8(t)) {
            Some(ms) => Some((ms as i64) as u64),
            None => None,
        },
        None => None,
    }
}

/// The credentials of a response to the exchange of a web identity.
pub open spec fn exchanged(success: bool, status: Seq<char>, body: Seq<char>) -> Result<
    Keys,
    Seq<char>,
> {
    if !success {
        Err("STS AssumeRoleWithWebIdentity failed ("@ + status + "): "@ + body)
    } else {
        match (sts_tag(body, "AccessKeyId"@), sts_tag(body, "SecretAccessKey"@)) {
            (None, _) => Err("STS response missing AccessKeyId"@),
            (Some(_), None) => Err("STS response missing SecretAccessKey"@),
            (Some(key), Some(secret)) => Ok(
                Keys {
                    access_key_id: key,
                    secret_access_key: secret,
                    session_token: sts_tag(body, "SessionToken"@),
                    expires: sts_expiry(body),
                },
            ),
        }
    }
}

fn read_tag(body: &str, name: &str) -> (r: Option<String>)
    ensures
        maybe_text(r) == sts_tag(body@, name@),
{
    let chars = chars_of(body);
    match element(&chars, name, 0) {
        Some((start, end)) => Some(trim(part(&chars, start, end).as_str())),
        None => None,
    }
}

/// The credentials of a response to the exchange of a web identity, where `status` is the
/// response's status as text and `success` says whether it is one of success.
pub fn assume_role_with_web_identity(success: bool, status: &str, body: &str) -> (r: Result<
    Creds,
    String,
>)
    ensures
        (match r {
            Ok(c) => Ok::<Keys, Seq<char>>(c.view()),
            Err(e) => Err(e@),
        }) == exchanged(success, status@, body@),
{
    if !success {
        let mut m = text_copy("STS AssumeRoleWithWebIdentity failed (");
        push_text(&mut m, status);
        push_text(&mut m, "): ");
        push_text(&mut m, body);
        return Err(m);
    }
    let expires = match read_tag(body, "Expiration") {
        Some(t) => match parse_rfc3339_millis(t.as_str()) {
            Ok(ms) => Some(ms as u64),
            Err(_) => None,
        },
        None => None,
    };
    let key = match read_tag(body, "AccessKeyId") {
        Some(k) => k,
        None => {
            return Err(text_copy("STS response missing AccessKeyId"));
        },
    };
    let secret = match read_tag(body, "SecretAccessKey") {
        Some(k) => k,
        None => {
            return Err(text_copy("STS response missing SecretAccessKey"));
        },
    };
    Ok(
        Creds {
            access_key_id: key,
            secret_access_key: secret,
            session_token: read_tag(body, "SessionToken"),
            expires,
        },
    )
}

/// The parameters of the exchange of a web identity, in order.
pub fn exchange_parameters(role_arn: &str, session_name: Option<&str>, token: &str) -> (r: Vec<
    (String, String),
>)
    ensures
        crate::process::env_texts(r@) == seq![
            ("Action"@, "AssumeRoleWithWebIdentity"@),
            ("Version"@, "2011-06-15"@),
            ("RoleArn"@, role_arn@),
            (
                "RoleSessionName"@,
                match session_name {
                    Some(s) => s@,
                    None => "cljrsh"@,
                },
            ),
            ("WebIdentityToken"@, trimmed(token@)),
        ],
{
    let mut out: Vec<(String, String)> = Vec::new();
    out.push((text_copy("Action"), text_copy("AssumeRoleWithWebIdentity")));
    out.push((text_copy("Version"), text_copy("2011-06-15")));
    out.push((text_copy("RoleArn"), text_copy(role_arn)));
    out.push(
        (
            text_copy("RoleSessionName"),
            match session_name {
                Some(s) => text_copy(s),
                None => text_copy("cljrsh"),
            },
        ),
    );
    out.push((text_copy("WebIdentityToken"), trim(token)));
    let ghost wanted = seq![
        ("Action"@, "AssumeRoleWithWebIdentity"@),
        ("Version"@, "2011-06-15"@),
        ("RoleArn"@, role_arn@),
        (
            "RoleSessionName"@,
            match session_name {
                Some(s) => s@,
                None => "cljrsh"@,
            },
        ),
        ("WebIdentityToken"@, trimmed(token@)),
    ];
    assert(crate::process::env_texts(out@) =~= wanted);
    out
}

} // verus!
