//! The two bridge operations, split at the transport edge.
//!
//! Everything up to the HTTP round trip and everything after it is here,
//! verified: resolving the configuration (which fails before any transport
//! work when the token is missing), building the exact request, and turning
//! the transport's outcome into the typed result. The round trip itself is
//! plain I/O and stays outside the library; it hands back either the
//! response body or its failure text.

use vstd::prelude::*;
use crate::codec::{
    add_users_body_jv, email_list_body_jv, emails_view, encode_add_users_body,
    encode_email_list_body, decode_add_user_response, decode_email_list_response,
    wf_add_response_v, wf_list_response_v, add_response_jv, list_response_jv, AddUserResponse,
    Email, EmailListResponse, EmailListResponseV, AddUserResponseV, User,
};
use crate::json::ser_json;
use crate::config::{
    resolve_base_url, resolve_token, spec_default_base_url, spec_missing_token_message,
    strip_trailing_slashes,
};

verus! {

/// The resolved configuration both bridge operations run under.
pub struct ApiConfig {
    pub base_url: String,
    pub token: String,
}

/// One HTTP POST for the transport to perform.
pub struct HttpRequest {
    pub url: String,
    pub authorization: String,
    pub content_type: String,
    pub body: String,
}

/// What the transport came back with: the response body, or the failure's
/// own description.
pub enum TransportOutcome {
    Body(String),
    Failure(String),
}

/// Resolves the configuration. A missing token fails here, with the
/// descriptive error, so no request is ever built and no transport work is
/// ever asked for; a present token always succeeds, with the base URL's
/// trailing separators stripped.
pub fn prepare_config(base_url: Option<String>, token: Option<String>) -> (r: Result<
    ApiConfig,
    String,
>)
    ensures
        match token {
            Some(t) => r matches Ok(c) && c.token@ == t@ && c.base_url@ == (match base_url {
                Some(b) => strip_trailing_slashes(b@),
                None => strip_trailing_slashes(spec_default_base_url()),
            }),
            None => r matches Err(m) && m@ == spec_missing_token_message(),
        },
{
    let token = match resolve_token(token) {
        Ok(t) => t,
        Err(m) => {
            return Err(m);
        },
    };
    let base_url = resolve_base_url(base_url);
    Ok(ApiConfig { base_url, token })
}

/// The POST that asks for the rows of one address: `<base>/emailList`, the
/// token under `Authorization`, a JSON content type, and the body
/// `{"toEmail": <address>}`.
pub fn email_list_request(cfg: &ApiConfig, to_email: &str) -> (r: HttpRequest)
    ensures
        r.url@ == cfg.base_url@ + "/emailList"@,
        r.authorization@ == cfg.token@,
        r.content_type@ == "application/json"@,
        r.body@ == ser_json(email_list_body_jv(to_email@)),
{
    HttpRequest {
        url: cfg.base_url.clone().concat("/emailList"),
        authorization: cfg.token.clone(),
        content_type: String::from_str("application/json"),
        body: encode_email_list_body(to_email),
    }
}

/// The POST that registers a batch: `<base>/addUser`, the same two headers,
/// and the body `{"list": [<credentials>...]}`.
pub fn add_users_request(cfg: &ApiConfig, users: &Vec<User>) -> (r: HttpRequest)
    ensures
        r.url@ == cfg.base_url@ + "/addUser"@,
        r.authorization@ == cfg.token@,
        r.content_type@ == "application/json"@,
        r.body@ == ser_json(add_users_body_jv(users@)),
{
    HttpRequest {
        url: cfg.base_url.clone().concat("/addUser"),
        authorization: cfg.token.clone(),
        content_type: String::from_str("application/json"),
        body: encode_add_users_body(users),
    }
}

/// The success rule of every envelope: code 200 and code 200 alone is
/// success. A successful mail-list envelope yields exactly its rows, in
/// order with every field; absent rows yield no rows, never an error; any
/// other code fails with the envelope's own message, verbatim.
pub fn interpret_email_list(env: EmailListResponse) -> (r: Result<Vec<Email>, String>)
    ensures
        env.code == 200 && env.data is Some ==> (r matches Ok(v) && Some(v) == env.data),
        env.code == 200 && env.data is None ==> (r matches Ok(v) && v@.len() == 0),
        env.code != 200 ==> (r matches Err(m) && m@ == env.message@),
{
    if env.code == 200 {
        match env.data {
            Some(v) => Ok(v),
            None => Ok(Vec::new()),
        }
    } else {
        Err(env.message)
    }
}

/// The same rule for registration: success is the fixed acknowledgment,
/// the payload deliberately unobserved; any other code fails with the
/// envelope's message, verbatim.
pub fn interpret_add_users(env: AddUserResponse) -> (r: Result<String, String>)
    ensures
        env.code == 200 ==> (r matches Ok(m) && m@ == "Success"@),
        env.code != 200 ==> (r matches Err(m) && m@ == env.message@),
{
    if env.code == 200 {
        Ok(String::from_str("Success"))
    } else {
        Err(env.message)
    }
}

/// Finishes a mail-list call from the transport's outcome. A transport
/// failure is surfaced verbatim, nothing decoded; a body that is no
/// envelope fails with the fixed decode error; on the exact text of a
/// well-formed envelope the result is pinned completely: the rows on 200,
/// no rows for a null or absent payload, the envelope's message otherwise.
pub fn complete_email_list(outcome: TransportOutcome) -> (r: Result<Vec<Email>, String>)
    ensures
        outcome matches TransportOutcome::Failure(e) ==> r matches Err(m) && m@ == e@,
        forall|env: EmailListResponseV|
            outcome matches TransportOutcome::Body(b) && wf_list_response_v(env) && b@
                == ser_json(#[trigger] list_response_jv(env)) ==> (if env.code == 200 {
                r matches Ok(v) && (match env.data {
                    Some(list) => emails_view(v@) == list,
                    None => v@.len() == 0,
                })
            } else {
                r matches Err(m) && m@ == env.message
            }),
{
    match outcome {
        TransportOutcome::Failure(e) => Err(e),
        TransportOutcome::Body(b) => {
            match decode_email_list_response(b.as_str()) {
                Some(env) => interpret_email_list(env),
                None => Err(String::from_str("invalid response body")),
            }
        },
    }
}

/// Finishes a registration call from the transport's outcome, with the
/// same failure rules and the fixed acknowledgment on 200.
pub fn complete_add_users(outcome: TransportOutcome) -> (r: Result<String, String>)
    ensures
        outcome matches TransportOutcome::Failure(e) ==> r matches Err(m) && m@ == e@,
        forall|env: AddUserResponseV|
            outcome matches TransportOutcome::Body(b) && wf_add_response_v(env) && b@
                == ser_json(#[trigger] add_response_jv(env)) ==> (if env.code == 200 {
                r matches Ok(m) && m@ == "Success"@
            } else {
                r matches Err(m) && m@ == env.message
            }),
{
    match outcome {
        TransportOutcome::Failure(e) => Err(e),
        TransportOutcome::Body(b) => {
            match decode_add_user_response(b.as_str()) {
                Some(env) => interpret_add_users(env),
                None => Err(String::from_str("invalid response body")),
            }
        },
    }
}

} // verus!
