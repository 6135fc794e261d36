//! Requests to Slack's Web API and the verdict on its replies.

use vstd::prelude::*;
use crate::json;
use crate::json::{Json, Tree};
use crate::messages;
use crate::outside;
use crate::text;

verus! {

/// Why a call to the Web API failed.
#[derive(Debug)]
pub enum ApiError {
    /// The HTTP status of the reply is no success.
    Status(u16),
    /// Slack refused the call, with its name for the reason.
    Refused(String),
    /// No token for Socket Mode is configured.
    NoAppToken,
    /// The reply names no address to connect to.
    NoUrl,
}

/// A failure, as contracts speak of it.
pub enum Failure {
    Status(u16),
    Refused(Seq<char>),
    NoAppToken,
    NoUrl,
}

impl View for ApiError {
    type V = Failure;

    open spec fn view(&self) -> Failure {
        match self {
            ApiError::Status(code) => Failure::Status(*code),
            ApiError::Refused(reason) => Failure::Refused(reason@),
            ApiError::NoAppToken => Failure::NoAppToken,
            ApiError::NoUrl => Failure::NoUrl,
        }
    }
}

/// The HTTP status stands for success.
pub open spec fn success(status: u16) -> bool {
    200 <= status < 300
}

/// The reply says that the call failed: its member `ok` is false.
pub open spec fn refused(payload: Tree) -> bool {
    json::as_bool(json::member(payload, "ok"@)) == Some(false)
}

/// The reason that a refusal names.
pub open spec fn refusal(payload: Tree) -> Seq<char> {
    match json::text_member(payload, "error"@) {
        Some(reason) => reason,
        None => "unknown"@,
    }
}

/// What is wrong with a reply, if anything is. The HTTP status decides before
/// the payload does.
pub open spec fn reply_failure(status: u16, payload: Tree) -> Option<Failure> {
    if !success(status) {
        Some(Failure::Status(status))
    } else if refused(payload) {
        Some(Failure::Refused(refusal(payload)))
    } else {
        None
    }
}

/// The message of a failure, where `status` and `detail` are the texts of the
/// HTTP status and of the response body.
pub open spec fn failure_message(
    failure: Failure,
    operation: Seq<char>,
    status: Seq<char>,
    detail: Seq<char>,
) -> Seq<char> {
    match failure {
        Failure::Status(_) => "Slack "@ + operation + " failed ("@ + status + "): "@ + detail,
        Failure::Refused(reason) => "Slack "@ + operation + " failed: "@ + reason,
        Failure::NoAppToken => "Slack Socket Mode requires app_token"@,
        Failure::NoUrl => "Slack "@ + operation + " did not return url"@,
    }
}

/// Whether the HTTP status stands for success.
pub fn is_success(status: u16) -> (r: bool)
    ensures
        r == success(status),
{
    200 <= status && status < 300
}

/// Whether the reply says that the call failed.
pub fn is_refused(payload: &Json) -> (r: bool)
    ensures
        r == refused(payload@),
{
    match payload.get_bool("ok") {
        Some(ok) => !ok,
        None => false,
    }
}

/// The reason that a refusal names.
pub fn refusal_of(payload: &Json) -> (r: String)
    ensures
        r@ == refusal(payload@),
{
    match payload.get_str("error") {
        Some(reason) => reason.to_owned(),
        None => "unknown".to_owned(),
    }
}

/// Judges a reply by its HTTP status and its payload.
pub fn check_payload(status: u16, payload: &Json) -> (r: Result<(), ApiError>)
    ensures
        match r {
            Ok(_) => reply_failure(status, payload@) is None,
            Err(e) => reply_failure(status, payload@) == Some(e@),
        },
{
    if !is_success(status) {
        return Err(ApiError::Status(status));
    }
    if is_refused(payload) {
        return Err(ApiError::Refused(refusal_of(payload)));
    }
    Ok(())
}

/// Reads and judges a reply.
pub fn check_reply(status: u16, body: &str) -> (r: Result<Json, ApiError>)
    ensures
        match r {
            Ok(payload) => payload@ == json::body_value(body@) && reply_failure(status, payload@)
                is None,
            Err(e) => reply_failure(status, json::body_value(body@)) == Some(e@),
        },
{
    let payload = json::parse_body(body);
    match check_payload(status, &payload) {
        Ok(_) => Ok(payload),
        Err(e) => Err(e),
    }
}

impl ApiError {
    /// The message of a failure, where `status` and `detail` are the texts of
    /// the HTTP status and of the response body.
    pub fn message(&self, operation: &str, status: &str, detail: &str) -> (r: String)
        ensures
            r@ == failure_message(self@, operation@, status@, detail@),
    {
        let mut out = String::new();
        match self {
            ApiError::Status(_) => {
                text::push_str(&mut out, "Slack ");
                text::push_str(&mut out, operation);
                text::push_str(&mut out, " failed (");
                text::push_str(&mut out, status);
                text::push_str(&mut out, "): ");
                text::push_str(&mut out, detail);
            },
            ApiError::Refused(reason) => {
                text::push_str(&mut out, "Slack ");
                text::push_str(&mut out, operation);
                text::push_str(&mut out, " failed: ");
                text::push_str(&mut out, reason.as_str());
            },
            ApiError::NoAppToken => {
                text::push_str(&mut out, "Slack Socket Mode requires app_token");
            },
            ApiError::NoUrl => {
                text::push_str(&mut out, "Slack ");
                text::push_str(&mut out, operation);
                text::push_str(&mut out, " did not return url");
            },
        }
        proof {
            assert(out@ == failure_message(self@, operation@, status@, detail@));
        }
        out
    }
}

/// Appends a name and a value to a request.
pub fn push_field(out: &mut Vec<(String, String)>, name: &str, value: &str)
    ensures
        outside::fields(final(out)@) == outside::fields(old(out)@).push((name@, value@)),
{
    let ghost before = outside::fields(out@);
    out.push((name.to_owned(), value.to_owned()));
    proof {
        assert(outside::fields(out@) == before.push((name@, value@)));
    }
}

/// Whether no two of the members have the same name.
pub fn has_distinct_names(members: &Vec<(String, String)>) -> (r: bool)
    ensures
        r == outside::distinct_names(outside::fields(members@)),
{
    let ghost all = outside::fields(members@);
    let mut j: usize = 0;
    while j < members.len()
        invariant
            j <= members.len(),
            all == outside::fields(members@),
            forall|a: int, b: int|
                0 <= a < b < j ==> (#[trigger] all[a]).0 != (#[trigger] all[b]).0,
        decreases members.len() - j,
    {
        let mut i: usize = 0;
        while i < j
            invariant
                i <= j < members.len(),
                all == outside::fields(members@),
                forall|a: int| 0 <= a < i ==> (#[trigger] all[a]).0 != all[j as int].0,
            decreases j - i,
        {
            proof {
                assert(all[i as int].0 == members@[i as int].0@);
                assert(all[j as int].0 == members@[j as int].0@);
            }
            if text::same(members[i].0.as_str(), members[j].0.as_str()) {
                return false;
            }
            i += 1;
        }
        j += 1;
    }
    true
}

/// Writes the body of a request: a JSON object with the given members, each of
/// which has a name of its own.
pub fn request_body(members: &Vec<(String, String)>) -> (r: String)
    requires
        outside::distinct_names(outside::fields(members@)),
    ensures
        r@ == outside::json_object_text(outside::fields(members@)),
        outside::holds_texts(Some(json::body_value(r@)), outside::fields(members@)),
{
    outside::write_json_object(members)
}

/// The user that a reply of `auth.test` names.
pub fn user_id_of(payload: &Json) -> (r: Option<String>)
    ensures
        messages::opt_text(r) == json::text_member(payload@, "user_id"@),
{
    match payload.get_str("user_id") {
        Some(id) => Some(id.to_owned()),
        None => None,
    }
}

/// What a reply of `apps.connections.open` yields: the address to connect to,
/// or the failure.
pub open spec fn socket_url(status: u16, payload: Tree) -> Result<Seq<char>, Failure> {
    match reply_failure(status, payload) {
        Some(f) => Err(f),
        None => match json::text_member(payload, "url"@) {
            Some(url) => Ok(url),
            None => Err(Failure::NoUrl),
        },
    }
}

/// Takes the address to connect to from a payload of `apps.connections.open`.
pub fn url_of_payload(status: u16, payload: &Json) -> (r: Result<String, ApiError>)
    ensures
        match r {
            Ok(url) => socket_url(status, payload@) == Ok::<Seq<char>, Failure>(url@),
            Err(e) => socket_url(status, payload@) == Err::<Seq<char>, Failure>(e@),
        },
{
    match check_payload(status, payload) {
        Ok(_) => match payload.get_str("url") {
            Some(url) => Ok(url.to_owned()),
            None => Err(ApiError::NoUrl),
        },
        Err(e) => Err(e),
    }
}

/// Takes the address to connect to from a reply of `apps.connections.open`.
pub fn open_socket_mode_url(status: u16, body: &str) -> (r: Result<String, ApiError>)
    ensures
        match r {
            Ok(url) => socket_url(status, json::body_value(body@)) == Ok::<Seq<char>, Failure>(
                url@,
            ),
            Err(e) => socket_url(status, json::body_value(body@)) == Err::<Seq<char>, Failure>(e@),
        },
{
    let payload = json::parse_body(body);
    url_of_payload(status, &payload)
}

} // verus!
