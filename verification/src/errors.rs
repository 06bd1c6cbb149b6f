//! The errors that the proxy answers with, in the shape that OpenAI clients
//! understand: a status, a message and a code.

use vstd::prelude::*;

use crate::digits;
use crate::json;
use crate::json::Tree;

verus! {

/// An answer of the proxy's own.
pub struct ErrorReply {
    pub status: u16,
    pub code: String,
    pub message: String,
    /// Seconds after which to try again, where the client is told.
    pub retry_after: Option<u64>,
    /// The client is told to authenticate.
    pub challenge: bool,
}

/// What an error reply says.
pub struct ErrorView {
    pub status: u16,
    pub code: Seq<char>,
    pub message: Seq<char>,
    pub retry_after: Option<u64>,
    pub challenge: bool,
}

impl View for ErrorReply {
    type V = ErrorView;

    open spec fn view(&self) -> ErrorView {
        ErrorView {
            status: self.status,
            code: self.code@,
            message: self.message@,
            retry_after: self.retry_after,
            challenge: self.challenge,
        }
    }
}

/// A plain error: no retry hint, no challenge.
pub open spec fn plain_error(status: u16, code: Seq<char>, message: Seq<char>) -> ErrorView {
    ErrorView { status, code, message, retry_after: None, challenge: false }
}

/// An error reply without a retry hint or a challenge.
pub fn json_error(status: u16, code: &str, message: &str) -> (r: ErrorReply)
    ensures
        r@ == plain_error(status, code@, message@),
{
    ErrorReply {
        status,
        code: code.to_owned(),
        message: message.to_owned(),
        retry_after: None,
        challenge: false,
    }
}

/// The admin surface was asked for without credentials.
pub fn unauthorized_json() -> (r: ErrorReply)
    ensures
        r@ == (ErrorView {
            challenge: true,
            ..plain_error(
                401,
                "unauthorized"@,
                "admin authentication required (session cookie or Authorization: Bearer <password>)"@,
            )
        }),
{
    let mut r = json_error(
        401,
        "unauthorized",
        "admin authentication required (session cookie or Authorization: Bearer <password>)",
    );
    r.challenge = true;
    r
}

/// What a client without a key that is known is told.
pub open spec fn unauthorized_view() -> ErrorView {
    ErrorView {
        challenge: true,
        ..plain_error(
            401,
            "unauthorized"@,
            "missing or invalid proxy API key (Authorization: Bearer ...)"@,
        )
    }
}

/// The API was asked for without a key that is known.
pub fn unauthorized() -> (r: ErrorReply)
    ensures
        r@ == unauthorized_view(),
{
    let mut r = json_error(
        401,
        "unauthorized",
        "missing or invalid proxy API key (Authorization: Bearer ...)",
    );
    r.challenge = true;
    r
}

/// What the caller of a saturated proxy is told.
pub open spec fn timeout_message(max_wait_secs: u64, lanes: u64) -> Seq<char> {
    "no upstream slot became available within "@ + digits::numeral(max_wait_secs as nat, 10)
        + "s (all "@ + digits::numeral(lanes as nat, 10) + " keys saturated)"@
}

/// No slot opened in time.
pub fn gateway_timeout(max_wait_secs: u64, lanes: u64) -> (r: ErrorReply)
    ensures
        r@ == plain_error(504, "rate_limited"@, timeout_message(max_wait_secs, lanes)),
{
    let mut message = String::new();
    message.append("no upstream slot became available within ");
    digits::push_numeral(&mut message, max_wait_secs, 10);
    message.append("s (all ");
    digits::push_numeral(&mut message, lanes, 10);
    message.append(" keys saturated)");
    assert(message@ =~= timeout_message(max_wait_secs, lanes));
    json_error(504, "rate_limited", message.as_str())
}

/// The upstream answered but its body never came.
pub fn bad_gateway() -> (r: ErrorReply)
    ensures
        r@ == plain_error(502, "bad_gateway"@, "upstream response could not be read"@),
{
    json_error(502, "bad_gateway", "upstream response could not be read")
}

/// What a client is told when too many requests are in flight.
pub open spec fn overloaded_view() -> ErrorView {
    ErrorView {
        retry_after: Some(5),
        ..plain_error(503, "overloaded"@, "too many requests in flight, try again shortly"@)
    }
}

/// Too many requests are in flight already.
pub fn overloaded() -> (r: ErrorReply)
    ensures
        r@ == overloaded_view(),
{
    let mut r = json_error(503, "overloaded", "too many requests in flight, try again shortly");
    r.retry_after = Some(5);
    r
}

/// The JSON of an error.
pub open spec fn error_tree(code: Seq<char>, message: Seq<char>) -> Tree {
    Tree::Object(
        Map::empty().insert(
            "error"@,
            Tree::Object(
                Map::empty().insert("message"@, Tree::Str(message)).insert(
                    "type"@,
                    Tree::Str("proxy_error"@),
                ).insert("code"@, Tree::Str(code)),
            ),
        ),
    )
}

/// The body of an error, on one line.
pub fn error_body(code: &str, message: &str) -> (r: String)
    ensures
        r@ == json::rendering(error_tree(code@, message@)),
        forall|i: int| 0 <= i < r@.len() ==> ' ' <= #[trigger] r@[i],
{
    let mut inner = json::empty_object();
    json::set(&mut inner, "message", json::from_str(message));
    json::set(&mut inner, "type", json::from_str("proxy_error"));
    json::set(&mut inner, "code", json::from_str(code));
    let mut outer = json::empty_object();
    json::set(&mut outer, "error", inner);
    json::to_text(&outer)
}

/// The frames that end a stream with an error: the error as an event, and the
/// end mark that clients wait for.
pub open spec fn error_frames(message: Seq<char>) -> Seq<char> {
    "data: "@ + json::rendering(error_tree("upstream_unavailable"@, message))
        + "\n\ndata: [DONE]\n\n"@
}

/// End a stream with an error. The event stands on one line, so nothing in the
/// message can break out of it.
pub fn sse_error(message: &str) -> (r: String)
    ensures
        r@ == error_frames(message@),
        forall|i: int|
            0 <= i < json::rendering(error_tree("upstream_unavailable"@, message@)).len() ==> ' '
                <= #[trigger] json::rendering(
                error_tree("upstream_unavailable"@, message@),
            )[i],
{
    let event = error_body("upstream_unavailable", message);
    let mut out = String::new();
    out.append("data: ");
    out.append(event.as_str());
    out.append("\n\ndata: [DONE]\n\n");
    assert(out@ =~= error_frames(message@));
    out
}

} // verus!
