//! The digest pipeline: fetch issues from the tracker, render the digest,
//! post it to the chat channel. Each decision of a run is a step from state
//! and event to next state and action; the caller performs the action.

use vstd::prelude::*;
use crate::auth::{authorized, Authorizer, BearerTokenAuthorizer};
use crate::digest::{render, render_spec, Response};
use crate::encode::{encode_query, encoded_query};
use crate::http::{HttpMethod, OutboundRequest, RequestView};

verus! {

/// Why a digest run, or a request to start one, failed. Each carries a
/// description of its cause.
pub enum DigestError {
    /// The tracker could not be reached or answered with a failure status.
    FetchFailed(String),
    /// The tracker's answer did not have the expected shape.
    DecodeFailed(String),
    /// The chat message could not be posted.
    PostFailed(String),
    /// A required setting is absent.
    ConfigMissing(String),
    /// A trigger request is malformed.
    ValidationFailed(String),
}

/// The HTTP status with which a trigger request answers an error.
pub open spec fn status_of(e: DigestError) -> u16 {
    match e {
        DigestError::ValidationFailed(_) => 400,
        DigestError::ConfigMissing(_) => 500,
        _ => 502,
    }
}

impl DigestError {
    /// The HTTP status with which a trigger request answers this error.
    pub fn status_code(&self) -> (r: u16)
        ensures
            r == status_of(*self),
    {
        match self {
            DigestError::ValidationFailed(_) => 400,
            DigestError::ConfigMissing(_) => 500,
            _ => 502,
        }
    }
}

/// What one digest run works on: the encoded query, the channel, and the
/// mention target.
#[derive(Clone)]
pub struct PostJiraInput {
    pub jql: String,
    pub slack_channel: String,
    pub message: String,
}

/// A trigger request as received: the channel, the raw query and the
/// mention target.
pub struct CallRequest {
    pub channel: String,
    pub jql: String,
    pub at: String,
}

impl CallRequest {
    /// The run input for this request, with the query encoded.
    pub fn to_input(&self) -> (r: PostJiraInput)
        ensures
            r.jql@ == encoded_query(self.jql@),
            r.slack_channel@ == self.channel@,
            r.message@ == self.at@,
    {
        PostJiraInput {
            jql: encode_query(self.jql.as_str()),
            slack_channel: self.channel.clone(),
            message: self.at.clone(),
        }
    }
}

/// The tracker's search address for an encoded query.
pub open spec fn search_url(jql: Seq<char>) -> Seq<char> {
    "https://zalora.atlassian.net/rest/api/3/search?jql="@ + jql
}

/// The issue tracker's client.
#[derive(Clone)]
pub struct Jira {
    pub authorizer: Authorizer,
}

impl Jira {
    pub fn new(authorizer: Authorizer) -> (r: Jira)
        ensures
            r.authorizer == authorizer,
    {
        Jira { authorizer }
    }

    /// The authorized search request for an encoded query.
    pub fn search_request(&self, jql: &str) -> (r: OutboundRequest)
        ensures
            r@ == authorized(
                self.authorizer,
                RequestView {
                    method: HttpMethod::Get,
                    url: search_url(jql@),
                    headers: Seq::empty(),
                    basic_auth: None,
                    body: None,
                },
            ),
    {
        let mut url = String::from_str("https://zalora.atlassian.net/rest/api/3/search?jql=");
        url.append(jql);
        let req = OutboundRequest::new(HttpMethod::Get, url);
        self.authorizer.authorize_request(req)
    }
}

pub open spec fn hex_lower(d: int) -> char {
    seq!['0', '1', '2', '3', '4', '5', '6', '7', '8', '9', 'a', 'b', 'c', 'd', 'e', 'f'][d]
}

/// How a character stands inside a JSON string: `"` and `\` after a
/// backslash; backspace, tab, line feed, form feed and carriage return as
/// their short escapes; other C0 controls as `\u00xx` in lower-case hex;
/// every other character as itself.
pub open spec fn json_char(c: char) -> Seq<char> {
    let v = (c as u32) as int;
    if c == '"' {
        seq!['\\', '"']
    } else if c == '\\' {
        seq!['\\', '\\']
    } else if v == 0x08 {
        seq!['\\', 'b']
    } else if v == 0x09 {
        seq!['\\', 't']
    } else if v == 0x0a {
        seq!['\\', 'n']
    } else if v == 0x0c {
        seq!['\\', 'f']
    } else if v == 0x0d {
        seq!['\\', 'r']
    } else if v < 0x20 {
        seq!['\\', 'u', '0', '0', hex_lower(v / 16), hex_lower(v % 16)]
    } else {
        seq![c]
    }
}

pub open spec fn json_chars(s: Seq<char>) -> Seq<char>
    decreases s.len(),
{
    if s.len() == 0 {
        Seq::empty()
    } else {
        json_chars(s.drop_last()) + json_char(s.last())
    }
}

/// The JSON string literal of `s`, quotes included.
pub open spec fn json_string(s: Seq<char>) -> Seq<char> {
    seq!['"'] + json_chars(s) + seq!['"']
}

/// Relies on `serde_json::to_string` on a string slice: it writes the text
/// between quotes, escaped by its `ESCAPE` table and `write_char_escape`, into
/// a `Vec`, which cannot fail; the fallback is never taken.
#[verifier::external_body]
fn json_quote(s: &str) -> (r: String)
    ensures
        r@ == json_string(s@),
{
    serde_json::to_string(s).unwrap_or_default()
}

/// The chat platform's message body: channel, text, and name linking on.
pub open spec fn chat_body(channel: Seq<char>, text: Seq<char>) -> Seq<char> {
    "{\"channel\":"@ + json_string(channel) + ",\"text\":"@ + json_string(text)
        + ",\"link_names\":true}"@
}

/// The chat platform's message address.
pub open spec fn chat_url() -> Seq<char> {
    "https://slack.com/api/chat.postMessage"@
}

/// The authorized request that posts `body` to the chat platform.
pub open spec fn post_request(auth: Authorizer, body: Seq<char>) -> RequestView {
    authorized(
        auth,
        RequestView {
            method: HttpMethod::Post,
            url: chat_url(),
            headers: seq![("Content-Type"@, "application/json"@)],
            basic_auth: None,
            body: Some(body),
        },
    )
}

/// The chat platform's client.
#[derive(Clone)]
pub struct Slack {
    pub token: String,
    pub authorizer: Authorizer,
}

impl Slack {
    /// A client that authorizes with the bot token as a bearer token.
    pub fn new(token: &str) -> (r: Slack)
        ensures
            r.token@ == token@,
            r.authorizer matches Authorizer::Bearer(b) && b.token_value@ == "Bearer "@ + token@,
    {
        Slack {
            token: String::from_str(token),
            authorizer: Authorizer::Bearer(BearerTokenAuthorizer::new("token", String::from_str(token))),
        }
    }

    /// The authorized request that posts an already encoded message body.
    pub fn post_request_with_body(&self, body: String) -> (r: OutboundRequest)
        ensures
            r@ == post_request(self.authorizer, body@),
    {
        let mut req = OutboundRequest::new(HttpMethod::Post, String::from_str("https://slack.com/api/chat.postMessage"));
        req.add_header(String::from_str("Content-Type"), String::from_str("application/json"));
        req.body = Some(body);
        assert(req@.headers =~= seq![("Content-Type"@, "application/json"@)]);
        self.authorizer.authorize_request(req)
    }

    /// The message body for `text` in `channel`.
    pub fn message_body(channel: &str, text: &str) -> (r: String)
        ensures
            r@ == chat_body(channel@, text@),
    {
        let c = json_quote(channel);
        let t = json_quote(text);
        let mut body = String::from_str("{\"channel\":");
        body.append(c.as_str());
        body.append(",\"text\":");
        body.append(t.as_str());
        body.append(",\"link_names\":true}");
        body
    }
}

/// Where a digest run stands.
#[derive(PartialEq, Eq, Structural, Clone, Copy, Debug)]
pub enum RunState {
    /// Waiting for the tracker's answer.
    Fetching,
    /// Waiting for the chat platform's answer.
    Posting,
    /// Nothing left to do.
    Finished,
}

/// The outcome of the action that a run asked for.
pub enum RunEvent {
    /// The tracker's issues, or why they could not be had.
    Fetched(Result<Response, DigestError>),
    /// Whether the chat message was posted.
    Posted(Result<(), DigestError>),
}

/// What the caller does next for a run.
pub enum RunAction {
    /// Send this request and report its outcome.
    Send(OutboundRequest),
    /// The run is over, with this result.
    Finish(Result<(), DigestError>),
}

/// Composes the tracker client and the chat client into one digest run.
#[derive(Clone)]
pub struct PostJiraToSlack {
    pub jira: Jira,
    pub slack: Slack,
}

impl PostJiraToSlack {
    pub fn new(jira: Jira, slack: Slack) -> (r: PostJiraToSlack)
        ensures
            r.jira == jira,
            r.slack == slack,
    {
        PostJiraToSlack { jira, slack }
    }

    /// Starts a run: fetch the issues that the input's query matches.
    pub fn start(&self, input: &PostJiraInput) -> (r: (RunState, RunAction))
        ensures
            r.0 == RunState::Fetching,
            r.1 matches RunAction::Send(req) && req@ == authorized(
                self.jira.authorizer,
                RequestView {
                    method: HttpMethod::Get,
                    url: search_url(input.jql@),
                    headers: Seq::empty(),
                    basic_auth: None,
                    body: None,
                },
            ),
    {
        (RunState::Fetching, RunAction::Send(self.jira.search_request(input.jql.as_str())))
    }

    /// The next state and action of a run in `state` once `event` came, at
    /// time `now` (seconds since the epoch). A failed fetch ends the run
    /// with its error and posts nothing; fetched issues are rendered and
    /// posted once; the post's outcome ends the run.
    pub fn step(&self, input: &PostJiraInput, state: RunState, event: RunEvent, now: i64) -> (r: (
        RunState,
        RunAction,
    ))
        requires
            state == RunState::Fetching ==> event is Fetched,
            state == RunState::Posting ==> event is Posted,
            state != RunState::Finished,
        ensures
            event matches RunEvent::Fetched(Err(e)) ==> r.0 == RunState::Finished && r.1
                == RunAction::Finish(Err(e)),
            event matches RunEvent::Fetched(Ok(resp)) ==> r.0 == RunState::Posting && (r.1 matches RunAction::Send(
                req,
            ) && req@ == post_request(
                self.slack.authorizer,
                chat_body(input.slack_channel@, render_spec(resp.issues@, input.message@, now as int)),
            )),
            event matches RunEvent::Posted(p) ==> r.0 == RunState::Finished && r.1
                == RunAction::Finish(p),
    {
        match event {
            RunEvent::Fetched(Err(e)) => (RunState::Finished, RunAction::Finish(Err(e))),
            RunEvent::Fetched(Ok(resp)) => {
                let text = render(&resp.issues, &input.message, now);
                let body = Slack::message_body(input.slack_channel.as_str(), text.as_str());
                (RunState::Posting, RunAction::Send(self.slack.post_request_with_body(body)))
            },
            RunEvent::Posted(p) => (RunState::Finished, RunAction::Finish(p)),
        }
    }
}

} // verus!
