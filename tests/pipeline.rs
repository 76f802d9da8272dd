use jira_digest::auth::{Authorizer, BasicAuth, BearerTokenAuthorizer};
use jira_digest::digest::{Issue, Response, SECONDS_PER_DAY};
use jira_digest::http::{HttpMethod, OutboundRequest};
use jira_digest::pipeline::{
    CallRequest, DigestError, Jira, PostJiraInput, PostJiraToSlack, RunAction, RunEvent,
    RunState, Slack,
};

const NOW: i64 = 1_700_000_000;

fn basic() -> Authorizer {
    Authorizer::Basic(BasicAuth { user: "me@example.com".to_string(), api_token: "tok".to_string() })
}

fn bot() -> PostJiraToSlack {
    PostJiraToSlack::new(Jira::new(basic()), Slack::new("xoxb-1"))
}

fn input() -> PostJiraInput {
    PostJiraInput {
        jql: "status%3DOpen".to_string(),
        slack_channel: "#reviews".to_string(),
        message: "@team".to_string(),
    }
}

fn header(req: &OutboundRequest, name: &str) -> Option<String> {
    req.headers.iter().find(|h| h.0 == name).map(|h| h.1.clone())
}

#[test]
fn bearer_authorizer_value() {
    let b = BearerTokenAuthorizer::new("token", "abc".to_string());
    assert_eq!(b.token_key, "token");
    assert_eq!(b.token_value, "Bearer abc");
}

#[test]
fn bearer_adds_one_header() {
    let a = Authorizer::Bearer(BearerTokenAuthorizer::new("token", "abc".to_string()));
    let r = a.authorize_request(OutboundRequest::new(HttpMethod::Get, "u".to_string()));
    assert_eq!(r.headers, vec![("Authorization".to_string(), "Bearer abc".to_string())]);
    assert_eq!(r.basic_auth, None);
}

#[test]
fn basic_sets_credentials() {
    let r = basic().authorize_request(OutboundRequest::new(HttpMethod::Get, "u".to_string()));
    assert!(r.headers.is_empty());
    assert_eq!(r.basic_auth, Some(("me@example.com".to_string(), "tok".to_string())));
}

#[test]
fn search_request_address() {
    let r = Jira::new(basic()).search_request("a%20b");
    assert_eq!(r.method, HttpMethod::Get);
    assert_eq!(r.url, "https://zalora.atlassian.net/rest/api/3/search?jql=a%20b");
    assert_eq!(r.body, None);
    assert!(r.basic_auth.is_some());
}

#[test]
fn message_body_is_json() {
    let b = Slack::message_body("#c", "say \"hi\"\nnow");
    assert_eq!(b, "{\"channel\":\"#c\",\"text\":\"say \\\"hi\\\"\\nnow\",\"link_names\":true}");
}

#[test]
fn message_body_escapes_controls() {
    let b = Slack::message_body("a\\b", "\u{1}\t\r\u{8}\u{c}\u{1f}é\u{7f}");
    assert_eq!(
        b,
        "{\"channel\":\"a\\\\b\",\"text\":\"\\u0001\\t\\r\\b\\f\\u001fé\u{7f}\",\"link_names\":true}"
    );
}

#[test]
fn call_request_encodes_query() {
    let c = CallRequest {
        channel: "#r".to_string(),
        jql: "status = \"In Review\"".to_string(),
        at: "@qa".to_string(),
    };
    let i = c.to_input();
    assert_eq!(i.jql, "status%20%3D%20%22In%20Review%22");
    assert_eq!(i.slack_channel, "#r");
    assert_eq!(i.message, "@qa");
}

#[test]
fn run_starts_with_search() {
    let (state, action) = bot().start(&input());
    assert_eq!(state, RunState::Fetching);
    match action {
        RunAction::Send(req) => {
            assert_eq!(req.url, "https://zalora.atlassian.net/rest/api/3/search?jql=status%3DOpen");
            assert_eq!(req.basic_auth, Some(("me@example.com".to_string(), "tok".to_string())));
        }
        RunAction::Finish(_) => panic!("a run starts by fetching"),
    }
}

#[test]
fn zero_issues_posts_no_tickets_message() {
    let resp = Response { start_at: 0, issues: Vec::new() };
    let (state, action) =
        bot().step(&input(), RunState::Fetching, RunEvent::Fetched(Ok(resp)), NOW);
    assert_eq!(state, RunState::Posting);
    match action {
        RunAction::Send(req) => {
            assert_eq!(req.method, HttpMethod::Post);
            assert_eq!(req.url, "https://slack.com/api/chat.postMessage");
            assert_eq!(header(&req, "Authorization"), Some("Bearer xoxb-1".to_string()));
            assert_eq!(header(&req, "Content-Type"), Some("application/json".to_string()));
            assert_eq!(
                req.body,
                Some(
                    "{\"channel\":\"#reviews\",\"text\":\"Great job @team. No tickets to review.\\nShould we all take a day off?\",\"link_names\":true}"
                        .to_string()
                )
            );
        }
        RunAction::Finish(_) => panic!("the digest must be posted"),
    }
}

#[test]
fn fetched_issues_are_posted_in_rank_order() {
    let mk = |key: &str, days: i64, p: Option<&str>| Issue {
        key: key.to_string(),
        summary: "s".to_string(),
        updated: NOW - days * SECONDS_PER_DAY,
        labels: Vec::new(),
        priority: p.map(|x| x.to_string()),
    };
    let resp = Response { start_at: 0, issues: vec![mk("B", 3, Some("1")), mk("A", 10, Some("1"))] };
    let (_, action) = bot().step(&input(), RunState::Fetching, RunEvent::Fetched(Ok(resp)), NOW);
    match action {
        RunAction::Send(req) => {
            let body = req.body.unwrap();
            let a = body.find("browse/A").unwrap();
            let b = body.find("browse/B").unwrap();
            assert!(a < b);
        }
        RunAction::Finish(_) => panic!("the digest must be posted"),
    }
}

#[test]
fn fetch_failure_ends_run_without_post() {
    let (state, action) = bot().step(
        &input(),
        RunState::Fetching,
        RunEvent::Fetched(Err(DigestError::FetchFailed("status 500".to_string()))),
        NOW,
    );
    assert_eq!(state, RunState::Finished);
    match action {
        RunAction::Finish(Err(DigestError::FetchFailed(m))) => assert_eq!(m, "status 500"),
        _ => panic!("a failed fetch must end the run with its error"),
    }
}

#[test]
fn decode_failure_ends_run() {
    let (state, action) = bot().step(
        &input(),
        RunState::Fetching,
        RunEvent::Fetched(Err(DigestError::DecodeFailed("bad json".to_string()))),
        NOW,
    );
    assert_eq!(state, RunState::Finished);
    assert!(matches!(action, RunAction::Finish(Err(DigestError::DecodeFailed(_)))));
}

#[test]
fn post_outcome_ends_run() {
    let (state, action) = bot().step(&input(), RunState::Posting, RunEvent::Posted(Ok(())), NOW);
    assert_eq!(state, RunState::Finished);
    assert!(matches!(action, RunAction::Finish(Ok(()))));
    let (state, action) = bot().step(
        &input(),
        RunState::Posting,
        RunEvent::Posted(Err(DigestError::PostFailed("timeout".to_string()))),
        NOW,
    );
    assert_eq!(state, RunState::Finished);
    assert!(matches!(action, RunAction::Finish(Err(DigestError::PostFailed(_)))));
}

#[test]
fn error_status_codes() {
    assert_eq!(DigestError::FetchFailed(String::new()).status_code(), 502);
    assert_eq!(DigestError::DecodeFailed(String::new()).status_code(), 502);
    assert_eq!(DigestError::PostFailed(String::new()).status_code(), 502);
    assert_eq!(DigestError::ConfigMissing(String::new()).status_code(), 500);
    assert_eq!(DigestError::ValidationFailed(String::new()).status_code(), 400);
}

#[test]
fn slack_client_uses_bearer_token() {
    let s = Slack::new("xoxb-2");
    assert_eq!(s.token, "xoxb-2");
    match s.authorizer {
        Authorizer::Bearer(b) => assert_eq!(b.token_value, "Bearer xoxb-2"),
        Authorizer::Basic(_) => panic!("the chat client authorizes with a bearer token"),
    }
}
