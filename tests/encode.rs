use jira_digest::encode::{encode_query, escape_reserved};

#[test]
fn encodes_sample_query() {
    let r = encode_query("project = \"Mobile Backend\" and status = \"Awaiting Review\"");
    assert_eq!(
        r,
        "project%20%3D%20%22Mobile%20Backend%22%20and%20status%20%3D%20%22Awaiting%20Review%22"
    );
    assert!(!r.contains(' '));
    assert!(!r.contains('"'));
    assert!(!r.contains('='));
}

#[test]
fn encodes_controls_and_non_ascii() {
    assert_eq!(encode_query("a\nb\u{7f}"), "a%0Ab%7F");
    assert_eq!(encode_query("café"), "caf%C3%A9");
    assert_eq!(encode_query("€"), "%E2%82%AC");
    assert_eq!(encode_query("😀"), "%F0%9F%98%80");
}

#[test]
fn encodes_rest_of_fragment_set() {
    assert_eq!(encode_query("<a>`b`"), "%3Ca%3E%60b%60");
    assert_eq!(encode_query("x=1&y=2"), "x%3D1&y%3D2");
    assert_eq!(encode_query("100%"), "100%");
    assert_eq!(encode_query(""), "");
}

#[test]
fn escapes_reserved_only() {
    assert_eq!(escape_reserved("a=b c"), "a%3Db%20c");
    assert_eq!(escape_reserved("é\n"), "é\n");
}

#[test]
fn each_equals_becomes_one_escape() {
    let q = "a=b == c\u{3}=é=";
    let r = encode_query(q);
    assert_eq!(r.matches("%3D").count(), q.matches('=').count());
    assert!(!r.contains('='));
}
