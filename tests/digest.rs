use jira_digest::digest::{
    age_in_days, decimal_string, issue_report, rank_of_priority, rank_order, render, Issue,
    IssueReport, Message, Response, NO_PRIORITY_RANK, SECONDS_PER_DAY,
};

const NOW: i64 = 1_700_000_000;

fn issue(key: &str, summary: &str, days_ago: i64, priority: Option<&str>) -> Issue {
    Issue {
        key: key.to_string(),
        summary: summary.to_string(),
        updated: NOW - days_ago * SECONDS_PER_DAY,
        labels: vec!["review".to_string()],
        priority: priority.map(|p| p.to_string()),
    }
}

fn line(key: &str, summary: &str, days: i64) -> String {
    format!("https://zalora.atlassian.net/browse/{}: {} ({}days)\n", key, summary, days)
}

#[test]
fn empty_list_renders_no_tickets_message() {
    let text = render(&Vec::new(), &"@team".to_string(), NOW);
    assert_eq!(text, "Great job @team. No tickets to review.\nShould we all take a day off?");
    assert!(!text.contains("https://"));
    assert!(!text.contains("need attention"));
}

#[test]
fn same_priority_older_first() {
    let issues = vec![issue("B-2", "Newer", 3, Some("1")), issue("A-1", "Older", 10, Some("1"))];
    let text = render(&issues, &"@team".to_string(), NOW);
    let expected = format!(
        "@team: the following issues need attention.\n```{}{}```\n",
        line("A-1", "Older", 10),
        line("B-2", "Newer", 3)
    );
    assert_eq!(text, expected);
}

#[test]
fn prioritized_before_unprioritized_regardless_of_age() {
    let issues = vec![issue("N-1", "No priority", 40, None), issue("P-2", "Priority two", 1, Some("2"))];
    let text = render(&issues, &"@devs".to_string(), NOW);
    let expected = format!(
        "@devs: the following issues need attention.\n```{}{}```\n",
        line("P-2", "Priority two", 1),
        line("N-1", "No priority", 40)
    );
    assert_eq!(text, expected);
}

#[test]
fn lower_priority_id_first() {
    let issues = vec![
        issue("C-3", "Three", 1, Some("3")),
        issue("A-1", "One", 1, Some("1")),
        issue("B-2", "Two", 50, Some("2")),
    ];
    let text = render(&issues, &"@x".to_string(), NOW);
    let expected = format!(
        "@x: the following issues need attention.\n```{}{}{}```\n",
        line("A-1", "One", 1),
        line("B-2", "Two", 50),
        line("C-3", "Three", 1)
    );
    assert_eq!(text, expected);
}

#[test]
fn rendering_twice_gives_same_text() {
    let issues = vec![
        issue("A-1", "a", 5, Some("2")),
        issue("B-2", "b", 5, Some("2")),
        issue("C-3", "c", 9, None),
    ];
    let at = "@t".to_string();
    assert_eq!(render(&issues, &at, NOW), render(&issues, &at, NOW));
}

fn report(priority: i128, days: i64) -> IssueReport {
    IssueReport { issue_link: String::new(), summary: String::new(), days, priority }
}

#[test]
fn ranking_keeps_input_order_on_equal_keys() {
    let reports = vec![report(2, 5), report(1, 1), report(2, 5), report(2, 7), report(1, 1)];
    assert_eq!(rank_order(&reports), vec![1, 4, 3, 0, 2]);
}

#[test]
fn ranking_of_empty_list_is_empty() {
    assert_eq!(rank_order(&Vec::new()), Vec::<usize>::new());
}

#[test]
fn priority_ranks() {
    assert_eq!(rank_of_priority(&Some("1".to_string())), 1);
    assert_eq!(rank_of_priority(&Some("+7".to_string())), 7);
    assert_eq!(rank_of_priority(&Some("-3".to_string())), -3);
    assert_eq!(rank_of_priority(&Some("high".to_string())), NO_PRIORITY_RANK);
    assert_eq!(rank_of_priority(&Some("".to_string())), NO_PRIORITY_RANK);
    assert_eq!(rank_of_priority(&Some("99999999999999999999".to_string())), NO_PRIORITY_RANK);
    assert_eq!(rank_of_priority(&None), NO_PRIORITY_RANK);
    assert_eq!(rank_of_priority(&Some("10000".to_string())), 10000);
    assert!(rank_of_priority(&Some(i64::MAX.to_string())) < NO_PRIORITY_RANK);
}

#[test]
fn ages_truncate_and_clamp() {
    assert_eq!(age_in_days(NOW, NOW), 0);
    assert_eq!(age_in_days(NOW, NOW - SECONDS_PER_DAY + 1), 0);
    assert_eq!(age_in_days(NOW, NOW - SECONDS_PER_DAY), 1);
    assert_eq!(age_in_days(NOW, NOW - 10 * SECONDS_PER_DAY - 5), 10);
    assert_eq!(age_in_days(NOW, NOW + 3 * SECONDS_PER_DAY), 0);
    assert_eq!(age_in_days(i64::MAX, i64::MIN), 213_503_982_334_601);
}

#[test]
fn decimal_text() {
    assert_eq!(decimal_string(0), "0");
    assert_eq!(decimal_string(7), "7");
    assert_eq!(decimal_string(1234), "1234");
    assert_eq!(decimal_string(u64::MAX), "18446744073709551615");
}

#[test]
fn report_of_issue() {
    let r = issue_report(&issue("KEY-9", "Fix it", 4, Some("3")), NOW);
    assert_eq!(r.issue_link, "https://zalora.atlassian.net/browse/KEY-9");
    assert_eq!(r.summary, "Fix it");
    assert_eq!(r.days, 4);
    assert_eq!(r.priority, 3);
}

#[test]
fn message_renders_its_results() {
    let m = Message {
        resp: Response { start_at: 0, issues: vec![issue("A-1", "One", 2, Some("1"))] },
        at: "@team".to_string(),
    };
    let expected = format!(
        "@team: the following issues need attention.\n```{}```\n",
        line("A-1", "One", 2)
    );
    assert_eq!(m.render_at(NOW), expected);
}

#[test]
fn large_priority_id_before_absent_and_unparsable() {
    let issues = vec![
        issue("N-1", "None", 90, None),
        issue("U-2", "Unparsable", 80, Some("P1")),
        issue("L-3", "Large", 1, Some("10000")),
        issue("M-4", "Max", 2, Some("9223372036854775807")),
    ];
    let text = render(&issues, &"@t".to_string(), NOW);
    let expected = format!(
        "@t: the following issues need attention.\n```{}{}{}{}```\n",
        line("L-3", "Large", 1),
        line("M-4", "Max", 2),
        line("N-1", "None", 90),
        line("U-2", "Unparsable", 80)
    );
    assert_eq!(text, expected);
}
