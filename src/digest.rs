//! The digest formatter: projects issues into reports, ranks them and
//! renders the message text.

use vstd::prelude::*;

verus! {

/// Rank given to an issue whose priority is absent or unparsable: one above
/// every `i64`, so such issues come after every parsed priority.
pub const NO_PRIORITY_RANK: i128 = 9223372036854775808;

/// Seconds in one day.
pub const SECONDS_PER_DAY: i64 = 86400;

/// One tracker issue, as the formatter reads it.
pub struct Issue {
    pub key: String,
    pub summary: String,
    /// Last update, in seconds since the Unix epoch.
    pub updated: i64,
    pub labels: Vec<String>,
    /// The priority identifier, when the issue has one.
    pub priority: Option<String>,
}

/// A page of search results from the tracker.
pub struct Response {
    pub start_at: i32,
    pub issues: Vec<Issue>,
}

/// Search results together with the mention target they are addressed to.
pub struct Message {
    pub resp: Response,
    pub at: String,
}

/// The projection of an issue that ranking and rendering use.
pub struct IssueReport {
    pub issue_link: String,
    pub summary: String,
    pub days: i64,
    pub priority: i128,
}

pub open spec fn is_digit(c: char) -> bool {
    '0' <= c && c <= '9'
}

pub open spec fn digit_value(c: char) -> int {
    (c as u32) as int - ('0' as u32) as int
}

/// The number that a string of decimal digits denotes.
pub open spec fn digits_value(d: Seq<char>) -> int
    decreases d.len(),
{
    if d.len() == 0 {
        0
    } else {
        10 * digits_value(d.drop_last()) + digit_value(d.last())
    }
}

pub open spec fn all_digits(d: Seq<char>) -> bool {
    forall|k: int| 0 <= k < d.len() ==> is_digit(#[trigger] d[k])
}

/// An `i64` written in decimal: an optional sign, then at least one digit.
pub open spec fn decimal_i64(s: Seq<char>) -> Option<i64> {
    let signed = s.len() > 0 && (s[0] == '-' || s[0] == '+');
    let d = if signed { s.drop_first() } else { s };
    let v = if s.len() > 0 && s[0] == '-' { -digits_value(d) } else { digits_value(d) };
    if d.len() > 0 && all_digits(d) && i64::MIN <= v <= i64::MAX {
        Some(v as i64)
    } else {
        None
    }
}

/// The value of a priority identifier, when there is one and it parses.
pub open spec fn parsed_priority(p: Option<Seq<char>>) -> Option<i64> {
    match p {
        Some(id) => decimal_i64(id),
        None => None,
    }
}

/// Ranking key of a priority identifier: its value when it parses,
/// otherwise the no-priority rank.
pub open spec fn priority_rank(p: Option<Seq<char>>) -> int {
    match parsed_priority(p) {
        Some(v) => v as int,
        None => NO_PRIORITY_RANK as int,
    }
}

pub open spec fn priority_view(p: Option<String>) -> Option<Seq<char>> {
    match p {
        Some(s) => Some(s@),
        None => None,
    }
}

/// Whole days from `updated` to `now`, truncated; zero when `updated` lies
/// in the future.
pub open spec fn age_days(now: int, updated: int) -> int {
    if now > updated {
        (now - updated) / (SECONDS_PER_DAY as int)
    } else {
        0
    }
}

pub open spec fn digit_char(d: nat) -> char {
    seq!['0', '1', '2', '3', '4', '5', '6', '7', '8', '9'][d as int]
}

/// Decimal representation of a natural number, without leading zeros.
pub open spec fn decimal(n: nat) -> Seq<char>
    decreases n,
{
    if n < 10 {
        seq![digit_char(n)]
    } else {
        decimal(n / 10) + seq![digit_char(n % 10)]
    }
}

/// Relies on `<i64 as FromStr>::from_str`, which accepts an optional `+` or
/// `-` followed by decimal digits and fails on anything else or on overflow.
#[verifier::external_body]
fn parse_i64(s: &str) -> (r: Option<i64>)
    ensures
        r == decimal_i64(s@),
{
    s.parse::<i64>().ok()
}

fn digit_str(d: u64) -> (r: &'static str)
    requires
        d < 10,
    ensures
        r@ == seq![digit_char(d as nat)],
{
    if d == 0 {
        proof { reveal_strlit("0"); }
        "0"
    } else if d == 1 {
        proof { reveal_strlit("1"); }
        "1"
    } else if d == 2 {
        proof { reveal_strlit("2"); }
        "2"
    } else if d == 3 {
        proof { reveal_strlit("3"); }
        "3"
    } else if d == 4 {
        proof { reveal_strlit("4"); }
        "4"
    } else if d == 5 {
        proof { reveal_strlit("5"); }
        "5"
    } else if d == 6 {
        proof { reveal_strlit("6"); }
        "6"
    } else if d == 7 {
        proof { reveal_strlit("7"); }
        "7"
    } else if d == 8 {
        proof { reveal_strlit("8"); }
        "8"
    } else {
        proof { reveal_strlit("9"); }
        "9"
    }
}

/// The decimal text of `n`.
pub fn decimal_string(n: u64) -> (r: String)
    ensures
        r@ == decimal(n as nat),
    decreases n,
{
    if n < 10 {
        String::from_str(digit_str(n))
    } else {
        let mut s = decimal_string(n / 10);
        s.append(digit_str(n % 10));
        s
    }
}

/// Whole days elapsed between `updated` and `now`, never negative.
pub fn age_in_days(now: i64, updated: i64) -> (r: i64)
    ensures
        r == age_days(now as int, updated as int),
        r >= 0,
{
    if now > updated {
        let diff: i128 = now as i128 - updated as i128;
        (diff / (SECONDS_PER_DAY as i128)) as i64
    } else {
        0
    }
}

/// The ranking key of an optional priority identifier.
pub fn rank_of_priority(p: &Option<String>) -> (r: i128)
    ensures
        r == priority_rank(priority_view(*p)),
{
    match p {
        Some(id) => match parse_i64(id.as_str()) {
            Some(v) => v as i128,
            None => NO_PRIORITY_RANK,
        },
        None => NO_PRIORITY_RANK,
    }
}


/// The address of an issue's page on the tracker.
pub open spec fn link_of(key: Seq<char>) -> Seq<char> {
    "https://zalora.atlassian.net/browse/"@ + key
}

/// Ranking key of an issue at time `now`: (priority rank, age in days).
pub open spec fn issue_key(i: Issue, now: int) -> (int, int) {
    (priority_rank(priority_view(i.priority)), age_days(now, i.updated as int))
}

pub open spec fn issue_keys(issues: Seq<Issue>, now: int) -> Seq<(int, int)> {
    issues.map_values(|i: Issue| issue_key(i, now))
}

pub open spec fn report_keys(reports: Seq<IssueReport>) -> Seq<(int, int)> {
    reports.map_values(|r: IssueReport| (r.priority as int, r.days as int))
}

/// Whether the issue at index `a` is listed before the one at index `b`:
/// lower rank first, then greater age, then earlier position in the input.
pub open spec fn precedes(keys: Seq<(int, int)>, a: int, b: int) -> bool {
    ||| keys[a].0 < keys[b].0
    ||| keys[a].0 == keys[b].0 && keys[a].1 > keys[b].1
    ||| keys[a].0 == keys[b].0 && keys[a].1 == keys[b].1 && a < b
}

/// `o` is in strict `precedes` order.
pub open spec fn sorted_by(keys: Seq<(int, int)>, o: Seq<usize>) -> bool {
    forall|j: int, k: int|
        0 <= j < k < o.len() ==> precedes(keys, #[trigger] o[j] as int, #[trigger] o[k] as int)
}

/// `o` holds every index below `n` and nothing else.
pub open spec fn holds_below(o: Seq<usize>, n: int) -> bool {
    &&& forall|k: int| 0 <= k < o.len() ==> (#[trigger] o[k]) < n
    &&& forall|x: usize| x < n ==> o.contains(x)
}

/// `o` lists every index of `keys` once, in `precedes` order.
pub open spec fn is_ranking(keys: Seq<(int, int)>, o: Seq<usize>) -> bool {
    &&& o.len() == keys.len()
    &&& holds_below(o, keys.len() as int)
    &&& sorted_by(keys, o)
}

/// The first position at or after `q` before which `x` goes.
pub open spec fn insert_point(keys: Seq<(int, int)>, o: Seq<usize>, x: usize, q: int) -> int
    decreases o.len() - q,
{
    if q >= o.len() || precedes(keys, x as int, o[q] as int) {
        q
    } else {
        insert_point(keys, o, x, q + 1)
    }
}

proof fn lemma_insert_point(keys: Seq<(int, int)>, o: Seq<usize>, x: usize, q: int)
    requires
        0 <= q <= o.len(),
        forall|k: int| 0 <= k < o.len() ==> (#[trigger] o[k]) != x,
        forall|r: int| 0 <= r < q ==> precedes(keys, #[trigger] o[r] as int, x as int),
    ensures
        q <= insert_point(keys, o, x, q) <= o.len(),
        forall|r: int|
            0 <= r < insert_point(keys, o, x, q) ==> precedes(keys, #[trigger] o[r] as int, x as int),
        insert_point(keys, o, x, q) < o.len() ==> precedes(
            keys,
            x as int,
            o[insert_point(keys, o, x, q)] as int,
        ),
    decreases o.len() - q,
{
    if q < o.len() && !precedes(keys, x as int, o[q] as int) {
        assert(o[q] != x);
        lemma_insert_point(keys, o, x, q + 1);
    }
}

/// Inserting the next index at its place keeps a sorted listing sorted.
proof fn lemma_insert_ranked(keys: Seq<(int, int)>, o: Seq<usize>, i: usize, p: int)
    requires
        sorted_by(keys, o),
        o.len() == i,
        holds_below(o, i as int),
        0 <= p <= o.len(),
        forall|q: int| 0 <= q < p ==> precedes(keys, #[trigger] o[q] as int, i as int),
        p < o.len() ==> precedes(keys, i as int, o[p] as int),
    ensures
        o.insert(p, i).len() == i + 1,
        holds_below(o.insert(p, i), i + 1),
        sorted_by(keys, o.insert(p, i)),
{
    let n = o.insert(p, i);
    assert forall|x: usize| x < i + 1 implies n.contains(x) by {
        if x < i {
            assert(o.contains(x));
            let w = choose|w: int| 0 <= w < o.len() && o[w] == x;
            if w < p {
                assert(n[w] == x);
            } else {
                assert(n[w + 1] == x);
            }
        } else {
            assert(n[p] == x);
        }
    }
    assert forall|j: int, k: int| 0 <= j < k < n.len() implies precedes(
        keys,
        #[trigger] n[j] as int,
        #[trigger] n[k] as int,
    ) by {
        if k < p {
            assert(n[j] == o[j] && n[k] == o[k]);
        } else if k == p {
            assert(n[j] == o[j]);
        } else if j < p {
            assert(n[j] == o[j] && n[k] == o[k - 1]);
        } else if j == p {
            assert(n[k] == o[k - 1]);
            if k - 1 > p {
                assert(precedes(keys, o[p] as int, o[k - 1] as int));
            }
        } else {
            assert(n[j] == o[j - 1] && n[k] == o[k - 1]);
        }
    }
}

proof fn lemma_sorted_prefix_exists(keys: Seq<(int, int)>, n: usize)
    requires
        n <= keys.len(),
    ensures
        exists|o: Seq<usize>| o.len() == n && holds_below(o, n as int) && sorted_by(keys, o),
    decreases n,
{
    if n == 0 {
        let o = Seq::<usize>::empty();
        assert(o.len() == 0 && holds_below(o, 0) && sorted_by(keys, o));
    } else {
        let i = (n - 1) as usize;
        lemma_sorted_prefix_exists(keys, i);
        let o = choose|o: Seq<usize>| o.len() == i && holds_below(o, i as int) && sorted_by(keys, o);
        lemma_insert_point(keys, o, i, 0);
        let p = insert_point(keys, o, i, 0);
        lemma_insert_ranked(keys, o, i, p);
        let w = o.insert(p, i);
        assert(w.len() == n && holds_below(w, n as int) && sorted_by(keys, w));
    }
}

/// Two listings in `precedes` order of the same indices are equal.
proof fn lemma_sorted_same_equal(keys: Seq<(int, int)>, o1: Seq<usize>, o2: Seq<usize>)
    requires
        sorted_by(keys, o1),
        sorted_by(keys, o2),
        forall|x: usize| o1.contains(x) <==> o2.contains(x),
    ensures
        o1 == o2,
    decreases o1.len(),
{
    if o1.len() == 0 {
        if o2.len() > 0 {
            assert(o2.contains(o2[0]));
        }
        assert(o1 =~= o2);
    } else {
        assert(o1.contains(o1[0]));
        assert(o2.len() > 0);
        let a = o1[0];
        let b = o2[0];
        if a != b {
            assert(o2.contains(b));
            let j = choose|j: int| 0 <= j < o1.len() && o1[j] == b;
            assert(precedes(keys, a as int, b as int));
            assert(o2.contains(a));
            let k = choose|k: int| 0 <= k < o2.len() && o2[k] == a;
            assert(precedes(keys, b as int, a as int));
        }
        let t1 = o1.drop_first();
        let t2 = o2.drop_first();
        assert forall|x: usize| t1.contains(x) implies t2.contains(x) by {
            let j = choose|j: int| 0 <= j < t1.len() && t1[j] == x;
            assert(o1[j + 1] == x);
            assert(precedes(keys, a as int, x as int));
            assert(o1.contains(x));
            let k = choose|k: int| 0 <= k < o2.len() && o2[k] == x;
            assert(k != 0);
            assert(t2[k - 1] == x);
        }
        assert forall|x: usize| t2.contains(x) implies t1.contains(x) by {
            let j = choose|j: int| 0 <= j < t2.len() && t2[j] == x;
            assert(o2[j + 1] == x);
            assert(precedes(keys, b as int, x as int));
            assert(o2.contains(x));
            let k = choose|k: int| 0 <= k < o1.len() && o1[k] == x;
            assert(k != 0);
            assert(t1[k - 1] == x);
        }
        assert(sorted_by(keys, t1)) by {
            assert forall|j: int, k: int| 0 <= j < k < t1.len() implies precedes(
                keys,
                #[trigger] t1[j] as int,
                #[trigger] t1[k] as int,
            ) by {
                assert(t1[j] == o1[j + 1] && t1[k] == o1[k + 1]);
            }
        }
        assert(sorted_by(keys, t2)) by {
            assert forall|j: int, k: int| 0 <= j < k < t2.len() implies precedes(
                keys,
                #[trigger] t2[j] as int,
                #[trigger] t2[k] as int,
            ) by {
                assert(t2[j] == o2[j + 1] && t2[k] == o2[k + 1]);
            }
        }
        lemma_sorted_same_equal(keys, t1, t2);
        assert(o1 =~= seq![a] + t1);
        assert(o2 =~= seq![b] + t2);
    }
}

/// Keys of at most `usize::MAX` issues have exactly one ranking, and
/// `ranked_order` is it.
pub proof fn lemma_ranking_unique(keys: Seq<(int, int)>, o: Seq<usize>)
    requires
        keys.len() <= usize::MAX,
    ensures
        is_ranking(keys, ranked_order(keys)),
        is_ranking(keys, o) ==> o == ranked_order(keys),
{
    let n = keys.len() as usize;
    lemma_sorted_prefix_exists(keys, n);
    let w = choose|w: Seq<usize>| w.len() == n && holds_below(w, n as int) && sorted_by(keys, w);
    assert(is_ranking(keys, w));
    let r = ranked_order(keys);
    if is_ranking(keys, o) {
        assert forall|x: usize| o.contains(x) <==> r.contains(x) by {
            if o.contains(x) {
                let j = choose|j: int| 0 <= j < o.len() && o[j] == x;
                assert(o[j] < n);
            }
            if r.contains(x) {
                let j = choose|j: int| 0 <= j < r.len() && r[j] == x;
                assert(r[j] < n);
            }
        }
        lemma_sorted_same_equal(keys, o, r);
    }
}

/// The order in which the issues with these keys are listed.
pub open spec fn ranked_order(keys: Seq<(int, int)>) -> Seq<usize> {
    choose|o: Seq<usize>| is_ranking(keys, o)
}

/// The line that lists one issue.
pub open spec fn line_text(i: Issue, now: int) -> Seq<char> {
    link_of(i.key@) + ": "@ + i.summary@ + " ("@ + decimal(age_days(now, i.updated as int) as nat)
        + "days)\n"@
}

/// The lines of the issues at the indices of `o`, in that order.
pub open spec fn lines_text(issues: Seq<Issue>, now: int, o: Seq<usize>) -> Seq<char>
    decreases o.len(),
{
    if o.len() == 0 {
        Seq::empty()
    } else {
        lines_text(issues, now, o.drop_last()) + line_text(issues[o.last() as int], now)
    }
}

/// The message sent when no issue waits for review.
pub open spec fn no_tickets_text(at: Seq<char>) -> Seq<char> {
    "Great job "@ + at + ". No tickets to review.\nShould we all take a day off?"@
}

/// The digest of `issues` listed in the order `o`, addressed to `at`.
pub open spec fn digest_text(issues: Seq<Issue>, at: Seq<char>, now: int, o: Seq<usize>) -> Seq<char> {
    if issues.len() == 0 {
        no_tickets_text(at)
    } else {
        at + ": the following issues need attention.\n```"@ + lines_text(issues, now, o) + "```\n"@
    }
}

/// The digest of `issues` at time `now`, addressed to `at`.
pub open spec fn render_spec(issues: Seq<Issue>, at: Seq<char>, now: int) -> Seq<char> {
    digest_text(issues, at, now, ranked_order(issue_keys(issues, now)))
}

/// `rep` is the projection of `issue` at time `now`.
pub open spec fn reports_issue(rep: IssueReport, issue: Issue, now: int) -> bool {
    &&& rep.issue_link@ == link_of(issue.key@)
    &&& rep.summary@ == issue.summary@
    &&& rep.days as int == age_days(now, issue.updated as int)
    &&& rep.priority as int == priority_rank(priority_view(issue.priority))
}

/// Projects an issue into its report at time `now`.
pub fn issue_report(issue: &Issue, now: i64) -> (r: IssueReport)
    ensures
        reports_issue(r, *issue, now as int),
{
    let mut link = String::from_str("https://zalora.atlassian.net/browse/");
    link.append(issue.key.as_str());
    IssueReport {
        issue_link: link,
        summary: issue.summary.clone(),
        days: age_in_days(now, issue.updated),
        priority: rank_of_priority(&issue.priority),
    }
}

/// Whether report `a` is listed before report `b`.
fn goes_before(reports: &Vec<IssueReport>, a: usize, b: usize) -> (r: bool)
    requires
        a < reports.len(),
        b < reports.len(),
    ensures
        r == precedes(report_keys(reports@), a as int, b as int),
{
    let ra = &reports[a];
    let rb = &reports[b];
    ra.priority < rb.priority || (ra.priority == rb.priority && (ra.days > rb.days || (ra.days
        == rb.days && a < b)))
}

/// The indices of `reports` in listing order.
pub fn rank_order(reports: &Vec<IssueReport>) -> (r: Vec<usize>)
    ensures
        is_ranking(report_keys(reports@), r@),
{
    let ghost keys = report_keys(reports@);
    let n = reports.len();
    let mut order: Vec<usize> = Vec::new();
    let mut i: usize = 0;
    while i < n
        invariant
            n == reports.len(),
            keys == report_keys(reports@),
            i <= n,
            order@.len() == i,
            holds_below(order@, i as int),
            sorted_by(keys, order@),
        decreases n - i,
    {
        let mut p: usize = 0;
        while p < order.len() && !goes_before(reports, i, order[p])
            invariant
                n == reports.len(),
                keys == report_keys(reports@),
                i < n,
                p <= order@.len(),
                forall|k: int| 0 <= k < order@.len() ==> (#[trigger] order@[k]) < i,
                forall|q: int| 0 <= q < p ==> precedes(keys, #[trigger] order@[q] as int, i as int),
            decreases order@.len() - p,
        {
            p = p + 1;
        }
        proof {
            lemma_insert_ranked(keys, order@, i, p as int);
        }
        order.insert(p, i);
        i = i + 1;
    }
    order
}


/// The digest of no issues is the no-tickets message, which depends on the
/// mention target alone and differs from the digest of every non-empty
/// list, whatever its mention target and time.
pub proof fn lemma_empty_digest(issues: Seq<Issue>, at: Seq<char>, at2: Seq<char>, now: int, now2: int)
    requires
        issues.len() > 0,
    ensures
        render_spec(Seq::empty(), at, now) == no_tickets_text(at),
        render_spec(Seq::empty(), at, now) != render_spec(issues, at2, now2),
{
    reveal_strlit(". No tickets to review.\nShould we all take a day off?");
    reveal_strlit("```\n");
    let e = render_spec(Seq::empty(), at, now);
    let t = render_spec(issues, at2, now2);
    assert(e.last() == '?');
    assert(t.last() == '\n');
}

/// Whether `p` occurs in `t`.
pub open spec fn occurs_in(p: Seq<char>, t: Seq<char>) -> bool {
    exists|i: int| 0 <= i && i + p.len() <= t.len() && #[trigger] t.subrange(i, i + p.len()) == p
}

/// The digest of no issues holds no issue link unless the mention target
/// holds one.
pub proof fn lemma_empty_digest_has_no_link(at: Seq<char>, now: int)
    requires
        !occurs_in(link_of(Seq::empty()), at),
    ensures
        !occurs_in(link_of(Seq::empty()), render_spec(Seq::empty(), at, now)),
{
    reveal_strlit("https://zalora.atlassian.net/browse/");
    reveal_strlit("Great job ");
    reveal_strlit(". No tickets to review.\nShould we all take a day off?");
    let p = link_of(Seq::empty());
    let g = "Great job "@;
    let e = ". No tickets to review.\nShould we all take a day off?"@;
    let t = render_spec(Seq::empty(), at, now);
    assert(p =~= "https://zalora.atlassian.net/browse/"@);
    assert(t =~= g + at + e);
    assert(forall|j: int| 0 <= j < g.len() ==> g[j] != 'h');
    assert(forall|j: int| 0 <= j < e.len() ==> e[j] != ':');
    if occurs_in(p, t) {
        let i = choose|i: int| 0 <= i && i + p.len() <= t.len() && #[trigger] t.subrange(i, i + p.len()) == p;
        let w = t.subrange(i, i + p.len());
        let b = (g.len() + at.len()) as int;
        assert(w[0] == t[i]);
        assert(w[5] == t[i + 5]);
        if i < g.len() {
            assert(t[i] == g[i]);
        } else if i + p.len() <= b {
            assert(at.subrange(i - g.len(), i - g.len() + p.len()) =~= w);
        } else if i + 5 >= b {
            assert(t[i + 5] == e[i + 5 - b]);
        } else {
            let k = b - i;
            assert(w[k] == t[b]);
            assert(t[b] == e[0]);
            if k + 1 < p.len() {
                assert(w[k + 1] == t[b + 1]);
                assert(t[b + 1] == e[1]);
            }
        }
    }
}

/// Listing is a total order: every issue is listed exactly once, each before
/// the next by lower rank, or by equal rank and greater age, or, with both
/// equal, by coming first in the input; and no other listing meets this.
pub proof fn lemma_listing_total_stable(issues: Seq<Issue>, now: int, o: Seq<usize>)
    requires
        issues.len() <= usize::MAX,
    ensures
        ranked_order(issue_keys(issues, now)).len() == issues.len(),
        forall|x: usize| x < issues.len() ==> ranked_order(issue_keys(issues, now)).contains(x),
        forall|j: int, k: int|
            0 <= j < k < issues.len() ==> {
                let ka = issue_key(issues[#[trigger] ranked_order(issue_keys(issues, now))[j] as int], now);
                let kb = issue_key(issues[#[trigger] ranked_order(issue_keys(issues, now))[k] as int], now);
                ||| ka.0 < kb.0
                ||| ka.0 == kb.0 && ka.1 > kb.1
                ||| ka == kb && ranked_order(issue_keys(issues, now))[j] < ranked_order(
                    issue_keys(issues, now),
                )[k]
            },
        is_ranking(issue_keys(issues, now), o) ==> o == ranked_order(issue_keys(issues, now)),
{
    let keys = issue_keys(issues, now);
    lemma_ranking_unique(keys, o);
    let r = ranked_order(keys);
    assert forall|j: int, k: int| 0 <= j < k < issues.len() implies {
        let ka = issue_key(issues[#[trigger] r[j] as int], now);
        let kb = issue_key(issues[#[trigger] r[k] as int], now);
        ||| ka.0 < kb.0
        ||| ka.0 == kb.0 && ka.1 > kb.1
        ||| ka == kb && r[j] < r[k]
    } by {
        assert(precedes(keys, r[j] as int, r[k] as int));
    }
}

/// An issue whose priority is absent or does not parse is listed after every
/// issue whose priority parses, whatever their ages.
pub proof fn lemma_unprioritized_last(issues: Seq<Issue>, now: int, a: int, b: int, j: int, k: int)
    requires
        issues.len() <= usize::MAX,
        0 <= a < issues.len(),
        0 <= b < issues.len(),
        parsed_priority(priority_view(issues[a].priority)) is None,
        parsed_priority(priority_view(issues[b].priority)) is Some,
        0 <= j < issues.len(),
        0 <= k < issues.len(),
        ranked_order(issue_keys(issues, now))[j] == a,
        ranked_order(issue_keys(issues, now))[k] == b,
    ensures
        k < j,
{
    let keys = issue_keys(issues, now);
    lemma_ranking_unique(keys, ranked_order(keys));
    if j < k {
        assert(precedes(keys, a, b));
    }
}

/// Of two issues of equal rank, the one with the greater age is listed first.
pub proof fn lemma_older_first(issues: Seq<Issue>, now: int, a: int, b: int, j: int, k: int)
    requires
        issues.len() <= usize::MAX,
        0 <= a < issues.len(),
        0 <= b < issues.len(),
        issue_key(issues[a], now).0 == issue_key(issues[b], now).0,
        issue_key(issues[a], now).1 > issue_key(issues[b], now).1,
        0 <= j < issues.len(),
        0 <= k < issues.len(),
        ranked_order(issue_keys(issues, now))[j] == a,
        ranked_order(issue_keys(issues, now))[k] == b,
    ensures
        j < k,
{
    let keys = issue_keys(issues, now);
    lemma_ranking_unique(keys, ranked_order(keys));
    if k < j {
        assert(precedes(keys, b, a));
    }
}

/// Renders the digest of `issues` at time `now` (seconds since the epoch),
/// addressed to `at`.
pub fn render(issues: &Vec<Issue>, at: &String, now: i64) -> (r: String)
    ensures
        r@ == render_spec(issues@, at@, now as int),
{
    if issues.len() == 0 {
        let mut s = String::from_str("Great job ");
        s.append(at.as_str());
        s.append(". No tickets to review.\nShould we all take a day off?");
        return s;
    }
    let mut reports: Vec<IssueReport> = Vec::new();
    let mut i: usize = 0;
    while i < issues.len()
        invariant
            i <= issues.len(),
            reports@.len() == i,
            forall|k: int| 0 <= k < i ==> reports_issue(#[trigger] reports@[k], issues@[k], now as int),
        decreases issues.len() - i,
    {
        reports.push(issue_report(&issues[i], now));
        i = i + 1;
    }
    let order = rank_order(&reports);
    let ghost keys = issue_keys(issues@, now as int);
    proof {
        assert(report_keys(reports@) =~= keys);
        lemma_ranking_unique(keys, order@);
    }
    let mut lines = String::new();
    let mut k: usize = 0;
    while k < order.len()
        invariant
            k <= order@.len(),
            order@.len() == reports@.len(),
            reports@.len() == issues@.len(),
            forall|q: int| 0 <= q < order@.len() ==> (#[trigger] order@[q]) < reports@.len(),
            forall|q: int| 0 <= q < reports@.len() ==> reports_issue(#[trigger] reports@[q], issues@[q], now as int),
            lines@ == lines_text(issues@, now as int, order@.subrange(0, k as int)),
        decreases order@.len() - k,
    {
        let rep = &reports[order[k]];
        assert(reports_issue(reports@[order@[k as int] as int], issues@[order@[k as int] as int], now as int));
        lines.append(rep.issue_link.as_str());
        lines.append(": ");
        lines.append(rep.summary.as_str());
        lines.append(" (");
        let days = decimal_string(rep.days as u64);
        lines.append(days.as_str());
        lines.append("days)\n");
        proof {
            assert(order@.subrange(0, k + 1).drop_last() =~= order@.subrange(0, k as int));
        }
        k = k + 1;
    }
    proof {
        assert(order@.subrange(0, order@.len() as int) =~= order@);
    }
    let mut text = at.clone();
    text.append(": the following issues need attention.\n```");
    text.append(lines.as_str());
    text.append("```\n");
    text
}

impl Message {
    /// The digest of these results at time `now`.
    pub fn render_at(&self, now: i64) -> (r: String)
        ensures
            r@ == render_spec(self.resp.issues@, self.at@, now as int),
    {
        render(&self.resp.issues, &self.at, now)
    }
}

} // verus!
