//! Searching, and showing what was found.

use ccfind::picker::print_lines;
use ccfind::search::{
    fzf_line, fzf_line_with, one_line, parse_since, parse_since_at, sanitize_query, search,
    search_sql, shorten_cwd, since_from, since_is_workable, Hit, ScopeFlag, SearchOpts, SqlParam,
};
use chrono::TimeZone;

fn some(s: &str) -> Option<String> {
    Some(s.to_string())
}

fn hit(id: &str, snippet: &str) -> Hit {
    Hit {
        file_id: id.to_string(),
        cwd: "/home/me/repo".to_string(),
        git_branch: "main".to_string(),
        project_dir: "/home/me".to_string(),
        ts: 0,
        scope: "user".to_string(),
        snippet: snippet.to_string(),
    }
}

fn ids(hits: &Vec<Hit>) -> Vec<&str> {
    hits.iter().map(|h| h.file_id.as_str()).collect()
}

fn shown(params: &Vec<SqlParam>) -> Vec<String> {
    params
        .iter()
        .map(|p| match p {
            SqlParam::Text(s) => s.clone(),
            SqlParam::Int(n) => format!("#{}", n),
        })
        .collect()
}

#[test]
fn scopes_widen() {
    assert_eq!(ScopeFlag::User.to_scopes(), ["user"]);
    assert_eq!(ScopeFlag::Assistant.to_scopes(), ["user", "assistant"]);
    assert_eq!(ScopeFlag::Tools.to_scopes(), ["user", "tool"]);
    assert_eq!(ScopeFlag::All.to_scopes(), ["user", "assistant", "tool"]);
}

#[test]
fn queries_are_sanitized() {
    assert_eq!(sanitize_query("migration"), "\"migration\"");
    assert_eq!(sanitize_query("  a  OR\tb* "), "\"a\" \"OR\" \"b*\"");
    assert_eq!(sanitize_query("pr-review-toolkit src/main.rs"), "\"pr-review-toolkit\" \"src/main.rs\"");
    assert_eq!(sanitize_query("say \"hi\" \"\" x\"y"), "\"say\" \"hi\" \"xy\"");
    assert_eq!(sanitize_query(" \"\" \" "), "");
    assert_eq!(sanitize_query(""), "");
}

#[test]
fn sanitizing_twice_changes_nothing() {
    for q in ["a b", "\"a b\"", "NEAR(x y)", "", "\"\"", "a\"b c"] {
        let once = sanitize_query(q);
        assert_eq!(sanitize_query(&once), once);
    }
}

#[test]
fn sanitizing_joins_queries() {
    let parts = ["", "a", "a b", "\"\"", "x\"y", " \" ", "\"a", "b\""];
    for a in parts {
        for b in parts {
            for w in [" ", "\n", " \t\u{2003}"] {
                let (x, y) = (sanitize_query(a), sanitize_query(b));
                let want = if x.is_empty() {
                    y
                } else if y.is_empty() {
                    x
                } else {
                    format!("{} {}", x, y)
                };
                assert_eq!(sanitize_query(&format!("{}{}{}", a, w, b)), want);
            }
        }
        let void = a.chars().all(|c| c.is_whitespace() || c == '"');
        assert_eq!(sanitize_query(a).is_empty(), void);
    }
}

#[test]
fn statements_for_queries() {
    let opts = SearchOpts {
        query: some("red is"),
        scope: Some(ScopeFlag::All),
        project: some("/home/me/repo-a"),
        branch: some("main"),
        cwd_glob: some("*/backend"),
        since: Some(77),
        limit: 10,
    };
    let s = search_sql(&opts).unwrap();
    assert!(s.sql.starts_with("SELECT file_id, cwd, git_branch, project_dir, ts, scope, snip FROM ("));
    assert!(s.sql.contains("AND m.scope IN (?,?,?) AND instr(s.project_dir, ?) > 0 AND s.git_branch = ? AND s.cwd GLOB ? AND m.ts >= ?\nUNION ALL"));
    assert!(s.sql.contains("WHERE sessions_fts MATCH ? AND instr(s.project_dir, ?) > 0 AND s.git_branch = ? AND s.cwd GLOB ? AND COALESCE(s.last_seen, 0) >= ?\n) ORDER BY score"));
    assert!(s.sql.ends_with("ASC LIMIT 80"));
    assert_eq!(
        shown(&s.params),
        [
            "\"red\" \"is\"", "user", "assistant", "tool", "/home/me/repo-a", "main", "*/backend",
            "#77", "\"red\" \"is\"", "/home/me/repo-a", "main", "*/backend", "#77"
        ]
    );
    assert_eq!(s.sql.matches('?').count(), s.params.len());
}

#[test]
fn statements_without_a_query() {
    let s = search_sql(&SearchOpts::default()).unwrap();
    assert!(s.sql.contains("FROM sessions s"));
    assert!(s.sql.ends_with("WHERE 1=1 ORDER BY COALESCE(s.last_seen, 0) DESC LIMIT 500"));
    assert!(s.params.is_empty());
    let opts = SearchOpts { since: Some(5), limit: 3, ..SearchOpts::default() };
    let s = search_sql(&opts).unwrap();
    assert!(s.sql.ends_with("WHERE 1=1 AND COALESCE(s.last_seen, 0) >= ? ORDER BY COALESCE(s.last_seen, 0) DESC LIMIT 3"));
    assert_eq!(shown(&s.params), ["#5"]);
}

#[test]
fn every_statement_is_accepted() {
    let db = rusqlite::Connection::open_in_memory().unwrap();
    db.execute_batch(ccfind::index::SCHEMA_SQL).unwrap();
    for query in [None, some("a b")] {
        for scope in [None, Some(ScopeFlag::User), Some(ScopeFlag::Tools), Some(ScopeFlag::All)] {
            for bits in 0..16 {
                let opts = SearchOpts {
                    query: query.clone(),
                    scope,
                    project: if bits & 1 > 0 { some("p") } else { None },
                    branch: if bits & 2 > 0 { some("b") } else { None },
                    cwd_glob: if bits & 4 > 0 { some("*") } else { None },
                    since: if bits & 8 > 0 { Some(1) } else { None },
                    limit: 0,
                };
                let s = search_sql(&opts).unwrap();
                let stmt = db.prepare(&s.sql).unwrap();
                assert_eq!(stmt.parameter_count(), s.params.len());
                assert_eq!(stmt.column_count(), 7);
            }
        }
    }
}

#[test]
fn the_users_messages_are_searched_by_default() {
    let opts = SearchOpts { query: some("x"), ..SearchOpts::default() };
    let s = search_sql(&opts).unwrap();
    assert_eq!(shown(&s.params), ["\"x\"", "user", "\"x\""]);
    assert!(s.sql.contains("m.scope IN (?)\nUNION ALL"));
    assert!(s.sql.ends_with("LIMIT 4000"));
}

#[test]
fn void_queries_find_nothing() {
    for q in ["", "  ", "\"\""] {
        let opts = SearchOpts { query: some(q), ..SearchOpts::default() };
        assert!(search_sql(&opts).is_none());
        assert!(search(&opts, vec![hit("a", "")]).is_empty());
    }
}

#[test]
fn each_session_is_shown_once() {
    let rows = || vec![hit("a", "1"), hit("b", "2"), hit("a", "3"), hit("c", "4"), hit("b", "5")];
    let opts = SearchOpts { query: some("x"), ..SearchOpts::default() };
    let found = search(&opts, rows());
    assert_eq!(ids(&found), ["a", "b", "c"]);
    assert_eq!(found[0].snippet, "1");
    let two = SearchOpts { query: some("x"), limit: 2, ..SearchOpts::default() };
    assert_eq!(ids(&search(&two, rows())), ["a", "b"]);
    let three = SearchOpts { limit: 3, ..SearchOpts::default() };
    assert_eq!(ids(&search(&three, rows())), ["a", "b", "c"]);
    assert!(search(&opts, Vec::new()).is_empty());
}

#[test]
fn five_hundred_sessions_are_shown_by_default() {
    let rows: Vec<Hit> = (0..600).map(|i| hit(&format!("{}", i), "")).collect();
    assert_eq!(search(&SearchOpts::default(), rows).len(), 500);
}

#[test]
fn directories_are_shortened() {
    assert_eq!(shorten_cwd("/home/me/repo", "/x"), "me/repo");
    assert_eq!(shorten_cwd("", "/x/y/z/"), "y/z");
    assert_eq!(shorten_cwd("/one", ""), "one");
    assert_eq!(shorten_cwd("//a//b//", ""), "a/b");
    assert_eq!(shorten_cwd("/", ""), "/");
    assert_eq!(shorten_cwd("", ""), "?");
}

#[test]
fn snippets_are_put_on_one_line() {
    assert_eq!(one_line(" a\n\tb\r\n  c "), "a b c");
    assert_eq!(one_line(&"x".repeat(120)), "x".repeat(120));
    assert_eq!(one_line(&"x".repeat(121)), format!("{}\u{2026}", "x".repeat(120)));
    assert_eq!(one_line(&"\u{e9}".repeat(121)), format!("{}\u{2026}", "\u{e9}".repeat(60)));
    assert_eq!(one_line(&"\u{e9}".repeat(120)), "\u{e9}".repeat(120));
    let odd = format!("a{}", "\u{e9}".repeat(121));
    assert_eq!(one_line(&odd), format!("a{}\u{2026}", "\u{e9}".repeat(59)));
}

#[test]
fn lines_are_tidy_and_stay() {
    let long = "ab ".repeat(60);
    let wide = "\u{e9}\u{2003} ".repeat(80);
    for s in ["", " ", " a  b\n", long.as_str(), wide.as_str(), &"x".repeat(200)] {
        let t = one_line(s);
        assert!(!t.contains("  ") && t.trim() == t);
        assert!(t.chars().all(|c| c == ' ' || !c.is_whitespace()));
        assert!(t.chars().count() <= 121);
        assert_eq!(one_line(&t), t);
    }
}

#[test]
fn hits_are_lines_of_five_columns() {
    let h = hit("id-1", "one\ttwo\nthree");
    assert_eq!(fzf_line_with(&h, "now"), "now\tme/repo\tmain\tone two three\tid-1");
    let line = fzf_line(&h);
    assert_eq!(line.split('\t').collect::<Vec<_>>(), ["", "me/repo", "main", "one two three", "id-1"]);
    let h = Hit { git_branch: String::new(), ts: -5, ..hit("id-2", "") };
    assert_eq!(fzf_line(&h), "\tme/repo\t-\t\tid-2");
}

#[test]
fn a_hit_takes_one_line() {
    let h = Hit { ts: 1700000000, ..hit("id", "a\nb\r\nc\u{2028}d\u{85}e") };
    let line = fzf_line(&h);
    assert!(!line.contains('\n') && !line.contains('\r'));
    assert!(line.ends_with("\ta b c d e\tid"));
}

#[test]
fn every_scope_includes_the_user() {
    for flag in [ScopeFlag::User, ScopeFlag::Assistant, ScopeFlag::Tools, ScopeFlag::All] {
        assert!(flag.to_scopes().contains(&"user"));
    }
}

#[test]
fn hits_show_local_times() {
    for ts in [1i64, 1700000000, 4102444800, 8210266876799] {
        let h = Hit { ts, ..hit("id", "s") };
        let local = chrono::Local.timestamp_opt(ts, 0).unwrap();
        let want = format!("{}\tme/repo\tmain\ts\tid", local.format("%Y-%m-%d %H:%M"));
        assert_eq!(fzf_line(&h), want);
    }
    for ts in [0i64, -1, 8210266876800, i64::MAX] {
        let h = Hit { ts, ..hit("id", "s") };
        assert_eq!(fzf_line(&h), "\tme/repo\tmain\ts\tid");
    }
}

#[test]
fn the_calendar_ends_where_chrono_ends() {
    assert_eq!(ccfind::clock::FIRST_TIME, chrono::DateTime::<chrono::Utc>::MIN_UTC.timestamp());
    assert_eq!(ccfind::clock::LAST_TIME, chrono::DateTime::<chrono::Utc>::MAX_UTC.timestamp());
}

#[test]
fn hits_are_printed_in_order() {
    let hits = vec![hit("a", "1"), hit("b", "2")];
    assert_eq!(print_lines(&hits), ["\tme/repo\tmain\t1\ta", "\tme/repo\tmain\t2\tb"]);
    assert!(print_lines(&Vec::new()).is_empty());
}

#[test]
fn time_limits_as_spans() {
    assert_eq!(parse_since_at("7d", 1000000), Some(1000000 - 7 * 86400));
    assert_eq!(parse_since_at("24h", 1000000), Some(1000000 - 86400));
    assert_eq!(parse_since_at("30m", 1000000), Some(1000000 - 1800));
    assert_eq!(parse_since_at("-1h", 0), Some(3600));
    assert_eq!(parse_since_at("+1m", 0), Some(-60));
    for s in ["", "d", "7", "7w", "x7d", "7 d", "1.5h"] {
        assert_eq!(parse_since_at(s, 0), None, "{:?}", s);
    }
}

#[test]
fn time_limits_as_dates() {
    assert_eq!(parse_since_at("2026-01-15", 0), Some(1768435200));
    assert_eq!(parse_since_at("1970-01-02", 5), Some(86400));
    assert_eq!(parse_since_at("2026-02-30", 0), None);
    assert_eq!(parse_since("2026-01-15"), Some(1768435200));
    assert_eq!(since_from(Some(9), "7d", 100), Some(9));
    assert_eq!(since_from(None, "1m", 100), Some(40));
    assert_eq!(since_from(None, "?", 100), None);
}

fn day_number(y: i64, m: i64, d: i64) -> Option<i64> {
    let leap = y % 4 == 0 && (y % 100 != 0 || y % 400 == 0);
    let months = [31, if leap { 29 } else { 28 }, 31, 30, 31, 30, 31, 31, 30, 31, 30, 31];
    if m < 1 || m > 12 || d < 1 || d > months[m as usize - 1] {
        return None;
    }
    let leaps = |y: i64| (y - 1).div_euclid(4) - (y - 1).div_euclid(100) + (y - 1).div_euclid(400);
    let before: i64 = months[..m as usize - 1].iter().sum();
    Some(365 * (y - 1970) + leaps(y) - leaps(1970) + before + d - 1)
}

#[test]
fn plain_dates_and_times_are_read_by_the_calendar() {
    for y in [0i64, 1, 4, 100, 400, 999, 1600, 1900, 1969, 1970, 1999, 2000, 2024, 2026, 2100, 9999] {
        for m in 0..=13 {
            for d in 0..=32 {
                let date = format!("{:04}-{:02}-{:02}", y, m, d);
                let start = day_number(y, m, d).map(|n| n * 86400);
                assert_eq!(parse_since_at(&date, 0), start, "{}", date);
                let stamp = format!("{}T01:02:03Z", date);
                let want = start.map(|s| s + 3723).unwrap_or(0);
                assert_eq!(ccfind::session::parse_ts(&stamp), want, "{}", stamp);
            }
        }
    }
    let at = |t: &str| ccfind::session::parse_ts(&format!("1970-01-02T{}", t));
    assert_eq!(at("23:59:59Z"), 172799);
    assert_eq!(at("23:59:60Z"), 172799);
    assert_eq!(at("00:00:60Z"), 86459);
    assert_eq!(at("00:00:61Z"), 0);
    assert_eq!(at("24:00:00Z"), 0);
    assert_eq!(at("00:60:00Z"), 0);
    assert_eq!(at("00:00:07.9Z"), 86407);
    assert_eq!(at("00:00:07.123456789123Z"), 86407);
    assert_eq!(at("00:00:60.999Z"), 86459);
    assert_eq!(at("00:00:07.Z"), 0);
}

#[test]
fn time_limits_by_the_clock() {
    let before = chrono::Utc::now().timestamp();
    let since = parse_since("1d").unwrap();
    let after = chrono::Utc::now().timestamp();
    assert!(before - 86400 <= since && since <= after - 86400);
    assert_eq!(parse_since("soon"), None);
}

#[test]
fn time_limits_that_overflow_are_told() {
    assert!(since_is_workable("7d"));
    assert!(since_is_workable("2026-01-15"));
    assert!(since_is_workable(""));
    assert!(since_is_workable("99999999999999999999d"));
    assert!(!since_is_workable("9223372036854775807d"));
    assert!(!since_is_workable("-9223372036854775807m"));
    assert!(!since_is_workable("7\u{e9}"));
}
