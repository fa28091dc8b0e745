//! Showing a session.

use ccfind::highlight::{highlight, highlight_in};
use ccfind::index::SessionRow;
use ccfind::preview::{
    event_text, fmt_ts, header_with, humanize_bytes, humanize_duration, item_stamps, items, pad,
    print_header, render, render_indices, run, terms, Item,
};
use ccfind::session::{Block, Content, Event, JsonValue, Message, Scope};
use chrono::TimeZone;

fn some(s: &str) -> Option<String> {
    Some(s.to_string())
}

fn strings(v: &[&str]) -> Vec<String> {
    v.iter().map(|s| s.to_string()).collect()
}

fn label(s: &str) -> String {
    format!("\u{1b}[1;37m{:<9}\u{1b}[0m", s)
}

fn marked(s: &str) -> String {
    format!("\u{1b}[1;33m{}\u{1b}[0m", s)
}

fn event(kind: &str, content: Option<Content>, stamp: Option<&str>) -> Event {
    Event {
        event_type: some(kind),
        uuid: None,
        session_id: None,
        timestamp: stamp.map(String::from),
        cwd: None,
        git_branch: None,
        slug: None,
        message: Some(Message { role: None, content }),
        is_meta: false,
        is_sidechain: false,
        summary: None,
        title: None,
        text: None,
        prompt: None,
    }
}

fn user(text: &str) -> Option<Event> {
    Some(event("user", Some(Content::Text(text.to_string())), None))
}

fn item(body: &str) -> Item {
    Item { ts: 0, role: Scope::User, body: body.to_string() }
}

fn row() -> SessionRow {
    SessionRow {
        file_id: "abc".to_string(),
        jsonl_path: "/p/abc.jsonl".to_string(),
        project_dir: "/home/me".to_string(),
        cwd: None,
        git_branch: None,
        slug: None,
        ai_title: None,
        last_prompt: None,
        first_seen: None,
        last_seen: None,
        message_count: 4,
    }
}

#[test]
fn texts_are_padded() {
    assert_eq!(pad("ab", 4), "ab  ");
    assert_eq!(pad("abcd", 4), "abcd");
    assert_eq!(pad("abcde", 4), "abcde");
    assert_eq!(pad("\u{e9}", 3), format!("{:<3}", "\u{e9}"));
}

#[test]
fn durations_are_put_in_words() {
    assert_eq!(humanize_duration(-1), "?");
    assert_eq!(humanize_duration(0), "0s");
    assert_eq!(humanize_duration(59), "59s");
    assert_eq!(humanize_duration(60), "1m");
    assert_eq!(humanize_duration(3599), "59m");
    assert_eq!(humanize_duration(3600), "1h 0m");
    assert_eq!(humanize_duration(86399), "23h 59m");
    assert_eq!(humanize_duration(90000), "1d 1h");
    assert_eq!(humanize_duration(i64::MAX), "106751991167300d 15h");
}

#[test]
fn sizes_are_put_in_words() {
    assert_eq!(humanize_bytes(0), "0 B");
    assert_eq!(humanize_bytes(1023), "1023 B");
    assert_eq!(humanize_bytes(1024), "1 KB");
    assert_eq!(humanize_bytes(1536), "2 KB");
    assert_eq!(humanize_bytes(2560), "2 KB");
    assert_eq!(humanize_bytes(1048575), "1024 KB");
    assert_eq!(humanize_bytes(1572864), "1.5 MB");
    assert_eq!(humanize_bytes(1073741824), "1.00 GB");
    assert_eq!(humanize_bytes(u64::MAX), "17179869184.00 GB");
}

#[test]
fn times_are_local() {
    for ts in [0i64, -1, 1700000000, -8334601228800, 8210266876799] {
        let local = chrono::Local.timestamp_opt(ts, 0).unwrap();
        assert_eq!(fmt_ts(ts), local.format("%Y-%m-%d %H:%M").to_string());
    }
    assert_eq!(fmt_ts(i64::MAX), "9223372036854775807");
    assert_eq!(fmt_ts(-8334601228801), "-8334601228801");
}

#[test]
fn bare_headers() {
    let want = vec![
        format!("{} abc", label("session:")),
        format!("{} -", label("title:")),
        format!("{} /home/me", label("cwd:")),
        format!("{} -", label("branch:")),
        format!("{} 4", label("messages:")),
        format!("{} /p/abc.jsonl (?)", label("file:")),
        String::new(),
    ];
    assert_eq!(print_header(&row(), None), want);
    assert_eq!(header_with(&row(), None, "", ""), want);
}

#[test]
fn full_headers() {
    let r = SessionRow {
        cwd: some("/home/me/sub"),
        git_branch: some("main"),
        slug: some("slug"),
        ai_title: some("Title"),
        last_prompt: some("do\n this  now"),
        first_seen: Some(100),
        last_seen: Some(3760),
        ..row()
    };
    assert_eq!(
        header_with(&r, Some(2048), "then", "now"),
        vec![
            format!("{} abc", label("session:")),
            format!("{} Title", label("title:")),
            format!("{} slug", label("slug:")),
            format!("{} /home/me/sub", label("cwd:")),
            format!("{} /home/me", label("project:")),
            format!("{} main", label("branch:")),
            format!("{} then  \u{2192}  now  (1h 1m)", label("range:")),
            format!("{} 4", label("messages:")),
            format!("{} /p/abc.jsonl (2 KB)", label("file:")),
            format!("{} do this now", label("last cmd:")),
            String::new(),
        ]
    );
    assert_eq!(print_header(&r, Some(2048)), header_with(&r, Some(2048), &fmt_ts(100), &fmt_ts(3760)));
}

#[test]
fn header_edges() {
    let empty = SessionRow {
        cwd: some("/home/me"),
        git_branch: some(""),
        slug: some(""),
        ai_title: some(""),
        last_prompt: some(" \n"),
        first_seen: Some(5),
        ..row()
    };
    assert_eq!(print_header(&empty, None), print_header(&row(), None));
    let last = SessionRow { last_seen: Some(9), ..row() };
    assert_eq!(print_header(&last, None)[4], format!("{} {}", label("last:"), fmt_ts(9)));
    let long = SessionRow { last_prompt: some(&"x".repeat(81)), ..row() };
    assert_eq!(
        print_header(&long, None)[6],
        format!("{} {}\u{2026}", label("last cmd:"), "x".repeat(80))
    );
    let wide = SessionRow { last_prompt: some(&"\u{e9}".repeat(81)), ..row() };
    assert_eq!(
        print_header(&wide, None)[6],
        format!("{} {}\u{2026}", label("last cmd:"), "\u{e9}".repeat(40))
    );
}

#[test]
fn lines_are_trimmed() {
    assert_eq!(event_text("  {} \n"), some("{}"));
    assert_eq!(event_text(" \n"), None);
}

#[test]
fn messages_are_gathered() {
    let text = Block {
        block_type: some("text"),
        text: some("t"),
        thinking: None,
        name: None,
        input: None,
        tool_use_id: None,
    };
    let call = Block {
        block_type: some("tool_use"),
        text: None,
        thinking: None,
        name: some("Bash"),
        input: JsonValue::parse("{\"command\":\"ls\"}"),
        tool_use_id: None,
    };
    let stamp = Some("1970-01-01T00:00:09Z");
    let events = vec![
        user("hi"),
        None,
        Some(event("assistant", Some(Content::Blocks(vec![text, call])), stamp)),
        Some(event("progress", None, stamp)),
    ];
    let found: Vec<(i64, Scope, String)> =
        items(&events).into_iter().map(|i| (i.ts, i.role, i.body)).collect();
    assert_eq!(
        found,
        vec![
            (0, Scope::User, "hi".to_string()),
            (9, Scope::Assistant, "t".to_string()),
            (9, Scope::Tool, "Bash: ls".to_string()),
        ]
    );
}

#[test]
fn messages_are_those_of_the_index() {
    let events = || vec![user("a"), None, user(" "), user("b")];
    let fi = ccfind::index::FileInfo {
        path: String::new(),
        encoded_dir: String::new(),
        file_id: String::new(),
        size: 0,
        mtime: 0,
    };
    let pf = ccfind::index::parse_file(&fi, ccfind::index::ParseModeTag::Full, &events());
    let indexed: Vec<String> = pf.rows.into_iter().map(|r| r.body).collect();
    let shown: Vec<String> = items(&events()).into_iter().map(|i| i.body).collect();
    assert_eq!(indexed, shown);
    assert_eq!(shown, strings(&["a", "b"]));
}

#[test]
fn terms_are_lowercase_words() {
    assert_eq!(terms(None), Vec::<String>::new());
    assert_eq!(terms(Some(" Foo  \u{c9}t\u{e9} ")), strings(&["foo", "\u{e9}t\u{e9}"]));
    assert_eq!(terms(Some(" ")), Vec::<String>::new());
}

#[test]
fn the_first_messages_are_shown_without_terms() {
    let many: Vec<Item> = (0..30).map(|_| item("x")).collect();
    assert_eq!(render_indices(&many, &Vec::new()), (0..20).collect::<Vec<usize>>());
    let few: Vec<Item> = (0..3).map(|_| item("x")).collect();
    assert_eq!(render_indices(&few, &Vec::new()), vec![0, 1, 2]);
    // Terms without a match show the first messages too.
    assert_eq!(render_indices(&many, &strings(&["zz"])), (0..20).collect::<Vec<usize>>());
    assert!(render_indices(&Vec::new(), &strings(&["zz"])).is_empty());
}

#[test]
fn matches_are_shown_with_context() {
    let mut its: Vec<Item> = (0..40).map(|_| item("x")).collect();
    its[10] = item("a MATCH here");
    let ts = strings(&["match"]);
    assert_eq!(render_indices(&its, &ts), vec![8, 9, 10, 11, 12, 13]);
    its[12] = item("match");
    assert_eq!(render_indices(&its, &ts), (8..16).collect::<Vec<usize>>());
    its[39] = item("match");
    let mut want: Vec<usize> = (8..16).collect();
    want.extend(37..40);
    assert_eq!(render_indices(&its, &ts), want);
    its[0] = item("other term");
    let two = strings(&["match", "term"]);
    let mut want: Vec<usize> = (0..4).collect();
    want.extend(8..16);
    want.extend(37..40);
    assert_eq!(render_indices(&its, &two), want);
}

#[test]
fn enough_messages_are_enough() {
    let all: Vec<Item> = (0..200).map(|_| item("m")).collect();
    assert_eq!(render_indices(&all, &strings(&["m"])), (0..50).collect::<Vec<usize>>());
    // Matches ten apart bring six messages each, the first only four.
    let sparse: Vec<Item> =
        (0..200).map(|i| item(if i % 10 == 0 { "m" } else { "x" })).collect();
    let idx = render_indices(&sparse, &strings(&["m"]));
    assert_eq!(idx.len(), 4 + 8 * 6);
    assert_eq!(idx[idx.len() - 1], 83);
    assert!(idx.windows(2).all(|w| w[0] < w[1]));
}

#[test]
fn matches_are_marked() {
    let ts = |v: &[&str]| strings(v);
    assert_eq!(highlight("a Foo b", &ts(&["foo"])).unwrap(), format!("a {} b", marked("Foo")));
    assert_eq!(highlight("nothing", &ts(&["foo"])).unwrap(), "nothing");
    assert_eq!(highlight("nothing", &Vec::new()).unwrap(), "nothing");
    assert_eq!(highlight("", &ts(&["foo"])).unwrap(), "");
    // Overlapping and touching matches are one.
    assert_eq!(highlight("abcd", &ts(&["ab", "bc"])).unwrap(), format!("{}d", marked("abc")));
    assert_eq!(highlight("abcd", &ts(&["ab", "cd"])).unwrap(), marked("abcd"));
    assert_eq!(highlight("aaaa", &ts(&["aa"])).unwrap(), marked("aaaa"));
    assert_eq!(highlight("aaa", &ts(&["aa"])).unwrap(), format!("{}a", marked("aa")));
    assert_eq!(highlight("x-x", &ts(&["x"])).unwrap(), format!("{}-{}", marked("x"), marked("x")));
    assert_eq!(highlight("\u{c9}t\u{e9}", &ts(&["\u{e9}t"])).unwrap(), format!("{}\u{e9}", marked("\u{c9}t")));
    assert_eq!(highlight("a b", &ts(&[""])).unwrap(), "a b");
}

#[test]
fn marks_follow_byte_offsets() {
    // The Kelvin sign takes three bytes and its lowercase form one.
    assert_eq!(highlight("\u{212a}x", &strings(&["k"])).unwrap(), format!("{}x", marked("\u{212a}")));
    assert_eq!(highlight("\u{212a}x", &strings(&["x"])).unwrap(), format!("{}x", marked("\u{212a}")));
    // A capital I with a dot takes two bytes and its lowercase form three.
    assert_eq!(highlight("\u{130}abc", &strings(&["a"])).unwrap(), format!("\u{130}a{}c", marked("b")));
    assert!(highlight("\u{130}a", &strings(&["a"])).is_none());
    assert_eq!(highlight_in("ABC", "abc", &strings(&["b"])).unwrap(), format!("A{}C", marked("B")));
    assert!(highlight_in("A", "ab", &strings(&["b"])).is_none());
}

#[test]
fn ascii_case_does_not_matter() {
    for n in 0..128u32 {
        let c = char::from_u32(n).unwrap();
        let low = c.to_ascii_lowercase().to_string();
        if !c.is_whitespace() {
            assert_eq!(terms(Some(&c.to_string())), vec![low.clone()]);
            assert_eq!(highlight(&c.to_string(), &vec![low]).unwrap(), marked(&c.to_string()));
        }
    }
    let its = vec![item("Use REDIS here"), item("use redis HERE")];
    for q in ["redis", "Redis", "REDIS"] {
        assert_eq!(render_indices(&its[..1].iter().map(|i| item(&i.body)).collect(), &terms(Some(q))), vec![0]);
        assert_eq!(render_indices(&its, &terms(Some(q))), vec![0, 1]);
    }
}

#[test]
fn marking_keeps_the_text() {
    for line in ["a Foo b foo", "\u{212a}x foo", "fofoo", "\u{e9}foo\u{e9}"] {
        let plain = highlight(line, &strings(&["foo", "o"]))
            .unwrap()
            .replace("\u{1b}[1;33m", "")
            .replace("\u{1b}[0m", "");
        assert_eq!(plain, line);
    }
}

#[test]
fn messages_are_rendered() {
    let its = vec![
        item("one\ntwo"),
        Item { ts: 5, role: Scope::Assistant, body: "x".to_string() },
        item("skipped"),
        Item { ts: 5, role: Scope::Tool, body: String::new() },
    ];
    let got = render(&its, &vec![0, 1, 3], &strings(&["?", "then", "now"]), &Vec::new()).unwrap();
    assert_eq!(
        got,
        strings(&[
            "\u{1b}[90m[?]\u{1b}[0m \u{1b}[36muser      \u{1b}[0m ",
            "  one",
            "  two",
            "",
            "\u{1b}[90m[then]\u{1b}[0m \u{1b}[32massistant \u{1b}[0m ",
            "  x",
            "",
            "\u{1b}[90m\u{2500}\u{2500}\u{2500}\u{1b}[0m",
            "\u{1b}[90m[now]\u{1b}[0m \u{1b}[35mtool      \u{1b}[0m ",
            "",
        ])
    );
    let got = render(&its, &vec![0], &strings(&["?"]), &strings(&["two"])).unwrap();
    assert_eq!(got[1], "  one");
    assert_eq!(got[2], format!("  {}", marked("two")));
    let bad = vec![item("\u{130}a")];
    assert!(render(&bad, &vec![0], &strings(&["?"]), &strings(&["a"])).is_none());
}

#[test]
fn messages_have_times() {
    let at = |ts: i64| item_stamps(&vec![Item { ts, ..item("x") }], &vec![0])[0].clone();
    assert_eq!(at(0), "?");
    assert_eq!(at(-7), "?");
    assert_eq!(at(1700000000), fmt_ts(1700000000));
    assert_eq!(at(i64::MAX), "");
}

#[test]
fn previews_show_the_matches() {
    let mut events: Vec<Option<Event>> = (0..10).map(|_| user("x")).collect();
    events[8] = user("needle");
    let got = run(&events, Some("Needle")).unwrap();
    // Two before and one behind are there, each of three lines.
    assert_eq!(got.len(), 12);
    assert_eq!(got[7], format!("  {}", marked("needle")));
    assert_eq!(run(&events, None).unwrap().len(), 30);
    assert_eq!(run(&Vec::new(), Some("x")).unwrap(), Vec::<String>::new());
    assert!(run(&vec![user("\u{130}a")], Some("a")).is_none());
}
