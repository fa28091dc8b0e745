//! Classifying the events of a session file.

use ccfind::session::{
    format_tool_use, parse_ts, seconds_or_zero, Action, Block, Content, Event, JsonMember,
    JsonValue, Message, Scope,
};

fn event(kind: &str) -> Event {
    Event {
        event_type: Some(kind.to_string()),
        uuid: None,
        session_id: None,
        timestamp: None,
        cwd: None,
        git_branch: None,
        slug: None,
        message: None,
        is_meta: false,
        is_sidechain: false,
        summary: None,
        title: None,
        text: None,
        prompt: None,
    }
}

fn with_text(kind: &str, text: &str) -> Event {
    let content = Some(Content::Text(text.to_string()));
    Event { message: Some(Message { role: None, content }), ..event(kind) }
}

fn with_blocks(kind: &str, blocks: Vec<Block>) -> Event {
    let content = Some(Content::Blocks(blocks));
    Event { message: Some(Message { role: None, content }), ..event(kind) }
}

fn block(kind: &str) -> Block {
    Block {
        block_type: Some(kind.to_string()),
        text: None,
        thinking: None,
        name: None,
        input: None,
        tool_use_id: None,
    }
}

fn text_block(text: &str) -> Block {
    Block { text: Some(text.to_string()), ..block("text") }
}

fn tool(name: &str, json: &str) -> Block {
    Block { name: Some(name.to_string()), input: JsonValue::parse(json), ..block("tool_use") }
}

fn some(s: &str) -> Option<String> {
    Some(s.to_string())
}

fn is_skip(a: Action) -> bool {
    matches!(a, Action::Skip)
}

fn is_index(a: Action, want_scope: Scope, want: &str) -> bool {
    match a {
        Action::Index { scope, body } => scope == want_scope && body == want,
        _ => false,
    }
}

#[test]
fn user_text_is_indexed() {
    assert!(is_index(with_text("user", "hello").classify(), Scope::User, "hello"));
    assert!(is_skip(with_text("user", " \n\t").classify()));
    assert!(is_skip(event("user").classify()));
    let empty = Event { message: Some(Message { role: None, content: None }), ..event("user") };
    assert!(is_skip(empty.classify()));
}

#[test]
fn slash_command_bodies_are_skipped() {
    let ev = Event { is_meta: true, ..with_text("user", "hello") };
    assert!(is_skip(ev.classify()));
    // The mark counts for user events only.
    let ev = Event { is_meta: true, ..with_text("assistant", "hello") };
    assert!(is_index(ev.classify(), Scope::Assistant, "hello"));
}

#[test]
fn tool_results_are_skipped() {
    let ev = with_blocks("user", vec![text_block("hello"), block("tool_result")]);
    assert!(is_skip(ev.classify()));
}

#[test]
fn user_blocks_are_joined() {
    let ev = with_blocks("user", vec![text_block("a"), block("image"), text_block("b")]);
    assert!(is_index(ev.classify(), Scope::User, "a\nb"));
    let ev = with_blocks("user", vec![text_block(" "), text_block("")]);
    assert!(is_skip(ev.classify()));
    // A blank block among others is kept here.
    let ev = with_blocks("user", vec![text_block(" "), text_block("b")]);
    assert!(is_index(ev.classify(), Scope::User, " \nb"));
}

#[test]
fn assistant_text_is_indexed() {
    assert!(is_index(with_text("assistant", "hi").classify(), Scope::Assistant, "hi"));
    assert!(is_skip(with_text("assistant", " ").classify()));
    assert!(is_skip(event("assistant").classify()));
    let ev = with_blocks("assistant", vec![text_block("a"), text_block("  "), text_block("b")]);
    assert!(is_index(ev.classify(), Scope::Assistant, "a\nb"));
}

#[test]
fn thinking_is_not_indexed() {
    let thought = Block { thinking: some("hmm"), text: some("hmm"), ..block("thinking") };
    assert!(is_skip(with_blocks("assistant", vec![thought]).classify()));
    let thought = Block { thinking: some("hmm"), text: some("hmm"), ..block("thinking") };
    let ev = with_blocks("assistant", vec![thought, text_block("a")]);
    assert!(is_index(ev.classify(), Scope::Assistant, "a"));
    assert!(is_skip(with_blocks("assistant", Vec::new()).classify()));
}

#[test]
fn assistant_text_comes_before_its_tool_calls() {
    let ev = with_blocks(
        "assistant",
        vec![
            tool("Bash", "{\"command\":\"ls\"}"),
            text_block("done"),
            tool("Read", "{\"file_path\":\"/a\"}"),
        ],
    );
    match ev.classify() {
        Action::IndexMany(rows) => {
            assert_eq!(
                rows,
                vec![
                    (Scope::Assistant, "done".to_string()),
                    (Scope::Tool, "Bash: ls".to_string()),
                    (Scope::Tool, "Read: /a".to_string()),
                ]
            );
        }
        other => panic!("{:?}", other),
    }
}

#[test]
fn one_tool_call_is_one_row() {
    let ev = with_blocks("assistant", vec![tool("Grep", "{\"pattern\":\"x+\"}")]);
    assert!(is_index(ev.classify(), Scope::Tool, "Grep: x+"));
}

#[test]
fn titles_and_prompts() {
    let title = |e: Event| match e.classify() {
        Action::SetTitle(t) => Some(t),
        Action::Skip => None,
        other => panic!("{:?}", other),
    };
    assert_eq!(title(Event { summary: some("s"), ..event("summary") }), some("s"));
    assert_eq!(title(Event { title: some("t"), ..event("summary") }), None);
    for kind in ["custom-title", "ai-title"] {
        let all = Event { title: some("t"), text: some("x"), summary: some("s"), ..event(kind) };
        assert_eq!(title(all), some("t"));
        assert_eq!(title(Event { text: some("x"), summary: some("s"), ..event(kind) }), some("x"));
        assert_eq!(title(Event { summary: some("s"), ..event(kind) }), some("s"));
        assert_eq!(title(event(kind)), None);
    }
    let prompt = |e: Event| match e.classify() {
        Action::SetLastPrompt(p) => Some(p),
        Action::Skip => None,
        other => panic!("{:?}", other),
    };
    let both = Event { prompt: some("p"), text: some("x"), ..event("last-prompt") };
    assert_eq!(prompt(both), some("p"));
    assert_eq!(prompt(Event { text: some("x"), ..event("last-prompt") }), some("x"));
    assert_eq!(prompt(event("last-prompt")), None);
}

#[test]
fn system_texts_are_the_assistants() {
    let ev = Event { text: some("note"), summary: some("s"), ..event("system") };
    assert!(is_index(ev.classify(), Scope::Assistant, "note"));
    let ev = Event { summary: some("s"), ..event("system") };
    assert!(is_index(ev.classify(), Scope::Assistant, "s"));
    // A blank text does not give way to the summary.
    assert!(is_skip(Event { text: some(" "), summary: some("s"), ..event("system") }.classify()));
    assert!(is_skip(event("system").classify()));
}

#[test]
fn other_events_are_noise() {
    assert!(is_skip(with_text("progress", "x").classify()));
    assert!(is_skip(Event { event_type: None, ..with_text("user", "x") }.classify()));
    assert!(is_skip(with_text("User", "x").classify()));
}

#[test]
fn long_bodies_are_cut() {
    let long = "x".repeat(70000);
    match with_text("user", &long).classify() {
        Action::Index { body, .. } => {
            assert_eq!(body.len(), 65536 + 3);
            assert!(body.ends_with('\u{2026}'));
        }
        other => panic!("{:?}", other),
    }
    let fits = "x".repeat(65536);
    assert!(is_index(with_text("user", &fits).classify(), Scope::User, &fits));
}

#[test]
fn scopes_have_names() {
    assert_eq!(Scope::User.as_str(), "user");
    assert_eq!(Scope::Assistant.as_str(), "assistant");
    assert_eq!(Scope::Tool.as_str(), "tool");
}

#[test]
fn tool_calls_show_their_best_argument() {
    let cases = [
        ("Bash", "{\"command\":\"ls -l\"}", "Bash: ls -l"),
        ("Read", "{\"file_path\":\"/a\"}", "Read: /a"),
        ("MultiEdit", "{\"file_path\":\"/a\"}", "MultiEdit: /a"),
        ("NotebookEdit", "{\"file_path\":\"/a\"}", "NotebookEdit: /a"),
        ("Glob", "{\"pattern\":\"*.rs\"}", "Glob: *.rs"),
        ("Grep", "{\"pattern\":\"fn\"}", "Grep: fn"),
        ("Task", "{\"description\":\"d\",\"subagent_type\":\"s\"}", "Task: d (s)"),
        ("Agent", "{}", "Agent:  ()"),
        ("WebFetch", "{\"url\":\"u\",\"query\":\"q\"}", "WebFetch: u"),
        ("WebSearch", "{\"query\":\"q\"}", "WebSearch: q"),
        ("Edit", "{\"file_path\":\"/a\",\"new_string\":\"n\"}", "Edit: /a n"),
        ("Write", "{\"file_path\":\"/a\",\"content\":\"c\"}", "Write: /a c"),
        ("Write", "{\"file_path\":\"/a\",\"new_string\":1,\"content\":\"c\"}", "Write: /a"),
        ("Edit", "{\"file_path\":\"/a\"}", "Edit: /a"),
        ("Other", "{ \"b\" : [1, 2],  \"a\" : null }", "Other: {\"a\":null,\"b\":[1,2]}"),
        ("Bash", "{\"command\": 5}", "Bash: {\"command\":5}"),
        ("Bash", "[1, 2]", "Bash: [1,2]"),
    ];
    for (name, json, want) in cases {
        assert_eq!(format_tool_use(&tool(name, json)), want);
    }
}

#[test]
fn tool_calls_without_arguments_or_names() {
    assert_eq!(format_tool_use(&block("tool_use")), "Tool:");
    let named = Block { name: some("Bash"), ..block("tool_use") };
    assert_eq!(format_tool_use(&named), "Bash:");
}

#[test]
fn long_arguments_are_cut() {
    let json = format!("{{\"x\":\"{}\"}}", "y".repeat(600));
    let row = format_tool_use(&tool("Other", &json));
    assert_eq!(row.len(), "Other: ".len() + 512 + 3);
    let json = format!("{{\"file_path\":\"/a\",\"content\":\"{}\"}}", "y".repeat(2000));
    let row = format_tool_use(&tool("Write", &json));
    assert_eq!(row.len(), "Write: /a ".len() + 1024 + 3);
}

#[test]
fn json_values_are_read() {
    let v = JsonValue::parse(" {\"a\": \"x\", \"b\": 2, \"a\": \"y\"} ").unwrap();
    assert_eq!(v.compact, "{\"a\":\"y\",\"b\":2}");
    assert_eq!(v.member("a"), Some(some("y")));
    assert_eq!(v.member("b"), Some(None));
    assert_eq!(v.member("c"), None);
    assert_eq!(v.string("a"), some("y"));
    assert_eq!(v.string("b"), None);
    assert_eq!(v.string("c"), None);
    assert_eq!(v.members.len(), 2);
    assert!(JsonValue::parse("{").is_none());
    assert!(JsonValue::parse("").is_none());
    let n = JsonValue::parse("\"s\\u0041\"").unwrap();
    assert!(n.members.is_empty());
    assert_eq!(n.compact, "\"sA\"");
}

#[test]
fn numbers_are_kept_to_the_last_digit() {
    for n in ["0.1", "0.30000000000000004", "1.7976931348623157e308", "5e-324", "123456.78901234567"] {
        let once = JsonValue::parse(n).unwrap().compact;
        assert_eq!(JsonValue::parse(&once).unwrap().compact, once);
        assert_eq!(once.parse::<f64>().unwrap(), n.parse::<f64>().unwrap());
    }
}

#[test]
fn members_are_found_in_order() {
    let member = |name: &str, text: &str| JsonMember { name: name.to_string(), text: some(text) };
    let v = JsonValue { members: vec![member("a", "1"), member("b", "2")], compact: String::new() };
    assert_eq!(v.string("b"), some("2"));
}

#[test]
fn time_stamps_are_read() {
    assert_eq!(parse_ts("1970-01-01T00:00:01Z"), 1);
    assert_eq!(parse_ts("2024-01-02T03:04:05.678Z"), 1704164645);
    assert_eq!(parse_ts("2024-01-02T03:04:05+01:00"), 1704161045);
    assert_eq!(parse_ts("1969-12-31T23:59:59Z"), -1);
    assert_eq!(parse_ts("yesterday"), 0);
    assert_eq!(parse_ts(""), 0);
    assert_eq!(seconds_or_zero(Some(7)), 7);
    assert_eq!(seconds_or_zero(None), 0);
}

#[test]
fn events_have_times() {
    assert_eq!(event("user").seconds(), 0);
    let ev = Event { timestamp: some("1970-01-01T00:01:00Z"), ..event("user") };
    assert_eq!(ev.seconds(), 60);
    let ev = Event { timestamp: some("soon"), ..event("user") };
    assert_eq!(ev.seconds(), 0);
}
