//! Deciding what to index, reading a file and writing it.

use ccfind::index::{
    decide_mode, event_text, init_schema, known_files, last_refresh, parse_file, plan_refresh,
    plan_write, refresh_due, refresh_text, schema_message, schema_version, schema_version_text,
    session_file, FileInfo, ParseMode, ParseModeTag, ParsedFile, SchemaCheck, SessionRecord,
    DROP_SQL, SCHEMA_SQL, SCHEMA_VERSION,
};
use ccfind::paths::{
    base_name, cache_dir, decode_project_dir, file_id_from_path, index_db_path, projects_dir,
    pick_agent, split_name, PathError,
};
use ccfind::search::{search, search_sql, Hit, ScopeFlag, SearchOpts, SqlParam};
use ccfind::session::{Content, Event, Message, Scope};

fn some(s: &str) -> Option<String> {
    Some(s.to_string())
}

fn user(text: &str, stamp: &str) -> Event {
    Event {
        event_type: some("user"),
        uuid: some("u1"),
        session_id: some("s1"),
        timestamp: some(stamp),
        cwd: None,
        git_branch: None,
        slug: None,
        message: Some(Message { role: None, content: Some(Content::Text(text.to_string())) }),
        is_meta: false,
        is_sidechain: false,
        summary: None,
        title: None,
        text: None,
        prompt: None,
    }
}

fn titled(title: &str) -> Event {
    Event {
        event_type: some("summary"),
        summary: some(title),
        message: None,
        timestamp: None,
        ..user("", "")
    }
}

fn file() -> FileInfo {
    FileInfo {
        path: "/p/-home-me/abc.jsonl".to_string(),
        encoded_dir: "-home-me".to_string(),
        file_id: "abc".to_string(),
        size: 100,
        mtime: 50,
    }
}

fn record(pf: &ParsedFile) -> SessionRecord {
    plan_write(&None, pf).record
}

#[test]
fn tables_are_checked() {
    assert_eq!(init_schema(None), SchemaCheck::Create);
    assert_eq!(init_schema(Some("1")), SchemaCheck::Current);
    assert_eq!(init_schema(Some("2")), SchemaCheck::Mismatch(2));
    assert_eq!(init_schema(Some("x")), SchemaCheck::Mismatch(0));
    assert_eq!(init_schema(Some(&schema_version_text())), SchemaCheck::Current);
    assert_eq!(schema_version(Some("7")), 7);
    assert_eq!(schema_version(Some("")), 0);
    assert_eq!(schema_version(None), 0);
    assert_eq!(SCHEMA_VERSION, 1);
    assert_eq!(
        schema_message(-3, "/x/index.db"),
        "index schema_version=-3 but binary expects 1. Delete /x/index.db and re-run."
    );
}

#[test]
fn tokens_keep_their_punctuation() {
    assert!(SCHEMA_SQL
        .contains("tokenize=\"unicode61 remove_diacritics 2 tokenchars '-_./'\""));
}

#[test]
fn tables_can_be_created_and_searched() {
    let db = rusqlite::Connection::open_in_memory().unwrap();
    db.execute_batch(SCHEMA_SQL).unwrap();
    db.execute_batch(SCHEMA_SQL).unwrap();
    db.execute("INSERT INTO messages_fts(rowid, body) VALUES (1, 'use pr-review-toolkit now')", [])
        .unwrap();
    let count = |q: &str| -> i64 {
        db.query_row(
            "SELECT COUNT(*) FROM messages_fts WHERE messages_fts MATCH ?1",
            [ccfind::search::sanitize_query(q)],
            |r| r.get(0),
        )
        .unwrap()
    };
    assert_eq!(count("pr-review-toolkit"), 1);
    assert_eq!(count("review"), 0);
    assert_eq!(count("USE \"now"), 1);
}

fn store(db: &rusqlite::Connection, pf: &ParsedFile) {
    let r = plan_write(&None, pf).record;
    db.execute(
        "INSERT INTO sessions VALUES (?1,?2,?3,?4,?5,?6,?7,?8,?9,?10,?11,?12,?13,?14)",
        rusqlite::params_from_iter([
            r.file_id.clone().into(),
            r.jsonl_path.into(),
            r.project_dir.into(),
            r.encoded_dir.into(),
            rusqlite::types::Value::from(r.cwd),
            r.git_branch.into(),
            r.slug.into(),
            r.ai_title.into(),
            r.last_prompt.into(),
            r.first_seen.into(),
            r.last_seen.into(),
            r.jsonl_mtime.into(),
            r.jsonl_size_indexed.into(),
            r.message_count.into(),
        ]),
    )
    .unwrap();
    for m in &pf.rows {
        db.execute(
            "INSERT INTO messages (file_id, ts, scope, jsonl_line) VALUES (?1, ?2, ?3, ?4)",
            (&r.file_id, m.ts, m.scope.as_str(), m.jsonl_line),
        )
        .unwrap();
        db.execute(
            "INSERT INTO messages_fts(rowid, body) VALUES (?1, ?2)",
            (db.last_insert_rowid(), &m.body),
        )
        .unwrap();
    }
}

fn found(db: &rusqlite::Connection, opts: &SearchOpts) -> Vec<String> {
    let s = search_sql(opts).unwrap();
    let values = s.params.into_iter().map(|p| match p {
        SqlParam::Text(t) => rusqlite::types::Value::from(t),
        SqlParam::Int(n) => rusqlite::types::Value::from(n),
    });
    let mut stmt = db.prepare(&s.sql).unwrap();
    let rows: Vec<Hit> = stmt
        .query_map(rusqlite::params_from_iter(values), |r| {
            Ok(Hit {
                file_id: r.get(0)?,
                cwd: r.get::<_, Option<String>>(1)?.unwrap_or_default(),
                git_branch: r.get::<_, Option<String>>(2)?.unwrap_or_default(),
                project_dir: r.get(3)?,
                ts: r.get(4)?,
                scope: r.get(5)?,
                snippet: r.get::<_, Option<String>>(6)?.unwrap_or_default(),
            })
        })
        .unwrap()
        .map(|r| r.unwrap())
        .collect();
    let mut ids: Vec<String> = search(opts, rows).into_iter().map(|h| h.file_id).collect();
    ids.sort();
    ids
}

fn database() -> rusqlite::Connection {
    let db = rusqlite::Connection::open_in_memory().unwrap();
    db.execute_batch(SCHEMA_SQL).unwrap();
    let at = |id: &str, dir: &str, ev: Event, title: &str| {
        let fi = FileInfo {
            path: format!("/p/{}.jsonl", id),
            encoded_dir: dir.to_string(),
            file_id: id.to_string(),
            ..file()
        };
        parse_file(&fi, ParseModeTag::Full, &vec![Some(ev), Some(titled(title))])
    };
    let plain = |text: &str| user(text, "2024-01-02T03:04:05Z");
    store(&db, &at("body", "-home-me-repo_a", plain("use redis here"), "try pr-review-toolkit"));
    store(&db, &at("title", "-home-me-repoXa", plain("hello"), "Redis migration"));
    let there = Event { cwd: some("/home/me/redis/src"), ..plain("hello") };
    store(&db, &at("cwd", "-x", there, "none"));
    let branch = Event { git_branch: some("fix/redis"), ..plain("hello") };
    store(&db, &at("branch", "-y", branch, "none"));
    let branch = Event { git_branch: some("fix/redis-pool"), ..plain("hello") };
    store(&db, &at("branch2", "-z", branch, "none"));
    store(&db, &at("other", "-Home-me-repo_a", plain("rediscover"), "none"));
    db
}

#[test]
fn queries_find_messages_and_metadata() {
    let db = database();
    for scope in [ScopeFlag::User, ScopeFlag::Assistant, ScopeFlag::Tools, ScopeFlag::All] {
        let opts = |q: &str| SearchOpts {
            query: some(q),
            scope: Some(scope),
            limit: 500,
            ..SearchOpts::default()
        };
        assert_eq!(found(&db, &opts("redis")), ["body", "branch", "cwd", "title"]);
        assert!(found(&db, &opts("pool")).is_empty());
        assert!(found(&db, &opts("review")).is_empty());
        assert_eq!(found(&db, &opts("pr-review-toolkit")), ["body"]);
        assert_eq!(found(&db, &opts("redis migration")), ["title"]);
        assert_eq!(found(&db, &opts("me/redis")), ["cwd"]);
        assert_eq!(found(&db, &opts("redis-pool")), ["branch2"]);
        assert_eq!(found(&db, &opts("fix/redis-pool")), ["branch2"]);
        assert!(found(&db, &opts("nowhere")).is_empty());
    }
}

#[test]
fn filters_hold_for_metadata_too() {
    let db = database();
    let redis = || SearchOpts { query: some("redis"), ..SearchOpts::default() };
    assert_eq!(found(&db, &SearchOpts { project: some("repoX"), ..redis() }), ["title"]);
    assert_eq!(found(&db, &SearchOpts { branch: some("fix/redis"), ..redis() }), ["branch"]);
    assert_eq!(found(&db, &SearchOpts { cwd_glob: some("*/src"), ..redis() }), ["cwd"]);
    assert_eq!(found(&db, &SearchOpts { since: Some(1704164645), ..redis() }).len(), 4);
    assert!(found(&db, &SearchOpts { since: Some(1704164646), ..redis() }).is_empty());
}

#[test]
fn projects_are_filtered_by_substring() {
    let db = database();
    let ids = |p: &str| found(&db, &SearchOpts { project: some(p), ..SearchOpts::default() });
    assert_eq!(ids("repo_a"), ["body", "other"]);
    assert_eq!(ids("/home/me/repo_a"), ["body"]);
    assert_eq!(ids("repoXa"), ["title"]);
    assert!(ids("%").is_empty());
    assert_eq!(ids("").len(), 6);
}

#[test]
fn metadata_follows_the_session() {
    let db = database();
    let ids = |q: &str| found(&db, &SearchOpts { query: some(q), ..SearchOpts::default() });
    db.execute("UPDATE sessions SET ai_title = 'Postgres' WHERE file_id = 'title'", []).unwrap();
    assert_eq!(ids("postgres"), ["title"]);
    assert_eq!(ids("redis"), ["body", "branch", "cwd"]);
    db.execute("DELETE FROM messages", []).unwrap();
    db.execute("DELETE FROM sessions WHERE file_id = 'cwd'", []).unwrap();
    assert_eq!(ids("redis"), ["branch"]);
    db.execute_batch(DROP_SQL).unwrap();
    db.execute_batch(SCHEMA_SQL).unwrap();
    assert!(ids("redis").is_empty());
}

#[test]
fn rebuilding_twice_gives_the_same() {
    let lines = || vec![Some(user("one", "1970-01-01T00:01:00Z")), None, Some(titled("t"))];
    let known = known_files(vec![("abc".to_string(), 100, 50)]);
    assert_eq!(plan_refresh(&vec![file()], &known, true), vec![ParseMode::Full]);
    let a = parse_file(&file(), ParseModeTag::Full, &lines());
    let b = parse_file(&file(), ParseModeTag::Full, &lines());
    let (x, y) = (plan_write(&None, &a), plan_write(&None, &b));
    assert!(x.clear_messages && y.clear_messages);
    assert_eq!(x.record.ai_title, y.record.ai_title);
    assert_eq!(x.record.message_count, y.record.message_count);
    assert_eq!((x.record.first_seen, x.record.last_seen), (y.record.first_seen, y.record.last_seen));
    let bodies = |pf: &ParsedFile| -> Vec<(i64, String)> {
        pf.rows.iter().map(|r| (r.jsonl_line, r.body.clone())).collect()
    };
    assert_eq!(bodies(&a), bodies(&b));
}

#[test]
fn refreshes_wait_two_seconds() {
    assert!(refresh_due(100, None));
    assert!(!refresh_due(100, Some(100)));
    assert!(!refresh_due(101, Some(100)));
    assert!(refresh_due(102, Some(100)));
    assert!(!refresh_due(100, Some(200)));
    assert_eq!(last_refresh(Some(&refresh_text(1700000000))), Some(1700000000));
    assert_eq!(last_refresh(Some("soon")), None);
    assert_eq!(last_refresh(None), None);
}

#[test]
fn session_files_lie_one_directory_down() {
    let take = |depth: usize, is_file: bool, dir: Option<&str>, name: Option<&str>| {
        session_file(depth, is_file, "/p/d/abc.jsonl".to_string(), dir, name, 10, 20)
    };
    let f = take(2, true, Some("-d"), Some("abc.jsonl")).unwrap();
    assert_eq!(f.path, "/p/d/abc.jsonl");
    assert_eq!(f.encoded_dir, "-d");
    assert_eq!(f.file_id, "abc");
    assert_eq!((f.size, f.mtime), (10, 20));
    assert!(take(1, true, Some("-d"), Some("abc.jsonl")).is_none());
    assert!(take(3, true, Some("-d"), Some("abc.jsonl")).is_none());
    assert!(take(2, false, Some("-d"), Some("abc.jsonl")).is_none());
    assert!(take(2, true, None, Some("abc.jsonl")).is_none());
    assert!(take(2, true, Some("-d"), None).is_none());
    assert!(take(2, true, Some("-d"), Some("abc.json")).is_none());
    assert!(take(2, true, Some("-d"), Some(".jsonl")).is_none());
    assert!(take(2, true, Some("-d"), Some("jsonl")).is_none());
    assert_eq!(take(2, true, Some("-d"), Some("a.b.jsonl")).unwrap().file_id, "a.b");
}

#[test]
fn files_are_read_as_they_changed() {
    assert_eq!(decide_mode(10, 5, None, false), ParseMode::Full);
    assert_eq!(decide_mode(10, 5, Some((10, 5)), false), ParseMode::Skip);
    assert_eq!(decide_mode(10, 5, Some((10, 5)), true), ParseMode::Full);
    assert_eq!(decide_mode(11, 5, Some((10, 5)), false), ParseMode::AppendFrom(10));
    assert_eq!(decide_mode(11, 6, Some((10, 5)), false), ParseMode::AppendFrom(10));
    assert_eq!(decide_mode(11, 4, Some((10, 5)), false), ParseMode::Full);
    assert_eq!(decide_mode(9, 6, Some((10, 5)), false), ParseMode::Full);
    assert_eq!(decide_mode(10, 6, Some((10, 5)), false), ParseMode::Full);
    assert_eq!(decide_mode(10, 4, Some((10, 5)), false), ParseMode::Full);
}

#[test]
fn refreshes_are_planned_file_by_file() {
    let known = known_files(vec![
        ("abc".to_string(), 1, 1),
        ("abc".to_string(), 100, 50),
        ("old".to_string(), 40, 50),
        ("neg".to_string(), -1, 50),
    ]);
    let named = |id: &str| FileInfo { file_id: id.to_string(), ..file() };
    let files = vec![named("abc"), named("old"), named("new"), named("neg")];
    assert_eq!(
        plan_refresh(&files, &known, false),
        vec![ParseMode::Skip, ParseMode::AppendFrom(40), ParseMode::Full, ParseMode::Full]
    );
    assert_eq!(plan_refresh(&files, &known, true), vec![ParseMode::Full; 4]);
}

#[test]
fn lines_are_trimmed_at_their_end() {
    assert_eq!(event_text(" {} \r\n"), some(" {}"));
    assert_eq!(event_text(" \t\n"), None);
    assert_eq!(event_text(""), None);
}

#[test]
fn files_are_read() {
    let lines = vec![
        Some(Event { cwd: some("/a"), git_branch: some("main"), ..user("one", "1970-01-01T00:01:00Z") }),
        None,
        Some(Event { cwd: some(""), slug: some("slug"), ..user("two", "1970-01-01T00:00:30Z") }),
        Some(titled("first")),
        Some(titled("second")),
        Some(Event { event_type: some("last-prompt"), prompt: some("p"), ..titled("x") }),
        Some(Event { cwd: some("/b"), ..user("three", "never") }),
    ];
    let pf = parse_file(&file(), ParseModeTag::Full, &lines);
    assert_eq!(pf.file_id, "abc");
    assert_eq!(pf.jsonl_path, "/p/-home-me/abc.jsonl");
    assert_eq!(pf.encoded_dir, "-home-me");
    assert_eq!(pf.project_dir, "/home/me");
    assert_eq!((pf.size, pf.mtime), (100, 50));
    assert_eq!(pf.mode, ParseModeTag::Full);
    assert_eq!(pf.cwd, some("/b"));
    assert_eq!(pf.git_branch, some("main"));
    assert_eq!(pf.slug, some("slug"));
    assert_eq!(pf.ai_title, some("second"));
    assert_eq!(pf.last_prompt, some("p"));
    assert_eq!((pf.first_seen, pf.last_seen), (30, 60));
    let rows: Vec<(i64, i64, &str)> =
        pf.rows.iter().map(|r| (r.jsonl_line, r.ts, r.body.as_str())).collect();
    assert_eq!(rows, vec![(1, 60, "one"), (3, 30, "two"), (7, 0, "three")]);
    assert_eq!(pf.rows[0].session_id, some("s1"));
    assert_eq!(pf.rows[0].uuid, some("u1"));
    assert_eq!(pf.rows[0].scope, Scope::User);
}

#[test]
fn appended_lines_are_not_numbered() {
    let lines = vec![Some(user("one", "1970-01-01T00:01:00Z"))];
    let pf = parse_file(&file(), ParseModeTag::Append, &lines);
    assert_eq!(pf.rows[0].jsonl_line, 0);
}

#[test]
fn new_sessions_are_inserted() {
    let pf = parse_file(&file(), ParseModeTag::Full, &vec![Some(user("one", "1970-01-01T00:01:00Z"))]);
    let plan = plan_write(&None, &pf);
    assert!(plan.clear_messages);
    assert!(plan.is_new);
    let r = plan.record;
    assert_eq!(r.file_id, "abc");
    assert_eq!(r.project_dir, "/home/me");
    assert_eq!((r.first_seen, r.last_seen), (Some(60), Some(60)));
    assert_eq!((r.jsonl_size_indexed, r.jsonl_mtime, r.message_count), (100, 50, 1));
    let empty = plan_write(&None, &parse_file(&file(), ParseModeTag::Full, &Vec::new())).record;
    assert_eq!((empty.first_seen, empty.last_seen, empty.message_count), (None, None, 0));
}

#[test]
fn known_sessions_are_updated() {
    let first = vec![Some(Event {
        cwd: some("/a"),
        slug: some("s"),
        ..user("one", "1970-01-01T00:01:00Z")
    })];
    let old = record(&parse_file(&file(), ParseModeTag::Full, &first));
    let later = vec![
        Some(Event { cwd: some("/b"), ..user("two", "1970-01-01T00:00:30Z") }),
        Some(user("three", "1970-01-01T00:00:40Z")),
    ];
    let grown = FileInfo { size: 300, mtime: 70, ..file() };
    let plan = plan_write(&Some(old), &parse_file(&grown, ParseModeTag::Append, &later));
    assert!(!plan.clear_messages);
    assert!(!plan.is_new);
    let r = plan.record;
    assert_eq!((r.cwd, r.slug), (some("/b"), some("s")));
    assert_eq!((r.first_seen, r.last_seen), (Some(30), Some(60)));
    assert_eq!((r.jsonl_size_indexed, r.jsonl_mtime, r.message_count), (300, 70, 3));
}

#[test]
fn reading_again_replaces_the_count() {
    let lines = vec![Some(user("one", "1970-01-01T00:01:00Z"))];
    let old = record(&parse_file(&file(), ParseModeTag::Full, &lines));
    let pf = parse_file(&file(), ParseModeTag::Full, &Vec::new());
    let plan = plan_write(&Some(old), &pf);
    assert!(plan.clear_messages);
    assert_eq!(plan.record.message_count, 0);
    assert_eq!((plan.record.first_seen, plan.record.last_seen), (Some(60), Some(60)));
    // A session without times has a last time of 0 once it is written again.
    let none = record(&pf);
    let again = plan_write(&Some(none), &pf).record;
    assert_eq!((again.first_seen, again.last_seen), (None, Some(0)));
}

#[test]
fn written_files_are_skipped() {
    for size in [0u64, 100, u64::MAX] {
        let f = FileInfo { size, ..file() };
        let r = record(&parse_file(&f, ParseModeTag::Full, &Vec::new()));
        let known = known_files(vec![(r.file_id, r.jsonl_size_indexed, r.jsonl_mtime)]);
        assert_eq!(plan_refresh(&vec![f], &known, false), vec![ParseMode::Skip]);
    }
}

#[test]
fn appending_leaves_the_row_of_a_full_read() {
    let a = || Event { cwd: some("/a"), slug: some("s"), ..user("one", "1970-01-01T00:01:00Z") };
    let b = || Event { cwd: some("/b"), ..user("two", "1970-01-01T00:00:30Z") };
    let head = parse_file(&file(), ParseModeTag::Full, &vec![Some(a())]);
    let tail = parse_file(&file(), ParseModeTag::Append, &vec![Some(b())]);
    let whole = parse_file(&file(), ParseModeTag::Full, &vec![Some(a()), Some(b())]);
    let twice = plan_write(&Some(record(&head)), &tail).record;
    let once = record(&whole);
    assert_eq!(twice.cwd, once.cwd);
    assert_eq!(twice.slug, once.slug);
    assert_eq!((twice.first_seen, twice.last_seen), (once.first_seen, once.last_seen));
    assert_eq!(twice.message_count, once.message_count);
    let bodies = |pf: &ParsedFile| -> Vec<String> { pf.rows.iter().map(|r| r.body.clone()).collect() };
    let mut both = bodies(&head);
    both.extend(bodies(&tail));
    assert_eq!(both, bodies(&whole));
}

#[test]
fn directories_are_named() {
    assert_eq!(projects_dir(Some("/home/me"), "agent"), Ok("/home/me/.agent/projects".to_string()));
    assert_eq!(projects_dir(Some("/"), "agent"), Ok("/.agent/projects".to_string()));
    assert_eq!(projects_dir(None, "agent"), Err(PathError::NoHome));
    assert_eq!(cache_dir(Some("/home/me/.cache")), Ok("/home/me/.cache/ccfind".to_string()));
    assert_eq!(cache_dir(None), Err(PathError::NoCache));
    assert_eq!(
        index_db_path(Some("/home/me/.cache")),
        Ok("/home/me/.cache/ccfind/index.db".to_string())
    );
    assert_eq!(index_db_path(None), Err(PathError::NoCache));
    assert_eq!(PathError::NoHome.message(), "no $HOME");
    assert_eq!(
        PathError::ManyAgents.message(),
        "sessions of several programs, name one in CCFIND_AGENT"
    );
    assert_eq!(PathError::NoCache.message(), "no cache dir");
}

#[test]
fn the_recording_program_is_picked() {
    let dirs = |v: &[&str]| -> Vec<String> { v.iter().map(|s| s.to_string()).collect() };
    assert_eq!(pick_agent(None, &dirs(&["work", ".agent"])), Ok(some("agent")));
    assert_eq!(pick_agent(None, &dirs(&["work", "."])), Ok(None));
    assert_eq!(pick_agent(None, &dirs(&[".a", ".b"])), Err(PathError::ManyAgents));
    assert_eq!(pick_agent(some("x"), &dirs(&[".a", ".b"])), Ok(some("x")));
}

#[test]
fn directory_names_are_those_of_std() {
    for home in ["", "/", "/home/me", "/home/me/", "rel"] {
        let expected = std::path::Path::new(home).join(".agent").join("projects");
        assert_eq!(projects_dir(Some(home), "agent").unwrap(), expected.to_str().unwrap());
    }
}

#[test]
fn project_directories_are_decoded() {
    assert_eq!(decode_project_dir("-home-user-projects-foo"), "/home/user/projects/foo");
    assert_eq!(decode_project_dir("home"), "/home");
    assert_eq!(decode_project_dir(""), "/");
    assert_eq!(decode_project_dir("-"), "/");
    assert_eq!(decode_project_dir("--x"), "//x");
    let path = "/home/me/repo_a.b";
    assert_eq!(decode_project_dir(&path.replace('/', "-")), path);
}

#[test]
fn file_ids_are_those_of_std() {
    for p in [
        "", "/", ".", "..", "a", "a.jsonl", "/x/a.jsonl", "/x/a.b.jsonl", "/x/.jsonl", "x/a.jsonl/",
        "x/a.jsonl/.", "x/a.jsonl//.//", "x/..", "/.", "./", "a/./b.c", "..a", "a.", "...", ".a.b",
        "./.", "x/../y",
    ] {
        let std = std::path::Path::new(p);
        let name = std.file_name().map(|s| s.to_str().unwrap().to_string());
        let id = std.file_stem().map(|s| s.to_str().unwrap().to_string());
        assert_eq!(base_name(p), name, "{:?}", p);
        assert_eq!(file_id_from_path(p), id, "{:?}", p);
        if let Some(n) = name {
            let ext = std.extension().map(|s| s.to_str().unwrap().to_string());
            assert_eq!(split_name(&n), (id.unwrap(), ext));
        }
    }
    assert_eq!(file_id_from_path("/p/-d/0f-1a.jsonl"), some("0f-1a"));
}
