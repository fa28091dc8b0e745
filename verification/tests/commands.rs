//! What the command line asks for, and what the picker is told.

use ccfind::cli::{
    output, pick_scope, query_of, search_opts, upkeep, Command, Output, SearchArgs, Upkeep,
};
use ccfind::index::IndexStats;
use ccfind::picker::{fzf_args, fzf_args_for, fzf_interactive_args, fzf_interactive_args_for, fzf_message, fzf_result};
use ccfind::resume::{
    choose_dir, editor, editor_message, not_found_message, resume_candidates, resume_command,
    skipped_message, NO_DIRECTORY,
};
use ccfind::search::ScopeFlag;
use ccfind::stats::{report_lines, run};
use chrono::TimeZone;

fn some(s: &str) -> Option<String> {
    Some(s.to_string())
}

fn strings(v: &[&str]) -> Vec<String> {
    v.iter().map(|s| s.to_string()).collect()
}

#[test]
fn scopes_are_picked_by_name() {
    assert_eq!(pick_scope(Some("user"), true, true), (ScopeFlag::User, None));
    assert_eq!(pick_scope(Some("assistant"), false, false), (ScopeFlag::Assistant, None));
    assert_eq!(pick_scope(Some("tools"), false, false), (ScopeFlag::Tools, None));
    assert_eq!(pick_scope(Some("tool"), false, false), (ScopeFlag::Tools, None));
    assert_eq!(pick_scope(Some("all"), false, false), (ScopeFlag::All, None));
    assert_eq!(
        pick_scope(Some("All"), true, false),
        (ScopeFlag::User, some("ccfind: unknown scope 'All', defaulting to user"))
    );
}

#[test]
fn scopes_are_picked_by_switches() {
    assert_eq!(pick_scope(None, false, false).0, ScopeFlag::User);
    assert_eq!(pick_scope(None, true, false).0, ScopeFlag::Assistant);
    assert_eq!(pick_scope(None, false, true).0, ScopeFlag::Tools);
    assert_eq!(pick_scope(None, true, true), (ScopeFlag::All, None));
}

#[test]
fn terms_form_a_query() {
    assert_eq!(query_of(&Vec::new()), None);
    assert_eq!(query_of(&strings(&["a", "b c"])), some("a b c"));
    assert_eq!(query_of(&strings(&[""])), some(""));
}

#[test]
fn options_are_carried_over() {
    let args = SearchArgs {
        terms: strings(&["TODO"]),
        scope: some("odd"),
        assistant: false,
        tools: false,
        project: some("p"),
        branch: some("main"),
        cwd: some("*"),
        limit: 9,
    };
    let (opts, warning) = search_opts(&args, Some(4));
    assert_eq!(opts.query, some("TODO"));
    assert_eq!(opts.scope, Some(ScopeFlag::User));
    assert_eq!((opts.project, opts.branch, opts.cwd_glob), (some("p"), some("main"), some("*")));
    assert_eq!((opts.since, opts.limit), (Some(4), 9));
    assert_eq!(warning, some("ccfind: unknown scope 'odd', defaulting to user"));
}

#[test]
fn the_index_is_kept_up() {
    for had in [true, false] {
        assert_eq!(upkeep(Command::Reindex { full: true }, had), Upkeep::Rebuild);
        assert_eq!(upkeep(Command::Reindex { full: false }, had), Upkeep::Refresh);
    }
    for command in [Command::Resume, Command::Edit, Command::Stats, Command::Search] {
        assert_eq!(upkeep(command, true), Upkeep::TryRefresh);
        assert_eq!(upkeep(command, false), Upkeep::FirstBuild);
    }
    assert_eq!(upkeep(Command::Preview, true), Upkeep::Leave);
    assert_eq!(upkeep(Command::Preview, false), Upkeep::FirstBuild);
}

#[test]
fn hits_go_where_they_are_asked() {
    assert_eq!(output(0, true), Output::NoResults);
    assert_eq!(output(0, false), Output::NoResults);
    assert_eq!(output(2, true), Output::Lines);
    assert_eq!(output(2, false), Output::Picker);
}

#[test]
fn picker_arguments() {
    let args = fzf_args("/usr/bin/ccfind", Some("red is"));
    assert_eq!(
        args,
        strings(&[
            "--ansi",
            "--delimiter",
            "\t",
            "--with-nth",
            "1..4",
            "--nth",
            "1..4",
            "--preview",
            "/usr/bin/ccfind preview {5} --match 'red is'",
            "--preview-window",
            "right:60%:wrap",
            "--height",
            "90%",
            "--reverse",
            "--bind",
            "enter:become(/usr/bin/ccfind resume {5})",
            "--bind",
            "ctrl-o:become(echo {5})",
            "--bind",
            "ctrl-e:execute(/usr/bin/ccfind edit {5})",
            "--header",
            "enter=resume  ctrl-o=print id  ctrl-e=edit jsonl",
        ])
    );
}

#[test]
fn picker_commands_are_quoted() {
    let args = fzf_args("/my dir/ccfind", None);
    assert_eq!(args[8], "'/my dir/ccfind' preview {5}");
    assert_eq!(args[15], "enter:become('/my dir/ccfind' resume {5})");
    assert_eq!(fzf_args("/c", Some(""))[8], "/c preview {5}");
    let q = "it's; $HOME";
    let quoted = shlex::try_quote(q).unwrap().into_owned();
    assert_eq!(fzf_args("/c", Some(q))[8], format!("/c preview {{5}} --match {}", quoted));
    assert_eq!(shlex::split(&quoted).unwrap(), [q]);
    assert_eq!(fzf_args_for("exe", None)[19], "ctrl-e:execute(exe edit {5})");
}

#[test]
fn plain_words_are_not_quoted() {
    for n in 1..128u32 {
        let c = char::from_u32(n).unwrap();
        let plain = c.is_ascii_alphanumeric() || "+-./:@]_".contains(c);
        if plain {
            let word = format!("a{}", c);
            assert_eq!(fzf_args(&word, None)[8], format!("{} preview {{5}}", word));
            assert_eq!(fzf_args(&c.to_string(), None)[8], format!("{} preview {{5}}", c));
        }
    }
}

#[test]
fn live_picker_arguments() {
    let args = fzf_interactive_args("/my dir/x");
    assert_eq!(args, fzf_interactive_args_for("'/my dir/x'"));
    assert_eq!(
        fzf_interactive_args_for("x"),
        strings(&[
            "--ansi",
            "--disabled",
            "--delimiter",
            "\t",
            "--with-nth",
            "1..4",
            "--query",
            "",
            "--bind",
            "change:reload:x --no-fzf -- {q}",
            "--preview",
            "x preview {5} --match {q}",
            "--preview-window",
            "right:60%:wrap",
            "--height",
            "90%",
            "--reverse",
            "--bind",
            "enter:become(x resume {5})",
            "--bind",
            "ctrl-o:become(echo {5})",
            "--bind",
            "ctrl-e:execute(x edit {5})",
            "--header",
            "type to search content & metadata  |  enter=resume  ctrl-o=print id  ctrl-e=edit jsonl",
        ])
    );
}

#[test]
fn picker_ends() {
    assert_eq!(fzf_result(None), Ok(()));
    assert_eq!(fzf_result(Some(0)), Ok(()));
    assert_eq!(fzf_result(Some(130)), Ok(()));
    assert_eq!(fzf_result(Some(1)), Err(1));
    assert_eq!(fzf_result(Some(2)), Err(2));
    assert_eq!(fzf_message(2), "fzf exited with code 2");
}

#[test]
fn sessions_are_resumed_in_the_best_directory() {
    let dirs = resume_candidates(&some("/cwd"), "/project", &some("/home"));
    assert_eq!(dirs, strings(&["/cwd", "/project", "/home"]));
    assert_eq!(resume_candidates(&None, "/project", &None), strings(&["/project"]));
    let c = choose_dir(&dirs, &vec![true, true, true]);
    assert_eq!((c.skipped, c.target), (Vec::new(), some("/cwd")));
    let c = choose_dir(&dirs, &vec![false, true, false]);
    assert_eq!((c.skipped, c.target), (strings(&["/cwd"]), some("/project")));
    let c = choose_dir(&dirs, &vec![false, false, false]);
    assert_eq!((c.skipped, c.target), (dirs, None));
}

#[test]
fn messages_to_the_user() {
    assert_eq!(skipped_message("/x"), "ccfind: cwd unavailable: /x");
    assert_eq!(not_found_message("abc", true), "session not found: abc (try `ccfind reindex`)");
    assert_eq!(not_found_message("abc", false), "session not found: abc");
    assert_eq!(resume_command("agent", "abc"), strings(&["agent", "--resume", "abc"]));
    assert_eq!(NO_DIRECTORY, "no usable cwd found");
    assert_eq!(editor(None), "vi");
    assert_eq!(editor(some("emacs")), "emacs");
    assert_eq!(editor_message("vi"), "vi exited non-zero");
}

#[test]
fn the_size_of_the_index_is_reported() {
    let s = IndexStats {
        sessions: 12,
        projects: 3,
        messages: 456,
        db_bytes: 1572864,
        last_refresh: None,
        schema_version: 1,
    };
    let want = strings(&[
        "schema_version : 1",
        "projects       : 3",
        "sessions       : 12",
        "messages       : 456",
        "index size     : 1.5 MB",
        "last refresh   : never",
    ]);
    assert_eq!(run(&s), want);
    assert_eq!(report_lines(&s, "never"), want);
}

#[test]
fn the_last_refresh_is_reported() {
    let at = |ts: i64| {
        let s = IndexStats {
            sessions: 0,
            projects: 0,
            messages: 0,
            db_bytes: 0,
            last_refresh: Some(ts),
            schema_version: 0,
        };
        run(&s)[5].clone()
    };
    for ts in [0i64, 1700000000, -8334601228800, 8210266876799] {
        let local = chrono::Local.timestamp_opt(ts, 0).unwrap();
        assert_eq!(at(ts), format!("last refresh   : {}", local.format("%Y-%m-%d %H:%M:%S")));
    }
    assert_eq!(at(i64::MAX), "last refresh   : never");
    assert_eq!(at(-8334601228801), "last refresh   : never");
}
