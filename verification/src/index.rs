//! What the index holds, when it is refreshed, and what a session file adds to
//! it.

use crate::numbers;
use crate::numbers::{parse_i32, parse_i64, signed_text};
use crate::paths;
use crate::paths::{decode_project_dir, file_id_from_path, split_name};
use crate::session;
use crate::session::{Action, Event, Scope};
use crate::text;
use crate::text::{concat, same};
use crate::words;
use vstd::hash_map::StringHashMap;
use vstd::prelude::*;

verus! {

// -------------------------------------------------------------------- schema

/// The version of the tables that this library works on.
pub const SCHEMA_VERSION: i32 = 1;

/// A refresh this soon after the last one is left out, in seconds.
pub const REFRESH_DEBOUNCE_SECS: i64 = 2;

/// The tables of the index. The tokenizer keeps `-`, `_`, `.` and `/` inside
/// tokens; only in the directory, branch and title of a session does it split
/// at `/`, so that a part of a path is found.
pub const SCHEMA_SQL: &'static str = "
CREATE TABLE IF NOT EXISTS sessions (
  file_id            TEXT PRIMARY KEY,
  jsonl_path         TEXT NOT NULL UNIQUE,
  project_dir        TEXT NOT NULL,
  encoded_dir        TEXT NOT NULL,
  cwd                TEXT,
  git_branch         TEXT,
  slug               TEXT,
  ai_title           TEXT,
  last_prompt        TEXT,
  first_seen         INTEGER,
  last_seen          INTEGER,
  jsonl_mtime        INTEGER NOT NULL,
  jsonl_size_indexed INTEGER NOT NULL DEFAULT 0,
  message_count      INTEGER NOT NULL DEFAULT 0
);
CREATE INDEX IF NOT EXISTS idx_sessions_last_seen ON sessions(last_seen DESC);
CREATE INDEX IF NOT EXISTS idx_sessions_project   ON sessions(project_dir);

CREATE TABLE IF NOT EXISTS messages (
  msg_id      INTEGER PRIMARY KEY,
  file_id     TEXT NOT NULL REFERENCES sessions(file_id) ON DELETE CASCADE,
  session_id  TEXT,
  ts          INTEGER NOT NULL,
  scope       TEXT NOT NULL,
  uuid        TEXT,
  jsonl_line  INTEGER NOT NULL
);
CREATE INDEX IF NOT EXISTS idx_messages_file ON messages(file_id);
CREATE INDEX IF NOT EXISTS idx_messages_ts   ON messages(ts DESC);

CREATE VIRTUAL TABLE IF NOT EXISTS messages_fts USING fts5(
  body,
  tokenize=\"unicode61 remove_diacritics 2 tokenchars '-_./'\"
);

CREATE TABLE IF NOT EXISTS meta (k TEXT PRIMARY KEY, v TEXT);

CREATE TRIGGER IF NOT EXISTS messages_ad AFTER DELETE ON messages BEGIN
  DELETE FROM messages_fts WHERE rowid = old.msg_id;
END;

CREATE VIRTUAL TABLE IF NOT EXISTS sessions_fts USING fts5(
  file_id UNINDEXED,
  cwd,
  git_branch,
  ai_title,
  tokenize=\"unicode61 remove_diacritics 2 tokenchars '-_.'\"
);

CREATE TRIGGER IF NOT EXISTS sessions_ai AFTER INSERT ON sessions BEGIN
  INSERT INTO sessions_fts(file_id, cwd, git_branch, ai_title)
  VALUES (new.file_id, new.cwd, new.git_branch, new.ai_title);
END;

CREATE TRIGGER IF NOT EXISTS sessions_au AFTER UPDATE ON sessions BEGIN
  DELETE FROM sessions_fts WHERE file_id = old.file_id;
  INSERT INTO sessions_fts(file_id, cwd, git_branch, ai_title)
  VALUES (new.file_id, new.cwd, new.git_branch, new.ai_title);
END;

CREATE TRIGGER IF NOT EXISTS sessions_ad AFTER DELETE ON sessions BEGIN
  DELETE FROM sessions_fts WHERE file_id = old.file_id;
END;
";

/// Takes the tables away, so that they can be made and filled anew.
pub const DROP_SQL: &'static str = "
DROP TABLE IF EXISTS sessions_fts;
DROP TABLE IF EXISTS messages_fts;
DROP TABLE IF EXISTS messages;
DROP TABLE IF EXISTS sessions;
";

/// What to do about the tables of a database that was just opened.
#[derive(Debug, Clone, Copy, PartialEq, Eq, Structural)]
pub enum SchemaCheck {
    /// There are none yet.
    Create,
    /// They are of this library's version.
    Current,
    /// They are of another version.
    Mismatch(i32),
}

/// The version that a stored text denotes; 0 if it is no number.
pub open spec fn stored_version(v: Seq<char>) -> i32 {
    match numbers::int_within(v, i32::MIN as int, i32::MAX as int) {
        Some(n) => n as i32,
        None => 0,
    }
}

/// What to do about tables whose stored version is `existing`.
pub open spec fn schema_check(existing: Option<Seq<char>>) -> SchemaCheck {
    match existing {
        None => SchemaCheck::Create,
        Some(v) => if stored_version(v) == SCHEMA_VERSION {
            SchemaCheck::Current
        } else {
            SchemaCheck::Mismatch(stored_version(v))
        },
    }
}

/// The version that a stored text denotes, or 0.
pub fn schema_version(stored: Option<&str>) -> (r: i32)
    ensures
        r == (match stored {
            Some(v) => stored_version(v@),
            None => 0,
        }),
{
    match stored {
        Some(v) => match parse_i32(v) {
            Some(n) => n,
            None => 0,
        },
        None => 0,
    }
}

/// Decides what to do about the tables of an opened database.
pub fn init_schema(existing: Option<&str>) -> (r: SchemaCheck)
    ensures
        r == schema_check(text::opt_str(existing)),
{
    match existing {
        None => SchemaCheck::Create,
        Some(_) => {
            let v = schema_version(existing);
            if v == SCHEMA_VERSION {
                SchemaCheck::Current
            } else {
                SchemaCheck::Mismatch(v)
            }
        },
    }
}

/// The text that stores this library's version.
pub fn schema_version_text() -> (r: String)
    ensures
        r@ == numbers::decimal(SCHEMA_VERSION as int),
{
    signed_text(SCHEMA_VERSION as i64)
}

/// What to tell the user about tables of another version.
pub fn schema_message(found: i32, db_path: &str) -> (r: String)
    ensures
        r@ == "index schema_version="@ + numbers::decimal(found as int) + " but binary expects "@
            + numbers::decimal(SCHEMA_VERSION as int) + ". Delete "@ + db_path@ + " and re-run."@,
{
    let mut out = concat("index schema_version=", signed_text(found as i64).as_str());
    out.append(" but binary expects ");
    out.append(schema_version_text().as_str());
    out.append(". Delete ");
    out.append(db_path);
    out.append(" and re-run.");
    out
}

/// Tables that were stored under this library's version are accepted.
pub proof fn own_schema_is_accepted()
    ensures
        schema_check(Some(numbers::decimal(SCHEMA_VERSION as int))) == SchemaCheck::Current,
{
    numbers::decimal_is_read_back(SCHEMA_VERSION as int);
}

// ------------------------------------------------------------------ debounce

/// The time of the last refresh that a stored text denotes.
pub open spec fn stored_time(v: Seq<char>) -> Option<i64> {
    match numbers::int_within(v, i64::MIN as int, i64::MAX as int) {
        Some(n) => Some(n as i64),
        None => None,
    }
}

/// Reads the stored time of the last refresh.
pub fn last_refresh(stored: Option<&str>) -> (r: Option<i64>)
    ensures
        r == (match stored {
            Some(v) => stored_time(v@),
            None => None,
        }),
{
    match stored {
        Some(v) => parse_i64(v),
        None => None,
    }
}

/// The text that stores the time of a refresh.
pub fn refresh_text(ts: i64) -> (r: String)
    ensures
        r@ == numbers::decimal(ts as int),
{
    signed_text(ts)
}

/// Whether a refresh is due at `now`, when the last was at `last`.
pub open spec fn is_due(now: i64, last: Option<i64>) -> bool {
    match last {
        Some(t) => now - t >= REFRESH_DEBOUNCE_SECS,
        None => true,
    }
}

/// Decides whether to refresh the index.
pub fn refresh_due(now: i64, last: Option<i64>) -> (r: bool)
    requires
        last matches Some(t) ==> i64::MIN <= now - t <= i64::MAX,
    ensures
        r == is_due(now, last),
{
    match last {
        Some(t) => now - t >= REFRESH_DEBOUNCE_SECS,
        None => true,
    }
}

/// The time of a refresh is read back as it was stored, and the next refresh is
/// due two seconds after it and no sooner.
pub proof fn refreshes_are_debounced(ts: i64, now: i64)
    ensures
        stored_time(numbers::decimal(ts as int)) == Some(ts),
        is_due(now, stored_time(numbers::decimal(ts as int))) <==> now >= ts + 2,
{
    numbers::decimal_is_read_back(ts as int);
}

// --------------------------------------------------------------- files on disk

/// A session file, as the directory walk found it.
pub struct FileInfo {
    pub path: String,
    pub encoded_dir: String,
    pub file_id: String,
    pub size: u64,
    pub mtime: i64,
}

/// Whether an entry of the walk is a session file: a file called `*.jsonl`,
/// one directory below the projects directory.
pub open spec fn is_session_file(
    depth: usize,
    is_file: bool,
    dir: Option<Seq<char>>,
    name: Option<Seq<char>>,
) -> bool {
    &&& depth == 2
    &&& is_file
    &&& dir is Some
    &&& name matches Some(n) && paths::extension(n) == Some("jsonl"@) && paths::file_id(n) is Some
}

/// Takes an entry of the walk, if it is a session file. `depth` counts the
/// steps from the projects directory, `dir` and `name` are the last component
/// of the entry's directory and of its path.
pub fn session_file(
    depth: usize,
    is_file: bool,
    path: String,
    dir: Option<&str>,
    name: Option<&str>,
    size: u64,
    mtime: i64,
) -> (r: Option<FileInfo>)
    ensures
        r is Some <==> is_session_file(
            depth,
            is_file,
            text::opt_str(dir),
            text::opt_str(name),
        ),
        r matches Some(f) ==> f.path == path && f.encoded_dir@ == dir->0@ && Some(f.file_id@)
            == paths::file_id(name->0@) && f.size == size && f.mtime == mtime,
{
    if depth != 2 || !is_file {
        return None;
    }
    match (dir, name) {
        (Some(d), Some(n)) => {
            let (_, ext) = split_name(n);
            match ext {
                Some(e) => if !same(e.as_str(), "jsonl") {
                    return None;
                },
                None => {
                    return None;
                },
            }
            match file_id_from_path(n) {
                Some(file_id) => Some(
                    FileInfo { path, encoded_dir: d.to_owned(), file_id, size, mtime },
                ),
                None => None,
            }
        },
        _ => None,
    }
}

/// How much of a session file is read.
#[derive(Debug, Clone, Copy, PartialEq, Eq, Structural)]
pub enum ParseMode {
    /// All of it.
    Full,
    /// What was appended behind this many bytes.
    AppendFrom(u64),
    /// Nothing: it has not changed.
    Skip,
}

/// How a file is read that was indexed at this size and time, if it was.
pub open spec fn mode_for(
    size: u64,
    mtime: i64,
    known: Option<(u64, i64)>,
    force_all: bool,
) -> ParseMode {
    match known {
        Some((size_indexed, mtime_indexed)) if !force_all => if size < size_indexed || mtime
            < mtime_indexed {
            ParseMode::Full
        } else if size > size_indexed {
            ParseMode::AppendFrom(size_indexed)
        } else if mtime > mtime_indexed {
            ParseMode::Full
        } else {
            ParseMode::Skip
        },
        _ => ParseMode::Full,
    }
}

/// Decides how a file is read.
pub fn decide_mode(size: u64, mtime: i64, known: Option<(u64, i64)>, force_all: bool) -> (r:
    ParseMode)
    ensures
        r == mode_for(size, mtime, known, force_all),
{
    if force_all {
        return ParseMode::Full;
    }
    match known {
        Some((size_indexed, mtime_indexed)) => {
            if size < size_indexed || mtime < mtime_indexed {
                ParseMode::Full
            } else if size > size_indexed {
                ParseMode::AppendFrom(size_indexed)
            } else if mtime > mtime_indexed {
                ParseMode::Full
            } else {
                ParseMode::Skip
            }
        },
        None => ParseMode::Full,
    }
}

/// A stored size as the size of a file.
pub open spec fn file_size(stored: i64) -> u64 {
    stored as u64
}

/// The size of a file as it is stored.
pub open spec fn stored_size(size: u64) -> i64 {
    size as i64
}

/// The sizes and times at which files were indexed, from the rows that store
/// them.
pub open spec fn known_map(rows: Seq<(String, i64, i64)>) -> Map<Seq<char>, (u64, i64)>
    decreases rows.len(),
{
    if rows.len() == 0 {
        Map::empty()
    } else {
        let r = rows.last();
        known_map(rows.drop_last()).insert(r.0@, (file_size(r.1), r.2))
    }
}

/// Gathers the sizes and times at which files were indexed.
pub fn known_files(rows: Vec<(String, i64, i64)>) -> (r: StringHashMap<(u64, i64)>)
    ensures
        r@ == known_map(rows@),
{
    let mut out: StringHashMap<(u64, i64)> = StringHashMap::new();
    let mut i: usize = 0;
    while i < rows.len()
        invariant
            i <= rows@.len(),
            out@ == known_map(rows@.take(i as int)),
        decreases rows@.len() - i,
    {
        proof {
            assert(rows@.take(i + 1).drop_last() =~= rows@.take(i as int));
        }
        let row = &rows[i];
        out.insert(row.0.clone(), (row.1 as u64, row.2));
        i += 1;
    }
    proof {
        assert(rows@.take(i as int) =~= rows@);
    }
    out
}

/// Decides for each file how it is read.
pub fn plan_refresh(files: &Vec<FileInfo>, known: &StringHashMap<(u64, i64)>, force_all: bool) -> (r:
    Vec<ParseMode>)
    ensures
        r@.len() == files@.len(),
        forall|i: int|
            0 <= i < r@.len() ==> #[trigger] r@[i] == mode_for(
                files@[i].size,
                files@[i].mtime,
                known@.get(files@[i].file_id@),
                force_all,
            ),
{
    let mut out: Vec<ParseMode> = Vec::new();
    let mut i: usize = 0;
    while i < files.len()
        invariant
            i <= files@.len(),
            out@.len() == i,
            forall|j: int|
                0 <= j < i ==> #[trigger] out@[j] == mode_for(
                    files@[j].size,
                    files@[j].mtime,
                    known@.get(files@[j].file_id@),
                    force_all,
                ),
        decreases files@.len() - i,
    {
        let f = &files[i];
        let state: Option<(u64, i64)> = match known.get(f.file_id.as_str()) {
            Some(s) => Some(*s),
            None => None,
        };
        out.push(decide_mode(f.size, f.mtime, state, force_all));
        i += 1;
    }
    out
}

proof fn sizes_are_stored_whole(size: u64)
    ensures
        file_size(stored_size(size)) == size,
{
    assert((size as i64) as u64 == size) by (bit_vector);
}

/// A file that is as it was when it was indexed is skipped, unless all files
/// are read.
pub proof fn unchanged_files_are_skipped(size: u64, mtime: i64)
    ensures
        mode_for(size, mtime, Some((file_size(stored_size(size)), mtime)), false)
            == ParseMode::Skip,
{
    sizes_are_stored_whole(size);
}

/// A file that has only grown is read from where it was left, and any other
/// change makes it read from the start.
pub proof fn grown_files_are_appended(size: u64, mtime: i64, old_size: u64, old_mtime: i64)
    requires
        size != old_size || mtime != old_mtime,
    ensures
        mode_for(size, mtime, Some((file_size(stored_size(old_size)), old_mtime)), false) == (if size
            > old_size && mtime >= old_mtime {
            ParseMode::AppendFrom(old_size)
        } else {
            ParseMode::Full
        }),
{
    sizes_are_stored_whole(old_size);
}

/// The text of a line that is read as an event: the line without the white
/// space at its end; `None` for a blank line.
pub fn event_text(line: &str) -> (r: Option<String>)
    ensures
        text::opt_text(r) == (if words::trimmed_end(line@).len() == 0 {
            None
        } else {
            Some(words::trimmed_end(line@))
        }),
{
    let t = words::trim_end(line);
    if t.as_str().is_empty() {
        None
    } else {
        Some(t)
    }
}

// ------------------------------------------------------------- parsing a file

/// Whether a file was read from its start.
#[derive(Debug, Clone, Copy, PartialEq, Eq, Structural)]
pub enum ParseModeTag {
    Full,
    Append,
}

/// A row of the message table, with its text.
pub struct MessageRow {
    pub session_id: Option<String>,
    pub ts: i64,
    pub scope: Scope,
    pub uuid: Option<String>,
    pub jsonl_line: i64,
    pub body: String,
}

/// What was read of a session file.
pub struct ParsedFile {
    pub file_id: String,
    pub jsonl_path: String,
    pub encoded_dir: String,
    pub project_dir: String,
    pub size: u64,
    pub mtime: i64,
    pub mode: ParseModeTag,
    pub cwd: Option<String>,
    pub git_branch: Option<String>,
    pub slug: Option<String>,
    pub ai_title: Option<String>,
    pub last_prompt: Option<String>,
    pub first_seen: i64,
    pub last_seen: i64,
    pub rows: Vec<MessageRow>,
}

/// A row of the message table as plain values.
pub struct MessageView {
    pub session_id: Option<Seq<char>>,
    pub ts: i64,
    pub scope: Scope,
    pub uuid: Option<Seq<char>>,
    pub jsonl_line: i64,
    pub body: Seq<char>,
}

/// What events tell about a session, as plain values. A time of 0 stands for
/// none.
#[verifier::ext_equal]
pub struct Facts {
    pub cwd: Option<Seq<char>>,
    pub git_branch: Option<Seq<char>>,
    pub slug: Option<Seq<char>>,
    pub ai_title: Option<Seq<char>>,
    pub last_prompt: Option<Seq<char>>,
    pub first_seen: i64,
    pub last_seen: i64,
    pub rows: Seq<MessageView>,
}

impl View for MessageRow {
    type V = MessageView;

    open spec fn view(&self) -> MessageView {
        MessageView {
            session_id: text::opt_text(self.session_id),
            ts: self.ts,
            scope: self.scope,
            uuid: text::opt_text(self.uuid),
            jsonl_line: self.jsonl_line,
            body: self.body@,
        }
    }
}

/// The contents of a list of message rows.
pub open spec fn message_views(rows: Seq<MessageRow>) -> Seq<MessageView> {
    rows.map_values(|r: MessageRow| r@)
}

impl ParsedFile {
    /// What the file's events told.
    pub open spec fn facts(&self) -> Facts {
        Facts {
            cwd: text::opt_text(self.cwd),
            git_branch: text::opt_text(self.git_branch),
            slug: text::opt_text(self.slug),
            ai_title: text::opt_text(self.ai_title),
            last_prompt: text::opt_text(self.last_prompt),
            first_seen: self.first_seen,
            last_seen: self.last_seen,
            rows: message_views(self.rows@),
        }
    }

    /// Which file was read, and how.
    pub open spec fn same_source(&self, other: &ParsedFile) -> bool {
        &&& self.file_id == other.file_id
        &&& self.jsonl_path == other.jsonl_path
        &&& self.encoded_dir == other.encoded_dir
        &&& self.project_dir == other.project_dir
        &&& self.size == other.size
        &&& self.mtime == other.mtime
        &&& self.mode == other.mode
    }
}

/// Before any event.
pub open spec fn no_facts() -> Facts {
    Facts {
        cwd: None,
        git_branch: None,
        slug: None,
        ai_title: None,
        last_prompt: None,
        first_seen: 0,
        last_seen: 0,
        rows: Seq::empty(),
    }
}

/// The last value that is not empty wins.
pub open spec fn newer(old: Option<Seq<char>>, new: Option<String>) -> Option<Seq<char>> {
    match new {
        Some(s) => if s@.len() > 0 {
            Some(s@)
        } else {
            old
        },
        None => old,
    }
}

/// The earlier of two times, where there are two.
pub open spec fn earlier(old: i64, ts: i64) -> i64 {
    if ts > 0 && (old == 0 || ts < old) {
        ts
    } else {
        old
    }
}

/// The later of two times, where there are two.
pub open spec fn later(old: i64, ts: i64) -> i64 {
    if ts > 0 && ts > old {
        ts
    } else {
        old
    }
}

/// The message rows of an event on the given line.
pub open spec fn event_rows(ev: Event, line: i64) -> Seq<MessageView> {
    session::rows_of(ev.action()).map_values(
        |r: session::RowView|
            MessageView {
                session_id: text::opt_text(ev.session_id),
                ts: ev.time(),
                scope: r.0,
                uuid: text::opt_text(ev.uuid),
                jsonl_line: line,
                body: r.1,
            },
    )
}

/// The facts with one more event, on the given line.
pub open spec fn with_event(f: Facts, ev: Event, line: i64) -> Facts {
    Facts {
        cwd: newer(f.cwd, ev.cwd),
        git_branch: newer(f.git_branch, ev.git_branch),
        slug: newer(f.slug, ev.slug),
        ai_title: match ev.action() {
            session::ActionView::SetTitle(t) => Some(t),
            _ => f.ai_title,
        },
        last_prompt: match ev.action() {
            session::ActionView::SetLastPrompt(p) => Some(p),
            _ => f.last_prompt,
        },
        first_seen: earlier(f.first_seen, ev.time()),
        last_seen: later(f.last_seen, ev.time()),
        rows: f.rows + event_rows(ev, line),
    }
}

/// The number under which the rows of the `n`-th line are stored: lines are
/// counted from 1 in a file that is read from its start, and else not at all.
pub open spec fn line_number(mode: ParseModeTag, n: int) -> i64 {
    match mode {
        ParseModeTag::Full => n as i64,
        ParseModeTag::Append => 0,
    }
}

/// What the lines of a file tell. A line without a readable event is `None`.
pub open spec fn facts_of(lines: Seq<Option<Event>>, mode: ParseModeTag) -> Facts
    decreases lines.len(),
{
    if lines.len() == 0 {
        no_facts()
    } else {
        let before = facts_of(lines.drop_last(), mode);
        match lines.last() {
            Some(ev) => with_event(before, ev, line_number(mode, lines.len() as int)),
            None => before,
        }
    }
}

fn update(field: &mut Option<String>, new: &Option<String>)
    ensures
        text::opt_text(*final(field)) == newer(text::opt_text(*old(field)), *new),
{
    if let Some(s) = new {
        if !s.as_str().is_empty() {
            *field = Some(s.clone());
        }
    }
}

impl ParsedFile {
    /// Adds an event, on the given line.
    pub fn absorb(&mut self, ev: &Event, line: i64)
        ensures
            final(self).facts() == with_event(old(self).facts(), *ev, line),
            final(self).same_source(old(self)),
    {
        let ghost before = self.facts();
        update(&mut self.cwd, &ev.cwd);
        update(&mut self.git_branch, &ev.git_branch);
        update(&mut self.slug, &ev.slug);
        let ts = ev.seconds();
        if ts > 0 {
            if self.first_seen == 0 || ts < self.first_seen {
                self.first_seen = ts;
            }
            if ts > self.last_seen {
                self.last_seen = ts;
            }
        }
        match ev.classify() {
            Action::Skip => {},
            Action::SetTitle(t) => {
                self.ai_title = Some(t);
            },
            Action::SetLastPrompt(p) => {
                self.last_prompt = Some(p);
            },
            Action::Index { scope, body } => {
                push_row(&mut self.rows, ev, ts, line, scope, body);
            },
            Action::IndexMany(rows) => {
                push_rows(&mut self.rows, ev, ts, line, rows);
            },
        }
        proof {
            assert(self.facts() =~= with_event(before, *ev, line));
        }
    }
}

fn push_row(out: &mut Vec<MessageRow>, ev: &Event, ts: i64, line: i64, scope: Scope, body: String)
    requires
        ts == ev.time(),
    ensures
        message_views(final(out)@) == message_views(old(out)@).push(
            MessageView {
                session_id: text::opt_text(ev.session_id),
                ts,
                scope,
                uuid: text::opt_text(ev.uuid),
                jsonl_line: line,
                body: body@,
            },
        ),
{
    let row = MessageRow {
        session_id: ev.session_id.clone(),
        ts,
        scope,
        uuid: ev.uuid.clone(),
        jsonl_line: line,
        body,
    };
    out.push(row);
    proof {
        assert(message_views(out@) =~= message_views(old(out)@).push(row@));
    }
}

fn push_rows(
    out: &mut Vec<MessageRow>,
    ev: &Event,
    ts: i64,
    line: i64,
    rows: Vec<(Scope, String)>,
)
    requires
        ts == ev.time(),
        ev.action() == session::ActionView::IndexMany(session::row_views(rows@)),
    ensures
        message_views(final(out)@) == message_views(old(out)@) + event_rows(*ev, line),
{
    let ghost all = event_rows(*ev, line);
    let mut i: usize = 0;
    while i < rows.len()
        invariant
            i <= rows@.len(),
            ts == ev.time(),
            ev.action() == session::ActionView::IndexMany(session::row_views(rows@)),
            all == event_rows(*ev, line),
            message_views(out@) == message_views(old(out)@) + all.take(i as int),
        decreases rows@.len() - i,
    {
        push_row(out, ev, ts, line, rows[i].0, rows[i].1.clone());
        proof {
            assert(all.take(i + 1) =~= all.take(i as int).push(all[i as int]));
            assert(message_views(out@) =~= message_views(old(out)@) + all.take(i + 1));
        }
        i += 1;
    }
    proof {
        assert(all.take(i as int) =~= all);
    }
}

/// Whether `pf` is what reading the lines of a file gives.
pub open spec fn is_read_of(
    pf: ParsedFile,
    fi: FileInfo,
    mode: ParseModeTag,
    lines: Seq<Option<Event>>,
) -> bool {
    &&& pf.file_id@ == fi.file_id@
    &&& pf.jsonl_path@ == fi.path@
    &&& pf.encoded_dir@ == fi.encoded_dir@
    &&& pf.project_dir@ == paths::decoded(fi.encoded_dir@)
    &&& pf.size == fi.size
    &&& pf.mtime == fi.mtime
    &&& pf.mode == mode
    &&& pf.facts() == facts_of(lines, mode)
}

/// Reads a session file, given the events of the lines that were read of it; a
/// line without a readable event is `None`.
pub fn parse_file(fi: &FileInfo, mode: ParseModeTag, lines: &Vec<Option<Event>>) -> (r: ParsedFile)
    requires
        lines@.len() <= i64::MAX,
    ensures
        is_read_of(r, *fi, mode, lines@),
{
    let mut pf = ParsedFile {
        file_id: fi.file_id.clone(),
        jsonl_path: fi.path.clone(),
        encoded_dir: fi.encoded_dir.clone(),
        project_dir: decode_project_dir(fi.encoded_dir.as_str()),
        size: fi.size,
        mtime: fi.mtime,
        mode,
        cwd: None,
        git_branch: None,
        slug: None,
        ai_title: None,
        last_prompt: None,
        first_seen: 0,
        last_seen: 0,
        rows: Vec::new(),
    };
    let ghost start = pf;
    let mut i: usize = 0;
    proof {
        assert(pf.facts() =~= no_facts());
    }
    while i < lines.len()
        invariant
            i <= lines@.len() <= i64::MAX,
            pf.same_source(&start),
            start.mode == mode,
            pf.facts() == facts_of(lines@.take(i as int), mode),
        decreases lines@.len() - i,
    {
        proof {
            assert(lines@.take(i + 1).drop_last() =~= lines@.take(i as int));
            assert(lines@.take(i + 1).last() == lines@[i as int]);
        }
        let line: i64 = match mode {
            ParseModeTag::Full => (i + 1) as i64,
            ParseModeTag::Append => 0,
        };
        if let Some(ev) = &lines[i] {
            pf.absorb(ev, line);
        }
        i += 1;
    }
    proof {
        assert(lines@.take(i as int) =~= lines@);
    }
    pf
}

// ------------------------------------------------------------ writing a file

/// A row of the session table.
pub struct SessionRecord {
    pub file_id: String,
    pub jsonl_path: String,
    pub project_dir: String,
    pub encoded_dir: String,
    pub cwd: Option<String>,
    pub git_branch: Option<String>,
    pub slug: Option<String>,
    pub ai_title: Option<String>,
    pub last_prompt: Option<String>,
    pub first_seen: Option<i64>,
    pub last_seen: Option<i64>,
    pub jsonl_mtime: i64,
    pub jsonl_size_indexed: i64,
    pub message_count: i64,
}

/// A row of the session table as plain values.
pub struct RecordView {
    pub file_id: Seq<char>,
    pub jsonl_path: Seq<char>,
    pub project_dir: Seq<char>,
    pub encoded_dir: Seq<char>,
    pub cwd: Option<Seq<char>>,
    pub git_branch: Option<Seq<char>>,
    pub slug: Option<Seq<char>>,
    pub ai_title: Option<Seq<char>>,
    pub last_prompt: Option<Seq<char>>,
    pub first_seen: Option<i64>,
    pub last_seen: Option<i64>,
    pub jsonl_mtime: i64,
    pub jsonl_size_indexed: i64,
    pub message_count: int,
}

impl View for SessionRecord {
    type V = RecordView;

    open spec fn view(&self) -> RecordView {
        RecordView {
            file_id: self.file_id@,
            jsonl_path: self.jsonl_path@,
            project_dir: self.project_dir@,
            encoded_dir: self.encoded_dir@,
            cwd: text::opt_text(self.cwd),
            git_branch: text::opt_text(self.git_branch),
            slug: text::opt_text(self.slug),
            ai_title: text::opt_text(self.ai_title),
            last_prompt: text::opt_text(self.last_prompt),
            first_seen: self.first_seen,
            last_seen: self.last_seen,
            jsonl_mtime: self.jsonl_mtime,
            jsonl_size_indexed: self.jsonl_size_indexed,
            message_count: self.message_count as int,
        }
    }
}

/// `a` if there is one, else `b`.
pub open spec fn or_else<T>(a: Option<T>, b: Option<T>) -> Option<T> {
    match a {
        Some(_) => a,
        None => b,
    }
}

/// A time, where 0 stands for none.
pub open spec fn opt_time(ts: i64) -> Option<i64> {
    if ts == 0 {
        None
    } else {
        Some(ts)
    }
}

/// The earlier of two times, where there are two.
pub open spec fn earliest(a: Option<i64>, b: Option<i64>) -> Option<i64> {
    match (a, b) {
        (Some(x), Some(y)) => Some(
            if x <= y {
                x
            } else {
                y
            },
        ),
        (Some(x), None) => Some(x),
        (None, y) => y,
    }
}

/// The later of two times; 0 stands in for none.
pub open spec fn latest(a: Option<i64>, b: Option<i64>) -> i64 {
    let x = a.unwrap_or(0);
    let y = b.unwrap_or(0);
    if x >= y {
        x
    } else {
        y
    }
}

/// How many rows a file has when `old` of them are stored already.
pub open spec fn new_count(mode: ParseModeTag, old: int, rows: int) -> int {
    match mode {
        ParseModeTag::Full => rows,
        ParseModeTag::Append => old + rows,
    }
}

/// The session's row after a file was read, when its row was `old` before.
/// What the file did not tell stays as it was.
pub open spec fn merged(old: Option<RecordView>, pf: ParsedFile) -> RecordView {
    let f = pf.facts();
    let first = opt_time(f.first_seen);
    let last = opt_time(f.last_seen);
    RecordView {
        file_id: pf.file_id@,
        jsonl_path: pf.jsonl_path@,
        project_dir: pf.project_dir@,
        encoded_dir: pf.encoded_dir@,
        cwd: match old {
            Some(o) => or_else(f.cwd, o.cwd),
            None => f.cwd,
        },
        git_branch: match old {
            Some(o) => or_else(f.git_branch, o.git_branch),
            None => f.git_branch,
        },
        slug: match old {
            Some(o) => or_else(f.slug, o.slug),
            None => f.slug,
        },
        ai_title: match old {
            Some(o) => or_else(f.ai_title, o.ai_title),
            None => f.ai_title,
        },
        last_prompt: match old {
            Some(o) => or_else(f.last_prompt, o.last_prompt),
            None => f.last_prompt,
        },
        first_seen: match old {
            Some(o) => earliest(o.first_seen, first),
            None => first,
        },
        last_seen: match old {
            Some(o) => Some(latest(o.last_seen, last)),
            None => last,
        },
        jsonl_mtime: pf.mtime,
        jsonl_size_indexed: stored_size(pf.size),
        message_count: match old {
            Some(o) => new_count(pf.mode, o.message_count, f.rows.len() as int),
            None => f.rows.len() as int,
        },
    }
}

/// How a file that was read is written: whether its old messages are deleted
/// first, and its session's row, which is inserted if it is new and else
/// updated. The file's message rows follow.
pub struct WritePlan {
    pub clear_messages: bool,
    pub is_new: bool,
    pub record: SessionRecord,
}

fn either(a: &Option<String>, b: &Option<String>) -> (r: Option<String>)
    ensures
        text::opt_text(r) == or_else(text::opt_text(*a), text::opt_text(*b)),
{
    match a {
        Some(s) => Some(s.clone()),
        None => b.clone(),
    }
}

fn time_or_none(ts: i64) -> (r: Option<i64>)
    ensures
        r == opt_time(ts),
{
    if ts == 0 {
        None
    } else {
        Some(ts)
    }
}

/// Plans how a file that was read is written over the session's row.
pub fn plan_write(old: &Option<SessionRecord>, pf: &ParsedFile) -> (r: WritePlan)
    requires
        pf.rows@.len() <= i64::MAX,
        old matches Some(o) ==> i64::MIN <= new_count(
            pf.mode,
            o.message_count as int,
            pf.rows@.len() as int,
        ) <= i64::MAX,
    ensures
        r.clear_messages == (pf.mode == ParseModeTag::Full),
        r.is_new == (*old is None),
        r.record@ == merged(
            match *old {
                Some(o) => Some(o@),
                None => None,
            },
            *pf,
        ),
{
    let rows = pf.rows.len() as i64;
    let first = time_or_none(pf.first_seen);
    let last = time_or_none(pf.last_seen);
    let clear_messages = match pf.mode {
        ParseModeTag::Full => true,
        ParseModeTag::Append => false,
    };
    let record = match old {
        None => SessionRecord {
            file_id: pf.file_id.clone(),
            jsonl_path: pf.jsonl_path.clone(),
            project_dir: pf.project_dir.clone(),
            encoded_dir: pf.encoded_dir.clone(),
            cwd: pf.cwd.clone(),
            git_branch: pf.git_branch.clone(),
            slug: pf.slug.clone(),
            ai_title: pf.ai_title.clone(),
            last_prompt: pf.last_prompt.clone(),
            first_seen: first,
            last_seen: last,
            jsonl_mtime: pf.mtime,
            jsonl_size_indexed: pf.size as i64,
            message_count: rows,
        },
        Some(o) => SessionRecord {
            file_id: pf.file_id.clone(),
            jsonl_path: pf.jsonl_path.clone(),
            project_dir: pf.project_dir.clone(),
            encoded_dir: pf.encoded_dir.clone(),
            cwd: either(&pf.cwd, &o.cwd),
            git_branch: either(&pf.git_branch, &o.git_branch),
            slug: either(&pf.slug, &o.slug),
            ai_title: either(&pf.ai_title, &o.ai_title),
            last_prompt: either(&pf.last_prompt, &o.last_prompt),
            first_seen: match (o.first_seen, first) {
                (Some(x), Some(y)) => Some(
                    if x <= y {
                        x
                    } else {
                        y
                    },
                ),
                (Some(x), None) => Some(x),
                (None, y) => y,
            },
            last_seen: {
                let x = o.last_seen.unwrap_or(0);
                let y = last.unwrap_or(0);
                Some(
                    if x >= y {
                        x
                    } else {
                        y
                    },
                )
            },
            jsonl_mtime: pf.mtime,
            jsonl_size_indexed: pf.size as i64,
            message_count: if clear_messages {
                rows
            } else {
                o.message_count + rows
            },
        },
    };
    WritePlan { clear_messages, is_new: old.is_none(), record }
}

/// The messages that are stored for a file after it was written, when `stored`
/// were before.
pub open spec fn stored_after(stored: Seq<MessageView>, pf: ParsedFile) -> Seq<MessageView> {
    match pf.mode {
        ParseModeTag::Full => pf.facts().rows,
        ParseModeTag::Append => stored + pf.facts().rows,
    }
}

/// A session's row counts the messages that are stored for it.
pub open spec fn counts(old: Option<RecordView>, stored: Seq<MessageView>) -> bool {
    match old {
        Some(o) => o.message_count == stored.len(),
        None => stored.len() == 0,
    }
}

/// Every write keeps the count of a session's messages right.
pub proof fn message_count_is_kept(
    old: Option<RecordView>,
    stored: Seq<MessageView>,
    pf: ParsedFile,
)
    requires
        counts(old, stored),
    ensures
        counts(Some(merged(old, pf)), stored_after(stored, pf)),
{
}

/// A file that was written is skipped until its size or its time changes.
pub proof fn written_files_are_skipped(old: Option<RecordView>, pf: ParsedFile)
    ensures
        mode_for(
            pf.size,
            pf.mtime,
            Some(
                (
                    file_size(merged(old, pf).jsonl_size_indexed),
                    merged(old, pf).jsonl_mtime,
                ),
            ),
            false,
        ) == ParseMode::Skip,
{
    unchanged_files_are_skipped(pf.size, pf.mtime);
}

/// Reading a file from its start forgets what was stored of its messages.
pub proof fn full_reads_replace_messages(
    stored: Seq<MessageView>,
    other: Seq<MessageView>,
    pf: ParsedFile,
)
    requires
        pf.mode == ParseModeTag::Full,
    ensures
        stored_after(stored, pf) == stored_after(other, pf),
        stored_after(stored, pf) == pf.facts().rows,
{
}

// ---------------------------------------------------- appending and rereading

/// The rows without their line numbers.
pub open spec fn unnumbered(rows: Seq<MessageView>) -> Seq<MessageView> {
    rows.map_values(|r: MessageView| MessageView { jsonl_line: 0, ..r })
}

/// The facts of a file whose first lines told `a` and whose further lines told
/// `b`, but for the numbers of the lines.
pub open spec fn continued(a: Facts, b: Facts) -> Facts {
    Facts {
        cwd: or_else(b.cwd, a.cwd),
        git_branch: or_else(b.git_branch, a.git_branch),
        slug: or_else(b.slug, a.slug),
        ai_title: or_else(b.ai_title, a.ai_title),
        last_prompt: or_else(b.last_prompt, a.last_prompt),
        first_seen: earlier(a.first_seen, b.first_seen),
        last_seen: later(a.last_seen, b.last_seen),
        rows: unnumbered(a.rows) + unnumbered(b.rows),
    }
}

/// The facts without the numbers of the lines.
pub open spec fn without_numbers(f: Facts) -> Facts {
    Facts { rows: unnumbered(f.rows), ..f }
}

proof fn times_are_not_negative(lines: Seq<Option<Event>>, mode: ParseModeTag)
    ensures
        facts_of(lines, mode).first_seen >= 0,
        facts_of(lines, mode).last_seen >= 0,
        facts_of(lines, mode).first_seen == 0 <==> facts_of(lines, mode).last_seen == 0,
    decreases lines.len(),
{
    if lines.len() > 0 {
        times_are_not_negative(lines.drop_last(), mode);
    }
}

/// Reading a file to some line and later what was appended to it tells what
/// reading it all at once tells, but for the numbers of the lines.
pub proof fn appending_continues_a_file(a: Seq<Option<Event>>, b: Seq<Option<Event>>)
    ensures
        without_numbers(facts_of(a + b, ParseModeTag::Full)) == continued(
            facts_of(a, ParseModeTag::Full),
            facts_of(b, ParseModeTag::Append),
        ),
    decreases b.len(),
{
    let head = facts_of(a, ParseModeTag::Full);
    let tail = facts_of(b, ParseModeTag::Append);
    let whole = facts_of(a + b, ParseModeTag::Full);
    times_are_not_negative(a, ParseModeTag::Full);
    if b.len() == 0 {
        assert(a + b =~= a);
        assert(without_numbers(whole) =~= continued(head, tail));
    } else {
        let b0 = b.drop_last();
        appending_continues_a_file(a, b0);
        assert((a + b).drop_last() =~= a + b0);
        times_are_not_negative(b0, ParseModeTag::Append);
        let whole0 = facts_of(a + b0, ParseModeTag::Full);
        let tail0 = facts_of(b0, ParseModeTag::Append);
        match b.last() {
            None => {},
            Some(ev) => {
                let n = line_number(ParseModeTag::Full, (a + b).len() as int);
                assert(unnumbered(event_rows(ev, n)) =~= unnumbered(event_rows(ev, 0)));
                assert(unnumbered(whole.rows) =~= unnumbered(whole0.rows) + unnumbered(
                    event_rows(ev, n),
                ));
                assert(unnumbered(tail.rows) =~= unnumbered(tail0.rows) + unnumbered(
                    event_rows(ev, 0),
                ));
                assert(unnumbered(whole.rows) =~= unnumbered(head.rows) + unnumbered(tail.rows));
                assert(without_numbers(whole) =~= continued(head, tail));
            },
        }
    }
}

/// Indexing a file, and later what was appended to it, leaves the row that
/// indexing it all at once leaves: the same but for a last time of 0 in place
/// of none.
pub proof fn appending_leaves_the_full_row(
    a: Seq<Option<Event>>,
    b: Seq<Option<Event>>,
    head: ParsedFile,
    tail: ParsedFile,
    whole: ParsedFile,
)
    requires
        head.facts() == facts_of(a, ParseModeTag::Full),
        tail.facts() == facts_of(b, ParseModeTag::Append),
        whole.facts() == facts_of(a + b, ParseModeTag::Full),
        tail.mode == ParseModeTag::Append,
        whole.mode == ParseModeTag::Full,
        tail.file_id@ == whole.file_id@,
        tail.jsonl_path@ == whole.jsonl_path@,
        tail.project_dir@ == whole.project_dir@,
        tail.encoded_dir@ == whole.encoded_dir@,
        tail.size == whole.size,
        tail.mtime == whole.mtime,
    ensures
        ({
            let twice = merged(Some(merged(None, head)), tail);
            let once = merged(None, whole);
            &&& twice.last_seen == Some(once.last_seen.unwrap_or(0))
            &&& twice == RecordView { last_seen: twice.last_seen, ..once }
        }),
{
    appending_continues_a_file(a, b);
    times_are_not_negative(a, ParseModeTag::Full);
    times_are_not_negative(b, ParseModeTag::Append);
    let w = whole.facts();
    let c = continued(head.facts(), tail.facts());
    assert(without_numbers(w).rows.len() == w.rows.len());
    assert(c.rows.len() == head.facts().rows.len() + tail.facts().rows.len());
    assert(without_numbers(w).cwd == w.cwd);
}

// ------------------------------------------------------------------ rebuilding

/// What the index holds of a session.
pub struct StoredSession {
    pub record: RecordView,
    pub messages: Seq<MessageView>,
}

/// What the index holds, by session.
pub type IndexView = Map<Seq<char>, StoredSession>;

/// The index after a file was written.
pub open spec fn with_file(index: IndexView, pf: ParsedFile) -> IndexView {
    let id = pf.file_id@;
    let old = if index.dom().contains(id) {
        Some(index[id].record)
    } else {
        None
    };
    let stored = if index.dom().contains(id) {
        index[id].messages
    } else {
        Seq::empty()
    };
    index.insert(
        id,
        StoredSession { record: merged(old, pf), messages: stored_after(stored, pf) },
    )
}

/// The index after files were written, one after the other.
pub open spec fn with_files(index: IndexView, pfs: Seq<ParsedFile>) -> IndexView
    decreases pfs.len(),
{
    if pfs.len() == 0 {
        index
    } else {
        with_file(with_files(index, pfs.drop_last()), pfs.last())
    }
}

/// The index after its tables were taken away.
pub open spec fn emptied(index: IndexView) -> IndexView {
    index.remove_keys(index.dom())
}

/// The index after its tables were taken away and files were written into new
/// ones.
pub open spec fn rebuilt(before: IndexView, pfs: Seq<ParsedFile>) -> IndexView {
    with_files(emptied(before), pfs)
}

/// Nothing is left of an index whose tables were taken away.
pub proof fn nothing_is_left(index: IndexView)
    ensures
        emptied(index) == Map::<Seq<char>, StoredSession>::empty(),
{
    assert(emptied(index) =~= Map::<Seq<char>, StoredSession>::empty());
}

/// Whether no two files have one id.
pub open spec fn distinct_ids(files: Seq<FileInfo>) -> bool {
    forall|i: int, j: int|
        0 <= i < j < files.len() ==> (#[trigger] files[i]).file_id@ != (
        #[trigger] files[j]).file_id@
}

/// Whether `pfs` is what reading all of the files gives.
pub open spec fn are_read_of(
    pfs: Seq<ParsedFile>,
    files: Seq<FileInfo>,
    lines: Seq<Seq<Option<Event>>>,
) -> bool {
    &&& pfs.len() == files.len()
    &&& lines.len() == files.len()
    &&& forall|i: int|
        0 <= i < pfs.len() ==> is_read_of(#[trigger] pfs[i], files[i], ParseModeTag::Full, lines[i])
}

/// Whether one of the files has the id.
pub open spec fn has_id(files: Seq<FileInfo>, id: Seq<char>) -> bool {
    exists|i: int| 0 <= i < files.len() && (#[trigger] files[i]).file_id@ == id
}

/// A rebuilt index holds a session for each file and no others: not what was
/// stored before, nor anything of a file that is gone. Each session is what its
/// file alone tells, in whatever order the files were written.
pub proof fn rebuilding_indexes_each_file(
    before: IndexView,
    pfs: Seq<ParsedFile>,
    files: Seq<FileInfo>,
    lines: Seq<Seq<Option<Event>>>,
)
    requires
        are_read_of(pfs, files, lines),
        distinct_ids(files),
    ensures
        forall|id: Seq<char>| #[trigger]
            rebuilt(before, pfs).dom().contains(id) <==> has_id(files, id),
        rebuilt(before, pfs).dom().finite(),
        rebuilt(before, pfs).dom().len() == files.len(),
        forall|i: int|
            0 <= i < files.len() ==> rebuilt(before, pfs)[(#[trigger] files[i]).file_id@] == (
            StoredSession {
                record: merged(None, pfs[i]),
                messages: facts_of(lines[i], ParseModeTag::Full).rows,
            }),
    decreases pfs.len(),
{
    let index = rebuilt(before, pfs);
    nothing_is_left(before);
    if pfs.len() > 0 {
        let p0 = pfs.drop_last();
        let f0 = files.drop_last();
        let l0 = lines.take(files.len() - 1);
        let n = files.len() - 1;
        assert forall|i: int| 0 <= i < p0.len() implies is_read_of(
            #[trigger] p0[i],
            f0[i],
            ParseModeTag::Full,
            l0[i],
        ) by {
            assert(is_read_of(pfs[i], files[i], ParseModeTag::Full, lines[i]));
        }
        assert forall|i: int, j: int| 0 <= i < j < f0.len() implies (#[trigger] f0[i]).file_id@ != (
        #[trigger] f0[j]).file_id@ by {
            assert(files[i].file_id@ != files[j].file_id@);
        }
        rebuilding_indexes_each_file(before, p0, f0, l0);
        let old = rebuilt(before, p0);
        let id = files[n].file_id@;
        assert(is_read_of(pfs[n], files[n], ParseModeTag::Full, lines[n]));
        assert(!has_id(f0, id)) by {
            if has_id(f0, id) {
                let i = choose|i: int| 0 <= i < f0.len() && (#[trigger] f0[i]).file_id@ == id;
                assert(files[i].file_id@ == files[n].file_id@);
            }
        }
        assert(!old.dom().contains(id));
        assert(index == with_file(old, pfs[n]));
        assert(index.dom() =~= old.dom().insert(id));
        assert forall|x: Seq<char>| #[trigger] index.dom().contains(x) <==> has_id(files, x) by {
            assert(old.dom().contains(x) <==> has_id(f0, x));
            if has_id(f0, x) {
                let i = choose|i: int| 0 <= i < f0.len() && (#[trigger] f0[i]).file_id@ == x;
                assert(files[i].file_id@ == x);
            }
            if has_id(files, x) && x != id {
                let i = choose|i: int| 0 <= i < files.len() && (#[trigger] files[i]).file_id@ == x;
                assert(f0[i].file_id@ == x);
            }
        }
        assert forall|i: int| 0 <= i < files.len() implies index[(
        #[trigger] files[i]).file_id@] == (StoredSession {
            record: merged(None, pfs[i]),
            messages: facts_of(lines[i], ParseModeTag::Full).rows,
        }) by {
            if i < n {
                assert(f0[i] == files[i]);
                assert(old[f0[i].file_id@] == (StoredSession {
                    record: merged(None, p0[i]),
                    messages: facts_of(l0[i], ParseModeTag::Full).rows,
                }));
                assert(files[i].file_id@ != files[n].file_id@);
            }
        }
    } else {
        assert(index =~= Map::empty());
        assert forall|x: Seq<char>| #[trigger] index.dom().contains(x) <==> has_id(files, x) by {}
    }
}

/// A rebuilding reads every file from its start, and two rebuildings over the
/// same files leave the same sessions and messages, whatever the index held
/// before each.
pub proof fn rebuildings_are_alike(
    before: IndexView,
    other: IndexView,
    a: Seq<ParsedFile>,
    b: Seq<ParsedFile>,
    files: Seq<FileInfo>,
    lines: Seq<Seq<Option<Event>>>,
    known: Option<(u64, i64)>,
)
    requires
        are_read_of(a, files, lines),
        are_read_of(b, files, lines),
    ensures
        forall|i: int|
            0 <= i < files.len() ==> mode_for(
                (#[trigger] files[i]).size,
                files[i].mtime,
                known,
                true,
            ) == ParseMode::Full,
        a.len() == b.len(),
        rebuilt(before, a) == rebuilt(other, b),
    decreases a.len(),
{
    nothing_is_left(before);
    nothing_is_left(other);
    if a.len() > 0 {
        let n = a.len() - 1;
        let f0 = files.drop_last();
        let l0 = lines.take(n);
        assert forall|i: int| 0 <= i < n implies is_read_of(
            #[trigger] a.drop_last()[i],
            f0[i],
            ParseModeTag::Full,
            l0[i],
        ) by {
            assert(is_read_of(a[i], files[i], ParseModeTag::Full, lines[i]));
        }
        assert forall|i: int| 0 <= i < n implies is_read_of(
            #[trigger] b.drop_last()[i],
            f0[i],
            ParseModeTag::Full,
            l0[i],
        ) by {
            assert(is_read_of(b[i], files[i], ParseModeTag::Full, lines[i]));
        }
        rebuildings_are_alike(before, other, a.drop_last(), b.drop_last(), f0, l0, known);
        assert(is_read_of(a[n], files[n], ParseModeTag::Full, lines[n]));
        assert(is_read_of(b[n], files[n], ParseModeTag::Full, lines[n]));
    }
}

// -------------------------------------------------------------- what is shown

/// What is shown of a session.
pub struct SessionRow {
    pub file_id: String,
    pub jsonl_path: String,
    pub project_dir: String,
    pub cwd: Option<String>,
    pub git_branch: Option<String>,
    pub slug: Option<String>,
    pub ai_title: Option<String>,
    pub last_prompt: Option<String>,
    pub first_seen: Option<i64>,
    pub last_seen: Option<i64>,
    pub message_count: i64,
}

/// The size of the index.
pub struct IndexStats {
    pub sessions: i64,
    pub projects: i64,
    pub messages: i64,
    pub db_bytes: u64,
    pub last_refresh: Option<i64>,
    pub schema_version: i32,
}

// ------------------------------------------------------------------------ laws

/// Tables are made where there are none, accepted where their stored version is
/// 1, and refused by their version where it is any other; what is no number
/// counts as version 0.
pub proof fn schemas_are_told_apart(v: i32, other: Seq<char>)
    requires
        numbers::int_of(other) is None,
    ensures
        schema_check(None) == SchemaCheck::Create,
        schema_check(Some(numbers::decimal(v as int))) == (if v == 1 {
            SchemaCheck::Current
        } else {
            SchemaCheck::Mismatch(v)
        }),
        schema_check(Some(other)) == SchemaCheck::Mismatch(0),
{
    numbers::decimal_is_read_back(v as int);
}

/// Every file called `<id>.jsonl`, one directory below the projects directory, is
/// a session file, and nothing else is: whatever the id, but an empty one or one
/// with a slash.
pub proof fn session_files_are_called_jsonl(
    depth: usize,
    is_file: bool,
    dir: Option<Seq<char>>,
    name: Option<Seq<char>>,
)
    ensures
        forall|id: Seq<char>|
            id.len() > 0 && !id.contains('/') && name == Some(#[trigger] (id + ".jsonl"@))
                ==> is_session_file(depth, is_file, dir, name) == (depth == 2 && is_file
                && dir is Some) && paths::file_id(name->0) == Some(id),
        is_session_file(depth, is_file, dir, name) && !name->0.contains('/') ==> depth == 2
            && is_file && dir is Some && exists|id: Seq<char>|
            id.len() > 0 && name == Some(#[trigger] (id + ".jsonl"@)),
{
    reveal_strlit(".jsonl");
    reveal_strlit("jsonl");
    let suffix = ".jsonl"@;
    assert forall|id: Seq<char>|
        id.len() > 0 && !id.contains('/') && name == Some(
            #[trigger] (id + ".jsonl"@),
        ) implies is_session_file(depth, is_file, dir, name) == (depth == 2 && is_file
        && dir is Some) && paths::file_id(name->0) == Some(id) by {
        let n = id + suffix;
        paths::plain_names(n);
        paths::last_at_is_last(n, '.');
        assert(n[id.len() as int] == '.');
        assert forall|i: int| id.len() < i < n.len() implies n[i] != '.' by {
            assert(n[i] == suffix[i - id.len()]);
        }
        assert(paths::last_at(n, '.') == id.len());
        assert(n.skip(id.len() as int + 1) =~= "jsonl"@);
        assert(n.take(id.len() as int) =~= id);
        assert(!n.contains('/')) by {
            if n.contains('/') {
                let i = choose|i: int| 0 <= i < n.len() && n[i] == '/';
                if i < id.len() {
                    assert(id[i] == '/');
                    assert(id.contains('/'));
                } else {
                    assert(n[i] == suffix[i - id.len()]);
                }
            }
        }
    }
    if is_session_file(depth, is_file, dir, name) && !name->0.contains('/') {
        let n = name->0;
        paths::last_at_is_last(n, '.');
        let k = paths::last_at(n, '.');
        let id = n.take(k);
        assert(n.skip(k + 1) == "jsonl"@);
        assert(n =~= id + suffix) by {
            assert(n.len() == k + 6);
            assert forall|i: int| 0 <= i < n.len() implies n[i] == (id + suffix)[i] by {
                if i > k {
                    assert(n[i] == n.skip(k + 1)[i - k - 1]);
                }
            }
        }
    }
}

/// A file that was never indexed is read from its start, and so is every file
/// when all are to be read.
pub proof fn new_files_are_read_whole(size: u64, mtime: i64, known: Option<(u64, i64)>)
    ensures
        mode_for(size, mtime, None, false) == ParseMode::Full,
        mode_for(size, mtime, known, true) == ParseMode::Full,
        is_due(mtime, None),
{
}

/// What is known of a file is what the last row about it says.
pub proof fn the_last_row_is_known(rows: Seq<(String, i64, i64)>, k: int)
    requires
        0 <= k < rows.len(),
        forall|j: int| k < j < rows.len() ==> (#[trigger] rows[j]).0@ != rows[k].0@,
    ensures
        known_map(rows).dom().contains(rows[k].0@),
        known_map(rows)[rows[k].0@] == (file_size(rows[k].1), rows[k].2),
    decreases rows.len(),
{
    let n = rows.len() - 1;
    if k < n {
        assert(rows[n].0@ != rows[k].0@);
        let init = rows.drop_last();
        assert forall|j: int| k < j < init.len() implies (#[trigger] init[j]).0@ != init[k].0@ by {
            assert(rows[j].0@ != rows[k].0@);
        }
        the_last_row_is_known(init, k);
    }
}

/// Nothing is known of a file without a row.
pub proof fn files_without_a_row_are_unknown(rows: Seq<(String, i64, i64)>, id: Seq<char>)
    requires
        forall|j: int| 0 <= j < rows.len() ==> (#[trigger] rows[j]).0@ != id,
    ensures
        !known_map(rows).dom().contains(id),
    decreases rows.len(),
{
    if rows.len() > 0 {
        let init = rows.drop_last();
        assert(rows[rows.len() - 1].0@ != id);
        assert forall|j: int| 0 <= j < init.len() implies (#[trigger] init[j]).0@ != id by {
            assert(rows[j].0@ != id);
        }
        files_without_a_row_are_unknown(init, id);
    }
}

/// What an event says of the session, if it says something: its directory, its
/// branch or its slug.
pub open spec fn says(o: Option<String>) -> bool {
    o matches Some(s) && s@.len() > 0
}

/// The directory, branch and slug of a session are those that the last event with
/// one names; without such an event there is none.
pub proof fn the_last_event_names_the_session(
    lines: Seq<Option<Event>>,
    mode: ParseModeTag,
    k: int,
)
    requires
        0 <= k < lines.len(),
        lines[k] is Some,
    ensures
        says(lines[k]->0.cwd) && (forall|j: int|
            k < j < lines.len() && (#[trigger] lines[j]) is Some ==> !says(lines[j]->0.cwd))
            ==> facts_of(lines, mode).cwd == text::opt_text(lines[k]->0.cwd),
        says(lines[k]->0.git_branch) && (forall|j: int|
            k < j < lines.len() && (#[trigger] lines[j]) is Some ==> !says(lines[j]->0.git_branch))
            ==> facts_of(lines, mode).git_branch == text::opt_text(lines[k]->0.git_branch),
        says(lines[k]->0.slug) && (forall|j: int|
            k < j < lines.len() && (#[trigger] lines[j]) is Some ==> !says(lines[j]->0.slug))
            ==> facts_of(lines, mode).slug == text::opt_text(lines[k]->0.slug),
    decreases lines.len(),
{
    let n = lines.len() - 1;
    if k < n {
        let init = lines.drop_last();
        the_last_event_names_the_session(init, mode, k);
        assert(init[k] == lines[k]);
        if forall|j: int|
            k < j < lines.len() && (#[trigger] lines[j]) is Some ==> !says(lines[j]->0.cwd) {
            assert(lines[n] is Some ==> !says(lines[n]->0.cwd));
            assert forall|j: int| k < j < init.len() && (#[trigger] init[j]) is Some implies !says(
                init[j]->0.cwd,
            ) by {
                assert(lines[j] is Some);
            }
        }
        if forall|j: int|
            k < j < lines.len() && (#[trigger] lines[j]) is Some ==> !says(
                lines[j]->0.git_branch,
            ) {
            assert(lines[n] is Some ==> !says(lines[n]->0.git_branch));
            assert forall|j: int| k < j < init.len() && (#[trigger] init[j]) is Some implies !says(
                init[j]->0.git_branch,
            ) by {
                assert(lines[j] is Some);
            }
        }
        if forall|j: int|
            k < j < lines.len() && (#[trigger] lines[j]) is Some ==> !says(lines[j]->0.slug) {
            assert(lines[n] is Some ==> !says(lines[n]->0.slug));
            assert forall|j: int| k < j < init.len() && (#[trigger] init[j]) is Some implies !says(
                init[j]->0.slug,
            ) by {
                assert(lines[j] is Some);
            }
        }
    }
}

/// Without an event that names one, a session has no directory, branch or slug.
pub proof fn unnamed_sessions_have_no_names(lines: Seq<Option<Event>>, mode: ParseModeTag)
    ensures
        (forall|j: int|
            0 <= j < lines.len() && (#[trigger] lines[j]) is Some ==> !says(lines[j]->0.cwd))
            ==> facts_of(lines, mode).cwd is None,
        (forall|j: int|
            0 <= j < lines.len() && (#[trigger] lines[j]) is Some ==> !says(lines[j]->0.git_branch))
            ==> facts_of(lines, mode).git_branch is None,
        (forall|j: int|
            0 <= j < lines.len() && (#[trigger] lines[j]) is Some ==> !says(lines[j]->0.slug))
            ==> facts_of(lines, mode).slug is None,
    decreases lines.len(),
{
    if lines.len() > 0 {
        let init = lines.drop_last();
        let n = lines.len() - 1;
        unnamed_sessions_have_no_names(init, mode);
        assert forall|j: int| 0 <= j < init.len() implies #[trigger] init[j] == lines[j] by {}
        assert(lines[n] == lines.last());
    }
}

/// The title of a session is the last one that was set, and so is its last
/// prompt; without such an event there is none.
pub proof fn the_last_title_stands(lines: Seq<Option<Event>>, mode: ParseModeTag, ev: Event)
    ensures
        ev.action() matches session::ActionView::SetTitle(t) ==> facts_of(
            lines.push(Some(ev)),
            mode,
        ).ai_title == Some(t),
        !(ev.action() is SetTitle) ==> facts_of(lines.push(Some(ev)), mode).ai_title == facts_of(
            lines,
            mode,
        ).ai_title,
        ev.action() matches session::ActionView::SetLastPrompt(p) ==> facts_of(
            lines.push(Some(ev)),
            mode,
        ).last_prompt == Some(p),
        !(ev.action() is SetLastPrompt) ==> facts_of(lines.push(Some(ev)), mode).last_prompt
            == facts_of(lines, mode).last_prompt,
        facts_of(lines.push(None), mode) == facts_of(lines, mode),
        facts_of(Seq::empty(), mode).ai_title is None,
        facts_of(Seq::empty(), mode).last_prompt is None,
{
    assert(lines.push(Some(ev)).drop_last() =~= lines);
    assert(lines.push(None).drop_last() =~= lines);
}

/// A session begins with the earliest of its times and ends with the latest; an
/// event without a time does not count.
pub proof fn sessions_span_their_events(lines: Seq<Option<Event>>, mode: ParseModeTag)
    ensures
        forall|k: int|
            0 <= k < lines.len() && (#[trigger] lines[k]) is Some && lines[k]->0.time() > 0 ==> 0
                < facts_of(lines, mode).first_seen <= lines[k]->0.time() <= facts_of(
                lines,
                mode,
            ).last_seen,
        facts_of(lines, mode).first_seen != 0 ==> exists|k: int|
            0 <= k < lines.len() && (#[trigger] lines[k]) is Some && lines[k]->0.time() == facts_of(
                lines,
                mode,
            ).first_seen,
        facts_of(lines, mode).last_seen != 0 ==> exists|k: int|
            0 <= k < lines.len() && (#[trigger] lines[k]) is Some && lines[k]->0.time() == facts_of(
                lines,
                mode,
            ).last_seen,
        facts_of(lines, mode).first_seen == 0 <==> facts_of(lines, mode).last_seen == 0,
    decreases lines.len(),
{
    times_are_not_negative(lines, mode);
    if lines.len() > 0 {
        let init = lines.drop_last();
        let n = lines.len() - 1;
        sessions_span_their_events(init, mode);
        times_are_not_negative(init, mode);
        let f = facts_of(lines, mode);
        let g = facts_of(init, mode);
        assert(lines[n] == lines.last());
        assert forall|k: int|
            0 <= k < lines.len() && (#[trigger] lines[k]) is Some && lines[k]->0.time()
                > 0 implies 0 < f.first_seen <= lines[k]->0.time() <= f.last_seen by {
            if k < n {
                assert(init[k] == lines[k]);
            }
        }
        if g.first_seen != 0 {
            let k = choose|k: int|
                0 <= k < init.len() && (#[trigger] init[k]) is Some && init[k]->0.time()
                    == g.first_seen;
            assert(lines[k] == init[k]);
        }
        if g.last_seen != 0 {
            let k = choose|k: int|
                0 <= k < init.len() && (#[trigger] init[k]) is Some && init[k]->0.time()
                    == g.last_seen;
            assert(lines[k] == init[k]);
        }
    }
}

/// The rows of a file are those of its lines, one after the other: a line more
/// adds a row for each row of its event, with the event's text, speaker, time,
/// ids and, where the file was read from its start, the number of the line.
pub proof fn lines_add_the_rows_of_their_events(
    lines: Seq<Option<Event>>,
    ev: Event,
    mode: ParseModeTag,
)
    requires
        lines.len() < i64::MAX,
    ensures
        ({
            let before = facts_of(lines, mode).rows;
            let after = facts_of(lines.push(Some(ev)), mode).rows;
            let rows = session::rows_of(ev.action());
            &&& after.len() == before.len() + rows.len()
            &&& after.take(before.len() as int) == before
            &&& forall|i: int|
                0 <= i < rows.len() ==> {
                    let r = after[before.len() + i];
                    &&& r.scope == (#[trigger] rows[i]).0
                    &&& r.body == rows[i].1
                    &&& r.ts == ev.time()
                    &&& r.session_id == text::opt_text(ev.session_id)
                    &&& r.uuid == text::opt_text(ev.uuid)
                    &&& mode == ParseModeTag::Full ==> r.jsonl_line == lines.len() + 1
                    &&& mode == ParseModeTag::Append ==> r.jsonl_line == 0
                }
        }),
        facts_of(Seq::empty(), mode).rows.len() == 0,
{
    assert(lines.push(Some(ev)).drop_last() =~= lines);
    let before = facts_of(lines, mode).rows;
    let after = facts_of(lines.push(Some(ev)), mode).rows;
    assert(after.take(before.len() as int) =~= before);
}

/// What a file tells replaces what was stored of its session, and what it does
/// not tell stays; its times widen those that were stored; its place, size and
/// time are those of the file as it was read.
pub proof fn written_sessions_keep_what_was_not_told(old: RecordView, pf: ParsedFile)
    ensures
        ({
            let new = merged(Some(old), pf);
            &&& new.file_id == pf.file_id@ && new.jsonl_path == pf.jsonl_path@
            &&& new.project_dir == pf.project_dir@ && new.encoded_dir == pf.encoded_dir@
            &&& new.jsonl_mtime == pf.mtime && file_size(new.jsonl_size_indexed) == pf.size
            &&& new.cwd == (if pf.cwd is Some {
                Some(pf.cwd->0@)
            } else {
                old.cwd
            })
            &&& new.git_branch == (if pf.git_branch is Some {
                Some(pf.git_branch->0@)
            } else {
                old.git_branch
            })
            &&& new.slug == (if pf.slug is Some {
                Some(pf.slug->0@)
            } else {
                old.slug
            })
            &&& new.ai_title == (if pf.ai_title is Some {
                Some(pf.ai_title->0@)
            } else {
                old.ai_title
            })
            &&& new.last_prompt == (if pf.last_prompt is Some {
                Some(pf.last_prompt->0@)
            } else {
                old.last_prompt
            })
            &&& pf.first_seen == 0 ==> new.first_seen == old.first_seen
            &&& pf.first_seen != 0 ==> (new.first_seen matches Some(t) && t <= pf.first_seen && (
            old.first_seen matches Some(o) ==> t <= o) && (t == pf.first_seen || old.first_seen
                == Some(t)))
            &&& new.last_seen matches Some(t) && (t >= pf.last_seen || t >= 0 && pf.last_seen == 0)
                && (old.last_seen matches Some(o) ==> t >= o) && (t == pf.last_seen || t == 0
                || old.last_seen == Some(t))
        }),
{
    sizes_are_stored_whole(pf.size);
}

/// The first row of a session is what its file tells.
pub proof fn new_sessions_hold_what_was_told(pf: ParsedFile)
    ensures
        ({
            let new = merged(None, pf);
            &&& new.file_id == pf.file_id@ && new.jsonl_path == pf.jsonl_path@
            &&& new.project_dir == pf.project_dir@ && new.encoded_dir == pf.encoded_dir@
            &&& new.jsonl_mtime == pf.mtime && file_size(new.jsonl_size_indexed) == pf.size
            &&& new.cwd == text::opt_text(pf.cwd)
            &&& new.git_branch == text::opt_text(pf.git_branch)
            &&& new.slug == text::opt_text(pf.slug)
            &&& new.ai_title == text::opt_text(pf.ai_title)
            &&& new.last_prompt == text::opt_text(pf.last_prompt)
            &&& new.first_seen is None <==> pf.first_seen == 0
            &&& new.first_seen matches Some(t) ==> t == pf.first_seen
            &&& new.last_seen is None <==> pf.last_seen == 0
            &&& new.last_seen matches Some(t) ==> t == pf.last_seen
            &&& new.message_count == pf.rows@.len()
        }),
{
    sizes_are_stored_whole(pf.size);
}

/// Writing what was appended to a file keeps the messages that were stored and
/// adds the new ones behind them.
pub proof fn appended_messages_are_added(
    old: RecordView,
    stored: Seq<MessageView>,
    pf: ParsedFile,
)
    requires
        pf.mode == ParseModeTag::Append,
    ensures
        stored_after(stored, pf).len() == stored.len() + pf.rows@.len(),
        stored_after(stored, pf).take(stored.len() as int) == stored,
        forall|i: int|
            0 <= i < pf.rows@.len() ==> stored_after(stored, pf)[stored.len() + i] == (
            #[trigger] pf.rows@[i])@,
        merged(Some(old), pf).message_count == old.message_count + pf.rows@.len(),
{
    assert(stored_after(stored, pf).take(stored.len() as int) =~= stored);
}

/// What reading a file gives names the file as it was found, its project by the
/// name of its directory, and all that its lines tell.
pub proof fn files_are_read_as_they_were_found(
    pf: ParsedFile,
    fi: FileInfo,
    mode: ParseModeTag,
    lines: Seq<Option<Event>>,
)
    requires
        is_read_of(pf, fi, mode, lines),
    ensures
        pf.file_id@ == fi.file_id@ && pf.jsonl_path@ == fi.path@,
        pf.encoded_dir@ == fi.encoded_dir@ && pf.project_dir@ == paths::decoded(fi.encoded_dir@),
        pf.size == fi.size && pf.mtime == fi.mtime && pf.mode == mode,
        text::opt_text(pf.cwd) == facts_of(lines, mode).cwd,
        text::opt_text(pf.git_branch) == facts_of(lines, mode).git_branch,
        text::opt_text(pf.slug) == facts_of(lines, mode).slug,
        text::opt_text(pf.ai_title) == facts_of(lines, mode).ai_title,
        text::opt_text(pf.last_prompt) == facts_of(lines, mode).last_prompt,
        pf.first_seen == facts_of(lines, mode).first_seen,
        pf.last_seen == facts_of(lines, mode).last_seen,
        pf.rows@.len() == facts_of(lines, mode).rows.len(),
        forall|i: int|
            0 <= i < pf.rows@.len() ==> (#[trigger] pf.rows@[i])@ == facts_of(lines, mode).rows[i],
{
    assert forall|i: int| 0 <= i < pf.rows@.len() implies (#[trigger] pf.rows@[i])@ == facts_of(
        lines,
        mode,
    ).rows[i] by {
        assert(pf.facts().rows[i] == pf.rows@[i]@);
    }
}

/// Taking in an event leaves which file is read, and how, as it was.
pub proof fn sources_are_what_was_read(a: ParsedFile, b: ParsedFile)
    ensures
        a.same_source(&b) <==> a.file_id == b.file_id && a.jsonl_path == b.jsonl_path
            && a.encoded_dir == b.encoded_dir && a.project_dir == b.project_dir && a.size == b.size
            && a.mtime == b.mtime && a.mode == b.mode,
{
}

/// An event more widens what a file tells, and takes nothing from it: its rows
/// come behind those before, and its times count wherever it has one.
pub proof fn events_add_to_what_is_known(f: Facts, ev: Event, line: i64)
    ensures
        ({
            let g = with_event(f, ev, line);
            &&& g.cwd == (if says(ev.cwd) {
                text::opt_text(ev.cwd)
            } else {
                f.cwd
            })
            &&& g.git_branch == (if says(ev.git_branch) {
                text::opt_text(ev.git_branch)
            } else {
                f.git_branch
            })
            &&& g.slug == (if says(ev.slug) {
                text::opt_text(ev.slug)
            } else {
                f.slug
            })
            &&& g.rows.len() == f.rows.len() + session::rows_of(ev.action()).len()
            &&& g.rows.take(f.rows.len() as int) == f.rows
            &&& forall|i: int|
                0 <= i < session::rows_of(ev.action()).len() ==> {
                    let r = g.rows[f.rows.len() + i];
                    &&& r.scope == (#[trigger] session::rows_of(ev.action())[i]).0
                    &&& r.body == session::rows_of(ev.action())[i].1
                    &&& r.ts == ev.time() && r.jsonl_line == line
                    &&& r.uuid == text::opt_text(ev.uuid)
                    &&& r.session_id == text::opt_text(ev.session_id)
                }
            &&& ev.time() > 0 ==> g.first_seen <= ev.time() <= g.last_seen && g.last_seen
                >= f.last_seen && (f.first_seen != 0 ==> g.first_seen <= f.first_seen)
            &&& g.first_seen == f.first_seen || g.first_seen == ev.time()
            &&& g.last_seen == f.last_seen || g.last_seen == ev.time()
            &&& ev.time() <= 0 ==> g.first_seen == f.first_seen && g.last_seen == f.last_seen
        }),
{
    let g = with_event(f, ev, line);
    assert(g.rows.take(f.rows.len() as int) =~= f.rows);
}

/// Writing a file changes the session of that file alone.
pub proof fn writing_a_file_leaves_the_others(index: IndexView, pf: ParsedFile, id: Seq<char>)
    ensures
        ({
            let after = with_file(index, pf);
            &&& after.dom().contains(pf.file_id@)
            &&& id != pf.file_id@ ==> (after.dom().contains(id) <==> index.dom().contains(id))
            &&& id != pf.file_id@ && index.dom().contains(id) ==> after[id] == index[id]
            &&& index.dom().contains(pf.file_id@) ==> after[pf.file_id@].record == merged(
                Some(index[pf.file_id@].record),
                pf,
            ) && after[pf.file_id@].messages == stored_after(index[pf.file_id@].messages, pf)
            &&& !index.dom().contains(pf.file_id@) ==> after[pf.file_id@].record == merged(None, pf)
                && after[pf.file_id@].messages == pf.facts().rows
        }),
{
    assert(Seq::<MessageView>::empty() + pf.facts().rows =~= pf.facts().rows);
}

/// What is stored of a message and of a session is what their rows hold.
pub proof fn rows_hold_what_is_stored(rows: Seq<MessageRow>, record: SessionRecord, i: int)
    ensures
        message_views(rows).len() == rows.len(),
        0 <= i < rows.len() ==> {
            let r = message_views(rows)[i];
            &&& r.session_id == text::opt_text(rows[i].session_id)
            &&& r.uuid == text::opt_text(rows[i].uuid)
            &&& r.ts == rows[i].ts && r.scope == rows[i].scope
            &&& r.jsonl_line == rows[i].jsonl_line && r.body == rows[i].body@
        },
        record@.file_id == record.file_id@ && record@.jsonl_path == record.jsonl_path@,
        record@.project_dir == record.project_dir@ && record@.encoded_dir == record.encoded_dir@,
        record@.cwd == text::opt_text(record.cwd),
        record@.git_branch == text::opt_text(record.git_branch),
        record@.slug == text::opt_text(record.slug),
        record@.ai_title == text::opt_text(record.ai_title),
        record@.last_prompt == text::opt_text(record.last_prompt),
        record@.first_seen == record.first_seen && record@.last_seen == record.last_seen,
        record@.jsonl_mtime == record.jsonl_mtime,
        record@.jsonl_size_indexed == record.jsonl_size_indexed,
        record@.message_count == record.message_count,
{
}

} // verus!
