//! Searching the index: the statement to run, the hits to keep, and the line
//! that shows a hit.

use crate::clock;
use crate::clock::{local_text, read_date, utc_now};
use crate::numbers;
use crate::numbers::{parse_i64, unsigned_text};
use crate::text;
use crate::text::{chars_of, clip, concat, text_of};
use crate::words;
use crate::words::{join, single_space, words};
use vstd::hash_set::StringHashSet;
use vstd::prelude::*;

verus! {

/// Whose messages a search looks at.
#[derive(Debug, Clone, Copy, PartialEq, Eq, Structural)]
pub enum ScopeFlag {
    User,
    Assistant,
    Tools,
    All,
}

impl ScopeFlag {
    /// The names of the scopes that the flag selects.
    pub open spec fn scope_names(self) -> Seq<Seq<char>> {
        match self {
            ScopeFlag::User => seq!["user"@],
            ScopeFlag::Assistant => seq!["user"@, "assistant"@],
            ScopeFlag::Tools => seq!["user"@, "tool"@],
            ScopeFlag::All => seq!["user"@, "assistant"@, "tool"@],
        }
    }

    /// The names of the scopes that the flag selects.
    pub fn to_scopes(self) -> (r: &'static [&'static str])
        ensures
            r@.map_values(|s: &'static str| s@) == self.scope_names(),
    {
        match self {
            ScopeFlag::User => &["user"],
            ScopeFlag::Assistant => &["user", "assistant"],
            ScopeFlag::Tools => &["user", "tool"],
            ScopeFlag::All => &["user", "assistant", "tool"],
        }
    }
}

/// Every search looks at the user's messages: the other scopes are added to
/// them.
pub proof fn every_scope_has_the_user(flag: ScopeFlag)
    ensures
        flag.scope_names().contains("user"@),
{
    assert(flag.scope_names()[0] == "user"@);
}

/// What to search for.
#[derive(Debug)]
pub struct SearchOpts {
    pub query: Option<String>,
    pub scope: Option<ScopeFlag>,
    pub project: Option<String>,
    pub branch: Option<String>,
    pub cwd_glob: Option<String>,
    pub since: Option<i64>,
    pub limit: usize,
}

impl Default for SearchOpts {
    /// All sessions.
    fn default() -> (r: SearchOpts)
        ensures
            r.query is None,
            r.scope is None,
            r.project is None,
            r.branch is None,
            r.cwd_glob is None,
            r.since is None,
            r.limit == 0,
    {
        SearchOpts {
            query: None,
            scope: None,
            project: None,
            branch: None,
            cwd_glob: None,
            since: None,
            limit: 0,
        }
    }
}

/// A message or session that was found.
#[derive(Debug)]
pub struct Hit {
    pub file_id: String,
    pub cwd: String,
    pub git_branch: String,
    pub project_dir: String,
    pub ts: i64,
    pub scope: String,
    pub snippet: String,
}

// --------------------------------------------------------------- sanitization

/// A word without its double quotes.
pub open spec fn unquoted(w: Seq<char>) -> Seq<char> {
    w.filter(|c: char| c != '"')
}

/// A text between double quotes.
pub open spec fn quoted(w: Seq<char>) -> Seq<char> {
    seq!['"'] + w + seq!['"']
}

/// The words without their double quotes, each between double quotes; a word
/// of quotes alone is left out.
pub open spec fn quoted_words(ws: Seq<Seq<char>>) -> Seq<Seq<char>>
    decreases ws.len(),
{
    if ws.len() == 0 {
        Seq::empty()
    } else {
        let before = quoted_words(ws.drop_last());
        let w = unquoted(ws.last());
        if w.len() == 0 {
            before
        } else {
            before.push(quoted(w))
        }
    }
}

/// A query whose words are all plain search terms.
pub open spec fn sanitized(q: Seq<char>) -> Seq<char> {
    words::joined(quoted_words(words::words_of(q)), " "@)
}

fn quote(w: &str) -> (r: Option<String>)
    ensures
        r is None <==> unquoted(w@).len() == 0,
        r matches Some(t) ==> t@ == quoted(unquoted(w@)),
{
    let cs = chars_of(w);
    let mut out = String::new();
    out.push('"');
    let mut i: usize = 0;
    let ghost p = |c: char| c != '"';
    proof {
        assert(cs@.take(0).filter(p) =~= Seq::<char>::empty()) by {
            reveal(Seq::filter);
        }
    }
    let mut empty = true;
    while i < cs.len()
        invariant
            cs@ == w@,
            p == (|c: char| c != '"'),
            i <= cs@.len(),
            out@ == seq!['"'] + cs@.take(i as int).filter(p),
            empty == (cs@.take(i as int).filter(p).len() == 0),
        decreases cs@.len() - i,
    {
        proof {
            reveal(Seq::filter);
            let t = cs@.take(i + 1);
            assert(t.drop_last() =~= cs@.take(i as int));
            assert(t.last() == cs@[i as int]);
        }
        if cs[i] != '"' {
            let ghost before = out@;
            out.push(cs[i]);
            empty = false;
            proof {
                assert(out@ =~= seq!['"'] + cs@.take(i as int).filter(p).push(cs@[i as int]));
            }
        }
        i += 1;
    }
    proof {
        assert(cs@.take(i as int) =~= w@);
    }
    if empty {
        None
    } else {
        out.push('"');
        proof {
            assert(out@ =~= quoted(unquoted(w@)));
        }
        Some(out)
    }
}

/// Makes each word of a query a plain search term: its double quotes go, and it
/// is put between double quotes, so that no word acts as an operator.
pub fn sanitize_query(q: &str) -> (r: String)
    ensures
        r@ == sanitized(q@),
{
    let ws = words(q);
    let ghost all = text::texts(ws@);
    let mut out: Vec<String> = Vec::new();
    let mut i: usize = 0;
    proof {
        assert(text::texts(out@) =~= quoted_words(all.take(0)));
    }
    while i < ws.len()
        invariant
            all == text::texts(ws@),
            i <= ws@.len(),
            text::texts(out@) == quoted_words(all.take(i as int)),
        decreases ws@.len() - i,
    {
        let ghost before = text::texts(out@);
        proof {
            assert(all.take(i + 1).drop_last() =~= all.take(i as int));
            assert(all.take(i + 1).last() == ws@[i as int]@);
        }
        match quote(ws[i].as_str()) {
            Some(t) => {
                out.push(t);
                proof {
                    assert(text::texts(out@) =~= before.push(t@));
                }
            },
            None => {},
        }
        i += 1;
    }
    proof {
        assert(all.take(i as int) =~= all);
    }
    join(&out, " ")
}

// ------------------------------------------------------------ search statement

/// A value bound to a placeholder of a statement.
#[derive(Debug)]
pub enum SqlParam {
    Text(String),
    Int(i64),
}

/// A bound value as a plain value.
pub enum ParamView {
    Text(Seq<char>),
    Int(i64),
}

impl View for SqlParam {
    type V = ParamView;

    open spec fn view(&self) -> ParamView {
        match self {
            SqlParam::Text(s) => ParamView::Text(s@),
            SqlParam::Int(n) => ParamView::Int(*n),
        }
    }
}

/// The contents of a list of bound values.
pub open spec fn param_views(v: Seq<SqlParam>) -> Seq<ParamView> {
    v.map_values(|p: SqlParam| p@)
}

/// A statement and the values of its placeholders.
#[derive(Debug)]
pub struct SearchSql {
    pub sql: String,
    pub params: Vec<SqlParam>,
}

/// Messages that match a query, up to the list of scopes.
pub const SELECT_MESSAGES: &'static str = "SELECT file_id, cwd, git_branch, project_dir, ts, scope, snip FROM (
SELECT s.file_id AS file_id, s.cwd AS cwd, s.git_branch AS git_branch,
       s.project_dir AS project_dir, m.ts AS ts, m.scope AS scope,
       snippet(messages_fts, 0, '', '', '\u{2026}', 12) AS snip,
       bm25(messages_fts) AS score
  FROM messages_fts
  JOIN messages m  ON m.msg_id  = messages_fts.rowid
  JOIN sessions s  ON s.file_id = m.file_id
 WHERE messages_fts MATCH ?
   AND m.scope IN (";

/// And sessions whose directory, branch or title match it, in every scope.
pub const AND_METADATA: &'static str = "
UNION ALL
SELECT s.file_id, s.cwd, s.git_branch, s.project_dir, COALESCE(s.last_seen, 0), 'session',
       COALESCE(s.ai_title, s.slug, s.last_prompt, ''),
       bm25(sessions_fts)
  FROM sessions_fts
  JOIN sessions s ON s.file_id = sessions_fts.file_id
 WHERE sessions_fts MATCH ?";

/// All sessions.
pub const SELECT_SESSIONS: &'static str = "SELECT s.file_id, s.cwd, s.git_branch, s.project_dir,
       COALESCE(s.last_seen, 0) AS ts,
       'session' AS scope,
       COALESCE(s.ai_title, s.slug, s.last_prompt, '') AS snip
  FROM sessions s
 WHERE 1=1";

/// Best match first: rank, plus an age penalty, minus a bonus for recent work.
pub const ORDER_BY_RANK: &'static str = "
) ORDER BY score
       + ((strftime('%s','now') - ts) / 86400.0) * 0.02
       + CASE
           WHEN (strftime('%s','now') - ts) <  3600  THEN -3.0
           WHEN (strftime('%s','now') - ts) < 86400  THEN -1.5
           WHEN (strftime('%s','now') - ts) < 604800 THEN -0.5
           ELSE 0
         END
  ASC LIMIT ";

/// Latest first.
pub const ORDER_BY_TIME: &'static str = " ORDER BY COALESCE(s.last_seen, 0) DESC LIMIT ";

/// How many hits are shown if no other limit is given.
pub const DEFAULT_LIMIT: usize = 500;

/// How many rows are asked for per hit, since several may belong to one
/// session.
pub const ROWS_PER_HIT: usize = 8;

impl SearchOpts {
    /// How many hits are shown.
    pub open spec fn hit_limit(self) -> usize {
        if self.limit == 0 {
            DEFAULT_LIMIT
        } else {
            self.limit
        }
    }

    /// Which scopes are searched: the user's, if none are named.
    pub open spec fn scopes(self) -> Seq<Seq<char>> {
        self.scope.unwrap_or(ScopeFlag::User).scope_names()
    }

    /// Whether there is a query, but no search term in it.
    pub open spec fn is_void(self) -> bool {
        self.query matches Some(q) && sanitized(q@).len() == 0
    }

    /// The conditions on what is found: messages, or sessions themselves.
    pub open spec fn filters(self, messages: bool) -> Seq<char> {
        (if self.project is Some {
            " AND instr(s.project_dir, ?) > 0"@
        } else {
            Seq::empty()
        }) + (if self.branch is Some {
            " AND s.git_branch = ?"@
        } else {
            Seq::empty()
        }) + (if self.cwd_glob is Some {
            " AND s.cwd GLOB ?"@
        } else {
            Seq::empty()
        }) + (if self.since is Some {
            if messages {
                " AND m.ts >= ?"@
            } else {
                " AND COALESCE(s.last_seen, 0) >= ?"@
            }
        } else {
            Seq::empty()
        })
    }

    /// The search statement. For a query it finds messages of the scopes, and
    /// sessions by their metadata; without one it lists all sessions.
    pub open spec fn statement(self) -> Seq<char> {
        if self.query is Some {
            let marks = Seq::new(self.scopes().len(), |i: int| "?"@);
            SELECT_MESSAGES@ + words::joined(marks, ","@) + ")"@ + self.filters(true)
                + AND_METADATA@ + self.filters(false) + ORDER_BY_RANK@ + numbers::decimal(
                self.hit_limit() * ROWS_PER_HIT,
            )
        } else {
            SELECT_SESSIONS@ + self.filters(false) + ORDER_BY_TIME@ + numbers::decimal(
                self.hit_limit() as int,
            )
        }
    }

    /// The values that the conditions on what is found bind.
    pub open spec fn filter_params(self) -> Seq<ParamView> {
        (match self.project {
            Some(p) => seq![ParamView::Text(p@)],
            None => Seq::empty(),
        }) + (match self.branch {
            Some(b) => seq![ParamView::Text(b@)],
            None => Seq::empty(),
        }) + (match self.cwd_glob {
            Some(g) => seq![ParamView::Text(g@)],
            None => Seq::empty(),
        }) + (match self.since {
            Some(t) => seq![ParamView::Int(t)],
            None => Seq::empty(),
        })
    }

    /// The values that the search statement binds, in order.
    pub open spec fn bound_values(self) -> Seq<ParamView> {
        match self.query {
            Some(q) => {
                let terms = seq![ParamView::Text(sanitized(q@))];
                terms + self.scopes().map_values(|s: Seq<char>| ParamView::Text(s))
                    + self.filter_params() + terms + self.filter_params()
            },
            None => self.filter_params(),
        }
    }

    /// How many hits are shown.
    pub fn limit_or_default(&self) -> (r: usize)
        ensures
            r == self.hit_limit(),
            r > 0,
    {
        if self.limit == 0 {
            DEFAULT_LIMIT
        } else {
            self.limit
        }
    }
}

fn push_param(params: &mut Vec<SqlParam>, p: SqlParam)
    ensures
        param_views(final(params)@) == param_views(old(params)@).push(p@),
{
    params.push(p);
    proof {
        assert(param_views(params@) =~= param_views(old(params)@).push(p@));
    }
}

fn push_scopes(params: &mut Vec<SqlParam>, scopes: &[&'static str]) -> (marks: String)
    ensures
        param_views(final(params)@) == param_views(old(params)@) + scopes@.map_values(
            |s: &'static str| s@,
        ).map_values(|s: Seq<char>| ParamView::Text(s)),
        marks@ == words::joined(Seq::new(scopes@.len(), |i: int| "?"@), ","@),
{
    let ghost all = scopes@.map_values(|s: &'static str| s@).map_values(
        |s: Seq<char>| ParamView::Text(s),
    );
    let mut marks: Vec<String> = Vec::new();
    let mut i: usize = 0;
    while i < scopes.len()
        invariant
            i <= scopes@.len(),
            all == scopes@.map_values(|s: &'static str| s@).map_values(
                |s: Seq<char>| ParamView::Text(s),
            ),
            param_views(params@) == param_views(old(params)@) + all.take(i as int),
            text::texts(marks@) == Seq::new(i as nat, |k: int| "?"@),
        decreases scopes@.len() - i,
    {
        push_param(params, SqlParam::Text(scopes[i].to_owned()));
        let ghost marked = text::texts(marks@);
        marks.push("?".to_owned());
        proof {
            assert(text::texts(marks@) =~= marked.push("?"@));
            assert(all.take(i + 1) =~= all.take(i as int).push(all[i as int]));
            assert(param_views(params@) =~= param_views(old(params)@) + all.take(i + 1));
            assert(text::texts(marks@) =~= Seq::new((i + 1) as nat, |k: int| "?"@));
        }
        i += 1;
    }
    proof {
        assert(all.take(i as int) =~= all);
    }
    join(&marks, ",")
}

fn push_filters(
    sql: &mut String,
    params: &mut Vec<SqlParam>,
    opts: &SearchOpts,
    messages: bool,
)
    ensures
        final(sql)@ == old(sql)@ + opts.filters(messages),
        param_views(final(params)@) == param_views(old(params)@) + opts.filter_params(),
{
    if let Some(p) = &opts.project {
        sql.append(" AND instr(s.project_dir, ?) > 0");
        push_param(params, SqlParam::Text(p.clone()));
    }
    if let Some(b) = &opts.branch {
        sql.append(" AND s.git_branch = ?");
        push_param(params, SqlParam::Text(b.clone()));
    }
    if let Some(g) = &opts.cwd_glob {
        sql.append(" AND s.cwd GLOB ?");
        push_param(params, SqlParam::Text(g.clone()));
    }
    if let Some(t) = opts.since {
        if messages {
            sql.append(" AND m.ts >= ?");
        } else {
            sql.append(" AND COALESCE(s.last_seen, 0) >= ?");
        }
        push_param(params, SqlParam::Int(t));
    }
    proof {
        assert(sql@ =~= old(sql)@ + opts.filters(messages));
        assert(param_views(params@) =~= param_views(old(params)@) + opts.filter_params());
    }
}

/// Builds the statement of a search and the values that it binds; `None` if the
/// query holds no search term, so that nothing can be found.
pub fn search_sql(opts: &SearchOpts) -> (r: Option<SearchSql>)
    requires
        opts.query is Some && !opts.is_void() ==> opts.hit_limit() * ROWS_PER_HIT <= usize::MAX,
    ensures
        r is None <==> opts.is_void(),
        r matches Some(s) ==> s.sql@ == opts.statement() && param_views(s.params@)
            == opts.bound_values(),
{
    let limit = opts.limit_or_default();
    let mut sql = String::new();
    let mut params: Vec<SqlParam> = Vec::new();
    proof {
        assert(param_views(params@) =~= Seq::<ParamView>::empty());
    }
    match &opts.query {
        Some(q) => {
            let scopes = match opts.scope {
                Some(flag) => flag.to_scopes(),
                None => ScopeFlag::User.to_scopes(),
            };
            let terms = sanitize_query(q.as_str());
            if terms.as_str().is_empty() {
                return None;
            }
            push_param(&mut params, SqlParam::Text(terms.clone()));
            let marks = push_scopes(&mut params, scopes);
            proof {
                assert(scopes@.len() == opts.scopes().len());
            }
            sql.append(SELECT_MESSAGES);
            sql.append(marks.as_str());
            sql.append(")");
            push_filters(&mut sql, &mut params, opts, true);
            sql.append(AND_METADATA);
            push_param(&mut params, SqlParam::Text(terms));
            push_filters(&mut sql, &mut params, opts, false);
            sql.append(ORDER_BY_RANK);
            let rows: usize = limit * ROWS_PER_HIT;
            sql.append(unsigned_text(rows as u128).as_str());
        },
        None => {
            sql.append(SELECT_SESSIONS);
            push_filters(&mut sql, &mut params, opts, false);
            sql.append(ORDER_BY_TIME);
            sql.append(unsigned_text(limit as u128).as_str());
        },
    }
    proof {
        assert(sql@ =~= opts.statement());
        assert(param_views(params@) =~= opts.bound_values());
    }
    Some(SearchSql { sql, params })
}

// ---------------------------------------------------------------------- dedupe

/// Whether a hit of the session is among the hits.
pub open spec fn has_file(hits: Seq<Hit>, file_id: Seq<char>) -> bool {
    exists|i: int| 0 <= i < hits.len() && (#[trigger] hits[i]).file_id@ == file_id
}

/// The first hit of each session, in order.
pub open spec fn firsts(hits: Seq<Hit>) -> Seq<Hit>
    decreases hits.len(),
{
    if hits.len() == 0 {
        Seq::empty()
    } else {
        let before = hits.drop_last();
        if has_file(before, hits.last().file_id@) {
            firsts(before)
        } else {
            firsts(before).push(hits.last())
        }
    }
}

/// The first `n` of them, or all if there are fewer.
pub open spec fn at_most(hits: Seq<Hit>, n: nat) -> Seq<Hit> {
    if hits.len() <= n {
        hits
    } else {
        hits.take(n as int)
    }
}

/// The hits of a search, given the rows that its statement returned: the first
/// of each session, up to the limit; none for a query without a search term.
pub fn search(opts: &SearchOpts, rows: Vec<Hit>) -> (r: Vec<Hit>)
    ensures
        r@ == (if opts.is_void() {
            Seq::empty()
        } else {
            at_most(firsts(rows@), opts.hit_limit() as nat)
        }),
{
    let mut out: Vec<Hit> = Vec::new();
    if let Some(q) = &opts.query {
        if sanitize_query(q.as_str()).as_str().is_empty() {
            return out;
        }
    }
    let limit = opts.limit_or_default();
    let mut seen = StringHashSet::new();
    let ghost all = rows@;
    for hit in it: rows
        invariant
            it.seq() == all,
            out@ == firsts(all.take(it.index())),
            out@.len() < limit,
            forall|f: Seq<char>|
                #[trigger] seen@.contains(f) <==> has_file(all.take(it.index()), f),
            !opts.is_void(),
            limit == opts.hit_limit(),
            limit > 0,
    {
        let ghost n = it.index();
        let ghost before = all.take(n);
        let ghost now = all.take(n + 1);
        proof {
            assert(now.drop_last() =~= before);
            assert(now.last() == hit);
            firsts_are_stable(all, n + 1);
        }
        let fresh = seen.insert(hit.file_id.clone());
        proof {
            assert forall|f: Seq<char>| #[trigger] seen@.contains(f) <==> has_file(now, f) by {
                if has_file(before, f) {
                    let i = choose|i: int|
                        0 <= i < before.len() && (#[trigger] before[i]).file_id@ == f;
                    assert(now[i].file_id@ == f);
                }
                if f == hit.file_id@ {
                    assert(now[n].file_id@ == f);
                }
                if has_file(now, f) && f != hit.file_id@ {
                    let i = choose|i: int| 0 <= i < now.len() && (#[trigger] now[i]).file_id@ == f;
                    assert(before[i].file_id@ == f);
                }
            }
        }
        if fresh {
            out.push(hit);
            if out.len() >= limit {
                return out;
            }
        }
    }
    proof {
        assert(all.take(all.len() as int) =~= all);
    }
    out
}

/// Later rows do not change which hits the earlier rows gave.
pub proof fn firsts_are_stable(hits: Seq<Hit>, k: int)
    requires
        0 <= k <= hits.len(),
    ensures
        firsts(hits.take(k)).len() <= firsts(hits).len(),
        firsts(hits).take(firsts(hits.take(k)).len() as int) == firsts(hits.take(k)),
    decreases hits.len(),
{
    if k == hits.len() {
        assert(hits.take(k) =~= hits);
    } else {
        firsts_are_stable(hits.drop_last(), k);
        assert(hits.drop_last().take(k) =~= hits.take(k));
    }
}

/// Each session is shown once, and each session that was found is shown unless
/// the limit cuts it off.
pub proof fn hits_are_one_per_session(rows: Seq<Hit>)
    ensures
        forall|i: int, j: int|
            0 <= i < j < firsts(rows).len() ==> (#[trigger] firsts(rows)[i]).file_id@ != (
            #[trigger] firsts(rows)[j]).file_id@,
        forall|f: Seq<char>| #[trigger] has_file(firsts(rows), f) <==> has_file(rows, f),
    decreases rows.len(),
{
    if rows.len() > 0 {
        let before = rows.drop_last();
        hits_are_one_per_session(before);
        assert forall|f: Seq<char>| #[trigger] has_file(firsts(rows), f) <==> has_file(rows, f) by {
            has_file_of_push(before, rows.last(), f);
            assert(before.push(rows.last()) =~= rows);
            has_file_of_push(firsts(before), rows.last(), f);
            assert(has_file(firsts(before), f) <==> has_file(before, f));
        }
        let last = rows.last().file_id@;
        assert(has_file(firsts(before), last) <==> has_file(before, last));
        assert forall|i: int, j: int|
            0 <= i < j < firsts(rows).len() implies (#[trigger] firsts(rows)[i]).file_id@ != (
        #[trigger] firsts(rows)[j]).file_id@ by {
            assert(firsts(rows)[i] == firsts(before)[i]);
            if j < firsts(before).len() {
                assert(firsts(rows)[j] == firsts(before)[j]);
            }
        }
    }
}

proof fn has_file_of_push(hits: Seq<Hit>, hit: Hit, f: Seq<char>)
    ensures
        has_file(hits.push(hit), f) <==> has_file(hits, f) || hit.file_id@ == f,
{
    let all = hits.push(hit);
    if has_file(hits, f) {
        let i = choose|i: int| 0 <= i < hits.len() && (#[trigger] hits[i]).file_id@ == f;
        assert(all[i].file_id@ == f);
    }
    if hit.file_id@ == f {
        assert(all[hits.len() as int].file_id@ == f);
    }
    if has_file(all, f) && hit.file_id@ != f {
        let i = choose|i: int| 0 <= i < all.len() && (#[trigger] all[i]).file_id@ == f;
        assert(hits[i].file_id@ == f);
    }
}

/// Whether a text is a plain search term: double quotes around a word that
/// holds none.
pub open spec fn is_term(t: Seq<char>) -> bool {
    exists|w: Seq<char>| #[trigger] quoted(w) == t && words::solid(w) && !w.contains('"')
}

proof fn quoted_words_are_terms(ws: Seq<Seq<char>>)
    requires
        forall|i: int| 0 <= i < ws.len() ==> words::solid(#[trigger] ws[i]),
    ensures
        forall|i: int| 0 <= i < quoted_words(ws).len() ==> is_term(#[trigger] quoted_words(ws)[i]),
    decreases ws.len(),
{
    if ws.len() > 0 {
        let init = ws.drop_last();
        assert forall|i: int| 0 <= i < init.len() implies words::solid(#[trigger] init[i]) by {
            assert(init[i] == ws[i]);
        }
        quoted_words_are_terms(init);
        assert(words::solid(ws[ws.len() - 1]));
        unquoted_is_clean(ws.last());
        let w = unquoted(ws.last());
        if w.len() > 0 {
            assert(words::solid(w));
            assert(is_term(quoted(w)));
        }
        assert forall|i: int| 0 <= i < quoted_words(ws).len() implies is_term(
            #[trigger] quoted_words(ws)[i],
        ) by {
            if i < quoted_words(init).len() {
                assert(quoted_words(ws)[i] == quoted_words(init)[i]);
            }
        }
    }
}

proof fn unquoted_is_clean(w: Seq<char>)
    ensures
        !unquoted(w).contains('"'),
        forall|i: int| 0 <= i < unquoted(w).len() ==> w.contains(#[trigger] unquoted(w)[i]),
        words::solid(w) && unquoted(w).len() > 0 ==> words::solid(unquoted(w)),
        !w.contains('"') ==> unquoted(w) == w,
    decreases w.len(),
{
    reveal(Seq::filter);
    if w.len() > 0 {
        let v = w.drop_last();
        unquoted_is_clean(v);
        assert forall|i: int| 0 <= i < unquoted(w).len() implies w.contains(
            #[trigger] unquoted(w)[i],
        ) by {
            if i < unquoted(v).len() {
                assert(v.contains(unquoted(v)[i]));
                let k = choose|k: int| 0 <= k < v.len() && v[k] == unquoted(v)[i];
                assert(w[k] == unquoted(w)[i]);
            } else {
                assert(w[w.len() - 1] == unquoted(w)[i]);
            }
        }
        assert forall|i: int| 0 <= i < unquoted(w).len() implies unquoted(w)[i] != '"' by {
            if i < unquoted(v).len() {
                assert(unquoted(v).contains(unquoted(v)[i]));
            }
        }
        if words::solid(w) {
            assert forall|i: int| 0 <= i < unquoted(w).len() implies !text::is_space(
                #[trigger] unquoted(w)[i],
            ) by {
                assert(w.contains(unquoted(w)[i]));
                let k = choose|k: int| 0 <= k < w.len() && w[k] == unquoted(w)[i];
                assert(!text::is_space(w[k]));
            }
        }
        if !w.contains('"') {
            assert(w.last() != '"') by {
                assert(w[w.len() - 1] == w.last());
            }
            assert(!v.contains('"')) by {
                if v.contains('"') {
                    let k = choose|k: int| 0 <= k < v.len() && v[k] == '"';
                    assert(w[k] == '"');
                }
            }
            assert(v.push(w.last()) =~= w);
        }
    }
}

/// A sanitized query is a list of plain search terms with a space between
/// neighbours, whatever the query was.
pub proof fn sanitized_queries_are_terms(q: Seq<char>)
    ensures
        forall|i: int|
            0 <= i < words::words_of(sanitized(q)).len() ==> is_term(
                #[trigger] words::words_of(sanitized(q))[i],
            ),
        sanitized(q) == words::joined(words::words_of(sanitized(q)), " "@),
{
    let ws = words::words_of(q);
    let ts = quoted_words(ws);
    words_of_text_are_solid(q);
    quoted_words_are_terms(ws);
    terms_are_solid(ts);
    words::words_of_joined(ts);
}

proof fn words_of_text_are_solid(q: Seq<char>)
    ensures
        forall|i: int|
            0 <= i < words::words_of(q).len() ==> words::solid(#[trigger] words::words_of(q)[i]),
{
    words::words_are_solid(q);
    let ws = words::words_of(q);
    assert forall|i: int| 0 <= i < ws.len() implies words::solid(#[trigger] ws[i]) by {
        assert forall|j: int| 0 <= j < ws[i].len() implies !text::is_space(#[trigger] ws[i][j]) by {
            assert(!text::is_space(words::words_of(q)[i][j]));
        }
    }
}

proof fn terms_are_solid(ts: Seq<Seq<char>>)
    requires
        forall|i: int| 0 <= i < ts.len() ==> is_term(#[trigger] ts[i]),
    ensures
        forall|i: int| 0 <= i < ts.len() ==> words::solid(#[trigger] ts[i]),
{
    assert forall|i: int| 0 <= i < ts.len() implies words::solid(#[trigger] ts[i]) by {
        assert(is_term(ts[i]));
        let w = choose|w: Seq<char>|
            #[trigger] quoted(w) == ts[i] && words::solid(w) && !w.contains('"');
        assert forall|j: int| 0 <= j < ts[i].len() implies !text::is_space(#[trigger] ts[i][j]) by {
            if 0 < j < ts[i].len() - 1 {
                assert(ts[i][j] == w[j - 1]);
            }
        }
    }
}

/// Sanitizing a query twice is sanitizing it once.
pub proof fn sanitizing_is_final(q: Seq<char>)
    ensures
        sanitized(sanitized(q)) == sanitized(q),
{
    let ts = quoted_words(words::words_of(q));
    words_of_text_are_solid(q);
    quoted_words_are_terms(words::words_of(q));
    terms_are_solid(ts);
    words::words_of_joined(ts);
    terms_stay(ts);
}

proof fn terms_stay(ts: Seq<Seq<char>>)
    requires
        forall|i: int| 0 <= i < ts.len() ==> is_term(#[trigger] ts[i]),
    ensures
        quoted_words(ts) == ts,
    decreases ts.len(),
{
    if ts.len() > 0 {
        let init = ts.drop_last();
        assert forall|i: int| 0 <= i < init.len() implies is_term(#[trigger] init[i]) by {
            assert(init[i] == ts[i]);
        }
        terms_stay(init);
        assert(is_term(ts[ts.len() - 1]));
        let w = choose|w: Seq<char>|
            #[trigger] quoted(w) == ts.last() && words::solid(w) && !w.contains('"');
        quotes_come_off(w);
        assert(init.push(ts.last()) =~= ts);
    }
}

proof fn quotes_come_off(w: Seq<char>)
    requires
        !w.contains('"'),
    ensures
        unquoted(quoted(w)) == w,
{
    let p = |c: char| c != '"';
    let q = seq!['"'];
    assert(q.filter(p) == Seq::<char>::empty()) by {
        reveal(Seq::filter);
        assert(q.drop_last() =~= Seq::<char>::empty());
        assert(q.drop_last().filter(p) =~= Seq::<char>::empty());
    }
    Seq::filter_distributes_over_add(q + w, q, p);
    Seq::filter_distributes_over_add(q, w, p);
    unquoted_is_clean(w);
    assert(unquoted(quoted(w)) =~= w);
}

proof fn quoted_words_of_two(a: Seq<Seq<char>>, b: Seq<Seq<char>>)
    ensures
        quoted_words(a + b) == quoted_words(a) + quoted_words(b),
    decreases b.len(),
{
    if b.len() == 0 {
        assert(a + b =~= a);
        assert(quoted_words(a) + quoted_words(b) =~= quoted_words(a));
    } else {
        quoted_words_of_two(a, b.drop_last());
        assert((a + b).drop_last() =~= a + b.drop_last());
        assert((a + b).last() == b.last());
        assert(quoted_words(a + b) =~= quoted_words(a) + quoted_words(b));
    }
}

proof fn join_of_terms_is_empty(ts: Seq<Seq<char>>)
    requires
        forall|i: int| 0 <= i < ts.len() ==> is_term(#[trigger] ts[i]),
    ensures
        words::joined(ts, " "@).len() == 0 <==> ts.len() == 0,
{
    reveal_strlit(" ");
    if ts.len() > 0 {
        assert(is_term(ts[ts.len() - 1]));
    }
}

/// Sanitizing two texts with white space between them gives the two results,
/// with a space between them where neither is empty.
pub proof fn sanitizing_joins_queries(a: Seq<char>, w: Seq<char>, b: Seq<char>)
    requires
        words::blank(w),
        w.len() > 0,
    ensures
        sanitized(a + w + b) == (if sanitized(a).len() == 0 {
            sanitized(b)
        } else if sanitized(b).len() == 0 {
            sanitized(a)
        } else {
            sanitized(a) + " "@ + sanitized(b)
        }),
{
    words::words_apart(a, w, b);
    let x = words::words_of(a);
    let y = words::words_of(b);
    quoted_words_of_two(x, y);
    words::joined_of_two(quoted_words(x), quoted_words(y), " "@);
    words_of_text_are_solid(a);
    words_of_text_are_solid(b);
    quoted_words_are_terms(x);
    quoted_words_are_terms(y);
    join_of_terms_is_empty(quoted_words(x));
    join_of_terms_is_empty(quoted_words(y));
}

proof fn quotes_leave_nothing(w: Seq<char>)
    ensures
        unquoted(w).len() == 0 <==> forall|i: int| 0 <= i < w.len() ==> #[trigger] w[i] == '"',
    decreases w.len(),
{
    reveal(Seq::filter);
    if w.len() > 0 {
        let v = w.drop_last();
        quotes_leave_nothing(v);
        if forall|i: int| 0 <= i < w.len() ==> #[trigger] w[i] == '"' {
            assert(w[w.len() - 1] == '"');
            assert forall|i: int| 0 <= i < v.len() implies #[trigger] v[i] == '"' by {
                assert(w[i] == '"');
            }
        }
        if unquoted(w).len() == 0 {
            assert forall|i: int| 0 <= i < w.len() implies #[trigger] w[i] == '"' by {
                if i < v.len() {
                    assert(v[i] == '"');
                }
            }
        }
    }
}

proof fn no_terms_left(ws: Seq<Seq<char>>)
    ensures
        quoted_words(ws).len() == 0 <==> forall|k: int|
            0 <= k < ws.len() ==> unquoted(#[trigger] ws[k]).len() == 0,
    decreases ws.len(),
{
    if ws.len() > 0 {
        let init = ws.drop_last();
        no_terms_left(init);
        if forall|k: int| 0 <= k < ws.len() ==> unquoted(#[trigger] ws[k]).len() == 0 {
            assert forall|k: int| 0 <= k < init.len() implies unquoted(#[trigger] init[k]).len()
                == 0 by {
                assert(unquoted(ws[k]).len() == 0);
            }
            assert(unquoted(ws[ws.len() - 1]).len() == 0);
        }
        if quoted_words(ws).len() == 0 {
            assert forall|k: int| 0 <= k < ws.len() implies unquoted(#[trigger] ws[k]).len() == 0 by {
                if k < init.len() {
                    assert(unquoted(init[k]).len() == 0);
                }
            }
        }
    }
}

/// A query holds no search term exactly when it holds nothing but white space
/// and double quotes.
pub proof fn void_queries_hold_no_term(q: Seq<char>)
    ensures
        sanitized(q).len() == 0 <==> forall|i: int|
            0 <= i < q.len() ==> text::is_space(#[trigger] q[i]) || q[i] == '"',
{
    let ws = words::words_of(q);
    words_of_text_are_solid(q);
    quoted_words_are_terms(ws);
    join_of_terms_is_empty(quoted_words(ws));
    no_terms_left(ws);
    if sanitized(q).len() == 0 {
        assert forall|i: int| 0 <= i < q.len() implies text::is_space(#[trigger] q[i]) || q[i]
            == '"' by {
            if !text::is_space(q[i]) {
                words::words_hold_the_rest(q, i);
                let k = choose|k: int| 0 <= k < ws.len() && (#[trigger] ws[k]).contains(q[i]);
                assert(unquoted(ws[k]).len() == 0);
                quotes_leave_nothing(ws[k]);
                let j = choose|j: int| 0 <= j < ws[k].len() && ws[k][j] == q[i];
                assert(ws[k][j] == '"');
            }
        }
    }
    if forall|i: int| 0 <= i < q.len() ==> text::is_space(#[trigger] q[i]) || q[i] == '"' {
        words::words_are_solid(q);
        assert forall|k: int| 0 <= k < ws.len() implies unquoted(#[trigger] ws[k]).len() == 0 by {
            assert forall|j: int| 0 <= j < ws[k].len() implies #[trigger] ws[k][j] == '"' by {
                let c = words::words_of(q)[k][j];
                assert(!text::is_space(c) && q.contains(c));
                let i = choose|i: int| 0 <= i < q.len() && q[i] == c;
                assert(text::is_space(q[i]) || q[i] == '"');
            }
            quotes_leave_nothing(ws[k]);
        }
    }
}

// -------------------------------------------------------------------- fzf line

/// The parts of a path between its slashes that are not empty, from position
/// `from` on.
pub open spec fn segments_from(s: Seq<char>, from: nat) -> Seq<Seq<char>>
    decreases s.len() - from,
{
    if from >= s.len() {
        Seq::empty()
    } else {
        proof {
            words::next_at_is_first(s, '/', from);
        }
        let end = words::next_at(s, '/', from);
        if end == from {
            segments_from(s, from + 1)
        } else {
            seq![s.subrange(from as int, end as int)] + segments_from(s, end)
        }
    }
}

fn segments(s: &str) -> (r: Vec<String>)
    ensures
        text::texts(r@) == segments_from(s@, 0),
{
    let cs = chars_of(s);
    let mut out: Vec<String> = Vec::new();
    let mut from: usize = 0;
    proof {
        assert(text::texts(out@) + segments_from(s@, 0) =~= segments_from(s@, 0));
    }
    while from < cs.len()
        invariant
            cs@ == s@,
            from <= cs@.len(),
            text::texts(out@) + segments_from(s@, from as nat) == segments_from(s@, 0),
        decreases cs@.len() - from,
    {
        let end = words::position(&cs, '/', from);
        if end == from {
            from += 1;
        } else {
            let ghost before = text::texts(out@);
            let part = text_of(&cs, from, end);
            out.push(part);
            proof {
                let rest = segments_from(s@, end as nat);
                assert(text::texts(out@) =~= before.push(part@));
                assert(text::texts(out@) + rest =~= before + (seq![part@] + rest));
            }
            from = end;
        }
    }
    proof {
        assert(text::texts(out@) + segments_from(s@, from as nat) =~= text::texts(out@));
    }
    out
}

/// A directory in short: the last two parts of `cwd`, or of the project's
/// directory if that is empty.
pub open spec fn short_dir(cwd: Seq<char>, project_dir: Seq<char>) -> Seq<char> {
    let pick = if cwd.len() > 0 {
        cwd
    } else {
        project_dir
    };
    let parts = segments_from(pick, 0);
    let n = parts.len();
    if pick.len() == 0 {
        "?"@
    } else if n >= 2 {
        parts[n - 2] + "/"@ + parts[n - 1]
    } else if n == 1 {
        parts[0]
    } else {
        pick
    }
}

/// A directory in short.
pub fn shorten_cwd(cwd: &str, project_dir: &str) -> (r: String)
    ensures
        r@ == short_dir(cwd@, project_dir@),
{
    let pick: &str = if !cwd.is_empty() {
        cwd
    } else {
        project_dir
    };
    if pick.is_empty() {
        return "?".to_owned();
    }
    let parts = segments(pick);
    let n = parts.len();
    proof {
        assert(text::texts(parts@).len() == n);
    }
    if n >= 2 {
        let a = &parts[n - 2];
        let b = &parts[n - 1];
        proof {
            assert(text::texts(parts@)[n - 2] == a@);
            assert(text::texts(parts@)[n - 1] == b@);
        }
        concat(concat(a.as_str(), "/").as_str(), b.as_str())
    } else if n == 1 {
        proof {
            assert(text::texts(parts@)[0] == parts@[0]@);
        }
        parts[0].clone()
    } else {
        pick.to_owned()
    }
}

/// How much of a snippet a line shows.
pub const SNIPPET_CHARS: usize = 120;

/// A text on one line, with single spaces, cut to length.
pub open spec fn on_one_line(s: Seq<char>) -> Seq<char> {
    text::clipped(words::single_spaced(s), SNIPPET_CHARS as nat)
}

/// Puts a text on one line.
pub fn one_line(s: &str) -> (r: String)
    ensures
        r@ == on_one_line(s@),
{
    let t = single_space(s);
    clip(t.as_str(), SNIPPET_CHARS)
}

/// The text in the branch column.
pub open spec fn branch_column(branch: Seq<char>) -> Seq<char> {
    if branch.len() == 0 {
        "-"@
    } else {
        branch
    }
}

/// The line that shows a hit, with `stamp` as its time: time, directory, branch,
/// snippet and session id, with tabs between them.
pub open spec fn line_of(hit: Hit, stamp: Seq<char>) -> Seq<char> {
    stamp + "\t"@ + short_dir(hit.cwd@, hit.project_dir@) + "\t"@ + branch_column(hit.git_branch@)
        + "\t"@ + on_one_line(hit.snippet@) + "\t"@ + hit.file_id@
}

/// The line that shows a hit, with `stamp` as its time.
pub fn fzf_line_with(hit: &Hit, stamp: &str) -> (r: String)
    ensures
        r@ == line_of(*hit, stamp@),
{
    let mut out = concat(stamp, "\t");
    out.append(shorten_cwd(hit.cwd.as_str(), hit.project_dir.as_str()).as_str());
    out.append("\t");
    if hit.git_branch.as_str().is_empty() {
        out.append("-");
    } else {
        out.append(hit.git_branch.as_str());
    }
    out.append("\t");
    out.append(one_line(hit.snippet.as_str()).as_str());
    out.append("\t");
    out.append(hit.file_id.as_str());
    out
}

/// Whether `stamp` can be the time of a hit: nothing without a time or for one
/// that the calendar does not cover, else the time, written in some time zone.
pub open spec fn stamps(ts: i64, stamp: Seq<char>) -> bool {
    if 0 < ts <= clock::LAST_TIME {
        clock::local_minutes(ts, stamp)
    } else {
        stamp.len() == 0
    }
}

/// Whether a line shows a hit, with some time of the machine's time zone.
pub open spec fn shows(hit: Hit, line: Seq<char>) -> bool {
    exists|stamp: Seq<char>| #[trigger] stamps(hit.ts, stamp) && line == line_of(hit, stamp)
}

/// The line that shows a hit, its time in the machine's time zone.
pub fn fzf_line(hit: &Hit) -> (r: String)
    ensures
        shows(*hit, r@),
        !(0 < hit.ts <= clock::LAST_TIME) ==> r@ == line_of(*hit, Seq::empty()),
{
    let stamp = if hit.ts > 0 {
        match local_text(hit.ts, clock::MINUTES) {
            Some(s) => s,
            None => String::new(),
        }
    } else {
        String::new()
    };
    let out = fzf_line_with(hit, stamp.as_str());
    proof {
        assert(stamps(hit.ts, stamp@));
        if !(0 < hit.ts <= clock::LAST_TIME) {
            assert(stamp@ =~= Seq::<char>::empty());
        }
    }
    out
}

/// The text between the `k`-th and the next tab.
pub open spec fn column(line: Seq<char>, k: nat) -> Seq<char>
    decreases k,
{
    let end = words::next_at(line, '\t', 0);
    if k == 0 {
        line.take(end as int)
    } else if end < line.len() {
        column(line.skip(end as int + 1), (k - 1) as nat)
    } else {
        Seq::empty()
    }
}

proof fn first_column(a: Seq<char>, b: Seq<char>)
    requires
        !a.contains('\t'),
    ensures
        words::next_at(a + "\t"@ + b, '\t', 0) == a.len(),
        (a + "\t"@ + b).take(a.len() as int) == a,
        (a + "\t"@ + b).skip(a.len() as int + 1) == b,
{
    reveal_strlit("\t");
    let s = a + "\t"@ + b;
    words::next_at_is_first(s, '\t', 0);
    let p = words::next_at(s, '\t', 0) as int;
    assert(s[a.len() as int] == '\t');
    if p < a.len() {
        assert(s[p] == a[p]);
        assert(a.contains(a[p]));
    }
    assert(s.take(a.len() as int) =~= a);
    assert(s.skip(a.len() as int + 1) =~= b);
}

proof fn stamps_avoid(ts: i64, stamp: Seq<char>, c: char)
    requires
        stamps(ts, stamp),
        !clock::is_stamp_char(c),
    ensures
        !stamp.contains(c),
{
    if clock::local_minutes(ts, stamp) {
        let t = choose|t: int|
            ts - 86400 < t < ts + 86400 && #[trigger] clock::says_minutes(stamp, t);
        clock::written_times_are_plain(stamp, t);
    }
    if stamp.contains(c) {
        let k = choose|k: int| 0 <= k < stamp.len() && stamp[k] == c;
        assert(clock::is_stamp_char(stamp[k]));
    }
}

proof fn short_dir_avoids(cwd: Seq<char>, project_dir: Seq<char>, c: char)
    requires
        !cwd.contains(c),
        !project_dir.contains(c),
        c != '?',
        c != '/',
    ensures
        !short_dir(cwd, project_dir).contains(c),
{
    reveal_strlit("?");
    reveal_strlit("/");
    let pick = if cwd.len() > 0 {
        cwd
    } else {
        project_dir
    };
    segments_avoid(pick, 0, c);
    let parts = segments_from(pick, 0);
    let n = parts.len();
    if n >= 2 {
        let a = parts[n - 2];
        let b = parts[n - 1];
        assert(!a.contains(c) && !b.contains(c));
        let all = a + "/"@ + b;
        assert forall|k: int| 0 <= k < all.len() implies all[k] != c by {
            if k < a.len() {
                assert(a.contains(a[k]));
            } else if k > a.len() {
                assert(b.contains(b[k - a.len() - 1]));
            }
        }
    }
}

proof fn segments_avoid(s: Seq<char>, from: nat, c: char)
    requires
        !s.contains(c),
    ensures
        forall|i: int|
            0 <= i < segments_from(s, from).len() ==> !(#[trigger] segments_from(
                s,
                from,
            )[i]).contains(c),
    decreases s.len() - from,
{
    let end = words::next_at(s, '/', from);
    if from < s.len() {
        words::next_at_is_first(s, '/', from);
        if end == from {
            segments_avoid(s, from + 1, c);
            assert(segments_from(s, from) == segments_from(s, from + 1));
        } else {
            segments_avoid(s, end, c);
            let part = s.subrange(from as int, end as int);
            assert forall|k: int| 0 <= k < part.len() implies part[k] != c by {
                assert(s.contains(s[from + k]));
            }
            assert forall|i: int| 0 <= i < segments_from(s, from).len() implies !(
            #[trigger] segments_from(s, from)[i]).contains(c) by {
                if i > 0 {
                    assert(segments_from(s, from)[i] == segments_from(s, end)[i - 1]);
                } else {
                    assert(segments_from(s, from)[0] == part);
                }
            }
        }
    }
}

/// A text on one line holds no white space but spaces.
pub proof fn one_line_is_one_line(s: Seq<char>, c: char)
    requires
        text::is_space(c),
        c != ' ',
    ensures
        !on_one_line(s).contains(c),
{
    reveal_strlit(" ");
    words::words_are_solid(s);
    let ws = words::words_of(s);
    assert forall|i: int| 0 <= i < ws.len() implies !(#[trigger] ws[i]).contains(c) by {
        assert forall|j: int| 0 <= j < ws[i].len() implies ws[i][j] != c by {
            assert(!text::is_space(words::words_of(s)[i][j]));
        }
    }
    words::joined_avoids(ws, " "@, c);
    let t = words::single_spaced(s);
    let out = on_one_line(s);
    let k = text::cut(t, SNIPPET_CHARS as nat) as int;
    text::cut_is_longest_fit(t, SNIPPET_CHARS as nat);
    assert forall|i: int| 0 <= i < out.len() implies out[i] != c by {
        if t.len() > SNIPPET_CHARS {
            if i < k {
                assert(t.contains(t[i]));
            }
        } else {
            assert(t.contains(t[i]));
        }
    }
}

/// A text on one line is tidy: its white space is single spaces, none of them at
/// an end. It has at most 121 characters, and putting it on one line again
/// changes nothing.
pub proof fn one_line_is_tidy(s: Seq<char>)
    ensures
        words::tidy(on_one_line(s)),
        on_one_line(s).len() <= 121,
        on_one_line(on_one_line(s)) == on_one_line(s),
{
    let t = words::single_spaced(s);
    let out = on_one_line(s);
    words::single_spaced_is_tidy(s);
    text::clipping_is_final(t, SNIPPET_CHARS as nat);
    text::cut_is_longest_fit(t, SNIPPET_CHARS as nat);
    if t.len() > SNIPPET_CHARS {
        let k = text::cut(t, SNIPPET_CHARS as nat) as int;
        assert forall|i: int| 0 <= i < out.len() && text::is_space(#[trigger] out[i]) implies out[i]
            == ' ' by {
            if i < k {
                assert(out[i] == t[i]);
            }
        }
        assert forall|i: int| 0 < i < out.len() implies !(text::is_space(#[trigger] out[i])
            && text::is_space(out[i - 1])) by {
            if i < k {
                assert(out[i] == t[i] && out[i - 1] == t[i - 1]);
            }
        }
        if k > 0 {
            assert(out[0] == t[0]);
        }
    }
    words::tidy_texts_stay(out);
}

/// The fifth column of the line that shows a hit is the session's id, so that a
/// picker that splits at tabs can hand it back; the fourth is the snippet, the
/// third the branch and the second the directory in short.
pub proof fn fifth_column_is_the_session(hit: Hit, stamp: Seq<char>)
    requires
        stamps(hit.ts, stamp),
        !hit.cwd@.contains('\t'),
        !hit.project_dir@.contains('\t'),
        !hit.git_branch@.contains('\t'),
        !hit.file_id@.contains('\t'),
    ensures
        column(line_of(hit, stamp), 0) == stamp,
        column(line_of(hit, stamp), 1) == short_dir(hit.cwd@, hit.project_dir@),
        column(line_of(hit, stamp), 2) == branch_column(hit.git_branch@),
        column(line_of(hit, stamp), 3) == on_one_line(hit.snippet@),
        column(line_of(hit, stamp), 4) == hit.file_id@,
{
    reveal_strlit("-");
    reveal_strlit("\t");
    let dir = short_dir(hit.cwd@, hit.project_dir@);
    let branch = branch_column(hit.git_branch@);
    let snippet = on_one_line(hit.snippet@);
    let id = hit.file_id@;
    let e = snippet + "\t"@ + id;
    let d = branch + "\t"@ + e;
    let c = dir + "\t"@ + d;
    let line = line_of(hit, stamp);
    assert(line =~= stamp + "\t"@ + c);
    stamps_avoid(hit.ts, stamp, '\t');
    short_dir_avoids(hit.cwd@, hit.project_dir@, '\t');
    one_line_is_one_line(hit.snippet@, '\t');
    first_column(stamp, c);
    first_column(dir, d);
    first_column(branch, e);
    first_column(snippet, id);
    words::next_at_is_first(id, '\t', 0);
    let p = words::next_at(id, '\t', 0) as int;
    assert(p == id.len()) by {
        if p < id.len() {
            assert(id.contains(id[p]));
        }
    }
    assert(id.take(p) =~= id);
    assert(column(id, 0) == id);
    assert(column(e, 0) == snippet && column(e, 1) == id);
    assert(column(d, 0) == branch && column(d, 1) == column(e, 0) && column(d, 2) == column(e, 1));
    assert(column(c, 0) == dir && column(c, 1) == column(d, 0) && column(c, 2) == column(d, 1)
        && column(c, 3) == column(d, 2));
    assert(column(line, 0) == stamp && column(line, 1) == column(c, 0) && column(line, 2) == column(
        c,
        1,
    ) && column(line, 3) == column(c, 2) && column(line, 4) == column(c, 3));
}

/// A hit takes one line, whatever its snippet holds.
pub proof fn hits_take_one_line(hit: Hit, stamp: Seq<char>)
    requires
        stamps(hit.ts, stamp),
        !hit.cwd@.contains('\n'),
        !hit.project_dir@.contains('\n'),
        !hit.git_branch@.contains('\n'),
        !hit.file_id@.contains('\n'),
    ensures
        !line_of(hit, stamp).contains('\n'),
{
    reveal_strlit("-");
    reveal_strlit("\t");
    let dir = short_dir(hit.cwd@, hit.project_dir@);
    let branch = branch_column(hit.git_branch@);
    let snippet = on_one_line(hit.snippet@);
    short_dir_avoids(hit.cwd@, hit.project_dir@, '\n');
    one_line_is_one_line(hit.snippet@, '\n');
    stamps_avoid(hit.ts, stamp, '\n');
    sum_avoids(stamp, "\t"@, '\n');
    sum_avoids(stamp + "\t"@, dir, '\n');
    sum_avoids(stamp + "\t"@ + dir, "\t"@, '\n');
    sum_avoids(stamp + "\t"@ + dir + "\t"@, branch, '\n');
    sum_avoids(stamp + "\t"@ + dir + "\t"@ + branch, "\t"@, '\n');
    sum_avoids(stamp + "\t"@ + dir + "\t"@ + branch + "\t"@, snippet, '\n');
    sum_avoids(stamp + "\t"@ + dir + "\t"@ + branch + "\t"@ + snippet, "\t"@, '\n');
    sum_avoids(
        stamp + "\t"@ + dir + "\t"@ + branch + "\t"@ + snippet + "\t"@,
        hit.file_id@,
        '\n',
    );
}

proof fn sum_avoids(a: Seq<char>, b: Seq<char>, c: char)
    requires
        !a.contains(c),
        !b.contains(c),
    ensures
        !(a + b).contains(c),
{
    assert forall|k: int| 0 <= k < (a + b).len() implies (a + b)[k] != c by {
        if k < a.len() {
            assert(a.contains(a[k]));
        } else {
            assert(b.contains(b[k - a.len()]));
        }
    }
}

// ----------------------------------------------------------------- time limit

/// The length of a unit of time, in seconds.
pub open spec fn unit_seconds(unit: char) -> Option<int> {
    if unit == 'd' {
        Some(86400)
    } else if unit == 'h' {
        Some(3600)
    } else if unit == 'm' {
        Some(60)
    } else {
        None
    }
}

/// The length of a span of time such as `7d`, `24h` or `30m`, in seconds.
pub open spec fn span_seconds(s: Seq<char>) -> Option<int> {
    if s.len() == 0 {
        None
    } else {
        match (
            numbers::int_within(s.drop_last(), i64::MIN as int, i64::MAX as int),
            unit_seconds(s.last()),
        ) {
            (Some(n), Some(u)) => Some(n * u),
            _ => None,
        }
    }
}

/// The time that a time limit denotes: the start of a date, or a span of time
/// before now.
pub open spec fn since_time(date: Option<i64>, s: Seq<char>, now: i64) -> Option<int> {
    match date {
        Some(t) => Some(t as int),
        None => match span_seconds(s) {
            Some(secs) => Some(now - secs),
            None => None,
        },
    }
}

/// Whether a number fits in 64 bits.
pub open spec fn fits(n: int) -> bool {
    i64::MIN <= n <= i64::MAX
}

/// Whether a time limit can be worked out at `now`: its last character is
/// ASCII, and neither the span nor its start overflows.
pub open spec fn is_workable(s: Seq<char>, now: i64) -> bool {
    &&& s.len() > 0 ==> (s.last() as u32) < 0x80
    &&& span_seconds(s) matches Some(secs) ==> fits(secs) && fits(now - secs)
}

/// Whether a time limit can be worked out whatever the clock says.
pub open spec fn is_always_workable(s: Seq<char>) -> bool {
    &&& s.len() > 0 ==> (s.last() as u32) < 0x80
    &&& span_seconds(s) matches Some(secs) ==> fits(secs) && fits(clock::LAST_TIME - secs)
}

fn span_parts(s: &str) -> (r: Option<(i64, i64)>)
    ensures
        r is Some <==> span_seconds(s@) is Some,
        r matches Some((n, u)) ==> span_seconds(s@) == Some(n * u) && 60 <= u <= 86400,
{
    let cs = chars_of(s);
    let len = cs.len();
    if len == 0 {
        return None;
    }
    let unit = cs[len - 1];
    let u: i64 = if unit == 'd' {
        86400
    } else if unit == 'h' {
        3600
    } else if unit == 'm' {
        60
    } else {
        return None;
    };
    let num = text_of(&cs, 0, len - 1);
    proof {
        assert(num@ =~= s@.drop_last());
    }
    match parse_i64(num.as_str()) {
        Some(n) => Some((n, u)),
        None => None,
    }
}

/// Whether a time limit can be worked out whatever the clock says.
pub fn since_is_workable(s: &str) -> (r: bool)
    ensures
        r == is_always_workable(s@),
{
    let cs = chars_of(s);
    let len = cs.len();
    if len > 0 && cs[len - 1] as u32 >= 0x80 {
        return false;
    }
    match span_parts(s) {
        None => true,
        Some((n, u)) => {
            proof {
                product_bound(n, u);
            }
            let secs: i128 = n as i128 * u as i128;
            let start: i128 = clock::LAST_TIME as i128 - secs;
            i64::MIN as i128 <= secs && secs <= i64::MAX as i128 && i64::MIN as i128 <= start
                && start <= i64::MAX as i128
        },
    }
}

proof fn product_bound(n: i64, u: i64)
    requires
        60 <= u <= 86400,
    ensures
        -0x8000_0000_0000_0000 * 86400 <= n * u <= 0x8000_0000_0000_0000 * 86400,
{
    assert(-0x8000_0000_0000_0000 * 86400 <= n * u <= 0x8000_0000_0000_0000 * 86400)
        by (nonlinear_arith)
        requires
            60 <= u <= 86400,
            -0x8000_0000_0000_0000 <= n <= 0x7fff_ffff_ffff_ffff,
    ;
}

/// Works a time limit out, given the start of the date that it may denote.
pub fn since_from(date: Option<i64>, s: &str, now: i64) -> (r: Option<i64>)
    requires
        date is None ==> is_workable(s@, now),
    ensures
        r == (match since_time(date, s@, now) {
            Some(t) => Some(t as i64),
            None => None,
        }),
{
    match date {
        Some(t) => Some(t),
        None => match span_parts(s) {
            Some((n, u)) => Some(now - n * u),
            None => None,
        },
    }
}

/// Works a time limit out at `now`: a date such as `2026-01-15`, or a span of
/// time such as `7d`, `24h` or `30m`.
pub fn parse_since_at(s: &str, now: i64) -> (r: Option<i64>)
    requires
        is_workable(s@, now),
    ensures
        r == (match since_time(clock::date_start(s@), s@, now) {
            Some(t) => Some(t as i64),
            None => None,
        }),
{
    since_from(read_date(s, clock::DATE), s, now)
}

/// Works a time limit out, by the machine's clock.
pub fn parse_since(s: &str) -> (r: Option<i64>)
    requires
        is_always_workable(s@),
    ensures
        exists|now: i64|
            0 <= now <= clock::LAST_TIME && r == (match #[trigger] since_time(
                clock::date_start(s@),
                s@,
                now,
            ) {
                Some(t) => Some(t as i64),
                None => None,
            }),
{
    let now = utc_now();
    parse_since_at(s, now)
}

/// A number and a unit denote that many units.
pub proof fn spans_count_units(n: i64, unit: char)
    requires
        unit_seconds(unit) is Some,
    ensures
        span_seconds(numbers::decimal(n as int).push(unit)) == Some(n * unit_seconds(unit)->0),
{
    let d = numbers::decimal(n as int);
    numbers::decimal_is_read_back(n as int);
    assert(d.push(unit).drop_last() =~= d);
}

// ------------------------------------------------------------------------ laws

/// A search looks at the user's messages, at the assistant's where they are asked
/// for, and at tool calls where they are asked for, each once; without a scope at
/// the user's alone.
pub proof fn scopes_are_those_asked_for(opts: SearchOpts)
    ensures
        ({
            let asks_assistant = opts.scope == Some(ScopeFlag::Assistant) || opts.scope == Some(
                ScopeFlag::All,
            );
            let asks_tools = opts.scope == Some(ScopeFlag::Tools) || opts.scope == Some(
                ScopeFlag::All,
            );
            &&& opts.scopes().contains("user"@)
            &&& opts.scopes().contains("assistant"@) <==> asks_assistant
            &&& opts.scopes().contains("tool"@) <==> asks_tools
            &&& opts.scopes().len() == 1 + (if asks_assistant {
                1int
            } else {
                0
            }) + (if asks_tools {
                1int
            } else {
                0
            })
        }),
{
    reveal_strlit("user");
    reveal_strlit("assistant");
    reveal_strlit("tool");
    assert("user"@[0] == 'u' && "assistant"@[0] == 'a' && "tool"@[0] == 't');
    let s = opts.scopes();
    assert(s[0] == "user"@);
    if opts.scope == Some(ScopeFlag::Assistant) || opts.scope == Some(ScopeFlag::All) {
        assert(s[1] == "assistant"@);
    }
    if opts.scope == Some(ScopeFlag::Tools) {
        assert(s[1] == "tool"@);
    }
    if opts.scope == Some(ScopeFlag::All) {
        assert(s[2] == "tool"@);
    }
}

/// What a search binds, one by one: for a query the search terms, a scope for
/// each that is searched, and the filters, and then for the metadata the terms
/// and the filters again; without a query the filters alone.
pub proof fn every_condition_is_bound(opts: SearchOpts)
    ensures
        ({
            let b = opts.bound_values();
            let f = opts.filter_params();
            let n = opts.scopes().len() as int;
            let m = f.len() as int;
            &&& opts.query matches Some(q) ==> {
                &&& b.len() == 2 + n + 2 * m
                &&& b[0] == ParamView::Text(sanitized(q@))
                &&& forall|i: int|
                    0 <= i < n ==> b[1 + i] == ParamView::Text(#[trigger] opts.scopes()[i])
                &&& forall|i: int| 0 <= i < m ==> b[1 + n + i] == #[trigger] f[i]
                &&& b[1 + n + m] == ParamView::Text(sanitized(q@))
                &&& forall|i: int| 0 <= i < m ==> b[2 + n + m + i] == #[trigger] f[i]
            }
            &&& opts.query is None ==> b == f
        }),
{
}

/// Each filter that is given binds its value, in the order of the filters, and no
/// other value is bound.
pub proof fn every_filter_is_bound(opts: SearchOpts)
    ensures
        ({
            let f = opts.filter_params();
            let p: int = if opts.project is Some {
                1
            } else {
                0
            };
            let b: int = if opts.branch is Some {
                1
            } else {
                0
            };
            let c: int = if opts.cwd_glob is Some {
                1
            } else {
                0
            };
            let s: int = if opts.since is Some {
                1
            } else {
                0
            };
            &&& f.len() == p + b + c + s
            &&& opts.project matches Some(v) ==> f[0] == ParamView::Text(v@)
            &&& opts.branch matches Some(v) ==> f[p] == ParamView::Text(v@)
            &&& opts.cwd_glob matches Some(v) ==> f[p + b] == ParamView::Text(v@)
            &&& opts.since matches Some(t) ==> f[p + b + c] == ParamView::Int(t)
        }),
{
}

/// Each filter that is given adds its condition, in the order of the filters,
/// whatever else is given: on the project, the branch, the directory, and the
/// time of the message or of the session.
pub proof fn every_filter_is_a_condition(opts: SearchOpts, messages: bool)
    ensures
        ({
            let project = if opts.project is Some {
                " AND instr(s.project_dir, ?) > 0"@
            } else {
                Seq::empty()
            };
            let branch = if opts.branch is Some {
                " AND s.git_branch = ?"@
            } else {
                Seq::empty()
            };
            let cwd = if opts.cwd_glob is Some {
                " AND s.cwd GLOB ?"@
            } else {
                Seq::empty()
            };
            let since = if opts.since is None {
                Seq::empty()
            } else if messages {
                " AND m.ts >= ?"@
            } else {
                " AND COALESCE(s.last_seen, 0) >= ?"@
            };
            opts.filters(messages) == project + branch + cwd + since
        }),
{
}

/// A query asks for messages with a mark for each scope and then for metadata, a
/// search without one for sessions; the filters stand in each part, and the limit
/// at the end: 500 where none is given, and for a query eight rows for each hit.
pub proof fn statements_ask_for_what_is_searched(opts: SearchOpts)
    ensures
        opts.hit_limit() == (if opts.limit == 0 {
            500
        } else {
            opts.limit
        }),
        opts.query is None ==> opts.statement() == SELECT_SESSIONS@ + opts.filters(false)
            + ORDER_BY_TIME@ + numbers::decimal(opts.hit_limit() as int),
        opts.query is Some && opts.scopes().len() == 1 ==> opts.statement() == SELECT_MESSAGES@
            + "?"@ + ")"@ + opts.filters(true) + AND_METADATA@ + opts.filters(false)
            + ORDER_BY_RANK@ + numbers::decimal(opts.hit_limit() * 8),
        opts.query is Some && opts.scopes().len() == 2 ==> opts.statement() == SELECT_MESSAGES@ + (
        "?"@ + ","@ + "?"@) + ")"@ + opts.filters(true) + AND_METADATA@ + opts.filters(false)
            + ORDER_BY_RANK@ + numbers::decimal(opts.hit_limit() * 8),
        opts.query is Some && opts.scopes().len() == 3 ==> opts.statement() == SELECT_MESSAGES@ + (
        "?"@ + ","@ + "?"@ + ","@ + "?"@) + ")"@ + opts.filters(true) + AND_METADATA@
            + opts.filters(false) + ORDER_BY_RANK@ + numbers::decimal(opts.hit_limit() * 8),
{
    let n = opts.scopes().len();
    let marks = Seq::new(n, |i: int| "?"@);
    reveal_with_fuel(words::joined, 4);
    if n == 1 {
        assert(marks =~= seq!["?"@]);
    } else if n == 2 {
        assert(marks.drop_last() =~= seq!["?"@]);
    } else if n == 3 {
        assert(marks.drop_last().drop_last() =~= seq!["?"@]);
    }
}

/// A word of a query becomes a search term: double quotes round the word, without
/// the double quotes that it holds.
pub proof fn words_become_terms(w: Seq<char>)
    requires
        words::solid(w),
        exists|i: int| 0 <= i < w.len() && #[trigger] w[i] != '"',
    ensures
        sanitized(w) == seq!['"'] + w.filter(|c: char| c != '"') + seq!['"'],
        !w.contains('"') ==> sanitized(w) == seq!['"'] + w + seq!['"'],
{
    words::words_of_word(w);
    quotes_leave_nothing(w);
    unquoted_is_clean(w);
    let ws = seq![w];
    assert(ws.drop_last() =~= Seq::<Seq<char>>::empty());
    assert(quoted_words(ws.drop_last()) =~= Seq::<Seq<char>>::empty());
    assert(quoted_words(ws) =~= seq![quoted(unquoted(w))]);
}

/// Whether the row is the first of its session.
pub open spec fn is_first(rows: Seq<Hit>, k: int) -> bool {
    &&& 0 <= k < rows.len()
    &&& forall|j: int| 0 <= j < k ==> (#[trigger] rows[j]).file_id@ != rows[k].file_id@
}

/// The hits that are shown are rows that were found, each the first of its
/// session, in the order in which they were found.
pub proof fn hits_are_first_rows_in_order(rows: Seq<Hit>, i: int)
    requires
        0 <= i < firsts(rows).len(),
    ensures
        exists|k: int| #[trigger] is_first(rows, k) && rows[k] == firsts(rows)[i] && i <= k && (i > 0
            ==> exists|j: int| #[trigger] is_first(rows, j) && j < k && rows[j] == firsts(rows)[i - 1]),
    decreases rows.len(),
{
    let init = rows.drop_last();
    let n = rows.len() - 1;
    assert forall|k: int| #[trigger] is_first(init, k) implies is_first(rows, k) && rows[k]
        == init[k] by {
        assert forall|j: int| 0 <= j < k implies (#[trigger] rows[j]).file_id@
            != rows[k].file_id@ by {
            assert(init[j].file_id@ != init[k].file_id@);
        }
    }
    if i < firsts(init).len() {
        hits_are_first_rows_in_order(init, i);
        assert(firsts(rows)[i] == firsts(init)[i]);
        let k = choose|k: int| #[trigger]
            is_first(init, k) && init[k] == firsts(init)[i] && i <= k && (i > 0 ==> exists|j: int|
                #[trigger] is_first(init, j) && j < k && init[j] == firsts(init)[i - 1]);
        assert(is_first(rows, k));
        if i > 0 {
            let j = choose|j: int| #[trigger]
                is_first(init, j) && j < k && init[j] == firsts(init)[i - 1];
            assert(is_first(rows, j));
        }
    } else {
        assert(!has_file(init, rows[n].file_id@));
        assert(is_first(rows, n)) by {
            assert forall|j: int| 0 <= j < n implies (#[trigger] rows[j]).file_id@
                != rows[n].file_id@ by {
                if rows[j].file_id@ == rows[n].file_id@ {
                    assert(init[j].file_id@ == rows[n].file_id@);
                }
            }
        }
        firsts_are_few(init);
        if i > 0 {
            hits_are_first_rows_in_order(init, i - 1);
            let j = choose|j: int| #[trigger]
                is_first(init, j) && init[j] == firsts(init)[i - 1] && i - 1 <= j;
            assert(is_first(rows, j));
        }
    }
}

proof fn firsts_are_few(rows: Seq<Hit>)
    ensures
        firsts(rows).len() <= rows.len(),
    decreases rows.len(),
{
    if rows.len() > 0 {
        firsts_are_few(rows.drop_last());
    }
}

/// As many hits are shown as there are, up to the limit: the first of them.
pub proof fn hits_are_shown_up_to_the_limit(hits: Seq<Hit>, n: nat)
    ensures
        hits.len() <= n ==> at_most(hits, n) == hits,
        hits.len() > n ==> at_most(hits, n).len() == n,
        forall|i: int| 0 <= i < at_most(hits, n).len() ==> #[trigger] at_most(hits, n)[i] == hits[i],
{
}

/// Nothing is searched for exactly where there is a query of nothing but white
/// space and double quotes.
pub proof fn only_queries_without_a_term_are_void(opts: SearchOpts)
    ensures
        opts.is_void() <==> opts.query is Some && forall|i: int|
            0 <= i < opts.query->0@.len() ==> text::is_space(#[trigger] opts.query->0@[i])
                || opts.query->0@[i] == '"',
{
    if opts.query is Some {
        void_queries_hold_no_term(opts.query->0@);
    }
}

proof fn segments_of_the_rest(s: Seq<char>, from: nat, k: nat)
    requires
        k <= from <= s.len(),
    ensures
        segments_from(s, from) == segments_from(s.skip(k as int), (from - k) as nat),
    decreases s.len() - from,
{
    let t = s.skip(k as int);
    let f = (from - k) as nat;
    if from < s.len() {
        words::next_at_is_first(s, '/', from);
        words::next_at_is_first(t, '/', f);
        let e = words::next_at(s, '/', from) as int;
        let g = words::next_at(t, '/', f) as int;
        if e < g + k {
            assert(t[e - k] == s[e]);
        }
        if g + k < e {
            assert(t[g] == s[g + k]);
        }
        assert(e == g + k);
        if e == from {
            segments_of_the_rest(s, from + 1, k);
        } else {
            segments_of_the_rest(s, e as nat, k);
            assert(s.subrange(from as int, e) =~= t.subrange(f as int, g));
        }
    }
}

/// The parts of a path before a slash and those behind it are its parts; a path
/// without a slash is one part, unless it is empty.
pub proof fn slashes_part_a_path(a: Seq<char>, b: Seq<char>)
    ensures
        segments_from(a + seq!['/'] + b, 0) == segments_from(a, 0) + segments_from(b, 0),
        !a.contains('/') ==> segments_from(a, 0) == (if a.len() == 0 {
            Seq::empty()
        } else {
            seq![a]
        }),
    decreases a.len(),
{
    let s = a + seq!['/'] + b;
    words::next_at_is_first(s, '/', 0);
    words::next_at_is_first(a, '/', 0);
    let e = words::next_at(s, '/', 0) as int;
    let g = words::next_at(a, '/', 0) as int;
    let n = a.len() as int;
    assert(s[n] == '/');
    if e < g {
        assert(a[e] == s[e]);
    }
    if g < e {
        if g < n {
            assert(s[g] == a[g]);
        }
    }
    assert(e == g);
    if !a.contains('/') {
        if g < n {
            assert(a.contains(a[g]));
        }
        if n > 0 {
            assert(a.subrange(0, n) =~= a);
            assert(segments_from(a, n as nat) =~= Seq::<Seq<char>>::empty());
            assert(segments_from(a, 0) =~= seq![a]);
        }
    }
    if n == 0 {
        segments_of_the_rest(s, 1, 1);
        assert(s.skip(1) =~= b);
        assert(segments_from(a, 0) + segments_from(b, 0) =~= segments_from(b, 0));
    } else if e == 0 {
        let a1 = a.drop_first();
        slashes_part_a_path(a1, b);
        segments_of_the_rest(s, 1, 1);
        segments_of_the_rest(a, 1, 1);
        assert(s.skip(1) =~= a1 + seq!['/'] + b);
        assert(a.skip(1) =~= a1);
    } else {
        let a1 = a.skip(e);
        slashes_part_a_path(a1, b);
        segments_of_the_rest(s, e as nat, e as nat);
        segments_of_the_rest(a, e as nat, e as nat);
        assert(s.skip(e) =~= a1 + seq!['/'] + b);
        assert(s.subrange(0, e) =~= a.subrange(0, e));
        assert(segments_from(s, 0) =~= seq![a.subrange(0, e)] + (segments_from(a1, 0)
            + segments_from(b, 0)));
        assert(segments_from(a, 0) + segments_from(b, 0) =~= seq![a.subrange(0, e)] + (
        segments_from(a1, 0) + segments_from(b, 0)));
    }
}

/// A directory in short is its last two parts, whatever stands before them, or
/// its only part; the project's directory stands in for one that is empty.
pub proof fn directories_are_shown_by_their_end(
    before: Seq<char>,
    a: Seq<char>,
    b: Seq<char>,
    project_dir: Seq<char>,
)
    requires
        a.len() > 0,
        b.len() > 0,
        !a.contains('/'),
        !b.contains('/'),
    ensures
        short_dir(before + seq!['/'] + a + seq!['/'] + b, project_dir) == a + seq!['/'] + b,
        short_dir(a + seq!['/'] + b, project_dir) == a + seq!['/'] + b,
        short_dir(a, project_dir) == a,
        short_dir(seq!['/'] + a, project_dir) == a,
        short_dir(Seq::empty(), a) == short_dir(a, project_dir),
        short_dir(Seq::empty(), before + seq!['/'] + a + seq!['/'] + b) == a + seq!['/'] + b,
        short_dir(Seq::empty(), Seq::empty()) == seq!['?'],
        short_dir(seq!['/'], project_dir) == seq!['/'],
{
    reveal_strlit("/");
    reveal_strlit("?");
    assert("/"@ =~= seq!['/']);
    assert("?"@ =~= seq!['?']);
    let e = Seq::<char>::empty();
    slashes_part_a_path(a, b);
    slashes_part_a_path(b, e);
    slashes_part_a_path(before, a);
    slashes_part_a_path(before + seq!['/'] + a, b);
    slashes_part_a_path(e, a);
    slashes_part_a_path(e, e);
    assert(e + seq!['/'] + a =~= seq!['/'] + a);
    assert(e + seq!['/'] + e =~= seq!['/']);
    assert(segments_from(e, 0) =~= Seq::<Seq<char>>::empty());
    let p = segments_from(before, 0);
    let q = p + seq![a] + seq![b];
    assert(segments_from(before + seq!['/'] + a + seq!['/'] + b, 0) =~= q);
    assert(q[q.len() - 2] == a && q[q.len() - 1] == b);
    let r = seq![a] + seq![b];
    assert(r.len() == 2 && r[0] == a && r[1] == b);
    assert(segments_from(seq!['/'] + a, 0) =~= seq![a]);
    assert(segments_from(seq!['/'], 0) =~= Seq::<Seq<char>>::empty());
}

/// A snippet of at most 120 characters, its white space collapsed, is shown
/// whole, word by word; of a longer one the start is shown.
pub proof fn snippets_are_shown_from_their_start(s: Seq<char>)
    ensures
        words::single_spaced(s).len() <= 120 ==> words::words_of(on_one_line(s)) == words::words_of(
            s,
        ),
        words::single_spaced(s).len() <= 120 ==> on_one_line(s) == words::single_spaced(s),
        words::single_spaced(s).len() > 120 ==> text::is_cut_to_fit(
            words::single_spaced(s),
            on_one_line(s),
            120,
        ),
{
    text::clipping_keeps_what_fits(words::single_spaced(s), 120);
    words_of_text_are_solid(s);
    words::words_of_joined(words::words_of(s));
}

/// A time limit is a date or a span: a date wins, a span of so many units counts
/// back from now, and a text that is neither is none.
pub proof fn time_limits_count_back(date: i64, n: i64, unit: char, s: Seq<char>, now: i64)
    requires
        unit == 'd' || unit == 'h' || unit == 'm',
    ensures
        since_time(Some(date), s, now) == Some(date as int),
        since_time(None, numbers::decimal(n as int).push(unit), now) == Some(now - n * (if unit
            == 'd' {
            86400int
        } else if unit == 'h' {
            3600int
        } else {
            60int
        })),
        s.len() == 0 || s.last() != 'd' && s.last() != 'h' && s.last() != 'm' || numbers::int_of(
            s.drop_last(),
        ) is None ==> since_time(None, s, now) is None,
{
    spans_count_units(n, unit);
}

/// Slashes at the end of a directory do not change how it is shown in short.
pub proof fn slashes_at_the_end_do_not_show(p: Seq<char>, project_dir: Seq<char>)
    requires
        segments_from(p, 0).len() > 0,
    ensures
        short_dir(p + seq!['/'], project_dir) == short_dir(p, project_dir),
{
    let e = Seq::<char>::empty();
    slashes_part_a_path(p, e);
    assert(p + seq!['/'] + e =~= p + seq!['/']);
    assert(segments_from(p, 0) + segments_from(e, 0) =~= segments_from(p, 0));
    if p.len() == 0 {
        assert(segments_from(p, 0).len() == 0);
    }
}

/// What the parts of every statement ask for: messages by rank and age, with the
/// sessions whose metadata match among them, or all sessions, the latest first.
pub proof fn statements_rank_what_they_find()
    ensures
        SELECT_MESSAGES@ == "SELECT file_id, cwd, git_branch, project_dir, ts, scope, snip FROM (
SELECT s.file_id AS file_id, s.cwd AS cwd, s.git_branch AS git_branch,
       s.project_dir AS project_dir, m.ts AS ts, m.scope AS scope,
       snippet(messages_fts, 0, '', '', '\u{2026}', 12) AS snip,
       bm25(messages_fts) AS score
  FROM messages_fts
  JOIN messages m  ON m.msg_id  = messages_fts.rowid
  JOIN sessions s  ON s.file_id = m.file_id
 WHERE messages_fts MATCH ?
   AND m.scope IN ("@,
        AND_METADATA@ == "
UNION ALL
SELECT s.file_id, s.cwd, s.git_branch, s.project_dir, COALESCE(s.last_seen, 0), 'session',
       COALESCE(s.ai_title, s.slug, s.last_prompt, ''),
       bm25(sessions_fts)
  FROM sessions_fts
  JOIN sessions s ON s.file_id = sessions_fts.file_id
 WHERE sessions_fts MATCH ?"@,
        SELECT_SESSIONS@ == "SELECT s.file_id, s.cwd, s.git_branch, s.project_dir,
       COALESCE(s.last_seen, 0) AS ts,
       'session' AS scope,
       COALESCE(s.ai_title, s.slug, s.last_prompt, '') AS snip
  FROM sessions s
 WHERE 1=1"@,
        ORDER_BY_RANK@ == "
) ORDER BY score
       + ((strftime('%s','now') - ts) / 86400.0) * 0.02
       + CASE
           WHEN (strftime('%s','now') - ts) <  3600  THEN -3.0
           WHEN (strftime('%s','now') - ts) < 86400  THEN -1.5
           WHEN (strftime('%s','now') - ts) < 604800 THEN -0.5
           ELSE 0
         END
  ASC LIMIT "@,
        ORDER_BY_TIME@ == " ORDER BY COALESCE(s.last_seen, 0) DESC LIMIT "@,
{
}

/// The line that shows a hit holds its time, its directory in short, its branch
/// or a dash for none, its snippet on one line and its id, with tabs between
/// them, whatever they hold.
pub proof fn lines_hold_what_was_found(hit: Hit, stamp: Seq<char>)
    ensures
        line_of(hit, stamp) == stamp + "\t"@ + short_dir(hit.cwd@, hit.project_dir@) + "\t"@ + (
        if hit.git_branch@.len() > 0 {
            hit.git_branch@
        } else {
            "-"@
        }) + "\t"@ + on_one_line(hit.snippet@) + "\t"@ + hit.file_id@,
        forall|line: Seq<char>| #[trigger]
            shows(hit, line) ==> exists|t: Seq<char>|
                line == #[trigger] line_of(hit, t) && (0 < hit.ts <= clock::LAST_TIME
                    ==> clock::local_minutes(hit.ts, t)) && (!(0 < hit.ts <= clock::LAST_TIME)
                    ==> t.len() == 0),
{
    assert forall|line: Seq<char>| #[trigger] shows(hit, line) implies exists|t: Seq<char>|
        line == #[trigger] line_of(hit, t) && (0 < hit.ts <= clock::LAST_TIME
            ==> clock::local_minutes(hit.ts, t)) && (!(0 < hit.ts <= clock::LAST_TIME) ==> t.len()
            == 0) by {
        let t = choose|t: Seq<char>| #[trigger] stamps(hit.ts, t) && line == line_of(hit, t);
        assert(line == line_of(hit, t));
    }
}

/// A time limit of so many units can be worked out wherever neither the span nor
/// its start leaves 64 bits, and one that is no span can be wherever its last
/// character is ASCII.
pub proof fn ordinary_time_limits_are_workable(n: i64, unit: char, s: Seq<char>, now: i64)
    requires
        unit == 'd' || unit == 'h' || unit == 'm',
        s.len() == 0 || s.last() != 'd' && s.last() != 'h' && s.last() != 'm',
    ensures
        ({
            let span = n * (if unit == 'd' {
                86400int
            } else if unit == 'h' {
                3600int
            } else {
                60int
            });
            let limit = numbers::decimal(n as int).push(unit);
            &&& is_workable(limit, now) <==> i64::MIN <= span <= i64::MAX && i64::MIN <= now - span
                <= i64::MAX
            &&& is_always_workable(limit) <==> i64::MIN <= span <= i64::MAX && i64::MIN
                <= clock::LAST_TIME - span <= i64::MAX
        }),
        is_workable(s, now) <==> s.len() == 0 || (s.last() as u32) < 0x80,
        is_always_workable(s) <==> s.len() == 0 || (s.last() as u32) < 0x80,
{
    spans_count_units(n, unit);
    assert(numbers::decimal(n as int).push(unit).last() == unit);
    assert(('d' as u32) < 0x80 && ('h' as u32) < 0x80 && ('m' as u32) < 0x80);
}

/// A message is searched under the name that it is stored by: the user's always,
/// the assistant's and the tool calls where they are asked for.
pub proof fn stored_scopes_are_searched(opts: SearchOpts, scope: crate::session::Scope)
    ensures
        opts.scopes().contains(scope.name()) <==> scope == crate::session::Scope::User || (scope
            == crate::session::Scope::Assistant && (opts.scope == Some(ScopeFlag::Assistant)
            || opts.scope == Some(ScopeFlag::All))) || (scope == crate::session::Scope::Tool && (
        opts.scope == Some(ScopeFlag::Tools) || opts.scope == Some(ScopeFlag::All))),
{
    scopes_are_those_asked_for(opts);
}

/// The values that are bound are those in the list, in order.
pub proof fn bound_values_are_as_they_are(params: Seq<SqlParam>, i: int)
    ensures
        param_views(params).len() == params.len(),
        0 <= i < params.len() && params[i] is Text ==> param_views(params)[i] == ParamView::Text(
            params[i]->Text_0@,
        ),
        0 <= i < params.len() && params[i] is Int ==> param_views(params)[i] == ParamView::Int(
            params[i]->Int_0,
        ),
{
}

} // verus!
