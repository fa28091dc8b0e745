//! Showing a session: its header, and its messages around the matches of a
//! query.

use crate::clock;
use crate::clock::local_text;
use crate::highlight;
use crate::highlight::highlight;
use crate::index::SessionRow;
use crate::numbers;
use crate::numbers::{fixed_text, signed_text, unsigned_text};
use crate::paint;
use crate::paint::{paint, Ink};
use crate::session;
use crate::session::{Action, Event, Scope};
use crate::text;
use crate::text::{clip, concat, same};
use crate::words;
use crate::words::{contains_text, lines, single_space, words};
use vstd::prelude::*;

verus! {

// --------------------------------------------------------------- small formats

/// How many spaces fill `have` characters up to `want`.
pub open spec fn fill(have: nat, want: nat) -> Seq<char> {
    Seq::new(
        if have < want {
            (want - have) as nat
        } else {
            0
        },
        |i: int| ' ',
    )
}

/// A text with spaces behind it, up to `want` characters.
pub open spec fn padded(s: Seq<char>, want: nat) -> Seq<char> {
    s + fill(s.len(), want)
}

/// Fills a text up with spaces.
pub fn pad(s: &str, want: usize) -> (r: String)
    ensures
        r@ == padded(s@, want as nat),
{
    let mut out = s.to_owned();
    let mut n: usize = s.unicode_len();
    let ghost have = s@.len();
    proof {
        assert(out@ =~= s@ + fill(have, have));
    }
    while n < want
        invariant
            have == s@.len(),
            have <= n,
            have < n ==> n <= want,
            out@ == s@ + fill(have, n as nat),
        decreases want - n,
    {
        out.push(' ');
        n += 1;
        proof {
            assert(out@ =~= s@ + fill(have, n as nat));
        }
    }
    proof {
        assert(fill(have, n as nat) =~= fill(have, want as nat));
    }
    out
}

/// A span of time in words.
pub open spec fn duration_text(secs: int) -> Seq<char> {
    let m = secs / 60;
    let h = m / 60;
    let d = h / 24;
    if secs < 0 {
        "?"@
    } else if d > 0 {
        numbers::decimal(d) + "d "@ + numbers::decimal(h % 24) + "h"@
    } else if h > 0 {
        numbers::decimal(h) + "h "@ + numbers::decimal(m % 60) + "m"@
    } else if m > 0 {
        numbers::decimal(m) + "m"@
    } else {
        numbers::decimal(secs) + "s"@
    }
}

/// Puts a span of time in words.
pub fn humanize_duration(secs: i64) -> (r: String)
    ensures
        r@ == duration_text(secs as int),
{
    if secs < 0 {
        return "?".to_owned();
    }
    let m: i64 = secs / 60;
    let h: i64 = m / 60;
    let d: i64 = h / 24;
    let mut out = String::new();
    if d > 0 {
        out.append(signed_text(d).as_str());
        out.append("d ");
        out.append(signed_text(h % 24).as_str());
        out.append("h");
    } else if h > 0 {
        out.append(signed_text(h).as_str());
        out.append("h ");
        out.append(signed_text(m % 60).as_str());
        out.append("m");
    } else if m > 0 {
        out.append(signed_text(m).as_str());
        out.append("m");
    } else {
        out.append(signed_text(secs).as_str());
        out.append("s");
    }
    proof {
        assert(out@ =~= duration_text(secs as int));
    }
    out
}

/// A size in words.
pub open spec fn size_text(b: nat) -> Seq<char> {
    if b >= 0x4000_0000 {
        numbers::fixed(b, 0x4000_0000, 2) + " GB"@
    } else if b >= 0x10_0000 {
        numbers::fixed(b, 0x10_0000, 1) + " MB"@
    } else if b >= 0x400 {
        numbers::fixed(b, 0x400, 0) + " KB"@
    } else {
        numbers::decimal(b as int) + " B"@
    }
}

/// Puts a size in words.
pub fn humanize_bytes(b: u64) -> (r: String)
    ensures
        r@ == size_text(b as nat),
{
    if b >= 0x4000_0000 {
        concat(fixed_text(b, 0x4000_0000, 2).as_str(), " GB")
    } else if b >= 0x10_0000 {
        concat(fixed_text(b, 0x10_0000, 1).as_str(), " MB")
    } else if b >= 0x400 {
        concat(fixed_text(b, 0x400, 0).as_str(), " KB")
    } else {
        concat(unsigned_text(b as u128).as_str(), " B")
    }
}

/// Whether `s` can be the text of a time: the time, written in some time zone,
/// where the calendar covers it, else the number itself.
pub open spec fn shows_time(ts: i64, s: Seq<char>) -> bool {
    if clock::FIRST_TIME <= ts <= clock::LAST_TIME {
        clock::local_minutes(ts, s)
    } else {
        s == numbers::decimal(ts as int)
    }
}

/// A time, in the machine's time zone.
pub fn fmt_ts(ts: i64) -> (r: String)
    ensures
        shows_time(ts, r@),
{
    match local_text(ts, clock::MINUTES) {
        Some(s) => s,
        None => signed_text(ts),
    }
}

// --------------------------------------------------------------------- header

/// How much of the last prompt the header shows.
pub const PROMPT_CHARS: usize = 80;

/// A field of the header.
pub open spec fn field(label: Seq<char>, value: Seq<char>) -> Seq<char> {
    paint::painted(Ink::BoldWhite, padded(label, 9)) + " "@ + value
}

/// A value, or a dash for none.
pub open spec fn dashed(s: Seq<char>) -> Seq<char> {
    if s.len() == 0 {
        "-"@
    } else {
        s
    }
}

/// The directory that the header shows.
pub open spec fn shown_cwd(row: SessionRow) -> Seq<char> {
    match row.cwd {
        Some(c) => c@,
        None => row.project_dir@,
    }
}

/// The content of an optional text, or nothing.
pub open spec fn or_empty(o: Option<String>) -> Seq<char> {
    match o {
        Some(s) => s@,
        None => Seq::empty(),
    }
}

/// The line about the session's time, if it has a last time.
pub open spec fn time_lines(row: SessionRow, first: Seq<char>, last: Seq<char>) -> Seq<Seq<char>> {
    match (row.first_seen, row.last_seen) {
        (Some(f), Some(l)) => seq![
            field(
                "range:"@,
                first + "  \u{2192}  "@ + last + "  ("@ + duration_text(l - f) + ")"@,
            ),
        ],
        (None, Some(l)) => seq![field("last:"@, last)],
        _ => Seq::empty(),
    }
}

/// The line about the last prompt, unless it is blank.
pub open spec fn prompt_lines(row: SessionRow) -> Seq<Seq<char>> {
    match row.last_prompt {
        Some(p) => {
            let cut = text::clipped(words::single_spaced(p@), PROMPT_CHARS as nat);
            if cut.len() == 0 {
                Seq::empty()
            } else {
                seq![field("last cmd:"@, cut)]
            }
        },
        None => Seq::empty(),
    }
}

/// The size of the session's file, if it is known.
pub open spec fn size_or_unknown(size: Option<u64>) -> Seq<char> {
    match size {
        Some(b) => size_text(b as nat),
        None => "?"@,
    }
}

/// One line if there is something to show.
pub open spec fn only_if(cond: bool, line: Seq<char>) -> Seq<Seq<char>> {
    if cond {
        seq![line]
    } else {
        Seq::empty()
    }
}

/// The lines about what the session is.
pub open spec fn identity_lines(row: SessionRow) -> Seq<Seq<char>> {
    let cwd = shown_cwd(row);
    let slug = or_empty(row.slug);
    seq![field("session:"@, row.file_id@), field("title:"@, dashed(or_empty(row.ai_title)))]
        + only_if(slug.len() > 0, field("slug:"@, slug)) + seq![field("cwd:"@, cwd)] + only_if(
        cwd != row.project_dir@,
        field("project:"@, row.project_dir@),
    ) + seq![field("branch:"@, dashed(or_empty(row.git_branch)))]
}

/// The lines about what the session holds.
pub open spec fn content_lines(row: SessionRow, size: Option<u64>) -> Seq<Seq<char>> {
    seq![
        field("messages:"@, numbers::decimal(row.message_count as int)),
        field("file:"@, row.jsonl_path@ + " ("@ + size_or_unknown(size) + ")"@),
    ]
}

/// The header of a session. `first` and `last` are its two times.
pub open spec fn header_of(
    row: SessionRow,
    size: Option<u64>,
    first: Seq<char>,
    last: Seq<char>,
) -> Seq<Seq<char>> {
    identity_lines(row) + time_lines(row, first, last) + content_lines(row, size) + prompt_lines(
        row,
    ) + seq![Seq::empty()]
}

fn header_field(label: &str, value: &str) -> (r: String)
    ensures
        r@ == field(label@, value@),
{
    let head = paint(Ink::BoldWhite, pad(label, 9).as_str());
    let mut out = concat(head.as_str(), " ");
    out.append(value);
    out
}

fn dash(s: &Option<String>) -> (r: String)
    ensures
        r@ == dashed(or_empty(*s)),
{
    match s {
        Some(t) => if t.as_str().is_empty() {
            "-".to_owned()
        } else {
            t.clone()
        },
        None => "-".to_owned(),
    }
}

fn push_line(out: &mut Vec<String>, line: String)
    ensures
        text::texts(final(out)@) == text::texts(old(out)@).push(line@),
{
    out.push(line);
    proof {
        assert(text::texts(out@) =~= text::texts(old(out)@).push(line@));
    }
}

fn push_identity(out: &mut Vec<String>, row: &SessionRow)
    ensures
        text::texts(final(out)@) == text::texts(old(out)@) + identity_lines(*row),
{
    let cwd = match &row.cwd {
        Some(c) => c.clone(),
        None => row.project_dir.clone(),
    };
    push_line(out, header_field("session:", row.file_id.as_str()));
    push_line(out, header_field("title:", dash(&row.ai_title).as_str()));
    if let Some(slug) = &row.slug {
        if !slug.as_str().is_empty() {
            push_line(out, header_field("slug:", slug.as_str()));
        }
    }
    push_line(out, header_field("cwd:", cwd.as_str()));
    if !same(cwd.as_str(), row.project_dir.as_str()) {
        push_line(out, header_field("project:", row.project_dir.as_str()));
    }
    push_line(out, header_field("branch:", dash(&row.git_branch).as_str()));
    proof {
        assert(text::texts(out@) =~= text::texts(old(out)@) + identity_lines(*row));
    }
}

fn push_times(out: &mut Vec<String>, row: &SessionRow, first: &str, last: &str)
    requires
        row.first_seen is Some && row.last_seen is Some ==> i64::MIN <= row.last_seen->0
            - row.first_seen->0 <= i64::MAX,
    ensures
        text::texts(final(out)@) == text::texts(old(out)@) + time_lines(*row, first@, last@),
{
    match (row.first_seen, row.last_seen) {
        (Some(f), Some(l)) => {
            let mut range = concat(first, "  \u{2192}  ");
            range.append(last);
            range.append("  (");
            range.append(humanize_duration(l - f).as_str());
            range.append(")");
            push_line(out, header_field("range:", range.as_str()));
        },
        (None, Some(_)) => {
            push_line(out, header_field("last:", last));
        },
        _ => {},
    }
    proof {
        assert(text::texts(out@) =~= text::texts(old(out)@) + time_lines(*row, first@, last@));
    }
}

fn push_content(out: &mut Vec<String>, row: &SessionRow, size: Option<u64>)
    ensures
        text::texts(final(out)@) == text::texts(old(out)@) + content_lines(*row, size),
{
    push_line(out, header_field("messages:", signed_text(row.message_count).as_str()));
    let size_str = match size {
        Some(b) => humanize_bytes(b),
        None => "?".to_owned(),
    };
    let mut file = concat(row.jsonl_path.as_str(), " (");
    file.append(size_str.as_str());
    file.append(")");
    push_line(out, header_field("file:", file.as_str()));
    proof {
        assert(text::texts(out@) =~= text::texts(old(out)@) + content_lines(*row, size));
    }
}

fn push_prompt(out: &mut Vec<String>, row: &SessionRow)
    ensures
        text::texts(final(out)@) == text::texts(old(out)@) + prompt_lines(*row),
{
    if let Some(p) = &row.last_prompt {
        let cut = clip(single_space(p.as_str()).as_str(), PROMPT_CHARS);
        if !cut.as_str().is_empty() {
            push_line(out, header_field("last cmd:", cut.as_str()));
        }
    }
    proof {
        assert(text::texts(out@) =~= text::texts(old(out)@) + prompt_lines(*row));
    }
}

/// The header of a session, with `first` and `last` as its two times.
pub fn header_with(row: &SessionRow, size: Option<u64>, first: &str, last: &str) -> (r: Vec<String>)
    requires
        row.first_seen is Some && row.last_seen is Some ==> i64::MIN <= row.last_seen->0
            - row.first_seen->0 <= i64::MAX,
    ensures
        text::texts(r@) == header_of(*row, size, first@, last@),
{
    let mut out: Vec<String> = Vec::new();
    push_identity(&mut out, row);
    push_times(&mut out, row, first, last);
    push_content(&mut out, row, size);
    push_prompt(&mut out, row);
    push_line(&mut out, String::new());
    proof {
        assert(text::texts(out@) =~= header_of(*row, size, first@, last@));
    }
    out
}

/// Whether `s` can be the text of a time, where there is one.
pub open spec fn shows_opt_time(ts: Option<i64>, s: Seq<char>) -> bool {
    match ts {
        Some(t) => shows_time(t, s),
        None => s.len() == 0,
    }
}

/// The header of a session, its times in the machine's time zone; `size` is the
/// size of its file, if that is known.
pub fn print_header(row: &SessionRow, size: Option<u64>) -> (r: Vec<String>)
    requires
        row.first_seen is Some && row.last_seen is Some ==> i64::MIN <= row.last_seen->0
            - row.first_seen->0 <= i64::MAX,
    ensures
        exists|first: Seq<char>, last: Seq<char>|
            #![trigger header_of(*row, size, first, last)]
            shows_opt_time(row.first_seen, first) && shows_opt_time(row.last_seen, last)
                && text::texts(r@) == header_of(*row, size, first, last),
{
    let first = match row.first_seen {
        Some(t) => fmt_ts(t),
        None => String::new(),
    };
    let last = match row.last_seen {
        Some(t) => fmt_ts(t),
        None => String::new(),
    };
    header_with(row, size, first.as_str(), last.as_str())
}

// ------------------------------------------------------------------------ items

/// A message that can be shown.
pub struct Item {
    pub ts: i64,
    pub role: Scope,
    pub body: String,
}

/// A message that can be shown, as plain values.
pub struct ItemView {
    pub ts: i64,
    pub role: Scope,
    pub body: Seq<char>,
}

impl View for Item {
    type V = ItemView;

    open spec fn view(&self) -> ItemView {
        ItemView { ts: self.ts, role: self.role, body: self.body@ }
    }
}

/// The contents of a list of messages.
pub open spec fn item_views(v: Seq<Item>) -> Seq<ItemView> {
    v.map_values(|i: Item| i@)
}

/// The messages of an event: the rows that the index has of it.
pub open spec fn event_items(ev: Event) -> Seq<ItemView> {
    session::rows_of(ev.action()).map_values(
        |r: session::RowView| ItemView { ts: ev.time(), role: r.0, body: r.1 },
    )
}

/// The messages of a file, in order. A line without a readable event is `None`.
pub open spec fn items_of(events: Seq<Option<Event>>) -> Seq<ItemView>
    decreases events.len(),
{
    if events.len() == 0 {
        Seq::empty()
    } else {
        let before = items_of(events.drop_last());
        match events.last() {
            Some(ev) => before + event_items(ev),
            None => before,
        }
    }
}

fn push_item(out: &mut Vec<Item>, ts: i64, role: Scope, body: String)
    ensures
        item_views(final(out)@) == item_views(old(out)@).push(ItemView { ts, role, body: body@ }),
{
    let item = Item { ts, role, body };
    out.push(item);
    proof {
        assert(item_views(out@) =~= item_views(old(out)@).push(item@));
    }
}

fn push_event(out: &mut Vec<Item>, ev: &Event)
    ensures
        item_views(final(out)@) == item_views(old(out)@) + event_items(*ev),
{
    let ts = ev.seconds();
    let ghost all = event_items(*ev);
    match ev.classify() {
        Action::Index { scope, body } => {
            push_item(out, ts, scope, body);
            proof {
                assert(item_views(out@) =~= item_views(old(out)@) + all);
            }
        },
        Action::IndexMany(rows) => {
            let mut i: usize = 0;
            while i < rows.len()
                invariant
                    i <= rows@.len(),
                    ts == ev.time(),
                    ev.action() == session::ActionView::IndexMany(session::row_views(rows@)),
                    all == event_items(*ev),
                    item_views(out@) == item_views(old(out)@) + all.take(i as int),
                decreases rows@.len() - i,
            {
                push_item(out, ts, rows[i].0, rows[i].1.clone());
                proof {
                    assert(all.take(i + 1) =~= all.take(i as int).push(all[i as int]));
                    assert(item_views(out@) =~= item_views(old(out)@) + all.take(i + 1));
                }
                i += 1;
            }
            proof {
                assert(all.take(i as int) =~= all);
            }
        },
        _ => {
            proof {
                assert(item_views(out@) =~= item_views(old(out)@) + all);
            }
        },
    }
}

/// The messages of a file, in order.
pub fn items(events: &Vec<Option<Event>>) -> (r: Vec<Item>)
    ensures
        item_views(r@) == items_of(events@),
{
    let mut out: Vec<Item> = Vec::new();
    let mut i: usize = 0;
    proof {
        assert(item_views(out@) =~= items_of(events@.take(0)));
    }
    while i < events.len()
        invariant
            i <= events@.len(),
            item_views(out@) == items_of(events@.take(i as int)),
        decreases events@.len() - i,
    {
        proof {
            assert(events@.take(i + 1).drop_last() =~= events@.take(i as int));
            assert(events@.take(i + 1).last() == events@[i as int]);
        }
        if let Some(ev) = &events[i] {
            push_event(&mut out, ev);
        }
        i += 1;
    }
    proof {
        assert(events@.take(i as int) =~= events@);
    }
    out
}

/// What the preview shows of a file are the messages that the index has of it.
pub proof fn preview_shows_what_is_indexed(
    events: Seq<Option<Event>>,
    mode: crate::index::ParseModeTag,
)
    ensures
        items_of(events).len() == crate::index::facts_of(events, mode).rows.len(),
        forall|i: int|
            0 <= i < items_of(events).len() ==> {
                let row = crate::index::facts_of(events, mode).rows[i];
                (#[trigger] items_of(events)[i]) == (ItemView {
                    ts: row.ts,
                    role: row.scope,
                    body: row.body,
                })
            },
    decreases events.len(),
{
    if events.len() > 0 {
        preview_shows_what_is_indexed(events.drop_last(), mode);
    }
}

/// The text of a line that is read as an event: the line without the white
/// space at its ends; `None` for a blank line.
pub fn event_text(line: &str) -> (r: Option<String>)
    ensures
        text::opt_text(r) == (if words::trimmed(line@).len() == 0 {
            None
        } else {
            Some(words::trimmed(line@))
        }),
{
    let t = words::trim(line);
    if t.as_str().is_empty() {
        None
    } else {
        Some(t)
    }
}

// -------------------------------------------------------------------- selection

/// How many messages are shown without a match.
pub const FIRST_ITEMS: usize = 20;

/// With this many messages chosen, no further match is looked for.
pub const MAX_CHUNK_EVENTS: usize = 50;

/// How many messages before a match are shown.
pub const CONTEXT_BEFORE: usize = 2;

/// How many messages behind a match are shown.
pub const CONTEXT_AFTER: usize = 3;

/// The search terms of a query: its words in lowercase.
pub open spec fn terms_of(query: Option<Seq<char>>) -> Seq<Seq<char>> {
    match query {
        Some(q) => words::words_of(q).map_values(|w: Seq<char>| text::lower(w)),
        None => Seq::empty(),
    }
}

/// The search terms of a query.
pub fn terms(query: Option<&str>) -> (r: Vec<String>)
    ensures
        text::texts(r@) == terms_of(text::opt_str(query)),
{
    let mut out: Vec<String> = Vec::new();
    match query {
        None => {
            proof {
                assert(text::texts(out@) =~= Seq::<Seq<char>>::empty());
            }
        },
        Some(q) => {
            let ws = words(q);
            let ghost all = words::words_of(q@).map_values(|w: Seq<char>| text::lower(w));
            let mut i: usize = 0;
            while i < ws.len()
                invariant
                    text::texts(ws@) == words::words_of(q@),
                    all == words::words_of(q@).map_values(|w: Seq<char>| text::lower(w)),
                    i <= ws@.len(),
                    text::texts(out@) == all.take(i as int),
                decreases ws@.len() - i,
            {
                let t = ws[i].as_str().to_lowercase();
                let ghost before = text::texts(out@);
                out.push(t);
                proof {
                    assert(text::texts(ws@)[i as int] == ws@[i as int]@);
                    assert(text::texts(out@) =~= before.push(t@));
                    assert(all.take(i + 1) =~= before.push(all[i as int]));
                }
                i += 1;
            }
            proof {
                assert(text::texts(ws@).len() == ws@.len());
                assert(all.take(i as int) =~= all);
            }
        },
    }
    out
}

/// Whether one of the terms occurs in a text, given in lowercase.
pub open spec fn has_term(lc: Seq<char>, ts: Seq<Seq<char>>) -> bool {
    exists|k: int| 0 <= k < ts.len() && words::has_text(lc, #[trigger] ts[k])
}

fn any_term(lc: &str, ts: &Vec<String>) -> (r: bool)
    ensures
        r == has_term(lc@, text::texts(ts@)),
{
    let mut k: usize = 0;
    while k < ts.len()
        invariant
            k <= ts@.len(),
            forall|j: int|
                0 <= j < k ==> !words::has_text(lc@, #[trigger] text::texts(ts@)[j]),
        decreases ts@.len() - k,
    {
        if contains_text(lc, ts[k].as_str()) {
            proof {
                assert(words::has_text(lc@, text::texts(ts@)[k as int]));
            }
            return true;
        }
        k += 1;
    }
    false
}

proof fn terms_of_ascii(q: Seq<char>)
    requires
        text::is_ascii(q),
    ensures
        terms_of(Some(q)) == words::words_of(text::ascii_lower(q)),
{
    let ws = words::words_of(q);
    words::words_of_lower(q);
    words::words_are_solid(q);
    assert forall|k: int| 0 <= k < ws.len() implies text::lower(#[trigger] ws[k])
        == text::ascii_lower(ws[k]) by {
        assert forall|j: int| 0 <= j < ws[k].len() implies (#[trigger] ws[k][j] as u32) < 0x80 by {
            let c = words::words_of(q)[k][j];
            assert(q.contains(c));
            let i = choose|i: int| 0 <= i < q.len() && q[i] == c;
            assert((q[i] as u32) < 0x80);
        }
    }
    assert(terms_of(Some(q)) =~= words::words_of(text::ascii_lower(q)));
}

/// Whether a message matches a query does not depend on the case of their ASCII
/// letters.
pub proof fn matching_ignores_ascii_case(
    body: Seq<char>,
    other_body: Seq<char>,
    query: Seq<char>,
    other_query: Seq<char>,
)
    requires
        text::is_ascii(body),
        text::is_ascii(other_body),
        text::ascii_lower(body) == text::ascii_lower(other_body),
        text::is_ascii(query),
        text::is_ascii(other_query),
        text::ascii_lower(query) == text::ascii_lower(other_query),
    ensures
        has_term(text::lower(body), terms_of(Some(query))) == has_term(
            text::lower(other_body),
            terms_of(Some(other_query)),
        ),
{
    terms_of_ascii(query);
    terms_of_ascii(other_query);
}

/// Which messages match.
pub open spec fn hits_of(its: Seq<ItemView>, ts: Seq<Seq<char>>) -> Seq<bool> {
    Seq::new(its.len(), |i: int| has_term(text::lower(its[i].body), ts))
}

/// The first message that is shown for a match at `i`.
pub open spec fn window_start(i: int) -> int {
    if i >= CONTEXT_BEFORE {
        i - CONTEXT_BEFORE
    } else {
        0
    }
}

/// The end of what is shown for a match at `i`, of `n` messages.
pub open spec fn window_end(i: int, n: int) -> int {
    if i + CONTEXT_AFTER + 1 <= n {
        i + CONTEXT_AFTER + 1
    } else {
        n
    }
}

/// The numbers from `a` up to `b`.
pub open spec fn numbers_from(a: int, b: int) -> Seq<int> {
    Seq::new(
        if a < b {
            (b - a) as nat
        } else {
            0
        },
        |j: int| a + j,
    )
}

/// The messages that are chosen by the matches among the first `k`: those around
/// each match, until there are enough.
pub open spec fn chosen(hits: Seq<bool>, k: nat) -> Seq<int>
    decreases k,
{
    if k == 0 {
        Seq::empty()
    } else {
        let before = chosen(hits, (k - 1) as nat);
        let i = k - 1;
        if before.len() >= MAX_CHUNK_EVENTS || !hits[i] {
            before
        } else {
            let lo = window_start(i);
            let from = if before.len() > 0 && before.last() >= lo {
                before.last() + 1
            } else {
                lo
            };
            before + numbers_from(from, window_end(i, hits.len() as int))
        }
    }
}

/// The messages that are shown: those around the matches, or the first few
/// without terms or matches.
pub open spec fn shown(hits: Seq<bool>, searching: bool) -> Seq<int> {
    let c = chosen(hits, hits.len());
    if searching && c.len() > 0 {
        c
    } else {
        numbers_from(
            0,
            if hits.len() < FIRST_ITEMS {
                hits.len() as int
            } else {
                FIRST_ITEMS as int
            },
        )
    }
}

/// A list of positions as integers.
pub open spec fn ints(v: Seq<usize>) -> Seq<int> {
    v.map_values(|i: usize| i as int)
}

fn push_numbers(out: &mut Vec<usize>, from: usize, to: usize)
    ensures
        ints(final(out)@) == ints(old(out)@) + numbers_from(from as int, to as int),
{
    let mut k: usize = from;
    proof {
        assert(ints(out@) =~= ints(old(out)@) + numbers_from(from as int, from as int));
    }
    while k < to
        invariant
            from <= k,
            from < k ==> k <= to,
            ints(out@) == ints(old(out)@) + numbers_from(from as int, k as int),
        decreases to - k,
    {
        let ghost before = ints(out@);
        out.push(k);
        proof {
            assert(ints(out@) =~= before.push(k as int));
            assert(numbers_from(from as int, k + 1) =~= numbers_from(from as int, k as int).push(
                k as int,
            ));
            assert(ints(out@) =~= ints(old(out)@) + numbers_from(from as int, k + 1));
        }
        k += 1;
    }
    proof {
        assert(numbers_from(from as int, k as int) =~= numbers_from(from as int, to as int));
    }
}

fn first_items(n: usize) -> (r: Vec<usize>)
    ensures
        ints(r@) == numbers_from(
            0,
            if n < FIRST_ITEMS {
                n as int
            } else {
                FIRST_ITEMS as int
            },
        ),
{
    let mut out: Vec<usize> = Vec::new();
    let to = if n < FIRST_ITEMS {
        n
    } else {
        FIRST_ITEMS
    };
    push_numbers(&mut out, 0, to);
    proof {
        assert(ints(out@) =~= numbers_from(0, to as int));
    }
    out
}

/// Once enough messages are chosen, further matches do not count.
proof fn chosen_stays(hits: Seq<bool>, k: nat, l: nat)
    requires
        k <= l <= hits.len(),
        chosen(hits, k).len() >= MAX_CHUNK_EVENTS,
    ensures
        chosen(hits, l) == chosen(hits, k),
    decreases l,
{
    if k < l {
        chosen_stays(hits, k, (l - 1) as nat);
    }
}

proof fn chosen_in_range(hits: Seq<bool>, k: nat)
    requires
        k <= hits.len(),
    ensures
        forall|j: int|
            0 <= j < chosen(hits, k).len() ==> 0 <= #[trigger] chosen(hits, k)[j] < hits.len(),
    decreases k,
{
    if k > 0 {
        chosen_in_range(hits, (k - 1) as nat);
        let before = chosen(hits, (k - 1) as nat);
        if before.len() > 0 {
            assert(0 <= before[before.len() - 1]);
        }
    }
}

/// Chooses the messages that are shown.
pub fn render_indices(its: &Vec<Item>, ts: &Vec<String>) -> (r: Vec<usize>)
    ensures
        ints(r@) == shown(hits_of(item_views(its@), text::texts(ts@)), ts@.len() > 0),
        forall|j: int| 0 <= j < r@.len() ==> #[trigger] r@[j] < its@.len(),
{
    let ghost hits = hits_of(item_views(its@), text::texts(ts@));
    let n = its.len();
    proof {
        chosen_in_range(hits, hits.len());
    }
    let mut out: Vec<usize> = Vec::new();
    if ts.len() > 0 {
        let mut i: usize = 0;
        proof {
            assert(ints(out@) =~= chosen(hits, 0));
        }
        while i < n && out.len() < MAX_CHUNK_EVENTS
            invariant
                n == its@.len(),
                hits == hits_of(item_views(its@), text::texts(ts@)),
                i <= n,
                ints(out@) == chosen(hits, i as nat),
            decreases n - i,
        {
            let lc = its[i].body.as_str().to_lowercase();
            proof {
                assert(item_views(its@)[i as int].body == its@[i as int].body@);
            }
            if any_term(lc.as_str(), ts) {
                let lo = if i >= CONTEXT_BEFORE {
                    i - CONTEXT_BEFORE
                } else {
                    0
                };
                let hi = if n - i > CONTEXT_AFTER + 1 {
                    i + CONTEXT_AFTER + 1
                } else {
                    n
                };
                proof {
                    chosen_in_range(hits, i as nat);
                    if out@.len() > 0 {
                        assert(ints(out@).last() == out@.last());
                        assert(0 <= chosen(hits, i as nat)[out@.len() - 1] < hits.len());
                    }
                }
                let from = if out.len() > 0 && out[out.len() - 1] >= lo {
                    out[out.len() - 1] + 1
                } else {
                    lo
                };
                push_numbers(&mut out, from, hi);
            }
            i += 1;
        }
        proof {
            assert(ints(out@).len() == out@.len());
            if i < n {
                chosen_stays(hits, i as nat, hits.len());
            }
        }
    }
    if out.len() == 0 {
        out = first_items(n);
    }
    proof {
        let all = shown(hits, ts@.len() > 0);
        let c = chosen(hits, hits.len());
        assert(ints(out@) == all);
        assert forall|j: int| 0 <= j < out@.len() implies #[trigger] out@[j] < its@.len() by {
            assert(ints(out@)[j] == out@[j]);
            if ts@.len() > 0 && c.len() > 0 {
                assert(0 <= c[j] < hits.len());
            }
        }
    }
    out
}

/// How many messages the choice goes through: all, or up to the match with
/// which enough are chosen.
pub open spec fn passed(hits: Seq<bool>, k: nat) -> nat
    decreases k,
{
    if k == 0 {
        0
    } else if chosen(hits, (k - 1) as nat).len() >= MAX_CHUNK_EVENTS {
        passed(hits, (k - 1) as nat)
    } else {
        k
    }
}

/// Whether message `i` matches and message `x` is shown with it.
pub open spec fn in_window(hits: Seq<bool>, i: int, x: int) -> bool {
    hits[i] && window_start(i) <= x < window_end(i, hits.len() as int)
}

/// Whether a match among the first `k` messages has message `x` around it.
pub open spec fn near_match(hits: Seq<bool>, k: nat, x: int) -> bool {
    exists|i: int| 0 <= i < k && #[trigger] in_window(hits, i, x)
}

/// The chosen messages stand in order, none twice; they are those around the
/// matches that the choice goes through.
pub proof fn chosen_are_the_windows(hits: Seq<bool>, k: nat)
    requires
        k <= hits.len(),
    ensures
        passed(hits, k) <= k,
        forall|a: int, b: int|
            0 <= a < b < chosen(hits, k).len() ==> #[trigger] chosen(hits, k)[a]
                < #[trigger] chosen(hits, k)[b],
        forall|x: int|
            #[trigger] chosen(hits, k).contains(x) <==> near_match(hits, passed(hits, k), x),
{
    passed_at_most(hits, k);
    chosen_in_order(hits, k);
    assert forall|x: int|
        #[trigger] chosen(hits, k).contains(x) <==> near_match(hits, passed(hits, k), x) by {
        chosen_near_matches(hits, k, x);
    }
}

proof fn passed_at_most(hits: Seq<bool>, k: nat)
    ensures
        passed(hits, k) <= k,
    decreases k,
{
    if k > 0 {
        passed_at_most(hits, (k - 1) as nat);
    }
}

proof fn chosen_in_order(hits: Seq<bool>, k: nat)
    ensures
        forall|a: int, b: int|
            0 <= a < b < chosen(hits, k).len() ==> #[trigger] chosen(hits, k)[a]
                < #[trigger] chosen(hits, k)[b],
    decreases k,
{
    if k > 0 {
        let k1 = (k - 1) as nat;
        chosen_in_order(hits, k1);
        let before = chosen(hits, k1);
        let now = chosen(hits, k);
        if before.len() < MAX_CHUNK_EVENTS && hits[k1 as int] {
            assert forall|a: int, b: int| 0 <= a < b < now.len() implies #[trigger] now[a]
                < #[trigger] now[b] by {
                let n = before.len() as int;
                if b < n {
                    assert(before[a] < before[b]);
                } else if a < n - 1 {
                    assert(before[a] < before[n - 1]);
                }
            }
        }
    }
}

proof fn numbers_in_range(a: int, b: int, x: int)
    ensures
        numbers_from(a, b).contains(x) <==> a <= x < b,
{
    if a <= x < b {
        assert(numbers_from(a, b)[x - a] == x);
    }
}

proof fn sum_holds(a: Seq<int>, b: Seq<int>, x: int)
    ensures
        (a + b).contains(x) <==> a.contains(x) || b.contains(x),
{
    let all = a + b;
    if a.contains(x) {
        let i = choose|i: int| 0 <= i < a.len() && a[i] == x;
        assert(all[i] == x);
    }
    if b.contains(x) {
        let i = choose|i: int| 0 <= i < b.len() && b[i] == x;
        assert(all[a.len() + i] == x);
    }
    if all.contains(x) {
        let i = choose|i: int| 0 <= i < all.len() && all[i] == x;
        if i < a.len() {
            assert(a[i] == x);
        } else {
            assert(b[i - a.len()] == x);
        }
    }
}

proof fn near_one_more(hits: Seq<bool>, k: nat, x: int)
    ensures
        near_match(hits, k + 1, x) <==> near_match(hits, k, x) || in_window(hits, k as int, x),
{
    if near_match(hits, k + 1, x) && !in_window(hits, k as int, x) {
        let m = choose|m: int| 0 <= m < k + 1 && #[trigger] in_window(hits, m, x);
        assert(0 <= m < k && in_window(hits, m, x));
    }
    if near_match(hits, k, x) {
        let m = choose|m: int| 0 <= m < k && #[trigger] in_window(hits, m, x);
        assert(0 <= m < k + 1 && in_window(hits, m, x));
    }
}

proof fn chosen_near_matches(hits: Seq<bool>, k: nat, x: int)
    requires
        k <= hits.len(),
    ensures
        chosen(hits, k).contains(x) <==> near_match(hits, passed(hits, k), x),
    decreases k,
{
    if k > 0 {
        let k1 = (k - 1) as nat;
        chosen_near_matches(hits, k1, x);
        let before = chosen(hits, k1);
        if before.len() < MAX_CHUNK_EVENTS {
            passed_all(hits, k1);
            near_one_more(hits, k1, x);
            if hits[k1 as int] {
                let n = hits.len() as int;
                let lo = window_start(k1 as int);
                let from = if before.len() > 0 && before.last() >= lo {
                    before.last() + 1
                } else {
                    lo
                };
                let hi = window_end(k1 as int, n);
                numbers_in_range(from, hi, x);
                sum_holds(before, numbers_from(from, hi), x);
                if lo <= x < from {
                    // The match before covers what this one shares with it.
                    windows_end_before(hits, k1);
                    let m = choose|m: int|
                        0 <= m < k1 && #[trigger] in_window(hits, m, before.last());
                    assert(in_window(hits, m, x));
                }
            }
        }
    }
}

proof fn passed_all(hits: Seq<bool>, k: nat)
    requires
        k <= hits.len(),
        chosen(hits, k).len() < MAX_CHUNK_EVENTS,
    ensures
        passed(hits, k) == k,
{
    if k > 0 {
        let k1 = (k - 1) as nat;
        if chosen(hits, k1).len() >= MAX_CHUNK_EVENTS {
            chosen_stays(hits, k1, k);
        }
    }
}

proof fn windows_end_before(hits: Seq<bool>, k: nat)
    requires
        k <= hits.len(),
    ensures
        chosen(hits, k).len() > 0 ==> near_match(hits, k, chosen(hits, k).last()),
    decreases k,
{
    if k > 0 {
        let k1 = (k - 1) as nat;
        windows_end_before(hits, k1);
        let before = chosen(hits, k1);
        let now = chosen(hits, k);
        if now.len() > 0 {
            near_one_more(hits, k1, now.last());
            if now.len() == before.len() {
                assert(now =~= before);
            } else {
                assert(in_window(hits, k1 as int, now.last()));
            }
        }
    }
}

/// A match that the choice goes through is shown, with the two messages before
/// it and the three behind it, where there are any.
pub proof fn matches_are_shown_with_context(hits: Seq<bool>, i: int)
    requires
        0 <= i < passed(hits, hits.len()),
        hits[i],
    ensures
        forall|x: int|
            i - 2 <= x <= i + 3 && 0 <= x < hits.len() ==> #[trigger] shown(hits, true).contains(x),
{
    chosen_are_the_windows(hits, hits.len());
    let c = chosen(hits, hits.len());
    assert forall|x: int| i - 2 <= x <= i + 3 && 0 <= x < hits.len() implies c.contains(x) by {
        assert(in_window(hits, i, x));
        assert(near_match(hits, passed(hits, hits.len()), x));
    }
    assert(c.contains(i));
    assert forall|x: int| i - 2 <= x <= i + 3 && 0 <= x < hits.len() implies #[trigger] shown(
        hits,
        true,
    ).contains(x) by {
        assert(c.contains(x));
    }
}

/// Where a message matches, a match is shown.
pub proof fn some_match_is_shown(hits: Seq<bool>, i: int)
    requires
        0 <= i < hits.len(),
        hits[i],
    ensures
        exists|j: int| 0 <= j <= i && hits[j] && #[trigger] shown(hits, true).contains(j),
    decreases i,
{
    if exists|j: int| 0 <= j < i && hits[j] {
        let j = choose|j: int| 0 <= j < i && hits[j];
        some_match_is_shown(hits, j);
    } else {
        nothing_before(hits, i as nat);
        passed_grows(hits, (i + 1) as nat, hits.len());
        matches_are_shown_with_context(hits, i);
        assert(shown(hits, true).contains(i));
    }
}

proof fn nothing_before(hits: Seq<bool>, k: nat)
    requires
        k <= hits.len(),
        forall|j: int| 0 <= j < k ==> !hits[j],
    ensures
        chosen(hits, k).len() == 0,
        k < hits.len() ==> passed(hits, k + 1) == k + 1,
    decreases k,
{
    if k > 0 {
        nothing_before(hits, (k - 1) as nat);
    }
}

proof fn passed_grows(hits: Seq<bool>, k: nat, l: nat)
    requires
        k <= l <= hits.len(),
        passed(hits, k) == k,
    ensures
        passed(hits, l) >= k,
    decreases l,
{
    if k < l {
        passed_grows(hits, k, (l - 1) as nat);
    }
}

proof fn chosen_is_bounded(hits: Seq<bool>, k: nat)
    requires
        k <= hits.len(),
    ensures
        chosen(hits, k).len() < MAX_CHUNK_EVENTS + CONTEXT_BEFORE + 1 + CONTEXT_AFTER,
    decreases k,
{
    if k > 0 {
        chosen_is_bounded(hits, (k - 1) as nat);
    }
}

/// The messages that are shown are messages of the file, in its order and none
/// twice; there are at most 55 of them, and at most 20 without terms.
pub proof fn shown_messages_are_few_and_in_order(hits: Seq<bool>, searching: bool)
    ensures
        shown(hits, searching).len() <= 55,
        !searching ==> shown(hits, searching).len() <= 20,
        forall|j: int|
            0 <= j < shown(hits, searching).len() ==> 0 <= #[trigger] shown(hits, searching)[j]
                < hits.len(),
        forall|a: int, b: int|
            0 <= a < b < shown(hits, searching).len() ==> #[trigger] shown(hits, searching)[a]
                < #[trigger] shown(hits, searching)[b],
{
    chosen_in_range(hits, hits.len());
    chosen_is_bounded(hits, hits.len());
    chosen_are_the_windows(hits, hits.len());
}

// -------------------------------------------------------------------- rendering

/// The color of a speaker.
pub open spec fn role_ink(role: Scope) -> Ink {
    match role {
        Scope::User => Ink::Cyan,
        Scope::Assistant => Ink::Green,
        Scope::Tool => Ink::Magenta,
    }
}

/// The line above a message: when, and who.
pub open spec fn item_head(role: Scope, stamp: Seq<char>) -> Seq<char> {
    paint::painted(Ink::DarkGray, "["@ + stamp + "]"@) + " "@ + paint::painted(
        role_ink(role),
        padded(role.name(), 10),
    ) + " "@
}

/// A line of a message: with terms, their matches are marked.
pub open spec fn shown_line(line: Seq<char>, ts: Seq<Seq<char>>) -> Option<Seq<char>> {
    if ts.len() == 0 {
        Some(line)
    } else {
        highlight::highlighted(line, text::lower(line), ts)
    }
}

/// The lines of a message, indented.
pub open spec fn body_lines(ls: Seq<Seq<char>>, ts: Seq<Seq<char>>) -> Option<Seq<Seq<char>>>
    decreases ls.len(),
{
    if ls.len() == 0 {
        Some(Seq::empty())
    } else {
        match (body_lines(ls.drop_last(), ts), shown_line(ls.last(), ts)) {
            (Some(before), Some(line)) => Some(before.push("  "@ + line)),
            _ => None,
        }
    }
}

/// A message: the line above it, its lines, and an empty line.
pub open spec fn item_lines(it: ItemView, stamp: Seq<char>, ts: Seq<Seq<char>>) -> Option<
    Seq<Seq<char>>,
> {
    match body_lines(words::lines_from(it.body, 0), ts) {
        Some(body) => Some(seq![item_head(it.role, stamp)] + body + seq![Seq::<char>::empty()]),
        None => None,
    }
}

/// What stands between two messages that do not follow one another.
pub open spec fn gap(idx: Seq<int>) -> Seq<Seq<char>> {
    if idx.len() > 1 && idx.last() > idx[idx.len() - 2] + 1 {
        seq![paint::painted(Ink::DarkGray, "\u{2500}\u{2500}\u{2500}"@)]
    } else {
        Seq::empty()
    }
}

/// The messages at the positions `idx`, the one at `idx[j]` with the time
/// `stamps[j]`; `None` if the matches in one of them cannot be marked.
pub open spec fn rendered(
    its: Seq<ItemView>,
    idx: Seq<int>,
    stamps: Seq<Seq<char>>,
    ts: Seq<Seq<char>>,
) -> Option<Seq<Seq<char>>>
    decreases idx.len(),
{
    if idx.len() == 0 {
        Some(Seq::empty())
    } else {
        let stamp = stamps[idx.len() - 1];
        match (
            rendered(its, idx.drop_last(), stamps, ts),
            item_lines(its[idx.last()], stamp, ts),
        ) {
            (Some(before), Some(now)) => Some(before + gap(idx) + now),
            _ => None,
        }
    }
}

/// An optional list of texts, as sequences of characters.
pub open spec fn opt_texts(o: Option<Vec<String>>) -> Option<Seq<Seq<char>>> {
    match o {
        Some(v) => Some(text::texts(v@)),
        None => None,
    }
}

fn role_style(role: &Scope) -> (r: Ink)
    ensures
        r == role_ink(*role),
{
    match role {
        Scope::User => Ink::Cyan,
        Scope::Assistant => Ink::Green,
        Scope::Tool => Ink::Magenta,
    }
}

fn head_of(role: &Scope, stamp: &str) -> (r: String)
    ensures
        r@ == item_head(*role, stamp@),
{
    let mut time = concat("[", stamp);
    time.append("]");
    let mut out = paint(Ink::DarkGray, time.as_str());
    out.append(" ");
    out.append(paint(role_style(role), pad(role.as_str(), 10).as_str()).as_str());
    out.append(" ");
    out
}

fn line_with_matches(line: &str, ts: &Vec<String>) -> (r: Option<String>)
    ensures
        text::opt_text(r) == shown_line(line@, text::texts(ts@)),
{
    if ts.len() == 0 {
        Some(line.to_owned())
    } else {
        highlight(line, ts)
    }
}

proof fn body_stays_refused(ls: Seq<Seq<char>>, ts: Seq<Seq<char>>, k: int)
    requires
        0 <= k <= ls.len(),
        body_lines(ls.take(k), ts) is None,
    ensures
        body_lines(ls, ts) is None,
    decreases ls.len(),
{
    if k < ls.len() {
        assert(ls.drop_last().take(k) =~= ls.take(k));
        body_stays_refused(ls.drop_last(), ts, k);
    } else {
        assert(ls.take(k) =~= ls);
    }
}

fn lines_with_matches(body: &str, ts: &Vec<String>) -> (r: Option<Vec<String>>)
    ensures
        opt_texts(r) == body_lines(words::lines_from(body@, 0), text::texts(ts@)),
{
    let ls = lines(body);
    let ghost all = words::lines_from(body@, 0);
    let ghost terms = text::texts(ts@);
    let mut out: Vec<String> = Vec::new();
    let mut i: usize = 0;
    proof {
        assert(text::texts(out@) =~= Seq::<Seq<char>>::empty());
        assert(all.take(0) =~= Seq::<Seq<char>>::empty());
    }
    while i < ls.len()
        invariant
            all == words::lines_from(body@, 0),
            terms == text::texts(ts@),
            text::texts(ls@) == all,
            i <= ls@.len(),
            body_lines(all.take(i as int), terms) == Some(text::texts(out@)),
        decreases ls@.len() - i,
    {
        proof {
            assert(text::texts(ls@)[i as int] == ls@[i as int]@);
            assert(text::texts(ls@).len() == ls@.len());
            assert(all.take(i + 1).drop_last() =~= all.take(i as int));
            assert(all.take(i + 1).last() == ls@[i as int]@);
        }
        match line_with_matches(ls[i].as_str(), ts) {
            Some(line) => {
                let full = concat("  ", line.as_str());
                push_line(&mut out, full);
            },
            None => {
                proof {
                    body_stays_refused(all, terms, i + 1);
                }
                return None;
            },
        }
        i += 1;
    }
    proof {
        assert(text::texts(ls@).len() == ls@.len());
        assert(all.take(i as int) =~= all);
    }
    Some(out)
}

fn push_all(out: &mut Vec<String>, more: Vec<String>)
    ensures
        text::texts(final(out)@) == text::texts(old(out)@) + text::texts(more@),
{
    let mut more = more;
    let ghost added = more@;
    out.append(&mut more);
    proof {
        assert(text::texts(out@) =~= text::texts(old(out)@) + text::texts(added));
    }
}

fn push_item_lines(out: &mut Vec<String>, it: &Item, stamp: &str, ts: &Vec<String>) -> (r: bool)
    ensures
        r == (item_lines(it@, stamp@, text::texts(ts@)) is Some),
        r ==> text::texts(final(out)@) == text::texts(old(out)@) + item_lines(
            it@,
            stamp@,
            text::texts(ts@),
        )->0,
{
    match lines_with_matches(it.body.as_str(), ts) {
        Some(body) => {
            let ghost bv = text::texts(body@);
            push_line(out, head_of(&it.role, stamp));
            push_all(out, body);
            push_line(out, String::new());
            proof {
                assert(text::texts(out@) =~= text::texts(old(out)@) + (seq![
                    item_head(it.role, stamp@),
                ] + bv + seq![Seq::<char>::empty()]));
            }
            true
        },
        None => false,
    }
}

proof fn rendering_stays_refused(
    its: Seq<ItemView>,
    idx: Seq<int>,
    stamps: Seq<Seq<char>>,
    ts: Seq<Seq<char>>,
    k: int,
)
    requires
        0 <= k <= idx.len(),
        rendered(its, idx.take(k), stamps, ts) is None,
    ensures
        rendered(its, idx, stamps, ts) is None,
    decreases idx.len(),
{
    if k < idx.len() {
        assert(idx.drop_last().take(k) =~= idx.take(k));
        rendering_stays_refused(its, idx.drop_last(), stamps, ts, k);
    } else {
        assert(idx.take(k) =~= idx);
    }
}

/// Renders the messages at the positions `idx`, each with its time.
pub fn render(
    its: &Vec<Item>,
    idx: &Vec<usize>,
    stamps: &Vec<String>,
    ts: &Vec<String>,
) -> (r: Option<Vec<String>>)
    requires
        stamps@.len() == idx@.len(),
        forall|j: int| 0 <= j < idx@.len() ==> #[trigger] idx@[j] < its@.len(),
    ensures
        opt_texts(r) == rendered(
            item_views(its@),
            ints(idx@),
            text::texts(stamps@),
            text::texts(ts@),
        ),
{
    let ghost iv = item_views(its@);
    let ghost xs = ints(idx@);
    let ghost sv = text::texts(stamps@);
    let ghost tv = text::texts(ts@);
    let mut out: Vec<String> = Vec::new();
    let mut j: usize = 0;
    proof {
        assert(text::texts(out@) =~= Seq::<Seq<char>>::empty());
        assert(xs.take(0) =~= Seq::<int>::empty());
    }
    while j < idx.len()
        invariant
            iv == item_views(its@),
            xs == ints(idx@),
            sv == text::texts(stamps@),
            tv == text::texts(ts@),
            stamps@.len() == idx@.len(),
            forall|j: int| 0 <= j < idx@.len() ==> #[trigger] idx@[j] < its@.len(),
            j <= idx@.len(),
            rendered(iv, xs.take(j as int), sv, tv) == Some(text::texts(out@)),
        decreases idx@.len() - j,
    {
        let i: usize = idx[j];
        let ghost now = xs.take(j + 1);
        let ghost before = text::texts(out@);
        proof {
            assert(now.drop_last() =~= xs.take(j as int));
            assert(now.last() == i);
            assert(iv[i as int] == its@[i as int]@);
            assert(sv[j as int] == stamps@[j as int]@);
            if j > 0 {
                assert(now[now.len() - 2] == idx@[j - 1]);
            }
        }
        if j > 0 && i > idx[j - 1] && i - idx[j - 1] > 1 {
            push_line(&mut out, paint(Ink::DarkGray, "\u{2500}\u{2500}\u{2500}"));
        }
        proof {
            assert(text::texts(out@) =~= before + gap(now));
        }
        if !push_item_lines(&mut out, &its[i], stamps[j].as_str(), ts) {
            proof {
                rendering_stays_refused(iv, xs, sv, tv, j + 1);
            }
            return None;
        }
        j += 1;
    }
    proof {
        assert(xs.take(j as int) =~= xs);
    }
    Some(out)
}

/// Whether `s` can be the text of a message's time: the time, written in some
/// time zone, nothing where the calendar does not cover the time, or a question mark where none is
/// known.
pub open spec fn shows_item_time(ts: i64, s: Seq<char>) -> bool {
    if ts <= 0 {
        s == "?"@
    } else if ts <= clock::LAST_TIME {
        clock::local_minutes(ts, s)
    } else {
        s.len() == 0
    }
}

/// Whether the texts can be the times of the messages at the positions `idx`.
pub open spec fn show_item_times(its: Seq<ItemView>, idx: Seq<int>, stamps: Seq<Seq<char>>) -> bool {
    &&& stamps.len() == idx.len()
    &&& forall|j: int|
        0 <= j < idx.len() ==> shows_item_time(its[idx[j]].ts, #[trigger] stamps[j])
}

fn stamp_of(ts: i64) -> (r: String)
    ensures
        shows_item_time(ts, r@),
{
    if ts > 0 {
        match local_text(ts, clock::MINUTES) {
            Some(s) => s,
            None => String::new(),
        }
    } else {
        "?".to_owned()
    }
}

/// The times of the messages at the positions `idx`, in the machine's time
/// zone.
pub fn item_stamps(its: &Vec<Item>, idx: &Vec<usize>) -> (r: Vec<String>)
    requires
        forall|j: int| 0 <= j < idx@.len() ==> #[trigger] idx@[j] < its@.len(),
    ensures
        show_item_times(item_views(its@), ints(idx@), text::texts(r@)),
{
    let ghost iv = item_views(its@);
    let ghost xs = ints(idx@);
    let mut out: Vec<String> = Vec::new();
    let mut j: usize = 0;
    while j < idx.len()
        invariant
            iv == item_views(its@),
            xs == ints(idx@),
            forall|j: int| 0 <= j < idx@.len() ==> #[trigger] idx@[j] < its@.len(),
            j <= idx@.len(),
            out@.len() == j,
            forall|k: int|
                0 <= k < j ==> shows_item_time(iv[xs[k]].ts, #[trigger] text::texts(out@)[k]),
        decreases idx@.len() - j,
    {
        let i: usize = idx[j];
        let s = stamp_of(its[i].ts);
        let ghost before = text::texts(out@);
        push_line(&mut out, s);
        proof {
            assert(iv[xs[j as int]] == its@[i as int]@);
            assert(text::texts(out@).len() == out@.len());
            assert forall|k: int| 0 <= k < j + 1 implies shows_item_time(
                iv[xs[k]].ts,
                #[trigger] text::texts(out@)[k],
            ) by {
                if k < j {
                    assert(text::texts(out@)[k] == before[k]);
                }
            }
        }
        j += 1;
    }
    out
}

/// The positions of the messages that the preview of a file shows.
pub open spec fn previewed(events: Seq<Option<Event>>, query: Option<Seq<char>>) -> Seq<int> {
    let ts = terms_of(query);
    shown(hits_of(items_of(events), ts), ts.len() > 0)
}

/// The body of the preview of a file, for the given times.
pub open spec fn preview_of(
    events: Seq<Option<Event>>,
    query: Option<Seq<char>>,
    stamps: Seq<Seq<char>>,
) -> Option<Seq<Seq<char>>> {
    rendered(items_of(events), previewed(events, query), stamps, terms_of(query))
}

/// Renders the body of the preview of a file, the times in the machine's time
/// zone. `None` if the matches in one of the lines cannot be marked.
pub fn run(events: &Vec<Option<Event>>, match_query: Option<&str>) -> (r: Option<Vec<String>>)
    ensures
        exists|stamps: Seq<Seq<char>>|
            #![trigger preview_of(events@, text::opt_str(match_query), stamps)]
            show_item_times(
                items_of(events@),
                previewed(events@, text::opt_str(match_query)),
                stamps,
            ) && opt_texts(r) == preview_of(events@, text::opt_str(match_query), stamps),
{
    let its = items(events);
    let ts = terms(match_query);
    let idx = render_indices(&its, &ts);
    let stamps = item_stamps(&its, &idx);
    let r = render(&its, &idx, &stamps, &ts);
    proof {
        assert(text::texts(ts@).len() == ts@.len());
        assert(opt_texts(r) == preview_of(events@, text::opt_str(match_query), text::texts(stamps@)));
    }
    r
}

// ------------------------------------------------------------------------ laws

/// A text is filled up with spaces behind it, and never shortened.
pub proof fn padding_adds_spaces(s: Seq<char>, want: nat, i: int)
    ensures
        padded(s, want).len() == (if s.len() < want {
            want
        } else {
            s.len()
        }),
        0 <= i < s.len() ==> padded(s, want)[i] == s[i],
        s.len() <= i < want ==> padded(s, want)[i] == ' ',
{
}

/// A span of time is told by its two largest units: days and hours, hours and
/// minutes, minutes alone, or seconds alone.
pub proof fn spans_are_told_by_their_units(d: int, h: int, m: int, s: int)
    requires
        0 <= d,
        0 <= h < 24,
        0 <= m < 60,
        0 <= s < 60,
    ensures
        ({
            let t = duration_text(((d * 24 + h) * 60 + m) * 60 + s);
            &&& d > 0 ==> t == numbers::decimal(d) + "d "@ + numbers::decimal(h) + "h"@
            &&& d == 0 && h > 0 ==> t == numbers::decimal(h) + "h "@ + numbers::decimal(m) + "m"@
            &&& d == 0 && h == 0 && m > 0 ==> t == numbers::decimal(m) + "m"@
            &&& d == 0 && h == 0 && m == 0 ==> t == numbers::decimal(s) + "s"@
        }),
{
    let secs = ((d * 24 + h) * 60 + m) * 60 + s;
    assert(secs / 60 == (d * 24 + h) * 60 + m);
    assert((secs / 60) / 60 == d * 24 + h);
    assert((secs / 60) % 60 == m);
    assert((d * 24 + h) / 24 == d);
    assert((d * 24 + h) % 24 == h);
}

/// A negative span of time is not told.
pub proof fn negative_spans_are_not_told(secs: int)
    requires
        secs < 0,
    ensures
        duration_text(secs) == "?"@,
{
}

/// A size is told in the largest unit that it reaches: in bytes exactly, in
/// kilobytes without decimals, in megabytes with one and in gigabytes with two.
pub proof fn sizes_are_told_in_their_unit(b: nat)
    ensures
        b < 1024 ==> size_text(b) == numbers::decimal(b as int) + " B"@,
        1024 <= b < 1024 * 1024 ==> size_text(b) == numbers::fixed(b, 1024, 0) + " KB"@,
        1024 * 1024 <= b < 1024 * 1024 * 1024 ==> size_text(b) == numbers::fixed(
            b,
            1024 * 1024,
            1,
        ) + " MB"@,
        1024 * 1024 * 1024 <= b ==> size_text(b) == numbers::fixed(b, 1024 * 1024 * 1024, 2)
            + " GB"@,
{
}

/// A field of the header is its label, filled up to nine characters and in bold,
/// and behind a space its value.
pub proof fn fields_hold_their_values(label: Seq<char>, value: Seq<char>)
    ensures
        field(label, value) == "\u{1b}[1;37m"@ + padded(label, 9) + "\u{1b}[0m"@ + " "@ + value,
{
}

/// A field that is empty or not there is shown as a dash, and any other as it is.
pub proof fn missing_values_are_dashed(o: Option<String>)
    ensures
        dashed(or_empty(o)) == (if o is Some && o->0@.len() > 0 {
            o->0@
        } else {
            "-"@
        }),
{
}

/// The header tells everything that is known of a session, each in a line of its
/// own and in a fixed order. What is left out is a slug that is empty, a project
/// that is the working directory, a time that is not known and a blank prompt.
pub proof fn the_header_tells_what_is_known(
    row: SessionRow,
    size: Option<u64>,
    first: Seq<char>,
    last: Seq<char>,
)
    ensures
        ({
            let h = header_of(row, size, first, last);
            let cwd = if row.cwd is Some {
                row.cwd->0@
            } else {
                row.project_dir@
            };
            let prompt = words::single_spaced(row.last_prompt->0@);
            let s: int = if row.slug is Some && row.slug->0@.len() > 0 {
                1
            } else {
                0
            };
            let p: int = if cwd != row.project_dir@ {
                1
            } else {
                0
            };
            let t: int = if row.last_seen is Some {
                1
            } else {
                0
            };
            let c: int = if row.last_prompt is Some && prompt.len() > 0 {
                1
            } else {
                0
            };
            &&& h.len() == 7 + s + p + t + c
            &&& h[0] == field("session:"@, row.file_id@)
            &&& h[1] == field("title:"@, dashed(or_empty(row.ai_title)))
            &&& s == 1 ==> h[2] == field("slug:"@, row.slug->0@)
            &&& h[2 + s] == field("cwd:"@, cwd)
            &&& p == 1 ==> h[3 + s] == field("project:"@, row.project_dir@)
            &&& h[3 + s + p] == field("branch:"@, dashed(or_empty(row.git_branch)))
            &&& t == 1 && row.first_seen is Some ==> h[4 + s + p] == field(
                "range:"@,
                first + "  \u{2192}  "@ + last + "  ("@ + duration_text(
                    row.last_seen->0 - row.first_seen->0,
                ) + ")"@,
            )
            &&& t == 1 && row.first_seen is None ==> h[4 + s + p] == field("last:"@, last)
            &&& h[4 + s + p + t] == field(
                "messages:"@,
                numbers::decimal(row.message_count as int),
            )
            &&& h[5 + s + p + t] == field(
                "file:"@,
                row.jsonl_path@ + " ("@ + (if size is Some {
                    size_text(size->0 as nat)
                } else {
                    "?"@
                }) + ")"@,
            )
            &&& c == 1 ==> h[6 + s + p + t] == field("last cmd:"@, text::clipped(prompt, 80))
            &&& h.last().len() == 0
        }),
{
    if row.last_prompt is Some {
        let prompt = words::single_spaced(row.last_prompt->0@);
        assert(prompt.len() > 0 ==> text::clipped(prompt, PROMPT_CHARS as nat).len() > 0);
    }
}

/// The messages of an event come behind those of the events before it, each with
/// the event's time; a line without an event has none.
pub proof fn messages_come_in_the_order_of_the_file(events: Seq<Option<Event>>, ev: Event, i: int)
    ensures
        items_of(Seq::empty()).len() == 0,
        items_of(events.push(None)) == items_of(events),
        ({
            let rows = session::rows_of(ev.action());
            let n = items_of(events).len();
            let all = items_of(events.push(Some(ev)));
            &&& all.len() == n + rows.len()
            &&& 0 <= i < n ==> all[i] == items_of(events)[i]
            &&& 0 <= i < rows.len() ==> all[n + i].ts == ev.time() && all[n + i].role == rows[i].0
                && all[n + i].body == rows[i].1
        }),
{
    assert(events.push(None).drop_last() =~= events);
    assert(events.push(Some(ev)).drop_last() =~= events);
}

/// The terms of a query are its words in lowercase, every one of them and in
/// order.
pub proof fn every_word_is_a_term(q: Seq<char>, k: int)
    ensures
        terms_of(None).len() == 0,
        terms_of(Some(q)).len() == words::words_of(q).len(),
        0 <= k < words::words_of(q).len() ==> terms_of(Some(q))[k] == text::lower(
            words::words_of(q)[k],
        ),
{
}

/// A message matches where one of the terms stands anywhere in its lowercase
/// form, whatever comes before and behind it, and only there.
pub proof fn messages_match_where_a_term_stands(its: Seq<ItemView>, ts: Seq<Seq<char>>, i: int)
    requires
        0 <= i < its.len(),
    ensures
        hits_of(its, ts).len() == its.len(),
        hits_of(its, ts)[i] <==> exists|k: int, a: Seq<char>, b: Seq<char>|
            0 <= k < ts.len() && text::lower(its[i].body) == #[trigger] (a + ts[k] + b),
{
    let lc = text::lower(its[i].body);
    if hits_of(its, ts)[i] {
        let k = choose|k: int| 0 <= k < ts.len() && words::has_text(lc, #[trigger] ts[k]);
        words::texts_stand_in_what_goes_round_them(lc, ts[k]);
        let (a, b) = choose|a: Seq<char>, b: Seq<char>| lc == #[trigger] (a + ts[k] + b);
        assert(lc == a + ts[k] + b);
    }
    if exists|k: int, a: Seq<char>, b: Seq<char>|
        0 <= k < ts.len() && lc == #[trigger] (a + ts[k] + b) {
        let (k, a, b) = choose|k: int, a: Seq<char>, b: Seq<char>|
            0 <= k < ts.len() && lc == #[trigger] (a + ts[k] + b);
        words::texts_stand_in_what_goes_round_them(lc, ts[k]);
        assert(words::has_text(lc, ts[k]));
    }
}

/// Without a search, and where nothing matches, the first twenty messages are
/// shown, or all where there are fewer.
pub proof fn the_first_messages_are_shown_without_a_match(hits: Seq<bool>, searching: bool, j: int)
    requires
        !searching || forall|i: int| 0 <= i < hits.len() ==> !#[trigger] hits[i],
    ensures
        shown(hits, searching).len() == (if hits.len() < 20 {
            hits.len()
        } else {
            20
        }),
        0 <= j < shown(hits, searching).len() ==> shown(hits, searching)[j] == j,
{
    if searching {
        nothing_before(hits, hits.len());
    }
}

/// Where fewer than fifty messages are shown, every match is shown, with the two
/// messages before it and the three behind it.
pub proof fn few_matches_are_all_shown(hits: Seq<bool>, i: int, x: int)
    requires
        0 <= i < hits.len(),
        hits[i],
        shown(hits, true).len() < 50,
        i - 2 <= x <= i + 3,
        0 <= x < hits.len(),
    ensures
        shown(hits, true).contains(x),
{
    passed_all(hits, hits.len());
    matches_are_shown_with_context(hits, i);
}

/// Where a message matches, every message that is shown stands around a match: at
/// most two before it, or three behind it.
pub proof fn only_matches_and_their_context_are_shown(hits: Seq<bool>, i: int, x: int)
    requires
        0 <= i < hits.len(),
        hits[i],
        shown(hits, true).contains(x),
    ensures
        exists|m: int| 0 <= m < hits.len() && #[trigger] hits[m] && m - 2 <= x <= m + 3,
{
    chosen_are_the_windows(hits, hits.len());
    let c = chosen(hits, hits.len());
    if c.len() == 0 {
        passed_all(hits, hits.len());
        assert(in_window(hits, i, i));
        assert(near_match(hits, passed(hits, hits.len()), i));
        assert(c.contains(i));
    }
    assert(c.contains(x));
    let m = choose|m: int|
        0 <= m < passed(hits, hits.len()) && #[trigger] in_window(hits, m, x);
    assert(hits[m]);
}

/// No match is passed over: a match three messages or more before one that is
/// shown is shown too, with the messages around it.
pub proof fn matches_are_shown_from_the_first_on(hits: Seq<bool>, i: int, y: int, x: int)
    requires
        0 <= i < hits.len(),
        hits[i],
        shown(hits, true).contains(y),
        i + 3 <= y,
        i - 2 <= x <= i + 3,
        0 <= x < hits.len(),
    ensures
        shown(hits, true).contains(x),
{
    chosen_are_the_windows(hits, hits.len());
    let c = chosen(hits, hits.len());
    if c.len() == 0 {
        passed_all(hits, hits.len());
    } else {
        let m = choose|m: int|
            0 <= m < passed(hits, hits.len()) && #[trigger] in_window(hits, m, y);
        assert(y < window_end(m, hits.len() as int));
    }
    matches_are_shown_with_context(hits, i);
}

/// A line of a message is shown as it is without terms, and else with its matches
/// marked.
pub proof fn lines_are_shown_with_their_matches(line: Seq<char>, ts: Seq<Seq<char>>)
    ensures
        ts.len() == 0 ==> shown_line(line, ts) == Some(line),
        ts.len() > 0 ==> shown_line(line, ts) == highlight::highlighted(
            line,
            text::lower(line),
            ts,
        ),
{
}

/// Every line of a message is shown, in order and indented by two spaces; only
/// where the matches in one of them cannot be marked nothing is.
pub proof fn every_line_is_shown(ls: Seq<Seq<char>>, ts: Seq<Seq<char>>)
    ensures
        body_lines(ls, ts) is Some <==> forall|i: int|
            0 <= i < ls.len() ==> shown_line(#[trigger] ls[i], ts) is Some,
        body_lines(ls, ts) matches Some(b) ==> b.len() == ls.len() && forall|i: int|
            0 <= i < ls.len() ==> #[trigger] b[i] == "  "@ + shown_line(ls[i], ts)->0,
    decreases ls.len(),
{
    if ls.len() > 0 {
        let before = ls.drop_last();
        every_line_is_shown(before, ts);
        assert forall|i: int| 0 <= i < before.len() implies #[trigger] before[i] == ls[i] by {}
        assert(ls.last() == ls[ls.len() - 1]);
        if body_lines(ls, ts) is Some {
            assert forall|i: int| 0 <= i < ls.len() implies shown_line(
                #[trigger] ls[i],
                ts,
            ) is Some by {
                if i < before.len() {
                    assert(before[i] == ls[i]);
                }
            }
        }
        if forall|i: int| 0 <= i < ls.len() ==> shown_line(#[trigger] ls[i], ts) is Some {
            assert forall|i: int| 0 <= i < before.len() implies shown_line(
                #[trigger] before[i],
                ts,
            ) is Some by {
                assert(before[i] == ls[i]);
            }
        }
    }
}

/// A speaker is shown by name and color.
pub proof fn speakers_are_shown_by_name(stamp: Seq<char>)
    ensures
        item_head(Scope::User, stamp) == "\u{1b}[90m["@ + stamp
            + "]\u{1b}[0m \u{1b}[36muser      \u{1b}[0m "@,
        item_head(Scope::Assistant, stamp) == "\u{1b}[90m["@ + stamp
            + "]\u{1b}[0m \u{1b}[32massistant \u{1b}[0m "@,
        item_head(Scope::Tool, stamp) == "\u{1b}[90m["@ + stamp
            + "]\u{1b}[0m \u{1b}[35mtool      \u{1b}[0m "@,
{
    reveal_strlit("\u{1b}[90m[");
    reveal_strlit("\u{1b}[90m");
    reveal_strlit("[");
    reveal_strlit("]");
    reveal_strlit(" ");
    reveal_strlit("\u{1b}[0m");
    reveal_strlit("\u{1b}[36m");
    reveal_strlit("\u{1b}[32m");
    reveal_strlit("\u{1b}[35m");
    reveal_strlit("user");
    reveal_strlit("assistant");
    reveal_strlit("tool");
    reveal_strlit("]\u{1b}[0m \u{1b}[36muser      \u{1b}[0m ");
    reveal_strlit("]\u{1b}[0m \u{1b}[32massistant \u{1b}[0m ");
    reveal_strlit("]\u{1b}[0m \u{1b}[35mtool      \u{1b}[0m ");
    assert(item_head(Scope::User, stamp) =~= "\u{1b}[90m["@ + stamp
        + "]\u{1b}[0m \u{1b}[36muser      \u{1b}[0m "@);
    assert(item_head(Scope::Assistant, stamp) =~= "\u{1b}[90m["@ + stamp
        + "]\u{1b}[0m \u{1b}[32massistant \u{1b}[0m "@);
    assert(item_head(Scope::Tool, stamp) =~= "\u{1b}[90m["@ + stamp
        + "]\u{1b}[0m \u{1b}[35mtool      \u{1b}[0m "@);
}

/// A message is shown whole: the line above it, every line of its text, and an
/// empty line.
pub proof fn messages_are_shown_whole(it: ItemView, stamp: Seq<char>, ts: Seq<Seq<char>>)
    ensures
        ({
            let ls = words::lines_from(it.body, 0);
            let r = item_lines(it, stamp, ts);
            &&& r is Some <==> forall|i: int|
                0 <= i < ls.len() ==> shown_line(#[trigger] ls[i], ts) is Some
            &&& ts.len() == 0 ==> r is Some
            &&& r is Some ==> {
                &&& r->0.len() == ls.len() + 2
                &&& r->0[0] == item_head(it.role, stamp)
                &&& forall|i: int|
                    0 <= i < ls.len() ==> r->0[i + 1] == "  "@ + shown_line(#[trigger] ls[i], ts)->0
                &&& r->0.last().len() == 0
            }
        }),
{
    let ls = words::lines_from(it.body, 0);
    every_line_is_shown(ls, ts);
    if item_lines(it, stamp, ts) is Some {
        let b = body_lines(ls, ts)->0;
        assert forall|i: int| 0 <= i < ls.len() implies item_lines(it, stamp, ts)->0[i + 1] == "  "@
            + shown_line(#[trigger] ls[i], ts)->0 by {
            assert(b[i] == "  "@ + shown_line(ls[i], ts)->0);
        }
    }
}

proof fn later_times_do_not_matter(
    its: Seq<ItemView>,
    idx: Seq<int>,
    stamps: Seq<Seq<char>>,
    more: Seq<Seq<char>>,
    ts: Seq<Seq<char>>,
)
    requires
        idx.len() <= stamps.len() <= more.len(),
        more.take(stamps.len() as int) == stamps,
    ensures
        rendered(its, idx, more, ts) == rendered(its, idx, stamps, ts),
    decreases idx.len(),
{
    if idx.len() > 0 {
        later_times_do_not_matter(its, idx.drop_last(), stamps, more, ts);
        let n = idx.len() - 1;
        assert(more.take(stamps.len() as int)[n] == more[n]);
    }
}

/// A further message comes behind those before it, and a gray line goes between
/// them where messages were left out.
pub proof fn messages_follow_one_another(
    its: Seq<ItemView>,
    idx: Seq<int>,
    stamps: Seq<Seq<char>>,
    ts: Seq<Seq<char>>,
    x: int,
    stamp: Seq<char>,
)
    requires
        stamps.len() == idx.len(),
    ensures
        rendered(its, Seq::empty(), stamps, ts) == Some(Seq::<Seq<char>>::empty()),
        ({
            let before = rendered(its, idx, stamps, ts);
            let now = item_lines(its[x], stamp, ts);
            let all = rendered(its, idx.push(x), stamps.push(stamp), ts);
            &&& all is Some <==> before is Some && now is Some
            &&& all is Some && idx.len() > 0 && x > idx.last() + 1 ==> all->0 == before->0.push(
                "\u{1b}[90m\u{2500}\u{2500}\u{2500}\u{1b}[0m"@,
            ) + now->0
            &&& all is Some && (idx.len() == 0 || x <= idx.last() + 1) ==> all->0 == before->0
                + now->0
        }),
{
    let more = idx.push(x);
    assert(more.drop_last() =~= idx);
    assert(stamps.push(stamp).take(stamps.len() as int) =~= stamps);
    later_times_do_not_matter(its, idx, stamps, stamps.push(stamp), ts);
    reveal_strlit("\u{1b}[90m\u{2500}\u{2500}\u{2500}\u{1b}[0m");
    reveal_strlit("\u{1b}[90m");
    reveal_strlit("\u{2500}\u{2500}\u{2500}");
    reveal_strlit("\u{1b}[0m");
    let line = paint::painted(Ink::DarkGray, "\u{2500}\u{2500}\u{2500}"@);
    assert(line =~= "\u{1b}[90m\u{2500}\u{2500}\u{2500}\u{1b}[0m"@);
    if rendered(its, idx, stamps, ts) is Some {
        let before = rendered(its, idx, stamps, ts)->0;
        assert(before + seq![line] =~= before.push(line));
        assert(before + Seq::<Seq<char>>::empty() =~= before);
    }
}

/// Each of the messages at the positions `idx` is shown, whole and with its time.
pub proof fn every_message_is_shown(
    its: Seq<ItemView>,
    idx: Seq<int>,
    stamps: Seq<Seq<char>>,
    ts: Seq<Seq<char>>,
    j: int,
)
    requires
        rendered(its, idx, stamps, ts) is Some,
        0 <= j < idx.len(),
    ensures
        item_lines(its[idx[j]], stamps[j], ts) is Some,
        exists|a: Seq<Seq<char>>, b: Seq<Seq<char>>|
            rendered(its, idx, stamps, ts)->0 == #[trigger] (a + item_lines(
                its[idx[j]],
                stamps[j],
                ts,
            )->0 + b),
    decreases idx.len(),
{
    let n = idx.len() - 1;
    let all = rendered(its, idx, stamps, ts)->0;
    let before = rendered(its, idx.drop_last(), stamps, ts)->0;
    let last = item_lines(its[idx.last()], stamps[n], ts)->0;
    assert(all == before + gap(idx) + last);
    if j == n {
        assert(all =~= (before + gap(idx)) + last + Seq::<Seq<char>>::empty());
    } else {
        every_message_is_shown(its, idx.drop_last(), stamps, ts, j);
        assert(idx.drop_last()[j] == idx[j]);
        let now = item_lines(its[idx[j]], stamps[j], ts)->0;
        let (a, b) = choose|a: Seq<Seq<char>>, b: Seq<Seq<char>>| before == #[trigger] (a + now + b);
        assert(all =~= a + now + (b + gap(idx) + last));
    }
}

/// The preview of a file shows its first twenty messages without a query.
pub proof fn previews_without_a_query_show_the_start(events: Seq<Option<Event>>, j: int)
    ensures
        ({
            let r = previewed(events, None);
            &&& r.len() == (if items_of(events).len() < 20 {
                items_of(events).len()
            } else {
                20
            })
            &&& 0 <= j < r.len() ==> r[j] == j
        }),
{
    let hits = hits_of(items_of(events), terms_of(None));
    the_first_messages_are_shown_without_a_match(hits, false, j);
}

/// The preview of a file shows a message in which a word of the query stands,
/// whatever their case, unless fifty messages are shown without it; and some such
/// message is shown in any case.
pub proof fn previews_show_the_matches(
    events: Seq<Option<Event>>,
    q: Seq<char>,
    i: int,
    k: int,
    a: Seq<char>,
    b: Seq<char>,
)
    requires
        0 <= i < items_of(events).len(),
        0 <= k < words::words_of(q).len(),
        text::lower(items_of(events)[i].body) == a + text::lower(words::words_of(q)[k]) + b,
    ensures
        previewed(events, Some(q)).len() < 50 ==> previewed(events, Some(q)).contains(i),
        exists|m: int|
            0 <= m <= i && #[trigger] previewed(events, Some(q)).contains(m) && has_term(
                text::lower(items_of(events)[m].body),
                terms_of(Some(q)),
            ),
{
    let its = items_of(events);
    let ts = terms_of(Some(q));
    let hits = hits_of(its, ts);
    messages_match_where_a_term_stands(its, ts, i);
    assert(ts[k] == text::lower(words::words_of(q)[k]));
    assert(text::lower(its[i].body) == a + ts[k] + b);
    assert(hits[i]);
    if previewed(events, Some(q)).len() < 50 {
        few_matches_are_all_shown(hits, i, i);
    }
    some_match_is_shown(hits, i);
    let m = choose|m: int| 0 <= m <= i && hits[m] && #[trigger] shown(hits, true).contains(m);
    assert(previewed(events, Some(q)).contains(m));
}

/// What the preview of a file shows are its messages at the chosen positions, each
/// whole, with its time and its matches marked.
pub proof fn previews_show_whole_messages(
    events: Seq<Option<Event>>,
    query: Option<Seq<char>>,
    stamps: Seq<Seq<char>>,
    j: int,
)
    requires
        preview_of(events, query, stamps) is Some,
        0 <= j < previewed(events, query).len(),
    ensures
        ({
            let it = items_of(events)[previewed(events, query)[j]];
            let now = item_lines(it, stamps[j], terms_of(query));
            now is Some && exists|a: Seq<Seq<char>>, b: Seq<Seq<char>>|
                preview_of(events, query, stamps)->0 == #[trigger] (a + now->0 + b)
        }),
{
    every_message_is_shown(
        items_of(events),
        previewed(events, query),
        stamps,
        terms_of(query),
        j,
    );
}

/// The messages, positions and lines that are worked on are those in their lists.
pub proof fn lists_hold_each_message(
    its: Seq<Item>,
    idx: Seq<usize>,
    lines: Option<Vec<String>>,
    i: int,
)
    ensures
        item_views(its).len() == its.len(),
        0 <= i < its.len() ==> item_views(its)[i].ts == its[i].ts && item_views(its)[i].role
            == its[i].role && item_views(its)[i].body == its[i].body@,
        ints(idx).len() == idx.len(),
        0 <= i < idx.len() ==> ints(idx)[i] == idx[i],
        opt_texts(lines) is Some <==> lines is Some,
        lines is Some ==> opt_texts(lines)->0 == text::texts(lines->0@),
{
}

/// A message is shown with its time wherever it has one and the calendar covers
/// it; the header shows a time that the calendar does not cover as its number.
pub proof fn times_are_shown(
    ts: i64,
    s: Seq<char>,
    its: Seq<ItemView>,
    idx: Seq<int>,
    stamps: Seq<Seq<char>>,
    j: int,
)
    ensures
        0 < ts <= 8210266876799 ==> (shows_item_time(ts, s) <==> clock::local_minutes(ts, s)),
        ts <= 0 ==> (shows_item_time(ts, s) <==> s == "?"@),
        ts > 8210266876799 ==> (shows_item_time(ts, s) <==> s.len() == 0),
        -8334601228800 <= ts <= 8210266876799 ==> (shows_time(ts, s) <==> clock::local_minutes(
            ts,
            s,
        )),
        ts < -8334601228800 || ts > 8210266876799 ==> (shows_time(ts, s) <==> s
            == numbers::decimal(ts as int)),
        shows_opt_time(Some(ts), s) <==> shows_time(ts, s),
        shows_opt_time(None, s) <==> s.len() == 0,
        show_item_times(its, idx, stamps) ==> stamps.len() == idx.len(),
        show_item_times(its, idx, stamps) && 0 <= j < idx.len() ==> shows_item_time(
            its[idx[j]].ts,
            stamps[j],
        ),
{
}

/// Where no message holds a word of the query, the preview of a file shows its
/// first twenty messages.
pub proof fn previews_without_a_match_show_the_start(
    events: Seq<Option<Event>>,
    q: Seq<char>,
    j: int,
)
    requires
        forall|i: int, k: int|
            0 <= i < items_of(events).len() && 0 <= k < words::words_of(q).len()
                ==> !words::has_text(
                text::lower((#[trigger] items_of(events)[i]).body),
                text::lower(#[trigger] words::words_of(q)[k]),
            ),
    ensures
        ({
            let r = previewed(events, Some(q));
            &&& r.len() == (if items_of(events).len() < 20 {
                items_of(events).len()
            } else {
                20
            })
            &&& 0 <= j < r.len() ==> r[j] == j
        }),
{
    let its = items_of(events);
    let ts = terms_of(Some(q));
    let hits = hits_of(its, ts);
    assert forall|i: int| 0 <= i < hits.len() implies !#[trigger] hits[i] by {
        let lc = text::lower(its[i].body);
        if hits[i] {
            let k = choose|k: int| 0 <= k < ts.len() && words::has_text(lc, #[trigger] ts[k]);
            assert(ts[k] == text::lower(words::words_of(q)[k]));
        }
    }
    the_first_messages_are_shown_without_a_match(hits, ts.len() > 0, j);
}

/// The preview of a file shows its chosen messages and nothing else, and shows
/// nothing only where the matches in one of them cannot be marked.
pub proof fn previews_show_nothing_else(
    events: Seq<Option<Event>>,
    query: Option<Seq<char>>,
    stamps: Seq<Seq<char>>,
)
    ensures
        preview_of(events, query, stamps) == rendered(
            items_of(events),
            previewed(events, query),
            stamps,
            terms_of(query),
        ),
        preview_of(events, query, stamps) is Some <==> forall|j: int|
            0 <= j < previewed(events, query).len() ==> item_lines(
                items_of(events)[previewed(events, query)[j]],
                #[trigger] stamps[j],
                terms_of(query),
            ) is Some,
        query is None ==> preview_of(events, query, stamps) is Some,
{
    let its = items_of(events);
    let idx = previewed(events, query);
    let ts = terms_of(query);
    rendered_where_all_are(its, idx, stamps, ts);
    if query is None {
        assert forall|j: int| 0 <= j < idx.len() implies item_lines(
            its[idx[j]],
            #[trigger] stamps[j],
            ts,
        ) is Some by {
            messages_are_shown_whole(its[idx[j]], stamps[j], ts);
        }
    }
}

proof fn rendered_where_all_are(
    its: Seq<ItemView>,
    idx: Seq<int>,
    stamps: Seq<Seq<char>>,
    ts: Seq<Seq<char>>,
)
    ensures
        rendered(its, idx, stamps, ts) is Some <==> forall|j: int|
            0 <= j < idx.len() ==> item_lines(its[idx[j]], #[trigger] stamps[j], ts) is Some,
    decreases idx.len(),
{
    if idx.len() > 0 {
        let before = idx.drop_last();
        let n = idx.len() - 1;
        rendered_where_all_are(its, before, stamps, ts);
        if rendered(its, idx, stamps, ts) is Some {
            assert forall|j: int| 0 <= j < idx.len() implies item_lines(
                its[idx[j]],
                #[trigger] stamps[j],
                ts,
            ) is Some by {
                if j < n {
                    assert(before[j] == idx[j]);
                }
            }
        }
        if forall|j: int|
            0 <= j < idx.len() ==> item_lines(its[idx[j]], #[trigger] stamps[j], ts) is Some {
            assert forall|j: int| 0 <= j < before.len() implies item_lines(
                its[before[j]],
                #[trigger] stamps[j],
                ts,
            ) is Some by {
                assert(before[j] == idx[j]);
            }
            assert(item_lines(its[idx[n]], stamps[n], ts) is Some);
        }
    }
}

} // verus!
