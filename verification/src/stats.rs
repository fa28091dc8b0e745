//! The size of the index, for the user.

use crate::clock;
use crate::clock::local_text;
use crate::index::IndexStats;
use crate::numbers;
use crate::numbers::{fixed_text, signed_text};
use crate::text;
use crate::text::concat;
use vstd::prelude::*;

verus! {

/// The lines that show the size of the index; `last` is the time of the last
/// refresh.
pub open spec fn report(s: IndexStats, last: Seq<char>) -> Seq<Seq<char>> {
    seq![
        "schema_version : "@ + numbers::decimal(s.schema_version as int),
        "projects       : "@ + numbers::decimal(s.projects as int),
        "sessions       : "@ + numbers::decimal(s.sessions as int),
        "messages       : "@ + numbers::decimal(s.messages as int),
        "index size     : "@ + numbers::fixed(s.db_bytes as nat, 0x10_0000, 1) + " MB"@,
        "last refresh   : "@ + last,
    ]
}

/// The lines that show the size of the index, with `last` as the time of the
/// last refresh.
pub fn report_lines(s: &IndexStats, last: &str) -> (r: Vec<String>)
    ensures
        text::texts(r@) == report(*s, last@),
{
    let mut out: Vec<String> = Vec::new();
    out.push(concat("schema_version : ", signed_text(s.schema_version as i64).as_str()));
    out.push(concat("projects       : ", signed_text(s.projects).as_str()));
    out.push(concat("sessions       : ", signed_text(s.sessions).as_str()));
    out.push(concat("messages       : ", signed_text(s.messages).as_str()));
    let mut size = concat("index size     : ", fixed_text(s.db_bytes, 0x10_0000, 1).as_str());
    size.append(" MB");
    out.push(size);
    out.push(concat("last refresh   : ", last));
    proof {
        assert(text::texts(out@) =~= report(*s, last@));
    }
    out
}

/// Whether `last` can be the time of the last refresh: `never` without one, or
/// for one that the calendar does not cover; else the time, written in some time
/// zone.
pub open spec fn shows_refresh(ts: Option<i64>, last: Seq<char>) -> bool {
    match ts {
        Some(t) if clock::FIRST_TIME <= t <= clock::LAST_TIME => clock::local_seconds(t, last),
        _ => last == "never"@,
    }
}

/// The lines that show the size of the index, times in the machine's time zone.
pub fn run(s: &IndexStats) -> (r: Vec<String>)
    ensures
        exists|last: Seq<char>|
            shows_refresh(s.last_refresh, last) && text::texts(r@) == report(*s, last),
{
    let shown = match s.last_refresh {
        Some(t) => local_text(t, clock::SECONDS),
        None => None,
    };
    let last = match shown {
        Some(t) => t,
        None => "never".to_owned(),
    };
    proof {
        assert(shows_refresh(s.last_refresh, last@));
    }
    report_lines(s, last.as_str())
}

/// The report tells each number by its name, as it is.
pub proof fn the_report_tells_every_number(s: IndexStats, last: Seq<char>)
    ensures
        report(s, last).len() == 6,
        report(s, last)[0] == "schema_version : "@ + numbers::decimal(s.schema_version as int),
        report(s, last)[1] == "projects       : "@ + numbers::decimal(s.projects as int),
        report(s, last)[2] == "sessions       : "@ + numbers::decimal(s.sessions as int),
        report(s, last)[3] == "messages       : "@ + numbers::decimal(s.messages as int),
        report(s, last)[4] == "index size     : "@ + numbers::fixed(
            s.db_bytes as nat,
            1024 * 1024,
            1,
        ) + " MB"@,
        report(s, last)[5] == "last refresh   : "@ + last,
{
}

/// The time of the last refresh is told wherever there was one that the calendar
/// covers, and else that there was none.
pub proof fn the_last_refresh_is_told(ts: i64, last: Seq<char>)
    ensures
        -8334601228800 <= ts <= 8210266876799 ==> (shows_refresh(Some(ts), last)
            <==> clock::local_seconds(ts, last)),
        ts < -8334601228800 || ts > 8210266876799 ==> (shows_refresh(Some(ts), last) <==> last
            == "never"@),
        shows_refresh(None, last) <==> last == "never"@,
{
}

} // verus!
