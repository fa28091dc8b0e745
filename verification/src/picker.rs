//! The arguments of the picker, and what its end means.

use crate::numbers;
use crate::numbers::signed_text;
use crate::search;
use crate::search::{fzf_line, Hit};
use crate::text;
use crate::text::concat;
use vstd::prelude::*;

verus! {

/// A word as it is written in a shell command, as `shlex` quotes it.
pub uninterp spec fn shell_quoted(s: Seq<char>) -> Seq<char>;

/// Whether a character stands for itself in a shell command.
pub open spec fn is_shell_plain(c: char) -> bool {
    ||| '0' <= c <= '9'
    ||| 'A' <= c <= 'Z'
    ||| 'a' <= c <= 'z'
    ||| c == '+' || c == '-' || c == '.' || c == '/' || c == ':' || c == '@' || c == ']' || c == '_'
}

/// Calls `shlex::try_quote`, which takes every text without a nul character.
/// The result depends on the text alone; a text of plain characters is left as
/// it is.
#[verifier::external_body]
fn shell_quote(s: &str) -> (r: String)
    requires
        !s@.contains('\0'),
    ensures
        r@ == shell_quoted(s@),
        s@.len() > 0 && (forall|i: int| 0 <= i < s@.len() ==> is_shell_plain(#[trigger] s@[i]))
            ==> r@ == s@,
{
    shlex::try_quote(s).unwrap().into_owned()
}

/// The command that shows a session beside the list.
pub open spec fn preview_command(exe: Seq<char>, query: Option<Seq<char>>) -> Seq<char> {
    match query {
        Some(q) if q.len() > 0 => exe + " preview {5} --match "@ + shell_quoted(q),
        _ => exe + " preview {5}"@,
    }
}

/// The command that resumes the chosen session.
pub open spec fn resume_command(exe: Seq<char>) -> Seq<char> {
    exe + " resume {5}"@
}

/// The command that opens the file of the chosen session.
pub open spec fn edit_command(exe: Seq<char>) -> Seq<char> {
    exe + " edit {5}"@
}

/// The key that resumes a session.
pub open spec fn enter_binding(exe: Seq<char>) -> Seq<char> {
    "enter:become("@ + resume_command(exe) + ")"@
}

/// The key that opens the file of a session.
pub open spec fn edit_binding(exe: Seq<char>) -> Seq<char> {
    "ctrl-e:execute("@ + edit_command(exe) + ")"@
}

/// The picker's arguments for a list of hits. `exe` is this program, quoted.
pub open spec fn list_args(exe: Seq<char>, query: Option<Seq<char>>) -> Seq<Seq<char>> {
    seq![
        "--ansi"@,
        "--delimiter"@,
        "\t"@,
        "--with-nth"@,
        "1..4"@,
        "--nth"@,
        "1..4"@,
        "--preview"@,
        preview_command(exe, query),
        "--preview-window"@,
        "right:60%:wrap"@,
        "--height"@,
        "90%"@,
        "--reverse"@,
        "--bind"@,
        enter_binding(exe),
        "--bind"@,
        "ctrl-o:become(echo {5})"@,
        "--bind"@,
        edit_binding(exe),
        "--header"@,
        "enter=resume  ctrl-o=print id  ctrl-e=edit jsonl"@,
    ]
}

/// The picker's arguments for a list that follows what is typed. `exe` is this
/// program, quoted.
pub open spec fn live_args(exe: Seq<char>) -> Seq<Seq<char>> {
    seq![
        "--ansi"@,
        "--disabled"@,
        "--delimiter"@,
        "\t"@,
        "--with-nth"@,
        "1..4"@,
        "--query"@,
        ""@,
        "--bind"@,
        "change:reload:"@ + (exe + " --no-fzf -- {q}"@),
        "--preview"@,
        exe + " preview {5} --match {q}"@,
        "--preview-window"@,
        "right:60%:wrap"@,
        "--height"@,
        "90%"@,
        "--reverse"@,
        "--bind"@,
        enter_binding(exe),
        "--bind"@,
        "ctrl-o:become(echo {5})"@,
        "--bind"@,
        edit_binding(exe),
        "--header"@,
        "type to search content & metadata  |  enter=resume  ctrl-o=print id  ctrl-e=edit jsonl"@,
    ]
}

fn bind_enter(exe: &str) -> (r: String)
    ensures
        r@ == enter_binding(exe@),
{
    let cmd = concat(exe, " resume {5}");
    concat(concat("enter:become(", cmd.as_str()).as_str(), ")")
}

fn bind_edit(exe: &str) -> (r: String)
    ensures
        r@ == edit_binding(exe@),
{
    let cmd = concat(exe, " edit {5}");
    concat(concat("ctrl-e:execute(", cmd.as_str()).as_str(), ")")
}

fn preview_for(exe: &str, query: Option<&str>) -> (r: String)
    requires
        query matches Some(q) ==> !q@.contains('\0'),
    ensures
        r@ == preview_command(exe@, text::opt_str(query)),
{
    match query {
        Some(q) => if !q.is_empty() {
            concat(concat(exe, " preview {5} --match ").as_str(), shell_quote(q).as_str())
        } else {
            concat(exe, " preview {5}")
        },
        None => concat(exe, " preview {5}"),
    }
}

/// The picker's arguments for a list of hits: `exe` is the path of this program,
/// `query` what was searched for.
pub fn fzf_args(exe: &str, query: Option<&str>) -> (r: Vec<String>)
    requires
        !exe@.contains('\0'),
        query matches Some(q) ==> !q@.contains('\0'),
    ensures
        text::texts(r@) == list_args(shell_quoted(exe@), text::opt_str(query)),
{
    let quoted = shell_quote(exe);
    fzf_args_for(quoted.as_str(), query)
}

/// The picker's arguments for a list of hits: `exe` is this program, quoted.
pub fn fzf_args_for(exe: &str, query: Option<&str>) -> (r: Vec<String>)
    requires
        query matches Some(q) ==> !q@.contains('\0'),
    ensures
        text::texts(r@) == list_args(exe@, text::opt_str(query)),
{
    let mut out: Vec<String> = Vec::new();
    out.push("--ansi".to_owned());
    out.push("--delimiter".to_owned());
    out.push("\t".to_owned());
    out.push("--with-nth".to_owned());
    out.push("1..4".to_owned());
    out.push("--nth".to_owned());
    out.push("1..4".to_owned());
    out.push("--preview".to_owned());
    out.push(preview_for(exe, query));
    out.push("--preview-window".to_owned());
    out.push("right:60%:wrap".to_owned());
    out.push("--height".to_owned());
    out.push("90%".to_owned());
    out.push("--reverse".to_owned());
    out.push("--bind".to_owned());
    out.push(bind_enter(exe));
    out.push("--bind".to_owned());
    out.push("ctrl-o:become(echo {5})".to_owned());
    out.push("--bind".to_owned());
    out.push(bind_edit(exe));
    out.push("--header".to_owned());
    out.push("enter=resume  ctrl-o=print id  ctrl-e=edit jsonl".to_owned());
    proof {
        assert(text::texts(out@) =~= list_args(exe@, text::opt_str(query)));
    }
    out
}

/// The picker's arguments for a list that follows what is typed: `exe` is the
/// path of this program.
pub fn fzf_interactive_args(exe: &str) -> (r: Vec<String>)
    requires
        !exe@.contains('\0'),
    ensures
        text::texts(r@) == live_args(shell_quoted(exe@)),
{
    let quoted = shell_quote(exe);
    fzf_interactive_args_for(quoted.as_str())
}

/// The picker's arguments for a list that follows what is typed: `exe` is this
/// program, quoted.
pub fn fzf_interactive_args_for(exe: &str) -> (r: Vec<String>)
    ensures
        text::texts(r@) == live_args(exe@),
{
    let mut out: Vec<String> = Vec::new();
    out.push("--ansi".to_owned());
    out.push("--disabled".to_owned());
    out.push("--delimiter".to_owned());
    out.push("\t".to_owned());
    out.push("--with-nth".to_owned());
    out.push("1..4".to_owned());
    out.push("--query".to_owned());
    out.push("".to_owned());
    out.push("--bind".to_owned());
    out.push(concat("change:reload:", concat(exe, " --no-fzf -- {q}").as_str()));
    out.push("--preview".to_owned());
    out.push(concat(exe, " preview {5} --match {q}"));
    out.push("--preview-window".to_owned());
    out.push("right:60%:wrap".to_owned());
    out.push("--height".to_owned());
    out.push("90%".to_owned());
    out.push("--reverse".to_owned());
    out.push("--bind".to_owned());
    out.push(bind_enter(exe));
    out.push("--bind".to_owned());
    out.push("ctrl-o:become(echo {5})".to_owned());
    out.push("--bind".to_owned());
    out.push(bind_edit(exe));
    out.push("--header".to_owned());
    out.push(
        "type to search content & metadata  |  enter=resume  ctrl-o=print id  ctrl-e=edit jsonl".to_owned(),
    );
    proof {
        assert(text::texts(out@) =~= live_args(exe@));
    }
    out
}

/// The lines that show the hits, in order.
pub fn print_lines(hits: &Vec<Hit>) -> (r: Vec<String>)
    ensures
        r@.len() == hits@.len(),
        forall|i: int| 0 <= i < r@.len() ==> search::shows(hits@[i], (#[trigger] r@[i])@),
{
    let mut out: Vec<String> = Vec::new();
    let mut i: usize = 0;
    while i < hits.len()
        invariant
            i <= hits@.len(),
            out@.len() == i,
            forall|j: int| 0 <= j < i ==> search::shows(hits@[j], (#[trigger] out@[j])@),
        decreases hits@.len() - i,
    {
        out.push(fzf_line(&hits[i]));
        i += 1;
    }
    out
}

/// What the picker's exit code means: 0 and 130, which stands for no choice,
/// are no errors, nor is an end without a code.
pub fn fzf_result(code: Option<i32>) -> (r: Result<(), i32>)
    ensures
        r == (match code {
            Some(c) => if c == 0 || c == 130 {
                Ok::<(), i32>(())
            } else {
                Err::<(), i32>(c)
            },
            None => Ok::<(), i32>(()),
        }),
{
    match code {
        Some(c) => if c == 0 || c == 130 {
            Ok(())
        } else {
            Err(c)
        },
        None => Ok(()),
    }
}

/// What to tell the user about a failed picker.
pub fn fzf_message(code: i32) -> (r: String)
    ensures
        r@ == "fzf exited with code "@ + numbers::decimal(code as int),
{
    concat("fzf exited with code ", signed_text(code as i64).as_str())
}

// ------------------------------------------------------------------------ laws

/// The picker previews, resumes and edits the session of the chosen line by this
/// program, whatever its path, and hands what was searched for on to the preview,
/// whatever it was, quoted.
pub proof fn the_picker_works_on_the_chosen_session(exe: Seq<char>, query: Option<Seq<char>>)
    ensures
        ({
            let args = list_args(exe, query);
            &&& args.len() == 22
            &&& args[7] == "--preview"@
            &&& query is Some && query->0.len() > 0 ==> args[8] == exe
                + " preview {5} --match "@ + shell_quoted(query->0)
            &&& query is None || query->0.len() == 0 ==> args[8] == exe + " preview {5}"@
            &&& args[14] == "--bind"@
            &&& args[15] == "enter:become("@ + (exe + " resume {5}"@) + ")"@
            &&& args[16] == "--bind"@
            &&& args[17] == "ctrl-o:become(echo {5})"@
            &&& args[18] == "--bind"@
            &&& args[19] == "ctrl-e:execute("@ + (exe + " edit {5}"@) + ")"@
        }),
{
}

/// All else that the picker is told depends neither on the program's path nor on
/// what was searched for.
pub proof fn the_picker_looks_the_same(
    exe: Seq<char>,
    query: Option<Seq<char>>,
    other_exe: Seq<char>,
    other_query: Option<Seq<char>>,
    i: int,
)
    requires
        0 <= i < 22,
        i != 8,
        i != 15,
        i != 19,
    ensures
        list_args(exe, query)[i] == list_args(other_exe, other_query)[i],
{
}

/// A picker that follows what is typed searches, previews, resumes and edits by
/// this program, whatever its path; all else that it is told is the same for
/// every path.
pub proof fn the_live_picker_works_on_what_is_typed(exe: Seq<char>, other_exe: Seq<char>, i: int)
    ensures
        ({
            let args = live_args(exe);
            &&& args.len() == 25
            &&& args[8] == "--bind"@
            &&& args[9] == "change:reload:"@ + (exe + " --no-fzf -- {q}"@)
            &&& args[10] == "--preview"@
            &&& args[11] == exe + " preview {5} --match {q}"@
            &&& args[17] == "--bind"@
            &&& args[18] == "enter:become("@ + (exe + " resume {5}"@) + ")"@
            &&& args[20] == "ctrl-o:become(echo {5})"@
            &&& args[22] == "ctrl-e:execute("@ + (exe + " edit {5}"@) + ")"@
            &&& 0 <= i < 25 && i != 9 && i != 11 && i != 18 && i != 22 ==> args[i] == live_args(
                other_exe,
            )[i]
        }),
{
}

} // verus!
