//! Going back to a session.

use crate::text;
use crate::text::concat;
use vstd::prelude::*;

verus! {

/// Where a session may be resumed, best first: its working directory, its
/// project's directory, the home directory.
pub open spec fn candidates(
    cwd: Option<Seq<char>>,
    project_dir: Seq<char>,
    home: Option<Seq<char>>,
) -> Seq<Seq<char>> {
    (match cwd {
        Some(d) => seq![d],
        None => Seq::empty(),
    }) + seq![project_dir] + (match home {
        Some(d) => seq![d],
        None => Seq::empty(),
    })
}

/// Where a session may be resumed, best first.
pub fn resume_candidates(cwd: &Option<String>, project_dir: &str, home: &Option<String>) -> (r: Vec<
    String,
>)
    ensures
        text::texts(r@) == candidates(text::opt_text(*cwd), project_dir@, text::opt_text(*home)),
{
    let mut out: Vec<String> = Vec::new();
    if let Some(d) = cwd {
        out.push(d.clone());
    }
    out.push(project_dir.to_owned());
    if let Some(d) = home {
        out.push(d.clone());
    }
    proof {
        assert(text::texts(out@) =~= candidates(
            text::opt_text(*cwd),
            project_dir@,
            text::opt_text(*home),
        ));
    }
    out
}

/// Which candidate is taken, and which were passed over before it.
pub struct ResumeChoice {
    pub skipped: Vec<String>,
    pub target: Option<String>,
}

/// How many candidates stand before the first that is a directory.
pub open spec fn first_usable(usable: Seq<bool>) -> nat
    decreases usable.len(),
{
    if usable.len() == 0 || usable[0] {
        0
    } else {
        1 + first_usable(usable.drop_first())
    }
}

/// Takes the first candidate that is a directory.
pub fn choose_dir(dirs: &Vec<String>, usable: &Vec<bool>) -> (r: ResumeChoice)
    requires
        dirs@.len() == usable@.len(),
    ensures
        ({
            let k = first_usable(usable@) as int;
            &&& k <= dirs@.len()
            &&& text::texts(r.skipped@) == text::texts(dirs@.take(k))
            &&& text::opt_text(r.target) == (if k < dirs@.len() {
                Some(dirs@[k]@)
            } else {
                None
            })
        }),
{
    let mut skipped: Vec<String> = Vec::new();
    let mut i: usize = 0;
    proof {
        assert(usable@.skip(0) =~= usable@);
    }
    while i < dirs.len()
        invariant
            dirs@.len() == usable@.len(),
            i <= dirs@.len(),
            first_usable(usable@) == i + first_usable(usable@.skip(i as int)),
            text::texts(skipped@) == text::texts(dirs@.take(i as int)),
        decreases dirs@.len() - i,
    {
        proof {
            assert(usable@.skip(i as int).drop_first() =~= usable@.skip(i + 1));
        }
        if usable[i] {
            return ResumeChoice { skipped, target: Some(dirs[i].clone()) };
        }
        let ghost before = text::texts(skipped@);
        skipped.push(dirs[i].clone());
        proof {
            assert(text::texts(skipped@) =~= before.push(dirs@[i as int]@));
            assert(text::texts(dirs@.take(i + 1)) =~= before.push(dirs@[i as int]@));
        }
        i += 1;
    }
    ResumeChoice { skipped, target: None }
}

/// The chosen candidate is a directory, and none before it is; where none is
/// chosen, none is a directory.
pub proof fn best_directory_is_chosen(usable: Seq<bool>)
    ensures
        first_usable(usable) <= usable.len(),
        first_usable(usable) < usable.len() ==> usable[first_usable(usable) as int],
        forall|i: int| 0 <= i < first_usable(usable) ==> !usable[i],
    decreases usable.len(),
{
    if usable.len() > 0 && !usable[0] {
        best_directory_is_chosen(usable.drop_first());
        assert forall|i: int| 0 <= i < first_usable(usable) implies !usable[i] by {
            if i > 0 {
                assert(usable[i] == usable.drop_first()[i - 1]);
            }
        }
    }
}

/// What to tell the user about a candidate that was passed over.
pub fn skipped_message(dir: &str) -> (r: String)
    ensures
        r@ == "ccfind: cwd unavailable: "@ + dir@,
{
    concat("ccfind: cwd unavailable: ", dir)
}

/// What to tell the user about a session that the index does not hold.
pub fn not_found_message(file_id: &str, hint: bool) -> (r: String)
    ensures
        r@ == "session not found: "@ + file_id@ + (if hint {
            " (try `ccfind reindex`)"@
        } else {
            Seq::empty()
        }),
{
    let mut out = concat("session not found: ", file_id);
    if hint {
        out.append(" (try `ccfind reindex`)");
    }
    proof {
        assert(out@ =~= "session not found: "@ + file_id@ + (if hint {
            " (try `ccfind reindex`)"@
        } else {
            Seq::empty()
        }));
    }
    out
}

/// What to tell the user when no candidate is a directory.
pub const NO_DIRECTORY: &'static str = "no usable cwd found";

/// The command that resumes a session: the program that recorded it, and its
/// arguments.
pub fn resume_command(agent: &str, file_id: &str) -> (r: Vec<String>)
    ensures
        text::texts(r@) == seq![agent@, "--resume"@, file_id@],
{
    let mut out: Vec<String> = Vec::new();
    out.push(agent.to_owned());
    out.push("--resume".to_owned());
    out.push(file_id.to_owned());
    proof {
        assert(text::texts(out@) =~= seq![agent@, "--resume"@, file_id@]);
    }
    out
}

/// The editor: the one that the user names, or `vi`.
pub fn editor(named: Option<String>) -> (r: String)
    ensures
        r@ == (match named {
            Some(e) => e@,
            None => "vi"@,
        }),
{
    match named {
        Some(e) => e,
        None => "vi".to_owned(),
    }
}

/// What to tell the user about an editor that failed.
pub fn editor_message(editor: &str) -> (r: String)
    ensures
        r@ == editor@ + " exited non-zero"@,
{
    concat(editor, " exited non-zero")
}

/// A session's working directory is the first candidate where it has one,
/// whatever the other directories are; its project's directory comes next, and
/// the home directory, where there is one, last. Nothing else is a candidate.
pub proof fn the_working_directory_comes_first(
    cwd: Option<Seq<char>>,
    project_dir: Seq<char>,
    home: Option<Seq<char>>,
)
    ensures
        ({
            let c = candidates(cwd, project_dir, home);
            let n: int = if cwd is Some {
                1
            } else {
                0
            };
            let h: int = if home is Some {
                1
            } else {
                0
            };
            &&& c.len() == n + 1 + h
            &&& cwd matches Some(d) ==> c[0] == d
            &&& c[n] == project_dir
            &&& home matches Some(d) ==> c[n + 1] == d
        }),
{
}

/// A session is resumed in its working directory wherever that is a directory,
/// whatever the others are; else in its project's, and else at home.
pub proof fn usable_working_directories_are_chosen(
    cwd: Option<Seq<char>>,
    project_dir: Seq<char>,
    home: Option<Seq<char>>,
    usable: Seq<bool>,
)
    requires
        usable.len() == candidates(cwd, project_dir, home).len(),
    ensures
        ({
            let k = first_usable(usable) as int;
            let chosen = candidates(cwd, project_dir, home)[k];
            let n: int = if cwd is Some {
                1
            } else {
                0
            };
            &&& cwd is Some && usable[0] ==> k < usable.len() && chosen == cwd->0
            &&& usable[n] && (cwd is Some ==> !usable[0]) ==> k < usable.len() && chosen
                == project_dir
            &&& home is Some && usable[n + 1] && (forall|i: int| 0 <= i <= n ==> !usable[i]) ==> k
                < usable.len() && chosen == home->0
            &&& (forall|i: int| 0 <= i < usable.len() ==> !usable[i]) ==> k == usable.len()
        }),
{
    best_directory_is_chosen(usable);
    the_working_directory_comes_first(cwd, project_dir, home);
    let k = first_usable(usable) as int;
    let n: int = if cwd is Some {
        1
    } else {
        0
    };
    if cwd is Some && usable[0] {
        assert(k <= 0) by {
            if k > 0 {
                assert(!usable[0]);
            }
        }
    }
    if usable[n] && (cwd is Some ==> !usable[0]) {
        assert(k == n) by {
            if k > n {
                assert(!usable[n]);
            }
        }
    }
    if home is Some && usable[n + 1] {
        assert(k <= n + 1) by {
            if k > n + 1 {
                assert(!usable[n + 1]);
            }
        }
    }
}

} // verus!
