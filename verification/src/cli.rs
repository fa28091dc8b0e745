//! What the command line asks for.

use crate::search::{ScopeFlag, SearchOpts};
use crate::text;
use crate::text::{concat, same};
use crate::words;
use crate::words::join;
use vstd::prelude::*;

verus! {

// --------------------------------------------------------------------- scope

/// The scope that a name selects.
pub open spec fn named_scope(name: Seq<char>) -> Option<ScopeFlag> {
    if name == "user"@ {
        Some(ScopeFlag::User)
    } else if name == "assistant"@ {
        Some(ScopeFlag::Assistant)
    } else if name == "tools"@ || name == "tool"@ {
        Some(ScopeFlag::Tools)
    } else if name == "all"@ {
        Some(ScopeFlag::All)
    } else {
        None
    }
}

/// The scope that is searched: the named one, which is the user's if the name
/// is not known, and without a name the one that the two switches select.
pub open spec fn scope_for(name: Option<Seq<char>>, assistant: bool, tools: bool) -> ScopeFlag {
    match name {
        Some(n) => named_scope(n).unwrap_or(ScopeFlag::User),
        None => if assistant && tools {
            ScopeFlag::All
        } else if assistant {
            ScopeFlag::Assistant
        } else if tools {
            ScopeFlag::Tools
        } else {
            ScopeFlag::User
        },
    }
}

/// What to tell the user about a scope that is not known.
pub open spec fn scope_warning(name: Seq<char>) -> Seq<char> {
    "ccfind: unknown scope '"@ + name + "', defaulting to user"@
}

/// The scope that is searched, and a warning if its name is not known.
pub fn pick_scope(name: Option<&str>, assistant: bool, tools: bool) -> (r: (
    ScopeFlag,
    Option<String>,
))
    ensures
        r.0 == scope_for(text::opt_str(name), assistant, tools),
        text::opt_text(r.1) == (match name {
            Some(n) => if named_scope(n@) is None {
                Some(scope_warning(n@))
            } else {
                None
            },
            None => None,
        }),
{
    match name {
        Some(n) => {
            if same(n, "user") {
                (ScopeFlag::User, None)
            } else if same(n, "assistant") {
                (ScopeFlag::Assistant, None)
            } else if same(n, "tools") || same(n, "tool") {
                (ScopeFlag::Tools, None)
            } else if same(n, "all") {
                (ScopeFlag::All, None)
            } else {
                let warning = concat(
                    concat("ccfind: unknown scope '", n).as_str(),
                    "', defaulting to user",
                );
                (ScopeFlag::User, Some(warning))
            }
        },
        None => {
            let flag = if assistant && tools {
                ScopeFlag::All
            } else if assistant {
                ScopeFlag::Assistant
            } else if tools {
                ScopeFlag::Tools
            } else {
                ScopeFlag::User
            };
            (flag, None)
        },
    }
}

// --------------------------------------------------------------------- query

/// The query that the search terms form: none without terms.
pub open spec fn query_text(terms: Seq<Seq<char>>) -> Option<Seq<char>> {
    if terms.len() == 0 {
        None
    } else {
        Some(words::joined(terms, " "@))
    }
}

/// The query that the search terms form.
pub fn query_of(terms: &Vec<String>) -> (r: Option<String>)
    ensures
        text::opt_text(r) == query_text(text::texts(terms@)),
{
    if terms.len() == 0 {
        None
    } else {
        Some(join(terms, " "))
    }
}

/// The options of a search from the command line.
pub struct SearchArgs {
    pub terms: Vec<String>,
    pub scope: Option<String>,
    pub assistant: bool,
    pub tools: bool,
    pub project: Option<String>,
    pub branch: Option<String>,
    pub cwd: Option<String>,
    pub limit: usize,
}

/// The search that the command line asks for, and a warning if it names a scope
/// that is not known. `since` is the time limit, worked out.
pub fn search_opts(args: &SearchArgs, since: Option<i64>) -> (r: (SearchOpts, Option<String>))
    ensures
        text::opt_text(r.0.query) == query_text(text::texts(args.terms@)),
        r.0.scope == Some(
            scope_for(text::opt_text(args.scope), args.assistant, args.tools),
        ),
        text::opt_text(r.0.project) == text::opt_text(args.project),
        text::opt_text(r.0.branch) == text::opt_text(args.branch),
        text::opt_text(r.0.cwd_glob) == text::opt_text(args.cwd),
        r.0.since == since,
        r.0.limit == args.limit,
        text::opt_text(r.1) == (match args.scope {
            Some(n) => if named_scope(n@) is None {
                Some(scope_warning(n@))
            } else {
                None
            },
            None => None,
        }),
{
    let name: Option<&str> = match &args.scope {
        Some(n) => Some(n.as_str()),
        None => None,
    };
    let (flag, warning) = pick_scope(name, args.assistant, args.tools);
    (
        SearchOpts {
            query: query_of(&args.terms),
            scope: Some(flag),
            project: args.project.clone(),
            branch: args.branch.clone(),
            cwd_glob: args.cwd.clone(),
            since,
            limit: args.limit,
        },
        warning,
    )
}

// ------------------------------------------------------------------- commands

/// What the program is asked to do.
#[derive(Debug, Clone, Copy, PartialEq, Eq, Structural)]
pub enum Command {
    Reindex { full: bool },
    Preview,
    Resume,
    Edit,
    Stats,
    Search,
}

/// What is done to the index before the command runs.
#[derive(Debug, Clone, Copy, PartialEq, Eq, Structural)]
pub enum Upkeep {
    /// Nothing.
    Leave,
    /// It is refreshed, and a failure ends the program.
    Refresh,
    /// It is refreshed, and a failure does not matter.
    TryRefresh,
    /// It is built from scratch.
    Rebuild,
    /// It is built from scratch, after a word to the user.
    FirstBuild,
}

/// What is done to the index before a command runs, where `had_index` says
/// whether there was an index. Every command but a reindexing builds the index
/// if there is none, and else brings it up to date; a preview has to be fast
/// and takes it as it is.
pub open spec fn upkeep_for(command: Command, had_index: bool) -> Upkeep {
    match command {
        Command::Reindex { full } => if full {
            Upkeep::Rebuild
        } else {
            Upkeep::Refresh
        },
        _ => if !had_index {
            Upkeep::FirstBuild
        } else if command == Command::Preview {
            Upkeep::Leave
        } else {
            Upkeep::TryRefresh
        },
    }
}

/// Decides what is done to the index before a command runs.
pub fn upkeep(command: Command, had_index: bool) -> (r: Upkeep)
    ensures
        r == upkeep_for(command, had_index),
{
    match command {
        Command::Reindex { full } => if full {
            Upkeep::Rebuild
        } else {
            Upkeep::Refresh
        },
        Command::Preview => if had_index {
            Upkeep::Leave
        } else {
            Upkeep::FirstBuild
        },
        _ => if had_index {
            Upkeep::TryRefresh
        } else {
            Upkeep::FirstBuild
        },
    }
}

/// How the hits of a search are shown.
#[derive(Debug, Clone, Copy, PartialEq, Eq, Structural)]
pub enum Output {
    /// There are none, and the user is told so.
    NoResults,
    /// As lines.
    Lines,
    /// In the picker.
    Picker,
}

/// Decides how the hits of a search are shown.
pub fn output(hits: usize, no_fzf: bool) -> (r: Output)
    ensures
        r == (if hits == 0 {
            Output::NoResults
        } else if no_fzf {
            Output::Lines
        } else {
            Output::Picker
        }),
{
    if hits == 0 {
        Output::NoResults
    } else if no_fzf {
        Output::Lines
    } else {
        Output::Picker
    }
}

// ------------------------------------------------------------------------ laws

/// A scope is searched by its name; a name that is not known stands for the
/// user's messages, and a name goes before the switches.
pub proof fn scopes_go_by_their_names(name: Seq<char>, assistant: bool, tools: bool)
    ensures
        ({
            let s = scope_for(Some(name), assistant, tools);
            &&& s == ScopeFlag::Assistant <==> name == "assistant"@
            &&& s == ScopeFlag::Tools <==> name == "tools"@ || name == "tool"@
            &&& s == ScopeFlag::All <==> name == "all"@
            &&& named_scope(name) is None <==> name != "user"@ && name != "assistant"@ && name
                != "tools"@ && name != "tool"@ && name != "all"@
        }),
{
    reveal_strlit("user");
    reveal_strlit("assistant");
    reveal_strlit("tools");
    reveal_strlit("tool");
    reveal_strlit("all");
    assert("user"@[0] == 'u' && "tool"@[0] == 't');
    assert("user"@.len() == 4 && "assistant"@.len() == 9 && "tools"@.len() == 5 && "tool"@.len()
        == 4 && "all"@.len() == 3);
}

/// Without a name each switch adds its scope, and no switch adds another.
pub proof fn switches_add_their_scopes(assistant: bool, tools: bool)
    ensures
        ({
            let s = scope_for(None, assistant, tools).scope_names();
            &&& s.contains("user"@)
            &&& s.contains("assistant"@) <==> assistant
            &&& s.contains("tool"@) <==> tools
        }),
{
    reveal_strlit("user");
    reveal_strlit("assistant");
    reveal_strlit("tool");
    assert("user"@[0] == 'u' && "assistant"@[0] == 'a' && "tool"@[0] == 't');
    let s = scope_for(None, assistant, tools).scope_names();
    assert(s[0] == "user"@);
    if assistant {
        assert(s[1] == "assistant"@);
    }
    if tools {
        assert(s[s.len() - 1] == "tool"@);
    }
}

/// The query is all of the terms, with a space between neighbours; there is none
/// without terms.
pub proof fn queries_hold_every_term(terms: Seq<Seq<char>>, term: Seq<char>)
    ensures
        query_text(Seq::empty()) is None,
        query_text(seq![term]) == Some(term),
        terms.len() > 0 ==> query_text(terms) is Some && query_text(terms.push(term)) == Some(
            query_text(terms)->0 + " "@ + term,
        ),
{
    words::joining_one_more(terms, term, " "@);
}

/// Without an index every command but a reindexing builds it first; with one
/// every command but a preview brings it up to date, and only a full reindexing
/// builds it anew.
pub proof fn commands_find_an_index(command: Command, had_index: bool)
    ensures
        !(command is Reindex) && !had_index ==> upkeep_for(command, had_index)
            == Upkeep::FirstBuild,
        !(command is Reindex) && had_index ==> upkeep_for(command, had_index) == (if command
            == Command::Preview {
            Upkeep::Leave
        } else {
            Upkeep::TryRefresh
        }),
        command matches Command::Reindex { full } ==> upkeep_for(command, had_index) == (if full {
            Upkeep::Rebuild
        } else {
            Upkeep::Refresh
        }),
{
}

/// A scope that is not known is named in the warning, whatever it is.
pub proof fn unknown_scopes_are_named(name: Seq<char>)
    ensures
        scope_warning(name) == "ccfind: unknown scope '"@ + name + "', defaulting to user"@,
{
}

} // verus!
