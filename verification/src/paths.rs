//! Where the session files and the index lie, and what their names tell.

use crate::text;
use crate::text::{chars_of, concat, text_of};
use vstd::prelude::*;

verus! {

/// Why a directory cannot be named.
#[derive(Debug, Clone, Copy, PartialEq, Eq, Structural)]
pub enum PathError {
    NoHome,
    NoCache,
    ManyAgents,
}

impl PathError {
    /// What is wrong, for the user.
    pub fn message(&self) -> (r: &'static str)
        ensures
            r@ == (match self {
                PathError::NoHome => "no $HOME"@,
                PathError::NoCache => "no cache dir"@,
                PathError::ManyAgents => "sessions of several programs, name one in CCFIND_AGENT"@,
            }),
    {
        match self {
            PathError::NoHome => "no $HOME",
            PathError::NoCache => "no cache dir",
            PathError::ManyAgents => "sessions of several programs, name one in CCFIND_AGENT",
        }
    }
}

/// The relative path `rel` below the directory `base`.
pub open spec fn below(base: Seq<char>, rel: Seq<char>) -> Seq<char> {
    if base.len() == 0 || base.last() == '/' {
        base + rel
    } else {
        base + "/"@ + rel
    }
}

fn join_path(base: &str, rel: &str) -> (r: String)
    ensures
        r@ == below(base@, rel@),
{
    let cs = chars_of(base);
    if cs.len() == 0 || cs[cs.len() - 1] == '/' {
        concat(base, rel)
    } else {
        concat(concat(base, "/").as_str(), rel)
    }
}

/// The programs whose directories these are: a hidden directory is called after
/// its program, with a dot in front.
pub open spec fn agents_of(dirs: Seq<Seq<char>>) -> Seq<Seq<char>>
    decreases dirs.len(),
{
    if dirs.len() == 0 {
        Seq::empty()
    } else {
        let before = agents_of(dirs.drop_last());
        let d = dirs.last();
        if d.len() > 1 && d[0] == '.' {
            before.push(d.drop_first())
        } else {
            before
        }
    }
}

fn agents(dirs: &Vec<String>) -> (r: Vec<String>)
    ensures
        text::texts(r@) == agents_of(text::texts(dirs@)),
{
    let ghost all = text::texts(dirs@);
    let mut out: Vec<String> = Vec::new();
    let mut i: usize = 0;
    proof {
        assert(text::texts(out@) =~= agents_of(all.take(0)));
    }
    while i < dirs.len()
        invariant
            all == text::texts(dirs@),
            i <= dirs@.len(),
            text::texts(out@) == agents_of(all.take(i as int)),
        decreases dirs@.len() - i,
    {
        let cs = chars_of(dirs[i].as_str());
        let ghost before = text::texts(out@);
        proof {
            assert(all.take(i + 1).drop_last() =~= all.take(i as int));
            assert(all.take(i + 1).last() == cs@);
        }
        if cs.len() > 1 && cs[0] == '.' {
            let name = text_of(&cs, 1, cs.len());
            out.push(name);
            proof {
                assert(name@ =~= cs@.drop_first());
                assert(text::texts(out@) =~= before.push(name@));
            }
        }
        i += 1;
    }
    proof {
        assert(all.take(i as int) =~= all);
    }
    out
}

/// The program whose sessions are searched: the one that the user names, or the
/// only one of which there are sessions. `dirs` names the directories in which
/// session files were found, below the home directory.
pub fn pick_agent(named: Option<String>, dirs: &Vec<String>) -> (r: Result<
    Option<String>,
    PathError,
>)
    ensures
        ({
            let found = agents_of(text::texts(dirs@));
            match r {
                Ok(agent) => text::opt_text(agent) == (match named {
                    Some(n) => Some(n@),
                    None => if found.len() == 0 {
                        None
                    } else {
                        Some(found[0])
                    },
                }),
                Err(e) => e == PathError::ManyAgents,
            }
        }),
        r is Err <==> named is None && agents_of(text::texts(dirs@)).len() > 1,
{
    if named.is_some() {
        return Ok(named);
    }
    let found = agents(dirs);
    proof {
        assert(text::texts(found@).len() == found@.len());
    }
    if found.len() > 1 {
        Err(PathError::ManyAgents)
    } else if found.len() == 1 {
        proof {
            assert(text::texts(found@)[0] == found@[0]@);
        }
        Ok(Some(found[0].clone()))
    } else {
        Ok(None)
    }
}

/// The directory that holds the session files of the program `agent`, below the
/// home directory.
pub open spec fn projects_path(home: Seq<char>, agent: Seq<char>) -> Seq<char> {
    below(below(home, "."@ + agent), "projects"@)
}

/// The directory that holds the index, below the cache directory.
pub open spec fn cache_path(cache: Seq<char>) -> Seq<char> {
    below(cache, "ccfind"@)
}

/// The directory that holds the session files of the program `agent`.
pub fn projects_dir(home: Option<&str>, agent: &str) -> (r: Result<String, PathError>)
    ensures
        match home {
            Some(h) => r matches Ok(p) && p@ == projects_path(h@, agent@),
            None => r == Err::<String, PathError>(PathError::NoHome),
        },
{
    match home {
        Some(h) => {
            let dir = concat(".", agent);
            Ok(join_path(join_path(h, dir.as_str()).as_str(), "projects"))
        },
        None => Err(PathError::NoHome),
    }
}

/// The directory that holds the index.
pub fn cache_dir(cache: Option<&str>) -> (r: Result<String, PathError>)
    ensures
        match cache {
            Some(c) => r matches Ok(p) && p@ == cache_path(c@),
            None => r == Err::<String, PathError>(PathError::NoCache),
        },
{
    match cache {
        Some(c) => Ok(join_path(c, "ccfind")),
        None => Err(PathError::NoCache),
    }
}

/// The file of the index.
pub fn index_db_path(cache: Option<&str>) -> (r: Result<String, PathError>)
    ensures
        match cache {
            Some(c) => r matches Ok(p) && p@ == below(cache_path(c@), "index.db"@),
            None => r == Err::<String, PathError>(PathError::NoCache),
        },
{
    match cache_dir(cache) {
        Ok(d) => Ok(join_path(d.as_str(), "index.db")),
        Err(e) => Err(e),
    }
}

// ---------------------------------------------------------- project directory

/// A path with its slashes written as dashes: the name of a project directory.
pub open spec fn encoded(path: Seq<char>) -> Seq<char> {
    path.map_values(
        |c: char|
            if c == '/' {
                '-'
            } else {
                c
            },
    )
}

/// The path that the name of a project directory hints at: a slash, then the
/// name without a leading dash, its dashes read as slashes.
pub open spec fn decoded(name: Seq<char>) -> Seq<char> {
    let rest = if name.len() > 0 && name[0] == '-' {
        name.drop_first()
    } else {
        name
    };
    seq!['/'] + rest.map_values(
        |c: char|
            if c == '-' {
                '/'
            } else {
                c
            },
    )
}

/// Reads the name of a project directory as a path. A dash of the path itself
/// cannot be told from a slash, so the result is a hint.
pub fn decode_project_dir(encoded: &str) -> (r: String)
    ensures
        r@ == decoded(encoded@),
{
    let cs = chars_of(encoded);
    let from: usize = if cs.len() > 0 && cs[0] == '-' {
        1
    } else {
        0
    };
    let mut out = String::new();
    out.push('/');
    let mut i: usize = from;
    while i < cs.len()
        invariant
            from <= i <= cs@.len(),
            out@ == seq!['/'] + cs@.subrange(from as int, i as int).map_values(
                |c: char|
                    if c == '-' {
                        '/'
                    } else {
                        c
                    },
            ),
        decreases cs@.len() - i,
    {
        if cs[i] == '-' {
            out.push('/');
        } else {
            out.push(cs[i]);
        }
        i += 1;
    }
    proof {
        assert(cs@.subrange(from as int, i as int) =~= (if from == 1 {
            encoded@.drop_first()
        } else {
            encoded@
        }));
    }
    out
}

/// Decoding gives back an absolute path that holds no dash.
pub proof fn decoding_inverts_encoding(path: Seq<char>)
    requires
        path.len() > 0,
        path[0] == '/',
        !path.contains('-'),
    ensures
        decoded(encoded(path)) == path,
{
    assert forall|i: int| 0 <= i < path.len() implies path[i] != '-' by {
        assert(path.contains(path[i]));
    }
    assert(decoded(encoded(path)) =~= path);
}

/// A decoded path is absolute and holds no dash, whatever the name.
pub proof fn decoded_paths_are_absolute(name: Seq<char>)
    ensures
        decoded(name).len() > 0,
        decoded(name)[0] == '/',
        !decoded(name).contains('-'),
{
}

// ----------------------------------------------------------------- file names

/// The position of the last `c` in `s`, or -1.
pub open spec fn last_at(s: Seq<char>, c: char) -> int
    decreases s.len(),
{
    if s.len() == 0 {
        -1
    } else if s.last() == c {
        s.len() - 1
    } else {
        last_at(s.drop_last(), c)
    }
}

/// `last_at` names the last occurrence.
pub proof fn last_at_is_last(s: Seq<char>, c: char)
    ensures
        -1 <= last_at(s, c) < s.len(),
        last_at(s, c) >= 0 ==> s[last_at(s, c)] == c,
        forall|i: int| last_at(s, c) < i < s.len() ==> s[i] != c,
    decreases s.len(),
{
    if s.len() > 0 && s.last() != c {
        last_at_is_last(s.drop_last(), c);
        assert forall|i: int| last_at(s, c) < i < s.len() implies s[i] != c by {
            if i < s.len() - 1 {
                assert(s[i] == s.drop_last()[i]);
            }
        }
    }
}

/// How many of the first `n` characters stand before and at the last `c`: 0 if
/// there is none.
fn behind_last(cs: &Vec<char>, n: usize, c: char) -> (r: usize)
    requires
        n <= cs@.len(),
    ensures
        r == last_at(cs@.take(n as int), c) + 1,
        r <= n,
{
    let mut i: usize = n;
    while i > 0 && cs[i - 1] != c
        invariant
            i <= n <= cs@.len(),
            last_at(cs@.take(n as int), c) == last_at(cs@.take(i as int), c),
        decreases i,
    {
        proof {
            assert(cs@.take(i as int).drop_last() =~= cs@.take(i - 1));
        }
        i -= 1;
    }
    i
}

/// The last component of a path, if it names a file: slashes and `.` components
/// at the end do not count, and `..` names none.
pub open spec fn file_name(p: Seq<char>) -> Option<Seq<char>>
    decreases p.len(),
{
    let start = last_at(p, '/') + 1;
    let name = p.skip(start);
    if p.len() == 0 {
        None
    } else if p.last() == '/' {
        file_name(p.drop_last())
    } else if name == seq!['.'] {
        if start == 0 {
            None
        } else {
            file_name(p.drop_last())
        }
    } else if name == seq!['.', '.'] {
        None
    } else {
        Some(name)
    }
}

/// A file name without its extension: what stands before the last dot, or the
/// whole name if that dot is its first character or there is none.
pub open spec fn stem(name: Seq<char>) -> Seq<char> {
    if last_at(name, '.') > 0 {
        name.take(last_at(name, '.'))
    } else {
        name
    }
}

/// The extension of a file name: what stands behind the last dot, unless that
/// dot is its first character or there is none.
pub open spec fn extension(name: Seq<char>) -> Option<Seq<char>> {
    if last_at(name, '.') > 0 {
        Some(name.skip(last_at(name, '.') + 1))
    } else {
        None
    }
}

/// The session id that the path of a session file holds.
pub open spec fn file_id(p: Seq<char>) -> Option<Seq<char>> {
    match file_name(p) {
        Some(name) => Some(stem(name)),
        None => None,
    }
}

/// The last component of a path, if it names a file.
pub fn base_name(p: &str) -> (r: Option<String>)
    ensures
        text::opt_text(r) == file_name(p@),
{
    let cs = chars_of(p);
    let mut n: usize = cs.len();
    proof {
        assert(cs@.take(n as int) =~= p@);
    }
    while n > 0
        invariant
            n <= cs@.len(),
            file_name(p@) == file_name(cs@.take(n as int)),
        decreases n,
    {
        let ghost q = cs@.take(n as int);
        proof {
            assert(q.drop_last() =~= cs@.take(n - 1));
            assert(q.last() == cs@[n - 1]);
        }
        let start = behind_last(&cs, n, '/');
        if cs[n - 1] == '/' {
            n -= 1;
        } else {
            proof {
                last_at_is_last(q, '/');
                assert(q.skip(start as int) =~= cs@.subrange(start as int, n as int));
            }
            let ghost name = q.skip(start as int);
            if n - start == 1 && cs[start] == '.' {
                assert(name =~= seq!['.']);
                if start == 0 {
                    return None;
                }
                n -= 1;
            } else if n - start == 2 && cs[start] == '.' && cs[start + 1] == '.' {
                assert(name =~= seq!['.', '.']);
                assert(name.len() != seq!['.'].len());
                return None;
            } else {
                proof {
                    if name == seq!['.'] {
                        assert(name[0] == '.');
                    }
                    if name == seq!['.', '.'] {
                        assert(name[0] == '.' && name[1] == '.');
                    }
                }
                return Some(text_of(&cs, start, n));
            }
        }
    }
    None
}

/// Splits a file name into its stem and its extension.
pub fn split_name(name: &str) -> (r: (String, Option<String>))
    ensures
        r.0@ == stem(name@),
        text::opt_text(r.1) == extension(name@),
{
    let cs = chars_of(name);
    let dot = behind_last(&cs, cs.len(), '.');
    proof {
        assert(cs@.take(cs@.len() as int) =~= name@);
    }
    if dot > 1 {
        proof {
            assert(cs@.subrange(dot as int, cs@.len() as int) =~= name@.skip(dot as int));
            assert(cs@.subrange(0, dot - 1) =~= name@.take(dot - 1));
        }
        (text_of(&cs, 0, dot - 1), Some(text_of(&cs, dot, cs.len())))
    } else {
        (name.to_owned(), None)
    }
}

/// The session id that the path of a session file holds: its base name without
/// the extension.
pub fn file_id_from_path(p: &str) -> (r: Option<String>)
    ensures
        text::opt_text(r) == file_id(p@),
{
    match base_name(p) {
        Some(name) => Some(split_name(name.as_str()).0),
        None => None,
    }
}

/// The id of `<dir>/<id>.jsonl` is `<id>`, for every id that is a plain file
/// name.
pub proof fn file_id_is_the_base_name(dir: Seq<char>, id: Seq<char>)
    requires
        id.len() > 0,
        !id.contains('/'),
    ensures
        file_id(dir + "/"@ + id + ".jsonl"@) == Some(id),
{
    reveal_strlit("/");
    reveal_strlit(".jsonl");
    let p = dir + "/"@ + id + ".jsonl"@;
    let name = id + ".jsonl"@;
    let n = dir.len();
    last_at_is_last(p, '/');
    assert(p[n as int] == '/');
    assert forall|i: int| n < i < p.len() implies p[i] != '/' by {
        if i < n + 1 + id.len() {
            assert(p[i] == id[i - n - 1]);
            assert(id.contains(id[i - n - 1]));
        } else {
            assert(p[i] == ".jsonl"@[i - n - 1 - id.len()]);
        }
    }
    assert(last_at(p, '/') == n);
    assert(p.skip(n as int + 1) =~= name);
    assert(name.len() > 2);
    last_at_is_last(name, '.');
    assert(name[id.len() as int] == '.');
    assert forall|i: int| id.len() < i < name.len() implies name[i] != '.' by {
        assert(name[i] == ".jsonl"@[i - id.len()]);
    }
    assert(last_at(name, '.') == id.len());
    assert(name.take(id.len() as int) =~= id);
    assert(p.last() == name.last());
}

/// A name without a slash, other than `.` and `..`, is a file name as it is.
pub proof fn plain_names(n: Seq<char>)
    ensures
        n.len() > 2 && !n.contains('/') ==> file_name(n) == Some(n) && file_id(n) == Some(stem(n)),
{
    if n.len() > 2 && !n.contains('/') {
        last_at_is_last(n, '/');
        if last_at(n, '/') >= 0 {
            assert(n.contains(n[last_at(n, '/')]));
        }
        assert(n.skip(0) =~= n);
        assert(n.last() != '/') by {
            assert(n.contains(n[n.len() - 1]));
        }
        assert(n.len() != seq!['.'].len() && n.len() != seq!['.', '.'].len());
    }
}

/// A decoded name is the name, character by character: its dashes are slashes, a
/// slash stands at its start, and all else is as it was.
pub proof fn decoding_changes_dashes_only(name: Seq<char>, i: int)
    requires
        0 <= i < name.len(),
    ensures
        ({
            let shift: int = if name[0] == '-' {
                0
            } else {
                1
            };
            let d = decoded(name);
            &&& d.len() == name.len() + shift
            &&& d[0] == '/'
            &&& name[i] == '-' ==> d[i + shift] == '/'
            &&& name[i] != '-' ==> d[i + shift] == name[i]
        }),
        decoded(Seq::empty()) == seq!['/'],
{
    assert(decoded(Seq::empty()) =~= seq!['/']);
    if name[0] == '-' && i > 0 {
        assert(name.drop_first()[i - 1] == name[i]);
    }
}

/// The session files of an agent lie in the directory `projects` of its hidden
/// directory below the home directory, and the index lies in `ccfind` below the
/// cache directory.
pub proof fn directories_lie_below_home_and_cache(dir: Seq<char>, agent: Seq<char>)
    requires
        dir.len() > 0,
        agent.len() > 0,
        dir.last() != '/',
        agent.last() != '/',
    ensures
        projects_path(dir, agent) == dir + seq!['/', '.'] + agent + "/projects"@,
        cache_path(dir) == dir + "/ccfind"@,
        below(cache_path(dir), "index.db"@) == dir + "/ccfind/index.db"@,
        below(dir + seq!['/'], agent) == below(dir, agent),
{
    reveal_strlit("/");
    reveal_strlit(".");
    reveal_strlit("projects");
    reveal_strlit("/projects");
    reveal_strlit("ccfind");
    reveal_strlit("/ccfind");
    reveal_strlit("index.db");
    reveal_strlit("/ccfind/index.db");
    let hidden = below(dir, "."@ + agent);
    assert(hidden.last() == agent.last());
    assert(projects_path(dir, agent) =~= dir + seq!['/', '.'] + agent + "/projects"@);
    assert(cache_path(dir) =~= dir + "/ccfind"@);
    assert(cache_path(dir).last() == "/ccfind"@.last());
    assert(below(cache_path(dir), "index.db"@) =~= dir + "/ccfind/index.db"@);
    assert((dir + seq!['/']).last() == '/');
    assert(below(dir + seq!['/'], agent) =~= below(dir, agent));
}

/// A directory called after a program, with a dot in front, counts for that
/// program, and no other directory counts.
pub proof fn hidden_directories_name_their_programs(dirs: Seq<Seq<char>>, d: Seq<char>)
    ensures
        agents_of(Seq::empty()).len() == 0,
        d.len() > 0 ==> agents_of(dirs.push(seq!['.'] + d)) == agents_of(dirs).push(d),
        d.len() < 2 || d[0] != '.' ==> agents_of(dirs.push(d)) == agents_of(dirs),
{
    assert(dirs.push(seq!['.'] + d).drop_last() =~= dirs);
    assert(dirs.push(d).drop_last() =~= dirs);
    assert((seq!['.'] + d).drop_first() =~= d);
}

proof fn last_slash(a: Seq<char>, c: char, n: Seq<char>)
    requires
        !n.contains(c),
    ensures
        last_at(a + seq![c] + n, c) == a.len(),
        last_at(n, c) == -1,
{
    let s = a + seq![c] + n;
    last_at_is_last(s, c);
    last_at_is_last(n, c);
    let k = last_at(s, c);
    assert(s[a.len() as int] == c);
    if k > a.len() {
        assert(n[k - a.len() - 1] == c);
    }
    if last_at(n, c) >= 0 {
        assert(n[last_at(n, c)] == c);
    }
}

/// The last component of a path is its file name, whatever stands before it, and
/// a slash or a `.` component behind it does not count; a path that ends in `..`
/// has none, nor has an empty one.
pub proof fn last_components_are_file_names(dir: Seq<char>, n: Seq<char>)
    requires
        n.len() > 0,
        !n.contains('/'),
        n != seq!['.'],
        n != seq!['.', '.'],
    ensures
        file_name(n) == Some(n),
        file_name(dir + seq!['/'] + n) == Some(n),
        file_name(dir + seq!['/'] + n + seq!['/']) == Some(n),
        file_name(dir + seq!['/'] + n + seq!['/', '.']) == Some(n),
        file_name(dir + seq!['/', '.', '.']) is None,
        file_name(Seq::empty()) is None,
        file_name(seq!['.']) is None,
        file_name(seq!['.', '.']) is None,
        file_id(dir + seq!['/'] + n) == Some(stem(n)),
{
    let p = dir + seq!['/'] + n;
    last_slash(dir, '/', n);
    assert(n.skip(0) =~= n);
    if n.last() == '/' {
        assert(n[n.len() - 1] == '/');
    }
    assert(p.skip(dir.len() as int + 1) =~= n);
    assert(p.last() == n.last());
    let q = p + seq!['/'];
    assert(q.drop_last() =~= p);
    let one = seq!['.'];
    let two = seq!['.', '.'];
    assert(!one.contains('/') && !two.contains('/'));
    last_slash(p, '/', one);
    let r = p + seq!['/', '.'];
    assert(r =~= p + seq!['/'] + one);
    assert(r.skip(p.len() as int + 1) =~= one);
    assert(r.drop_last() =~= q);
    last_slash(dir, '/', two);
    let u = dir + seq!['/', '.', '.'];
    assert(u =~= dir + seq!['/'] + two);
    assert(u.skip(dir.len() as int + 1) =~= two);
    assert(one.skip(0) =~= one);
    assert(two.skip(0) =~= two);
    assert(two.len() == 2 && one.len() == 1);
}

/// The last dot parts a file name into its stem and its extension; a name without
/// a dot, or with none but at its start, is all stem.
pub proof fn the_last_dot_parts_a_name(a: Seq<char>, e: Seq<char>)
    requires
        !e.contains('.'),
    ensures
        a.len() > 0 ==> stem(a + seq!['.'] + e) == a && extension(a + seq!['.'] + e) == Some(e),
        stem(seq!['.'] + e) == seq!['.'] + e,
        extension(seq!['.'] + e) is None,
        stem(e) == e,
        extension(e) is None,
{
    let s = a + seq!['.'] + e;
    last_slash(a, '.', e);
    assert(s.take(a.len() as int) =~= a);
    assert(s.skip(a.len() as int + 1) =~= e);
    last_slash(Seq::empty(), '.', e);
    assert(Seq::<char>::empty() + seq!['.'] + e =~= seq!['.'] + e);
}

/// What lies below a directory has its path behind a slash, and below no
/// directory it is its own path.
pub proof fn paths_below_a_directory(base: Seq<char>, rel: Seq<char>)
    ensures
        base.len() > 0 && base.last() != '/' ==> below(base, rel) == base + seq!['/'] + rel,
        below(base + seq!['/'], rel) == base + seq!['/'] + rel,
        below(Seq::empty(), rel) == rel,
{
    reveal_strlit("/");
    assert("/"@ =~= seq!['/']);
    assert((base + seq!['/']).last() == '/');
    assert(Seq::<char>::empty() + rel =~= rel);
}

} // verus!
