//! The events of a session file, and what the index makes of each.

use crate::clock;
use crate::clock::read_rfc3339;
use crate::text;
use crate::text::{concat, same, truncate};
use crate::words;
use crate::words::{is_blank, join};
use vstd::prelude::*;

verus! {

/// The most bytes of an event's text that are indexed.
pub const MAX_BODY_BYTES: usize = 65536;

/// The most bytes of a tool call's raw arguments that are indexed.
pub const MAX_INPUT_BYTES: usize = 512;

/// The most bytes of a file edit's new text that are indexed.
pub const MAX_EDIT_BYTES: usize = 1024;

// ---------------------------------------------------------------------- JSON

/// One member of a JSON object: its name, and its value where that is a string.
pub struct JsonMember {
    pub name: String,
    pub text: Option<String>,
}

/// What the index reads of a JSON value: its members (none unless it is an
/// object), and its compact text.
pub struct JsonValue {
    pub members: Vec<JsonMember>,
    pub compact: String,
}

/// A member's name, and its value where that is a string.
pub type MemberView = (Seq<char>, Option<Seq<char>>);

/// The contents of a list of members.
pub open spec fn member_views(v: Seq<JsonMember>) -> Seq<MemberView> {
    v.map_values(|m: JsonMember| (m.name@, text::opt_text(m.text)))
}

/// Whether no two members have one name.
pub open spec fn distinct_names(m: Seq<MemberView>) -> bool {
    forall|i: int, j: int| 0 <= i < j < m.len() ==> (#[trigger] m[i]).0 != (#[trigger] m[j]).0
}

/// The members of the value that a JSON text denotes, in the order in which
/// `serde_json` walks them; none if it is no object. `None` if `serde_json`
/// refuses the text.
pub uninterp spec fn json_members(json: Seq<char>) -> Option<Seq<(Seq<char>, Option<Seq<char>>)>>;

/// The compact text that `serde_json` writes for the value that a JSON text
/// denotes. `None` if it refuses the text.
pub uninterp spec fn json_compact(json: Seq<char>) -> Option<Seq<char>>;

/// Calls `serde_json::from_str` and takes the value apart: an object gives its
/// members, anything else gives none. The members depend on the text alone, and
/// their names differ.
#[verifier::external_body]
fn read_members(json: &str) -> (r: Option<Vec<JsonMember>>)
    ensures
        r is Some <==> json_members(json@) is Some,
        r matches Some(v) ==> json_members(json@) == Some(member_views(v@)) && distinct_names(
            member_views(v@),
        ),
{
    match serde_json::from_str::<serde_json::Value>(json).ok()? {
        serde_json::Value::Object(map) => Some(
            map.into_iter()
                .map(|(name, v)| JsonMember { name, text: v.as_str().map(String::from) })
                .collect(),
        ),
        _ => Some(Vec::new()),
    }
}

/// Calls `serde_json::to_string` on the value that `serde_json::from_str` reads
/// from the text. The result depends on the text alone, and there is one
/// whenever the text is read: every value can be written.
#[verifier::external_body]
fn write_compact(json: &str) -> (r: Option<String>)
    ensures
        text::opt_text(r) == json_compact(json@),
        r is Some <==> json_members(json@) is Some,
{
    let value: serde_json::Value = serde_json::from_str(json).ok()?;
    serde_json::to_string(&value).ok()
}

/// The string value of the first member called `name`: `None` without such a
/// member, `Some(None)` if its value is no string.
pub open spec fn member_of(m: Seq<MemberView>, name: Seq<char>) -> Option<Option<Seq<char>>>
    decreases m.len(),
{
    if m.len() == 0 {
        None
    } else if m[0].0 == name {
        Some(m[0].1)
    } else {
        member_of(m.drop_first(), name)
    }
}

/// The value of the first member called `name`, if it is a string.
pub open spec fn string_of(m: Seq<MemberView>, name: Seq<char>) -> Option<Seq<char>> {
    match member_of(m, name) {
        Some(v) => v,
        None => None,
    }
}

impl JsonValue {
    /// The members as plain values.
    pub open spec fn entries(&self) -> Seq<MemberView> {
        member_views(self.members@)
    }

    /// Whether no two members have one name.
    pub open spec fn wf(&self) -> bool {
        distinct_names(self.entries())
    }

    /// Reads a JSON text.
    pub fn parse(json: &str) -> (r: Option<JsonValue>)
        ensures
            r is Some <==> json_members(json@) is Some,
            r matches Some(v) ==> v.wf() && json_members(json@) == Some(v.entries()) && json_compact(json@)
                == Some(v.compact@),
    {
        let members = match read_members(json) {
            Some(m) => m,
            None => {
                return None;
            },
        };
        match write_compact(json) {
            Some(compact) => Some(JsonValue { members, compact }),
            None => None,
        }
    }

    /// Looks a member up: `None` without one, `Some(None)` if it is no string.
    pub fn member(&self, name: &str) -> (r: Option<Option<String>>)
        ensures
            (match r {
                Some(o) => Some(text::opt_text(o)),
                None => None,
            }) == member_of(self.entries(), name@),
    {
        let mut i: usize = 0;
        proof {
            assert(self.entries().skip(0) =~= self.entries());
        }
        while i < self.members.len()
            invariant
                i <= self.members@.len(),
                member_of(self.entries(), name@) == member_of(self.entries().skip(i as int), name@),
            decreases self.members@.len() - i,
        {
            proof {
                assert(self.entries().skip(i as int)[0] == self.entries()[i as int]);
                assert(self.entries().skip(i as int).drop_first() =~= self.entries().skip(i + 1));
            }
            if same(self.members[i].name.as_str(), name) {
                return Some(self.members[i].text.clone());
            }
            i += 1;
        }
        None
    }

    /// Looks a string member up.
    pub fn string(&self, name: &str) -> (r: Option<String>)
        ensures
            text::opt_text(r) == string_of(self.entries(), name@),
    {
        match self.member(name) {
            Some(o) => o,
            None => None,
        }
    }
}

// -------------------------------------------------------------------- events

/// One event of a session file.
pub struct Event {
    pub event_type: Option<String>,
    pub uuid: Option<String>,
    pub session_id: Option<String>,
    pub timestamp: Option<String>,
    pub cwd: Option<String>,
    pub git_branch: Option<String>,
    pub slug: Option<String>,
    pub message: Option<Message>,
    pub is_meta: bool,
    pub is_sidechain: bool,
    pub summary: Option<String>,
    pub title: Option<String>,
    pub text: Option<String>,
    pub prompt: Option<String>,
}

/// The message of a user or assistant event.
pub struct Message {
    pub role: Option<String>,
    pub content: Option<Content>,
}

/// A message's content: plain text, or a list of blocks.
pub enum Content {
    Text(String),
    Blocks(Vec<Block>),
}

/// One block of a message.
pub struct Block {
    pub block_type: Option<String>,
    pub text: Option<String>,
    pub thinking: Option<String>,
    pub name: Option<String>,
    pub input: Option<JsonValue>,
    pub tool_use_id: Option<String>,
}

/// Who an indexed text comes from.
#[derive(Debug, Clone, Copy, PartialEq, Eq, Structural)]
pub enum Scope {
    User,
    Assistant,
    Tool,
}

/// What the index does with an event.
#[derive(Debug, Clone)]
pub enum Action {
    /// Insert one row.
    Index { scope: Scope, body: String },
    /// Insert several rows: the assistant's text first, then its tool calls.
    IndexMany(Vec<(Scope, String)>),
    /// Set the session's title.
    SetTitle(String),
    /// Set the session's last prompt.
    SetLastPrompt(String),
    /// Nothing.
    Skip,
}

/// A row of the index: its scope and its text.
pub type RowView = (Scope, Seq<char>);

/// An action as plain values.
pub enum ActionView {
    Index { scope: Scope, body: Seq<char> },
    IndexMany(Seq<RowView>),
    SetTitle(Seq<char>),
    SetLastPrompt(Seq<char>),
    Skip,
}

/// The contents of a list of rows.
pub open spec fn row_views(v: Seq<(Scope, String)>) -> Seq<RowView> {
    v.map_values(|p: (Scope, String)| (p.0, p.1@))
}

impl View for Action {
    type V = ActionView;

    open spec fn view(&self) -> ActionView {
        match self {
            Action::Index { scope, body } => ActionView::Index { scope: *scope, body: body@ },
            Action::IndexMany(rows) => ActionView::IndexMany(row_views(rows@)),
            Action::SetTitle(s) => ActionView::SetTitle(s@),
            Action::SetLastPrompt(s) => ActionView::SetLastPrompt(s@),
            Action::Skip => ActionView::Skip,
        }
    }
}

impl Scope {
    /// The name under which the scope is stored.
    pub open spec fn name(self) -> Seq<char> {
        match self {
            Scope::User => "user"@,
            Scope::Assistant => "assistant"@,
            Scope::Tool => "tool"@,
        }
    }

    /// The name under which the scope is stored.
    pub fn as_str(&self) -> (r: &'static str)
        ensures
            r@ == self.name(),
    {
        match self {
            Scope::User => "user",
            Scope::Assistant => "assistant",
            Scope::Tool => "tool",
        }
    }
}

// ---------------------------------------------------------------- tool calls

/// The name that a tool call goes by.
pub open spec fn tool_name(b: Block) -> Seq<char> {
    match b.name {
        Some(n) => n@,
        None => "Tool"@,
    }
}

/// The argument that tells most about a call of a well-known tool.
pub open spec fn tool_key(name: Seq<char>, input: Seq<MemberView>) -> Option<Seq<char>> {
    if name == "Bash"@ {
        string_of(input, "command"@)
    } else if name == "Read"@ || name == "Write"@ || name == "Edit"@ || name == "MultiEdit"@ || name
        == "NotebookEdit"@ {
        string_of(input, "file_path"@)
    } else if name == "Glob"@ || name == "Grep"@ {
        string_of(input, "pattern"@)
    } else if name == "Task"@ || name == "Agent"@ {
        let desc = string_of(input, "description"@).unwrap_or(Seq::empty());
        let sub = string_of(input, "subagent_type"@).unwrap_or(Seq::empty());
        Some(desc + " ("@ + sub + ")"@)
    } else if name == "WebFetch"@ || name == "WebSearch"@ {
        match string_of(input, "url"@) {
            Some(u) => Some(u),
            None => string_of(input, "query"@),
        }
    } else {
        None
    }
}

/// What a file edit adds to its row: the start of the new text.
pub open spec fn tool_extra(name: Seq<char>, input: Seq<MemberView>) -> Seq<char> {
    if name == "Edit"@ || name == "Write"@ {
        let new = match member_of(input, "new_string"@) {
            Some(v) => v,
            None => string_of(input, "content"@),
        };
        match new {
            Some(s) => " "@ + text::truncated(s, MAX_EDIT_BYTES as nat),
            None => Seq::empty(),
        }
    } else {
        Seq::empty()
    }
}

/// The row of a tool call.
pub open spec fn tool_text(b: Block) -> Seq<char> {
    let name = tool_name(b);
    match b.input {
        None => name + ":"@,
        Some(input) => {
            let key = match tool_key(name, input.entries()) {
                Some(k) => k,
                None => text::truncated(input.compact@, MAX_INPUT_BYTES as nat),
            };
            name + ": "@ + key + tool_extra(name, input.entries())
        },
    }
}

fn best_argument(name: &str, input: &JsonValue) -> (r: Option<String>)
    ensures
        text::opt_text(r) == tool_key(name@, input.entries()),
{
    if same(name, "Bash") {
        input.string("command")
    } else if same(name, "Read") || same(name, "Write") || same(name, "Edit") || same(
        name,
        "MultiEdit",
    ) || same(name, "NotebookEdit") {
        input.string("file_path")
    } else if same(name, "Glob") || same(name, "Grep") {
        input.string("pattern")
    } else if same(name, "Task") || same(name, "Agent") {
        let mut out = match input.string("description") {
            Some(s) => s,
            None => String::new(),
        };
        out.append(" (");
        match input.string("subagent_type") {
            Some(s) => out.append(s.as_str()),
            None => {},
        }
        out.append(")");
        proof {
            let desc = string_of(input.entries(), "description"@).unwrap_or(Seq::empty());
            let sub = string_of(input.entries(), "subagent_type"@).unwrap_or(Seq::empty());
            assert(out@ =~= desc + " ("@ + sub + ")"@);
        }
        Some(out)
    } else if same(name, "WebFetch") || same(name, "WebSearch") {
        match input.string("url") {
            Some(u) => Some(u),
            None => input.string("query"),
        }
    } else {
        None
    }
}

fn edit_excerpt(name: &str, input: &JsonValue) -> (r: String)
    ensures
        r@ == tool_extra(name@, input.entries()),
{
    if same(name, "Edit") || same(name, "Write") {
        let new = match input.member("new_string") {
            Some(v) => v,
            None => input.string("content"),
        };
        match new {
            Some(s) => concat(" ", truncate(s.as_str(), MAX_EDIT_BYTES).as_str()),
            None => String::new(),
        }
    } else {
        String::new()
    }
}

/// The row of a tool call: its name, its most telling argument, and for a file
/// edit the start of the new text.
pub fn format_tool_use(b: &Block) -> (r: String)
    ensures
        r@ == tool_text(*b),
{
    let name: &str = match &b.name {
        Some(n) => n.as_str(),
        None => "Tool",
    };
    match &b.input {
        None => concat(name, ":"),
        Some(input) => {
            let key = match best_argument(name, input) {
                Some(k) => k,
                None => truncate(input.compact.as_str(), MAX_INPUT_BYTES),
            };
            let extra = edit_excerpt(name, input);
            let mut out = concat(name, ": ");
            out.append(key.as_str());
            out.append(extra.as_str());
            out
        },
    }
}

// ------------------------------------------------------------ classification

/// Whether a block is of the given kind.
pub open spec fn is_kind(b: Block, kind: Seq<char>) -> bool {
    text::opt_text(b.block_type) == Some(kind)
}

/// The texts of the text blocks, in order.
pub open spec fn block_texts(blocks: Seq<Block>) -> Seq<Seq<char>>
    decreases blocks.len(),
{
    if blocks.len() == 0 {
        Seq::empty()
    } else {
        let before = block_texts(blocks.drop_last());
        let b = blocks.last();
        if is_kind(b, "text"@) && b.text is Some {
            before.push(b.text->0@)
        } else {
            before
        }
    }
}

/// The texts of the text blocks that are not blank, in order.
pub open spec fn solid_texts(blocks: Seq<Block>) -> Seq<Seq<char>>
    decreases blocks.len(),
{
    if blocks.len() == 0 {
        Seq::empty()
    } else {
        let before = solid_texts(blocks.drop_last());
        let b = blocks.last();
        if is_kind(b, "text"@) && b.text is Some && !words::blank(b.text->0@) {
            before.push(b.text->0@)
        } else {
            before
        }
    }
}

/// The rows of the tool calls, in order.
pub open spec fn tool_rows(blocks: Seq<Block>) -> Seq<RowView>
    decreases blocks.len(),
{
    if blocks.len() == 0 {
        Seq::empty()
    } else {
        let before = tool_rows(blocks.drop_last());
        let b = blocks.last();
        if is_kind(b, "tool_use"@) {
            before.push((Scope::Tool, text::truncated(tool_text(b), MAX_BODY_BYTES as nat)))
        } else {
            before
        }
    }
}

/// The rows of an assistant's message: its text, then its tool calls.
pub open spec fn assistant_rows(blocks: Seq<Block>) -> Seq<RowView> {
    let parts = solid_texts(blocks);
    if parts.len() == 0 {
        tool_rows(blocks)
    } else {
        seq![
            (
                Scope::Assistant,
                text::truncated(words::joined(parts, "\n"@), MAX_BODY_BYTES as nat),
            ),
        ] + tool_rows(blocks)
    }
}

/// One row of `s`, unless it is blank.
pub open spec fn index_text(scope: Scope, s: Seq<char>) -> ActionView {
    if words::blank(s) {
        ActionView::Skip
    } else {
        ActionView::Index { scope, body: text::truncated(s, MAX_BODY_BYTES as nat) }
    }
}

/// Whether a message echoes the output of a tool.
pub open spec fn echoes_tool(blocks: Seq<Block>) -> bool {
    exists|i: int| 0 <= i < blocks.len() && is_kind(#[trigger] blocks[i], "tool_result"@)
}

/// `Some` of the first that is there.
pub open spec fn first_text(a: Option<String>, b: Option<String>) -> Option<Seq<char>> {
    match a {
        Some(s) => Some(s@),
        None => text::opt_text(b),
    }
}

impl Event {
    /// The content of the event's message.
    pub open spec fn content(self) -> Option<Content> {
        match self.message {
            Some(m) => m.content,
            None => None,
        }
    }

    /// What the index does with an event of type `user`.
    pub open spec fn user_action(self) -> ActionView {
        if self.is_meta {
            ActionView::Skip
        } else {
            match self.content() {
                None => ActionView::Skip,
                Some(Content::Text(s)) => index_text(Scope::User, s@),
                Some(Content::Blocks(blocks)) => if echoes_tool(blocks@) {
                    ActionView::Skip
                } else {
                    index_text(Scope::User, words::joined(block_texts(blocks@), "\n"@))
                },
            }
        }
    }

    /// What the index does with an event of type `assistant`.
    pub open spec fn assistant_action(self) -> ActionView {
        match self.content() {
            None => ActionView::Skip,
            Some(Content::Text(s)) => index_text(Scope::Assistant, s@),
            Some(Content::Blocks(blocks)) => {
                let rows = assistant_rows(blocks@);
                if rows.len() == 0 {
                    ActionView::Skip
                } else if rows.len() == 1 {
                    ActionView::Index { scope: rows[0].0, body: rows[0].1 }
                } else {
                    ActionView::IndexMany(rows)
                }
            },
        }
    }

    /// What the index does with the event.
    pub open spec fn action(self) -> ActionView {
        let t = match self.event_type {
            Some(s) => s@,
            None => Seq::empty(),
        };
        if t == "user"@ {
            self.user_action()
        } else if t == "assistant"@ {
            self.assistant_action()
        } else if t == "summary"@ {
            set_title(text::opt_text(self.summary))
        } else if t == "custom-title"@ || t == "ai-title"@ {
            set_title(
                match self.title {
                    Some(s) => Some(s@),
                    None => first_text(self.text, self.summary),
                },
            )
        } else if t == "last-prompt"@ {
            match first_text(self.prompt, self.text) {
                Some(s) => ActionView::SetLastPrompt(s),
                None => ActionView::Skip,
            }
        } else if t == "system"@ {
            match first_text(self.text, self.summary) {
                Some(s) => index_text(Scope::Assistant, s),
                None => ActionView::Skip,
            }
        } else {
            ActionView::Skip
        }
    }

    /// Decides what the index does with the event.
    pub fn classify(&self) -> (r: Action)
        ensures
            r@ == self.action(),
    {
        let t: &str = match &self.event_type {
            Some(s) => s.as_str(),
            None => "",
        };
        proof {
            reveal_strlit("");
            assert(""@ =~= Seq::<char>::empty());
        }
        if same(t, "user") {
            self.classify_user()
        } else if same(t, "assistant") {
            self.classify_assistant()
        } else if same(t, "summary") {
            title_action(&self.summary)
        } else if same(t, "custom-title") || same(t, "ai-title") {
            if self.title.is_some() {
                title_action(&self.title)
            } else if self.text.is_some() {
                title_action(&self.text)
            } else {
                title_action(&self.summary)
            }
        } else if same(t, "last-prompt") {
            match &self.prompt {
                Some(s) => Action::SetLastPrompt(s.clone()),
                None => match &self.text {
                    Some(s) => Action::SetLastPrompt(s.clone()),
                    None => Action::Skip,
                },
            }
        } else if same(t, "system") {
            match &self.text {
                Some(s) => text_action(Scope::Assistant, s.as_str()),
                None => match &self.summary {
                    Some(s) => text_action(Scope::Assistant, s.as_str()),
                    None => Action::Skip,
                },
            }
        } else {
            Action::Skip
        }
    }

    fn classify_user(&self) -> (r: Action)
        ensures
            r@ == self.user_action(),
    {
        if self.is_meta {
            return Action::Skip;
        }
        match &self.message {
            None => Action::Skip,
            Some(m) => match &m.content {
                None => Action::Skip,
                Some(Content::Text(s)) => text_action(Scope::User, s.as_str()),
                Some(Content::Blocks(blocks)) => {
                    if has_tool_result(blocks) {
                        return Action::Skip;
                    }
                    let parts = text_parts(blocks);
                    let all = join(&parts, "\n");
                    text_action(Scope::User, all.as_str())
                },
            },
        }
    }

    fn classify_assistant(&self) -> (r: Action)
        ensures
            r@ == self.assistant_action(),
    {
        match &self.message {
            None => Action::Skip,
            Some(m) => match &m.content {
                None => Action::Skip,
                Some(Content::Text(s)) => text_action(Scope::Assistant, s.as_str()),
                Some(Content::Blocks(blocks)) => {
                    let mut rows = rows_of_assistant(blocks);
                    let n = rows.len();
                    if n == 0 {
                        Action::Skip
                    } else if n == 1 {
                        let (scope, body) = rows.remove(0);
                        proof {
                            assert(assistant_rows(blocks@)[0] == (scope, body@));
                        }
                        Action::Index { scope, body }
                    } else {
                        Action::IndexMany(rows)
                    }
                },
            },
        }
    }
}

/// Sets the title, if there is one.
pub open spec fn set_title(title: Option<Seq<char>>) -> ActionView {
    match title {
        Some(s) => ActionView::SetTitle(s),
        None => ActionView::Skip,
    }
}

fn title_action(title: &Option<String>) -> (r: Action)
    ensures
        r@ == set_title(text::opt_text(*title)),
{
    match title {
        Some(s) => Action::SetTitle(s.clone()),
        None => Action::Skip,
    }
}

fn text_action(scope: Scope, s: &str) -> (r: Action)
    ensures
        r@ == index_text(scope, s@),
{
    if is_blank(s) {
        Action::Skip
    } else {
        Action::Index { scope, body: truncate(s, MAX_BODY_BYTES) }
    }
}

fn block_is(b: &Block, kind: &str) -> (r: bool)
    ensures
        r == is_kind(*b, kind@),
{
    match &b.block_type {
        Some(t) => same(t.as_str(), kind),
        None => false,
    }
}

fn has_tool_result(blocks: &Vec<Block>) -> (r: bool)
    ensures
        r == echoes_tool(blocks@),
{
    let mut i: usize = 0;
    while i < blocks.len()
        invariant
            i <= blocks@.len(),
            forall|j: int| 0 <= j < i ==> !is_kind(#[trigger] blocks@[j], "tool_result"@),
        decreases blocks@.len() - i,
    {
        if block_is(&blocks[i], "tool_result") {
            assert(is_kind(blocks@[i as int], "tool_result"@));
            return true;
        }
        i += 1;
    }
    false
}

fn text_parts(blocks: &Vec<Block>) -> (r: Vec<String>)
    ensures
        text::texts(r@) == block_texts(blocks@),
{
    let mut out: Vec<String> = Vec::new();
    let mut i: usize = 0;
    proof {
        assert(text::texts(out@) =~= block_texts(blocks@.take(0)));
    }
    while i < blocks.len()
        invariant
            i <= blocks@.len(),
            text::texts(out@) == block_texts(blocks@.take(i as int)),
        decreases blocks@.len() - i,
    {
        let ghost before = text::texts(out@);
        proof {
            assert(blocks@.take(i + 1).drop_last() =~= blocks@.take(i as int));
        }
        if block_is(&blocks[i], "text") {
            if let Some(t) = &blocks[i].text {
                out.push(t.clone());
                proof {
                    assert(text::texts(out@) =~= before.push(t@));
                }
            }
        }
        i += 1;
    }
    proof {
        assert(blocks@.take(i as int) =~= blocks@);
    }
    out
}

fn rows_of_assistant(blocks: &Vec<Block>) -> (r: Vec<(Scope, String)>)
    ensures
        row_views(r@) == assistant_rows(blocks@),
{
    let mut rows: Vec<(Scope, String)> = Vec::new();
    let mut parts: Vec<String> = Vec::new();
    let mut i: usize = 0;
    proof {
        assert(text::texts(parts@) =~= solid_texts(blocks@.take(0)));
        assert(row_views(rows@) =~= tool_rows(blocks@.take(0)));
    }
    while i < blocks.len()
        invariant
            i <= blocks@.len(),
            text::texts(parts@) == solid_texts(blocks@.take(i as int)),
            row_views(rows@) == tool_rows(blocks@.take(i as int)),
        decreases blocks@.len() - i,
    {
        let ghost parts_before = text::texts(parts@);
        let ghost rows_before = row_views(rows@);
        proof {
            assert(blocks@.take(i + 1).drop_last() =~= blocks@.take(i as int));
        }
        let b = &blocks[i];
        if block_is(b, "text") {
            proof {
                reveal_strlit("text");
                reveal_strlit("tool_use");
                assert("text"@.len() != "tool_use"@.len());
            }
            if let Some(t) = &b.text {
                if !is_blank(t.as_str()) {
                    parts.push(t.clone());
                    proof {
                        assert(text::texts(parts@) =~= parts_before.push(t@));
                    }
                }
            }
        } else if block_is(b, "tool_use") {
            let body = format_tool_use(b);
            let row = truncate(body.as_str(), MAX_BODY_BYTES);
            rows.push((Scope::Tool, row));
            proof {
                assert(row_views(rows@) =~= rows_before.push((Scope::Tool, row@)));
            }
        }
        i += 1;
    }
    proof {
        assert(blocks@.take(i as int) =~= blocks@);
    }
    if parts.len() > 0 {
        let all = join(&parts, "\n");
        let body = truncate(all.as_str(), MAX_BODY_BYTES);
        let ghost rows_before = row_views(rows@);
        rows.insert(0, (Scope::Assistant, body));
        proof {
            assert(row_views(rows@) =~= seq![(Scope::Assistant, body@)] + rows_before);
        }
    }
    rows
}

// ---------------------------------------------------------------- time stamps

/// The Unix time that was read, or 0 where none was.
pub fn seconds_or_zero(read: Option<i64>) -> (r: i64)
    ensures
        r == read.unwrap_or(0),
{
    match read {
        Some(t) => t,
        None => 0,
    }
}

/// The Unix time of an RFC 3339 time stamp, or 0 if it is none.
pub fn parse_ts(s: &str) -> (r: i64)
    ensures
        r == clock::stamp_seconds(s@).unwrap_or(0),
{
    seconds_or_zero(read_rfc3339(s))
}

impl Event {
    /// The event's Unix time, or 0 without a readable time stamp.
    pub open spec fn time(self) -> i64 {
        match self.timestamp {
            Some(s) => clock::stamp_seconds(s@).unwrap_or(0),
            None => 0,
        }
    }

    /// The event's Unix time, or 0 without a readable time stamp.
    pub fn seconds(&self) -> (r: i64)
        ensures
            r == self.time(),
    {
        match &self.timestamp {
            Some(s) => parse_ts(s.as_str()),
            None => 0,
        }
    }
}

// ---------------------------------------------------------------------- laws

/// The rows that an action inserts.
pub open spec fn rows_of(a: ActionView) -> Seq<RowView> {
    match a {
        ActionView::Index { scope, body } => seq![(scope, body)],
        ActionView::IndexMany(rows) => rows,
        _ => Seq::empty(),
    }
}

/// A user event that expands a slash command is skipped.
pub proof fn meta_events_are_skipped(ev: Event)
    requires
        text::opt_text(ev.event_type) == Some("user"@),
        ev.is_meta,
    ensures
        ev.action() == ActionView::Skip,
{
}

/// A user event that echoes the output of a tool is skipped.
pub proof fn tool_echoes_are_skipped(ev: Event, blocks: Vec<Block>)
    requires
        text::opt_text(ev.event_type) == Some("user"@),
        ev.content() == Some(Content::Blocks(blocks)),
        echoes_tool(blocks@),
    ensures
        ev.action() == ActionView::Skip,
{
}

/// A block of an assistant's message that is neither text nor a tool call, such
/// as its thinking, leaves the rows as they are.
pub proof fn other_blocks_are_not_indexed(blocks: Seq<Block>, i: int)
    requires
        0 <= i < blocks.len(),
        !is_kind(blocks[i], "text"@),
        !is_kind(blocks[i], "tool_use"@),
    ensures
        assistant_rows(blocks) == assistant_rows(blocks.remove(i)),
{
    dropped_block(blocks, i);
}

proof fn dropped_block(blocks: Seq<Block>, i: int)
    requires
        0 <= i < blocks.len(),
        !is_kind(blocks[i], "text"@),
        !is_kind(blocks[i], "tool_use"@),
    ensures
        solid_texts(blocks) == solid_texts(blocks.remove(i)),
        tool_rows(blocks) == tool_rows(blocks.remove(i)),
    decreases blocks.len(),
{
    if i == blocks.len() - 1 {
        assert(blocks.remove(i) =~= blocks.drop_last());
    } else {
        dropped_block(blocks.drop_last(), i);
        assert(blocks.remove(i).drop_last() =~= blocks.drop_last().remove(i));
        assert(blocks.remove(i).last() == blocks.last());
    }
}

proof fn tool_rows_are_tool_rows(blocks: Seq<Block>)
    ensures
        forall|i: int|
            0 <= i < tool_rows(blocks).len() ==> (#[trigger] tool_rows(blocks)[i]).0 == Scope::Tool
                && text::byte_len(tool_rows(blocks)[i].1) <= MAX_BODY_BYTES + 3,
    decreases blocks.len(),
{
    if blocks.len() > 0 {
        tool_rows_are_tool_rows(blocks.drop_last());
        text::truncated_is_bounded(tool_text(blocks.last()), MAX_BODY_BYTES as nat);
    }
}

/// No row takes more than the bound on bodies and an ellipsis.
pub proof fn rows_are_bounded(ev: Event)
    ensures
        forall|i: int|
            0 <= i < rows_of(ev.action()).len() ==> text::byte_len(
                (#[trigger] rows_of(ev.action())[i]).1,
            ) <= MAX_BODY_BYTES + 3,
{
    let max = MAX_BODY_BYTES as nat;
    match ev.content() {
        Some(Content::Text(s)) => {
            text::truncated_is_bounded(s@, max);
        },
        Some(Content::Blocks(blocks)) => {
            text::truncated_is_bounded(words::joined(block_texts(blocks@), "\n"@), max);
            text::truncated_is_bounded(words::joined(solid_texts(blocks@), "\n"@), max);
            tool_rows_are_tool_rows(blocks@);
        },
        None => {},
    }
    match first_text(ev.text, ev.summary) {
        Some(s) => {
            text::truncated_is_bounded(s, max);
        },
        None => {},
    }
}

/// A user event gives rows of the user's scope only; an assistant event gives
/// at most one row of the assistant's text, in front of its tool calls.
pub proof fn scopes_follow_the_speaker(ev: Event)
    ensures
        text::opt_text(ev.event_type) == Some("user"@) ==> forall|i: int|
            0 <= i < rows_of(ev.action()).len() ==> (#[trigger] rows_of(ev.action())[i]).0
                == Scope::User,
        text::opt_text(ev.event_type) == Some("assistant"@) ==> forall|i: int|
            0 <= i < rows_of(ev.action()).len() ==> (#[trigger] rows_of(ev.action())[i]).0
                == Scope::Tool || (i == 0 && rows_of(ev.action())[i].0 == Scope::Assistant),
{
    reveal_strlit("user");
    reveal_strlit("assistant");
    assert("user"@.len() != "assistant"@.len());
    match ev.content() {
        Some(Content::Blocks(blocks)) => {
            tool_rows_are_tool_rows(blocks@);
        },
        _ => {},
    }
}

/// Whether the event is of the given type and its message has the given content.
pub open spec fn carries(ev: Event, kind: Seq<char>, content: Content) -> bool {
    &&& ev.event_type matches Some(t) && t@ == kind
    &&& ev.message matches Some(m) && m.content == Some(content)
}

/// A text that a user or an assistant wrote gives one row of its speaker. The
/// row's body is the whole text where it fits, and else the longest prefix that
/// does; a blank text gives no row.
pub proof fn written_texts_are_indexed_whole(ev: Event, s: String, by_user: bool)
    requires
        if by_user {
            carries(ev, "user"@, Content::Text(s)) && !ev.is_meta
        } else {
            carries(ev, "assistant"@, Content::Text(s))
        },
    ensures
        (exists|i: int| 0 <= i < s@.len() && !text::is_space(#[trigger] s@[i])) ==> {
            let speaker = if by_user {
                Scope::User
            } else {
                Scope::Assistant
            };
            let size = vstd::utf8::encode_utf8(s@).len();
            &&& ev.action() matches ActionView::Index { scope, body }
            &&& scope == speaker
            &&& size <= 65536 ==> body == s@
            &&& size > 65536 ==> text::is_cut_to_fit(s@, body, 65536)
        },
        (forall|i: int| 0 <= i < s@.len() ==> text::is_space(#[trigger] s@[i])) ==> ev.action()
            == ActionView::Skip,
{
    reveal_strlit("user");
    reveal_strlit("assistant");
    assert("user"@.len() != "assistant"@.len());
    text::truncating_keeps_what_fits(s@, 65536);
}

/// What a system event says is indexed as the assistant's: its text, or without
/// one its summary.
pub proof fn system_texts_are_indexed_whole(ev: Event, s: String)
    requires
        ev.event_type matches Some(t) && t@ == "system"@,
        ev.text == Some(s) || ev.text is None && ev.summary == Some(s),
    ensures
        (exists|i: int| 0 <= i < s@.len() && !text::is_space(#[trigger] s@[i])) ==> {
            let size = vstd::utf8::encode_utf8(s@).len();
            &&& ev.action() matches ActionView::Index { scope, body }
            &&& scope == Scope::Assistant
            &&& size <= 65536 ==> body == s@
            &&& size > 65536 ==> text::is_cut_to_fit(s@, body, 65536)
        },
        (forall|i: int| 0 <= i < s@.len() ==> text::is_space(#[trigger] s@[i])) ==> ev.action()
            == ActionView::Skip,
{
    kinds_differ();
    text::truncating_keeps_what_fits(s@, 65536);
}

proof fn kinds_differ()
    ensures
        "system"@ != "user"@,
        "system"@ != "assistant"@,
        "system"@ != "summary"@,
        "system"@ != "custom-title"@,
        "system"@ != "ai-title"@,
        "system"@ != "last-prompt"@,
        "summary"@ != "user"@,
        "summary"@ != "assistant"@,
        "custom-title"@ != "user"@,
        "custom-title"@ != "assistant"@,
        "custom-title"@ != "summary"@,
        "ai-title"@ != "user"@,
        "ai-title"@ != "assistant"@,
        "ai-title"@ != "summary"@,
        "last-prompt"@ != "user"@,
        "last-prompt"@ != "assistant"@,
        "last-prompt"@ != "summary"@,
        "last-prompt"@ != "custom-title"@,
        "last-prompt"@ != "ai-title"@,
        "assistant"@ != "user"@,
{
    reveal_strlit("user");
    reveal_strlit("assistant");
    reveal_strlit("summary");
    reveal_strlit("custom-title");
    reveal_strlit("ai-title");
    reveal_strlit("last-prompt");
    reveal_strlit("system");
    assert("system"@[1] == 'y');
    assert("summary"@[1] == 'u');
    assert("assistant"@[0] == 'a' && "last-prompt"@[0] == 'l' && "custom-title"@[0] == 'c');
    assert("user"@.len() == 4 && "assistant"@.len() == 9 && "summary"@.len() == 7
        && "custom-title"@.len() == 12 && "ai-title"@.len() == 8 && "last-prompt"@.len() == 11
        && "system"@.len() == 6);
}

/// An event that names the session sets its title: a summary by itself, a title
/// by its title, or without one by its text, or without that by its summary.
pub proof fn titles_are_set(ev: Event, title: String)
    requires
        ev.event_type matches Some(t) && (t@ == "summary"@ && ev.summary == Some(title) || (t@
            == "custom-title"@ || t@ == "ai-title"@) && (ev.title == Some(title) || ev.title is None
            && ev.text == Some(title) || ev.title is None && ev.text is None && ev.summary == Some(
            title,
        ))),
    ensures
        ev.action() == ActionView::SetTitle(title@),
{
    kinds_differ();
}

/// An event that repeats the last prompt sets it: by its prompt, or without one
/// by its text.
pub proof fn last_prompts_are_set(ev: Event, prompt: String)
    requires
        ev.event_type matches Some(t) && t@ == "last-prompt"@,
        ev.prompt == Some(prompt) || ev.prompt is None && ev.text == Some(prompt),
    ensures
        ev.action() == ActionView::SetLastPrompt(prompt@),
{
    kinds_differ();
}

/// An event of any other type, or of none, is skipped.
pub proof fn other_events_are_skipped(ev: Event)
    requires
        ev.event_type matches Some(t) ==> t@ != "user"@ && t@ != "assistant"@ && t@ != "summary"@
            && t@ != "custom-title"@ && t@ != "ai-title"@ && t@ != "last-prompt"@ && t@
            != "system"@,
    ensures
        ev.action() == ActionView::Skip,
{
    if ev.event_type is None {
        reveal_strlit("user");
        reveal_strlit("assistant");
        reveal_strlit("summary");
        reveal_strlit("custom-title");
        reveal_strlit("ai-title");
        reveal_strlit("last-prompt");
        reveal_strlit("system");
        let e = Seq::<char>::empty();
        assert(e.len() != "user"@.len() && e.len() != "assistant"@.len() && e.len()
            != "summary"@.len() && e.len() != "custom-title"@.len() && e.len() != "ai-title"@.len()
            && e.len() != "last-prompt"@.len() && e.len() != "system"@.len());
    }
}

/// Whether a block is text that was written.
pub open spec fn is_written(b: Block) -> bool {
    &&& b.block_type matches Some(t) && t@ == "text"@
    &&& b.text is Some
}

/// Whether a block is text with something to read in it.
pub open spec fn is_readable(b: Block) -> bool {
    &&& is_written(b)
    &&& exists|i: int| 0 <= i < b.text->0@.len() && !text::is_space(#[trigger] b.text->0@[i])
}

/// Whether a block is a tool call.
pub open spec fn is_call(b: Block) -> bool {
    b.block_type matches Some(t) && t@ == "tool_use"@
}

proof fn written_blocks(blocks: Seq<Block>)
    ensures
        block_texts(blocks) == blocks.filter(|b: Block| is_written(b)).map_values(
            |b: Block| b.text->0@,
        ),
        solid_texts(blocks) == blocks.filter(|b: Block| is_readable(b)).map_values(
            |b: Block| b.text->0@,
        ),
        tool_rows(blocks) == blocks.filter(|b: Block| is_call(b)).map_values(
            |b: Block| (Scope::Tool, text::truncated(tool_text(b), 65536)),
        ),
    decreases blocks.len(),
{
    reveal(Seq::filter);
    let written = |b: Block| is_written(b);
    let readable = |b: Block| is_readable(b);
    let call = |b: Block| is_call(b);
    let said = |b: Block| b.text->0@;
    let row = |b: Block| (Scope::Tool, text::truncated(tool_text(b), 65536));
    if blocks.len() > 0 {
        let init = blocks.drop_last();
        let b = blocks.last();
        written_blocks(init);
        assert(is_kind(b, "text"@) && b.text is Some <==> is_written(b));
        assert(init.filter(written).push(b).map_values(said) =~= init.filter(written).map_values(
            said,
        ).push(said(b)));
        assert(init.filter(readable).push(b).map_values(said) =~= init.filter(readable).map_values(
            said,
        ).push(said(b)));
        assert(init.filter(call).push(b).map_values(row) =~= init.filter(call).map_values(row).push(
            row(b),
        ));
        if is_written(b) {
            assert(words::blank(b.text->0@) <==> !is_readable(b));
        }
    } else {
        assert(blocks.filter(written).map_values(said) =~= Seq::<Seq<char>>::empty());
        assert(blocks.filter(readable).map_values(said) =~= Seq::<Seq<char>>::empty());
        assert(blocks.filter(call).map_values(row) =~= Seq::<RowView>::empty());
    }
}

/// The text blocks of a user's message, without an echo of a tool among them,
/// are indexed as one text: line by line in their order, and nothing else.
pub proof fn user_blocks_are_indexed_in_order(ev: Event, blocks: Vec<Block>)
    requires
        carries(ev, "user"@, Content::Blocks(blocks)),
        !ev.is_meta,
        forall|i: int|
            0 <= i < blocks@.len() ==> ((#[trigger] blocks@[i]).block_type matches Some(t) ==> t@
                != "tool_result"@),
    ensures
        ({
            let all = words::joined(
                blocks@.filter(|b: Block| is_written(b)).map_values(|b: Block| b.text->0@),
                "\n"@,
            );
            let size = vstd::utf8::encode_utf8(all).len();
            if exists|i: int| 0 <= i < all.len() && !text::is_space(#[trigger] all[i]) {
                &&& ev.action() matches ActionView::Index { scope, body }
                &&& scope == Scope::User
                &&& size <= 65536 ==> body == all
                &&& size > 65536 ==> text::is_cut_to_fit(all, body, 65536)
            } else {
                ev.action() == ActionView::Skip
            }
        }),
{
    written_blocks(blocks@);
    let all = words::joined(block_texts(blocks@), "\n"@);
    text::truncating_keeps_what_fits(all, 65536);
    assert(!echoes_tool(blocks@));
}

/// The blocks of an assistant's message give one row for all that it says, its
/// text blocks line by line in their order, and then a row for each tool call,
/// in their order.
pub proof fn assistant_blocks_are_indexed_in_order(ev: Event, blocks: Vec<Block>)
    requires
        carries(ev, "assistant"@, Content::Blocks(blocks)),
    ensures
        ({
            let said = blocks@.filter(|b: Block| is_readable(b)).map_values(|b: Block| b.text->0@);
            let calls = blocks@.filter(|b: Block| is_call(b));
            let rows = rows_of(ev.action());
            let n: int = if said.len() > 0 {
                1
            } else {
                0
            };
            &&& rows.len() == n + calls.len()
            &&& n == 1 ==> rows[0] == (
                Scope::Assistant,
                text::truncated(words::joined(said, "\n"@), 65536),
            )
            &&& forall|i: int|
                0 <= i < calls.len() ==> rows[n + i] == (
                    Scope::Tool,
                    text::truncated(tool_text(#[trigger] calls[i]), 65536),
                )
            &&& rows.len() == 0 ==> ev.action() == ActionView::Skip
        }),
{
    kinds_differ();
    written_blocks(blocks@);
    let rows = assistant_rows(blocks@);
    let calls = blocks@.filter(|b: Block| is_call(b));
    assert(tool_rows(blocks@).len() == calls.len());
    assert(rows_of(ev.action()) =~= rows);
    assert forall|i: int| 0 <= i < calls.len() implies tool_rows(blocks@)[i] == (
        Scope::Tool,
        text::truncated(tool_text(#[trigger] calls[i]), 65536),
    ) by {}
}

/// An event that should say something and does not is skipped.
pub proof fn empty_events_are_skipped(ev: Event)
    requires
        ev.event_type matches Some(t) && ((t@ == "user"@ || t@ == "assistant"@) && (
        ev.message matches Some(m) ==> m.content is None) || t@ == "summary"@ && ev.summary is None
            || (t@ == "custom-title"@ || t@ == "ai-title"@ || t@ == "system"@) && ev.title is None
            && ev.text is None && ev.summary is None || t@ == "last-prompt"@ && ev.prompt is None
            && ev.text is None),
    ensures
        ev.action() == ActionView::Skip,
{
    kinds_differ();
}

/// Whether a value has a member of the given name, with a string as its value.
pub open spec fn has_string(input: JsonValue, name: Seq<char>, value: Seq<char>) -> bool {
    exists|k: int|
        0 <= k < input.members@.len() && (#[trigger] input.members@[k]).name@ == name && (
        input.members@[k].text matches Some(v) && v@ == value)
}

/// Whether a value has a member of the given name.
pub open spec fn has_member(input: JsonValue, name: Seq<char>) -> bool {
    exists|k: int| 0 <= k < input.members@.len() && (#[trigger] input.members@[k]).name@ == name
}

proof fn members_are_found(m: Seq<MemberView>, k: int)
    requires
        distinct_names(m),
        0 <= k < m.len(),
    ensures
        member_of(m, m[k].0) == Some(m[k].1),
    decreases m.len(),
{
    if k > 0 {
        assert(m[0].0 != m[k].0);
        let t = m.drop_first();
        assert forall|i: int, j: int| 0 <= i < j < t.len() implies (#[trigger] t[i]).0 != (
        #[trigger] t[j]).0 by {
            assert(m[i + 1].0 != m[j + 1].0);
        }
        members_are_found(t, k - 1);
        assert(t[k - 1] == m[k]);
    }
}

proof fn missing_members(m: Seq<MemberView>, name: Seq<char>)
    requires
        forall|k: int| 0 <= k < m.len() ==> (#[trigger] m[k]).0 != name,
    ensures
        member_of(m, name) is None,
    decreases m.len(),
{
    if m.len() > 0 {
        assert(m[0].0 != name);
        let t = m.drop_first();
        assert forall|k: int| 0 <= k < t.len() implies (#[trigger] t[k]).0 != name by {
            assert(m[k + 1].0 != name);
        }
        missing_members(t, name);
    }
}

/// A member of a value is found by its name, with its value where that is a
/// string; no other name finds one.
pub proof fn members_are_found_by_name(input: JsonValue, name: Seq<char>)
    requires
        input.wf(),
    ensures
        member_of(input.entries(), name) is Some <==> has_member(input, name),
        forall|v: Seq<char>|
            string_of(input.entries(), name) == Some(v) <==> #[trigger] has_string(input, name, v),
{
    let m = input.entries();
    assert forall|k: int| 0 <= k < m.len() implies (#[trigger] m[k]).0 == input.members@[k].name@
        && m[k].1 == text::opt_text(input.members@[k].text) by {}
    if has_member(input, name) {
        let k = choose|k: int|
            0 <= k < input.members@.len() && (#[trigger] input.members@[k]).name@ == name;
        members_are_found(m, k);
        assert(m[k].0 == name);
        assert forall|v: Seq<char>| string_of(m, name) == Some(v) <==> #[trigger] has_string(
            input,
            name,
            v,
        ) by {
            if has_string(input, name, v) {
                let j = choose|j: int|
                    0 <= j < input.members@.len() && (#[trigger] input.members@[j]).name@ == name
                        && (input.members@[j].text matches Some(w) && w@ == v);
                members_are_found(m, j);
                assert(m[j].0 == name);
            }
            if string_of(m, name) == Some(v) {
                assert(input.members@[k].name@ == name);
            }
        }
    } else {
        assert forall|k: int| 0 <= k < m.len() implies (#[trigger] m[k]).0 != name by {
            if m[k].0 == name {
                assert(input.members@[k].name@ == name);
            }
        }
        missing_members(m, name);
        assert forall|v: Seq<char>| string_of(m, name) == Some(v) <==> #[trigger] has_string(
            input,
            name,
            v,
        ) by {
            if has_string(input, name, v) {
                let j = choose|j: int|
                    0 <= j < input.members@.len() && (#[trigger] input.members@[j]).name@ == name
                        && (input.members@[j].text matches Some(w) && w@ == v);
                assert(input.members@[j].name@ == name);
            }
        }
    }
}

proof fn tools_differ()
    ensures
        "Bash"@.len() == 4 && "Bash"@[0] == 'B',
        "Read"@.len() == 4 && "Read"@[0] == 'R',
        "Write"@.len() == 5 && "Write"@[0] == 'W',
        "Edit"@.len() == 4 && "Edit"@[0] == 'E',
        "MultiEdit"@.len() == 9 && "MultiEdit"@[0] == 'M',
        "NotebookEdit"@.len() == 12 && "NotebookEdit"@[0] == 'N',
        "Glob"@.len() == 4 && "Glob"@[0] == 'G',
        "Grep"@.len() == 4 && "Grep"@[0] == 'G',
        "Task"@.len() == 4 && "Task"@[0] == 'T',
        "Agent"@.len() == 5 && "Agent"@[0] == 'A',
        "WebFetch"@.len() == 8 && "WebFetch"@[0] == 'W',
        "WebSearch"@.len() == 9 && "WebSearch"@[0] == 'W',
        "Tool"@.len() == 4 && "Tool"@[0] == 'T' && "Tool"@[1] == 'o' && "Task"@[1] == 'a',
{
    reveal_strlit("Bash");
    reveal_strlit("Read");
    reveal_strlit("Write");
    reveal_strlit("Edit");
    reveal_strlit("MultiEdit");
    reveal_strlit("NotebookEdit");
    reveal_strlit("Glob");
    reveal_strlit("Grep");
    reveal_strlit("Task");
    reveal_strlit("Agent");
    reveal_strlit("WebFetch");
    reveal_strlit("WebSearch");
    reveal_strlit("Tool");
}

/// Whether a tool works on files.
pub open spec fn is_file_tool(name: Seq<char>) -> bool {
    name == "Read"@ || name == "Write"@ || name == "Edit"@ || name == "MultiEdit"@ || name
        == "NotebookEdit"@
}

/// The row of a call of a well-known tool names the tool and tells what it was
/// called on: the command, the file, the pattern, or the address and without one
/// the query. Only a written or edited file has more behind it.
pub proof fn tool_calls_tell_what_they_were_called_on(b: Block, value: Seq<char>)
    requires
        b.name is Some,
        b.input is Some && b.input->0.wf(),
        ({
            let name = b.name->0@;
            let input = b.input->0;
            ||| name == "Bash"@ && has_string(input, "command"@, value)
            ||| is_file_tool(name) && has_string(input, "file_path"@, value)
            ||| (name == "Glob"@ || name == "Grep"@) && has_string(input, "pattern"@, value)
            ||| (name == "WebFetch"@ || name == "WebSearch"@) && (has_string(
                input,
                "url"@,
                value,
            ) || has_string(input, "query"@, value) && forall|u: Seq<char>|
                !#[trigger] has_string(input, "url"@, u))
        }),
    ensures
        ({
            let name = b.name->0@;
            let start = name + ": "@ + value;
            &&& start.len() <= tool_text(b).len()
            &&& tool_text(b).take(start.len() as int) == start
            &&& name != "Edit"@ && name != "Write"@ ==> tool_text(b) == start
        }),
{
    tools_differ();
    let input = b.input->0;
    let name = b.name->0@;
    members_are_found_by_name(input, "command"@);
    members_are_found_by_name(input, "file_path"@);
    members_are_found_by_name(input, "pattern"@);
    members_are_found_by_name(input, "url"@);
    members_are_found_by_name(input, "query"@);
    match string_of(input.entries(), "url"@) {
        Some(u) => {
            assert(has_string(input, "url"@, u));
        },
        None => {},
    }
    assert(tool_key(name, input.entries()) == Some(value));
    let start = name + ": "@ + value;
    assert(tool_text(b) == start + tool_extra(name, input.entries()));
    assert(tool_text(b).take(start.len() as int) =~= start);
    if name != "Edit"@ && name != "Write"@ {
        assert(tool_text(b) =~= start);
    }
}

/// The row of a call that starts an agent tells what it is to do, and which kind
/// of agent it is.
pub proof fn agent_calls_tell_their_task(b: Block, task: Seq<char>, kind: Seq<char>)
    requires
        b.name matches Some(n) && (n@ == "Task"@ || n@ == "Agent"@),
        b.input is Some && b.input->0.wf(),
        has_string(b.input->0, "description"@, task),
        has_string(b.input->0, "subagent_type"@, kind),
    ensures
        tool_text(b) == b.name->0@ + ": "@ + (task + " ("@ + kind + ")"@),
{
    tools_differ();
    members_are_found_by_name(b.input->0, "description"@);
    members_are_found_by_name(b.input->0, "subagent_type"@);
    assert(tool_text(b) =~= b.name->0@ + ": "@ + (task + " ("@ + kind + ")"@));
}

/// The row of a call of any other tool shows its arguments as they are, up to
/// 512 bytes; that of a call without arguments shows its name, which is `Tool`
/// where it has none.
pub proof fn other_calls_show_their_arguments(b: Block)
    ensures
        ({
            let name = if b.name is Some {
                b.name->0@
            } else {
                "Tool"@
            };
            &&& b.input is None ==> tool_text(b) == name + ":"@
            &&& b.input is Some && name != "Bash"@ && !is_file_tool(name) && name != "Glob"@ && name
                != "Grep"@ && name != "Task"@ && name != "Agent"@ && name != "WebFetch"@ && name
                != "WebSearch"@ ==> tool_text(b) == name + ": "@ + text::truncated(
                b.input->0.compact@,
                512,
            )
        }),
{
    tools_differ();
    let name = tool_name(b);
    if b.input is Some {
        let e = Seq::<char>::empty();
        let start = name + ": "@ + text::truncated(b.input->0.compact@, 512);
        assert(start + e =~= start);
    }
}

/// The row of a written or edited file shows the start of the new text behind
/// the file: up to 1024 bytes of the new string, or without one of the content.
pub proof fn edits_show_the_new_text(b: Block, path: Seq<char>, new: Seq<char>)
    requires
        b.name matches Some(n) && (n@ == "Edit"@ || n@ == "Write"@),
        b.input is Some && b.input->0.wf(),
        has_string(b.input->0, "file_path"@, path),
        has_string(b.input->0, "new_string"@, new) || !has_member(b.input->0, "new_string"@)
            && has_string(b.input->0, "content"@, new),
    ensures
        tool_text(b) == b.name->0@ + ": "@ + path + (" "@ + text::truncated(new, 1024)),
{
    tools_differ();
    members_are_found_by_name(b.input->0, "file_path"@);
    members_are_found_by_name(b.input->0, "new_string"@);
    members_are_found_by_name(b.input->0, "content"@);
}

/// A well-known tool that was called without the argument that tells most shows
/// all of its arguments, up to 512 bytes; an agent without a task or a kind shows
/// none in its place; a file that is written or edited without a new text shows
/// nothing behind its name.
pub proof fn missing_arguments_are_made_up_for(b: Block)
    requires
        b.name is Some,
        b.input is Some && b.input->0.wf(),
    ensures
        ({
            let name = b.name->0@;
            let input = b.input->0;
            let all = text::truncated(input.compact@, 512);
            let none = |key: Seq<char>| forall|v: Seq<char>| !#[trigger] has_string(input, key, v);
            &&& (name == "Bash"@ && none("command"@) || (name == "Glob"@ || name == "Grep"@)
                && none("pattern"@) || (name == "Read"@ || name == "MultiEdit"@ || name
                == "NotebookEdit"@) && none("file_path"@) || (name == "WebFetch"@ || name
                == "WebSearch"@) && none("url"@) && none("query"@)) ==> tool_text(b) == name + ": "@
                + all
            &&& (name == "Edit"@ || name == "Write"@) && none("new_string"@) && (has_member(
                input,
                "new_string"@,
            ) || none("content"@)) ==> forall|p: Seq<char>| #[trigger]
                has_string(input, "file_path"@, p) ==> tool_text(b) == name + ": "@ + p
            &&& (name == "Task"@ || name == "Agent"@) && none("subagent_type"@)
                ==> forall|t: Seq<char>| #[trigger]
                has_string(input, "description"@, t) ==> tool_text(b) == name + ": "@ + (t + " ("@
                    + ")"@)
            &&& (name == "Task"@ || name == "Agent"@) && none("description"@)
                ==> forall|k: Seq<char>| #[trigger]
                has_string(input, "subagent_type"@, k) ==> tool_text(b) == name + ": "@ + (" ("@ + k
                    + ")"@)
        }),
{
    tools_differ();
    let name = b.name->0@;
    let input = b.input->0;
    let m = input.entries();
    no_such_string(input, "command"@);
    no_such_string(input, "pattern"@);
    no_such_string(input, "file_path"@);
    no_such_string(input, "url"@);
    no_such_string(input, "query"@);
    no_such_string(input, "new_string"@);
    no_such_string(input, "content"@);
    no_such_string(input, "description"@);
    no_such_string(input, "subagent_type"@);
    let e = Seq::<char>::empty();
    let all = text::truncated(input.compact@, 512);
    assert(name + ": "@ + all + e =~= name + ": "@ + all);
    assert forall|p: Seq<char>| #[trigger] has_string(input, "file_path"@, p) implies name + ": "@
        + p + e == name + ": "@ + p by {
        assert(name + ": "@ + p + e =~= name + ": "@ + p);
    }
    assert forall|t: Seq<char>| #[trigger] has_string(input, "description"@, t) implies name
        + ": "@ + (t + " ("@ + e + ")"@) + e == name + ": "@ + (t + " ("@ + ")"@) by {
        assert(t + " ("@ + e =~= t + " ("@);
        assert(name + ": "@ + (t + " ("@ + ")"@) + e =~= name + ": "@ + (t + " ("@ + ")"@));
    }
    assert forall|k: Seq<char>| #[trigger] has_string(input, "subagent_type"@, k) implies name
        + ": "@ + (e + " ("@ + k + ")"@) + e == name + ": "@ + (" ("@ + k + ")"@) by {
        assert(e + " ("@ =~= " ("@);
        assert(name + ": "@ + (" ("@ + k + ")"@) + e =~= name + ": "@ + (" ("@ + k + ")"@));
    }
}

proof fn no_such_string(input: JsonValue, key: Seq<char>)
    requires
        input.wf(),
    ensures
        (forall|v: Seq<char>| !#[trigger] has_string(input, key, v)) ==> string_of(
            input.entries(),
            key,
        ) is None,
        forall|v: Seq<char>| #[trigger]
            has_string(input, key, v) ==> string_of(input.entries(), key) == Some(v),
        member_of(input.entries(), key) is Some <==> has_member(input, key),
{
    members_are_found_by_name(input, key);
    match string_of(input.entries(), key) {
        Some(v) => {
            assert(has_string(input, key, v));
        },
        None => {},
    }
}

/// An event has the time that its time stamp writes, and 0 without one.
pub proof fn events_have_the_time_of_their_stamp(ev: Event, d: clock::Date, second: int)
    requires
        clock::is_date(d),
        0 <= d.year <= 9999,
        0 <= second < 86400,
    ensures
        ev.timestamp is None ==> ev.time() == 0,
        ev.timestamp matches Some(s) && s@ == clock::utc_text(d, second) ==> ev.time()
            == clock::day_number(d) * 86400 + second,
{
    clock::utc_stamps_are_read_back(d, second);
}

/// The time of an event is the one that its time stamp denotes, whatever its
/// form, and 0 where it denotes none.
pub proof fn events_have_the_time_that_is_read(ev: Event)
    requires
        ev.timestamp is Some,
    ensures
        clock::stamp_seconds(ev.timestamp->0@) matches Some(t) ==> ev.time() == t,
        clock::stamp_seconds(ev.timestamp->0@) is None ==> ev.time() == 0,
{
}

/// A written or edited file without a name shows all of its arguments in its
/// place, up to 512 bytes, and the new text behind them; an agent without a task
/// and a kind shows neither.
pub proof fn nameless_calls_show_their_arguments(b: Block, new: Seq<char>)
    requires
        b.name is Some,
        b.input is Some && b.input->0.wf(),
    ensures
        ({
            let name = b.name->0@;
            let input = b.input->0;
            let start = name + ": "@ + text::truncated(input.compact@, 512);
            let none = |key: Seq<char>| forall|v: Seq<char>| !#[trigger] has_string(input, key, v);
            &&& (name == "Edit"@ || name == "Write"@) && none("file_path"@) && (has_string(
                input,
                "new_string"@,
                new,
            ) || !has_member(input, "new_string"@) && has_string(input, "content"@, new))
                ==> tool_text(b) == start + (" "@ + text::truncated(new, 1024))
            &&& (name == "Edit"@ || name == "Write"@) && none("file_path"@) && none("new_string"@)
                && (has_member(input, "new_string"@) || none("content"@)) ==> tool_text(b) == start
            &&& (name == "Task"@ || name == "Agent"@) && none("description"@) && none(
                "subagent_type"@,
            ) ==> tool_text(b) == name + ": "@ + (" ("@ + ")"@)
        }),
{
    tools_differ();
    let name = b.name->0@;
    let input = b.input->0;
    no_such_string(input, "file_path"@);
    no_such_string(input, "new_string"@);
    no_such_string(input, "content"@);
    no_such_string(input, "description"@);
    no_such_string(input, "subagent_type"@);
    let e = Seq::<char>::empty();
    let start = name + ": "@ + text::truncated(input.compact@, 512);
    assert(start + e =~= start);
    assert(e + " ("@ + e =~= " ("@);
    assert(name + ": "@ + (" ("@ + ")"@) + e =~= name + ": "@ + (" ("@ + ")"@));
}

/// A scope is stored under its name, and a list of rows or of members holds each
/// of them as it is.
pub proof fn rows_and_members_are_as_they_are(
    rows: Seq<(Scope, String)>,
    members: Seq<JsonMember>,
    i: int,
)
    ensures
        Scope::User.name() == "user"@,
        Scope::Assistant.name() == "assistant"@,
        Scope::Tool.name() == "tool"@,
        row_views(rows).len() == rows.len(),
        0 <= i < rows.len() ==> row_views(rows)[i] == (rows[i].0, rows[i].1@),
        member_views(members).len() == members.len(),
        0 <= i < members.len() ==> member_views(members)[i] == (
            members[i].name@,
            text::opt_text(members[i].text),
        ),
{
}

/// What is done with an event is told apart, with all that goes with it.
pub proof fn actions_are_told_apart(a: Action)
    ensures
        a is Index ==> a@ == (ActionView::Index { scope: a->scope, body: a->body@ }),
        a is IndexMany ==> a@ == ActionView::IndexMany(row_views(a->IndexMany_0@)),
        a is SetTitle ==> a@ == ActionView::SetTitle(a->SetTitle_0@),
        a is SetLastPrompt ==> a@ == ActionView::SetLastPrompt(a->SetLastPrompt_0@),
        a is Skip ==> a@ == ActionView::Skip,
{
}

/// An action that indexes a text gives one row of it, one that indexes many gives
/// them all, and any other gives none.
pub proof fn rows_are_those_of_the_action(a: ActionView)
    ensures
        a is Index ==> rows_of(a).len() == 1 && rows_of(a)[0] == (a->scope, a->body),
        a is IndexMany ==> rows_of(a) == a->IndexMany_0,
        !(a is Index) && !(a is IndexMany) ==> rows_of(a).len() == 0,
{
}

/// A user event with the output of a tool anywhere among its blocks is skipped,
/// whatever else it holds.
pub proof fn events_with_tool_output_are_skipped(ev: Event, blocks: Vec<Block>, i: int)
    requires
        carries(ev, "user"@, Content::Blocks(blocks)),
        0 <= i < blocks@.len(),
        blocks@[i].block_type matches Some(t) && t@ == "tool_result"@,
    ensures
        ev.action() == ActionView::Skip,
{
    assert(is_kind(blocks@[i], "tool_result"@));
}

/// What an assistant's message holds besides text and tool calls, anywhere among
/// its blocks, changes nothing of its rows.
pub proof fn thinking_is_not_indexed(blocks: Seq<Block>, i: int)
    requires
        0 <= i < blocks.len(),
        blocks[i].block_type matches Some(t) ==> t@ != "text"@ && t@ != "tool_use"@,
    ensures
        assistant_rows(blocks) == assistant_rows(blocks.remove(i)),
{
    other_blocks_are_not_indexed(blocks, i);
}

} // verus!
