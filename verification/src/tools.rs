//! Retrieval tools that a model can call by name, and their arguments.
use crate::chunk;
use crate::json::{self, number_field, string_field};
use crate::paths::{self, path_file_name, path_from_root, PathStyle};
use crate::text::{self, chars_of, decimal_string, str_eq, string_copy};
use vstd::hash_map::StringHashMap;
use vstd::prelude::*;

verus! {

/// Files larger than this are not searched.
pub const MAX_FILE_BYTES: u64 = 4_194_304;

/// What a call of a tool asks for.
#[derive(Debug)]
pub enum ToolCall {
    /// Lines that contain a text, in the files below a directory.
    Grep(GrepArgs),
    /// A range of lines of a file.
    ReadChunk(ChunkArgs),
    /// The definitions in the file with this path.
    ListSymbols(String),
    /// Lines that define a symbol, in the files below a directory.
    FindDefinition(DefinitionArgs),
    /// Nothing more: the result as JSON text.
    Done(String),
}

impl ToolCall {
    /// The call is another one seen from a root directory: the path of its file
    /// or directory is, and the rest is the same.
    pub open spec fn is_rooted(self, style: PathStyle, root: Seq<char>, other: ToolCall) -> bool {
        match (self, other) {
            (ToolCall::Grep(a), ToolCall::Grep(b)) => a.path@ == paths::rooted(style, root, b.path@)
                && a.query == b.query && a.max_results == b.max_results,
            (ToolCall::ReadChunk(a), ToolCall::ReadChunk(b)) => a.path@ == paths::rooted(
                style,
                root,
                b.path@,
            ) && a.start == b.start && a.end == b.end,
            (ToolCall::ListSymbols(a), ToolCall::ListSymbols(b)) => a@ == paths::rooted(style, root, b@),
            (ToolCall::FindDefinition(a), ToolCall::FindDefinition(b)) => a.root@ == paths::rooted(
                style,
                root,
                b.root@,
            ) && a.symbol == b.symbol,
            (ToolCall::Done(a), ToolCall::Done(b)) => a == b,
            _ => false,
        }
    }

    /// The call seen from the root directory of an agent's tools.
    pub fn from_root(self, style: PathStyle, root: &str) -> (r: ToolCall)
        ensures
            r.is_rooted(style, root@, self),
    {
        match self {
            ToolCall::Grep(a) => ToolCall::Grep(
                GrepArgs { path: path_from_root(style, root, a.path.as_str()), ..a },
            ),
            ToolCall::ReadChunk(a) => ToolCall::ReadChunk(
                ChunkArgs { path: path_from_root(style, root, a.path.as_str()), ..a },
            ),
            ToolCall::ListSymbols(path) => ToolCall::ListSymbols(
                path_from_root(style, root, path.as_str()),
            ),
            ToolCall::FindDefinition(a) => ToolCall::FindDefinition(
                DefinitionArgs { root: path_from_root(style, root, a.root.as_str()), ..a },
            ),
            ToolCall::Done(text) => ToolCall::Done(text),
        }
    }
}

/// A tool that a model can call by name.
pub trait Tool: Send + Sync {
    /// The name.
    open spec fn label(&self) -> Seq<char> {
        arbitrary()
    }

    /// Whether a call with arguments in JSON text may have this outcome.
    open spec fn answers(&self, args: Seq<char>, outcome: Result<ToolCall, String>) -> bool {
        true
    }

    /// The name.
    fn name(&self) -> (r: &'static str)
        ensures
            r@ == self.label(),
    ;

    /// Reads the arguments and says what is to be done.
    fn execute(&self, args: &str) -> (r: Result<ToolCall, String>)
        ensures
            self.answers(args@, r),
    ;
}

/// Tools by position, and the position of each name.
pub struct ToolRegistry<T: Tool> {
    pub index: StringHashMap<usize>,
    pub tools: Vec<T>,
}

/// Position of the last name in a list that equals a name.
pub open spec fn last_position(names: Seq<Seq<char>>, name: Seq<char>) -> Option<int>
    decreases names.len(),
{
    if names.len() == 0 {
        None
    } else if names.last() == name {
        Some(names.len() - 1)
    } else {
        last_position(names.drop_last(), name)
    }
}

proof fn lemma_last_position(names: Seq<Seq<char>>, name: Seq<char>)
    ensures
        match last_position(names, name) {
            Some(i) => 0 <= i < names.len() && names[i] == name,
            None => !names.contains(name),
        },
    decreases names.len(),
{
    if names.len() > 0 {
        lemma_last_position(names.drop_last(), name);
        if last_position(names, name) is None && names.contains(name) {
            let i = choose|i: int| 0 <= i < names.len() && names[i] == name;
            assert(names.drop_last()[i] == name);
        }
    }
}

/// Names of the default tools.
pub open spec fn default_names() -> Seq<Seq<char>> {
    seq!["grep"@, "read_chunk"@, "list_symbols"@, "find_definition"@]
}

/// The names of a list of tools.
pub open spec fn labels<T: Tool>(tools: Seq<T>) -> Seq<Seq<char>> {
    tools.map_values(|t: T| t.label())
}

/// The names of a list of static strings.
pub open spec fn name_views(list: Seq<&'static str>) -> Seq<Seq<char>> {
    list.map_values(|s: &'static str| s@)
}

impl<T: Tool> ToolRegistry<T> {
    /// The tool names in the order of registration.
    pub open spec fn names(self) -> Seq<Seq<char>> {
        labels(self.tools@)
    }

    /// The index finds the tool that was registered last under each name.
    pub open spec fn valid(self) -> bool {
        forall|name: Seq<char>|
            match last_position(self.names(), name) {
                Some(i) => #[trigger] self.index@.contains_key(name) && self.index@[name] == i,
                None => !self.index@.contains_key(name),
            }
    }

    /// A registry without tools.
    pub fn new() -> (r: Self)
        ensures
            r.valid(),
            r.tools@.len() == 0,
    {
        let r = ToolRegistry { index: StringHashMap::new(), tools: Vec::new() };
        assert(r.names() == Seq::<Seq<char>>::empty());
        r
    }

    /// Registers a tool. It takes the place of an earlier tool of the same
    /// name.
    pub fn register(&mut self, tool: T)
        requires
            old(self).valid(),
        ensures
            final(self).valid(),
            final(self).tools@ == old(self).tools@.push(tool),
    {
        let ghost before = *self;
        let name = tool.name();
        let position: usize = self.tools.len();
        self.tools.push(tool);
        self.index.insert(string_copy(name), position);
        proof {
            assert(self.names() == before.names().push(name@));
            assert(self.names().drop_last() == before.names());
            assert forall|n: Seq<char>|
                match last_position(self.names(), n) {
                    Some(i) => #[trigger] self.index@.contains_key(n) && self.index@[n] == i,
                    None => !self.index@.contains_key(n),
                } by {
                let there = before.index@.contains_key(n);
            }
        }
    }

    /// Calls the tool that was registered last under a name. There is an error
    /// where there is none.
    pub fn execute(&self, name: &str, args: &str) -> (r: Result<ToolCall, String>)
        requires
            self.valid(),
        ensures
            match last_position(self.names(), name@) {
                Some(i) => self.tools@[i].answers(args@, r),
                None => r matches Err(e) && e@ == "unknown tool: "@ + name@,
            },
    {
        proof {
            let there = self.index@.contains_key(name@);
            lemma_last_position(self.names(), name@);
        }
        match self.index.get(name) {
            Some(i) => self.tools[*i].execute(args),
            None => {
                let mut m = string_copy("unknown tool: ");
                m.append(name);
                Err(m)
            },
        }
    }

    /// The tool names in the order of registration.
    pub fn tool_names(&self) -> (r: Vec<&'static str>)
        ensures
            name_views(r@) == self.names(),
    {
        let mut r: Vec<&'static str> = Vec::new();
        for i in 0..self.tools.len()
            invariant
                name_views(r@) == self.names().take(i as int),
        {
            let ghost before = r@;
            let name = self.tools[i].name();
            r.push(name);
            assert(name_views(r@) == name_views(before).push(name@));
            assert(self.names().take(i + 1) == self.names().take(i as int).push(
                self.names()[i as int],
            ));
        }
        assert(self.names().take(self.tools@.len() as int) == self.names());
        r
    }
}

/// A tool for source trees.
#[derive(Clone, Copy, Debug, PartialEq, Eq, Structural)]
pub enum CodeTool {
    Grep(GrepTool),
    ReadChunk(ReadChunkTool),
    ListSymbols(ListSymbolsTool),
    FindDefinition(FindDefinitionTool),
}

impl Tool for CodeTool {
    open spec fn label(&self) -> Seq<char> {
        match self {
            CodeTool::Grep(t) => t.label(),
            CodeTool::ReadChunk(t) => t.label(),
            CodeTool::ListSymbols(t) => t.label(),
            CodeTool::FindDefinition(t) => t.label(),
        }
    }

    open spec fn answers(&self, args: Seq<char>, outcome: Result<ToolCall, String>) -> bool {
        match self {
            CodeTool::Grep(t) => t.answers(args, outcome),
            CodeTool::ReadChunk(t) => t.answers(args, outcome),
            CodeTool::ListSymbols(t) => t.answers(args, outcome),
            CodeTool::FindDefinition(t) => t.answers(args, outcome),
        }
    }

    fn name(&self) -> (r: &'static str) {
        match self {
            CodeTool::Grep(t) => t.name(),
            CodeTool::ReadChunk(t) => t.name(),
            CodeTool::ListSymbols(t) => t.name(),
            CodeTool::FindDefinition(t) => t.name(),
        }
    }

    fn execute(&self, args: &str) -> (r: Result<ToolCall, String>) {
        match self {
            CodeTool::Grep(t) => t.execute(args),
            CodeTool::ReadChunk(t) => t.execute(args),
            CodeTool::ListSymbols(t) => t.execute(args),
            CodeTool::FindDefinition(t) => t.execute(args),
        }
    }
}

/// The default tools in order.
pub open spec fn default_tools() -> Seq<CodeTool> {
    seq![
        CodeTool::Grep(GrepTool),
        CodeTool::ReadChunk(ReadChunkTool),
        CodeTool::ListSymbols(ListSymbolsTool),
        CodeTool::FindDefinition(FindDefinitionTool),
    ]
}

impl ToolRegistry<CodeTool> {
    /// The registry of the four default tools.
    pub fn with_defaults() -> (r: Self)
        ensures
            r.valid(),
            r.tools@ == default_tools(),
            r.names() == default_names(),
    {
        let mut r = Self::new();
        r.register(CodeTool::Grep(GrepTool));
        r.register(CodeTool::ReadChunk(ReadChunkTool));
        r.register(CodeTool::ListSymbols(ListSymbolsTool));
        r.register(CodeTool::FindDefinition(FindDefinitionTool));
        assert(r.names() == default_names());
        r
    }
}

impl Default for ToolRegistry<CodeTool> {
    fn default() -> (r: Self)
        ensures
            r.valid(),
            r.tools@ == default_tools(),
            r.names() == default_names(),
    {
        Self::with_defaults()
    }
}

/// Names of directories that hold nothing to search.
pub open spec fn skipped_directory(name: Seq<char>) -> bool {
    ||| name == ".git"@
    ||| name == "target"@
    ||| name == "node_modules"@
    ||| name == ".next"@
    ||| name == "__pycache__"@
    ||| name == ".venv"@
    ||| name.len() > 0 && name[0] == '.'
}

/// Whether a directory is not searched.
pub fn should_skip_dir(name: &str) -> (b: bool)
    ensures
        b == skipped_directory(name@),
{
    let chars = chars_of(name);
    str_eq(name, ".git") || str_eq(name, "target") || str_eq(name, "node_modules") || str_eq(
        name,
        ".next",
    ) || str_eq(name, "__pycache__") || str_eq(name, ".venv") || (chars.len() > 0 && chars[0]
        == '.')
}

/// What stands in a directory.
#[derive(Clone, Copy, Debug, PartialEq, Eq, Structural)]
pub enum EntryKind {
    Directory,
    /// A regular file with its size.
    File(u64),
    Other,
}

/// Directories that are still to be searched.
pub struct TextWalk {
    pub stack: Vec<String>,
    /// How the paths of files are written.
    pub style: PathStyle,
}

/// The file name of a path, or nothing.
pub open spec fn base_name(style: PathStyle, path: Seq<char>) -> Seq<char> {
    match paths::file_name(style, path) {
        Some(n) => n,
        None => seq![],
    }
}

impl TextWalk {
    /// A search from a root directory.
    pub fn new(style: PathStyle, root: &str) -> (r: Self)
        ensures
            text::views(r.stack@) == seq![root@],
            r.style == style,
    {
        let mut stack: Vec<String> = Vec::new();
        stack.push(string_copy(root));
        let r = TextWalk { stack, style };
        assert(text::views(r.stack@) == seq![root@]);
        r
    }

    /// The next directory to read: the one that was found last.
    pub fn next_directory(&mut self) -> (r: Option<String>)
        ensures
            match r {
                Some(d) => text::views(old(self).stack@) == text::views(final(self).stack@).push(
                    d@,
                ),
                None => old(self).stack@.len() == 0 && final(self).stack@ == old(self).stack@,
            },
            final(self).style == old(self).style,
    {
        let ghost before = self.stack@;
        match self.stack.pop() {
            Some(d) => {
                assert(before == self.stack@.push(d));
                assert(text::views(before) == text::views(self.stack@).push(d@));
                Some(d)
            },
            None => None,
        }
    }

    /// Takes an entry of a directory. A directory is searched later unless it
    /// is one to skip. True for a file whose text is to be searched now.
    pub fn visit(&mut self, path: &str, kind: EntryKind) -> (read: bool)
        ensures
            read == (kind matches EntryKind::File(n) && n <= MAX_FILE_BYTES),
            text::views(final(self).stack@) == (if kind == EntryKind::Directory
                && !skipped_directory(base_name(old(self).style, path@)) {
                text::views(old(self).stack@).push(path@)
            } else {
                text::views(old(self).stack@)
            }),
            final(self).style == old(self).style,
    {
        match kind {
            EntryKind::Directory => {
                let name = match path_file_name(self.style, path) {
                    Some(n) => n,
                    None => String::new(),
                };
                assert(name@ == base_name(self.style, path@));
                if !should_skip_dir(name.as_str()) {
                    let ghost before = self.stack@;
                    let p = string_copy(path);
                    self.stack.push(p);
                    assert(text::views(self.stack@) == text::views(before).push(p@));
                }
                false
            },
            EntryKind::File(n) => n <= MAX_FILE_BYTES,
            EntryKind::Other => false,
        }
    }
}

/// Message for a required argument that is missing.
pub open spec fn missing_argument(tool: Seq<char>, name: Seq<char>) -> Seq<char> {
    tool + ": missing required arg '"@ + name + "'"@
}

fn missing(tool: &str, name: &str) -> (r: String)
    ensures
        r@ == missing_argument(tool@, name@),
{
    let mut m = string_copy(tool);
    m.append(": missing required arg '");
    m.append(name);
    m.append("'");
    m
}

/// Message for a file that cannot be read.
pub fn cannot_read(tool: &str, path: &str, error: &str) -> (r: String)
    ensures
        r@ == tool@ + ": cannot read '"@ + path@ + "': "@ + error@,
{
    let mut m = string_copy(tool);
    m.append(": cannot read '");
    m.append(path);
    m.append("': ");
    m.append(error);
    m
}

/// An optional text, or else another.
pub open spec fn text_or(value: Option<Seq<char>>, default: Seq<char>) -> Seq<char> {
    match value {
        Some(v) => v,
        None => default,
    }
}

fn unwrap_text(value: Option<String>, default: &str) -> (r: String)
    ensures
        r@ == text_or(chunk::optional_view(value), default@),
{
    match value {
        Some(v) => v,
        None => string_copy(default),
    }
}

/// Arguments of a search for lines.
#[derive(Debug)]
pub struct GrepArgs {
    pub query: String,
    pub path: String,
    pub max_results: usize,
}

/// The outcome of reading the arguments of a search for lines: the query is
/// required, the path is the current directory by default, and there are at
/// most 50 results by default.
pub open spec fn grep_outcome(
    query: Option<Seq<char>>,
    path: Option<Seq<char>>,
    max_results: Option<u64>,
    r: Result<GrepArgs, String>,
) -> bool {
    match r {
        Ok(a) => {
            &&& query == Some(a.query@)
            &&& a.path@ == text_or(path, "."@)
            &&& a.max_results == (match max_results {
                Some(n) => n as usize,
                None => 50,
            })
        },
        Err(e) => query is None && e@ == missing_argument("grep"@, "query"@),
    }
}

/// The arguments of a search for lines from the fields that were given.
pub fn grep_arguments(
    query: Option<String>,
    path: Option<String>,
    max_results: Option<u64>,
) -> (r: Result<GrepArgs, String>)
    ensures
        grep_outcome(chunk::optional_view(query), chunk::optional_view(path), max_results, r),
{
    let query = match query {
        Some(q) => q,
        None => {
            return Err(missing("grep", "query"));
        },
    };
    let max_results: usize = match max_results {
        Some(n) => n as usize,
        None => 50,
    };
    Ok(GrepArgs { query, path: unwrap_text(path, "."), max_results })
}

/// Searches the files below a directory for lines that contain a text.
#[derive(Clone, Copy, Debug, PartialEq, Eq, Structural)]
pub struct GrepTool;

impl Tool for GrepTool {
    open spec fn label(&self) -> Seq<char> {
        "grep"@
    }

    open spec fn answers(&self, args: Seq<char>, outcome: Result<ToolCall, String>) -> bool {
        let query = json::json_string(args, "query"@);
        let path = json::json_string(args, "path"@);
        let max_results = json::json_number(args, "max_results"@);
        match outcome {
            Ok(ToolCall::Grep(a)) => grep_outcome(query, path, max_results, Ok(a)),
            Ok(_) => false,
            Err(e) => grep_outcome(query, path, max_results, Err(e)),
        }
    }

    fn name(&self) -> (r: &'static str) {
        "grep"
    }

    fn execute(&self, args: &str) -> (r: Result<ToolCall, String>) {
        match grep_arguments(
            string_field(args, "query"),
            string_field(args, "path"),
            number_field(args, "max_results"),
        ) {
            Ok(a) => Ok(ToolCall::Grep(a)),
            Err(e) => Err(e),
        }
    }
}

/// Which range of lines of a file to read, counted from one, both ends
/// included.
#[derive(Debug)]
pub struct ChunkArgs {
    pub path: String,
    pub start: usize,
    pub end: usize,
}

impl ChunkArgs {
    /// The range is not empty and does not begin before the first line.
    pub open spec fn valid(self) -> bool {
        1 <= self.start <= self.end
    }
}

/// The outcome of reading the arguments of a range of lines. All are required;
/// the start is at least one and the end not before it.
pub open spec fn chunk_outcome(
    path: Option<Seq<char>>,
    start: Option<u64>,
    end: Option<u64>,
    r: Result<ChunkArgs, String>,
) -> bool {
    match (path, start, end) {
        (None, _, _) => r matches Err(e) && e@ == missing_argument("read_chunk"@, "path"@),
        (Some(_), None, _) => r matches Err(e) && e@ == missing_argument("read_chunk"@, "start"@),
        (Some(_), Some(_), None) => r matches Err(e) && e@ == missing_argument(
            "read_chunk"@,
            "end"@,
        ),
        (Some(p), Some(s), Some(e)) => if s as usize == 0 {
            r matches Err(m) && m@ == "read_chunk: 'start' is 1-indexed (got 0)"@
        } else if (e as usize) < s as usize {
            r matches Err(m) && m@ == "read_chunk: 'end' ("@ + text::decimal((e as usize) as nat)
                + ") must be >= 'start' ("@ + text::decimal((s as usize) as nat) + ")"@
        } else {
            r matches Ok(a) && a.path@ == p && a.start == s as usize && a.end == e as usize
        },
    }
}

/// The arguments of a range of lines from the fields that were given.
pub fn chunk_arguments(
    path: Option<String>,
    start: Option<u64>,
    end: Option<u64>,
) -> (r: Result<ChunkArgs, String>)
    ensures
        chunk_outcome(chunk::optional_view(path), start, end, r),
        r matches Ok(a) ==> a.valid(),
{
    let path = match path {
        Some(p) => p,
        None => {
            return Err(missing("read_chunk", "path"));
        },
    };
    let start: usize = match start {
        Some(n) => n as usize,
        None => {
            return Err(missing("read_chunk", "start"));
        },
    };
    let end: usize = match end {
        Some(n) => n as usize,
        None => {
            return Err(missing("read_chunk", "end"));
        },
    };
    if start == 0 {
        return Err(string_copy("read_chunk: 'start' is 1-indexed (got 0)"));
    }
    if end < start {
        let mut m = string_copy("read_chunk: 'end' (");
        m.append(decimal_string(end as u64).as_str());
        m.append(") must be >= 'start' (");
        m.append(decimal_string(start as u64).as_str());
        m.append(")");
        return Err(m);
    }
    Ok(ChunkArgs { path, start, end })
}

/// Reads a range of lines of a file.
#[derive(Clone, Copy, Debug, PartialEq, Eq, Structural)]
pub struct ReadChunkTool;

impl Tool for ReadChunkTool {
    open spec fn label(&self) -> Seq<char> {
        "read_chunk"@
    }

    open spec fn answers(&self, args: Seq<char>, outcome: Result<ToolCall, String>) -> bool {
        let path = json::json_string(args, "path"@);
        let start = json::json_number(args, "start"@);
        let end = json::json_number(args, "end"@);
        match outcome {
            Ok(ToolCall::ReadChunk(a)) => chunk_outcome(path, start, end, Ok(a)),
            Ok(_) => false,
            Err(e) => chunk_outcome(path, start, end, Err(e)),
        }
    }

    fn name(&self) -> (r: &'static str) {
        "read_chunk"
    }

    fn execute(&self, args: &str) -> (r: Result<ToolCall, String>) {
        match chunk_arguments(
            string_field(args, "path"),
            number_field(args, "start"),
            number_field(args, "end"),
        ) {
            Ok(a) => Ok(ToolCall::ReadChunk(a)),
            Err(e) => Err(e),
        }
    }
}

/// Lists the definitions in a file.
#[derive(Clone, Copy, Debug, PartialEq, Eq, Structural)]
pub struct ListSymbolsTool;

impl Tool for ListSymbolsTool {
    open spec fn label(&self) -> Seq<char> {
        "list_symbols"@
    }

    open spec fn answers(&self, args: Seq<char>, outcome: Result<ToolCall, String>) -> bool {
        match json::json_string(args, "path"@) {
            Some(path) => outcome matches Ok(ToolCall::ListSymbols(p)) && p@ == path,
            None => outcome matches Err(e) && e@ == missing_argument("list_symbols"@, "path"@),
        }
    }

    fn name(&self) -> (r: &'static str) {
        "list_symbols"
    }

    fn execute(&self, args: &str) -> (r: Result<ToolCall, String>) {
        match string_field(args, "path") {
            Some(path) => Ok(ToolCall::ListSymbols(path)),
            None => Err(missing("list_symbols", "path")),
        }
    }
}

/// Arguments of a search for a definition.
#[derive(Debug)]
pub struct DefinitionArgs {
    pub symbol: String,
    pub root: String,
}

/// The outcome of reading the arguments of a search for a definition: the
/// symbol is required, the root is the current directory by default.
pub open spec fn definition_outcome(
    symbol: Option<Seq<char>>,
    root: Option<Seq<char>>,
    r: Result<DefinitionArgs, String>,
) -> bool {
    match r {
        Ok(a) => symbol == Some(a.symbol@) && a.root@ == text_or(root, "."@),
        Err(e) => symbol is None && e@ == missing_argument("find_definition"@, "symbol"@),
    }
}

/// The arguments of a search for a definition from the fields that were given.
pub fn definition_arguments(symbol: Option<String>, root: Option<String>) -> (r: Result<
    DefinitionArgs,
    String,
>)
    ensures
        definition_outcome(chunk::optional_view(symbol), chunk::optional_view(root), r),
{
    match symbol {
        Some(symbol) => Ok(DefinitionArgs { symbol, root: unwrap_text(root, ".") }),
        None => Err(missing("find_definition", "symbol")),
    }
}

/// Searches the files below a directory for the definition of a symbol.
#[derive(Clone, Copy, Debug, PartialEq, Eq, Structural)]
pub struct FindDefinitionTool;

impl Tool for FindDefinitionTool {
    open spec fn label(&self) -> Seq<char> {
        "find_definition"@
    }

    open spec fn answers(&self, args: Seq<char>, outcome: Result<ToolCall, String>) -> bool {
        let symbol = json::json_string(args, "symbol"@);
        let root = json::json_string(args, "root"@);
        match outcome {
            Ok(ToolCall::FindDefinition(a)) => definition_outcome(symbol, root, Ok(a)),
            Ok(_) => false,
            Err(e) => definition_outcome(symbol, root, Err(e)),
        }
    }

    fn name(&self) -> (r: &'static str) {
        "find_definition"
    }

    fn execute(&self, args: &str) -> (r: Result<ToolCall, String>) {
        match definition_arguments(string_field(args, "symbol"), string_field(args, "root")) {
            Ok(a) => Ok(ToolCall::FindDefinition(a)),
            Err(e) => Err(e),
        }
    }
}

/// A call goes to the tool that was registered last under its name; a name that no
/// tool has is an error that tells it.
pub proof fn lemma_last_registered_answers<T: Tool>(
    registry: &ToolRegistry<T>,
    name: &str,
    args: &str,
    r: Result<ToolCall, String>,
    i: int,
)
    requires
        registry.valid(),
        call_ensures(ToolRegistry::<T>::execute, (registry, name, args), r),
    ensures
        0 <= i < registry.tools@.len() && registry.tools@[i].label() == name@ && (forall|j: int|
            i < j < registry.tools@.len() ==> (#[trigger] registry.tools@[j]).label() != name@)
            ==> registry.tools@[i].answers(args@, r),
        (forall|j: int|
            0 <= j < registry.tools@.len() ==> (#[trigger] registry.tools@[j]).label() != name@)
            ==> (r matches Err(e) && e@ == "unknown tool: "@ + name@),
{
    let names = registry.names();
    lemma_last_position(names, name@);
    lemma_no_later(names, name@);
    match last_position(names, name@) {
        Some(k) => {
            assert(names[k] == registry.tools@[k].label());
            if 0 <= i < registry.tools@.len() && registry.tools@[i].label() == name@ && (forall|j: int|
                i < j < registry.tools@.len() ==> (#[trigger] registry.tools@[j]).label() != name@) {
                assert(names[i] == name@);
                assert(k == i) by {
                    if i < k {
                        assert(registry.tools@[k].label() != name@);
                    } else if k < i {
                        assert(names[i] != name@);
                    }
                }
            }
        },
        None => {
            if 0 <= i < registry.tools@.len() && registry.tools@[i].label() == name@ {
                assert(names[i] == name@);
                assert(names.contains(name@));
            }
        },
    }
}

proof fn lemma_no_later(names: Seq<Seq<char>>, name: Seq<char>)
    ensures
        last_position(names, name) matches Some(i) ==> forall|j: int|
            i < j < names.len() ==> #[trigger] names[j] != name,
    decreases names.len(),
{
    if names.len() > 0 && names.last() != name {
        let init = names.drop_last();
        lemma_no_later(init, name);
        lemma_last_position(init, name);
        match last_position(names, name) {
            Some(i) => {
                assert forall|j: int| i < j < names.len() implies #[trigger] names[j] != name by {
                    if j < init.len() {
                        assert(init[j] == names[j]);
                    }
                }
            },
            None => {},
        }
    }
}

/// The default tools are a search for text, the reading of lines, the listing of
/// symbols and the search for definitions, under their names and in this order.
pub proof fn lemma_default_tools(r: ToolRegistry<CodeTool>)
    requires
        call_ensures(ToolRegistry::<CodeTool>::with_defaults, (), r),
    ensures
        r.tools@.len() == 4,
        r.tools@[0] is Grep && r.tools@[0].label() == "grep"@,
        r.tools@[1] is ReadChunk && r.tools@[1].label() == "read_chunk"@,
        r.tools@[2] is ListSymbols && r.tools@[2].label() == "list_symbols"@,
        r.tools@[3] is FindDefinition && r.tools@[3].label() == "find_definition"@,
{
}

/// A search for text needs a query; it starts in the current directory and ends
/// after 50 matches where nothing else is asked for.
pub proof fn lemma_grep_arguments(
    query: Option<String>,
    path: Option<String>,
    max_results: Option<u64>,
    r: Result<GrepArgs, String>,
)
    requires
        call_ensures(grep_arguments, (query, path, max_results), r),
    ensures
        r is Ok <==> query is Some,
        r matches Err(e) ==> e@ == "grep"@ + ": missing required arg '"@ + "query"@ + "'"@,
        r matches Ok(a) ==> {
            &&& query matches Some(q) && a.query@ == q@
            &&& path matches Some(p) ==> a.path@ == p@
            &&& path is None ==> a.path@ == "."@
            &&& max_results matches Some(n) ==> (n <= usize::MAX ==> a.max_results == n)
            &&& max_results is None ==> a.max_results == 50
        },
{
}

/// A range of lines needs a path, a start and an end; the start is at least one and
/// the end not before it.
pub proof fn lemma_chunk_arguments(
    path: Option<String>,
    start: Option<u64>,
    end: Option<u64>,
    r: Result<ChunkArgs, String>,
)
    requires
        call_ensures(chunk_arguments, (path, start, end), r),
        start matches Some(s) ==> s <= usize::MAX,
        end matches Some(e) ==> e <= usize::MAX,
    ensures
        r is Ok <==> (path is Some && (start matches Some(s) && (end matches Some(e) && 1 <= s
            && s <= e))),
        r matches Ok(a) ==> (path matches Some(p) && a.path@ == p@) && start == Some(
            a.start as u64,
        ) && end == Some(a.end as u64),
{
}

/// A search for a definition needs a symbol; it starts in the current directory
/// where nothing else is asked for.
pub proof fn lemma_definition_arguments(
    symbol: Option<String>,
    root: Option<String>,
    r: Result<DefinitionArgs, String>,
)
    requires
        call_ensures(definition_arguments, (symbol, root), r),
    ensures
        r is Ok <==> symbol is Some,
        r matches Ok(a) ==> {
            &&& symbol matches Some(s) && a.symbol@ == s@
            &&& root matches Some(p) ==> a.root@ == p@
            &&& root is None ==> a.root@ == "."@
        },
{
}

/// What is searched below a directory: every directory but the hidden ones and
/// those of build products, later, in the reverse of the order in which they were
/// found; and every file of at most four mebibytes, now.
pub proof fn lemma_walk_visits(
    walk: &mut TextWalk,
    path: &str,
    kind: EntryKind,
    read: bool,
    name: &str,
    skip: bool,
)
    requires
        call_ensures(TextWalk::visit, (walk, path, kind), read),
        call_ensures(should_skip_dir, (name,), skip),
    ensures
        skip <==> (name@.len() > 0 && name@[0] == '.') || name@ == "target"@ || name@
            == "node_modules"@ || name@ == "__pycache__"@,
        read <==> (kind matches EntryKind::File(n) && n <= 4 * 1024 * 1024),
        final(walk).style == old(walk).style,
        kind is Directory && paths::file_name(old(walk).style, path@) == Some(name@) && !skip
            ==> text::views(final(walk).stack@) == text::views(old(walk).stack@).push(path@),
        !(kind is Directory) || (paths::file_name(old(walk).style, path@) == Some(name@) && skip)
            ==> text::views(final(walk).stack@) == text::views(old(walk).stack@),
{
    reveal_strlit(".git");
    reveal_strlit(".next");
    reveal_strlit(".venv");
    assert(".git"@[0] == '.' && ".next"@[0] == '.' && ".venv"@[0] == '.');
}

/// The next directory is the one that was found last; there is none where all were
/// read.
pub proof fn lemma_walk_goes_on(walk: &mut TextWalk, r: Option<String>)
    requires
        call_ensures(TextWalk::next_directory, (walk,), r),
    ensures
        r is None <==> old(walk).stack@.len() == 0,
        r matches Some(d) ==> d@ == text::views(old(walk).stack@).last() && text::views(
            final(walk).stack@,
        ) == text::views(old(walk).stack@).drop_last(),
{
    match r {
        Some(d) => {
            let left = text::views(final(walk).stack@);
            assert(text::views(old(walk).stack@) == left.push(d@));
            assert(text::views(old(walk).stack@).len() == old(walk).stack@.len());
            assert(left.push(d@).drop_last() == left);
        },
        None => {},
    }
}

/// Seen from a root, a call asks for the same of the path that leads there from the
/// root.
pub proof fn lemma_calls_are_rooted(
    call: ToolCall,
    style: PathStyle,
    root: &str,
    path: &str,
    from_root: String,
    r: ToolCall,
)
    requires
        match call {
            ToolCall::Grep(a) => path@ == a.path@,
            ToolCall::ReadChunk(a) => path@ == a.path@,
            ToolCall::ListSymbols(p) => path@ == p@,
            ToolCall::FindDefinition(a) => path@ == a.root@,
            ToolCall::Done(_) => true,
        },
        call_ensures(path_from_root, (style, root, path), from_root),
        call_ensures(ToolCall::from_root, (call, style, root), r),
    ensures
        match (call, r) {
            (ToolCall::Grep(a), ToolCall::Grep(b)) => b.path@ == from_root@ && b.query == a.query
                && b.max_results == a.max_results,
            (ToolCall::ReadChunk(a), ToolCall::ReadChunk(b)) => b.path@ == from_root@ && b.start
                == a.start && b.end == a.end,
            (ToolCall::ListSymbols(a), ToolCall::ListSymbols(b)) => b@ == from_root@,
            (ToolCall::FindDefinition(a), ToolCall::FindDefinition(b)) => b.root@ == from_root@
                && b.symbol == a.symbol,
            (ToolCall::Done(a), ToolCall::Done(b)) => a == b,
            _ => false,
        },
{
}

/// What is missing or out of order among the arguments of a range of lines is told.
pub proof fn lemma_wrong_range_is_told(
    path: Option<String>,
    start: Option<u64>,
    end: Option<u64>,
    e: String,
)
    requires
        call_ensures(chunk_arguments, (path, start, end), Err(e)),
        start matches Some(s) ==> s <= usize::MAX,
        end matches Some(s) ==> s <= usize::MAX,
    ensures
        path is None ==> e@ == missing_argument("read_chunk"@, "path"@),
        path is Some && start is None ==> e@ == missing_argument("read_chunk"@, "start"@),
        path is Some && start is Some && end is None ==> e@ == missing_argument(
            "read_chunk"@,
            "end"@,
        ),
        path is Some && end is Some && start == Some(0u64) ==> e@
            == "read_chunk: 'start' is 1-indexed (got 0)"@,
        path is Some && start is Some && end is Some && start->Some_0 > 0 ==> e@
            == "read_chunk: 'end' ("@ + text::decimal(end->Some_0 as nat)
            + ") must be >= 'start' ("@ + text::decimal(start->Some_0 as nat) + ")"@,
{
}

} // verus!
