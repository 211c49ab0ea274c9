//! What the retrieval tools find in the text of files, and their results as
//! JSON text with the keys of each object in order.
use crate::json::{self, literal};
use crate::paths::{self, path_extension, PathStyle};
use crate::symbols::{self, extract_symbols, is_definition, Symbol, SymbolData, Syntax};
use crate::text::{
    self, chars_of, decimal_string, find, join, split_lines, str_eq, string_copy, string_of,
    to_lowercase, trimmed,
};
use crate::tools::{ChunkArgs, DefinitionArgs, GrepArgs};
use vstd::prelude::*;

verus! {

/// A line that a search found: the file, the line, counted from one, and its
/// text without white space at either end.
#[derive(Debug)]
pub struct LineMatch {
    pub file: String,
    pub line: usize,
    pub text: String,
}

/// What a match says.
pub struct MatchData {
    pub file: Seq<char>,
    pub line: int,
    pub text: Seq<char>,
}

impl View for LineMatch {
    type V = MatchData;

    open spec fn view(&self) -> MatchData {
        MatchData { file: self.file@, line: self.line as int, text: self.text@ }
    }
}

/// The views of a list of matches.
pub open spec fn match_views(list: Seq<LineMatch>) -> Seq<MatchData> {
    list.map_values(|m: LineMatch| m@)
}

/// What a search looks for.
pub enum LineTest {
    /// Lines that contain a text.
    Contains(Seq<char>),
    /// Lines that define a symbol.
    Defines(Seq<char>),
}

impl LineTest {
    /// Whether a line is one of those.
    pub open spec fn passes(self, line: Seq<char>) -> bool {
        match self {
            LineTest::Contains(query) => text::contains_str(line, query),
            LineTest::Defines(symbol) => symbols::defines(text::trim(line), symbol),
        }
    }
}

/// The lines of a file that a search looks for, in order.
pub open spec fn found_lines(
    file: Seq<char>,
    lines: Seq<Seq<char>>,
    test: LineTest,
) -> Seq<MatchData>
    decreases lines.len(),
{
    if lines.len() == 0 {
        seq![]
    } else {
        let before = found_lines(file, lines.drop_last(), test);
        if test.passes(lines.last()) {
            before.push(
                MatchData { file, line: lines.len() as int, text: text::trim(lines.last()) },
            )
        } else {
            before
        }
    }
}

/// The matches of the first lines are the first matches.
proof fn lemma_found_prefix(file: Seq<char>, lines: Seq<Seq<char>>, test: LineTest, k: int)
    requires
        0 <= k <= lines.len(),
    ensures
        found_lines(file, lines.take(k), test).len() <= found_lines(file, lines, test).len(),
        found_lines(file, lines, test).take(found_lines(file, lines.take(k), test).len() as int)
            == found_lines(file, lines.take(k), test),
    decreases lines.len(),
{
    if k < lines.len() {
        let init = lines.drop_last();
        lemma_found_prefix(file, init, test, k);
        assert(init.take(k) == lines.take(k));
        let part = found_lines(file, lines.take(k), test);
        let before = found_lines(file, init, test);
        let all = found_lines(file, lines, test);
        assert(all.take(part.len() as int) == before.take(part.len() as int));
    } else {
        assert(lines.take(k) == lines);
        let all = found_lines(file, lines, test);
        assert(all.take(all.len() as int) == all);
    }
}

/// A search finds the lines that it looks for, each once, in order, and no
/// others: every match is such a line of the file, matches have increasing
/// line numbers, and every such line is matched.
pub proof fn lemma_found_lines_exact(file: Seq<char>, lines: Seq<Seq<char>>, test: LineTest)
    ensures
        forall|i: int|
            0 <= i < found_lines(file, lines, test).len() ==> {
                let m = #[trigger] found_lines(file, lines, test)[i];
                &&& m.file == file
                &&& 1 <= m.line <= lines.len()
                &&& test.passes(lines[m.line - 1])
                &&& m.text == text::trim(lines[m.line - 1])
            },
        forall|i: int, j: int|
            0 <= i < j < found_lines(file, lines, test).len() ==> (#[trigger] found_lines(
                file,
                lines,
                test,
            )[i]).line < (#[trigger] found_lines(file, lines, test)[j]).line,
        forall|n: int|
            0 <= n < lines.len() && test.passes(#[trigger] lines[n]) ==> found_lines(
                file,
                lines,
                test,
            ).contains(MatchData { file, line: n + 1, text: text::trim(lines[n]) }),
    decreases lines.len(),
{
    if lines.len() > 0 {
        let init = lines.drop_last();
        lemma_found_lines_exact(file, init, test);
        let before = found_lines(file, init, test);
        let all = found_lines(file, lines, test);
        assert forall|i: int| 0 <= i < all.len() implies {
            let m = #[trigger] all[i];
            &&& m.file == file
            &&& 1 <= m.line <= lines.len()
            &&& test.passes(lines[m.line - 1])
            &&& m.text == text::trim(lines[m.line - 1])
        } by {
            if i < before.len() {
                assert(all[i] == before[i]);
                assert(init[before[i].line - 1] == lines[before[i].line - 1]);
            }
        }
        assert forall|i: int, j: int| 0 <= i < j < all.len() implies (#[trigger] all[i]).line < (
        #[trigger] all[j]).line by {
            assert(all[i] == before[i]);
            if j < before.len() {
                assert(all[j] == before[j]);
            }
        }
        assert forall|n: int| 0 <= n < lines.len() && test.passes(#[trigger] lines[n]) implies
            all.contains(MatchData { file, line: n + 1, text: text::trim(lines[n]) }) by {
            let m = MatchData { file, line: n + 1, text: text::trim(lines[n]) };
            if n < init.len() {
                assert(init[n] == lines[n]);
                assert(before.contains(m));
                let i = choose|i: int| 0 <= i < before.len() && before[i] == m;
                assert(all[i] == m);
            } else {
                assert(all[before.len() as int] == m);
            }
        }
    }
}

/// A JSON list of the given elements.
pub open spec fn list_json(elements: Seq<Seq<char>>) -> Seq<char> {
    "["@ + text::joined(elements, ","@) + "]"@
}

fn list_text(elements: &[String]) -> (r: String)
    ensures
        r@ == list_json(text::views(elements@)),
{
    let mut r = string_copy("[");
    r.append(join(elements, ",").as_str());
    r.append("]");
    r
}

/// A match as a JSON object, with its text under the given key.
pub open spec fn match_json(m: MatchData, key: Seq<char>) -> Seq<char> {
    "{\"file\":"@ + json::json_literal(m.file) + ",\"line\":"@ + text::decimal(m.line as nat)
        + ","@ + key + json::json_literal(m.text) + "}"@
}

/// The matches as a JSON list.
pub open spec fn matches_json(list: Seq<MatchData>, key: Seq<char>) -> Seq<char> {
    list_json(list.map_values(|m: MatchData| match_json(m, key)))
}

fn matches_text(list: &[LineMatch], key: &str) -> (r: String)
    ensures
        r@ == matches_json(match_views(list@), key@),
{
    let mut elements: Vec<String> = Vec::new();
    let ghost all = match_views(list@).map_values(|m: MatchData| match_json(m, key@));
    for i in 0..list.len()
        invariant
            all == match_views(list@).map_values(|m: MatchData| match_json(m, key@)),
            text::views(elements@) == all.take(i as int),
    {
        let ghost before = elements@;
        let m = &list[i];
        let mut e = string_copy("{\"file\":");
        e.append(literal(m.file.as_str()).as_str());
        e.append(",\"line\":");
        e.append(decimal_string(m.line as u64).as_str());
        e.append(",");
        e.append(key);
        e.append(literal(m.text.as_str()).as_str());
        e.append("}");
        assert(e@ == match_json(m@, key@));
        elements.push(e);
        assert(text::views(elements@) == text::views(before).push(e@));
        assert(all.take(i + 1) == all.take(i as int).push(all[i as int]));
    }
    assert(all.take(list@.len() as int) == all);
    list_text(elements.as_slice())
}

/// State of a search for lines that contain a text.
pub struct GrepScan {
    pub query: String,
    pub max_results: usize,
    pub matches: Vec<LineMatch>,
    /// The search ended because there are enough matches.
    pub truncated: bool,
}

impl GrepScan {
    /// There are never more matches than asked for, and fewer while the search
    /// goes on, unless none was asked for.
    pub open spec fn valid(self) -> bool {
        &&& self.matches@.len() <= self.max_results
        &&& !self.truncated ==> self.matches@.len() < self.max_results || self.max_results == 0
    }

    /// A search that has seen no file.
    pub fn new(args: &GrepArgs) -> (r: Self)
        ensures
            r.valid(),
            r.query@ == args.query@,
            r.max_results == args.max_results,
            r.matches@.len() == 0,
            !r.truncated,
    {
        GrepScan {
            query: string_copy(args.query.as_str()),
            max_results: args.max_results,
            matches: Vec::new(),
            truncated: false,
        }
    }

    /// Searches a file. Its matching lines are added until there are as many
    /// matches as asked for; then the search is over.
    pub fn feed(&mut self, file: &str, content: &str)
        requires
            old(self).valid(),
        ensures
            final(self).valid(),
            final(self).query == old(self).query,
            final(self).max_results == old(self).max_results,
            old(self).truncated ==> *final(self) == *old(self),
            !old(self).truncated ==> {
                let found = found_lines(
                    file@,
                    text::lines(content@),
                    LineTest::Contains(old(self).query@),
                );
                let room = old(self).max_results - old(self).matches@.len();
                &&& match_views(final(self).matches@) == match_views(old(self).matches@) + (
                if found.len() <= room {
                    found
                } else {
                    found.take(room)
                })
                &&& final(self).truncated == (found.len() > 0 && found.len() >= room)
            },
    {
        if self.truncated {
            return ;
        }
        let ghost before = *self;
        let ghost room = before.max_results - before.matches@.len();
        let chars = chars_of(content);
        let lines = split_lines(chars.as_slice());
        let query = chars_of(self.query.as_str());
        let ghost test = LineTest::Contains(query@);
        let ghost all = text::lines(content@);
        let ghost found = found_lines(file@, all, test);
        let ghost earlier = match_views(before.matches@);
        assert(all.take(0) == Seq::<Seq<char>>::empty());
        assert(earlier + Seq::<MatchData>::empty() == earlier);
        for i in 0..lines.len()
            invariant
                text::slice_views(lines@) == all,
                all == text::lines(content@),
                query@ == before.query@,
                test == LineTest::Contains(query@),
                found == found_lines(file@, all, test),
                earlier == match_views(before.matches@),
                room == before.max_results - before.matches@.len(),
                before == *old(self),
                before.valid(),
                !before.truncated,
                self.valid(),
                !self.truncated,
                self.query == before.query,
                self.max_results == before.max_results,
                match_views(self.matches@) == earlier + found_lines(
                    file@,
                    all.take(i as int),
                    test,
                ),
        {
            assert(all.take(i + 1).drop_last() == all.take(i as int));
            assert(all[i as int] == lines@[i as int]@);
            assert(match_views(self.matches@).len() == self.matches@.len());
            if find(lines[i], query.as_slice()).is_some() {
                let ghost next = found_lines(file@, all.take(i + 1), test);
                proof {
                    lemma_found_prefix(file@, all, test, i + 1);
                }
                if self.matches.len() < self.max_results {
                    let ghost old_matches = self.matches@;
                    let m = LineMatch {
                        file: string_copy(file),
                        line: i + 1,
                        text: string_of(trimmed(lines[i])),
                    };
                    self.matches.push(m);
                    assert(match_views(self.matches@) == match_views(old_matches).push(m@));
                    assert(match_views(self.matches@) == earlier + next);
                }
                if self.matches.len() >= self.max_results {
                    self.truncated = true;
                    proof {
                        if before.max_results == 0 {
                            assert(found.take(0) == Seq::<MatchData>::empty());
                        } else {
                            assert(next.len() == room);
                            assert(found.take(room) == next);
                        }
                    }
                    return ;
                }
            }
        }
        assert(all.take(lines@.len() as int) == all);
    }

    /// The result as JSON text.
    pub open spec fn json(self) -> Seq<char> {
        "{\"matches\":"@ + matches_json(match_views(self.matches@), "\"text\":"@)
            + ",\"truncated\":"@ + (if self.truncated {
            "true"@
        } else {
            "false"@
        }) + "}"@
    }

    /// Writes the result as JSON text.
    pub fn to_json(&self) -> (r: String)
        ensures
            r@ == self.json(),
    {
        let mut r = string_copy("{\"matches\":");
        r.append(matches_text(self.matches.as_slice(), "\"text\":").as_str());
        r.append(",\"truncated\":");
        if self.truncated {
            r.append("true");
        } else {
            r.append("false");
        }
        r.append("}");
        r
    }
}

/// State of a search for the definitions of a symbol.
pub struct DefinitionScan {
    pub symbol: String,
    pub matches: Vec<LineMatch>,
}

impl DefinitionScan {
    /// A search that has seen no file.
    pub fn new(args: &DefinitionArgs) -> (r: Self)
        ensures
            r.symbol@ == args.symbol@,
            r.matches@.len() == 0,
    {
        DefinitionScan { symbol: string_copy(args.symbol.as_str()), matches: Vec::new() }
    }

    /// Searches a file: the lines that define the symbol are added.
    pub fn feed(&mut self, file: &str, content: &str)
        ensures
            final(self).symbol == old(self).symbol,
            match_views(final(self).matches@) == match_views(old(self).matches@) + found_lines(
                file@,
                text::lines(content@),
                LineTest::Defines(old(self).symbol@),
            ),
    {
        let ghost before = *self;
        let chars = chars_of(content);
        let lines = split_lines(chars.as_slice());
        let symbol = chars_of(self.symbol.as_str());
        let ghost test = LineTest::Defines(symbol@);
        let ghost all = text::lines(content@);
        let ghost earlier = match_views(before.matches@);
        assert(all.take(0) == Seq::<Seq<char>>::empty());
        assert(earlier + Seq::<MatchData>::empty() == earlier);
        for i in 0..lines.len()
            invariant
                text::slice_views(lines@) == all,
                symbol@ == before.symbol@,
                test == LineTest::Defines(symbol@),
                earlier == match_views(before.matches@),
                before == *old(self),
                self.symbol == before.symbol,
                match_views(self.matches@) == earlier + found_lines(
                    file@,
                    all.take(i as int),
                    test,
                ),
        {
            assert(all.take(i + 1).drop_last() == all.take(i as int));
            assert(all[i as int] == lines@[i as int]@);
            let line = trimmed(lines[i]);
            if is_definition(line, symbol.as_slice()) {
                let ghost old_matches = self.matches@;
                let m = LineMatch { file: string_copy(file), line: i + 1, text: string_of(line) };
                self.matches.push(m);
                assert(match_views(self.matches@) == match_views(old_matches).push(m@));
                assert(match_views(self.matches@) == earlier + found_lines(
                    file@,
                    all.take(i + 1),
                    test,
                ));
            }
        }
        assert(all.take(lines@.len() as int) == all);
    }

    /// The result as JSON text.
    pub open spec fn json(self) -> Seq<char> {
        "{\"matches\":"@ + matches_json(match_views(self.matches@), "\"snippet\":"@) + "}"@
    }

    /// Writes the result as JSON text.
    pub fn to_json(&self) -> (r: String)
        ensures
            r@ == self.json(),
    {
        let mut r = string_copy("{\"matches\":");
        r.append(matches_text(self.matches.as_slice(), "\"snippet\":").as_str());
        r.append("}");
        r
    }
}

/// A range of lines of a file.
#[derive(Debug)]
pub struct ChunkText {
    pub path: String,
    pub start: usize,
    pub end: usize,
    pub text: String,
    pub total_lines: usize,
}

/// The smaller of two numbers.
pub open spec fn smaller(a: int, b: int) -> int {
    if a < b {
        a
    } else {
        b
    }
}

/// The text of the lines from `start` to `end`, counted from one, both
/// included, as far as there are that many lines.
pub open spec fn range_text(lines: Seq<Seq<char>>, start: int, end: int) -> Seq<char> {
    let n = lines.len() as int;
    text::joined(lines.subrange(smaller(start - 1, n), smaller(end, n)), "\n"@)
}

/// Reads a range of lines from the content of a file. The end is cut to the
/// number of lines.
pub fn read_lines(args: &ChunkArgs, content: &str) -> (r: ChunkText)
    requires
        args.valid(),
    ensures
        r.path@ == args.path@,
        r.start == args.start,
        r.total_lines == text::lines(content@).len(),
        r.end == smaller(args.end as int, r.total_lines as int),
        r.text@ == range_text(text::lines(content@), args.start as int, args.end as int),
{
    let chars = chars_of(content);
    let lines = split_lines(chars.as_slice());
    let ghost all = text::lines(content@);
    let total: usize = lines.len();
    let from: usize = if args.start - 1 < total {
        args.start - 1
    } else {
        total
    };
    let to: usize = if args.end < total {
        args.end
    } else {
        total
    };
    let mut parts: Vec<String> = Vec::new();
    let ghost wanted = all.subrange(from as int, to as int);
    for i in from..to
        invariant
            from <= to <= lines@.len(),
            text::slice_views(lines@) == all,
            wanted == all.subrange(from as int, to as int),
            text::views(parts@) == wanted.take(i - from),
    {
        let ghost before = parts@;
        let part = string_of(lines[i]);
        assert(all[i as int] == lines@[i as int]@);
        parts.push(part);
        assert(text::views(parts@) == text::views(before).push(part@));
        assert(wanted.take(i - from + 1) == wanted.take(i - from).push(wanted[i - from]));
    }
    assert(wanted.take(to - from) == wanted);
    ChunkText {
        path: string_copy(args.path.as_str()),
        start: args.start,
        end: to,
        text: join(parts.as_slice(), "\n"),
        total_lines: total,
    }
}

/// Two adjacent ranges of lines, the second of which begins inside the file,
/// are together the whole range.
pub proof fn lemma_adjacent_ranges(lines: Seq<Seq<char>>, start: int, middle: int, end: int)
    requires
        1 <= start <= middle < end,
        middle < lines.len(),
    ensures
        range_text(lines, start, end) == range_text(lines, start, middle) + "\n"@ + range_text(
            lines,
            middle + 1,
            end,
        ),
{
    let n = lines.len() as int;
    let a = lines.subrange(start - 1, middle);
    let b = lines.subrange(middle, smaller(end, n));
    assert(lines.subrange(start - 1, smaller(end, n)) == a + b);
    text::lemma_joined_concat(a, b, "\n"@);
}

impl ChunkText {
    /// The result as JSON text.
    pub open spec fn json(self) -> Seq<char> {
        "{\"end\":"@ + text::decimal(self.end as nat) + ",\"path\":"@ + json::json_literal(
            self.path@,
        ) + ",\"start\":"@ + text::decimal(self.start as nat) + ",\"text\":"@
            + json::json_literal(self.text@) + ",\"total_lines\":"@ + text::decimal(
            self.total_lines as nat,
        ) + "}"@
    }

    /// Writes the result as JSON text.
    pub fn to_json(&self) -> (r: String)
        ensures
            r@ == self.json(),
    {
        let mut r = string_copy("{\"end\":");
        r.append(decimal_string(self.end as u64).as_str());
        r.append(",\"path\":");
        r.append(literal(self.path.as_str()).as_str());
        r.append(",\"start\":");
        r.append(decimal_string(self.start as u64).as_str());
        r.append(",\"text\":");
        r.append(literal(self.text.as_str()).as_str());
        r.append(",\"total_lines\":");
        r.append(decimal_string(self.total_lines as u64).as_str());
        r.append("}");
        r
    }
}

/// The syntax that an extension in lower case tells; that of Rust where it
/// tells none.
pub open spec fn syntax_of(extension: Seq<char>) -> Syntax {
    if extension == "py"@ {
        Syntax::Python
    } else if extension == "js"@ || extension == "ts"@ || extension == "jsx"@ || extension
        == "tsx"@ {
        Syntax::JavaScript
    } else if extension == "go"@ {
        Syntax::Go
    } else {
        Syntax::Rust
    }
}

/// The syntax of a file by its extension in lower case.
pub fn syntax_for(extension: &str) -> (r: Syntax)
    ensures
        r == syntax_of(extension@),
{
    if str_eq(extension, "py") {
        Syntax::Python
    } else if str_eq(extension, "js") || str_eq(extension, "ts") || str_eq(extension, "jsx")
        || str_eq(extension, "tsx") {
        Syntax::JavaScript
    } else if str_eq(extension, "go") {
        Syntax::Go
    } else {
        Syntax::Rust
    }
}

/// The extension of a path in lower case, or nothing.
pub open spec fn lower_extension(style: PathStyle, path: Seq<char>) -> Seq<char> {
    match paths::extension(style, path) {
        Some(e) => text::lowercase(e),
        None => seq![],
    }
}

/// The definitions in the content of a file, in the syntax that the extension
/// of its path tells.
pub fn list_symbols(style: PathStyle, path: &str, content: &str) -> (r: Vec<Symbol>)
    ensures
        symbols::symbol_views(r@) == symbols::definitions(
            text::lines(content@),
            syntax_of(lower_extension(style, path@)),
        ),
{
    let extension = match path_extension(style, path) {
        Some(e) => to_lowercase(e.as_str()),
        None => String::new(),
    };
    assert(extension@ == lower_extension(style, path@));
    extract_symbols(content, syntax_for(extension.as_str()))
}

/// A definition as a JSON object.
pub open spec fn symbol_json(s: SymbolData) -> Seq<char> {
    "{\"kind\":\""@ + s.kind.name() + "\",\"line\":"@ + text::decimal(s.line as nat)
        + ",\"name\":"@ + json::json_literal(s.name) + "}"@
}

/// Definitions as the JSON text of a result.
pub open spec fn symbols_json(list: Seq<SymbolData>) -> Seq<char> {
    "{\"symbols\":"@ + list_json(list.map_values(|s: SymbolData| symbol_json(s))) + "}"@
}

/// Writes definitions as the JSON text of a result.
pub fn symbols_to_json(list: &[Symbol]) -> (r: String)
    ensures
        r@ == symbols_json(symbols::symbol_views(list@)),
{
    let mut elements: Vec<String> = Vec::new();
    let ghost all = symbols::symbol_views(list@).map_values(|s: SymbolData| symbol_json(s));
    for i in 0..list.len()
        invariant
            all == symbols::symbol_views(list@).map_values(|s: SymbolData| symbol_json(s)),
            text::views(elements@) == all.take(i as int),
    {
        let ghost before = elements@;
        let s = &list[i];
        let mut e = string_copy("{\"kind\":\"");
        e.append(s.kind.as_str());
        e.append("\",\"line\":");
        e.append(decimal_string(s.line as u64).as_str());
        e.append(",\"name\":");
        e.append(literal(s.name.as_str()).as_str());
        e.append("}");
        assert(e@ == symbol_json(s@));
        elements.push(e);
        assert(text::views(elements@) == text::views(before).push(e@));
        assert(all.take(i + 1) == all.take(i as int).push(all[i as int]));
    }
    assert(all.take(list@.len() as int) == all);
    let mut r = string_copy("{\"symbols\":");
    r.append(list_text(elements.as_slice()).as_str());
    r.append("}");
    r
}

/// A line contains a text: it has that text somewhere, letter for letter.
pub open spec fn has_text(line: Seq<char>, query: Seq<char>) -> bool {
    exists|i: int|
        0 <= i && i + query.len() <= line.len() && #[trigger] line.subrange(i, i + query.len())
            == query
}

proof fn lemma_has_text(line: Seq<char>, query: Seq<char>)
    ensures
        text::contains_str(line, query) <==> has_text(line, query),
{
    text::lemma_find_from(line, query, 0);
    if has_text(line, query) {
        let i = choose|i: int|
            0 <= i && i + query.len() <= line.len() && #[trigger] line.subrange(
                i,
                i + query.len(),
            ) == query;
        assert(text::occurs_at(line, query, i));
    }
    match text::find_str(line, query) {
        Some(i) => {
            assert(line.subrange(i, i + query.len()) == query);
        },
        None => {},
    }
}

/// A search for a text goes through the lines of a file in order. What it had found
/// stays; behind it comes every line that contains the text, with the file, its
/// number, counted from one, and its text without white space at either end, and
/// nothing else, until there are as many matches as asked for. Exactly then the
/// search is over, and no later file adds anything.
pub proof fn lemma_grep_finds_lines(scan: &mut GrepScan, file: &str, content: &str)
    requires
        old(scan).valid(),
        call_ensures(GrepScan::feed, (scan, file, content), ()),
    ensures
        old(scan).truncated ==> *final(scan) == *old(scan),
        ({
            let lines = text::lines(content@);
            let query = old(scan).query@;
            let had = old(scan).matches@.len();
            let all = final(scan).matches@;
            &&& all.len() >= had
            &&& all.len() <= old(scan).max_results
            &&& forall|k: int| 0 <= k < had ==> (#[trigger] all[k])@ == old(scan).matches@[k]@
            &&& forall|k: int|
                had <= k < all.len() ==> {
                    let m = #[trigger] all[k];
                    &&& m.file@ == file@
                    &&& 1 <= m.line <= lines.len()
                    &&& has_text(lines[m.line - 1], query)
                    &&& m.text@ == text::trim(lines[m.line - 1])
                }
            &&& forall|k: int, l: int|
                had <= k < l < all.len() ==> (#[trigger] all[k]).line < (#[trigger] all[l]).line
            &&& !old(scan).truncated ==> forall|n: int|
                0 <= n < lines.len() && has_text(#[trigger] lines[n], query) && (
                !final(scan).truncated || (all.len() > had && n + 1 < all.last().line))
                    ==> exists|k: int| had <= k < all.len() && (#[trigger] all[k]).line == n + 1
            &&& !old(scan).truncated && old(scan).max_results > 0 ==> (final(scan).truncated
                <==> all.len() == old(scan).max_results)
        }),
{
    let lines = text::lines(content@);
    let test = LineTest::Contains(old(scan).query@);
    let found = found_lines(file@, lines, test);
    let before = match_views(old(scan).matches@);
    let after = match_views(final(scan).matches@);
    let had = old(scan).matches@.len() as int;
    let all = final(scan).matches@;
    lemma_found_lines_exact(file@, lines, test);
    assert forall|n: int| 0 <= n < lines.len() implies (has_text(lines[n], old(scan).query@)
        <==> test.passes(#[trigger] lines[n])) by {
        lemma_has_text(lines[n], old(scan).query@);
    }
    assert(after.len() == all.len() && before.len() == had);
    if !old(scan).truncated {
        assert forall|k: int| 0 <= k < had implies (#[trigger] all[k])@ == old(scan).matches@[k]@ by {
            assert(after[k] == before[k]);
            assert(after[k] == all[k]@);
        }
        assert forall|k: int| had <= k < all.len() implies (#[trigger] all[k])@ == found[k - had] by {
            assert(after[k] == all[k]@);
            assert(after[k] == found[k - had]);
        }
        assert forall|k: int| had <= k < all.len() implies {
            let m = #[trigger] all[k];
            &&& m.file@ == file@
            &&& 1 <= m.line <= lines.len()
            &&& has_text(lines[m.line - 1], old(scan).query@)
            &&& m.text@ == text::trim(lines[m.line - 1])
        } by {
            assert(all[k]@ == found[k - had]);
            assert(test.passes(lines[found[k - had].line - 1]));
        }
        assert forall|k: int, l: int| had <= k < l < all.len() implies (#[trigger] all[k]).line < (
        #[trigger] all[l]).line by {
            assert(all[k]@ == found[k - had]);
            assert(all[l]@ == found[l - had]);
            assert(found[k - had].line < found[l - had].line);
        }
        assert forall|n: int|
            0 <= n < lines.len() && has_text(#[trigger] lines[n], old(scan).query@) && (
            !final(scan).truncated || (all.len() > had && n + 1 < all.last().line)) implies exists|k:
            int| had <= k < all.len() && (#[trigger] all[k]).line == n + 1 by {
            assert(test.passes(lines[n]));
            let m = MatchData { file: file@, line: n + 1, text: text::trim(lines[n]) };
            assert(found.contains(m));
            let j = choose|j: int| 0 <= j < found.len() && found[j] == m;
            let shown = all.len() - had;
            if j >= shown {
                if final(scan).truncated {
                    assert(all[all.len() - 1]@ == found[shown - 1]);
                    assert(found[shown - 1].line < found[j].line || shown - 1 == j);
                }
            }
            assert(j < shown);
            assert(all[j + had]@ == found[j]);
            assert(all[j + had].line == n + 1);
        }
    }
}

/// A search for definitions adds, for each line of a file that defines the symbol
/// and for no other, the file, the number of the line, counted from one, and its
/// text without white space at either end, in order.
pub proof fn lemma_definitions_are_found(scan: &mut DefinitionScan, file: &str, content: &str)
    requires
        call_ensures(DefinitionScan::feed, (scan, file, content), ()),
    ensures
        ({
            let lines = text::lines(content@);
            let symbol = old(scan).symbol@;
            let had = old(scan).matches@.len();
            let all = final(scan).matches@;
            &&& all.len() >= had
            &&& forall|k: int| 0 <= k < had ==> (#[trigger] all[k])@ == old(scan).matches@[k]@
            &&& forall|k: int|
                had <= k < all.len() ==> {
                    let m = #[trigger] all[k];
                    &&& m.file@ == file@
                    &&& 1 <= m.line <= lines.len()
                    &&& symbols::defines(text::trim(lines[m.line - 1]), symbol)
                    &&& m.text@ == text::trim(lines[m.line - 1])
                }
            &&& forall|k: int, l: int|
                had <= k < l < all.len() ==> (#[trigger] all[k]).line < (#[trigger] all[l]).line
            &&& forall|n: int|
                0 <= n < lines.len() && symbols::defines(text::trim(#[trigger] lines[n]), symbol)
                    ==> exists|k: int| had <= k < all.len() && (#[trigger] all[k]).line == n + 1
        }),
{
    let lines = text::lines(content@);
    let test = LineTest::Defines(old(scan).symbol@);
    let found = found_lines(file@, lines, test);
    let before = match_views(old(scan).matches@);
    let after = match_views(final(scan).matches@);
    let had = old(scan).matches@.len() as int;
    let all = final(scan).matches@;
    lemma_found_lines_exact(file@, lines, test);
    assert(after.len() == all.len() && before.len() == had);
    assert forall|k: int| 0 <= k < had implies (#[trigger] all[k])@ == old(scan).matches@[k]@ by {
        assert(after[k] == before[k]);
        assert(after[k] == all[k]@);
    }
    assert forall|k: int| had <= k < all.len() implies (#[trigger] all[k])@ == found[k - had] by {
        assert(after[k] == all[k]@);
        assert(after[k] == found[k - had]);
    }
    assert forall|k: int| had <= k < all.len() implies {
        let m = #[trigger] all[k];
        &&& m.file@ == file@
        &&& 1 <= m.line <= lines.len()
        &&& symbols::defines(text::trim(lines[m.line - 1]), old(scan).symbol@)
        &&& m.text@ == text::trim(lines[m.line - 1])
    } by {
        assert(all[k]@ == found[k - had]);
        assert(test.passes(lines[found[k - had].line - 1]));
    }
    assert forall|k: int, l: int| had <= k < l < all.len() implies (#[trigger] all[k]).line < (
    #[trigger] all[l]).line by {
        assert(all[k]@ == found[k - had]);
        assert(all[l]@ == found[l - had]);
        assert(found[k - had].line < found[l - had].line);
    }
    assert forall|n: int|
        0 <= n < lines.len() && symbols::defines(
            text::trim(#[trigger] lines[n]),
            old(scan).symbol@,
        ) implies exists|k: int| had <= k < all.len() && (#[trigger] all[k]).line == n + 1 by {
        assert(test.passes(lines[n]));
        let m = MatchData { file: file@, line: n + 1, text: text::trim(lines[n]) };
        assert(found.contains(m));
        let j = choose|j: int| 0 <= j < found.len() && found[j] == m;
        assert(all[j + had]@ == found[j]);
        assert(all[j + had].line == n + 1);
    }
}

/// A range of one line inside a file is that line; a range behind the end is empty.
/// The end is the one asked for, but no further than the last line.
pub proof fn lemma_one_line_is_read(args: &ChunkArgs, content: &str, r: ChunkText)
    requires
        args.valid(),
        call_ensures(read_lines, (args, content), r),
    ensures
        r.path@ == args.path@,
        r.start == args.start,
        r.total_lines == text::lines(content@).len(),
        r.end == if args.end < r.total_lines {
            args.end
        } else {
            r.total_lines
        },
        args.start == args.end && args.end <= r.total_lines ==> r.text@ == text::lines(
            content@,
        )[args.start - 1],
        args.start > r.total_lines ==> r.text@.len() == 0,
{
    let lines = text::lines(content@);
    let n = lines.len() as int;
    if args.start == args.end && args.end <= r.total_lines {
        let part = lines.subrange(args.start - 1, args.end as int);
        assert(part.len() == 1 && part[0] == lines[args.start - 1]);
    }
    if args.start > r.total_lines {
        assert(lines.subrange(n, n).len() == 0);
    }
}

/// Reading a range is reading its lines up to some line, a newline, and reading the
/// rest.
pub proof fn lemma_ranges_add_up(
    whole: &ChunkArgs,
    first: &ChunkArgs,
    second: &ChunkArgs,
    content: &str,
    r: (ChunkText, ChunkText, ChunkText),
)
    requires
        whole.valid() && first.valid() && second.valid(),
        first.start == whole.start,
        second.start == first.end + 1,
        second.end == whole.end,
        first.end < text::lines(content@).len(),
        call_ensures(read_lines, (whole, content), r.0),
        call_ensures(read_lines, (first, content), r.1),
        call_ensures(read_lines, (second, content), r.2),
    ensures
        r.0.text@ == r.1.text@ + "\n"@ + r.2.text@,
{
    lemma_adjacent_ranges(
        text::lines(content@),
        whole.start as int,
        first.end as int,
        whole.end as int,
    );
}

/// Python, JavaScript and TypeScript, and Go files are known by their extensions;
/// any other file is read as Rust.
pub proof fn lemma_syntax_by_extension(extension: &str, r: Syntax)
    requires
        call_ensures(syntax_for, (extension,), r),
    ensures
        r == Syntax::Python <==> extension@ == "py"@,
        r == Syntax::Go <==> extension@ == "go"@,
        r == Syntax::JavaScript <==> (extension@ == "js"@ || extension@ == "jsx"@ || extension@
            == "ts"@ || extension@ == "tsx"@),
{
    reveal_strlit("py");
    reveal_strlit("go");
    reveal_strlit("js");
    reveal_strlit("jsx");
    reveal_strlit("ts");
    reveal_strlit("tsx");
    assert("py"@[0] == 'p' && "go"@[0] == 'g' && "js"@[0] == 'j' && "ts"@[0] == 't');
}

/// The elements of a result, each with its file, its line and its text under a key.
pub open spec fn elements_of(list: Seq<LineMatch>, key: Seq<char>) -> Seq<Seq<char>> {
    Seq::new(
        list.len(),
        |i: int|
            "{\"file\":"@ + json::json_literal(list[i].file@) + ",\"line\":"@ + text::decimal(
                list[i].line as nat,
            ) + ",\""@ + key + "\":"@ + json::json_literal(list[i].text@) + "}"@,
    )
}

proof fn lemma_elements(list: Seq<LineMatch>, key: Seq<char>, field: Seq<char>)
    requires
        field == "\""@ + key + "\":"@,
    ensures
        matches_json(match_views(list), field) == "["@ + text::joined(elements_of(list, key), ","@)
            + "]"@,
{
    reveal_strlit(",");
    reveal_strlit(",\"");
    reveal_strlit("\"");
    let views = match_views(list);
    let mapped = views.map_values(|m: MatchData| match_json(m, field));
    assert(mapped.len() == list.len());
    assert forall|i: int| 0 <= i < list.len() implies mapped[i] == elements_of(list, key)[i] by {
        assert(views[i] == list[i]@);
        let head = "{\"file\":"@ + json::json_literal(list[i].file@) + ",\"line\":"@
            + text::decimal(list[i].line as nat);
        assert(head + ","@ + field == head + ",\""@ + key + "\":"@);
    }
    assert(mapped == elements_of(list, key));
}

/// The matches of a search are told as a list of objects, and whether there were
/// more.
pub proof fn lemma_matches_are_told(scan: &GrepScan, r: String)
    requires
        call_ensures(GrepScan::to_json, (scan,), r),
    ensures
        scan.truncated ==> r@ == "{\"matches\":"@ + ("["@ + text::joined(
            elements_of(scan.matches@, "text"@),
            ","@,
        ) + "]"@) + ",\"truncated\":"@ + "true"@ + "}"@,
        !scan.truncated ==> r@ == "{\"matches\":"@ + ("["@ + text::joined(
            elements_of(scan.matches@, "text"@),
            ","@,
        ) + "]"@) + ",\"truncated\":"@ + "false"@ + "}"@,
{
    reveal_strlit("\"text\":");
    reveal_strlit("text");
    reveal_strlit("\"");
    reveal_strlit("\":");
    assert("\"text\":"@ == "\""@ + "text"@ + "\":"@);
    lemma_elements(scan.matches@, "text"@, "\"text\":"@);
}

/// The lines that define a symbol are told as a list of objects.
pub proof fn lemma_found_definitions_are_told(scan: &DefinitionScan, r: String)
    requires
        call_ensures(DefinitionScan::to_json, (scan,), r),
    ensures
        r@ == "{\"matches\":"@ + ("["@ + text::joined(
            elements_of(scan.matches@, "snippet"@),
            ","@,
        ) + "]"@) + "}"@,
{
    reveal_strlit("\"snippet\":");
    reveal_strlit("snippet");
    reveal_strlit("\"");
    reveal_strlit("\":");
    assert("\"snippet\":"@ == "\""@ + "snippet"@ + "\":"@);
    lemma_elements(scan.matches@, "snippet"@, "\"snippet\":"@);
}

/// A range of lines is told with its path, its ends, its text and the number of all
/// lines, and a list of symbols with the kind, the line and the name of each.
pub proof fn lemma_ranges_and_symbols_are_told(
    range: &ChunkText,
    r: String,
    list: &[Symbol],
    q: String,
)
    requires
        call_ensures(ChunkText::to_json, (range,), r),
        call_ensures(symbols_to_json, (list,), q),
    ensures
        r@ == "{\"end\":"@ + text::decimal(range.end as nat) + ",\"path\":"@ + json::json_literal(
            range.path@,
        ) + ",\"start\":"@ + text::decimal(range.start as nat) + ",\"text\":"@ + json::json_literal(
            range.text@,
        ) + ",\"total_lines\":"@ + text::decimal(range.total_lines as nat) + "}"@,
        q@ == "{\"symbols\":"@ + ("["@ + text::joined(
            Seq::new(
                list@.len(),
                |i: int|
                    "{\"kind\":\""@ + list@[i].kind.name() + "\",\"line\":"@ + text::decimal(
                        list@[i].line as nat,
                    ) + ",\"name\":"@ + json::json_literal(list@[i].name@) + "}"@,
            ),
            ","@,
        ) + "]"@) + "}"@,
{
    let views = symbols::symbol_views(list@);
    let told = Seq::new(
        list@.len(),
        |i: int|
            "{\"kind\":\""@ + list@[i].kind.name() + "\",\"line\":"@ + text::decimal(
                list@[i].line as nat,
            ) + ",\"name\":"@ + json::json_literal(list@[i].name@) + "}"@,
    );
    let mapped = views.map_values(|s: SymbolData| symbol_json(s));
    assert forall|i: int| 0 <= i < list@.len() implies mapped[i] == told[i] by {
        assert(views[i] == list@[i]@);
    }
    assert(mapped == told);
}

/// The symbols of a file are those of its text in the syntax of its extension, in
/// upper or lower case.
pub proof fn lemma_symbols_by_extension(
    style: PathStyle,
    path: &str,
    content: &str,
    ext: &str,
    syntax: Syntax,
    list: Vec<Symbol>,
    r: Vec<Symbol>,
)
    requires
        paths::extension(style, path@) matches Some(e) ==> ext@ == text::lowercase(e),
        paths::extension(style, path@) is None ==> ext@.len() == 0,
        call_ensures(syntax_for, (ext,), syntax),
        call_ensures(extract_symbols, (content, syntax), list),
        call_ensures(list_symbols, (style, path, content), r),
    ensures
        symbols::symbol_views(r@) == symbols::symbol_views(list@),
{
    if paths::extension(style, path@) is None {
        assert(ext@ == Seq::<char>::empty());
    }
}

} // verus!
