//! Definitions in source text, by the beginnings of lines.
use crate::text::{
    self, chars_eq, chars_of, is_white_space, span, split_lines, starts_with, string_of, strip_prefix,
    trimmed, trimmed_start,
};
use vstd::prelude::*;

verus! {

/// Kind of a definition.
#[derive(Clone, Copy, Debug, PartialEq, Eq, Structural)]
pub enum SymbolKind {
    Fn,
    Struct,
    Enum,
    Trait,
    Impl,
    Mod,
    Type,
    Const,
    Static,
    Macro,
}

impl SymbolKind {
    /// Name of the kind.
    pub open spec fn name(self) -> Seq<char> {
        match self {
            SymbolKind::Fn => "fn"@,
            SymbolKind::Struct => "struct"@,
            SymbolKind::Enum => "enum"@,
            SymbolKind::Trait => "trait"@,
            SymbolKind::Impl => "impl"@,
            SymbolKind::Mod => "mod"@,
            SymbolKind::Type => "type"@,
            SymbolKind::Const => "const"@,
            SymbolKind::Static => "static"@,
            SymbolKind::Macro => "macro"@,
        }
    }

    /// Name of the kind.
    pub fn as_str(&self) -> (r: &'static str)
        ensures
            r@ == self.name(),
    {
        match self {
            SymbolKind::Fn => "fn",
            SymbolKind::Struct => "struct",
            SymbolKind::Enum => "enum",
            SymbolKind::Trait => "trait",
            SymbolKind::Impl => "impl",
            SymbolKind::Mod => "mod",
            SymbolKind::Type => "type",
            SymbolKind::Const => "const",
            SymbolKind::Static => "static",
            SymbolKind::Macro => "macro",
        }
    }
}

/// A definition: its name, its kind and its line, counted from one.
#[derive(Debug)]
pub struct Symbol {
    pub name: String,
    pub kind: SymbolKind,
    pub line: usize,
}

/// What a definition says.
pub struct SymbolData {
    pub name: Seq<char>,
    pub kind: SymbolKind,
    pub line: int,
}

impl View for Symbol {
    type V = SymbolData;

    open spec fn view(&self) -> SymbolData {
        SymbolData { name: self.name@, kind: self.kind, line: self.line as int }
    }
}

/// Syntax in which definitions are recognized.
#[derive(Clone, Copy, Debug, PartialEq, Eq, Structural)]
pub enum Syntax {
    Rust,
    Python,
    JavaScript,
    Go,
}

/// Beginnings of definitions and the kinds they tell, in the order in which
/// they are tried.
pub open spec fn beginnings(syntax: Syntax) -> Seq<(Seq<char>, SymbolKind)> {
    match syntax {
        Syntax::Rust => seq![
            ("fn "@, SymbolKind::Fn),
            ("async fn "@, SymbolKind::Fn),
            ("struct "@, SymbolKind::Struct),
            ("enum "@, SymbolKind::Enum),
            ("trait "@, SymbolKind::Trait),
            ("impl "@, SymbolKind::Impl),
            ("mod "@, SymbolKind::Mod),
            ("type "@, SymbolKind::Type),
            ("const "@, SymbolKind::Const),
            ("static "@, SymbolKind::Static),
            ("macro_rules! "@, SymbolKind::Macro),
        ],
        Syntax::Python => seq![
            ("def "@, SymbolKind::Fn),
            ("async def "@, SymbolKind::Fn),
            ("class "@, SymbolKind::Struct),
        ],
        Syntax::JavaScript => seq![
            ("function "@, SymbolKind::Fn),
            ("async function "@, SymbolKind::Fn),
            ("class "@, SymbolKind::Struct),
            ("export function "@, SymbolKind::Fn),
            ("export default function "@, SymbolKind::Fn),
            ("export class "@, SymbolKind::Struct),
        ],
        Syntax::Go => seq![("func "@, SymbolKind::Fn), ("type "@, SymbolKind::Type)],
    }
}

/// Characters that end a name; in Rust they end the header of an `impl`.
pub open spec fn name_stops(syntax: Syntax) -> Seq<char> {
    match syntax {
        Syntax::Rust => seq!['{', '(', ';', '<', '\n'],
        Syntax::Python => seq!['(', ':'],
        Syntax::JavaScript => seq!['(', '{', ' '],
        Syntax::Go => seq!['(', '{', ' '],
    }
}

/// The kind of the first beginning that a line has, with what follows it.
pub open spec fn first_beginning(
    table: Seq<(Seq<char>, SymbolKind)>,
    line: Seq<char>,
) -> Option<(SymbolKind, Seq<char>)>
    decreases table.len(),
{
    if table.len() == 0 {
        None
    } else {
        match text::without_prefix(line, table[0].0) {
            Some(rest) => Some((table[0].1, rest)),
            None => first_beginning(table.skip(1), line),
        }
    }
}

/// A character that continues an identifier in ASCII.
pub open spec fn word_char(c: char) -> bool {
    'a' <= c <= 'z' || 'A' <= c <= 'Z' || '0' <= c <= '9' || c == '_'
}

/// A character that may stand in an identifier: a word character, or one beyond
/// ASCII that is no white space.
pub open spec fn ident_char(c: char) -> bool {
    word_char(c) || ('\u{80}' <= c && !text::white_space(c))
}

/// Number of identifier characters at the start.
pub open spec fn ident_len(s: Seq<char>) -> int
    decreases s.len(),
{
    if s.len() == 0 || !ident_char(s.first()) {
        0
    } else {
        1 + ident_len(s.drop_first())
    }
}

/// Number of characters before the first one of an identifier.
pub open spec fn gap_len(s: Seq<char>) -> int
    decreases s.len(),
{
    if s.len() == 0 || ident_char(s.first()) {
        0
    } else {
        1 + gap_len(s.drop_first())
    }
}

/// The first identifier in a text; empty where there is none.
pub open spec fn first_ident(s: Seq<char>) -> Seq<char> {
    let from = s.skip(gap_len(s));
    from.take(ident_len(from))
}

/// What follows the word `pub` at the start of a line, if it starts with that
/// word and not with a longer one.
pub open spec fn behind_pub(s: Seq<char>) -> Option<Seq<char>> {
    match text::without_prefix(s, "pub"@) {
        Some(rest) if rest.len() == 0 || !ident_char(rest[0]) => Some(rest),
        _ => None,
    }
}

/// A trimmed line without a visibility qualifier: the word `pub`, and a group in
/// round brackets behind it.
pub open spec fn without_visibility(s: Seq<char>) -> Seq<char> {
    match behind_pub(s) {
        Some(rest) => {
            let bare = text::trim_start(rest);
            let close = text::span_until(bare, seq![')']);
            if bare.len() > 0 && bare[0] == '(' && close < bare.len() {
                text::trim_start(bare.skip(close + 1))
            } else {
                bare
            }
        },
        None => text::trim_start(s),
    }
}

/// The name at the start of a declaration's tail, up to a character that ends
/// it. In Rust it is the first identifier there, but for an `impl` all of its
/// header, such as `Trait for Type`.
pub open spec fn name_of(tail: Seq<char>, syntax: Syntax, kind: SymbolKind) -> Seq<char> {
    let s = if syntax == Syntax::Rust {
        text::trim_start(tail)
    } else {
        tail
    };
    let head = s.take(text::span_until(s, name_stops(syntax)));
    if syntax == Syntax::Rust && kind != SymbolKind::Impl {
        first_ident(head)
    } else {
        text::trim(head)
    }
}

/// The line stands at top level: it is not indented.
pub open spec fn at_top_level(line: Seq<char>) -> bool {
    line.len() > 0 && !text::white_space(line[0])
}

/// The definition in a line, if it begins one with a name at top level.
pub open spec fn definition(line: Seq<char>, syntax: Syntax) -> Option<(Seq<char>, SymbolKind)> {
    let head = if syntax == Syntax::Rust {
        without_visibility(text::trim(line))
    } else {
        text::trim(line)
    };
    if !at_top_level(line) {
        None
    } else {
        match first_beginning(beginnings(syntax), head) {
            Some((kind, rest)) => if name_of(rest, syntax, kind).len() > 0 {
                Some((name_of(rest, syntax, kind), kind))
            } else {
                None
            },
            None => None,
        }
    }
}

/// The definitions of some lines at top level, with their line numbers.
pub open spec fn definitions(lines: Seq<Seq<char>>, syntax: Syntax) -> Seq<SymbolData>
    decreases lines.len(),
{
    if lines.len() == 0 {
        seq![]
    } else {
        let before = definitions(lines.drop_last(), syntax);
        match definition(lines.last(), syntax) {
            Some((name, kind)) => before.push(SymbolData { name, kind, line: lines.len() as int }),
            None => before,
        }
    }
}

/// The views of a list of definitions.
pub open spec fn symbol_views(list: Seq<Symbol>) -> Seq<SymbolData> {
    list.map_values(|s: Symbol| s@)
}

/// Strips a visibility qualifier from a trimmed line.
pub fn strip_visibility<'a>(s: &'a [char]) -> (r: &'a [char])
    ensures
        r@ == without_visibility(s@),
{
    let rest = match strip_prefix(s, "pub") {
        Some(rest) => rest,
        None => {
            return trimmed_start(s);
        },
    };
    if rest.len() > 0 && is_ident_char(rest[0]) {
        return trimmed_start(s);
    }
    let bare = trimmed_start(rest);
    let close: [char; 1] = [')'];
    assert(close@ == seq![')']);
    let n: usize = span(bare, &close);
    if bare.len() > 0 && bare[0] == '(' && n < bare.len() {
        let tail = &bare[n + 1..bare.len()];
        assert(tail@ == bare@.skip(n + 1));
        return trimmed_start(tail);
    }
    bare
}

fn is_word_char(c: char) -> (b: bool)
    ensures
        b == word_char(c),
{
    ('a' <= c && c <= 'z') || ('A' <= c && c <= 'Z') || ('0' <= c && c <= '9') || c == '_'
}

fn is_ident_char(c: char) -> (b: bool)
    ensures
        b == ident_char(c),
{
    is_word_char(c) || ('\u{80}' <= c && !is_white_space(c))
}

fn find_ident<'a>(s: &'a [char]) -> (r: &'a [char])
    ensures
        r@ == first_ident(s@),
{
    let mut n: usize = 0;
    assert(s@.skip(0) == s@);
    while n < s.len() && !is_ident_char(s[n])
        invariant
            n <= s.len(),
            gap_len(s@) == n + gap_len(s@.skip(n as int)),
        decreases s.len() - n,
    {
        assert(s@.skip(n as int).drop_first() == s@.skip(n + 1));
        n = n + 1;
    }
    let from = &s[n..s.len()];
    assert(from@ == s@.skip(n as int));
    let len: usize = ident_span(from);
    let r = &from[0..len];
    assert(r@ == from@.take(len as int));
    r
}

fn ident_span(s: &[char]) -> (n: usize)
    ensures
        n == ident_len(s@),
        n <= s.len(),
{
    let mut n: usize = 0;
    assert(s@.skip(0) == s@);
    while n < s.len() && is_ident_char(s[n])
        invariant
            n <= s.len(),
            ident_len(s@) == n + ident_len(s@.skip(n as int)),
        decreases s.len() - n,
    {
        assert(s@.skip(n as int).drop_first() == s@.skip(n + 1));
        n = n + 1;
    }
    n
}

fn find_beginning<'a>(line: &'a [char], table: &[(&'static str, SymbolKind)]) -> (r: Option<
    (SymbolKind, &'a [char]),
>)
    ensures
        match r {
            Some((kind, rest)) => first_beginning(table_view(table@), line@) == Some((kind, rest@)),
            None => first_beginning(table_view(table@), line@) is None,
        },
{
    let ghost all = table_view(table@);
    assert(all.skip(0) == all);
    for i in 0..table.len()
        invariant
            all == table_view(table@),
            first_beginning(all, line@) == first_beginning(all.skip(i as int), line@),
    {
        let (prefix, kind) = table[i];
        assert(all.skip(i as int)[0] == (prefix@, kind));
        assert(all.skip(i as int).skip(1) == all.skip(i + 1));
        match strip_prefix(line, prefix) {
            Some(rest) => {
                return Some((kind, rest));
            },
            None => {},
        }
    }
    assert(all.skip(table@.len() as int) == Seq::<(Seq<char>, SymbolKind)>::empty());
    None
}

/// The beginnings that a table lists.
pub open spec fn table_view(table: Seq<(&'static str, SymbolKind)>) -> Seq<(Seq<char>, SymbolKind)> {
    table.map_values(|e: (&'static str, SymbolKind)| (e.0@, e.1))
}

fn beginning_of<'a>(line: &'a [char], syntax: Syntax) -> (r: Option<(SymbolKind, &'a [char])>)
    ensures
        match r {
            Some((kind, rest)) => first_beginning(beginnings(syntax), line@) == Some((kind, rest@)),
            None => first_beginning(beginnings(syntax), line@) is None,
        },
{
    match syntax {
        Syntax::Rust => {
            let table: [(&'static str, SymbolKind); 11] = [
                ("fn ", SymbolKind::Fn),
                ("async fn ", SymbolKind::Fn),
                ("struct ", SymbolKind::Struct),
                ("enum ", SymbolKind::Enum),
                ("trait ", SymbolKind::Trait),
                ("impl ", SymbolKind::Impl),
                ("mod ", SymbolKind::Mod),
                ("type ", SymbolKind::Type),
                ("const ", SymbolKind::Const),
                ("static ", SymbolKind::Static),
                ("macro_rules! ", SymbolKind::Macro),
            ];
            assert(table_view(table@) == beginnings(Syntax::Rust));
            find_beginning(line, &table)
        },
        Syntax::Python => {
            let table: [(&'static str, SymbolKind); 3] = [
                ("def ", SymbolKind::Fn),
                ("async def ", SymbolKind::Fn),
                ("class ", SymbolKind::Struct),
            ];
            assert(table_view(table@) == beginnings(Syntax::Python));
            find_beginning(line, &table)
        },
        Syntax::JavaScript => {
            let table: [(&'static str, SymbolKind); 6] = [
                ("function ", SymbolKind::Fn),
                ("async function ", SymbolKind::Fn),
                ("class ", SymbolKind::Struct),
                ("export function ", SymbolKind::Fn),
                ("export default function ", SymbolKind::Fn),
                ("export class ", SymbolKind::Struct),
            ];
            assert(table_view(table@) == beginnings(Syntax::JavaScript));
            find_beginning(line, &table)
        },
        Syntax::Go => {
            let table: [(&'static str, SymbolKind); 2] = [
                ("func ", SymbolKind::Fn),
                ("type ", SymbolKind::Type),
            ];
            assert(table_view(table@) == beginnings(Syntax::Go));
            find_beginning(line, &table)
        },
    }
}

/// The name at the start of a declaration's tail.
pub fn symbol_name<'a>(tail: &'a [char], syntax: Syntax, kind: SymbolKind) -> (r: &'a [char])
    ensures
        r@ == name_of(tail@, syntax, kind),
{
    let s = match syntax {
        Syntax::Rust => trimmed_start(tail),
        _ => tail,
    };
    let n: usize = match syntax {
        Syntax::Rust => {
            let stops: [char; 5] = ['{', '(', ';', '<', '\n'];
            assert(stops@ == name_stops(syntax));
            span(s, &stops)
        },
        Syntax::Python => {
            let stops: [char; 2] = ['(', ':'];
            assert(stops@ == name_stops(syntax));
            span(s, &stops)
        },
        Syntax::JavaScript => {
            let stops: [char; 3] = ['(', '{', ' '];
            assert(stops@ == name_stops(syntax));
            span(s, &stops)
        },
        Syntax::Go => {
            let stops: [char; 3] = ['(', '{', ' '];
            assert(stops@ == name_stops(syntax));
            span(s, &stops)
        },
    };
    let head = &s[0..n];
    assert(head@ == s@.take(n as int));
    if syntax == Syntax::Rust && kind != SymbolKind::Impl {
        find_ident(head)
    } else {
        trimmed(head)
    }
}

/// The definitions of a source text.
pub fn extract_symbols(content: &str, syntax: Syntax) -> (r: Vec<Symbol>)
    ensures
        symbol_views(r@) == definitions(text::lines(content@), syntax),
{
    let chars = chars_of(content);
    let lines = split_lines(chars.as_slice());
    let ghost all = text::lines(content@);
    let mut r: Vec<Symbol> = Vec::new();
    assert(all.take(0) == Seq::<Seq<char>>::empty());
    for i in 0..lines.len()
        invariant
            text::slice_views(lines@) == all,
            symbol_views(r@) == definitions(all.take(i as int), syntax),
    {
        assert(all.take(i + 1).drop_last() == all.take(i as int));
        assert(all[i as int] == lines@[i as int]@);
        let top = lines[i].len() > 0 && !is_white_space(lines[i][0]);
        let head = match syntax {
            Syntax::Rust => strip_visibility(trimmed(lines[i])),
            _ => trimmed(lines[i]),
        };
        match beginning_of(head, syntax) {
            Some((kind, rest)) => {
                let name = symbol_name(rest, syntax, kind);
                if top && name.len() > 0 {
                    let ghost before = r@;
                    let symbol = Symbol { name: string_of(name), kind, line: i + 1 };
                    r.push(symbol);
                    assert(symbol_views(r@) == symbol_views(before).push(symbol@));
                }
            },
            None => {},
        }
    }
    assert(all.take(lines@.len() as int) == all);
    r
}

/// Beginnings of lines that define a symbol in some language.
pub open spec fn definition_words() -> Seq<Seq<char>> {
    seq![
        "fn "@,
        "struct "@,
        "enum "@,
        "trait "@,
        "impl "@,
        "class "@,
        "def "@,
        "async def "@,
        "func "@,
        "type "@,
        "macro_rules! "@,
    ]
}

/// The line begins like a definition.
pub open spec fn looks_like_definition(line: Seq<char>) -> bool {
    exists|i: int|
        0 <= i < definition_words().len() && text::begins_with(
            without_visibility(line),
            #[trigger] definition_words()[i],
        )
}

/// The symbol stands at a place in the line, and not as part of a longer word.
pub open spec fn stands_at(line: Seq<char>, symbol: Seq<char>, i: int) -> bool {
    &&& text::occurs_at(line, symbol, i)
    &&& i == 0 || !word_char(line[i - 1])
    &&& i + symbol.len() >= line.len() || !word_char(line[i + symbol.len()])
}

/// The symbol stands somewhere in the line as a whole word.
pub open spec fn stands_alone(line: Seq<char>, symbol: Seq<char>) -> bool {
    symbol.len() > 0 && exists|i: int| #[trigger] stands_at(line, symbol, i)
}

/// A trimmed line that defines the symbol.
pub open spec fn defines(line: Seq<char>, symbol: Seq<char>) -> bool {
    looks_like_definition(line) && stands_alone(line, symbol)
}

fn begins_definition(line: &[char]) -> (b: bool)
    ensures
        b == looks_like_definition(line@),
{
    let words: [&'static str; 11] = [
        "fn ",
        "struct ",
        "enum ",
        "trait ",
        "impl ",
        "class ",
        "def ",
        "async def ",
        "func ",
        "type ",
        "macro_rules! ",
    ];
    let visible = strip_visibility(line);
    for i in 0..words.len()
        invariant
            words@.len() == 11,
            forall|k: int| 0 <= k < 11 ==> (#[trigger] words@[k])@ == definition_words()[k],
            visible@ == without_visibility(line@),
            forall|k: int|
                0 <= k < i ==> !text::begins_with(visible@, #[trigger] definition_words()[k]),
    {
        let word = chars_of(words[i]);
        assert(word@ == definition_words()[i as int]);
        if starts_with(visible, word.as_slice()) {
            return true;
        }
    }
    false
}

/// Whether a trimmed line defines the symbol.
pub fn is_definition(line: &[char], symbol: &[char]) -> (b: bool)
    ensures
        b == defines(line@, symbol@),
{
    if symbol.len() == 0 || symbol.len() > line.len() || !begins_definition(line) {
        return false;
    }
    let len: usize = line.len();
    let mut i: usize = 0;
    while i <= len - symbol.len()
        invariant
            0 < symbol.len() <= len == line@.len(),
            i <= len,
            looks_like_definition(line@),
            forall|k: int| 0 <= k < i ==> !#[trigger] stands_at(line@, symbol@, k),
        decreases len - i,
    {
        let end: usize = i + symbol.len();
        let part = &line[i..end];
        assert(part@ == line@.subrange(i as int, end as int));
        if chars_eq(part, symbol) && (i == 0 || !is_word_char(line[i - 1])) && (end >= len
            || !is_word_char(line[end])) {
            assert(stands_at(line@, symbol@, i as int));
            return true;
        }
        i = i + 1;
    }
    false
}

/// A letter or digit of ASCII, or an underscore.
pub open spec fn alphanumeric(c: char) -> bool {
    let n = c as int;
    48 <= n < 58 || 65 <= n < 91 || 97 <= n < 123 || n == 95
}

/// The words with which a definition of some kind begins in a syntax.
pub open spec fn opens(word: Seq<char>, kind: SymbolKind, syntax: Syntax) -> bool {
    match syntax {
        Syntax::Rust => match kind {
            SymbolKind::Fn => word == "fn "@ || word == "async fn "@,
            SymbolKind::Struct => word == "struct "@,
            SymbolKind::Enum => word == "enum "@,
            SymbolKind::Trait => word == "trait "@,
            SymbolKind::Impl => word == "impl "@,
            SymbolKind::Mod => word == "mod "@,
            SymbolKind::Type => word == "type "@,
            SymbolKind::Const => word == "const "@,
            SymbolKind::Static => word == "static "@,
            SymbolKind::Macro => word == "macro_rules! "@,
        },
        Syntax::Python => match kind {
            SymbolKind::Fn => word == "def "@ || word == "async def "@,
            SymbolKind::Struct => word == "class "@,
            _ => false,
        },
        Syntax::JavaScript => match kind {
            SymbolKind::Fn => word == "function "@ || word == "async function "@ || word == "export function "@ || word == "export default function "@,
            SymbolKind::Struct => word == "class "@ || word == "export class "@,
            _ => false,
        },
        Syntax::Go => match kind {
            SymbolKind::Fn => word == "func "@,
            SymbolKind::Type => word == "type "@,
            _ => false,
        },
    }
}

proof fn lemma_not_prefix(line: Seq<char>, word: Seq<char>, p: int)
    requires
        0 <= p < word.len(),
        p < line.len() ==> line[p] != word[p],
    ensures
        !text::begins_with(line, word),
{
    if text::begins_with(line, word) {
        assert(line.take(word.len() as int)[p] == word[p]);
    }
}

proof fn lemma_first_beginning(
    table: Seq<(Seq<char>, SymbolKind)>,
    line: Seq<char>,
    k: int,
    tail: Seq<char>,
)
    requires
        0 <= k < table.len(),
        line == table[k].0 + tail,
        forall|j: int| 0 <= j < k ==> !text::begins_with(line, (#[trigger] table[j]).0),
    ensures
        first_beginning(table, line) == Some((table[k].1, tail)),
    decreases k,
{
    if k == 0 {
        text::lemma_prefix(table[0].0, tail, line);
    } else {
        assert(!text::begins_with(line, table[0].0));
        let rest = table.skip(1);
        assert forall|j: int| 0 <= j < k - 1 implies !text::begins_with(
            line,
            (#[trigger] rest[j]).0,
        ) by {
            assert(rest[j] == table[j + 1]);
        }
        assert(rest[k - 1] == table[k]);
        lemma_first_beginning(rest, line, k - 1, tail);
    }
}

proof fn lemma_beginning_found(table: Seq<(Seq<char>, SymbolKind)>, line: Seq<char>) -> (k: int)
    requires
        first_beginning(table, line) is Some,
    ensures
        0 <= k < table.len(),
        first_beginning(table, line) == Some((table[k].1, line.skip(table[k].0.len() as int))),
        text::begins_with(line, table[k].0),
    decreases table.len(),
{
    if text::begins_with(line, table[0].0) {
        0
    } else {
        let k = lemma_beginning_found(table.skip(1), line);
        assert(table.skip(1)[k] == table[k + 1]);
        k + 1
    }
}

proof fn lemma_rust_beginning(word: Seq<char>, kind: SymbolKind, tail: Seq<char>)
    requires
        opens(word, kind, Syntax::Rust),
    ensures
        first_beginning(beginnings(Syntax::Rust), word + tail) == Some((kind, tail)),
        word.len() > 1,
        alphanumeric(word[0]),
        word[0] != 'p',
{
    reveal_strlit("fn ");
    reveal_strlit("async fn ");
    reveal_strlit("struct ");
    reveal_strlit("enum ");
    reveal_strlit("trait ");
    reveal_strlit("impl ");
    reveal_strlit("mod ");
    reveal_strlit("type ");
    reveal_strlit("const ");
    reveal_strlit("static ");
    reveal_strlit("macro_rules! ");
    let line = word + tail;
    let table = beginnings(Syntax::Rust);
    assert(table[0] == ("fn "@, SymbolKind::Fn));
    assert(table[1] == ("async fn "@, SymbolKind::Fn));
    assert(table[2] == ("struct "@, SymbolKind::Struct));
    assert(table[3] == ("enum "@, SymbolKind::Enum));
    assert(table[4] == ("trait "@, SymbolKind::Trait));
    assert(table[5] == ("impl "@, SymbolKind::Impl));
    assert(table[6] == ("mod "@, SymbolKind::Mod));
    assert(table[7] == ("type "@, SymbolKind::Type));
    assert(table[8] == ("const "@, SymbolKind::Const));
    assert(table[9] == ("static "@, SymbolKind::Static));
    assert(table[10] == ("macro_rules! "@, SymbolKind::Macro));
    if word == "fn "@ && kind == SymbolKind::Fn {
        lemma_first_beginning(table, line, 0, tail);
    }
    if word == "async fn "@ && kind == SymbolKind::Fn {
        assert(line[0] == word[0]);
        lemma_not_prefix(line, table[0].0, 0);
        lemma_first_beginning(table, line, 1, tail);
    }
    if word == "struct "@ && kind == SymbolKind::Struct {
        assert(line[0] == word[0]);
        lemma_not_prefix(line, table[0].0, 0);
        assert(line[0] == word[0]);
        lemma_not_prefix(line, table[1].0, 0);
        lemma_first_beginning(table, line, 2, tail);
    }
    if word == "enum "@ && kind == SymbolKind::Enum {
        assert(line[0] == word[0]);
        lemma_not_prefix(line, table[0].0, 0);
        assert(line[0] == word[0]);
        lemma_not_prefix(line, table[1].0, 0);
        assert(line[0] == word[0]);
        lemma_not_prefix(line, table[2].0, 0);
        lemma_first_beginning(table, line, 3, tail);
    }
    if word == "trait "@ && kind == SymbolKind::Trait {
        assert(line[0] == word[0]);
        lemma_not_prefix(line, table[0].0, 0);
        assert(line[0] == word[0]);
        lemma_not_prefix(line, table[1].0, 0);
        assert(line[0] == word[0]);
        lemma_not_prefix(line, table[2].0, 0);
        assert(line[0] == word[0]);
        lemma_not_prefix(line, table[3].0, 0);
        lemma_first_beginning(table, line, 4, tail);
    }
    if word == "impl "@ && kind == SymbolKind::Impl {
        assert(line[0] == word[0]);
        lemma_not_prefix(line, table[0].0, 0);
        assert(line[0] == word[0]);
        lemma_not_prefix(line, table[1].0, 0);
        assert(line[0] == word[0]);
        lemma_not_prefix(line, table[2].0, 0);
        assert(line[0] == word[0]);
        lemma_not_prefix(line, table[3].0, 0);
        assert(line[0] == word[0]);
        lemma_not_prefix(line, table[4].0, 0);
        lemma_first_beginning(table, line, 5, tail);
    }
    if word == "mod "@ && kind == SymbolKind::Mod {
        assert(line[0] == word[0]);
        lemma_not_prefix(line, table[0].0, 0);
        assert(line[0] == word[0]);
        lemma_not_prefix(line, table[1].0, 0);
        assert(line[0] == word[0]);
        lemma_not_prefix(line, table[2].0, 0);
        assert(line[0] == word[0]);
        lemma_not_prefix(line, table[3].0, 0);
        assert(line[0] == word[0]);
        lemma_not_prefix(line, table[4].0, 0);
        assert(line[0] == word[0]);
        lemma_not_prefix(line, table[5].0, 0);
        lemma_first_beginning(table, line, 6, tail);
    }
    if word == "type "@ && kind == SymbolKind::Type {
        assert(line[0] == word[0]);
        lemma_not_prefix(line, table[0].0, 0);
        assert(line[0] == word[0]);
        lemma_not_prefix(line, table[1].0, 0);
        assert(line[0] == word[0]);
        lemma_not_prefix(line, table[2].0, 0);
        assert(line[0] == word[0]);
        lemma_not_prefix(line, table[3].0, 0);
        assert(line[1] == word[1]);
        lemma_not_prefix(line, table[4].0, 1);
        assert(line[0] == word[0]);
        lemma_not_prefix(line, table[5].0, 0);
        assert(line[0] == word[0]);
        lemma_not_prefix(line, table[6].0, 0);
        lemma_first_beginning(table, line, 7, tail);
    }
    if word == "const "@ && kind == SymbolKind::Const {
        assert(line[0] == word[0]);
        lemma_not_prefix(line, table[0].0, 0);
        assert(line[0] == word[0]);
        lemma_not_prefix(line, table[1].0, 0);
        assert(line[0] == word[0]);
        lemma_not_prefix(line, table[2].0, 0);
        assert(line[0] == word[0]);
        lemma_not_prefix(line, table[3].0, 0);
        assert(line[0] == word[0]);
        lemma_not_prefix(line, table[4].0, 0);
        assert(line[0] == word[0]);
        lemma_not_prefix(line, table[5].0, 0);
        assert(line[0] == word[0]);
        lemma_not_prefix(line, table[6].0, 0);
        assert(line[0] == word[0]);
        lemma_not_prefix(line, table[7].0, 0);
        lemma_first_beginning(table, line, 8, tail);
    }
    if word == "static "@ && kind == SymbolKind::Static {
        assert(line[0] == word[0]);
        lemma_not_prefix(line, table[0].0, 0);
        assert(line[0] == word[0]);
        lemma_not_prefix(line, table[1].0, 0);
        assert(line[2] == word[2]);
        lemma_not_prefix(line, table[2].0, 2);
        assert(line[0] == word[0]);
        lemma_not_prefix(line, table[3].0, 0);
        assert(line[0] == word[0]);
        lemma_not_prefix(line, table[4].0, 0);
        assert(line[0] == word[0]);
        lemma_not_prefix(line, table[5].0, 0);
        assert(line[0] == word[0]);
        lemma_not_prefix(line, table[6].0, 0);
        assert(line[0] == word[0]);
        lemma_not_prefix(line, table[7].0, 0);
        assert(line[0] == word[0]);
        lemma_not_prefix(line, table[8].0, 0);
        lemma_first_beginning(table, line, 9, tail);
    }
    if word == "macro_rules! "@ && kind == SymbolKind::Macro {
        assert(line[0] == word[0]);
        lemma_not_prefix(line, table[0].0, 0);
        assert(line[0] == word[0]);
        lemma_not_prefix(line, table[1].0, 0);
        assert(line[0] == word[0]);
        lemma_not_prefix(line, table[2].0, 0);
        assert(line[0] == word[0]);
        lemma_not_prefix(line, table[3].0, 0);
        assert(line[0] == word[0]);
        lemma_not_prefix(line, table[4].0, 0);
        assert(line[0] == word[0]);
        lemma_not_prefix(line, table[5].0, 0);
        assert(line[1] == word[1]);
        lemma_not_prefix(line, table[6].0, 1);
        assert(line[0] == word[0]);
        lemma_not_prefix(line, table[7].0, 0);
        assert(line[0] == word[0]);
        lemma_not_prefix(line, table[8].0, 0);
        assert(line[0] == word[0]);
        lemma_not_prefix(line, table[9].0, 0);
        lemma_first_beginning(table, line, 10, tail);
    }
}

proof fn lemma_python_beginning(word: Seq<char>, kind: SymbolKind, tail: Seq<char>)
    requires
        opens(word, kind, Syntax::Python),
    ensures
        first_beginning(beginnings(Syntax::Python), word + tail) == Some((kind, tail)),
        word.len() > 1,
        alphanumeric(word[0]),
        word[0] != 'p',
{
    reveal_strlit("def ");
    reveal_strlit("async def ");
    reveal_strlit("class ");
    let line = word + tail;
    let table = beginnings(Syntax::Python);
    assert(table[0] == ("def "@, SymbolKind::Fn));
    assert(table[1] == ("async def "@, SymbolKind::Fn));
    assert(table[2] == ("class "@, SymbolKind::Struct));
    if word == "def "@ && kind == SymbolKind::Fn {
        lemma_first_beginning(table, line, 0, tail);
    }
    if word == "async def "@ && kind == SymbolKind::Fn {
        assert(line[0] == word[0]);
        lemma_not_prefix(line, table[0].0, 0);
        lemma_first_beginning(table, line, 1, tail);
    }
    if word == "class "@ && kind == SymbolKind::Struct {
        assert(line[0] == word[0]);
        lemma_not_prefix(line, table[0].0, 0);
        assert(line[0] == word[0]);
        lemma_not_prefix(line, table[1].0, 0);
        lemma_first_beginning(table, line, 2, tail);
    }
}

proof fn lemma_javascript_beginning(word: Seq<char>, kind: SymbolKind, tail: Seq<char>)
    requires
        opens(word, kind, Syntax::JavaScript),
    ensures
        first_beginning(beginnings(Syntax::JavaScript), word + tail) == Some((kind, tail)),
        word.len() > 1,
        alphanumeric(word[0]),
        word[0] != 'p',
{
    reveal_strlit("function ");
    reveal_strlit("async function ");
    reveal_strlit("class ");
    reveal_strlit("export function ");
    reveal_strlit("export default function ");
    reveal_strlit("export class ");
    let line = word + tail;
    let table = beginnings(Syntax::JavaScript);
    assert(table[0] == ("function "@, SymbolKind::Fn));
    assert(table[1] == ("async function "@, SymbolKind::Fn));
    assert(table[2] == ("class "@, SymbolKind::Struct));
    assert(table[3] == ("export function "@, SymbolKind::Fn));
    assert(table[4] == ("export default function "@, SymbolKind::Fn));
    assert(table[5] == ("export class "@, SymbolKind::Struct));
    if word == "function "@ && kind == SymbolKind::Fn {
        lemma_first_beginning(table, line, 0, tail);
    }
    if word == "async function "@ && kind == SymbolKind::Fn {
        assert(line[0] == word[0]);
        lemma_not_prefix(line, table[0].0, 0);
        lemma_first_beginning(table, line, 1, tail);
    }
    if word == "class "@ && kind == SymbolKind::Struct {
        assert(line[0] == word[0]);
        lemma_not_prefix(line, table[0].0, 0);
        assert(line[0] == word[0]);
        lemma_not_prefix(line, table[1].0, 0);
        lemma_first_beginning(table, line, 2, tail);
    }
    if word == "export function "@ && kind == SymbolKind::Fn {
        assert(line[0] == word[0]);
        lemma_not_prefix(line, table[0].0, 0);
        assert(line[0] == word[0]);
        lemma_not_prefix(line, table[1].0, 0);
        assert(line[0] == word[0]);
        lemma_not_prefix(line, table[2].0, 0);
        lemma_first_beginning(table, line, 3, tail);
    }
    if word == "export default function "@ && kind == SymbolKind::Fn {
        assert(line[0] == word[0]);
        lemma_not_prefix(line, table[0].0, 0);
        assert(line[0] == word[0]);
        lemma_not_prefix(line, table[1].0, 0);
        assert(line[0] == word[0]);
        lemma_not_prefix(line, table[2].0, 0);
        assert(line[7] == word[7]);
        lemma_not_prefix(line, table[3].0, 7);
        lemma_first_beginning(table, line, 4, tail);
    }
    if word == "export class "@ && kind == SymbolKind::Struct {
        assert(line[0] == word[0]);
        lemma_not_prefix(line, table[0].0, 0);
        assert(line[0] == word[0]);
        lemma_not_prefix(line, table[1].0, 0);
        assert(line[0] == word[0]);
        lemma_not_prefix(line, table[2].0, 0);
        assert(line[7] == word[7]);
        lemma_not_prefix(line, table[3].0, 7);
        assert(line[7] == word[7]);
        lemma_not_prefix(line, table[4].0, 7);
        lemma_first_beginning(table, line, 5, tail);
    }
}

proof fn lemma_go_beginning(word: Seq<char>, kind: SymbolKind, tail: Seq<char>)
    requires
        opens(word, kind, Syntax::Go),
    ensures
        first_beginning(beginnings(Syntax::Go), word + tail) == Some((kind, tail)),
        word.len() > 1,
        alphanumeric(word[0]),
        word[0] != 'p',
{
    reveal_strlit("func ");
    reveal_strlit("type ");
    let line = word + tail;
    let table = beginnings(Syntax::Go);
    assert(table[0] == ("func "@, SymbolKind::Fn));
    assert(table[1] == ("type "@, SymbolKind::Type));
    if word == "func "@ && kind == SymbolKind::Fn {
        lemma_first_beginning(table, line, 0, tail);
    }
    if word == "type "@ && kind == SymbolKind::Type {
        assert(line[0] == word[0]);
        lemma_not_prefix(line, table[0].0, 0);
        lemma_first_beginning(table, line, 1, tail);
    }
}

/// Trimming a line that begins with a letter keeps its head.
proof fn lemma_trim_keeps_head(head: Seq<char>, rest: Seq<char>) -> (m: int)
    requires
        head.len() > 0,
        !text::white_space(head[0]),
        !text::white_space(head.last()),
    ensures
        0 <= m <= rest.len(),
        text::trim(head + rest) == head + rest.take(m),
{
    let line = head + rest;
    let n = head.len() as int;
    let ends = text::lemma_trim(line);
    assert(line[0] == head[0]);
    assert(line[n - 1] == head.last());
    assert(ends.0 == 0);
    assert(ends.1 >= n);
    let m = ends.1 - n;
    assert(line.subrange(0, ends.1) == head + rest.take(m));
    m
}

proof fn lemma_ident_len(id: Seq<char>, rest: Seq<char>)
    requires
        forall|i: int| 0 <= i < id.len() ==> ident_char(#[trigger] id[i]),
        rest.len() > 0 ==> !ident_char(rest[0]),
    ensures
        ident_len(id + rest) == id.len(),
    decreases id.len(),
{
    let s = id + rest;
    if id.len() > 0 {
        assert(s.first() == id[0]);
        let less = id.drop_first();
        assert forall|i: int| 0 <= i < less.len() implies ident_char(#[trigger] less[i]) by {
            assert(less[i] == id[i + 1]);
        }
        lemma_ident_len(less, rest);
        assert(s.drop_first() == less + rest);
    } else {
        assert(s == rest);
    }
}

/// In Rust, the name behind a word that opens a definition is the whole identifier
/// there: letters, digits and underscores, up to the first character that cannot
/// continue it. A `pub` before the word makes no difference.
pub proof fn lemma_rust_name_is_whole(
    word: Seq<char>,
    kind: SymbolKind,
    public: bool,
    id: Seq<char>,
    rest: Seq<char>,
)
    requires
        opens(word, kind, Syntax::Rust),
        kind != SymbolKind::Impl,
        id.len() > 0,
        forall|i: int| 0 <= i < id.len() ==> alphanumeric(#[trigger] id[i]),
        rest.len() > 0 ==> (rest[0] as int) < 128 && !alphanumeric(rest[0]),
    ensures
        definition(
            (if public {
                "pub "@
            } else {
                seq![]
            }) + word + id + rest,
            Syntax::Rust,
        ) == Some((id, kind)),
{
    reveal_strlit("pub");
    reveal_strlit("pub ");
    let lead: Seq<char> = if public {
        "pub "@
    } else {
        seq![]
    };
    lemma_rust_beginning(word, kind, id);
    let head = lead + word + id;
    let line = head + rest;
    assert(alphanumeric(id[0]) && alphanumeric(id[id.len() - 1]));
    assert(head.last() == id.last());
    assert(head[0] == if public {
        'p'
    } else {
        word[0]
    });
    let m = lemma_trim_keeps_head(head, rest);
    let left = rest.take(m);
    let body = word + (id + left);
    let trimmed = text::trim(line);
    assert(trimmed == lead + body);
    assert(body[0] == word[0]);
    lemma_visibility(public, body);
    assert(without_visibility(trimmed) == body);
    let tail = id + left;
    lemma_rust_beginning(word, kind, tail);
    // The name in the tail.
    let k = text::lemma_trim_start(tail);
    assert(tail[0] == id[0]);
    assert(k == 0);
    assert(tail.skip(0) == tail);
    let stops = name_stops(Syntax::Rust);
    let n = text::span_until(tail, stops);
    text::lemma_span_until(tail, stops);
    assert(n >= id.len()) by {
        if n < id.len() {
            assert(tail[n] == id[n]);
            assert(alphanumeric(id[n]));
        }
    }
    let cut = tail.take(n);
    let more = left.take(n - id.len());
    assert(cut == id + more);
    if more.len() > 0 {
        assert(more[0] == rest[0]);
    }
    assert forall|i: int| 0 <= i < id.len() implies ident_char(#[trigger] id[i]) by {
        assert(alphanumeric(id[i]));
    }
    lemma_ident_len(id, more);
    assert(cut.first() == id[0]);
    assert(ident_char(id[0]));
    assert(gap_len(cut) == 0);
    assert(cut.skip(0) == cut);
    assert(cut.take(id.len() as int) == id);
    assert(first_ident(cut) == id);
    assert(line == lead + word + id + rest);
    assert(at_top_level(line)) by {
        assert(line[0] == head[0]);
    }
}

/// A `pub` before a declaration is stripped.
proof fn lemma_visibility(public: bool, body: Seq<char>)
    requires
        body.len() > 1,
        alphanumeric(body[0]),
        body[0] != 'p',
    ensures
        without_visibility(
            (if public {
                "pub "@
            } else {
                seq![]
            }) + body,
        ) == body,
{
    reveal_strlit("pub");
    reveal_strlit("pub ");
    assert(body.skip(0) == body);
    let k = text::lemma_trim_start(body);
    assert(k == 0);
    if public {
        let s = "pub "@ + body;
        let rest = seq![' '] + body;
        assert("pub "@ == "pub"@ + seq![' ']);
        assert(s == "pub"@ + rest);
        text::lemma_prefix("pub"@, rest, s);
        assert(rest[0] == ' ');
        assert(behind_pub(s) == Some(rest));
        let j = text::lemma_trim_start(rest);
        assert(rest[1] == body[0]);
        assert(j == 1);
        assert(rest.skip(1) == body);
    } else {
        let s = Seq::<char>::empty() + body;
        assert(s == body);
        lemma_not_prefix(s, "pub"@, 0);
    }
}

/// The name of an `impl` is its whole header, up to a brace, a bracket, a
/// semicolon or a generic parameter.
pub proof fn lemma_impl_is_named_by_its_header(header: Seq<char>, rest: Seq<char>)
    requires
        header.len() > 0,
        !text::white_space(header[0]),
        !text::white_space(header.last()),
        forall|i: int|
            0 <= i < header.len() ==> {
                let c = #[trigger] header[i];
                c != '{' && c != '(' && c != ';' && c != '<' && c != '\n'
            },
        rest.len() > 0 ==> rest[0] == '{' || rest[0] == '(' || rest[0] == ';' || rest[0] == '<',
    ensures
        definition("impl "@ + header + rest, Syntax::Rust) == Some((header, SymbolKind::Impl)),
{
    reveal_strlit("impl ");
    let word = "impl "@;
    let head = word + header;
    let line = head + rest;
    assert(head[0] == 'i');
    assert(head.last() == header.last());
    let m = lemma_trim_keeps_head(head, rest);
    let left = rest.take(m);
    let tail = header + left;
    assert(head + left == word + tail);
    assert((word + tail)[0] == 'i');
    lemma_visibility(false, word + tail);
    assert(Seq::<char>::empty() + (word + tail) == word + tail);
    lemma_rust_beginning(word, SymbolKind::Impl, tail);
    let k = text::lemma_trim_start(tail);
    assert(tail[0] == header[0]);
    assert(tail.skip(0) == tail);
    let stops = name_stops(Syntax::Rust);
    let n = text::span_until(tail, stops);
    text::lemma_span_until(tail, stops);
    assert(n >= header.len()) by {
        if n < header.len() {
            assert(tail[n] == header[n]);
        }
    }
    assert(n == header.len()) by {
        if n > header.len() {
            let at = header.len() as int;
            assert(tail[at] == left[0]);
            assert(left[0] == rest[0]);
            assert(stops[0] == '{' && stops[1] == '(' && stops[2] == ';' && stops[3] == '<');
            assert(!stops.contains(tail[at]));
        }
    }
    assert(tail.take(n) == header);
    let none = Seq::<char>::empty();
    let j = lemma_trim_keeps_head(header, none);
    assert(header + none == header && none.take(j) == none);
    assert(line[0] == 'i');
}

/// In Python, the name behind a word that opens a definition is the whole identifier
/// there, up to what ends it.
pub proof fn lemma_python_name_is_whole(
    word: Seq<char>,
    kind: SymbolKind,
    id: Seq<char>,
    rest: Seq<char>,
)
    requires
        opens(word, kind, Syntax::Python),
        id.len() > 0,
        forall|i: int| 0 <= i < id.len() ==> alphanumeric(#[trigger] id[i]),
        rest.len() > 0 ==> rest[0] == '(' || rest[0] == ':',
    ensures
        definition(word + id + rest, Syntax::Python) == Some((id, kind)),
{
    lemma_python_beginning(word, kind, id);
    let head = word + id;
    let line = head + rest;
    assert(alphanumeric(id[0]) && alphanumeric(id[id.len() - 1]));
    assert(head[0] == word[0]);
    assert(head.last() == id.last());
    let m = lemma_trim_keeps_head(head, rest);
    let left = rest.take(m);
    let tail = id + left;
    assert(head + left == word + tail);
    lemma_python_beginning(word, kind, tail);
    let stops = name_stops(Syntax::Python);
    let n = text::span_until(tail, stops);
    text::lemma_span_until(tail, stops);
    assert(n >= id.len()) by {
        if n < id.len() {
            assert(tail[n] == id[n]);
            assert(alphanumeric(id[n]));
        }
    }
    assert(n == id.len()) by {
        if n > id.len() {
            let at = id.len() as int;
            assert(tail[at] == left[0]);
            assert(left[0] == rest[0]);
            assert(stops[0] == '(' && stops[1] == ':');
            assert(!stops.contains(tail[at]));
        }
    }
    assert(tail.take(n) == id);
    let none = Seq::<char>::empty();
    let j = lemma_trim_keeps_head(id, none);
    assert(id + none == id && none.take(j) == none);
    assert(line[0] == word[0]);
}

/// In JavaScript, the name behind a word that opens a definition is the whole identifier
/// there, up to what ends it.
pub proof fn lemma_javascript_name_is_whole(
    word: Seq<char>,
    kind: SymbolKind,
    id: Seq<char>,
    rest: Seq<char>,
)
    requires
        opens(word, kind, Syntax::JavaScript),
        id.len() > 0,
        forall|i: int| 0 <= i < id.len() ==> alphanumeric(#[trigger] id[i]),
        rest.len() > 0 ==> rest[0] == '(' || rest[0] == '{' || rest[0] == ' ',
    ensures
        definition(word + id + rest, Syntax::JavaScript) == Some((id, kind)),
{
    lemma_javascript_beginning(word, kind, id);
    let head = word + id;
    let line = head + rest;
    assert(alphanumeric(id[0]) && alphanumeric(id[id.len() - 1]));
    assert(head[0] == word[0]);
    assert(head.last() == id.last());
    let m = lemma_trim_keeps_head(head, rest);
    let left = rest.take(m);
    let tail = id + left;
    assert(head + left == word + tail);
    lemma_javascript_beginning(word, kind, tail);
    let stops = name_stops(Syntax::JavaScript);
    let n = text::span_until(tail, stops);
    text::lemma_span_until(tail, stops);
    assert(n >= id.len()) by {
        if n < id.len() {
            assert(tail[n] == id[n]);
            assert(alphanumeric(id[n]));
        }
    }
    assert(n == id.len()) by {
        if n > id.len() {
            let at = id.len() as int;
            assert(tail[at] == left[0]);
            assert(left[0] == rest[0]);
            assert(stops[0] == '(' && stops[1] == '{' && stops[2] == ' ');
            assert(!stops.contains(tail[at]));
        }
    }
    assert(tail.take(n) == id);
    let none = Seq::<char>::empty();
    let j = lemma_trim_keeps_head(id, none);
    assert(id + none == id && none.take(j) == none);
    assert(line[0] == word[0]);
}

/// In Go, the name behind a word that opens a definition is the whole identifier
/// there, up to what ends it.
pub proof fn lemma_go_name_is_whole(
    word: Seq<char>,
    kind: SymbolKind,
    id: Seq<char>,
    rest: Seq<char>,
)
    requires
        opens(word, kind, Syntax::Go),
        id.len() > 0,
        forall|i: int| 0 <= i < id.len() ==> alphanumeric(#[trigger] id[i]),
        rest.len() > 0 ==> rest[0] == '(' || rest[0] == '{' || rest[0] == ' ',
    ensures
        definition(word + id + rest, Syntax::Go) == Some((id, kind)),
{
    lemma_go_beginning(word, kind, id);
    let head = word + id;
    let line = head + rest;
    assert(alphanumeric(id[0]) && alphanumeric(id[id.len() - 1]));
    assert(head[0] == word[0]);
    assert(head.last() == id.last());
    let m = lemma_trim_keeps_head(head, rest);
    let left = rest.take(m);
    let tail = id + left;
    assert(head + left == word + tail);
    lemma_go_beginning(word, kind, tail);
    let stops = name_stops(Syntax::Go);
    let n = text::span_until(tail, stops);
    text::lemma_span_until(tail, stops);
    assert(n >= id.len()) by {
        if n < id.len() {
            assert(tail[n] == id[n]);
            assert(alphanumeric(id[n]));
        }
    }
    assert(n == id.len()) by {
        if n > id.len() {
            let at = id.len() as int;
            assert(tail[at] == left[0]);
            assert(left[0] == rest[0]);
            assert(stops[0] == '(' && stops[1] == '{' && stops[2] == ' ');
            assert(!stops.contains(tail[at]));
        }
    }
    assert(tail.take(n) == id);
    let none = Seq::<char>::empty();
    let j = lemma_trim_keeps_head(id, none);
    assert(id + none == id && none.take(j) == none);
    assert(line[0] == word[0]);
}

/// Every definition that a line is said to hold begins with a word for its kind,
/// behind an optional visibility in Rust, and stands at the start of the line: what
/// is indented is not listed.
pub proof fn lemma_definitions_begin_with_their_words(line: Seq<char>, syntax: Syntax) -> (word:
    Seq<char>)
    ensures
        definition(line, syntax) matches Some((name, kind)) ==> {
            &&& name.len() > 0
            &&& opens(word, kind, syntax)
            &&& line.len() > 0 && !text::white_space(line[0])
            &&& text::begins_with(
                if syntax == Syntax::Rust {
                    without_visibility(text::trim(line))
                } else {
                    text::trim(line)
                },
                word,
            )
        },
{
    let head = if syntax == Syntax::Rust {
        without_visibility(text::trim(line))
    } else {
        text::trim(line)
    };
    if definition(line, syntax) is Some {
        let k = lemma_beginning_found(beginnings(syntax), head);
        beginnings(syntax)[k].0
    } else {
        seq![]
    }
}

/// The list of a source text has a symbol for each line that holds a definition,
/// with its name, its kind and the number of the line, counted from one, and
/// nothing else, in the order of the lines.
pub proof fn lemma_each_definition_is_listed_once(content: &str, syntax: Syntax, r: Vec<Symbol>)
    requires
        call_ensures(extract_symbols, (content, syntax), r),
    ensures
        forall|j: int|
            0 <= j < r@.len() ==> {
                let s = #[trigger] r@[j];
                &&& 1 <= s.line <= text::lines(content@).len()
                &&& definition(text::lines(content@)[s.line - 1], syntax) == Some((s.name@, s.kind))
            },
        forall|i: int, j: int|
            0 <= i < j < r@.len() ==> (#[trigger] r@[i]).line < (#[trigger] r@[j]).line,
        forall|i: int|
            0 <= i < text::lines(content@).len() && definition(
                #[trigger] text::lines(content@)[i],
                syntax,
            ) is Some ==> exists|j: int| 0 <= j < r@.len() && (#[trigger] r@[j]).line == i + 1,
{
    let lines = text::lines(content@);
    let list = definitions(lines, syntax);
    let views = symbol_views(r@);
    lemma_definitions_in_order(lines, syntax);
    assert forall|j: int| 0 <= j < r@.len() implies {
        let s = #[trigger] r@[j];
        &&& 1 <= s.line <= lines.len()
        &&& definition(lines[s.line - 1], syntax) == Some((s.name@, s.kind))
    } by {
        assert(views[j] == r@[j]@);
        lemma_line_of_definition(lines, syntax, j);
    }
    assert forall|i: int, j: int| 0 <= i < j < r@.len() implies (#[trigger] r@[i]).line < (
    #[trigger] r@[j]).line by {
        assert(views[i] == r@[i]@ && views[j] == r@[j]@);
        assert(list[i].line < list[j].line);
    }
    assert forall|i: int|
        0 <= i < lines.len() && definition(#[trigger] lines[i], syntax) is Some implies exists|j: int|
        0 <= j < r@.len() && (#[trigger] r@[j]).line == i + 1 by {
        let j = lemma_definition_of_line(lines, syntax, i);
        assert(views[j] == r@[j]@);
        assert(r@[j].line == i + 1);
    }
}

proof fn lemma_definitions_in_order(lines: Seq<Seq<char>>, syntax: Syntax)
    ensures
        forall|j: int|
            0 <= j < definitions(lines, syntax).len() ==> 1 <= (#[trigger] definitions(
                lines,
                syntax,
            )[j]).line <= lines.len(),
        forall|i: int, j: int|
            0 <= i < j < definitions(lines, syntax).len() ==> (#[trigger] definitions(
                lines,
                syntax,
            )[i]).line < (#[trigger] definitions(lines, syntax)[j]).line,
    decreases lines.len(),
{
    if lines.len() > 0 {
        lemma_definitions_in_order(lines.drop_last(), syntax);
    }
}

proof fn lemma_definition_of_line(lines: Seq<Seq<char>>, syntax: Syntax, i: int) -> (j: int)
    requires
        0 <= i < lines.len(),
        definition(lines[i], syntax) is Some,
    ensures
        0 <= j < definitions(lines, syntax).len(),
        definitions(lines, syntax)[j].line == i + 1,
    decreases lines.len(),
{
    let init = lines.drop_last();
    let before = definitions(init, syntax);
    if i < init.len() {
        assert(init[i] == lines[i]);
        let j = lemma_definition_of_line(init, syntax, i);
        assert(definitions(lines, syntax)[j] == before[j]);
        j
    } else {
        before.len() as int
    }
}

proof fn lemma_line_of_definition(lines: Seq<Seq<char>>, syntax: Syntax, j: int)
    requires
        0 <= j < definitions(lines, syntax).len(),
    ensures
        ({
            let s = definitions(lines, syntax)[j];
            &&& 1 <= s.line <= lines.len()
            &&& definition(lines[s.line - 1], syntax) == Some((s.name, s.kind))
        }),
    decreases lines.len(),
{
    let init = lines.drop_last();
    let before = definitions(init, syntax);
    if j < before.len() {
        lemma_line_of_definition(init, syntax, j);
        assert(definitions(lines, syntax)[j] == before[j]);
        assert(init[before[j].line - 1] == lines[before[j].line - 1]);
    }
}

/// The words with which a line that defines a symbol begins in some language.
pub open spec fn defining(word: Seq<char>) -> bool {
    word == "fn "@ || word == "struct "@ || word == "enum "@ || word == "trait "@ || word == "impl "@ || word == "class "@ || word == "def "@ || word == "async def "@ || word == "func "@ || word == "type "@ || word == "macro_rules! "@
}

/// A line defines a symbol only where the symbol stands in it as a whole word, with
/// no letter, digit or underscore next to it, and only behind a defining word.
pub proof fn lemma_definition_has_the_whole_word(line: &[char], symbol: &[char], b: bool)
    requires
        call_ensures(is_definition, (line, symbol), b),
    ensures
        b ==> symbol@.len() > 0,
        b ==> exists|i: int|
            #![trigger line@.subrange(i, i + symbol@.len())]
            {
                let end = i + symbol@.len();
                &&& 0 <= i <= end <= line@.len()
                &&& line@.subrange(i, end) == symbol@
                &&& i > 0 ==> !alphanumeric(line@[i - 1])
                &&& end < line@.len() ==> !alphanumeric(line@[end])
            },
        b ==> exists|word: Seq<char>| #[trigger]
            defining(word) && text::begins_with(without_visibility(line@), word),
{
    if b {
        let i = choose|i: int| #[trigger] stands_at(line@, symbol@, i);
        assert(line@.subrange(i, i + symbol@.len()) == symbol@);
        let k = choose|k: int|
            0 <= k < definition_words().len() && text::begins_with(
                without_visibility(line@),
                #[trigger] definition_words()[k],
            );
        assert(defining(definition_words()[k]));
    }
}

/// A line that begins with a defining word, or with `pub` and such a word, defines
/// every symbol that stands in it as a whole word.
pub proof fn lemma_whole_word_behind_defining_word(
    line: &[char],
    symbol: &[char],
    b: bool,
    public: bool,
    word: Seq<char>,
    body: Seq<char>,
    before: Seq<char>,
    behind: Seq<char>,
)
    requires
        call_ensures(is_definition, (line, symbol), b),
        defining(word),
        line@ == (if public {
            "pub "@
        } else {
            seq![]
        }) + (word + body),
        line@ == before + symbol@ + behind,
        symbol@.len() > 0,
        before.len() > 0 ==> !alphanumeric(before.last()),
        behind.len() > 0 ==> !alphanumeric(behind[0]),
    ensures
        b,
{
    reveal_strlit("fn ");
    reveal_strlit("struct ");
    reveal_strlit("enum ");
    reveal_strlit("trait ");
    reveal_strlit("impl ");
    reveal_strlit("class ");
    reveal_strlit("def ");
    reveal_strlit("async def ");
    reveal_strlit("func ");
    reveal_strlit("type ");
    reveal_strlit("macro_rules! ");
    let i = before.len() as int;
    assert(line@.subrange(i, i + symbol@.len()) == symbol@);
    if i > 0 {
        assert(line@[i - 1] == before.last());
    }
    if behind.len() > 0 {
        assert(line@[i + symbol@.len()] == behind[0]);
    }
    assert(stands_at(line@, symbol@, i));
    assert((word + body)[0] == word[0]);
    lemma_visibility(public, word + body);
    text::lemma_prefix(word, body, word + body);
    let words = definition_words();
    assert(words[0] == "fn "@);
    assert(words[1] == "struct "@);
    assert(words[2] == "enum "@);
    assert(words[3] == "trait "@);
    assert(words[4] == "impl "@);
    assert(words[5] == "class "@);
    assert(words[6] == "def "@);
    assert(words[7] == "async def "@);
    assert(words[8] == "func "@);
    assert(words[9] == "type "@);
    assert(words[10] == "macro_rules! "@);
    if word == "fn "@ {
        assert(text::begins_with(without_visibility(line@), words[0]));
    }
    if word == "struct "@ {
        assert(text::begins_with(without_visibility(line@), words[1]));
    }
    if word == "enum "@ {
        assert(text::begins_with(without_visibility(line@), words[2]));
    }
    if word == "trait "@ {
        assert(text::begins_with(without_visibility(line@), words[3]));
    }
    if word == "impl "@ {
        assert(text::begins_with(without_visibility(line@), words[4]));
    }
    if word == "class "@ {
        assert(text::begins_with(without_visibility(line@), words[5]));
    }
    if word == "def "@ {
        assert(text::begins_with(without_visibility(line@), words[6]));
    }
    if word == "async def "@ {
        assert(text::begins_with(without_visibility(line@), words[7]));
    }
    if word == "func "@ {
        assert(text::begins_with(without_visibility(line@), words[8]));
    }
    if word == "type "@ {
        assert(text::begins_with(without_visibility(line@), words[9]));
    }
    if word == "macro_rules! "@ {
        assert(text::begins_with(without_visibility(line@), words[10]));
    }
    assert(looks_like_definition(line@));
}

/// The kinds are named by their keywords.
pub proof fn lemma_kinds_are_named(kind: SymbolKind, r: &'static str)
    requires
        call_ensures(SymbolKind::as_str, (&kind,), r),
    ensures
        kind is Fn ==> r@ == "fn"@,
        kind is Struct ==> r@ == "struct"@,
        kind is Enum ==> r@ == "enum"@,
        kind is Trait ==> r@ == "trait"@,
        kind is Impl ==> r@ == "impl"@,
        kind is Mod ==> r@ == "mod"@,
        kind is Type ==> r@ == "type"@,
        kind is Const ==> r@ == "const"@,
        kind is Static ==> r@ == "static"@,
        kind is Macro ==> r@ == "macro"@,
{
}

/// Every character is white space.
pub open spec fn blank(s: Seq<char>) -> bool {
    forall|i: int| 0 <= i < s.len() ==> text::white_space(#[trigger] s[i])
}

proof fn lemma_trim_start_of(space: Seq<char>, rest: Seq<char>)
    requires
        blank(space),
        rest.len() > 0 ==> !text::white_space(rest[0]),
    ensures
        text::trim_start(space + rest) == rest,
    decreases space.len(),
{
    let s = space + rest;
    if space.len() == 0 {
        assert(s == rest);
    } else {
        assert(s[0] == space[0]);
        assert(s.skip(1) == space.skip(1) + rest);
        assert(s.drop_first() == space.skip(1) + rest);
        lemma_trim_start_of(space.skip(1), rest);
    }
}

/// A visibility is stripped with the white space behind it, the bare one and one with
/// a scope in brackets; a word that only begins like it stays.
pub proof fn lemma_visibility_is_stripped(
    s: &[char],
    r: &[char],
    space: Seq<char>,
    scope: Seq<char>,
    rest: Seq<char>,
)
    requires
        call_ensures(strip_visibility, (s,), r),
        blank(space),
        rest.len() > 0 ==> !text::white_space(rest[0]),
    ensures
        space.len() > 0 && (rest.len() > 0 ==> rest[0] != '(') && s@ == seq!['p', 'u', 'b'] + space
            + rest ==> r@ == rest,
        !scope.contains(')') && s@ == seq!['p', 'u', 'b', '('] + scope + seq![')'] + space + rest
            ==> r@ == rest,
        s@ == space + rest && !text::begins_with(rest, seq!['p', 'u', 'b']) && space.len() == 0
            ==> r@ == rest,
        s@ == rest && rest.len() > 3 && alphanumeric(rest[3]) ==> r@ == rest,
{
    reveal_strlit("pub");
    let word = seq!['p', 'u', 'b'];
    assert("pub"@ == word);
    if space.len() > 0 && (rest.len() > 0 ==> rest[0] != '(') && s@ == word + space + rest {
        let tail = space + rest;
        assert(s@.take(3) == word);
        assert(s@.skip(3) == tail);
        assert(tail[0] == space[0]);
        lemma_trim_start_of(space, rest);
        assert(text::white_space(space[0]));
    }
    if !scope.contains(')') && s@ == seq!['p', 'u', 'b', '('] + scope + seq![')'] + space + rest {
        let tail = seq!['('] + scope + seq![')'] + space + rest;
        assert(s@.take(3) == word);
        assert(s@.skip(3) == tail);
        assert(tail[0] == '(');
        assert(Seq::<char>::empty() + tail == tail);
        lemma_trim_start_of(Seq::empty(), tail);
        let stops = seq![')'];
        text::lemma_span_until(tail, stops);
        let n = text::span_until(tail, stops);
        let close = 1 + scope.len() as int;
        assert(tail[close] == ')');
        assert(stops.contains(')')) by {
            assert(stops[0] == ')');
        }
        assert forall|i: int| 0 <= i < close implies !stops.contains(#[trigger] tail[i]) by {
            if i > 0 {
                assert(tail[i] == scope[i - 1]);
                assert(scope.contains(scope[i - 1]));
            }
        }
        assert(n == close);
        assert(tail.skip(close + 1) == space + rest);
        lemma_trim_start_of(space, rest);
    }
    if s@ == space + rest && !text::begins_with(rest, word) && space.len() == 0 {
        assert(s@ == rest);
        lemma_trim_start_of(Seq::empty(), rest);
        assert(Seq::<char>::empty() + rest == rest);
    }
    if s@ == rest && rest.len() > 3 && alphanumeric(rest[3]) {
        lemma_trim_start_of(Seq::empty(), rest);
        assert(Seq::<char>::empty() + rest == rest);
    }
}

/// An identifier has letters and digits of ASCII, underscores, and whatever lies
/// beyond ASCII and is no white space.
pub proof fn lemma_identifier_characters(c: char)
    ensures
        ident_char(c) <==> alphanumeric(c) || (c as int >= 0x80 && !text::white_space(c)),
{
}

} // verus!
