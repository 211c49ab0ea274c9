//! Chunks of text files: windows of lines that overlap, with identifiers made
//! of the path, the offset and the content.
use crate::paths::{self, path_extension, PathStyle};
use crate::text::{self, chars_of, decimal_string, str_eq, string_copy, string_of, to_lowercase};
use vstd::arithmetic::div_mod::*;
use vstd::prelude::*;
use vstd::utf8::*;

verus! {

/// One indexable unit of text with provenance back to the source file.
#[derive(Debug)]
pub struct Chunk {
    /// Stable identifier.
    pub id: String,
    /// The textual content that is embedded.
    pub text: String,
    /// Path of the source file.
    pub path: String,
    /// Byte offset in the source file.
    pub offset: usize,
    /// Byte length in the source file.
    pub len: usize,
    /// Language, if it is known.
    pub lang: Option<String>,
}

/// What a chunk holds.
pub struct ChunkData {
    pub id: Seq<char>,
    pub text: Seq<char>,
    pub path: Seq<char>,
    pub offset: usize,
    pub len: usize,
    pub lang: Option<Seq<char>>,
}

/// The view of an optional string.
pub open spec fn optional_view(s: Option<String>) -> Option<Seq<char>> {
    match s {
        Some(v) => Some(v@),
        None => None,
    }
}

impl View for Chunk {
    type V = ChunkData;

    open spec fn view(&self) -> ChunkData {
        ChunkData {
            id: self.id@,
            text: self.text@,
            path: self.path@,
            offset: self.offset,
            len: self.len,
            lang: optional_view(self.lang),
        }
    }
}

/// The views of a list of chunks.
pub open spec fn chunk_views(list: Seq<Chunk>) -> Seq<ChunkData> {
    list.map_values(|c: Chunk| c@)
}

/// A copy of an optional string.
pub fn copy_optional(s: &Option<String>) -> (r: Option<String>)
    ensures
        optional_view(r) == optional_view(*s),
{
    match s {
        Some(v) => Some(string_copy(v.as_str())),
        None => None,
    }
}

impl Clone for Chunk {
    fn clone(&self) -> (r: Self)
        ensures
            r@ == self@,
    {
        Chunk {
            id: string_copy(self.id.as_str()),
            text: string_copy(self.text.as_str()),
            path: string_copy(self.path.as_str()),
            offset: self.offset,
            len: self.len,
            lang: copy_optional(&self.lang),
        }
    }
}

/// Turns a file's text into chunks. Implementations are deterministic: the
/// chunks are a function of the path and the content, so that an unchanged file
/// gives the same chunks again.
pub trait Chunker: Send + Sync {
    /// The chunks of a file.
    open spec fn chunks_of(&self, path: Seq<char>, content: Seq<char>) -> Seq<ChunkData> {
        arbitrary()
    }

    /// The chunks of a file.
    fn chunk(&self, path: &str, content: &str) -> (r: Vec<Chunk>)
        ensures
            chunk_views(r@) == self.chunks_of(path@, content@),
    ;
}

/// The lower-case hexadecimal BLAKE3 hash of some bytes.
pub uninterp spec fn blake3_hex(bytes: Seq<u8>) -> Seq<char>;

/// A lower-case hexadecimal digit.
pub open spec fn is_hex(c: char) -> bool {
    '0' <= c <= '9' || 'a' <= c <= 'f'
}

/// `blake3::hash(bytes).to_hex()`: a function of the bytes, 64 lower-case
/// hexadecimal digits.
#[verifier::external_body]
pub(crate) fn hash_hex(bytes: &[u8]) -> (r: String)
    ensures
        r@ == blake3_hex(bytes@),
        r@.len() == 64,
        forall|i: int| 0 <= i < r@.len() ==> is_hex(#[trigger] r@[i]),
{
    blake3::hash(bytes).to_hex().as_str().to_string()
}

/// An identifier: sixteen characters of the path's hash, the offset, and eight
/// characters of the content's hash, separated by colons.
pub open spec fn id_of(path_hash: Seq<char>, offset: nat, content_hash: Seq<char>) -> Seq<char> {
    path_hash.take(16) + ":"@ + text::decimal(offset) + ":"@ + content_hash.take(8)
}

/// Puts an identifier together from the hashes of path and content.
pub fn compose_id(path_hash: &str, offset: usize, content_hash: &str) -> (r: String)
    requires
        path_hash@.len() >= 16,
        content_hash@.len() >= 8,
    ensures
        r@ == id_of(path_hash@, offset as nat, content_hash@),
{
    let path_chars = chars_of(path_hash);
    let content_chars = chars_of(content_hash);
    let path_part = &path_chars[0..16];
    let content_part = &content_chars[0..8];
    assert(path_part@ == path_hash@.take(16));
    assert(content_part@ == content_hash@.take(8));
    let mut r = string_of(path_part);
    r.append(":");
    let number = decimal_string(offset as u64);
    r.append(number.as_str());
    r.append(":");
    let tail = string_of(content_part);
    r.append(tail.as_str());
    r
}

/// The identifier of a chunk.
pub open spec fn chunk_id(path: Seq<char>, offset: nat, content: Seq<char>) -> Seq<char> {
    id_of(blake3_hex(encode_utf8(path)), offset, blake3_hex(encode_utf8(content)))
}

/// The identifier of a chunk.
pub fn make_id(path: &str, offset: usize, content: &str) -> (r: String)
    ensures
        r@ == chunk_id(path@, offset as nat, content@),
{
    let path_hash = hash_hex(path.as_bytes());
    let content_hash = hash_hex(content.as_bytes());
    compose_id(path_hash.as_str(), offset, content_hash.as_str())
}

/// The language of a lower-case file extension.
pub open spec fn language(ext: Seq<char>) -> Option<Seq<char>> {
    if ext == "rs"@ {
        Some("rust"@)
    } else if ext == "py"@ {
        Some("python"@)
    } else if ext == "js"@ || ext == "mjs"@ || ext == "cjs"@ || ext == "jsx"@ {
        Some("javascript"@)
    } else if ext == "ts"@ || ext == "tsx"@ {
        Some("typescript"@)
    } else if ext == "go"@ {
        Some("go"@)
    } else if ext == "java"@ {
        Some("java"@)
    } else if ext == "c"@ || ext == "h"@ {
        Some("c"@)
    } else if ext == "cpp"@ || ext == "cc"@ || ext == "cxx"@ || ext == "hpp"@ || ext == "hh"@ {
        Some("cpp"@)
    } else if ext == "rb"@ {
        Some("ruby"@)
    } else if ext == "php"@ {
        Some("php"@)
    } else if ext == "swift"@ {
        Some("swift"@)
    } else if ext == "kt"@ || ext == "kts"@ {
        Some("kotlin"@)
    } else if ext == "scala"@ {
        Some("scala"@)
    } else if ext == "md"@ || ext == "markdown"@ {
        Some("markdown"@)
    } else if ext == "txt"@ {
        Some("text"@)
    } else if ext == "json"@ {
        Some("json"@)
    } else if ext == "toml"@ {
        Some("toml"@)
    } else if ext == "yaml"@ || ext == "yml"@ {
        Some("yaml"@)
    } else if ext == "sh"@ || ext == "bash"@ {
        Some("bash"@)
    } else if ext == "zsh"@ {
        Some("zsh"@)
    } else if ext == "html"@ || ext == "htm"@ {
        Some("html"@)
    } else if ext == "css"@ {
        Some("css"@)
    } else if ext == "scss"@ || ext == "sass"@ {
        Some("scss"@)
    } else if ext == "sql"@ {
        Some("sql"@)
    } else if ext == "lua"@ {
        Some("lua"@)
    } else if ext == "ex"@ || ext == "exs"@ {
        Some("elixir"@)
    } else if ext == "hs"@ {
        Some("haskell"@)
    } else if ext == "zig"@ {
        Some("zig"@)
    } else {
        None
    }
}

/// The language of a lower-case file extension.
pub fn language_of(ext: &str) -> (r: Option<&'static str>)
    ensures
        match r {
            Some(s) => language(ext@) == Some(s@),
            None => language(ext@) is None,
        },
{
    if str_eq(ext, "rs") {
        Some("rust")
    } else if str_eq(ext, "py") {
        Some("python")
    } else if str_eq(ext, "js") || str_eq(ext, "mjs") || str_eq(ext, "cjs") || str_eq(ext, "jsx") {
        Some("javascript")
    } else if str_eq(ext, "ts") || str_eq(ext, "tsx") {
        Some("typescript")
    } else if str_eq(ext, "go") {
        Some("go")
    } else if str_eq(ext, "java") {
        Some("java")
    } else if str_eq(ext, "c") || str_eq(ext, "h") {
        Some("c")
    } else if str_eq(ext, "cpp") || str_eq(ext, "cc") || str_eq(ext, "cxx") || str_eq(ext, "hpp")
        || str_eq(ext, "hh") {
        Some("cpp")
    } else if str_eq(ext, "rb") {
        Some("ruby")
    } else if str_eq(ext, "php") {
        Some("php")
    } else if str_eq(ext, "swift") {
        Some("swift")
    } else if str_eq(ext, "kt") || str_eq(ext, "kts") {
        Some("kotlin")
    } else if str_eq(ext, "scala") {
        Some("scala")
    } else if str_eq(ext, "md") || str_eq(ext, "markdown") {
        Some("markdown")
    } else if str_eq(ext, "txt") {
        Some("text")
    } else if str_eq(ext, "json") {
        Some("json")
    } else if str_eq(ext, "toml") {
        Some("toml")
    } else if str_eq(ext, "yaml") || str_eq(ext, "yml") {
        Some("yaml")
    } else if str_eq(ext, "sh") || str_eq(ext, "bash") {
        Some("bash")
    } else if str_eq(ext, "zsh") {
        Some("zsh")
    } else if str_eq(ext, "html") || str_eq(ext, "htm") {
        Some("html")
    } else if str_eq(ext, "css") {
        Some("css")
    } else if str_eq(ext, "scss") || str_eq(ext, "sass") {
        Some("scss")
    } else if str_eq(ext, "sql") {
        Some("sql")
    } else if str_eq(ext, "lua") {
        Some("lua")
    } else if str_eq(ext, "ex") || str_eq(ext, "exs") {
        Some("elixir")
    } else if str_eq(ext, "hs") {
        Some("haskell")
    } else if str_eq(ext, "zig") {
        Some("zig")
    } else {
        None
    }
}

/// The language of a file by its extension, whose case does not matter.
pub open spec fn inferred_language(style: PathStyle, path: Seq<char>) -> Option<Seq<char>> {
    match paths::extension(style, path) {
        Some(ext) => language(text::lowercase(ext)),
        None => None,
    }
}

/// The language of a file by its extension.
pub fn infer_lang(style: PathStyle, path: &str) -> (r: Option<String>)
    ensures
        optional_view(r) == inferred_language(style, path@),
{
    let ext = match path_extension(style, path) {
        Some(e) => e,
        None => {
            return None;
        },
    };
    let lower = to_lowercase(ext.as_str());
    match language_of(lower.as_str()) {
        Some(name) => Some(string_copy(name)),
        None => None,
    }
}

/// A position at which a line starts, or the end.
pub open spec fn is_line_bound(bytes: Seq<u8>, p: int) -> bool {
    0 <= p <= bytes.len() && (p == 0 || p == bytes.len() || bytes[p - 1] == 10)
}

/// The line bounds up to a position, in order.
pub open spec fn line_bounds(bytes: Seq<u8>, p: int) -> Seq<int>
    decreases p + 1,
{
    if p < 0 {
        seq![]
    } else if is_line_bound(bytes, p) {
        line_bounds(bytes, p - 1).push(p)
    } else {
        line_bounds(bytes, p - 1)
    }
}

/// Number of lines.
pub open spec fn line_count(bytes: Seq<u8>) -> int {
    if bytes.len() == 0 {
        0
    } else {
        line_bounds(bytes, bytes.len() as int).len() - 1
    }
}

/// Where line `i` starts; the end for the number of lines.
pub open spec fn line_start(bytes: Seq<u8>, i: int) -> int {
    line_bounds(bytes, bytes.len() as int)[i]
}

proof fn lemma_line_bounds(bytes: Seq<u8>, p: int)
    requires
        0 <= p <= bytes.len(),
    ensures
        line_bounds(bytes, p).len() > 0,
        line_bounds(bytes, p).len() <= p + 1,
        line_bounds(bytes, p)[0] == 0,
        forall|i: int|
            0 <= i < line_bounds(bytes, p).len() ==> is_line_bound(
                bytes,
                #[trigger] line_bounds(bytes, p)[i],
            ) && line_bounds(bytes, p)[i] <= p,
        forall|i: int, j: int|
            0 <= i < j < line_bounds(bytes, p).len() ==> line_bounds(bytes, p)[i] < line_bounds(
                bytes,
                p,
            )[j],
    decreases p,
{
    if p > 0 {
        lemma_line_bounds(bytes, p - 1);
    } else {
        assert(line_bounds(bytes, -1) == Seq::<int>::empty());
    }
}

/// Behind a newline a character starts.
proof fn lemma_line_bound_is_boundary(bytes: Seq<u8>, p: int)
    requires
        valid_utf8(bytes),
        is_line_bound(bytes, p),
    ensures
        is_char_boundary(bytes, p),
{
    is_char_boundary_start_end_of_seq(bytes);
    if 0 < p < bytes.len() {
        is_char_boundary_iff_not_is_continuation_byte(bytes, p - 1);
        valid_utf8_split(bytes, p - 1);
        let rest = bytes.subrange(p - 1, bytes.len() as int);
        assert(rest[0] == 10);
        let tail = pop_first_scalar(rest);
        assert(tail == bytes.subrange(p, bytes.len() as int));
        assert(valid_utf8(tail));
        assert(tail[0] == bytes[p]);
        assert(!is_continuation_byte(bytes[p]));
        is_char_boundary_iff_not_is_continuation_byte(bytes, p);
    }
}

/// Why a chunker cannot be made.
#[derive(Clone, Copy, Debug, PartialEq, Eq, Structural)]
pub enum ChunkerError {
    /// The window is empty.
    ZeroWindow,
    /// The overlap is not smaller than the window: overlap, window.
    StrideTooLarge(usize, usize),
}

impl ChunkerError {
    /// The error in words.
    pub open spec fn words(self) -> Seq<char> {
        match self {
            ChunkerError::ZeroWindow => "window must be > 0"@,
            ChunkerError::StrideTooLarge(stride, window) => "stride ("@ + text::decimal(
                stride as nat,
            ) + ") must be < window ("@ + text::decimal(window as nat) + ")"@,
        }
    }

    /// The error in words.
    pub fn message(&self) -> (r: String)
        ensures
            r@ == self.words(),
    {
        match self {
            ChunkerError::ZeroWindow => string_copy("window must be > 0"),
            ChunkerError::StrideTooLarge(stride, window) => {
                let mut r = string_copy("stride (");
                r.append(decimal_string(*stride as u64).as_str());
                r.append(") must be < window (");
                r.append(decimal_string(*window as u64).as_str());
                r.append(")");
                r
            },
        }
    }
}

/// The lines of chunk `k` of `n` lines: from `k` steps on, as many as the window
/// holds or are left.
pub open spec fn chunk_lines(k: int, n: int, window: int, step: int) -> (int, int) {
    (
        k * step,
        if k * step + window < n {
            k * step + window
        } else {
            n
        },
    )
}

/// How many chunks `n` lines make: as many as it takes until one reaches the
/// end.
pub open spec fn chunk_count(n: int, window: int, step: int) -> int {
    if n <= 0 {
        0
    } else if n <= window {
        1
    } else {
        1 + (n - window + step - 1) / step
    }
}

/// Chunk `k` reaches the end exactly if it is the last one.
pub proof fn lemma_last_chunk_reaches_end(k: int, n: int, window: int, step: int)
    requires
        0 < n,
        0 < step <= window,
        0 <= k < chunk_count(n, window, step),
    ensures
        k * step + window >= n <==> k == chunk_count(n, window, step) - 1,
        0 <= k * step < n,
{
    let c = chunk_count(n, window, step);
    assert(0 <= k * step) by (nonlinear_arith)
        requires
            0 <= k,
            0 < step,
    ;
    if n > window {
        let q = (n - window + step - 1) / step;
        let r = (n - window + step - 1) % step;
        lemma_fundamental_div_mod(n - window + step - 1, step);
        assert(n - window + step - 1 == step * q + r);
        assert(0 <= r < step);
        if k == c - 1 {
            assert(k * step == step * q) by (nonlinear_arith)
                requires
                    k == q,
            ;
        } else {
            assert(k * step <= step * q - step) by (nonlinear_arith)
                requires
                    k <= q - 1,
                    0 < step,
            ;
        }
    } else {
        assert(k * step == 0) by (nonlinear_arith)
            requires
                k == 0,
        ;
    }
}

/// Adjacent chunks share exactly the overlap: a chunk that is not the last one
/// ends `stride` lines behind the start of the next.
pub proof fn lemma_adjacent_chunks_overlap(k: int, n: int, window: int, stride: int)
    requires
        0 < n,
        0 <= stride < window,
        0 <= k,
        k + 1 < chunk_count(n, window, window - stride),
    ensures
        chunk_lines(k, n, window, window - stride).1 == chunk_lines(
            k + 1,
            n,
            window,
            window - stride,
        ).0 + stride,
{
    let step = window - stride;
    lemma_last_chunk_reaches_end(k, n, window, step);
    assert((k + 1) * step == k * step + step) by (nonlinear_arith);
}

/// Every line is in some chunk.
pub proof fn lemma_chunks_cover(line: int, n: int, window: int, step: int) -> (k: int)
    requires
        0 <= line < n,
        0 < step <= window,
    ensures
        0 <= k < chunk_count(n, window, step),
        chunk_lines(k, n, window, step).0 <= line < chunk_lines(k, n, window, step).1,
{
    let c = chunk_count(n, window, step);
    let k = if line / step < c {
        line / step
    } else {
        c - 1
    };
    lemma_fundamental_div_mod(line, step);
    let q = line / step;
    assert(0 <= line - q * step < step) by (nonlinear_arith)
        requires
            line == step * q + line % step,
            0 <= line % step < step,
    ;
    if n > window {
        lemma_fundamental_div_mod(n - window + step - 1, step);
        assert((n - window + step - 1) / step >= 0) by (nonlinear_arith)
            requires
                n > window,
                step > 0,
        ;
    }
    assert(q >= 0) by (nonlinear_arith)
        requires
            q == line / step,
            line >= 0,
            step > 0,
    ;
    lemma_last_chunk_reaches_end(k, n, window, step);
    if line / step >= c {
        assert((c - 1) * step <= q * step) by (nonlinear_arith)
            requires
                c - 1 <= q,
                step > 0,
        ;
    }
    k
}

/// Chunk `k` of a file.
pub open spec fn chunk_data(
    style: PathStyle,
    path: Seq<char>,
    content: Seq<char>,
    window: int,
    step: int,
    k: int,
) -> ChunkData {
    let bytes = encode_utf8(content);
    let lines = chunk_lines(k, line_count(bytes), window, step);
    let from = line_start(bytes, lines.0);
    let to = line_start(bytes, lines.1);
    let text = decode_utf8(bytes.subrange(from, to));
    ChunkData {
        id: chunk_id(path, from as nat, text),
        text,
        path,
        offset: from as usize,
        len: (to - from) as usize,
        lang: inferred_language(style, path),
    }
}

/// Line-window chunker.
#[derive(Debug, Clone, Copy)]
pub struct TextChunker {
    window: usize,
    stride: usize,
    style: PathStyle,
}

fn bounds_of(bytes: &[u8]) -> (r: Vec<usize>)
    requires
        bytes@.len() > 0,
    ensures
        r@.len() == line_count(bytes@) + 1,
        forall|i: int| 0 <= i < r@.len() ==> #[trigger] r@[i] == line_start(bytes@, i),
{
    let mut r: Vec<usize> = Vec::new();
    let len: usize = bytes.len();
    assert(line_bounds(bytes@, -1) == Seq::<int>::empty());
    for p in 0..len
        invariant
            len == bytes@.len(),
            r@.len() == line_bounds(bytes@, p - 1).len(),
            forall|i: int|
                0 <= i < r@.len() ==> #[trigger] r@[i] == line_bounds(bytes@, p - 1)[i],
    {
        if p == 0 || bytes[p - 1] == 10 {
            r.push(p);
        }
    }
    r.push(len);
    r
}

fn text_between<'a>(content: &'a str, from: usize, to: usize) -> (r: &'a str)
    requires
        is_line_bound(encode_utf8(content@), from as int),
        is_line_bound(encode_utf8(content@), to as int),
        from <= to,
    ensures
        encode_utf8(r@) == encode_utf8(content@).subrange(from as int, to as int),
        r@ == decode_utf8(encode_utf8(content@).subrange(from as int, to as int)),
{
    let ghost bytes = encode_utf8(content@);
    proof {
        encode_utf8_valid_utf8(content@);
        lemma_line_bound_is_boundary(bytes, to as int);
    }
    let (head, _) = content.split_at(to);
    let ghost part = bytes.subrange(0, to as int);
    proof {
        encode_utf8_valid_utf8(head@);
        assert(encode_utf8(head@) == part);
        assert(is_line_bound(part, from as int));
        lemma_line_bound_is_boundary(part, from as int);
    }
    let (_, r) = head.split_at(from);
    proof {
        assert(part.subrange(from as int, to as int) == bytes.subrange(from as int, to as int));
        assert(encode_utf8(r@) == bytes.subrange(from as int, to as int));
        encode_utf8_decode_utf8(r@);
    }
    r
}

impl TextChunker {
    #[verifier::type_invariant]
    spec fn progresses(self) -> bool {
        self.stride < self.window
    }

    /// Lines per chunk.
    pub closed spec fn lines_per_chunk(self) -> usize {
        self.window
    }

    /// Lines that adjacent chunks share.
    pub closed spec fn overlap(self) -> usize {
        self.stride
    }

    /// How the paths of files are written.
    pub closed spec fn path_style(self) -> PathStyle {
        self.style
    }

    /// A chunker with `window` lines per chunk, of which adjacent chunks share
    /// `stride`. The window must not be empty, and the overlap must be smaller.
    pub fn new(window: usize, stride: usize) -> (r: Result<Self, ChunkerError>)
        ensures
            match r {
                Ok(c) => stride < window && c.lines_per_chunk() == window && c.overlap() == stride,
                Err(e) => stride >= window && e == if window == 0 {
                    ChunkerError::ZeroWindow
                } else {
                    ChunkerError::StrideTooLarge(stride, window)
                },
            },
    {
        if window == 0 {
            return Err(ChunkerError::ZeroWindow);
        }
        if stride >= window {
            return Err(ChunkerError::StrideTooLarge(stride, window));
        }
        Ok(TextChunker { window, stride, style: PathStyle::current() })
    }

    /// The default for code: 40 lines, 10 of them shared.
    pub fn default_code() -> (r: Self)
        ensures
            r.lines_per_chunk() == 40,
            r.overlap() == 10,
    {
        TextChunker { window: 40, stride: 10, style: PathStyle::current() }
    }

    /// The default for prose: 20 lines, 5 of them shared.
    pub fn default_prose() -> (r: Self)
        ensures
            r.lines_per_chunk() == 20,
            r.overlap() == 5,
    {
        TextChunker { window: 20, stride: 5, style: PathStyle::current() }
    }

    /// The same chunker for paths of a style other than the platform's.
    pub fn with_path_style(self, style: PathStyle) -> (r: Self)
        ensures
            r.lines_per_chunk() == self.lines_per_chunk(),
            r.overlap() == self.overlap(),
            r.path_style() == style,
    {
        proof {
            use_type_invariant(&self);
        }
        TextChunker { window: self.window, stride: self.stride, style }
    }

    /// Lines per chunk.
    pub fn window(&self) -> (n: usize)
        ensures
            n == self.lines_per_chunk(),
            n > self.overlap(),
    {
        proof {
            use_type_invariant(self);
        }
        self.window
    }

    /// Lines that adjacent chunks share.
    pub fn stride(&self) -> (n: usize)
        ensures
            n == self.overlap(),
            n < self.lines_per_chunk(),
    {
        proof {
            use_type_invariant(self);
        }
        self.stride
    }
}

impl Chunker for TextChunker {
    open spec fn chunks_of(&self, path: Seq<char>, content: Seq<char>) -> Seq<ChunkData> {
        let window = self.lines_per_chunk() as int;
        let step = window - self.overlap();
        Seq::new(
            chunk_count(line_count(encode_utf8(content)), window, step) as nat,
            |k: int| chunk_data(self.path_style(), path, content, window, step, k),
        )
    }

    fn chunk(&self, path: &str, content: &str) -> (r: Vec<Chunk>) {
        let mut chunks: Vec<Chunk> = Vec::new();
        let ghost bytes = encode_utf8(content@);
        if content.as_bytes().len() == 0 {
            assert(chunk_views(chunks@) == self.chunks_of(path@, content@));
            return chunks;
        }
        let bounds = bounds_of(content.as_bytes());
        let n: usize = bounds.len() - 1;
        let lang = infer_lang(self.style, path);
        let window = self.window();
        let step: usize = window - self.stride();
        let ghost count = chunk_count(n as int, window as int, step as int);
        proof {
            lemma_line_bounds(bytes, bytes.len() as int);
            assert(line_bounds(bytes, bytes.len() as int).len() >= 2) by {
                let len = bytes.len() as int;
                lemma_line_bounds(bytes, len - 1);
            }
            if n > window {
                lemma_fundamental_div_mod(n - window + step - 1, step as int);
            }
            assert(count >= 1) by (nonlinear_arith)
                requires
                    count == (if n <= window {
                        1int
                    } else {
                        1 + (n - window + step - 1) / (step as int)
                    }),
                    step > 0,
                    n > 0,
            ;
        }
        let mut start: usize = 0;
        let ghost mut k: int = 0;
        let mut done: bool = false;
        while !done
            invariant
                bytes == encode_utf8(content@),
                n == line_count(bytes),
                n > 0,
                bounds@.len() == n + 1,
                forall|i: int| 0 <= i < bounds@.len() ==> #[trigger] bounds@[i] == line_start(bytes, i),
                window == self.lines_per_chunk(),
                step == window - self.overlap(),
                0 < step <= window,
                count == chunk_count(n as int, window as int, step as int),
                optional_view(lang) == inferred_language(self.path_style(), path@),
                0 <= k <= count,
                k == chunks@.len(),
                !done ==> k < count && start == k * step,
                done ==> k == count,
                forall|i: int|
                    0 <= i < k ==> (#[trigger] chunks@[i])@ == chunk_data(
                        self.path_style(),
                        path@,
                        content@,
                        window as int,
                        step as int,
                        i,
                    ),
            decreases count - k,
        {
            proof {
                lemma_last_chunk_reaches_end(k, n as int, window as int, step as int);
                lemma_line_bounds(bytes, bytes.len() as int);
            }
            let end: usize = if window < n - start {
                start + window
            } else {
                n
            };
            assert((start as int, end as int) == chunk_lines(k, n as int, window as int, step as int));
            let from: usize = bounds[start];
            let to: usize = bounds[end];
            assert(from == line_start(bytes, start as int));
            assert(to == line_start(bytes, end as int));
            assert(is_line_bound(bytes, line_start(bytes, start as int)));
            assert(is_line_bound(bytes, line_start(bytes, end as int)));
            let text = text_between(content, from, to);
            let id = make_id(path, from, text);
            chunks.push(
                Chunk {
                    id,
                    text: string_copy(text),
                    path: string_copy(path),
                    offset: from,
                    len: to - from,
                    lang: copy_optional(&lang),
                },
            );
            proof {
                assert((k + 1) * step == k * step + step) by (nonlinear_arith);
                k = k + 1;
            }
            if end == n {
                done = true;
            } else {
                start = start + step;
            }
        }
        assert(chunk_views(chunks@) == self.chunks_of(path@, content@));
        chunks
    }
}

/// A chunk's offset and length locate its text in the file: the bytes there are
/// the bytes of the text.
pub proof fn lemma_offset_locates_text(
    style: PathStyle,
    path: Seq<char>,
    content: Seq<char>,
    window: int,
    step: int,
    k: int,
)
    requires
        content.len() > 0,
        encode_utf8(content).len() <= usize::MAX,
        0 < step <= window,
        0 <= k < chunk_count(line_count(encode_utf8(content)), window, step),
    ensures
        ({
            let c = chunk_data(style, path, content, window, step, k);
            let bytes = encode_utf8(content);
            &&& c.offset + c.len <= bytes.len()
            &&& c.len > 0
            &&& encode_utf8(c.text) == bytes.subrange(c.offset as int, c.offset + c.len)
            &&& c.id == chunk_id(path, c.offset as nat, c.text)
        }),
{
    let bytes = encode_utf8(content);
    let n = line_count(bytes);
    let len = bytes.len() as int;
    let lines = chunk_lines(k, n, window, step);
    encode_utf8_valid_utf8(content);
    if n > 0 {
        lemma_last_chunk_reaches_end(k, n, window, step);
    }
    lemma_line_bounds(bytes, len);
    let from = line_start(bytes, lines.0);
    let to = line_start(bytes, lines.1);
    assert(is_line_bound(bytes, from) && is_line_bound(bytes, to) && from < to);
    lemma_line_bound_is_boundary(bytes, to);
    valid_utf8_split(bytes, to);
    let head = bytes.subrange(0, to);
    assert(is_line_bound(head, from));
    lemma_line_bound_is_boundary(head, from);
    valid_utf8_split(head, from);
    assert(head.subrange(from, to) == bytes.subrange(from, to));
    decode_utf8_encode_utf8(bytes.subrange(from, to));
}

/// An identifier determines the offset and both parts of hashes that it was
/// made of.
pub proof fn lemma_id_determines_parts(
    p1: Seq<char>,
    o1: nat,
    c1: Seq<char>,
    p2: Seq<char>,
    o2: nat,
    c2: Seq<char>,
)
    requires
        p1.len() >= 16,
        p2.len() >= 16,
        c1.len() >= 8,
        c2.len() >= 8,
        id_of(p1, o1, c1) == id_of(p2, o2, c2),
    ensures
        p1.take(16) == p2.take(16),
        o1 == o2,
        c1.take(8) == c2.take(8),
{
    reveal_strlit(":");
    let a = id_of(p1, o1, c1);
    let b = id_of(p2, o2, c2);
    let d1 = text::decimal(o1);
    let d2 = text::decimal(o2);
    assert(a.len() == 16 + 1 + d1.len() + 1 + 8);
    assert(b.len() == 16 + 1 + d2.len() + 1 + 8);
    assert(a.take(16) == p1.take(16));
    assert(b.take(16) == p2.take(16));
    assert(a.subrange(17, 17int + d1.len()) == d1);
    assert(b.subrange(17, 17int + d2.len()) == d2);
    assert(a.skip(18int + d1.len()) == c1.take(8));
    assert(b.skip(18int + d2.len()) == c2.take(8));
    text::lemma_decimal_digits(o1);
    text::lemma_decimal_digits(o2);
}

/// How many newlines some bytes hold.
pub open spec fn newlines(bytes: Seq<u8>) -> nat {
    bytes.filter(|b: u8| b == 10).len()
}

proof fn lemma_newlines_before(bytes: Seq<u8>, p: int)
    requires
        0 < p <= bytes.len(),
    ensures
        newlines(bytes.take(p)) == newlines(bytes.take(p - 1)) + if bytes[p - 1] == 10 {
            1nat
        } else {
            0
        },
{
    reveal(Seq::filter);
    assert(bytes.take(p).drop_last() == bytes.take(p - 1));
}

proof fn lemma_bounds_count_newlines(bytes: Seq<u8>, p: int)
    requires
        0 <= p <= bytes.len(),
    ensures
        ({
            let b = line_bounds(bytes, p);
            let open_end = 0 < p == bytes.len() && bytes[p - 1] != 10;
            &&& b.len() == newlines(bytes.take(p)) + if open_end {
                2int
            } else {
                1
            }
            &&& forall|i: int|
                0 <= i < b.len() && (i < b.len() - 1 || !open_end) ==> newlines(
                    bytes.take(#[trigger] b[i]),
                ) == i
            &&& open_end ==> b.last() == p
        }),
    decreases p,
{
    let b = line_bounds(bytes, p);
    if p == 0 {
        reveal(Seq::filter);
        assert(bytes.take(0).len() == 0);
        assert(line_bounds(bytes, -1) == Seq::<int>::empty());
        assert(b == seq![0int]);
    } else {
        lemma_newlines_before(bytes, p);
        lemma_bounds_count_newlines(bytes, p - 1);
    }
}

/// A position inside a text begins a line if and only if the byte before it is a
/// newline. So each line holds one newline, at its end, but for a last one that
/// may have none, and there are as many lines as newlines, and one more where the
/// text does not end in one.
pub proof fn lemma_lines_end_at_newlines(bytes: Seq<u8>)
    requires
        bytes.len() > 0,
    ensures
        line_count(bytes) == newlines(bytes) + if bytes.last() == 10 {
            0int
        } else {
            1
        },
        line_start(bytes, 0) == 0,
        line_start(bytes, line_count(bytes)) == bytes.len(),
        forall|i: int|
            0 <= i < line_count(bytes) ==> {
                let from = line_start(bytes, i);
                let to = line_start(bytes, i + 1);
                &&& 0 <= from < to <= bytes.len()
                &&& newlines(bytes.take(#[trigger] line_start(bytes, i))) == i
                &&& to < bytes.len() ==> bytes[to - 1] == 10
                &&& forall|p: int| from <= p < to - 1 ==> #[trigger] bytes[p] != 10
            },
        forall|p: int|
            0 < p < bytes.len() ==> (#[trigger] bytes[p - 1] == 10 <==> exists|i: int|
                0 < i < line_count(bytes) && #[trigger] line_start(bytes, i) == p),
{
    let n = bytes.len() as int;
    let b = line_bounds(bytes, n);
    lemma_line_bounds(bytes, n);
    lemma_bounds_count_newlines(bytes, n);
    assert(bytes.take(n) == bytes);
    lemma_all_bounds_listed(bytes, n);
    assert(b.last() == n) by {
        assert(is_line_bound(bytes, n));
        let k = choose|k: int| 0 <= k < b.len() && #[trigger] b[k] == n;
        if k < b.len() - 1 {
            assert(b[k] < b[b.len() - 1]);
        }
    }
    assert(b.len() >= 2) by {
        assert(is_line_bound(bytes, 0));
        if b.len() == 1 {
            assert(b[0] == 0);
        }
    }
    assert forall|i: int| 0 <= i < line_count(bytes) implies {
        let from = line_start(bytes, i);
        let to = line_start(bytes, i + 1);
        &&& 0 <= from < to <= bytes.len()
        &&& newlines(bytes.take(#[trigger] line_start(bytes, i))) == i
        &&& to < bytes.len() ==> bytes[to - 1] == 10
        &&& forall|p: int| from <= p < to - 1 ==> #[trigger] bytes[p] != 10
    } by {
        let from = b[i];
        let to = b[i + 1];
        assert(is_line_bound(bytes, from) && is_line_bound(bytes, to));
        assert forall|p: int| from <= p < to - 1 implies #[trigger] bytes[p] != 10 by {
            if bytes[p] == 10 {
                assert(is_line_bound(bytes, p + 1));
                let k = choose|k: int| 0 <= k < b.len() && #[trigger] b[k] == p + 1;
                assert(k <= i || k >= i + 1);
                if k < i {
                    assert(b[k] < b[i]);
                }
                if k > i + 1 {
                    assert(b[i + 1] < b[k]);
                }
            }
        }
    }
    assert forall|p: int| 0 < p < bytes.len() implies (#[trigger] bytes[p - 1] == 10 <==> exists|i: int|
        0 < i < line_count(bytes) && #[trigger] line_start(bytes, i) == p) by {
        if bytes[p - 1] == 10 {
            assert(is_line_bound(bytes, p));
            let k = choose|k: int| 0 <= k < b.len() && #[trigger] b[k] == p;
            assert(line_start(bytes, k) == p);
            assert(k != 0 && k != b.len() - 1);
        }
        if exists|i: int| 0 < i < line_count(bytes) && #[trigger] line_start(bytes, i) == p {
            let i = choose|i: int| 0 < i < line_count(bytes) && #[trigger] line_start(bytes, i) == p;
            assert(is_line_bound(bytes, b[i]));
        }
    }
}

proof fn lemma_all_bounds_listed(bytes: Seq<u8>, p: int)
    requires
        0 <= p <= bytes.len(),
    ensures
        forall|q: int|
            0 <= q <= p && #[trigger] is_line_bound(bytes, q) ==> exists|k: int|
                0 <= k < line_bounds(bytes, p).len() && #[trigger] line_bounds(bytes, p)[k] == q,
    decreases p,
{
    let b = line_bounds(bytes, p);
    if p > 0 {
        lemma_all_bounds_listed(bytes, p - 1);
    }
    let before = line_bounds(bytes, p - 1);
    assert forall|q: int| 0 <= q <= p && #[trigger] is_line_bound(bytes, q) implies exists|k: int|
        0 <= k < b.len() && #[trigger] b[k] == q by {
        if q == p {
            assert(b[b.len() - 1] == q);
        } else {
            let k = choose|k: int| 0 <= k < before.len() && #[trigger] before[k] == q;
            assert(b[k] == q);
        }
    }
}

/// What chunks are, counted in newlines. The chunks of an empty text are none.
/// Chunk `i` of any other starts behind `i` steps of whole lines, a step being the
/// window less the overlap. It holds exactly a window of whole lines, unless it is
/// the last one, which holds the lines that are left, and no more than a window;
/// it alone reaches the end. Offset and length locate the text in the file, and
/// the identifier is made of path, offset and text.
pub proof fn lemma_chunks_are_windows_of_lines(
    window: usize,
    stride: usize,
    c: &TextChunker,
    path: &str,
    content: &str,
    r: Vec<Chunk>,
)
    requires
        call_ensures(TextChunker::new, (window, stride), Ok(*c)),
        call_ensures(TextChunker::chunk, (c, path, content), r),
        encode_utf8(content@).len() <= usize::MAX,
    ensures
        stride < window,
        r@.len() == 0 <==> content@.len() == 0,
        forall|i: int|
            0 <= i < r@.len() ==> {
                let k = #[trigger] r@[i];
                let bytes = encode_utf8(content@);
                let end = k.offset + k.len;
                &&& k.len > 0
                &&& end <= bytes.len()
                &&& encode_utf8(k.text@) == bytes.subrange(k.offset as int, end)
                &&& k.id@ == chunk_id(path@, k.offset as nat, k.text@)
                &&& k.path@ == path@
                &&& newlines(bytes.take(k.offset as int)) == i * (window - stride)
                &&& k.offset > 0 ==> bytes[k.offset - 1] == 10
                &&& if i < r@.len() - 1 {
                    &&& end < bytes.len()
                    &&& bytes[end - 1] == 10
                    &&& newlines(bytes.subrange(k.offset as int, end)) == window
                } else {
                    &&& end == bytes.len()
                    &&& newlines(bytes.subrange(k.offset as int, end)) + if bytes.last() == 10 {
                        0int
                    } else {
                        1
                    } <= window
                }
            },
{
    let bytes = encode_utf8(content@);
    let len = bytes.len() as int;
    let w = window as int;
    let step = window - stride;
    let views = chunk_views(r@);
    assert(views == c.chunks_of(path@, content@));
    assert(views.len() == r@.len());
    if content@.len() == 0 {
        assert(bytes == Seq::<u8>::empty());
    } else {
        lemma_some_bytes(content@);
        let n = line_count(bytes);
        lemma_lines_end_at_newlines(bytes);
        lemma_line_bounds(bytes, len);
        assert(n > 0) by {
            assert(line_start(bytes, 0) != line_start(bytes, n));
        }
        if n > w {
            assert((n - w + step - 1) / step >= 0) by (nonlinear_arith)
                requires
                    n > w,
                    step > 0,
            ;
        }
        let count = chunk_count(n, w, step);
        assert(count == r@.len());
        assert forall|i: int| 0 <= i < r@.len() implies {
            let k = #[trigger] r@[i];
            let end = k.offset + k.len;
            &&& k.len > 0
            &&& end <= bytes.len()
            &&& encode_utf8(k.text@) == bytes.subrange(k.offset as int, end)
            &&& k.id@ == chunk_id(path@, k.offset as nat, k.text@)
            &&& k.path@ == path@
            &&& newlines(bytes.take(k.offset as int)) == i * (window - stride)
            &&& k.offset > 0 ==> bytes[k.offset - 1] == 10
            &&& if i < r@.len() - 1 {
                &&& end < bytes.len()
                &&& bytes[end - 1] == 10
                &&& newlines(bytes.subrange(k.offset as int, end)) == window
            } else {
                &&& end == bytes.len()
                &&& newlines(bytes.subrange(k.offset as int, end)) + if bytes.last() == 10 {
                    0int
                } else {
                    1
                } <= window
            }
        } by {
            let k = r@[i];
            assert(views[i] == k@);
            assert(k@ == chunk_data(c.path_style(), path@, content@, w, step, i));
            lemma_offset_locates_text(c.path_style(), path@, content@, w, step, i);
            lemma_last_chunk_reaches_end(i, n, w, step);
            let lines = chunk_lines(i, n, w, step);
            let from = line_start(bytes, lines.0);
            let to = line_start(bytes, lines.1);
            assert(0 <= lines.0 < n);
            assert(newlines(bytes.take(from)) == lines.0);
            assert(is_line_bound(bytes, from) && is_line_bound(bytes, to));
            lemma_newlines_between(bytes, from, to);
            if i < r@.len() - 1 {
                assert(lines.1 < n);
                assert(to < line_start(bytes, n));
                assert(newlines(bytes.take(to)) == lines.1);
            } else {
                assert(lines.1 == n);
                assert(bytes.take(len) == bytes);
            }
        }
    }
}

proof fn lemma_newlines_between(bytes: Seq<u8>, from: int, to: int)
    requires
        0 <= from <= to <= bytes.len(),
    ensures
        newlines(bytes.take(to)) == newlines(bytes.take(from)) + newlines(
            bytes.subrange(from, to),
        ),
{
    let is_newline = |b: u8| b == 10;
    Seq::filter_distributes_over_add(bytes.take(from), bytes.subrange(from, to), is_newline);
    assert(bytes.take(to) == bytes.take(from) + bytes.subrange(from, to));
}

proof fn lemma_some_bytes(content: Seq<char>)
    requires
        content.len() > 0,
    ensures
        encode_utf8(content).len() > 0,
{
    encode_utf8_decode_utf8(content);
    if encode_utf8(content).len() == 0 {
        assert(encode_utf8(content) == encode_utf8(seq![]));
        encode_utf8_decode_utf8(seq![]);
    }
}

/// An identifier is the first 16 characters of the hash of the path, the offset in
/// decimal and the first 8 characters of the hash of the text, with colons between.
pub proof fn lemma_identifier_has_its_parts(
    path_hash: &str,
    offset: usize,
    content_hash: &str,
    r: String,
)
    requires
        path_hash@.len() >= 16,
        content_hash@.len() >= 8,
        call_ensures(compose_id, (path_hash, offset, content_hash), r),
    ensures
        ({
            let n = text::decimal(offset as nat).len() as int;
            &&& r@.len() == 26 + n
            &&& r@.take(16) == path_hash@.take(16)
            &&& r@[16] == ':'
            &&& r@.subrange(17, 17 + n) == text::decimal(offset as nat)
            &&& r@[17 + n] == ':'
            &&& r@.skip(18 + n) == content_hash@.take(8)
        }),
{
    reveal_strlit(":");
    let n = text::decimal(offset as nat).len() as int;
    assert(r@.take(16) == path_hash@.take(16));
    assert(r@.subrange(17, 17 + n) == text::decimal(offset as nat));
    assert(r@.skip(18 + n) == content_hash@.take(8));
}

/// The identifier of a chunk is made of the hashes of the bytes of its path and of
/// its text, in this order.
pub proof fn lemma_identifier_is_of_path_and_text(
    path: &str,
    offset: usize,
    content: &str,
    hashes: (&str, &str),
    composed: String,
    r: String,
)
    requires
        hashes.0@ == blake3_hex(encode_utf8(path@)),
        hashes.1@ == blake3_hex(encode_utf8(content@)),
        call_ensures(compose_id, (hashes.0, offset, hashes.1), composed),
        call_ensures(make_id, (path, offset, content), r),
    ensures
        r@ == composed@,
{
}

/// The language of a file goes by its extension, in upper or lower case; without
/// one it has none.
pub proof fn lemma_language_goes_by_extension(
    style: PathStyle,
    path: &str,
    ext: &str,
    named: Option<&'static str>,
    r: Option<String>,
)
    requires
        paths::extension(style, path@) matches Some(e) ==> ext@ == text::lowercase(e),
        call_ensures(language_of, (ext,), named),
        call_ensures(infer_lang, (style, path), r),
    ensures
        paths::extension(style, path@) is None ==> r is None,
        paths::extension(style, path@) is Some ==> (r is Some <==> named is Some),
        paths::extension(style, path@) is Some && r is Some ==> r->Some_0@ == named->Some_0@,
{
}

/// The extensions of each language.
pub open spec fn spoken_by(ext: Seq<char>, name: Seq<char>) -> bool {
    ||| name == "rust"@ && ext == "rs"@
    ||| name == "python"@ && ext == "py"@
    ||| name == "javascript"@ && (ext == "js"@ || ext == "mjs"@ || ext == "cjs"@ || ext == "jsx"@)
    ||| name == "typescript"@ && (ext == "ts"@ || ext == "tsx"@)
    ||| name == "go"@ && ext == "go"@
    ||| name == "java"@ && ext == "java"@
    ||| name == "c"@ && (ext == "c"@ || ext == "h"@)
    ||| name == "cpp"@ && (ext == "cpp"@ || ext == "cc"@ || ext == "cxx"@ || ext == "hpp"@ || ext
        == "hh"@)
    ||| name == "ruby"@ && ext == "rb"@
    ||| name == "php"@ && ext == "php"@
    ||| name == "swift"@ && ext == "swift"@
    ||| name == "kotlin"@ && (ext == "kt"@ || ext == "kts"@)
    ||| name == "scala"@ && ext == "scala"@
    ||| name == "markdown"@ && (ext == "md"@ || ext == "markdown"@)
    ||| name == "text"@ && ext == "txt"@
    ||| name == "json"@ && ext == "json"@
    ||| name == "toml"@ && ext == "toml"@
    ||| name == "yaml"@ && (ext == "yaml"@ || ext == "yml"@)
    ||| name == "bash"@ && (ext == "sh"@ || ext == "bash"@)
    ||| name == "zsh"@ && ext == "zsh"@
    ||| name == "html"@ && (ext == "html"@ || ext == "htm"@)
    ||| name == "css"@ && ext == "css"@
    ||| name == "scss"@ && (ext == "scss"@ || ext == "sass"@)
    ||| name == "sql"@ && ext == "sql"@
    ||| name == "lua"@ && ext == "lua"@
    ||| name == "elixir"@ && (ext == "ex"@ || ext == "exs"@)
    ||| name == "haskell"@ && ext == "hs"@
    ||| name == "zig"@ && ext == "zig"@
}

/// An extension has the language that it is spoken by; one that no language has is
/// unknown.
pub proof fn lemma_extension_has_its_language(ext: &str, r: Option<&'static str>)
    requires
        call_ensures(language_of, (ext,), r),
    ensures
        r matches Some(name) ==> spoken_by(ext@, name@),
        (exists|name: Seq<char>| spoken_by(ext@, name)) ==> r is Some,
{
}

/// Code has windows of 40 lines that overlap by 10, prose windows of 20 that overlap
/// by 5; a window has to be longer than its overlap.
pub proof fn lemma_chunkers_are_made(
    window: usize,
    stride: usize,
    r: Result<TextChunker, ChunkerError>,
    code: TextChunker,
    prose: TextChunker,
    n: (usize, usize),
    m: (usize, usize),
)
    requires
        call_ensures(TextChunker::new, (window, stride), r),
        call_ensures(TextChunker::default_code, (), code),
        call_ensures(TextChunker::default_prose, (), prose),
        call_ensures(TextChunker::window, (&code,), n.0),
        call_ensures(TextChunker::stride, (&code,), n.1),
        call_ensures(TextChunker::window, (&prose,), m.0),
        call_ensures(TextChunker::stride, (&prose,), m.1),
    ensures
        n == (40usize, 10usize),
        m == (20usize, 5usize),
        r is Ok <==> stride < window,
        window == 0 ==> r == Err::<TextChunker, ChunkerError>(ChunkerError::ZeroWindow),
        0 < window <= stride ==> r == Err::<TextChunker, ChunkerError>(
            ChunkerError::StrideTooLarge(stride, window),
        ),
{
}

} // verus!
