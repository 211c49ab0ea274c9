//! Which files of a directory are indexed, and the account of an indexing run.
use crate::chunk::{ChunkData, Chunker};
use crate::paths::{self, path_extension, PathStyle};
use crate::retrieve::{Embedder, Store};
use crate::single::Single;
use crate::text::{self, copy_strings, str_eq, string_copy, to_lowercase};
use vstd::prelude::*;

verus! {

/// Files larger than this are not embedded by default.
pub const DEFAULT_MAX_FILE_BYTES: u64 = 10_485_760;

/// Traversal policy.
#[derive(Debug)]
pub struct Walker {
    /// Extensions of the files to visit, whose case does not matter; every file
    /// if empty.
    pub include_ext: Vec<String>,
    /// Larger files are skipped.
    pub max_file_bytes: u64,
    /// Whether symbolic links are followed.
    pub follow_symlinks: bool,
    /// Whether hidden files are visible.
    pub show_hidden: bool,
    /// How the paths of files are written.
    pub path_style: PathStyle,
}

impl Clone for Walker {
    fn clone(&self) -> (r: Self)
        ensures
            text::views(r.include_ext@) == text::views(self.include_ext@),
            r.max_file_bytes == self.max_file_bytes,
            r.follow_symlinks == self.follow_symlinks,
            r.show_hidden == self.show_hidden,
            r.path_style == self.path_style,
    {
        Walker {
            include_ext: copy_strings(self.include_ext.as_slice()),
            max_file_bytes: self.max_file_bytes,
            follow_symlinks: self.follow_symlinks,
            show_hidden: self.show_hidden,
            path_style: self.path_style,
        }
    }
}

/// Lower-case forms of some texts.
pub open spec fn lowered(list: Seq<Seq<char>>) -> Seq<Seq<char>> {
    list.map_values(|s: Seq<char>| text::lowercase(s))
}

impl Walker {
    /// The default for code: every extension, ten megabytes, no symbolic links,
    /// no hidden files, and the paths of the platform.
    pub fn default_code() -> (r: Self)
        ensures
            r.include_ext@.len() == 0,
            r.max_file_bytes == DEFAULT_MAX_FILE_BYTES,
            !r.follow_symlinks,
            !r.show_hidden,
    {
        Walker {
            include_ext: Vec::new(),
            max_file_bytes: DEFAULT_MAX_FILE_BYTES,
            follow_symlinks: false,
            show_hidden: false,
            path_style: PathStyle::current(),
        }
    }

    /// The same policy for files with these extensions only, whose case does
    /// not matter.
    pub fn with_extensions(self, exts: Vec<String>) -> (r: Self)
        ensures
            text::views(r.include_ext@) == lowered(text::views(exts@)),
            r.max_file_bytes == self.max_file_bytes,
            r.follow_symlinks == self.follow_symlinks,
            r.show_hidden == self.show_hidden,
            r.path_style == self.path_style,
    {
        let mut include_ext: Vec<String> = Vec::new();
        let ghost all = lowered(text::views(exts@));
        for i in 0..exts.len()
            invariant
                all == lowered(text::views(exts@)),
                text::views(include_ext@) == all.take(i as int),
        {
            let ghost before = include_ext@;
            let lower = to_lowercase(exts[i].as_str());
            include_ext.push(lower);
            assert(text::views(include_ext@) == text::views(before).push(lower@));
            assert(all.take(i + 1) == all.take(i as int).push(all[i as int]));
            assert(text::views(exts@)[i as int] == exts@[i as int]@);
        }
        assert(all.take(exts@.len() as int) == all);
        Walker {
            include_ext,
            max_file_bytes: self.max_file_bytes,
            follow_symlinks: self.follow_symlinks,
            show_hidden: self.show_hidden,
            path_style: self.path_style,
        }
    }

    /// The extension of a file is one to visit: the lower-case forms of it and of
    /// one of the list agree.
    pub open spec fn admits(self, path: Seq<char>) -> bool {
        self.include_ext@.len() == 0 || match paths::extension(self.path_style, path) {
            Some(ext) => lowered(text::views(self.include_ext@)).contains(text::lowercase(ext)),
            None => false,
        }
    }

    /// Whether a lower-case extension is that of one to visit.
    pub fn includes(&self, lower: &str) -> (b: bool)
        ensures
            b == lowered(text::views(self.include_ext@)).contains(lower@),
    {
        let ghost all = lowered(text::views(self.include_ext@));
        for i in 0..self.include_ext.len()
            invariant
                all == lowered(text::views(self.include_ext@)),
                forall|j: int| 0 <= j < i ==> all[j] != lower@,
        {
            assert(text::views(self.include_ext@)[i as int] == self.include_ext@[i as int]@);
            let listed = to_lowercase(self.include_ext[i].as_str());
            if str_eq(listed.as_str(), lower) {
                assert(all[i as int] == lower@);
                return true;
            }
        }
        false
    }

    /// Whether the extension of a file is one to visit.
    pub fn extension_ok(&self, path: &str) -> (b: bool)
        ensures
            b == self.admits(path@),
    {
        if self.include_ext.len() == 0 {
            return true;
        }
        match path_extension(self.path_style, path) {
            Some(ext) => {
                let lower = to_lowercase(ext.as_str());
                self.includes(lower.as_str())
            },
            None => false,
        }
    }
}

/// What became of a file.
#[derive(Debug)]
pub enum Outcome {
    /// So many chunks were put.
    Indexed(usize),
    SkippedTooBig,
    SkippedWrongExt,
    SkippedUnreadable,
    /// Path and message.
    Error(String, String),
}

/// What an outcome says.
pub enum OutcomeData {
    Indexed(int),
    Skipped,
    Unreadable,
    Error(Seq<char>, Seq<char>),
}

impl View for Outcome {
    type V = OutcomeData;

    open spec fn view(&self) -> OutcomeData {
        match self {
            Outcome::Indexed(n) => OutcomeData::Indexed(*n as int),
            Outcome::SkippedTooBig => OutcomeData::Skipped,
            Outcome::SkippedWrongExt => OutcomeData::Skipped,
            Outcome::SkippedUnreadable => OutcomeData::Unreadable,
            Outcome::Error(p, m) => OutcomeData::Error(p@, m@),
        }
    }
}

/// Account of an indexing run.
#[derive(Debug)]
pub struct IndexReport {
    pub files_visited: usize,
    pub files_indexed: usize,
    pub files_skipped: usize,
    pub chunks_put: usize,
    /// Paths and messages.
    pub errors: Vec<(String, String)>,
}

/// What an account says.
pub struct ReportData {
    pub visited: int,
    pub indexed: int,
    pub skipped: int,
    pub put: int,
    pub errors: Seq<(Seq<char>, Seq<char>)>,
}

impl View for IndexReport {
    type V = ReportData;

    open spec fn view(&self) -> ReportData {
        ReportData {
            visited: self.files_visited as int,
            indexed: self.files_indexed as int,
            skipped: self.files_skipped as int,
            put: self.chunks_put as int,
            errors: self.errors@.map_values(|e: (String, String)| (e.0@, e.1@)),
        }
    }
}

impl ReportData {
    /// The account of nothing.
    pub open spec fn nothing() -> ReportData {
        ReportData { visited: 0, indexed: 0, skipped: 0, put: 0, errors: seq![] }
    }

    /// Every visited file was either indexed or skipped.
    pub open spec fn balanced(self) -> bool {
        self.visited == self.indexed + self.skipped
    }

    /// The account after a file: it is visited, and indexed with its chunks or
    /// skipped. An unreadable file and an error are listed too.
    pub open spec fn with_file(self, outcome: OutcomeData, path: Seq<char>) -> ReportData {
        let seen = ReportData { visited: self.visited + 1, ..self };
        match outcome {
            OutcomeData::Indexed(n) => ReportData {
                indexed: self.indexed + 1,
                put: self.put + n,
                ..seen
            },
            OutcomeData::Skipped => ReportData { skipped: self.skipped + 1, ..seen },
            OutcomeData::Unreadable => ReportData {
                skipped: self.skipped + 1,
                errors: self.errors.push((path, "unreadable"@)),
                ..seen
            },
            OutcomeData::Error(p, m) => ReportData {
                skipped: self.skipped + 1,
                errors: self.errors.push((p, m)),
                ..seen
            },
        }
    }

    /// The account after the directory could not be walked further.
    pub open spec fn with_walk_error(self, root: Seq<char>, message: Seq<char>) -> ReportData {
        ReportData { errors: self.errors.push((root, "walk error: "@ + message)), ..self }
    }
}

impl Default for IndexReport {
    fn default() -> (r: Self)
        ensures
            r@ == ReportData::nothing(),
    {
        let r = IndexReport {
            files_visited: 0,
            files_indexed: 0,
            files_skipped: 0,
            chunks_put: 0,
            errors: Vec::new(),
        };
        assert(r@.errors == ReportData::nothing().errors);
        r
    }
}

fn push_error(errors: &mut Vec<(String, String)>, path: String, message: String)
    ensures
        final(errors)@.map_values(|e: (String, String)| (e.0@, e.1@)) == old(errors)@.map_values(
            |e: (String, String)| (e.0@, e.1@),
        ).push((path@, message@)),
{
    let ghost before = errors@;
    let e = (path, message);
    errors.push(e);
    assert(errors@.map_values(|e: (String, String)| (e.0@, e.1@)) == before.map_values(
        |e: (String, String)| (e.0@, e.1@),
    ).push((e.0@, e.1@)));
}

impl Clone for IndexReport {
    fn clone(&self) -> (r: Self)
        ensures
            r@ == self@,
    {
        let mut errors: Vec<(String, String)> = Vec::new();
        let ghost all = self@.errors;
        for i in 0..self.errors.len()
            invariant
                all == self.errors@.map_values(|e: (String, String)| (e.0@, e.1@)),
                errors@.map_values(|e: (String, String)| (e.0@, e.1@)) == all.take(i as int),
        {
            let path = string_copy(self.errors[i].0.as_str());
            let message = string_copy(self.errors[i].1.as_str());
            push_error(&mut errors, path, message);
            assert(all.take(i + 1) == all.take(i as int).push(all[i as int]));
        }
        assert(all.take(all.len() as int) == all);
        let r = IndexReport {
            files_visited: self.files_visited,
            files_indexed: self.files_indexed,
            files_skipped: self.files_skipped,
            chunks_put: self.chunks_put,
            errors,
        };
        assert(r@.errors == self@.errors);
        r
    }
}

impl IndexReport {
    /// The counters can count one more file with its chunks.
    pub open spec fn can_count(self, chunks: int) -> bool {
        &&& self@.balanced()
        &&& self.files_visited < usize::MAX
        &&& self.chunks_put + chunks <= usize::MAX
    }

    /// Accounts for a file.
    pub fn apply(&mut self, outcome: Outcome, path: &str)
        requires
            old(self).can_count(
                match outcome {
                    Outcome::Indexed(n) => n as int,
                    _ => 0,
                },
            ),
        ensures
            final(self)@ == old(self)@.with_file(outcome@, path@),
            final(self)@.balanced(),
    {
        self.files_visited = self.files_visited + 1;
        match outcome {
            Outcome::Indexed(n) => {
                self.files_indexed = self.files_indexed + 1;
                self.chunks_put = self.chunks_put + n;
            },
            Outcome::SkippedTooBig => {
                self.files_skipped = self.files_skipped + 1;
            },
            Outcome::SkippedWrongExt => {
                self.files_skipped = self.files_skipped + 1;
            },
            Outcome::SkippedUnreadable => {
                self.files_skipped = self.files_skipped + 1;
                push_error(&mut self.errors, string_copy(path), string_copy("unreadable"));
            },
            Outcome::Error(p, message) => {
                self.files_skipped = self.files_skipped + 1;
                push_error(&mut self.errors, p, message);
            },
        }
    }

    /// Accounts for an error of the walk, which is no file.
    pub fn walk_error(&mut self, root: &str, message: &str)
        ensures
            final(self)@ == old(self)@.with_walk_error(root@, message@),
            old(self)@.balanced() ==> final(self)@.balanced(),
    {
        let mut words = string_copy("walk error: ");
        words.append(message);
        push_error(&mut self.errors, string_copy(root), words);
    }
}

/// In every run each visited file is counted exactly once, as indexed or as
/// skipped, whatever became of it.
pub proof fn lemma_every_file_counted_once(
    start: ReportData,
    outcomes: Seq<(OutcomeData, Seq<char>)>,
)
    requires
        start.balanced(),
    ensures
        after_files(start, outcomes).balanced(),
        after_files(start, outcomes).visited == start.visited + outcomes.len(),
    decreases outcomes.len(),
{
    if outcomes.len() > 0 {
        lemma_every_file_counted_once(start, outcomes.drop_last());
    }
}

/// The account after some files.
pub open spec fn after_files(
    start: ReportData,
    outcomes: Seq<(OutcomeData, Seq<char>)>,
) -> ReportData
    decreases outcomes.len(),
{
    if outcomes.len() == 0 {
        start
    } else {
        after_files(start, outcomes.drop_last()).with_file(outcomes.last().0, outcomes.last().1)
    }
}

/// The message of an embedder's error for a chunk.
pub open spec fn embed_message(id: Seq<char>, error: Seq<char>) -> Seq<char> {
    "embed chunk "@ + id + ": "@ + error
}

/// The embedder may fail with this error on a text.
pub open spec fn embed_fails<E: Embedder>(embedder: E, content: Seq<char>, error: Seq<char>) -> bool {
    exists|t: &str, e: String|
        t@ == content && e@ == error && #[trigger] call_ensures(
            E::embed,
            (&embedder, t),
            Err::<Vec<Single>, String>(e),
        )
}

/// The embedder may give this vector for a text.
pub open spec fn embeds<E: Embedder>(embedder: E, content: Seq<char>, vector: Seq<Single>) -> bool {
    exists|t: &str, v: Vec<Single>|
        t@ == content && v@ == vector && #[trigger] call_ensures(
            E::embed,
            (&embedder, t),
            Ok::<Vec<Single>, String>(v),
        )
}

/// Each chunk was embedded and put, in order.
pub open spec fn stored_all<E: Embedder, S: Store>(
    embedder: E,
    before: S,
    chunks: Seq<ChunkData>,
    after: S,
) -> bool
    decreases chunks.len(),
{
    if chunks.len() == 0 {
        after == before
    } else {
        exists|mid: S, v: Seq<Single>|
            stored_all(embedder, before, chunks.drop_last(), mid) && embeds(
                embedder,
                chunks.last().text,
                v,
            ) && #[trigger] S::puts(mid, chunks.last(), v, after, Ok(()))
    }
}

/// All chunks before position `k` were stored, and chunk `k` could not be
/// embedded or put.
pub open spec fn fails_at<E: Embedder, S: Store>(
    embedder: E,
    before: S,
    chunks: Seq<ChunkData>,
    k: int,
    after: S,
    message: Seq<char>,
) -> bool {
    ||| {
        &&& stored_all(embedder, before, chunks.take(k), after)
        &&& exists|e: Seq<char>| #[trigger]
            embed_fails(embedder, chunks[k].text, e) && message == embed_message(chunks[k].id, e)
    }
    ||| exists|mid: S, v: Seq<Single>, e: String|
        stored_all(embedder, before, chunks.take(k), mid) && embeds(embedder, chunks[k].text, v)
            && #[trigger] S::puts(mid, chunks[k], v, after, Err(e)) && message == "put: "@ + e@
}

/// Some chunk is the first that could not be embedded or put.
pub open spec fn fails<E: Embedder, S: Store>(
    embedder: E,
    before: S,
    chunks: Seq<ChunkData>,
    after: S,
    message: Seq<char>,
) -> bool {
    exists|k: int|
        0 <= k < chunks.len() && #[trigger] fails_at(embedder, before, chunks, k, after, message)
}

/// Embeds and stores the chunks of a file. The file is indexed with all its
/// chunks, or the first failure of the embedder or the store is its outcome.
/// Chunks that were stored before a failure stay stored.
pub fn index_file<C: Chunker, E: Embedder, S: Store>(
    path: &str,
    content: &str,
    chunker: &C,
    embedder: &E,
    store: &mut S,
) -> (r: Outcome)
    ensures
        ({
            let all = chunker.chunks_of(path@, content@);
            match r {
                Outcome::Indexed(n) => n == all.len() && stored_all(
                    *embedder,
                    *old(store),
                    all,
                    *final(store),
                ),
                Outcome::Error(p, m) => p@ == path@ && fails(
                    *embedder,
                    *old(store),
                    all,
                    *final(store),
                    m@,
                ),
                _ => false,
            }
        }),
{
    let chunks = chunker.chunk(path, content);
    let ghost all = chunker.chunks_of(path@, content@);
    let ghost start = *store;
    assert(all.take(0) == Seq::<ChunkData>::empty());
    for i in 0..chunks.len()
        invariant
            all == chunker.chunks_of(path@, content@),
            crate::chunk::chunk_views(chunks@) == all,
            all.len() == chunks@.len(),
            start == *old(store),
            stored_all(*embedder, start, all.take(i as int), *store),
    {
        let ghost c = all[i as int];
        let ghost here = *store;
        assert(c == chunks@[i as int]@);
        assert(all.take(i + 1).drop_last() == all.take(i as int));
        assert(all.take(i + 1).last() == c);
        let vector = match embedder.embed(chunks[i].text.as_str()) {
            Ok(v) => v,
            Err(e) => {
                let mut m = string_copy("embed chunk ");
                m.append(chunks[i].id.as_str());
                m.append(": ");
                m.append(e.as_str());
                assert(embed_fails(*embedder, c.text, e@));
                assert(fails_at(*embedder, start, all, i as int, *store, m@));
                return Outcome::Error(string_copy(path), m);
            },
        };
        assert(embeds(*embedder, c.text, vector@));
        match store.put(&chunks[i], vector.as_slice()) {
            Ok(u) => {
                assert(u == ());
                assert(S::puts(here, c, vector@, *store, Ok(())));
            },
            Err(e) => {
                let mut m = string_copy("put: ");
                m.append(e.as_str());
                assert(S::puts(here, c, vector@, *store, Err(e)));
                assert(fails_at(*embedder, start, all, i as int, *store, m@));
                return Outcome::Error(string_copy(path), m);
            },
        }
    }
    assert(all.take(chunks@.len() as int) == all);
    Outcome::Indexed(chunks.len())
}

/// What a walk meets.
#[derive(Debug)]
pub enum WalkEvent {
    /// It cannot go on here.
    Failed(String),
    /// Something that is not a regular file.
    Other,
    /// A file: its path, its size or why that is unknown, and its text, unless
    /// it was not read or is no text.
    File { path: String, size: Result<u64, String>, content: Option<String> },
}

/// What becomes of a file whose text is not needed: it has the wrong extension,
/// no known size, or is too large.
pub open spec fn settled(
    walker: Walker,
    path: Seq<char>,
    size: Result<u64, String>,
) -> Option<OutcomeData> {
    if !walker.admits(path) {
        Some(OutcomeData::Skipped)
    } else {
        match size {
            Err(e) => Some(OutcomeData::Error(path, e@)),
            Ok(n) => if n > walker.max_file_bytes {
                Some(OutcomeData::Skipped)
            } else {
                None
            },
        }
    }
}

/// The event is a file whose text is embedded and stored.
pub open spec fn reads(walker: Walker, event: WalkEvent) -> bool {
    event matches WalkEvent::File { path, size, content } && settled(walker, path@, size) is None
        && content is Some
}

/// Takes one step of an indexing run: accounts for what the walk met, after
/// embedding and storing the chunks of a file that is to be indexed.
pub fn index_entry<C: Chunker, E: Embedder, S: Store>(
    report: &mut IndexReport,
    root: &str,
    walker: &Walker,
    event: WalkEvent,
    chunker: &C,
    embedder: &E,
    store: &mut S,
)
    requires
        old(report)@.balanced(),
        event matches WalkEvent::File { path, size, content } ==> old(report).can_count(
            match content {
                Some(t) => chunker.chunks_of(path@, t@).len() as int,
                None => 0,
            },
        ),
    ensures
        final(report)@.balanced(),
        match event {
            WalkEvent::Failed(m) => final(report)@ == old(report)@.with_walk_error(root@, m@),
            WalkEvent::Other => *final(report) == *old(report),
            WalkEvent::File { path, size, content } => match settled(*walker, path@, size) {
                Some(o) => final(report)@ == old(report)@.with_file(o, path@),
                None => match content {
                    None => final(report)@ == old(report)@.with_file(
                        OutcomeData::Unreadable,
                        path@,
                    ),
                    Some(t) => {
                        let all = chunker.chunks_of(path@, t@);
                        ||| {
                            &&& stored_all(*embedder, *old(store), all, *final(store))
                            &&& final(report)@ == old(report)@.with_file(
                                OutcomeData::Indexed(all.len() as int),
                                path@,
                            )
                        }
                        ||| exists|m: Seq<char>|
                            #![trigger old(report)@.with_file(OutcomeData::Error(path@, m), path@)]
                            final(report)@ == old(report)@.with_file(
                                OutcomeData::Error(path@, m),
                                path@,
                            ) && fails(*embedder, *old(store), all, *final(store), m)
                    },
                },
            },
        },
        !reads(*walker, event) ==> *final(store) == *old(store),
{
    match event {
        WalkEvent::Failed(m) => {
            report.walk_error(root, m.as_str());
        },
        WalkEvent::Other => {},
        WalkEvent::File { path, size, content } => {
            if !walker.extension_ok(path.as_str()) {
                report.apply(Outcome::SkippedWrongExt, path.as_str());
                return ;
            }
            match size {
                Err(e) => {
                    report.apply(Outcome::Error(string_copy(path.as_str()), e), path.as_str());
                    return ;
                },
                Ok(n) => {
                    if n > walker.max_file_bytes {
                        report.apply(Outcome::SkippedTooBig, path.as_str());
                        return ;
                    }
                },
            }
            match content {
                None => {
                    report.apply(Outcome::SkippedUnreadable, path.as_str());
                },
                Some(t) => {
                    let outcome = index_file(path.as_str(), t.as_str(), chunker, embedder, store);
                    report.apply(outcome, path.as_str());
                },
            }
        },
    }
}

/// A file is to be visited if no extensions are asked for, or if it has one that is
/// among those asked for, where upper and lower case make no difference.
pub proof fn lemma_extensions_are_matched(walker: &Walker, path: &str, b: bool)
    requires
        call_ensures(Walker::extension_ok, (walker, path), b),
    ensures
        b <==> walker.include_ext@.len() == 0 || (paths::extension(walker.path_style, path@) matches Some(
            ext,
        ) && exists|i: int|
            0 <= i < walker.include_ext@.len() && text::lowercase(
                (#[trigger] walker.include_ext@[i])@,
            ) == text::lowercase(ext)),
{
    let list = lowered(text::views(walker.include_ext@));
    match paths::extension(walker.path_style, path@) {
        Some(ext) => {
            let low = text::lowercase(ext);
            if list.contains(low) {
                let i = choose|i: int| 0 <= i < list.len() && list[i] == low;
                assert(text::lowercase(walker.include_ext@[i]@) == low);
            }
            if exists|i: int|
                0 <= i < walker.include_ext@.len() && text::lowercase(
                    (#[trigger] walker.include_ext@[i])@,
                ) == low {
                let i = choose|i: int|
                    0 <= i < walker.include_ext@.len() && text::lowercase(
                        (#[trigger] walker.include_ext@[i])@,
                    ) == low;
                assert(list[i] == low);
            }
        },
        None => {},
    }
}

/// The default policy visits every extension and files of at most ten mebibytes,
/// follows no symbolic links and sees no hidden files. Asking for extensions changes
/// nothing else.
pub proof fn lemma_default_policy(w: Walker, exts: Vec<String>, narrowed: Walker)
    requires
        call_ensures(Walker::default_code, (), w),
        call_ensures(Walker::with_extensions, (w, exts), narrowed),
    ensures
        w.include_ext@.len() == 0,
        w.max_file_bytes == 10 * 1024 * 1024,
        !w.follow_symlinks && !w.show_hidden,
        narrowed.include_ext@.len() == exts@.len(),
        forall|i: int|
            0 <= i < exts@.len() ==> (#[trigger] narrowed.include_ext@[i])@ == text::lowercase(
                exts@[i]@,
            ),
        narrowed.max_file_bytes == w.max_file_bytes,
        narrowed.follow_symlinks == w.follow_symlinks,
        narrowed.show_hidden == w.show_hidden,
        narrowed.path_style == w.path_style,
{
    let a = text::views(narrowed.include_ext@);
    let b = lowered(text::views(exts@));
    assert(a.len() == narrowed.include_ext@.len() && b.len() == exts@.len());
    assert forall|i: int| 0 <= i < exts@.len() implies (#[trigger] narrowed.include_ext@[i])@
        == text::lowercase(exts@[i]@) by {
        assert(a[i] == b[i]);
    }
}

/// A file is read exactly if its extension is one to visit, its size is known and
/// it is not larger than allowed. What is not visited or too large is skipped, and
/// a file of unknown size is an error.
pub proof fn lemma_files_to_read(walker: Walker, path: Seq<char>, size: Result<u64, String>)
    ensures
        settled(walker, path, size) is None <==> walker.admits(path) && (size matches Ok(n) && n
            <= walker.max_file_bytes),
        !walker.admits(path) ==> settled(walker, path, size) == Some(OutcomeData::Skipped),
        walker.admits(path) && size is Err ==> settled(walker, path, size) == Some(
            OutcomeData::Error(path, size->Err_0@),
        ),
        walker.admits(path) && (size matches Ok(n) && n > walker.max_file_bytes) ==> settled(
            walker,
            path,
            size,
        ) == Some(OutcomeData::Skipped),
{
}

/// Accounting for a file adds one to the visited files, and one to the indexed
/// files and its chunks to the chunks put, or one to the skipped files. Only what is
/// unreadable or failed is listed, at the end.
pub proof fn lemma_file_is_accounted(report: &mut IndexReport, outcome: Outcome, path: &str)
    requires
        call_ensures(IndexReport::apply, (report, outcome, path), ()),
    ensures
        final(report).files_visited == old(report).files_visited + 1,
        outcome matches Outcome::Indexed(n) ==> {
            &&& final(report).files_indexed == old(report).files_indexed + 1
            &&& final(report).files_skipped == old(report).files_skipped
            &&& final(report).chunks_put == old(report).chunks_put + n
        },
        !(outcome is Indexed) ==> {
            &&& final(report).files_indexed == old(report).files_indexed
            &&& final(report).files_skipped == old(report).files_skipped + 1
            &&& final(report).chunks_put == old(report).chunks_put
        },
        outcome is SkippedTooBig || outcome is SkippedWrongExt || outcome is Indexed
            ==> final(report)@.errors == old(report)@.errors,
        outcome is SkippedUnreadable ==> final(report)@.errors == old(report)@.errors.push(
            (path@, "unreadable"@),
        ),
        outcome matches Outcome::Error(p, m) ==> final(report)@.errors == old(report)@.errors.push(
            (p@, m@),
        ),
{
    let a = old(report)@;
    let b = final(report)@;
    assert(b == a.with_file(outcome@, path@));
    assert(b.visited == final(report).files_visited && a.visited == old(report).files_visited);
}

/// One store leads to another by embedding a chunk by its text and putting it with
/// that vector.
pub open spec fn stores<E: Embedder, S: Store>(
    embedder: E,
    before: S,
    chunk: ChunkData,
    after: S,
) -> bool {
    exists|v: Seq<Single>|
        embeds(embedder, chunk.text, v) && #[trigger] S::puts(before, chunk, v, after, Ok(()))
}

/// Storing all chunks of a file is a chain of stores, one for each chunk in turn.
pub proof fn lemma_chunks_are_stored_in_turn<E: Embedder, S: Store>(
    embedder: E,
    before: S,
    chunks: Seq<ChunkData>,
    after: S,
) -> (chain: Seq<S>)
    requires
        stored_all(embedder, before, chunks, after),
    ensures
        chain.len() == chunks.len() + 1,
        chain[0] == before,
        chain[chunks.len() as int] == after,
        forall|i: int|
            #![trigger chunks[i]]
            0 <= i < chunks.len() ==> stores(embedder, chain[i], chunks[i], chain[i + 1]),
    decreases chunks.len(),
{
    if chunks.len() == 0 {
        seq![before]
    } else {
        let init = chunks.drop_last();
        let last = chunks.last();
        let (mid, v) = choose|mid: S, v: Seq<Single>|
            stored_all(embedder, before, init, mid) && embeds(embedder, last.text, v)
                && #[trigger] S::puts(mid, last, v, after, Ok(()));
        let head = lemma_chunks_are_stored_in_turn(embedder, before, init, mid);
        let chain = head.push(after);
        assert forall|i: int|
            #![trigger chunks[i]]
            0 <= i < chunks.len() implies stores(embedder, chain[i], chunks[i], chain[i + 1]) by {
            if i < init.len() {
                assert(init[i] == chunks[i]);
            } else {
                assert(stores(embedder, mid, last, after));
            }
        }
        chain
    }
}

/// An error of the walk is listed under the root, and counts for no file.
pub proof fn lemma_walk_error_is_listed(report: &mut IndexReport, root: &str, message: &str)
    requires
        call_ensures(IndexReport::walk_error, (report, root, message), ()),
    ensures
        final(report)@.errors == old(report)@.errors.push((root@, "walk error: "@ + message@)),
        final(report).files_visited == old(report).files_visited,
        final(report).files_indexed == old(report).files_indexed,
        final(report).files_skipped == old(report).files_skipped,
        final(report).chunks_put == old(report).chunks_put,
{
    let a = old(report)@;
    let b = final(report)@;
    assert(b == a.with_walk_error(root@, message@));
    assert(b.visited == final(report).files_visited && a.visited == old(report).files_visited);
}

/// An event is accounted for: an error of the walk is listed, what is no file changes
/// nothing, and a file counts as visited once. A store that is changed was read into:
/// the file has an extension to visit, is not too large and could be read.
pub proof fn lemma_event_is_accounted<C: Chunker, E: Embedder, S: Store>(
    report: &mut IndexReport,
    root: &str,
    walker: &Walker,
    event: WalkEvent,
    chunker: &C,
    embedder: &E,
    store: &mut S,
)
    requires
        call_ensures(
            index_entry::<C, E, S>,
            (report, root, walker, event, chunker, embedder, store),
            (),
        ),
    ensures
        event is Other ==> *final(report) == *old(report) && *final(store) == *old(store),
        event matches WalkEvent::Failed(m) ==> final(report)@.errors == old(report)@.errors.push(
            (root@, "walk error: "@ + m@),
        ) && final(report)@.visited == old(report)@.visited && *final(store) == *old(store),
        event matches WalkEvent::File { path, size, content } ==> {
            let fits = walker.admits(path@) && (size matches Ok(n) && n <= walker.max_file_bytes);
            &&& final(report)@.visited == old(report)@.visited + 1
            &&& !fits || content is None ==> *final(store) == *old(store) && final(report)@.skipped
                == old(report)@.skipped + 1 && final(report)@.put == old(report)@.put
            &&& fits && content is None ==> final(report)@.errors == old(report)@.errors.push(
                (path@, "unreadable"@),
            )
            &&& !walker.admits(path@) || (size matches Ok(n) && n > walker.max_file_bytes)
                ==> final(report)@.errors == old(report)@.errors
            &&& walker.admits(path@) && size is Err ==> final(report)@.errors == old(
                report,
            )@.errors.push((path@, size->Err_0@))
            &&& final(report)@.indexed == old(report)@.indexed + 1 || final(report)@.skipped == old(
                report,
            )@.skipped + 1
        },
{
}

/// A report begins with nothing counted and nothing listed.
pub proof fn lemma_report_begins_empty(r: IndexReport)
    requires
        call_ensures(<IndexReport as Default>::default, (), r),
    ensures
        r.files_visited == 0 && r.files_indexed == 0 && r.files_skipped == 0 && r.chunks_put == 0,
        r@.errors.len() == 0,
{
    let d = r@;
    assert(d.visited == r.files_visited && d.indexed == r.files_indexed);
    assert(d.skipped == r.files_skipped && d.put == r.chunks_put);
}

/// A file fails at one of its chunks: all before it were stored in turn, and it could
/// not be embedded, or not be put, as the message says.
pub proof fn lemma_failure_is_that_of_a_chunk<E: Embedder, S: Store>(
    embedder: E,
    before: S,
    chunks: Seq<ChunkData>,
    after: S,
    message: Seq<char>,
) -> (r: (int, Seq<S>, Seq<char>))
    requires
        fails(embedder, before, chunks, after, message),
    ensures
        0 <= r.0 < chunks.len(),
        r.1.len() == r.0 + 1,
        r.1[0] == before,
        forall|i: int|
            #![trigger chunks[i]]
            0 <= i < r.0 ==> stores(embedder, r.1[i], chunks[i], r.1[i + 1]),
        (message == "embed chunk "@ + chunks[r.0].id + ": "@ + r.2 && after == r.1[r.0]) || (message
            == "put: "@ + r.2 && exists|v: Seq<Single>, e: String|
            e@ == r.2 && #[trigger] S::puts(r.1[r.0], chunks[r.0], v, after, Err(e))),
{
    let k = choose|k: int|
        0 <= k < chunks.len() && #[trigger] fails_at(embedder, before, chunks, k, after, message);
    let head = chunks.take(k);
    if stored_all(embedder, before, head, after) && exists|e: Seq<char>| #[trigger]
        embed_fails(embedder, chunks[k].text, e) && message == embed_message(chunks[k].id, e) {
        let e = choose|e: Seq<char>| #[trigger]
            embed_fails(embedder, chunks[k].text, e) && message == embed_message(chunks[k].id, e);
        let chain = lemma_chunks_are_stored_in_turn(embedder, before, head, after);
        assert forall|i: int|
            #![trigger chunks[i]]
            0 <= i < k implies stores(embedder, chain[i], chunks[i], chain[i + 1]) by {
            assert(head[i] == chunks[i]);
        }
        assert(chain[k] == after);
        (k, chain, e)
    } else {
        let (mid, v, e) = choose|mid: S, v: Seq<Single>, e: String|
            stored_all(embedder, before, chunks.take(k), mid) && embeds(
                embedder,
                chunks[k].text,
                v,
            ) && #[trigger] S::puts(mid, chunks[k], v, after, Err(e)) && message == "put: "@ + e@;
        let chain = lemma_chunks_are_stored_in_turn(embedder, before, head, mid);
        assert forall|i: int|
            #![trigger chunks[i]]
            0 <= i < k implies stores(embedder, chain[i], chunks[i], chain[i + 1]) by {
            assert(head[i] == chunks[i]);
        }
        assert(chain[k] == mid);
        assert(S::puts(chain[k], chunks[k], v, after, Err(e)));
        (k, chain, e@)
    }
}

} // verus!
