//! Vector store: chunks with one vector each, their place on disk and the
//! ranking of a query.
use crate::chunk::{self, Chunk, ChunkData};
use crate::records;
use crate::retrieve::Embedder;
use crate::selection::{self, top_ranked, Candidate};
use crate::single::Single;
use crate::streamer::{self, read_double_word};
use crate::text::{
    self, chars_of, decimal_string, replace_char, starts_with, str_eq, string_copy,
};
use vstd::hash_map::StringHashMap;
use vstd::prelude::*;

verus! {

/// Version of the manifest.
pub const MANIFEST_VERSION: u32 = 1;

/// What the manifest of a store says.
#[derive(Debug)]
pub struct Manifest {
    pub version: u32,
    pub dim: usize,
    pub tag: String,
    pub count: usize,
}

/// Why a store refuses a request.
#[derive(Debug)]
pub enum StoreError {
    /// Vectors would have no elements.
    ZeroDim,
    /// The manifest has an unknown version.
    UnsupportedVersion(u32),
    /// Dimension on disk and expected.
    DimMismatch(usize, usize),
    /// Embedder tag on disk and expected.
    TagMismatch(String, String),
    /// The size of the vectors is not a machine number.
    SizeOverflow,
    /// Size of the vector file, expected size, count and dimension.
    VectorsSize(usize, usize, usize, usize),
    /// Number of chunks and count of the manifest.
    CountMismatch(usize, usize),
    /// An identifier occurs twice.
    DuplicateId(String),
    /// Dimension of a vector to put and of the store.
    PutDim(usize, usize),
    /// Dimension of a query and of the store.
    QueryDim(usize, usize),
}

/// The quoted and escaped form of a text.
pub uninterp spec fn quoted(s: Seq<char>) -> Seq<char>;

/// `format!("{:?}", s)`: the debug form of a string, a function of its
/// characters.
#[verifier::external_body]
pub(crate) fn quote(s: &str) -> (r: String)
    ensures
        r@ == quoted(s@),
{
    format!("{:?}", s)
}

/// Text of a number.
pub open spec fn number(n: usize) -> Seq<char> {
    text::decimal(n as nat)
}

impl StoreError {
    /// The error in words.
    pub open spec fn words(self) -> Seq<char> {
        match self {
            StoreError::ZeroDim => "dim must be > 0"@,
            StoreError::UnsupportedVersion(v) => "unsupported manifest version "@ + text::decimal(
                v as nat,
            ) + " (expected "@ + text::decimal(MANIFEST_VERSION as nat) + ")"@,
            StoreError::DimMismatch(a, b) => "dim mismatch: on-disk "@ + number(a)
                + " vs expected "@ + number(b),
            StoreError::TagMismatch(a, b) => "tag mismatch: on-disk "@ + quoted(a@)
                + " vs expected "@ + quoted(b@),
            StoreError::SizeOverflow => "count*dim*4 overflows"@,
            StoreError::VectorsSize(a, e, c, d) => "vectors.bin size "@ + number(a)
                + " != count*dim*4 "@ + number(e) + " (count="@ + number(c) + ", dim="@ + number(d)
                + ")"@,
            StoreError::CountMismatch(a, b) => "chunks.jsonl has "@ + number(a)
                + " lines but manifest says count="@ + number(b),
            StoreError::DuplicateId(id) => "duplicate chunk id "@ + id@ + " in chunks.jsonl"@,
            StoreError::PutDim(a, b) => "put: vector dim "@ + number(a) + " != store dim "@
                + number(b),
            StoreError::QueryDim(a, b) => "query: vector dim "@ + number(a) + " != store dim "@
                + number(b),
        }
    }

    /// The error in words.
    pub fn message(&self) -> (r: String)
        ensures
            r@ == self.words(),
    {
        match self {
            StoreError::ZeroDim => string_copy("dim must be > 0"),
            StoreError::UnsupportedVersion(v) => {
                let mut r = string_copy("unsupported manifest version ");
                r.append(decimal_string(*v as u64).as_str());
                r.append(" (expected ");
                r.append(decimal_string(MANIFEST_VERSION as u64).as_str());
                r.append(")");
                r
            },
            StoreError::DimMismatch(a, b) => two_numbers(
                "dim mismatch: on-disk ",
                *a,
                " vs expected ",
                *b,
            ),
            StoreError::TagMismatch(a, b) => {
                let mut r = string_copy("tag mismatch: on-disk ");
                r.append(quote(a.as_str()).as_str());
                r.append(" vs expected ");
                r.append(quote(b.as_str()).as_str());
                r
            },
            StoreError::SizeOverflow => string_copy("count*dim*4 overflows"),
            StoreError::VectorsSize(a, e, c, d) => {
                let mut r = two_numbers("vectors.bin size ", *a, " != count*dim*4 ", *e);
                r.append(" (count=");
                r.append(decimal_string(*c as u64).as_str());
                r.append(", dim=");
                r.append(decimal_string(*d as u64).as_str());
                r.append(")");
                r
            },
            StoreError::CountMismatch(a, b) => two_numbers(
                "chunks.jsonl has ",
                *a,
                " lines but manifest says count=",
                *b,
            ),
            StoreError::DuplicateId(id) => {
                let mut r = string_copy("duplicate chunk id ");
                r.append(id.as_str());
                r.append(" in chunks.jsonl");
                r
            },
            StoreError::PutDim(a, b) => two_numbers("put: vector dim ", *a, " != store dim ", *b),
            StoreError::QueryDim(a, b) => two_numbers(
                "query: vector dim ",
                *a,
                " != store dim ",
                *b,
            ),
        }
    }
}

fn two_numbers(first: &str, a: usize, second: &str, b: usize) -> (r: String)
    ensures
        r@ == first@ + number(a) + second@ + number(b),
{
    let mut r = string_copy(first);
    r.append(decimal_string(a as u64).as_str());
    r.append(second);
    r.append(decimal_string(b as u64).as_str());
    r
}

impl Manifest {
    /// Whether the manifest does not fit an expected dimension and tag.
    pub open spec fn mismatch(self, dim: usize, tag: Seq<char>) -> bool {
        self.version != MANIFEST_VERSION || self.dim != dim || self.tag@ != tag
    }

    /// Whether the manifest fits an expected dimension and tag. The version is
    /// looked at first, then the dimension, then the tag.
    pub fn check(&self, expected_dim: usize, expected_tag: &str) -> (r: Result<(), StoreError>)
        ensures
            match r {
                Ok(_) => !self.mismatch(expected_dim, expected_tag@),
                Err(e) => if self.version != MANIFEST_VERSION {
                    e == StoreError::UnsupportedVersion(self.version)
                } else if self.dim != expected_dim {
                    e == StoreError::DimMismatch(self.dim, expected_dim)
                } else {
                    &&& self.tag@ != expected_tag@
                    &&& e matches StoreError::TagMismatch(a, b) && a@ == self.tag@ && b@
                        == expected_tag@
                },
            },
    {
        if self.version != MANIFEST_VERSION {
            return Err(StoreError::UnsupportedVersion(self.version));
        }
        if self.dim != expected_dim {
            return Err(StoreError::DimMismatch(self.dim, expected_dim));
        }
        if !str_eq(self.tag.as_str(), expected_tag) {
            return Err(
                StoreError::TagMismatch(string_copy(self.tag.as_str()), string_copy(expected_tag)),
            );
        }
        Ok(())
    }
}

/// Byte `i` of numbers in little-endian order.
pub open spec fn encoded_byte(v: Seq<Single>, i: int) -> u8 {
    let bits = v[i / 4].bits as int;
    let part = if i % 4 == 0 {
        bits
    } else if i % 4 == 1 {
        bits / 0x100
    } else if i % 4 == 2 {
        bits / 0x1_0000
    } else {
        bits / 0x100_0000
    };
    (part % 256) as u8
}

/// Numbers in little-endian order.
pub open spec fn encoded(v: Seq<Single>) -> Seq<u8> {
    Seq::new(4 * v.len(), |i: int| encoded_byte(v, i))
}

/// The numbers that bytes in little-endian order hold.
pub open spec fn decoded(bytes: Seq<u8>) -> Seq<Single> {
    Seq::new(bytes.len() / 4, |i: int| Single { bits: streamer::double_word(bytes, 4 * i) })
}

proof fn lemma_bytes_of_number(v: Seq<Single>, i: int)
    requires
        0 <= i < v.len(),
    ensures
        streamer::double_word(encoded(v), 4 * i) == v[i].bits,
{
    let bytes = encoded(v);
    let bits = v[i].bits;
    assert(4 * i / 4 == i && 4 * i % 4 == 0);
    assert((4 * i + 1) / 4 == i && (4 * i + 1) % 4 == 1);
    assert((4 * i + 2) / 4 == i && (4 * i + 2) % 4 == 2);
    assert((4 * i + 3) / 4 == i && (4 * i + 3) % 4 == 3);
    assert(bytes[4 * i] == bits % 256);
    assert(bytes[4 * i + 1] == bits / 0x100 % 256);
    assert(bytes[4 * i + 2] == bits / 0x1_0000 % 256);
    assert(bytes[4 * i + 3] == bits / 0x100_0000 % 256);
    assert(bits % 256 + 0x100 * (bits / 0x100 % 256) + 0x1_0000 * (bits / 0x1_0000 % 256)
        + 0x100_0000 * (bits / 0x100_0000 % 256) == bits) by (bit_vector);
}

/// Decoding gives back what was encoded.
pub proof fn lemma_decoding_inverts_encoding(v: Seq<Single>)
    ensures
        decoded(encoded(v)) == v,
{
    let bytes = encoded(v);
    assert forall|i: int| 0 <= i < v.len() implies #[trigger] decoded(bytes)[i] == v[i] by {
        lemma_bytes_of_number(v, i);
    }
    assert(decoded(bytes) == v);
}

/// Writes numbers in little-endian order.
pub fn encode_vectors(v: &[Single]) -> (r: Vec<u8>)
    ensures
        r@ == encoded(v@),
{
    let mut r: Vec<u8> = Vec::new();
    for i in 0..v.len()
        invariant
            r@ == encoded(v@.take(i as int)),
    {
        let bits: u32 = v[i].bits;
        let ghost before = r@;
        r.push((bits % 256) as u8);
        r.push((bits / 0x100 % 256) as u8);
        r.push((bits / 0x1_0000 % 256) as u8);
        r.push((bits / 0x100_0000 % 256) as u8);
        let ghost next = v@.take(i + 1);
        assert forall|j: int| 0 <= j < r@.len() implies #[trigger] r@[j] == encoded_byte(next, j) by {
            if j < 4 * i {
                assert(before[j] == encoded_byte(v@.take(i as int), j));
            }
        }
        assert(r@ == encoded(next));
    }
    assert(v@.take(v@.len() as int) == v@);
    r
}

/// The outcome of reading vectors: the size must be exactly theirs; where there
/// are none, it is ignored.
pub open spec fn vectors_read(
    bytes: Seq<u8>,
    count: usize,
    dim: usize,
    r: Result<Vec<Single>, StoreError>,
) -> bool {
    match r {
        Ok(v) => v@.len() == count * dim && if count == 0 {
            v@ == Seq::<Single>::empty()
        } else {
            bytes.len() == count * dim * 4 && v@ == decoded(bytes)
        },
        Err(e) => count > 0 && if count * dim * 4 > usize::MAX {
            e == StoreError::SizeOverflow
        } else {
            bytes.len() != count * dim * 4 && e == StoreError::VectorsSize(
                bytes.len() as usize,
                (count * dim * 4) as usize,
                count,
                dim,
            )
        },
    }
}

/// Reads `count` vectors of `dim` numbers. The size must be exactly theirs;
/// where there are none, it is ignored.
pub fn decode_vectors(bytes: &[u8], count: usize, dim: usize) -> (r: Result<
    Vec<Single>,
    StoreError,
>)
    ensures
        vectors_read(bytes@, count, dim, r),
{
    let mut v: Vec<Single> = Vec::new();
    if count == 0 {
        assert(count * dim == 0) by (nonlinear_arith)
            requires
                count == 0,
        ;
        return Ok(v);
    }
    let expected: usize = match count.checked_mul(dim) {
        Some(n) => match n.checked_mul(4) {
            Some(m) => m,
            None => {
                return Err(StoreError::SizeOverflow);
            },
        },
        None => {
            return Err(StoreError::SizeOverflow);
        },
    };
    if bytes.len() != expected {
        return Err(StoreError::VectorsSize(bytes.len(), expected, count, dim));
    }
    let n: usize = expected / 4;
    for i in 0..n
        invariant
            bytes@.len() == 4 * n == expected,
            v@ == decoded(bytes@).take(i as int),
    {
        v.push(Single { bits: read_double_word(bytes, 4 * i) });
        assert(v@ == decoded(bytes@).take(i + 1));
    }
    assert(v@ == decoded(bytes@));
    Ok(v)
}

/// A hit: the identifier of a chunk with its similarity to the query.
#[derive(Debug)]
pub struct Hit {
    pub chunk_id: String,
    pub score: Single,
}

impl Hit {
    /// The identifier and the similarity.
    pub open spec fn data(self) -> (Seq<char>, Single) {
        (self.chunk_id@, self.score)
    }
}

impl Clone for Hit {
    fn clone(&self) -> (r: Self)
        ensures
            r.data() == self.data(),
    {
        Hit { chunk_id: string_copy(self.chunk_id.as_str()), score: self.score }
    }
}

/// Vector store of one directory.
pub struct FileStore {
    pub dir: String,
    pub dim: usize,
    pub tag: String,
    /// Vector `i` stands at `i * dim`.
    pub vectors: Vec<Single>,
    pub chunks: Vec<Chunk>,
    /// Position of each chunk by its identifier.
    pub chunk_index: StringHashMap<usize>,
    /// There are changes that are not on disk.
    pub dirty: bool,
}

/// A chunk with its vector.
pub struct Entry {
    pub chunk: ChunkData,
    pub vector: Seq<Single>,
}

/// Vector `i` of a row-major table.
pub open spec fn row_of(vectors: Seq<Single>, dim: usize, i: int) -> Seq<Single> {
    vectors.subrange(i * dim, i * dim + dim)
}

/// Some chunks with the vectors of a row-major table.
pub open spec fn table(chunks: Seq<Chunk>, vectors: Seq<Single>, dim: usize) -> Seq<Entry> {
    Seq::new(
        chunks.len(),
        |i: int| Entry { chunk: chunks[i]@, vector: row_of(vectors, dim, i) },
    )
}

/// Position of the chunk with an identifier.
pub open spec fn entry_position(entries: Seq<Entry>, id: Seq<char>) -> Option<int> {
    if exists|i: int| 0 <= i < entries.len() && (#[trigger] entries[i]).chunk.id == id {
        Some(choose|i: int| 0 <= i < entries.len() && (#[trigger] entries[i]).chunk.id == id)
    } else {
        None
    }
}

/// No identifier occurs twice.
pub open spec fn distinct_ids(entries: Seq<Entry>) -> bool {
    forall|i: int, j: int|
        0 <= i < j < entries.len() ==> (#[trigger] entries[i]).chunk.id != (
        #[trigger] entries[j]).chunk.id
}

/// The entries after a chunk and its vector are put: in the place of the entry
/// with the same identifier, or else at the end.
pub open spec fn upserted(entries: Seq<Entry>, e: Entry) -> Seq<Entry> {
    match entry_position(entries, e.chunk.id) {
        Some(i) => entries.update(i, e),
        None => entries.push(e),
    }
}

/// The path with forward slashes only.
pub open spec fn slashed(path: Seq<char>) -> Seq<char> {
    text::replaced(path, '\\', '/')
}

/// The path lies under a prefix, with either kind of slashes.
pub open spec fn under(path: Seq<char>, prefix: Seq<char>) -> bool {
    text::begins_with(slashed(path), slashed(prefix))
}

/// The entries whose paths do not lie under a prefix, in order.
pub open spec fn without(entries: Seq<Entry>, prefix: Seq<char>) -> Seq<Entry>
    decreases entries.len(),
{
    if entries.len() == 0 {
        seq![]
    } else {
        let before = without(entries.drop_last(), prefix);
        if under(entries.last().chunk.path, prefix) {
            before
        } else {
            before.push(entries.last())
        }
    }
}

/// What is done with a store.
pub enum StoreUse {
    /// A chunk with its vector is put.
    Put(Entry),
    /// The chunks under a prefix are removed.
    Remove(Seq<char>),
    /// What is pending is written. A store that is dropped is flushed too.
    Flush,
    /// What is pending is given up.
    Discard,
}

/// What a store holds, and whether any of it is pending.
#[verifier::ext_equal]
pub struct StoreState {
    pub entries: Seq<Entry>,
    pub dirty: bool,
}

impl StoreState {
    /// The state after a use.
    pub open spec fn after(self, u: StoreUse) -> StoreState {
        match u {
            StoreUse::Put(e) => StoreState { entries: upserted(self.entries, e), dirty: true },
            StoreUse::Remove(prefix) => {
                let left = if prefix.len() == 0 {
                    self.entries
                } else {
                    without(self.entries, prefix)
                };
                StoreState { entries: left, dirty: self.dirty || left.len() < self.entries.len() }
            },
            StoreUse::Flush => StoreState { dirty: false, ..self },
            StoreUse::Discard => StoreState { dirty: false, ..self },
        }
    }

    /// The state after some uses.
    pub open spec fn after_all(self, uses: Seq<StoreUse>) -> StoreState
        decreases uses.len(),
    {
        if uses.len() == 0 {
            self
        } else {
            self.after_all(uses.drop_last()).after(uses.last())
        }
    }

    /// The entries on disk after some uses, of which a flush alone writes, and
    /// only where something is pending. `disk` was there before.
    pub open spec fn on_disk(self, uses: Seq<StoreUse>, disk: Seq<Entry>) -> Seq<Entry>
        decreases uses.len(),
    {
        if uses.len() == 0 {
            disk
        } else {
            let before = self.after_all(uses.drop_last());
            if uses.last() is Flush && before.dirty {
                before.entries
            } else {
                self.on_disk(uses.drop_last(), disk)
            }
        }
    }
}

impl FileStore {
    /// What the store holds, and whether any of it is pending.
    pub open spec fn state(self) -> StoreState {
        StoreState { entries: self.entries(), dirty: self.dirty }
    }

    /// Number of chunks.
    pub open spec fn count(self) -> int {
        self.chunks@.len() as int
    }

    /// The chunks with their vectors.
    pub open spec fn entries(self) -> Seq<Entry> {
        table(self.chunks@, self.vectors@, self.dim)
    }

    /// There is exactly one vector for each chunk, and the index finds each
    /// chunk by its identifier and nothing else.
    pub open spec fn valid(self) -> bool {
        &&& self.vectors@.len() == self.count() * self.dim
        &&& indexes(self.chunk_index@, self.chunks@)
    }

    /// The manifest is the store's.
    pub open spec fn described_by(self, m: Manifest) -> bool {
        &&& m.version == MANIFEST_VERSION
        &&& m.dim == self.dim
        &&& m.tag@ == self.tag@
        &&& m.count == self.count()
    }
}

impl FileStore {
    /// The files hold the vectors and the manifest of the store.
    pub open spec fn written_as(self, f: Flush) -> bool {
        &&& f.vectors@ == encoded(self.vectors@)
        &&& self.described_by(f.manifest)
    }
}

/// The index finds each chunk by its identifier and nothing else.
pub open spec fn indexes(index: Map<Seq<char>, usize>, chunks: Seq<Chunk>) -> bool {
    &&& forall|i: int|
        0 <= i < chunks.len() ==> index.contains_key((#[trigger] chunks[i]).id@)
            && index[chunks[i].id@] == i
    &&& forall|id: Seq<char>| #[trigger]
        index.contains_key(id) ==> index[id] < chunks.len() && chunks[index[id] as int].id@ == id
}

/// The identifiers of some chunks are distinct.
pub open spec fn distinct(chunks: Seq<Chunk>) -> bool {
    forall|i: int, j: int|
        0 <= i < j < chunks.len() ==> (#[trigger] chunks[i]).id@ != (#[trigger] chunks[j]).id@
}

/// `id` is the first identifier that occurred before.
pub open spec fn first_repeated(chunks: Seq<Chunk>, id: Seq<char>) -> bool {
    exists|j: int|
        0 <= j < chunks.len() && (#[trigger] chunks[j]).id@ == id && distinct(chunks.take(j))
            && exists|i: int| 0 <= i < j && (#[trigger] chunks[i]).id@ == id
}

proof fn lemma_index_is_distinct(index: Map<Seq<char>, usize>, chunks: Seq<Chunk>)
    requires
        indexes(index, chunks),
    ensures
        distinct(chunks),
{
    assert forall|i: int, j: int| 0 <= i < j < chunks.len() implies (#[trigger] chunks[i]).id@ != (
    #[trigger] chunks[j]).id@ by {
        assert(index[chunks[i].id@] == i);
        assert(index[chunks[j].id@] == j);
    }
}

proof fn lemma_entry_position(s: FileStore, id: Seq<char>)
    requires
        s.valid(),
    ensures
        match entry_position(s.entries(), id) {
            Some(i) => s.chunk_index@.contains_key(id) && i == s.chunk_index@[id],
            None => !s.chunk_index@.contains_key(id),
        },
        distinct_ids(s.entries()),
{
    lemma_index_is_distinct(s.chunk_index@, s.chunks@);
    let entries = s.entries();
    if s.chunk_index@.contains_key(id) {
        let k = s.chunk_index@[id] as int;
        assert(entries[k].chunk.id == id);
    }
    if exists|i: int| 0 <= i < entries.len() && (#[trigger] entries[i]).chunk.id == id {
        let i = choose|i: int| 0 <= i < entries.len() && (#[trigger] entries[i]).chunk.id == id;
        assert(s.chunks@[i].id@ == id);
    }
    assert forall|i: int, j: int| 0 <= i < j < entries.len() implies (
    #[trigger] entries[i]).chunk.id != (#[trigger] entries[j]).chunk.id by {
        assert(s.chunks@[i].id@ != s.chunks@[j].id@);
    }
}

/// Rows before `n` end at or before `n * dim`.
proof fn lemma_row_within(i: int, n: int, dim: int)
    requires
        0 <= i < n,
        0 <= dim,
    ensures
        0 <= i * dim,
        i * dim + dim <= n * dim,
{
    assert(0 <= i * dim) by (nonlinear_arith)
        requires
            0 <= i,
            0 <= dim,
    ;
    assert(i * dim + dim <= n * dim) by (nonlinear_arith)
        requires
            i + 1 <= n,
            0 <= dim,
    ;
}

/// Different rows do not share elements.
proof fn lemma_rows_apart(i: int, k: int, dim: int)
    requires
        i != k,
        0 <= dim,
    ensures
        i < k ==> i * dim + dim <= k * dim,
        k < i ==> k * dim + dim <= i * dim,
{
    if i < k {
        assert(i * dim + dim <= k * dim) by (nonlinear_arith)
            requires
                i + 1 <= k,
                0 <= dim,
        ;
    } else {
        assert(k * dim + dim <= i * dim) by (nonlinear_arith)
            requires
                k + 1 <= i,
                0 <= dim,
        ;
    }
}

fn append_row(v: &mut Vec<Single>, row: &[Single])
    ensures
        final(v)@ == old(v)@ + row@,
{
    let ghost before = v@;
    for i in 0..row.len()
        invariant
            v@ == before + row@.take(i as int),
    {
        v.push(row[i]);
        assert(row@.take(i + 1) == row@.take(i as int).push(row@[i as int]));
        assert(v@ == before + row@.take(i + 1));
    }
    assert(row@.take(row@.len() as int) == row@);
}

/// The outcome of creating a store: it is empty and not on disk yet.
pub open spec fn created(
    dir: Seq<char>,
    dim: usize,
    tag: Seq<char>,
    r: Result<FileStore, StoreError>,
) -> bool {
    match r {
        Ok(s) => {
            &&& dim > 0
            &&& s.valid()
            &&& s.entries() == Seq::<Entry>::empty()
            &&& s.dir@ == dir
            &&& s.dim == dim
            &&& s.tag@ == tag
            &&& s.dirty
        },
        Err(e) => dim == 0 && e is ZeroDim,
    }
}

/// The outcome of opening a store: it holds what is on disk, unless the
/// manifest does not fit, the number of chunks is not the manifest's, or an
/// identifier is repeated, in this order.
pub open spec fn opened(
    dir: Seq<char>,
    manifest: Manifest,
    vectors: Vec<Single>,
    chunks: Vec<Chunk>,
    expected_dim: usize,
    expected_tag: Seq<char>,
    r: Result<FileStore, StoreError>,
) -> bool {
    match r {
        Ok(s) => {
            &&& !manifest.mismatch(expected_dim, expected_tag)
            &&& chunks@.len() == manifest.count
            &&& distinct(chunks@)
            &&& s.valid()
            &&& s.chunks == chunks
            &&& s.vectors == vectors
            &&& s.dir@ == dir
            &&& s.dim == expected_dim
            &&& s.tag@ == expected_tag
            &&& !s.dirty
        },
        Err(e) => if manifest.version != MANIFEST_VERSION {
            e == StoreError::UnsupportedVersion(manifest.version)
        } else if manifest.dim != expected_dim {
            e == StoreError::DimMismatch(manifest.dim, expected_dim)
        } else if manifest.tag@ != expected_tag {
            e matches StoreError::TagMismatch(a, b) && a@ == manifest.tag@ && b@ == expected_tag
        } else if chunks@.len() != manifest.count {
            e == StoreError::CountMismatch(chunks@.len() as usize, manifest.count)
        } else {
            e matches StoreError::DuplicateId(id) && first_repeated(chunks@, id@)
        },
    }
}

/// What a directory holds of a store.
pub struct Stored {
    pub manifest: Manifest,
    pub vectors: Vec<Single>,
    pub chunks: Vec<Chunk>,
}

/// What a flush writes besides the chunks.
pub struct Flush {
    pub vectors: Vec<u8>,
    pub manifest: Manifest,
}

/// The outcome of opening or creating a store: what is there is opened, and
/// where there is nothing, a store is created.
pub open spec fn opened_or_created(
    dir: Seq<char>,
    stored: Option<Stored>,
    dim: usize,
    tag: Seq<char>,
    r: Result<FileStore, StoreError>,
) -> bool {
    match stored {
        Some(s) => opened(dir, s.manifest, s.vectors, s.chunks, dim, tag, r),
        None => created(dir, dim, tag, r),
    }
}

impl FileStore {
    /// A new, empty store. Vectors must have at least one element.
    pub fn create(dir: &str, dim: usize, tag: &str) -> (r: Result<Self, StoreError>)
        ensures
            created(dir@, dim, tag@, r),
    {
        if dim == 0 {
            return Err(StoreError::ZeroDim);
        }
        let s = FileStore {
            dir: string_copy(dir),
            dim,
            tag: string_copy(tag),
            vectors: Vec::new(),
            chunks: Vec::new(),
            chunk_index: StringHashMap::new(),
            dirty: true,
        };
        assert(s.count() * s.dim == 0) by (nonlinear_arith)
            requires
                s.count() == 0,
        ;
        assert(s.entries() == Seq::<Entry>::empty());
        Ok(s)
    }

    /// The store of a directory from what is on disk there. Refuses a manifest
    /// that does not fit the expected dimension and tag, a number of chunks
    /// other than the manifest's, and a repeated identifier, in this order.
    pub fn open(
        dir: &str,
        manifest: Manifest,
        vectors: Vec<Single>,
        chunks: Vec<Chunk>,
        expected_dim: usize,
        expected_tag: &str,
    ) -> (r: Result<Self, StoreError>)
        requires
            vectors@.len() == manifest.count * manifest.dim,
        ensures
            opened(dir@, manifest, vectors, chunks, expected_dim, expected_tag@, r),
    {
        match manifest.check(expected_dim, expected_tag) {
            Ok(_) => {},
            Err(e) => {
                return Err(e);
            },
        }
        if chunks.len() != manifest.count {
            return Err(StoreError::CountMismatch(chunks.len(), manifest.count));
        }
        let mut chunk_index: StringHashMap<usize> = StringHashMap::new();
        assert(chunks@.take(0) == Seq::<Chunk>::empty());
        for i in 0..chunks.len()
            invariant
                !manifest.mismatch(expected_dim, expected_tag@),
                chunks@.len() == manifest.count,
                indexes(chunk_index@, chunks@.take(i as int)),
        {
            let ghost before = chunks@.take(i as int);
            let ghost after = chunks@.take(i + 1);
            let ghost index = chunk_index@;
            let id = chunks[i].id.as_str();
            if chunk_index.contains_key(id) {
                proof {
                    let j = index[id@] as int;
                    assert(before[j].id@ == id@);
                    assert(chunks@[j].id@ == id@);
                    lemma_index_is_distinct(index, before);
                    assert(chunks@[i as int].id@ == id@);
                    assert(first_repeated(chunks@, id@));
                }
                return Err(StoreError::DuplicateId(string_copy(id)));
            }
            chunk_index.insert(string_copy(id), i);
            assert forall|k: int| 0 <= k < after.len() implies chunk_index@.contains_key(
                (#[trigger] after[k]).id@,
            ) && chunk_index@[after[k].id@] == k by {
                if k < i {
                    assert(after[k] == before[k]);
                    assert(index.contains_key(before[k].id@));
                }
            }
            assert forall|x: Seq<char>| #[trigger] chunk_index@.contains_key(
                x,
            ) implies chunk_index@[x] < after.len() && after[chunk_index@[x] as int].id@ == x by {
                if x != id@ {
                    assert(index.contains_key(x));
                    assert(before[index[x] as int] == after[index[x] as int]);
                }
            }
        }
        assert(chunks@.take(chunks@.len() as int) == chunks@);
        proof {
            lemma_index_is_distinct(chunk_index@, chunks@);
        }
        Ok(
            FileStore {
                dir: string_copy(dir),
                dim: manifest.dim,
                tag: manifest.tag,
                vectors,
                chunks,
                chunk_index,
                dirty: false,
            },
        )
    }

    /// The store of a directory: from what is there, or a new one where there is
    /// nothing.
    pub fn open_or_create(
        dir: &str,
        stored: Option<Stored>,
        expected_dim: usize,
        expected_tag: &str,
    ) -> (r: Result<Self, StoreError>)
        requires
            stored matches Some(s) ==> s.vectors@.len() == s.manifest.count * s.manifest.dim,
        ensures
            opened_or_created(dir@, stored, expected_dim, expected_tag@, r),
    {
        match stored {
            Some(s) => Self::open(
                dir,
                s.manifest,
                s.vectors,
                s.chunks,
                expected_dim,
                expected_tag,
            ),
            None => Self::create(dir, expected_dim, expected_tag),
        }
    }

    /// The store of a directory for an embedder: with the dimension and the tag
    /// that the embedder gives.
    pub fn for_embedder<E: Embedder>(dir: &str, stored: Option<Stored>, e: &E) -> (r: Result<
        Self,
        StoreError,
    >)
        requires
            stored matches Some(s) ==> s.vectors@.len() == s.manifest.count * s.manifest.dim,
        ensures
            exists|dim: usize, tag: &str| #[trigger]
                call_ensures(E::dim, (e,), dim) && #[trigger] call_ensures(E::tag, (e,), tag)
                    && opened_or_created(dir@, stored, dim, tag@, r),
    {
        Self::open_or_create(dir, stored, e.dim(), e.tag())
    }

    /// Puts a chunk with its normalized vector. A chunk with the same
    /// identifier is replaced, a new one is appended.
    pub fn put(&mut self, chunk: &Chunk, vector: &[Single]) -> (r: Result<(), StoreError>)
        requires
            old(self).valid(),
        ensures
            final(self).valid(),
            match r {
                Ok(_) => {
                    &&& vector@.len() == old(self).dim
                    &&& final(self).entries() == upserted(
                        old(self).entries(),
                        Entry { chunk: chunk@, vector: vector@ },
                    )
                    &&& final(self).dirty
                    &&& final(self).state() == old(self).state().after(
                        StoreUse::Put(Entry { chunk: chunk@, vector: vector@ }),
                    )
                },
                Err(e) => {
                    &&& vector@.len() != old(self).dim
                    &&& e == StoreError::PutDim(vector@.len() as usize, old(self).dim)
                    &&& *final(self) == *old(self)
                },
            },
            final(self).dir == old(self).dir,
            final(self).dim == old(self).dim,
            final(self).tag == old(self).tag,
    {
        if vector.len() != self.dim {
            return Err(StoreError::PutDim(vector.len(), self.dim));
        }
        let ghost before = *self;
        let ghost entry = Entry { chunk: chunk@, vector: vector@ };
        let ghost dim = self.dim as int;
        proof {
            lemma_entry_position(before, chunk.id@);
        }
        let found: Option<usize> = match self.chunk_index.get(chunk.id.as_str()) {
            Some(i) => Some(*i),
            None => None,
        };
        match found {
            Some(idx) => {
                let ghost n = before.count();
                proof {
                    lemma_row_within(idx as int, n, dim);
                }
                assert(idx * dim <= self.vectors@.len());
                let len: usize = self.vectors.len();
                let start: usize = idx * self.dim;
                for j in 0..vector.len()
                    invariant
                        dim == self.dim == vector@.len(),
                        start == idx * dim,
                        start + dim <= self.vectors@.len() == len,
                        self.chunks == before.chunks,
                        self.chunk_index == before.chunk_index,
                        self.dir == before.dir,
                        self.dim == before.dim,
                        self.tag == before.tag,
                        self.vectors@.len() == before.vectors@.len(),
                        forall|p: int|
                            0 <= p < len ==> #[trigger] self.vectors@[p] == (if start <= p < start
                                + j {
                                vector@[p - start]
                            } else {
                                before.vectors@[p]
                            }),
                {
                    self.vectors.set(start + j, vector[j]);
                }
                let copy = chunk.clone();
                self.chunks.set(idx, copy);
                self.dirty = true;
                proof {
                    let chunks = self.chunks@;
                    assert(chunks == before.chunks@.update(idx as int, copy));
                    assert forall|i: int| 0 <= i < chunks.len() implies self.chunk_index@.contains_key(
                        (#[trigger] chunks[i]).id@,
                    ) && self.chunk_index@[chunks[i].id@] == i by {
                        assert(chunks[i].id@ == before.chunks@[i].id@);
                    }
                    assert forall|id: Seq<char>| #[trigger] self.chunk_index@.contains_key(
                        id,
                    ) implies self.chunk_index@[id] < chunks.len()
                        && chunks[self.chunk_index@[id] as int].id@ == id by {
                        let k = self.chunk_index@[id] as int;
                        assert(chunks[k].id@ == before.chunks@[k].id@);
                    }
                    assert forall|i: int| 0 <= i < n implies #[trigger] self.entries()[i]
                        == before.entries().update(idx as int, entry)[i] by {
                        lemma_row_within(i, n, dim);
                        if i != idx {
                            lemma_rows_apart(i, idx as int, dim);
                        }
                        assert(self.entries()[i].vector == before.entries().update(
                            idx as int,
                            entry,
                        )[i].vector);
                    }
                    assert(self.entries() == upserted(before.entries(), entry));
                }
            },
            None => {
                let ghost n = before.count();
                let idx: usize = self.chunks.len();
                append_row(&mut self.vectors, vector);
                let copy = chunk.clone();
                self.chunks.push(copy);
                self.chunk_index.insert(string_copy(chunk.id.as_str()), idx);
                self.dirty = true;
                proof {
                    let chunks = self.chunks@;
                    let index = self.chunk_index@;
                    assert((n + 1) * dim == n * dim + dim) by (nonlinear_arith);
                    assert forall|i: int| 0 <= i < chunks.len() implies index.contains_key(
                        (#[trigger] chunks[i]).id@,
                    ) && index[chunks[i].id@] == i by {
                        if i < n {
                            assert(chunks[i] == before.chunks@[i]);
                            assert(before.chunk_index@.contains_key(before.chunks@[i].id@));
                        }
                    }
                    assert forall|id: Seq<char>| #[trigger] index.contains_key(id) implies index[id]
                        < chunks.len() && chunks[index[id] as int].id@ == id by {
                        if id != chunk.id@ {
                            assert(before.chunk_index@.contains_key(id));
                            let k = before.chunk_index@[id] as int;
                            assert(chunks[k] == before.chunks@[k]);
                        }
                    }
                    assert forall|i: int| 0 <= i < n + 1 implies #[trigger] self.entries()[i]
                        == before.entries().push(entry)[i] by {
                        if i < n {
                            lemma_row_within(i, n, dim);
                            assert(self.entries()[i].vector == before.entries()[i].vector);
                        } else {
                            assert(self.entries()[i].vector == vector@);
                        }
                    }
                    assert(self.entries() == upserted(before.entries(), entry));
                }
            },
        }
        Ok(())
    }

    /// Marks the changes as not to be written.
    pub fn discard_pending_changes(&mut self)
        ensures
            *final(self) == (FileStore { dirty: false, ..*old(self) }),
            final(self).state() == old(self).state().after(StoreUse::Discard),
    {
        self.dirty = false;
    }

    /// Marks the changes as written.
    pub fn flushed(&mut self)
        ensures
            *final(self) == (FileStore { dirty: false, ..*old(self) }),
            final(self).state() == old(self).state().after(StoreUse::Flush),
    {
        self.dirty = false;
    }

    /// The manifest to write.
    pub fn manifest(&self) -> (r: Manifest)
        ensures
            self.described_by(r),
    {
        Manifest {
            version: MANIFEST_VERSION,
            dim: self.dim,
            tag: string_copy(self.tag.as_str()),
            count: self.chunks.len(),
        }
    }

    /// What is to be written, if there are changes: the vectors in little-endian
    /// order and the manifest. The chunks are written as they are.
    pub fn flush(&self) -> (r: Option<Flush>)
        ensures
            match r {
                Some(f) => self.dirty && self.written_as(f),
                None => !self.dirty,
            },
    {
        if self.dirty {
            Some(
                Flush {
                    vectors: encode_vectors(self.vectors.as_slice()),
                    manifest: self.manifest(),
                },
            )
        } else {
            None
        }
    }

    /// Number of chunks.
    pub fn len(&self) -> (n: usize)
        ensures
            n == self.count(),
    {
        self.chunks.len()
    }

    /// Whether there are no chunks.
    pub fn is_empty(&self) -> (b: bool)
        ensures
            b == (self.count() == 0),
    {
        self.chunks.len() == 0
    }

    /// The chunk with an identifier.
    pub fn get_chunk(&self, chunk_id: &str) -> (r: Option<Chunk>)
        requires
            self.valid(),
        ensures
            match r {
                Some(c) => entry_position(self.entries(), chunk_id@) matches Some(i) && c@
                    == self.entries()[i].chunk,
                None => entry_position(self.entries(), chunk_id@) is None,
            },
    {
        proof {
            lemma_entry_position(*self, chunk_id@);
        }
        match self.chunk_index.get(chunk_id) {
            Some(i) => Some(self.chunks[*i].clone()),
            None => None,
        }
    }

    /// The vector of chunk `i`.
    pub fn row(&self, i: usize) -> (r: &[Single])
        requires
            self.valid(),
            i < self.count(),
        ensures
            r@ == self.entries()[i as int].vector,
            r@.len() == self.dim,
    {
        proof {
            lemma_row_within(i as int, self.count(), self.dim as int);
        }
        let len: usize = self.vectors.len();
        let start: usize = i * self.dim;
        &self.vectors[start..start + self.dim]
    }
}

proof fn lemma_table_push(chunks: Seq<Chunk>, vectors: Seq<Single>, dim: usize, c: Chunk, row: Seq<Single>)
    requires
        vectors.len() == chunks.len() * dim,
        row.len() == dim,
    ensures
        table(chunks.push(c), vectors + row, dim) == table(chunks, vectors, dim).push(
            Entry { chunk: c@, vector: row },
        ),
        (vectors + row).len() == chunks.push(c).len() * dim,
{
    let n = chunks.len() as int;
    let d = dim as int;
    assert((n + 1) * d == n * d + d) by (nonlinear_arith);
    let all = table(chunks.push(c), vectors + row, dim);
    let expected = table(chunks, vectors, dim).push(Entry { chunk: c@, vector: row });
    assert forall|i: int| 0 <= i < n + 1 implies #[trigger] all[i] == expected[i] by {
        if i < n {
            lemma_row_within(i, n, d);
            assert(all[i].vector == expected[i].vector);
        } else {
            assert(all[i].vector == row);
        }
    }
    assert(all == expected);
}

impl FileStore {
    /// Removes the chunks whose paths lie under a prefix, and returns how many
    /// there were. An empty prefix removes nothing.
    pub fn remove_by_path_prefix(&mut self, prefix: &str) -> (removed: usize)
        requires
            old(self).valid(),
        ensures
            final(self).valid(),
            prefix@.len() == 0 ==> removed == 0,
            prefix@.len() > 0 ==> {
                &&& final(self).entries() == without(old(self).entries(), prefix@)
                &&& removed == old(self).count() - final(self).count()
            },
            removed == 0 ==> *final(self) == *old(self),
            removed > 0 ==> final(self).dirty,
            final(self).state() == old(self).state().after(StoreUse::Remove(prefix@)),
            final(self).entries() == old(self).entries().filter(
                |e: Entry| !lies_under(e.chunk.path, prefix@),
            ),
            final(self).dir == old(self).dir,
            final(self).dim == old(self).dim,
            final(self).tag == old(self).tag,
    {
        let prefix_chars = chars_of(prefix);
        proof {
            lemma_removal(self.state(), prefix@);
        }
        if prefix_chars.len() == 0 {
            return 0;
        }
        let needle = replace_char(prefix_chars.as_slice(), '\\', '/');
        let dim: usize = self.dim;
        let n: usize = self.chunks.len();
        let ghost entries = self.entries();
        let mut vectors: Vec<Single> = Vec::new();
        let mut chunks: Vec<Chunk> = Vec::new();
        let mut index: StringHashMap<usize> = StringHashMap::new();
        let mut removed: usize = 0;
        assert(entries.take(0) == Seq::<Entry>::empty());
        assert(table(chunks@, vectors@, dim) == Seq::<Entry>::empty());
        assert(chunks@.len() * dim == 0) by (nonlinear_arith)
            requires
                chunks@.len() == 0,
        ;
        proof {
            lemma_index_is_distinct(self.chunk_index@, self.chunks@);
        }
        for i in 0..n
            invariant
                self.valid(),
                distinct(self.chunks@),
                entries == self.entries(),
                dim == self.dim,
                n == self.chunks@.len(),
                needle@ == slashed(prefix@),
                vectors@.len() == chunks@.len() * dim,
                table(chunks@, vectors@, dim) == without(entries.take(i as int), prefix@),
                indexes(index@, chunks@),
                forall|k: int|
                    0 <= k < chunks@.len() ==> exists|m: int|
                        0 <= m < i && (#[trigger] self.chunks@[m]).id@ == (#[trigger] chunks@[k]).id@,
                removed + chunks@.len() == i,
                removed == 0 ==> chunks@.len() == i,
        {
            let ghost head = entries.take(i as int);
            assert(entries.take(i + 1).drop_last() == head);
            assert(entries.take(i + 1).last() == entries[i as int]);
            let path = chars_of(self.chunks[i].path.as_str());
            let normalized = replace_char(path.as_slice(), '\\', '/');
            if starts_with(normalized.as_slice(), needle.as_slice()) {
                removed = removed + 1;
            } else {
                let ghost old_chunks = chunks@;
                let ghost old_vectors = vectors@;
                let ghost old_index = index@;
                let at: usize = chunks.len();
                let row = self.row(i);
                append_row(&mut vectors, row);
                let copy = self.chunks[i].clone();
                index.insert(string_copy(copy.id.as_str()), at);
                chunks.push(copy);
                proof {
                    lemma_table_push(old_chunks, old_vectors, dim, copy, row@);
                    assert forall|k: int| 0 <= k < chunks@.len() implies index@.contains_key(
                        (#[trigger] chunks@[k]).id@,
                    ) && index@[chunks@[k].id@] == k by {
                        if k < at {
                            let m = choose|m: int|
                                0 <= m < i && (#[trigger] self.chunks@[m]).id@ == old_chunks[k].id@;
                            assert(chunks@[k] == old_chunks[k]);
                            assert(self.chunks@[m].id@ != self.chunks@[i as int].id@);
                            assert(old_index.contains_key(old_chunks[k].id@));
                        }
                    }
                    assert forall|id: Seq<char>| #[trigger] index@.contains_key(id) implies index@[id]
                        < chunks@.len() && chunks@[index@[id] as int].id@ == id by {
                        if id != copy.id@ {
                            assert(old_index.contains_key(id));
                            assert(chunks@[old_index[id] as int] == old_chunks[old_index[id] as int]);
                        }
                    }
                    assert forall|k: int| 0 <= k < chunks@.len() implies exists|m: int|
                        0 <= m < i + 1 && (#[trigger] self.chunks@[m]).id@ == (
                        #[trigger] chunks@[k]).id@ by {
                        if k < at {
                            let m = choose|m: int|
                                0 <= m < i && (#[trigger] self.chunks@[m]).id@ == old_chunks[k].id@;
                            assert(chunks@[k] == old_chunks[k]);
                            assert(self.chunks@[m].id@ == chunks@[k].id@);
                        } else {
                            assert(self.chunks@[i as int].id@ == chunks@[k].id@);
                        }
                    }
                }
            }
        }
        assert(entries.take(n as int) == entries);
        if removed > 0 {
            self.vectors = vectors;
            self.chunks = chunks;
            self.chunk_index = index;
            self.dirty = true;
        } else {
            proof {
                lemma_without_keeps_all(entries, prefix@);
            }
        }
        removed
    }

    /// The chunks most similar to a query, best first. `scores` holds the
    /// similarity of each chunk's vector to the normalized query. Equal scores
    /// keep the order of the store, and what is not a number comes last.
    pub fn query(&self, query: &[Single], scores: &[Single], top_k: usize) -> (r: Result<
        Vec<Hit>,
        StoreError,
    >)
        requires
            self.valid(),
            scores@.len() == self.count(),
        ensures
            match r {
                Ok(hits) => query@.len() == self.dim && exists|best: Seq<Candidate>| #[trigger]
                    selection::best_of(scores@, self.count(), top_k as int, best)
                        && hit_data(hits@) == best.map_values(
                        |c: Candidate| (self.entries()[c.0 as int].chunk.id, c.1),
                    ),
                Err(e) => query@.len() != self.dim && e == StoreError::QueryDim(
                    query@.len() as usize,
                    self.dim,
                ),
            },
    {
        if query.len() != self.dim {
            return Err(StoreError::QueryDim(query.len(), self.dim));
        }
        let best = top_ranked(scores, top_k);
        let mut hits: Vec<Hit> = Vec::new();
        let ghost named = best@.map_values(
            |c: Candidate| (self.entries()[c.0 as int].chunk.id, c.1),
        );
        for i in 0..best.len()
            invariant
                selection::best_of(scores@, self.count(), top_k as int, best@),
                named == best@.map_values(
                    |c: Candidate| (self.entries()[c.0 as int].chunk.id, c.1),
                ),
                hit_data(hits@) == named.take(i as int),
        {
            let (at, score) = best[i];
            assert(best@[i as int].0 < self.count());
            let ghost before = hits@;
            let hit = Hit { chunk_id: string_copy(self.chunks[at].id.as_str()), score };
            hits.push(hit);
            assert(hit_data(hits@) == hit_data(before).push(hit.data()));
            assert(named.take(i + 1) == named.take(i as int).push(named[i as int]));
        }
        assert(named.take(best@.len() as int) == named);
        Ok(hits)
    }
}

/// Identifiers and similarities of hits.
pub open spec fn hit_data(hits: Seq<Hit>) -> Seq<(Seq<char>, Single)> {
    hits.map_values(|h: Hit| h.data())
}

/// What lies under the prefix is gone, what does not stays, in order.
pub proof fn lemma_without(entries: Seq<Entry>, prefix: Seq<char>)
    ensures
        without(entries, prefix).len() <= entries.len(),
        forall|i: int|
            0 <= i < without(entries, prefix).len() ==> !under(
                (#[trigger] without(entries, prefix)[i]).chunk.path,
                prefix,
            ) && entries.contains(without(entries, prefix)[i]),
        forall|i: int|
            0 <= i < entries.len() && !under((#[trigger] entries[i]).chunk.path, prefix)
                ==> without(entries, prefix).contains(entries[i]),
    decreases entries.len(),
{
    if entries.len() > 0 {
        let init = entries.drop_last();
        let last = entries.last();
        let before = without(init, prefix);
        let after = without(entries, prefix);
        lemma_without(init, prefix);
        assert forall|i: int| 0 <= i < after.len() implies !under(
            (#[trigger] after[i]).chunk.path,
            prefix,
        ) && entries.contains(after[i]) by {
            if i < before.len() {
                assert(after[i] == before[i]);
                let j = choose|j: int| 0 <= j < init.len() && init[j] == before[i];
                assert(entries[j] == after[i]);
            } else {
                assert(entries[entries.len() - 1] == after[i]);
            }
        }
        assert forall|i: int|
            0 <= i < entries.len() && !under(
                (#[trigger] entries[i]).chunk.path,
                prefix,
            ) implies after.contains(entries[i]) by {
            if i < init.len() {
                assert(init[i] == entries[i]);
                let j = choose|j: int| 0 <= j < before.len() && before[j] == init[i];
                assert(after[j] == entries[i]);
            } else {
                assert(after[before.len() as int] == last);
            }
        }
    }
}

proof fn lemma_without_keeps_all(entries: Seq<Entry>, prefix: Seq<char>)
    requires
        without(entries, prefix).len() == entries.len(),
    ensures
        without(entries, prefix) == entries,
    decreases entries.len(),
{
    if entries.len() > 0 {
        lemma_without(entries.drop_last(), prefix);
        if !under(entries.last().chunk.path, prefix) {
            lemma_without_keeps_all(entries.drop_last(), prefix);
        }
        assert(entries == entries.drop_last().push(entries.last()));
    }
}

/// Putting a chunk whose identifier is present does not grow the store; any
/// other chunk grows it by one. Afterwards the identifier finds what was put,
/// and every other identifier finds what it found before.
pub proof fn lemma_put_then_get(entries: Seq<Entry>, e: Entry, id: Seq<char>)
    requires
        distinct_ids(entries),
    ensures
        distinct_ids(upserted(entries, e)),
        upserted(entries, e).len() == entries.len() + (if entry_position(entries, e.chunk.id) is Some {
            0int
        } else {
            1
        }),
        entry_position(upserted(entries, e), e.chunk.id) matches Some(i) && upserted(entries, e)[i]
            == e,
        id != e.chunk.id ==> match entry_position(entries, id) {
            Some(i) => entry_position(upserted(entries, e), id) == Some(i) && upserted(
                entries,
                e,
            )[i] == entries[i],
            None => entry_position(upserted(entries, e), id) is None,
        },
{
    let after = upserted(entries, e);
    let at = match entry_position(entries, e.chunk.id) {
        Some(i) => i,
        None => entries.len() as int,
    };
    assert(after[at] == e);
    assert forall|i: int, j: int| 0 <= i < j < after.len() implies (#[trigger] after[i]).chunk.id != (
    #[trigger] after[j]).chunk.id by {
        if i != at && j != at {
            assert(entries[i].chunk.id != entries[j].chunk.id);
        } else if at < entries.len() {
            assert(entries[i].chunk.id != entries[j].chunk.id);
        } else {
            assert(entries[i].chunk.id != e.chunk.id);
        }
    }
    lemma_position_unique(after, at);
    if id != e.chunk.id {
        match entry_position(entries, id) {
            Some(i) => {
                assert(after[i] == entries[i]);
                lemma_position_unique(after, i);
            },
            None => {
                assert forall|i: int| 0 <= i < after.len() implies (#[trigger] after[i]).chunk.id
                    != id by {
                    if i != at {
                        assert(after[i] == entries[i]);
                    }
                }
            },
        }
    }
}

proof fn lemma_position_unique(entries: Seq<Entry>, i: int)
    requires
        distinct_ids(entries),
        0 <= i < entries.len(),
    ensures
        entry_position(entries, entries[i].chunk.id) == Some(i),
{
    let j = choose|j: int|
        0 <= j < entries.len() && (#[trigger] entries[j]).chunk.id == entries[i].chunk.id;
    if j != i {
        assert(entries[i].chunk.id != entries[j].chunk.id);
    }
}

/// Putting the same chunk and vector again changes nothing.
pub proof fn lemma_put_is_idempotent(entries: Seq<Entry>, e: Entry)
    requires
        distinct_ids(entries),
    ensures
        upserted(upserted(entries, e), e) == upserted(entries, e),
{
    let after = upserted(entries, e);
    lemma_put_then_get(entries, e, e.chunk.id);
    let i = entry_position(after, e.chunk.id)->0;
    assert(after.update(i, e) == after);
}

/// The entries after some are put, one after the other.
pub open spec fn upserted_all(entries: Seq<Entry>, list: Seq<Entry>) -> Seq<Entry>
    decreases list.len(),
{
    if list.len() == 0 {
        entries
    } else {
        upserted(upserted_all(entries, list.drop_last()), list.last())
    }
}

/// The last of some entries with an identifier.
pub open spec fn last_with(list: Seq<Entry>, id: Seq<char>) -> Option<Entry>
    decreases list.len(),
{
    if list.len() == 0 {
        None
    } else if list.last().chunk.id == id {
        Some(list.last())
    } else {
        last_with(list.drop_last(), id)
    }
}

/// After some entries are put, each identifier among them finds the last of them
/// with it, and every other one finds what it found before. Nothing moves, and
/// where all identifiers were present, nothing is appended.
pub proof fn lemma_put_all(entries: Seq<Entry>, list: Seq<Entry>)
    requires
        distinct_ids(entries),
    ensures
        distinct_ids(upserted_all(entries, list)),
        upserted_all(entries, list).len() >= entries.len(),
        forall|i: int|
            0 <= i < entries.len() ==> (#[trigger] upserted_all(entries, list)[i]).chunk.id
                == entries[i].chunk.id,
        forall|i: int|
            0 <= i < upserted_all(entries, list).len() ==> {
                let e = #[trigger] upserted_all(entries, list)[i];
                match last_with(list, e.chunk.id) {
                    Some(put) => e == put,
                    None => i < entries.len() && e == entries[i],
                }
            },
        forall|k: int|
            0 <= k < list.len() ==> entry_position(
                upserted_all(entries, list),
                (#[trigger] list[k]).chunk.id,
            ) is Some,
        (forall|k: int|
            0 <= k < list.len() ==> entry_position(entries, (#[trigger] list[k]).chunk.id) is Some)
            ==> upserted_all(entries, list).len() == entries.len(),
    decreases list.len(),
{
    if list.len() > 0 {
        let init = list.drop_last();
        let e = list.last();
        let before = upserted_all(entries, init);
        let after = upserted_all(entries, list);
        lemma_put_all(entries, init);
        lemma_put_then_get(before, e, e.chunk.id);
        let at = match entry_position(before, e.chunk.id) {
            Some(i) => i,
            None => before.len() as int,
        };
        assert forall|i: int| 0 <= i < after.len() implies ({
            let x = #[trigger] after[i];
            match last_with(list, x.chunk.id) {
                Some(put) => x == put,
                None => i < entries.len() && x == entries[i],
            }
        }) by {
            if i != at {
                assert(after[i] == before[i]);
                assert(before[i].chunk.id != e.chunk.id) by {
                    if at < before.len() && i < at {
                        assert(before[i].chunk.id != before[at].chunk.id);
                    } else if at < before.len() {
                        assert(before[at].chunk.id != before[i].chunk.id);
                    }
                }
            }
        }
        assert forall|k: int| 0 <= k < list.len() implies entry_position(
            after,
            (#[trigger] list[k]).chunk.id,
        ) is Some by {
            if k < init.len() {
                assert(init[k] == list[k]);
                lemma_put_then_get(before, e, list[k].chunk.id);
            }
        }
        if forall|k: int|
            0 <= k < list.len() ==> entry_position(entries, (#[trigger] list[k]).chunk.id) is Some {
            assert forall|k: int| 0 <= k < init.len() implies entry_position(
                entries,
                (#[trigger] init[k]).chunk.id,
            ) is Some by {
                assert(init[k] == list[k]);
            }
            assert(list[list.len() - 1] == e);
            let i = entry_position(entries, e.chunk.id)->0;
            assert(before[i].chunk.id == e.chunk.id);
        }
    }
}

/// Indexing again changes nothing: putting the same entries a second time
/// leaves the store as the first time left it.
pub proof fn lemma_putting_again_changes_nothing(entries: Seq<Entry>, list: Seq<Entry>)
    requires
        distinct_ids(entries),
    ensures
        upserted_all(upserted_all(entries, list), list) == upserted_all(entries, list),
{
    let once = upserted_all(entries, list);
    let twice = upserted_all(once, list);
    lemma_put_all(entries, list);
    lemma_put_all(once, list);
    assert forall|i: int| 0 <= i < once.len() implies #[trigger] twice[i] == once[i] by {
        assert(twice[i].chunk.id == once[i].chunk.id);
    }
    assert(twice == once);
}

proof fn lemma_clean_store_is_on_disk(s: StoreState, uses: Seq<StoreUse>, disk: Seq<Entry>)
    requires
        !s.dirty ==> disk == s.entries,
        forall|i: int| 0 <= i < uses.len() ==> !(#[trigger] uses[i] is Discard),
    ensures
        !s.after_all(uses).dirty ==> s.on_disk(uses, disk) == s.after_all(uses).entries,
    decreases uses.len(),
{
    if uses.len() > 0 {
        let init = uses.drop_last();
        assert forall|i: int| 0 <= i < init.len() implies !(#[trigger] init[i] is Discard) by {
            assert(init[i] == uses[i]);
        }
        lemma_clean_store_is_on_disk(s, init, disk);
        let before = s.after_all(init);
        assert(!(uses[uses.len() - 1] is Discard));
        match uses.last() {
            StoreUse::Remove(prefix) => {
                lemma_without(before.entries, prefix);
                if without(before.entries, prefix).len() == before.entries.len() {
                    lemma_without_keeps_all(before.entries, prefix);
                }
            },
            _ => {},
        }
    }
}

/// No change is lost: whatever is done with a store whose entries are on disk
/// unless something is pending, a last flush, as when the store is dropped,
/// leaves on disk exactly what the store holds. Discarding is left out: it gives
/// changes up.
pub proof fn lemma_closing_writes_changes(s: StoreState, uses: Seq<StoreUse>, disk: Seq<Entry>)
    requires
        !s.dirty ==> disk == s.entries,
        forall|i: int| 0 <= i < uses.len() ==> !(#[trigger] uses[i] is Discard),
    ensures
        s.on_disk(uses.push(StoreUse::Flush), disk) == s.after_all(uses).entries,
        !s.after_all(uses.push(StoreUse::Flush)).dirty,
{
    lemma_clean_store_is_on_disk(s, uses, disk);
    assert(uses.push(StoreUse::Flush).drop_last() == uses);
}

/// Discarded changes are not written: a store that is dropped after they were
/// given up leaves the disk as it was.
pub proof fn lemma_discarded_changes_stay_unwritten(
    s: StoreState,
    uses: Seq<StoreUse>,
    disk: Seq<Entry>,
)
    ensures
        s.on_disk(uses.push(StoreUse::Discard).push(StoreUse::Flush), disk) == s.on_disk(uses, disk),
{
    let given_up = uses.push(StoreUse::Discard);
    assert(given_up.drop_last() == uses);
    assert(s.on_disk(given_up, disk) == s.on_disk(uses, disk));
    assert(!s.after_all(given_up).dirty);
    assert(given_up.push(StoreUse::Flush).drop_last() == given_up);
}

/// What was written opens again: the manifest fits the same dimension and tag,
/// the decoded vectors are the written ones, and with chunks that read back as
/// they were written the opened store has the same entries.
pub proof fn lemma_written_store_opens(s: FileStore, m: Manifest, chunks: Seq<Chunk>)
    requires
        s.valid(),
        s.described_by(m),
        chunk::chunk_views(chunks) == chunk::chunk_views(s.chunks@),
    ensures
        !m.mismatch(s.dim, s.tag@),
        decoded(encoded(s.vectors@)) == s.vectors@,
        s.vectors@.len() == m.count * m.dim,
        encoded(s.vectors@).len() == m.count * m.dim * 4,
        chunks.len() == m.count,
        distinct(chunks),
        table(chunks, s.vectors@, s.dim) == s.entries(),
{
    lemma_decoding_inverts_encoding(s.vectors@);
    lemma_index_is_distinct(s.chunk_index@, s.chunks@);
    let written = chunk::chunk_views(s.chunks@);
    assert(chunk::chunk_views(chunks).len() == chunks.len());
    assert forall|i: int| 0 <= i < chunks.len() implies (#[trigger] chunks[i])@ == s.chunks@[i]@ by {
        assert(chunk::chunk_views(chunks)[i] == written[i]);
    }
    assert forall|i: int, j: int| 0 <= i < j < chunks.len() implies (#[trigger] chunks[i]).id@ != (
    #[trigger] chunks[j]).id@ by {
        assert(chunks[i]@.id == s.chunks@[i]@.id);
        assert(chunks[j]@.id == s.chunks@[j]@.id);
        assert(s.chunks@[i].id@ != s.chunks@[j].id@);
    }
    assert(table(chunks, s.vectors@, s.dim) == s.entries());
}

/// What was flushed opens again. `lines` are the texts of the chunks, each on a
/// line of its own, and `reads` tells which chunk a text stands for. Where each
/// text stands for the chunk that it was written for, reading the vectors and
/// opening with the dimension and the tag of the store succeed, and the opened
/// store has the same entries in the same order, with the same vectors.
pub proof fn lemma_flushed_store_opens(
    s: FileStore,
    f: Flush,
    lines: Seq<Seq<char>>,
    reads: spec_fn(Seq<char>) -> ChunkData,
    chunks: Vec<Chunk>,
    dir: Seq<char>,
    vectors: Result<Vec<Single>, StoreError>,
    r: Result<FileStore, StoreError>,
)
    requires
        s.valid(),
        s.written_as(f),
        lines.len() == s.count(),
        forall|i: int|
            0 <= i < lines.len() ==> records::is_record(#[trigger] lines[i]) && reads(lines[i])
                == s.chunks@[i]@,
        chunk::chunk_views(chunks@) == records::records(records::joined(lines)).map_values(
            |line: (int, Seq<char>)| reads(line.1),
        ),
        vectors_read(f.vectors@, f.manifest.count, f.manifest.dim, vectors),
        vectors matches Ok(v) ==> opened(dir, f.manifest, v, chunks, s.dim, s.tag@, r),
    ensures
        vectors is Ok,
        r matches Ok(t) && {
            &&& t.valid()
            &&& t.entries() == s.entries()
            &&& t.count() == s.count()
            &&& t.vectors@ == s.vectors@
            &&& t.dim == s.dim
            &&& t.tag@ == s.tag@
            &&& !t.dirty
        },
{
    records::lemma_reading_inverts_writing(lines);
    let read = chunk::chunk_views(chunks@);
    let written = chunk::chunk_views(s.chunks@);
    assert(read.len() == lines.len() && written.len() == lines.len());
    assert forall|i: int| 0 <= i < read.len() implies #[trigger] read[i] == written[i] by {
        assert(reads(lines[i]) == s.chunks@[i]@);
    }
    assert(read == written);
    lemma_written_store_opens(s, f.manifest, chunks@);
    assert(f.vectors.len() == f.vectors@.len());
    assert(f.vectors@.len() == f.manifest.count * f.manifest.dim * 4);
    assert(vectors is Ok);
    if f.manifest.count == 0 {
        assert(s.vectors@.len() == 0) by (nonlinear_arith)
            requires
                s.vectors@.len() == f.manifest.count * f.manifest.dim,
                f.manifest.count == 0,
        ;
        assert(s.vectors@ == Seq::<Single>::empty());
    }
    match r {
        Ok(t) => {
            assert(t.entries() == table(chunks@, s.vectors@, s.dim));
        },
        Err(e) => {
            match e {
                StoreError::DuplicateId(id) => {
                    let j = choose|j: int|
                        0 <= j < chunks@.len() && (#[trigger] chunks@[j]).id@ == id@ && distinct(
                            chunks@.take(j),
                        ) && exists|i: int| 0 <= i < j && (#[trigger] chunks@[i]).id@ == id@;
                    let i = choose|i: int| 0 <= i < j && (#[trigger] chunks@[i]).id@ == id@;
                    assert(chunks@[i].id@ != chunks@[j].id@);
                },
                _ => {},
            }
        },
    }
}

/// A slash of either kind.
pub open spec fn is_slash(c: char) -> bool {
    c == '/' || c == '\\'
}

/// The path begins with a prefix that is not empty, where slashes of either kind
/// stand for each other.
pub open spec fn lies_under(path: Seq<char>, prefix: Seq<char>) -> bool {
    &&& 0 < prefix.len() <= path.len()
    &&& forall|i: int|
        0 <= i < prefix.len() ==> #[trigger] path[i] == prefix[i] || (is_slash(path[i]) && is_slash(
            prefix[i],
        ))
}

proof fn lemma_under(path: Seq<char>, prefix: Seq<char>)
    requires
        prefix.len() > 0,
    ensures
        under(path, prefix) <==> lies_under(path, prefix),
{
    let p = slashed(path);
    let q = slashed(prefix);
    let n = prefix.len() as int;
    if lies_under(path, prefix) {
        assert forall|i: int| 0 <= i < n implies p.take(n)[i] == q[i] by {
            assert(path[i] == prefix[i] || (is_slash(path[i]) && is_slash(prefix[i])));
        }
        assert(p.take(n) == q);
    }
    if under(path, prefix) {
        assert forall|i: int| 0 <= i < n implies #[trigger] path[i] == prefix[i] || (is_slash(
            path[i],
        ) && is_slash(prefix[i])) by {
            assert(p.take(n)[i] == q[i]);
        }
    }
}

/// What is without a prefix is what does not lie under it.
pub proof fn lemma_without_is_filter(entries: Seq<Entry>, prefix: Seq<char>)
    requires
        prefix.len() > 0,
    ensures
        without(entries, prefix) == entries.filter(
            |e: Entry| !lies_under(e.chunk.path, prefix),
        ),
    decreases entries.len(),
{
    reveal(Seq::filter);
    if entries.len() > 0 {
        lemma_without_is_filter(entries.drop_last(), prefix);
        lemma_under(entries.last().chunk.path, prefix);
    }
}

proof fn lemma_filter_all(entries: Seq<Entry>, keep: spec_fn(Entry) -> bool)
    requires
        forall|e: Entry| #[trigger] keep(e),
    ensures
        entries.filter(keep) == entries,
    decreases entries.len(),
{
    reveal(Seq::filter);
    if entries.len() > 0 {
        lemma_filter_all(entries.drop_last(), keep);
        assert(entries.drop_last().push(entries.last()) == entries);
    }
}

/// Removing by a prefix takes away exactly the entries whose paths begin with it,
/// where slashes of either kind stand for each other, and keeps the others in
/// order; an empty prefix takes nothing away. Only a removal is a change.
pub proof fn lemma_removal(s: StoreState, prefix: Seq<char>)
    ensures
        ({
            let left = s.entries.filter(|e: Entry| !lies_under(e.chunk.path, prefix));
            let after = s.after(StoreUse::Remove(prefix));
            &&& after.entries == left
            &&& after.dirty <==> s.dirty || left.len() != s.entries.len()
        }),
{
    if prefix.len() == 0 {
        lemma_filter_all(s.entries, |e: Entry| !lies_under(e.chunk.path, prefix));
    } else {
        lemma_without_is_filter(s.entries, prefix);
        lemma_without(s.entries, prefix);
    }
}

/// Putting an entry replaces the one with its identifier in place, or else appends
/// it, and is a change; nothing else moves.
pub proof fn lemma_put_replaces_or_appends(s: StoreState, e: Entry, at: int)
    requires
        distinct_ids(s.entries),
    ensures
        s.after(StoreUse::Put(e)).dirty,
        0 <= at < s.entries.len() && s.entries[at].chunk.id == e.chunk.id ==> s.after(
            StoreUse::Put(e),
        ).entries == s.entries.update(at, e),
        (forall|i: int| 0 <= i < s.entries.len() ==> (#[trigger] s.entries[i]).chunk.id != e.chunk.id)
            ==> s.after(StoreUse::Put(e)).entries == s.entries.push(e),
{
    match entry_position(s.entries, e.chunk.id) {
        Some(i) => {
            assert(s.entries[i].chunk.id == e.chunk.id);
            if 0 <= at < s.entries.len() && s.entries[at].chunk.id == e.chunk.id {
                assert(at == i) by {
                    if at < i {
                        assert(s.entries[at].chunk.id != s.entries[i].chunk.id);
                    } else if i < at {
                        assert(s.entries[i].chunk.id != s.entries[at].chunk.id);
                    }
                }
            }
        },
        None => {},
    }
}

/// An identifier finds the chunk that has it, and nothing where none has.
pub proof fn lemma_identifier_finds_its_chunk(s: &FileStore, id: &str, r: Option<Chunk>)
    requires
        s.valid(),
        call_ensures(FileStore::get_chunk, (s, id), r),
    ensures
        forall|i: int|
            0 <= i < s.chunks@.len() && (#[trigger] s.chunks@[i]).id@ == id@ ==> (r matches Some(c)
                && c@ == s.chunks@[i]@),
        r is Some ==> exists|i: int| 0 <= i < s.chunks@.len() && (#[trigger] s.chunks@[i]).id@ == id@,
{
    lemma_entry_position(*s, id@);
    match entry_position(s.entries(), id@) {
        Some(i) => {
            assert(s.entries()[i].chunk.id == id@);
            assert(s.chunks@[i].id@ == id@);
        },
        None => {
            assert forall|i: int| 0 <= i < s.chunks@.len() implies (#[trigger] s.chunks@[i]).id@
                != id@ by {
                assert(s.entries()[i].chunk.id == s.chunks@[i].id@);
            }
        },
    }
}

/// A query names the best chunks by score, as many as asked for or there are: each
/// hit carries the identifier and the score of its own chunk, no chunk is named
/// twice, scores fall, and no chunk that is left out scores higher.
pub proof fn lemma_query_names_the_best(
    s: &FileStore,
    query: &[Single],
    scores: &[Single],
    top_k: usize,
    r: Result<Vec<Hit>, StoreError>,
) -> (of: Seq<int>)
    requires
        s.valid(),
        scores@.len() == s.chunks@.len(),
        call_ensures(FileStore::query, (s, query, scores, top_k), r),
    ensures
        r is Ok <==> query@.len() == s.dim,
        r matches Ok(hits) ==> {
            &&& of.len() == hits@.len()
            &&& of.len() == if top_k < scores@.len() {
                top_k as nat
            } else {
                scores@.len()
            }
            &&& of.no_duplicates()
            &&& forall|i: int|
                0 <= i < hits@.len() ==> {
                    let k = #[trigger] of[i];
                    &&& 0 <= k < scores@.len()
                    &&& hits@[i].chunk_id@ == s.chunks@[k].id@
                    &&& hits@[i].score == scores@[k]
                }
            &&& forall|i: int, j: int|
                0 <= i < j < hits@.len() ==> !(#[trigger] hits@[i]).score.less(
                    (#[trigger] hits@[j]).score,
                )
            &&& forall|i: int, m: int|
                0 <= i < hits@.len() && 0 <= m < scores@.len() && !of.contains(m) ==> !(
                #[trigger] hits@[i]).score.less(#[trigger] scores@[m])
        },
{
    match r {
        Ok(hits) => {
            let best = choose|best: Seq<Candidate>| #[trigger]
                selection::best_of(scores@, s.count(), top_k as int, best) && hit_data(hits@)
                    == best.map_values(
                    |c: Candidate| (s.entries()[c.0 as int].chunk.id, c.1),
                );
            let of = Seq::new(best.len(), |i: int| best[i].0 as int);
            let data = hit_data(hits@);
            assert(data.len() == hits@.len());
            assert forall|i: int| 0 <= i < hits@.len() implies {
                let k = #[trigger] of[i];
                &&& 0 <= k < scores@.len()
                &&& hits@[i].chunk_id@ == s.chunks@[k].id@
                &&& hits@[i].score == scores@[k]
            } by {
                assert(data[i] == hits@[i].data());
                assert(best[i].0 < s.count() && best[i].1 == scores@[best[i].0 as int]);
            }
            assert forall|i: int, j: int|
                0 <= i < of.len() && 0 <= j < of.len() && i != j implies of[i] != of[j] by {
                if i < j {
                    assert(selection::stands_before(best[i], best[j]));
                } else {
                    assert(selection::stands_before(best[j], best[i]));
                }
            }
            assert forall|i: int, j: int| 0 <= i < j < hits@.len() implies !(
            #[trigger] hits@[i]).score.less((#[trigger] hits@[j]).score) by {
                assert(of[i] == best[i].0 && of[j] == best[j].0);
                assert(selection::stands_before(best[i], best[j]));
                assert(best[i].1 == scores@[best[i].0 as int]);
                assert(best[j].1 == scores@[best[j].0 as int]);
            }
            assert forall|i: int, m: int|
                0 <= i < hits@.len() && 0 <= m < scores@.len() && !of.contains(m) implies !(
            #[trigger] hits@[i]).score.less(#[trigger] scores@[m]) by {
                assert(of[i] == best[i].0);
                assert(best[i].1 == scores@[best[i].0 as int]);
                assert(!selection::listed(best, m)) by {
                    if selection::listed(best, m) {
                        let j = choose|j: int| 0 <= j < best.len() && (#[trigger] best[j]).0 == m;
                        assert(of[j] == m);
                    }
                }
                assert(selection::stands_before(best[i], selection::candidate(scores@, m)));
            }
            of
        },
        Err(_) => seq![],
    }
}

/// Four bytes in little-endian order.
pub open spec fn little_endian(bytes: Seq<u8>, at: int) -> int {
    bytes[at] + 256 * bytes[at + 1] + 65536 * bytes[at + 2] + 16777216 * bytes[at + 3]
}

/// On disk a number is its bit pattern in four bytes, the least significant first,
/// and the numbers follow each other; reading takes the same bytes and no others,
/// and refuses any other size.
pub proof fn lemma_vectors_are_little_endian(
    v: &[Single],
    w: Vec<u8>,
    bytes: &[u8],
    count: usize,
    dim: usize,
    r: Result<Vec<Single>, StoreError>,
)
    requires
        call_ensures(encode_vectors, (v,), w),
        call_ensures(decode_vectors, (bytes, count, dim), r),
    ensures
        w@.len() == 4 * v@.len(),
        forall|i: int|
            0 <= i < v@.len() ==> little_endian(w@, 4 * i) == (#[trigger] v@[i]).bits,
        r is Ok <==> count == 0 || bytes@.len() == 4 * count * dim,
        r matches Ok(u) ==> u@.len() == count * dim && forall|i: int|
            0 <= i < u@.len() ==> (#[trigger] u@[i]).bits == little_endian(bytes@, 4 * i),
{
    assert forall|i: int| 0 <= i < v@.len() implies little_endian(w@, 4 * i) == (
    #[trigger] v@[i]).bits by {
        lemma_bytes_of_number(v@, i);
        let b = v@[i].bits;
        assert(4 * i / 4 == i && 4 * i % 4 == 0);
        assert((4 * i + 1) / 4 == i && (4 * i + 1) % 4 == 1);
        assert((4 * i + 2) / 4 == i && (4 * i + 2) % 4 == 2);
        assert((4 * i + 3) / 4 == i && (4 * i + 3) % 4 == 3);
        assert(w@[4 * i] == b % 256);
        assert(w@[4 * i + 1] == b / 0x100 % 256);
        assert(w@[4 * i + 2] == b / 0x1_0000 % 256);
        assert(w@[4 * i + 3] == b / 0x100_0000 % 256);
        assert(b == b % 256 + 0x100 * (b / 0x100 % 256) + 0x1_0000 * (b / 0x1_0000 % 256)
            + 0x100_0000 * (b / 0x100_0000 % 256));
    }
    assert(count * dim * 4 == 4 * count * dim) by (nonlinear_arith);
    assert(bytes.len() == bytes@.len());
    if count == 0 {
        assert(count * dim == 0) by (nonlinear_arith)
            requires
                count == 0,
        ;
    }
}

/// A store opens exactly where the manifest has version one and the expected
/// dimension and tag, counts the chunks that are there, and no identifier occurs
/// twice. It then holds those chunks, each with its own row of the vectors, and
/// nothing is pending.
pub proof fn lemma_store_opens(
    dir: &str,
    manifest: Manifest,
    vectors: Vec<Single>,
    chunks: Vec<Chunk>,
    dim: usize,
    tag: &str,
    r: Result<FileStore, StoreError>,
)
    requires
        vectors@.len() == manifest.count * manifest.dim,
        call_ensures(FileStore::open, (dir, manifest, vectors, chunks, dim, tag), r),
    ensures
        r is Ok <==> {
            &&& manifest.version == 1
            &&& manifest.dim == dim
            &&& manifest.tag@ == tag@
            &&& manifest.count == chunks@.len()
            &&& forall|i: int, j: int|
                0 <= i < j < chunks@.len() ==> (#[trigger] chunks@[i]).id@ != (
                #[trigger] chunks@[j]).id@
        },
        r matches Ok(s) ==> {
            &&& !s.dirty
            &&& s.entries().len() == chunks@.len()
            &&& forall|i: int|
                0 <= i < chunks@.len() ==> {
                    let e = #[trigger] s.entries()[i];
                    &&& e.chunk == chunks@[i]@
                    &&& e.vector.len() == dim
                    &&& forall|j: int| 0 <= j < dim ==> #[trigger] e.vector[j] == vectors@[i * dim + j]
                }
        },
{
    match r {
        Ok(s) => {
            assert forall|i: int| 0 <= i < chunks@.len() implies {
                let e = #[trigger] s.entries()[i];
                &&& e.chunk == chunks@[i]@
                &&& e.vector.len() == dim
                &&& forall|j: int| 0 <= j < dim ==> #[trigger] e.vector[j] == vectors@[i * dim + j]
            } by {
                lemma_row_within(i, chunks@.len() as int, dim as int);
            }
        },
        Err(e) => {
            assert(chunks.len() == chunks@.len());
            if manifest.version == 1 && manifest.dim == dim && manifest.tag@ == tag@
                && manifest.count == chunks@.len() {
                assert(!distinct(chunks@)) by {
                    let id = e->DuplicateId_0;
                    let j = choose|j: int|
                        0 <= j < chunks@.len() && (#[trigger] chunks@[j]).id@ == id@ && distinct(
                            chunks@.take(j),
                        ) && exists|i: int| 0 <= i < j && (#[trigger] chunks@[i]).id@ == id@;
                    let i = choose|i: int| 0 <= i < j && (#[trigger] chunks@[i]).id@ == id@;
                    assert(chunks@[i].id@ == chunks@[j].id@);
                }
            }
        },
    }
}

/// A store is created empty, and only with a dimension; it has still to be written.
pub proof fn lemma_store_is_created(
    dir: &str,
    dim: usize,
    tag: &str,
    r: Result<FileStore, StoreError>,
)
    requires
        call_ensures(FileStore::create, (dir, dim, tag), r),
    ensures
        r is Ok <==> dim > 0,
        r matches Err(e) ==> e is ZeroDim,
        r matches Ok(s) ==> {
            &&& s.entries().len() == 0
            &&& s.dir@ == dir@ && s.dim == dim && s.tag@ == tag@
            &&& s.dirty
        },
{
}

/// What is there is opened, and where there is nothing a store is created.
pub proof fn lemma_store_is_opened_or_created(
    dir: &str,
    dim: usize,
    tag: &str,
    fresh: Result<FileStore, StoreError>,
    r: Result<FileStore, StoreError>,
)
    requires
        call_ensures(FileStore::create, (dir, dim, tag), fresh),
        call_ensures(FileStore::open_or_create, (dir, None, dim, tag), r),
    ensures
        r is Ok <==> fresh is Ok,
        r is Ok ==> r->Ok_0.entries() == fresh->Ok_0.entries() && r->Ok_0.dir@ == fresh->Ok_0.dir@
            && r->Ok_0.dim == fresh->Ok_0.dim && r->Ok_0.tag@ == fresh->Ok_0.tag@
            && r->Ok_0.dirty == fresh->Ok_0.dirty,
{
}

/// A manifest is accepted exactly if it has version 1, the expected dimension and
/// the expected tag.
pub proof fn lemma_manifest_is_checked(
    m: &Manifest,
    dim: usize,
    tag: &str,
    r: Result<(), StoreError>,
)
    requires
        call_ensures(Manifest::check, (m, dim, tag), r),
    ensures
        r is Ok <==> m.version == 1 && m.dim == dim && m.tag@ == tag@,
        m.version != 1 ==> r == Err::<(), StoreError>(StoreError::UnsupportedVersion(m.version)),
        m.version == 1 && m.dim != dim ==> r == Err::<(), StoreError>(
            StoreError::DimMismatch(m.dim, dim),
        ),
        m.version == 1 && m.dim == dim && m.tag@ != tag@ ==> (r matches Err(
            StoreError::TagMismatch(a, b),
        ) && a@ == m.tag@ && b@ == tag@),
{
}

/// Only a changed store is written: its vectors as bytes, and a manifest with version
/// 1, its dimension, its tag and the number of its chunks.
pub proof fn lemma_changes_are_written(
    s: &FileStore,
    r: Option<Flush>,
    vectors: &[Single],
    bytes: Vec<u8>,
)
    requires
        vectors@ == s.vectors@,
        call_ensures(FileStore::flush, (s,), r),
        call_ensures(encode_vectors, (vectors,), bytes),
    ensures
        r is Some <==> s.dirty,
        r matches Some(f) ==> {
            &&& f.vectors@ == bytes@
            &&& f.manifest.version == 1
            &&& f.manifest.dim == s.dim && f.manifest.tag@ == s.tag@
            &&& f.manifest.count == s.chunks@.len()
        },
{
}

/// Whether changes are written or given up, nothing is left to write, and the
/// contents stay.
pub proof fn lemma_nothing_is_left_to_write(s: &mut FileStore, t: &mut FileStore)
    requires
        call_ensures(FileStore::flushed, (s,), ()),
        call_ensures(FileStore::discard_pending_changes, (t,), ()),
    ensures
        !final(s).dirty && !final(t).dirty,
        final(s).entries() == old(s).entries() && final(t).entries() == old(t).entries(),
{
}

/// A chunk is put with a vector of the store's dimension and no other; a refused one
/// changes nothing.
pub proof fn lemma_put_needs_the_dimension(
    s: &mut FileStore,
    chunk: &Chunk,
    vector: &[Single],
    r: Result<(), StoreError>,
)
    requires
        call_ensures(FileStore::put, (s, chunk, vector), r),
    ensures
        r is Ok <==> vector@.len() == old(s).dim,
        r is Ok ==> final(s).state() == old(s).state().after(
            StoreUse::Put(Entry { chunk: chunk@, vector: vector@ }),
        ),
        r is Err ==> *final(s) == *old(s),
{
}

/// Errors are told with what was found and what was expected.
pub proof fn lemma_store_errors_are_told(e: &StoreError, r: String)
    requires
        call_ensures(StoreError::message, (e,), r),
    ensures
        e is ZeroDim ==> r@ == "dim must be > 0"@,
        *e matches StoreError::UnsupportedVersion(v) ==> r@ == "unsupported manifest version "@
            + text::decimal(v as nat) + " (expected "@ + text::decimal(1) + ")"@,
        *e matches StoreError::DimMismatch(a, b) ==> r@ == "dim mismatch: on-disk "@
            + text::decimal(a as nat) + " vs expected "@ + text::decimal(b as nat),
        *e matches StoreError::TagMismatch(a, b) ==> r@ == "tag mismatch: on-disk "@ + quoted(a@)
            + " vs expected "@ + quoted(b@),
        e is SizeOverflow ==> r@ == "count*dim*4 overflows"@,
        *e matches StoreError::VectorsSize(a, x, c, d) ==> r@ == "vectors.bin size "@
            + text::decimal(a as nat) + " != count*dim*4 "@ + text::decimal(x as nat)
            + " (count="@ + text::decimal(c as nat) + ", dim="@ + text::decimal(d as nat) + ")"@,
        *e matches StoreError::CountMismatch(a, b) ==> r@ == "chunks.jsonl has "@ + text::decimal(
            a as nat,
        ) + " lines but manifest says count="@ + text::decimal(b as nat),
        *e matches StoreError::DuplicateId(id) ==> r@ == "duplicate chunk id "@ + id@
            + " in chunks.jsonl"@,
        *e matches StoreError::PutDim(a, b) ==> r@ == "put: vector dim "@ + text::decimal(a as nat)
            + " != store dim "@ + text::decimal(b as nat),
        *e matches StoreError::QueryDim(a, b) ==> r@ == "query: vector dim "@ + text::decimal(
            a as nat,
        ) + " != store dim "@ + text::decimal(b as nat),
{
}

/// Vectors of another size are refused with the size that they have and the one that
/// they should have, if that can be told.
pub proof fn lemma_wrong_size_is_told(
    bytes: &[u8],
    count: usize,
    dim: usize,
    e: StoreError,
)
    requires
        call_ensures(decode_vectors, (bytes, count, dim), Err(e)),
    ensures
        4 * count * dim > usize::MAX ==> e is SizeOverflow,
        4 * count * dim <= usize::MAX ==> (e matches StoreError::VectorsSize(has, wants, c, d) && has
            == bytes@.len() && wants == 4 * count * dim && c == count && d == dim),
{
    assert(count * dim * 4 == 4 * count * dim) by (nonlinear_arith);
    assert(bytes.len() == bytes@.len());
}

/// A store that is not opened says why: by its version, else its dimension, else its
/// tag, else the number of its chunks, else the first identifier that stands there
/// before.
pub proof fn lemma_refused_store_is_told(
    dir: &str,
    manifest: Manifest,
    vectors: Vec<Single>,
    chunks: Vec<Chunk>,
    dim: usize,
    tag: &str,
    e: StoreError,
)
    requires
        call_ensures(FileStore::open, (dir, manifest, vectors, chunks, dim, tag), Err(e)),
    ensures
        match e {
            StoreError::UnsupportedVersion(v) => v == manifest.version && v != 1,
            StoreError::DimMismatch(a, b) => manifest.version == 1 && a == manifest.dim && b == dim
                && a != b,
            StoreError::TagMismatch(a, b) => manifest.version == 1 && manifest.dim == dim && a@
                == manifest.tag@ && b@ == tag@ && a@ != b@,
            StoreError::CountMismatch(a, b) => manifest.version == 1 && manifest.dim == dim
                && manifest.tag@ == tag@ && a == chunks@.len() && b == manifest.count && a != b,
            StoreError::DuplicateId(id) => manifest.version == 1 && manifest.dim == dim
                && manifest.tag@ == tag@ && chunks@.len() == manifest.count && exists|j: int|
                0 <= j < chunks@.len() && (#[trigger] chunks@[j]).id@ == id@ && (exists|i: int|
                    0 <= i < j && (#[trigger] chunks@[i]).id@ == id@) && forall|a: int, b: int|
                    0 <= a < b < j ==> (#[trigger] chunks@[a]).id@ != (#[trigger] chunks@[b]).id@,
            _ => false,
        },
{
    assert(chunks.len() == chunks@.len());
    if manifest.version == 1 && manifest.dim == dim && manifest.tag@ == tag@ && chunks@.len()
        == manifest.count {
        let id = e->DuplicateId_0;
        let j = choose|j: int|
            0 <= j < chunks@.len() && (#[trigger] chunks@[j]).id@ == id@ && distinct(
                chunks@.take(j),
            ) && exists|i: int| 0 <= i < j && (#[trigger] chunks@[i]).id@ == id@;
        let head = chunks@.take(j);
        assert forall|a: int, b: int| 0 <= a < b < j implies (#[trigger] chunks@[a]).id@ != (
        #[trigger] chunks@[b]).id@ by {
            assert(head[a].id@ != head[b].id@);
        }
        assert(chunks@[j].id@ == id@);
    }
}

} // verus!
