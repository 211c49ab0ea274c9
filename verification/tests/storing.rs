use ssd_llm::chunk::Chunk;
use ssd_llm::prune::prune;
use ssd_llm::records::{join_records, read_records};
use ssd_llm::retrieve::{Embedder, Retriever, Store};
use ssd_llm::ollama::OllamaEmbedder;
use ssd_llm::single::Single;
use ssd_llm::store::{
    decode_vectors, encode_vectors, FileStore, Hit, Manifest, StoreError, Stored,
};

fn singles(values: &[f32]) -> Vec<Single> {
    values.iter().map(|v| Single { bits: v.to_bits() }).collect()
}

fn float(value: Single) -> f32 {
    f32::from_bits(value.bits)
}

fn unit(vector: &[f32]) -> Vec<f32> {
    let norm = vector.iter().map(|x| x * x).sum::<f32>().sqrt();
    if norm > 0.0 {
        vector.iter().map(|x| x / norm).collect()
    } else {
        vector.to_vec()
    }
}

fn put(s: &mut FileStore, chunk: &Chunk, vector: &[f32]) -> Result<(), StoreError> {
    s.put(chunk, &singles(&unit(vector)))
}

fn query(s: &FileStore, vector: &[f32], top_k: usize) -> Result<Vec<Hit>, StoreError> {
    let q = unit(vector);
    let scores: Vec<f32> = (0..s.len())
        .map(|i| s.row(i).iter().zip(q.iter()).map(|(a, b)| float(*a) * b).sum())
        .collect();
    s.query(&singles(&q), &singles(&scores), top_k)
}

/// What a store keeps on disk.
struct Disk {
    version: u32,
    dim: usize,
    tag: String,
    count: usize,
    vectors: Vec<u8>,
    chunks: Vec<Chunk>,
}

fn flush(s: &mut FileStore) -> Disk {
    let f = s.flush().expect("there are changes");
    let disk = Disk {
        version: f.manifest.version,
        dim: f.manifest.dim,
        tag: f.manifest.tag,
        count: f.manifest.count,
        vectors: f.vectors,
        chunks: s.chunks.clone(),
    };
    s.flushed();
    assert!(s.flush().is_none());
    disk
}

fn open(disk: &Disk, dim: usize, tag: &str) -> Result<FileStore, StoreError> {
    let manifest = Manifest {
        version: disk.version,
        dim: disk.dim,
        tag: disk.tag.clone(),
        count: disk.count,
    };
    manifest.check(dim, tag)?;
    let vectors = decode_vectors(&disk.vectors, disk.count, disk.dim)?;
    FileStore::open("index", manifest, vectors, disk.chunks.clone(), dim, tag)
}

fn create(dim: usize, tag: &str) -> FileStore {
    FileStore::create("index", dim, tag).unwrap()
}

fn chunk(id: &str, text: &str) -> Chunk {
    Chunk {
        id: id.to_string(),
        text: text.to_string(),
        path: "fixture.txt".to_string(),
        offset: 0,
        len: text.len(),
        lang: None,
    }
}

fn chunk_with_path(id: &str, path: &str) -> Chunk {
    Chunk {
        id: id.to_string(),
        text: format!("text-{}", id),
        path: path.to_string(),
        offset: 0,
        len: 4,
        lang: None,
    }
}

#[test]
fn create_then_reopen_round_trips_state() {
    let tag = "test:unit";
    let mut s = create(3, tag);
    put(&mut s, &chunk("a", "alpha"), &[1.0, 0.0, 0.0]).unwrap();
    put(&mut s, &chunk("b", "beta"), &[0.0, 1.0, 0.0]).unwrap();
    let disk = flush(&mut s);
    let reopened = open(&disk, 3, tag).unwrap();
    assert_eq!(reopened.len(), 2);
    assert_eq!(reopened.get_chunk("a").expect("a present").text, "alpha");
    assert_eq!(reopened.get_chunk("b").expect("b present").text, "beta");
}

#[test]
fn tag_mismatch_on_open_errors() {
    let mut s = create(2, "model-A");
    put(&mut s, &chunk("x", "x"), &[1.0, 0.0]).unwrap();
    let disk = flush(&mut s);
    let msg = open(&disk, 2, "model-B").err().unwrap().message();
    assert!(
        msg.contains("tag mismatch"),
        "expected tag-mismatch error, got: {}",
        msg
    );
}

#[test]
fn dim_mismatch_on_open_errors() {
    let mut s = create(4, "model-A");
    put(&mut s, &chunk("x", "x"), &[1.0, 0.0, 0.0, 0.0]).unwrap();
    let disk = flush(&mut s);
    let msg = open(&disk, 8, "model-A").err().unwrap().message();
    assert!(
        msg.contains("dim mismatch"),
        "expected dim-mismatch error, got: {}",
        msg
    );
}

#[test]
fn dim_mismatch_on_put_errors() {
    let mut s = create(3, "t");
    let err = put(&mut s, &chunk("x", "x"), &[1.0, 0.0]).err().unwrap();
    assert!(err.message().contains("vector dim"));
}

#[test]
fn query_returns_top_k_sorted_desc() {
    let mut s = create(3, "t");
    put(&mut s, &chunk("near", "near"), &[1.0, 0.0, 0.0]).unwrap();
    put(&mut s, &chunk("mid", "mid"), &[0.5, 0.5, 0.0]).unwrap();
    put(&mut s, &chunk("far", "far"), &[0.0, 1.0, 0.0]).unwrap();
    let hits = query(&s, &[1.0, 0.0, 0.0], 3).unwrap();
    assert_eq!(hits.len(), 3);
    assert_eq!(hits[0].chunk_id, "near", "highest score first");
    assert_eq!(hits[1].chunk_id, "mid");
    assert_eq!(hits[2].chunk_id, "far");
    assert!(float(hits[0].score) >= float(hits[1].score));
    assert!(float(hits[1].score) >= float(hits[2].score));
}

#[test]
fn cosine_orthogonality_and_identity() {
    let mut s = create(3, "t");
    put(&mut s, &chunk("x", "x"), &[1.0, 0.0, 0.0]).unwrap();
    put(&mut s, &chunk("y", "y"), &[0.0, 1.0, 0.0]).unwrap();
    let hits = query(&s, &[1.0, 0.0, 0.0], 2).unwrap();
    let score_of = |id: &str| float(hits.iter().find(|h| h.chunk_id == id).unwrap().score);
    assert!(
        (score_of("x") - 1.0).abs() < 1e-5,
        "self-similarity should be ~1.0, got {}",
        score_of("x")
    );
    assert!(
        score_of("y").abs() < 1e-5,
        "orthogonal vectors should score ~0.0, got {}",
        score_of("y")
    );
}

#[test]
fn put_same_id_twice_upserts_not_errors() {
    let mut s = create(2, "t");
    put(&mut s, &chunk("same", "first"), &[1.0, 0.0]).unwrap();
    assert!(
        put(&mut s, &chunk("same", "second"), &[0.0, 1.0]).is_ok(),
        "upsert must not error on id collision"
    );
    assert_eq!(s.len(), 1, "upsert must not grow the store");
    assert_eq!(
        s.get_chunk("same").unwrap().text,
        "second",
        "upsert replaces chunk metadata with the new value"
    );
}

#[test]
fn upsert_actually_replaces_stored_vector() {
    let mut s = create(2, "t");
    put(&mut s, &chunk("x", "x"), &[1.0, 0.0]).unwrap();
    let before_score = query(&s, &[1.0, 0.0], 1)
        .unwrap()
        .into_iter()
        .find(|h| h.chunk_id == "x")
        .expect("x must be present before upsert")
        .score;
    assert!((float(before_score) - 1.0).abs() < 1e-5);
    put(&mut s, &chunk("x", "x"), &[0.0, 1.0]).unwrap();
    let after_score = query(&s, &[1.0, 0.0], 1)
        .unwrap()
        .into_iter()
        .find(|h| h.chunk_id == "x")
        .expect("x must still be present after upsert")
        .score;
    assert!(
        float(after_score).abs() < 1e-5,
        "after upsert to [0,1], query [1,0] should score ~0.0; got {}",
        float(after_score)
    );
    assert_eq!(s.len(), 1, "upsert must not change store size");
}

#[test]
fn upsert_survives_reopen() {
    let mut s = create(2, "t");
    put(&mut s, &chunk("x", "original"), &[1.0, 0.0]).unwrap();
    put(&mut s, &chunk("x", "updated"), &[0.0, 1.0]).unwrap();
    let disk = flush(&mut s);
    let reopened = open(&disk, 2, "t").unwrap();
    assert_eq!(reopened.len(), 1);
    assert_eq!(
        reopened.get_chunk("x").unwrap().text,
        "updated",
        "upsert must be persisted across open/close cycles"
    );
}

#[test]
fn query_on_empty_store_returns_empty() {
    let s = create(3, "t");
    let hits = query(&s, &[1.0, 0.0, 0.0], 5).unwrap();
    assert!(hits.is_empty());
}

#[test]
fn top_k_zero_returns_empty_even_with_data() {
    let mut s = create(2, "t");
    put(&mut s, &chunk("a", "a"), &[1.0, 0.0]).unwrap();
    let hits = query(&s, &[1.0, 0.0], 0).unwrap();
    assert!(hits.is_empty());
}

#[test]
fn top_k_greater_than_n_returns_all() {
    let mut s = create(2, "t");
    put(&mut s, &chunk("a", "a"), &[1.0, 0.0]).unwrap();
    put(&mut s, &chunk("b", "b"), &[0.0, 1.0]).unwrap();
    let hits = query(&s, &[1.0, 0.0], 100).unwrap();
    assert_eq!(hits.len(), 2);
}

struct Offline(OllamaEmbedder);

impl Embedder for Offline {
    fn embed(&self, text: &str) -> Result<Vec<Single>, String> {
        self.0.request(text).map(|_| singles(&vec![0.0; self.0.dim()]))
    }
    fn dim(&self) -> usize {
        self.0.dim()
    }
    fn tag(&self) -> &str {
        self.0.tag()
    }
}

struct InMemory(FileStore);

impl Store for InMemory {
    fn put(&mut self, chunk: &Chunk, vector: &[Single]) -> Result<(), String> {
        self.0.put(chunk, vector).map_err(|e| e.message())
    }
    fn query(&self, vector: &[Single], top_k: usize) -> Result<Vec<Hit>, String> {
        let q: Vec<f32> = vector.iter().map(|v| float(*v)).collect();
        query(&self.0, &q, top_k).map_err(|e| e.message())
    }
    fn get_chunk(&self, chunk_id: &str) -> Result<Option<Chunk>, String> {
        Ok(self.0.get_chunk(chunk_id))
    }
    fn len(&self) -> usize {
        self.0.len()
    }
}

#[test]
fn file_store_plugs_into_retriever_with_ollama() {
    let e = OllamaEmbedder::nomic_embed_text();
    let s = FileStore::create("index", e.dim(), e.tag()).unwrap();
    let _r: Retriever<Offline, InMemory> = Retriever::new(Offline(e), InMemory(s));
}

#[test]
fn remove_by_path_prefix_happy_path() {
    let mut s = create(2, "t");
    put(&mut s, &chunk_with_path("a", "src/a.rs"), &[1.0, 0.0]).unwrap();
    put(&mut s, &chunk_with_path("b", "src/b.rs"), &[0.0, 1.0]).unwrap();
    put(&mut s, &chunk_with_path("c", "src/c.rs"), &[1.0, 1.0]).unwrap();
    let removed = s.remove_by_path_prefix("src/b.rs");
    assert_eq!(removed, 1, "exactly one chunk should be removed");
    assert_eq!(s.len(), 2);
    assert!(s.get_chunk("a").is_some(), "a still present");
    assert!(s.get_chunk("c").is_some(), "c still present");
    assert!(s.get_chunk("b").is_none(), "b is gone in RAM");
    let disk = flush(&mut s);
    let reopened = open(&disk, 2, "t").unwrap();
    assert_eq!(reopened.len(), 2, "deletion persisted to disk");
    assert!(reopened.get_chunk("b").is_none(), "b gone on disk");
    assert!(reopened.get_chunk("a").is_some());
    assert!(reopened.get_chunk("c").is_some());
}

#[test]
fn remove_by_path_prefix_empty_prefix_is_safety_noop() {
    let mut s = create(2, "t");
    put(&mut s, &chunk_with_path("a", "src/a.rs"), &[1.0, 0.0]).unwrap();
    put(&mut s, &chunk_with_path("b", "src/b.rs"), &[0.0, 1.0]).unwrap();
    let removed = s.remove_by_path_prefix("");
    assert_eq!(removed, 0, "empty prefix must NOT delete everything");
    assert_eq!(s.len(), 2, "store untouched");
}

#[test]
fn remove_by_path_prefix_no_match_is_noop() {
    let mut s = create(2, "t");
    put(&mut s, &chunk_with_path("a", "src/a.rs"), &[1.0, 0.0]).unwrap();
    put(&mut s, &chunk_with_path("b", "src/b.rs"), &[0.0, 1.0]).unwrap();
    let _ = flush(&mut s);
    let removed = s.remove_by_path_prefix("nonexistent/");
    assert_eq!(removed, 0);
    assert_eq!(s.len(), 2);
    assert!(!s.dirty, "no-match prune must not flip dirty flag");
}

#[test]
fn remove_by_path_prefix_normalizes_separators() {
    let mut s = create(2, "t");
    put(&mut s, &chunk_with_path("x", "src\\foo.ts"), &[1.0, 0.0]).unwrap();
    put(&mut s, &chunk_with_path("y", "src/bar.ts"), &[0.0, 1.0]).unwrap();
    let removed = s.remove_by_path_prefix("src/foo.ts");
    assert_eq!(removed, 1, "backslash path should match forward-slash prefix");
    assert!(s.get_chunk("x").is_none());
    assert!(s.get_chunk("y").is_some());
}

#[test]
fn remove_by_path_prefix_keeps_vectors_and_chunks_aligned() {
    let dim = 4;
    let mut s = create(dim, "t");
    for i in 0..6 {
        let id = format!("id{}", i);
        let path = if i % 2 == 0 {
            format!("keep/{}.rs", i)
        } else {
            format!("drop/{}.rs", i)
        };
        let mut v = vec![0.0f32; dim];
        v[i % dim] = 1.0;
        put(&mut s, &chunk_with_path(&id, &path), &v).unwrap();
    }
    let removed = s.remove_by_path_prefix("drop/");
    assert_eq!(removed, 3);
    let disk = flush(&mut s);
    let reopened = open(&disk, dim, "t").unwrap();
    assert_eq!(reopened.len(), 3, "3 chunks remain");
    assert_eq!(
        reopened.vectors.len(),
        reopened.len() * dim,
        "vectors.bin row count must match chunks.jsonl line count"
    );
    for c in &reopened.chunks {
        assert!(c.path.starts_with("keep/"), "stray chunk left: {}", c.path);
    }
}

#[test]
fn corrupt_vectors_bin_size_rejected() {
    let mut s = create(3, "t");
    put(&mut s, &chunk("a", "a"), &[1.0, 0.0, 0.0]).unwrap();
    let mut disk = flush(&mut s);
    disk.vectors.pop();
    let msg = open(&disk, 3, "t").err().unwrap().message();
    assert!(
        msg.contains("vectors.bin size"),
        "expected size-mismatch error, got: {}",
        msg
    );
}

#[test]
fn vectors_are_stored_in_little_endian_order() {
    let v = singles(&[1.0, -2.5]);
    let bytes = encode_vectors(&v);
    assert_eq!(bytes, vec![0, 0, 0x80, 0x3F, 0, 0, 0x20, 0xC0]);
    assert_eq!(decode_vectors(&bytes, 1, 2).unwrap(), v);
    assert!(matches!(
        decode_vectors(&bytes, usize::MAX, 2),
        Err(StoreError::SizeOverflow)
    ));
    assert!(matches!(
        decode_vectors(&bytes, 2, 2),
        Err(StoreError::VectorsSize(8, 16, 2, 2))
    ));
}

#[test]
fn a_store_needs_a_dimension() {
    assert!(matches!(FileStore::create("index", 0, "t"), Err(StoreError::ZeroDim)));
}

#[test]
fn opening_checks_version_count_and_identifiers() {
    let mut s = create(1, "t");
    put(&mut s, &chunk("a", "a"), &[1.0]).unwrap();
    put(&mut s, &chunk("b", "b"), &[2.0]).unwrap();
    let mut disk = flush(&mut s);
    disk.version = 9;
    assert!(matches!(open(&disk, 1, "t"), Err(StoreError::UnsupportedVersion(9))));
    disk.version = 1;
    let dropped = disk.chunks.pop().unwrap();
    assert!(matches!(open(&disk, 1, "t"), Err(StoreError::CountMismatch(1, 2))));
    let mut twice = dropped.clone();
    twice.id = "a".to_string();
    disk.chunks.push(twice);
    match open(&disk, 1, "t") {
        Err(StoreError::DuplicateId(id)) => assert_eq!(id, "a"),
        _ => panic!("an identifier occurs twice"),
    }
}

#[test]
fn a_query_of_another_dimension_is_an_error() {
    let s = create(3, "t");
    assert!(matches!(
        s.query(&singles(&[1.0]), &[], 2),
        Err(StoreError::QueryDim(1, 3))
    ));
}

#[test]
fn a_failed_put_changes_nothing() {
    let mut s = create(2, "t");
    put(&mut s, &chunk("a", "a"), &[1.0, 0.0]).unwrap();
    let _ = flush(&mut s);
    assert!(matches!(
        s.put(&chunk("a", "other"), &singles(&[1.0])),
        Err(StoreError::PutDim(1, 2))
    ));
    assert!(!s.dirty);
    assert_eq!(s.get_chunk("a").unwrap().text, "a");
}

#[test]
fn putting_twice_is_putting_once() {
    let mut once = create(2, "t");
    let mut twice = create(2, "t");
    for (id, v) in [("a", [1.0, 0.0]), ("b", [0.0, 1.0])] {
        put(&mut once, &chunk(id, id), &v).unwrap();
        put(&mut twice, &chunk(id, id), &v).unwrap();
        put(&mut twice, &chunk(id, id), &v).unwrap();
    }
    assert_eq!(once.vectors, twice.vectors);
    assert_eq!(once.len(), twice.len());
}

#[test]
fn a_score_that_is_no_number_comes_last() {
    let mut s = create(1, "t");
    for id in ["a", "b", "c"] {
        put(&mut s, &chunk(id, id), &[1.0]).unwrap();
    }
    let scores = singles(&[f32::NAN, 0.25, 0.5]);
    let hits = s.query(&singles(&[1.0]), &scores, 3).unwrap();
    let ids: Vec<&str> = hits.iter().map(|h| h.chunk_id.as_str()).collect();
    assert_eq!(ids, vec!["c", "b", "a"]);
}

#[test]
fn a_dry_run_removes_in_memory_only() {
    let mut s = create(2, "t");
    put(&mut s, &chunk_with_path("a", "src/a.rs"), &[1.0, 0.0]).unwrap();
    put(&mut s, &chunk_with_path("b", "lib/b.rs"), &[0.0, 1.0]).unwrap();
    let _ = flush(&mut s);
    let prefixes = vec!["src/".to_string(), "none/".to_string()];
    let report = prune(&mut s, &prefixes, true);
    assert_eq!(report.removed, vec![1, 0]);
    assert_eq!((report.total_removed, report.zero_match), (1, 1));
    assert!(!s.dirty, "nothing is written after a dry run");
}

#[test]
fn a_prune_leaves_changes_to_be_written() {
    let mut s = create(2, "t");
    put(&mut s, &chunk_with_path("a", "src/a.rs"), &[1.0, 0.0]).unwrap();
    put(&mut s, &chunk_with_path("b", "lib/b.rs"), &[0.0, 1.0]).unwrap();
    let _ = flush(&mut s);
    let report = prune(&mut s, &["src/".to_string()], false);
    assert_eq!(report.total_removed, 1);
    assert!(s.dirty);
    assert_eq!(s.len(), 1);
    assert!(s.get_chunk("a").is_none());
}

#[test]
fn a_store_is_opened_where_there_is_one() {
    let e = Offline(OllamaEmbedder::new("m", 2));
    let mut s = FileStore::for_embedder("index", None, &e).unwrap();
    assert!(s.dirty && s.is_empty());
    assert_eq!((s.dim, s.tag.as_str()), (2, "ollama:m"));
    put(&mut s, &chunk("a", "a"), &[1.0, 0.0]).unwrap();
    let disk = flush(&mut s);
    let stored = |tag: &str| Stored {
        manifest: Manifest {
            version: disk.version,
            dim: disk.dim,
            tag: tag.to_string(),
            count: disk.count,
        },
        vectors: decode_vectors(&disk.vectors, disk.count, disk.dim).unwrap(),
        chunks: disk.chunks.clone(),
    };
    let again = FileStore::for_embedder("index", Some(stored("ollama:m")), &e).unwrap();
    assert!(!again.dirty);
    assert_eq!(again.get_chunk("a").unwrap().text, "a");
    match FileStore::for_embedder("index", Some(stored("other")), &e) {
        Err(error) => assert_eq!(
            error.message(),
            "tag mismatch: on-disk \"other\" vs expected \"ollama:m\""
        ),
        Ok(_) => panic!("the tag differs"),
    }
    assert!(matches!(
        FileStore::open_or_create("index", None, 0, "t"),
        Err(StoreError::ZeroDim)
    ));
}

#[test]
fn store_errors_are_put_in_words() {
    let words = [
        (StoreError::ZeroDim, "dim must be > 0"),
        (StoreError::UnsupportedVersion(9), "unsupported manifest version 9 (expected 1)"),
        (StoreError::DimMismatch(2, 8), "dim mismatch: on-disk 2 vs expected 8"),
        (StoreError::SizeOverflow, "count*dim*4 overflows"),
        (
            StoreError::VectorsSize(5, 8, 1, 2),
            "vectors.bin size 5 != count*dim*4 8 (count=1, dim=2)",
        ),
        (StoreError::CountMismatch(1, 2), "chunks.jsonl has 1 lines but manifest says count=2"),
        (StoreError::DuplicateId("a".to_string()), "duplicate chunk id a in chunks.jsonl"),
        (StoreError::PutDim(3, 2), "put: vector dim 3 != store dim 2"),
        (StoreError::QueryDim(3, 2), "query: vector dim 3 != store dim 2"),
    ];
    for (error, text) in words {
        assert_eq!(error.message(), text);
    }
    assert!(matches!(decode_vectors(&[], usize::MAX, 2), Err(StoreError::SizeOverflow)));
}

fn chunk_line(c: &Chunk) -> String {
    format!(
        "{{\"id\":{:?},\"text\":{},\"path\":{:?},\"offset\":{},\"len\":{}}}",
        c.id,
        serde_json::to_string(&c.text).unwrap(),
        c.path,
        c.offset,
        c.len
    )
}

fn read_chunk_line(line: &str) -> Chunk {
    let v: serde_json::Value = serde_json::from_str(line).unwrap();
    let text = |key: &str| v[key].as_str().unwrap().to_string();
    Chunk {
        id: text("id"),
        text: text("text"),
        path: text("path"),
        offset: v["offset"].as_u64().unwrap() as usize,
        len: v["len"].as_u64().unwrap() as usize,
        lang: None,
    }
}

#[test]
fn what_was_flushed_opens_again() {
    let mut s = create(2, "t");
    put(&mut s, &chunk("a", "one\ntwo\r\n"), &[1.0, 0.0]).unwrap();
    put(&mut s, &chunk("b", ""), &[0.0, 1.0]).unwrap();
    put(&mut s, &chunk("c", "three"), &[1.0, 1.0]).unwrap();
    s.remove_by_path_prefix("nowhere");
    let f = s.flush().unwrap();
    let lines: Vec<String> = s.chunks.iter().map(chunk_line).collect();
    let chunks: Vec<Chunk> =
        read_records(&join_records(&lines)).iter().map(|r| read_chunk_line(&r.text)).collect();
    let vectors = decode_vectors(&f.vectors, f.manifest.count, f.manifest.dim).unwrap();
    let t = FileStore::open("index", f.manifest, vectors, chunks, 2, "t").unwrap();
    assert_eq!(t.len(), 3);
    assert_eq!(t.vectors, s.vectors);
    for (x, y) in t.chunks.iter().zip(&s.chunks) {
        assert_eq!((&x.id, &x.text, &x.path, x.offset, x.len), (&y.id, &y.text, &y.path, y.offset, y.len));
    }
    let ids = |hits: Vec<Hit>| -> Vec<(String, u32)> {
        hits.into_iter().map(|h| (h.chunk_id, h.score.bits)).collect()
    };
    let q = [0.6, 0.8];
    assert_eq!(ids(query(&t, &q, 3).unwrap()), ids(query(&s, &q, 3).unwrap()));
}

#[test]
fn a_change_is_owed_to_the_disk_until_written_or_discarded() {
    let mut s = create(2, "t");
    put(&mut s, &chunk_with_path("a", "x/a"), &[1.0, 0.0]).unwrap();
    let disk = flush(&mut s);
    assert_eq!(s.remove_by_path_prefix("other/"), 0);
    assert!(s.flush().is_none(), "nothing was removed");
    assert_eq!(s.remove_by_path_prefix("x/"), 1);
    assert_eq!(s.flush().map(|f| f.manifest.count), Some(0));
    s.discard_pending_changes();
    assert!(s.flush().is_none());
    assert_eq!(open(&disk, 2, "t").unwrap().len(), 1);
    put(&mut s, &chunk_with_path("b", "x/b"), &[0.0, 1.0]).unwrap();
    let disk = flush(&mut s);
    assert_eq!(open(&disk, 2, "t").unwrap().chunks[0].id, "b");
}
