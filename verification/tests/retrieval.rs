use ssd_llm::chunk::{Chunk, Chunker, TextChunker};
use ssd_llm::ollama::{EmbedReply, OllamaEmbedder};
use ssd_llm::records::{join_records, read_records};
use ssd_llm::retrieve::{resolve, Embedder, Retriever, Store};
use ssd_llm::single::Single;
use ssd_llm::store::{FileStore, Hit};
use ssd_llm::walk::{index_entry, IndexReport, Outcome, WalkEvent, Walker};
use std::sync::atomic::{AtomicUsize, Ordering};

fn single(value: f32) -> Single {
    Single { bits: value.to_bits() }
}

fn float(value: Single) -> f32 {
    f32::from_bits(value.bits)
}

struct FakeEmbedder;

impl Embedder for FakeEmbedder {
    fn embed(&self, _: &str) -> Result<Vec<Single>, String> {
        Ok(vec![single(1.0), single(0.0), single(0.0)])
    }
    fn dim(&self) -> usize {
        3
    }
    fn tag(&self) -> &str {
        "fake:v0"
    }
}

struct FakeStore {
    chunks: Vec<Chunk>,
}

impl Store for FakeStore {
    fn put(&mut self, chunk: &Chunk, _v: &[Single]) -> Result<(), String> {
        self.chunks.push(chunk.clone());
        Ok(())
    }
    fn query(&self, _v: &[Single], top_k: usize) -> Result<Vec<Hit>, String> {
        Ok(self
            .chunks
            .iter()
            .take(top_k)
            .map(|c| Hit { chunk_id: c.id.clone(), score: single(0.5) })
            .collect())
    }
    fn get_chunk(&self, chunk_id: &str) -> Result<Option<Chunk>, String> {
        Ok(self.chunks.iter().find(|c| c.id == chunk_id).cloned())
    }
    fn len(&self) -> usize {
        self.chunks.len()
    }
}

#[test]
fn retriever_composes_embedder_and_store() {
    let chunk = Chunk {
        id: "c1".into(),
        text: "hello world".into(),
        path: "a.txt".into(),
        offset: 0,
        len: 11,
        lang: None,
    };
    let mut store = FakeStore { chunks: vec![] };
    store.put(&chunk, &[single(1.0), single(0.0), single(0.0)]).unwrap();
    let retr = Retriever::new(FakeEmbedder, store);
    let hits = retr.retrieve("ignored", 5).unwrap();
    assert_eq!(hits.len(), 1);
    assert_eq!(hits[0].1.text, "hello world");
    assert_eq!(float(hits[0].0.score), 0.5);
}

#[test]
fn empty_store_returns_empty_hits() {
    let store = FakeStore { chunks: vec![] };
    assert!(store.is_empty());
    let retr = Retriever::new(FakeEmbedder, store);
    let hits = retr.retrieve("ignored", 5).unwrap();
    assert!(hits.is_empty());
}

#[test]
fn top_k_limits_results() {
    let mut store = FakeStore { chunks: vec![] };
    for i in 0..10 {
        store
            .put(
                &Chunk {
                    id: format!("c{}", i),
                    text: format!("chunk {}", i),
                    path: "a.txt".into(),
                    offset: i * 10,
                    len: 10,
                    lang: None,
                },
                &[single(1.0), single(0.0), single(0.0)],
            )
            .unwrap();
    }
    let retr = Retriever::new(FakeEmbedder, store);
    let hits = retr.retrieve("ignored", 3).unwrap();
    assert_eq!(hits.len(), 3);
}

struct Forgetful(FakeStore);

impl Store for Forgetful {
    fn put(&mut self, chunk: &Chunk, v: &[Single]) -> Result<(), String> {
        self.0.put(chunk, v)
    }
    fn query(&self, v: &[Single], top_k: usize) -> Result<Vec<Hit>, String> {
        self.0.query(v, top_k)
    }
    fn get_chunk(&self, chunk_id: &str) -> Result<Option<Chunk>, String> {
        if chunk_id == "lost" {
            Ok(None)
        } else if chunk_id == "broken" {
            Err("cannot read".to_string())
        } else {
            self.0.get_chunk(chunk_id)
        }
    }
    fn len(&self) -> usize {
        self.0.len()
    }
}

fn named(id: &str) -> Chunk {
    Chunk {
        id: id.into(),
        text: id.into(),
        path: "a.txt".into(),
        offset: 0,
        len: id.len(),
        lang: None,
    }
}

#[test]
fn hits_without_a_chunk_are_dropped() {
    let store = FakeStore { chunks: vec![named("a"), named("lost"), named("b")] };
    let retr = Retriever::new(FakeEmbedder, Forgetful(store));
    let hits = retr.retrieve("q", 5).unwrap();
    let ids: Vec<&str> = hits.iter().map(|h| h.1.id.as_str()).collect();
    assert_eq!(ids, vec!["a", "b"]);
}

#[test]
fn a_store_error_fails_the_retrieval() {
    let store = FakeStore { chunks: vec![named("a"), named("broken")] };
    let retr = Retriever::new(FakeEmbedder, Forgetful(store));
    assert_eq!(retr.retrieve("q", 5).err().unwrap(), "cannot read");
}

#[test]
fn resolving_keeps_the_order_of_hits() {
    let hits = vec![
        Hit { chunk_id: "x".into(), score: single(0.9) },
        Hit { chunk_id: "y".into(), score: single(0.8) },
        Hit { chunk_id: "z".into(), score: single(0.7) },
    ];
    let pairs = resolve(hits, vec![Some(named("x")), None, Some(named("z"))]);
    let ids: Vec<&str> = pairs.iter().map(|p| p.0.chunk_id.as_str()).collect();
    assert_eq!(ids, vec!["x", "z"]);
}

#[test]
fn ollama_embedder_plugs_into_retriever() {
    let e = OllamaEmbedder::nomic_embed_text();
    assert_eq!(e.dim(), 768);
    assert_eq!(e.tag(), "ollama:nomic-embed-text");
    let _r: Retriever<Offline, FakeStore> =
        Retriever::new(Offline(e), FakeStore { chunks: vec![] });
}

struct Offline(OllamaEmbedder);

impl Embedder for Offline {
    fn embed(&self, text: &str) -> Result<Vec<Single>, String> {
        self.0.request(text)?;
        self.0.receive(EmbedReply::Unreachable("offline".to_string()))
    }
    fn dim(&self) -> usize {
        self.0.dim()
    }
    fn tag(&self) -> &str {
        self.0.tag()
    }
}

#[test]
fn with_endpoint_overrides_default() {
    let e = OllamaEmbedder::new("nomic-embed-text", 768)
        .with_endpoint("http://10.0.0.5:11434/api/embeddings");
    assert_eq!(e.endpoint, "http://10.0.0.5:11434/api/embeddings");
}

#[test]
fn ollama_requests_and_replies() {
    let e = OllamaEmbedder::new("m", 2);
    assert_eq!(e.endpoint, "http://127.0.0.1:11434/api/embeddings");
    let q = e.request("some text").unwrap();
    assert_eq!((q.model.as_str(), q.prompt.as_str()), ("m", "some text"));
    assert_eq!(e.request("").err().unwrap(), "cannot embed empty text");
    let v = vec![single(1.0), single(2.0)];
    assert_eq!(e.receive(EmbedReply::Vector(v.clone())).unwrap(), v);
    assert!(e.receive(EmbedReply::Vector(vec![single(1.0)])).is_err());
    assert!(e.receive(EmbedReply::Malformed("bad".to_string())).is_err());
    assert!(e.receive(EmbedReply::Unreachable("down".to_string())).is_err());
    let long = "x".repeat(900);
    let refused = e.receive(EmbedReply::Refused("500".to_string(), long)).err().unwrap();
    assert!(refused.contains("500"));
    assert!(refused.contains(&"x".repeat(500)));
    assert!(!refused.contains(&"x".repeat(501)));
}

/// Marks which words of a vocabulary a text holds.
struct KeywordEmbedder {
    vocab: Vec<String>,
}

impl KeywordEmbedder {
    fn new(vocab: &[&str]) -> Self {
        Self { vocab: vocab.iter().map(|s| s.to_lowercase()).collect() }
    }
}

impl Embedder for KeywordEmbedder {
    fn embed(&self, text: &str) -> Result<Vec<Single>, String> {
        let lower = text.to_lowercase();
        Ok(self
            .vocab
            .iter()
            .map(|w| single(if lower.contains(w.as_str()) { 1.0 } else { 0.0 }))
            .collect())
    }
    fn dim(&self) -> usize {
        self.vocab.len()
    }
    fn tag(&self) -> &str {
        "keyword:test"
    }
}

fn file(path: &str, content: &str) -> WalkEvent {
    WalkEvent::File {
        path: path.to_string(),
        size: Ok(content.len() as u64),
        content: Some(content.to_string()),
    }
}

fn index<C: Chunker, E: Embedder, S: Store>(
    events: Vec<WalkEvent>,
    walker: &Walker,
    chunker: &C,
    embedder: &E,
    store: &mut S,
) -> IndexReport {
    let mut report = IndexReport::default();
    for event in events {
        index_entry(&mut report, "root", walker, event, chunker, embedder, store);
    }
    report
}

fn extensions(list: &[&str]) -> Vec<String> {
    list.iter().map(|e| e.to_string()).collect()
}

#[test]
fn walker_filters_by_extension() {
    let walker = Walker::default_code().with_extensions(extensions(&["rs", "md"]));
    let chunker = TextChunker::new(10, 2).unwrap();
    let embedder = KeywordEmbedder::new(&["main", "title"]);
    let mut store = FakeStore { chunks: vec![] };
    let report = index(
        vec![
            file("root/keep.rs", "fn main() {}"),
            file("root/keep.md", "# title"),
            file("root/skip.log", "noise"),
        ],
        &walker,
        &chunker,
        &embedder,
        &mut store,
    );
    assert_eq!(report.files_indexed, 2, "rs + md indexed, log skipped");
    assert!(report.files_skipped >= 1);
}

#[test]
fn walker_skips_files_over_max_bytes() {
    let mut walker = Walker::default_code().with_extensions(extensions(&["txt"]));
    walker.max_file_bytes = 10;
    let chunker = TextChunker::new(50, 10).unwrap();
    let embedder = KeywordEmbedder::new(&["short"]);
    let mut store = FakeStore { chunks: vec![] };
    let report = index(
        vec![file("root/ok.txt", "short"), file("root/huge.txt", &"a".repeat(100))],
        &walker,
        &chunker,
        &embedder,
        &mut store,
    );
    assert_eq!(
        report.files_indexed, 1,
        "only ok.txt fits under max_file_bytes"
    );
    assert_eq!(report.files_skipped, 1);
}

struct FlakyEmbedder {
    calls: AtomicUsize,
}

impl Embedder for FlakyEmbedder {
    fn embed(&self, _: &str) -> Result<Vec<Single>, String> {
        let n = self.calls.fetch_add(1, Ordering::Relaxed);
        if n == 0 {
            Err("simulated embed failure".to_string())
        } else {
            Ok(vec![single(1.0); 3])
        }
    }
    fn dim(&self) -> usize {
        3
    }
    fn tag(&self) -> &str {
        "flaky:test"
    }
}

#[test]
fn report_errors_on_embed_failure_but_continues() {
    let walker = Walker::default_code().with_extensions(extensions(&["txt"]));
    let chunker = TextChunker::new(10, 2).unwrap();
    let embedder = FlakyEmbedder { calls: AtomicUsize::new(0) };
    let mut store = FakeStore { chunks: vec![] };
    let report = index(
        vec![file("root/a.txt", "alpha"), file("root/b.txt", "beta")],
        &walker,
        &chunker,
        &embedder,
        &mut store,
    );
    assert_eq!(report.files_indexed, 1, "second file must succeed");
    assert_eq!(report.errors.len(), 1, "first file's error must be recorded");
    assert_eq!(report.errors[0].0, "root/a.txt");
    assert!(report.errors[0].1.contains("simulated embed failure"));
}

/// A file store that ranks by cosine similarity.
struct Cosine(FileStore);

fn unit(v: &[Single]) -> Vec<Single> {
    let norm = v.iter().map(|x| float(*x) * float(*x)).sum::<f32>().sqrt();
    v.iter()
        .map(|x| if norm > 0.0 { single(float(*x) / norm) } else { *x })
        .collect()
}

impl Store for Cosine {
    fn put(&mut self, chunk: &Chunk, vector: &[Single]) -> Result<(), String> {
        self.0.put(chunk, &unit(vector)).map_err(|e| e.message())
    }
    fn query(&self, vector: &[Single], top_k: usize) -> Result<Vec<Hit>, String> {
        let q = unit(vector);
        let scores: Vec<Single> = (0..self.0.len())
            .map(|i| {
                let row = self.0.row(i);
                single(row.iter().zip(q.iter()).map(|(a, b)| float(*a) * float(*b)).sum())
            })
            .collect();
        self.0.query(&q, &scores, top_k).map_err(|e| e.message())
    }
    fn get_chunk(&self, chunk_id: &str) -> Result<Option<Chunk>, String> {
        Ok(self.0.get_chunk(chunk_id))
    }
    fn len(&self) -> usize {
        self.0.len()
    }
}

#[test]
fn end_to_end_retrieval_finds_matching_chunk() {
    let vocab = &["apple", "banana", "cherry", "xylophone", "yak", "zebra", "dogs"];
    let embedder = KeywordEmbedder::new(vocab);
    let walker = Walker::default_code().with_extensions(extensions(&["txt", "md"]));
    let chunker = TextChunker::new(100, 10).unwrap();
    let mut store =
        Cosine(FileStore::create("index", embedder.dim(), embedder.tag()).unwrap());
    let report = index(
        vec![
            file("root/alpha.txt", "apple banana cherry"),
            file("root/beta.txt", "xylophone yak zebra"),
            file("root/gamma.md", "# Docs\nSome text about dogs"),
        ],
        &walker,
        &chunker,
        &embedder,
        &mut store,
    );
    assert_eq!(report.files_indexed, 3);
    assert!(report.chunks_put >= 3);

    let q = embedder.embed("banana").unwrap();
    let hits = store.query(&q, 3).unwrap();
    assert!(!hits.is_empty());
    let top = store.get_chunk(&hits[0].chunk_id).unwrap().unwrap();
    assert!(
        top.text.contains("banana"),
        "top hit for 'banana' must contain the word; got text: {:?}",
        top.text
    );

    let q = embedder.embed("dogs").unwrap();
    let hits = store.query(&q, 3).unwrap();
    let top = store.get_chunk(&hits[0].chunk_id).unwrap().unwrap();
    assert!(
        top.path.ends_with("gamma.md"),
        "top hit for 'dogs' must come from gamma.md; got path: {}",
        top.path
    );
}

#[test]
fn reindex_is_idempotent_under_upsert() {
    let embedder = KeywordEmbedder::new(&["hello", "world"]);
    let walker = Walker::default_code().with_extensions(extensions(&["txt"]));
    let chunker = TextChunker::new(100, 10).unwrap();
    let mut store =
        Cosine(FileStore::create("index", embedder.dim(), embedder.tag()).unwrap());
    let events = || vec![file("root/a.txt", "hello world")];
    let r1 = index(events(), &walker, &chunker, &embedder, &mut store);
    let count_after_first = store.len();
    assert_eq!(r1.files_indexed, 1);
    assert!(count_after_first >= 1);
    let r2 = index(events(), &walker, &chunker, &embedder, &mut store);
    assert_eq!(r2.files_indexed, 1);
    assert_eq!(
        store.len(),
        count_after_first,
        "reindexing unchanged files must not grow the store"
    );
}

#[test]
fn every_file_counts_once() {
    let walker = Walker::default_code().with_extensions(extensions(&["TXT"]));
    let chunker = TextChunker::new(2, 0).unwrap();
    let embedder = FakeEmbedder;
    let mut store = FakeStore { chunks: vec![] };
    let report = index(
        vec![
            WalkEvent::Failed("no entry".to_string()),
            WalkEvent::Other,
            file("root/a.txt", "1\n2\n3\n"),
            file("root/empty.txt", ""),
            file("root/b.rs", "fn b() {}"),
            WalkEvent::File {
                path: "root/c.txt".to_string(),
                size: Err("no size".to_string()),
                content: None,
            },
            WalkEvent::File {
                path: "root/d.txt".to_string(),
                size: Ok(4),
                content: None,
            },
        ],
        &walker,
        &chunker,
        &embedder,
        &mut store,
    );
    assert_eq!(report.files_indexed, 2);
    assert_eq!(report.chunks_put, 2);
    assert_eq!(report.files_visited, 5);
    assert_eq!(report.files_skipped, 3);
    assert_eq!(report.files_visited, report.files_indexed + report.files_skipped);
    let listed: Vec<(&str, &str)> =
        report.errors.iter().map(|e| (e.0.as_str(), e.1.as_str())).collect();
    assert_eq!(
        listed,
        vec![
            ("root", "walk error: no entry"),
            ("root/c.txt", "no size"),
            ("root/d.txt", "unreadable"),
        ]
    );
}

#[test]
fn outcomes_are_counted() {
    let mut report = IndexReport::default();
    report.apply(Outcome::Indexed(3), "a");
    report.apply(Outcome::SkippedTooBig, "b");
    report.apply(Outcome::SkippedWrongExt, "c");
    report.apply(Outcome::SkippedUnreadable, "d");
    report.apply(Outcome::Error("e".to_string(), "why".to_string()), "e");
    assert_eq!(report.files_visited, 5);
    assert_eq!(report.files_indexed, 1);
    assert_eq!(report.files_skipped, 4);
    assert_eq!(report.chunks_put, 3);
    assert!(report.errors.iter().any(|e| e.0 == "e" && e.1 == "why"));
}

#[test]
fn records_are_lines_that_hold_something() {
    let lines = vec!["{\"a\":1}".to_string(), "{\"b\":2}".to_string()];
    let text = join_records(&lines);
    assert_eq!(text, "{\"a\":1}\n{\"b\":2}\n");
    let read = read_records(&text);
    assert_eq!(read.len(), 2);
    assert_eq!((read[1].line, read[1].text.as_str()), (2, "{\"b\":2}"));
    let gaps = read_records("x\n\n  \ny");
    let numbers: Vec<usize> = gaps.iter().map(|r| r.line).collect();
    assert_eq!(numbers, vec![1, 4]);
}

#[test]
fn listed_extensions_match_in_any_case() {
    let mut walker = Walker::default_code();
    assert!(walker.extension_ok("Makefile"));
    walker.include_ext = vec!["RS".to_string(), "Md".to_string()];
    assert!(walker.extension_ok("a.rs"));
    assert!(walker.extension_ok("b.MD"));
    assert!(!walker.extension_ok("c.txt"));
    assert!(!walker.extension_ok("Makefile"));
}
