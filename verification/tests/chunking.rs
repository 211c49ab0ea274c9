use ssd_llm::chunk::{compose_id, infer_lang, make_id, Chunker, ChunkerError, TextChunker};
use ssd_llm::paths::PathStyle;

#[test]
fn empty_file_yields_no_chunks() {
    let c = TextChunker::new(10, 2).unwrap();
    assert!(c.chunk("x.txt", "").is_empty());
}

#[test]
fn single_line_no_newline_yields_one_chunk() {
    let c = TextChunker::new(10, 2).unwrap();
    let chunks = c.chunk("x.txt", "hello");
    assert_eq!(chunks.len(), 1);
    assert_eq!(chunks[0].text, "hello");
    assert_eq!(chunks[0].offset, 0);
    assert_eq!(chunks[0].len, 5);
}

#[test]
fn content_shorter_than_window_yields_one_chunk() {
    let c = TextChunker::new(10, 2).unwrap();
    let text = "a\nb\nc\n";
    let chunks = c.chunk("x.txt", text);
    assert_eq!(chunks.len(), 1);
    assert_eq!(chunks[0].text, text);
}

#[test]
fn exact_window_yields_one_chunk() {
    let c = TextChunker::new(3, 1).unwrap();
    let chunks = c.chunk("x.txt", "a\nb\nc\n");
    assert_eq!(chunks.len(), 1);
}

#[test]
fn multiple_windows_with_overlap_share_lines() {
    let c = TextChunker::new(3, 1).unwrap();
    let text = "a\nb\nc\nd\ne\n";
    let chunks = c.chunk("x.txt", text);
    assert_eq!(chunks.len(), 2, "expected windows [0..3], [2..5]");
    assert_eq!(chunks[0].text, "a\nb\nc\n");
    assert_eq!(chunks[1].text, "c\nd\ne\n");
    assert_eq!(chunks[0].offset, 0);
    assert_eq!(chunks[1].offset, 4, "line 2 starts at byte 4");
    assert_eq!(&chunks[0].text[4..], &chunks[1].text[..2]);
}

#[test]
fn stride_ge_window_errors_at_construct() {
    assert!(TextChunker::new(5, 5).is_err());
    assert!(TextChunker::new(5, 10).is_err());
    assert!(TextChunker::new(0, 0).is_err());
}

#[test]
fn chunk_ids_are_deterministic_across_calls() {
    let c = TextChunker::new(5, 1).unwrap();
    let text = "alpha\nbeta\ngamma\n";
    let a = c.chunk("same.rs", text);
    let b = c.chunk("same.rs", text);
    assert_eq!(a[0].id, b[0].id);
}

#[test]
fn chunk_ids_change_when_content_changes() {
    let c = TextChunker::new(5, 1).unwrap();
    let a = c.chunk("f.rs", "a\nb\nc\n");
    let b = c.chunk("f.rs", "a\nB\nc\n");
    assert_ne!(
        a[0].id, b[0].id,
        "content hash component must flip when content changes"
    );
}

#[test]
fn chunk_ids_change_when_path_changes() {
    let c = TextChunker::new(5, 1).unwrap();
    let a = c.chunk("alpha.rs", "a\nb\nc\n");
    let b = c.chunk("beta.rs", "a\nb\nc\n");
    assert_ne!(
        a[0].id, b[0].id,
        "path hash component must flip when the same content moves files"
    );
}

#[test]
fn chunk_id_shape_is_parseable() {
    let c = TextChunker::new(5, 1).unwrap();
    let chunks = c.chunk("x.rs", "hi\n");
    let id = &chunks[0].id;
    let parts: Vec<&str> = id.split(':').collect();
    assert_eq!(parts.len(), 3, "id must be <path_hash>:<offset>:<content_hash>");
    assert_eq!(parts[0].len(), 16, "path hash prefix length");
    assert!(parts[1].parse::<usize>().is_ok(), "offset must parse as usize");
    assert_eq!(parts[2].len(), 8, "content hash suffix length");
}

#[test]
fn lang_inferred_from_extension() {
    let c = TextChunker::new(10, 2).unwrap();
    assert_eq!(c.chunk("x.rs", "hello")[0].lang.as_deref(), Some("rust"));
    assert_eq!(c.chunk("x.md", "hello")[0].lang.as_deref(), Some("markdown"));
    assert_eq!(
        c.chunk("x.TS", "hello")[0].lang.as_deref(),
        Some("typescript"),
        "extension matching must be case-insensitive"
    );
    assert_eq!(c.chunk("x.weird", "hello")[0].lang, None);
    assert_eq!(c.chunk("no_extension", "hello")[0].lang, None);
}

#[test]
fn defaults_construct_and_run() {
    let _ = TextChunker::default_code().chunk("x.rs", "a\nb\n");
    let _ = TextChunker::default_prose().chunk("x.md", "a\nb\n");
}

#[test]
fn text_chunker_usable_as_trait_object() {
    let c: Box<dyn Chunker> = Box::new(TextChunker::new(3, 1).unwrap());
    let chunks = c.chunk("x.txt", "a\nb\nc\nd\n");
    assert!(!chunks.is_empty());
}

#[test]
fn offsets_are_byte_offsets_into_original_content() {
    let c = TextChunker::new(2, 0).unwrap();
    let text = "äß\nb\nc\n";
    let chunks = c.chunk("x.txt", text);
    assert_eq!(chunks.len(), 2);
    assert_eq!(chunks[0].offset, 0);
    assert_eq!(chunks[1].offset, 7, "byte offset must account for multi-byte chars");
    assert_eq!(
        &text[chunks[1].offset..chunks[1].offset + chunks[1].len],
        chunks[1].text
    );
}

#[test]
fn construction_errors_tell_the_reason() {
    assert!(matches!(TextChunker::new(0, 0), Err(ChunkerError::ZeroWindow)));
    assert!(matches!(TextChunker::new(0, 3), Err(ChunkerError::ZeroWindow)));
    assert!(matches!(TextChunker::new(5, 7), Err(ChunkerError::StrideTooLarge(7, 5))));
}

#[test]
fn default_windows() {
    let code = TextChunker::default_code();
    assert_eq!((code.window(), code.stride()), (40, 10));
    let prose = TextChunker::default_prose();
    assert_eq!((prose.window(), prose.stride()), (20, 5));
}

#[test]
fn identifiers_hold_hash_prefixes() {
    let path = blake3::hash(b"src/a.rs").to_hex();
    let content = blake3::hash("fn a() {}\n".as_bytes()).to_hex();
    let wanted = format!("{}:{}:{}", &path[..16], 12, &content[..8]);
    assert_eq!(make_id("src/a.rs", 12, "fn a() {}\n"), wanted);
    assert_eq!(
        compose_id("0123456789abcdef0000", 7, "fedcba9876"),
        "0123456789abcdef:7:fedcba98"
    );
}

#[test]
fn adjacent_chunks_overlap_and_the_last_reaches_the_end() {
    let c = TextChunker::new(4, 2).unwrap();
    let lines: Vec<String> = (0..9).map(|i| format!("line {}\n", i)).collect();
    let text = lines.concat();
    let chunks = c.chunk("x.txt", &text);
    for w in chunks.windows(2) {
        let head: Vec<&str> = w[0].text.split_inclusive('\n').collect();
        let tail: Vec<&str> = w[1].text.split_inclusive('\n').collect();
        assert_eq!(head[2..], tail[..2]);
    }
    let last = chunks.last().unwrap();
    assert_eq!(last.offset + last.len, text.len());
    for ch in &chunks {
        assert_eq!(&text[ch.offset..ch.offset + ch.len], ch.text);
    }
}

#[test]
fn languages_of_paths() {
    assert_eq!(infer_lang(PathStyle::Unix, "a/b.KTS").as_deref(), Some("kotlin"));
    assert_eq!(infer_lang(PathStyle::Unix, "a.b/c"), None);
    assert_eq!(infer_lang(PathStyle::Unix, ".rs"), None);
    assert_eq!(infer_lang(PathStyle::Unix, "x.tar.gz"), None);
    assert_eq!(infer_lang(PathStyle::Unix, "x.HPP").as_deref(), Some("cpp"));
}

#[test]
fn chunker_errors_are_put_in_words() {
    assert_eq!(TextChunker::new(0, 0).unwrap_err().message(), "window must be > 0");
    assert_eq!(
        TextChunker::new(10, 12).unwrap_err().message(),
        "stride (12) must be < window (10)"
    );
}

#[test]
fn the_language_follows_the_style_of_paths() {
    let path = "d\\.rs";
    assert_eq!(infer_lang(PathStyle::Unix, path).as_deref(), Some("rust"));
    assert_eq!(infer_lang(PathStyle::Windows, path), None);
    let c = TextChunker::new(5, 1).unwrap();
    let unix = c.with_path_style(PathStyle::Unix).chunk(path, "a\n");
    let windows = c.with_path_style(PathStyle::Windows).chunk(path, "a\n");
    assert_eq!((unix.len(), unix[0].lang.as_deref()), (1, Some("rust")));
    assert_eq!((windows.len(), windows[0].lang.as_deref()), (1, None));
    let here = infer_lang(PathStyle::current(), path);
    assert_eq!(c.chunk(path, "a\n")[0].lang, here);
}
