use ssd_llm::paths::PathStyle;
use ssd_llm::search::{
    list_symbols, read_lines, symbols_to_json, syntax_for, DefinitionScan, GrepScan,
};
use ssd_llm::symbols::{is_definition, strip_visibility, symbol_name, Symbol, SymbolKind, Syntax};
use ssd_llm::tools::{
    cannot_read, chunk_arguments, definition_arguments, grep_arguments, should_skip_dir,
    ChunkArgs, DefinitionArgs, EntryKind, FindDefinitionTool, GrepArgs, GrepTool, ListSymbolsTool, ReadChunkTool,
    TextWalk, Tool, ToolCall, ToolRegistry, MAX_FILE_BYTES,
};
use serde_json::Value;

fn parse(text: &str) -> Value {
    serde_json::from_str(text).unwrap()
}

fn grep(args: &str, files: &[(&str, &str)]) -> Value {
    match GrepTool.execute(args).unwrap() {
        ToolCall::Grep(a) => {
            let mut scan = GrepScan::new(&a);
            for (path, text) in files {
                scan.feed(path, text);
            }
            parse(&scan.to_json())
        }
        _ => panic!("another call"),
    }
}

fn read_chunk(args: &str, content: &str) -> Result<Value, String> {
    match ReadChunkTool.execute(args)? {
        ToolCall::ReadChunk(a) => Ok(parse(&read_lines(&a, content).to_json())),
        _ => panic!("another call"),
    }
}

fn symbols(path: &str, content: &str) -> Value {
    let args = format!("{{\"path\": \"{}\"}}", path);
    match ListSymbolsTool.execute(&args).unwrap() {
        ToolCall::ListSymbols(p) => parse(&symbols_to_json(&list_symbols(PathStyle::current(), &p, content))),
        _ => panic!("another call"),
    }
}

fn find_definition(args: &str, files: &[(&str, &str)]) -> Value {
    match FindDefinitionTool.execute(args).unwrap() {
        ToolCall::FindDefinition(a) => {
            let mut scan = DefinitionScan::new(&a);
            for (path, text) in files {
                scan.feed(path, text);
            }
            parse(&scan.to_json())
        }
        _ => panic!("another call"),
    }
}

#[test]
fn grep_finds_matching_lines() {
    let result = grep(
        "{\"query\": \"hello\", \"path\": \"dir\"}",
        &[("dir/f.txt", "hello world\nfoo bar\nhello again\n")],
    );
    let matches = result["matches"].as_array().unwrap();
    assert!(matches.iter().any(|m| m["text"].as_str().unwrap().contains("hello world")));
    assert!(matches.iter().any(|m| m["text"].as_str().unwrap().contains("hello again")));
}

#[test]
fn grep_returns_empty_when_no_match() {
    let result = grep(
        "{\"query\": \"ZZZNOTFOUND\", \"path\": \"dir\"}",
        &[("dir/f.txt", "no match here\n")],
    );
    assert!(result["matches"].as_array().unwrap().is_empty());
    assert!(!result["truncated"].as_bool().unwrap());
}

#[test]
fn grep_respects_max_results() {
    let content = "needle\n".repeat(10);
    let result = grep(
        "{\"query\": \"needle\", \"path\": \"dir\", \"max_results\": 3}",
        &[("dir/f.txt", &content)],
    );
    assert_eq!(result["matches"].as_array().unwrap().len(), 3);
    assert!(result["truncated"].as_bool().unwrap());
}

#[test]
fn grep_missing_query_returns_error() {
    let result = GrepTool.execute("{\"path\": \".\"}");
    assert!(result.is_err());
    assert!(result.unwrap_err().contains("query"));
}

#[test]
fn read_chunk_returns_correct_lines() {
    let result = read_chunk(
        "{\"path\": \"f.txt\", \"start\": 2, \"end\": 4}",
        "line1\nline2\nline3\nline4\nline5\n",
    )
    .unwrap();
    assert_eq!(result["start"].as_u64().unwrap(), 2);
    let text = result["text"].as_str().unwrap();
    assert!(text.contains("line2"));
    assert!(text.contains("line3"));
    assert!(text.contains("line4"));
    assert!(!text.contains("line1"), "line before range must not appear");
    assert!(!text.contains("line5"), "line after range must not appear");
}

#[test]
fn read_chunk_clamps_end_to_file_length() {
    let result =
        read_chunk("{\"path\": \"f.txt\", \"start\": 2, \"end\": 999}", "a\nb\nc\n").unwrap();
    assert_eq!(result["total_lines"].as_u64().unwrap(), 3);
    assert!(result["text"].as_str().unwrap().contains("b"));
}

#[test]
fn read_chunk_zero_start_returns_error() {
    let result = read_chunk("{\"path\": \"f.txt\", \"start\": 0, \"end\": 1}", "x\n");
    assert!(result.is_err());
}

#[test]
fn read_chunk_end_before_start_returns_error() {
    let result = read_chunk("{\"path\": \"f.txt\", \"start\": 5, \"end\": 3}", "x\n");
    assert!(result.is_err());
}

#[test]
fn read_chunk_missing_path_returns_error() {
    let result = ReadChunkTool.execute("{\"start\": 1, \"end\": 5}");
    assert!(result.is_err());
    assert!(result.unwrap_err().contains("path"));
}

#[test]
fn list_symbols_extracts_rust_fn_and_struct() {
    let src = "pub fn foo() {}\nstruct Bar;\npub(crate) enum Baz {}\n";
    let result = symbols("f.rs", src);
    let syms = result["symbols"].as_array().unwrap();
    assert!(syms.iter().any(|s| s["name"] == "foo" && s["kind"] == "fn"));
    assert!(syms.iter().any(|s| s["name"] == "Bar" && s["kind"] == "struct"));
    assert!(syms.iter().any(|s| s["name"] == "Baz" && s["kind"] == "enum"));
}

#[test]
fn list_symbols_extracts_python_def_and_class() {
    let src = "def my_func():\n    pass\nclass MyClass:\n    pass\n";
    let result = symbols("f.py", src);
    let syms = result["symbols"].as_array().unwrap();
    assert!(syms.iter().any(|s| s["name"] == "my_func" && s["kind"] == "fn"));
    assert!(syms.iter().any(|s| s["name"] == "MyClass" && s["kind"] == "struct"));
}

#[test]
fn list_symbols_empty_file_returns_empty() {
    let result = symbols("f.rs", "");
    assert!(result["symbols"].as_array().unwrap().is_empty());
}

#[test]
fn list_symbols_captures_line_numbers() {
    let src = "// comment\nfn alpha() {}\n// another\nfn beta() {}\n";
    let result = symbols("f.rs", src);
    let syms = result["symbols"].as_array().unwrap();
    let alpha = syms.iter().find(|s| s["name"] == "alpha").unwrap();
    let beta = syms.iter().find(|s| s["name"] == "beta").unwrap();
    assert_eq!(alpha["line"].as_u64().unwrap(), 2);
    assert_eq!(beta["line"].as_u64().unwrap(), 4);
}

#[test]
fn list_symbols_missing_path_returns_error() {
    let result = ListSymbolsTool.execute("{}");
    assert!(result.is_err());
}

#[test]
fn find_definition_locates_struct_in_file() {
    let src = "// comment about MyStruct\nstruct MyStruct {\n    x: u32,\n}\n";
    let result =
        find_definition("{\"symbol\": \"MyStruct\", \"root\": \"dir\"}", &[("dir/f.rs", src)]);
    let matches = result["matches"].as_array().unwrap();
    assert!(!matches.is_empty(), "should find MyStruct definition");
    assert!(matches.iter().any(|m| m["line"].as_u64().unwrap() == 2));
}

#[test]
fn find_definition_does_not_match_substring() {
    let src = "struct FooBar;\nfn setFoo() {}\nstruct Foo;\n";
    let result =
        find_definition("{\"symbol\": \"Foo\", \"root\": \"dir\"}", &[("dir/f.rs", src)]);
    let matches = result["matches"].as_array().unwrap();
    for m in matches {
        let snippet = m["snippet"].as_str().unwrap();
        assert!(
            !snippet.contains("FooBar") && !snippet.contains("setFoo"),
            "false positive: {}",
            snippet
        );
    }
    assert_eq!(matches.len(), 1);
}

#[test]
fn find_definition_returns_empty_for_unknown_symbol() {
    let result = find_definition("{\"symbol\": \"XYZNOTEXIST\", \"root\": \"dir\"}", &[]);
    assert!(result["matches"].as_array().unwrap().is_empty());
}

#[test]
fn find_definition_missing_symbol_returns_error() {
    let result = FindDefinitionTool.execute("{\"root\": \".\"}");
    assert!(result.is_err());
    assert!(result.unwrap_err().contains("symbol"));
}

#[test]
fn registry_with_defaults_has_all_four_tools() {
    let reg = ToolRegistry::with_defaults();
    let names = reg.tool_names();
    assert!(names.contains(&"grep"));
    assert!(names.contains(&"read_chunk"));
    assert!(names.contains(&"list_symbols"));
    assert!(names.contains(&"find_definition"));
    assert_eq!(names.len(), 4);
}

#[test]
fn registry_execute_unknown_tool_returns_error() {
    let reg = ToolRegistry::with_defaults();
    let result = reg.execute("no_such_tool", "{}");
    assert!(result.is_err());
    assert!(result.unwrap_err().contains("unknown tool"));
}

#[test]
fn registry_routes_to_correct_tool() {
    let reg = ToolRegistry::with_defaults();
    let result = match reg.execute("list_symbols", "{\"path\": \"f.rs\"}").unwrap() {
        ToolCall::ListSymbols(p) => parse(&symbols_to_json(&list_symbols(PathStyle::current(), &p, "fn example() {}\n"))),
        _ => panic!("another call"),
    };
    assert!(result.get("symbols").is_some());
}

/// A tool that answers by itself.
struct Echo(&'static str, u32);

impl Tool for Echo {
    fn name(&self) -> &'static str {
        self.0
    }
    fn execute(&self, args: &str) -> Result<ToolCall, String> {
        Ok(ToolCall::Done(format!("[{},{}]", self.1, args)))
    }
}

#[test]
fn the_last_tool_of_a_name_is_called() {
    let mut reg: ToolRegistry<Echo> = ToolRegistry::new();
    assert!(reg.execute("echo", "0").is_err());
    reg.register(Echo("echo", 1));
    reg.register(Echo("other", 2));
    reg.register(Echo("echo", 3));
    match reg.execute("echo", "7").unwrap() {
        ToolCall::Done(text) => assert_eq!(text, "[3,7]"),
        _ => panic!("another call"),
    }
    assert_eq!(reg.tool_names(), vec!["echo", "other", "echo"]);
}

#[test]
fn arguments_have_defaults() {
    let a = grep_arguments(Some("q".to_string()), None, None).unwrap();
    assert_eq!((a.query.as_str(), a.path.as_str(), a.max_results), ("q", ".", 50));
    let d = definition_arguments(Some("s".to_string()), None).unwrap();
    assert_eq!((d.symbol.as_str(), d.root.as_str()), ("s", "."));
    match GrepTool.execute("{\"query\": \"q\", \"max_results\": 7, \"path\": \"p\"}").unwrap() {
        ToolCall::Grep(a) => assert_eq!((a.path.as_str(), a.max_results), ("p", 7)),
        _ => panic!("another call"),
    }
    match GrepTool.execute("{\"query\": \"q\", \"max_results\": -7}").unwrap() {
        ToolCall::Grep(a) => assert_eq!(a.max_results, 50),
        _ => panic!("another call"),
    }
}

#[test]
fn argument_errors_have_their_words() {
    assert_eq!(
        grep_arguments(None, None, None).unwrap_err(),
        "grep: missing required arg 'query'"
    );
    let path = || Some("p".to_string());
    assert_eq!(
        chunk_arguments(path(), None, Some(1)).unwrap_err(),
        "read_chunk: missing required arg 'start'"
    );
    assert_eq!(
        chunk_arguments(path(), Some(1), None).unwrap_err(),
        "read_chunk: missing required arg 'end'"
    );
    assert_eq!(
        chunk_arguments(path(), Some(0), Some(1)).unwrap_err(),
        "read_chunk: 'start' is 1-indexed (got 0)"
    );
    assert_eq!(
        chunk_arguments(path(), Some(5), Some(3)).unwrap_err(),
        "read_chunk: 'end' (3) must be >= 'start' (5)"
    );
    assert_eq!(
        cannot_read("list_symbols", "a.rs", "gone"),
        "list_symbols: cannot read 'a.rs': gone"
    );
    assert!(GrepTool.execute("not json").is_err());
    assert!(GrepTool.execute("[\"query\"]").is_err());
}

#[test]
fn a_search_stops_at_its_limit_across_files() {
    let args = GrepArgs { query: "x".to_string(), path: ".".to_string(), max_results: 3 };
    let mut scan = GrepScan::new(&args);
    scan.feed("a", "x1\ny\n  x2  \n");
    assert!(!scan.truncated);
    scan.feed("b", "x3\nx4\n");
    assert!(scan.truncated);
    scan.feed("c", "x5\n");
    let found: Vec<(&str, usize, &str)> = scan
        .matches
        .iter()
        .map(|m| (m.file.as_str(), m.line, m.text.as_str()))
        .collect();
    assert_eq!(found, vec![("a", 1, "x1"), ("a", 3, "x2"), ("b", 1, "x3")]);
    let none = GrepArgs { query: "x".to_string(), path: ".".to_string(), max_results: 0 };
    let mut scan = GrepScan::new(&none);
    scan.feed("a", "x1\n");
    assert!(scan.matches.is_empty() && scan.truncated);
}

#[test]
fn results_are_compact_json() {
    let args = GrepArgs { query: "\"".to_string(), path: ".".to_string(), max_results: 9 };
    let mut scan = GrepScan::new(&args);
    scan.feed("a\\b", "say \"hi\"\n");
    assert_eq!(
        scan.to_json(),
        "{\"matches\":[{\"file\":\"a\\\\b\",\"line\":1,\"text\":\"say \\\"hi\\\"\"}],\"truncated\":false}"
    );
    let args = ChunkArgs { path: "p".to_string(), start: 2, end: 9 };
    assert_eq!(
        read_lines(&args, "a\r\nb\nc").to_json(),
        "{\"end\":3,\"path\":\"p\",\"start\":2,\"text\":\"b\\nc\",\"total_lines\":3}"
    );
    let list = vec![
        Symbol { name: "f".to_string(), kind: SymbolKind::Fn, line: 1 },
        Symbol { name: "M".to_string(), kind: SymbolKind::Macro, line: 20 },
    ];
    assert_eq!(
        symbols_to_json(&list),
        "{\"symbols\":[{\"kind\":\"fn\",\"line\":1,\"name\":\"f\"},{\"kind\":\"macro\",\"line\":20,\"name\":\"M\"}]}"
    );
    assert_eq!(symbols_to_json(&[]), "{\"symbols\":[]}");
}

#[test]
fn adjacent_ranges_are_one_range() {
    let content = "1\n2\n3\n4\n5\n";
    let range = |start: usize, end: usize| {
        read_lines(&ChunkArgs { path: "p".to_string(), start, end }, content).text
    };
    assert_eq!(range(1, 5), format!("{}\n{}", range(1, 2), range(3, 5)));
    assert_eq!(range(4, 9), "4\n5");
    assert_eq!(range(8, 9), "");
}

#[test]
fn the_extension_tells_the_syntax() {
    assert_eq!(syntax_for("py"), Syntax::Python);
    assert_eq!(syntax_for("tsx"), Syntax::JavaScript);
    assert_eq!(syntax_for("go"), Syntax::Go);
    assert_eq!(syntax_for("weird"), Syntax::Rust);
    let upper = list_symbols(PathStyle::Unix, "F.PY", "def a(x):\n");
    assert_eq!((upper.len(), upper[0].name.as_str()), (1, "a"));
    let js = list_symbols(
        PathStyle::Unix,
        "f.js",
        "export default function run(a) {\nclass A {\nasync function b() {}\n",
    );
    let names: Vec<&str> = js.iter().map(|s| s.name.as_str()).collect();
    assert_eq!(names, vec!["run", "A", "b"]);
    let go = list_symbols(PathStyle::Unix, "f.go", "func main() {\ntype T struct {\n");
    let names: Vec<&str> = go.iter().map(|s| s.name.as_str()).collect();
    assert_eq!(names, vec!["main", "T"]);
    let rust = list_symbols(PathStyle::Unix, "f.rs", "impl<T> X {}\nimpl Tool for Grep {\npub(in a::b) mod m;\n");
    let names: Vec<&str> = rust.iter().map(|s| s.name.as_str()).collect();
    assert_eq!(names, vec!["Tool for Grep", "m"]);
}

#[test]
fn directories_are_searched_except_those_to_skip() {
    assert!(should_skip_dir(".git"));
    assert!(should_skip_dir("target"));
    assert!(should_skip_dir(".hidden"));
    assert!(!should_skip_dir("src"));
    let mut walk = TextWalk::new(PathStyle::Unix, "root");
    assert_eq!(walk.next_directory().as_deref(), Some("root"));
    assert!(!walk.visit("root/src", EntryKind::Directory));
    assert!(!walk.visit("root/node_modules", EntryKind::Directory));
    assert!(!walk.visit("root/lib", EntryKind::Directory));
    assert!(walk.visit("root/a.txt", EntryKind::File(MAX_FILE_BYTES)));
    assert!(!walk.visit("root/b.txt", EntryKind::File(MAX_FILE_BYTES + 1)));
    assert!(!walk.visit("root/c", EntryKind::Other));
    assert_eq!(walk.next_directory().as_deref(), Some("root/lib"));
    assert_eq!(walk.next_directory().as_deref(), Some("root/src"));
    assert_eq!(walk.next_directory(), None);
}

fn chars(s: &str) -> Vec<char> {
    s.chars().collect()
}

#[test]
fn only_top_level_definitions_are_listed() {
    let text = "mod m {\n    fn inner() {}\n}\npub(crate) enum Baz {}\n\tfn tabbed() {}\n";
    assert_eq!(
        symbols("a.rs", text),
        parse(
            "{\"symbols\": [{\"name\":\"m\",\"kind\":\"mod\",\"line\":1},
                {\"name\":\"Baz\",\"kind\":\"enum\",\"line\":4}]}"
        )
    );
    let python = list_symbols(PathStyle::Unix, "a.py", "class A:\n    def method(self):\n        pass\n");
    assert_eq!(python.len(), 1);
}

#[test]
fn a_name_is_the_first_identifier() {
    let name = |tail: &str, kind: SymbolKind| -> String {
        symbol_name(&chars(tail), Syntax::Rust, kind).iter().collect()
    };
    assert_eq!(name("MAX: u32 = 5;", SymbolKind::Const), "MAX");
    assert_eq!(name("  foo<T>(x: T) {", SymbolKind::Fn), "foo");
    assert_eq!(name("Gr\u{f6}\u{df}e;", SymbolKind::Struct), "Gr\u{f6}\u{df}e");
    assert_eq!(name("Bar = Baz;", SymbolKind::Type), "Bar");
    assert_eq!(name("$X: u8 = 1;", SymbolKind::Const), "X");
    assert_eq!(name("  '@ a-b: u8", SymbolKind::Static), "a");
    assert_eq!(name("$ (X): u8", SymbolKind::Const), "");
    assert_eq!(name("{}", SymbolKind::Mod), "");
    assert_eq!(name("Trait for Type {", SymbolKind::Impl), "Trait for Type");
}

#[test]
fn only_a_visibility_qualifier_is_stripped() {
    let strip = |line: &str| -> String { strip_visibility(&chars(line)).iter().collect() };
    assert_eq!(strip("pub fn f()"), "fn f()");
    assert_eq!(strip("pub(crate) enum B {}"), "enum B {}");
    assert_eq!(strip("pub (in a::b) mod m;"), "mod m;");
    assert_eq!(strip("struct S;"), "struct S;");
    assert_eq!(strip("publish();"), "publish();");
    assert_eq!(strip("(a, b) = c;"), "(a, b) = c;");
    assert_eq!(strip("pub"), "");
}

#[test]
fn a_definition_has_the_symbol_as_a_word_anywhere() {
    let defines = |line: &str, symbol: &str| is_definition(&chars(line), &chars(symbol));
    assert!(defines("fn n() {}", "n"));
    assert!(defines("impl FooBar for Foo {", "Foo"));
    assert!(!defines("struct FooBar;", "Foo"));
    assert!(!defines("fn set_n() {}", "n"));
    assert!(!defines("let n = 1;", "n"));
    assert!(!defines("fn f() {}", ""));
    let found = find_definition(
        "{\"symbol\": \"n\", \"root\": \"dir\"}",
        &[("dir/f.rs", "  pub fn n() {}\nfn main() {}\n")],
    );
    assert_eq!(
        found,
        parse("{\"matches\": [{\"file\": \"dir/f.rs\", \"line\": 1, \"snippet\": \"pub fn n() {}\"}]}")
    );
}

#[test]
fn calls_are_seen_from_the_root_directory() {
    let args = |root: &str| DefinitionArgs { symbol: "s".to_string(), root: root.to_string() };
    let seen = |style: PathStyle, root: &str, path: &str| {
        match ToolCall::FindDefinition(args(path)).from_root(style, root) {
            ToolCall::FindDefinition(a) => a.root,
            _ => panic!("another call"),
        }
    };
    let rooted = |root: &str, path: &str| seen(PathStyle::Unix, root, path);
    assert_eq!(rooted("work", "src"), "work/src");
    assert_eq!(rooted("work", "."), "work");
    assert_eq!(rooted(".", "src"), "src");
    assert_eq!(rooted("work", "/tmp"), "/tmp");
    assert_eq!(rooted("work", "C:\\tmp"), "work/C:\\tmp");
    assert_eq!(seen(PathStyle::Windows, "work", "C:\\tmp"), "C:\\tmp");
    match ToolCall::ListSymbols("a.rs".to_string()).from_root(PathStyle::Unix, "work") {
        ToolCall::ListSymbols(path) => assert_eq!(path, "work/a.rs"),
        _ => panic!("another call"),
    }
}

#[test]
fn directories_to_skip_are_known_behind_any_separator() {
    let mut walk = TextWalk::new(PathStyle::Windows, "C:\\repo");
    assert_eq!(walk.next_directory().as_deref(), Some("C:\\repo"));
    assert!(!walk.visit("C:\\repo\\.git", EntryKind::Directory));
    assert!(!walk.visit("C:\\repo\\src", EntryKind::Directory));
    assert_eq!(walk.next_directory().as_deref(), Some("C:\\repo\\src"));
    assert_eq!(walk.next_directory(), None);
    let mut walk = TextWalk::new(PathStyle::Unix, "r");
    assert_eq!(walk.next_directory().as_deref(), Some("r"));
    assert!(!walk.visit("r/a\\.git", EntryKind::Directory));
    assert_eq!(walk.next_directory().as_deref(), Some("r/a\\.git"), "a name with a backslash");
}

#[test]
fn names_are_escaped_in_json() {
    let name = "q\"b\\t\tn\nr\rk\u{8}f\u{c}c\u{1}\u{1f}d\u{7f}\u{e9}/";
    let list = [Symbol { name: name.to_string(), kind: SymbolKind::Fn, line: 3 }];
    assert_eq!(
        symbols_to_json(&list),
        "{\"symbols\":[{\"kind\":\"fn\",\"line\":3,\"name\":\"q\\\"b\\\\t\\tn\\nr\\rk\\bf\\fc\\u0001\\u001fd\u{7f}\u{e9}/\"}]}"
    );
    assert_eq!(parse(&symbols_to_json(&list))["symbols"][0]["name"], name);
}
