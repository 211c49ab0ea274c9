use ssd_llm::paths::{path_extension, path_file_name, path_from_root, PathStyle};
use ssd_llm::single::Single;
use ssd_llm::symbols::{is_definition, strip_visibility};
use ssd_llm::text::{
    chars_of, decimal_string, find, join, parse_u32, split_lines, str_eq, string_of, strip_prefix,
    trimmed,
};

fn single(value: f32) -> Single {
    Single { bits: value.to_bits() }
}

fn samples() -> Vec<f32> {
    vec![
        0.0,
        -0.0,
        1.0,
        -1.0,
        1.5,
        f32::MIN_POSITIVE,
        -f32::MIN_POSITIVE,
        1e-45,
        -1e-45,
        f32::MAX,
        f32::MIN,
        f32::INFINITY,
        f32::NEG_INFINITY,
        f32::NAN,
    ]
}

#[test]
fn comparison_is_that_of_numbers() {
    for a in samples() {
        for b in samples() {
            let (x, y) = (single(a), single(b));
            assert_eq!(x.is_less(&y), a < b);
            assert_eq!(x.is_at_most(&y), a <= b);
            let (m, want) = (f32::from_bits(x.maximum(&y).bits), a.max(b));
            assert!(m == want || (m.is_nan() && want.is_nan()));
        }
    }
}

#[test]
fn doubling_and_magnitude_are_those_of_numbers() {
    for a in samples() {
        let twice = f32::from_bits(single(a).twice().bits);
        assert!(twice.to_bits() == (2.0 * a).to_bits() || twice.is_nan());
        assert_eq!(single(a).abs().bits, a.abs().to_bits());
        assert_eq!(single(a).is_nan(), a.is_nan());
    }
    assert_eq!(single(7.0).clamp_to(&single(0.0), &single(1.0)), single(1.0));
    assert_eq!(single(-7.0).clamp_to(&single(0.0), &single(1.0)), single(0.0));
    assert_eq!(single(0.5).clamp_to(&single(0.0), &single(1.0)), single(0.5));
}

#[test]
fn numbers_are_written_and_read() {
    for n in [0u32, 7, 10, 99, 100, 4_294_967_295] {
        let text = decimal_string(n as u64);
        assert_eq!(text, n.to_string());
        assert_eq!(parse_u32(&chars_of(&text)), Some(n));
    }
    for text in ["", "+", "-1", "4294967296", "1x", " 1"] {
        assert_eq!(parse_u32(&chars_of(text)), text.parse::<u32>().ok());
    }
    assert_eq!(parse_u32(&chars_of("+12")), Some(12));
}

#[test]
fn lines_are_those_of_the_standard_library() {
    for text in ["", "a", "a\n", "a\r\nb", "\n\n", "a\rb\n\r\n", "x\r"] {
        let chars = chars_of(text);
        let got: Vec<String> = split_lines(&chars).iter().map(|l| string_of(l)).collect();
        let want: Vec<String> = text.lines().map(|l| l.to_string()).collect();
        assert_eq!(got, want, "{:?}", text);
    }
}

#[test]
fn trimming_and_searching_are_those_of_the_standard_library() {
    for text in ["", "  ", " a b ", "\t\u{a0}x\u{2003}\n", "\u{85}y\u{3000}"] {
        assert_eq!(string_of(trimmed(&chars_of(text))), text.trim());
    }
    assert_eq!(find(&chars_of("abcabc"), &chars_of("ca")), Some(2));
    assert_eq!(find(&chars_of("abc"), &chars_of("")), Some(0));
    assert_eq!(find(&chars_of("abc"), &chars_of("x")), None);
    assert_eq!(strip_prefix(&chars_of("fn f"), "fn ").map(string_of).as_deref(), Some("f"));
    assert!(str_eq("é", "é") && !str_eq("e", "é"));
    let parts = vec!["a".to_string(), "".to_string(), "b".to_string()];
    assert_eq!(join(&parts, ", "), parts.join(", "));
    assert_eq!(join(&[], ","), "");
}

#[test]
fn path_parts() {
    for style in [PathStyle::Unix, PathStyle::Windows] {
        let name = |path: &str| path_file_name(style, path);
        let extension = |path: &str| path_extension(style, path);
        assert_eq!(name("a/b.rs").as_deref(), Some("b.rs"));
        assert_eq!(name("a/b/").as_deref(), Some("b"));
        assert_eq!(name("a/b/.").as_deref(), Some("b"));
        assert_eq!(name("a/.."), None);
        assert_eq!(name("/"), None);
        assert_eq!(name(""), None);
        assert_eq!(extension("a/b.tar.gz").as_deref(), Some("gz"));
        assert_eq!(extension("a/.bashrc"), None);
        assert_eq!(extension("a.b/c"), None);
        assert_eq!(extension("x.").as_deref(), Some(""));
    }
}

#[test]
fn a_backslash_separates_on_windows_alone() {
    let (unix, windows) = (PathStyle::Unix, PathStyle::Windows);
    assert_eq!(path_extension(unix, "d\\.rs").as_deref(), Some("rs"));
    assert_eq!(path_file_name(unix, "d\\.rs").as_deref(), Some("d\\.rs"));
    assert_eq!(path_extension(windows, "d\\.rs"), None);
    assert_eq!(path_extension(unix, "a.b\\c").as_deref(), Some("b\\c"));
    assert_eq!(path_extension(windows, "a.b\\c"), None);
    assert_eq!(path_file_name(unix, "C:\\repo\\.git").as_deref(), Some("C:\\repo\\.git"));
    assert_eq!(path_file_name(windows, "C:\\repo\\.git").as_deref(), Some(".git"));
    assert_eq!(path_file_name(unix, "C:.rs").as_deref(), Some("C:.rs"));
    assert_eq!(path_extension(windows, "C:.rs"), None);
    assert_eq!(path_file_name(windows, "C:"), None);
    assert_eq!(path_from_root(windows, "work", "C:\\tmp"), "C:\\tmp");
    assert_eq!(path_from_root(unix, "work", "C:\\tmp"), "work/C:\\tmp");
    assert_eq!(path_from_root(windows, "work", "\\tmp"), "\\tmp");
    assert_eq!(path_from_root(unix, "work", "\\tmp"), "work/\\tmp");
}

#[test]
fn the_platform_tells_the_style() {
    let here = PathStyle::current();
    assert_eq!(here.separates('\\'), std::path::is_separator('\\'));
    assert!(here.separates('/'));
    assert_eq!(PathStyle::by_backslash(true), PathStyle::Windows);
    assert_eq!(PathStyle::by_backslash(false), PathStyle::Unix);
    for path in ["a/b.rs", "d\\.rs", "a.b\\c", ".rs", "x/..", "a/b.c/", "x.", "\u{e9}.tar.gz"] {
        let p = std::path::Path::new(path);
        assert_eq!(path_file_name(here, path).as_deref(), p.file_name().and_then(|s| s.to_str()));
        assert_eq!(path_extension(here, path).as_deref(), p.extension().and_then(|s| s.to_str()));
    }
}

#[test]
fn definitions_are_recognized() {
    let defines = |line: &str, symbol: &str| is_definition(&chars_of(line), &chars_of(symbol));
    assert!(defines("pub(crate) fn run() {", "run"));
    assert!(defines("class A:", "A"));
    assert!(!defines("let run = 1;", "run"));
    assert!(!defines("fn rerun() {", "run"));
    assert!(!defines("fn run_all() {", "run"));
    let visible = |line: &str| string_of(strip_visibility(&chars_of(line)));
    assert_eq!(visible("pub(in a::b)  fn x()"), "fn x()");
    assert_eq!(visible("pub struct X"), "struct X");
    assert_eq!(visible("struct X"), "struct X");
}
