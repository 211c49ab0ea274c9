use ssd_llm::prune::{
    live_guard, manifest_identity, parse_args, paths_match, prefix_line, read_prefixes,
    strip_extended_prefix, summary_line, PruneReport,
};

fn argv(list: &[&str]) -> Vec<String> {
    let mut all = vec!["ssd-index-prune".to_string()];
    all.extend(list.iter().map(|s| s.to_string()));
    all
}

#[test]
fn arguments_are_read() {
    let a = parse_args(&argv(&["--store-dir", "d", "--paths-file", "p", "--dry-run"])).unwrap();
    assert_eq!((a.store_dir.as_str(), a.paths_file.as_str()), ("d", "p"));
    assert!(a.dry_run && !a.i_know_live);
    let a = parse_args(&argv(&[
        "--i-know-this-is-live",
        "--store-dir",
        "d1",
        "--store-dir",
        "d2",
        "--paths-file",
        "p",
    ]))
    .unwrap();
    assert_eq!(a.store_dir, "d2");
    assert!(a.i_know_live && !a.dry_run);
}

#[test]
fn argument_faults_are_told() {
    let fault = |list: &[&str]| parse_args(&argv(list)).err().unwrap();
    assert_eq!(fault(&["--store-dir"]), "--store-dir requires a value");
    assert_eq!(fault(&["--paths-file"]), "--paths-file requires a value");
    assert_eq!(fault(&["--paths-file", "p"]), "missing --store-dir");
    assert_eq!(fault(&["--store-dir", "d"]), "missing --paths-file");
    assert_eq!(fault(&["--store-dir", "d", "-h"]), "help");
    assert_eq!(fault(&["--verbose"]), "unknown argument: --verbose");
    assert_eq!(parse_args(&[]).err().unwrap(), "missing --store-dir");
}

const LIVE: &str = "c:/users/stephen/.OPENCLAW/workspace/workspaces/main/.ssd-index-lifeline//";

#[test]
fn the_live_store_is_guarded() {
    let fault = live_guard(LIVE, false).err().unwrap();
    assert!(fault.starts_with("refusing to mutate live Lifeline store \"c:/users"));
    assert!(fault.ends_with("; pass --i-know-this-is-live to override"));
    assert!(live_guard(LIVE, true).is_ok());
    assert!(live_guard("/tmp/store", false).is_ok());
}

#[test]
fn paths_compare_without_case_and_separators() {
    assert!(paths_match("A\\b/C", "a/B\\c\\"));
    assert!(!paths_match("a/b", "a/bc"));
    assert_eq!(strip_extended_prefix("\\\\?\\C:\\x"), "C:\\x");
    assert_eq!(strip_extended_prefix("C:\\x"), "C:\\x");
}

#[test]
fn prefixes_are_lines_that_hold_something() {
    assert_eq!(read_prefixes("  src/a \r\n\n\t\nlib\n"), vec!["src/a", "lib"]);
    assert!(read_prefixes("\n \n").is_empty());
}

#[test]
fn a_manifest_tells_dimension_and_tag() {
    let text = "{\"version\": 1, \"dim\": 768, \"tag\": \"ollama:m\", \"count\": 2}";
    assert_eq!(manifest_identity(text).unwrap(), (768, "ollama:m".to_string()));
    assert_eq!(
        manifest_identity("{\"tag\": \"t\"}").err().unwrap(),
        "manifest.dim missing"
    );
    assert_eq!(
        manifest_identity("{\"dim\": 3, \"tag\": 4}").err().unwrap(),
        "manifest.tag missing"
    );
    assert!(manifest_identity("{").err().unwrap().starts_with("parse manifest: "));
}

#[test]
fn a_run_is_told_in_lines() {
    assert_eq!(prefix_line(2, "a\"b", false), "removed 2 chunks for prefix \"a\\\"b\"");
    assert_eq!(
        prefix_line(0, "src", true),
        "[dry-run] would remove 0 chunks for prefix \"src\""
    );
    let report = PruneReport { removed: vec![3, 0], total_removed: 3, zero_match: 1 };
    assert_eq!(
        summary_line(&report, false),
        "Pruned 3 chunks across 2 paths (1 paths matched zero)"
    );
    assert_eq!(
        summary_line(&report, true),
        "[dry-run] Pruned 3 chunks across 2 paths (1 paths matched zero); NOT WRITTEN"
    );
}
