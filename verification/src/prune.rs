//! Removal of chunks by source-path prefix: arguments, the guard of the live
//! store, and the account of a run.
use crate::json::{self, number_field, parse_fault, string_field};
use crate::store::{self, quote, FileStore};
use crate::text::{
    self, chars_eq, chars_of, decimal_string, replace_char, split_lines, starts_with, str_eq,
    string_copy, string_of, to_ascii_lowercase, trimmed,
};
use vstd::prelude::*;

verus! {

/// Arguments of a run.
#[derive(Debug)]
pub struct Args {
    pub store_dir: String,
    pub paths_file: String,
    pub dry_run: bool,
    pub i_know_live: bool,
}

/// What the arguments seen so far say.
pub struct ArgsData {
    pub store_dir: Option<Seq<char>>,
    pub paths_file: Option<Seq<char>>,
    pub dry_run: bool,
    pub i_know_live: bool,
}

/// Reads arguments one by one behind those that were seen. A later value
/// replaces an earlier one.
pub open spec fn read_args(args: Seq<Seq<char>>, seen: ArgsData) -> Result<ArgsData, Seq<char>>
    decreases args.len(),
{
    if args.len() == 0 {
        Ok(seen)
    } else {
        let arg = args[0];
        let rest = args.skip(1);
        if arg == "--store-dir"@ {
            if rest.len() == 0 {
                Err("--store-dir requires a value"@)
            } else {
                read_args(rest.skip(1), ArgsData { store_dir: Some(rest[0]), ..seen })
            }
        } else if arg == "--paths-file"@ {
            if rest.len() == 0 {
                Err("--paths-file requires a value"@)
            } else {
                read_args(rest.skip(1), ArgsData { paths_file: Some(rest[0]), ..seen })
            }
        } else if arg == "--dry-run"@ {
            read_args(rest, ArgsData { dry_run: true, ..seen })
        } else if arg == "--i-know-this-is-live"@ {
            read_args(rest, ArgsData { i_know_live: true, ..seen })
        } else if arg == "-h"@ || arg == "--help"@ {
            Err("help"@)
        } else {
            Err("unknown argument: "@ + arg)
        }
    }
}

/// The arguments behind the program name. Both the store and the file of paths
/// are needed.
pub open spec fn parsed_args(argv: Seq<Seq<char>>) -> Result<ArgsData, Seq<char>> {
    let args = if argv.len() == 0 {
        argv
    } else {
        argv.skip(1)
    };
    let none = ArgsData { store_dir: None, paths_file: None, dry_run: false, i_know_live: false };
    match read_args(args, none) {
        Ok(a) => if a.store_dir is None {
            Err("missing --store-dir"@)
        } else if a.paths_file is None {
            Err("missing --paths-file"@)
        } else {
            Ok(a)
        },
        Err(e) => Err(e),
    }
}

/// Reads the arguments.
pub fn parse_args(argv: &[String]) -> (r: Result<Args, String>)
    ensures
        match r {
            Ok(a) => parsed_args(text::views(argv@)) == Ok::<ArgsData, Seq<char>>(
                ArgsData {
                    store_dir: Some(a.store_dir@),
                    paths_file: Some(a.paths_file@),
                    dry_run: a.dry_run,
                    i_know_live: a.i_know_live,
                },
            ),
            Err(e) => parsed_args(text::views(argv@)) == Err::<ArgsData, Seq<char>>(e@),
        },
{
    let ghost all = text::views(argv@);
    let mut store_dir: Option<String> = None;
    let mut paths_file: Option<String> = None;
    let mut dry_run: bool = false;
    let mut i_know_live: bool = false;
    let len: usize = argv.len();
    let mut i: usize = if len == 0 {
        0
    } else {
        1
    };
    let ghost none = ArgsData {
        store_dir: None,
        paths_file: None,
        dry_run: false,
        i_know_live: false,
    };
    let ghost whole = read_args(all.skip(i as int), none);
    proof {
        if len == 0 {
            assert(all.skip(0) == all);
        }
    }
    while i < len
        invariant
            len == argv@.len(),
            i <= len,
            all == text::views(argv@),
            whole == read_args(
                all.skip(i as int),
                ArgsData {
                    store_dir: crate::chunk::optional_view(store_dir),
                    paths_file: crate::chunk::optional_view(paths_file),
                    dry_run,
                    i_know_live,
                },
            ),
            match whole {
                Err(e) => parsed_args(all) == Err::<ArgsData, Seq<char>>(e),
                _ => true,
            },
        decreases len - i,
    {
        let arg = argv[i].as_str();
        let ghost here = all.skip(i as int);
        assert(here[0] == arg@);
        assert(here.skip(1) == all.skip(i + 1));
        if str_eq(arg, "--store-dir") {
            if i + 1 >= len {
                return Err(string_copy("--store-dir requires a value"));
            }
            assert(here.skip(1)[0] == argv@[i + 1]@);
            assert(here.skip(1).skip(1) == all.skip(i + 2));
            store_dir = Some(string_copy(argv[i + 1].as_str()));
            i = i + 2;
        } else if str_eq(arg, "--paths-file") {
            if i + 1 >= len {
                return Err(string_copy("--paths-file requires a value"));
            }
            assert(here.skip(1)[0] == argv@[i + 1]@);
            assert(here.skip(1).skip(1) == all.skip(i + 2));
            paths_file = Some(string_copy(argv[i + 1].as_str()));
            i = i + 2;
        } else if str_eq(arg, "--dry-run") {
            dry_run = true;
            i = i + 1;
        } else if str_eq(arg, "--i-know-this-is-live") {
            i_know_live = true;
            i = i + 1;
        } else if str_eq(arg, "-h") || str_eq(arg, "--help") {
            return Err(string_copy("help"));
        } else {
            let mut m = string_copy("unknown argument: ");
            m.append(arg);
            return Err(m);
        }
    }
    let dir = match store_dir {
        Some(d) => d,
        None => {
            return Err(string_copy("missing --store-dir"));
        },
    };
    let file = match paths_file {
        Some(f) => f,
        None => {
            return Err(string_copy("missing --paths-file"));
        },
    };
    Ok(Args { store_dir: dir, paths_file: file, dry_run, i_know_live })
}

/// The directory of the live store.
pub open spec fn live_store() -> Seq<char> {
    "C:\\Users\\Stephen\\.openclaw\\workspace\\workspaces\\main\\.ssd-index-lifeline"@
}

/// A text without the given prefix, however often it stands there.
pub open spec fn without_repeated(s: Seq<char>, prefix: Seq<char>) -> Seq<char>
    decreases s.len(),
{
    if prefix.len() > 0 && text::begins_with(s, prefix) {
        without_repeated(s.skip(prefix.len() as int), prefix)
    } else {
        s
    }
}

/// The path without the prefix that marks extended-length paths.
pub fn strip_extended_prefix(path: &str) -> (r: String)
    ensures
        r@ == without_repeated(path@, "\\\\?\\"@),
{
    let chars = chars_of(path);
    let prefix = chars_of("\\\\?\\");
    let mut at: usize = 0;
    let ghost p = "\\\\?\\"@;
    proof {
        reveal_strlit("\\\\?\\");
        assert(p.len() > 0);
        assert(path@.skip(0) == path@);
    }
    let len: usize = chars.len();
    while starts_with(&chars[at..len], prefix.as_slice())
        invariant
            at <= len,
            len == chars@.len(),
            chars@ == path@,
            prefix@ == p,
            p.len() > 0,
            without_repeated(path@, p) == without_repeated(path@.skip(at as int), p),
        decreases len - at,
    {
        let ghost rest = path@.skip(at as int);
        assert(chars@.subrange(at as int, len as int) == rest);
        assert(rest.skip(p.len() as int) == path@.skip(at + p.len()));
        at = at + prefix.len();
    }
    let rest = &chars[at..len];
    assert(rest@ == path@.skip(at as int));
    string_of(rest)
}

/// `s` without trailing backslashes.
pub open spec fn without_trailing(s: Seq<char>) -> Seq<char>
    decreases s.len(),
{
    if s.len() > 0 && s.last() == '\\' {
        without_trailing(s.drop_last())
    } else {
        s
    }
}

/// A path with backslashes only, its ASCII letters in lower case, and no
/// trailing backslash.
pub open spec fn folded(path: Seq<char>) -> Seq<char> {
    without_trailing(text::ascii_lowercase(text::replaced(path, '/', '\\')))
}

fn fold_path(path: &str) -> (r: Vec<char>)
    ensures
        r@ == folded(path@),
{
    let chars = chars_of(path);
    let slashed = replace_char(chars.as_slice(), '/', '\\');
    let mut r = to_ascii_lowercase(slashed.as_slice());
    let ghost all = r@;
    while r.len() > 0 && r[r.len() - 1] == '\\'
        invariant
            without_trailing(all) == without_trailing(r@),
        decreases r.len(),
    {
        let ghost before = r@;
        r.pop();
        assert(r@ == before.drop_last());
    }
    r
}

/// Whether two paths are the same but for slashes, case and trailing slashes.
pub fn paths_match(a: &str, b: &str) -> (r: bool)
    ensures
        r == (folded(a@) == folded(b@)),
{
    let x = fold_path(a);
    let y = fold_path(b);
    chars_eq(x.as_slice(), y.as_slice())
}

/// Refuses to touch the live store unless the caller insists. `resolved` is the
/// canonical path of the store.
pub fn live_guard(resolved: &str, i_know_live: bool) -> (r: Result<(), String>)
    ensures
        match r {
            Ok(_) => i_know_live || folded(resolved@) != folded(live_store()),
            Err(e) => !i_know_live && folded(resolved@) == folded(live_store()) && e@
                == "refusing to mutate live Lifeline store "@ + store::quoted(resolved@)
                + "; pass --i-know-this-is-live to override"@,
        },
{
    let live = "C:\\Users\\Stephen\\.openclaw\\workspace\\workspaces\\main\\.ssd-index-lifeline";
    if paths_match(resolved, live) && !i_know_live {
        let mut m = string_copy("refusing to mutate live Lifeline store ");
        m.append(quote(resolved).as_str());
        m.append("; pass --i-know-this-is-live to override");
        return Err(m);
    }
    Ok(())
}

/// The lines of a text that are not blank, trimmed.
pub open spec fn trimmed_lines(lines: Seq<Seq<char>>) -> Seq<Seq<char>>
    decreases lines.len(),
{
    if lines.len() == 0 {
        seq![]
    } else {
        let before = trimmed_lines(lines.drop_last());
        let line = text::trim(lines.last());
        if line.len() == 0 {
            before
        } else {
            before.push(line)
        }
    }
}

/// The prefixes that a file lists, one per line.
pub fn read_prefixes(content: &str) -> (r: Vec<String>)
    ensures
        text::views(r@) == trimmed_lines(text::lines(content@)),
{
    let chars = chars_of(content);
    let lines = split_lines(chars.as_slice());
    let ghost all = text::lines(content@);
    let mut r: Vec<String> = Vec::new();
    assert(all.take(0) == Seq::<Seq<char>>::empty());
    for i in 0..lines.len()
        invariant
            text::slice_views(lines@) == all,
            text::views(r@) == trimmed_lines(all.take(i as int)),
    {
        assert(all.take(i + 1).drop_last() == all.take(i as int));
        assert(all[i as int] == lines@[i as int]@);
        let line = trimmed(lines[i]);
        if line.len() > 0 {
            let ghost before = r@;
            let s = string_of(line);
            r.push(s);
            assert(text::views(r@) == text::views(before).push(s@));
        }
    }
    assert(all.take(lines@.len() as int) == all);
    r
}

/// Dimension and tag that a manifest names, or what is wrong with it.
pub fn manifest_identity(manifest: &str) -> (r: Result<(usize, String), String>)
    ensures
        match r {
            Ok((dim, tag)) => {
                &&& json::json_fault(manifest@) is None
                &&& json::json_number(manifest@, "dim"@) matches Some(n) && dim == n as usize
                &&& json::json_string(manifest@, "tag"@) == Some(tag@)
            },
            Err(e) => match json::json_fault(manifest@) {
                Some(fault) => e@ == "parse manifest: "@ + fault,
                None => if json::json_number(manifest@, "dim"@) is None {
                    e@ == "manifest.dim missing"@
                } else {
                    json::json_string(manifest@, "tag"@) is None && e@ == "manifest.tag missing"@
                },
            },
        },
{
    match parse_fault(manifest) {
        Some(fault) => {
            let mut m = string_copy("parse manifest: ");
            m.append(fault.as_str());
            return Err(m);
        },
        None => {},
    }
    let dim = match number_field(manifest, "dim") {
        Some(n) => n as usize,
        None => {
            return Err(string_copy("manifest.dim missing"));
        },
    };
    let tag = match string_field(manifest, "tag") {
        Some(t) => t,
        None => {
            return Err(string_copy("manifest.tag missing"));
        },
    };
    Ok((dim, tag))
}

/// Account of a run.
#[derive(Debug)]
pub struct PruneReport {
    /// Chunks removed for each prefix, in order.
    pub removed: Vec<usize>,
    pub total_removed: usize,
    /// Prefixes for which nothing was removed.
    pub zero_match: usize,
}

/// The entries that lie under none of some prefixes.
pub open spec fn without_all(
    entries: Seq<store::Entry>,
    prefixes: Seq<Seq<char>>,
) -> Seq<store::Entry>
    decreases prefixes.len(),
{
    if prefixes.len() == 0 {
        entries
    } else {
        let before = without_all(entries, prefixes.drop_last());
        if prefixes.last().len() == 0 {
            before
        } else {
            store::without(before, prefixes.last())
        }
    }
}

/// How many of some numbers are zero.
pub open spec fn zeros_in(list: Seq<usize>) -> nat
    decreases list.len(),
{
    if list.len() == 0 {
        0
    } else if list.last() == 0 {
        zeros_in(list.drop_last()) + 1
    } else {
        zeros_in(list.drop_last())
    }
}

/// Removes the chunks under each prefix in turn. After a dry run the changes
/// are marked as not to be written.
pub fn prune(store: &mut FileStore, prefixes: &[String], dry_run: bool) -> (r: PruneReport)
    requires
        old(store).valid(),
    ensures
        final(store).valid(),
        final(store).entries() == without_all(old(store).entries(), text::views(prefixes@)),
        r.removed@.len() == prefixes@.len(),
        forall|i: int|
            0 <= i < prefixes@.len() ==> #[trigger] r.removed@[i] == without_all(
                old(store).entries(),
                text::views(prefixes@).take(i),
            ).len() - without_all(old(store).entries(), text::views(prefixes@).take(i + 1)).len(),
        r.total_removed == old(store).count() - final(store).count(),
        r.zero_match == zeros_in(r.removed@),
        dry_run ==> !final(store).dirty,
        !dry_run ==> final(store).dirty == (old(store).dirty || r.total_removed > 0),
        final(store).dir == old(store).dir,
        final(store).dim == old(store).dim,
        final(store).tag == old(store).tag,
{
    let ghost before = *store;
    let ghost all = text::views(prefixes@);
    let initial: usize = store.len();
    let mut removed: Vec<usize> = Vec::new();
    let mut total_removed: usize = 0;
    let mut zero_match: usize = 0;
    assert(all.take(0) == Seq::<Seq<char>>::empty());
    for i in 0..prefixes.len()
        invariant
            store.valid(),
            before.valid(),
            all == text::views(prefixes@),
            store.entries() == without_all(before.entries(), all.take(i as int)),
            removed@.len() == i,
            forall|k: int|
                0 <= k < i ==> #[trigger] removed@[k] == without_all(
                    before.entries(),
                    all.take(k),
                ).len() - without_all(before.entries(), all.take(k + 1)).len(),
            initial == before.count(),
            total_removed == before.count() - store.count(),
            zero_match == zeros_in(removed@),
            zero_match <= i,
            store.dirty == (before.dirty || total_removed > 0),
            store.dir == before.dir,
            store.dim == before.dim,
            store.tag == before.tag,
    {
        let prefix = prefixes[i].as_str();
        assert(all.take(i + 1).drop_last() == all.take(i as int));
        assert(all.take(i + 1).last() == prefix@);
        let n = store.remove_by_path_prefix(prefix);
        let ghost old_removed = removed@;
        removed.push(n);
        assert(removed@.drop_last() == old_removed);
        if n == 0 {
            zero_match = zero_match + 1;
        }
        total_removed = total_removed + n;
    }
    assert(all.take(prefixes@.len() as int) == all);
    if dry_run {
        store.discard_pending_changes();
    }
    PruneReport { removed, total_removed, zero_match }
}

/// The line that reports one prefix.
pub fn prefix_line(n: usize, prefix: &str, dry_run: bool) -> (r: String)
    ensures
        r@ == (if dry_run {
            "[dry-run] would remove "@
        } else {
            "removed "@
        }) + text::decimal(n as nat) + " chunks for prefix "@ + store::quoted(prefix@),
{
    let mut r = if dry_run {
        string_copy("[dry-run] would remove ")
    } else {
        string_copy("removed ")
    };
    r.append(decimal_string(n as u64).as_str());
    r.append(" chunks for prefix ");
    r.append(quote(prefix).as_str());
    r
}

/// The line that sums a run up.
pub fn summary_line(report: &PruneReport, dry_run: bool) -> (r: String)
    ensures
        r@ == (if dry_run {
            "[dry-run] Pruned "@
        } else {
            "Pruned "@
        }) + text::decimal(report.total_removed as nat) + " chunks across "@ + text::decimal(
            report.removed@.len(),
        ) + " paths ("@ + text::decimal(report.zero_match as nat) + " paths matched zero)"@ + (
        if dry_run {
            "; NOT WRITTEN"@
        } else {
            ""@
        }),
{
    let mut r = if dry_run {
        string_copy("[dry-run] Pruned ")
    } else {
        string_copy("Pruned ")
    };
    r.append(decimal_string(report.total_removed as u64).as_str());
    r.append(" chunks across ");
    r.append(decimal_string(report.removed.len() as u64).as_str());
    r.append(" paths (");
    r.append(decimal_string(report.zero_match as u64).as_str());
    r.append(" paths matched zero)");
    if dry_run {
        r.append("; NOT WRITTEN");
    } else {
        r.append("");
    }
    r
}

/// After a run nothing is left under any of the prefixes, and everything else
/// is. Empty prefixes count for nothing.
pub proof fn lemma_pruned(entries: Seq<store::Entry>, prefixes: Seq<Seq<char>>)
    ensures
        forall|e: store::Entry| #[trigger]
            without_all(entries, prefixes).contains(e) <==> entries.contains(e) && !under_any(
                e.chunk.path,
                prefixes,
            ),
    decreases prefixes.len(),
{
    let after = without_all(entries, prefixes);
    if prefixes.len() == 0 {
        assert forall|e: store::Entry| #[trigger] after.contains(e) <==> entries.contains(e)
            && !under_any(e.chunk.path, prefixes) by {}
    } else {
        let init = prefixes.drop_last();
        let last = prefixes.last();
        let before = without_all(entries, init);
        lemma_pruned(entries, init);
        store::lemma_without(before, last);
        assert forall|e: store::Entry| #[trigger] after.contains(e) <==> entries.contains(e)
            && !under_any(e.chunk.path, prefixes) by {
            let path = e.chunk.path;
            assert(under_any(path, prefixes) <==> under_any(path, init) || (last.len() > 0
                && store::under(path, last))) by {
                if under_any(path, prefixes) {
                    let i = choose|i: int|
                        0 <= i < prefixes.len() && (#[trigger] prefixes[i]).len() > 0
                            && store::under(path, prefixes[i]);
                    if i < init.len() {
                        assert(init[i].len() > 0 && store::under(path, init[i]));
                    }
                }
                if under_any(path, init) {
                    let i = choose|i: int|
                        0 <= i < init.len() && (#[trigger] init[i]).len() > 0 && store::under(
                            path,
                            init[i],
                        );
                    assert(prefixes[i].len() > 0 && store::under(path, prefixes[i]));
                }
                if last.len() > 0 && store::under(path, last) {
                    let i = prefixes.len() - 1;
                    assert(prefixes[i].len() > 0 && store::under(path, prefixes[i]));
                }
            }
            if before.contains(e) {
                let i = choose|i: int| 0 <= i < before.len() && before[i] == e;
                assert(before[i].chunk.path == path);
            }
            if after.contains(e) {
                let i = choose|i: int| 0 <= i < after.len() && after[i] == e;
                assert(after[i] == e);
            }
        }
    }
}

/// The path lies under one of some prefixes that are not empty.
pub open spec fn under_any(path: Seq<char>, prefixes: Seq<Seq<char>>) -> bool {
    exists|i: int|
        0 <= i < prefixes.len() && (#[trigger] prefixes[i]).len() > 0 && store::under(
            path,
            prefixes[i],
        )
}

/// What can be given on the command line.
pub enum Given {
    Store(Seq<char>),
    Paths(Seq<char>),
    DryRun,
    Live,
}

/// The words in which something is given.
pub open spec fn words(g: Given) -> Seq<Seq<char>> {
    match g {
        Given::Store(d) => seq!["--store-dir"@, d],
        Given::Paths(f) => seq!["--paths-file"@, f],
        Given::DryRun => seq!["--dry-run"@],
        Given::Live => seq!["--i-know-this-is-live"@],
    }
}

/// The words in which several things are given, one after the other.
pub open spec fn spelled(items: Seq<Given>) -> Seq<Seq<char>>
    decreases items.len(),
{
    if items.len() == 0 {
        seq![]
    } else {
        words(items[0]) + spelled(items.skip(1))
    }
}

spec fn with(seen: ArgsData, g: Given) -> ArgsData {
    match g {
        Given::Store(d) => ArgsData { store_dir: Some(d), ..seen },
        Given::Paths(f) => ArgsData { paths_file: Some(f), ..seen },
        Given::DryRun => ArgsData { dry_run: true, ..seen },
        Given::Live => ArgsData { i_know_live: true, ..seen },
    }
}

spec fn with_all(seen: ArgsData, items: Seq<Given>) -> ArgsData
    decreases items.len(),
{
    if items.len() == 0 {
        seen
    } else {
        with_all(with(seen, items[0]), items.skip(1))
    }
}

proof fn lemma_option_words()
    ensures
        "--store-dir"@.len() == 11,
        "--paths-file"@.len() == 12,
        "--dry-run"@.len() == 9,
        "--i-know-this-is-live"@.len() == 21,
        "-h"@.len() == 2,
        "--help"@.len() == 6,
{
    reveal_strlit("--store-dir");
    reveal_strlit("--paths-file");
    reveal_strlit("--dry-run");
    reveal_strlit("--i-know-this-is-live");
    reveal_strlit("-h");
    reveal_strlit("--help");
}

proof fn lemma_read_spelled(items: Seq<Given>, tail: Seq<Seq<char>>, seen: ArgsData)
    ensures
        read_args(spelled(items) + tail, seen) == read_args(tail, with_all(seen, items)),
    decreases items.len(),
{
    lemma_option_words();
    let all = spelled(items) + tail;
    if items.len() == 0 {
        assert(all == tail);
    } else {
        let first = words(items[0]);
        let rest = spelled(items.skip(1)) + tail;
        lemma_read_spelled(items.skip(1), tail, with(seen, items[0]));
        assert(all == first + rest);
        assert(all[0] == first[0]);
        if first.len() == 2 {
            assert(all.skip(1)[0] == first[1]);
            assert(all.skip(1).skip(1) == rest);
        } else {
            assert(all.skip(1) == rest);
        }
    }
}

proof fn lemma_with_all(items: Seq<Given>, seen: ArgsData)
    ensures
        ({
            let a = with_all(seen, items);
            &&& a.dry_run <==> seen.dry_run || exists|i: int|
                0 <= i < items.len() && #[trigger] items[i] is DryRun
            &&& a.i_know_live <==> seen.i_know_live || exists|i: int|
                0 <= i < items.len() && #[trigger] items[i] is Live
            &&& a.store_dir is Some <==> seen.store_dir is Some || exists|i: int|
                0 <= i < items.len() && #[trigger] items[i] is Store
            &&& a.paths_file is Some <==> seen.paths_file is Some || exists|i: int|
                0 <= i < items.len() && #[trigger] items[i] is Paths
            &&& (forall|i: int| 0 <= i < items.len() ==> !(#[trigger] items[i] is Store))
                ==> a.store_dir == seen.store_dir
            &&& (forall|i: int| 0 <= i < items.len() ==> !(#[trigger] items[i] is Paths))
                ==> a.paths_file == seen.paths_file
        }),
    decreases items.len(),
{
    if items.len() > 0 {
        let rest = items.skip(1);
        lemma_with_all(rest, with(seen, items[0]));
        assert forall|i: int| 0 <= i < rest.len() implies #[trigger] rest[i] == items[i + 1] by {}
        assert forall|i: int| 1 <= i < items.len() implies #[trigger] items[i] == rest[i - 1] by {}
    }
}

proof fn lemma_last_given(items: Seq<Given>, seen: ArgsData, k: int)
    requires
        0 <= k < items.len(),
    ensures
        items[k] is Store && (forall|i: int|
            k < i < items.len() ==> !(#[trigger] items[i] is Store)) ==> with_all(
            seen,
            items,
        ).store_dir == Some(items[k]->Store_0),
        items[k] is Paths && (forall|i: int|
            k < i < items.len() ==> !(#[trigger] items[i] is Paths)) ==> with_all(
            seen,
            items,
        ).paths_file == Some(items[k]->Paths_0),
    decreases items.len(),
{
    let rest = items.skip(1);
    assert forall|i: int| 0 <= i < rest.len() implies #[trigger] rest[i] == items[i + 1] by {}
    if k > 0 {
        lemma_last_given(rest, with(seen, items[0]), k - 1);
        assert(rest[k - 1] == items[k]);
    } else {
        lemma_with_all(rest, with(seen, items[0]));
    }
}

/// Options can be given in any order and more than once; the last value of each
/// counts. A store and a file of paths have to be given, and nothing else may.
pub proof fn lemma_arguments_are_taken(
    argv: &[String],
    items: Seq<Given>,
    tail: Seq<Seq<char>>,
    r: Result<Args, String>,
    k: int,
)
    requires
        argv@.len() > 0,
        text::views(argv@).skip(1) == spelled(items) + tail,
        call_ensures(parse_args, (argv,), r),
    ensures
        tail.len() == 0 ==> {
            let store = exists|i: int| 0 <= i < items.len() && #[trigger] items[i] is Store;
            let paths = exists|i: int| 0 <= i < items.len() && #[trigger] items[i] is Paths;
            &&& r is Ok <==> store && paths
            &&& !store ==> r->Err_0@ == "missing --store-dir"@
            &&& store && !paths ==> r->Err_0@ == "missing --paths-file"@
            &&& r matches Ok(a) ==> {
                &&& a.dry_run <==> exists|i: int|
                    0 <= i < items.len() && #[trigger] items[i] is DryRun
                &&& a.i_know_live <==> exists|i: int|
                    0 <= i < items.len() && #[trigger] items[i] is Live
                &&& 0 <= k < items.len() && items[k] is Store && (forall|i: int|
                    k < i < items.len() ==> !(#[trigger] items[i] is Store)) ==> a.store_dir@
                    == items[k]->Store_0
                &&& 0 <= k < items.len() && items[k] is Paths && (forall|i: int|
                    k < i < items.len() ==> !(#[trigger] items[i] is Paths)) ==> a.paths_file@
                    == items[k]->Paths_0
            }
        },
        tail == seq!["--store-dir"@] ==> (r matches Err(e) && e@
            == "--store-dir requires a value"@),
        tail == seq!["--paths-file"@] ==> (r matches Err(e) && e@
            == "--paths-file requires a value"@),
        tail.len() > 0 && (tail[0] == "-h"@ || tail[0] == "--help"@) ==> (r matches Err(e) && e@
            == "help"@),
        tail.len() > 0 && ![
            "--store-dir"@,
            "--paths-file"@,
            "--dry-run"@,
            "--i-know-this-is-live"@,
            "-h"@,
            "--help"@,
        ]@.contains(tail[0]) ==> (r matches Err(e) && e@ == "unknown argument: "@ + tail[0]),
{
    lemma_option_words();
    let none = ArgsData { store_dir: None, paths_file: None, dry_run: false, i_know_live: false };
    lemma_read_spelled(items, tail, none);
    lemma_with_all(items, none);
    if 0 <= k < items.len() {
        lemma_last_given(items, none, k);
    }
    let known = [
        "--store-dir"@,
        "--paths-file"@,
        "--dry-run"@,
        "--i-know-this-is-live"@,
        "-h"@,
        "--help"@,
    ]@;
    assert(known[0] == "--store-dir"@ && known[1] == "--paths-file"@ && known[2] == "--dry-run"@
        && known[3] == "--i-know-this-is-live"@ && known[4] == "-h"@ && known[5] == "--help"@);
}

/// Of an extended-length path the mark is taken off, as often as it stands there,
/// and nothing else.
pub proof fn lemma_extended_prefix_is_stripped(path: &str, r: String)
    requires
        call_ensures(strip_extended_prefix, (path,), r),
    ensures
        ({
            let n = path@.len() - r@.len();
            &&& n >= 0 && n % 4 == 0
            &&& forall|i: int|
                0 <= i < n ==> #[trigger] path@[i] == if i % 4 == 2 {
                    '?'
                } else {
                    '\\'
                }
            &&& path@.skip(n) == r@
            &&& r@.len() >= 4 ==> r@.take(4) != seq!['\\', '\\', '?', '\\']
        }),
{
    reveal_strlit("\\\\?\\");
    assert("\\\\?\\"@ == seq!['\\', '\\', '?', '\\']);
    lemma_without_repeated(path@);
}

proof fn lemma_without_repeated(s: Seq<char>)
    ensures
        ({
            let mark = seq!['\\', '\\', '?', '\\'];
            let r = without_repeated(s, mark);
            let n = s.len() - r.len();
            &&& n >= 0 && n % 4 == 0
            &&& forall|i: int|
                0 <= i < n ==> #[trigger] s[i] == if i % 4 == 2 {
                    '?'
                } else {
                    '\\'
                }
            &&& s.skip(n) == r
            &&& r.len() >= 4 ==> r.take(4) != mark
        }),
    decreases s.len(),
{
    let mark = seq!['\\', '\\', '?', '\\'];
    if text::begins_with(s, mark) {
        let rest = s.skip(4);
        lemma_without_repeated(rest);
        let n = s.len() - without_repeated(s, mark).len();
        assert forall|i: int| 0 <= i < n implies #[trigger] s[i] == if i % 4 == 2 {
            '?'
        } else {
            '\\'
        } by {
            if i < 4 {
                assert(s.take(4)[i] == mark[i]);
            } else {
                assert(rest[i - 4] == s[i]);
            }
        }
        assert(rest.skip(n - 4) == s.skip(n));
    } else {
        assert(s.skip(0) == s);
    }
}

/// Without its trailing slashes the path has `n` characters.
pub open spec fn bare(path: Seq<char>, n: int) -> bool {
    &&& 0 <= n <= path.len()
    &&& forall|i: int| n <= i < path.len() ==> store::is_slash(#[trigger] path[i])
    &&& n > 0 ==> !store::is_slash(path[n - 1])
}

/// Two characters are the same but for the kind of slash and the case of an ASCII
/// letter.
pub open spec fn alike(a: char, b: char) -> bool {
    ||| a == b
    ||| store::is_slash(a) && store::is_slash(b)
    ||| 'A' <= a <= 'Z' && b as int == a as int + 32
    ||| 'A' <= b <= 'Z' && a as int == b as int + 32
}

proof fn lemma_folded(path: Seq<char>, n: int)
    requires
        bare(path, n),
    ensures
        folded(path).len() == n,
        forall|i: int|
            0 <= i < n ==> #[trigger] folded(path)[i] == text::ascii_lower(
                if path[i] == '/' {
                    '\\'
                } else {
                    path[i]
                },
            ),
    decreases path.len(),
{
    let all = text::ascii_lowercase(text::replaced(path, '/', '\\'));
    assert(all.len() == path.len());
    if n < path.len() {
        assert(store::is_slash(path[path.len() - 1]));
        assert(all.last() == '\\');
        assert(all.drop_last() == text::ascii_lowercase(
            text::replaced(path.drop_last(), '/', '\\'),
        ));
        lemma_folded(path.drop_last(), n);
    } else if n > 0 {
        assert(all.last() == text::ascii_lower(path[n - 1]));
        assert(all.last() != '\\');
    }
}

/// Two paths match exactly if they are the same but for the kind of slashes, the
/// case of ASCII letters and trailing slashes.
pub proof fn lemma_matching_paths(a: &str, b: &str, r: bool, n: int, m: int)
    requires
        bare(a@, n),
        bare(b@, m),
        call_ensures(paths_match, (a, b), r),
    ensures
        r <==> n == m && forall|i: int| 0 <= i < n ==> alike(#[trigger] a@[i], b@[i]),
{
    lemma_folded(a@, n);
    lemma_folded(b@, m);
    let x = folded(a@);
    let y = folded(b@);
    if r {
        assert forall|i: int| 0 <= i < n implies alike(#[trigger] a@[i], b@[i]) by {
            assert(x[i] == y[i]);
        }
    }
    if n == m && forall|i: int| 0 <= i < n ==> alike(#[trigger] a@[i], b@[i]) {
        assert forall|i: int| 0 <= i < n implies x[i] == y[i] by {
            assert(alike(a@[i], b@[i]));
        }
        assert(x == y);
    }
}

/// Every path has a length without its trailing slashes.
pub proof fn lemma_path_has_bare_length(path: Seq<char>) -> (n: int)
    ensures
        bare(path, n),
    decreases path.len(),
{
    if path.len() > 0 && store::is_slash(path.last()) {
        let init = path.drop_last();
        let n = lemma_path_has_bare_length(init);
        assert forall|i: int| n <= i < path.len() implies store::is_slash(#[trigger] path[i]) by {
            if i < init.len() {
                assert(init[i] == path[i]);
            }
        }
        n
    } else {
        path.len() as int
    }
}

/// A run is refused exactly if it would change the live store and the caller does
/// not insist.
pub proof fn lemma_live_store_is_guarded(
    resolved: &str,
    live: &str,
    i_know_live: bool,
    same: bool,
    r: Result<(), String>,
)
    requires
        live@
            == "C:\\Users\\Stephen\\.openclaw\\workspace\\workspaces\\main\\.ssd-index-lifeline"@,
        call_ensures(paths_match, (resolved, live), same),
        call_ensures(live_guard, (resolved, i_know_live), r),
    ensures
        r is Err <==> same && !i_know_live,
{
}

/// The prefixes are the lines without white space around them, in order, as far as
/// anything is left of them.
pub proof fn lemma_prefixes_are_the_lines(content: &str, r: Vec<String>)
    requires
        call_ensures(read_prefixes, (content,), r),
    ensures
        text::views(r@) == text::lines(content@).map_values(
            |l: Seq<char>| text::trim(l),
        ).filter(|l: Seq<char>| l.len() > 0),
{
    lemma_trimmed_lines(text::lines(content@));
}

proof fn lemma_trimmed_lines(lines: Seq<Seq<char>>)
    ensures
        trimmed_lines(lines) == lines.map_values(|l: Seq<char>| text::trim(l)).filter(
            |l: Seq<char>| l.len() > 0,
        ),
    decreases lines.len(),
{
    reveal(Seq::filter);
    let all = lines.map_values(|l: Seq<char>| text::trim(l));
    if lines.len() > 0 {
        lemma_trimmed_lines(lines.drop_last());
        assert(all.drop_last() == lines.drop_last().map_values(|l: Seq<char>| text::trim(l)));
        assert(all.last() == text::trim(lines.last()));
    }
}

/// The entry lies under one of the first `k` prefixes.
pub open spec fn reached(e: store::Entry, prefixes: Seq<String>, k: int) -> bool {
    exists|i: int| 0 <= i < k && #[trigger] store::lies_under(e.chunk.path, prefixes[i]@)
}

proof fn lemma_filter_twice(
    s: Seq<store::Entry>,
    p: spec_fn(store::Entry) -> bool,
    q: spec_fn(store::Entry) -> bool,
    both: spec_fn(store::Entry) -> bool,
    first: spec_fn(store::Entry) -> bool,
)
    requires
        forall|e: store::Entry| #[trigger] both(e) <==> p(e) && q(e),
        forall|e: store::Entry| #[trigger] first(e) <==> p(e) && !q(e),
    ensures
        s.filter(p).filter(q) == s.filter(both),
        s.filter(p).len() - s.filter(both).len() == s.filter(first).len(),
    decreases s.len(),
{
    reveal(Seq::filter);
    if s.len() > 0 {
        lemma_filter_twice(s.drop_last(), p, q, both, first);
        let before = s.drop_last().filter(p);
        let last = s.last();
        if p(last) {
            assert(s.filter(p) == before.push(last));
            assert(before.push(last).drop_last() == before);
        } else {
            assert(s.filter(p) == before);
        }
    }
}

proof fn lemma_without_all(entries: Seq<store::Entry>, prefixes: Seq<String>, k: int)
    requires
        0 <= k <= prefixes.len(),
    ensures
        without_all(entries, text::views(prefixes).take(k)) == entries.filter(
            |e: store::Entry| !reached(e, prefixes, k),
        ),
    decreases k,
{
    let views = text::views(prefixes);
    let keep = |e: store::Entry| !reached(e, prefixes, k);
    if k == 0 {
        assert(views.take(0) == Seq::<Seq<char>>::empty());
        lemma_keep_all(entries, keep);
    } else {
        let last = prefixes[k - 1]@;
        let kept = |e: store::Entry| !reached(e, prefixes, k - 1);
        let now = |e: store::Entry| !store::lies_under(e.chunk.path, last);
        lemma_without_all(entries, prefixes, k - 1);
        assert(views.take(k).drop_last() == views.take(k - 1));
        assert(views.take(k).last() == last);
        let before = without_all(entries, views.take(k - 1));
        if last.len() > 0 {
            store::lemma_without_is_filter(before, last);
        } else {
            lemma_keep_all(before, now);
        }
        lemma_reached(prefixes, k);
        lemma_filter_twice(
            entries,
            kept,
            now,
            keep,
            |e: store::Entry| !reached(e, prefixes, k - 1) && store::lies_under(e.chunk.path, last),
        );
    }
}

proof fn lemma_reached(prefixes: Seq<String>, k: int)
    requires
        0 < k <= prefixes.len(),
    ensures
        forall|e: store::Entry| #[trigger]
            reached(e, prefixes, k) <==> reached(e, prefixes, k - 1) || store::lies_under(
                e.chunk.path,
                prefixes[k - 1]@,
            ),
{
    assert forall|e: store::Entry| #[trigger]
        reached(e, prefixes, k) <==> reached(e, prefixes, k - 1) || store::lies_under(
            e.chunk.path,
            prefixes[k - 1]@,
        ) by {
        if reached(e, prefixes, k) {
            let i = choose|i: int|
                0 <= i < k && #[trigger] store::lies_under(e.chunk.path, prefixes[i]@);
            if i < k - 1 {
                assert(reached(e, prefixes, k - 1));
            }
        }
        if reached(e, prefixes, k - 1) {
            let i = choose|i: int|
                0 <= i < k - 1 && #[trigger] store::lies_under(e.chunk.path, prefixes[i]@);
            assert(0 <= i < k && store::lies_under(e.chunk.path, prefixes[i]@));
        }
    }
}

proof fn lemma_keep_all(entries: Seq<store::Entry>, keep: spec_fn(store::Entry) -> bool)
    requires
        forall|e: store::Entry| #[trigger] keep(e),
    ensures
        entries.filter(keep) == entries,
    decreases entries.len(),
{
    reveal(Seq::filter);
    if entries.len() > 0 {
        lemma_keep_all(entries.drop_last(), keep);
    }
}

/// A run leaves exactly the entries that lie under none of the prefixes, in order.
/// Each prefix is charged with the entries that it is the first to reach, and the
/// account adds up. Only a run that is no dry run leaves something to write.
pub proof fn lemma_run_is_accounted(
    store: &mut FileStore,
    prefixes: &[String],
    dry_run: bool,
    r: PruneReport,
    k: int,
)
    requires
        call_ensures(prune, (store, prefixes, dry_run), r),
    ensures
        final(store).entries() == old(store).entries().filter(
            |e: store::Entry| !reached(e, prefixes@, prefixes@.len() as int),
        ),
        r.removed@.len() == prefixes@.len(),
        0 <= k < prefixes@.len() ==> r.removed@[k] == old(store).entries().filter(
            |e: store::Entry|
                !reached(e, prefixes@, k) && store::lies_under(e.chunk.path, prefixes@[k]@),
        ).len(),
        r.total_removed == old(store).count() - final(store).count(),
        r.zero_match == r.removed@.filter(|n: usize| n == 0).len(),
        final(store).dirty <==> !dry_run && (old(store).dirty || r.total_removed > 0),
{
    let entries = old(store).entries();
    let views = text::views(prefixes@);
    let n = prefixes@.len() as int;
    assert(views.take(n) == views);
    lemma_without_all(entries, prefixes@, n);
    if 0 <= k < n {
        lemma_without_all(entries, prefixes@, k);
        lemma_without_all(entries, prefixes@, k + 1);
        lemma_reached(prefixes@, k + 1);
        lemma_filter_twice(
            entries,
            |e: store::Entry| !reached(e, prefixes@, k),
            |e: store::Entry| !store::lies_under(e.chunk.path, prefixes@[k]@),
            |e: store::Entry| !reached(e, prefixes@, k + 1),
            |e: store::Entry|
                !reached(e, prefixes@, k) && store::lies_under(e.chunk.path, prefixes@[k]@),
        );
    }
    lemma_zeros(r.removed@);
}

proof fn lemma_zeros(list: Seq<usize>)
    ensures
        zeros_in(list) == list.filter(|n: usize| n == 0).len(),
    decreases list.len(),
{
    reveal(Seq::filter);
    if list.len() > 0 {
        lemma_zeros(list.drop_last());
    }
}

/// A run is reported by prefix and in sum; a dry run says that it would remove and
/// that nothing was written.
pub proof fn lemma_run_is_reported(
    n: usize,
    prefix: &str,
    report: &PruneReport,
    lines: (String, String),
    sums: (String, String),
)
    requires
        call_ensures(prefix_line, (n, prefix, false), lines.0),
        call_ensures(prefix_line, (n, prefix, true), lines.1),
        call_ensures(summary_line, (report, false), sums.0),
        call_ensures(summary_line, (report, true), sums.1),
    ensures
        lines.0@ == "removed "@ + text::decimal(n as nat) + " chunks for prefix "@ + store::quoted(
            prefix@,
        ),
        lines.1@ == "[dry-run] would remove "@ + text::decimal(n as nat) + " chunks for prefix "@
            + store::quoted(prefix@),
        sums.0@ == "Pruned "@ + text::decimal(report.total_removed as nat) + " chunks across "@
            + text::decimal(report.removed@.len()) + " paths ("@ + text::decimal(
            report.zero_match as nat,
        ) + " paths matched zero)"@,
        sums.1@ == "[dry-run] Pruned "@ + text::decimal(report.total_removed as nat)
            + " chunks across "@ + text::decimal(report.removed@.len()) + " paths ("@
            + text::decimal(report.zero_match as nat) + " paths matched zero)"@ + "; NOT WRITTEN"@,
{
    reveal_strlit("");
    assert(sums.0@ + Seq::<char>::empty() == sums.0@);
    assert(""@ == Seq::<char>::empty());
    let body = "Pruned "@ + text::decimal(report.total_removed as nat) + " chunks across "@
        + text::decimal(report.removed@.len()) + " paths ("@ + text::decimal(
        report.zero_match as nat,
    ) + " paths matched zero)"@;
    assert(body + Seq::<char>::empty() == body);
}

} // verus!
