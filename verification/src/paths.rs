//! Names in file paths, as the platform separates them.
use crate::text::{chars_eq, chars_of, str_eq, string_copy, string_of};
use vstd::prelude::*;

verus! {

/// A segment that names nothing: empty, or the current directory.
pub open spec fn is_blank_segment(s: Seq<char>) -> bool {
    s.len() == 0 || s == seq!['.']
}

/// How paths are written.
#[derive(Clone, Copy, Debug, PartialEq, Eq, Structural)]
pub enum PathStyle {
    /// Slashes separate segments.
    Unix,
    /// Slashes and backslashes separate segments, and a path may begin with a
    /// drive.
    Windows,
}

/// Calls `std::path::is_separator`, which tells whether a character separates
/// the segments of a path on the platform that runs the program. Which
/// characters do is the platform's affair, so nothing is claimed of the answer.
#[verifier::external_body]
fn separates_here(c: char) -> (b: bool) {
    std::path::is_separator(c)
}

impl PathStyle {
    /// The style of a platform, by whether backslashes separate segments there.
    pub fn by_backslash(separates: bool) -> (r: Self)
        ensures
            r == (if separates {
                PathStyle::Windows
            } else {
                PathStyle::Unix
            }),
    {
        if separates {
            PathStyle::Windows
        } else {
            PathStyle::Unix
        }
    }

    /// The style of the platform that runs the program: what it says of the
    /// backslash decides.
    pub fn current() -> (r: Self) {
        PathStyle::by_backslash(separates_here('\\'))
    }

    /// Whether a character separates segments.
    pub fn separates(self, c: char) -> (b: bool)
        ensures
            b == is_separator(self, c),
    {
        c == '/' || (self == PathStyle::Windows && c == '\\')
    }
}

/// A character that separates segments.
pub open spec fn is_separator(style: PathStyle, c: char) -> bool {
    c == '/' || style == PathStyle::Windows && c == '\\'
}

/// The path begins with a drive: a letter and a colon.
pub open spec fn has_drive(style: PathStyle, path: Seq<char>) -> bool {
    &&& style == PathStyle::Windows
    &&& path.len() > 1
    &&& 'a' <= path[0] <= 'z' || 'A' <= path[0] <= 'Z'
    &&& path[1] == ':'
}

/// A path without its drive.
pub open spec fn below_drive(style: PathStyle, path: Seq<char>) -> Seq<char> {
    if has_drive(style, path) {
        path.skip(2)
    } else {
        path
    }
}

/// Position behind the last separator.
pub open spec fn segment_start(style: PathStyle, path: Seq<char>) -> int
    decreases path.len(),
{
    if path.len() == 0 {
        0
    } else if is_separator(style, path.last()) {
        path.len() as int
    } else {
        segment_start(style, path.drop_last())
    }
}

/// The last segment that names something.
pub open spec fn last_segment(style: PathStyle, path: Seq<char>) -> Option<Seq<char>>
    decreases path.len(),
{
    let start = segment_start(style, path);
    let segment = path.skip(start);
    if !is_blank_segment(segment) {
        Some(segment)
    } else if start <= 0 || start > path.len() {
        None
    } else {
        last_segment(style, path.take(start - 1))
    }
}

/// The file name of a path: its last segment below the drive, unless that is the
/// parent directory.
pub open spec fn file_name(style: PathStyle, path: Seq<char>) -> Option<Seq<char>> {
    match last_segment(style, below_drive(style, path)) {
        Some(s) if s != seq!['.', '.'] => Some(s),
        _ => None,
    }
}

/// Position of the last dot.
pub open spec fn last_dot(name: Seq<char>) -> Option<int>
    decreases name.len(),
{
    if name.len() == 0 {
        None
    } else if name.last() == '.' {
        Some(name.len() - 1)
    } else {
        last_dot(name.drop_last())
    }
}

/// The extension of a path: what stands behind the last dot of its file name,
/// unless that dot is its first character.
pub open spec fn extension(style: PathStyle, path: Seq<char>) -> Option<Seq<char>> {
    match file_name(style, path) {
        Some(name) => match last_dot(name) {
            Some(i) if i > 0 => Some(name.skip(i + 1)),
            _ => None,
        },
        None => None,
    }
}

fn find_segment_start(style: PathStyle, path: &[char]) -> (r: usize)
    ensures
        r == segment_start(style, path@),
        r <= path.len(),
{
    let mut n: usize = path.len();
    assert(path@.take(n as int) == path@);
    while n > 0 && !style.separates(path[n - 1])
        invariant
            n <= path.len(),
            segment_start(style, path@) == segment_start(style, path@.take(n as int)),
        decreases n,
    {
        assert(path@.take(n as int).drop_last() == path@.take(n - 1));
        n = n - 1;
    }
    n
}

fn find_last_segment<'a>(style: PathStyle, path: &'a [char]) -> (r: Option<&'a [char]>)
    ensures
        match r {
            Some(s) => last_segment(style, path@) == Some(s@),
            None => last_segment(style, path@) is None,
        },
    decreases path.len(),
{
    let start: usize = find_segment_start(style, path);
    let segment = &path[start..path.len()];
    assert(segment@ == path@.skip(start as int));
    let dot: [char; 1] = ['.'];
    assert(dot@ == seq!['.']);
    if segment.len() > 0 && !chars_eq(segment, &dot) {
        return Some(segment);
    }
    if start == 0 {
        return None;
    }
    let rest = &path[0..start - 1];
    assert(rest@ == path@.take(start - 1));
    find_last_segment(style, rest)
}

fn find_file_name<'a>(style: PathStyle, path: &'a [char]) -> (r: Option<&'a [char]>)
    ensures
        match r {
            Some(s) => file_name(style, path@) == Some(s@),
            None => file_name(style, path@) is None,
        },
{
    let rest = if starts_with_drive(style, path) {
        &path[2..path.len()]
    } else {
        path
    };
    assert(rest@ == below_drive(style, path@));
    let parent: [char; 2] = ['.', '.'];
    assert(parent@ == seq!['.', '.']);
    match find_last_segment(style, rest) {
        Some(s) => {
            if chars_eq(s, &parent) {
                None
            } else {
                Some(s)
            }
        },
        None => None,
    }
}

fn starts_with_drive(style: PathStyle, path: &[char]) -> (b: bool)
    ensures
        b == has_drive(style, path@),
{
    style == PathStyle::Windows && path.len() > 1 && path[1] == ':' && (('a' <= path[0] && path[0]
        <= 'z') || ('A' <= path[0] && path[0] <= 'Z'))
}

/// The file name of a path.
pub fn path_file_name(style: PathStyle, path: &str) -> (r: Option<String>)
    ensures
        match r {
            Some(s) => file_name(style, path@) == Some(s@),
            None => file_name(style, path@) is None,
        },
{
    let chars = chars_of(path);
    match find_file_name(style, chars.as_slice()) {
        Some(s) => Some(string_of(s)),
        None => None,
    }
}

/// The extension of a path.
pub fn path_extension(style: PathStyle, path: &str) -> (r: Option<String>)
    ensures
        match r {
            Some(s) => extension(style, path@) == Some(s@),
            None => extension(style, path@) is None,
        },
{
    let chars = chars_of(path);
    let name = match find_file_name(style, chars.as_slice()) {
        Some(s) => s,
        None => {
            return None;
        },
    };
    let mut n: usize = name.len();
    assert(name@.take(n as int) == name@);
    while n > 0 && name[n - 1] != '.'
        invariant
            n <= name.len(),
            last_dot(name@) == last_dot(name@.take(n as int)),
        decreases n,
    {
        assert(name@.take(n as int).drop_last() == name@.take(n - 1));
        n = n - 1;
    }
    if n <= 1 {
        return None;
    }
    let ext = &name[n..name.len()];
    assert(ext@ == name@.skip(n as int));
    Some(string_of(ext))
}

/// The path does not depend on a directory: it begins with a separator or with
/// a drive.
pub open spec fn is_absolute(style: PathStyle, path: Seq<char>) -> bool {
    path.len() > 0 && is_separator(style, path[0]) || has_drive(style, path)
}

/// A path seen from a root directory.
pub open spec fn rooted(style: PathStyle, root: Seq<char>, path: Seq<char>) -> Seq<char> {
    if root == "."@ || is_absolute(style, path) {
        path
    } else if path == "."@ {
        root
    } else {
        root + "/"@ + path
    }
}

/// A path seen from a root directory.
pub fn path_from_root(style: PathStyle, root: &str, path: &str) -> (r: String)
    ensures
        r@ == rooted(style, root@, path@),
{
    let chars = chars_of(path);
    let absolute = (chars.len() > 0 && style.separates(chars[0])) || starts_with_drive(
        style,
        chars.as_slice(),
    );
    if str_eq(root, ".") || absolute {
        string_copy(path)
    } else if str_eq(path, ".") {
        string_copy(root)
    } else {
        let mut r = string_copy(root);
        r.append("/");
        r.append(path);
        r
    }
}

/// A path without backslashes and colons reads the same in either style.
pub proof fn lemma_plain_paths_agree(path: Seq<char>)
    requires
        !path.contains('\\'),
        !path.contains(':'),
    ensures
        file_name(PathStyle::Windows, path) == file_name(PathStyle::Unix, path),
        extension(PathStyle::Windows, path) == extension(PathStyle::Unix, path),
        is_absolute(PathStyle::Windows, path) == is_absolute(PathStyle::Unix, path),
{
    if path.len() > 1 {
        assert(path.contains(path[1]));
    }
    if path.len() > 0 {
        assert(path.contains(path[0]));
    }
    lemma_last_segments_agree(path);
}

proof fn lemma_segment_starts_agree(path: Seq<char>)
    requires
        !path.contains('\\'),
    ensures
        segment_start(PathStyle::Windows, path) == segment_start(PathStyle::Unix, path),
    decreases path.len(),
{
    if path.len() > 0 {
        assert(path.contains(path.last()));
        assert forall|c: char| #[trigger] path.drop_last().contains(c) implies path.contains(c) by {
            let i = choose|i: int| 0 <= i < path.len() - 1 && path.drop_last()[i] == c;
            assert(path[i] == c);
        }
        lemma_segment_starts_agree(path.drop_last());
    }
}

proof fn lemma_last_segments_agree(path: Seq<char>)
    requires
        !path.contains('\\'),
    ensures
        last_segment(PathStyle::Windows, path) == last_segment(PathStyle::Unix, path),
    decreases path.len(),
{
    lemma_segment_starts_agree(path);
    let start = segment_start(PathStyle::Unix, path);
    if 0 < start <= path.len() {
        let head = path.take(start - 1);
        assert forall|c: char| #[trigger] head.contains(c) implies path.contains(c) by {
            let i = choose|i: int| 0 <= i < head.len() && head[i] == c;
            assert(path[i] == c);
        }
        lemma_last_segments_agree(head);
    }
}

/// A character that cannot stand inside a name of a path.
pub open spec fn ends_name(style: PathStyle, c: char) -> bool {
    c == '/' || (style == PathStyle::Windows && c == '\\')
}

/// The file name of a path that ends in a name behind a separator is that name, and
/// so is that of the bare name. A path that ends in the parent directory has none.
pub proof fn lemma_file_name_is_last(
    style: PathStyle,
    directory: Seq<char>,
    separator: char,
    name: Seq<char>,
)
    requires
        ends_name(style, separator),
        name.len() > 0,
        name != seq!['.'],
        forall|i: int| 0 <= i < name.len() ==> !ends_name(style, #[trigger] name[i]) && name[i] != ':',
    ensures
        name != seq!['.', '.'] ==> file_name(style, directory.push(separator) + name) == Some(name),
        name != seq!['.', '.'] ==> file_name(style, name) == Some(name),
        name == seq!['.', '.'] ==> file_name(style, directory.push(separator) + name) is None,
{
    let head = directory.push(separator);
    let path = head + name;
    let below = below_drive(style, path);
    if has_drive(style, path) {
        // The drive lies in the directory, or is the whole of it.
        assert(path[1] == ':');
        assert(head.len() >= 2) by {
            if head.len() == 1 {
                assert(path[1] == name[0]);
            }
        }
        assert(head[1] == ':');
        assert(head.len() >= 3);
        let rest = head.skip(2);
        assert(below == rest + name);
        assert(rest.last() == separator);
        lemma_last_segment(style, rest, name);
    } else {
        lemma_last_segment(style, head, name);
    }
    assert(!has_drive(style, name));
    let none = Seq::<char>::empty();
    lemma_last_segment(style, none, name);
    assert(none + name == name);
}

proof fn lemma_segment_start(style: PathStyle, head: Seq<char>, name: Seq<char>)
    requires
        head.len() == 0 || is_separator(style, head.last()),
        forall|i: int| 0 <= i < name.len() ==> !is_separator(style, #[trigger] name[i]),
    ensures
        segment_start(style, head + name) == head.len(),
    decreases name.len(),
{
    let path = head + name;
    if name.len() > 0 {
        assert(path.last() == name[name.len() - 1]);
        assert(path.drop_last() == head + name.drop_last());
        let less = name.drop_last();
        assert forall|i: int| 0 <= i < less.len() implies !is_separator(style, #[trigger] less[i]) by {
            assert(less[i] == name[i]);
        }
        lemma_segment_start(style, head, less);
    } else {
        assert(path == head);
    }
}

proof fn lemma_last_segment(style: PathStyle, head: Seq<char>, name: Seq<char>)
    requires
        head.len() == 0 || is_separator(style, head.last()),
        name.len() > 0,
        name != seq!['.'],
        forall|i: int| 0 <= i < name.len() ==> !ends_name(style, #[trigger] name[i]) && name[i] != ':',
    ensures
        last_segment(style, head + name) == Some(name),
{
    assert forall|i: int| 0 <= i < name.len() implies !is_separator(style, #[trigger] name[i]) by {
        assert(!ends_name(style, name[i]));
    }
    lemma_segment_start(style, head, name);
    assert((head + name).skip(head.len() as int) == name);
}

proof fn lemma_last_dot(stem: Seq<char>, ext: Seq<char>)
    requires
        !ext.contains('.'),
    ensures
        last_dot(stem + seq!['.'] + ext) == Some(stem.len() as int),
    decreases ext.len(),
{
    let name = stem + seq!['.'] + ext;
    if ext.len() > 0 {
        assert(name.last() == ext[ext.len() - 1]);
        assert(ext.contains(ext[ext.len() - 1]));
        let less = ext.drop_last();
        assert(name.drop_last() == stem + seq!['.'] + less);
        if less.contains('.') {
            let i = choose|i: int| 0 <= i < less.len() && less[i] == '.';
            assert(ext[i] == '.');
        }
        lemma_last_dot(stem, less);
    } else {
        assert(name == stem + seq!['.']);
        assert(name.last() == '.');
    }
}

proof fn lemma_no_dot(name: Seq<char>)
    requires
        !name.contains('.'),
    ensures
        last_dot(name) is None,
    decreases name.len(),
{
    if name.len() > 0 {
        assert(name.contains(name[name.len() - 1]));
        let less = name.drop_last();
        if less.contains('.') {
            let i = choose|i: int| 0 <= i < less.len() && less[i] == '.';
            assert(name[i] == '.');
        }
        lemma_no_dot(less);
    }
}

/// The extension of a path whose file name has a dot inside is what stands behind
/// the last one. A file name without a dot, or with one at its start alone, has no
/// extension, and neither has a path without a file name.
pub proof fn lemma_extension_is_behind_last_dot(
    style: PathStyle,
    path: Seq<char>,
    stem: Seq<char>,
    ext: Seq<char>,
)
    requires
        !ext.contains('.'),
    ensures
        file_name(style, path) == Some(stem + seq!['.'] + ext) && stem.len() > 0 ==> extension(
            style,
            path,
        ) == Some(ext),
        file_name(style, path) == Some(seq!['.'] + ext) ==> extension(style, path) is None,
        file_name(style, path) == Some(ext) ==> extension(style, path) is None,
        file_name(style, path) is None ==> extension(style, path) is None,
{
    lemma_last_dot(stem, ext);
    lemma_no_dot(ext);
    let none = Seq::<char>::empty();
    lemma_last_dot(none, ext);
    assert(none + seq!['.'] + ext == seq!['.'] + ext);
    let name = stem + seq!['.'] + ext;
    assert(name.skip(stem.len() as int + 1) == ext);
}

/// The functions on paths give the file name and the extension.
pub proof fn lemma_path_parts(
    style: PathStyle,
    path: &str,
    name: Option<String>,
    ext: Option<String>,
)
    requires
        call_ensures(path_file_name, (style, path), name),
        call_ensures(path_extension, (style, path), ext),
    ensures
        name is Some <==> file_name(style, path@) is Some,
        name matches Some(n) ==> file_name(style, path@) == Some(n@),
        ext is Some <==> extension(style, path@) is Some,
        ext matches Some(e) ==> extension(style, path@) == Some(e@),
{
}

/// From the current directory every path stays. From any other root, a relative
/// path goes behind the root and a slash, the current directory is the root, and a
/// path that begins with a separator or a drive stays.
pub proof fn lemma_paths_from_root(style: PathStyle, root: &str, path: &str, r: String)
    requires
        call_ensures(path_from_root, (style, root, path), r),
    ensures
        root@ == "."@ ==> r@ == path@,
        path@.len() > 0 && ends_name(style, path@[0]) ==> r@ == path@,
        style == PathStyle::Windows && path@.len() > 1 && path@[1] == ':' && ('a' <= path@[0] <= 'z'
            || 'A' <= path@[0] <= 'Z') ==> r@ == path@,
        root@ != "."@ && path@ == "."@ ==> r@ == root@,
        root@ != "."@ && path@ != "."@ && (path@.len() == 0 || !ends_name(style, path@[0])) && (style
            == PathStyle::Unix || path@.len() < 2 || path@[1] != ':') ==> r@ == root@ + "/"@ + path@,
{
    reveal_strlit(".");
}

} // verus!
