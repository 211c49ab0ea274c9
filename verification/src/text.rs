//! Text primitives over sequences of characters.
//!
//! Strings are modelled by their views, `Seq<char>`; executable code works on
//! character slices so that every position is a character position.
use vstd::prelude::*;
use vstd::utf8::*;

verus! {

/// Appends one character (`String::push`).
pub assume_specification[ String::push ](s: &mut String, c: char)
    ensures
        final(s)@ == old(s)@.push(c),
;

/// The characters of a string, in order.
pub fn chars_of(s: &str) -> (chars: Vec<char>)
    ensures
        chars@ == s@,
{
    let mut chars: Vec<char> = Vec::new();
    for c in it: s.chars()
        invariant
            chars@ == it.seq().take(it.index() as int),
            it.seq() == s@,
    {
        chars.push(c);
    }
    chars
}

/// The string made of the given characters.
pub fn string_of(chars: &[char]) -> (s: String)
    ensures
        s@ == chars@,
{
    let mut s = String::new();
    push_chars(&mut s, chars);
    s
}

/// A copy of a string.
pub fn string_copy(s: &str) -> (r: String)
    ensures
        r@ == s@,
{
    let mut r = String::new();
    r.append(s);
    r
}

/// Appends a run of characters to a string.
pub fn push_chars(s: &mut String, chars: &[char])
    ensures
        final(s)@ == old(s)@ + chars@,
{
    let ghost before = s@;
    for i in 0..chars.len()
        invariant
            s@ == before + chars@.take(i as int),
    {
        s.push(chars[i]);
        assert(chars@.take(i + 1) == chars@.take(i as int).push(chars@[i as int]));
        assert(s@ == before + chars@.take(i + 1));
    }
    assert(chars@.take(chars@.len() as int) == chars@);
}

/// Two strings are equal when their UTF-8 encodings are.
pub proof fn lemma_encoding_injective(a: Seq<char>, b: Seq<char>)
    ensures
        encode_utf8(a) == encode_utf8(b) <==> a == b,
{
    encode_utf8_decode_utf8(a);
    encode_utf8_decode_utf8(b);
}

/// Byte-slice equality.
pub fn bytes_eq(a: &[u8], b: &[u8]) -> (eq: bool)
    ensures
        eq == (a@ == b@),
{
    if a.len() != b.len() {
        return false;
    }
    for i in 0..a.len()
        invariant
            a.len() == b.len(),
            forall|j: int| 0 <= j < i ==> a@[j] == b@[j],
    {
        if a[i] != b[i] {
            return false;
        }
    }
    assert(a@ == b@);
    true
}

/// String equality.
pub fn str_eq(a: &str, b: &str) -> (eq: bool)
    ensures
        eq == (a@ == b@),
{
    proof {
        lemma_encoding_injective(a@, b@);
    }
    bytes_eq(a.as_bytes(), b.as_bytes())
}

/// Character-slice equality.
pub fn chars_eq(a: &[char], b: &[char]) -> (eq: bool)
    ensures
        eq == (a@ == b@),
{
    if a.len() != b.len() {
        return false;
    }
    for i in 0..a.len()
        invariant
            a.len() == b.len(),
            forall|j: int| 0 <= j < i ==> a@[j] == b@[j],
    {
        if a[i] != b[i] {
            return false;
        }
    }
    assert(a@ == b@);
    true
}

/// The code points with the Unicode `White_Space` property.
pub open spec fn white_space(c: char) -> bool {
    ||| '\u{9}' <= c <= '\u{d}'
    ||| c == '\u{20}'
    ||| c == '\u{85}'
    ||| c == '\u{a0}'
    ||| c == '\u{1680}'
    ||| '\u{2000}' <= c <= '\u{200a}'
    ||| c == '\u{2028}'
    ||| c == '\u{2029}'
    ||| c == '\u{202f}'
    ||| c == '\u{205f}'
    ||| c == '\u{3000}'
}

/// Whether a character is white space.
pub fn is_white_space(c: char) -> (b: bool)
    ensures
        b == white_space(c),
{
    ('\u{9}' <= c && c <= '\u{d}') || c == '\u{20}' || c == '\u{85}' || c == '\u{a0}' || c
        == '\u{1680}' || ('\u{2000}' <= c && c <= '\u{200a}') || c == '\u{2028}' || c == '\u{2029}'
        || c == '\u{202f}' || c == '\u{205f}' || c == '\u{3000}'
}

/// `s` without its leading white space.
pub open spec fn trim_start(s: Seq<char>) -> Seq<char>
    decreases s.len(),
{
    if s.len() > 0 && white_space(s.first()) {
        trim_start(s.drop_first())
    } else {
        s
    }
}

/// `s` without its trailing white space.
pub open spec fn trim_end(s: Seq<char>) -> Seq<char>
    decreases s.len(),
{
    if s.len() > 0 && white_space(s.last()) {
        trim_end(s.drop_last())
    } else {
        s
    }
}

/// `s` without white space at either end.
pub open spec fn trim(s: Seq<char>) -> Seq<char> {
    trim_end(trim_start(s))
}

/// Drops leading white space.
pub fn trimmed_start<'a>(s: &'a [char]) -> (r: &'a [char])
    ensures
        r@ == trim_start(s@),
{
    let mut i: usize = 0;
    assert(s@.skip(0) == s@);
    while i < s.len() && is_white_space(s[i])
        invariant
            i <= s.len(),
            trim_start(s@) == trim_start(s@.skip(i as int)),
        decreases s.len() - i,
    {
        assert(s@.skip(i as int).drop_first() == s@.skip(i + 1));
        i = i + 1;
    }
    let r = &s[i..s.len()];
    assert(r@ == s@.skip(i as int));
    r
}

/// Drops trailing white space.
pub fn trimmed_end<'a>(s: &'a [char]) -> (r: &'a [char])
    ensures
        r@ == trim_end(s@),
{
    let mut n: usize = s.len();
    assert(s@.take(n as int) == s@);
    while n > 0 && is_white_space(s[n - 1])
        invariant
            n <= s.len(),
            trim_end(s@) == trim_end(s@.take(n as int)),
        decreases n,
    {
        assert(s@.take(n as int).drop_last() == s@.take(n - 1));
        n = n - 1;
    }
    let r = &s[0..n];
    assert(r@ == s@.take(n as int));
    r
}

/// Drops white space at both ends.
pub fn trimmed<'a>(s: &'a [char]) -> (r: &'a [char])
    ensures
        r@ == trim(s@),
{
    trimmed_end(trimmed_start(s))
}

/// Whether `s` begins with `p`.
pub open spec fn begins_with(s: Seq<char>, p: Seq<char>) -> bool {
    p.len() <= s.len() && s.take(p.len() as int) == p
}

/// Prefix test.
pub fn starts_with(s: &[char], p: &[char]) -> (b: bool)
    ensures
        b == begins_with(s@, p@),
{
    if p.len() > s.len() {
        return false;
    }
    let head = &s[0..p.len()];
    assert(head@ == s@.take(p@.len() as int));
    chars_eq(head, p)
}

/// What is left of `s` behind the prefix `p`, if `s` begins with it.
pub open spec fn without_prefix(s: Seq<char>, p: Seq<char>) -> Option<Seq<char>> {
    if begins_with(s, p) {
        Some(s.skip(p.len() as int))
    } else {
        None
    }
}

/// Strips a prefix.
pub fn strip_prefix<'a>(s: &'a [char], p: &str) -> (r: Option<&'a [char]>)
    ensures
        match r {
            Some(rest) => without_prefix(s@, p@) == Some(rest@),
            None => without_prefix(s@, p@) is None,
        },
{
    let prefix = chars_of(p);
    if starts_with(s, prefix.as_slice()) {
        let rest = &s[prefix.len()..s.len()];
        assert(rest@ == s@.skip(p@.len() as int));
        Some(rest)
    } else {
        None
    }
}

/// `p` stands in `s` at position `i`.
pub open spec fn occurs_at(s: Seq<char>, p: Seq<char>, i: int) -> bool {
    0 <= i && i + p.len() <= s.len() && s.subrange(i, i + p.len()) == p
}

/// The first position of `p` in `s` that is at least `from`.
pub open spec fn find_from(s: Seq<char>, p: Seq<char>, from: int) -> Option<int>
    decreases s.len() + 1 - from,
{
    if from + p.len() > s.len() {
        None
    } else if occurs_at(s, p, from) {
        Some(from)
    } else {
        find_from(s, p, from + 1)
    }
}

/// The first position of `p` in `s`.
pub open spec fn find_str(s: Seq<char>, p: Seq<char>) -> Option<int> {
    find_from(s, p, 0)
}

/// `find_from` gives the least position at which the pattern stands.
pub proof fn lemma_find_from(s: Seq<char>, p: Seq<char>, from: int)
    requires
        0 <= from,
    ensures
        match find_from(s, p, from) {
            Some(i) => from <= i && occurs_at(s, p, i) && forall|j: int|
                from <= j < i ==> !occurs_at(s, p, j),
            None => forall|j: int| from <= j ==> !occurs_at(s, p, j),
        },
    decreases s.len() + 1 - from,
{
    if from + p.len() <= s.len() && !occurs_at(s, p, from) {
        lemma_find_from(s, p, from + 1);
    }
}

/// First occurrence of a pattern.
pub fn find(s: &[char], p: &[char]) -> (r: Option<usize>)
    ensures
        match r {
            Some(i) => find_str(s@, p@) == Some(i as int),
            None => find_str(s@, p@) is None,
        },
{
    if p.len() > s.len() {
        return None;
    }
    let last: usize = s.len() - p.len();
    let mut i: usize = 0;
    while i <= last
        invariant
            p.len() <= s.len(),
            last == s.len() - p.len(),
            i <= last + 1,
            find_str(s@, p@) == find_from(s@, p@, i as int),
        decreases last + 1 - i,
    {
        if chars_eq(&s[i..i + p.len()], p) {
            return Some(i);
        }
        if i == last {
            assert(find_from(s@, p@, i + 1) is None);
            return None;
        }
        i = i + 1;
    }
    None
}

/// Whether `p` stands somewhere in `s`.
pub open spec fn contains_str(s: Seq<char>, p: Seq<char>) -> bool {
    find_str(s, p) is Some
}

/// Length of the longest prefix of `s` without a character of `stops`.
pub open spec fn span_until(s: Seq<char>, stops: Seq<char>) -> int
    decreases s.len(),
{
    if s.len() == 0 || stops.contains(s.first()) {
        0
    } else {
        1 + span_until(s.drop_first(), stops)
    }
}

/// The span ends at the first stop character, or at the end.
pub proof fn lemma_span_until(s: Seq<char>, stops: Seq<char>)
    ensures
        0 <= span_until(s, stops) <= s.len(),
        span_until(s, stops) < s.len() ==> stops.contains(s[span_until(s, stops)]),
        forall|i: int| 0 <= i < span_until(s, stops) ==> !stops.contains(#[trigger] s[i]),
    decreases s.len(),
{
    if s.len() > 0 && !stops.contains(s.first()) {
        lemma_span_until(s.drop_first(), stops);
        assert forall|i: int| 0 <= i < span_until(s, stops) implies !stops.contains(
            #[trigger] s[i],
        ) by {
            if i > 0 {
                assert(s[i] == s.drop_first()[i - 1]);
            }
        }
    }
}

/// Membership of a character.
pub fn has_char(s: &[char], c: char) -> (b: bool)
    ensures
        b == s@.contains(c),
{
    for i in 0..s.len()
        invariant
            forall|j: int| 0 <= j < i ==> s@[j] != c,
    {
        if s[i] == c {
            return true;
        }
    }
    false
}

/// Length of the prefix before the first stop character.
pub fn span(s: &[char], stops: &[char]) -> (n: usize)
    ensures
        n == span_until(s@, stops@),
        n <= s.len(),
{
    let mut n: usize = 0;
    assert(s@.skip(0) == s@);
    while n < s.len() && !has_char(stops, s[n])
        invariant
            n <= s.len(),
            span_until(s@, stops@) == n + span_until(s@.skip(n as int), stops@),
        decreases s.len() - n,
    {
        assert(s@.skip(n as int).drop_first() == s@.skip(n + 1));
        n = n + 1;
    }
    n
}

/// A line without the carriage return that precedes its newline.
pub open spec fn strip_cr(line: Seq<char>) -> Seq<char> {
    if line.len() > 0 && line.last() == '\r' {
        line.drop_last()
    } else {
        line
    }
}

/// The lines of a text: each ends at a newline, which is not part of it, nor
/// is a carriage return right before that newline. What stands behind the last
/// newline is a line of its own, unless it is empty.
pub open spec fn lines(s: Seq<char>) -> Seq<Seq<char>>
    decreases s.len(),
{
    let n = span_until(s, seq!['\n']);
    if s.len() == 0 {
        seq![]
    } else if 0 <= n < s.len() {
        seq![strip_cr(s.take(n))] + lines(s.skip(n + 1))
    } else {
        seq![s]
    }
}

/// The character sequences that a list of slices holds.
pub open spec fn slice_views(list: Seq<&[char]>) -> Seq<Seq<char>> {
    list.map_values(|l: &[char]| l@)
}

/// Splits a text into lines.
pub fn split_lines<'a>(s: &'a [char]) -> (r: Vec<&'a [char]>)
    ensures
        slice_views(r@) == lines(s@),
        r.len() <= s.len(),
{
    let mut r: Vec<&'a [char]> = Vec::new();
    let newline: [char; 1] = ['\n'];
    let mut pos: usize = 0;
    assert(s@.skip(0) == s@);
    assert(newline@ == seq!['\n']);
    while pos < s.len()
        invariant
            pos <= s.len(),
            r.len() <= pos,
            newline@ == seq!['\n'],
            lines(s@) == slice_views(r@) + lines(s@.skip(pos as int)),
        decreases s.len() - pos,
    {
        let rest = &s[pos..s.len()];
        let ghost rest_view = s@.skip(pos as int);
        assert(rest@ == rest_view);
        let n = span(rest, &newline);
        let ghost before = r@;
        if n < rest.len() {
            let mut end: usize = n;
            if n > 0 && rest[n - 1] == '\r' {
                end = n - 1;
            }
            let line = &rest[0..end];
            assert(line@ == strip_cr(rest_view.take(n as int)));
            r.push(line);
            assert(slice_views(r@) == slice_views(before).push(line@));
            assert(rest_view.skip(n + 1) == s@.skip(pos + n + 1));
            pos = pos + n + 1;
            assert(lines(rest_view) == seq![line@] + lines(s@.skip(pos as int)));
            assert(slice_views(before) + (seq![line@] + lines(s@.skip(pos as int))) == slice_views(
                r@,
            ) + lines(s@.skip(pos as int)));
        } else {
            r.push(rest);
            assert(slice_views(r@) == slice_views(before).push(rest@));
            pos = s.len();
            assert(s@.skip(pos as int).len() == 0);
            assert(slice_views(before) + seq![rest_view] == slice_views(r@) + lines(
                s@.skip(pos as int),
            ));
        }
    }
    assert(lines(s@.skip(pos as int)) == Seq::<Seq<char>>::empty());
    r
}

/// `s` with every `from` replaced by `to`.
pub open spec fn replaced(s: Seq<char>, from: char, to: char) -> Seq<char> {
    s.map_values(|c: char| if c == from { to } else { c })
}

/// Replaces a character throughout.
pub fn replace_char(s: &[char], from: char, to: char) -> (r: Vec<char>)
    ensures
        r@ == replaced(s@, from, to),
{
    let mut r: Vec<char> = Vec::new();
    for i in 0..s.len()
        invariant
            r.len() == i,
            forall|j: int| 0 <= j < i ==> r@[j] == replaced(s@, from, to)[j],
    {
        if s[i] == from {
            r.push(to);
        } else {
            r.push(s[i]);
        }
    }
    r
}

/// The lower-case form of an ASCII letter; any other character as it is.
pub open spec fn ascii_lower(c: char) -> char {
    if 'A' <= c <= 'Z' {
        (c as int + 32) as char
    } else {
        c
    }
}

/// `s` with its ASCII letters in lower case.
pub open spec fn ascii_lowercase(s: Seq<char>) -> Seq<char> {
    s.map_values(|c: char| ascii_lower(c))
}

/// Lowers the ASCII letters.
pub fn to_ascii_lowercase(s: &[char]) -> (r: Vec<char>)
    ensures
        r@ == ascii_lowercase(s@),
{
    let mut r: Vec<char> = Vec::new();
    for i in 0..s.len()
        invariant
            r.len() == i,
            forall|j: int| 0 <= j < i ==> r@[j] == ascii_lower(#[trigger] s@[j]),
    {
        let c = s[i];
        if 'A' <= c && c <= 'Z' {
            let low: u8 = c as u8 + 32;
            r.push(low as char);
        } else {
            r.push(c);
        }
    }
    assert(r@ == ascii_lowercase(s@));
    r
}

/// The Unicode lower-case mapping of a string.
pub uninterp spec fn lowercase(s: Seq<char>) -> Seq<char>;

/// `str::to_lowercase`: the Unicode lower-case mapping, a function of the
/// characters alone. On ASCII text it lowers the letters and keeps the rest.
#[verifier::external_body]
pub(crate) fn to_lowercase(s: &str) -> (r: String)
    ensures
        r@ == lowercase(s@),
        is_ascii_chars(s@) ==> r@ == ascii_lowercase(s@),
{
    s.to_lowercase()
}

/// The character of a decimal digit.
pub open spec fn digit_char(d: nat) -> char {
    (48 + d) as char
}

/// Decimal notation without leading zeros.
pub open spec fn decimal(n: nat) -> Seq<char>
    decreases n,
{
    if n < 10 {
        seq![digit_char(n)]
    } else {
        decimal(n / 10).push(digit_char(n % 10))
    }
}

/// Writes a number in decimal notation.
pub fn decimal_string(n: u64) -> (s: String)
    ensures
        s@ == decimal(n as nat),
    decreases n,
{
    if n < 10 {
        let mut s = String::new();
        let d: u8 = 48 + n as u8;
        s.push(d as char);
        assert(s@ == decimal(n as nat));
        s
    } else {
        let mut s = decimal_string(n / 10);
        let d: u8 = 48 + (n % 10) as u8;
        s.push(d as char);
        s
    }
}

/// The views of a list of strings.
pub open spec fn views(list: Seq<String>) -> Seq<Seq<char>> {
    list.map_values(|s: String| s@)
}

/// The parts in order, with a separator between neighbours.
pub open spec fn joined(parts: Seq<Seq<char>>, separator: Seq<char>) -> Seq<char>
    decreases parts.len(),
{
    if parts.len() == 0 {
        seq![]
    } else if parts.len() == 1 {
        parts[0]
    } else {
        joined(parts.drop_last(), separator) + separator + parts.last()
    }
}

/// Joins strings with a separator.
pub fn join(parts: &[String], separator: &str) -> (r: String)
    ensures
        r@ == joined(views(parts@), separator@),
{
    let mut r = String::new();
    let ghost all = views(parts@);
    assert(all.take(0) == Seq::<Seq<char>>::empty());
    for i in 0..parts.len()
        invariant
            all == views(parts@),
            r@ == joined(all.take(i as int), separator@),
    {
        assert(all.take(i + 1).drop_last() == all.take(i as int));
        assert(all[i as int] == parts@[i as int]@);
        if i > 0 {
            r.append(separator);
        }
        r.append(parts[i].as_str());
        assert(r@ == joined(all.take(i + 1), separator@));
    }
    assert(all.take(parts@.len() as int) == all);
    r
}

/// Joining two lists one after the other is joining both with one more
/// separator between.
pub proof fn lemma_joined_concat(a: Seq<Seq<char>>, b: Seq<Seq<char>>, separator: Seq<char>)
    requires
        a.len() > 0,
        b.len() > 0,
    ensures
        joined(a + b, separator) == joined(a, separator) + separator + joined(b, separator),
    decreases b.len(),
{
    assert((a + b).drop_last() == a + b.drop_last());
    assert((a + b).last() == b.last());
    if b.len() == 1 {
        assert(a + b.drop_last() == a);
    } else {
        lemma_joined_concat(a, b.drop_last(), separator);
        assert(joined(a + b, separator) == joined(a, separator) + separator + joined(
            b,
            separator,
        ));
    }
}

/// A copy of a list of strings.
pub fn copy_strings(list: &[String]) -> (r: Vec<String>)
    ensures
        views(r@) == views(list@),
{
    let mut r: Vec<String> = Vec::new();
    for i in 0..list.len()
        invariant
            views(r@) == views(list@).take(i as int),
    {
        let ghost before = r@;
        let s = string_copy(list[i].as_str());
        r.push(s);
        assert(views(r@) == views(before).push(s@));
        assert(views(list@).take(i + 1) == views(list@).take(i as int).push(list@[i as int]@));
    }
    assert(views(list@).take(list@.len() as int) == views(list@));
    r
}

/// A decimal digit.
pub open spec fn is_digit(c: char) -> bool {
    '0' <= c <= '9'
}

/// The number that a run of decimal digits denotes.
pub open spec fn digits_value(s: Seq<char>) -> nat
    decreases s.len(),
{
    if s.len() == 0 {
        0
    } else {
        10 * digits_value(s.drop_last()) + (s.last() as nat - '0' as nat) as nat
    }
}

/// The digits of a number: the text without one leading plus sign.
pub open spec fn unsigned_digits(s: Seq<char>) -> Seq<char> {
    if s.len() > 0 && s[0] == '+' {
        s.skip(1)
    } else {
        s
    }
}

/// The 32-bit number that a text denotes: an optional plus sign and at least
/// one decimal digit, and nothing else.
pub open spec fn parsed_u32(s: Seq<char>) -> Option<u32> {
    let d = unsigned_digits(s);
    if d.len() > 0 && (forall|i: int| 0 <= i < d.len() ==> is_digit(#[trigger] d[i]))
        && digits_value(d) <= u32::MAX {
        Some(digits_value(d) as u32)
    } else {
        None
    }
}

proof fn lemma_digits_value_increases(s: Seq<char>, k: int)
    requires
        0 <= k <= s.len(),
    ensures
        digits_value(s.take(k)) <= digits_value(s),
    decreases s.len(),
{
    if k < s.len() {
        lemma_digits_value_increases(s.drop_last(), k);
        assert(s.drop_last().take(k) == s.take(k));
    } else {
        assert(s.take(k) == s);
    }
}

/// Reads a 32-bit number.
pub fn parse_u32(s: &[char]) -> (r: Option<u32>)
    ensures
        r == parsed_u32(s@),
{
    let plus = s.len() > 0 && s[0] == '+';
    let start: usize = if plus {
        1
    } else {
        0
    };
    let d = &s[start..s.len()];
    assert(d@ == unsigned_digits(s@));
    if d.len() == 0 {
        return None;
    }
    let mut n: u64 = 0;
    for i in 0..d.len()
        invariant
            n == digits_value(d@.take(i as int)),
            n <= u32::MAX,
            d@ == unsigned_digits(s@),
            forall|j: int| 0 <= j < i ==> is_digit(#[trigger] d@[j]),
    {
        let c: char = d[i];
        if !('0' <= c && c <= '9') {
            assert(!is_digit(d@[i as int]));
            return None;
        }
        assert(d@.take(i + 1).drop_last() == d@.take(i as int));
        n = 10 * n + (c as u32 - '0' as u32) as u64;
        assert(n == digits_value(d@.take(i + 1)));
        if n > u32::MAX as u64 {
            proof {
                lemma_digits_value_increases(d@, i + 1);
            }
            return None;
        }
    }
    assert(d@.take(d@.len() as int) == d@);
    Some(n as u32)
}

/// Decimal notation is made of digits and denotes the number.
pub proof fn lemma_decimal_digits(n: nat)
    ensures
        decimal(n).len() > 0,
        forall|i: int| 0 <= i < decimal(n).len() ==> is_digit(#[trigger] decimal(n)[i]),
        digits_value(decimal(n)) == n,
    decreases n,
{
    if n < 10 {
        assert(decimal(n).drop_last() == Seq::<char>::empty());
        assert(decimal(n).last() == digit_char(n));
        reveal_with_fuel(digits_value, 2);
    } else {
        lemma_decimal_digits(n / 10);
        assert(decimal(n).drop_last() == decimal(n / 10));
        assert(decimal(n).last() == digit_char(n % 10));
    }
}

/// Reading gives back what was written.
pub proof fn lemma_parse_inverts_decimal(n: u32)
    ensures
        parsed_u32(decimal(n as nat)) == Some(n),
{
    lemma_decimal_digits(n as nat);
    let s = decimal(n as nat);
    assert(is_digit(s[0]));
    assert(unsigned_digits(s) == s);
}

/// White space in ASCII is the space, the tab, and the characters that end or feed
/// lines and pages.
pub proof fn lemma_ascii_white_space(c: char)
    requires
        (c as int) < 128,
    ensures
        white_space(c) <==> c == ' ' || 9 <= c as int <= 13,
{
}

/// Trimming at the start drops white space up to the first character that is none.
pub proof fn lemma_trim_start(s: Seq<char>) -> (n: int)
    ensures
        0 <= n <= s.len(),
        trim_start(s) == s.skip(n),
        forall|i: int| 0 <= i < n ==> white_space(#[trigger] s[i]),
        n < s.len() ==> !white_space(s[n]),
    decreases s.len(),
{
    if s.len() > 0 && white_space(s.first()) {
        let rest = s.drop_first();
        let n = lemma_trim_start(rest);
        assert(rest.skip(n) == s.skip(n + 1));
        assert forall|i: int| 0 <= i < n + 1 implies white_space(#[trigger] s[i]) by {
            if i > 0 {
                assert(rest[i - 1] == s[i]);
            }
        }
        if n < rest.len() {
            assert(rest[n] == s[n + 1]);
        }
        n + 1
    } else {
        assert(s.skip(0) == s);
        0
    }
}

/// Trimming at the end drops white space from behind the last character that is
/// none.
pub proof fn lemma_trim_end(s: Seq<char>) -> (n: int)
    ensures
        0 <= n <= s.len(),
        trim_end(s) == s.take(n),
        forall|i: int| n <= i < s.len() ==> white_space(#[trigger] s[i]),
        n > 0 ==> !white_space(s[n - 1]),
    decreases s.len(),
{
    if s.len() > 0 && white_space(s.last()) {
        let init = s.drop_last();
        let n = lemma_trim_end(init);
        assert(init.take(n) == s.take(n));
        assert forall|i: int| n <= i < s.len() implies white_space(#[trigger] s[i]) by {
            if i < s.len() - 1 {
                assert(init[i] == s[i]);
            }
        }
        n
    } else {
        assert(s.take(s.len() as int) == s);
        s.len() as int
    }
}

/// Trimming takes off white space at both ends and nothing else: what is left
/// neither begins nor ends with any.
pub proof fn lemma_trim(s: Seq<char>) -> (ends: (int, int))
    ensures
        0 <= ends.0 <= ends.1 <= s.len(),
        trim(s) == s.subrange(ends.0, ends.1),
        forall|i: int| 0 <= i < ends.0 || ends.1 <= i < s.len() ==> white_space(#[trigger] s[i]),
        ends.0 < ends.1 ==> !white_space(s[ends.0]) && !white_space(s[ends.1 - 1]),
{
    let a = lemma_trim_start(s);
    let rest = s.skip(a);
    let n = lemma_trim_end(rest);
    let b = a + n;
    assert(rest.take(n) == s.subrange(a, b));
    assert forall|i: int| 0 <= i < a || b <= i < s.len() implies white_space(#[trigger] s[i]) by {
        if i >= b {
            assert(rest[i - a] == s[i]);
        }
    }
    if n > 0 {
        assert(rest[n - 1] == s[b - 1]);
    }
    (a, b)
}

/// A text begins with a prefix exactly if it is that prefix with something behind
/// it, and that is what is left.
pub proof fn lemma_prefix(prefix: Seq<char>, rest: Seq<char>, s: Seq<char>)
    ensures
        begins_with(prefix + rest, prefix),
        without_prefix(prefix + rest, prefix) == Some(rest),
        without_prefix(s, prefix) matches Some(r) ==> s == prefix + r,
        without_prefix(s, prefix) is None ==> s.len() < prefix.len() || exists|i: int|
            0 <= i < prefix.len() && #[trigger] prefix[i] != s[i],
{
    assert((prefix + rest).take(prefix.len() as int) == prefix);
    assert((prefix + rest).skip(prefix.len() as int) == rest);
    if begins_with(s, prefix) {
        assert(s == prefix + s.skip(prefix.len() as int));
    } else if s.len() >= prefix.len() {
        if forall|i: int| 0 <= i < prefix.len() ==> #[trigger] prefix[i] == s[i] {
            assert(s.take(prefix.len() as int) == prefix);
        }
    }
}

/// A text contains another exactly if it is that with something before and behind
/// it; the position found is the first.
pub proof fn lemma_contains(before: Seq<char>, p: Seq<char>, behind: Seq<char>, s: Seq<char>)
    ensures
        contains_str(before + p + behind, p),
        find_str(before + p + behind, p) matches Some(i) && 0 <= i <= before.len(),
        find_str(s, p) matches Some(i) ==> 0 <= i && s == s.take(i) + p + s.skip(i + p.len()),
{
    lemma_occurs_behind(before, p, behind);
    lemma_cut_where_found(s, p);
}

proof fn lemma_occurs_behind(before: Seq<char>, p: Seq<char>, behind: Seq<char>)
    ensures
        find_str(before + p + behind, p) matches Some(i) && 0 <= i <= before.len(),
{
    let whole = before + p + behind;
    let n = before.len() as int;
    assert(whole.subrange(n, n + p.len()) == p);
    assert(occurs_at(whole, p, n));
    lemma_find_from(whole, p, 0);
}

proof fn lemma_cut_where_found(s: Seq<char>, p: Seq<char>)
    ensures
        find_str(s, p) matches Some(i) ==> 0 <= i && s == s.take(i) + p + s.skip(i + p.len()),
{
    lemma_find_from(s, p, 0);
    match find_str(s, p) {
        Some(i) => {
            let part = s.subrange(i, i + p.len());
            assert(part == p);
            assert(s =~= s.take(i) + part + s.skip(i + p.len()));
        },
        None => {},
    }
}

/// A newline ends a line: a text that begins with a run without one has that run,
/// less a carriage return at its end, as its first line, and goes on with the
/// lines behind the newline. A text without newlines is one line, unless it is
/// empty.
pub proof fn lemma_lines_end_at_newlines(run: Seq<char>, rest: Seq<char>)
    requires
        !run.contains('\n'),
    ensures
        lines(run + seq!['\n'] + rest) == seq![
            if run.len() > 0 && run.last() == '\r' {
                run.drop_last()
            } else {
                run
            },
        ] + lines(rest),
        lines(run) == if run.len() == 0 {
            seq![]
        } else {
            seq![run]
        },
{
    let s = run + seq!['\n'] + rest;
    let n = run.len() as int;
    let stops = seq!['\n'];
    assert(stops[0] == '\n');
    assert(stops.contains('\n'));
    lemma_span_until(s, stops);
    lemma_span_until(run, stops);
    let m = span_until(s, stops);
    assert(s[n] == '\n');
    if m > n {
        assert(!stops.contains(s[n]));
    }
    if m < n {
        assert(s[m] == run[m]);
        assert(run.contains(run[m]));
    }
    assert(s.take(n) == run);
    assert(s.skip(n + 1) == rest);
    let k = span_until(run, stops);
    if k < run.len() {
        assert(run.contains(run[k]));
    }
}

/// Decimal notation: a digit is its own notation, and a further digit goes to the
/// end. No number but zero starts with a zero.
pub proof fn lemma_decimal_grows(n: nat, d: nat)
    requires
        d < 10,
    ensures
        decimal(d) == seq![('0' as int + d) as char],
        n > 0 ==> decimal(10 * n + d) == decimal(n).push(('0' as int + d) as char),
        n > 0 ==> decimal(n)[0] != '0',
    decreases n,
{
    if n >= 10 {
        lemma_decimal_digits(n / 10);
        lemma_decimal_grows(n / 10, 0);
        assert(decimal(n)[0] == decimal(n / 10)[0]);
    }
    assert((10 * n + d) / 10 == n && (10 * n + d) % 10 == d);
}

/// A character is replaced wherever it stands, and nothing else changes.
pub proof fn lemma_replaced(s: &[char], from: char, to: char, r: Vec<char>)
    requires
        call_ensures(replace_char, (s, from, to), r),
    ensures
        r@.len() == s@.len(),
        forall|i: int| 0 <= i < s@.len() && s@[i] == from ==> #[trigger] r@[i] == to,
        forall|i: int| 0 <= i < s@.len() && s@[i] != from ==> #[trigger] r@[i] == s@[i],
{
}

/// The capital letters of ASCII have their small letters, in the same order; what
/// is no capital letter stays.
pub proof fn lemma_ascii_lower(k: int, c: char)
    requires
        0 <= k < 26,
    ensures
        ascii_lower(('A' as int + k) as char) == ('a' as int + k) as char,
        !('A' <= c <= 'Z') ==> ascii_lower(c) == c,
{
}

/// White space is what Unicode has as such.
pub proof fn lemma_white_space_is_that_of_unicode(c: char)
    ensures
        ({
            let n = c as int;
            white_space(c) <==> 0x9 <= n <= 0xD || n == 0x20 || n == 0x85 || n == 0xA0 || n
                == 0x1680 || 0x2000 <= n <= 0x200A || n == 0x2028 || n == 0x2029 || n == 0x202F || n
                == 0x205F || n == 0x3000
        }),
{
}

/// A number in decimal with an optional plus sign is read as that number; anything
/// but digits is no number.
pub proof fn lemma_number_is_read(s: &[char], r: Option<u32>, n: u32)
    requires
        call_ensures(parse_u32, (s,), r),
    ensures
        s@ == decimal(n as nat) ==> r == Some(n),
        s@ == seq!['+'] + decimal(n as nat) ==> r == Some(n),
        s@.len() == 0 ==> r is None,
        s@ == seq!['+'] ==> r is None,
        (exists|i: int| 0 < i < s@.len() && !('0' <= #[trigger] s@[i] <= '9')) ==> r is None,
{
    lemma_parse_inverts_decimal(n);
    lemma_decimal_digits(n as nat);
    let d = unsigned_digits(s@);
    if s@ == seq!['+'] + decimal(n as nat) {
        assert(s@.skip(1) == decimal(n as nat));
        let q = decimal(n as nat);
        assert(is_digit(q[0]));
        assert(unsigned_digits(q) == q);
        assert(d == q);
    }
    if exists|i: int| 0 < i < s@.len() && !('0' <= #[trigger] s@[i] <= '9') {
        let i = choose|i: int| 0 < i < s@.len() && !('0' <= #[trigger] s@[i] <= '9');
        let at = i - (s@.len() - d.len());
        assert(d[at] == s@[i]);
        assert(!is_digit(d[at]));
    }
}

/// Joined parts stand one after the other, with the separator between neighbours.
pub proof fn lemma_parts_are_joined(
    parts: &[String],
    more: &[String],
    last: Seq<char>,
    separator: &str,
    r: String,
    q: String,
)
    requires
        views(more@) == views(parts@).push(last),
        call_ensures(join, (parts, separator), r),
        call_ensures(join, (more, separator), q),
    ensures
        parts@.len() == 0 ==> r@.len() == 0 && q@ == last,
        parts@.len() > 0 ==> q@ == r@ + separator@ + last,
{
    let all = views(more@);
    assert(all.len() == more@.len() && views(parts@).len() == parts@.len());
    assert(all.drop_last() == views(parts@));
}

/// A found text stands where it is said to, and nowhere before.
pub proof fn lemma_text_is_found_first(s: &[char], p: &[char], r: Option<usize>, k: int)
    requires
        call_ensures(find, (s, p), r),
    ensures
        r matches Some(i) ==> i + p@.len() <= s@.len() && s@.subrange(i as int, i + p@.len())
            == p@,
        0 <= k && k + p@.len() <= s@.len() && s@.subrange(k, k + p@.len()) == p@ ==> (r matches Some(
            i,
        ) && i <= k),
{
    lemma_find_from(s@, p@, 0);
    if 0 <= k && k + p@.len() <= s@.len() && s@.subrange(k, k + p@.len()) == p@ {
        assert(occurs_at(s@, p@, k));
    }
}

/// What stands before the first stop is as long as it is said to be.
pub proof fn lemma_span_ends_at_a_stop(s: &[char], stops: &[char], n: usize)
    requires
        call_ensures(span, (s, stops), n),
    ensures
        n <= s@.len(),
        n < s@.len() ==> stops@.contains(s@[n as int]),
        forall|i: int| 0 <= i < n ==> !stops@.contains(#[trigger] s@[i]),
{
    lemma_span_until(s@, stops@);
}

} // verus!
