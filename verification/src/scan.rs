//! The end of the first JSON object in a stream of characters.
//!
//! A scan counts the objects that are open. A brace inside a string counts for
//! nothing, and a quote behind a backslash does not end a string.
use vstd::prelude::*;

verus! {

/// Where a scan stands.
pub struct ScanState {
    /// How many objects are open.
    pub depth: int,
    /// An object was opened.
    pub started: bool,
    /// Inside a string.
    pub quoted: bool,
    /// Inside a string, behind a backslash.
    pub escaped: bool,
}

/// The scan before anything was read.
pub open spec fn start() -> ScanState {
    ScanState { depth: 0, started: false, quoted: false, escaped: false }
}

/// The scan after one more character.
pub open spec fn step(state: ScanState, c: char) -> ScanState {
    if !state.started {
        if c == '{' {
            ScanState { depth: 1, started: true, ..state }
        } else {
            state
        }
    } else if state.quoted {
        if state.escaped {
            ScanState { escaped: false, ..state }
        } else if c == '\\' {
            ScanState { escaped: true, ..state }
        } else if c == '"' {
            ScanState { quoted: false, ..state }
        } else {
            state
        }
    } else if c == '"' {
        ScanState { quoted: true, ..state }
    } else if c == '{' {
        ScanState { depth: state.depth + 1, ..state }
    } else if c == '}' {
        ScanState { depth: state.depth - 1, ..state }
    } else {
        state
    }
}

/// The scan after some more characters.
pub open spec fn run(state: ScanState, s: Seq<char>) -> ScanState
    decreases s.len(),
{
    if s.len() == 0 {
        state
    } else {
        step(run(state, s.drop_last()), s.last())
    }
}

/// An object was opened, and none is open any more.
pub open spec fn closed(s: Seq<char>) -> bool {
    run(start(), s).started && run(start(), s).depth <= 0
}

/// What is taken of a stream: everything up to the place where the outermost
/// object is closed.
pub open spec fn scanned(s: Seq<char>) -> Seq<char>
    decreases s.len(),
{
    if s.len() == 0 {
        s
    } else {
        let before = scanned(s.drop_last());
        if closed(before) {
            before
        } else {
            before.push(s.last())
        }
    }
}

/// What is taken is the shortest closed beginning of the stream, or all of it
/// where none is closed.
pub proof fn lemma_scanned_is_shortest(s: Seq<char>)
    ensures
        scanned(s).len() <= s.len(),
        scanned(s) == s.take(scanned(s).len() as int),
        !closed(scanned(s)) ==> scanned(s) == s,
        forall|k: int| 0 <= k < scanned(s).len() ==> !closed(#[trigger] s.take(k)),
    decreases s.len(),
{
    if s.len() > 0 {
        let init = s.drop_last();
        lemma_scanned_is_shortest(init);
        let n = scanned(init).len() as int;
        assert(init.take(n) == s.take(n));
        assert forall|k: int| 0 <= k < scanned(s).len() implies !closed(#[trigger] s.take(k)) by {
            if k < n {
                assert(init.take(k) == s.take(k));
            } else {
                assert(init.take(n) == init);
                assert(s.take(k) == init);
            }
        }
        assert(scanned(s) == s.take(scanned(s).len() as int));
    } else {
        assert(s.take(0) == s);
    }
}

/// How the stream is cut into pieces makes no difference.
pub proof fn lemma_scan_ignores_cuts(a: Seq<char>, b: Seq<char>)
    ensures
        scanned(a + b) == scanned(scanned(a) + b),
    decreases b.len(),
{
    if b.len() == 0 {
        assert(a + b == a);
        assert(scanned(a) + b == scanned(a));
        lemma_scanned_twice(a);
    } else {
        let init = b.drop_last();
        lemma_scan_ignores_cuts(a, init);
        assert((a + b).drop_last() == a + init);
        assert((scanned(a) + b).drop_last() == scanned(a) + init);
    }
}

proof fn lemma_scanned_twice(s: Seq<char>)
    ensures
        scanned(scanned(s)) == scanned(s),
    decreases s.len(),
{
    if s.len() > 0 {
        let init = s.drop_last();
        lemma_scanned_twice(init);
        if !closed(scanned(init)) {
            assert(scanned(init).push(s.last()).drop_last() == scanned(init));
        }
    }
}

/// A scan has started exactly if it has read an opening brace.
pub proof fn lemma_started(s: Seq<char>)
    ensures
        run(start(), s).started == s.contains('{'),
    decreases s.len(),
{
    if s.len() > 0 {
        let init = s.drop_last();
        lemma_started(init);
        if init.contains('{') {
            let k = choose|k: int| 0 <= k < init.len() && init[k] == '{';
            assert(s[k] == '{');
        }
        if s.contains('{') && s.last() != '{' {
            let k = choose|k: int| 0 <= k < s.len() && s[k] == '{';
            assert(init[k] == '{');
        }
        if s.last() == '{' {
            assert(s[s.len() - 1] == '{');
        }
    }
}

/// A JSON value as it is written. Spaces stand where the grammar allows them.
pub enum Json {
    /// A number or a literal name.
    Word(Seq<char>),
    /// A string, by what stands between its quotes.
    Text(Seq<char>),
    /// An array: its elements, and the space before the closing bracket.
    List(Seq<Part>, Seq<char>),
    /// An object: its members, and the space before the closing brace.
    Object(Seq<Part>, Seq<char>),
}

/// An element of an array or a member of an object: what stands before the
/// value, the value, and the space behind it.
pub struct Part {
    pub label: Seq<char>,
    pub value: Json,
    pub space: Seq<char>,
}

/// A string in quotes.
pub open spec fn in_quotes(body: Seq<char>) -> Seq<char> {
    seq!['"'] + body + seq!['"']
}

/// Parts one after the other, with commas between them.
pub open spec fn parts_text(parts: Seq<Part>) -> Seq<char>
    decreases parts,
{
    if parts.len() == 0 {
        seq![]
    } else {
        let init = parts.drop_last();
        let last = parts.last();
        parts_text(init) + (if init.len() > 0 {
            seq![',']
        } else {
            seq![]
        }) + last.label + json_text(last.value) + last.space
    }
}

/// The text of a value.
pub open spec fn json_text(v: Json) -> Seq<char>
    decreases v,
{
    match v {
        Json::Word(w) => w,
        Json::Text(body) => in_quotes(body),
        Json::List(parts, space) => seq!['['] + (parts_text(parts) + space) + seq![']'],
        Json::Object(parts, space) => seq!['{'] + (parts_text(parts) + space) + seq!['}'],
    }
}

/// Space between the tokens of JSON.
pub open spec fn is_blank(s: Seq<char>) -> bool {
    forall|i: int|
        0 <= i < s.len() ==> (#[trigger] s[i] == ' ' || s[i] == '\t' || s[i] == '\n' || s[i] == '\r')
}

/// Characters of which none is a brace or a quote.
pub open spec fn is_plain(s: Seq<char>) -> bool {
    forall|i: int| 0 <= i < s.len() ==> (#[trigger] s[i]) != '{' && s[i] != '}' && s[i] != '"'
}

/// What may stand between quotes: every quote stands behind a backslash, and
/// every backslash before another character.
pub open spec fn is_body(s: Seq<char>) -> bool
    decreases s.len(),
{
    if s.len() == 0 {
        true
    } else if s[0] == '\\' {
        s.len() >= 2 && is_body(s.skip(2))
    } else {
        s[0] != '"' && is_body(s.skip(1))
    }
}

/// What stands before the value of a member: its name in quotes and a colon.
pub open spec fn is_member_label(
    label: Seq<char>,
    before: Seq<char>,
    name: Seq<char>,
    middle: Seq<char>,
    after: Seq<char>,
) -> bool {
    &&& label == before + in_quotes(name) + middle + seq![':'] + after
    &&& is_blank(before) && is_body(name) && is_blank(middle) && is_blank(after)
}

/// What may stand before a value.
pub open spec fn is_label(label: Seq<char>, member: bool) -> bool {
    if member {
        exists|before: Seq<char>, name: Seq<char>, middle: Seq<char>, after: Seq<char>| #[trigger]
            is_member_label(label, before, name, middle, after)
    } else {
        is_blank(label)
    }
}

/// The parts are those of an array, or of an object.
pub open spec fn well_formed_parts(parts: Seq<Part>, members: bool) -> bool
    decreases parts,
{
    parts.len() == 0 || {
        &&& well_formed_parts(parts.drop_last(), members)
        &&& is_label(parts.last().label, members)
        &&& well_formed(parts.last().value)
        &&& is_blank(parts.last().space)
    }
}

/// The value is written as JSON writes values. Of words and of escapes no more
/// is asked than that they hold no brace or quote that ends them early.
pub open spec fn well_formed(v: Json) -> bool
    decreases v,
{
    match v {
        Json::Word(w) => w.len() > 0 && is_plain(w),
        Json::Text(body) => is_body(body),
        Json::List(parts, space) => well_formed_parts(parts, false) && is_blank(space),
        Json::Object(parts, space) => well_formed_parts(parts, true) && is_blank(space),
    }
}

/// Some objects are open, and no string.
spec fn inside(depth: int) -> ScanState {
    ScanState { depth, started: true, quoted: false, escaped: false }
}

/// Inside a string.
spec fn inside_string(depth: int) -> ScanState {
    ScanState { depth, started: true, quoted: true, escaped: false }
}

/// Over this text a scan from `from` ends in `to` and nowhere closes an object
/// that was open before.
spec fn leads(from: ScanState, s: Seq<char>, to: ScanState) -> bool {
    &&& run(from, s) == to
    &&& forall|k: int| 0 <= k <= s.len() ==> (#[trigger] run(from, s.take(k))).depth >= from.depth
}

/// Inside an object, the text leaves a scan where it was.
spec fn neutral(s: Seq<char>) -> bool {
    forall|depth: int| #[trigger] leads(inside(depth), s, inside(depth))
}

proof fn lemma_run_on(state: ScanState, a: Seq<char>, b: Seq<char>)
    ensures
        run(state, a + b) == run(run(state, a), b),
    decreases b.len(),
{
    if b.len() == 0 {
        assert(a + b == a);
    } else {
        assert((a + b).drop_last() == a + b.drop_last());
        lemma_run_on(state, a, b.drop_last());
    }
}

proof fn lemma_leads_on(x: ScanState, a: Seq<char>, y: ScanState, b: Seq<char>, z: ScanState)
    requires
        leads(x, a, y),
        leads(y, b, z),
        y.depth >= x.depth,
    ensures
        leads(x, a + b, z),
{
    lemma_run_on(x, a, b);
    assert forall|k: int| 0 <= k <= (a + b).len() implies (#[trigger] run(
        x,
        (a + b).take(k),
    )).depth >= x.depth by {
        if k <= a.len() {
            assert((a + b).take(k) == a.take(k));
        } else {
            let m = k - a.len();
            assert((a + b).take(k) == a + b.take(m));
            lemma_run_on(x, a, b.take(m));
            assert(run(y, b.take(m)).depth >= y.depth);
        }
    }
}

proof fn lemma_run_one(state: ScanState, c: char)
    ensures
        run(state, seq![c]) == step(state, c),
{
    reveal_with_fuel(run, 2);
    assert(seq![c].drop_last() == Seq::<char>::empty());
}

proof fn lemma_leads_one(x: ScanState, c: char)
    requires
        step(x, c).depth >= x.depth,
    ensures
        leads(x, seq![c], step(x, c)),
{
    let s = seq![c];
    lemma_run_one(x, c);
    assert forall|k: int| 0 <= k <= s.len() implies (#[trigger] run(x, s.take(k))).depth
        >= x.depth by {
        if k == 0 {
            assert(s.take(k) == Seq::<char>::empty());
        } else {
            assert(s.take(k) == s);
        }
    }
}

proof fn lemma_leads_nowhere(x: ScanState)
    ensures
        leads(x, seq![], x),
{
    let s = Seq::<char>::empty();
    assert forall|k: int| 0 <= k <= s.len() implies (#[trigger] run(x, s.take(k))).depth
        >= x.depth by {
        assert(s.take(k) == s);
    }
}

proof fn lemma_neutral_both(a: Seq<char>, b: Seq<char>)
    requires
        neutral(a),
        neutral(b),
    ensures
        neutral(a + b),
{
    assert forall|depth: int| #[trigger] leads(inside(depth), a + b, inside(depth)) by {
        assert(leads(inside(depth), a, inside(depth)));
        assert(leads(inside(depth), b, inside(depth)));
        lemma_leads_on(inside(depth), a, inside(depth), b, inside(depth));
    }
}

proof fn lemma_plain_is_neutral(s: Seq<char>)
    requires
        is_plain(s),
    ensures
        neutral(s),
    decreases s.len(),
{
    if s.len() == 0 {
        assert(s == Seq::<char>::empty());
        assert forall|depth: int| #[trigger] leads(inside(depth), s, inside(depth)) by {
            lemma_leads_nowhere(inside(depth));
        }
    } else {
        let init = s.drop_last();
        let last = seq![s.last()];
        assert forall|i: int| 0 <= i < init.len() implies (#[trigger] init[i]) != '{' && init[i]
            != '}' && init[i] != '"' by {
            assert(init[i] == s[i]);
        }
        lemma_plain_is_neutral(init);
        assert forall|depth: int| #[trigger] leads(inside(depth), last, inside(depth)) by {
            assert(s[s.len() - 1] == s.last());
            lemma_leads_one(inside(depth), s.last());
        }
        lemma_neutral_both(init, last);
        assert(init + last == s);
    }
}

proof fn lemma_blank_is_neutral(s: Seq<char>)
    requires
        is_blank(s),
    ensures
        neutral(s),
{
    lemma_plain_is_neutral(s);
}

proof fn lemma_body_stays(depth: int, s: Seq<char>)
    requires
        is_body(s),
    ensures
        leads(inside_string(depth), s, inside_string(depth)),
    decreases s.len(),
{
    let at = inside_string(depth);
    if s.len() == 0 {
        assert(s == Seq::<char>::empty());
        lemma_leads_nowhere(at);
    } else if s[0] == '\\' {
        let behind = step(at, s[0]);
        lemma_leads_one(at, s[0]);
        lemma_leads_one(behind, s[1]);
        lemma_leads_on(at, seq![s[0]], behind, seq![s[1]], at);
        lemma_body_stays(depth, s.skip(2));
        lemma_leads_on(at, seq![s[0]] + seq![s[1]], at, s.skip(2), at);
        assert(seq![s[0]] + seq![s[1]] + s.skip(2) == s);
    } else {
        lemma_leads_one(at, s[0]);
        lemma_body_stays(depth, s.skip(1));
        lemma_leads_on(at, seq![s[0]], at, s.skip(1), at);
        assert(seq![s[0]] + s.skip(1) == s);
    }
}

proof fn lemma_quoted_is_neutral(body: Seq<char>)
    requires
        is_body(body),
    ensures
        neutral(in_quotes(body)),
{
    assert forall|depth: int| #[trigger] leads(inside(depth), in_quotes(body), inside(depth)) by {
        let out = inside(depth);
        let within = inside_string(depth);
        lemma_leads_one(out, '"');
        lemma_body_stays(depth, body);
        lemma_leads_on(out, seq!['"'], within, body, within);
        lemma_leads_one(within, '"');
        lemma_leads_on(out, seq!['"'] + body, within, seq!['"'], out);
    }
}

/// A scan that reads an object is inside it until the last character, which
/// closes it.
proof fn lemma_object_leads(depth: int, inner: Seq<char>)
    requires
        neutral(inner),
    ensures
        ({
            let s = seq!['{'] + inner + seq!['}'];
            &&& run(inside(depth), s) == inside(depth)
            &&& forall|k: int|
                0 < k < s.len() ==> (#[trigger] run(inside(depth), s.take(k))).depth > depth
        }),
{
    let s = seq!['{'] + inner + seq!['}'];
    let deeper = inside(depth + 1);
    assert(leads(deeper, inner, deeper));
    let open = seq!['{'];
    lemma_run_one(inside(depth), '{');
    lemma_run_on(inside(depth), open, inner);
    assert(s.drop_last() == open + inner);
    assert forall|k: int| 0 < k < s.len() implies (#[trigger] run(inside(depth), s.take(k))).depth
        > depth by {
        assert(s.take(k) == open + inner.take(k - 1));
        lemma_run_on(inside(depth), open, inner.take(k - 1));
        assert(run(deeper, inner.take(k - 1)).depth >= deeper.depth);
    }
}

proof fn lemma_braced_is_neutral(inner: Seq<char>)
    requires
        neutral(inner),
    ensures
        neutral(seq!['{'] + inner + seq!['}']),
{
    let s = seq!['{'] + inner + seq!['}'];
    assert forall|depth: int| #[trigger] leads(inside(depth), s, inside(depth)) by {
        lemma_object_leads(depth, inner);
        assert forall|k: int| 0 <= k <= s.len() implies (#[trigger] run(
            inside(depth),
            s.take(k),
        )).depth >= depth by {
            if k == 0 {
                assert(s.take(k) == Seq::<char>::empty());
            } else if k == s.len() {
                assert(s.take(k) == s);
            }
        }
    }
}

proof fn lemma_label_is_neutral(label: Seq<char>, member: bool)
    requires
        is_label(label, member),
    ensures
        neutral(label),
{
    if member {
        let (before, name, middle, after) = choose|
            before: Seq<char>,
            name: Seq<char>,
            middle: Seq<char>,
            after: Seq<char>,
        | #[trigger]
            is_member_label(label, before, name, middle, after);
        lemma_blank_is_neutral(before);
        lemma_quoted_is_neutral(name);
        lemma_blank_is_neutral(middle);
        lemma_plain_is_neutral(seq![':']);
        lemma_blank_is_neutral(after);
        lemma_neutral_both(before, in_quotes(name));
        lemma_neutral_both(before + in_quotes(name), middle);
        lemma_neutral_both(before + in_quotes(name) + middle, seq![':']);
        lemma_neutral_both(before + in_quotes(name) + middle + seq![':'], after);
    } else {
        lemma_blank_is_neutral(label);
    }
}

proof fn lemma_parts_are_neutral(parts: Seq<Part>, members: bool)
    requires
        well_formed_parts(parts, members),
    ensures
        neutral(parts_text(parts)),
    decreases parts,
{
    if parts.len() == 0 {
        lemma_plain_is_neutral(parts_text(parts));
    } else {
        let init = parts.drop_last();
        let last = parts.last();
        let comma: Seq<char> = if init.len() > 0 {
            seq![',']
        } else {
            seq![]
        };
        lemma_parts_are_neutral(init, members);
        lemma_plain_is_neutral(comma);
        lemma_label_is_neutral(last.label, members);
        lemma_value_is_neutral(last.value);
        lemma_blank_is_neutral(last.space);
        lemma_neutral_both(parts_text(init), comma);
        lemma_neutral_both(parts_text(init) + comma, last.label);
        lemma_neutral_both(parts_text(init) + comma + last.label, json_text(last.value));
        lemma_neutral_both(
            parts_text(init) + comma + last.label + json_text(last.value),
            last.space,
        );
    }
}

proof fn lemma_value_is_neutral(v: Json)
    requires
        well_formed(v),
    ensures
        neutral(json_text(v)),
    decreases v,
{
    match v {
        Json::Word(w) => {
            lemma_plain_is_neutral(w);
        },
        Json::Text(body) => {
            lemma_quoted_is_neutral(body);
        },
        Json::List(parts, space) => {
            lemma_parts_are_neutral(parts, false);
            lemma_blank_is_neutral(space);
            lemma_neutral_both(parts_text(parts), space);
            lemma_plain_is_neutral(seq!['[']);
            lemma_plain_is_neutral(seq![']']);
            lemma_neutral_both(seq!['['], parts_text(parts) + space);
            lemma_neutral_both(seq!['['] + (parts_text(parts) + space), seq![']']);
        },
        Json::Object(parts, space) => {
            lemma_parts_are_neutral(parts, true);
            lemma_blank_is_neutral(space);
            lemma_neutral_both(parts_text(parts), space);
            lemma_braced_is_neutral(parts_text(parts) + space);
        },
    }
}

/// Of a stream that starts with an object, exactly the object is taken,
/// whatever follows it.
pub proof fn lemma_object_is_taken(object: Json, tail: Seq<char>)
    requires
        object is Object,
        well_formed(object),
    ensures
        scanned(json_text(object) + tail) == json_text(object),
        closed(json_text(object)),
{
    let o = json_text(object);
    let s = o + tail;
    let inner = parts_text(object->Object_0) + object->Object_1;
    lemma_parts_are_neutral(object->Object_0, true);
    lemma_blank_is_neutral(object->Object_1);
    lemma_neutral_both(parts_text(object->Object_0), object->Object_1);
    assert(leads(inside(1), inner, inside(1)));
    let open = seq!['{'];
    lemma_run_one(start(), '{');
    lemma_run_on(start(), open, inner);
    assert(o.drop_last() == open + inner);
    assert(closed(o));
    assert forall|k: int| 0 <= k < o.len() implies !closed(#[trigger] s.take(k)) by {
        if k == 0 {
            assert(s.take(k) == Seq::<char>::empty());
        } else {
            assert(s.take(k) == open + inner.take(k - 1));
            lemma_run_on(start(), open, inner.take(k - 1));
            assert(run(inside(1), inner.take(k - 1)).depth >= 1);
        }
    }
    lemma_scanned_is_shortest(s);
    assert(s.take(o.len() as int) == o);
    let n = scanned(s).len() as int;
    if n < o.len() {
        assert(!closed(s.take(n)));
    }
    assert(n == o.len());
}

} // verus!
