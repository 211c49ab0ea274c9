//! What a model generates token by token: free text up to a trigger, the name
//! of a tool, and the arguments of a call.
use crate::constraint::{self, tokens_eq, PrefixConstraint, SentinelDetector};
use crate::json::{self, compact};
use crate::scan::{self, Json, ScanState};
use crate::text::{chars_of, string_copy, string_of};
use vstd::prelude::*;

verus! {

/// Free text until a trigger sequence of tokens.
pub struct FreeSlot {
    pub detector: SentinelDetector,
    /// Everything generated, with the trigger.
    pub text: String,
}

impl FreeSlot {
    /// A slot without text.
    pub fn new(trigger: Vec<u32>) -> (r: Self)
        ensures
            r.detector.valid(),
            r.detector.trigger == trigger,
            r.detector.has_seen(seq![]),
            r.text@ == Seq::<char>::empty(),
    {
        FreeSlot { detector: SentinelDetector::new(trigger), text: String::new() }
    }

    /// Takes a token and its text. True if the tokens now end with the trigger.
    pub fn feed(&mut self, token: u32, piece: &str) -> (fired: bool)
        requires
            old(self).detector.valid(),
        ensures
            final(self).detector.valid(),
            final(self).detector.trigger == old(self).detector.trigger,
            final(self).text@ == old(self).text@ + piece@,
            forall|history: Seq<u32>|
                old(self).detector.has_seen(history) ==> final(self).detector.has_seen(
                    history.push(token),
                ) && fired == constraint::ends_with_trigger(
                    #[trigger] history.push(token),
                    old(self).detector.trigger@,
                ),
    {
        self.text.append(piece);
        self.detector.push(token)
    }
}

/// Steps after which a name slot gives up.
pub const NAME_STEPS: u32 = 32;

/// The name of one of several tools, each a sequence of tokens.
pub struct NameSlot {
    pub names: Vec<String>,
    pub constraint: PrefixConstraint,
    /// The tokens so far.
    pub prefix: Vec<u32>,
    /// How many more tokens are taken.
    pub left: u32,
}

/// Position of the first of several sequences that equals a sequence.
pub open spec fn first_equal(options: Seq<Vec<u32>>, tokens: Seq<u32>) -> Option<int>
    decreases options.len(),
{
    if options.len() == 0 {
        None
    } else {
        match first_equal(options.drop_last(), tokens) {
            Some(i) => Some(i),
            None => if options.last()@ == tokens {
                Some(options.len() - 1)
            } else {
                None
            },
        }
    }
}

proof fn lemma_first_equal(options: Seq<Vec<u32>>, tokens: Seq<u32>)
    ensures
        match first_equal(options, tokens) {
            Some(i) => 0 <= i < options.len() && options[i]@ == tokens && forall|j: int|
                0 <= j < i ==> (#[trigger] options[j])@ != tokens,
            None => forall|j: int| 0 <= j < options.len() ==> (#[trigger] options[j])@ != tokens,
        },
    decreases options.len(),
{
    if options.len() > 0 {
        let init = options.drop_last();
        lemma_first_equal(init, tokens);
        assert forall|j: int| 0 <= j < init.len() implies init[j] == options[j] by {}
    }
}

/// The only position that is equal with none equal before is the first.
proof fn lemma_first_equal_unique(options: Seq<Vec<u32>>, tokens: Seq<u32>, i: int)
    requires
        0 <= i < options.len(),
        options[i]@ == tokens,
        forall|j: int| 0 <= j < i ==> (#[trigger] options[j])@ != tokens,
    ensures
        first_equal(options, tokens) == Some(i),
{
    lemma_first_equal(options, tokens);
}

impl NameSlot {
    /// There is one sequence for each name.
    pub open spec fn valid(self) -> bool {
        self.names@.len() == self.constraint.options@.len()
    }

    /// A slot without tokens, over the sequences of the names.
    pub fn new(names: Vec<String>, sequences: Vec<Vec<u32>>) -> (r: Self)
        requires
            names@.len() == sequences@.len(),
        ensures
            r.valid(),
            r.names == names,
            r.constraint.options == sequences,
            r.prefix@.len() == 0,
            r.left == NAME_STEPS,
    {
        NameSlot {
            names,
            constraint: PrefixConstraint::new(sequences),
            prefix: Vec::new(),
            left: NAME_STEPS,
        }
    }

    /// The tokens that may come next, in ascending order, or nothing where the
    /// slot has failed: no token is allowed, or there were too many.
    pub fn allowed(&self) -> (r: Option<Vec<u32>>)
        ensures
            match r {
                Some(ids) => {
                    &&& self.left > 0
                    &&& ids@.len() > 0
                    &&& constraint::ascending(ids@)
                    &&& forall|t: u32| #[trigger]
                        ids@.contains(t) <==> self.constraint.admits(self.prefix@, t)
                },
                None => self.left == 0 || forall|t: u32|
                    !#[trigger] self.constraint.admits(self.prefix@, t),
            },
    {
        if self.left == 0 {
            return None;
        }
        let ids = self.constraint.valid_next_tokens(self.prefix.as_slice());
        if ids.len() == 0 {
            assert forall|t: u32| !#[trigger] self.constraint.admits(self.prefix@, t) by {
                assert(!ids@.contains(t));
            }
            return None;
        }
        Some(ids)
    }

    /// Takes a token. The tool's name, if its tokens are now complete: the
    /// first name with those tokens.
    pub fn feed(&mut self, token: u32) -> (r: Option<String>)
        requires
            old(self).valid(),
            old(self).left > 0,
        ensures
            final(self).valid(),
            final(self).names == old(self).names,
            final(self).constraint == old(self).constraint,
            final(self).prefix@ == old(self).prefix@.push(token),
            final(self).left == old(self).left - 1,
            match r {
                Some(name) => first_equal(
                    old(self).constraint.options@,
                    old(self).prefix@.push(token),
                ) matches Some(i) && name@ == old(self).names@[i]@,
                None => !old(self).constraint.complete(old(self).prefix@.push(token)),
            },
    {
        self.prefix.push(token);
        self.left = self.left - 1;
        for i in 0..self.names.len()
            invariant
                self.valid(),
                self.names == old(self).names,
                self.constraint == old(self).constraint,
                self.prefix@ == old(self).prefix@.push(token),
                self.left == old(self).left - 1,
                forall|j: int|
                    0 <= j < i ==> (#[trigger] self.constraint.options@[j])@ != self.prefix@,
        {
            if tokens_eq(self.constraint.options[i].as_slice(), self.prefix.as_slice()) {
                proof {
                    lemma_first_equal_unique(
                        self.constraint.options@,
                        self.prefix@,
                        i as int,
                    );
                }
                return Some(string_copy(self.names[i].as_str()));
            }
        }
        None
    }
}

/// A slot yields only the name of a tool, and one whose tokens were taken.
pub proof fn lemma_name_has_its_tokens(options: Seq<Vec<u32>>, tokens: Seq<u32>)
    ensures
        first_equal(options, tokens) is Some <==> exists|i: int|
            0 <= i < options.len() && (#[trigger] options[i])@ == tokens,
        first_equal(options, tokens) matches Some(i) ==> 0 <= i < options.len() && options[i]@
            == tokens,
{
    lemma_first_equal(options, tokens);
}

/// The arguments of a call: text until the outermost object is complete.
pub struct ArgsSlot {
    pub raw: Vec<char>,
    /// How many objects are open.
    pub depth: usize,
    /// An object was opened.
    pub started: bool,
    /// Inside a string.
    pub quoted: bool,
    /// Inside a string, behind a backslash.
    pub escaped: bool,
    /// How many more pieces are taken.
    pub left: usize,
}

impl ArgsSlot {
    /// Where the scan of the text stands.
    pub open spec fn state(self) -> ScanState {
        ScanState {
            depth: self.depth as int,
            started: self.started,
            quoted: self.quoted,
            escaped: self.escaped,
        }
    }

    /// The text goes no further than the end of the outermost object, and the
    /// fields say where its scan stands.
    pub open spec fn valid(self) -> bool {
        &&& scan::scanned(self.raw@) == self.raw@
        &&& self.state() == scan::run(scan::start(), self.raw@)
        &&& self.depth <= self.raw@.len()
    }

    /// A slot without text that takes four pieces for each token of a budget.
    pub fn new(max_tokens: usize) -> (r: Self)
        requires
            4 * max_tokens <= usize::MAX,
        ensures
            r.valid(),
            r.raw@.len() == 0,
            r.left == 4 * max_tokens,
    {
        ArgsSlot {
            raw: Vec::new(),
            depth: 0,
            started: false,
            quoted: false,
            escaped: false,
            left: 4 * max_tokens,
        }
    }

    /// Whether another piece is wanted.
    pub fn wants_more(&self) -> (b: bool)
        requires
            self.valid(),
        ensures
            b == (self.left > 0 && !scan::closed(self.raw@)),
    {
        self.left > 0 && !(self.started && self.depth == 0)
    }

    /// Takes a character inside the object.
    fn take(&mut self, c: char)
        requires
            old(self).valid(),
            !scan::closed(old(self).raw@),
        ensures
            final(self).valid(),
            final(self).raw@ == old(self).raw@.push(c),
            final(self).left == old(self).left,
    {
        let ghost before = self.raw@;
        let ghost state = self.state();
        self.raw.push(c);
        let n: usize = self.raw.len();
        assert(self.raw@.drop_last() == before);
        assert(scan::run(scan::start(), self.raw@) == scan::step(state, c));
        if !self.started {
            if c == '{' {
                self.depth = 1;
                self.started = true;
            }
        } else if self.quoted {
            if self.escaped {
                self.escaped = false;
            } else if c == '\\' {
                self.escaped = true;
            } else if c == '"' {
                self.quoted = false;
            }
        } else if c == '"' {
            self.quoted = true;
        } else if c == '{' {
            self.depth = self.depth + 1;
        } else if c == '}' {
            self.depth = self.depth - 1;
        }
    }

    /// Takes a piece of text, as far as it belongs to the object.
    pub fn feed(&mut self, piece: &str)
        requires
            old(self).valid(),
            old(self).left > 0,
        ensures
            final(self).valid(),
            final(self).raw@ == scan::scanned(old(self).raw@ + piece@),
            final(self).left == old(self).left - 1,
    {
        self.left = self.left - 1;
        let chars = chars_of(piece);
        let ghost before = self.raw@;
        assert(before + chars@.take(0) == before);
        for i in 0..chars.len()
            invariant
                self.valid(),
                self.raw@ == scan::scanned(before + chars@.take(i as int)),
                self.left == old(self).left - 1,
        {
            let ghost stream = before + chars@.take(i + 1);
            assert(stream.drop_last() == before + chars@.take(i as int));
            if !(self.started && self.depth == 0) {
                self.take(chars[i]);
            }
        }
        assert(chars@.take(chars@.len() as int) == chars@);
    }

    /// The arguments as JSON text: those of the object, or of an empty one
    /// where nothing was opened or the text is not JSON.
    pub fn finish(&self) -> (r: String)
        requires
            self.valid(),
        ensures
            r@ == arguments_text(self.raw@.contains('{'), json::json_compact(self.raw@)),
            r@ == arguments_of(self.raw@),
    {
        proof {
            scan::lemma_started(self.raw@);
        }
        if !self.started {
            return string_copy("{}");
        }
        let raw = string_of(self.raw.as_slice());
        arguments_or_empty(compact(raw.as_str()))
    }
}

/// The arguments of a call from the compact text of what was generated: an
/// empty object where nothing was opened or there is no such text.
pub open spec fn arguments_text(started: bool, compacted: Option<Seq<char>>) -> Seq<char> {
    match compacted {
        Some(t) if started => t,
        _ => "{}"@,
    }
}

/// The arguments of a generated text: those of the outermost object.
pub open spec fn arguments_of(stream: Seq<char>) -> Seq<char> {
    let raw = scan::scanned(stream);
    arguments_text(raw.contains('{'), json::json_compact(raw))
}

/// The arguments of a text that starts with an object are those of the object,
/// whatever follows it.
pub proof fn lemma_arguments_are_the_object(object: Json, tail: Seq<char>)
    requires
        object is Object,
        scan::well_formed(object),
    ensures
        arguments_of(scan::json_text(object) + tail) == (match json::json_compact(
            scan::json_text(object),
        ) {
            Some(t) => t,
            None => "{}"@,
        }),
{
    scan::lemma_object_is_taken(object, tail);
    assert(scan::json_text(object)[0] == '{');
}

/// The arguments of a text without an object are empty.
pub proof fn lemma_no_object_no_arguments(stream: Seq<char>)
    requires
        !stream.contains('{'),
    ensures
        arguments_of(stream) == "{}"@,
{
    scan::lemma_scanned_is_shortest(stream);
    let raw = scan::scanned(stream);
    if raw.contains('{') {
        let k = choose|k: int| 0 <= k < raw.len() && raw[k] == '{';
        assert(stream[k] == '{');
    }
}

/// The arguments of a call from the compact text of an object, if it is JSON.
pub fn arguments_or_empty(compacted: Option<String>) -> (r: String)
    ensures
        match compacted {
            Some(t) => r == t,
            None => r@ == "{}"@,
        },
{
    match compacted {
        Some(t) => t,
        None => string_copy("{}"),
    }
}

/// Free text is all pieces one after the other.
pub proof fn lemma_free_text_grows(slot: &mut FreeSlot, token: u32, piece: &str, fired: bool)
    requires
        old(slot).detector.valid(),
        call_ensures(FreeSlot::feed, (slot, token, piece), fired),
    ensures
        final(slot).text@ == old(slot).text@ + piece@,
        final(slot).detector.trigger == old(slot).detector.trigger,
{
}

/// A name is told as soon as the tokens taken are those of a tool, and it is the
/// first such tool's. A new slot takes 32 tokens.
pub proof fn lemma_name_is_told_when_complete(
    names: Vec<String>,
    sequences: Vec<Vec<u32>>,
    fresh: NameSlot,
    slot: &mut NameSlot,
    token: u32,
    r: Option<String>,
    i: int,
)
    requires
        names@.len() == sequences@.len(),
        call_ensures(NameSlot::new, (names, sequences), fresh),
        old(slot).valid(),
        old(slot).left > 0,
        call_ensures(NameSlot::feed, (slot, token), r),
    ensures
        fresh.left == 32 && fresh.prefix@.len() == 0,
        final(slot).left + 1 == old(slot).left,
        final(slot).prefix@ == old(slot).prefix@.push(token),
        r is Some <==> exists|k: int|
            0 <= k < old(slot).constraint.options@.len() && (
            #[trigger] old(slot).constraint.options@[k])@ == old(slot).prefix@.push(token),
        ({
            let options = old(slot).constraint.options@;
            let tokens = old(slot).prefix@.push(token);
            0 <= i < options.len() && options[i]@ == tokens && (forall|j: int|
                0 <= j < i ==> (#[trigger] options[j])@ != tokens) ==> (r matches Some(name)
                && name@ == old(slot).names@[i]@)
        }),
{
    let options = old(slot).constraint.options@;
    let tokens = old(slot).prefix@.push(token);
    lemma_first_equal(options, tokens);
}

/// A slot for arguments takes four pieces for each token of its budget, and wants
/// none behind the end of the object.
pub proof fn lemma_argument_pieces_are_counted(
    max_tokens: usize,
    fresh: ArgsSlot,
    slot: &mut ArgsSlot,
    piece: &str,
)
    requires
        4 * max_tokens <= usize::MAX,
        call_ensures(ArgsSlot::new, (max_tokens,), fresh),
        old(slot).valid(),
        old(slot).left > 0,
        call_ensures(ArgsSlot::feed, (slot, piece), ()),
    ensures
        fresh.left == 4 * max_tokens && fresh.raw@.len() == 0,
        final(slot).left + 1 == old(slot).left,
        scan::closed(old(slot).raw@) ==> final(slot).raw@ == old(slot).raw@,
        !scan::closed(old(slot).raw@ + piece@) && (forall|k: int|
            0 <= k < piece@.len() ==> !scan::closed(old(slot).raw@ + #[trigger] piece@.take(k)))
            ==> final(slot).raw@ == old(slot).raw@ + piece@,
{
    let raw = old(slot).raw@;
    let all = raw + piece@;
    scan::lemma_scanned_is_shortest(all);
    let got = scan::scanned(all);
    assert(all.take(raw.len() as int) == raw);
    assert(raw + piece@.take(0) == raw);
    if piece@.len() == 0 {
        assert(all == raw);
    }
    if scan::closed(raw) {
        if got.len() > raw.len() {
            assert(!scan::closed(all.take(raw.len() as int)));
        }
        if got.len() < raw.len() {
            assert(got == raw.take(got.len() as int));
            scan::lemma_scanned_is_shortest(raw);
            assert(!scan::closed(raw.take(got.len() as int)));
            assert(got == all);
        }
        assert(got == raw);
    } else if !scan::closed(all) && (forall|k: int|
        0 <= k < piece@.len() ==> !scan::closed(raw + #[trigger] piece@.take(k))) {
        if scan::closed(got) {
            let n = got.len() as int;
            if n <= raw.len() {
                assert(got == raw.take(n));
                scan::lemma_scanned_is_shortest(raw);
                if n < raw.len() {
                    assert(!scan::closed(raw.take(n)));
                } else {
                    assert(got == raw);
                }
            } else if n < all.len() {
                let k = n - raw.len();
                assert(got == raw + piece@.take(k));
            } else {
                assert(got == all);
            }
            assert(false);
        }
        assert(got == all);
    }
}

/// What is finished is the object without its white space if it began and is valid,
/// else the empty object.
pub proof fn lemma_arguments_are_finished(slot: &ArgsSlot, r: String)
    requires
        slot.valid(),
        call_ensures(ArgsSlot::finish, (slot,), r),
    ensures
        slot.raw@.contains('{') && json::json_compact(slot.raw@) is Some ==> Some(r@)
            == json::json_compact(slot.raw@),
        !slot.raw@.contains('{') || json::json_compact(slot.raw@) is None ==> r@ == "{}"@,
{
}

} // verus!
