//! Constrained generation: masking of logits, slots filled from a fixed set of
//! options, and detection of a trigger sequence.
use crate::selection;
use crate::single::{Single, NEG_INFINITY_BITS};
use std::collections::VecDeque;
use vstd::prelude::*;

verus! {

/// Strictly increasing.
pub open spec fn ascending(v: Seq<u32>) -> bool {
    forall|i: int, j: int| 0 <= i < j < v.len() ==> v[i] < v[j]
}

/// Adds a number to an ascending list, once.
fn insert_ascending(v: &mut Vec<u32>, t: u32)
    requires
        ascending(old(v)@),
    ensures
        ascending(final(v)@),
        forall|x: u32| #[trigger] final(v)@.contains(x) <==> (x == t || old(v)@.contains(x)),
{
    let ghost before = v@;
    let mut p: usize = v.len();
    while p > 0 && v[p - 1] > t
        invariant
            p <= v.len(),
            v@ == before,
            forall|i: int| p <= i < v.len() ==> v@[i] > t,
        decreases p,
    {
        p = p - 1;
    }
    if p > 0 && v[p - 1] == t {
        assert(before[p - 1] == t);
        return ;
    }
    v.insert(p, t);
    let ghost after = v@;
    assert(after == before.insert(p as int, t));
    assert(after[p as int] == t);
    assert forall|i: int, j: int| 0 <= i < j < after.len() implies after[i] < after[j] by {
        if j < p {
            assert(before[i] < before[j]);
        } else if i > p {
            assert(before[i - 1] < before[j - 1]);
        } else if i < p && j > p {
            assert(before[i] < before[j - 1]);
        } else if i < p {
            assert(before[i] <= before[p - 1]);
        }
    }
    assert forall|x: u32| #[trigger] after.contains(x) <==> (x == t || before.contains(x)) by {
        if before.contains(x) {
            let i = choose|i: int| 0 <= i < before.len() && before[i] == x;
            if i < p {
                assert(after[i] == x);
            } else {
                assert(after[i + 1] == x);
            }
        }
        if after.contains(x) && x != t {
            let i = choose|i: int| 0 <= i < after.len() && after[i] == x;
            if i < p {
                assert(before[i] == x);
            } else {
                assert(before[i - 1] == x);
            }
        }
    }
}

/// Binary search in an ascending list.
fn in_ascending(v: &[u32], t: u32) -> (found: bool)
    requires
        ascending(v@),
    ensures
        found == v@.contains(t),
{
    let mut low: usize = 0;
    let mut high: usize = v.len();
    while low < high
        invariant
            low <= high <= v.len(),
            ascending(v@),
            forall|i: int| 0 <= i < low ==> v@[i] < t,
            forall|i: int| high <= i < v.len() ==> v@[i] > t,
        decreases high - low,
    {
        let mid: usize = low + (high - low) / 2;
        if v[mid] == t {
            return true;
        } else if v[mid] < t {
            low = mid + 1;
        } else {
            high = mid;
        }
    }
    false
}

/// Logits of which only those of the allowed token ids stay, and the others
/// are negative infinity. With no allowed id all stay.
pub open spec fn masked(logits: Seq<Single>, allowed_ids: Seq<u32>) -> Seq<Single> {
    Seq::new(
        logits.len(),
        |i: int|
            if allowed_ids.len() == 0 || allowed_ids.contains(i as u32) {
                logits[i]
            } else {
                Single { bits: NEG_INFINITY_BITS }
            },
    )
}

/// Sets every logit to negative infinity whose token id is not among
/// `allowed_ids`. With no allowed id nothing changes.
pub fn mask_logits(logits: &mut [Single], allowed_ids: &[u32])
    ensures
        final(logits)@ == masked(old(logits)@, allowed_ids@),
{
    if allowed_ids.len() == 0 {
        assert(logits@ == masked(logits@, allowed_ids@));
        return ;
    }
    let mut sorted: Vec<u32> = Vec::new();
    for i in 0..allowed_ids.len()
        invariant
            ascending(sorted@),
            forall|x: u32| #[trigger]
                sorted@.contains(x) <==> allowed_ids@.take(i as int).contains(x),
    {
        insert_ascending(&mut sorted, allowed_ids[i]);
        assert forall|x: u32| #[trigger] sorted@.contains(x) <==> allowed_ids@.take(
            i + 1,
        ).contains(x) by {
            let before = allowed_ids@.take(i as int);
            let after = allowed_ids@.take(i + 1);
            assert(after == before.push(allowed_ids@[i as int]));
            assert(after[i as int] == allowed_ids@[i as int]);
            if before.contains(x) {
                let j = choose|j: int| 0 <= j < before.len() && before[j] == x;
                assert(after[j] == x);
            }
            if after.contains(x) && x != allowed_ids@[i as int] {
                let j = choose|j: int| 0 <= j < after.len() && after[j] == x;
                assert(before[j] == x);
            }
        }
    }
    assert(allowed_ids@.take(allowed_ids@.len() as int) == allowed_ids@);
    let ghost before = logits@;
    let n: usize = logits.len();
    for i in 0..n
        invariant
            n == logits@.len() == before.len(),
            allowed_ids@.len() > 0,
            ascending(sorted@),
            forall|x: u32| #[trigger] sorted@.contains(x) <==> allowed_ids@.contains(x),
            forall|j: int|
                0 <= j < i ==> #[trigger] logits@[j] == masked(before, allowed_ids@)[j],
            forall|j: int| i <= j < n ==> #[trigger] logits@[j] == before[j],
    {
        if !in_ascending(sorted.as_slice(), i as u32) {
            logits[i] = Single { bits: NEG_INFINITY_BITS };
        }
    }
    assert(logits@ == masked(before, allowed_ids@));
}

/// The greatest of masked logits belongs to an allowed token, and is the
/// greatest logit of all allowed tokens, where one of these lies above negative
/// infinity and none is not a number.
pub proof fn lemma_allowed_leads(logits: Seq<Single>, allowed_ids: Seq<u32>, token: int)
    requires
        0 <= token < logits.len(),
        allowed_ids.contains(token as u32),
        (Single { bits: NEG_INFINITY_BITS }).less(logits[token]),
        forall|i: int|
            0 <= i < logits.len() && allowed_ids.contains(i as u32) ==> !(#[trigger] logits[i]).nan(),
    ensures
        0 <= selection::leader(masked(logits, allowed_ids)) < logits.len(),
        allowed_ids.contains(selection::leader(masked(logits, allowed_ids)) as u32),
        forall|i: int|
            0 <= i < logits.len() && allowed_ids.contains(i as u32) ==> (
            #[trigger] logits[i]).at_most(logits[selection::leader(masked(logits, allowed_ids))]),
{
    let all = masked(logits, allowed_ids);
    selection::lemma_leader_is_last_maximum(all);
    let lead = selection::leader(all);
    assert(all[token].at_most(all[lead]));
    assert forall|i: int| 0 <= i < logits.len() && allowed_ids.contains(i as u32) implies (
    #[trigger] logits[i]).at_most(logits[lead]) by {
        assert(all[i].at_most(all[lead]));
    }
}

/// A slot whose value is one of a fixed set of options, each a sequence of
/// tokens.
pub struct PrefixConstraint {
    pub options: Vec<Vec<u32>>,
}

/// `option` begins with `prefix`, and `t` is its next token.
pub open spec fn continues(option: Seq<u32>, prefix: Seq<u32>, t: u32) -> bool {
    &&& prefix.len() < option.len()
    &&& option.take(prefix.len() as int) == prefix
    &&& option[prefix.len() as int] == t
}

/// Membership in a list.
pub fn has_id(ids: &[u32], id: u32) -> (b: bool)
    ensures
        b == ids@.contains(id),
{
    for i in 0..ids.len()
        invariant
            forall|j: int| 0 <= j < i ==> ids@[j] != id,
    {
        if ids[i] == id {
            return true;
        }
    }
    false
}

/// Equality of token sequences.
pub fn tokens_eq(a: &[u32], b: &[u32]) -> (eq: bool)
    ensures
        eq == (a@ == b@),
{
    if a.len() != b.len() {
        return false;
    }
    for i in 0..a.len()
        invariant
            a.len() == b.len(),
            forall|j: int| 0 <= j < i ==> a@[j] == b@[j],
    {
        if a[i] != b[i] {
            return false;
        }
    }
    assert(a@ == b@);
    true
}

impl PrefixConstraint {
    /// Some option continues `prefix` with `t`.
    pub open spec fn admits(self, prefix: Seq<u32>, t: u32) -> bool {
        exists|o: int|
            0 <= o < self.options@.len() && continues(#[trigger] self.options@[o]@, prefix, t)
    }

    /// `prefix` is one of the options.
    pub open spec fn complete(self, prefix: Seq<u32>) -> bool {
        exists|o: int| 0 <= o < self.options@.len() && #[trigger] self.options@[o]@ == prefix
    }

    /// A constraint over tokenized options.
    pub fn new(options: Vec<Vec<u32>>) -> (r: Self)
        ensures
            r.options == options,
    {
        Self { options }
    }

    /// The tokens that may follow `prefix`, in ascending order. There is none
    /// where `prefix` matches no option or only completes one.
    pub fn valid_next_tokens(&self, prefix: &[u32]) -> (r: Vec<u32>)
        ensures
            ascending(r@),
            forall|t: u32| #[trigger] r@.contains(t) <==> self.admits(prefix@, t),
    {
        let mut r: Vec<u32> = Vec::new();
        for o in 0..self.options.len()
            invariant
                ascending(r@),
                forall|t: u32| #[trigger]
                    r@.contains(t) <==> exists|p: int|
                        0 <= p < o && continues(#[trigger] self.options@[p]@, prefix@, t),
        {
            let option = self.options[o].as_slice();
            let ghost before = r@;
            if prefix.len() < option.len() {
                let head = &option[0..prefix.len()];
                assert(head@ == option@.take(prefix@.len() as int));
                if tokens_eq(head, prefix) {
                    insert_ascending(&mut r, option[prefix.len()]);
                    assert(continues(self.options@[o as int]@, prefix@, option@[prefix@.len() as int]));
                }
            }
            assert forall|t: u32| #[trigger] r@.contains(t) <==> exists|p: int|
                0 <= p < o + 1 && continues(#[trigger] self.options@[p]@, prefix@, t) by {
                if before.contains(t) {
                    let p = choose|p: int|
                        0 <= p < o && continues(#[trigger] self.options@[p]@, prefix@, t);
                    assert(continues(self.options@[p]@, prefix@, t));
                }
            }
        }
        r
    }

    /// Whether `prefix` is exactly one of the options.
    pub fn is_complete(&self, prefix: &[u32]) -> (b: bool)
        ensures
            b == self.complete(prefix@),
    {
        for o in 0..self.options.len()
            invariant
                forall|p: int| 0 <= p < o ==> #[trigger] self.options@[p]@ != prefix@,
        {
            if tokens_eq(self.options[o].as_slice(), prefix) {
                return true;
            }
        }
        false
    }
}

/// Taking admitted tokens one by one never leaves the slot stuck: what has been
/// taken is an option, or another token is admitted.
pub proof fn lemma_slot_never_stuck(c: PrefixConstraint, prefix: Seq<u32>, t: u32)
    requires
        c.admits(prefix, t),
    ensures
        c.complete(prefix.push(t)) || exists|u: u32| c.admits(prefix.push(t), u),
{
    let o = choose|o: int|
        0 <= o < c.options@.len() && continues(#[trigger] c.options@[o]@, prefix, t);
    let option = c.options@[o]@;
    let next = prefix.push(t);
    assert(option.take(next.len() as int) == next);
    if option.len() == next.len() {
        assert(option == next);
    } else {
        assert(continues(option, next, option[next.len() as int]));
        assert(c.admits(next, option[next.len() as int]));
    }
}

/// A token is admitted exactly if it leads to an option, or on the way to one.
pub proof fn lemma_admitted_iff_on_the_way(c: PrefixConstraint, prefix: Seq<u32>, t: u32)
    ensures
        c.admits(prefix, t) <==> exists|o: int|
            0 <= o < c.options@.len() && prefix.push(t).is_prefix_of(#[trigger] c.options@[o]@),
{
    let next = prefix.push(t);
    assert forall|o: int| 0 <= o < c.options@.len() implies continues(
        #[trigger] c.options@[o]@,
        prefix,
        t,
    ) == next.is_prefix_of(c.options@[o]@) by {
        let option = c.options@[o]@;
        if continues(option, prefix, t) {
            assert(option.subrange(0, next.len() as int) == next);
        }
        if next.is_prefix_of(option) {
            assert(next[prefix.len() as int] == option[prefix.len() as int]);
            assert forall|i: int| 0 <= i < prefix.len() implies option[i] == prefix[i] by {
                assert(next[i] == option[i]);
            }
            assert(option.take(prefix.len() as int) == prefix);
        }
    }
    if c.admits(prefix, t) {
        let o = choose|o: int|
            0 <= o < c.options@.len() && continues(#[trigger] c.options@[o]@, prefix, t);
        assert(next.is_prefix_of(c.options@[o]@));
    }
    if exists|o: int| 0 <= o < c.options@.len() && next.is_prefix_of(#[trigger] c.options@[o]@) {
        let o = choose|o: int|
            0 <= o < c.options@.len() && next.is_prefix_of(#[trigger] c.options@[o]@);
        assert(continues(c.options@[o]@, prefix, t));
    }
}

/// The last `n` tokens, or all of them where there are fewer.
pub open spec fn last_tokens(tokens: Seq<u32>, n: nat) -> Seq<u32> {
    if tokens.len() <= n {
        tokens
    } else {
        tokens.skip(tokens.len() - n)
    }
}

/// `tokens` ends with the trigger, which is not empty.
pub open spec fn ends_with_trigger(tokens: Seq<u32>, trigger: Seq<u32>) -> bool {
    trigger.len() > 0 && last_tokens(tokens, trigger.len()) == trigger
}

/// Detects a trigger sequence in a stream of tokens by a window over the last
/// of them.
pub struct SentinelDetector {
    pub trigger: Vec<u32>,
    pub window: VecDeque<u32>,
}

impl SentinelDetector {
    /// The window has seen exactly the tokens of `history` since the last
    /// reset.
    pub open spec fn has_seen(self, history: Seq<u32>) -> bool {
        self.window@ == last_tokens(history, self.trigger@.len())
    }

    /// The window is never longer than the trigger.
    pub open spec fn valid(self) -> bool {
        self.window@.len() <= self.trigger@.len()
    }

    /// A detector that has seen nothing.
    pub fn new(trigger: Vec<u32>) -> (r: Self)
        ensures
            r.valid(),
            r.trigger == trigger,
            r.has_seen(seq![]),
    {
        let capacity: usize = if trigger.len() > 1 {
            trigger.len()
        } else {
            1
        };
        Self { trigger, window: VecDeque::with_capacity(capacity) }
    }

    /// Takes one token. True if the stream now ends with the trigger.
    pub fn push(&mut self, token: u32) -> (fired: bool)
        requires
            old(self).valid(),
        ensures
            final(self).valid(),
            final(self).trigger == old(self).trigger,
            final(self).window@ == last_tokens(
                old(self).window@.push(token),
                old(self).trigger@.len(),
            ),
            forall|history: Seq<u32>|
                old(self).has_seen(history) ==> final(self).has_seen(history.push(token)) && fired
                    == ends_with_trigger(#[trigger] history.push(token), old(self).trigger@),
    {
        let ghost before = self.window@;
        let ghost n = self.trigger@.len();
        self.window.push_back(token);
        if self.window.len() > self.trigger.len() {
            self.window.pop_front();
            assert(self.window@ == before.push(token).skip(1));
        }
        assert(self.window@ == last_tokens(before.push(token), n));
        assert forall|history: Seq<u32>| before == last_tokens(history, n) implies self.window@
            == last_tokens(#[trigger] history.push(token), n) by {
            lemma_window_follows(history, token, n);
        }
        self.matches()
    }

    /// Whether the window equals the trigger. Never for an empty trigger.
    pub fn matches(&self) -> (b: bool)
        requires
            self.valid(),
        ensures
            b == (self.trigger@.len() > 0 && self.window@ == self.trigger@),
            forall|history: Seq<u32>| #[trigger]
                self.has_seen(history) ==> b == ends_with_trigger(history, self.trigger@),
    {
        if self.trigger.len() == 0 || self.window.len() != self.trigger.len() {
            return false;
        }
        for i in 0..self.trigger.len()
            invariant
                self.window@.len() == self.trigger@.len(),
                forall|j: int| 0 <= j < i ==> self.window@[j] == self.trigger@[j],
        {
            if self.window[i] != self.trigger[i] {
                return false;
            }
        }
        assert(self.window@ == self.trigger@);
        true
    }

    /// Forgets what was seen.
    pub fn reset(&mut self)
        requires
            old(self).valid(),
        ensures
            final(self).valid(),
            final(self).trigger == old(self).trigger,
            final(self).has_seen(seq![]),
    {
        self.window.clear();
    }
}

/// The window over a longer stream is the window over the shorter one, moved by
/// one token.
proof fn lemma_window_follows(history: Seq<u32>, token: u32, n: nat)
    ensures
        last_tokens(last_tokens(history, n).push(token), n) == last_tokens(history.push(token), n),
{
    let window = last_tokens(history, n).push(token);
    assert(last_tokens(window, n) == last_tokens(history.push(token), n));
}

/// Masking leaves the logits of allowed tokens as they are and sets all others to
/// negative infinity; with no allowed token nothing changes.
pub proof fn lemma_mask_keeps_the_allowed(logits: &mut [Single], allowed_ids: &[u32])
    requires
        old(logits)@.len() <= u32::MAX,
        call_ensures(mask_logits, (logits, allowed_ids), ()),
    ensures
        final(logits)@.len() == old(logits)@.len(),
        allowed_ids@.len() == 0 ==> final(logits)@ == old(logits)@,
        forall|k: int|
            0 <= k < allowed_ids@.len() && (#[trigger] allowed_ids@[k]) < old(logits)@.len()
                ==> final(logits)@[allowed_ids@[k] as int] == old(logits)@[allowed_ids@[k] as int],
        allowed_ids@.len() > 0 ==> forall|i: int|
            0 <= i < old(logits)@.len() && (forall|k: int|
                0 <= k < allowed_ids@.len() ==> #[trigger] allowed_ids@[k] != i) ==> (
            #[trigger] final(logits)@[i]).bits == 0xFF80_0000,
{
    assert forall|k: int|
        0 <= k < allowed_ids@.len() && (#[trigger] allowed_ids@[k]) < old(logits)@.len() implies
        final(logits)@[allowed_ids@[k] as int] == old(logits)@[allowed_ids@[k] as int] by {
        assert(allowed_ids@.contains(allowed_ids@[k]));
    }
}

/// The tokens that may come next are, each once and in ascending order, those that
/// follow the prefix in an option that begins with it.
pub proof fn lemma_next_tokens_follow_the_options(
    c: &PrefixConstraint,
    prefix: &[u32],
    r: Vec<u32>,
    complete: bool,
)
    requires
        call_ensures(PrefixConstraint::valid_next_tokens, (c, prefix), r),
        call_ensures(PrefixConstraint::is_complete, (c, prefix), complete),
    ensures
        forall|i: int, j: int| 0 <= i < j < r@.len() ==> (#[trigger] r@[i]) < (#[trigger] r@[j]),
        forall|t: u32| #[trigger]
            r@.contains(t) <==> exists|o: int|
                0 <= o < c.options@.len() && prefix@.push(t).is_prefix_of(#[trigger] c.options@[o]@),
        complete <==> exists|o: int| 0 <= o < c.options@.len() && #[trigger] c.options@[o]@ == prefix@,
{
    assert forall|t: u32| #[trigger] r@.contains(t) <==> exists|o: int|
        0 <= o < c.options@.len() && prefix@.push(t).is_prefix_of(#[trigger] c.options@[o]@) by {
        lemma_admitted_iff_on_the_way(*c, prefix@, t);
    }
}

/// A stream ends with the trigger exactly if it is something with the trigger
/// behind it; an empty trigger is never seen.
pub proof fn lemma_ends_with_trigger(before: Seq<u32>, trigger: Seq<u32>, tokens: Seq<u32>)
    ensures
        trigger.len() > 0 ==> ends_with_trigger(before + trigger, trigger),
        ends_with_trigger(tokens, trigger) ==> trigger.len() > 0 && trigger.len() <= tokens.len()
            && tokens == tokens.take(tokens.len() - trigger.len()) + trigger,
{
    let whole = before + trigger;
    assert(whole.skip(before.len() as int) == trigger);
    if before.len() == 0 {
        assert(whole == trigger);
    }
    if ends_with_trigger(tokens, trigger) {
        let k = tokens.len() - trigger.len();
        if k > 0 {
            assert(tokens == tokens.take(k) + tokens.skip(k));
        } else {
            assert(tokens == tokens.take(0) + tokens);
        }
    }
}

/// A detector fires on exactly those tokens with which the stream since its start
/// or last reset ends with the trigger.
pub proof fn lemma_detector_fires_on_trigger(
    d: &mut SentinelDetector,
    history: Seq<u32>,
    token: u32,
    fired: bool,
)
    requires
        old(d).valid(),
        old(d).has_seen(history),
        call_ensures(SentinelDetector::push, (d, token), fired),
    ensures
        final(d).has_seen(history.push(token)),
        final(d).trigger == old(d).trigger,
        fired <==> old(d).trigger@.len() > 0 && exists|before: Seq<u32>| #[trigger]
            (before + old(d).trigger@) == history.push(token),
{
    let tokens = history.push(token);
    let trigger = old(d).trigger@;
    if fired {
        lemma_ends_with_trigger(seq![], trigger, tokens);
        assert(tokens.take(tokens.len() - trigger.len()) + trigger == tokens);
    }
    if trigger.len() > 0 && exists|before: Seq<u32>| #[trigger] (before + trigger) == tokens {
        let before = choose|before: Seq<u32>| #[trigger] (before + trigger) == tokens;
        lemma_ends_with_trigger(before, trigger, tokens);
    }
}

/// A new detector, and one that was reset, has seen nothing.
pub proof fn lemma_detector_starts_anew(trigger: Vec<u32>, d: SentinelDetector, e: &mut SentinelDetector)
    requires
        call_ensures(SentinelDetector::new, (trigger,), d),
        old(e).valid(),
        call_ensures(SentinelDetector::reset, (e,), ()),
    ensures
        d.trigger == trigger,
        d.window@.len() == 0,
        final(e).trigger == old(e).trigger,
        final(e).window@.len() == 0,
{
}

} // verus!
