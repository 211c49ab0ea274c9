//! Token sampling: temperature, top-k, min-p, tail-free, top-p, Mirostat and
//! repetition penalties.
//!
//! A sampler decides which candidates stay, in what order and which of them is
//! drawn. Arithmetic on logits and probabilities is asked for: each step
//! returns the `Next` piece of arithmetic together with the candidates it is
//! about, and takes the numbers that it gave.
use crate::constraint::has_id;
use crate::selection::{
    self, argmax, clamp_count, draw_index, head_of, min_p_filter, nucleus, rank_by, rescore,
    surprise_filter, tail_free_head, top_ranked, Candidate,
};
use crate::single::{self, Single};
use vstd::arithmetic::power2::*;
use vstd::prelude::*;

verus! {

/// Whitening constant of the generator's seed.
pub const SEED_MASK: u64 = 0x517c_c1b7_2722_0a95;

/// 0.0
pub const ZERO: u32 = 0;

/// 1.0
pub const ONE: u32 = 0x3F80_0000;

/// The greatest number below 1.0.
pub const BELOW_ONE: u32 = 0x3F7F_FFFF;

/// 0.01, the least repetition penalty.
pub const HUNDREDTH: u32 = 0x3C23_D70A;

/// 0.1, the default Mirostat learning rate.
pub const TENTH: u32 = 0x3DCC_CCCD;

/// 0.9, the top-p threshold that Mirostat samplers carry.
pub const NINE_TENTHS: u32 = 0x3F66_6666;

/// 5.0, the default Mirostat target surprise.
pub const FIVE: u32 = 0x40A0_0000;

/// 10.0, the default initial Mirostat bound.
pub const TEN: u32 = 0x4120_0000;

/// 1e-6: temperatures below it are greedy, penalties below it are off.
pub const MILLIONTH: u32 = 0x3586_37BD;

/// 1e-10, the floor for probabilities under a logarithm.
pub const TINY: u32 = 0x2EDB_E6FF;

/// 1e-12: a curve with a smaller total has no tail.
pub const FLAT: u32 = 0x2B8C_BCCC;

/// Mirostat mode.
#[derive(Debug, Clone, Copy, PartialEq, Eq, Structural)]
pub enum MirostatMode {
    /// Top-k, min-p, tail-free and top-p sampling.
    Disabled,
    /// Perplexity-controlled sampling with an adaptive number of candidates.
    V1,
    /// Perplexity-controlled sampling with an adaptive bound on surprise.
    V2,
}

/// Parameters and state of a sampler.
pub struct Sampler {
    pub temperature: Single,
    pub top_k: usize,
    pub top_p: Single,
    pub min_p: Single,
    /// Tail-free threshold; 0 and 1 switch the filter off.
    pub tfs_z: Single,
    pub repetition_penalty: Single,
    pub frequency_penalty: Single,
    pub presence_penalty: Single,
    pub mirostat: MirostatMode,
    /// Target surprise.
    pub mirostat_tau: Single,
    /// Learning rate.
    pub mirostat_eta: Single,
    /// Adaptive bound on surprise, twice the target at first.
    pub mirostat_mu: Single,
    pub rng_state: u64,
}

/// What is needed next to sample a token.
pub enum Next {
    /// Nothing: the token.
    Token(u32),
    /// Each logit divided by the temperature.
    Scale,
    /// The softmax of the scores, and `min_p` times the largest probability.
    Relative(Vec<Candidate>),
    /// The total of the second differences of the softmax of the scores, and
    /// their running sums divided by it.
    Curve(Vec<Candidate>),
    /// The softmax of the scores.
    Softmax(Vec<Candidate>),
    /// The running sums of the scores.
    Sums(Vec<Candidate>),
    /// The number of candidates by Zipf's law.
    Width(Vec<Candidate>),
    /// The surprise of each score.
    Surprise(Vec<Candidate>),
    /// The scores divided by their total, the running sums of that, and the
    /// random number scaled into the unit interval.
    Draw(Vec<Candidate>, u64),
}

/// What a step says.
pub enum NextData {
    Token(u32),
    Scale,
    Relative(Seq<Candidate>),
    Curve(Seq<Candidate>),
    Softmax(Seq<Candidate>),
    Sums(Seq<Candidate>),
    Width(Seq<Candidate>),
    Surprise(Seq<Candidate>),
    Draw(Seq<Candidate>, u64),
}

impl View for Next {
    type V = NextData;

    open spec fn view(&self) -> NextData {
        match self {
            Next::Token(t) => NextData::Token(*t),
            Next::Scale => NextData::Scale,
            Next::Relative(c) => NextData::Relative(c@),
            Next::Curve(c) => NextData::Curve(c@),
            Next::Softmax(c) => NextData::Softmax(c@),
            Next::Sums(c) => NextData::Sums(c@),
            Next::Width(c) => NextData::Width(c@),
            Next::Surprise(c) => NextData::Surprise(c@),
            Next::Draw(c, random) => NextData::Draw(c@, *random),
        }
    }
}

/// Every index is below `n`.
pub open spec fn below(candidates: Seq<Candidate>, n: int) -> bool {
    forall|i: int| 0 <= i < candidates.len() ==> (#[trigger] candidates[i]).0 < n
}

impl Next {
    /// The candidates that the step is about.
    pub open spec fn candidates(self) -> Seq<Candidate> {
        match self {
            Next::Token(_) => seq![],
            Next::Scale => seq![],
            Next::Relative(c) => c@,
            Next::Curve(c) => c@,
            Next::Softmax(c) => c@,
            Next::Sums(c) => c@,
            Next::Width(c) => c@,
            Next::Surprise(c) => c@,
            Next::Draw(c, _) => c@,
        }
    }
}

/// One step of the xorshift generator with shifts 13, 7 and 17.
pub open spec fn xorshift(s: u64) -> u64 {
    let a = s ^ (s << 13);
    let b = a ^ (a >> 7);
    b ^ (b << 17)
}

/// The generator never reaches the zero state from another, and never repeats
/// one state from two.
pub proof fn lemma_xorshift_permutes(s: u64, t: u64)
    ensures
        xorshift(s) == xorshift(t) ==> s == t,
        xorshift(s) == 0 <==> s == 0,
{
    assert(forall|a: u64, b: u64| (a ^ (a << 13)) == (b ^ (b << 13)) ==> a == b) by (bit_vector);
    assert(forall|a: u64, b: u64| (a ^ (a >> 7)) == (b ^ (b >> 7)) ==> a == b) by (bit_vector);
    assert(forall|a: u64, b: u64| (a ^ (a << 17)) == (b ^ (b << 17)) ==> a == b) by (bit_vector);
    assert(0u64 ^ (0u64 << 13) == 0) by (bit_vector);
    assert(0u64 ^ (0u64 >> 7) == 0) by (bit_vector);
    assert(0u64 ^ (0u64 << 17) == 0) by (bit_vector);
}

/// A token that is penalized: its position, its number of occurrences, and
/// whether the repetition penalty divides or multiplies its logit.
#[derive(Clone, Copy, Debug, PartialEq, Eq, Structural)]
pub struct Penalty {
    pub index: usize,
    pub count: u32,
    pub scaling: Scaling,
}

/// How the repetition penalty applies to a logit.
#[derive(Clone, Copy, Debug, PartialEq, Eq, Structural)]
pub enum Scaling {
    Keep,
    Divide,
    Multiply,
}

/// How often a token occurs.
pub open spec fn occurrences(tokens: Seq<u32>, t: u32) -> nat
    decreases tokens.len(),
{
    if tokens.len() == 0 {
        0
    } else if tokens.last() == t {
        occurrences(tokens.drop_last(), t) + 1
    } else {
        occurrences(tokens.drop_last(), t)
    }
}

/// The tokens that have one of `n` logits, each once, in the order of first
/// occurrence.
pub open spec fn firsts(tokens: Seq<u32>, n: nat) -> Seq<u32>
    decreases tokens.len(),
{
    if tokens.len() == 0 {
        seq![]
    } else {
        let before = firsts(tokens.drop_last(), n);
        if tokens.last() < n && !before.contains(tokens.last()) {
            before.push(tokens.last())
        } else {
            before
        }
    }
}

/// Every token that has a logit is listed, exactly once.
pub proof fn lemma_firsts(tokens: Seq<u32>, n: nat)
    ensures
        forall|t: u32| #[trigger]
            firsts(tokens, n).contains(t) <==> tokens.contains(t) && t < n,
        forall|i: int, j: int|
            0 <= i < j < firsts(tokens, n).len() ==> firsts(tokens, n)[i] != firsts(tokens, n)[j],
    decreases tokens.len(),
{
    if tokens.len() > 0 {
        let init = tokens.drop_last();
        let last = tokens.last();
        let before = firsts(init, n);
        let after = firsts(tokens, n);
        lemma_firsts(init, n);
        assert forall|t: u32| #[trigger] after.contains(t) <==> tokens.contains(t) && t < n by {
            if before.contains(t) {
                let i = choose|i: int| 0 <= i < before.len() && before[i] == t;
                assert(after[i] == t);
            }
            if after.contains(t) {
                let i = choose|i: int| 0 <= i < after.len() && after[i] == t;
                assert(i < before.len() ==> before[i] == t);
            }
            if init.contains(t) {
                let i = choose|i: int| 0 <= i < init.len() && init[i] == t;
                assert(tokens[i] == t);
            }
            if tokens.contains(t) && t != last {
                let i = choose|i: int| 0 <= i < tokens.len() && tokens[i] == t;
                assert(init[i] == t);
            }
            if t == last {
                assert(tokens[tokens.len() - 1] == t);
                if t < n && !before.contains(t) {
                    assert(after[before.len() as int] == t);
                }
            }
        }
        assert forall|i: int, j: int| 0 <= i < j < after.len() implies after[i] != after[j] by {
            if j == before.len() {
                assert(before[i] == after[i]);
            }
        }
    }
}

fn count_occurrences(tokens: &[u32], t: u32) -> (n: u32)
    requires
        tokens@.len() <= u32::MAX,
    ensures
        n == occurrences(tokens@, t),
{
    let mut n: u32 = 0;
    for i in 0..tokens.len()
        invariant
            tokens@.len() <= u32::MAX,
            n <= i,
            n == occurrences(tokens@.take(i as int), t),
    {
        assert(tokens@.take(i + 1).drop_last() == tokens@.take(i as int));
        if tokens[i] == t {
            n = n + 1;
        }
    }
    assert(tokens@.take(tokens@.len() as int) == tokens@);
    n
}

/// A sampler with top-k and top-p.
pub open spec fn plain(temperature: Single, top_k: usize, top_p: Single, nanos: u64) -> Sampler {
    Sampler {
        temperature,
        top_k,
        top_p,
        min_p: Single { bits: ZERO },
        tfs_z: Single { bits: ZERO },
        repetition_penalty: Single { bits: ONE },
        frequency_penalty: Single { bits: ZERO },
        presence_penalty: Single { bits: ZERO },
        mirostat: MirostatMode::Disabled,
        mirostat_tau: Single { bits: FIVE },
        mirostat_eta: Single { bits: TENTH },
        mirostat_mu: Single { bits: TEN },
        rng_state: nanos ^ SEED_MASK,
    }
}

/// A sampler with repetition penalties.
pub open spec fn penalized(
    temperature: Single,
    top_k: usize,
    top_p: Single,
    repetition_penalty: Single,
    frequency_penalty: Single,
    presence_penalty: Single,
    nanos: u64,
) -> Sampler {
    Sampler {
        repetition_penalty: repetition_penalty.larger(Single { bits: HUNDREDTH }),
        frequency_penalty,
        presence_penalty,
        ..plain(temperature, top_k, top_p, nanos)
    }
}

/// A sampler with Mirostat.
pub open spec fn mirostatic(
    temperature: Single,
    mode: MirostatMode,
    tau: Single,
    eta: Single,
    nanos: u64,
) -> Sampler {
    Sampler {
        mirostat: mode,
        mirostat_tau: tau.larger(Single { bits: ZERO }),
        mirostat_eta: eta.clamped(Single { bits: ZERO }, Single { bits: ONE }),
        mirostat_mu: tau.doubled(),
        ..plain(temperature, 40, Single { bits: NINE_TENTHS }, nanos)
    }
}

impl Sampler {
    /// The sampler with another seed.
    pub open spec fn seeded(self, seed: u64) -> Sampler {
        Sampler { rng_state: seed ^ SEED_MASK, ..self }
    }

    /// The sampler with its generator advanced.
    pub open spec fn advanced(self) -> Sampler {
        Sampler { rng_state: xorshift(self.rng_state), ..self }
    }

    /// The fields that only the top-k and top-p constructors leave at their
    /// defaults.
    pub open spec fn without_mirostat(self) -> bool {
        &&& self.mirostat == MirostatMode::Disabled
        &&& self.mirostat_tau.bits == FIVE
        &&& self.mirostat_eta.bits == TENTH
        &&& self.mirostat_mu.bits == TEN
    }

    /// The repetition penalty is one and the additive penalties are zero.
    pub open spec fn without_penalties(self) -> bool {
        &&& self.repetition_penalty.bits == ONE
        &&& self.frequency_penalty.bits == ZERO
        &&& self.presence_penalty.bits == ZERO
    }

    /// A sampler with top-k and top-p. `nanos` is the time, from which the
    /// generator is seeded.
    pub fn new(temperature: Single, top_k: usize, top_p: Single, nanos: u64) -> (r: Self)
        ensures
            r == plain(temperature, top_k, top_p, nanos),
    {
        Self {
            temperature,
            top_k,
            top_p,
            min_p: Single { bits: ZERO },
            tfs_z: Single { bits: ZERO },
            repetition_penalty: Single { bits: ONE },
            frequency_penalty: Single { bits: ZERO },
            presence_penalty: Single { bits: ZERO },
            mirostat: MirostatMode::Disabled,
            mirostat_tau: Single { bits: FIVE },
            mirostat_eta: Single { bits: TENTH },
            mirostat_mu: Single { bits: TEN },
            rng_state: nanos ^ SEED_MASK,
        }
    }

    /// A sampler with repetition penalties. The repetition penalty is at least
    /// 0.01.
    pub fn with_penalties(
        temperature: Single,
        top_k: usize,
        top_p: Single,
        repetition_penalty: Single,
        frequency_penalty: Single,
        presence_penalty: Single,
        nanos: u64,
    ) -> (r: Self)
        ensures
            r == penalized(
                temperature,
                top_k,
                top_p,
                repetition_penalty,
                frequency_penalty,
                presence_penalty,
                nanos,
            ),
    {
        let mut r = Self::new(temperature, top_k, top_p, nanos);
        r.repetition_penalty = repetition_penalty.maximum(&Single { bits: HUNDREDTH });
        r.frequency_penalty = frequency_penalty;
        r.presence_penalty = presence_penalty;
        r
    }

    /// A sampler with min-p, moved into the unit interval.
    pub fn with_min_p(
        temperature: Single,
        top_k: usize,
        top_p: Single,
        min_p: Single,
        repetition_penalty: Single,
        frequency_penalty: Single,
        presence_penalty: Single,
        nanos: u64,
    ) -> (r: Self)
        ensures
            r == (Sampler {
                min_p: min_p.clamped(Single { bits: ZERO }, Single { bits: ONE }),
                ..penalized(
                    temperature,
                    top_k,
                    top_p,
                    repetition_penalty,
                    frequency_penalty,
                    presence_penalty,
                    nanos,
                )
            }),
    {
        let mut r = Self::with_penalties(
            temperature,
            top_k,
            top_p,
            repetition_penalty,
            frequency_penalty,
            presence_penalty,
            nanos,
        );
        r.min_p = min_p.clamp_to(&Single { bits: ZERO }, &Single { bits: ONE });
        r
    }

    /// A sampler with tail-free sampling, its threshold moved into the unit
    /// interval.
    pub fn with_tfs(
        temperature: Single,
        top_k: usize,
        top_p: Single,
        tfs_z: Single,
        repetition_penalty: Single,
        frequency_penalty: Single,
        presence_penalty: Single,
        nanos: u64,
    ) -> (r: Self)
        ensures
            r == (Sampler {
                tfs_z: tfs_z.clamped(Single { bits: ZERO }, Single { bits: ONE }),
                ..penalized(
                    temperature,
                    top_k,
                    top_p,
                    repetition_penalty,
                    frequency_penalty,
                    presence_penalty,
                    nanos,
                )
            }),
    {
        let mut r = Self::with_penalties(
            temperature,
            top_k,
            top_p,
            repetition_penalty,
            frequency_penalty,
            presence_penalty,
            nanos,
        );
        r.tfs_z = tfs_z.clamp_to(&Single { bits: ZERO }, &Single { bits: ONE });
        r
    }

    /// A sampler with Mirostat. The target surprise is not negative, the
    /// learning rate lies in the unit interval, and the initial bound is twice
    /// the target.
    pub fn with_mirostat(
        temperature: Single,
        mode: MirostatMode,
        tau: Single,
        eta: Single,
        nanos: u64,
    ) -> (r: Self)
        ensures
            r == mirostatic(temperature, mode, tau, eta, nanos),
    {
        let mut r = Self::new(temperature, 40, Single { bits: NINE_TENTHS }, nanos);
        r.mirostat = mode;
        r.mirostat_tau = tau.maximum(&Single { bits: ZERO });
        r.mirostat_eta = eta.clamp_to(&Single { bits: ZERO }, &Single { bits: ONE });
        r.mirostat_mu = tau.twice();
        r
    }

    /// The sampler with a fixed seed in place of the time.
    pub fn with_seed(self, seed: u64) -> (r: Self)
        ensures
            r == self.seeded(seed),
    {
        let mut r = self;
        r.rng_state = seed ^ SEED_MASK;
        r
    }

    /// Advances the generator and returns its upper 53 bits.
    pub fn next_random(&mut self) -> (r: u64)
        ensures
            *final(self) == old(self).advanced(),
            r == final(self).rng_state >> 11,
            r < 0x20_0000_0000_0000,
    {
        let s: u64 = self.rng_state;
        let a: u64 = s ^ (s << 13);
        let b: u64 = a ^ (a >> 7);
        let c: u64 = b ^ (b << 17);
        assert(c >> 11 < 0x20_0000_0000_0000) by (bit_vector);
        self.rng_state = c;
        c >> 11
    }

    /// No penalty has an effect. `offset` is the repetition penalty less one.
    pub open spec fn penalties_idle(self, offset: Single) -> bool {
        let bound = Single { bits: MILLIONTH };
        &&& offset.absolute().less(bound)
        &&& self.frequency_penalty.absolute().less(bound)
        &&& self.presence_penalty.absolute().less(bound)
    }

    /// How the repetition penalty changes a logit: it divides a positive one
    /// and multiplies any other, unless it is one.
    pub open spec fn scaling_of(self, logit: Single) -> Scaling {
        if !self.repetition_penalty.nan() && self.repetition_penalty.key() == ONE {
            Scaling::Keep
        } else if (Single { bits: ZERO }).less(logit) {
            Scaling::Divide
        } else {
            Scaling::Multiply
        }
    }

    /// The penalty that a token brings by its occurrences.
    pub open spec fn penalty_of(self, logits: Seq<Single>, tokens: Seq<u32>, t: u32) -> Penalty {
        Penalty {
            index: t as usize,
            count: occurrences(tokens, t) as u32,
            scaling: self.scaling_of(logits[t as int]),
        }
    }

    /// The penalties that the previous tokens bring on the logits: one for each
    /// token that occurs among them and has a logit, in the order of first
    /// occurrence. `offset` is the repetition penalty less one.
    pub fn apply_penalties(
        &self,
        logits: &[Single],
        previous_tokens: &[u32],
        offset: Single,
    ) -> (r: Vec<Penalty>)
        requires
            previous_tokens@.len() <= u32::MAX,
        ensures
            r@ == (if self.penalties_idle(offset) {
                seq![]
            } else {
                firsts(previous_tokens@, logits@.len()).map_values(
                    |t: u32| self.penalty_of(logits@, previous_tokens@, t),
                )
            }),
    {
        let mut r: Vec<Penalty> = Vec::new();
        let bound = Single { bits: MILLIONTH };
        if offset.abs().is_less(&bound) && self.frequency_penalty.abs().is_less(&bound)
            && self.presence_penalty.abs().is_less(&bound) {
            return r;
        }
        let mut listed: Vec<u32> = Vec::new();
        let ghost penalty = |t: u32| self.penalty_of(logits@, previous_tokens@, t);
        for k in 0..previous_tokens.len()
            invariant
                previous_tokens@.len() <= u32::MAX,
                penalty == (|t: u32| self.penalty_of(logits@, previous_tokens@, t)),
                listed@ == firsts(previous_tokens@.take(k as int), logits@.len()),
                r@ == listed@.map_values(penalty),
        {
            let t: u32 = previous_tokens[k];
            let index: usize = t as usize;
            assert(previous_tokens@.take(k + 1).drop_last() == previous_tokens@.take(k as int));
            if index < logits.len() && !has_id(listed.as_slice(), t) {
                let ghost before = listed@;
                let count = count_occurrences(previous_tokens, t);
                let one = !self.repetition_penalty.is_nan() && self.repetition_penalty.order_key()
                    == ONE as i64;
                let scaling = if one {
                    Scaling::Keep
                } else if (Single { bits: ZERO }).is_less(&logits[index]) {
                    Scaling::Divide
                } else {
                    Scaling::Multiply
                };
                r.push(Penalty { index, count, scaling });
                listed.push(t);
                assert(listed@.map_values(penalty) == before.map_values(penalty).push(penalty(t)));
            }
        }
        assert(previous_tokens@.take(previous_tokens@.len() as int) == previous_tokens@);
        r
    }
}

/// The indices of a part, a rescoring or a ranking of candidates are indices of
/// the candidates.
proof fn lemma_below(c: Seq<Candidate>, n: int, mark: spec_fn(int) -> bool, scores: Seq<Single>)
    requires
        below(c, n),
    ensures
        forall|k: int| 0 <= k <= c.len() ==> below(#[trigger] c.take(k), n),
        below(selection::marked(c, mark), n),
        c.len() > 0 ==> below(selection::marked_or_first(c, mark), n),
        below(selection::rescored(c, scores), n),
        scores.len() == c.len() ==> forall|r: Seq<Candidate>| #[trigger]
            selection::ranked_by(c, scores, r) ==> below(r, n),
{
    selection::lemma_marked(c, mark);
    assert forall|k: int| 0 <= k <= c.len() implies below(#[trigger] c.take(k), n) by {
        assert forall|i: int| 0 <= i < k implies (#[trigger] c.take(k)[i]).0 < n by {
            assert(c.take(k)[i] == c[i]);
        }
    }
    assert forall|j: int| 0 <= j < selection::marked(c, mark).len() implies (#[trigger] selection::marked(
        c,
        mark,
    )[j]).0 < n by {
        assert(selection::stands_marked(c, mark, selection::marked(c, mark)[j]));
    }
    assert forall|i: int| 0 <= i < c.len() implies (#[trigger] selection::rescored(c, scores)[i]).0 < n by {
        assert(c[i].0 < n);
    }
    if scores.len() == c.len() {
        assert forall|r: Seq<Candidate>| #[trigger] selection::ranked_by(c, scores, r) implies below(r, n) by {
            let len = scores.len() as int;
            let listing = choose|l: Seq<Candidate>| #[trigger]
                selection::best_of(scores, len, len, l) && r == selection::relabelled(c, l);
            assert forall|i: int| 0 <= i < r.len() implies (#[trigger] r[i]).0 < n by {
                assert(listing[i].0 < len);
                assert(c[listing[i].0 as int].0 < n);
            }
        }
    }
}

/// The probability that candidate `token` has: the first such candidate's, or
/// `TINY` where there is none.
pub open spec fn probability_of(c: Seq<Candidate>, token: u32) -> Single
    decreases c.len(),
{
    if c.len() == 0 {
        Single { bits: TINY }
    } else if c.first().0 == token {
        c.first().1
    } else {
        probability_of(c.drop_first(), token)
    }
}

fn find_probability(c: &[Candidate], token: u32) -> (p: Single)
    ensures
        p == probability_of(c@, token),
{
    let mut i: usize = 0;
    assert(c@.skip(0) == c@);
    while i < c.len()
        invariant
            i <= c.len(),
            probability_of(c@, token) == probability_of(c@.skip(i as int), token),
        decreases c.len() - i,
    {
        if c[i].0 == token as usize {
            return c[i].1;
        }
        assert(c@.skip(i as int).drop_first() == c@.skip(i + 1));
        i = i + 1;
    }
    Single { bits: TINY }
}

/// A draw as a number of the unit interval without its upper end.
pub open spec fn in_unit(draw: Single) -> Single {
    draw.clamped(Single { bits: ZERO }, Single { bits: BELOW_ONE })
}

/// How many candidates the tail-free filter keeps: all of them where there are
/// at most two or the curve is flat, else those before the tail.
pub open spec fn tail_free_kept(n: int, total: Single, sums: Seq<Single>, z: Single) -> int {
    if n <= 2 || total.less(Single { bits: FLAT }) {
        n
    } else {
        selection::tail_free_count(n, sums, z)
    }
}

/// Tail-free filter. `total` is the sum of the second differences of the
/// candidates' probabilities, and `sums` are their running sums divided by it.
pub fn tail_free_filter(
    candidates: &[Candidate],
    total: Single,
    sums: &[Single],
    z: Single,
) -> (r: Vec<Candidate>)
    requires
        candidates@.len() > 2 ==> candidates@.len() == sums@.len() + 2,
    ensures
        r@ == candidates@.take(tail_free_kept(candidates@.len() as int, total, sums@, z)),
        candidates@.len() > 0 ==> r@.len() > 0 && r@[0] == candidates@[0],
        r@.len() <= candidates@.len(),
{
    if candidates.len() <= 2 || total.is_less(&Single { bits: FLAT }) {
        head_of(candidates, candidates.len())
    } else {
        tail_free_head(candidates, sums, z)
    }
}

impl Sampler {
    /// The temperature is so low that sampling is greedy.
    pub open spec fn greedy(self) -> bool {
        self.temperature.less(Single { bits: MILLIONTH })
    }

    /// The min-p filter is asked.
    pub open spec fn uses_min_p(self, c: Seq<Candidate>) -> bool {
        (Single { bits: ZERO }).less(self.min_p) && c.len() > 0
    }

    /// The tail-free filter is asked.
    pub open spec fn uses_tail_free(self, c: Seq<Candidate>) -> bool {
        (Single { bits: ZERO }).less(self.tfs_z) && self.tfs_z.less(Single { bits: ONE }) && c.len()
            > 2
    }

    /// What comes first: zero for no logits, the greatest logit for a greedy
    /// sampler, and otherwise the scaling.
    pub open spec fn first(self, logits: Seq<Single>) -> NextData {
        if logits.len() == 0 {
            NextData::Token(0)
        } else if self.greedy() {
            NextData::Token(selection::leader(logits) as u32)
        } else {
            NextData::Scale
        }
    }

    /// What follows the min-p filter: the tail-free filter if it is on, else
    /// the softmax.
    pub open spec fn past_min_p(self, c: Seq<Candidate>) -> NextData {
        if self.uses_tail_free(c) {
            NextData::Curve(c)
        } else {
            NextData::Softmax(c)
        }
    }

    /// What follows the scaling of the logits: with Mirostat the softmax of all
    /// of them in descending order; else the top-k go to the first filter that
    /// is on.
    pub open spec fn past_scaling(
        self,
        scaled: Seq<Single>,
        c: Seq<Candidate>,
        next: NextData,
    ) -> bool {
        let n = scaled.len() as int;
        if self.mirostat != MirostatMode::Disabled {
            selection::best_of(scaled, n, n, c) && next == NextData::Softmax(c)
        } else {
            &&& selection::best_of(scaled, n, self.top_k as int, c)
            &&& next == if self.uses_min_p(c) {
                NextData::Relative(c)
            } else {
                self.past_min_p(c)
            }
        }
    }

    /// What follows the softmax for the min-p filter: what is below the
    /// threshold is dropped.
    pub open spec fn past_relative(
        self,
        c: Seq<Candidate>,
        probs: Seq<Single>,
        threshold: Single,
    ) -> NextData {
        self.past_min_p(selection::marked_or_first(c, |i: int| threshold.at_most(probs[i])))
    }

    /// What follows the curve: the tail is cut.
    pub open spec fn past_curve(
        self,
        c: Seq<Candidate>,
        total: Single,
        sums: Seq<Single>,
    ) -> NextData {
        NextData::Softmax(c.take(tail_free_kept(c.len() as int, total, sums, self.tfs_z)))
    }

    /// What follows the softmax: the candidates with their probabilities, which
    /// are sorted by it without Mirostat.
    pub open spec fn past_softmax(
        self,
        c: Seq<Candidate>,
        probs: Seq<Single>,
        ranked: Seq<Candidate>,
        next: NextData,
    ) -> bool {
        match self.mirostat {
            MirostatMode::Disabled => selection::ranked_by(c, probs, ranked) && next
                == NextData::Sums(ranked),
            MirostatMode::V1 => ranked == selection::rescored(c, probs) && next == NextData::Width(
                ranked,
            ),
            MirostatMode::V2 => ranked == selection::rescored(c, probs) && next
                == NextData::Surprise(ranked),
        }
    }

    /// What is drawn from: some candidates, with the next random number.
    pub open spec fn draw_from(self, c: Seq<Candidate>) -> NextData {
        NextData::Draw(c, self.advanced().rng_state >> 11)
    }

    /// What follows the running sums: a draw from the nucleus.
    pub open spec fn past_sums(self, c: Seq<Candidate>, sums: Seq<Single>) -> NextData {
        self.draw_from(c.take(selection::nucleus_count(sums, self.top_p)))
    }

    /// What follows the width: a draw from so many candidates, at least one and
    /// at most all.
    pub open spec fn past_width(self, c: Seq<Candidate>, width: usize) -> NextData {
        self.draw_from(
            c.take(
                if width < 1 {
                    1
                } else if width > c.len() {
                    c.len() as int
                } else {
                    width as int
                },
            ),
        )
    }

    /// What follows the surprise of each candidate: a draw from those within the
    /// bound, or else from the first.
    pub open spec fn past_surprise(self, c: Seq<Candidate>, surprises: Seq<Single>) -> NextData {
        let mu = self.mirostat_mu;
        self.draw_from(selection::marked_or_first(c, |i: int| surprises[i].at_most(mu)))
    }

    /// The token that a draw gives.
    pub open spec fn drawn_token(
        self,
        c: Seq<Candidate>,
        sums: Seq<Single>,
        draw: Single,
    ) -> u32 {
        selection::drawn(c, sums, in_unit(draw)) as u32
    }

    /// The probability by which Mirostat adapts to a token.
    pub open spec fn drawn_probability(
        self,
        c: Seq<Candidate>,
        probs: Seq<Single>,
        token: u32,
    ) -> Option<Single> {
        if self.mirostat == MirostatMode::Disabled {
            None
        } else {
            Some(
                probability_of(selection::rescored(c, probs), token).larger(
                    Single { bits: TINY },
                ),
            )
        }
    }

    /// Starts to sample a token: zero for no logits, the greatest logit if the
    /// temperature is below 1e-6, and otherwise the logits are scaled first.
    pub fn sample(&self, logits: &[Single]) -> (next: Next)
        ensures
            next@ == self.first(logits@),
    {
        if logits.len() == 0 {
            Next::Token(0)
        } else if self.temperature.is_less(&Single { bits: MILLIONTH }) {
            Next::Token(argmax(logits) as u32)
        } else {
            Next::Scale
        }
    }

    fn after_min_p(&self, c: Vec<Candidate>) -> (next: Next)
        ensures
            next@ == self.past_min_p(c@),
            next.candidates() == c@,
    {
        if (Single { bits: ZERO }).is_less(&self.tfs_z) && self.tfs_z.is_less(&Single { bits: ONE })
            && c.len() > 2 {
            Next::Curve(c)
        } else {
            Next::Softmax(c)
        }
    }

    /// Takes the scaled logits.
    pub fn scaled(&self, scaled: &[Single]) -> (next: Next)
        ensures
            exists|c: Seq<Candidate>| #[trigger] self.past_scaling(scaled@, c, next@),
            below(next.candidates(), scaled@.len() as int),
    {
        if self.mirostat != MirostatMode::Disabled {
            let c = top_ranked(scaled, scaled.len());
            let next = Next::Softmax(c);
            assert(self.past_scaling(scaled@, c@, next@));
            return next;
        }
        let k: usize = if self.top_k < scaled.len() {
            self.top_k
        } else {
            scaled.len()
        };
        let c = top_ranked(scaled, k);
        let ghost view = c@;
        assert(selection::best_of(scaled@, scaled@.len() as int, self.top_k as int, view));
        let next = if (Single { bits: ZERO }).is_less(&self.min_p) && c.len() > 0 {
            Next::Relative(c)
        } else {
            self.after_min_p(c)
        };
        assert(self.past_scaling(scaled@, view, next@));
        next
    }

    /// Takes the softmax of the candidates and `min_p` times the largest
    /// probability, and drops what is below that.
    pub fn relative(&self, c: &[Candidate], probs: &[Single], threshold: Single) -> (next: Next)
        requires
            c@.len() == probs@.len(),
            c@.len() > 0,
        ensures
            next@ == self.past_relative(c@, probs@, threshold),
            forall|n: int| #[trigger] below(c@, n) ==> below(next.candidates(), n),
    {
        let kept = min_p_filter(c, probs, threshold);
        proof {
            let mark = |i: int| threshold.at_most(probs@[i]);
            assert forall|n: int| #[trigger] below(c@, n) implies below(kept@, n) by {
                lemma_below(c@, n, mark, probs@);
            }
        }
        self.after_min_p(kept)
    }

    /// Takes the curve of the candidates and cuts their tail.
    pub fn curve(&self, c: &[Candidate], total: Single, sums: &[Single]) -> (next: Next)
        requires
            c@.len() > 2 ==> c@.len() == sums@.len() + 2,
        ensures
            next@ == self.past_curve(c@, total, sums@),
            forall|n: int| #[trigger] below(c@, n) ==> below(next.candidates(), n),
    {
        proof {
            selection::lemma_first_above(sums@, self.tfs_z);
        }
        Next::Softmax(tail_free_filter(c, total, sums, self.tfs_z))
    }

    /// Takes the softmax of the candidates. Without Mirostat they are sorted by
    /// probability.
    pub fn weighted(&self, c: &[Candidate], probs: &[Single]) -> (next: Next)
        requires
            c@.len() == probs@.len(),
        ensures
            self.past_softmax(c@, probs@, next.candidates(), next@),
            next.candidates().len() == c@.len(),
            forall|n: int| #[trigger] below(c@, n) ==> below(next.candidates(), n),
    {
        proof {
            assert forall|n: int| #[trigger] below(c@, n) implies below(selection::rescored(c@, probs@), n) && (
            forall|r: Seq<Candidate>| #[trigger] selection::ranked_by(c@, probs@, r) ==> below(r, n)) by {
                lemma_below(c@, n, |i: int| true, probs@);
            }
        }
        match self.mirostat {
            MirostatMode::Disabled => Next::Sums(rank_by(c, probs)),
            MirostatMode::V1 => Next::Width(rescore(c, probs)),
            MirostatMode::V2 => Next::Surprise(rescore(c, probs)),
        }
    }

    /// Takes the running sums of the ranked probabilities and draws from the
    /// nucleus.
    pub fn summed(&mut self, c: &[Candidate], sums: &[Single]) -> (next: Next)
        requires
            c@.len() == sums@.len(),
        ensures
            *final(self) == old(self).advanced(),
            next@ == old(self).past_sums(c@, sums@),
            forall|n: int| #[trigger] below(c@, n) ==> below(next.candidates(), n),
    {
        proof {
            selection::lemma_first_reaching(sums@, self.top_p);
        }
        let kept = nucleus(c, sums, self.top_p);
        let random = self.next_random();
        Next::Draw(kept, random)
    }

    /// Takes the number of candidates that Mirostat v1 asks for, at least one
    /// and at most all.
    pub fn widened(&mut self, c: &[Candidate], width: usize) -> (next: Next)
        requires
            c@.len() > 0,
        ensures
            *final(self) == old(self).advanced(),
            next@ == old(self).past_width(c@, width),
            forall|n: int| #[trigger] below(c@, n) ==> below(next.candidates(), n),
    {
        let k = clamp_count(width, c.len());
        let kept = head_of(c, k);
        let random = self.next_random();
        Next::Draw(kept, random)
    }

    /// Takes the surprise of each candidate and keeps, for Mirostat v2, those
    /// within the bound, or else the first.
    pub fn surprised(&mut self, c: &[Candidate], surprises: &[Single]) -> (next: Next)
        requires
            c@.len() == surprises@.len(),
            c@.len() > 0,
        ensures
            *final(self) == old(self).advanced(),
            next@ == old(self).past_surprise(c@, surprises@),
            forall|n: int| #[trigger] below(c@, n) ==> below(next.candidates(), n),
    {
        let kept = surprise_filter(c, surprises, self.mirostat_mu);
        proof {
            let mu = self.mirostat_mu;
            let mark = |i: int| surprises@[i].at_most(mu);
            assert forall|n: int| #[trigger] below(c@, n) implies below(kept@, n) by {
                lemma_below(c@, n, mark, surprises@);
            }
        }
        let random = self.next_random();
        Next::Draw(kept, random)
    }

    /// Takes the normalized probabilities of the candidates, their running sums
    /// and the draw, which rounding may have moved up to one: the token, and
    /// with Mirostat its probability, from which the bound on surprise is to be
    /// adapted.
    pub fn drawn(&self, c: &[Candidate], probs: &[Single], sums: &[Single], draw: Single) -> (r: (
        u32,
        Option<Single>,
    ))
        requires
            c@.len() == probs@.len() == sums@.len(),
        ensures
            r.0 == self.drawn_token(c@, sums@, draw),
            r.1 == self.drawn_probability(c@, probs@, r.0),
            forall|n: int| #[trigger]
                below(c@, n) && c@.len() > 0 && n <= u32::MAX + 1 ==> r.0 < n,
    {
        let unit = draw.clamp_to(&Single { bits: ZERO }, &Single { bits: BELOW_ONE });
        let index = draw_index(c, sums, unit);
        let token = index as u32;
        if self.mirostat == MirostatMode::Disabled {
            return (token, None);
        }
        let choices = rescore(c, probs);
        let p = find_probability(choices.as_slice(), token);
        (token, Some(p.maximum(&Single { bits: TINY })))
    }

    /// Takes the adapted bound on surprise.
    pub fn adapt(&mut self, mu: Single)
        ensures
            *final(self) == (Sampler { mirostat_mu: mu, ..*old(self) }),
    {
        self.mirostat_mu = mu;
    }
}

/// `c` lists the candidates with the highest scores, the highest first, and of
/// equal scores the lower index first. What is not a number comes last.
pub open spec fn descends(scores: Seq<Single>, c: Seq<Candidate>) -> bool {
    &&& forall|i: int|
        0 <= i < c.len() ==> (#[trigger] c[i]).0 < scores.len() && c[i].1 == scores[c[i].0 as int]
    &&& forall|i: int, j: int|
        0 <= i < j < c.len() ==> {
            let a = #[trigger] c[i];
            let b = #[trigger] c[j];
            &&& !a.1.less(b.1)
            &&& a.1.nan() ==> b.1.nan()
            &&& b.1.at_most(a.1) && a.1.at_most(b.1) ==> a.0 < b.0
        }
    &&& forall|i: int, m: int|
        0 <= i < c.len() && 0 <= m < scores.len() && (forall|j: int|
            0 <= j < c.len() ==> (#[trigger] c[j]).0 != m) ==> {
            let a = (#[trigger] c[i]).1;
            let b = #[trigger] scores[m];
            &&& !a.less(b)
            &&& a.nan() ==> b.nan()
        }
}

proof fn lemma_best_descend(scores: Seq<Single>, k: int, c: Seq<Candidate>)
    requires
        0 <= k,
        scores.len() <= usize::MAX,
        selection::best_of(scores, scores.len() as int, k, c),
    ensures
        descends(scores, c),
        c.len() == if k < scores.len() {
            k as nat
        } else {
            scores.len()
        },
{
    assert forall|i: int, j: int| 0 <= i < j < c.len() implies {
        let a = #[trigger] c[i];
        let b = #[trigger] c[j];
        &&& !a.1.less(b.1)
        &&& a.1.nan() ==> b.1.nan()
        &&& b.1.at_most(a.1) && a.1.at_most(b.1) ==> a.0 < b.0
    } by {
        assert(selection::stands_before(c[i], c[j]));
    }
    assert forall|i: int, m: int|
        0 <= i < c.len() && 0 <= m < scores.len() && (forall|j: int|
            0 <= j < c.len() ==> (#[trigger] c[j]).0 != m) implies {
        let a = (#[trigger] c[i]).1;
        let b = #[trigger] scores[m];
        &&& !a.less(b)
        &&& a.nan() ==> b.nan()
    } by {
        assert(!selection::listed(c, m));
        assert(selection::stands_before(c[i], selection::candidate(scores, m)));
    }
}

/// Sampling starts in one of three ways: without logits the token is zero, at a
/// temperature below 1e-6 it is the last of the greatest logits, and otherwise the
/// logits are to be scaled.
pub proof fn lemma_sampling_starts(s: &Sampler, logits: &[Single], next: Next)
    requires
        call_ensures(Sampler::sample, (s, logits), next),
    ensures
        logits@.len() == 0 ==> next@ == NextData::Token(0),
        logits@.len() > 0 && !s.temperature.less(Single { bits: 0x3586_37BD }) ==> next@
            == NextData::Scale,
        0 < logits@.len() <= u32::MAX && s.temperature.less(Single { bits: 0x3586_37BD }) && (
        forall|i: int| 0 <= i < logits@.len() ==> !(#[trigger] logits@[i]).nan()) ==> (
        next@ matches NextData::Token(t) && {
            &&& t < logits@.len()
            &&& forall|i: int| 0 <= i < logits@.len() ==> (#[trigger] logits@[i]).at_most(
                logits@[t as int],
            )
            &&& forall|i: int| t < i < logits@.len() ==> (#[trigger] logits@[i]).less(
                logits@[t as int],
            )
        }),
{
    if logits@.len() > 0 && (forall|i: int| 0 <= i < logits@.len() ==> !(#[trigger] logits@[i]).nan()) {
        selection::lemma_leader_is_last_maximum(logits@);
    }
}

/// Behind the scaling, Mirostat takes all candidates in descending order; any
/// other sampler takes as many of them as its top-k allows, and goes to the min-p
/// filter if that is on, else to the tail-free filter if that is on and can cut
/// anything, else to the softmax.
pub proof fn lemma_top_k_is_taken(s: &Sampler, scaled: &[Single], next: Next)
    requires
        call_ensures(Sampler::scaled, (s, scaled), next),
    ensures
        descends(scaled@, next.candidates()),
        next.candidates().len() == if s.mirostat == MirostatMode::Disabled && s.top_k < scaled@.len() {
            s.top_k as nat
        } else {
            scaled@.len()
        },
        ({
            let zero = Single { bits: 0 };
            let one = Single { bits: 0x3F80_0000 };
            let c = next.candidates();
            next@ == if s.mirostat != MirostatMode::Disabled {
                NextData::Softmax(c)
            } else if zero.less(s.min_p) && c.len() > 0 {
                NextData::Relative(c)
            } else if zero.less(s.tfs_z) && s.tfs_z.less(one) && c.len() > 2 {
                NextData::Curve(c)
            } else {
                NextData::Softmax(c)
            }
        }),
{
    let n = scaled@.len() as int;
    assert(scaled.len() == scaled@.len());
    let c = choose|c: Seq<Candidate>| #[trigger] s.past_scaling(scaled@, c, next@);
    assert(c == next.candidates());
    if s.mirostat != MirostatMode::Disabled {
        lemma_best_descend(scaled@, n, c);
    } else {
        lemma_best_descend(scaled@, s.top_k as int, c);
    }
}

/// The min-p filter drops exactly the candidates whose probability is below the
/// threshold, but never all of them; the tail-free filter comes next if it is on.
pub proof fn lemma_min_p_drops_the_unlikely(
    s: &Sampler,
    c: &[Candidate],
    probs: &[Single],
    threshold: Single,
    next: Next,
)
    requires
        c@.len() == probs@.len() > 0,
        call_ensures(Sampler::relative, (s, c, probs, threshold), next),
    ensures
        ({
            let likely = selection::passing(c@, probs@, |p: Single| threshold.at_most(p));
            let kept = if likely.len() > 0 {
                likely
            } else {
                seq![c@[0]]
            };
            next@ == if (Single { bits: 0 }).less(s.tfs_z) && s.tfs_z.less(
                Single { bits: 0x3F80_0000 },
            ) && kept.len() > 2 {
                NextData::Curve(kept)
            } else {
                NextData::Softmax(kept)
            }
        }),
{
    let mark = |i: int| threshold.at_most(probs@[i]);
    selection::lemma_marked_pass(c@, probs@, mark, |p: Single| threshold.at_most(p));
}

/// The tail-free filter keeps a head of the candidates. It keeps all where there
/// are at most two, where the total of the curve is below 1e-12, or where no
/// running sum exceeds the threshold; otherwise the head ends one behind the
/// candidate at which a running sum first exceeds it.
pub proof fn lemma_tail_is_cut(
    s: &Sampler,
    c: &[Candidate],
    total: Single,
    sums: &[Single],
    next: Next,
)
    requires
        c@.len() > 2 ==> c@.len() == sums@.len() + 2,
        call_ensures(Sampler::curve, (s, c, total, sums), next),
    ensures
        next@ matches NextData::Softmax(kept) && {
            &&& kept.len() <= c@.len()
            &&& kept == c@.take(kept.len() as int)
            &&& c@.len() <= 2 || total.less(Single { bits: 0x2B8C_BCCC }) ==> kept == c@
            &&& c@.len() > 2 && !total.less(Single { bits: 0x2B8C_BCCC }) ==> {
                &&& kept.len() >= 2
                &&& forall|i: int| 0 <= i < kept.len() - 2 ==> !s.tfs_z.less(#[trigger] sums@[i])
                &&& kept.len() < c@.len() ==> s.tfs_z.less(sums@[kept.len() - 2])
            }
        },
{
    selection::lemma_first_above(sums@, s.tfs_z);
}

/// The softmax gives each candidate its own probability. Without Mirostat the
/// candidates are sorted by it, the likeliest first; Mirostat leaves them in
/// place and goes on with the width or the surprise.
pub proof fn lemma_softmax_weighs(s: &Sampler, c: &[Candidate], probs: &[Single], next: Next) -> (
    from: Seq<int>)
    requires
        c@.len() == probs@.len(),
        call_ensures(Sampler::weighted, (s, c, probs), next),
    ensures
        next@ == match s.mirostat {
            MirostatMode::Disabled => NextData::Sums(next.candidates()),
            MirostatMode::V1 => NextData::Width(next.candidates()),
            MirostatMode::V2 => NextData::Surprise(next.candidates()),
        },
        from.len() == next.candidates().len() == c@.len(),
        from.no_duplicates(),
        forall|i: int|
            0 <= i < c@.len() ==> 0 <= #[trigger] from[i] < c@.len() && next.candidates()[i] == (
                c@[from[i]].0,
                probs@[from[i]],
            ),
        s.mirostat != MirostatMode::Disabled ==> forall|i: int|
            0 <= i < c@.len() ==> #[trigger] from[i] == i,
        s.mirostat == MirostatMode::Disabled ==> forall|i: int, j: int|
            0 <= i < j < c@.len() ==> {
                let a = (#[trigger] next.candidates()[i]).1;
                let b = (#[trigger] next.candidates()[j]).1;
                &&& !a.less(b)
                &&& a.nan() ==> b.nan()
                &&& b.at_most(a) && a.at_most(b) ==> from[i] < from[j]
            },
{
    let r = next.candidates();
    let n = probs@.len() as int;
    if s.mirostat == MirostatMode::Disabled {
        assert(selection::ranked_by(c@, probs@, r));
        let listing = choose|l: Seq<Candidate>| #[trigger]
            selection::best_of(probs@, n, n, l) && r == selection::relabelled(c@, l);
        let from = Seq::new(listing.len(), |i: int| listing[i].0 as int);
        assert(probs.len() == probs@.len());
        lemma_best_descend(probs@, n, listing);
        assert forall|i: int, j: int|
            0 <= i < from.len() && 0 <= j < from.len() && i != j implies from[i] != from[j] by {
            if i < j {
                assert(selection::stands_before(listing[i], listing[j]));
            } else {
                assert(selection::stands_before(listing[j], listing[i]));
            }
        }
        assert forall|i: int| 0 <= i < c@.len() implies 0 <= #[trigger] from[i] < c@.len() && r[i]
            == (c@[from[i]].0, probs@[from[i]]) by {
            assert(listing[i].0 < n && listing[i].1 == probs@[listing[i].0 as int]);
        }
        assert forall|i: int, j: int| 0 <= i < j < c@.len() implies {
            let a = (#[trigger] r[i]).1;
            let b = (#[trigger] r[j]).1;
            &&& !a.less(b)
            &&& a.nan() ==> b.nan()
            &&& b.at_most(a) && a.at_most(b) ==> from[i] < from[j]
        } by {
            assert(r[i].1 == listing[i].1 && r[j].1 == listing[j].1);
        }
        from
    } else {
        Seq::new(c@.len(), |i: int| i)
    }
}

/// A draw behind the running sums is one from the nucleus: the shortest head whose
/// running probability reaches the top-p threshold, or all candidates where none
/// does.
pub proof fn lemma_nucleus_is_drawn_from(s: Sampler, c: Seq<Candidate>, sums: Seq<Single>)
    requires
        c.len() == sums.len(),
    ensures
        s.past_sums(c, sums) matches NextData::Draw(kept, random) && {
            &&& random == s.advanced().rng_state >> 11
            &&& kept.len() <= c.len()
            &&& kept == c.take(kept.len() as int)
            &&& (exists|i: int| 0 <= i < sums.len() && s.top_p.at_most(#[trigger] sums[i])) ==> {
                &&& kept.len() > 0
                &&& s.top_p.at_most(sums[kept.len() - 1])
                &&& forall|i: int|
                    0 <= i < kept.len() - 1 ==> !s.top_p.at_most(#[trigger] sums[i])
            }
            &&& (forall|i: int| 0 <= i < sums.len() ==> !s.top_p.at_most(#[trigger] sums[i]))
                ==> kept == c
        },
{
    selection::lemma_first_reaching(sums, s.top_p);
}

/// Mirostat v1 draws from the first candidates, as many as the width says but at
/// least one and at most all; Mirostat v2 draws from exactly those whose surprise
/// is within its bound, or from the first where there are none.
pub proof fn lemma_mirostat_draws_from(
    s: Sampler,
    c: Seq<Candidate>,
    width: usize,
    surprises: Seq<Single>,
)
    requires
        c.len() == surprises.len() > 0,
    ensures
        s.past_width(c, width) matches NextData::Draw(kept, random) && {
            &&& random == s.advanced().rng_state >> 11
            &&& 1 <= kept.len() <= c.len()
            &&& kept == c.take(kept.len() as int)
            &&& 1 <= width <= c.len() ==> kept.len() == width
            &&& width < 1 ==> kept.len() == 1
            &&& width > c.len() ==> kept == c
        },
        s.past_surprise(c, surprises) matches NextData::Draw(kept, random) && {
            let expected = selection::passing(c, surprises, |x: Single| x.at_most(s.mirostat_mu));
            &&& random == s.advanced().rng_state >> 11
            &&& expected.len() > 0 ==> kept == expected
            &&& expected.len() == 0 ==> kept == seq![c[0]]
        },
{
    let mu = s.mirostat_mu;
    let mark = |i: int| surprises[i].at_most(mu);
    selection::lemma_marked_pass(c, surprises, mark, |x: Single| x.at_most(s.mirostat_mu));
}

/// The token of a draw is the first candidate whose running probability is at
/// least the draw, or the last one where none is; the draw counts as below one.
/// With Mirostat the probability of that candidate is told, but at least 1e-10.
pub proof fn lemma_token_is_drawn(
    s: &Sampler,
    c: &[Candidate],
    probs: &[Single],
    sums: &[Single],
    draw: Single,
    p: int,
    r: (u32, Option<Single>),
)
    requires
        c@.len() == probs@.len() == sums@.len(),
        call_ensures(Sampler::drawn, (s, c, probs, sums, draw), r),
        below(c@, u32::MAX as int),
        forall|i: int, j: int| 0 <= i < j < c@.len() ==> (#[trigger] c@[i]).0 != (#[trigger] c@[j]).0,
        (Single { bits: 0 }).at_most(draw),
        0 <= p < sums@.len(),
        ({
            let unit = if draw.less(Single { bits: 0x3F80_0000 }) {
                draw
            } else {
                Single { bits: 0x3F7F_FFFF }
            };
            &&& forall|i: int| 0 <= i < p ==> !unit.at_most(#[trigger] sums@[i])
            &&& unit.at_most(sums@[p]) || p == sums@.len() - 1
        }),
    ensures
        r.0 == c@[p].0,
        s.mirostat == MirostatMode::Disabled ==> r.1 is None,
        s.mirostat != MirostatMode::Disabled ==> r.1 == Some(
            if probs@[p].nan() || probs@[p].less(Single { bits: 0x2EDB_E6FF }) {
                Single { bits: 0x2EDB_E6FF }
            } else {
                probs@[p]
            },
        ),
{
    let unit = in_unit(draw);
    selection::lemma_first_reaching(sums@, unit);
    let q = selection::first_reaching(sums@, unit);
    if q < p {
        assert(!unit.at_most(sums@[q]));
    }
    if p < q {
        assert(!unit.at_most(sums@[p]));
    }
    assert(c@[p].0 < u32::MAX);
    let choices = selection::rescored(c@, probs@);
    lemma_probability_found(choices, r.0, p);
}

proof fn lemma_probability_found(c: Seq<Candidate>, token: u32, p: int)
    requires
        0 <= p < c.len(),
        c[p].0 == token,
        forall|i: int| 0 <= i < p ==> (#[trigger] c[i]).0 != token,
    ensures
        probability_of(c, token) == c[p].1,
    decreases c.len(),
{
    if p > 0 {
        let rest = c.drop_first();
        assert(c[0].0 != token);
        assert forall|i: int| 0 <= i < p - 1 implies (#[trigger] rest[i]).0 != token by {
            assert(rest[i] == c[i + 1]);
        }
        lemma_probability_found(rest, token, p - 1);
    }
}

proof fn lemma_occurrences_count(tokens: Seq<u32>, t: u32)
    ensures
        occurrences(tokens, t) == tokens.to_multiset().count(t),
    decreases tokens.len(),
{
    broadcast use vstd::seq_lib::group_to_multiset_ensures;

    if tokens.len() > 0 {
        lemma_occurrences_count(tokens.drop_last(), t);
        assert(tokens == tokens.drop_last().push(tokens.last()));
    } else {
        assert(!tokens.contains(t));
    }
}

/// Unless all penalties are idle, each token that occurred and has a logit is
/// penalized exactly once, with the number of its occurrences. A repetition
/// penalty other than one divides a positive logit and multiplies any other.
pub proof fn lemma_penalties_fall_on_occurred(
    s: &Sampler,
    logits: &[Single],
    tokens: &[u32],
    offset: Single,
    r: Vec<Penalty>,
)
    requires
        tokens@.len() <= u32::MAX,
        call_ensures(Sampler::apply_penalties, (s, logits, tokens, offset), r),
    ensures
        ({
            let small = |x: Single| x.absolute().less(Single { bits: 0x3586_37BD });
            let one = Single { bits: 0x3F80_0000 };
            let idle = small(offset) && small(s.frequency_penalty) && small(s.presence_penalty);
            &&& idle ==> r@.len() == 0
            &&& forall|i: int, j: int|
                0 <= i < j < r@.len() ==> (#[trigger] r@[i]).index != (#[trigger] r@[j]).index
            &&& forall|i: int|
                0 <= i < r@.len() ==> {
                    let p = #[trigger] r@[i];
                    &&& p.index < logits@.len()
                    &&& p.index <= u32::MAX
                    &&& tokens@.contains(p.index as u32)
                    &&& p.count == tokens@.to_multiset().count(p.index as u32)
                    &&& p.scaling == if s.repetition_penalty.at_most(one) && one.at_most(
                        s.repetition_penalty,
                    ) {
                        Scaling::Keep
                    } else if (Single { bits: 0 }).less(logits@[p.index as int]) {
                        Scaling::Divide
                    } else {
                        Scaling::Multiply
                    }
                }
            &&& !idle ==> forall|t: u32| #[trigger]
                tokens@.contains(t) && t < logits@.len() ==> exists|i: int|
                    0 <= i < r@.len() && (#[trigger] r@[i]).index == t
        }),
{
    let list = firsts(tokens@, logits@.len());
    lemma_firsts(tokens@, logits@.len());
    if !s.penalties_idle(offset) {
        assert forall|i: int| 0 <= i < r@.len() implies {
            let p = #[trigger] r@[i];
            &&& p.index < logits@.len()
            &&& p.index <= u32::MAX
            &&& tokens@.contains(p.index as u32)
            &&& p.count == tokens@.to_multiset().count(p.index as u32)
        } by {
            assert(list.contains(list[i]));
            lemma_occurrences_count(tokens@, list[i]);
            lemma_occurrences_bounded(tokens@, list[i]);
        }
        assert forall|t: u32| #[trigger]
            tokens@.contains(t) && t < logits@.len() implies exists|i: int|
            0 <= i < r@.len() && (#[trigger] r@[i]).index == t by {
            assert(list.contains(t));
            let i = choose|i: int| 0 <= i < list.len() && list[i] == t;
            assert(r@[i].index == t);
        }
    }
}

proof fn lemma_occurrences_bounded(tokens: Seq<u32>, t: u32)
    ensures
        occurrences(tokens, t) <= tokens.len(),
    decreases tokens.len(),
{
    if tokens.len() > 0 {
        lemma_occurrences_bounded(tokens.drop_last(), t);
    }
}

/// The state of the generator before a step can be told from the state behind it:
/// the three shifts are undone in reverse.
pub proof fn lemma_xorshift_is_undone(s: u64)
    ensures
        ({
            let c = xorshift(s);
            let b = c ^ (c << 17) ^ (c << 34) ^ (c << 51);
            let b2 = b ^ (b >> 7);
            let b4 = b2 ^ (b2 >> 14);
            let b8 = b4 ^ (b4 >> 28);
            let a = b8 ^ (b8 >> 56);
            s == a ^ (a << 13) ^ (a << 26) ^ (a << 39) ^ (a << 52)
        }),
{
    assert(forall|x: u64|
        {
            let c = #[trigger] (x ^ (x << 17));
            x == c ^ (c << 17) ^ (c << 34) ^ (c << 51)
        }) by (bit_vector);
    assert(forall|x: u64|
        {
            let b = #[trigger] (x ^ (x >> 7));
            let b2 = b ^ (b >> 7);
            let b4 = b2 ^ (b2 >> 14);
            let b8 = b4 ^ (b4 >> 28);
            x == b8 ^ (b8 >> 56)
        }) by (bit_vector);
    assert(forall|x: u64|
        {
            let a = #[trigger] (x ^ (x << 13));
            x == a ^ (a << 13) ^ (a << 26) ^ (a << 39) ^ (a << 52)
        }) by (bit_vector);
}

/// No single-precision number is closer to `n / d` than `x`: it is off by at most
/// half the spacing of such numbers there.
pub open spec fn is_nearest(x: Single, n: int, d: int) -> bool {
    let spacing = pow2((x.magnitude() / 0x80_0000 - 1) as nat);
    let off = d * single::value(x) - n * pow2(149);
    -(d * spacing) <= 2 * off <= d * spacing
}

/// A number that is off by at most half its last place is nearest.
pub proof fn lemma_nearest(x: Single, n: int, d: int)
    requires
        0 < d,
        0x80_0000 <= x.bits < 0x4B80_0000,
        ({
            let e = x.bits as int / 0x80_0000;
            let off = d * (x.bits as int % 0x80_0000 + 0x80_0000) - n * pow2((150 - e) as nat);
            -d <= 2 * off <= d
        }),
    ensures
        is_nearest(x, n, d),
{
    let e = x.bits as int / 0x80_0000;
    let f = x.bits as int % 0x80_0000 + 0x80_0000;
    let p = pow2((e - 1) as nat) as int;
    let q = pow2((150 - e) as nat) as int;
    lemma_pow2_adds((e - 1) as nat, (150 - e) as nat);
    lemma_pow2_pos((e - 1) as nat);
    assert(pow2(149) == p * q);
    assert(single::value(x) == f * p);
    let off = d * f - n * q;
    assert(d * (f * p) - n * (p * q) == off * p) by (nonlinear_arith)
        requires
            off == d * f - n * q,
    ;
    assert(-(d * p) <= 2 * (off * p) <= d * p) by (nonlinear_arith)
        requires
            -d <= 2 * off <= d,
            p > 0,
    ;
}

/// The constants are the numbers that they are named for.
pub proof fn lemma_constants()
    ensures
        is_nearest(Single { bits: ONE }, 1, 1),
        is_nearest(Single { bits: HUNDREDTH }, 1, 100),
        is_nearest(Single { bits: TENTH }, 1, 10),
        is_nearest(Single { bits: NINE_TENTHS }, 9, 10),
        is_nearest(Single { bits: FIVE }, 5, 1),
        is_nearest(Single { bits: TEN }, 10, 1),
        is_nearest(Single { bits: MILLIONTH }, 1, 1_000_000),
        is_nearest(Single { bits: TINY }, 1, 10_000_000_000),
        is_nearest(Single { bits: FLAT }, 1, 1_000_000_000_000),
        single::value(Single { bits: ZERO }) == 0,
        BELOW_ONE + 1 == ONE,
{
    lemma2_to64();
    lemma2_to64_rest();
    lemma_nearest(Single { bits: ONE }, 1, 1);
    lemma_nearest(Single { bits: HUNDREDTH }, 1, 100);
    lemma_nearest(Single { bits: TENTH }, 1, 10);
    lemma_nearest(Single { bits: NINE_TENTHS }, 9, 10);
    lemma_nearest(Single { bits: FIVE }, 5, 1);
    lemma_nearest(Single { bits: TEN }, 10, 1);
    lemma_nearest(Single { bits: MILLIONTH }, 1, 1_000_000);
    lemma_nearest(Single { bits: TINY }, 1, 10_000_000_000);
    lemma_nearest(Single { bits: FLAT }, 1, 1_000_000_000_000);
}

/// A sampler that was made with a temperature, a top-k and a top-p alone does
/// nothing else: it has no penalties, and behind the scaling it goes straight to
/// the softmax.
pub proof fn lemma_plain_sampler_has_no_filters(
    temperature: Single,
    top_k: usize,
    top_p: Single,
    nanos: u64,
    s: Sampler,
)
    requires
        call_ensures(Sampler::new, (temperature, top_k, top_p, nanos), s),
    ensures
        s.temperature == temperature,
        s.top_k == top_k,
        s.top_p == top_p,
        s.mirostat == MirostatMode::Disabled,
        forall|offset: Single|
            #![trigger s.penalties_idle(offset)]
            single::value(offset) == 0 && offset.finite() ==> s.penalties_idle(offset),
        forall|scaled: Seq<Single>, c: Seq<Candidate>, next: NextData| #[trigger]
            s.past_scaling(scaled, c, next) ==> next == NextData::Softmax(c),
        forall|logit: Single| #[trigger] s.scaling_of(logit) == Scaling::Keep,
        s.rng_state ^ nanos == 0x517c_c1b7_2722_0a95,
{
    assert((nanos ^ 0x517c_c1b7_2722_0a95u64) ^ nanos == 0x517c_c1b7_2722_0a95u64) by (bit_vector);
    assert forall|offset: Single| single::value(offset) == 0 && offset.finite() implies #[trigger] s.penalties_idle(
        offset,
    ) by {
        let zero = Single { bits: 0 };
        assert(single::value(zero) == 0);
        single::lemma_comparison_is_numeric(offset, zero);
        single::lemma_comparison_is_numeric(zero, offset);
        assert(offset.key() == 0);
    }
}

/// Each constructor takes its parameters as they are but for these bounds: the
/// repetition penalty is at least 0.01, min-p, the tail-free threshold and the
/// learning rate lie between zero and one, and the target surprise is not
/// negative. What is not named stays as in a plain sampler.
pub proof fn lemma_parameters_are_bounded(
    temperature: Single,
    top_k: usize,
    top_p: Single,
    extra: Single,
    repetition: Single,
    frequency: Single,
    presence: Single,
    nanos: u64,
    made: (Sampler, Sampler, Sampler, Sampler),
)
    requires
        call_ensures(Sampler::new, (temperature, top_k, top_p, nanos), made.0),
        call_ensures(
            Sampler::with_penalties,
            (temperature, top_k, top_p, repetition, frequency, presence, nanos),
            made.1,
        ),
        call_ensures(
            Sampler::with_min_p,
            (temperature, top_k, top_p, extra, repetition, frequency, presence, nanos),
            made.2,
        ),
        call_ensures(
            Sampler::with_tfs,
            (temperature, top_k, top_p, extra, repetition, frequency, presence, nanos),
            made.3,
        ),
        !repetition.nan(),
        !extra.nan(),
    ensures
        made.1 == (Sampler {
            repetition_penalty: made.1.repetition_penalty,
            frequency_penalty: frequency,
            presence_penalty: presence,
            ..made.0
        }),
        (Single { bits: 0x3C23_D70A }).at_most(made.1.repetition_penalty),
        (Single { bits: 0x3C23_D70A }).at_most(repetition) ==> made.1.repetition_penalty
            == repetition,
        made.2 == (Sampler { min_p: made.2.min_p, ..made.1 }),
        made.3 == (Sampler { tfs_z: made.2.min_p, ..made.1 }),
        (Single { bits: 0 }).at_most(made.2.min_p),
        made.2.min_p.at_most(Single { bits: 0x3F80_0000 }),
        (Single { bits: 0 }).at_most(extra) && extra.at_most(Single { bits: 0x3F80_0000 })
            ==> made.2.min_p == extra,
        extra.less(Single { bits: 0 }) ==> made.2.min_p.bits == 0,
{
}

/// A Mirostat sampler starts with a bound of twice the target surprise.
pub proof fn lemma_mirostat_is_made(
    temperature: Single,
    mode: MirostatMode,
    tau: Single,
    eta: Single,
    nanos: u64,
    s: Sampler,
    seed: u64,
    seeded: Sampler,
)
    requires
        call_ensures(Sampler::with_mirostat, (temperature, mode, tau, eta, nanos), s),
        call_ensures(Sampler::with_seed, (s, seed), seeded),
        !eta.nan(),
        tau.finite(),
        tau.doubled().finite(),
    ensures
        s.temperature == temperature && s.mirostat == mode && s.top_k == 40,
        single::value(s.mirostat_mu) == 2 * single::value(tau),
        (Single { bits: 0 }).at_most(tau) ==> s.mirostat_tau == tau,
        tau.less(Single { bits: 0 }) ==> s.mirostat_tau.bits == 0,
        (Single { bits: 0 }).at_most(s.mirostat_eta),
        s.mirostat_eta.at_most(Single { bits: 0x3F80_0000 }),
        (Single { bits: 0 }).at_most(eta) && eta.at_most(Single { bits: 0x3F80_0000 })
            ==> s.mirostat_eta == eta,
        forall|logit: Single| #[trigger] s.scaling_of(logit) == Scaling::Keep,
        seeded == (Sampler { rng_state: seeded.rng_state, ..s }),
        seeded.rng_state ^ seed == s.rng_state ^ nanos,
{
    single::lemma_doubling_is_exact(tau);
    assert(forall|a: u64, m: u64| #[trigger] (a ^ m) ^ a == m) by (bit_vector);
}

} // verus!
