//! A whole sampling, from the logits to the token, and what holds of it.
//!
//! The steps of a sampler ask for arithmetic. Here the arithmetic is a
//! parameter: a function for each thing that a step may ask for.
use crate::constraint;
use crate::sampler::{self, MirostatMode, NextData, Sampler};
use crate::selection::{self, Candidate};
use crate::single::{Single, NEG_INFINITY_BITS};
use vstd::prelude::*;

verus! {

/// The arithmetic that sampling asks for.
pub struct Arithmetic {
    /// Logits divided by a temperature.
    pub scale: spec_fn(Single, Seq<Single>) -> Seq<Single>,
    /// The softmax of the candidates' scores.
    pub softmax: spec_fn(Seq<Candidate>) -> Seq<Single>,
    /// A number times the greatest probability.
    pub threshold: spec_fn(Single, Seq<Single>) -> Single,
    /// The total of the second differences of probabilities, and their running
    /// sums divided by it.
    pub curve: spec_fn(Seq<Single>) -> (Single, Seq<Single>),
    /// Running sums.
    pub sums: spec_fn(Seq<Single>) -> Seq<Single>,
    /// The number of candidates by Zipf's law, for a bound on surprise and a
    /// number of logits.
    pub width: spec_fn(Single, Seq<Candidate>, nat) -> usize,
    /// The surprise of each candidate's score.
    pub surprises: spec_fn(Seq<Candidate>) -> Seq<Single>,
    /// The candidates' scores divided by their total.
    pub shares: spec_fn(Seq<Candidate>) -> Seq<Single>,
    /// A random number scaled into the unit interval.
    pub unit: spec_fn(u64) -> Single,
    /// The bound on surprise after a token of some probability.
    pub adapt: spec_fn(Sampler, Single) -> Single,
}

/// The scores of candidates.
pub open spec fn scores(c: Seq<Candidate>) -> Seq<Single> {
    c.map_values(|x: Candidate| x.1)
}

/// A sampler, with the step that is due.
pub type Moment = (Sampler, NextData);

impl Arithmetic {
    /// One step of a sampling leads from a moment to the next: the sampler takes
    /// what it asked for.
    pub open spec fn steps(self, logits: Seq<Single>, before: Moment, after: Moment) -> bool {
        let s = before.0;
        match before.1 {
            NextData::Token(_) => false,
            NextData::Scale => {
                let scaled = (self.scale)(s.temperature, logits);
                &&& after.0 == s
                &&& scaled.len() <= usize::MAX
                &&& exists|c: Seq<Candidate>| #[trigger] s.past_scaling(scaled, c, after.1)
            },
            NextData::Relative(c) => {
                let probs = (self.softmax)(c);
                after == (s, s.past_relative(c, probs, (self.threshold)(s.min_p, probs)))
            },
            NextData::Curve(c) => {
                let (total, sums) = (self.curve)((self.softmax)(c));
                after == (s, s.past_curve(c, total, sums))
            },
            NextData::Softmax(c) => {
                let probs = (self.softmax)(c);
                &&& after.0 == s
                &&& probs.len() <= usize::MAX
                &&& exists|ranked: Seq<Candidate>| #[trigger]
                    s.past_softmax(c, probs, ranked, after.1)
            },
            NextData::Sums(c) => after == (s.advanced(), s.past_sums(c, (self.sums)(scores(c)))),
            NextData::Width(c) => {
                let width = (self.width)(s.mirostat_mu, c, logits.len());
                after == (s.advanced(), s.past_width(c, width))
            },
            NextData::Surprise(c) => after == (
                s.advanced(),
                s.past_surprise(c, (self.surprises)(c)),
            ),
            NextData::Draw(c, random) => {
                let probs = (self.shares)(c);
                let token = s.drawn_token(c, (self.sums)(probs), (self.unit)(random));
                &&& after.1 == NextData::Token(token)
                &&& after.0 == match s.drawn_probability(c, probs, token) {
                    Some(p) => Sampler { mirostat_mu: (self.adapt)(s, p), ..s },
                    None => s,
                }
            },
        }
    }

    /// The moments of a sampling: it begins with the first step of the sampler
    /// and ends with a token.
    pub open spec fn samples(self, s: Sampler, logits: Seq<Single>, moments: Seq<Moment>) -> bool {
        &&& moments.len() > 0
        &&& moments[0] == (s, s.first(logits))
        &&& forall|i: int|
            0 <= i < moments.len() - 1 ==> self.steps(logits, #[trigger] moments[i], moments[i + 1])
        &&& moments.last().1 is Token
    }

    /// The moments of several samplings, one after the other with the same
    /// sampler.
    pub open spec fn samples_all(
        self,
        s: Sampler,
        inputs: Seq<Seq<Single>>,
        runs: Seq<Seq<Moment>>,
    ) -> bool {
        &&& runs.len() == inputs.len()
        &&& forall|j: int|
            0 <= j < runs.len() ==> self.samples(
                sampler_before(s, runs, j),
                inputs[j],
                #[trigger] runs[j],
            )
    }
}

/// The sampler before sampling `j`.
pub open spec fn sampler_before(s: Sampler, runs: Seq<Seq<Moment>>, j: int) -> Sampler {
    if j <= 0 {
        s
    } else {
        runs[j - 1].last().0
    }
}

/// The tokens of several samplings.
pub open spec fn tokens(runs: Seq<Seq<Moment>>) -> Seq<u32> {
    runs.map_values(|r: Seq<Moment>| r.last().1->Token_0)
}

/// A step has one outcome.
proof fn lemma_step_determined(
    a: Arithmetic,
    logits: Seq<Single>,
    before: Moment,
    x: Moment,
    y: Moment,
)
    requires
        a.steps(logits, before, x),
        a.steps(logits, before, y),
    ensures
        x == y,
{
    let s = before.0;
    match before.1 {
        NextData::Scale => {
            let scaled = (a.scale)(s.temperature, logits);
            let c = choose|c: Seq<Candidate>| #[trigger] s.past_scaling(scaled, c, x.1);
            let d = choose|d: Seq<Candidate>| #[trigger] s.past_scaling(scaled, d, y.1);
            let k = if s.mirostat != MirostatMode::Disabled {
                scaled.len() as int
            } else {
                s.top_k as int
            };
            selection::lemma_ranking_unique(scaled, k, c, d);
        },
        NextData::Softmax(c) => {
            let probs = (a.softmax)(c);
            let r = choose|r: Seq<Candidate>| #[trigger] s.past_softmax(c, probs, r, x.1);
            let q = choose|q: Seq<Candidate>| #[trigger] s.past_softmax(c, probs, q, y.1);
            if s.mirostat == MirostatMode::Disabled {
                selection::lemma_rank_by_unique(c, probs, r, q);
            }
        },
        _ => {},
    }
}

/// A sampler and its logits determine every moment of a sampling, and so the
/// token and the sampler behind it.
pub proof fn lemma_sampling_determined(
    a: Arithmetic,
    s: Sampler,
    logits: Seq<Single>,
    x: Seq<Moment>,
    y: Seq<Moment>,
)
    requires
        a.samples(s, logits, x),
        a.samples(s, logits, y),
    ensures
        x == y,
{
    let n = if x.len() <= y.len() {
        x.len() as int
    } else {
        y.len() as int
    };
    lemma_same_beginning(a, s, logits, x, y, n);
    if x.len() < y.len() {
        assert(a.steps(logits, y[n - 1], y[n - 1 + 1]));
        assert(x[n - 1] == y[n - 1]);
    } else if y.len() < x.len() {
        assert(a.steps(logits, x[n - 1], x[n - 1 + 1]));
        assert(x[n - 1] == y[n - 1]);
    }
    assert(x == y);
}

proof fn lemma_same_beginning(
    a: Arithmetic,
    s: Sampler,
    logits: Seq<Single>,
    x: Seq<Moment>,
    y: Seq<Moment>,
    n: int,
)
    requires
        a.samples(s, logits, x),
        a.samples(s, logits, y),
        0 <= n <= x.len(),
        n <= y.len(),
    ensures
        forall|i: int| 0 <= i < n ==> #[trigger] x[i] == y[i],
    decreases n,
{
    if n > 1 {
        lemma_same_beginning(a, s, logits, x, y, n - 1);
        assert(a.steps(logits, x[n - 2], x[n - 2 + 1]));
        assert(a.steps(logits, y[n - 2], y[n - 2 + 1]));
        lemma_step_determined(a, logits, x[n - 2], x[n - 1], y[n - 1]);
    }
}

impl Sampler {
    /// The samplers agree but for the states of their generators.
    pub open spec fn agrees(self, other: Sampler) -> bool {
        self == (Sampler { rng_state: self.rng_state, ..other })
    }
}

/// Samplers that were made alike agree, whenever they were made.
pub proof fn lemma_made_alike(
    temperature: Single,
    top_k: usize,
    top_p: Single,
    penalties: (Single, Single, Single),
    mirostat: (MirostatMode, Single, Single),
    min_p: Single,
    tfs_z: Single,
    nanos: u64,
    later: u64,
)
    ensures
        sampler::plain(temperature, top_k, top_p, nanos).agrees(
            sampler::plain(temperature, top_k, top_p, later),
        ),
        ({
            let early = sampler::penalized(
                temperature,
                top_k,
                top_p,
                penalties.0,
                penalties.1,
                penalties.2,
                nanos,
            );
            let late = sampler::penalized(
                temperature,
                top_k,
                top_p,
                penalties.0,
                penalties.1,
                penalties.2,
                later,
            );
            &&& early.agrees(late)
            &&& (Sampler { min_p, ..early }).agrees(Sampler { min_p, ..late })
            &&& (Sampler { tfs_z, ..early }).agrees(Sampler { tfs_z, ..late })
        }),
        sampler::mirostatic(temperature, mirostat.0, mirostat.1, mirostat.2, nanos).agrees(
            sampler::mirostatic(temperature, mirostat.0, mirostat.1, mirostat.2, later),
        ),
{
}

/// The same seed gives the same tokens: samplers that agree and get the same
/// seed go through the same moments on the same inputs.
pub proof fn lemma_same_seed_same_tokens(
    a: Arithmetic,
    s: Sampler,
    t: Sampler,
    seed: u64,
    inputs: Seq<Seq<Single>>,
    x: Seq<Seq<Moment>>,
    y: Seq<Seq<Moment>>,
)
    requires
        s.agrees(t),
        a.samples_all(s.seeded(seed), inputs, x),
        a.samples_all(t.seeded(seed), inputs, y),
    ensures
        x == y,
        tokens(x) == tokens(y),
{
    assert(s.seeded(seed) == t.seeded(seed));
    lemma_same_runs(a, s.seeded(seed), inputs, x, y, x.len() as int);
    assert(x == y);
}

proof fn lemma_same_runs(
    a: Arithmetic,
    s: Sampler,
    inputs: Seq<Seq<Single>>,
    x: Seq<Seq<Moment>>,
    y: Seq<Seq<Moment>>,
    n: int,
)
    requires
        a.samples_all(s, inputs, x),
        a.samples_all(s, inputs, y),
        0 <= n <= x.len(),
    ensures
        forall|j: int| 0 <= j < n ==> #[trigger] x[j] == y[j],
    decreases n,
{
    if n > 0 {
        lemma_same_runs(a, s, inputs, x, y, n - 1);
        assert(sampler_before(s, x, n - 1) == sampler_before(s, y, n - 1));
        lemma_sampling_determined(
            a,
            sampler_before(s, x, n - 1),
            inputs[n - 1],
            x[n - 1],
            y[n - 1],
        );
    }
}

/// A min-p threshold that is positive and at most one.
pub open spec fn in_use(min_p: Single) -> bool {
    (Single { bits: sampler::ZERO }).less(min_p) && min_p.at_most(Single { bits: sampler::ONE })
}

/// The first candidate has a finite score, and no score is greater.
pub open spec fn is_led(c: Seq<Candidate>) -> bool {
    &&& c.len() > 0
    &&& c[0].1.finite()
    &&& forall|i: int| 0 <= i < c.len() ==> (#[trigger] c[i]).1.at_most(c[0].1)
}

/// A finite number that is zero or positive.
pub open spec fn not_negative(x: Single) -> bool {
    x.finite() && x.key() >= 0
}

impl Arithmetic {
    /// The logits at negative infinity stay there, and the others stay finite.
    pub open spec fn keeps_infinity(self, temperature: Single, logits: Seq<Single>) -> bool {
        let scaled = (self.scale)(temperature, logits);
        &&& scaled.len() == logits.len()
        &&& forall|i: int|
            0 <= i < logits.len() ==> if logits[i].bits == NEG_INFINITY_BITS {
                (#[trigger] scaled[i]).bits == NEG_INFINITY_BITS
            } else {
                scaled[i].finite()
            }
    }

    /// The softmax of candidates with a finite greatest score: no probability is
    /// negative, that of the greatest score is positive and the greatest, and
    /// that of negative infinity is zero.
    pub open spec fn weighs(self, c: Seq<Candidate>) -> bool {
        let probs = (self.softmax)(c);
        &&& probs.len() == c.len()
        &&& probs[0].key() > 0
        &&& forall|i: int|
            0 <= i < c.len() ==> {
                &&& not_negative(#[trigger] probs[i])
                &&& probs[i].at_most(probs[0])
                &&& c[i].1.bits == NEG_INFINITY_BITS ==> probs[i].key() == 0
            }
    }

    /// Running sums of numbers that are not negative: there is one for each, and
    /// a zero adds nothing.
    pub open spec fn adds_up(self, p: Seq<Single>) -> bool {
        let sums = (self.sums)(p);
        &&& sums.len() == p.len()
        &&& forall|i: int|
            0 < i < p.len() && p[i].key() == 0 ==> #[trigger] sums[i] == sums[i - 1]
    }

    /// What holds of the arithmetic of single-precision numbers, as far as
    /// sampling from masked logits rests on it.
    pub open spec fn is_sound(self, min_p: Single) -> bool {
        &&& forall|c: Seq<Candidate>| #[trigger] is_led(c) ==> self.weighs(c)
        &&& forall|c: Seq<Candidate>| #[trigger]
            is_led(c) && in_use(min_p) ==> (self.threshold)(min_p, (self.softmax)(c)).at_most(
                (self.softmax)(c)[0],
            )
        &&& forall|p: Seq<Single>|
            p.len() > 2 ==> (#[trigger] (self.curve)(p)).1.len() + 2 == p.len()
        &&& forall|p: Seq<Single>|
            (forall|i: int| 0 <= i < p.len() ==> not_negative(#[trigger] p[i]))
                ==> #[trigger] self.adds_up(p)
        &&& forall|c: Seq<Candidate>|
            (forall|i: int| 0 <= i < c.len() ==> not_negative((#[trigger] c[i]).1))
                ==> (#[trigger] (self.shares)(c)).len() == c.len() && (forall|i: int|
                0 <= i < c.len() ==> not_negative(#[trigger] (self.shares)(c)[i]))
    }
}

/// A candidate whose token is allowed.
pub open spec fn is_allowed(allowed: Seq<u32>, x: Candidate) -> bool {
    allowed.contains(x.0 as u32)
}

/// Candidates that are led by an allowed one, and of which the others stand at
/// negative infinity.
spec fn leads_allowed(allowed: Seq<u32>, c: Seq<Candidate>) -> bool {
    &&& is_led(c)
    &&& is_allowed(allowed, c[0])
    &&& forall|i: int|
        0 <= i < c.len() && !is_allowed(allowed, #[trigger] c[i]) ==> c[i].1.bits
            == NEG_INFINITY_BITS
}

/// Candidates by descending probability, where what is not allowed has none.
spec fn weighs_allowed(allowed: Seq<u32>, r: Seq<Candidate>) -> bool {
    &&& r.len() > 0
    &&& r[0].1.key() > 0
    &&& forall|i: int| 0 <= i < r.len() ==> not_negative((#[trigger] r[i]).1)
    &&& forall|i: int, j: int|
        0 <= i < j < r.len() ==> (#[trigger] r[i]).1.key() >= (#[trigger] r[j]).1.key()
    &&& forall|i: int|
        0 <= i < r.len() && !is_allowed(allowed, #[trigger] r[i]) ==> r[i].1.key() == 0
}

/// Some candidates, all of them allowed.
spec fn all_allowed(allowed: Seq<u32>, c: Seq<Candidate>) -> bool {
    &&& c.len() > 0
    &&& forall|i: int| 0 <= i < c.len() ==> is_allowed(allowed, #[trigger] c[i])
    &&& forall|i: int| 0 <= i < c.len() ==> not_negative((#[trigger] c[i]).1)
}

/// What holds at each moment of a sampling from masked logits.
spec fn stays_allowed(allowed: Seq<u32>, s: Sampler, next: NextData) -> bool {
    match next {
        NextData::Token(t) => allowed.contains(t),
        NextData::Scale => !s.greedy(),
        NextData::Relative(c) => leads_allowed(allowed, c) && s.uses_min_p(c),
        NextData::Curve(c) => leads_allowed(allowed, c) && c.len() > 2,
        NextData::Softmax(c) => leads_allowed(allowed, c),
        NextData::Sums(r) => weighs_allowed(allowed, r),
        NextData::Draw(c, _) => all_allowed(allowed, c),
        _ => false,
    }
}

/// The greatest of scaled masked logits belongs to an allowed token.
proof fn lemma_best_is_allowed(
    allowed: Seq<u32>,
    scaled: Seq<Single>,
    k: int,
    c: Seq<Candidate>,
    token: int,
)
    requires
        k >= 1,
        scaled.len() <= usize::MAX,
        selection::best_of(scaled, scaled.len() as int, k, c),
        0 <= token < scaled.len(),
        allowed.contains(token as u32),
        forall|i: int|
            0 <= i < scaled.len() ==> if allowed.contains(i as u32) {
                (#[trigger] scaled[i]).finite()
            } else {
                scaled[i].bits == NEG_INFINITY_BITS
            },
    ensures
        leads_allowed(allowed, c),
{
    let lead = c[0];
    assert(lead.0 < scaled.len() && lead.1 == scaled[lead.0 as int]);
    assert(scaled[token].rank() <= lead.1.rank()) by {
        if selection::listed(c, token) {
            let j = choose|j: int| 0 <= j < c.len() && (#[trigger] c[j]).0 == token;
            assert(c[j].1 == scaled[token]);
            if j > 0 {
                assert(selection::stands_before(c[0], c[j]));
            }
        } else {
            assert(selection::stands_before(c[0], selection::candidate(scaled, token)));
        }
    }
    assert(scaled[token].finite());
    assert forall|i: int| 0 <= i < c.len() implies (#[trigger] c[i]).1.at_most(lead.1) by {
        assert(c[i].1 == scaled[c[i].0 as int]);
        if i > 0 {
            assert(selection::stands_before(c[0], c[i]));
        }
    }
    assert forall|i: int| 0 <= i < c.len() && !is_allowed(allowed, #[trigger] c[i]) implies c[i].1.bits
        == NEG_INFINITY_BITS by {
        assert(c[i].1 == scaled[c[i].0 as int]);
    }
    assert(lead.1.finite());
}

/// The first item stays first where it is marked.
proof fn lemma_marked_first(c: Seq<Candidate>, mark: spec_fn(int) -> bool)
    requires
        c.len() > 0,
        mark(0),
    ensures
        selection::marked(c, mark).len() > 0,
        selection::marked(c, mark)[0] == c[0],
    decreases c.len(),
{
    if c.len() > 1 {
        lemma_marked_first(c.drop_last(), mark);
    } else {
        reveal_with_fuel(selection::marked, 2);
    }
}

/// A filter that keeps the first candidate keeps it in the lead.
proof fn lemma_filter_leads(allowed: Seq<u32>, c: Seq<Candidate>, mark: spec_fn(int) -> bool)
    requires
        leads_allowed(allowed, c),
        mark(0),
    ensures
        leads_allowed(allowed, selection::marked_or_first(c, mark)),
{
    let kept = selection::marked(c, mark);
    lemma_marked_first(c, mark);
    selection::lemma_marked(c, mark);
    assert forall|i: int| 0 <= i < kept.len() implies (#[trigger] kept[i]).1.at_most(kept[0].1) && (
    !is_allowed(allowed, kept[i]) ==> kept[i].1.bits == NEG_INFINITY_BITS) by {
        assert(selection::stands_marked(c, mark, kept[i]));
        let j = choose|j: int| 0 <= j < c.len() && mark(j) && #[trigger] c[j] == kept[i];
        assert(c[j].1.at_most(c[0].1));
    }
}

/// A part from the front keeps the first candidate in the lead.
proof fn lemma_head_leads(allowed: Seq<u32>, c: Seq<Candidate>, n: int)
    requires
        leads_allowed(allowed, c),
        0 < n <= c.len(),
    ensures
        leads_allowed(allowed, c.take(n)),
{
    let head = c.take(n);
    assert forall|i: int| 0 <= i < head.len() implies (#[trigger] head[i]).1.at_most(head[0].1) && (
    !is_allowed(allowed, head[i]) ==> head[i].1.bits == NEG_INFINITY_BITS) by {
        assert(head[i] == c[i]);
    }
}

/// Ranked by probability, what is not allowed has none.
proof fn lemma_ranking_weighs(
    a: Arithmetic,
    allowed: Seq<u32>,
    c: Seq<Candidate>,
    r: Seq<Candidate>,
)
    requires
        leads_allowed(allowed, c),
        a.weighs(c),
        c.len() <= usize::MAX,
        selection::ranked_by(c, (a.softmax)(c), r),
    ensures
        weighs_allowed(allowed, r),
{
    let probs = (a.softmax)(c);
    let n = probs.len() as int;
    let listing = choose|l: Seq<Candidate>| #[trigger]
        selection::best_of(probs, n, n, l) && r == selection::relabelled(c, l);
    assert forall|i: int| 0 <= i < r.len() implies not_negative((#[trigger] r[i]).1) && (
    !is_allowed(allowed, r[i]) ==> r[i].1.key() == 0) by {
        let at = listing[i].0 as int;
        assert(listing[i].0 < n && listing[i].1 == probs[at]);
        assert(r[i] == (c[at].0, probs[at]));
        assert(not_negative(probs[at]));
        assert(is_allowed(allowed, r[i]) == is_allowed(allowed, c[at]));
    }
    assert forall|i: int, j: int| 0 <= i < j < r.len() implies (#[trigger] r[i]).1.key() >= (
    #[trigger] r[j]).1.key() by {
        assert(selection::stands_before(listing[i], listing[j]));
        assert(listing[i].0 < n && listing[j].0 < n);
        assert(not_negative(probs[listing[i].0 as int]));
        assert(not_negative(probs[listing[j].0 as int]));
    }
    assert(r[0].1.key() > 0) by {
        assert(listing[0].0 < n);
        assert(not_negative(probs[listing[0].0 as int]));
        assert(not_negative(probs[0]));
        if selection::listed(listing, 0) {
            let j = choose|j: int| 0 <= j < listing.len() && (#[trigger] listing[j]).0 == 0;
            assert(listing[j].1 == probs[0]);
            if j > 0 {
                assert(selection::stands_before(listing[0], listing[j]));
            }
        } else {
            assert(selection::stands_before(listing[0], selection::candidate(probs, 0)));
        }
    }
}

/// Where the running sums reach the bound, the nucleus holds only candidates
/// with some probability.
proof fn lemma_nucleus_is_allowed(
    a: Arithmetic,
    allowed: Seq<u32>,
    r: Seq<Candidate>,
    top_p: Single,
)
    requires
        weighs_allowed(allowed, r),
        a.adds_up(scores(r)),
        top_p.at_most((a.sums)(scores(r)).last()),
    ensures
        all_allowed(
            allowed,
            r.take(selection::nucleus_count((a.sums)(scores(r)), top_p)),
        ),
{
    let sums = (a.sums)(scores(r));
    selection::lemma_first_reaching(sums, top_p);
    let p = selection::first_reaching(sums, top_p);
    assert(p < sums.len()) by {
        if p == sums.len() {
            assert(!top_p.at_most(sums[sums.len() - 1]));
        }
    }
    let kept = r.take(p + 1);
    assert(r[p].1.key() > 0) by {
        if p > 0 && r[p].1.key() == 0 {
            assert(scores(r)[p] == r[p].1);
            assert(sums[p] == sums[p - 1]);
            assert(!top_p.at_most(sums[p - 1]));
        }
        assert(not_negative(r[p].1));
    }
    assert forall|i: int| 0 <= i < kept.len() implies is_allowed(allowed, #[trigger] kept[i])
        && not_negative(kept[i].1) by {
        assert(kept[i] == r[i]);
        assert(not_negative(r[i].1));
        if i < p {
            assert(r[i].1.key() >= r[p].1.key());
        }
    }
}

/// A step of a sampling from masked logits keeps to what is allowed.
proof fn lemma_step_stays_allowed(
    a: Arithmetic,
    logits: Seq<Single>,
    allowed: Seq<u32>,
    token: int,
    before: Moment,
    after: Moment,
)
    requires
        a.steps(logits, before, after),
        a.is_sound(before.0.min_p),
        before.0.mirostat == MirostatMode::Disabled,
        before.0.top_k >= 1,
        stays_allowed(allowed, before.0, before.1),
        !(Single { bits: sampler::ONE }).less(before.0.min_p),
        0 <= token < logits.len(),
        allowed.contains(token as u32),
        forall|i: int|
            0 <= i < logits.len() ==> allowed.contains(i as u32) == ((#[trigger] logits[i]).bits
                != NEG_INFINITY_BITS),
        before.1 is Scale ==> a.keeps_infinity(before.0.temperature, logits),
        before.1 matches NextData::Sums(r) ==> before.0.top_p.at_most((a.sums)(scores(r)).last()),
    ensures
        stays_allowed(allowed, after.0, after.1),
        after.0.agrees(before.0),
{
    let s = before.0;
    match before.1 {
        NextData::Scale => {
            let scaled = (a.scale)(s.temperature, logits);
            let c = choose|c: Seq<Candidate>| #[trigger] s.past_scaling(scaled, c, after.1);
            assert forall|i: int| 0 <= i < scaled.len() implies if allowed.contains(i as u32) {
                (#[trigger] scaled[i]).finite()
            } else {
                scaled[i].bits == NEG_INFINITY_BITS
            } by {
                assert(allowed.contains(i as u32) == (logits[i].bits != NEG_INFINITY_BITS));
            }
            lemma_best_is_allowed(allowed, scaled, s.top_k as int, c, token);
        },
        NextData::Relative(c) => {
            let probs = (a.softmax)(c);
            let threshold = (a.threshold)(s.min_p, probs);
            let mark = |i: int| threshold.at_most(probs[i]);
            assert(is_led(c) && in_use(s.min_p));
            assert(mark(0));
            lemma_filter_leads(allowed, c, mark);
        },
        NextData::Curve(c) => {
            let (total, sums) = (a.curve)((a.softmax)(c));
            let n = sampler::tail_free_kept(c.len() as int, total, sums, s.tfs_z);
            selection::lemma_first_above(sums, s.tfs_z);
            assert(is_led(c));
            assert(sums.len() + 2 == c.len());
            lemma_head_leads(allowed, c, n);
        },
        NextData::Softmax(c) => {
            let probs = (a.softmax)(c);
            let r = choose|r: Seq<Candidate>| #[trigger] s.past_softmax(c, probs, r, after.1);
            assert(is_led(c));
            lemma_ranking_weighs(a, allowed, c, r);
        },
        NextData::Sums(r) => {
            let p = scores(r);
            assert forall|i: int| 0 <= i < p.len() implies not_negative(#[trigger] p[i]) by {
                assert(not_negative(r[i].1));
            }
            assert(a.adds_up(p));
            lemma_nucleus_is_allowed(a, allowed, r, s.top_p);
        },
        NextData::Draw(c, random) => {
            let probs = (a.shares)(c);
            assert(probs.len() == c.len());
            assert(a.adds_up(probs));
            let sums = (a.sums)(probs);
            let draw = sampler::in_unit((a.unit)(random));
            selection::lemma_first_reaching(sums, draw);
            let at = if selection::first_reaching(sums, draw) < sums.len() {
                selection::first_reaching(sums, draw)
            } else {
                c.len() - 1
            };
            assert(selection::drawn(c, sums, draw) == c[at].0);
            assert(is_allowed(allowed, c[at]));
        },
        _ => {},
    }
}

/// A masked token is never sampled, at any temperature: where some allowed token
/// has a logit and all logits are finite, the sampled token is an allowed one.
/// The sampler has no Mirostat, takes at least one candidate and has a min-p
/// threshold of at most one, as every constructor gives it; the arithmetic is
/// sound, scaling keeps the logits finite, and the running sums of the ranked
/// probabilities reach the bound of the nucleus.
pub proof fn lemma_masked_is_never_sampled(
    a: Arithmetic,
    s: Sampler,
    logits: Seq<Single>,
    allowed: Seq<u32>,
    token: int,
    moments: Seq<Moment>,
)
    requires
        a.samples(s, constraint::masked(logits, allowed), moments),
        s.mirostat == MirostatMode::Disabled,
        s.top_k >= 1,
        !(Single { bits: sampler::ONE }).less(s.min_p),
        0 <= token < logits.len(),
        allowed.contains(token as u32),
        forall|i: int| 0 <= i < logits.len() ==> (#[trigger] logits[i]).finite(),
        a.is_sound(s.min_p),
        !s.greedy() ==> a.keeps_infinity(s.temperature, constraint::masked(logits, allowed)),
        forall|i: int|
            0 <= i < moments.len() ==> ((#[trigger] moments[i]).1 matches NextData::Sums(r)
                ==> s.top_p.at_most((a.sums)(scores(r)).last())),
    ensures
        moments.last().1 matches NextData::Token(t) && allowed.contains(t),
{
    let all = constraint::masked(logits, allowed);
    assert forall|i: int| 0 <= i < all.len() implies allowed.contains(i as u32) == ((
    #[trigger] all[i]).bits != NEG_INFINITY_BITS) by {
        assert(logits[i].finite());
    }
    if s.greedy() {
        assert(logits[token].finite());
        constraint::lemma_allowed_leads(logits, allowed, token);
    }
    lemma_moments_stay_allowed(a, s, all, allowed, token, moments, moments.len() as int);
}

proof fn lemma_moments_stay_allowed(
    a: Arithmetic,
    s: Sampler,
    logits: Seq<Single>,
    allowed: Seq<u32>,
    token: int,
    moments: Seq<Moment>,
    n: int,
)
    requires
        a.samples(s, logits, moments),
        stays_allowed(allowed, s, s.first(logits)),
        !(Single { bits: sampler::ONE }).less(s.min_p),
        s.mirostat == MirostatMode::Disabled,
        s.top_k >= 1,
        0 <= token < logits.len(),
        allowed.contains(token as u32),
        forall|i: int|
            0 <= i < logits.len() ==> allowed.contains(i as u32) == ((#[trigger] logits[i]).bits
                != NEG_INFINITY_BITS),
        a.is_sound(s.min_p),
        !s.greedy() ==> a.keeps_infinity(s.temperature, logits),
        forall|i: int|
            0 <= i < moments.len() ==> ((#[trigger] moments[i]).1 matches NextData::Sums(r)
                ==> s.top_p.at_most((a.sums)(scores(r)).last())),
        0 < n <= moments.len(),
    ensures
        stays_allowed(allowed, moments[n - 1].0, moments[n - 1].1),
        moments[n - 1].0.agrees(s),
    decreases n,
{
    if n > 1 {
        lemma_moments_stay_allowed(a, s, logits, allowed, token, moments, n - 1);
        assert(a.steps(logits, moments[n - 2], moments[n - 2 + 1]));
        lemma_step_stays_allowed(a, logits, allowed, token, moments[n - 2], moments[n - 1]);
    }
}

} // verus!
