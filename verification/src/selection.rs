//! Ranking and cutting of scored candidates.
//!
//! Scores, probabilities and cumulative sums come in as single-precision
//! numbers; what is decided here is which candidates stay and in what order.
use crate::single::Single;
use vstd::prelude::*;

verus! {

/// A candidate: its index and its score.
pub type Candidate = (usize, Single);

/// Higher scores stand first; among equal scores the lower index does. What is
/// not a number stands behind every number.
pub open spec fn stands_before(a: Candidate, b: Candidate) -> bool {
    a.1.rank() > b.1.rank() || (a.1.rank() == b.1.rank() && a.0 < b.0)
}

/// The candidate that index `i` of a score list makes.
pub open spec fn candidate(scores: Seq<Single>, i: int) -> Candidate {
    (i as usize, scores[i])
}

/// The candidate at index `i` is in `r`.
pub open spec fn listed(r: Seq<Candidate>, i: int) -> bool {
    exists|j: int| 0 <= j < r.len() && (#[trigger] r[j]).0 == i
}

/// `r` lists the `k` best candidates of the first `n` scores, best first.
pub open spec fn best_of(scores: Seq<Single>, n: int, k: int, r: Seq<Candidate>) -> bool {
    &&& r.len() == (if k <= n { k } else { n })
    &&& forall|i: int|
        0 <= i < r.len() ==> (#[trigger] r[i]).0 < n && r[i].1 == scores[r[i].0 as int]
    &&& forall|i: int, j: int| 0 <= i < j < r.len() ==> stands_before(#[trigger] r[i], #[trigger] r[j])
    &&& forall|i: int, j: int|
        0 <= i < r.len() && 0 <= j < n && !listed(r, j) ==> stands_before(
            #[trigger] r[i],
            #[trigger] candidate(scores, j),
        )
}

/// Each candidate stands before those behind it.
pub open spec fn in_order(r: Seq<Candidate>) -> bool {
    forall|i: int, j: int| 0 <= i < j < r.len() ==> stands_before(#[trigger] r[i], #[trigger] r[j])
}

/// Merges two lists that are in order. The indices of the first are the lower
/// ones, so its candidate goes first among equal scores.
fn merge_ranked(a: &[Candidate], b: &[Candidate]) -> (r: Vec<Candidate>)
    requires
        in_order(a@),
        in_order(b@),
        forall|i: int, j: int|
            0 <= i < a@.len() && 0 <= j < b@.len() ==> (#[trigger] a@[i]).0 < (#[trigger] b@[j]).0,
        a@.len() + b@.len() <= usize::MAX,
    ensures
        in_order(r@),
        r@.len() == a@.len() + b@.len(),
        forall|k: int|
            0 <= k < r@.len() ==> a@.contains(#[trigger] r@[k]) || b@.contains(r@[k]),
{
    let mut r: Vec<Candidate> = Vec::new();
    let mut i: usize = 0;
    let mut j: usize = 0;
    while i < a.len() || j < b.len()
        invariant
            in_order(a@),
            in_order(b@),
            forall|i: int, j: int|
                0 <= i < a@.len() && 0 <= j < b@.len() ==> (#[trigger] a@[i]).0 < (
                #[trigger] b@[j]).0,
            a@.len() + b@.len() <= usize::MAX,
            i <= a@.len(),
            j <= b@.len(),
            r@.len() == i + j,
            in_order(r@),
            forall|k: int|
                0 <= k < r@.len() ==> a@.contains(#[trigger] r@[k]) || b@.contains(r@[k]),
            forall|k: int, m: int|
                0 <= k < r@.len() && i <= m < a@.len() ==> stands_before(
                    #[trigger] r@[k],
                    #[trigger] a@[m],
                ),
            forall|k: int, m: int|
                0 <= k < r@.len() && j <= m < b@.len() ==> stands_before(
                    #[trigger] r@[k],
                    #[trigger] b@[m],
                ),
        decreases a@.len() - i + b@.len() - j,
    {
        let first = j >= b.len() || (i < a.len() && a[i].1.order_rank() >= b[j].1.order_rank());
        if first {
            let c: Candidate = a[i];
            assert(a@.contains(c));
            r.push(c);
            i = i + 1;
            assert forall|m: int| j <= m < b@.len() implies stands_before(c, #[trigger] b@[m]) by {
                if m > j {
                    assert(stands_before(b@[j as int], b@[m]));
                }
            }
        } else {
            let c: Candidate = b[j];
            assert(b@.contains(c));
            r.push(c);
            j = j + 1;
            assert forall|m: int| i <= m < a@.len() implies stands_before(c, #[trigger] a@[m]) by {
                if m > i {
                    assert(stands_before(a@[i as int], a@[m]));
                }
            }
        }
    }
    r
}

/// `r` lists the candidates from index `from` up to `to`, best first.
spec fn ranks(scores: Seq<Single>, from: int, to: int, r: Seq<Candidate>) -> bool {
    &&& r.len() == to - from
    &&& forall|i: int|
        0 <= i < r.len() ==> from <= (#[trigger] r[i]).0 < to && r[i].1 == scores[r[i].0 as int]
    &&& in_order(r)
}

fn rank_between(scores: &[Single], from: usize, to: usize) -> (r: Vec<Candidate>)
    requires
        from <= to <= scores@.len(),
    ensures
        ranks(scores@, from as int, to as int, r@),
    decreases to - from,
{
    let mut r: Vec<Candidate> = Vec::new();
    if to - from == 1 {
        r.push((from, scores[from]));
    } else if to - from > 1 {
        let middle: usize = from + (to - from) / 2;
        let a = rank_between(scores, from, middle);
        let b = rank_between(scores, middle, to);
        r = merge_ranked(a.as_slice(), b.as_slice());
        assert forall|i: int| 0 <= i < r@.len() implies from <= (#[trigger] r@[i]).0 < to && r@[i].1
            == scores@[r@[i].0 as int] by {
            if a@.contains(r@[i]) {
                let k = choose|k: int| 0 <= k < a@.len() && a@[k] == r@[i];
                assert(a@[k].0 < middle);
            } else {
                let k = choose|k: int| 0 <= k < b@.len() && b@[k] == r@[i];
                assert(b@[k].0 >= middle);
            }
        }
    }
    r
}

/// The `k` best candidates of a score list, best first.
pub fn top_ranked(scores: &[Single], k: usize) -> (r: Vec<Candidate>)
    ensures
        best_of(scores@, scores@.len() as int, k as int, r@),
{
    let mut r = rank_between(scores, 0, scores.len());
    let ghost all = r@;
    if k < r.len() {
        r.truncate(k);
    }
    proof {
        lemma_full_listing(scores@, scores@.len() as int, all);
        assert forall|i: int, j: int|
            0 <= i < r@.len() && 0 <= j < scores@.len() && !listed(r@, j) implies stands_before(
            #[trigger] r@[i],
            #[trigger] candidate(scores@, j),
        ) by {
            assert(listed(all, j));
            let q = choose|q: int| 0 <= q < all.len() && (#[trigger] all[q]).0 == j;
            assert(r@[i] == all[i]);
            if q < r@.len() {
                assert(r@[q] == all[q]);
            }
            assert(candidate(scores@, j) == all[q]);
        }
    }
    r
}

/// A list of `n` distinct indices below `n` names each of them.
proof fn lemma_full_listing(scores: Seq<Single>, n: int, r: Seq<Candidate>)
    requires
        0 <= n == r.len(),
        forall|i: int|
            0 <= i < r.len() ==> (#[trigger] r[i]).0 < n && r[i].1 == scores[r[i].0 as int],
        forall|i: int, j: int|
            0 <= i < j < r.len() ==> stands_before(#[trigger] r[i], #[trigger] r[j]),
    ensures
        forall|j: int| 0 <= j < n ==> listed(r, j),
{
    let ids = Seq::new(r.len(), |i: int| r[i].0 as int);
    assert(ids.no_duplicates()) by {
        assert forall|i: int, j: int|
            0 <= i < ids.len() && 0 <= j < ids.len() && i != j implies ids[i] != ids[j] by {
            if i < j {
                assert(stands_before(r[i], r[j]));
            } else {
                assert(stands_before(r[j], r[i]));
            }
        }
    }
    ids.unique_seq_to_set();
    let all = vstd::set_lib::set_int_range(0, n);
    vstd::set_lib::lemma_int_range(0, n);
    assert(ids.to_set().subset_of(all));
    vstd::set_lib::lemma_subset_equality(ids.to_set(), all);
    assert forall|j: int| 0 <= j < n implies listed(r, j) by {
        assert(ids.to_set().contains(j));
        let q = choose|q: int| 0 <= q < ids.len() && ids[q] == j;
        assert(r[q].0 == j);
    }
}

/// The ranking is determined: two lists of the `k` best candidates are equal.
pub proof fn lemma_ranking_unique(
    scores: Seq<Single>,
    k: int,
    a: Seq<Candidate>,
    b: Seq<Candidate>,
)
    requires
        0 <= k,
        scores.len() <= usize::MAX,
        best_of(scores, scores.len() as int, k, a),
        best_of(scores, scores.len() as int, k, b),
    ensures
        a == b,
{
    lemma_ranking_prefix(scores, k, a, b, a.len() as int);
    assert(a.take(a.len() as int) == a);
    assert(b.take(a.len() as int) == b);
}

proof fn lemma_ranking_prefix(
    scores: Seq<Single>,
    k: int,
    a: Seq<Candidate>,
    b: Seq<Candidate>,
    m: int,
)
    requires
        0 <= k,
        scores.len() <= usize::MAX,
        best_of(scores, scores.len() as int, k, a),
        best_of(scores, scores.len() as int, k, b),
        0 <= m <= a.len(),
    ensures
        a.take(m) == b.take(m),
    decreases m,
{
    if m > 0 {
        lemma_ranking_prefix(scores, k, a, b, m - 1);
        assert forall|i: int| 0 <= i < m - 1 implies a[i] == b[i] by {
            assert(a.take(m - 1)[i] == b.take(m - 1)[i]);
        }
        lemma_not_later(scores, k, a, b, m - 1);
        lemma_not_later(scores, k, b, a, m - 1);
        assert(a[m - 1] == b[m - 1]) by {
            let x = a[m - 1];
            let y = b[m - 1];
            assert(x.1 == scores[x.0 as int] && y.1 == scores[y.0 as int]);
        }
        assert(a.take(m) == b.take(m));
    }
}

/// With equal heads, the next entry of `a` does not stand after that of `b`.
proof fn lemma_not_later(
    scores: Seq<Single>,
    k: int,
    a: Seq<Candidate>,
    b: Seq<Candidate>,
    m: int,
)
    requires
        scores.len() <= usize::MAX,
        best_of(scores, scores.len() as int, k, a),
        best_of(scores, scores.len() as int, k, b),
        0 <= m < a.len(),
        forall|i: int| 0 <= i < m ==> a[i] == b[i],
    ensures
        a[m] == b[m] || stands_before(a[m], b[m]),
{
    let y = b[m];
    assert(y == candidate(scores, y.0 as int));
    if listed(a, y.0 as int) {
        let q = choose|q: int| 0 <= q < a.len() && (#[trigger] a[q]).0 == y.0;
        assert(a[q] == y);
        if q < m {
            assert(stands_before(b[q], b[m]));
            assert(false);
        }
        if q > m {
            assert(stands_before(a[m], a[q]));
        }
    } else {
        assert(stands_before(a[m], candidate(scores, y.0 as int)));
    }
}

/// Position of the last maximum, folding from the left: a later element takes
/// the lead unless it is less than the leader.
pub open spec fn leader(v: Seq<Single>) -> int
    decreases v.len(),
{
    if v.len() <= 1 {
        0
    } else {
        let lead = leader(v.drop_last());
        if v.last().less(v[lead]) {
            lead
        } else {
            v.len() - 1
        }
    }
}

/// Among numbers, the leader is the last of the greatest.
pub proof fn lemma_leader_is_last_maximum(v: Seq<Single>)
    requires
        v.len() > 0,
        forall|i: int| 0 <= i < v.len() ==> !(#[trigger] v[i]).nan(),
    ensures
        0 <= leader(v) < v.len(),
        forall|i: int| 0 <= i < v.len() ==> (#[trigger] v[i]).at_most(v[leader(v)]),
        forall|i: int| leader(v) < i < v.len() ==> (#[trigger] v[i]).less(v[leader(v)]),
    decreases v.len(),
{
    if v.len() > 1 {
        let w = v.drop_last();
        assert forall|i: int| 0 <= i < w.len() implies !(#[trigger] w[i]).nan() by {
            assert(w[i] == v[i]);
        }
        lemma_leader_is_last_maximum(w);
        assert forall|i: int| 0 <= i < v.len() implies (#[trigger] v[i]).at_most(v[leader(v)]) by {
            if i < w.len() {
                assert(w[i] == v[i]);
            }
        }
        assert forall|i: int| leader(v) < i < v.len() implies (#[trigger] v[i]).less(
            v[leader(v)],
        ) by {
            if i < w.len() {
                assert(w[i] == v[i]);
            }
        }
    }
}

/// Index of the greatest logit, the last one among equals; zero for none.
pub fn argmax(v: &[Single]) -> (r: usize)
    ensures
        r == leader(v@),
        v.len() > 0 ==> r < v.len(),
{
    if v.len() == 0 {
        return 0;
    }
    let mut lead: usize = 0;
    for i in 1..v.len()
        invariant
            lead < i <= v.len(),
            lead == leader(v@.take(i as int)),
    {
        assert(v@.take(i + 1).drop_last() == v@.take(i as int));
        if !v[i].is_less(&v[lead]) {
            lead = i;
        }
    }
    assert(v@.take(v@.len() as int) == v@);
    lead
}

/// The items whose position is marked, in order.
pub open spec fn marked<A>(items: Seq<A>, mark: spec_fn(int) -> bool) -> Seq<A>
    decreases items.len(),
{
    if items.len() == 0 {
        seq![]
    } else {
        let rest = marked(items.drop_last(), mark);
        if mark(items.len() - 1) {
            rest.push(items.last())
        } else {
            rest
        }
    }
}

/// `x` stands at a marked position.
pub open spec fn stands_marked<A>(items: Seq<A>, mark: spec_fn(int) -> bool, x: A) -> bool {
    exists|i: int| 0 <= i < items.len() && mark(i) && #[trigger] items[i] == x
}

/// What is marked stays, in order, and nothing else does.
pub proof fn lemma_marked<A>(items: Seq<A>, mark: spec_fn(int) -> bool)
    ensures
        marked(items, mark).len() <= items.len(),
        forall|j: int|
            0 <= j < marked(items, mark).len() ==> stands_marked(
                items,
                mark,
                #[trigger] marked(items, mark)[j],
            ),
        forall|i: int|
            0 <= i < items.len() && mark(i) ==> marked(items, mark).contains(#[trigger] items[i]),
    decreases items.len(),
{
    if items.len() > 0 {
        let init = items.drop_last();
        let last = items.len() - 1;
        let rest = marked(init, mark);
        let all = marked(items, mark);
        lemma_marked(init, mark);
        assert forall|j: int| 0 <= j < all.len() implies stands_marked(
            items,
            mark,
            #[trigger] all[j],
        ) by {
            if j < rest.len() {
                assert(rest[j] == all[j]);
                assert(stands_marked(init, mark, rest[j]));
                let i = choose|i: int| 0 <= i < init.len() && mark(i) && init[i] == rest[j];
                assert(items[i] == all[j]);
            } else {
                assert(items[last] == all[j]);
            }
        }
        assert forall|i: int| 0 <= i < items.len() && mark(i) implies all.contains(
            #[trigger] items[i],
        ) by {
            if i < last {
                assert(init[i] == items[i]);
                let j = choose|j: int| 0 <= j < rest.len() && rest[j] == items[i];
                assert(all[j] == items[i]);
            } else {
                assert(all[rest.len() as int] == items[i]);
            }
        }
    }
}

/// The marked items, or the first one where none is marked.
pub open spec fn marked_or_first(
    items: Seq<Candidate>,
    mark: spec_fn(int) -> bool,
) -> Seq<Candidate> {
    if marked(items, mark).len() == 0 {
        seq![items[0]]
    } else {
        marked(items, mark)
    }
}

/// Min-P: keeps the candidates whose probability is at least `threshold`, and
/// the first candidate where none is.
pub fn min_p_filter(candidates: &[Candidate], probs: &[Single], threshold: Single) -> (r: Vec<
    Candidate,
>)
    requires
        candidates.len() == probs.len(),
        candidates.len() > 0,
    ensures
        r@ == marked_or_first(candidates@, |i: int| threshold.at_most(probs@[i])),
{
    let ghost mark = |i: int| threshold.at_most(probs@[i]);
    let mut r: Vec<Candidate> = Vec::new();
    for i in 0..candidates.len()
        invariant
            candidates.len() == probs.len(),
            mark == (|i: int| threshold.at_most(probs@[i])),
            r@ == marked(candidates@.take(i as int), mark),
    {
        assert(candidates@.take(i + 1).drop_last() == candidates@.take(i as int));
        if threshold.is_at_most(&probs[i]) {
            r.push(candidates[i]);
        }
    }
    assert(candidates@.take(candidates@.len() as int) == candidates@);
    if r.len() == 0 {
        r.push(candidates[0]);
        assert(r@ == seq![candidates@[0]]);
    }
    r
}

/// Mirostat v2: keeps the candidates whose surprise is at most `mu`, and the
/// first candidate where none is.
pub fn surprise_filter(candidates: &[Candidate], surprises: &[Single], mu: Single) -> (r: Vec<
    Candidate,
>)
    requires
        candidates.len() == surprises.len(),
        candidates.len() > 0,
    ensures
        r@ == marked_or_first(candidates@, |i: int| surprises@[i].at_most(mu)),
{
    let ghost mark = |i: int| surprises@[i].at_most(mu);
    let mut r: Vec<Candidate> = Vec::new();
    for i in 0..candidates.len()
        invariant
            candidates.len() == surprises.len(),
            mark == (|i: int| surprises@[i].at_most(mu)),
            r@ == marked(candidates@.take(i as int), mark),
    {
        assert(candidates@.take(i + 1).drop_last() == candidates@.take(i as int));
        if surprises[i].is_at_most(&mu) {
            r.push(candidates[i]);
        }
    }
    assert(candidates@.take(candidates@.len() as int) == candidates@);
    if r.len() == 0 {
        r.push(candidates[0]);
        assert(r@ == seq![candidates@[0]]);
    }
    r
}

/// The first position whose number lies above `bound`; the length where none
/// does.
pub open spec fn first_above(sums: Seq<Single>, bound: Single) -> int
    decreases sums.len(),
{
    if sums.len() == 0 || bound.less(sums.first()) {
        0
    } else {
        1 + first_above(sums.drop_first(), bound)
    }
}

/// The first position whose number is at least `bound`; the length where none
/// is.
pub open spec fn first_reaching(sums: Seq<Single>, bound: Single) -> int
    decreases sums.len(),
{
    if sums.len() == 0 || bound.at_most(sums.first()) {
        0
    } else {
        1 + first_reaching(sums.drop_first(), bound)
    }
}

/// `first_above` is the least position whose number lies above the bound.
pub proof fn lemma_first_above(sums: Seq<Single>, bound: Single)
    ensures
        0 <= first_above(sums, bound) <= sums.len(),
        forall|i: int| 0 <= i < first_above(sums, bound) ==> !bound.less(#[trigger] sums[i]),
        first_above(sums, bound) < sums.len() ==> bound.less(sums[first_above(sums, bound)]),
    decreases sums.len(),
{
    if sums.len() > 0 && !bound.less(sums.first()) {
        let rest = sums.drop_first();
        lemma_first_above(rest, bound);
        assert forall|i: int| 0 <= i < first_above(sums, bound) implies !bound.less(
            #[trigger] sums[i],
        ) by {
            if i > 0 {
                assert(rest[i - 1] == sums[i]);
            }
        }
    }
}

/// `first_reaching` is the least position whose number is at least the bound.
pub proof fn lemma_first_reaching(sums: Seq<Single>, bound: Single)
    ensures
        0 <= first_reaching(sums, bound) <= sums.len(),
        forall|i: int| 0 <= i < first_reaching(sums, bound) ==> !bound.at_most(#[trigger] sums[i]),
        first_reaching(sums, bound) < sums.len() ==> bound.at_most(
            sums[first_reaching(sums, bound)],
        ),
    decreases sums.len(),
{
    if sums.len() > 0 && !bound.at_most(sums.first()) {
        let rest = sums.drop_first();
        lemma_first_reaching(rest, bound);
        assert forall|i: int| 0 <= i < first_reaching(sums, bound) implies !bound.at_most(
            #[trigger] sums[i],
        ) by {
            if i > 0 {
                assert(rest[i - 1] == sums[i]);
            }
        }
    }
}

fn position_above(sums: &[Single], bound: &Single) -> (n: usize)
    ensures
        n == first_above(sums@, *bound),
        n <= sums.len(),
{
    let mut n: usize = 0;
    assert(sums@.skip(0) == sums@);
    while n < sums.len() && !bound.is_less(&sums[n])
        invariant
            n <= sums.len(),
            first_above(sums@, *bound) == n + first_above(sums@.skip(n as int), *bound),
        decreases sums.len() - n,
    {
        assert(sums@.skip(n as int).drop_first() == sums@.skip(n + 1));
        n = n + 1;
    }
    n
}

fn position_reaching(sums: &[Single], bound: &Single) -> (n: usize)
    ensures
        n == first_reaching(sums@, *bound),
        n <= sums.len(),
{
    let mut n: usize = 0;
    assert(sums@.skip(0) == sums@);
    while n < sums.len() && !bound.is_at_most(&sums[n])
        invariant
            n <= sums.len(),
            first_reaching(sums@, *bound) == n + first_reaching(sums@.skip(n as int), *bound),
        decreases sums.len() - n,
    {
        assert(sums@.skip(n as int).drop_first() == sums@.skip(n + 1));
        n = n + 1;
    }
    n
}

/// How many of `n` candidates the tail-free cut leaves: all of them unless the
/// running sum of the normalized second derivative exceeds `z` at position
/// `i`, and then `i + 2`.
pub open spec fn tail_free_count(n: int, sums: Seq<Single>, z: Single) -> int {
    if first_above(sums, z) < sums.len() {
        first_above(sums, z) + 2
    } else {
        n
    }
}

/// Tail-free sampling: the head of the candidates that stays. `sums` holds the
/// running sums of the normalized second derivative, of which there are two
/// fewer than candidates.
pub fn tail_free_head(candidates: &[Candidate], sums: &[Single], z: Single) -> (r: Vec<Candidate>)
    requires
        candidates.len() == sums.len() + 2,
    ensures
        r@ == candidates@.take(tail_free_count(candidates@.len() as int, sums@, z)),
        0 < r.len() <= candidates.len(),
        r@[0] == candidates@[0],
{
    let at = position_above(sums, &z);
    let mut cutoff: usize = candidates.len();
    if at < sums.len() {
        cutoff = at + 2;
    }
    head_of(candidates, cutoff)
}

/// The first `n` candidates.
pub fn head_of(candidates: &[Candidate], n: usize) -> (r: Vec<Candidate>)
    requires
        n <= candidates.len(),
    ensures
        r@ == candidates@.take(n as int),
{
    let mut r: Vec<Candidate> = Vec::new();
    for i in 0..n
        invariant
            n <= candidates.len(),
            r@ == candidates@.take(i as int),
    {
        r.push(candidates[i]);
        assert(r@ == candidates@.take(i + 1));
    }
    r
}

/// How many of the candidates the nucleus holds: up to and with the first at
/// which the running probability reaches `top_p`, or all of them.
pub open spec fn nucleus_count(sums: Seq<Single>, top_p: Single) -> int {
    if first_reaching(sums, top_p) < sums.len() {
        first_reaching(sums, top_p) + 1
    } else {
        sums.len() as int
    }
}

/// Top-P: the head of the candidates that makes up the nucleus. `sums` holds
/// the running probabilities.
pub fn nucleus(candidates: &[Candidate], sums: &[Single], top_p: Single) -> (r: Vec<Candidate>)
    requires
        candidates.len() == sums.len(),
    ensures
        r@ == candidates@.take(nucleus_count(sums@, top_p)),
        candidates.len() > 0 ==> r.len() > 0,
{
    let at = position_reaching(sums, &top_p);
    if at < sums.len() {
        head_of(candidates, at + 1)
    } else {
        head_of(candidates, sums.len())
    }
}

/// The nucleus is the shortest head whose running probability reaches `top_p`:
/// where some running sum is at least `top_p`, the one at the last kept candidate
/// is and none before it is; otherwise every candidate is kept.
pub proof fn lemma_nucleus_is_shortest(
    candidates: &[Candidate],
    sums: &[Single],
    top_p: Single,
    r: Vec<Candidate>,
)
    requires
        candidates@.len() == sums@.len(),
        call_ensures(nucleus, (candidates, sums, top_p), r),
    ensures
        r@ == candidates@.take(r@.len() as int),
        r@.len() <= candidates@.len(),
        (exists|i: int| 0 <= i < sums@.len() && top_p.at_most(#[trigger] sums@[i])) ==> {
            &&& r@.len() > 0
            &&& top_p.at_most(sums@[r@.len() - 1])
            &&& forall|i: int| 0 <= i < r@.len() - 1 ==> !top_p.at_most(#[trigger] sums@[i])
        },
        (forall|i: int| 0 <= i < sums@.len() ==> !top_p.at_most(#[trigger] sums@[i])) ==> r@
            == candidates@,
{
    lemma_first_reaching(sums@, top_p);
}

/// The candidate that a draw falls on: the first whose running probability is
/// at least the draw, else the last, else index zero.
pub open spec fn drawn(candidates: Seq<Candidate>, sums: Seq<Single>, draw: Single) -> int {
    if first_reaching(sums, draw) < sums.len() {
        candidates[first_reaching(sums, draw)].0 as int
    } else if candidates.len() > 0 {
        candidates.last().0 as int
    } else {
        0
    }
}

/// Index that a draw selects from a distribution.
pub fn draw_index(candidates: &[Candidate], sums: &[Single], draw: Single) -> (r: usize)
    requires
        candidates.len() == sums.len(),
    ensures
        r == drawn(candidates@, sums@, draw),
        candidates.len() > 0 ==> exists|i: int|
            0 <= i < candidates.len() && r == (#[trigger] candidates@[i]).0,
{
    let at = position_reaching(sums, &draw);
    if at < sums.len() {
        candidates[at].0
    } else if candidates.len() > 0 {
        let last: usize = candidates.len() - 1;
        let r = candidates[last].0;
        assert(r == candidates@[last as int].0);
        r
    } else {
        0
    }
}

/// A candidate whose probability adds nothing to the running sum is not drawn,
/// unless it is the first, or the draw lies above the last sum: `p` is the
/// position that the draw falls on.
pub proof fn lemma_drawn_adds_to_sum(
    candidates: Seq<Candidate>,
    sums: Seq<Single>,
    draw: Single,
) -> (p: int)
    requires
        candidates.len() == sums.len(),
        sums.len() > 0,
        draw.at_most(sums.last()),
    ensures
        0 <= p < candidates.len(),
        drawn(candidates, sums, draw) == candidates[p].0,
        draw.at_most(sums[p]),
        forall|i: int| 0 <= i < p && !(#[trigger] sums[i]).nan() ==> sums[i].less(sums[p]),
{
    let p = first_reaching(sums, draw);
    lemma_first_reaching(sums, draw);
    p
}

/// Each candidate's index with a new score.
pub open spec fn rescored(candidates: Seq<Candidate>, scores: Seq<Single>) -> Seq<Candidate> {
    Seq::new(candidates.len(), |i: int| (candidates[i].0, scores[i]))
}

/// Gives each candidate a new score.
pub fn rescore(candidates: &[Candidate], scores: &[Single]) -> (r: Vec<Candidate>)
    requires
        candidates.len() == scores.len(),
    ensures
        r@ == rescored(candidates@, scores@),
{
    let mut r: Vec<Candidate> = Vec::new();
    for i in 0..candidates.len()
        invariant
            candidates.len() == scores.len(),
            r@ == rescored(candidates@, scores@).take(i as int),
    {
        r.push((candidates[i].0, scores[i]));
        assert(r@ == rescored(candidates@, scores@).take(i + 1));
    }
    assert(r@ == rescored(candidates@, scores@));
    r
}

/// The candidates that a listing of their positions names, with the scores of
/// the listing.
pub open spec fn relabelled(candidates: Seq<Candidate>, listing: Seq<Candidate>) -> Seq<Candidate> {
    Seq::new(listing.len(), |i: int| (candidates[listing[i].0 as int].0, listing[i].1))
}

/// `r` lists the candidates with their new scores, best first; among equal
/// scores the order of `candidates` stays.
pub open spec fn ranked_by(
    candidates: Seq<Candidate>,
    scores: Seq<Single>,
    r: Seq<Candidate>,
) -> bool {
    exists|listing: Seq<Candidate>| #[trigger]
        best_of(scores, scores.len() as int, scores.len() as int, listing) && r == relabelled(
            candidates,
            listing,
        )
}

/// Gives each candidate a new score and sorts by it, best first.
pub fn rank_by(candidates: &[Candidate], scores: &[Single]) -> (r: Vec<Candidate>)
    requires
        candidates.len() == scores.len(),
    ensures
        ranked_by(candidates@, scores@, r@),
        r.len() == candidates.len(),
{
    let listing = top_ranked(scores, scores.len());
    let mut r: Vec<Candidate> = Vec::new();
    for i in 0..listing.len()
        invariant
            candidates.len() == scores.len(),
            best_of(scores@, scores@.len() as int, scores@.len() as int, listing@),
            r@ == relabelled(candidates@, listing@).take(i as int),
    {
        let c = listing[i];
        assert(listing@[i as int].0 < scores@.len());
        r.push((candidates[c.0].0, c.1));
        assert(r@ == relabelled(candidates@, listing@).take(i + 1));
    }
    assert(r@ == relabelled(candidates@, listing@));
    r
}

/// The order of a ranking is determined by the scores.
pub proof fn lemma_rank_by_unique(
    candidates: Seq<Candidate>,
    scores: Seq<Single>,
    a: Seq<Candidate>,
    b: Seq<Candidate>,
)
    requires
        scores.len() <= usize::MAX,
        ranked_by(candidates, scores, a),
        ranked_by(candidates, scores, b),
    ensures
        a == b,
{
    let n = scores.len() as int;
    let la = choose|l: Seq<Candidate>| #[trigger]
        best_of(scores, n, n, l) && a == relabelled(candidates, l);
    let lb = choose|l: Seq<Candidate>| #[trigger]
        best_of(scores, n, n, l) && b == relabelled(candidates, l);
    lemma_ranking_unique(scores, n, la, lb);
}

/// Mirostat v1: the number of candidates kept, at least one and at most all.
pub fn clamp_count(k: usize, n: usize) -> (r: usize)
    requires
        n > 0,
    ensures
        r == (if k < 1 { 1 } else if k > n { n as int } else { k as int }),
        1 <= r <= n,
{
    if k < 1 {
        1
    } else if k > n {
        n
    } else {
        k
    }
}

/// The candidates whose number passes a test, in order.
pub open spec fn passing(
    candidates: Seq<Candidate>,
    numbers: Seq<Single>,
    test: spec_fn(Single) -> bool,
) -> Seq<Candidate> {
    candidates.zip_with(numbers).filter_map(
        |x: (Candidate, Single)|
            if test(x.1) {
                Some(x.0)
            } else {
                None
            },
    )
}

/// What is marked by its number is what passes the test of that number.
pub proof fn lemma_marked_pass(
    candidates: Seq<Candidate>,
    numbers: Seq<Single>,
    mark: spec_fn(int) -> bool,
    test: spec_fn(Single) -> bool,
)
    requires
        candidates.len() == numbers.len(),
        forall|i: int| 0 <= i < numbers.len() ==> mark(i) == test(#[trigger] numbers[i]),
    ensures
        marked(candidates, mark) == passing(candidates, numbers, test),
    decreases candidates.len(),
{
    if candidates.len() > 0 {
        let c = candidates.drop_last();
        let n = numbers.drop_last();
        assert forall|i: int| 0 <= i < n.len() implies mark(i) == test(#[trigger] n[i]) by {
            assert(n[i] == numbers[i]);
        }
        lemma_marked_pass(c, n, mark, test);
        let zipped = candidates.zip_with(numbers);
        assert(zipped.drop_last() == c.zip_with(n));
        assert(zipped.last() == (candidates.last(), numbers.last()));
        assert(numbers[numbers.len() - 1] == numbers.last());
        let rest = passing(c, n, test);
        assert(passing(candidates, numbers, test) == if test(numbers.last()) {
            rest.push(candidates.last())
        } else {
            rest
        });
    } else {
        assert(passing(candidates, numbers, test) == Seq::<Candidate>::empty());
    }
}

/// The best candidates: as many as asked for or there are, each index once with
/// its score, by falling score and among equal scores by rising index. None that
/// is left out has a higher score than one that is listed, and none with an equal
/// score has a lower index. What is not a number counts as less than any number.
pub proof fn lemma_best_stand_first(scores: &[Single], k: usize, r: Vec<Candidate>)
    requires
        call_ensures(top_ranked, (scores, k), r),
    ensures
        r@.len() == if k < scores@.len() {
            k as nat
        } else {
            scores@.len()
        },
        forall|i: int|
            0 <= i < r@.len() ==> (#[trigger] r@[i]).0 < scores@.len() && r@[i].1
                == scores@[r@[i].0 as int],
        forall|i: int, j: int|
            0 <= i < j < r@.len() ==> {
                let a = #[trigger] r@[i];
                let b = #[trigger] r@[j];
                &&& !a.1.less(b.1)
                &&& a.1.nan() ==> b.1.nan()
                &&& b.1.at_most(a.1) && a.1.at_most(b.1) ==> a.0 < b.0
                &&& a.1.nan() && b.1.nan() ==> a.0 < b.0
            },
        forall|i: int, m: int|
            0 <= i < r@.len() && 0 <= m < scores@.len() && (forall|j: int|
                0 <= j < r@.len() ==> (#[trigger] r@[j]).0 != m) ==> {
                let a = #[trigger] r@[i];
                let b = #[trigger] scores@[m];
                &&& !a.1.less(b)
                &&& a.1.nan() ==> b.nan()
                &&& b.at_most(a.1) && a.1.at_most(b) ==> a.0 < m
                &&& a.1.nan() && b.nan() ==> a.0 < m
            },
{
    let n = scores@.len() as int;
    assert(best_of(scores@, n, k as int, r@));
    assert forall|i: int, j: int| 0 <= i < j < r@.len() implies {
        let a = #[trigger] r@[i];
        let b = #[trigger] r@[j];
        &&& !a.1.less(b.1)
        &&& a.1.nan() ==> b.1.nan()
        &&& b.1.at_most(a.1) && a.1.at_most(b.1) ==> a.0 < b.0
        &&& a.1.nan() && b.1.nan() ==> a.0 < b.0
    } by {
        assert(stands_before(r@[i], r@[j]));
    }
    assert forall|i: int, m: int|
        0 <= i < r@.len() && 0 <= m < scores@.len() && (forall|j: int|
            0 <= j < r@.len() ==> (#[trigger] r@[j]).0 != m) implies {
        let a = #[trigger] r@[i];
        let b = #[trigger] scores@[m];
        &&& !a.1.less(b)
        &&& a.1.nan() ==> b.nan()
        &&& b.at_most(a.1) && a.1.at_most(b) ==> a.0 < m
        &&& a.1.nan() && b.nan() ==> a.0 < m
    } by {
        assert(!listed(r@, m));
        assert(stands_before(r@[i], candidate(scores@, m)));
    }
}

/// The greedy choice among numbers is the last of the greatest.
pub proof fn lemma_argmax_is_last_greatest(v: &[Single], r: usize)
    requires
        call_ensures(argmax, (v,), r),
        v@.len() > 0,
        forall|i: int| 0 <= i < v@.len() ==> !(#[trigger] v@[i]).nan(),
    ensures
        r < v@.len(),
        forall|i: int| 0 <= i < v@.len() ==> (#[trigger] v@[i]).at_most(v@[r as int]),
        forall|i: int| r < i < v@.len() ==> (#[trigger] v@[i]).less(v@[r as int]),
{
    lemma_leader_is_last_maximum(v@);
}

/// Min-p keeps, in order, exactly the candidates whose probability is at least
/// the threshold, and the first one where there are none.
pub proof fn lemma_min_p_keeps_the_likely(
    candidates: &[Candidate],
    probs: &[Single],
    threshold: Single,
    r: Vec<Candidate>,
)
    requires
        candidates@.len() == probs@.len() > 0,
        call_ensures(min_p_filter, (candidates, probs, threshold), r),
    ensures
        ({
            let likely = passing(candidates@, probs@, |p: Single| threshold.at_most(p));
            r@ == if likely.len() > 0 {
                likely
            } else {
                seq![candidates@[0]]
            }
        }),
{
    let mark = |i: int| threshold.at_most(probs@[i]);
    lemma_marked_pass(candidates@, probs@, mark, |p: Single| threshold.at_most(p));
}

/// Mirostat v2 keeps, in order, exactly the candidates whose surprise is at most
/// the bound, and the first one where there are none.
pub proof fn lemma_surprise_keeps_the_expected(
    candidates: &[Candidate],
    surprises: &[Single],
    mu: Single,
    r: Vec<Candidate>,
)
    requires
        candidates@.len() == surprises@.len() > 0,
        call_ensures(surprise_filter, (candidates, surprises, mu), r),
    ensures
        ({
            let expected = passing(candidates@, surprises@, |x: Single| x.at_most(mu));
            r@ == if expected.len() > 0 {
                expected
            } else {
                seq![candidates@[0]]
            }
        }),
{
    let mark = |i: int| surprises@[i].at_most(mu);
    lemma_marked_pass(candidates@, surprises@, mark, |x: Single| x.at_most(mu));
}

/// The tail-free cut keeps a head of at least two candidates. Where no running sum
/// of the curve exceeds `z` all of them stay; otherwise the head ends one behind
/// the candidate at which a running sum first exceeds it.
pub proof fn lemma_tail_free_cuts_behind_the_bend(
    candidates: &[Candidate],
    sums: &[Single],
    z: Single,
    r: Vec<Candidate>,
)
    requires
        candidates@.len() == sums@.len() + 2,
        call_ensures(tail_free_head, (candidates, sums, z), r),
    ensures
        2 <= r@.len() <= candidates@.len(),
        r@ == candidates@.take(r@.len() as int),
        forall|i: int| 0 <= i < r@.len() - 2 ==> !z.less(#[trigger] sums@[i]),
        r@.len() < candidates@.len() ==> z.less(sums@[r@.len() - 2]),
{
    lemma_first_above(sums@, z);
}

/// A draw falls on the first candidate whose running probability is at least the
/// draw, and on the last one where none is.
pub proof fn lemma_draw_falls_where_sum_reaches(
    candidates: &[Candidate],
    sums: &[Single],
    draw: Single,
    r: usize,
    p: int,
)
    requires
        candidates@.len() == sums@.len(),
        0 <= p < sums@.len(),
        forall|i: int| 0 <= i < p ==> !draw.at_most(#[trigger] sums@[i]),
        draw.at_most(sums@[p]) || p == sums@.len() - 1,
        call_ensures(draw_index, (candidates, sums, draw), r),
    ensures
        r == candidates@[p].0,
{
    lemma_first_reaching(sums@, draw);
    let q = first_reaching(sums@, draw);
    if q < p {
        assert(!draw.at_most(sums@[q]));
    }
    if p < q {
        assert(!draw.at_most(sums@[p]));
    }
}

/// Ranking keeps every candidate's index with its own new score and sorts by that
/// score, the highest first; equal scores keep their order.
pub proof fn lemma_rank_by_sorts(
    candidates: &[Candidate],
    scores: &[Single],
    r: Vec<Candidate>,
) -> (from: Seq<int>)
    requires
        candidates@.len() == scores@.len(),
        call_ensures(rank_by, (candidates, scores), r),
    ensures
        from.len() == r@.len() == candidates@.len(),
        from.no_duplicates(),
        forall|i: int|
            0 <= i < r@.len() ==> 0 <= #[trigger] from[i] < candidates@.len() && r@[i] == (
                candidates@[from[i]].0,
                scores@[from[i]],
            ),
        forall|i: int, j: int|
            0 <= i < j < r@.len() ==> {
                let a = (#[trigger] r@[i]).1;
                let b = (#[trigger] r@[j]).1;
                &&& !a.less(b)
                &&& a.nan() ==> b.nan()
                &&& b.at_most(a) && a.at_most(b) ==> from[i] < from[j]
            },
{
    let n = scores@.len() as int;
    let listing = choose|l: Seq<Candidate>| #[trigger]
        best_of(scores@, n, n, l) && r@ == relabelled(candidates@, l);
    let from = Seq::new(listing.len(), |i: int| listing[i].0 as int);
    assert forall|i: int, j: int| 0 <= i < j < r@.len() implies {
        let a = (#[trigger] r@[i]).1;
        let b = (#[trigger] r@[j]).1;
        &&& !a.less(b)
        &&& a.nan() ==> b.nan()
        &&& b.at_most(a) && a.at_most(b) ==> from[i] < from[j]
    } by {
        assert(stands_before(listing[i], listing[j]));
    }
    assert forall|i: int, j: int| 0 <= i < from.len() && 0 <= j < from.len() && i != j implies from[i]
        != from[j] by {
        if i < j {
            assert(stands_before(listing[i], listing[j]));
        } else {
            assert(stands_before(listing[j], listing[i]));
        }
    }
    assert forall|i: int| 0 <= i < r@.len() implies 0 <= #[trigger] from[i] < candidates@.len()
        && r@[i] == (candidates@[from[i]].0, scores@[from[i]]) by {
        assert(listing[i].0 < n && listing[i].1 == scores@[listing[i].0 as int]);
    }
    from
}

/// Rescoring keeps the indices in place and gives each its new score.
pub proof fn lemma_rescore_keeps_indices(
    candidates: &[Candidate],
    scores: &[Single],
    r: Vec<Candidate>,
)
    requires
        candidates@.len() == scores@.len(),
        call_ensures(rescore, (candidates, scores), r),
    ensures
        r@.map_values(|c: Candidate| c.0) == candidates@.map_values(|c: Candidate| c.0),
        r@.map_values(|c: Candidate| c.1) == scores@,
{
}

/// At least one and at most all are kept, and otherwise as many as asked for.
pub proof fn lemma_count_is_clamped(k: usize, n: usize, r: usize)
    requires
        n > 0,
        call_ensures(clamp_count, (k, n), r),
    ensures
        1 <= k <= n ==> r == k,
        k == 0 ==> r == 1,
        k > n ==> r == n,
{
}

} // verus!
