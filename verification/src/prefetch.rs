//! Which layers to fetch ahead of computation, and which to release behind it.
use crate::constraint::{self, has_id};
use vstd::prelude::*;

verus! {

/// Prefetch strategy.
#[derive(Debug, Clone, Copy)]
pub enum PrefetchStrategy {
    /// The next layers, hinted from the computing thread.
    LookAhead(usize),
    /// No prefetching.
    Off,
    /// The next layers, read by a background thread.
    BackgroundTouch(usize),
}

impl Default for PrefetchStrategy {
    fn default() -> (r: Self)
        ensures
            r == PrefetchStrategy::LookAhead(1),
    {
        PrefetchStrategy::LookAhead(1)
    }
}

/// Size of the pages that a background thread touches.
pub const PAGE_SIZE: usize = 4096;

/// The exclusive or of the first byte of each page.
pub open spec fn page_mix(data: Seq<u8>) -> u8
    decreases data.len(),
{
    if data.len() == 0 {
        0
    } else {
        let rest = if data.len() <= PAGE_SIZE {
            seq![]
        } else {
            data.skip(PAGE_SIZE as int)
        };
        data[0] ^ page_mix(rest)
    }
}

/// Reads the first byte of each page.
pub fn touch_pages(data: &[u8]) -> (mix: u8)
    ensures
        mix == page_mix(data@),
{
    let len: usize = data.len();
    let mut at: usize = 0;
    let mut mix: u8 = 0;
    assert(data@.skip(0) == data@);
    assert(forall|m: u8| 0u8 ^ m == m) by (bit_vector);
    while at < len
        invariant
            len == data@.len(),
            at <= len,
            mix ^ page_mix(data@.skip(at as int)) == page_mix(data@),
        decreases len - at,
    {
        let ghost here = data@.skip(at as int);
        let ghost before = mix;
        let byte: u8 = data[at];
        assert(here[0] == byte);
        mix = mix ^ byte;
        if len - at <= PAGE_SIZE {
            at = len;
            assert(data@.skip(at as int) == Seq::<u8>::empty());
        } else {
            assert(here.skip(PAGE_SIZE as int) == data@.skip(at + PAGE_SIZE));
            at = at + PAGE_SIZE;
        }
        let ghost rest = page_mix(data@.skip(at as int));
        assert((before ^ byte) ^ rest == before ^ (byte ^ rest)) by (bit_vector);
    }
    assert(data@.skip(at as int) == Seq::<u8>::empty());
    assert(forall|m: u8| m ^ 0u8 == m) by (bit_vector);
    mix
}

/// Decides what to fetch ahead and what to release.
pub struct Prefetcher {
    pub strategy: PrefetchStrategy,
}

impl Prefetcher {
    /// How many layers ahead are fetched.
    pub open spec fn depth(self) -> u32 {
        match self.strategy {
            PrefetchStrategy::LookAhead(n) => n as u32,
            PrefetchStrategy::Off => 0,
            PrefetchStrategy::BackgroundTouch(n) => n as u32,
        }
    }

    /// A prefetcher with a strategy.
    pub fn new(strategy: PrefetchStrategy) -> (r: Self)
        ensures
            r.strategy == strategy,
    {
        Prefetcher { strategy }
    }

    /// The layers to fetch before `current_layer` is processed, in order: the
    /// next ones up to the depth that exist and are not cached.
    pub fn on_layer_start(&self, current_layer: u32, total_layers: u32, cached: &[u32]) -> (r: Vec<
        u32,
    >)
        ensures
            constraint::ascending(r@),
            forall|l: u32| #[trigger]
                r@.contains(l) <==> current_layer < l <= current_layer + self.depth() && l
                    < total_layers && !cached@.contains(l),
    {
        let depth: u32 = match &self.strategy {
            PrefetchStrategy::LookAhead(n) => *n as u32,
            PrefetchStrategy::Off => 0,
            PrefetchStrategy::BackgroundTouch(n) => *n as u32,
        };
        let mut r: Vec<u32> = Vec::new();
        let mut next: u64 = current_layer as u64 + 1;
        let end: u64 = current_layer as u64 + depth as u64;
        while next <= end && next < total_layers as u64
            invariant
                depth == self.depth(),
                end == current_layer + depth,
                current_layer < next <= end + 1,
                constraint::ascending(r@),
                forall|i: int| 0 <= i < r@.len() ==> r@[i] < next,
                forall|l: u32| #[trigger]
                    r@.contains(l) <==> current_layer < l < next && l <= end && l < total_layers
                        && !cached@.contains(l),
            decreases end + 1 - next,
        {
            let layer: u32 = next as u32;
            let ghost before = r@;
            if !has_id(cached, layer) {
                r.push(layer);
                assert(r@[before.len() as int] == layer);
            }
            assert forall|l: u32| #[trigger] r@.contains(l) <==> current_layer < l < next + 1 && l
                <= end && l < total_layers && !cached@.contains(l) by {
                if before.contains(l) {
                    let i = choose|i: int| 0 <= i < before.len() && before[i] == l;
                    assert(r@[i] == l);
                }
                if r@.contains(l) && l != layer {
                    let i = choose|i: int| 0 <= i < r@.len() && r@[i] == l;
                    assert(before[i] == l);
                }
            }
            next = next + 1;
        }
        r
    }

    /// The layer to release after `completed_layer` was processed: the one two
    /// before it, unless there is no prefetching.
    pub fn on_layer_done(&self, completed_layer: u32) -> (r: Option<u32>)
        ensures
            r == (if self.strategy is Off || completed_layer < 2 {
                None
            } else {
                Some((completed_layer - 2) as u32)
            }),
    {
        match &self.strategy {
            PrefetchStrategy::Off => None,
            _ => {
                if completed_layer >= 2 {
                    Some(completed_layer - 2)
                } else {
                    None
                }
            },
        }
    }
}

/// Before a layer the ones behind it are fetched, as many as the strategy looks
/// ahead, in order, as far as they exist and are not cached; without prefetching
/// none. Behind a layer the one two before it is released.
pub proof fn lemma_layers_are_fetched_and_released(
    p: &Prefetcher,
    current: u32,
    total: u32,
    cached: &[u32],
    fetched: Vec<u32>,
    released: Option<u32>,
    l: u32,
)
    requires
        call_ensures(Prefetcher::on_layer_start, (p, current, total, cached), fetched),
        call_ensures(Prefetcher::on_layer_done, (p, current), released),
        match p.strategy {
            PrefetchStrategy::LookAhead(n) => n <= u32::MAX,
            PrefetchStrategy::Off => true,
            PrefetchStrategy::BackgroundTouch(n) => n <= u32::MAX,
        },
    ensures
        forall|i: int, j: int|
            0 <= i < j < fetched@.len() ==> (#[trigger] fetched@[i]) < (#[trigger] fetched@[j]),
        ({
            let ahead = match p.strategy {
                PrefetchStrategy::LookAhead(n) => n as int,
                PrefetchStrategy::Off => 0,
                PrefetchStrategy::BackgroundTouch(n) => n as int,
            };
            fetched@.contains(l) <==> 1 <= l - current <= ahead && l < total && !cached@.contains(l)
        }),
        p.strategy is Off ==> released is None,
        !(p.strategy is Off) ==> (released is Some <==> current >= 2),
        released matches Some(k) ==> k + 2 == current,
{
}

/// Every page is touched: a page of 4096 bytes in front adds its first byte to what
/// the rest gives, and a last page of any size does as well.
pub proof fn lemma_each_page_is_touched(page: Seq<u8>, rest: Seq<u8>)
    requires
        page.len() == 4096,
        rest.len() > 0,
    ensures
        page_mix(page + rest) == page[0] ^ page_mix(rest),
        forall|n: int| 0 < n <= 4096 ==> page_mix(#[trigger] page.take(n)) == page[0],
{
    let all = page + rest;
    assert(all.skip(4096) == rest);
    assert forall|n: int| 0 < n <= 4096 implies page_mix(#[trigger] page.take(n)) == page[0] by {
        let head = page.take(n);
        let none = Seq::<u8>::empty();
        assert(page_mix(none) == 0);
        let b = page[0];
        assert(b ^ 0u8 == b) by (bit_vector);
        assert(page_mix(head) == b ^ page_mix(none));
    }
}

/// Touching a page and what follows it combines the first byte of the page with what
/// touching the rest gives; no data gives zero.
pub proof fn lemma_pages_are_touched(
    data: &[u8],
    page: Seq<u8>,
    rest: &[u8],
    r: u8,
    q: u8,
)
    requires
        call_ensures(touch_pages, (data,), r),
        call_ensures(touch_pages, (rest,), q),
    ensures
        data@.len() == 0 ==> r == 0,
        page.len() == 4096 && rest@.len() > 0 && data@ == page + rest@ ==> r == page[0] ^ q,
        0 < data@.len() <= 4096 ==> r == data@[0],
{
    if page.len() == 4096 && rest@.len() > 0 && data@ == page + rest@ {
        lemma_each_page_is_touched(page, rest@);
    }
    if 0 < data@.len() <= 4096 {
        let full = data@ + Seq::new((4096 - data@.len()) as nat, |i: int| 0u8);
        lemma_each_page_is_touched(full, seq![0u8]);
        assert(full.take(data@.len() as int) == data@);
    }
}

} // verus!
