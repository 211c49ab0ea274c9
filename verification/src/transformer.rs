//! Layer-by-layer inference: configuration, the schedule of a prefill, what
//! each layer computes on which tensors, and the decoding loop.
use crate::loader::LoadError;
use crate::model::{self, layer_tensor_name, GgmlType, GgufFile, TensorInfo};
use crate::sampler::{self, MirostatMode, Sampler};
use crate::single::Single;
use crate::streamer::{self, row_start, CachedLayer, SsdStreamer, Weight};
use crate::text::{self, chars_of, copy_strings, decimal_string, parse_u32, str_eq, string_copy};
use vstd::arithmetic::power2::*;
use vstd::prelude::*;

verus! {

/// 0.7, the default temperature.
pub const SEVEN_TENTHS: u32 = 0x3F33_3333;

/// Parameters of a generation.
#[derive(Debug)]
pub struct InferenceConfig {
    pub temperature: Single,
    pub top_k: usize,
    pub top_p: Single,
    pub max_tokens: usize,
    pub stop_sequences: Vec<String>,
    pub repetition_penalty: Single,
    pub frequency_penalty: Single,
    pub presence_penalty: Single,
    /// Tail-free threshold; 0 switches the filter off.
    pub tfs_z: Single,
    /// Mirostat mode: 1 and 2 are its versions, any other number is off.
    pub mirostat: u8,
    pub mirostat_tau: Single,
    pub mirostat_eta: Single,
    /// Grammar for constrained generation; none if empty.
    pub grammar: String,
    /// Min-p threshold; 0 switches the filter off.
    pub min_p: Single,
    /// Seed for reproducible sampling.
    pub seed: Option<u64>,
}

impl Default for InferenceConfig {
    fn default() -> (r: Self)
        ensures
            r.temperature.bits == SEVEN_TENTHS,
            r.top_k == 40,
            r.top_p.bits == sampler::NINE_TENTHS,
            r.max_tokens == 512,
            r.stop_sequences@.len() == 0,
            r.repetition_penalty.bits == sampler::ONE,
            r.frequency_penalty.bits == sampler::ZERO,
            r.presence_penalty.bits == sampler::ZERO,
            r.tfs_z.bits == sampler::ZERO,
            r.mirostat == 0,
            r.mirostat_tau.bits == sampler::FIVE,
            r.mirostat_eta.bits == sampler::TENTH,
            r.grammar@.len() == 0,
            r.min_p.bits == sampler::ZERO,
            r.seed is None,
    {
        InferenceConfig {
            temperature: Single { bits: SEVEN_TENTHS },
            top_k: 40,
            top_p: Single { bits: sampler::NINE_TENTHS },
            max_tokens: 512,
            stop_sequences: Vec::new(),
            repetition_penalty: Single { bits: sampler::ONE },
            frequency_penalty: Single { bits: sampler::ZERO },
            presence_penalty: Single { bits: sampler::ZERO },
            tfs_z: Single { bits: sampler::ZERO },
            mirostat: 0,
            mirostat_tau: Single { bits: sampler::FIVE },
            mirostat_eta: Single { bits: sampler::TENTH },
            grammar: String::new(),
            min_p: Single { bits: sampler::ZERO },
            seed: None,
        }
    }
}

impl InferenceConfig {
    /// The same sampling parameters.
    pub open spec fn samples_like(self, other: InferenceConfig) -> bool {
        &&& self.temperature == other.temperature
        &&& self.top_k == other.top_k
        &&& self.top_p == other.top_p
        &&& text::views(self.stop_sequences@) == text::views(other.stop_sequences@)
        &&& self.repetition_penalty == other.repetition_penalty
        &&& self.frequency_penalty == other.frequency_penalty
        &&& self.presence_penalty == other.presence_penalty
        &&& self.tfs_z == other.tfs_z
        &&& self.mirostat == other.mirostat
        &&& self.mirostat_tau == other.mirostat_tau
        &&& self.mirostat_eta == other.mirostat_eta
        &&& self.grammar@ == other.grammar@
        &&& self.min_p == other.min_p
        &&& self.seed == other.seed
    }
}

/// The configuration of a phase: the same sampling parameters, with the token
/// budget capped.
pub fn phase_inference_config(base: &InferenceConfig, max_tokens: usize) -> (r: InferenceConfig)
    ensures
        r.samples_like(*base),
        r.max_tokens == (if base.max_tokens < max_tokens {
            base.max_tokens
        } else {
            max_tokens
        }),
{
    InferenceConfig {
        temperature: base.temperature,
        top_k: base.top_k,
        top_p: base.top_p,
        max_tokens: if base.max_tokens < max_tokens {
            base.max_tokens
        } else {
            max_tokens
        },
        stop_sequences: copy_strings(base.stop_sequences.as_slice()),
        repetition_penalty: base.repetition_penalty,
        frequency_penalty: base.frequency_penalty,
        presence_penalty: base.presence_penalty,
        tfs_z: base.tfs_z,
        mirostat: base.mirostat,
        mirostat_tau: base.mirostat_tau,
        mirostat_eta: base.mirostat_eta,
        grammar: string_copy(base.grammar.as_str()),
        min_p: base.min_p,
        seed: base.seed,
    }
}

/// The seed of a configuration, or else the time.
pub open spec fn seed_of(config: InferenceConfig, nanos: u64) -> u64 {
    match config.seed {
        Some(seed) => seed,
        None => nanos,
    }
}

/// The sampler that a configuration asks for: Mirostat if its mode is 1 or 2;
/// else tail-free if its threshold lies strictly between 0 and 1; else min-p.
pub open spec fn samples_as_asked(config: InferenceConfig, nanos: u64, r: Sampler) -> bool {
    let zero = Single { bits: sampler::ZERO };
    let one = Single { bits: sampler::ONE };
    let least = Single { bits: sampler::HUNDREDTH };
    &&& r.temperature == config.temperature
    &&& r.rng_state == seed_of(config, nanos) ^ sampler::SEED_MASK
    &&& if config.mirostat == 1 || config.mirostat == 2 {
        &&& r.mirostat == if config.mirostat == 1 {
            MirostatMode::V1
        } else {
            MirostatMode::V2
        }
        &&& r.mirostat_tau == config.mirostat_tau.larger(zero)
        &&& r.mirostat_eta == config.mirostat_eta.clamped(zero, one)
        &&& r.mirostat_mu == config.mirostat_tau.doubled()
        &&& r.top_k == 40
        &&& r.top_p.bits == sampler::NINE_TENTHS
        &&& r.min_p == zero
        &&& r.tfs_z == zero
        &&& r.without_penalties()
    } else {
        &&& r.without_mirostat()
        &&& r.top_k == config.top_k
        &&& r.top_p == config.top_p
        &&& r.repetition_penalty == config.repetition_penalty.larger(least)
        &&& r.frequency_penalty == config.frequency_penalty
        &&& r.presence_penalty == config.presence_penalty
        &&& if zero.less(config.tfs_z) && config.tfs_z.less(one) {
            r.tfs_z == config.tfs_z && r.min_p == zero
        } else {
            r.tfs_z == zero && r.min_p == config.min_p.clamped(zero, one)
        }
    }
}

/// The sampler that a configuration asks for. `nanos` is the time, which seeds
/// a sampler without a configured seed.
pub fn build_sampler(config: &InferenceConfig, nanos: u64) -> (r: Sampler)
    ensures
        samples_as_asked(*config, nanos, r),
{
    let sampler = if config.mirostat == 1 || config.mirostat == 2 {
        let mode = if config.mirostat == 1 {
            MirostatMode::V1
        } else {
            MirostatMode::V2
        };
        Sampler::with_mirostat(
            config.temperature,
            mode,
            config.mirostat_tau,
            config.mirostat_eta,
            nanos,
        )
    } else if (Single { bits: sampler::ZERO }).is_less(&config.tfs_z) && config.tfs_z.is_less(
        &Single { bits: sampler::ONE },
    ) {
        Sampler::with_tfs(
            config.temperature,
            config.top_k,
            config.top_p,
            config.tfs_z,
            config.repetition_penalty,
            config.frequency_penalty,
            config.presence_penalty,
            nanos,
        )
    } else {
        Sampler::with_min_p(
            config.temperature,
            config.top_k,
            config.top_p,
            config.min_p,
            config.repetition_penalty,
            config.frequency_penalty,
            config.presence_penalty,
            nanos,
        )
    };
    match config.seed {
        Some(seed) => sampler.with_seed(seed),
        None => sampler,
    }
}

/// Why a model cannot be run.
#[derive(Clone, Copy, Debug, PartialEq, Eq, Structural)]
pub enum ModelError {
    /// No embedding dimension or no layers.
    Invalid { n_embd: u32, n_layers: u32 },
}

impl ModelError {
    /// The error in words.
    pub open spec fn words(self) -> Seq<char> {
        match self {
            ModelError::Invalid { n_embd, n_layers } => "Invalid model: n_embd="@ + text::decimal(
                n_embd as nat,
            ) + ", n_layers="@ + text::decimal(n_layers as nat),
        }
    }

    /// The error in words.
    pub fn message(&self) -> (r: String)
        ensures
            r@ == self.words(),
    {
        match self {
            ModelError::Invalid { n_embd, n_layers } => {
                let mut r = string_copy("Invalid model: n_embd=");
                r.append(decimal_string(*n_embd as u64).as_str());
                r.append(", n_layers=");
                r.append(decimal_string(*n_layers as u64).as_str());
                r
            },
        }
    }
}

/// Dimensions of a model.
#[derive(Clone, Copy, Debug, PartialEq, Eq, Structural)]
pub struct ModelShape {
    pub n_embd: usize,
    pub n_layers: u32,
    pub n_head: usize,
    pub n_head_kv: usize,
    /// Elements per attention head.
    pub head_dim: usize,
    pub vocab_size: usize,
    pub n_ctx: usize,
}

impl ModelShape {
    /// The dimensions are those of the model.
    pub open spec fn describes(self, gguf: GgufFile) -> bool {
        &&& self.n_embd == gguf.n_embd
        &&& self.n_layers == gguf.n_layers
        &&& self.n_head == gguf.n_head
        &&& self.n_head_kv == gguf.n_head_kv
        &&& self.head_dim == gguf.n_embd / gguf.n_head
        &&& self.vocab_size == gguf.vocab_size
        &&& self.n_ctx == gguf.n_ctx
    }
}

/// The model has an embedding dimension and layers.
pub open spec fn runnable(gguf: GgufFile) -> bool {
    gguf.n_embd > 0 && gguf.n_layers > 0
}

/// Why a model is not runnable.
pub open spec fn invalid(gguf: GgufFile) -> ModelError {
    ModelError::Invalid { n_embd: gguf.n_embd, n_layers: gguf.n_layers }
}

/// The dimensions of a model, unless it has no embedding dimension or no
/// layers.
pub fn model_shape(gguf: &GgufFile) -> (r: Result<ModelShape, ModelError>)
    requires
        gguf.n_head > 0,
    ensures
        match r {
            Ok(s) => runnable(*gguf) && s.describes(*gguf),
            Err(e) => !runnable(*gguf) && e == invalid(*gguf),
        },
{
    if gguf.n_embd == 0 || gguf.n_layers == 0 {
        return Err(ModelError::Invalid { n_embd: gguf.n_embd, n_layers: gguf.n_layers });
    }
    Ok(
        ModelShape {
            n_embd: gguf.n_embd as usize,
            n_layers: gguf.n_layers,
            n_head: gguf.n_head as usize,
            n_head_kv: gguf.n_head_kv as usize,
            head_dim: (gguf.n_embd / gguf.n_head) as usize,
            vocab_size: gguf.vocab_size as usize,
            n_ctx: gguf.n_ctx as usize,
        },
    )
}

/// How many layers run: all of them, or fewer where a limit is set. A limit
/// that is not a number is no limit.
pub open spec fn layers_run(n_layers: u32, limit: Option<&str>) -> u32 {
    match limit {
        Some(s) => match text::parsed_u32(s@) {
            Some(n) if n < n_layers => n,
            _ => n_layers,
        },
        None => n_layers,
    }
}

/// How many layers run.
pub fn effective_layers(n_layers: u32, limit: Option<&str>) -> (r: u32)
    ensures
        r == layers_run(n_layers, limit),
{
    match limit {
        Some(s) => {
            let chars = chars_of(s);
            match parse_u32(chars.as_slice()) {
                Some(n) => if n < n_layers {
                    n
                } else {
                    n_layers
                },
                None => n_layers,
            }
        },
        None => n_layers,
    }
}

/// A step of a prefill.
#[derive(Clone, Copy, Debug, PartialEq, Eq, Structural)]
pub enum PrefillStep {
    /// A layer is about to be used.
    Begin(u32),
    /// A token passes a layer.
    Forward { layer: u32, token: usize, position: usize },
    /// A layer has been used.
    End(u32),
}

/// Steps of one layer: every token passes it, in order.
pub open spec fn layer_steps(layer: int, n_tokens: int, start: int) -> Seq<PrefillStep> {
    seq![PrefillStep::Begin(layer as u32)] + Seq::new(
        n_tokens as nat,
        |t: int|
            PrefillStep::Forward {
                layer: layer as u32,
                token: t as usize,
                position: (start + t) as usize,
            },
    ) + seq![PrefillStep::End(layer as u32)]
}

/// Steps of the first `layers` layers, one layer after the other. Without
/// tokens there are none.
pub open spec fn prefill_schedule(layers: int, n_tokens: int, start: int) -> Seq<PrefillStep>
    decreases layers,
{
    if layers <= 0 || n_tokens == 0 {
        seq![]
    } else {
        prefill_schedule(layers - 1, n_tokens, start) + layer_steps(layers - 1, n_tokens, start)
    }
}

/// Some adapter changes the tensor.
pub open spec fn adapted(adapters: Seq<String>, name: Seq<char>) -> bool {
    exists|i: int| 0 <= i < adapters.len() && (#[trigger] adapters[i])@ == name
}

/// `list` holds the positions of the tensors that adapters change, in order.
pub open spec fn are_targets(names: Seq<Seq<char>>, adapters: Seq<String>, list: Seq<usize>) -> bool {
    &&& forall|k: int|
        0 <= k < list.len() ==> (#[trigger] list[k]) < names.len() && adapted(
            adapters,
            names[list[k] as int],
        )
    &&& forall|k: int, m: int| 0 <= k < m < list.len() ==> list[k] < list[m]
    &&& forall|i: int|
        0 <= i < names.len() && adapted(adapters, #[trigger] names[i]) ==> list.contains(i as usize)
}

/// The tensors that adapters change, by their positions in order.
pub fn lora_targets(names: &[String], adapters: &[String]) -> (r: Vec<usize>)
    ensures
        are_targets(text::views(names@), adapters@, r@),
{
    let ghost all = text::views(names@);
    let mut r: Vec<usize> = Vec::new();
    for i in 0..names.len()
        invariant
            all == text::views(names@),
            forall|k: int|
                0 <= k < r@.len() ==> (#[trigger] r@[k]) < i && adapted(
                    adapters@,
                    all[r@[k] as int],
                ),
            forall|k: int, m: int| 0 <= k < m < r@.len() ==> r@[k] < r@[m],
            forall|j: int|
                0 <= j < i && adapted(adapters@, #[trigger] all[j]) ==> r@.contains(
                    j as usize,
                ),
    {
        let mut found: bool = false;
        for a in 0..adapters.len()
            invariant
                i < names@.len(),
                found <==> exists|j: int| 0 <= j < a && (#[trigger] adapters@[j])@ == names@[i as int]@,
        {
            if str_eq(adapters[a].as_str(), names[i].as_str()) {
                found = true;
            }
        }
        let ghost before = r@;
        if found {
            r.push(i);
            assert(r@[before.len() as int] == i);
        }
        assert forall|j: int|
            0 <= j < i + 1 && adapted(adapters@, #[trigger] all[j]) implies r@.contains(
            j as usize,
        ) by {
            if j < i {
                let k = choose|k: int| 0 <= k < before.len() && before[k] == j as usize;
                assert(r@[k] == j as usize);
            }
        }
    }
    r
}

/// A prefill: its steps, and the positions of the model's tensors that adapters
/// change.
pub struct PrefillPlan {
    pub steps: Vec<PrefillStep>,
    pub adapted: Vec<usize>,
}

/// The names of some tensors.
pub open spec fn tensor_names(tensors: Seq<TensorInfo>) -> Seq<Seq<char>> {
    tensors.map_values(|t: TensorInfo| t.name@)
}

/// The prefill of a model with adapters: each layer that runs is loaded once,
/// and all tokens pass it before the next one is loaded. `limit` is the setting
/// that limits the layers.
pub fn batch_prefill_lora(
    gguf: &GgufFile,
    n_tokens: usize,
    start_position: usize,
    limit: Option<&str>,
    adapters: &[String],
) -> (r: PrefillPlan)
    requires
        start_position + n_tokens <= usize::MAX,
    ensures
        r.steps@ == prefill_schedule(
            layers_run(gguf.n_layers, limit) as int,
            n_tokens as int,
            start_position as int,
        ),
        are_targets(tensor_names(gguf.tensors@), adapters@, r.adapted@),
{
    let mut names: Vec<String> = Vec::new();
    for i in 0..gguf.tensors.len()
        invariant
            text::views(names@) == tensor_names(gguf.tensors@).take(i as int),
    {
        let ghost before = names@;
        let name = string_copy(gguf.tensors[i].name.as_str());
        names.push(name);
        assert(text::views(names@) == text::views(before).push(name@));
        let ghost all = tensor_names(gguf.tensors@);
        assert(all.take(i + 1) == all.take(i as int).push(all[i as int]));
    }
    assert(text::views(names@) == tensor_names(gguf.tensors@));
    let adapted = lora_targets(names.as_slice(), adapters);
    let layers: u32 = if n_tokens == 0 {
        0
    } else {
        effective_layers(gguf.n_layers, limit)
    };
    let mut r: Vec<PrefillStep> = Vec::new();
    for layer in 0..layers
        invariant
            layers > 0 ==> n_tokens > 0,
            start_position + n_tokens <= usize::MAX,
            r@ == prefill_schedule(layer as int, n_tokens as int, start_position as int),
    {
        let ghost before = r@;
        r.push(PrefillStep::Begin(layer));
        let ghost steps = layer_steps(layer as int, n_tokens as int, start_position as int);
        for t in 0..n_tokens
            invariant
                start_position + n_tokens <= usize::MAX,
                steps == layer_steps(layer as int, n_tokens as int, start_position as int),
                r@ == before + steps.take(t + 1),
        {
            r.push(PrefillStep::Forward { layer, token: t, position: start_position + t });
            assert(steps.take(t + 2) == steps.take(t + 1).push(steps[t + 1]));
            assert(r@ == before + steps.take(t + 2));
        }
        r.push(PrefillStep::End(layer));
        assert(steps == steps.take(n_tokens + 1).push(steps[n_tokens + 1]));
        assert(r@ == before + steps);
    }
    PrefillPlan { steps: r, adapted }
}

/// The steps of a model's prefill without adapters.
pub fn batch_prefill(
    gguf: &GgufFile,
    n_tokens: usize,
    start_position: usize,
    limit: Option<&str>,
) -> (r: Vec<PrefillStep>)
    requires
        start_position + n_tokens <= usize::MAX,
    ensures
        r@ == prefill_schedule(
            layers_run(gguf.n_layers, limit) as int,
            n_tokens as int,
            start_position as int,
        ),
{
    let adapters: Vec<String> = Vec::new();
    batch_prefill_lora(gguf, n_tokens, start_position, limit, adapters.as_slice()).steps
}

/// The steps by which one token passes a model: a prefill of that token.
pub fn forward_pass_pub(gguf: &GgufFile, position: usize, limit: Option<&str>) -> (r: Vec<
    PrefillStep,
>)
    requires
        position < usize::MAX,
    ensures
        r@ == prefill_schedule(layers_run(gguf.n_layers, limit) as int, 1, position as int),
{
    batch_prefill(gguf, 1, position, limit)
}

/// In the schedule each token passes each layer exactly at its place: layer by
/// layer, and in each layer token by token.
pub proof fn lemma_prefill_places(layers: int, n_tokens: int, start: int, layer: int, token: int)
    requires
        0 <= layer < layers,
        0 <= token < n_tokens,
    ensures
        prefill_schedule(layers, n_tokens, start).len() == layers * (n_tokens + 2),
        prefill_schedule(layers, n_tokens, start)[layer * (n_tokens + 2) + 1 + token] == (
        PrefillStep::Forward {
            layer: layer as u32,
            token: token as usize,
            position: (start + token) as usize,
        }),
        prefill_schedule(layers, n_tokens, start)[layer * (n_tokens + 2)] == PrefillStep::Begin(
            layer as u32,
        ),
    decreases layers,
{
    let n = n_tokens + 2;
    lemma_prefill_len(layers, n_tokens, start);
    lemma_prefill_len(layers - 1, n_tokens, start);
    let head = prefill_schedule(layers - 1, n_tokens, start);
    let all = prefill_schedule(layers, n_tokens, start);
    if layer < layers - 1 {
        lemma_prefill_places(layers - 1, n_tokens, start, layer, token);
        assert(layer * n + n <= (layers - 1) * n) by (nonlinear_arith)
            requires
                layer + 1 <= layers - 1,
                n > 0,
        ;
        assert(0 <= layer * n) by (nonlinear_arith)
            requires
                0 <= layer,
                n > 0,
        ;
        assert(all[layer * n + 1 + token] == head[layer * n + 1 + token]);
        assert(all[layer * n] == head[layer * n]);
    } else {
        let steps = layer_steps(layers - 1, n_tokens, start);
        assert(all[layer * n + 1 + token] == steps[1 + token]);
        assert(all[layer * n] == steps[0]);
    }
}

proof fn lemma_prefill_len(layers: int, n_tokens: int, start: int)
    requires
        0 <= layers,
        0 < n_tokens,
    ensures
        prefill_schedule(layers, n_tokens, start).len() == layers * (n_tokens + 2),
    decreases layers,
{
    if layers > 0 {
        lemma_prefill_len(layers - 1, n_tokens, start);
        assert((layers - 1) * (n_tokens + 2) + (n_tokens + 2) == layers * (n_tokens + 2))
            by (nonlinear_arith);
    } else {
        assert(layers * (n_tokens + 2) == 0) by (nonlinear_arith)
            requires
                layers == 0,
        ;
    }
}

/// The tensor of a layer with a suffix.
pub open spec fn layer_tensor(gguf: GgufFile, layer: u32, suffix: Seq<char>) -> Option<TensorInfo> {
    gguf.tensor(model::layer_name(layer as nat, suffix))
}

/// Every tensor's position and size can be computed without overflow.
pub open spec fn readable(gguf: GgufFile, streamer: SsdStreamer<'_>) -> bool {
    forall|i: int|
        0 <= i < gguf.tensors@.len() ==> streamer.addressable(#[trigger] gguf.tensors@[i])
            && gguf.tensors@[i].countable()
}

/// Whether every tensor's position and size can be computed without overflow.
pub fn is_readable(gguf: &GgufFile, streamer: &SsdStreamer<'_>) -> (b: bool)
    ensures
        b == readable(*gguf, *streamer),
{
    for i in 0..gguf.tensors.len()
        invariant
            forall|k: int|
                0 <= k < i ==> streamer.addressable(#[trigger] gguf.tensors@[k])
                    && gguf.tensors@[k].countable(),
    {
        let t = &gguf.tensors[i];
        let start: Option<u64> = streamer.loader.data_offset.checked_add(t.offset);
        let end: Option<u64> = match start {
            Some(a) => a.checked_add(t.size_bytes),
            None => None,
        };
        let count: Option<usize> = t.element_count();
        if end.is_none() || count.is_none() {
            assert(!(streamer.addressable(gguf.tensors@[i as int])
                && gguf.tensors@[i as int].countable()));
            return false;
        }
    }
    true
}

/// The decoded tensor with a name, if there is one and its data lies within the
/// file.
pub open spec fn decoded_if_present(
    gguf: GgufFile,
    streamer: SsdStreamer<'_>,
    name: Seq<char>,
) -> Option<Seq<Weight>> {
    match gguf.tensor(name) {
        Some(t) if streamer.within(t) => Some(streamer.decoded(t)),
        _ => None,
    }
}

/// The decoded tensor of a layer with a suffix, if there is one and its data
/// lies within the file.
pub open spec fn layer_weights(
    gguf: GgufFile,
    streamer: SsdStreamer<'_>,
    layer: u32,
    suffix: Seq<char>,
) -> Option<Seq<Weight>> {
    decoded_if_present(gguf, streamer, model::layer_name(layer as nat, suffix))
}

/// Decodes the tensor with a name, if there is one and its data lies within the
/// file.
pub fn try_load(gguf: &GgufFile, streamer: &SsdStreamer<'_>, name: &str) -> (r: Option<Vec<Weight>>)
    requires
        readable(*gguf, *streamer),
    ensures
        match r {
            Some(v) => decoded_if_present(*gguf, *streamer, name@) == Some(v@),
            None => decoded_if_present(*gguf, *streamer, name@) is None,
        },
{
    proof {
        model::lemma_position_of(gguf.tensors@, name@);
    }
    match streamer.load_named_tensor_f32(gguf, name) {
        Ok(v) => Some(v),
        Err(_) => None,
    }
}

/// The output dimension of a projection: its second dimension, or else the
/// embedding dimension.
pub open spec fn output_dim(tensor: TensorInfo, n_embd: usize) -> usize {
    if tensor.dimensions@.len() > 1 {
        tensor.dimensions@[1] as usize
    } else {
        n_embd
    }
}

fn projection_dim(tensor: &TensorInfo, n_embd: usize) -> (r: usize)
    ensures
        r == output_dim(*tensor, n_embd),
{
    if tensor.dimensions.len() > 1 {
        tensor.dimensions[1] as usize
    } else {
        n_embd
    }
}

/// A stored matrix: its bytes and their format.
pub struct Matrix<'a> {
    pub raw: &'a [u8],
    pub dtype: GgmlType,
}

impl<'a> Matrix<'a> {
    /// The matrix of a tensor.
    pub open spec fn holds(self, tensor: TensorInfo, streamer: SsdStreamer<'a>) -> bool {
        self.raw@ == streamer.data(tensor) && self.dtype == tensor.dtype
    }
}

fn load_matrix<'a>(streamer: &SsdStreamer<'a>, tensor: &TensorInfo) -> (r: Result<
    Matrix<'a>,
    LoadError,
>)
    requires
        streamer.addressable(*tensor),
    ensures
        match r {
            Ok(m) => streamer.within(*tensor) && m.holds(*tensor, *streamer),
            Err(e) => !streamer.within(*tensor) && e == streamer.bounds_error(*tensor),
        },
{
    match streamer.raw_tensor_data(tensor) {
        Ok(raw) => Ok(Matrix { raw, dtype: tensor.dtype }),
        Err(e) => Err(e),
    }
}

/// What attention of a layer computes on.
pub struct AttentionPlan<'a> {
    pub query: Matrix<'a>,
    pub key: Matrix<'a>,
    pub value: Matrix<'a>,
    pub output: Matrix<'a>,
    pub q_dim: usize,
    pub kv_dim: usize,
    /// Norms of queries and keys, where the model has them.
    pub q_norm: Option<Vec<Weight>>,
    pub k_norm: Option<Vec<Weight>>,
}

/// The elements that an optional tensor holds.
pub open spec fn view_of(v: Option<Vec<Weight>>) -> Option<Seq<Weight>> {
    match v {
        Some(w) => Some(w@),
        None => None,
    }
}

/// The error of the first of some tensors whose data does not lie within the
/// file.
pub open spec fn first_error(streamer: SsdStreamer<'_>, tensors: Seq<TensorInfo>) -> Option<
    LoadError,
>
    decreases tensors.len(),
{
    if tensors.len() == 0 {
        None
    } else if !streamer.within(tensors[0]) {
        Some(streamer.bounds_error(tensors[0]))
    } else {
        first_error(streamer, tensors.drop_first())
    }
}

/// The outcome of preparing the attention of a layer: a plan on the query, key,
/// value and output projections if the model has all four, and an error if the
/// data of one of them does not lie within the file.
pub open spec fn attention_as_stored<'a>(
    gguf: GgufFile,
    streamer: SsdStreamer<'a>,
    layer: u32,
    n_embd: usize,
    r: Result<Option<AttentionPlan<'a>>, LoadError>,
) -> bool {
    match (
        layer_tensor(gguf, layer, "attn_q.weight"@),
        layer_tensor(gguf, layer, "attn_k.weight"@),
        layer_tensor(gguf, layer, "attn_v.weight"@),
        layer_tensor(gguf, layer, "attn_output.weight"@),
    ) {
        (Some(q), Some(k), Some(v), Some(o)) => match r {
            Ok(plan) => {
                &&& first_error(streamer, seq![q, k, v, o]) is None
                &&& plan matches Some(p) && {
                    &&& p.query.holds(q, streamer)
                    &&& p.key.holds(k, streamer)
                    &&& p.value.holds(v, streamer)
                    &&& p.output.holds(o, streamer)
                    &&& p.q_dim == output_dim(q, n_embd)
                    &&& p.kv_dim == output_dim(k, n_embd)
                    &&& view_of(p.q_norm) == layer_weights(
                        gguf,
                        streamer,
                        layer,
                        "attn_q_norm.weight"@,
                    )
                    &&& view_of(p.k_norm) == layer_weights(
                        gguf,
                        streamer,
                        layer,
                        "attn_k_norm.weight"@,
                    )
                }
            },
            Err(e) => first_error(streamer, seq![q, k, v, o]) == Some(e),
        },
        _ => r matches Ok(None),
    }
}

/// The attention of a layer: on the query, key, value and output projections,
/// if the model has all four. Fails if the data of one does not lie within the
/// file.
pub fn attention_plan<'a>(
    gguf: &GgufFile,
    streamer: &SsdStreamer<'a>,
    layer_idx: u32,
    n_embd: usize,
) -> (r: Result<Option<AttentionPlan<'a>>, LoadError>)
    requires
        readable(*gguf, *streamer),
    ensures
        attention_as_stored(*gguf, *streamer, layer_idx, n_embd, r),
{
    let q_name = layer_tensor_name(layer_idx, "attn_q.weight");
    let k_name = layer_tensor_name(layer_idx, "attn_k.weight");
    let v_name = layer_tensor_name(layer_idx, "attn_v.weight");
    let o_name = layer_tensor_name(layer_idx, "attn_output.weight");
    let q_norm_name = layer_tensor_name(layer_idx, "attn_q_norm.weight");
    let k_norm_name = layer_tensor_name(layer_idx, "attn_k_norm.weight");
    let tq = gguf.find_tensor(q_name.as_str());
    let tk = gguf.find_tensor(k_name.as_str());
    let tv = gguf.find_tensor(v_name.as_str());
    let to = gguf.find_tensor(o_name.as_str());
    let q_norm = try_load(gguf, streamer, q_norm_name.as_str());
    let k_norm = try_load(gguf, streamer, k_norm_name.as_str());
    match (tq, tk, tv, to) {
        (Some(q), Some(k), Some(v), Some(o)) => {
            proof {
                reveal_with_fuel(first_error, 5);
                let all = seq![*q, *k, *v, *o];
                assert(all.drop_first() == seq![*k, *v, *o]);
                assert(seq![*k, *v, *o].drop_first() == seq![*v, *o]);
                assert(seq![*v, *o].drop_first() == seq![*o]);
                assert(seq![*o].drop_first() == Seq::<TensorInfo>::empty());
            }
            let query = match load_matrix(streamer, q) {
                Ok(m) => m,
                Err(e) => {
                    return Err(e);
                },
            };
            let key = match load_matrix(streamer, k) {
                Ok(m) => m,
                Err(e) => {
                    return Err(e);
                },
            };
            let value = match load_matrix(streamer, v) {
                Ok(m) => m,
                Err(e) => {
                    return Err(e);
                },
            };
            let output = match load_matrix(streamer, o) {
                Ok(m) => m,
                Err(e) => {
                    return Err(e);
                },
            };
            Ok(
                Some(
                    AttentionPlan {
                        query,
                        key,
                        value,
                        output,
                        q_dim: projection_dim(q, n_embd),
                        kv_dim: projection_dim(k, n_embd),
                        q_norm,
                        k_norm,
                    },
                ),
            )
        },
        _ => Ok(None),
    }
}

/// What the feed-forward part of a layer computes on.
pub struct FeedPlan<'a> {
    pub gate: Matrix<'a>,
    pub up: Matrix<'a>,
    pub down: Matrix<'a>,
    /// Output dimension of its gating matrix.
    pub n_ff: usize,
}

/// Where a layer has all three feed-forward projections within the file, its
/// gate has two dimensions.
pub open spec fn gated(gguf: GgufFile, streamer: SsdStreamer<'_>, layer: u32) -> bool {
    match (
        layer_tensor(gguf, layer, "ffn_gate.weight"@),
        layer_tensor(gguf, layer, "ffn_up.weight"@),
        layer_tensor(gguf, layer, "ffn_down.weight"@),
    ) {
        (Some(g), Some(u), Some(d)) => first_error(streamer, seq![g, u, d]) is None
            ==> g.dimensions@.len() > 1,
        _ => true,
    }
}

/// Whether a layer that has all three feed-forward projections within the file
/// has a gating matrix of two dimensions.
pub fn is_gated(gguf: &GgufFile, streamer: &SsdStreamer<'_>, layer_idx: u32) -> (b: bool)
    requires
        readable(*gguf, *streamer),
    ensures
        b == gated(*gguf, *streamer, layer_idx),
{
    let gate_name = layer_tensor_name(layer_idx, "ffn_gate.weight");
    let up_name = layer_tensor_name(layer_idx, "ffn_up.weight");
    let down_name = layer_tensor_name(layer_idx, "ffn_down.weight");
    let tg = gguf.find_tensor(gate_name.as_str());
    let tu = gguf.find_tensor(up_name.as_str());
    let td = gguf.find_tensor(down_name.as_str());
    match (tg, tu, td) {
        (Some(g), Some(u), Some(d)) => {
            proof {
                reveal_with_fuel(first_error, 4);
                assert(seq![*g, *u, *d].drop_first() == seq![*u, *d]);
                assert(seq![*u, *d].drop_first() == seq![*d]);
                assert(seq![*d].drop_first() == Seq::<TensorInfo>::empty());
            }
            streamer.raw_tensor_data(g).is_err() || streamer.raw_tensor_data(u).is_err()
                || streamer.raw_tensor_data(d).is_err() || g.dimensions.len() > 1
        },
        _ => true,
    }
}

/// The outcome of preparing the feed-forward part of a layer: a plan on the
/// gate, up and down projections if the model has all three, and an error if
/// the data of one of them does not lie within the file.
pub open spec fn feed_as_stored<'a>(
    gguf: GgufFile,
    streamer: SsdStreamer<'a>,
    layer: u32,
    r: Result<Option<FeedPlan<'a>>, LoadError>,
) -> bool {
    match (
        layer_tensor(gguf, layer, "ffn_gate.weight"@),
        layer_tensor(gguf, layer, "ffn_up.weight"@),
        layer_tensor(gguf, layer, "ffn_down.weight"@),
    ) {
        (Some(g), Some(u), Some(d)) => match r {
            Ok(plan) => {
                &&& first_error(streamer, seq![g, u, d]) is None
                &&& plan matches Some(p) && {
                    &&& p.gate.holds(g, streamer)
                    &&& p.up.holds(u, streamer)
                    &&& p.down.holds(d, streamer)
                    &&& p.n_ff == g.dimensions@[1] as usize
                }
            },
            Err(e) => first_error(streamer, seq![g, u, d]) == Some(e),
        },
        _ => r matches Ok(None),
    }
}

/// The feed-forward part of a layer: on its gate, up and down projections, if
/// the model has all three. Fails if the data of one does not lie within the
/// file.
pub fn feed_plan<'a>(gguf: &GgufFile, streamer: &SsdStreamer<'a>, layer_idx: u32) -> (r: Result<
    Option<FeedPlan<'a>>,
    LoadError,
>)
    requires
        readable(*gguf, *streamer),
        gated(*gguf, *streamer, layer_idx),
    ensures
        feed_as_stored(*gguf, *streamer, layer_idx, r),
{
    let gate_name = layer_tensor_name(layer_idx, "ffn_gate.weight");
    let up_name = layer_tensor_name(layer_idx, "ffn_up.weight");
    let down_name = layer_tensor_name(layer_idx, "ffn_down.weight");
    let tg = gguf.find_tensor(gate_name.as_str());
    let tu = gguf.find_tensor(up_name.as_str());
    let td = gguf.find_tensor(down_name.as_str());
    match (tg, tu, td) {
        (Some(g), Some(u), Some(d)) => {
            proof {
                reveal_with_fuel(first_error, 4);
                assert(seq![*g, *u, *d].drop_first() == seq![*u, *d]);
                assert(seq![*u, *d].drop_first() == seq![*d]);
                assert(seq![*d].drop_first() == Seq::<TensorInfo>::empty());
            }
            let gate = match load_matrix(streamer, g) {
                Ok(m) => m,
                Err(e) => {
                    return Err(e);
                },
            };
            let up = match load_matrix(streamer, u) {
                Ok(m) => m,
                Err(e) => {
                    return Err(e);
                },
            };
            let down = match load_matrix(streamer, d) {
                Ok(m) => m,
                Err(e) => {
                    return Err(e);
                },
            };
            Ok(Some(FeedPlan { gate, up, down, n_ff: g.dimensions[1] as usize }))
        },
        _ => Ok(None),
    }
}

/// Norm weights of a layer: before attention, or before the feed-forward part.
pub fn norm_weights(
    gguf: &GgufFile,
    streamer: &SsdStreamer<'_>,
    layer_idx: u32,
    before_attention: bool,
) -> (r: Option<Vec<Weight>>)
    requires
        readable(*gguf, *streamer),
    ensures
        view_of(r) == layer_weights(
            *gguf,
            *streamer,
            layer_idx,
            if before_attention {
                "attn_norm.weight"@
            } else {
                "ffn_norm.weight"@
            },
        ),
{
    let name = if before_attention {
        layer_tensor_name(layer_idx, "attn_norm.weight")
    } else {
        layer_tensor_name(layer_idx, "ffn_norm.weight")
    };
    try_load(gguf, streamer, name.as_str())
}

/// What a token's pass through a layer computes on: each part on a normalized
/// copy of the hidden state, to which its result is added.
pub struct LayerPlan<'a> {
    pub attn_norm: Option<Vec<Weight>>,
    pub attention: Option<AttentionPlan<'a>>,
    pub ffn_norm: Option<Vec<Weight>>,
    pub feed: Option<FeedPlan<'a>>,
}

/// Prepares a token's pass through a layer: attention, then the feed-forward
/// part, each with its norm. A part that the model does not have is left out;
/// data outside the file is an error, that of attention first.
pub fn streaming_layer_forward<'a>(
    gguf: &GgufFile,
    streamer: &SsdStreamer<'a>,
    layer_idx: u32,
    n_embd: usize,
) -> (r: Result<LayerPlan<'a>, LoadError>)
    requires
        readable(*gguf, *streamer),
        gated(*gguf, *streamer, layer_idx),
    ensures
        match r {
            Ok(p) => {
                &&& view_of(p.attn_norm) == layer_weights(
                    *gguf,
                    *streamer,
                    layer_idx,
                    "attn_norm.weight"@,
                )
                &&& attention_as_stored(*gguf, *streamer, layer_idx, n_embd, Ok(p.attention))
                &&& view_of(p.ffn_norm) == layer_weights(
                    *gguf,
                    *streamer,
                    layer_idx,
                    "ffn_norm.weight"@,
                )
                &&& feed_as_stored(*gguf, *streamer, layer_idx, Ok(p.feed))
            },
            Err(e) => {
                ||| attention_as_stored(*gguf, *streamer, layer_idx, n_embd, Err(e))
                ||| {
                    &&& exists|plan: Option<AttentionPlan<'a>>| #[trigger]
                        attention_as_stored(*gguf, *streamer, layer_idx, n_embd, Ok(plan))
                    &&& feed_as_stored(*gguf, *streamer, layer_idx, Err(e))
                }
            },
        },
{
    let attn_norm = norm_weights(gguf, streamer, layer_idx, true);
    let attention = match attention_plan(gguf, streamer, layer_idx, n_embd) {
        Ok(plan) => plan,
        Err(e) => {
            return Err(e);
        },
    };
    let ffn_norm = norm_weights(gguf, streamer, layer_idx, false);
    let feed = match feed_plan(gguf, streamer, layer_idx) {
        Ok(plan) => plan,
        Err(e) => {
            return Err(e);
        },
    };
    Ok(LayerPlan { attn_norm, attention, ffn_norm, feed })
}

/// The row that embeds a token of a prompt.
pub open spec fn embedding_row(
    gguf: GgufFile,
    streamer: SsdStreamer<'_>,
    token: u32,
    n_embd: usize,
) -> Seq<Weight> {
    match gguf.tensor("token_embd.weight"@) {
        Some(t) if streamer.within(t) => streamer::tensor_row(
            streamer.data(t),
            t,
            token as int,
            n_embd as int,
        ),
        _ => streamer::zeros(n_embd as int),
    }
}

/// The rows that embed some tokens: from the embedding tensor if the model has
/// it and its data lies within the file, else zeros.
pub fn prompt_embeddings(
    gguf: &GgufFile,
    streamer: &SsdStreamer<'_>,
    tokens: &[u32],
    n_embd: usize,
) -> (r: Vec<Vec<Weight>>)
    requires
        readable(*gguf, *streamer),
        gguf.tensor("token_embd.weight"@) matches Some(t) ==> t.dtype.elements() > 0,
    ensures
        r@.len() == tokens@.len(),
        forall|k: int|
            0 <= k < tokens@.len() ==> (#[trigger] r@[k])@ == embedding_row(
                *gguf,
                *streamer,
                tokens@[k],
                n_embd,
            ),
{
    match gguf.find_tensor("token_embd.weight") {
        Some(t) => match streamer.load_tensor_rows(t, tokens, n_embd) {
            Ok(rows) => {
                return rows;
            },
            Err(_) => {},
        },
        None => {},
    }
    let mut r: Vec<Vec<Weight>> = Vec::new();
    for i in 0..tokens.len()
        invariant
            r@.len() == i,
            forall|k: int| 0 <= k < i ==> (#[trigger] r@[k])@ == streamer::zeros(n_embd as int),
    {
        r.push(streamer::zero_row(n_embd));
    }
    r
}

/// The row of a decoded embedding table for a token, if the table holds it.
pub fn table_row(table: &[Weight], token: u32, n_embd: usize) -> (r: Option<Vec<Weight>>)
    ensures
        r is Some <==> token * n_embd + n_embd <= table@.len(),
        r matches Some(row) ==> row@ == streamer::decoded_row(
            table@,
            token as int,
            n_embd as int,
        ),
{
    match row_start(token, n_embd, table.len()) {
        Some(at) => Some(vstd::slice::slice_to_vec(&table[at..at + n_embd])),
        None => None,
    }
}

/// The rows of a decoded embedding table for some tokens. A token that the
/// table does not hold, or any token without a table, has zeros.
pub fn table_embeddings(table: Option<&Vec<Weight>>, tokens: &[u32], n_embd: usize) -> (r: Vec<
    Vec<Weight>,
>)
    ensures
        r@.len() == tokens@.len(),
        forall|k: int|
            0 <= k < tokens@.len() ==> (#[trigger] r@[k])@ == match table {
                Some(t) => streamer::decoded_row(t@, tokens@[k] as int, n_embd as int),
                None => streamer::zeros(n_embd as int),
            },
{
    let mut r: Vec<Vec<Weight>> = Vec::new();
    for i in 0..tokens.len()
        invariant
            r@.len() == i,
            forall|k: int|
                0 <= k < i ==> (#[trigger] r@[k])@ == match table {
                    Some(t) => streamer::decoded_row(t@, tokens@[k] as int, n_embd as int),
                    None => streamer::zeros(n_embd as int),
                },
    {
        let row = match table {
            Some(t) => match table_row(t.as_slice(), tokens[i], n_embd) {
                Some(row) => row,
                None => streamer::zero_row(n_embd),
            },
            None => streamer::zero_row(n_embd),
        };
        r.push(row);
    }
    r
}

/// The output projection through the embedding tensor on its stored bytes.
pub struct TiedOutput<'a> {
    pub norm: Vec<Weight>,
    pub matrix: Matrix<'a>,
}

/// The projection is that of the model: through the output norm and the
/// embeddings, if it has both within the file.
pub open spec fn projects_tied<'a>(
    gguf: GgufFile,
    streamer: SsdStreamer<'a>,
    r: Option<TiedOutput<'a>>,
) -> bool {
    match (
        decoded_if_present(gguf, streamer, "output_norm.weight"@),
        gguf.tensor("token_embd.weight"@),
    ) {
        (Some(norm), Some(t)) => if streamer.within(t) {
            r matches Some(o) && o.norm@ == norm && o.matrix.holds(t, streamer)
        } else {
            r is None
        },
        _ => r is None,
    }
}

/// The tied output projection, if the model has the output norm and the
/// embeddings, both within the file. Without it all logits are zero.
pub fn tied_output<'a>(gguf: &GgufFile, streamer: &SsdStreamer<'a>) -> (r: Option<TiedOutput<'a>>)
    requires
        readable(*gguf, *streamer),
    ensures
        projects_tied(*gguf, *streamer, r),
{
    let norm = match try_load(gguf, streamer, "output_norm.weight") {
        Some(n) => n,
        None => {
            return None;
        },
    };
    let tensor = match gguf.find_tensor("token_embd.weight") {
        Some(t) => t,
        None => {
            return None;
        },
    };
    match load_matrix(streamer, tensor) {
        Ok(matrix) => Some(TiedOutput { norm, matrix }),
        Err(_) => None,
    }
}

/// The output projection on decoded weights: with the final norm, without it,
/// or none, and then all logits are zero.
pub enum OutputPlan {
    Normed(Vec<Weight>, Vec<Weight>),
    Bare(Vec<Weight>),
    Zero,
}

/// The plan is that of the model: on the output tensor, or else the embeddings.
pub open spec fn projects(gguf: GgufFile, streamer: SsdStreamer<'_>, plan: OutputPlan) -> bool {
    let norm = decoded_if_present(gguf, streamer, "output_norm.weight"@);
    let output = match decoded_if_present(gguf, streamer, "output.weight"@) {
        Some(w) => Some(w),
        None => decoded_if_present(gguf, streamer, "token_embd.weight"@),
    };
    match (norm, output) {
        (Some(n), Some(w)) => plan matches OutputPlan::Normed(rn, rw) && rn@ == n && rw@ == w,
        (None, Some(w)) => plan matches OutputPlan::Bare(rw) && rw@ == w,
        (_, None) => plan is Zero,
    }
}

/// The decoded output projection: the output tensor, or else the embeddings.
pub fn output_plan(gguf: &GgufFile, streamer: &SsdStreamer<'_>) -> (r: OutputPlan)
    requires
        readable(*gguf, *streamer),
    ensures
        projects(*gguf, *streamer, r),
{
    let norm = try_load(gguf, streamer, "output_norm.weight");
    let output = match try_load(gguf, streamer, "output.weight") {
        Some(w) => Some(w),
        None => try_load(gguf, streamer, "token_embd.weight"),
    };
    match (norm, output) {
        (Some(n), Some(w)) => OutputPlan::Normed(n, w),
        (None, Some(w)) => OutputPlan::Bare(w),
        (_, None) => OutputPlan::Zero,
    }
}

/// What a decoding loop does next.
#[derive(Clone, Copy, Debug, PartialEq, Eq, Structural)]
pub enum DecodeStep {
    /// Generation is over.
    Stop,
    /// The logits of the next token are needed.
    Sample,
}

/// State of a generation.
pub struct Decoder {
    /// Position of the next token.
    pub position: usize,
    /// Tokens that may still be generated.
    pub remaining: usize,
    pub done: bool,
    pub eos_id: u32,
    /// Tokens that were generated.
    pub generated: Vec<u32>,
}

/// What the state of a generation says.
#[verifier::ext_equal]
pub struct DecoderData {
    pub position: int,
    pub remaining: int,
    pub done: bool,
    pub eos_id: u32,
    pub generated: Seq<u32>,
}

impl View for Decoder {
    type V = DecoderData;

    open spec fn view(&self) -> DecoderData {
        DecoderData {
            position: self.position as int,
            remaining: self.remaining as int,
            done: self.done,
            eos_id: self.eos_id,
            generated: self.generated@,
        }
    }
}

impl DecoderData {
    /// No other token is to be sampled.
    pub open spec fn is_over(self, cache_full: bool) -> bool {
        self.done || self.remaining == 0 || cache_full
    }

    /// The token ends a generation.
    pub open spec fn ends(self, token: u32) -> bool {
        token == self.eos_id || token == 0
    }

    /// The state after it was asked whether another token is to be sampled.
    pub open spec fn polled(self, cache_full: bool) -> DecoderData {
        DecoderData { done: self.done || (self.remaining != 0 && cache_full), ..self }
    }

    /// The state after a token was sampled.
    pub open spec fn accepted(self, token: u32) -> DecoderData {
        DecoderData { done: self.done || self.ends(token), ..self }
    }

    /// The state after a token was computed.
    pub open spec fn advanced(self, token: u32) -> DecoderData {
        DecoderData {
            position: self.position + 1,
            remaining: self.remaining - 1,
            generated: self.generated.push(token),
            ..self
        }
    }
}

impl Decoder {
    /// The state reached from a prompt of `prompt` tokens with a budget: each
    /// generated token took one position and one of the budget, and none of
    /// them ends a generation.
    pub open spec fn follows(self, prompt: int, budget: int) -> bool {
        &&& self.position == prompt + self.generated@.len()
        &&& self.remaining == budget - self.generated@.len()
        &&& forall|i: int|
            0 <= i < self.generated@.len() ==> !self.ends(#[trigger] self.generated@[i])
    }

    /// The token ends a generation.
    pub open spec fn ends(self, token: u32) -> bool {
        token == self.eos_id || token == 0
    }

    /// A generation behind a prompt.
    pub fn new(prompt_len: usize, max_tokens: usize, eos_id: u32) -> (r: Self)
        ensures
            r.follows(prompt_len as int, max_tokens as int),
            r.generated@.len() == 0,
            !r.done,
            r.eos_id == eos_id,
    {
        Decoder {
            position: prompt_len,
            remaining: max_tokens,
            done: false,
            eos_id,
            generated: Vec::new(),
        }
    }

    /// Whether another token is to be sampled: not if the generation is over,
    /// the budget is used up or the key-value cache is full.
    pub fn poll(&mut self, cache_full: bool) -> (r: DecodeStep)
        ensures
            r == (if old(self).done || old(self).remaining == 0 || cache_full {
                DecodeStep::Stop
            } else {
                DecodeStep::Sample
            }),
            *final(self) == (Decoder {
                done: old(self).done || (old(self).remaining > 0 && cache_full),
                ..*old(self)
            }),
            r is Stop <==> old(self)@.is_over(cache_full),
            final(self)@ == old(self)@.polled(cache_full),
    {
        if self.done || self.remaining == 0 {
            return DecodeStep::Stop;
        }
        if cache_full {
            self.done = true;
            return DecodeStep::Stop;
        }
        DecodeStep::Sample
    }

    /// Takes a sampled token: the position at which it is to be computed, or
    /// none if it ends the generation.
    pub fn accept(&mut self, token: u32) -> (r: Option<usize>)
        ensures
            r == (if old(self).ends(token) {
                None
            } else {
                Some(old(self).position)
            }),
            *final(self) == (Decoder { done: old(self).done || r is None, ..*old(self) }),
            final(self)@ == old(self)@.accepted(token),
    {
        if token == self.eos_id || token == 0 {
            self.done = true;
            None
        } else {
            Some(self.position)
        }
    }

    /// Records a token that has been computed.
    pub fn advance(&mut self, token: u32)
        requires
            old(self).remaining > 0,
            old(self).position < usize::MAX,
        ensures
            final(self).position == old(self).position + 1,
            final(self).remaining == old(self).remaining - 1,
            final(self).generated@ == old(self).generated@.push(token),
            final(self).done == old(self).done,
            final(self).eos_id == old(self).eos_id,
            forall|prompt: int, budget: int| #[trigger]
                old(self).follows(prompt, budget) && !old(self).ends(token) ==> final(self).follows(
                    prompt,
                    budget,
                ),
            final(self)@ == old(self)@.advanced(token),
    {
        self.generated.push(token);
        self.position = self.position + 1;
        self.remaining = self.remaining - 1;
    }
}

/// A generation never exceeds its budget, and its length tells the position.
pub proof fn lemma_generation_within_budget(d: Decoder, prompt: int, budget: int)
    requires
        d.follows(prompt, budget),
    ensures
        d.generated@.len() <= budget,
        d.position - prompt == d.generated@.len(),
        d.generated@.len() + d.remaining == budget,
{
}

/// What happens when a generation is asked for its next token: whether the
/// key-value cache is full, which token is sampled, and whether it passes the
/// model without an error.
pub struct Turn {
    pub cache_full: bool,
    pub token: u32,
    pub passes: bool,
}

/// What a generation answers.
pub enum Answer {
    /// A token.
    Piece(u32),
    /// None: the generation has ended.
    End,
    /// An error of the pass.
    Failed,
}

impl DecoderData {
    /// The state after a turn, and the answer: it is asked whether a token is to
    /// be sampled, the token is taken, and is recorded behind its pass.
    pub open spec fn turn(self, t: Turn) -> (DecoderData, Answer) {
        if self.is_over(t.cache_full) {
            (self.polled(t.cache_full), Answer::End)
        } else if self.ends(t.token) {
            (self.polled(t.cache_full).accepted(t.token), Answer::End)
        } else if !t.passes {
            (self.polled(t.cache_full).accepted(t.token), Answer::Failed)
        } else {
            (self.polled(t.cache_full).accepted(t.token).advanced(t.token), Answer::Piece(t.token))
        }
    }

    /// The state after some turns.
    pub open spec fn after(self, turns: Seq<Turn>) -> DecoderData
        decreases turns.len(),
    {
        if turns.len() == 0 {
            self
        } else {
            self.after(turns.drop_last()).turn(turns.last()).0
        }
    }

    /// The answer to turn `i`.
    pub open spec fn answer(self, turns: Seq<Turn>, i: int) -> Answer {
        self.after(turns.take(i)).turn(turns[i]).1
    }

    /// The tokens that some turns gave.
    pub open spec fn pieces(self, turns: Seq<Turn>) -> Seq<u32>
        decreases turns.len(),
    {
        if turns.len() == 0 {
            seq![]
        } else {
            let before = self.pieces(turns.drop_last());
            match self.after(turns.drop_last()).turn(turns.last()).1 {
                Answer::Piece(t) => before.push(t),
                _ => before,
            }
        }
    }
}

proof fn lemma_after_one_more(d: DecoderData, turns: Seq<Turn>, i: int)
    requires
        0 <= i < turns.len(),
    ensures
        d.after(turns.take(i + 1)) == d.after(turns.take(i)).turn(turns[i]).0,
{
    assert(turns.take(i + 1).drop_last() == turns.take(i));
}

/// The end of a generation is final: once it has answered none, it answers none
/// ever after.
pub proof fn lemma_end_is_final(d: DecoderData, turns: Seq<Turn>, i: int, j: int)
    requires
        0 <= i <= j < turns.len(),
        d.answer(turns, i) is End,
    ensures
        d.answer(turns, j) is End,
        i < j ==> d.after(turns.take(j)).is_over(false),
    decreases j - i,
{
    if i < j {
        lemma_end_is_final(d, turns, i, j - 1);
        lemma_after_one_more(d, turns, j - 1);
    }
}

/// A generation gives no more tokens than its budget, records exactly those that
/// it gave, and gives none that ends a generation.
pub proof fn lemma_pieces_within_budget(d: DecoderData, turns: Seq<Turn>)
    requires
        d.remaining >= 0,
    ensures
        d.after(turns).generated == d.generated + d.pieces(turns),
        d.after(turns).remaining == d.remaining - d.pieces(turns).len(),
        d.after(turns).position == d.position + d.pieces(turns).len(),
        d.after(turns).eos_id == d.eos_id,
        d.pieces(turns).len() <= d.remaining,
        forall|i: int| 0 <= i < d.pieces(turns).len() ==> !d.ends(#[trigger] d.pieces(turns)[i]),
    decreases turns.len(),
{
    if turns.len() > 0 {
        lemma_pieces_within_budget(d, turns.drop_last());
    }
}

/// A generation that is ready to start: the rows of its prompt, the schedule in
/// which they pass the layers, and the state behind the prompt.
pub struct GenerationPlan {
    pub shape: ModelShape,
    pub sampler: Sampler,
    pub rows: Vec<Vec<Weight>>,
    pub steps: Vec<PrefillStep>,
    pub decoder: Decoder,
}

impl GenerationPlan {
    /// The plan fits a model, a prompt and a configuration; only the rows are
    /// left open.
    pub open spec fn fits(
        self,
        gguf: GgufFile,
        tokens: Seq<u32>,
        config: InferenceConfig,
        eos_id: u32,
        limit: Option<&str>,
        nanos: u64,
    ) -> bool {
        &&& runnable(gguf) && self.shape.describes(gguf)
        &&& samples_as_asked(config, nanos, self.sampler)
        &&& self.rows@.len() == tokens.len()
        &&& self.steps@ == prefill_schedule(
            layers_run(gguf.n_layers, limit) as int,
            tokens.len() as int,
            0,
        )
        &&& self.decoder.follows(tokens.len() as int, config.max_tokens as int)
        &&& self.decoder.generated@.len() == 0
        &&& !self.decoder.done
        &&& self.decoder.eos_id == eos_id
    }
}

fn plan_generation(
    gguf: &GgufFile,
    rows: Vec<Vec<Weight>>,
    shape: ModelShape,
    config: &InferenceConfig,
    eos_id: u32,
    limit: Option<&str>,
    nanos: u64,
) -> (r: GenerationPlan)
    requires
        runnable(*gguf),
        shape.describes(*gguf),
    ensures
        forall|tokens: Seq<u32>|
            tokens.len() == rows@.len() ==> #[trigger] r.fits(
                *gguf,
                tokens,
                *config,
                eos_id,
                limit,
                nanos,
            ),
        r.rows == rows,
{
    let n: usize = rows.len();
    let steps = batch_prefill(gguf, n, 0, limit);
    GenerationPlan {
        shape,
        sampler: build_sampler(config, nanos),
        rows,
        steps,
        decoder: Decoder::new(n, config.max_tokens, eos_id),
    }
}

/// Prepares a generation: the prompt's rows are read one by one from the stored
/// embeddings. `limit` is the setting that limits the layers, `nanos` the time.
pub fn generate(
    gguf: &GgufFile,
    streamer: &SsdStreamer<'_>,
    tokens: &[u32],
    config: &InferenceConfig,
    eos_id: u32,
    limit: Option<&str>,
    nanos: u64,
) -> (r: Result<GenerationPlan, ModelError>)
    requires
        readable(*gguf, *streamer),
        gguf.n_head > 0,
        gguf.tensor("token_embd.weight"@) matches Some(t) ==> t.dtype.elements() > 0,
    ensures
        match r {
            Ok(p) => {
                &&& p.fits(*gguf, tokens@, *config, eos_id, limit, nanos)
                &&& forall|k: int|
                    0 <= k < tokens@.len() ==> (#[trigger] p.rows@[k])@ == embedding_row(
                        *gguf,
                        *streamer,
                        tokens@[k],
                        gguf.n_embd as usize,
                    )
            },
            Err(e) => !runnable(*gguf) && e == invalid(*gguf),
        },
{
    let shape = match model_shape(gguf) {
        Ok(s) => s,
        Err(e) => {
            return Err(e);
        },
    };
    let rows = prompt_embeddings(gguf, streamer, tokens, shape.n_embd);
    let p = plan_generation(gguf, rows, shape, config, eos_id, limit, nanos);
    assert(p.fits(*gguf, tokens@, *config, eos_id, limit, nanos));
    Ok(p)
}

/// The row that embeds a token in a decoded table.
pub open spec fn decoded_embedding(
    gguf: GgufFile,
    streamer: SsdStreamer<'_>,
    token: u32,
    n_embd: usize,
) -> Seq<Weight> {
    match decoded_if_present(gguf, streamer, "token_embd.weight"@) {
        Some(t) => streamer::decoded_row(t, token as int, n_embd as int),
        None => streamer::zeros(n_embd as int),
    }
}

fn decoded_embeddings(
    gguf: &GgufFile,
    streamer: &SsdStreamer<'_>,
    tokens: &[u32],
    n_embd: usize,
) -> (r: Vec<Vec<Weight>>)
    requires
        readable(*gguf, *streamer),
    ensures
        r@.len() == tokens@.len(),
        forall|k: int|
            0 <= k < tokens@.len() ==> (#[trigger] r@[k])@ == decoded_embedding(
                *gguf,
                *streamer,
                tokens@[k],
                n_embd,
            ),
{
    let table = try_load(gguf, streamer, "token_embd.weight");
    table_embeddings(table.as_ref(), tokens, n_embd)
}

/// Prepares a generation that yields its tokens one at a time: the prompt's
/// rows are cut from the decoded embeddings.
pub fn generate_streaming(
    gguf: &GgufFile,
    streamer: &SsdStreamer<'_>,
    tokens: &[u32],
    config: &InferenceConfig,
    eos_id: u32,
    limit: Option<&str>,
    nanos: u64,
) -> (r: Result<GenerationPlan, ModelError>)
    requires
        readable(*gguf, *streamer),
        gguf.n_head > 0,
    ensures
        match r {
            Ok(p) => {
                &&& p.fits(*gguf, tokens@, *config, eos_id, limit, nanos)
                &&& forall|k: int|
                    0 <= k < tokens@.len() ==> (#[trigger] p.rows@[k])@ == decoded_embedding(
                        *gguf,
                        *streamer,
                        tokens@[k],
                        gguf.n_embd as usize,
                    )
            },
            Err(e) => !runnable(*gguf) && e == invalid(*gguf),
        },
{
    let shape = match model_shape(gguf) {
        Ok(s) => s,
        Err(e) => {
            return Err(e);
        },
    };
    let rows = decoded_embeddings(gguf, streamer, tokens, shape.n_embd);
    let p = plan_generation(gguf, rows, shape, config, eos_id, limit, nanos);
    assert(p.fits(*gguf, tokens@, *config, eos_id, limit, nanos));
    Ok(p)
}

/// An embedding of a text that is ready to be computed: the rows of its tokens,
/// the schedule in which they pass the layers, and the final norm.
pub struct EmbeddingPlan {
    pub shape: ModelShape,
    pub rows: Vec<Vec<Weight>>,
    pub steps: Vec<PrefillStep>,
    pub norm: Option<Vec<Weight>>,
}

/// Prepares the embedding of a text: the last token's hidden state behind all
/// layers, normalized where the model has the final norm.
pub fn embed(
    gguf: &GgufFile,
    streamer: &SsdStreamer<'_>,
    tokens: &[u32],
    limit: Option<&str>,
) -> (r: Result<EmbeddingPlan, ModelError>)
    requires
        readable(*gguf, *streamer),
        gguf.n_head > 0,
    ensures
        match r {
            Ok(p) => {
                &&& runnable(*gguf) && p.shape.describes(*gguf)
                &&& p.rows@.len() == tokens@.len()
                &&& forall|k: int|
                    0 <= k < tokens@.len() ==> (#[trigger] p.rows@[k])@ == decoded_embedding(
                        *gguf,
                        *streamer,
                        tokens@[k],
                        gguf.n_embd as usize,
                    )
                &&& p.steps@ == prefill_schedule(
                    layers_run(gguf.n_layers, limit) as int,
                    tokens@.len() as int,
                    0,
                )
                &&& view_of(p.norm) == decoded_if_present(
                    *gguf,
                    *streamer,
                    "output_norm.weight"@,
                )
            },
            Err(e) => !runnable(*gguf) && e == invalid(*gguf),
        },
{
    let shape = match model_shape(gguf) {
        Ok(s) => s,
        Err(e) => {
            return Err(e);
        },
    };
    let rows = decoded_embeddings(gguf, streamer, tokens, shape.n_embd);
    let steps = batch_prefill(gguf, rows.len(), 0, limit);
    let norm = try_load(gguf, streamer, "output_norm.weight");
    Ok(EmbeddingPlan { shape, rows, steps, norm })
}

/// How a token that was generated passes the model.
pub struct TokenPass {
    /// The hidden state before the first layer; without it the state stays.
    pub row: Option<Vec<Weight>>,
    pub steps: Vec<PrefillStep>,
}

/// The row that embeds a token, from the stored embeddings, if the model has
/// them within the file.
pub fn token_row(gguf: &GgufFile, streamer: &SsdStreamer<'_>, token: u32, n_embd: usize) -> (r:
    Option<Vec<Weight>>)
    requires
        readable(*gguf, *streamer),
        gguf.tensor("token_embd.weight"@) matches Some(t) ==> t.dtype.elements() > 0,
    ensures
        match gguf.tensor("token_embd.weight"@) {
            Some(t) if streamer.within(t) => r matches Some(row) && row@ == embedding_row(
                *gguf,
                *streamer,
                token,
                n_embd,
            ),
            _ => r is None,
        },
{
    let tokens: [u32; 1] = [token];
    match gguf.find_tensor("token_embd.weight") {
        Some(t) => match streamer.load_tensor_rows(t, &tokens, n_embd) {
            Ok(rows) => {
                let mut rows = rows;
                assert(rows@[0]@ == streamer::tensor_row(
                    streamer.data(*t),
                    *t,
                    token as int,
                    n_embd as int,
                ));
                rows.pop()
            },
            Err(_) => None,
        },
        None => None,
    }
}

impl Decoder {
    /// Begins the next token of a generation: the tied output projection on the
    /// hidden state, or none, and then all logits are zero; unless the
    /// generation is over.
    pub fn decode_logits<'a>(
        &mut self,
        gguf: &GgufFile,
        streamer: &SsdStreamer<'a>,
        cache_full: bool,
    ) -> (r: Option<Option<TiedOutput<'a>>>)
        requires
            readable(*gguf, *streamer),
        ensures
            r matches Some(output) ==> projects_tied(*gguf, *streamer, output),
            *final(self) == (Decoder {
                done: old(self).done || (old(self).remaining > 0 && cache_full),
                ..*old(self)
            }),
            r is None <==> old(self)@.is_over(cache_full),
            final(self)@ == old(self)@.polled(cache_full),
    {
        match self.poll(cache_full) {
            DecodeStep::Stop => None,
            DecodeStep::Sample => Some(tied_output(gguf, streamer)),
        }
    }

    /// Takes the sampled token of a generation: how it passes the model, unless
    /// it ends the generation. `advance` records it behind its pass. Its row is read from the stored embeddings, if
    /// the model has them within the file.
    pub fn decode_token(
        &mut self,
        token: u32,
        gguf: &GgufFile,
        streamer: &SsdStreamer<'_>,
        limit: Option<&str>,
    ) -> (r: Option<TokenPass>)
        requires
            readable(*gguf, *streamer),
            gguf.tensor("token_embd.weight"@) matches Some(t) ==> t.dtype.elements() > 0,
            old(self).position < usize::MAX,
        ensures
            *final(self) == (Decoder { done: old(self).done || r is None, ..*old(self) }),
            r matches Some(pass) ==> {
                &&& pass.steps@ == prefill_schedule(
                    layers_run(gguf.n_layers, limit) as int,
                    1,
                    old(self).position as int,
                )
                &&& match gguf.tensor("token_embd.weight"@) {
                    Some(t) if streamer.within(t) => pass.row matches Some(row) && row@
                        == embedding_row(*gguf, *streamer, token, gguf.n_embd as usize),
                    _ => pass.row is None,
                }
            },
            r is None <==> old(self)@.ends(token),
            final(self)@ == old(self)@.accepted(token),
    {
        let position: usize = match self.accept(token) {
            Some(p) => p,
            None => {
                return None;
            },
        };
        let row = token_row(gguf, streamer, token, gguf.n_embd as usize);
        let steps = forward_pass_pub(gguf, position, limit);
        Some(TokenPass { row, steps })
    }

    /// Begins the next token of a streamed generation: the output projection on
    /// the hidden state, unless the generation is over.
    pub fn next_logits(
        &mut self,
        gguf: &GgufFile,
        streamer: &SsdStreamer<'_>,
        cache_full: bool,
    ) -> (r: Option<OutputPlan>)
        requires
            readable(*gguf, *streamer),
        ensures
            r matches Some(plan) ==> projects(*gguf, *streamer, plan),
            *final(self) == (Decoder {
                done: old(self).done || (old(self).remaining > 0 && cache_full),
                ..*old(self)
            }),
            r is None <==> old(self)@.is_over(cache_full),
            final(self)@ == old(self)@.polled(cache_full),
    {
        match self.poll(cache_full) {
            DecodeStep::Stop => None,
            DecodeStep::Sample => Some(output_plan(gguf, streamer)),
        }
    }

    /// Takes the sampled token of a streamed generation: how it passes the
    /// model, unless it ends the generation. `advance` records it behind its
    /// pass. Its row is cut from the decoded
    /// embeddings, if they hold it.
    pub fn next_token(
        &mut self,
        token: u32,
        gguf: &GgufFile,
        streamer: &SsdStreamer<'_>,
        limit: Option<&str>,
    ) -> (r: Option<TokenPass>)
        requires
            readable(*gguf, *streamer),
            old(self).position < usize::MAX,
        ensures
            *final(self) == (Decoder { done: old(self).done || r is None, ..*old(self) }),
            r matches Some(pass) ==> {
                &&& pass.steps@ == prefill_schedule(
                    layers_run(gguf.n_layers, limit) as int,
                    1,
                    old(self).position as int,
                )
                &&& match decoded_if_present(*gguf, *streamer, "token_embd.weight"@) {
                    Some(t) if token * gguf.n_embd + gguf.n_embd <= t.len() => pass.row matches Some(
                        row,
                    ) && row@ == streamer::decoded_row(t, token as int, gguf.n_embd as int),
                    _ => pass.row is None,
                }
            },
            r is None <==> old(self)@.ends(token),
            final(self)@ == old(self)@.accepted(token),
    {
        let position: usize = match self.accept(token) {
            Some(p) => p,
            None => {
                return None;
            },
        };
        let row = match try_load(gguf, streamer, "token_embd.weight") {
            Some(table) => table_row(table.as_slice(), token, gguf.n_embd as usize),
            None => None,
        };
        let steps = forward_pass_pub(gguf, position, limit);
        Some(TokenPass { row, steps })
    }
}

/// Expert counts of a mixture-of-experts model.
#[derive(Clone, Copy, Debug, PartialEq, Eq, Structural)]
pub struct MoeConfig {
    pub n_experts: usize,
    pub n_experts_used: usize,
}

/// The expert counts of a model, if it is a mixture of experts and they are
/// valid.
pub fn detect_moe_config(gguf: &GgufFile, valid: bool) -> (r: Option<MoeConfig>)
    ensures
        r == (if gguf.is_moe && valid {
            Some(
                MoeConfig {
                    n_experts: gguf.n_experts as usize,
                    n_experts_used: gguf.n_experts_used as usize,
                },
            )
        } else {
            None
        }),
{
    if gguf.is_moe && valid {
        Some(
            MoeConfig {
                n_experts: gguf.n_experts as usize,
                n_experts_used: gguf.n_experts_used as usize,
            },
        )
    } else {
        None
    }
}

/// The elements of a layer's tensor with a suffix, if it is cached.
pub open spec fn cached_tensor(cached: CachedLayer, layer: u32, suffix: Seq<char>) -> Option<
    Vec<Weight>,
> {
    let name = model::layer_name(layer as nat, suffix);
    if cached.tensors@.contains_key(name) {
        Some(cached.tensors@[name])
    } else {
        None
    }
}

/// A layer's tensor with a suffix, if it is cached.
pub fn find_tensor_in_layer<'a>(cached: &'a CachedLayer, suffix: &str, layer_idx: u32) -> (r: Option<
    &'a Vec<Weight>,
>)
    ensures
        match r {
            Some(v) => cached_tensor(*cached, layer_idx, suffix@) == Some(*v),
            None => cached_tensor(*cached, layer_idx, suffix@) is None,
        },
{
    let name = layer_tensor_name(layer_idx, suffix);
    cached.tensors.get(name.as_str())
}

/// Puts elements in the place of a cached tensor.
pub fn replace_tensor(cached: &mut CachedLayer, name: &str, values: Vec<Weight>)
    ensures
        final(cached).contents() == old(cached).contents().insert(name@, values@),
        final(cached).layer_idx == old(cached).layer_idx,
        final(cached).size_bytes == old(cached).size_bytes,
{
    let ghost before = cached.contents();
    cached.tensors.insert(string_copy(name), values);
    assert(cached.contents() == before.insert(name@, values@));
}

/// `list` names each cached tensor that adapters change, once.
pub open spec fn are_layer_targets(
    cached: CachedLayer,
    adapters: Seq<String>,
    list: Seq<Seq<char>>,
) -> bool {
    &&& list.no_duplicates()
    &&& forall|name: Seq<char>| #[trigger]
        list.contains(name) <==> adapted(adapters, name) && cached.contents().contains_key(name)
}

/// The names of the cached tensors that adapters change, each once.
pub fn layer_targets(cached: &CachedLayer, adapters: &[String]) -> (r: Vec<String>)
    ensures
        are_layer_targets(*cached, adapters@, text::views(r@)),
{
    let mut r: Vec<String> = Vec::new();
    assert(adapters@.take(0) == Seq::<String>::empty());
    for i in 0..adapters.len()
        invariant
            are_layer_targets(*cached, adapters@.take(i as int), text::views(r@)),
    {
        let ghost before = text::views(r@);
        let ghost head = adapters@.take(i as int);
        let ghost more = adapters@.take(i + 1);
        let name = adapters[i].as_str();
        assert(more == head.push(adapters@[i as int]));
        assert forall|x: Seq<char>| adapted(more, x) <==> adapted(head, x) || x == name@ by {
            if adapted(head, x) {
                let k = choose|k: int| 0 <= k < head.len() && (#[trigger] head[k])@ == x;
                assert(more[k]@ == x);
            }
            if adapted(more, x) && x != name@ {
                let k = choose|k: int| 0 <= k < more.len() && (#[trigger] more[k])@ == x;
                assert(head[k]@ == x);
            }
            if x == name@ {
                assert(more[i as int]@ == x);
            }
        }
        let mut known: bool = false;
        for k in 0..r.len()
            invariant
                before == text::views(r@),
                known <==> exists|j: int| 0 <= j < k && #[trigger] before[j] == name@,
        {
            assert(before[k as int] == r@[k as int]@);
            if str_eq(r[k].as_str(), name) {
                known = true;
            }
        }
        assert(known == before.contains(name@));
        if !known && cached.tensors.contains_key(name) {
            let copy = string_copy(name);
            r.push(copy);
            assert(text::views(r@) == before.push(name@));
            assert forall|x: Seq<char>| #[trigger] text::views(r@).contains(x) <==> (x == name@
                || before.contains(x)) by {
                if before.contains(x) {
                    let k = choose|k: int| 0 <= k < before.len() && before[k] == x;
                    assert(text::views(r@)[k] == x);
                }
                if x == name@ {
                    assert(text::views(r@)[before.len() as int] == x);
                }
            }
        }
    }
    assert(adapters@.take(adapters@.len() as int) == adapters@);
    r
}

/// Puts adapted elements in the place of the named tensors of a cached layer, so
/// that later reads see them. Nothing else of the layer changes.
pub fn apply_lora_to_layer(cached: &mut CachedLayer, names: &[String], values: Vec<Vec<Weight>>)
    requires
        names@.len() == values@.len(),
        text::views(names@).no_duplicates(),
        forall|i: int|
            0 <= i < names@.len() ==> old(cached).contents().contains_key((#[trigger] names@[i])@),
    ensures
        final(cached).contents().dom() == old(cached).contents().dom(),
        forall|i: int|
            0 <= i < names@.len() ==> final(cached).contents()[(#[trigger] names@[i])@]
                == values@[i]@,
        forall|name: Seq<char>|
            !text::views(names@).contains(name) ==> #[trigger] final(cached).contents()[name]
                == old(cached).contents()[name],
        final(cached).layer_idx == old(cached).layer_idx,
        final(cached).size_bytes == old(cached).size_bytes,
{
    let ghost all = values@;
    let ghost before = cached.contents();
    let mut values = values;
    let mut n: usize = names.len();
    assert(all.take(n as int) == all);
    while n > 0
        invariant
            n <= names@.len() == all.len(),
            values@ == all.take(n as int),
            text::views(names@).no_duplicates(),
            forall|i: int|
                0 <= i < names@.len() ==> before.contains_key((#[trigger] names@[i])@),
            cached.contents().dom() == before.dom(),
            forall|i: int|
                n <= i < names@.len() ==> cached.contents()[(#[trigger] names@[i])@] == all[i]@,
            forall|name: Seq<char>|
                !text::views(names@).contains(name) ==> #[trigger] cached.contents()[name]
                    == before[name],
            cached.layer_idx == old(cached).layer_idx,
            cached.size_bytes == old(cached).size_bytes,
        decreases n,
    {
        n = n - 1;
        let ghost middle = cached.contents();
        let ghost views = text::views(names@);
        assert(values@.last() == all[n as int]);
        match values.pop() {
            Some(v) => {
                replace_tensor(cached, names[n].as_str(), v);
                assert(views[n as int] == names@[n as int]@);
                assert(cached.contents().dom() == before.dom());
                assert forall|i: int| n <= i < names@.len() implies cached.contents()[(
                #[trigger] names@[i])@] == all[i]@ by {
                    if i > n {
                        assert(views[i] != views[n as int]);
                    }
                }
                assert forall|name: Seq<char>| !views.contains(name) implies (
                #[trigger] cached.contents()[name]) == before[name] by {
                    assert(name != names@[n as int]@);
                    assert(middle[name] == before[name]);
                }
            },
            None => {},
        }
        assert(values@ == all.take(n as int));
    }
}

/// Tensors of an expert.
pub struct ExpertWeights<'a> {
    pub w_gate: &'a Vec<Weight>,
    pub w_up: &'a Vec<Weight>,
    pub w_down: &'a Vec<Weight>,
}

/// The suffix of an expert's tensor: `{part}.{expert}.weight`.
pub open spec fn expert_suffix(part: Seq<char>, expert: nat) -> Seq<char> {
    part + "."@ + text::decimal(expert) + ".weight"@
}

fn expert_tensor<'a>(cached: &'a CachedLayer, part: &str, expert: usize, layer_idx: u32) -> (r: Option<
    &'a Vec<Weight>,
>)
    ensures
        match r {
            Some(v) => cached_tensor(*cached, layer_idx, expert_suffix(part@, expert as nat))
                == Some(*v),
            None => cached_tensor(*cached, layer_idx, expert_suffix(part@, expert as nat)) is None,
        },
{
    let mut suffix = string_copy(part);
    suffix.append(".");
    let number = decimal_string(expert as u64);
    suffix.append(number.as_str());
    suffix.append(".weight");
    find_tensor_in_layer(cached, suffix.as_str(), layer_idx)
}

/// All three tensors of an expert are cached.
pub open spec fn expert_cached(cached: CachedLayer, layer: u32, expert: nat) -> bool {
    &&& cached_tensor(cached, layer, expert_suffix("ffn_gate"@, expert)) is Some
    &&& cached_tensor(cached, layer, expert_suffix("ffn_up"@, expert)) is Some
    &&& cached_tensor(cached, layer, expert_suffix("ffn_down"@, expert)) is Some
}

/// How the feed-forward part of a cached layer is computed.
pub enum FeedForward<'a> {
    /// By experts, selected by a gate.
    Experts { gate: &'a Vec<Weight>, experts: Vec<ExpertWeights<'a>> },
    /// By one dense network.
    Dense { gate: &'a Vec<Weight>, up: &'a Vec<Weight>, down: &'a Vec<Weight> },
    /// Not at all: tensors are missing.
    Missing,
}

/// The layer has a gate and every expert of the configuration.
pub open spec fn routed(cached: CachedLayer, layer: u32, moe: Option<MoeConfig>) -> bool {
    match moe {
        Some(config) => {
            &&& cached_tensor(cached, layer, "ffn_gate_inp.weight"@) is Some
            &&& forall|e: nat|
                e < config.n_experts ==> #[trigger] expert_cached(cached, layer, e)
        },
        None => false,
    }
}

/// How the feed-forward part of a cached layer is computed: by experts where
/// the model has them and the layer holds its gate and all of them, else by the
/// dense network where the layer holds its three tensors.
pub fn run_ffn_or_moe<'a>(
    cached: &'a CachedLayer,
    layer_idx: u32,
    moe_config: Option<MoeConfig>,
) -> (r: FeedForward<'a>)
    ensures
        match r {
            FeedForward::Experts { gate, experts } => {
                &&& routed(*cached, layer_idx, moe_config)
                &&& Some(*gate) == cached_tensor(*cached, layer_idx, "ffn_gate_inp.weight"@)
                &&& moe_config matches Some(config) && experts@.len() == config.n_experts
                &&& forall|e: int|
                    0 <= e < experts@.len() ==> {
                        let x = #[trigger] experts@[e];
                        &&& Some(*x.w_gate) == cached_tensor(
                            *cached,
                            layer_idx,
                            expert_suffix("ffn_gate"@, e as nat),
                        )
                        &&& Some(*x.w_up) == cached_tensor(
                            *cached,
                            layer_idx,
                            expert_suffix("ffn_up"@, e as nat),
                        )
                        &&& Some(*x.w_down) == cached_tensor(
                            *cached,
                            layer_idx,
                            expert_suffix("ffn_down"@, e as nat),
                        )
                    }
            },
            FeedForward::Dense { gate, up, down } => {
                &&& !routed(*cached, layer_idx, moe_config)
                &&& Some(*gate) == cached_tensor(*cached, layer_idx, "ffn_gate.weight"@)
                &&& Some(*up) == cached_tensor(*cached, layer_idx, "ffn_up.weight"@)
                &&& Some(*down) == cached_tensor(*cached, layer_idx, "ffn_down.weight"@)
            },
            FeedForward::Missing => {
                &&& !routed(*cached, layer_idx, moe_config)
                &&& cached_tensor(*cached, layer_idx, "ffn_gate.weight"@) is None || cached_tensor(
                    *cached,
                    layer_idx,
                    "ffn_up.weight"@,
                ) is None || cached_tensor(*cached, layer_idx, "ffn_down.weight"@) is None
            },
        },
{
    match moe_config {
        Some(config) => {
            match find_tensor_in_layer(cached, "ffn_gate_inp.weight", layer_idx) {
                Some(gate) => {
                    let mut experts: Vec<ExpertWeights<'a>> = Vec::new();
                    let mut all_found: bool = true;
                    let mut e: usize = 0;
                    while e < config.n_experts && all_found
                        invariant
                            e <= config.n_experts,
                            all_found ==> experts@.len() == e,
                            !all_found ==> exists|x: nat|
                                x < config.n_experts && !#[trigger] expert_cached(
                                    *cached,
                                    layer_idx,
                                    x,
                                ),
                            all_found ==> forall|x: nat|
                                x < e ==> #[trigger] expert_cached(*cached, layer_idx, x),
                            all_found ==> forall|x: int|
                                0 <= x < e ==> {
                                    let w = #[trigger] experts@[x];
                                    &&& Some(*w.w_gate) == cached_tensor(
                                        *cached,
                                        layer_idx,
                                        expert_suffix("ffn_gate"@, x as nat),
                                    )
                                    &&& Some(*w.w_up) == cached_tensor(
                                        *cached,
                                        layer_idx,
                                        expert_suffix("ffn_up"@, x as nat),
                                    )
                                    &&& Some(*w.w_down) == cached_tensor(
                                        *cached,
                                        layer_idx,
                                        expert_suffix("ffn_down"@, x as nat),
                                    )
                                },
                        decreases config.n_experts - e,
                    {
                        let g = expert_tensor(cached, "ffn_gate", e, layer_idx);
                        let u = expert_tensor(cached, "ffn_up", e, layer_idx);
                        let d = expert_tensor(cached, "ffn_down", e, layer_idx);
                        match (g, u, d) {
                            (Some(w_gate), Some(w_up), Some(w_down)) => {
                                assert(expert_cached(*cached, layer_idx, e as nat));
                                experts.push(ExpertWeights { w_gate, w_up, w_down });
                            },
                            _ => {
                                assert(!expert_cached(*cached, layer_idx, e as nat));
                                all_found = false;
                            },
                        }
                        e = e + 1;
                    }
                    if all_found {
                        return FeedForward::Experts { gate, experts };
                    }
                },
                None => {},
            }
        },
        None => {},
    }
    let gate = find_tensor_in_layer(cached, "ffn_gate.weight", layer_idx);
    let up = find_tensor_in_layer(cached, "ffn_up.weight", layer_idx);
    let down = find_tensor_in_layer(cached, "ffn_down.weight", layer_idx);
    match (gate, up, down) {
        (Some(g), Some(u), Some(d)) => FeedForward::Dense { gate: g, up: u, down: d },
        _ => FeedForward::Missing,
    }
}

/// Each layer that runs is begun, passed by every token in order, and ended, before
/// the next one is begun. The tokens take the positions from the first one on.
pub proof fn lemma_tokens_pass_layer_by_layer(
    gguf: &GgufFile,
    n_tokens: usize,
    start: usize,
    limit: Option<&str>,
    layers: u32,
    r: Vec<PrefillStep>,
    layer: u32,
    token: usize,
)
    requires
        start + n_tokens <= usize::MAX,
        call_ensures(effective_layers, (gguf.n_layers, limit), layers),
        call_ensures(batch_prefill, (gguf, n_tokens, start, limit), r),
    ensures
        n_tokens == 0 || layers == 0 ==> r@.len() == 0,
        layer < layers && token < n_tokens ==> {
            let at = layer * (n_tokens + 2);
            &&& r@.len() == layers * (n_tokens + 2)
            &&& 0 <= at && at + n_tokens + 1 < r@.len()
            &&& r@[at] == PrefillStep::Begin(layer)
            &&& r@[at + 1 + token] matches PrefillStep::Forward { layer: l, token: t, position }
                && l == layer && t == token && position == start + token
            &&& r@[at + 1 + n_tokens] == PrefillStep::End(layer)
        },
{
    if layer < layers && token < n_tokens {
        let n = n_tokens + 2;
        lemma_prefill_places(
            layers as int,
            n_tokens as int,
            start as int,
            layer as int,
            token as int,
        );
        lemma_layer_ends(layers as int, n_tokens as int, start as int, layer as int);
        assert(layer * n + n <= layers * n) by (nonlinear_arith)
            requires
                layer + 1 <= layers,
                n > 0,
        ;
        assert(0 <= layer * n) by (nonlinear_arith)
            requires
                0 <= layer,
                n > 0,
        ;
    }
}

proof fn lemma_layer_ends(layers: int, n_tokens: int, start: int, layer: int)
    requires
        0 <= layer < layers,
        0 < n_tokens,
    ensures
        prefill_schedule(layers, n_tokens, start)[layer * (n_tokens + 2) + 1 + n_tokens]
            == PrefillStep::End(layer as u32),
    decreases layers,
{
    let n = n_tokens + 2;
    lemma_prefill_len(layers - 1, n_tokens, start);
    let head = prefill_schedule(layers - 1, n_tokens, start);
    let all = prefill_schedule(layers, n_tokens, start);
    if layer < layers - 1 {
        lemma_layer_ends(layers - 1, n_tokens, start, layer);
        assert(layer * n + n <= (layers - 1) * n) by (nonlinear_arith)
            requires
                layer + 1 <= layers - 1,
                n > 0,
        ;
        assert(0 <= layer * n) by (nonlinear_arith)
            requires
                0 <= layer,
                n > 0,
        ;
        assert(all[layer * n + 1 + n_tokens] == head[layer * n + 1 + n_tokens]);
    } else {
        let steps = layer_steps(layers - 1, n_tokens, start);
        assert(all[layer * n + 1 + n_tokens] == steps[1 + n_tokens]);
    }
}

/// A limit in decimal lets at most so many layers run; without a limit, or with
/// one that holds anything but digits behind an optional plus sign, all run.
pub proof fn lemma_layers_are_limited(n_layers: u32, limit: &str, all: u32, r: u32, k: u32)
    requires
        call_ensures(effective_layers, (n_layers, None), all),
        call_ensures(effective_layers, (n_layers, Some(limit)), r),
    ensures
        all == n_layers,
        r <= n_layers,
        limit@ == text::decimal(k as nat) ==> r == if k < n_layers {
            k
        } else {
            n_layers
        },
        limit@.len() == 0 ==> r == n_layers,
        (exists|i: int|
            0 <= i < limit@.len() && !('0' <= #[trigger] limit@[i] <= '9') && (i > 0 || limit@[i]
                != '+')) ==> r == n_layers,
{
    text::lemma_parse_inverts_decimal(k);
    let d = text::unsigned_digits(limit@);
    if exists|i: int|
        0 <= i < limit@.len() && !('0' <= #[trigger] limit@[i] <= '9') && (i > 0 || limit@[i]
            != '+') {
        let i = choose|i: int|
            0 <= i < limit@.len() && !('0' <= #[trigger] limit@[i] <= '9') && (i > 0 || limit@[i]
                != '+');
        let at = i - (limit@.len() - d.len());
        assert(d[at] == limit@[i]);
        assert(!text::is_digit(d[at]));
    }
}

/// A prefill of one token passes it at its position.
pub proof fn lemma_one_token_passes(
    gguf: &GgufFile,
    position: usize,
    limit: Option<&str>,
    one: Vec<PrefillStep>,
    r: Vec<PrefillStep>,
)
    requires
        position < usize::MAX,
        call_ensures(batch_prefill, (gguf, 1, position, limit), one),
        call_ensures(forward_pass_pub, (gguf, position, limit), r),
    ensures
        r@ == one@,
{
}

/// A prefill with adapters has the steps of one without, and names the tensors that
/// an adapter changes, each once and in order.
pub proof fn lemma_adapters_are_found(
    gguf: &GgufFile,
    n_tokens: usize,
    start: usize,
    limit: Option<&str>,
    adapters: &[String],
    plain: Vec<PrefillStep>,
    r: PrefillPlan,
    i: usize,
)
    requires
        start + n_tokens <= usize::MAX,
        call_ensures(batch_prefill, (gguf, n_tokens, start, limit), plain),
        call_ensures(batch_prefill_lora, (gguf, n_tokens, start, limit, adapters), r),
    ensures
        r.steps@ == plain@,
        i < gguf.tensors@.len() ==> (r.adapted@.contains(i) <==> exists|a: int|
            0 <= a < adapters@.len() && (#[trigger] adapters@[a])@ == gguf.tensors@[i as int].name@),
        forall|k: int|
            0 <= k < r.adapted@.len() ==> (#[trigger] r.adapted@[k]) < gguf.tensors@.len(),
        forall|k: int, m: int|
            0 <= k < m < r.adapted@.len() ==> (#[trigger] r.adapted@[k]) < (
            #[trigger] r.adapted@[m]),
{
    let names = tensor_names(gguf.tensors@);
    if i < names.len() {
        assert(names[i as int] == gguf.tensors@[i as int].name@);
        if r.adapted@.contains(i) {
            let k = choose|k: int| 0 <= k < r.adapted@.len() && r.adapted@[k] == i;
            assert(r.adapted@[k] == i);
            assert(adapted(adapters@, names[i as int]));
        }
        if adapted(adapters@, names[i as int]) {
            assert(r.adapted@.contains(i));
        }
    }
}

/// The positions of the names that an adapter has, each once and in order.
pub proof fn lemma_targets_are_found(
    names: &[String],
    adapters: &[String],
    r: Vec<usize>,
    i: usize,
)
    requires
        call_ensures(lora_targets, (names, adapters), r),
    ensures
        i < names@.len() ==> (r@.contains(i) <==> exists|a: int|
            0 <= a < adapters@.len() && (#[trigger] adapters@[a])@ == names@[i as int]@),
        forall|k: int| 0 <= k < r@.len() ==> (#[trigger] r@[k]) < names@.len(),
        forall|k: int, m: int|
            0 <= k < m < r@.len() ==> (#[trigger] r@[k]) < (#[trigger] r@[m]),
{
    let all = text::views(names@);
    if i < all.len() {
        assert(all[i as int] == names@[i as int]@);
        if r@.contains(i) {
            let k = choose|k: int| 0 <= k < r@.len() && r@[k] == i;
            assert(r@[k] == i);
            assert(adapted(adapters@, all[i as int]));
        }
        if adapted(adapters@, all[i as int]) {
            assert(r@.contains(i));
        }
    }
}

/// The default configuration: temperature 0.7, the 40 likeliest tokens and a
/// nucleus of 0.9, at most 512 tokens, no penalties, no other filters, and Mirostat
/// switched off, with a target of 5 and a rate of 0.1.
pub proof fn lemma_default_configuration(r: InferenceConfig)
    requires
        call_ensures(<InferenceConfig as Default>::default, (), r),
    ensures
        sampler::is_nearest(r.temperature, 7, 10),
        r.top_k == 40,
        sampler::is_nearest(r.top_p, 9, 10),
        r.max_tokens == 512,
        r.stop_sequences@.len() == 0 && r.grammar@.len() == 0 && r.seed is None,
        sampler::is_nearest(r.repetition_penalty, 1, 1),
        r.frequency_penalty.bits == 0 && r.presence_penalty.bits == 0,
        r.tfs_z.bits == 0 && r.min_p.bits == 0 && r.mirostat == 0,
        sampler::is_nearest(r.mirostat_tau, 5, 1),
        sampler::is_nearest(r.mirostat_eta, 1, 10),
{
    sampler::lemma_constants();
    lemma2_to64();
    lemma2_to64_rest();
    sampler::lemma_nearest(Single { bits: SEVEN_TENTHS }, 7, 10);
}

/// A phase samples as the whole does, under the same grammar and up to the same
/// texts, and has the smaller of the two budgets.
pub proof fn lemma_phase_samples_alike(
    base: &InferenceConfig,
    max_tokens: usize,
    r: InferenceConfig,
    nanos: u64,
    s: Sampler,
)
    requires
        call_ensures(phase_inference_config, (base, max_tokens), r),
    ensures
        samples_as_asked(*base, nanos, s) <==> samples_as_asked(r, nanos, s),
        r.seed == base.seed && r.grammar@ == base.grammar@,
        text::views(r.stop_sequences@) == text::views(base.stop_sequences@),
        r.max_tokens <= max_tokens && r.max_tokens <= base.max_tokens,
        r.max_tokens == max_tokens || r.max_tokens == base.max_tokens,
{
}

/// The sampler of a configuration is the one that is made by hand: with Mirostat in
/// modes 1 and 2, else tail-free where the threshold lies between 0 and 1, else with
/// min-p; and seeded where a seed is set.
pub proof fn lemma_sampler_is_chosen(
    config: &InferenceConfig,
    nanos: u64,
    r: Sampler,
    low: bool,
    high: bool,
)
    requires
        call_ensures(build_sampler, (config, nanos), r),
        call_ensures(Single::is_less, (&Single { bits: 0 }, &config.tfs_z), low),
        call_ensures(Single::is_less, (&config.tfs_z, &Single { bits: 0x3F80_0000 }), high),
    ensures
        r.temperature == config.temperature,
        config.mirostat == 1 ==> r.mirostat == MirostatMode::V1,
        config.mirostat == 2 ==> r.mirostat == MirostatMode::V2,
        config.mirostat != 1 && config.mirostat != 2 ==> {
            &&& r.mirostat == MirostatMode::Disabled
            &&& r.top_k == config.top_k && r.top_p == config.top_p
            &&& r.frequency_penalty == config.frequency_penalty
            &&& r.presence_penalty == config.presence_penalty
            &&& low && high ==> r.tfs_z == config.tfs_z && r.min_p.bits == 0
            &&& !(low && high) ==> r.tfs_z.bits == 0
        },
        config.seed matches Some(seed) ==> r.rng_state == seed ^ 0x517c_c1b7_2722_0a95u64,
        config.seed is None ==> r.rng_state == nanos ^ 0x517c_c1b7_2722_0a95u64,
{
}

/// A model is run exactly if it has an embedding dimension and layers, and its
/// heads share the embedding dimension.
pub proof fn lemma_shape_is_that_of_the_model(
    gguf: &GgufFile,
    r: Result<ModelShape, ModelError>,
)
    requires
        gguf.n_head > 0,
        call_ensures(model_shape, (gguf,), r),
    ensures
        r is Err <==> gguf.n_embd == 0 || gguf.n_layers == 0,
        r matches Err(ModelError::Invalid { n_embd, n_layers }) ==> n_embd == gguf.n_embd
            && n_layers == gguf.n_layers,
        r matches Ok(s) ==> {
            &&& s.n_embd == gguf.n_embd && s.n_layers == gguf.n_layers
            &&& s.n_head == gguf.n_head && s.n_head_kv == gguf.n_head_kv
            &&& s.vocab_size == gguf.vocab_size && s.n_ctx == gguf.n_ctx
            &&& s.head_dim * s.n_head <= s.n_embd < (s.head_dim + 1) * s.n_head
        },
{
    let n = gguf.n_embd as int;
    let h = gguf.n_head as int;
    vstd::arithmetic::div_mod::lemma_fundamental_div_mod(n, h);
    vstd::arithmetic::div_mod::lemma_mod_bound(n, h);
    let q = n / h;
    assert(q * h <= n < (q + 1) * h) by (nonlinear_arith)
        requires
            n == h * q + n % h,
            0 <= n % h < h,
    ;
}

/// Attention is computed on the layer's four projections, each read from the tensor
/// with its name; the first two give the dimensions. It is left out exactly if one
/// of them is not there.
pub proof fn lemma_attention_has_its_projections<'a>(
    gguf: &GgufFile,
    streamer: &SsdStreamer<'a>,
    layer: u32,
    n_embd: usize,
    names: (&str, &str, &str, &str),
    tensors: (&TensorInfo, &TensorInfo, &TensorInfo, &TensorInfo),
    data: (&'a [u8], &'a [u8], &'a [u8], &'a [u8]),
    r: Result<Option<AttentionPlan<'a>>, LoadError>,
)
    requires
        readable(*gguf, *streamer),
        names.0@ == "blk."@ + text::decimal(layer as nat) + "."@ + "attn_q.weight"@,
        names.1@ == "blk."@ + text::decimal(layer as nat) + "."@ + "attn_k.weight"@,
        names.2@ == "blk."@ + text::decimal(layer as nat) + "."@ + "attn_v.weight"@,
        names.3@ == "blk."@ + text::decimal(layer as nat) + "."@ + "attn_output.weight"@,
        call_ensures(attention_plan, (gguf, streamer, layer, n_embd), r),
    ensures
        call_ensures(GgufFile::find_tensor, (gguf, names.0), None) || call_ensures(
            GgufFile::find_tensor,
            (gguf, names.1),
            None,
        ) || call_ensures(GgufFile::find_tensor, (gguf, names.2), None) || call_ensures(
            GgufFile::find_tensor,
            (gguf, names.3),
            None,
        ) ==> r matches Ok(None),
        call_ensures(GgufFile::find_tensor, (gguf, names.0), Some(tensors.0)) && call_ensures(
            GgufFile::find_tensor,
            (gguf, names.1),
            Some(tensors.1),
        ) && call_ensures(GgufFile::find_tensor, (gguf, names.2), Some(tensors.2)) && call_ensures(
            GgufFile::find_tensor,
            (gguf, names.3),
            Some(tensors.3),
        ) && call_ensures(SsdStreamer::raw_tensor_data, (streamer, tensors.0), Ok(data.0))
            && call_ensures(SsdStreamer::raw_tensor_data, (streamer, tensors.1), Ok(data.1))
            && call_ensures(SsdStreamer::raw_tensor_data, (streamer, tensors.2), Ok(data.2))
            && call_ensures(SsdStreamer::raw_tensor_data, (streamer, tensors.3), Ok(data.3)) ==> (r
            matches Ok(Some(p)) && {
            &&& p.query.raw@ == data.0@ && p.query.dtype == tensors.0.dtype
            &&& p.key.raw@ == data.1@ && p.key.dtype == tensors.1.dtype
            &&& p.value.raw@ == data.2@ && p.value.dtype == tensors.2.dtype
            &&& p.output.raw@ == data.3@ && p.output.dtype == tensors.3.dtype
            &&& tensors.0.dimensions@.len() > 1 ==> p.q_dim == tensors.0.dimensions@[1] as usize
            &&& tensors.0.dimensions@.len() <= 1 ==> p.q_dim == n_embd
            &&& tensors.1.dimensions@.len() > 1 ==> p.kv_dim == tensors.1.dimensions@[1] as usize
            &&& tensors.1.dimensions@.len() <= 1 ==> p.kv_dim == n_embd
        }),
{
    reveal_with_fuel(first_error, 5);
    let all = seq![*tensors.0, *tensors.1, *tensors.2, *tensors.3];
    assert(all.drop_first() == seq![*tensors.1, *tensors.2, *tensors.3]);
    assert(seq![*tensors.1, *tensors.2, *tensors.3].drop_first() == seq![*tensors.2, *tensors.3]);
    assert(seq![*tensors.2, *tensors.3].drop_first() == seq![*tensors.3]);
    assert(seq![*tensors.3].drop_first() == Seq::<TensorInfo>::empty());
}

/// The feed-forward part is computed on the layer's gate, up and down projections,
/// each read from the tensor with its name; its gating matrix has the dimension. It is left
/// out exactly if one of them is not there.
pub proof fn lemma_feed_forward_has_its_projections<'a>(
    gguf: &GgufFile,
    streamer: &SsdStreamer<'a>,
    layer: u32,
    names: (&str, &str, &str),
    tensors: (&TensorInfo, &TensorInfo, &TensorInfo),
    data: (&'a [u8], &'a [u8], &'a [u8]),
    r: Result<Option<FeedPlan<'a>>, LoadError>,
)
    requires
        names.0@ == "blk."@ + text::decimal(layer as nat) + "."@ + "ffn_gate.weight"@,
        names.1@ == "blk."@ + text::decimal(layer as nat) + "."@ + "ffn_up.weight"@,
        names.2@ == "blk."@ + text::decimal(layer as nat) + "."@ + "ffn_down.weight"@,
        call_ensures(feed_plan, (gguf, streamer, layer), r),
    ensures
        call_ensures(GgufFile::find_tensor, (gguf, names.0), None) || call_ensures(
            GgufFile::find_tensor,
            (gguf, names.1),
            None,
        ) || call_ensures(GgufFile::find_tensor, (gguf, names.2), None) ==> r matches Ok(None),
        call_ensures(GgufFile::find_tensor, (gguf, names.0), Some(tensors.0)) && call_ensures(
            GgufFile::find_tensor,
            (gguf, names.1),
            Some(tensors.1),
        ) && call_ensures(GgufFile::find_tensor, (gguf, names.2), Some(tensors.2)) && call_ensures(
            SsdStreamer::raw_tensor_data,
            (streamer, tensors.0),
            Ok(data.0),
        ) && call_ensures(SsdStreamer::raw_tensor_data, (streamer, tensors.1), Ok(data.1))
            && call_ensures(SsdStreamer::raw_tensor_data, (streamer, tensors.2), Ok(data.2)) ==> (r
            matches Ok(Some(p)) && {
            &&& p.gate.raw@ == data.0@ && p.gate.dtype == tensors.0.dtype
            &&& p.up.raw@ == data.1@ && p.up.dtype == tensors.1.dtype
            &&& p.down.raw@ == data.2@ && p.down.dtype == tensors.2.dtype
            &&& p.n_ff == tensors.0.dimensions@[1] as usize
        }),
{
    reveal_with_fuel(first_error, 4);
    let all = seq![*tensors.0, *tensors.1, *tensors.2];
    assert(all.drop_first() == seq![*tensors.1, *tensors.2]);
    assert(seq![*tensors.1, *tensors.2].drop_first() == seq![*tensors.2]);
    assert(seq![*tensors.2].drop_first() == Seq::<TensorInfo>::empty());
}

/// A named tensor is had exactly if it can be loaded, and then it is that.
pub proof fn lemma_tensor_is_had(
    gguf: &GgufFile,
    streamer: &SsdStreamer<'_>,
    name: &str,
    loaded: Result<Vec<Weight>, LoadError>,
    r: Option<Vec<Weight>>,
)
    requires
        call_ensures(SsdStreamer::load_named_tensor_f32, (streamer, gguf, name), loaded),
        call_ensures(try_load, (gguf, streamer, name), r),
    ensures
        r is Some <==> loaded is Ok,
        r matches Some(v) ==> (loaded matches Ok(w) && v@ == w@),
{
    model::lemma_position_of(gguf.tensors@, name@);
}

/// A name loads what the first tensor that has it holds; without one nothing is
/// loaded.
pub proof fn lemma_name_loads_first_tensor(
    gguf: &GgufFile,
    streamer: &SsdStreamer<'_>,
    name: &str,
    found: Option<&TensorInfo>,
    one: Result<Vec<Weight>, LoadError>,
    r: Result<Vec<Weight>, LoadError>,
)
    requires
        call_ensures(GgufFile::find_tensor, (gguf, name), found),
        found matches Some(t) ==> call_ensures(SsdStreamer::load_tensor_f32, (streamer, t), one),
        call_ensures(SsdStreamer::load_named_tensor_f32, (streamer, gguf, name), r),
    ensures
        found is None ==> (r matches Err(LoadError::NotFound(n)) && n@ == name@),
        found is Some ==> (r is Ok <==> one is Ok),
        found is Some && r is Ok ==> r->Ok_0@ == one->Ok_0@,
        found is Some && r is Err ==> r->Err_0 == one->Err_0,
{
    model::lemma_position_of(gguf.tensors@, name@);
}

/// The norms of a layer are the tensors with their names: one before attention, one
/// before the feed-forward part.
pub proof fn lemma_norms_have_their_names(
    gguf: &GgufFile,
    streamer: &SsdStreamer<'_>,
    layer: u32,
    before_attention: bool,
    name: &str,
    loaded: Option<Vec<Weight>>,
    r: Option<Vec<Weight>>,
)
    requires
        before_attention ==> name@ == "blk."@ + text::decimal(layer as nat) + "."@
            + "attn_norm.weight"@,
        !before_attention ==> name@ == "blk."@ + text::decimal(layer as nat) + "."@
            + "ffn_norm.weight"@,
        call_ensures(try_load, (gguf, streamer, name), loaded),
        call_ensures(norm_weights, (gguf, streamer, layer, before_attention), r),
    ensures
        r is Some <==> loaded is Some,
        r is Some ==> r->Some_0@ == loaded->Some_0@,
{
}

/// A layer is prepared from its parts: the norm and the plan of attention, then
/// those of the feed-forward part.
pub proof fn lemma_layer_is_prepared_from_its_parts<'a>(
    gguf: &GgufFile,
    streamer: &SsdStreamer<'a>,
    layer: u32,
    n_embd: usize,
    attn_norm: Option<Vec<Weight>>,
    ffn_norm: Option<Vec<Weight>>,
    attention: Option<AttentionPlan<'a>>,
    feed: Option<FeedPlan<'a>>,
    p: LayerPlan<'a>,
)
    requires
        call_ensures(norm_weights, (gguf, streamer, layer, true), attn_norm),
        call_ensures(norm_weights, (gguf, streamer, layer, false), ffn_norm),
        call_ensures(attention_plan, (gguf, streamer, layer, n_embd), Ok(attention)),
        call_ensures(feed_plan, (gguf, streamer, layer), Ok(feed)),
        call_ensures(streaming_layer_forward, (gguf, streamer, layer, n_embd), Ok(p)),
    ensures
        view_of(p.attn_norm) == view_of(attn_norm),
        view_of(p.ffn_norm) == view_of(ffn_norm),
        p.attention is Some <==> attention is Some,
        p.attention is Some ==> {
            let x = p.attention->Some_0;
            let y = attention->Some_0;
            &&& x.query.raw@ == y.query.raw@ && x.query.dtype == y.query.dtype
            &&& x.key.raw@ == y.key.raw@ && x.key.dtype == y.key.dtype
            &&& x.value.raw@ == y.value.raw@ && x.value.dtype == y.value.dtype
            &&& x.output.raw@ == y.output.raw@ && x.output.dtype == y.output.dtype
            &&& x.q_dim == y.q_dim && x.kv_dim == y.kv_dim
            &&& view_of(x.q_norm) == view_of(y.q_norm) && view_of(x.k_norm) == view_of(y.k_norm)
        },
        p.feed is Some <==> feed is Some,
        p.feed is Some ==> {
            let x = p.feed->Some_0;
            let y = feed->Some_0;
            &&& x.gate.raw@ == y.gate.raw@ && x.gate.dtype == y.gate.dtype
            &&& x.up.raw@ == y.up.raw@ && x.up.dtype == y.up.dtype
            &&& x.down.raw@ == y.down.raw@ && x.down.dtype == y.down.dtype
            &&& x.n_ff == y.n_ff
        },
{
}

/// The output is projected through the output tensor, or else through the
/// embeddings, behind the final norm where the model has it; with neither, all
/// logits are zero.
pub proof fn lemma_output_is_projected(
    gguf: &GgufFile,
    streamer: &SsdStreamer<'_>,
    names: (&str, &str, &str),
    norm: Option<Vec<Weight>>,
    output: Option<Vec<Weight>>,
    table: Option<Vec<Weight>>,
    r: OutputPlan,
)
    requires
        names.0@ == "output_norm.weight"@,
        names.1@ == "output.weight"@,
        names.2@ == "token_embd.weight"@,
        call_ensures(try_load, (gguf, streamer, names.0), norm),
        call_ensures(try_load, (gguf, streamer, names.1), output),
        call_ensures(try_load, (gguf, streamer, names.2), table),
        call_ensures(output_plan, (gguf, streamer), r),
    ensures
        output is None && table is None <==> r is Zero,
        (output is Some || table is Some) ==> {
            let w = if output is Some {
                output->Some_0@
            } else {
                table->Some_0@
            };
            match r {
                OutputPlan::Normed(n, m) => norm matches Some(x) && n@ == x@ && m@ == w,
                OutputPlan::Bare(m) => norm is None && m@ == w,
                OutputPlan::Zero => false,
            }
        },
{
}

/// The tied output projection is had exactly if the final norm and the embeddings
/// are, and it is on the stored bytes of the embeddings.
pub proof fn lemma_tied_output_is_that_of_the_embeddings<'a>(
    gguf: &GgufFile,
    streamer: &SsdStreamer<'a>,
    names: (&str, &str),
    norm: Option<Vec<Weight>>,
    found: Option<&TensorInfo>,
    raw: Result<&'a [u8], LoadError>,
    r: Option<TiedOutput<'a>>,
)
    requires
        readable(*gguf, *streamer),
        names.0@ == "output_norm.weight"@,
        names.1@ == "token_embd.weight"@,
        call_ensures(try_load, (gguf, streamer, names.0), norm),
        call_ensures(GgufFile::find_tensor, (gguf, names.1), found),
        found matches Some(t) ==> call_ensures(SsdStreamer::raw_tensor_data, (streamer, t), raw),
        call_ensures(tied_output, (gguf, streamer), r),
    ensures
        r is Some <==> norm is Some && found is Some && raw is Ok,
        r matches Some(o) ==> o.norm@ == norm->Some_0@ && o.matrix.raw@ == raw->Ok_0@
            && o.matrix.dtype == found->Some_0.dtype,
{
}

/// The rows of a prompt are the rows of the embeddings for its tokens, in order, or
/// zeros where they cannot be read.
pub proof fn lemma_prompt_is_embedded(
    gguf: &GgufFile,
    streamer: &SsdStreamer<'_>,
    tokens: &[u32],
    n_embd: usize,
    name: &str,
    found: Option<&TensorInfo>,
    rows: Result<Vec<Vec<Weight>>, LoadError>,
    r: Vec<Vec<Weight>>,
    k: int,
)
    requires
        name@ == "token_embd.weight"@,
        call_ensures(GgufFile::find_tensor, (gguf, name), found),
        found matches Some(t) ==> call_ensures(
            SsdStreamer::load_tensor_rows,
            (streamer, t, tokens, n_embd),
            rows,
        ),
        call_ensures(prompt_embeddings, (gguf, streamer, tokens, n_embd), r),
        0 <= k < tokens@.len(),
    ensures
        r@.len() == tokens@.len(),
        found is Some && rows is Ok ==> r@[k]@ == rows->Ok_0@[k]@,
        found is None || rows is Err ==> r@[k]@ == Seq::new(
            n_embd as nat,
            |i: int| Weight::Plain(Single { bits: 0 }),
        ),
{
    assert(streamer::zeros(n_embd as int) == Seq::new(
        n_embd as nat,
        |i: int| Weight::Plain(Single { bits: 0 }),
    ));
    assert(r@[k]@ == embedding_row(*gguf, *streamer, tokens@[k], n_embd));
    if found is Some && rows is Ok {
        assert(rows->Ok_0@[k]@ == streamer::tensor_row(
            streamer.data(*found->Some_0),
            *found->Some_0,
            tokens@[k] as int,
            n_embd as int,
        ));
    }
}

/// The row of a decoded table for a token is the part of the table that begins at
/// that many rows, if the table holds it; else it has none, or zeros.
pub proof fn lemma_table_row_is_cut(
    table: &Vec<Weight>,
    view: &[Weight],
    tokens: &[u32],
    n_embd: usize,
    k: int,
    row: Option<Vec<Weight>>,
    r: Vec<Vec<Weight>>,
    none: Vec<Vec<Weight>>,
)
    requires
        view@ == table@,
        0 <= k < tokens@.len(),
        call_ensures(table_row, (view, tokens@[k], n_embd), row),
        call_ensures(table_embeddings, (Some(table), tokens, n_embd), r),
        call_ensures(table_embeddings, (None, tokens, n_embd), none),
    ensures
        ({
            let from = tokens@[k] * n_embd;
            let zeros = Seq::new(n_embd as nat, |i: int| Weight::Plain(Single { bits: 0 }));
            &&& r@.len() == tokens@.len() && none@.len() == tokens@.len()
            &&& row is Some <==> from + n_embd <= table@.len()
            &&& row matches Some(w) ==> w@ == table@.subrange(from, from + n_embd) && r@[k]@ == w@
            &&& row is None ==> r@[k]@ == zeros
            &&& none@[k]@ == zeros
        }),
{
    let zeros = Seq::new(n_embd as nat, |i: int| Weight::Plain(Single { bits: 0 }));
    assert(streamer::zeros(n_embd as int) == zeros);
    assert(r@[k]@ == streamer::decoded_row(table@, tokens@[k] as int, n_embd as int));
    assert(none@[k]@ == streamer::zeros(n_embd as int));
}

/// A generation begins behind its prompt with the whole budget: its rows are those
/// of the prompt, and its steps are the prefill from the first position on.
pub proof fn lemma_generation_begins(
    gguf: &GgufFile,
    streamer: &SsdStreamer<'_>,
    tokens: &[u32],
    config: &InferenceConfig,
    eos_id: u32,
    limit: Option<&str>,
    nanos: u64,
    shape: Result<ModelShape, ModelError>,
    rows: Vec<Vec<Weight>>,
    steps: Vec<PrefillStep>,
    n: usize,
    r: Result<GenerationPlan, ModelError>,
)
    requires
        gguf.n_head > 0,
        n == tokens@.len(),
        call_ensures(model_shape, (gguf,), shape),
        call_ensures(prompt_embeddings, (gguf, streamer, tokens, gguf.n_embd as usize), rows),
        call_ensures(batch_prefill, (gguf, n, 0, limit), steps),
        call_ensures(generate, (gguf, streamer, tokens, config, eos_id, limit, nanos), r),
    ensures
        r is Ok <==> shape is Ok,
        r matches Err(e) ==> shape == Err::<ModelShape, ModelError>(e),
        r matches Ok(p) ==> {
            &&& shape == Ok::<ModelShape, ModelError>(p.shape)
            &&& p.rows@.len() == rows@.len()
            &&& forall|k: int| 0 <= k < rows@.len() ==> (#[trigger] p.rows@[k])@ == rows@[k]@
            &&& p.steps@ == steps@
            &&& p.decoder.position == tokens@.len()
            &&& p.decoder.remaining == config.max_tokens
            &&& p.decoder.generated@.len() == 0 && !p.decoder.done
            &&& p.decoder.eos_id == eos_id
            &&& samples_as_asked(*config, nanos, p.sampler)
        },
{
    if r is Ok {
        let p = r->Ok_0;
        assert forall|k: int| 0 <= k < rows@.len() implies (#[trigger] p.rows@[k])@ == rows@[k]@ by {
            assert(rows@[k]@ == embedding_row(*gguf, *streamer, tokens@[k], gguf.n_embd as usize));
        }
    }
}

/// A streamed generation begins likewise, with rows that are cut from the decoded
/// embeddings; and so does an embedding, which has the final norm.
pub proof fn lemma_streamed_generation_begins(
    gguf: &GgufFile,
    streamer: &SsdStreamer<'_>,
    tokens: &[u32],
    config: &InferenceConfig,
    eos_id: u32,
    limit: Option<&str>,
    nanos: u64,
    names: (&str, &str),
    table: Option<Vec<Weight>>,
    norm: Option<Vec<Weight>>,
    rows: Vec<Vec<Weight>>,
    steps: Vec<PrefillStep>,
    n: usize,
    r: GenerationPlan,
    e: EmbeddingPlan,
)
    requires
        n == tokens@.len(),
        names.0@ == "token_embd.weight"@,
        names.1@ == "output_norm.weight"@,
        call_ensures(try_load, (gguf, streamer, names.0), table),
        call_ensures(try_load, (gguf, streamer, names.1), norm),
        table matches Some(t) ==> call_ensures(
            table_embeddings,
            (Some(&t), tokens, gguf.n_embd as usize),
            rows,
        ),
        table is None ==> call_ensures(
            table_embeddings,
            (None, tokens, gguf.n_embd as usize),
            rows,
        ),
        call_ensures(batch_prefill, (gguf, n, 0, limit), steps),
        call_ensures(
            generate_streaming,
            (gguf, streamer, tokens, config, eos_id, limit, nanos),
            Ok(r),
        ),
        call_ensures(embed, (gguf, streamer, tokens, limit), Ok(e)),
    ensures
        r.rows@.len() == rows@.len() && e.rows@.len() == rows@.len(),
        forall|k: int| 0 <= k < rows@.len() ==> (#[trigger] r.rows@[k])@ == rows@[k]@,
        forall|k: int| 0 <= k < rows@.len() ==> (#[trigger] e.rows@[k])@ == rows@[k]@,
        r.steps@ == steps@ && e.steps@ == steps@,
        r.decoder.position == tokens@.len(),
        r.decoder.remaining == config.max_tokens,
        r.decoder.generated@.len() == 0 && !r.decoder.done,
        r.decoder.eos_id == eos_id,
        samples_as_asked(*config, nanos, r.sampler),
        e.norm is Some <==> norm is Some,
        e.norm is Some ==> e.norm->Some_0@ == norm->Some_0@,
{
    assert forall|k: int| 0 <= k < rows@.len() implies rows@[k]@ == decoded_embedding(
        *gguf,
        *streamer,
        tokens@[k],
        gguf.n_embd as usize,
    ) by {
        assert(rows@.len() == tokens@.len());
    }
    assert forall|k: int| 0 <= k < rows@.len() implies (#[trigger] r.rows@[k])@ == rows@[k]@ by {
        assert(rows@[k]@ == decoded_embedding(*gguf, *streamer, tokens@[k], gguf.n_embd as usize));
    }
    assert forall|k: int| 0 <= k < rows@.len() implies (#[trigger] e.rows@[k])@ == rows@[k]@ by {
        assert(rows@[k]@ == decoded_embedding(*gguf, *streamer, tokens@[k], gguf.n_embd as usize));
    }
}

/// A generation goes on until it is done, its budget is used up or the cache is
/// full. A full cache ends it.
pub proof fn lemma_generation_is_polled(d: &mut Decoder, cache_full: bool, r: DecodeStep)
    requires
        call_ensures(Decoder::poll, (d, cache_full), r),
    ensures
        r is Sample <==> !old(d).done && old(d).remaining > 0 && !cache_full,
        final(d).done <==> old(d).done || (cache_full && old(d).remaining > 0),
        final(d).position == old(d).position && final(d).remaining == old(d).remaining,
        final(d).generated == old(d).generated && final(d).eos_id == old(d).eos_id,
{
}

/// The end token and the token zero end a generation; any other is computed at the
/// next position.
pub proof fn lemma_token_is_accepted(d: &mut Decoder, token: u32, r: Option<usize>)
    requires
        call_ensures(Decoder::accept, (d, token), r),
    ensures
        r is None <==> token == 0 || token == old(d).eos_id,
        r matches Some(p) ==> p == old(d).position,
        final(d).done <==> old(d).done || token == 0 || token == old(d).eos_id,
        final(d).position == old(d).position && final(d).remaining == old(d).remaining,
        final(d).generated == old(d).generated && final(d).eos_id == old(d).eos_id,
{
}

/// A token that was computed takes a position and one of the budget, and stands
/// behind the others.
pub proof fn lemma_token_is_recorded(d: &mut Decoder, token: u32)
    requires
        call_ensures(Decoder::advance, (d, token), ()),
    ensures
        final(d).position == old(d).position + 1,
        final(d).remaining + 1 == old(d).remaining,
        final(d).generated@ == old(d).generated@.push(token),
        final(d).done == old(d).done && final(d).eos_id == old(d).eos_id,
{
}

/// A generated token passes the model like a prompt of itself at its position, with
/// its row of the stored embeddings; unless it ends the generation.
pub proof fn lemma_generated_token_passes(
    d: &mut Decoder,
    token: u32,
    gguf: &GgufFile,
    streamer: &SsdStreamer<'_>,
    limit: Option<&str>,
    row: Option<Vec<Weight>>,
    steps: Vec<PrefillStep>,
    r: Option<TokenPass>,
)
    requires
        call_ensures(token_row, (gguf, streamer, token, gguf.n_embd as usize), row),
        call_ensures(forward_pass_pub, (gguf, old(d).position, limit), steps),
        call_ensures(Decoder::decode_token, (d, token, gguf, streamer, limit), r),
    ensures
        r is None <==> token == 0 || token == old(d).eos_id,
        r matches Some(p) ==> p.steps@ == steps@ && view_of(p.row) == view_of(row),
        final(d).done <==> old(d).done || r is None,
        final(d).position == old(d).position && final(d).generated == old(d).generated,
{
}

/// A token of a streamed generation passes likewise, with its row of the decoded
/// embeddings.
pub proof fn lemma_streamed_token_passes(
    d: &mut Decoder,
    token: u32,
    gguf: &GgufFile,
    streamer: &SsdStreamer<'_>,
    limit: Option<&str>,
    name: &str,
    table: Option<Vec<Weight>>,
    view: &[Weight],
    row: Option<Vec<Weight>>,
    steps: Vec<PrefillStep>,
    r: Option<TokenPass>,
)
    requires
        name@ == "token_embd.weight"@,
        call_ensures(try_load, (gguf, streamer, name), table),
        table matches Some(t) ==> view@ == t@ && call_ensures(
            table_row,
            (view, token, gguf.n_embd as usize),
            row,
        ),
        call_ensures(forward_pass_pub, (gguf, old(d).position, limit), steps),
        call_ensures(Decoder::next_token, (d, token, gguf, streamer, limit), r),
    ensures
        r is None <==> token == 0 || token == old(d).eos_id,
        r matches Some(p) ==> p.steps@ == steps@,
        r is Some && table is None ==> r->Some_0.row is None,
        r is Some && table is Some ==> view_of(r->Some_0.row) == view_of(row),
        final(d).done <==> old(d).done || r is None,
        final(d).position == old(d).position && final(d).generated == old(d).generated,
{
}

/// The row of a token is the one row that its prompt would have, if it can be read.
pub proof fn lemma_token_row_is_read(
    gguf: &GgufFile,
    streamer: &SsdStreamer<'_>,
    token: u32,
    n_embd: usize,
    name: &str,
    ids: &[u32],
    found: Option<&TensorInfo>,
    rows: Result<Vec<Vec<Weight>>, LoadError>,
    r: Option<Vec<Weight>>,
)
    requires
        name@ == "token_embd.weight"@,
        ids@ == seq![token],
        call_ensures(GgufFile::find_tensor, (gguf, name), found),
        found matches Some(t) ==> call_ensures(
            SsdStreamer::load_tensor_rows,
            (streamer, t, ids, n_embd),
            rows,
        ),
        call_ensures(token_row, (gguf, streamer, token, n_embd), r),
    ensures
        r is Some <==> found is Some && rows is Ok,
        r matches Some(row) ==> row@ == rows->Ok_0@[0]@,
{
    assert(ids@[0] == token);
    if found is Some && rows is Ok {
        assert(rows->Ok_0@[0]@ == streamer::tensor_row(
            streamer.data(*found->Some_0),
            *found->Some_0,
            token as int,
            n_embd as int,
        ));
    }
}

/// The next logits are asked for exactly if the generation goes on, and then through
/// the output projection of the model.
pub proof fn lemma_logits_are_asked_for<'a>(
    d: &mut Decoder,
    s: &mut Decoder,
    gguf: &GgufFile,
    streamer: &SsdStreamer<'a>,
    cache_full: bool,
    r: Option<Option<TiedOutput<'a>>>,
    q: Option<OutputPlan>,
)
    requires
        call_ensures(Decoder::decode_logits, (d, gguf, streamer, cache_full), r),
        call_ensures(Decoder::next_logits, (s, gguf, streamer, cache_full), q),
    ensures
        r is Some <==> !old(d).done && old(d).remaining > 0 && !cache_full,
        r matches Some(o) ==> projects_tied(*gguf, *streamer, o),
        final(d).done <==> old(d).done || (cache_full && old(d).remaining > 0),
        q is Some <==> !old(s).done && old(s).remaining > 0 && !cache_full,
        q matches Some(o) ==> projects(*gguf, *streamer, o),
        final(s).done <==> old(s).done || (cache_full && old(s).remaining > 0),
{
}

/// A cached tensor of a layer is found by the layer's number and its suffix.
pub proof fn lemma_cached_tensor_is_found(
    cached: &CachedLayer,
    suffix: &str,
    layer: u32,
    r: Option<&Vec<Weight>>,
)
    requires
        call_ensures(find_tensor_in_layer, (cached, suffix, layer), r),
    ensures
        ({
            let name = "blk."@ + text::decimal(layer as nat) + "."@ + suffix@;
            &&& r is Some <==> cached.contents().contains_key(name)
            &&& r matches Some(v) ==> v@ == cached.contents()[name]
        }),
{
}

/// The three tensors of an expert, by their names, as far as they are cached.
pub open spec fn expert_part(cached: CachedLayer, layer: u32, part: Seq<char>, e: nat) -> Option<
    Seq<Weight>,
> {
    let name = "blk."@ + text::decimal(layer as nat) + "."@ + (part + "."@ + text::decimal(e)
        + ".weight"@);
    if cached.contents().contains_key(name) {
        Some(cached.contents()[name])
    } else {
        None
    }
}

/// The feed-forward part is computed by experts exactly if the model has them and
/// the layer holds its router and all three tensors of each; each expert has its own.
/// Else it is computed by the dense network if the layer holds its three tensors.
pub proof fn lemma_feed_forward_is_chosen<'a>(
    cached: &'a CachedLayer,
    layer: u32,
    moe: Option<MoeConfig>,
    found: (
        Option<&'a Vec<Weight>>,
        Option<&'a Vec<Weight>>,
        Option<&'a Vec<Weight>>,
        Option<&'a Vec<Weight>>,
    ),
    names: (&str, &str, &str, &str),
    r: FeedForward<'a>,
    e: int,
)
    requires
        names.0@ == "ffn_gate_inp.weight"@,
        names.1@ == "ffn_gate.weight"@,
        names.2@ == "ffn_up.weight"@,
        names.3@ == "ffn_down.weight"@,
        call_ensures(find_tensor_in_layer, (cached, names.0, layer), found.0),
        call_ensures(find_tensor_in_layer, (cached, names.1, layer), found.1),
        call_ensures(find_tensor_in_layer, (cached, names.2, layer), found.2),
        call_ensures(find_tensor_in_layer, (cached, names.3, layer), found.3),
        call_ensures(run_ffn_or_moe, (cached, layer, moe), r),
    ensures
        r is Experts ==> (moe matches Some(config) && found.0 == Some(r->Experts_gate)
            && r->experts@.len() == config.n_experts && (0 <= e < config.n_experts ==> {
            let x = r->experts@[e];
            &&& expert_part(*cached, layer, "ffn_gate"@, e as nat) == Some(x.w_gate@)
            &&& expert_part(*cached, layer, "ffn_up"@, e as nat) == Some(x.w_up@)
            &&& expert_part(*cached, layer, "ffn_down"@, e as nat) == Some(x.w_down@)
        })),
        (moe matches Some(config) && found.0 is Some && forall|x: nat|
            x < config.n_experts ==> #[trigger] expert_part(*cached, layer, "ffn_gate"@, x) is Some
                && expert_part(*cached, layer, "ffn_up"@, x) is Some && expert_part(
                *cached,
                layer,
                "ffn_down"@,
                x,
            ) is Some) ==> r is Experts,
        !(r is Experts) ==> (r is Dense <==> found.1 is Some && found.2 is Some && found.3 is Some),
        r matches FeedForward::Dense { gate, up, down } ==> found.1 == Some(gate) && found.2
            == Some(up) && found.3 == Some(down),
{
    assert forall|x: nat, part: Seq<char>| #[trigger]
        expert_part(*cached, layer, part, x) == (match cached_tensor(
            *cached,
            layer,
            expert_suffix(part, x),
        ) {
            Some(v) => Some(v@),
            None => None,
        }) by {}
    if moe is Some && found.0 is Some && !routed(*cached, layer, moe) {
        let x = choose|x: nat|
            x < moe->Some_0.n_experts && !#[trigger] expert_cached(*cached, layer, x);
        assert(expert_part(*cached, layer, "ffn_gate"@, x) is None || expert_part(
            *cached,
            layer,
            "ffn_up"@,
            x,
        ) is None || expert_part(*cached, layer, "ffn_down"@, x) is None);
    }
}

/// A model has experts exactly if it is marked so and its counts are valid.
pub proof fn lemma_experts_are_detected(gguf: &GgufFile, valid: bool, r: Option<MoeConfig>)
    requires
        call_ensures(detect_moe_config, (gguf, valid), r),
    ensures
        r is Some <==> gguf.is_moe && valid,
        r matches Some(c) ==> c.n_experts == gguf.n_experts as usize && c.n_experts_used
            == gguf.n_experts_used as usize,
{
}

/// Adapters change exactly the cached tensors that have their names: each of those
/// gets its values, and all others stay.
pub proof fn lemma_adapters_change_their_tensors(
    cached: &mut CachedLayer,
    adapters: &[String],
    targets: Vec<String>,
    names: &[String],
    values: Vec<Vec<Weight>>,
    name: Seq<char>,
    i: int,
)
    requires
        names@ == targets@,
        call_ensures(layer_targets, (&*old(cached), adapters), targets),
        call_ensures(apply_lora_to_layer, (cached, names, values), ()),
    ensures
        text::views(names@).contains(name) <==> (exists|a: int|
            0 <= a < adapters@.len() && (#[trigger] adapters@[a])@ == name) && old(
            cached,
        ).contents().contains_key(name),
        forall|a: int, b: int|
            0 <= a < b < names@.len() ==> (#[trigger] names@[a])@ != (#[trigger] names@[b])@,
        final(cached).contents().contains_key(name) <==> old(cached).contents().contains_key(name),
        0 <= i < names@.len() ==> final(cached).contents()[names@[i]@] == values@[i]@,
        !text::views(names@).contains(name) ==> final(cached).contents()[name] == old(
            cached,
        ).contents()[name],
        final(cached).layer_idx == old(cached).layer_idx,
        final(cached).size_bytes == old(cached).size_bytes,
{
    let views = text::views(names@);
    assert forall|a: int, b: int| 0 <= a < b < names@.len() implies (#[trigger] names@[a])@ != (
    #[trigger] names@[b])@ by {
        assert(views[a] != views[b]);
    }
    assert(final(cached).contents().dom().contains(name) == old(cached).contents().dom().contains(
        name,
    ));
}

/// An invalid model is told with both dimensions.
pub proof fn lemma_invalid_model_is_told(e: &ModelError, r: String)
    requires
        call_ensures(ModelError::message, (e,), r),
    ensures
        *e matches ModelError::Invalid { n_embd, n_layers } ==> r@ == "Invalid model: n_embd="@
            + text::decimal(n_embd as nat) + ", n_layers="@ + text::decimal(n_layers as nat),
{
}

/// Attention has the norms of queries and keys where the layer has the tensors with
/// their names.
pub proof fn lemma_attention_has_its_norms<'a>(
    gguf: &GgufFile,
    streamer: &SsdStreamer<'a>,
    layer: u32,
    n_embd: usize,
    names: (&str, &str),
    norms: (Option<Vec<Weight>>, Option<Vec<Weight>>),
    p: AttentionPlan<'a>,
)
    requires
        names.0@ == "blk."@ + text::decimal(layer as nat) + "."@ + "attn_q_norm.weight"@,
        names.1@ == "blk."@ + text::decimal(layer as nat) + "."@ + "attn_k_norm.weight"@,
        call_ensures(try_load, (gguf, streamer, names.0), norms.0),
        call_ensures(try_load, (gguf, streamer, names.1), norms.1),
        call_ensures(attention_plan, (gguf, streamer, layer, n_embd), Ok(Some(p))),
    ensures
        p.q_norm is Some <==> norms.0 is Some,
        p.q_norm is Some ==> p.q_norm->Some_0@ == norms.0->Some_0@,
        p.k_norm is Some <==> norms.1 is Some,
        p.k_norm is Some ==> p.k_norm->Some_0@ == norms.1->Some_0@,
{
    assert(view_of(p.q_norm) == view_of(norms.0));
    assert(view_of(p.k_norm) == view_of(norms.1));
}

} // verus!
